//! The queue of packets waiting to be sent, ordered by priority.
//!
//! Each packet gets a weight when it is queued and packets leave lightest
//! first. The weights interleave the priorities so that for every two
//! packets of one priority one packet of the next lower priority is sent.

use vstd::prelude::*;
use vstd::multiset::Multiset;

use crate::internal_packet::InternalPacket;
use crate::packet::{priority_level, Priority};

verus! {

/// `2^level` for the four priority levels.
pub open spec fn level_factor(level: nat) -> nat {
    if level == 0 {
        1
    } else if level == 1 {
        2
    } else if level == 2 {
        4
    } else {
        8
    }
}

/// How much the weight grows from one packet of a priority level to the
/// next: `2^(level + 2)`, twice as much as for the level above.
pub open spec fn weight_step(level: nat) -> nat {
    4 * level_factor(level)
}

/// The weight of the first packet of a priority level queued since the
/// queue was last empty. The level itself is added so that no two levels
/// give the same weight and a higher priority wins where they would.
pub open spec fn initial_weight(level: nat) -> nat {
    weight_step(level) + level
}

/// The weight of packet `k` (counting from 0) of a priority level queued
/// since the queue was last empty, while nothing has left the queue.
pub open spec fn queued_weight(level: nat, k: nat) -> nat {
    initial_weight(level) + weight_step(level) * k
}

/// The next weights of the four priority levels in an empty queue.
pub open spec fn initial_weights() -> Seq<u64> {
    seq![
        initial_weight(0) as u64,
        initial_weight(1) as u64,
        initial_weight(2) as u64,
        initial_weight(3) as u64,
    ]
}

/// The weight given to a packet of priority level `level`, and the next
/// weights afterwards, when the next weights are `next` and the lightest
/// queued packet, if any, has weight and level `head`. In an empty queue
/// every level starts afresh. Otherwise a level whose next weight has
/// fallen behind the head restarts from the head: its packet gets the
/// weight it would have had if its level had started together with the
/// head's level.
pub open spec fn spec_next_weight(next: Seq<u64>, head: Option<(u64, u64)>, level: nat) -> (
    u64,
    Seq<u64>,
) {
    match head {
        None => (
            initial_weight(level) as u64,
            initial_weights().update(level as int, (initial_weight(level) + weight_step(level)) as u64),
        ),
        Some((head_weight, head_level)) => {
            let start = head_weight - initial_weight(head_level as nat) + initial_weight(level);
            let weight = if next[level as int] < start {
                start
            } else {
                next[level as int] as int
            };
            (weight as u64, next.update(level as int, (weight + weight_step(level)) as u64))
        },
    }
}

/// The number of the priorities that have level `level`.
pub open spec fn level_count(ps: Seq<Priority>, level: nat) -> nat
    decreases ps.len(),
{
    if ps.len() == 0 {
        0
    } else {
        level_count(ps.drop_last(), level) + if priority_level(ps.last()) == level {
            1nat
        } else {
            0nat
        }
    }
}

/// Two to one: packet `a` of a priority level weighs less than packet `b`
/// of the next lower level exactly when `a` is among the first `2b + 2`
/// packets of its level. So, of packets queued since the queue was last
/// empty, two of each level leave for every one of the next lower level.
pub proof fn lemma_two_to_one(level: nat, a: nat, b: nat)
    requires
        level < 3,
    ensures
        (queued_weight(level, a) < queued_weight(level + 1, b)) == (a <= 2 * b + 1),
{
    assert(weight_step(level + 1) == 2 * weight_step(level));
    let s = weight_step(level);
    assert(s >= 4);
    assert(queued_weight(level, a) == s * (a + 1) + level) by (nonlinear_arith)
        requires
            queued_weight(level, a) == s + level + s * a,
    ;
    assert(queued_weight(level + 1, b) == s * (2 * b + 2) + level + 1) by (nonlinear_arith)
        requires
            queued_weight(level + 1, b) == 2 * s + level + 1 + (2 * s) * b,
    ;
    if a <= 2 * b + 1 {
        assert(s * (a + 1) <= s * (2 * b + 2)) by (nonlinear_arith)
            requires
                a <= 2 * b + 1,
                s >= 4,
        ;
    } else {
        assert(s * (a + 1) >= s * (2 * b + 2) + s) by (nonlinear_arith)
            requires
                a >= 2 * b + 2,
                s >= 4,
        ;
    }
}

struct HeapItem {
    weight: u64,
    priority_level: u64,
    packet: InternalPacket,
}

/// The packets waiting to be sent.
pub struct OutgoingPacketHeap {
    packets: Vec<HeapItem>,
    next_weights: Vec<u64>,
}

impl OutgoingPacketHeap {
    /// The weight and priority level of each queued packet, lightest first.
    pub closed spec fn entries(&self) -> Seq<(u64, u64)> {
        self.packets@.map_values(|item: HeapItem| (item.weight, item.priority_level))
    }

    /// The queued packets, lightest first.
    pub closed spec fn packets(&self) -> Seq<InternalPacket> {
        self.packets@.map_values(|item: HeapItem| item.packet)
    }

    /// The weights the next packet of each priority level starts from.
    pub closed spec fn next_weights(&self) -> Seq<u64> {
        self.next_weights@
    }

    /// The queue is sorted by weight, every level is one of the four
    /// priority levels, and every weight is at least the initial weight of
    /// its level and below the next weight of its level.
    pub open spec fn wf(&self) -> bool {
        let e = self.entries();
        let n = self.next_weights();
        &&& self.packets().len() == e.len()
        &&& n.len() == 4
        &&& forall|i: int, j: int| 0 <= i <= j < e.len() ==> e[i].0 <= e[j].0
        &&& forall|i: int|
            0 <= i < e.len() ==> {
                &&& #[trigger] e[i].1 < 4
                &&& e[i].0 >= initial_weight(e[i].1 as nat)
            }
        &&& forall|l: int| 0 <= l < 4 ==> #[trigger] n[l] >= initial_weight(l as nat)
    }

    /// The weight and level of the lightest queued packet, if any.
    pub open spec fn head(&self) -> Option<(u64, u64)> {
        if self.entries().len() == 0 {
            None
        } else {
            Some(self.entries()[0])
        }
    }

    /// The weight the next packet of `priority` gets.
    pub open spec fn next_weight_for(&self, priority: Priority) -> u64 {
        spec_next_weight(self.next_weights(), self.head(), priority_level(priority) as nat).0
    }

    /// The weights are far enough from the largest `u64` that one more
    /// packet can be queued: the next weights and the lightest queued
    /// weight lie below 2^63.
    pub open spec fn has_weight_room(&self) -> bool {
        &&& forall|l: int| 0 <= l < 4 ==> #[trigger] self.next_weights()[l] < 0x8000_0000_0000_0000u64
        &&& self.entries().len() > 0 ==> self.entries()[0].0 < 0x8000_0000_0000_0000u64
    }

    /// `post` is `pre` with `packet` queued at priority `priority`: it
    /// gets the weight that its level gets next and goes after every
    /// packet of no larger weight and before every heavier one.
    pub open spec fn pushed(pre: OutgoingPacketHeap, priority: Priority, packet: InternalPacket, post: OutgoingPacketHeap) -> bool {
        let level = priority_level(priority);
        let (weight, next) = spec_next_weight(pre.next_weights(), pre.head(), level as nat);
        &&& post.next_weights() == next
        &&& exists|i: int|
            0 <= i <= pre.entries().len() && post.entries() == pre.entries().insert(i, (weight, level))
                && post.packets() == pre.packets().insert(i, packet) && (forall|j: int|
                0 <= j < i ==> pre.entries()[j].0 <= weight) && (forall|j: int|
                i <= j < pre.entries().len() ==> pre.entries()[j].0 > weight)
    }

    /// `post` is `pre` after a pop that returned `r`: the lightest packet
    /// leaves and is returned; an empty queue returns nothing.
    pub open spec fn popped(pre: OutgoingPacketHeap, r: Option<InternalPacket>, post: OutgoingPacketHeap) -> bool {
        &&& pre.entries().len() == 0 ==> r is None && post.packets() == pre.packets()
        &&& pre.entries().len() > 0 ==> r == Some(pre.packets()[0]) && post.packets()
            == pre.packets().drop_first()
    }

    /// An empty queue.
    pub fn new() -> (r: OutgoingPacketHeap)
        ensures
            r.wf(),
            r.entries().len() == 0,
            r.next_weights() == initial_weights(),
    {
        let r = OutgoingPacketHeap { packets: Vec::new(), next_weights: Self::get_initial_heap_weights() };
        assert(r.entries() =~= Seq::<(u64, u64)>::empty());
        assert(r.packets() =~= Seq::<InternalPacket>::empty());
        r
    }

    /// Whether one more packet can be queued without the weights
    /// overflowing.
    pub fn can_push(&self) -> (r: bool)
        requires
            self.wf(),
        ensures
            r == self.has_weight_room(),
    {
        let mut l: usize = 0;
        while l < 4
            invariant
                l <= 4,
                self.next_weights@.len() == 4,
                forall|k: int| 0 <= k < l ==> #[trigger] self.next_weights()[k] < 0x8000_0000_0000_0000u64,
            decreases 4 - l,
        {
            if self.next_weights[l] >= 0x8000_0000_0000_0000u64 {
                assert(self.next_weights()[l as int] >= 0x8000_0000_0000_0000u64);
                return false;
            }
            l = l + 1;
        }
        if self.packets.len() > 0 {
            assert(self.entries()[0].0 == self.packets@[0].weight);
            if self.packets[0].weight >= 0x8000_0000_0000_0000u64 {
                return false;
            }
        }
        true
    }

    /// Queues `packet` with the weight that its priority gets next.
    pub fn push(&mut self, priority: Priority, packet: InternalPacket)
        requires
            old(self).wf(),
            old(self).has_weight_room(),
        ensures
            final(self).wf(),
            OutgoingPacketHeap::pushed(*old(self), priority, packet, *final(self)),
    {
        let priority_level = priority.level();
        let weight = self.get_next_weight(priority);
        let item = HeapItem { weight, priority_level, packet };
        self.insert_by_weight(item);
    }

    /// Removes and returns the lightest packet.
    pub fn pop(&mut self) -> (r: Option<InternalPacket>)
        requires
            old(self).wf(),
        ensures
            final(self).wf(),
            final(self).next_weights() == old(self).next_weights(),
            old(self).entries().len() == 0 ==> r is None && final(self).entries() == old(self).entries(),
            old(self).entries().len() > 0 ==> (r matches Some(p) && p == old(self).packets()[0]
                && final(self).entries() == old(self).entries().drop_first()
                && final(self).packets() == old(self).packets().drop_first()),
            OutgoingPacketHeap::popped(*old(self), r, *final(self)),
    {
        if self.packets.len() == 0 {
            return None;
        }
        let ghost e = self.entries();
        let ghost ps = self.packets();
        let item = self.packets.remove(0);
        assert(self.entries() =~= e.drop_first());
        assert(self.packets() =~= ps.drop_first());
        assert forall|i: int, j: int| 0 <= i <= j < self.entries().len() implies self.entries()[i].0
            <= self.entries()[j].0 by {
            assert(self.entries()[i] == e[i + 1] && self.entries()[j] == e[j + 1]);
        }
        assert forall|i: int| 0 <= i < self.entries().len() implies #[trigger] self.entries()[i].1
            < 4 && self.entries()[i].0 >= initial_weight(self.entries()[i].1 as nat) by {
            assert(self.entries()[i] == e[i + 1]);
        }
        Some(item.packet)
    }

    /// The lightest packet.
    pub fn peek(&self) -> (r: Option<&InternalPacket>)
        requires
            self.wf(),
        ensures
            self.entries().len() == 0 ==> r is None,
            self.entries().len() > 0 ==> (r matches Some(p) && *p == self.packets()[0]),
    {
        if self.packets.len() == 0 {
            None
        } else {
            Some(&self.packets[0].packet)
        }
    }

    /// `2^level` for a priority level.
    fn level_factor(level: u64) -> (r: u64)
        requires
            level < 4,
        ensures
            r == level_factor(level as nat),
    {
        if level == 0 {
            1
        } else if level == 1 {
            2
        } else if level == 2 {
            4
        } else {
            8
        }
    }

    /// The weight the next packet of `priority` gets; updates the next
    /// weights.
    fn get_next_weight(&mut self, priority: Priority) -> (r: u64)
        requires
            old(self).wf(),
            old(self).has_weight_room(),
        ensures
            ({
                let level = priority_level(priority);
                let (weight, next) = spec_next_weight(old(self).next_weights(), old(self).head(), level as nat);
                &&& r == weight
                &&& final(self).next_weights() == next
                &&& r >= initial_weight(level as nat)
            }),
            final(self).entries() == old(self).entries(),
            final(self).packets() == old(self).packets(),
            final(self).next_weights().len() == 4,
            forall|l: int| 0 <= l < 4 ==> #[trigger] final(self).next_weights()[l] >= initial_weight(l as nat),
    {
        let level = priority.level();
        let step = Self::level_factor(level) * 4;
        let initial = step + level;
        if self.packets.len() == 0 {
            self.next_weights = Self::get_initial_heap_weights();
            self.next_weights.set(level as usize, initial + step);
            return initial;
        }
        let head_level = self.packets[0].priority_level;
        let head_weight = self.packets[0].weight;
        assert(self.entries()[0] == (head_weight, head_level));
        assert(self.entries()[0].1 < 4);
        let head_initial = Self::level_factor(head_level) * 4 + head_level;
        let start = head_weight - head_initial + initial;
        let mut next_weight = self.next_weights[level as usize];
        if next_weight < start {
            next_weight = start;
        }
        self.next_weights.set(level as usize, next_weight + step);
        next_weight
    }

    /// The next weights of the priority levels in an empty queue.
    fn get_initial_heap_weights() -> (r: Vec<u64>)
        ensures
            r@ == initial_weights(),
    {
        let mut r: Vec<u64> = Vec::new();
        r.push(4);
        r.push(9);
        r.push(18);
        r.push(35);
        assert(r@ =~= initial_weights());
        r
    }

    /// Inserts an item after every queued item of no larger weight.
    fn insert_by_weight(&mut self, item: HeapItem)
        requires
            old(self).entries().len() == old(self).packets().len(),
            forall|i: int, j: int|
                0 <= i <= j < old(self).entries().len() ==> old(self).entries()[i].0 <= old(self).entries()[j].0,
        ensures
            final(self).next_weights() == old(self).next_weights(),
            final(self).entries().len() == final(self).packets().len(),
            forall|i: int, j: int|
                0 <= i <= j < final(self).entries().len() ==> final(self).entries()[i].0 <= final(self).entries()[j].0,
            exists|i: int|
                0 <= i <= old(self).entries().len() && final(self).entries() == old(self).entries().insert(i, (item.weight, item.priority_level)) && final(self).packets()
                    == old(self).packets().insert(i, item.packet) && (forall|j: int|
                    0 <= j < i ==> old(self).entries()[j].0 <= item.weight) && (forall|j: int|
                    i <= j < old(self).entries().len() ==> old(self).entries()[j].0 > item.weight),
    {
        let ghost e = self.entries();
        let ghost ps = self.packets();
        let ghost x = (item.weight, item.priority_level);
        let ghost pk = item.packet;
        let mut i: usize = 0;
        while i < self.packets.len() && self.packets[i].weight <= item.weight
            invariant
                i <= self.packets@.len(),
                self.entries() == e,
                self.packets() == ps,
                forall|j: int| 0 <= j < i ==> e[j].0 <= item.weight,
            decreases self.packets@.len() - i,
        {
            assert(e[i as int].0 == self.packets@[i as int].weight);
            i = i + 1;
        }
        if i < self.packets.len() {
            assert(e[i as int].0 == self.packets@[i as int].weight);
        }
        self.packets.insert(i, item);
        assert(self.entries() =~= e.insert(i as int, x));
        assert(self.packets() =~= ps.insert(i as int, pk));
        assert forall|j: int| i <= j < e.len() implies e[j].0 > x.0 by {
            assert(e[i as int].0 <= e[j].0);
        }
        let ghost n = self.entries();
        assert forall|p: int, q: int| 0 <= p <= q < n.len() implies n[p].0 <= n[q].0 by {
            if p < i && q > i {
                assert(n[p] == e[p] && n[q] == e[q - 1]);
            } else if p == i && q > i {
                assert(n[q] == e[q - 1]);
            } else if p > i {
                assert(n[p] == e[p - 1] && n[q] == e[q - 1]);
            } else if q < i {
                assert(n[p] == e[p] && n[q] == e[q]);
            }
        }
    }
}

/// What holds after the first `i` of the pushes of `prios` into a queue
/// that started empty, while nothing left it: each level's next weight is
/// the weight of its next packet, the lightest packet is the first of its
/// level, and the first packet of every level pushed so far is queued.
pub open spec fn pushes_from_empty_inv(prios: Seq<Priority>, states: Seq<OutgoingPacketHeap>, i: int) -> bool {
    let h = states[i];
    &&& i == 0 ==> h.entries().len() == 0
    &&& i > 0 ==> forall|l: int|
        0 <= l < 4 ==> #[trigger] h.next_weights()[l] == queued_weight(
            l as nat,
            level_count(prios.take(i), l as nat),
        )
    &&& h.entries().len() > 0 ==> h.entries()[0].0 == initial_weight(h.entries()[0].1 as nat)
    &&& forall|l: int|
        0 <= l < 4 && #[trigger] level_count(prios.take(i), l as nat) > 0 ==> exists|k: int|
            0 <= k < h.entries().len() && h.entries()[k] == (initial_weight(l as nat) as u64, l as u64)
}

/// Counting the levels of one more priority.
proof fn lemma_level_count_take(prios: Seq<Priority>, i: int, l: nat)
    requires
        0 <= i < prios.len(),
    ensures
        level_count(prios.take(i + 1), l) == level_count(prios.take(i), l) + if priority_level(prios[i])
            == l {
            1nat
        } else {
            0nat
        },
{
    assert(prios.take(i + 1).drop_last() =~= prios.take(i));
    assert(prios.take(i + 1).last() == prios[i]);
}

/// One push keeps `pushes_from_empty_inv` and gives the pushed packet the
/// weight `queued_weight` of its level and count.
#[verifier::spinoff_prover]
#[verifier::rlimit(40)]
proof fn lemma_push_from_empty_step(
    prios: Seq<Priority>,
    packets: Seq<InternalPacket>,
    states: Seq<OutgoingPacketHeap>,
    i: int,
)
    requires
        states.len() == prios.len() + 1,
        packets.len() == prios.len(),
        0 <= i < prios.len(),
        states[i].wf(),
        states[i].has_weight_room(),
        OutgoingPacketHeap::pushed(states[i], prios[i], packets[i], states[i + 1]),
        pushes_from_empty_inv(prios, states, i),
    ensures
        pushes_from_empty_inv(prios, states, i + 1),
        states[i].next_weight_for(prios[i]) == queued_weight(
            priority_level(prios[i]) as nat,
            level_count(prios.take(i), priority_level(prios[i]) as nat),
        ),
{
    let pre = states[i];
    let post = states[i + 1];
    let lv = priority_level(prios[i]);
    let big_l = lv as nat;
    let c = level_count(prios.take(i), big_l);
    assert forall|l: nat| l < 4 implies #[trigger] level_count(prios.take(i + 1), l) == level_count(prios.take(i), l)
        + if lv == l {
        1nat
    } else {
        0nat
    } by {
        lemma_level_count_take(prios, i, l);
    }
    let (w, next) = spec_next_weight(pre.next_weights(), pre.head(), big_l);
    assert(weight_step(big_l) >= 4);
    if pre.entries().len() == 0 {
        assert forall|l: int| 0 <= l < 4 implies #[trigger] level_count(prios.take(i), l as nat) == 0 by {
            if level_count(prios.take(i), l as nat) > 0 {
                let k = choose|k: int|
                    0 <= k < pre.entries().len() && pre.entries()[k] == (
                        initial_weight(l as nat) as u64,
                        l as u64,
                    );
            }
        }
        assert(c == 0);
        assert(weight_step(big_l) * 0 == 0);
        assert(w == queued_weight(big_l, 0));
        assert forall|l: int| 0 <= l < 4 implies #[trigger] post.next_weights()[l] == queued_weight(
            l as nat,
            level_count(prios.take(i + 1), l as nat),
        ) by {
            assert(level_count(prios.take(i), l as nat) == 0);
            assert(level_count(prios.take(i + 1), l as nat) == level_count(prios.take(i), l as nat) + if lv
                == l as nat {
                1nat
            } else {
                0nat
            });
            assert(weight_step(l as nat) * 0 == 0);
            assert(weight_step(l as nat) * 1 == weight_step(l as nat));
            if l != lv {
                assert(post.next_weights()[l] == initial_weights()[l]);
            }
        }
    } else {
        let (hw, hl) = pre.entries()[0];
        assert(pre.next_weights()[lv as int] == queued_weight(big_l, c));
        assert(w == queued_weight(big_l, c));
        assert forall|l: int| 0 <= l < 4 implies #[trigger] post.next_weights()[l] == queued_weight(
            l as nat,
            level_count(prios.take(i + 1), l as nat),
        ) by {
            if l == lv {
                assert(queued_weight(big_l, c) + weight_step(big_l) == queued_weight(big_l, c + 1))
                    by (nonlinear_arith);
            }
        }
    }
    let j = choose|j: int|
        0 <= j <= pre.entries().len() && post.entries() == pre.entries().insert(j, (w, lv))
            && post.packets() == pre.packets().insert(j, packets[i]) && (forall|q: int|
            0 <= q < j ==> pre.entries()[q].0 <= w) && (forall|q: int|
            j <= q < pre.entries().len() ==> pre.entries()[q].0 > w);
    if c > 0 {
        let k = choose|k: int|
            0 <= k < pre.entries().len() && pre.entries()[k] == (initial_weight(big_l) as u64, lv);
        assert(w > initial_weight(big_l)) by (nonlinear_arith)
            requires
                w == initial_weight(big_l) + weight_step(big_l) * c,
                c > 0,
                weight_step(big_l) >= 4,
        ;
        assert(j > 0) by {
            if j == 0 {
                assert(pre.entries()[k].0 > w);
            }
        }
    }
    if post.entries().len() > 0 {
        if j == 0 {
            assert(post.entries()[0] == (w, lv));
        } else {
            assert(post.entries()[0] == pre.entries()[0]);
        }
    }
    assert forall|l: int|
        0 <= l < 4 && #[trigger] level_count(prios.take(i + 1), l as nat) > 0 implies exists|k: int|
        0 <= k < post.entries().len() && post.entries()[k] == (initial_weight(l as nat) as u64, l as u64) by {
        if l == lv && c == 0 {
            assert(weight_step(big_l) * 0 == 0);
            assert(w == initial_weight(big_l));
            assert(post.entries()[j] == (w, lv));
            assert(post.entries()[j] == (initial_weight(l as nat) as u64, l as u64));
        } else {
            assert(level_count(prios.take(i), l as nat) > 0);
            let k = choose|k: int|
                0 <= k < pre.entries().len() && pre.entries()[k] == (
                    initial_weight(l as nat) as u64,
                    l as u64,
                );
            if k < j {
                assert(post.entries()[k] == pre.entries()[k]);
            } else {
                assert(post.entries()[k + 1] == pre.entries()[k]);
            }
        }
    }
}

/// While packets are only queued, starting from an empty queue, packet
/// `k` of each priority level (counting from 0) gets the weight
/// `queued_weight(level, k)`; so by `lemma_two_to_one`, for every two
/// packets of one priority one packet of the next lower priority leaves.
pub proof fn lemma_weights_from_empty(
    prios: Seq<Priority>,
    packets: Seq<InternalPacket>,
    states: Seq<OutgoingPacketHeap>,
)
    requires
        states.len() == prios.len() + 1,
        packets.len() == prios.len(),
        states[0].entries().len() == 0,
        forall|i: int| 0 <= i < prios.len() ==> (#[trigger] states[i]).wf() && states[i].has_weight_room(),
        forall|i: int|
            0 <= i < prios.len() ==> #[trigger] OutgoingPacketHeap::pushed(
                states[i],
                prios[i],
                packets[i],
                states[i + 1],
            ),
    ensures
        forall|i: int|
            0 <= i < prios.len() ==> (#[trigger] states[i]).next_weight_for(prios[i]) == queued_weight(
                priority_level(prios[i]) as nat,
                level_count(prios.take(i), priority_level(prios[i]) as nat),
            ),
{
    assert forall|i: int| 0 <= i <= prios.len() implies pushes_from_empty_inv(prios, states, i) by {
        lemma_pushes_from_empty_prefix(prios, packets, states, i);
    }
    assert forall|i: int| 0 <= i < prios.len() implies (#[trigger] states[i]).next_weight_for(prios[i])
        == queued_weight(
        priority_level(prios[i]) as nat,
        level_count(prios.take(i), priority_level(prios[i]) as nat),
    ) by {
        assert(OutgoingPacketHeap::pushed(states[i], prios[i], packets[i], states[i + 1]));
        lemma_push_from_empty_step(prios, packets, states, i);
    }
}

/// `pushes_from_empty_inv` holds after each prefix of the pushes.
proof fn lemma_pushes_from_empty_prefix(
    prios: Seq<Priority>,
    packets: Seq<InternalPacket>,
    states: Seq<OutgoingPacketHeap>,
    i: int,
)
    requires
        states.len() == prios.len() + 1,
        packets.len() == prios.len(),
        states[0].entries().len() == 0,
        forall|i: int| 0 <= i < prios.len() ==> (#[trigger] states[i]).wf() && states[i].has_weight_room(),
        forall|i: int|
            0 <= i < prios.len() ==> #[trigger] OutgoingPacketHeap::pushed(
                states[i],
                prios[i],
                packets[i],
                states[i + 1],
            ),
        0 <= i <= prios.len(),
    ensures
        pushes_from_empty_inv(prios, states, i),
    decreases i,
{
    if i == 0 {
        assert forall|l: int| 0 <= l < 4 implies #[trigger] level_count(prios.take(0), l as nat) == 0 by {
            assert(prios.take(0) =~= Seq::<Priority>::empty());
        }
    } else {
        let k = i - 1;
        lemma_pushes_from_empty_prefix(prios, packets, states, k);
        assert(states[k].wf() && states[k].has_weight_room());
        assert(OutgoingPacketHeap::pushed(states[k], prios[k], packets[k], states[k + 1]));
        lemma_push_from_empty_step(prios, packets, states, k);
    }
}

/// The packets of the pushes among `ops` (`Some` is a push, `None` a pop).
pub open spec fn pushed_packets(ops: Seq<Option<(Priority, InternalPacket)>>) -> Multiset<InternalPacket>
    decreases ops.len(),
{
    if ops.len() == 0 {
        Multiset::empty()
    } else {
        let m = pushed_packets(ops.drop_last());
        match ops.last() {
            Some((_, p)) => m.insert(p),
            None => m,
        }
    }
}

/// The packets that pops returned.
pub open spec fn returned_packets(outs: Seq<Option<InternalPacket>>) -> Multiset<InternalPacket>
    decreases outs.len(),
{
    if outs.len() == 0 {
        Multiset::empty()
    } else {
        let m = returned_packets(outs.drop_last());
        match outs.last() {
            Some(p) => m.insert(p),
            None => m,
        }
    }
}

/// The queue loses and invents no packet: after any pushes (`Some` in
/// `ops`, with nothing in `outs`) and pops (`None`, returning `outs`) from
/// an empty queue, the
/// packets still queued and those that pops returned are exactly the
/// pushed packets. So popping until nothing comes back returns each
/// pushed packet exactly once.
pub proof fn lemma_queue_keeps_packets(
    ops: Seq<Option<(Priority, InternalPacket)>>,
    outs: Seq<Option<InternalPacket>>,
    states: Seq<OutgoingPacketHeap>,
)
    requires
        states.len() == ops.len() + 1,
        outs.len() == ops.len(),
        states[0].packets().len() == 0,
        forall|i: int|
            0 <= i < ops.len() ==> match #[trigger] ops[i] {
                Some((priority, packet)) => OutgoingPacketHeap::pushed(
                    states[i],
                    priority,
                    packet,
                    states[i + 1],
                ) && outs[i] is None,
                None => OutgoingPacketHeap::popped(states[i], outs[i], states[i + 1]),
            },
        forall|i: int| 0 <= i < ops.len() ==> (#[trigger] states[i]).wf(),
    ensures
        states.last().packets().to_multiset().add(returned_packets(outs)) == pushed_packets(ops),
    decreases ops.len(),
{
    broadcast use vstd::seq_lib::group_to_multiset_ensures;
    broadcast use vstd::multiset::group_multiset_axioms;

    let n = ops.len() as int;
    if n == 0 {
        assert(states[0].packets().to_multiset() =~= Multiset::empty());
        assert(states.last().packets().to_multiset().add(returned_packets(outs)) =~= pushed_packets(ops));
    } else {
        let k = n - 1;
        lemma_queue_keeps_packets(ops.drop_last(), outs.drop_last(), states.drop_last());
        let pre = states[k];
        let post = states[n];
        assert(states.drop_last().last() == pre);
        let before = pre.packets().to_multiset().add(returned_packets(outs.drop_last()));
        assert(outs.last() == outs[k]);
        assert(ops.last() == ops[k]);
        assert(before == pushed_packets(ops.drop_last()));
        assert(pre.packets().len() == pre.entries().len());
        match ops[k] {
            Some((priority, packet)) => {
                assert(OutgoingPacketHeap::pushed(pre, priority, packet, post));
                let (w, next) = spec_next_weight(pre.next_weights(), pre.head(), priority_level(priority) as nat);
                let i = choose|i: int|
                    0 <= i <= pre.entries().len() && post.entries() == pre.entries().insert(
                        i,
                        (w, priority_level(priority)),
                    ) && post.packets() == pre.packets().insert(i, packet) && (forall|j: int|
                        0 <= j < i ==> pre.entries()[j].0 <= w) && (forall|j: int|
                        i <= j < pre.entries().len() ==> pre.entries()[j].0 > w);
                assert(post.packets().to_multiset() == pre.packets().to_multiset().insert(packet));
                assert(post.packets().to_multiset().add(returned_packets(outs)) =~= before.insert(packet));
            },
            None => {
                assert(OutgoingPacketHeap::popped(pre, outs[k], post));
                if pre.entries().len() == 0 {
                    assert(post.packets().to_multiset().add(returned_packets(outs)) =~= before);
                } else {
                    assert(pre.packets().drop_first() == pre.packets().remove(0));
                    assert(post.packets().to_multiset() == pre.packets().to_multiset().remove(pre.packets()[0]));
                    assert(pre.packets().to_multiset().count(pre.packets()[0]) > 0);
                    assert(post.packets().to_multiset().add(returned_packets(outs)) =~= before);
                }
            },
        }
    }
}

} // verus!

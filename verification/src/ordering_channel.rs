//! Reordering of ordered and sequenced packets within one ordering
//! channel.
//!
//! A channel waits for the packet with the expected ordering index. Packets
//! with a later ordering index are buffered until their turn; packets with
//! an earlier one are dropped. Sequenced packets share the ordering index of
//! the ordered packet they follow and are delivered unless a newer
//! sequenced packet of that index was already delivered.

use vstd::prelude::*;

use crate::number::{
    lemma_u24_bound, u24, u24_modulus, wrapping_add_spec, wrapping_lt_spec, wrapping_sub_spec,
    OrderingIndex, SequencingIndex,
};

verus! {

/// A buffered packet: its weight, sequencing index, ordering index and
/// payload.
pub type Buffered = (u64, Option<nat>, nat, Seq<u8>);

/// The weight that orders buffered packets: packets are released by
/// increasing distance of their ordering index from `offset`, and within
/// one ordering index by sequencing index, with the ordered packet last.
pub open spec fn spec_weight(offset: nat, ordering_index: nat, sequencing_index: Option<nat>) -> u64 {
    (wrapping_sub_spec(ordering_index, offset) * 0x1_0000_0000 + match sequencing_index {
        Some(s) => s,
        None => 0xFFFF_FFFFnat,
    }) as u64
}

/// The buffered packets are sorted by weight.
pub open spec fn sorted_by_weight(s: Seq<Buffered>) -> bool {
    forall|i: int, j: int| 0 <= i <= j < s.len() ==> s[i].0 <= s[j].0
}

/// `new` is `old` with `x` inserted after every packet of no larger weight
/// and before every packet of larger weight.
pub open spec fn inserted_by_weight(old: Seq<Buffered>, x: Buffered, new: Seq<Buffered>) -> bool {
    exists|i: int|
        0 <= i <= old.len() && new == old.insert(i, x) && (forall|j: int| 0 <= j < i ==> old[j].0
            <= x.0) && (forall|j: int| i <= j < old.len() ==> old[j].0 > x.0)
}

/// One step of releasing buffered packets from channel state
/// (`expected_ordering`, `expected_sequencing`, `buffered`): the lightest
/// buffered packet is released when it has the expected ordering index.
pub open spec fn spec_next(e: nat, es: nat, b: Seq<Buffered>) -> Option<
    (Seq<u8>, nat, nat, Seq<Buffered>),
> {
    if b.len() > 0 && b[0].2 == e {
        match b[0].1 {
            Some(s) => Some((b[0].3, e, wrapping_add_spec(s, 1), b.drop_first())),
            None => Some((b[0].3, wrapping_add_spec(e, 1), 0, b.drop_first())),
        }
    } else {
        None
    }
}

/// Releasing buffered packets until the lightest one is not due: the
/// released payloads in order and the resulting channel state.
pub open spec fn spec_drain(e: nat, es: nat, b: Seq<Buffered>) -> (
    Seq<Seq<u8>>,
    nat,
    nat,
    Seq<Buffered>,
)
    decreases b.len(),
{
    match spec_next(e, es, b) {
        None => (Seq::empty(), e, es, b),
        Some((p, e2, es2, b2)) => {
            let (ps, e3, es3, b3) = spec_drain(e2, es2, b2);
            (seq![p] + ps, e3, es3, b3)
        },
    }
}

struct PacketWithWeight {
    weight: u64,
    sequencing_index: Option<SequencingIndex>,
    ordering_index: OrderingIndex,
    payload: Vec<u8>,
}

impl PacketWithWeight {
    spec fn view(&self) -> Buffered {
        (
            self.weight,
            match self.sequencing_index {
                Some(s) => Some(s@),
                None => None,
            },
            self.ordering_index@,
            self.payload@,
        )
    }
}

/// The state of one ordering channel.
pub struct OrderingChannel {
    ordering_index_offset: OrderingIndex,
    expected_ordering_index: OrderingIndex,
    expected_sequencing_index: SequencingIndex,
    packets: Vec<PacketWithWeight>,
}

impl OrderingChannel {
    /// The ordering index that is delivered next.
    pub closed spec fn expected_ordering(&self) -> nat {
        self.expected_ordering_index@
    }

    /// The lowest sequencing index still delivered for the expected
    /// ordering index.
    pub closed spec fn expected_sequencing(&self) -> nat {
        self.expected_sequencing_index@
    }

    /// The ordering index the weights of buffered packets are measured from.
    pub closed spec fn offset(&self) -> nat {
        self.ordering_index_offset@
    }

    /// The buffered packets, lightest first.
    pub closed spec fn buffered(&self) -> Seq<Buffered> {
        self.packets@.map_values(|p: PacketWithWeight| p.view())
    }

    /// The buffered packets stay sorted by weight.
    pub open spec fn wf(&self) -> bool {
        sorted_by_weight(self.buffered())
    }

    /// The effect of an incoming packet with sequencing index `seq` (none
    /// for an ordered packet), ordering index `oi` and payload `payload`
    /// on channel `pre`, giving channel `post` and the payload delivered
    /// right away, if any.
    pub open spec fn incoming(
        pre: OrderingChannel,
        seq: Option<nat>,
        oi: nat,
        payload: Seq<u8>,
        post: OrderingChannel,
        r: Option<Seq<u8>>,
    ) -> bool {
        let e = pre.expected_ordering();
        let es = pre.expected_sequencing();
        let unchanged = post.expected_ordering() == e && post.expected_sequencing() == es
            && post.offset() == pre.offset() && post.buffered() == pre.buffered();
        &&& r matches Some(p) ==> p == payload
        &&& if oi == e {
            match seq {
                Some(s) => if wrapping_lt_spec(s, es) {
                    r is None && unchanged
                } else {
                    r is Some && post.expected_ordering() == e && post.expected_sequencing()
                        == wrapping_add_spec(s, 1) && post.offset() == pre.offset()
                        && post.buffered() == pre.buffered()
                },
                None => r is Some && post.expected_ordering() == wrapping_add_spec(e, 1)
                    && post.expected_sequencing() == 0 && post.offset() == pre.offset()
                    && post.buffered() == pre.buffered(),
            }
        } else if wrapping_lt_spec(oi, e) {
            r is None && unchanged
        } else {
            let offset = if pre.buffered().len() == 0 {
                e
            } else {
                pre.offset()
            };
            &&& r is None
            &&& post.expected_ordering() == e
            &&& post.expected_sequencing() == es
            &&& post.offset() == offset
            &&& inserted_by_weight(
                pre.buffered(),
                (spec_weight(offset, oi, seq), seq, oi, payload),
                post.buffered(),
            )
        }
    }

    pub fn new() -> (r: OrderingChannel)
        ensures
            r.expected_ordering() == 0,
            r.expected_sequencing() == 0,
            r.offset() == 0,
            r.buffered() == Seq::<Buffered>::empty(),
            r.wf(),
    {
        let r = OrderingChannel {
            ordering_index_offset: u24::zero(),
            expected_ordering_index: u24::zero(),
            expected_sequencing_index: u24::zero(),
            packets: Vec::new(),
        };
        assert(r.buffered() =~= Seq::<Buffered>::empty());
        r
    }
    /// Processes an incoming ordered (`sequencing_index` is `None`) or
    /// sequenced packet. Returns the payload when the packet is delivered
    /// right away; buffers a packet whose ordering index lies ahead and
    /// drops one whose ordering or sequencing index lies behind.
    pub fn process_incoming(
        &mut self,
        sequencing_index: Option<SequencingIndex>,
        ordering_index: OrderingIndex,
        payload: Vec<u8>,
    ) -> (r: Option<Vec<u8>>)
        requires
            old(self).wf(),
        ensures
            final(self).wf(),
            OrderingChannel::incoming(
                *old(self),
                match sequencing_index {
                    Some(s) => Some(s@),
                    None => None,
                },
                ordering_index@,
                payload@,
                *final(self),
                match r {
                    Some(p) => Some(p@),
                    None => None,
                },
            ),
    {
        proof {
            broadcast use lemma_u24_bound;
        }
        if ordering_index.value() == self.expected_ordering_index.value() {
            if let Some(sequencing_index) = sequencing_index {
                if sequencing_index.wrapping_less_than(self.expected_sequencing_index) {
                    // Older sequencing index, drop packet
                    None
                } else {
                    // Got a sequenced packet with sequencing index greater than or equal to the expected, return packet
                    self.expected_sequencing_index = sequencing_index.wrapping_add(u24::one());
                    Some(payload)
                }
            } else {
                // Got an ordered packet with the expected ordering index, return packet
                self.expected_sequencing_index = u24::zero();
                self.expected_ordering_index = self.expected_ordering_index.wrapping_add(u24::one());
                Some(payload)
            }
        } else if ordering_index.wrapping_less_than(self.expected_ordering_index) {
            // Older ordering index, drop packet
            None
        } else {
            // Higher ordering index than expected, buffer packet
            // Keep hole count low
            if self.packets.len() == 0 {
                self.ordering_index_offset = self.expected_ordering_index;
            }
            let ordered_hole_count = ordering_index.wrapping_sub(self.ordering_index_offset);
            let mut weight: u64 = (ordered_hole_count.value() as u64) * 0x1_0000_0000;
            if let Some(sequencing_index) = sequencing_index {
                weight = weight + sequencing_index.value() as u64;
            } else {
                weight = weight + 0xFFFF_FFFF;
            }
            let item = PacketWithWeight { weight, sequencing_index, ordering_index, payload };
            self.insert_by_weight(item);
            None
        }
    }

    /// Inserts a packet after all packets of no larger weight.
    fn insert_by_weight(&mut self, item: PacketWithWeight)
        requires
            old(self).wf(),
        ensures
            final(self).wf(),
            inserted_by_weight(old(self).buffered(), item.view(), final(self).buffered()),
            final(self).expected_ordering() == old(self).expected_ordering(),
            final(self).expected_sequencing() == old(self).expected_sequencing(),
            final(self).offset() == old(self).offset(),
    {
        let ghost b = self.buffered();
        let mut i: usize = 0;
        while i < self.packets.len() && self.packets[i].weight <= item.weight
            invariant
                i <= self.packets@.len(),
                self.buffered() == b,
                forall|j: int| 0 <= j < i ==> b[j].0 <= item.weight,
            decreases self.packets@.len() - i,
        {
            i = i + 1;
        }
        let ghost x = item.view();
        self.packets.insert(i, item);
        assert(self.buffered() =~= b.insert(i as int, x));
        assert(forall|j: int| i <= j < b.len() ==> b[j].0 > x.0) by {
            assert forall|j: int| i <= j < b.len() implies b[j].0 > x.0 by {
                assert(b[i as int].0 <= b[j].0);
            }
        }
        assert(sorted_by_weight(self.buffered())) by {
            let n = self.buffered();
            assert forall|p: int, q: int| 0 <= p <= q < n.len() implies n[p].0 <= n[q].0 by {
                if p < i && q > i {
                    assert(n[p] == b[p] && n[q] == b[q - 1]);
                } else if p < i && q == i {
                } else if p == i && q > i {
                    assert(n[q] == b[q - 1]);
                } else if p > i {
                    assert(n[p] == b[p - 1] && n[q] == b[q - 1]);
                } else if q < i {
                    assert(n[p] == b[p] && n[q] == b[q]);
                }
            }
        }
    }

    /// Releases the next buffered packet if it has the expected ordering
    /// index.
    pub fn next_ready(&mut self) -> (r: Option<Vec<u8>>)
        requires
            old(self).wf(),
        ensures
            final(self).wf(),
            final(self).offset() == old(self).offset(),
            match spec_next(
                old(self).expected_ordering(),
                old(self).expected_sequencing(),
                old(self).buffered(),
            ) {
                None => r is None && final(self).expected_ordering() == old(self).expected_ordering()
                    && final(self).expected_sequencing() == old(self).expected_sequencing()
                    && final(self).buffered() == old(self).buffered(),
                Some((p, e, es, b)) => r matches Some(v) && v@ == p && final(self).expected_ordering()
                    == e && final(self).expected_sequencing() == es && final(self).buffered() == b,
            },
    {
        proof {
            broadcast use lemma_u24_bound;
        }
        if self.packets.len() > 0 && self.packets[0].ordering_index.value()
            == self.expected_ordering_index.value() {
            let ghost b = self.buffered();
            let packet = self.packets.remove(0);
            assert(self.buffered() =~= b.drop_first());
            if let Some(sequencing_index) = packet.sequencing_index {
                self.expected_sequencing_index = sequencing_index.wrapping_add(u24::one());
            } else {
                self.expected_ordering_index = self.expected_ordering_index.wrapping_add(u24::one());
                self.expected_sequencing_index = u24::zero();
            }
            Some(packet.payload)
        } else {
            None
        }
    }

    /// Releases every buffered packet that is due, in order.
    pub fn iter_mut(&mut self) -> (r: Vec<Vec<u8>>)
        requires
            old(self).wf(),
        ensures
            final(self).wf(),
            final(self).offset() == old(self).offset(),
            ({
                let (ps, e, es, b) = spec_drain(
                    old(self).expected_ordering(),
                    old(self).expected_sequencing(),
                    old(self).buffered(),
                );
                &&& r@.map_values(|v: Vec<u8>| v@) == ps
                &&& final(self).expected_ordering() == e
                &&& final(self).expected_sequencing() == es
                &&& final(self).buffered() == b
            }),
            final(self).buffered().len() > 0 ==> final(self).buffered()[0].2 != final(self).expected_ordering(),
    {
        proof {
            lemma_drain_stops(self.expected_ordering(), self.expected_sequencing(), self.buffered());
        }
        let ghost target = spec_drain(
            self.expected_ordering(),
            self.expected_sequencing(),
            self.buffered(),
        );
        let mut out: Vec<Vec<u8>> = Vec::new();
        loop
            invariant
                self.wf(),
                self.offset() == old(self).offset(),
                target == spec_drain(
                    old(self).expected_ordering(),
                    old(self).expected_sequencing(),
                    old(self).buffered(),
                ),
                ({
                    let (ps, e, es, b) = spec_drain(
                        self.expected_ordering(),
                        self.expected_sequencing(),
                        self.buffered(),
                    );
                    &&& out@.map_values(|v: Vec<u8>| v@) + ps == target.0
                    &&& e == target.1
                    &&& es == target.2
                    &&& b == target.3
                }),
            decreases self.buffered().len(),
        {
            let ghost before = out@.map_values(|v: Vec<u8>| v@);
            match self.next_ready() {
                Some(p) => {
                    out.push(p);
                    assert(out@.map_values(|v: Vec<u8>| v@) =~= before.push(p@));
                    proof {
                        let (ps, e, es, b) = spec_drain(
                            self.expected_ordering(),
                            self.expected_sequencing(),
                            self.buffered(),
                        );
                        assert(before.push(p@) + ps =~= before + (seq![p@] + ps));
                    }
                },
                None => {
                    let ghost cur = spec_drain(
                        self.expected_ordering(),
                        self.expected_sequencing(),
                        self.buffered(),
                    );
                    assert(cur.0 =~= Seq::<Seq<u8>>::empty());
                    assert(out@.map_values(|v: Vec<u8>| v@) + cur.0 =~= out@.map_values(|v: Vec<u8>| v@));
                    return out;
                },
            }
        }
    }
}

/// Releasing stops only when the lightest buffered packet, if any, does
/// not have the expected ordering index.
pub proof fn lemma_drain_stops(e: nat, es: nat, b: Seq<Buffered>)
    ensures
        ({
            let (ps, e2, es2, b2) = spec_drain(e, es, b);
            b2.len() > 0 ==> b2[0].2 != e2
        }),
    decreases b.len(),
{
    match spec_next(e, es, b) {
        None => {},
        Some((p, e1, es1, b1)) => {
            lemma_drain_stops(e1, es1, b1);
        },
    }
}

/// `d` steps back from `a + 1` is one step further than `d` steps back
/// from `a`, on the 24-bit circle.
proof fn lemma_distance_to_next(b: nat, a: nat)
    requires
        a < u24_modulus(),
        b < u24_modulus(),
    ensures
        wrapping_sub_spec(b, wrapping_add_spec(a, 1)) == if wrapping_sub_spec(b, a) == 0 {
            (u24_modulus() - 1) as nat
        } else {
            (wrapping_sub_spec(b, a) - 1) as nat
        },
{
    let m = u24_modulus() as int;
    let a1 = wrapping_add_spec(a, 1) as int;
    assert(a1 == if a + 1 < m { (a + 1) as int } else { 0 });
    assert(wrapping_sub_spec(b, a) as int == if b >= a { b - a } else { b + m - a });
    assert(wrapping_sub_spec(b, wrapping_add_spec(a, 1)) as int == if b >= a1 { b - a1 } else { b + m - a1 });
}

/// A sequenced packet is not delivered once a newer sequenced packet of
/// its ordering index was delivered: after the packet with sequencing index
/// `s` was delivered, a packet with index `s` again, or with an older index
/// (that does not lie exactly half the circle away), is dropped.
pub proof fn lemma_older_sequenced_packet_dropped(
    pre: OrderingChannel,
    s: nat,
    p: Seq<u8>,
    mid: OrderingChannel,
    r: Option<Seq<u8>>,
    s2: nat,
    p2: Seq<u8>,
    post: OrderingChannel,
    r2: Option<Seq<u8>>,
)
    requires
        s < u24_modulus(),
        s2 < u24_modulus(),
        OrderingChannel::incoming(pre, Some(s), pre.expected_ordering(), p, mid, r),
        r is Some,
        s2 == s || (wrapping_lt_spec(s2, s) && wrapping_sub_spec(s2, s) != 0x800000),
        OrderingChannel::incoming(mid, Some(s2), mid.expected_ordering(), p2, post, r2),
    ensures
        r2 is None,
        post.expected_ordering() == mid.expected_ordering(),
        post.expected_sequencing() == mid.expected_sequencing(),
        post.buffered() == mid.buffered(),
{
    lemma_distance_to_next(s2, s);
    if s2 == s {
        assert(wrapping_sub_spec(s, s) == 0) by {
            assert((s + u24_modulus() - s) as int % (u24_modulus() as int) == 0) by (nonlinear_arith);
        }
    }
}

/// An ordered packet is delivered at most once per ordering index: after
/// the packet with the expected ordering index was delivered, another
/// packet with that ordering index is dropped.
pub proof fn lemma_delivered_ordering_index_dropped(
    pre: OrderingChannel,
    p: Seq<u8>,
    mid: OrderingChannel,
    r: Option<Seq<u8>>,
    seq2: Option<nat>,
    p2: Seq<u8>,
    post: OrderingChannel,
    r2: Option<Seq<u8>>,
)
    requires
        pre.expected_ordering() < u24_modulus(),
        OrderingChannel::incoming(pre, None, pre.expected_ordering(), p, mid, r),
        OrderingChannel::incoming(mid, seq2, pre.expected_ordering(), p2, post, r2),
    ensures
        r is Some,
        r2 is None,
        post.buffered() == mid.buffered(),
{
    let e = pre.expected_ordering();
    lemma_distance_to_next(e, e);
    assert(wrapping_sub_spec(e, e) == 0) by {
        assert((e + u24_modulus() - e) as int % (u24_modulus() as int) == 0) by (nonlinear_arith);
    }
}

/// Buffered ordered packets are released in the order of their ordering
/// indices: the released ones are the lightest buffered packets, with the
/// expected ordering index and the ones after it, each one more than the
/// one before, and the expected ordering index moves past the last.
pub proof fn lemma_ordered_release_in_order(e: nat, es: nat, b: Seq<Buffered>)
    requires
        e < u24_modulus(),
        forall|i: int| 0 <= i < b.len() ==> (#[trigger] b[i]).1 is None,
    ensures
        ({
            let (ps, e2, es2, b2) = spec_drain(e, es, b);
            let k = ps.len();
            &&& k <= b.len()
            &&& b2 == b.skip(k as int)
            &&& forall|i: int| 0 <= i < k ==> (#[trigger] ps[i]) == b[i].3
            &&& forall|i: int| 0 <= i < k ==> (#[trigger] b[i]).2 == wrapping_add_spec(e, i as nat)
            &&& (k > 0 ==> e2 == wrapping_add_spec(b[k - 1].2, 1))
            &&& (k == 0 ==> e2 == e)
            &&& (k < b.len() ==> b[k as int].2 != e2)
        }),
    decreases b.len(),
{
    if b.len() > 0 && b[0].2 == e {
        let e1 = wrapping_add_spec(e, 1);
        let b1 = b.drop_first();
        assert forall|i: int| 0 <= i < b1.len() implies (#[trigger] b1[i]).1 is None by {
            assert(b1[i] == b[i + 1]);
        }
        lemma_ordered_release_in_order(e1, 0, b1);
        let (ps1, e3, es3, b3) = spec_drain(e1, 0, b1);
        assert(spec_drain(e, es, b) == (seq![b[0].3] + ps1, e3, es3, b3));
        let k = ps1.len() + 1;
        assert(b3 == b1.skip(ps1.len() as int));
        assert(b1.skip(ps1.len() as int) =~= b.skip(k as int));
        assert forall|i: int| 0 <= i < k implies (#[trigger] b[i]).2 == wrapping_add_spec(e, i as nat) by {
            if i > 0 {
                assert(b[i] == b1[i - 1]);
                assert(b1[i - 1].2 == wrapping_add_spec(e1, (i - 1) as nat));
                assert(wrapping_add_spec(wrapping_add_spec(e, 1), (i - 1) as nat) == wrapping_add_spec(e, i as nat)) by {
                    assert(((e + 1) % u24_modulus() + (i - 1)) % (u24_modulus() as int) == (e + i) % (u24_modulus() as int)) by (nonlinear_arith)
                        requires
                            i >= 1,
                    ;
                }
            } else {
                assert(wrapping_add_spec(e, 0) == e % u24_modulus());
            }
        }
        assert forall|i: int| 0 <= i < k implies (#[trigger] (seq![b[0].3] + ps1)[i]) == b[i].3 by {
            if i > 0 {
                assert(b[i] == b1[i - 1]);
            }
        }
        if ps1.len() > 0 {
            assert(b[k - 1] == b1[ps1.len() - 1]);
        }
        if k < b.len() {
            assert(b[k as int] == b1[ps1.len() as int]);
        }
    }
}

/// The payload delivered at once by `process_incoming`, as a list.
pub open spec fn released(r: Option<Seq<u8>>) -> Seq<Seq<u8>> {
    match r {
        Some(p) => seq![p],
        None => Seq::empty(),
    }
}

/// `post` is channel `pre` after an ordered packet with ordering index
/// `oi` and payload `payload` arrived (`process_incoming`, giving `mid`
/// and the payload `r` delivered at once) and the channel was drained
/// (`iter_mut`); `out` is everything delivered, in order.
pub open spec fn ordered_arrival(
    pre: OrderingChannel,
    oi: nat,
    payload: Seq<u8>,
    mid: OrderingChannel,
    r: Option<Seq<u8>>,
    post: OrderingChannel,
    out: Seq<Seq<u8>>,
) -> bool {
    let d = spec_drain(mid.expected_ordering(), mid.expected_sequencing(), mid.buffered());
    &&& OrderingChannel::incoming(pre, None, oi, payload, mid, r)
    &&& post.expected_ordering() == d.1
    &&& post.expected_sequencing() == d.2
    &&& post.buffered() == d.3
    &&& post.offset() == mid.offset()
    &&& out == released(r) + d.0
}

/// Ordering index `j` is among the first `k` of `order`.
pub open spec fn arrived(order: Seq<nat>, k: int, j: nat) -> bool {
    exists|t: int| 0 <= t < k && order[t] == j
}

/// After the first `k` arrivals of `order`: every index below the expected
/// one arrived and was delivered, in order, the expected one has not
/// arrived, and the arrived indices beyond it wait in the buffer in
/// increasing order.
pub open spec fn ordered_inv(
    n: nat,
    payloads: Seq<Seq<u8>>,
    order: Seq<nat>,
    states: Seq<OrderingChannel>,
    outs: Seq<Seq<Seq<u8>>>,
    k: int,
) -> bool {
    let c = states[k];
    let e = c.expected_ordering();
    let b = c.buffered();
    &&& e <= n
    &&& forall|j: nat| j < e ==> #[trigger] arrived(order, k, j)
    &&& e < n ==> !arrived(order, k, e)
    &&& forall|x: int|
        0 <= x < b.len() ==> {
            let y = #[trigger] b[x];
            &&& y.1 is None
            &&& e < y.2 < n
            &&& y.3 == payloads[y.2 as int]
            &&& y.0 == spec_weight(c.offset(), y.2, None)
            &&& c.offset() <= e
            &&& arrived(order, k, y.2)
        }
    &&& forall|x: int, y: int| 0 <= x < y < b.len() ==> (#[trigger] b[x]).2 < (#[trigger] b[y]).2
    &&& forall|t: int|
        0 <= t < k && #[trigger] order[t] > e ==> exists|x: int| 0 <= x < b.len() && b[x].2 == order[t]
    &&& outs.take(k).flatten_alt() == payloads.take(e as int)
}

/// On small numbers the circle arithmetic is plain arithmetic.
proof fn lemma_small_distance(a: nat, b: nat)
    requires
        b <= a < 0x400000,
    ensures
        wrapping_sub_spec(a, b) == a - b,
        !wrapping_lt_spec(a, b),
        wrapping_add_spec(a, 1) == a + 1,
{
}

/// Weights measured from one offset order packets by ordering index.
proof fn lemma_weight_order(o: nat, a: nat, a2: nat)
    requires
        o <= a < 0x400000,
        o <= a2 < 0x400000,
    ensures
        (spec_weight(o, a, None) <= spec_weight(o, a2, None)) == (a <= a2),
{
    lemma_small_distance(a, o);
    lemma_small_distance(a2, o);
}

/// In a buffer with increasing ordering indices beyond `e`, entry `i` has
/// an index of at least `e + 1 + i`.
proof fn lemma_increasing_indices(b: Seq<Buffered>, e: nat, i: int)
    requires
        forall|x: int| 0 <= x < b.len() ==> e < (#[trigger] b[x]).2,
        forall|x: int, y: int| 0 <= x < y < b.len() ==> (#[trigger] b[x]).2 < (#[trigger] b[y]).2,
        0 <= i < b.len(),
    ensures
        b[i].2 >= e + 1 + i,
    decreases i,
{
    if i > 0 {
        lemma_increasing_indices(b, e, i - 1);
        assert(b[i - 1].2 < b[i].2);
    }
}

/// An arrival of the expected ordering index keeps `ordered_inv`.
#[verifier::spinoff_prover]
#[verifier::rlimit(60)]
proof fn lemma_ordered_step_expected(
    n: nat,
    payloads: Seq<Seq<u8>>,
    order: Seq<nat>,
    states: Seq<OrderingChannel>,
    mids: Seq<OrderingChannel>,
    rs: Seq<Option<Seq<u8>>>,
    outs: Seq<Seq<Seq<u8>>>,
    k: int,
)
    requires
        n < 0x400000,
        payloads.len() == n,
        states.len() == order.len() + 1,
        mids.len() == order.len(),
        rs.len() == order.len(),
        outs.len() == order.len(),
        0 <= k < order.len(),
        forall|t: int| 0 <= t < order.len() ==> #[trigger] order[t] < n,
        forall|t: int, u: int| 0 <= t < u < order.len() ==> #[trigger] order[t] != #[trigger] order[u],
        ordered_arrival(states[k], order[k], payloads[order[k] as int], mids[k], rs[k], states[k + 1], outs[k]),
        ordered_inv(n, payloads, order, states, outs, k),
        order[k] == states[k].expected_ordering(),
    ensures
        ordered_inv(n, payloads, order, states, outs, k + 1),
{
    let c = states[k];
    let e = c.expected_ordering();
    let b = c.buffered();
    let oi = order[k];
    let p = payloads[oi as int];
    let mid = mids[k];
    let r = rs[k];
    let post = states[k + 1];
    assert(oi < n);
    assert forall|j: nat| #[trigger] arrived(order, k + 1, j) == (arrived(order, k, j) || oi == j) by {
        if arrived(order, k + 1, j) {
            let t = choose|t: int| 0 <= t < k + 1 && order[t] == j;
            if t < k {
                assert(arrived(order, k, j));
            }
        }
        if arrived(order, k, j) {
            let t = choose|t: int| 0 <= t < k && order[t] == j;
            assert(0 <= t < k + 1 && order[t] == j);
        }
        if oi == j {
            assert(0 <= k < k + 1 && order[k] == j);
        }
    }
    assert(!arrived(order, k, oi)) by {
        if arrived(order, k, oi) {
            let t = choose|t: int| 0 <= t < k && order[t] == oi;
            assert(order[t] != order[k]);
        }
    }
    assert(oi >= e) by {
        if oi < e {
            assert(arrived(order, k, oi));
        }
    }
    assert(outs.take(k + 1).drop_last() =~= outs.take(k));
    assert(outs.take(k + 1).last() == outs[k]);
    lemma_small_distance(e, e);
    let e1 = (e + 1) as nat;
    assert(mid.expected_ordering() == e1);
    assert(mid.buffered() == b);
    assert(r == Some(p));
    assert forall|i: int| 0 <= i < b.len() implies (#[trigger] b[i]).1 is None by {
        let y = b[i];
    }
    lemma_ordered_release_in_order(e1, mid.expected_sequencing(), b);
    let (ps, e2, es2, b2) = spec_drain(e1, mid.expected_sequencing(), b);
    let kk = ps.len() as int;
    assert forall|x: int| 0 <= x < b.len() implies e < (#[trigger] b[x]).2 by {
        let y = b[x];
    }
    assert forall|i: int| 0 <= i < kk implies (#[trigger] b[i]).2 == e1 + i by {
        lemma_increasing_indices(b, e, i);
        let y = b[i];
        assert(b[i].2 == wrapping_add_spec(e1, i as nat));
    }
    if kk > 0 {
        assert(b[kk - 1].2 == e1 + kk - 1);
        assert(e2 == e1 + kk);
    } else {
        assert(e2 == e1);
    }
    assert(e2 == e1 + kk);
    assert(e2 <= n) by {
        if kk > 0 {
            let y = b[kk - 1];
        }
    }
    assert(post.expected_ordering() == e2);
    assert(post.buffered() == b.skip(kk));
    assert(post.offset() == c.offset());
    // Where the buffer resumes, it is beyond the new expected index.
    assert(kk < b.len() ==> b[kk].2 > e2) by {
        if kk < b.len() {
            let y = b[kk];
            if kk > 0 {
                assert(b[kk - 1].2 < b[kk].2);
            }
        }
    }
    assert forall|j: nat| j < e2 implies #[trigger] arrived(order, k + 1, j) by {
        if j < e {
            assert(arrived(order, k, j));
        } else if j > e {
            let i = j - e1;
            assert(b[i].2 == j);
            let y = b[i];
            assert(arrived(order, k, y.2));
        }
    }
    assert(e2 < n ==> !arrived(order, k + 1, e2)) by {
        if e2 < n && arrived(order, k + 1, e2) {
            assert(arrived(order, k, e2));
            let t = choose|t: int| 0 <= t < k && order[t] == e2;
            assert(order[t] > e);
            let x = choose|x: int| 0 <= x < b.len() && b[x].2 == order[t];
            if x < kk {
                assert(b[x].2 == e1 + x);
            } else if x > kk {
                assert(b[kk].2 < b[x].2);
            }
        }
    }
    let pb = post.buffered();
    assert forall|x: int| 0 <= x < pb.len() implies {
        let y = #[trigger] pb[x];
        &&& y.1 is None
        &&& e2 < y.2 < n
        &&& y.3 == payloads[y.2 as int]
        &&& y.0 == spec_weight(post.offset(), y.2, None)
        &&& post.offset() <= e2
        &&& arrived(order, k + 1, y.2)
    } by {
        assert(pb[x] == b[x + kk]);
        let y = b[x + kk];
        let z = b[kk];
        if x > 0 {
            assert(b[kk].2 < b[x + kk].2);
        }
        assert(arrived(order, k, y.2));
    }
    assert forall|x: int, y: int| 0 <= x < y < pb.len() implies (#[trigger] pb[x]).2 < (
    #[trigger] pb[y]).2 by {
        assert(pb[x] == b[x + kk] && pb[y] == b[y + kk]);
    }
    assert forall|t: int| 0 <= t < k + 1 && #[trigger] order[t] > e2 implies exists|x: int|
        0 <= x < pb.len() && pb[x].2 == order[t] by {
        assert(t != k);
        let x = choose|x: int| 0 <= x < b.len() && b[x].2 == order[t];
        if x < kk {
            assert(b[x].2 == e1 + x);
        }
        assert(pb[x - kk] == b[x]);
    }
    assert forall|i: int| 0 <= i < kk implies #[trigger] ps[i] == payloads[e1 + i] by {
        let y = b[i];
    }
    assert(outs[k] == seq![p] + ps);
    assert(payloads.take(e2 as int) =~= payloads.take(e as int) + (seq![p] + ps));
}

/// An arrival of an ordering index beyond the expected one keeps
/// `ordered_inv`.
#[verifier::spinoff_prover]
#[verifier::rlimit(60)]
proof fn lemma_ordered_step_ahead(
    n: nat,
    payloads: Seq<Seq<u8>>,
    order: Seq<nat>,
    states: Seq<OrderingChannel>,
    mids: Seq<OrderingChannel>,
    rs: Seq<Option<Seq<u8>>>,
    outs: Seq<Seq<Seq<u8>>>,
    k: int,
)
    requires
        n < 0x400000,
        payloads.len() == n,
        states.len() == order.len() + 1,
        mids.len() == order.len(),
        rs.len() == order.len(),
        outs.len() == order.len(),
        0 <= k < order.len(),
        forall|t: int| 0 <= t < order.len() ==> #[trigger] order[t] < n,
        forall|t: int, u: int| 0 <= t < u < order.len() ==> #[trigger] order[t] != #[trigger] order[u],
        ordered_arrival(states[k], order[k], payloads[order[k] as int], mids[k], rs[k], states[k + 1], outs[k]),
        ordered_inv(n, payloads, order, states, outs, k),
        order[k] != states[k].expected_ordering(),
    ensures
        ordered_inv(n, payloads, order, states, outs, k + 1),
{
    let c = states[k];
    let e = c.expected_ordering();
    let b = c.buffered();
    let oi = order[k];
    let p = payloads[oi as int];
    let mid = mids[k];
    let r = rs[k];
    let post = states[k + 1];
    assert(oi < n);
    assert forall|j: nat| #[trigger] arrived(order, k + 1, j) == (arrived(order, k, j) || oi == j) by {
        if arrived(order, k + 1, j) {
            let t = choose|t: int| 0 <= t < k + 1 && order[t] == j;
            if t < k {
                assert(arrived(order, k, j));
            }
        }
        if arrived(order, k, j) {
            let t = choose|t: int| 0 <= t < k && order[t] == j;
            assert(0 <= t < k + 1 && order[t] == j);
        }
        if oi == j {
            assert(0 <= k < k + 1 && order[k] == j);
        }
    }
    assert(!arrived(order, k, oi)) by {
        if arrived(order, k, oi) {
            let t = choose|t: int| 0 <= t < k && order[t] == oi;
            assert(order[t] != order[k]);
        }
    }
    assert(oi >= e) by {
        if oi < e {
            assert(arrived(order, k, oi));
        }
    }
    assert(outs.take(k + 1).drop_last() =~= outs.take(k));
    assert(outs.take(k + 1).last() == outs[k]);
    lemma_small_distance(oi, e);
    assert(!wrapping_lt_spec(oi, e));
    let offset = if b.len() == 0 {
        e
    } else {
        c.offset()
    };
    let w = spec_weight(offset, oi, None);
    let xnew = (w, None::<nat>, oi, p);
    assert(r is None);
    assert(mid.expected_ordering() == e);
    assert(mid.offset() == offset);
    assert(inserted_by_weight(b, xnew, mid.buffered()));
    let i = choose|i: int|
        0 <= i <= b.len() && mid.buffered() == b.insert(i, xnew) && (forall|j: int|
            0 <= j < i ==> b[j].0 <= xnew.0) && (forall|j: int| i <= j < b.len() ==> b[j].0 > xnew.0);
    let mb = mid.buffered();
    if b.len() > 0 {
        let y0 = b[0];
        assert(offset == c.offset() && c.offset() <= e);
    }
    assert forall|j: int| 0 <= j < b.len() implies (#[trigger] b[j]).2 != oi by {
        let y = b[j];
        assert(arrived(order, k, y.2));
    }
    assert forall|j: int| 0 <= j < i implies (#[trigger] b[j]).2 < oi by {
        let y = b[j];
        lemma_weight_order(offset, y.2, oi);
    }
    assert forall|j: int| i <= j < b.len() implies (#[trigger] b[j]).2 > oi by {
        let y = b[j];
        lemma_weight_order(offset, oi, y.2);
    }
    assert forall|j: int| 0 <= j < mb.len() implies (#[trigger] mb[j]).1 is None by {
        if j < i {
            assert(mb[j] == b[j]);
        } else if j > i {
            assert(mb[j] == b[j - 1]);
        }
    }
    lemma_ordered_release_in_order(e, mid.expected_sequencing(), mb);
    let (ps, e2, es2, b2) = spec_drain(e, mid.expected_sequencing(), mb);
    assert(ps.len() == 0) by {
        if ps.len() > 0 {
            assert(mb[0].2 == wrapping_add_spec(e, 0));
            if i == 0 {
                assert(mb[0] == xnew);
            } else {
                assert(mb[0] == b[0]);
                let y = b[0];
            }
        }
    }
    assert(post.expected_ordering() == e);
    assert(post.buffered() == mb);
    assert(post.offset() == offset);
    assert forall|j: nat| j < e implies #[trigger] arrived(order, k + 1, j) by {
        assert(arrived(order, k, j));
    }
    assert forall|x: int| 0 <= x < mb.len() implies {
        let y = #[trigger] mb[x];
        &&& y.1 is None
        &&& e < y.2 < n
        &&& y.3 == payloads[y.2 as int]
        &&& y.0 == spec_weight(post.offset(), y.2, None)
        &&& post.offset() <= e
        &&& arrived(order, k + 1, y.2)
    } by {
        if x < i {
            assert(mb[x] == b[x]);
            let y = b[x];
            assert(arrived(order, k, y.2));
        } else if x > i {
            assert(mb[x] == b[x - 1]);
            let y = b[x - 1];
            assert(arrived(order, k, y.2));
        } else {
            assert(mb[x] == xnew);
        }
    }
    assert forall|x: int, y: int| 0 <= x < y < mb.len() implies (#[trigger] mb[x]).2 < (
    #[trigger] mb[y]).2 by {
        if y < i {
            assert(mb[x] == b[x] && mb[y] == b[y]);
        } else if x > i {
            assert(mb[x] == b[x - 1] && mb[y] == b[y - 1]);
        } else if x < i && y > i {
            assert(mb[x] == b[x] && mb[y] == b[y - 1]);
        } else if x == i {
            assert(mb[y] == b[y - 1]);
        } else {
            assert(mb[x] == b[x]);
        }
    }
    assert forall|t: int| 0 <= t < k + 1 && #[trigger] order[t] > e implies exists|x: int|
        0 <= x < mb.len() && mb[x].2 == order[t] by {
        if t == k {
            assert(mb[i] == xnew);
        } else {
            let x = choose|x: int| 0 <= x < b.len() && b[x].2 == order[t];
            if x < i {
                assert(mb[x] == b[x]);
            } else {
                assert(mb[x + 1] == b[x]);
            }
        }
    }
    assert(outs[k] =~= Seq::<Seq<u8>>::empty());
    assert(outs.take(k + 1).flatten_alt() =~= outs.take(k).flatten_alt());
}

/// One ordered arrival keeps `ordered_inv`.
proof fn lemma_ordered_step(
    n: nat,
    payloads: Seq<Seq<u8>>,
    order: Seq<nat>,
    states: Seq<OrderingChannel>,
    mids: Seq<OrderingChannel>,
    rs: Seq<Option<Seq<u8>>>,
    outs: Seq<Seq<Seq<u8>>>,
    k: int,
)
    requires
        n < 0x400000,
        payloads.len() == n,
        states.len() == order.len() + 1,
        mids.len() == order.len(),
        rs.len() == order.len(),
        outs.len() == order.len(),
        0 <= k < order.len(),
        forall|t: int| 0 <= t < order.len() ==> #[trigger] order[t] < n,
        forall|t: int, u: int| 0 <= t < u < order.len() ==> #[trigger] order[t] != #[trigger] order[u],
        ordered_arrival(states[k], order[k], payloads[order[k] as int], mids[k], rs[k], states[k + 1], outs[k]),
        ordered_inv(n, payloads, order, states, outs, k),
    ensures
        ordered_inv(n, payloads, order, states, outs, k + 1),
{
    if order[k] == states[k].expected_ordering() {
        lemma_ordered_step_expected(n, payloads, order, states, mids, rs, outs, k);
    } else {
        lemma_ordered_step_ahead(n, payloads, order, states, mids, rs, outs, k);
    }
}

/// Every ordered packet is delivered exactly once, in ordering-index
/// order: when the ordered packets with indices `order` (each index below
/// `n` at most once, `n` below 2^22) arrive at a new channel in that
/// order, and the channel is drained after each, everything delivered,
/// one call after the other, is the payloads of the indices below the
/// expected one, in index order; once every index below `n` has arrived,
/// it is all the payloads, in index order.
pub proof fn lemma_ordered_delivery(
    n: nat,
    payloads: Seq<Seq<u8>>,
    order: Seq<nat>,
    states: Seq<OrderingChannel>,
    mids: Seq<OrderingChannel>,
    rs: Seq<Option<Seq<u8>>>,
    outs: Seq<Seq<Seq<u8>>>,
)
    requires
        n < 0x400000,
        payloads.len() == n,
        states.len() == order.len() + 1,
        mids.len() == order.len(),
        rs.len() == order.len(),
        outs.len() == order.len(),
        forall|t: int| 0 <= t < order.len() ==> #[trigger] order[t] < n,
        forall|t: int, u: int| 0 <= t < u < order.len() ==> #[trigger] order[t] != #[trigger] order[u],
        states[0].expected_ordering() == 0,
        states[0].buffered().len() == 0,
        forall|t: int|
            0 <= t < order.len() ==> #[trigger] ordered_arrival(
                states[t],
                order[t],
                payloads[order[t] as int],
                mids[t],
                rs[t],
                states[t + 1],
                outs[t],
            ),
    ensures
        outs.flatten_alt() == payloads.take(states.last().expected_ordering() as int),
        (forall|j: nat| j < n ==> #[trigger] arrived(order, order.len() as int, j)) ==> outs.flatten_alt()
            == payloads,
{
    assert forall|k: int| 0 <= k <= order.len() implies ordered_inv(n, payloads, order, states, outs, k) by {
        lemma_ordered_prefix(n, payloads, order, states, mids, rs, outs, k);
    }
    let m = order.len() as int;
    assert(ordered_inv(n, payloads, order, states, outs, m));
    assert(outs.take(m) =~= outs);
    assert(states.last() == states[m]);
    if forall|j: nat| j < n ==> #[trigger] arrived(order, m, j) {
        let e = states[m].expected_ordering();
        if e < n {
            assert(arrived(order, m, e));
        }
        assert(payloads.take(n as int) =~= payloads);
    }
}

/// `ordered_inv` holds after each prefix of the arrivals.
proof fn lemma_ordered_prefix(
    n: nat,
    payloads: Seq<Seq<u8>>,
    order: Seq<nat>,
    states: Seq<OrderingChannel>,
    mids: Seq<OrderingChannel>,
    rs: Seq<Option<Seq<u8>>>,
    outs: Seq<Seq<Seq<u8>>>,
    k: int,
)
    requires
        n < 0x400000,
        payloads.len() == n,
        states.len() == order.len() + 1,
        mids.len() == order.len(),
        rs.len() == order.len(),
        outs.len() == order.len(),
        forall|t: int| 0 <= t < order.len() ==> #[trigger] order[t] < n,
        forall|t: int, u: int| 0 <= t < u < order.len() ==> #[trigger] order[t] != #[trigger] order[u],
        states[0].expected_ordering() == 0,
        states[0].buffered().len() == 0,
        forall|t: int|
            0 <= t < order.len() ==> #[trigger] ordered_arrival(
                states[t],
                order[t],
                payloads[order[t] as int],
                mids[t],
                rs[t],
                states[t + 1],
                outs[t],
            ),
        0 <= k <= order.len(),
    ensures
        ordered_inv(n, payloads, order, states, outs, k),
    decreases k,
{
    if k == 0 {
        assert(outs.take(0) =~= Seq::<Seq<Seq<u8>>>::empty());
        assert(payloads.take(0) =~= Seq::<Seq<u8>>::empty());
    } else {
        let t = k - 1;
        lemma_ordered_prefix(n, payloads, order, states, mids, rs, outs, t);
        assert(ordered_arrival(states[t], order[t], payloads[order[t] as int], mids[t], rs[t], states[t + 1], outs[t]));
        lemma_ordered_step(n, payloads, order, states, mids, rs, outs, t);
    }
}

} // verus!

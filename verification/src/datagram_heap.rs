//! A collection of datagram sequence numbers that hands them out as runs
//! of consecutive numbers, smallest first.

use vstd::prelude::*;

use crate::datagram_range::DatagramRange;
use crate::number::{lemma_u24_bound, u24_modulus, DatagramSequenceNumber};

verus! {

/// `s` is sorted in ascending order.
pub open spec fn ascending(s: Seq<nat>) -> bool {
    forall|i: int, j: int| 0 <= i <= j < s.len() ==> s[i] <= s[j]
}

/// The length of the run of consecutive numbers that starts `s`:
/// `s[0], s[0] + 1, s[0] + 2, ...`.
pub open spec fn run_len(s: Seq<nat>) -> nat
    decreases s.len(),
{
    if s.len() <= 1 {
        s.len()
    } else if s[1] == s[0] + 1 {
        1 + run_len(s.drop_first())
    } else {
        1
    }
}

/// A run of consecutive numbers rises by one at each step.
pub proof fn lemma_run_len(s: Seq<nat>)
    ensures
        run_len(s) <= s.len(),
        s.len() > 0 ==> run_len(s) >= 1,
        forall|k: int| 0 <= k < run_len(s) ==> #[trigger] s[k] == s[0] + k,
        run_len(s) < s.len() ==> s[run_len(s) as int] != s[run_len(s) - 1] + 1,
    decreases s.len(),
{
    if s.len() > 1 && s[1] == s[0] + 1 {
        let t = s.drop_first();
        lemma_run_len(t);
        assert forall|k: int| 0 <= k < run_len(s) implies #[trigger] s[k] == s[0] + k by {
            if k > 0 {
                assert(s[k] == t[k - 1]);
            }
        }
        if run_len(s) < s.len() {
            assert(s[run_len(s) as int] == t[run_len(t) as int]);
            assert(s[run_len(s) - 1] == t[run_len(t) - 1]);
        }
    }
}

/// The runs of consecutive numbers that `s` falls into, as `pop_range`
/// hands them out one after the other: each as its first and last number.
pub open spec fn runs(s: Seq<nat>) -> Seq<(nat, nat)>
    decreases s.len(),
    via runs_decreases
{
    if s.len() == 0 {
        Seq::empty()
    } else {
        seq![(s[0], (s[0] + run_len(s) - 1) as nat)] + runs(s.skip(run_len(s) as int))
    }
}

#[via_fn]
proof fn runs_decreases(s: Seq<nat>) {
    lemma_run_len(s);
}

/// The numbers a run covers, from its first to its last.
pub open spec fn run_span(r: (nat, nat)) -> Seq<nat> {
    Seq::new((r.1 + 1 - r.0) as nat, |i: int| (r.0 + i) as nat)
}

/// The numbers the runs cover, run after run.
pub open spec fn spans(rs: Seq<(nat, nat)>) -> Seq<nat>
    decreases rs.len(),
{
    if rs.len() == 0 {
        Seq::empty()
    } else {
        run_span(rs[0]) + spans(rs.drop_first())
    }
}

/// The runs cover exactly the numbers: popping ranges until none is left
/// hands out every number held, in order, and nothing else.
pub proof fn lemma_runs_cover(s: Seq<nat>)
    ensures
        spans(runs(s)) == s,
    decreases s.len(),
{
    if s.len() > 0 {
        lemma_run_len(s);
        let k = run_len(s);
        lemma_runs_cover(s.skip(k as int));
        let first = (s[0], (s[0] + k - 1) as nat);
        assert(runs(s) == seq![first] + runs(s.skip(k as int)));
        assert(runs(s)[0] == first);
        assert(runs(s).drop_first() =~= runs(s.skip(k as int)));
        assert(run_span(first) =~= s.take(k as int));
        assert(s.take(k as int) + s.skip(k as int) =~= s);
    }
}

/// `r` is the range that `pop_range` hands out of the numbers `pre`, and
/// `post` the numbers left.
pub open spec fn range_popped(pre: Seq<nat>, r: (nat, nat), post: Seq<nat>) -> bool {
    &&& pre.len() > 0
    &&& r == (pre[0], (pre[0] + run_len(pre) - 1) as nat)
    &&& post == pre.skip(run_len(pre) as int)
}

/// Popping ranges until no number is left hands out exactly the numbers
/// held, in order: the popped ranges, one after the other, span the
/// numbers that were held.
pub proof fn lemma_pop_ranges_cover(states: Seq<Seq<nat>>, outs: Seq<(nat, nat)>)
    requires
        states.len() == outs.len() + 1,
        forall|i: int| 0 <= i < outs.len() ==> range_popped(#[trigger] states[i], outs[i], states[i + 1]),
        states.last().len() == 0,
    ensures
        spans(outs) == states[0],
    decreases outs.len(),
{
    if outs.len() == 0 {
        assert(states[0] =~= Seq::<nat>::empty());
    } else {
        let rest = states.drop_first();
        assert forall|i: int| 0 <= i < outs.drop_first().len() implies range_popped(
            #[trigger] rest[i],
            outs.drop_first()[i],
            rest[i + 1],
        ) by {
            assert(range_popped(states[i + 1], outs[i + 1], states[i + 2]));
        }
        lemma_pop_ranges_cover(rest, outs.drop_first());
        let s = states[0];
        assert(range_popped(s, outs[0], states[1]));
        let k = run_len(s);
        lemma_run_len(s);
        assert(run_span(outs[0]) =~= s.take(k as int));
        assert(s.take(k as int) + s.skip(k as int) =~= s);
    }
}

/// After a number is pushed (see `push`), popping ranges until none is
/// left (see `pop_range`) hands out the numbers held before and the pushed
/// one, each once.
pub proof fn lemma_push_then_pop_ranges(
    held: Seq<nat>,
    number: nat,
    states: Seq<Seq<nat>>,
    outs: Seq<(nat, nat)>,
)
    requires
        states.len() == outs.len() + 1,
        exists|i: int| 0 <= i <= held.len() && states[0] == held.insert(i, number),
        forall|i: int| 0 <= i < outs.len() ==> range_popped(#[trigger] states[i], outs[i], states[i + 1]),
        states.last().len() == 0,
    ensures
        spans(outs).to_multiset() == held.to_multiset().insert(number),
{
    broadcast use vstd::seq_lib::group_to_multiset_ensures;

    lemma_pop_ranges_cover(states, outs);
    let i = choose|i: int| 0 <= i <= held.len() && states[0] == held.insert(i, number);
}

/// Datagram sequence numbers, kept in ascending order.
pub struct DatagramHeap {
    datagrams: Vec<DatagramSequenceNumber>,
}

impl View for DatagramHeap {
    type V = Seq<nat>;

    /// The numbers held, in ascending order.
    closed spec fn view(&self) -> Seq<nat> {
        self.datagrams@.map_values(|n: DatagramSequenceNumber| n@)
    }
}

impl DatagramHeap {
    /// The numbers are kept in ascending order.
    pub open spec fn wf(&self) -> bool {
        ascending(self@)
    }

    /// Every number held is a 24-bit value.
    pub proof fn lemma_bounded(&self)
        ensures
            forall|i: int| 0 <= i < self@.len() ==> #[trigger] self@[i] < u24_modulus(),
    {
        broadcast use lemma_u24_bound;
        assert forall|i: int| 0 <= i < self@.len() implies #[trigger] self@[i] < u24_modulus() by {
            assert(self@[i] == self.datagrams@[i]@);
        }
    }

    /// An empty heap.
    pub fn new() -> (r: DatagramHeap)
        ensures
            r.wf(),
            r@ == Seq::<nat>::empty(),
    {
        let r = DatagramHeap { datagrams: Vec::new() };
        assert(r@ =~= Seq::<nat>::empty());
        r
    }

    /// Adds a number, after every held number that is not larger.
    pub fn push(&mut self, number: DatagramSequenceNumber)
        requires
            old(self).wf(),
        ensures
            final(self).wf(),
            exists|i: int|
                0 <= i <= old(self)@.len() && final(self)@ == old(self)@.insert(i, number@),
            final(self)@.to_multiset() == old(self)@.to_multiset().insert(number@),
    {
        let ghost s = self@;
        let mut i: usize = 0;
        while i < self.datagrams.len() && self.datagrams[i].value() <= number.value()
            invariant
                i <= self.datagrams@.len(),
                self@ == s,
                forall|j: int| 0 <= j < i ==> s[j] <= number@,
            decreases self.datagrams@.len() - i,
        {
            assert(s[i as int] == self.datagrams@[i as int]@);
            i = i + 1;
        }
        if i < self.datagrams.len() {
            assert(s[i as int] == self.datagrams@[i as int]@);
        }
        self.datagrams.insert(i, number);
        assert(self@ =~= s.insert(i as int, number@));
        proof {
            vstd::seq_lib::to_multiset_insert(s, i as int, number@);
        }
        assert(ascending(self@)) by {
            let n = self@;
            assert forall|p: int, q: int| 0 <= p <= q < n.len() implies n[p] <= n[q] by {
                if i < s.len() {
                    assert(s[i as int] > number@);
                    if p < i && q > i {
                        assert(n[p] == s[p] && n[q] == s[q - 1]);
                    } else if p == i && q > i {
                        assert(n[q] == s[q - 1]);
                        assert(s[i as int] <= s[q - 1]);
                    } else if p > i {
                        assert(n[p] == s[p - 1] && n[q] == s[q - 1]);
                    } else if q < i {
                        assert(n[p] == s[p] && n[q] == s[q]);
                    }
                } else {
                    if q < i {
                        assert(n[p] == s[p] && n[q] == s[q]);
                    }
                }
            }
        }
    }

    /// Whether no number is held.
    pub fn is_empty(&self) -> (r: bool)
        ensures
            r == (self@.len() == 0),
    {
        self.datagrams.len() == 0
    }

    /// Removes and returns the run of consecutive numbers that starts with
    /// the smallest number held.
    pub fn pop_range(&mut self) -> (r: Option<DatagramRange>)
        requires
            old(self).wf(),
        ensures
            final(self).wf(),
            old(self)@.len() == 0 ==> r is None && final(self)@ == old(self)@,
            old(self)@.len() > 0 ==> (r matches Some(range) && range@ == (
                old(self)@[0],
                (old(self)@[0] + run_len(old(self)@) - 1) as nat,
            ) && final(self)@ == old(self)@.skip(run_len(old(self)@) as int)),
    {
        let ghost s = self@;
        proof {
            lemma_run_len(s);
            self.lemma_bounded();
        }
        if self.datagrams.len() == 0 {
            return None;
        }
        let first_number = self.datagrams.remove(0);
        assert(first_number@ == s[0]);
        let mut range = DatagramRange::new(first_number, first_number);
        let mut taken: usize = 1;
        assert(self@ =~= s.skip(1));
        while self.datagrams.len() > 0
            invariant
                1 <= taken <= run_len(s),
                taken <= s.len(),
                self@ == s.skip(taken as int),
                self@.len() == self.datagrams@.len(),
                range@ == (s[0], (s[0] + taken - 1) as nat),
                ascending(s),
                forall|k: int| 0 <= k < run_len(s) ==> #[trigger] s[k] == s[0] + k,
                run_len(s) <= s.len(),
                run_len(s) < s.len() ==> s[run_len(s) as int] != s[run_len(s) - 1] + 1,
                forall|k: int| 0 <= k < s.len() ==> #[trigger] s[k] < u24_modulus(),
            ensures
                taken == run_len(s),
                self@ == s.skip(taken as int),
                range@ == (s[0], (s[0] + taken - 1) as nat),
            decreases self.datagrams@.len(),
        {
            let number = self.datagrams[0];
            assert(self@.len() == self.datagrams@.len());
            assert(number@ == self@[0]);
            assert(self@[0] == s[taken as int]);
            if range.push(number) {
                proof {
                    if taken == run_len(s) {
                        assert(s[taken - 1] == s[0] + taken - 1);
                        assert(false);
                    }
                }
                let ghost before = self@;
                self.datagrams.remove(0);
                assert(self@ =~= before.drop_first());
                assert(self@ =~= s.skip(taken as int + 1));
                taken = taken + 1;
            } else {
                proof {
                    if taken < run_len(s) {
                        assert(s[taken as int] == s[0] + taken);
                        assert(s[0] + taken < u24_modulus());
                        assert(false);
                    }
                }
                break;
            }
        }
        assert(ascending(self@)) by {
            assert forall|p: int, q: int| 0 <= p <= q < self@.len() implies self@[p] <= self@[q] by {
                assert(self@[p] == s[p + taken] && self@[q] == s[q + taken]);
            }
        }
        Some(range)
    }
}

} // verus!

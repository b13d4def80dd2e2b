//! Reassembly of packets that were split into parts to fit datagrams.

use std::collections::HashMap;
use vstd::prelude::*;

use crate::error::{Error, ReadError};
use crate::internal_packet::{
    InternalOrdering, InternalPacket, InternalReliability, PacketFields, SplitPacketHeader,
};
use crate::reader::slice_to_vec;

verus! {

/// The number of parts that have arrived.
pub open spec fn count_received(parts: Seq<Option<Seq<u8>>>) -> nat
    decreases parts.len(),
{
    if parts.len() == 0 {
        0
    } else {
        count_received(parts.drop_last()) + if parts.last() is Some {
            1nat
        } else {
            0nat
        }
    }
}

/// Every part has arrived.
pub open spec fn all_received(parts: Seq<Option<Seq<u8>>>) -> bool {
    forall|i: int| 0 <= i < parts.len() ==> #[trigger] parts[i] is Some
}

/// The payloads of the parts, one after the other.
pub open spec fn joined(parts: Seq<Option<Seq<u8>>>) -> Seq<u8>
    decreases parts.len(),
{
    if parts.len() == 0 {
        Seq::empty()
    } else {
        joined(parts.drop_last()) + match parts.last() {
            Some(p) => p,
            None => Seq::empty(),
        }
    }
}

/// At most every part has arrived, and all have exactly when the count of
/// arrived parts is the number of parts.
pub proof fn lemma_count_received(parts: Seq<Option<Seq<u8>>>)
    ensures
        count_received(parts) <= parts.len(),
        (count_received(parts) == parts.len()) == all_received(parts),
    decreases parts.len(),
{
    if parts.len() > 0 {
        lemma_count_received(parts.drop_last());
        if all_received(parts) {
            assert(all_received(parts.drop_last())) by {
                assert forall|i: int| 0 <= i < parts.drop_last().len() implies #[trigger] parts.drop_last()[i] is Some by {
                    assert(parts.drop_last()[i] == parts[i]);
                }
            }
        }
        if all_received(parts.drop_last()) && parts.last() is Some {
            assert forall|i: int| 0 <= i < parts.len() implies #[trigger] parts[i] is Some by {
                if i < parts.len() - 1 {
                    assert(parts[i] == parts.drop_last()[i]);
                }
            }
        }
    }
}

/// Filling a missing part adds one to the count of arrived parts.
pub proof fn lemma_count_received_update(parts: Seq<Option<Seq<u8>>>, i: int, p: Seq<u8>)
    requires
        0 <= i < parts.len(),
        parts[i] is None,
    ensures
        count_received(parts.update(i, Some(p))) == count_received(parts) + 1,
    decreases parts.len(),
{
    let u = parts.update(i, Some(p));
    if i == parts.len() - 1 {
        assert(u.drop_last() =~= parts.drop_last());
    } else {
        assert(u.drop_last() =~= parts.drop_last().update(i, Some(p)));
        lemma_count_received_update(parts.drop_last(), i, p);
    }
}

/// After the first `k` successful inserts of a trace (see
/// `lemma_channel_reassembly`): the parts hold exactly those payloads at
/// their indices, and `k` parts have arrived.
pub open spec fn inserts_inv(
    n: nat,
    idx: Seq<u32>,
    data: Seq<Seq<u8>>,
    parts: Seq<Seq<Option<Seq<u8>>>>,
    k: int,
) -> bool {
    let p = parts[k];
    &&& p.len() == n
    &&& count_received(p) == k
    &&& forall|j: int| 0 <= j < k ==> #[trigger] idx[j] < n && p[idx[j] as int] == Some(data[j])
    &&& forall|i: int| 0 <= i < n && (#[trigger] p[i]) is Some ==> exists|j: int| 0 <= j < k && idx[j] == i
}

/// The trace keeps `inserts_inv`.
proof fn lemma_inserts_prefix(
    n: nat,
    idx: Seq<u32>,
    data: Seq<Seq<u8>>,
    parts: Seq<Seq<Option<Seq<u8>>>>,
    k: int,
)
    requires
        parts.len() == idx.len() + 1,
        data.len() == idx.len(),
        parts[0] == Seq::new(n, |i: int| None::<Seq<u8>>),
        forall|j: int|
            0 <= j < idx.len() ==> {
                &&& (#[trigger] idx[j]) < parts[j].len()
                &&& parts[j][idx[j] as int] is None
                &&& parts[j + 1] == parts[j].update(idx[j] as int, Some(data[j]))
            },
        0 <= k <= idx.len(),
    ensures
        inserts_inv(n, idx, data, parts, k),
    decreases k,
{
    if k == 0 {
        lemma_count_none(parts[0]);
    } else {
        let m = k - 1;
        lemma_inserts_prefix(n, idx, data, parts, m);
        assert(idx[m] < parts[m].len());
        let p = parts[m];
        let i = idx[m] as int;
        lemma_count_received_update(p, i, data[m]);
        let q = parts[m + 1];
        assert forall|j: int| 0 <= j < k implies #[trigger] idx[j] < n && q[idx[j] as int] == Some(data[j]) by {
            if j < m {
                assert(idx[j] < n && p[idx[j] as int] == Some(data[j]));
                assert(idx[j] != idx[m]);
            }
        }
        assert forall|x: int| 0 <= x < n && (#[trigger] q[x]) is Some implies exists|j: int|
            0 <= j < k && idx[j] == x by {
            if x == i {
                assert(idx[m] == x);
            } else {
                assert(p[x] is Some);
                let j = choose|j: int| 0 <= j < m && idx[j] == x;
                assert(idx[j] == x);
            }
        }
    }
}

/// A channel reassembles exactly when every part has arrived, as the
/// parts joined in index order: starting from a new channel of `n` parts
/// (`SplitPacketChannel::new`), after inserts that succeeded for the
/// indices `idx` with payloads `data`, in any order (`insert`), every part
/// has arrived exactly when there were `n` inserts; the parts are then
/// the payloads in index order (`in_order`), which
/// `get_reassembled_packet` joins.
pub proof fn lemma_channel_reassembly(
    n: nat,
    idx: Seq<u32>,
    data: Seq<Seq<u8>>,
    parts: Seq<Seq<Option<Seq<u8>>>>,
    in_order: Seq<Option<Seq<u8>>>,
)
    requires
        parts.len() == idx.len() + 1,
        data.len() == idx.len(),
        parts[0] == Seq::new(n, |i: int| None::<Seq<u8>>),
        forall|j: int|
            0 <= j < idx.len() ==> {
                &&& (#[trigger] idx[j]) < parts[j].len()
                &&& parts[j][idx[j] as int] is None
                &&& parts[j + 1] == parts[j].update(idx[j] as int, Some(data[j]))
            },
        in_order.len() == n,
        forall|j: int| 0 <= j < idx.len() ==> in_order[#[trigger] idx[j] as int] == Some(data[j]),
    ensures
        all_received(parts.last()) == (idx.len() == n),
        all_received(parts.last()) ==> parts.last() == in_order && joined(parts.last()) == joined(in_order),
{
    let k = idx.len() as int;
    lemma_inserts_prefix(n, idx, data, parts, k);
    let p = parts[k];
    lemma_count_received(p);
    if all_received(p) {
        assert(p =~= in_order) by {
            assert forall|x: int| 0 <= x < n implies p[x] == in_order[x] by {
                assert(p[x] is Some);
                let j = choose|j: int| 0 <= j < k && idx[j] == x;
                assert(idx[j] < n && p[idx[j] as int] == Some(data[j]));
                assert(in_order[idx[j] as int] == Some(data[j]));
            }
        }
    }
}

/// The parts of one split packet received so far.
pub struct SplitPacketChannel {
    /// The `InternalReliability` of the split packet when reassembled.
    reliability: InternalReliability,
    /// The `InternalOrdering` of the split packet when reassembled.
    ordering: InternalOrdering,
    /// The number of bytes received so far, used as a capacity hint. It
    /// wraps around like an unchecked `u32` addition in an optimized build.
    received_byte_count: u32,
    /// The number of parts received.
    received_part_count: u32,
    /// The received data of the parts at the correct index.
    parts: Vec<Option<Vec<u8>>>,
}

impl SplitPacketChannel {
    /// The reliability of the reassembled packet.
    pub closed spec fn spec_reliability(&self) -> InternalReliability {
        self.reliability
    }

    /// The ordering of the reassembled packet.
    pub closed spec fn spec_ordering(&self) -> InternalOrdering {
        self.ordering
    }

    /// The parts, `None` where a part has not arrived yet.
    pub closed spec fn parts(&self) -> Seq<Option<Seq<u8>>> {
        self.parts@.map_values(|p: Option<Vec<u8>>| match p {
            Some(v) => Some(v@),
            None => None,
        })
    }

    /// The count of arrived parts is kept, and the number of parts fits a
    /// `u32`.
    pub closed spec fn wf(&self) -> bool {
        &&& self.parts@.len() <= u32::MAX
        &&& self.received_part_count == count_received(self.parts())
    }

    /// A channel waiting for `split_packet_count` parts.
    pub fn new(
        reliability: InternalReliability,
        ordering: InternalOrdering,
        split_packet_count: u32,
    ) -> (r: SplitPacketChannel)
        ensures
            r.wf(),
            r.spec_reliability() == reliability,
            r.spec_ordering() == ordering,
            r.parts() == Seq::new(split_packet_count as nat, |i: int| None::<Seq<u8>>),
    {
        let mut parts: Vec<Option<Vec<u8>>> = Vec::new();
        let mut i: u32 = 0;
        while i < split_packet_count
            invariant
                i <= split_packet_count,
                parts@.len() == i,
                forall|j: int| 0 <= j < i ==> #[trigger] parts@[j] is None,
            decreases split_packet_count - i,
        {
            parts.push(None);
            i = i + 1;
        }
        let r = SplitPacketChannel {
            reliability,
            ordering,
            received_byte_count: 0,
            received_part_count: 0,
            parts,
        };
        assert(r.parts() =~= Seq::new(split_packet_count as nat, |i: int| None::<Seq<u8>>));
        proof {
            lemma_count_none(r.parts());
        }
        r
    }

    /// Stores part `index`. Fails with `SplitPacketIndexOutOfRange` when
    /// the index is not below the part count and with
    /// `DuplicateSplitPacketIndex` when the part has arrived already;
    /// the channel is unchanged then.
    pub fn insert(&mut self, index: u32, data: Vec<u8>) -> (r: Result<(), Error>)
        requires
            old(self).wf(),
        ensures
            final(self).wf(),
            final(self).spec_reliability() == old(self).spec_reliability(),
            final(self).spec_ordering() == old(self).spec_ordering(),
            index >= old(self).parts().len() ==> r == Err::<(), Error>(
                Error::ReadError(ReadError::SplitPacketIndexOutOfRange),
            ) && final(self).parts() == old(self).parts(),
            index < old(self).parts().len() && old(self).parts()[index as int] is Some ==> r
                == Err::<(), Error>(Error::ReadError(ReadError::DuplicateSplitPacketIndex))
                && final(self).parts() == old(self).parts(),
            index < old(self).parts().len() && old(self).parts()[index as int] is None ==> r is Ok
                && final(self).parts() == old(self).parts().update(index as int, Some(data@)),
    {
        if index as usize >= self.parts.len() {
            return Err(Error::ReadError(ReadError::SplitPacketIndexOutOfRange));
        }
        if self.parts[index as usize].is_some() {
            return Err(Error::ReadError(ReadError::DuplicateSplitPacketIndex));
        }
        let ghost before = self.parts();
        proof {
            lemma_count_received(before);
            lemma_count_received_update(before, index as int, data@);
            lemma_count_received(before.update(index as int, Some(data@)));
        }
        self.received_byte_count = self.received_byte_count.wrapping_add(data.len() as u32);
        self.received_part_count = self.received_part_count + 1;
        self.parts.set(index as usize, Some(data));
        assert(self.parts() =~= before.update(index as int, Some(data@)));
        Ok(())
    }

    /// `r` is what the channel `c` gives when asked for its packet at
    /// `time`: the packet reassembled from the parts once every part has
    /// arrived, and nothing before.
    pub open spec fn reassembled(c: SplitPacketChannel, time: u64, r: Option<InternalPacket>) -> bool {
        &&& all_received(c.parts()) ==> (r matches Some(p) && p.spec_creation_time() == time
            && p.spec_reliability() == c.spec_reliability() && p.spec_ordering() == c.spec_ordering()
            && p.spec_split_packet_header() is None && p.spec_receipt() is None && p.spec_payload()
            == joined(c.parts()))
        &&& !all_received(c.parts()) ==> r is None
    }

    /// The reassembled packet, created at `time`, once every part has
    /// arrived.
    pub fn get_reassembled_packet(&self, time: u64) -> (r: Option<InternalPacket>)
        requires
            self.wf(),
        ensures
            all_received(self.parts()) ==> (r matches Some(p) && p.spec_creation_time() == time
                && p.spec_reliability() == self.spec_reliability() && p.spec_ordering()
                == self.spec_ordering() && p.spec_split_packet_header() is None
                && p.spec_receipt() is None && p.spec_payload() == joined(self.parts())),
            !all_received(self.parts()) ==> r is None,
            SplitPacketChannel::reassembled(*self, time, r),
    {
        proof {
            lemma_count_received(self.parts());
        }
        if self.has_complete_packet() {
            let mut payload: Vec<u8> = Vec::with_capacity(self.received_byte_count as usize);
            let mut i: usize = 0;
            while i < self.parts.len()
                invariant
                    i <= self.parts@.len(),
                    all_received(self.parts()),
                    payload@ == joined(self.parts().take(i as int)),
                decreases self.parts@.len() - i,
            {
                assert(self.parts()[i as int] is Some);
                match &self.parts[i] {
                    Some(data) => {
                        let ghost before = payload@;
                        let copy = slice_to_vec(data.as_slice());
                        let mut part = copy;
                        payload.append(&mut part);
                        assert(self.parts().take(i as int + 1).drop_last() =~= self.parts().take(
                            i as int,
                        ));
                        assert(self.parts()[i as int] == Some(data@));
                    },
                    None => {
                        return None;
                    },
                }
                i = i + 1;
            }
            assert(self.parts().take(self.parts().len() as int) =~= self.parts());
            Some(InternalPacket::new(time, self.reliability, self.ordering, None, None, payload))
        } else {
            None
        }
    }

    /// Whether every part has arrived.
    fn has_complete_packet(&self) -> (r: bool)
        requires
            self.wf(),
        ensures
            r == (count_received(self.parts()) == self.parts().len()),
    {
        self.received_part_count == self.parts.len() as u32
    }
}

/// Index `i` is among the inserted indices `idx`.
pub open spec fn index_inserted(idx: Seq<u32>, i: int) -> bool {
    exists|j: int| 0 <= j < idx.len() && idx[j] == i
}

/// All the channels of a trace have the reliability and ordering of the
/// first.
proof fn lemma_same_kind(chans: Seq<SplitPacketChannel>, k: int)
    requires
        forall|j: int|
            0 <= j < chans.len() - 1 ==> (#[trigger] chans[j + 1]).spec_reliability()
                == chans[j].spec_reliability() && chans[j + 1].spec_ordering() == chans[j].spec_ordering(),
        0 <= k < chans.len(),
    ensures
        chans[k].spec_reliability() == chans[0].spec_reliability(),
        chans[k].spec_ordering() == chans[0].spec_ordering(),
    decreases k,
{
    if k > 0 {
        lemma_same_kind(chans, k - 1);
        assert(chans[(k - 1) + 1].spec_reliability() == chans[k - 1].spec_reliability());
    }
}

/// A channel reassembles exactly when every part has arrived, as the parts
/// joined in index order: starting from a new channel of `n` parts
/// (`SplitPacketChannel::new`), after inserts that succeeded (`insert`
/// returning `Ok`) for the indices `idx` with payloads `data`, in any
/// order, `get_reassembled_packet` at `time` gives a packet exactly when
/// the indices cover `0..n`; the packet then has the channel's
/// reliability and ordering, was created at `time`, has no split header
/// and no receipt, and its payload is the payloads in index order
/// (`in_order`) joined.
pub proof fn lemma_channel_reassembled(
    n: nat,
    idx: Seq<u32>,
    data: Seq<Seq<u8>>,
    chans: Seq<SplitPacketChannel>,
    time: u64,
    r: Option<InternalPacket>,
    in_order: Seq<Option<Seq<u8>>>,
)
    requires
        chans.len() == idx.len() + 1,
        data.len() == idx.len(),
        chans[0].parts() == Seq::new(n, |i: int| None::<Seq<u8>>),
        forall|j: int|
            0 <= j < idx.len() ==> {
                &&& (#[trigger] idx[j]) < chans[j].parts().len()
                &&& chans[j].parts()[idx[j] as int] is None
                &&& chans[j + 1].parts() == chans[j].parts().update(idx[j] as int, Some(data[j]))
                &&& chans[j + 1].spec_reliability() == chans[j].spec_reliability()
                &&& chans[j + 1].spec_ordering() == chans[j].spec_ordering()
            },
        SplitPacketChannel::reassembled(chans.last(), time, r),
        in_order.len() == n,
        forall|j: int| 0 <= j < idx.len() ==> in_order[#[trigger] idx[j] as int] == Some(data[j]),
    ensures
        (r is Some) == (forall|i: int| 0 <= i < n ==> #[trigger] index_inserted(idx, i)),
        r matches Some(p) ==> {
            &&& p.spec_payload() == joined(in_order)
            &&& p.spec_reliability() == chans[0].spec_reliability()
            &&& p.spec_ordering() == chans[0].spec_ordering()
            &&& p.spec_creation_time() == time
            &&& p.spec_split_packet_header() is None
            &&& p.spec_receipt() is None
        },
{
    let k = idx.len() as int;
    let parts = Seq::new(chans.len(), |x: int| chans[x].parts());
    assert forall|j: int| 0 <= j < idx.len() implies {
        &&& (#[trigger] idx[j]) < parts[j].len()
        &&& parts[j][idx[j] as int] is None
        &&& parts[j + 1] == parts[j].update(idx[j] as int, Some(data[j]))
    } by {
        assert(idx[j] < chans[j].parts().len());
    }
    lemma_inserts_prefix(n, idx, data, parts, k);
    lemma_channel_reassembly(n, idx, data, parts, in_order);
    let last = chans.last();
    assert(last.parts() == parts[k]);
    assert forall|j: int| 0 <= j < chans.len() - 1 implies (#[trigger] chans[j + 1]).spec_reliability()
        == chans[j].spec_reliability() && chans[j + 1].spec_ordering() == chans[j].spec_ordering() by {
        assert(idx[j] < chans[j].parts().len());
    }
    lemma_same_kind(chans, k);
    let covers = forall|i: int| 0 <= i < n ==> #[trigger] index_inserted(idx, i);
    if all_received(last.parts()) {
        assert forall|i: int| 0 <= i < n implies #[trigger] index_inserted(idx, i) by {
            assert(last.parts()[i] is Some);
        }
    }
    if covers {
        assert forall|i: int| 0 <= i < last.parts().len() implies #[trigger] last.parts()[i] is Some by {
            assert(index_inserted(idx, i));
            let j = choose|j: int| 0 <= j < idx.len() && idx[j] == i;
            assert(idx[j] < n && parts[k][idx[j] as int] == Some(data[j]));
        }
    }
}

/// A sequence of missing parts has no arrived part.
proof fn lemma_count_none(parts: Seq<Option<Seq<u8>>>)
    requires
        forall|i: int| 0 <= i < parts.len() ==> #[trigger] parts[i] is None,
    ensures
        count_received(parts) == 0,
    decreases parts.len(),
{
    if parts.len() > 0 {
        assert forall|i: int| 0 <= i < parts.drop_last().len() implies #[trigger] parts.drop_last()[i] is None by {
            assert(parts.drop_last()[i] == parts[i]);
        }
        lemma_count_none(parts.drop_last());
    }
}

/// The channel a part with header `h` of a packet with reliability `rel`
/// and ordering `ord` is stored in: the existing channel with the header's
/// id, or a new one.
pub open spec fn channel_for(
    channels: Map<u16, SplitPacketChannel>,
    h: SplitPacketHeader,
    rel: InternalReliability,
    ord: InternalOrdering,
) -> (InternalReliability, InternalOrdering, Seq<Option<Seq<u8>>>) {
    if channels.contains_key(h.id()) {
        let c = channels[h.id()];
        (c.spec_reliability(), c.spec_ordering(), c.parts())
    } else {
        (rel, ord, Seq::new(h.count() as nat, |i: int| None::<Seq<u8>>))
    }
}

/// The index of a part of a split packet; -1 for a packet that is not split.
pub open spec fn part_index(f: PacketFields) -> int {
    match f.2 {
        Some(h) => h.index() as int,
        None => -1,
    }
}

/// `parts` are all the parts of the split packet `id`: each carries a
/// split header with that id and with the number of parts as its count,
/// and each index below the count comes exactly once.
pub open spec fn split_parts(parts: Seq<PacketFields>, id: u16) -> bool {
    &&& parts.len() > 0
    &&& forall|k: int|
        0 <= k < parts.len() ==> ((#[trigger] parts[k]).2 matches Some(h) && h.id() == id && h.count()
            == parts.len() && h.index() < parts.len())
    &&& forall|k: int, l: int|
        0 <= k < l < parts.len() ==> part_index(#[trigger] parts[k]) != part_index(#[trigger] parts[l])
}

/// After the first `k` of `parts` (with `0 < k`), the channel of `id` in
/// `states[k]` holds exactly their payloads at their indices, has the
/// reliability and ordering of the first part, and the other channels are
/// those of `states[0]`.
pub open spec fn reassembly_progress(
    parts: Seq<PacketFields>,
    id: u16,
    states: Seq<Map<u16, SplitPacketChannel>>,
    k: int,
) -> bool {
    let c = states[k][id];
    &&& states[k].contains_key(id)
    &&& c.parts().len() == parts.len()
    &&& count_received(c.parts()) == k
    &&& forall|j: int| 0 <= j < k ==> c.parts()[part_index(#[trigger] parts[j])] == Some(parts[j].3)
    &&& forall|i: int|
        0 <= i < parts.len() && (#[trigger] c.parts()[i]) is Some ==> exists|j: int|
            0 <= j < k && part_index(#[trigger] parts[j]) == i
    &&& c.spec_reliability() == parts[0].0
    &&& c.spec_ordering() == parts[0].1
    &&& states[k].remove(id) == states[0]
}

/// The state after each of the first `k` parts but the last of all is
/// described by `reassembly_progress`, and none of them gave a packet.
proof fn lemma_reassembly_prefix(
    parts: Seq<PacketFields>,
    id: u16,
    times: Seq<u64>,
    states: Seq<Map<u16, SplitPacketChannel>>,
    results: Seq<Option<InternalPacket>>,
    k: int,
)
    requires
        split_parts(parts, id),
        times.len() == parts.len(),
        states.len() == parts.len() + 1,
        results.len() == parts.len(),
        !states[0].contains_key(id),
        forall|j: int|
            0 <= j < parts.len() ==> SplitPacketHandler::handled(
                #[trigger] states[j],
                parts[j],
                times[j],
                states[j + 1],
                results[j],
            ),
        1 <= k < parts.len(),
    ensures
        reassembly_progress(parts, id, states, k),
        forall|j: int| 0 <= j < k ==> (#[trigger] results[j]) is None,
    decreases k,
{
    let n = parts.len();
    let f = parts[k - 1];
    assert(SplitPacketHandler::handled(states[k - 1], parts[k - 1], times[k - 1], states[k], results[k - 1]));
    let h = f.2.unwrap();
    let i = h.index() as int;
    if k == 1 {
        let empty = Seq::new(h.count() as nat, |x: int| None::<Seq<u8>>);
        lemma_count_none(empty);
        lemma_count_received_update(empty, i, f.3);
        let fresh = empty.update(i, Some(f.3));
        lemma_count_received(fresh);
        assert(states[1].remove(id) == states[0].remove(id));
        assert(states[0].remove(id) =~= states[0]);
        assert forall|x: int| 0 <= x < n && (#[trigger] fresh[x]) is Some implies exists|j: int|
            0 <= j < 1 && part_index(#[trigger] parts[j]) == x by {
            assert(part_index(parts[0]) == x);
        }
    } else {
        lemma_reassembly_prefix(parts, id, times, states, results, k - 1);
        let c = states[k - 1][id];
        let pre_parts = c.parts();
        assert(pre_parts[i] is None) by {
            if pre_parts[i] is Some {
                let j = choose|j: int| 0 <= j < k - 1 && part_index(#[trigger] parts[j]) == i;
                assert(part_index(parts[j]) != part_index(parts[k - 1]));
            }
        }
        lemma_count_received_update(pre_parts, i, f.3);
        let fresh = pre_parts.update(i, Some(f.3));
        lemma_count_received(fresh);
        assert(states[k].remove(id) == states[k - 1].remove(id));
        let cp = states[k][id].parts();
        assert forall|j: int| 0 <= j < k implies cp[part_index(#[trigger] parts[j])] == Some(parts[j].3) by {
            if j < k - 1 {
                assert(part_index(parts[j]) != part_index(parts[k - 1]));
            }
        }
        assert forall|x: int| 0 <= x < n && (#[trigger] cp[x]) is Some implies exists|j: int|
            0 <= j < k && part_index(#[trigger] parts[j]) == x by {
            if x == i {
                assert(part_index(parts[k - 1]) == x);
            } else {
                assert(pre_parts[x] is Some);
                let j = choose|j: int| 0 <= j < k - 1 && part_index(#[trigger] parts[j]) == x;
                assert(part_index(parts[j]) == x);
            }
        }
    }
}

/// A split packet is reassembled when its last part arrives, whatever
/// order the parts come in: no earlier part gives a packet; the last part
/// gives the packet with the reliability and ordering of the first part,
/// created when the last part arrived, and with the payloads of the parts
/// in index order (`in_order`); and the split packet is then forgotten.
pub proof fn lemma_split_packet_reassembled(
    parts: Seq<PacketFields>,
    id: u16,
    times: Seq<u64>,
    states: Seq<Map<u16, SplitPacketChannel>>,
    results: Seq<Option<InternalPacket>>,
    in_order: Seq<Option<Seq<u8>>>,
)
    requires
        split_parts(parts, id),
        times.len() == parts.len(),
        states.len() == parts.len() + 1,
        results.len() == parts.len(),
        !states[0].contains_key(id),
        forall|j: int|
            0 <= j < parts.len() ==> SplitPacketHandler::handled(
                #[trigger] states[j],
                parts[j],
                times[j],
                states[j + 1],
                results[j],
            ),
        in_order.len() == parts.len(),
        forall|j: int| 0 <= j < parts.len() ==> in_order[part_index(#[trigger] parts[j])] == Some(parts[j].3),
    ensures
        forall|j: int| 0 <= j < parts.len() - 1 ==> (#[trigger] results[j]) is None,
        (results.last() matches Some(p) && p.spec_payload() == joined(in_order) && p.spec_reliability()
            == parts[0].0 && p.spec_ordering() == parts[0].1 && p.spec_creation_time() == times.last()
            && p.spec_split_packet_header() is None),
        states.last() == states[0],
{
    let n = parts.len() as int;
    let last = n - 1;
    let f = parts[last];
    assert(SplitPacketHandler::handled(states[last], parts[last], times[last], states[n], results[last]));
    let h = f.2.unwrap();
    let i = h.index() as int;
    let pre_parts = if n == 1 {
        Seq::new(h.count() as nat, |x: int| None::<Seq<u8>>)
    } else {
        states[last][id].parts()
    };
    if n == 1 {
        lemma_count_none(pre_parts);
    } else {
        lemma_reassembly_prefix(parts, id, times, states, results, last);
        assert(pre_parts[i] is None) by {
            if pre_parts[i] is Some {
                let j = choose|j: int| 0 <= j < last && part_index(#[trigger] parts[j]) == i;
                assert(part_index(parts[j]) != part_index(parts[last]));
            }
        }
    }
    lemma_count_received_update(pre_parts, i, f.3);
    let fresh = pre_parts.update(i, Some(f.3));
    lemma_count_received(fresh);
    assert(all_received(fresh));
    assert(fresh =~= in_order) by {
        assert forall|x: int| 0 <= x < n implies fresh[x] == in_order[x] by {
            assert(fresh[x] is Some);
            if x == i {
                assert(in_order[part_index(parts[last])] == Some(parts[last].3));
            } else if n > 1 {
                assert(pre_parts[x] is Some);
                let j = choose|j: int| 0 <= j < last && part_index(#[trigger] parts[j]) == x;
                assert(in_order[part_index(parts[j])] == Some(parts[j].3));
            }
        }
    }
    if n == 1 {
        assert(states[0].remove(id) =~= states[0]);
    } else {
        assert(states[last].remove(id) == states[0]);
    }
}

/// The split packets being reassembled, by split packet id.
pub struct SplitPacketHandler {
    channels: HashMap<u16, SplitPacketChannel>,
}

impl SplitPacketHandler {
    /// The channels by split packet id.
    pub closed spec fn channels(&self) -> Map<u16, SplitPacketChannel> {
        self.channels@
    }

    /// Every channel is well formed.
    pub open spec fn wf(&self) -> bool {
        forall|k: u16| #[trigger] self.channels().contains_key(k) ==> self.channels()[k].wf()
    }

    /// The effect of handling a packet with fields `f` at `time` on the
    /// channels `pre`, giving the channels `post` and the reassembled
    /// packet `r`, if any.
    pub open spec fn handled(
        pre: Map<u16, SplitPacketChannel>,
        f: PacketFields,
        time: u64,
        post: Map<u16, SplitPacketChannel>,
        r: Option<InternalPacket>,
    ) -> bool {
        &&& f.2 is None ==> r is None && post == pre
        &&& f.2 matches Some(h) ==> {
            let (rel, ord, parts) = channel_for(
                pre,
                h,
                f.0,
                f.1,
            );
            let i = h.index() as int;
            let fresh = parts.update(i, Some(f.3));
            let others = post.remove(h.id()) == pre.remove(h.id());
            if i >= parts.len() || parts[i] is Some {
                &&& r is None
                &&& others
                &&& post.contains_key(h.id())
                &&& post[h.id()].parts() == parts
                &&& post[h.id()].spec_reliability() == rel
                &&& post[h.id()].spec_ordering() == ord
            } else if all_received(fresh) {
                &&& r matches Some(p)
                &&& p.spec_creation_time() == time
                &&& p.spec_reliability() == rel
                &&& p.spec_ordering() == ord
                &&& p.spec_split_packet_header() is None
                &&& p.spec_receipt() is None
                &&& p.spec_payload() == joined(fresh)
                &&& post == pre.remove(h.id())
            } else {
                &&& r is None
                &&& others
                &&& post.contains_key(h.id())
                &&& post[h.id()].parts() == fresh
                &&& post[h.id()].spec_reliability() == rel
                &&& post[h.id()].spec_ordering() == ord
            }
        }
    }

    /// A handler with no packet in reassembly.
    pub fn new() -> (r: SplitPacketHandler)
        ensures
            r.wf(),
            r.channels() == Map::<u16, SplitPacketChannel>::empty(),
    {
        SplitPacketHandler { channels: HashMap::with_capacity(10) }
    }

    /// Stores a part of a split packet and returns the reassembled packet,
    /// created at `time`, once its last part arrived. A packet without a
    /// split packet header, a part with an index beyond the part count and
    /// a part that arrived before give `None`.
    pub fn handle_split_packet(&mut self, time: u64, packet: InternalPacket) -> (r: Option<
        InternalPacket,
    >)
        requires
            old(self).wf(),
        ensures
            final(self).wf(),
            SplitPacketHandler::handled(old(self).channels(), packet.fields(), time, final(self).channels(), r),
    {
        proof {
            broadcast use vstd::std_specs::hash::group_hash_axioms;
        }
        match packet.split_packet_header() {
            None => None,
            Some(header) => {
                let id = header.split_packet_id();
                let mut channel = match self.channels.remove(&id) {
                    Some(channel) => channel,
                    None => SplitPacketChannel::new(
                        packet.reliability(),
                        packet.ordering(),
                        header.split_packet_count(),
                    ),
                };
                let ghost removed = self.channels@;
                assert(removed == old(self).channels().remove(id));
                match channel.insert(header.split_packet_index(), packet.into_payload()) {
                    Err(_) => {
                        self.channels.insert(id, channel);
                        assert(self.channels@.remove(id) =~= removed);
                        return None;
                    },
                    Ok(()) => {},
                }
                match channel.get_reassembled_packet(time) {
                    Some(reassembled) => Some(reassembled),
                    None => {
                        self.channels.insert(id, channel);
                        assert(self.channels@.remove(id) =~= removed);
                        None
                    },
                }
            },
        }
    }
}

} // verus!

//! The connections of a peer and the routing of datagrams to them.
//!
//! The manager does no I/O: the caller receives datagrams and hands them
//! over, and sends the datagrams and delivers the events that come back.

use vstd::prelude::*;

use crate::acknowledge_handler::retransmission_timeout;
use crate::address::SocketAddress;
use crate::config::Config;
use crate::connection::Connection;
use crate::events::PeerEvent;
use crate::offline_packet_handler::{
    connections_wf, index_of_addr, max_ping_response_len, offline_handled, reply_view,
    OfflinePacketHandler,
};
use crate::reliability_layer::payload_views;

verus! {

/// The contents of the datagrams and their destinations.
pub open spec fn outgoing_views(v: Seq<(Vec<u8>, SocketAddress)>) -> Seq<(Seq<u8>, SocketAddress)> {
    v.map_values(|d: (Vec<u8>, SocketAddress)| (d.0@, d.1))
}

/// The datagrams `dss[i]` of each connection `cs[i]`, addressed to its
/// remote peer, one connection after the other.
pub open spec fn addressed(cs: Seq<Connection>, dss: Seq<Seq<Seq<u8>>>) -> Seq<(Seq<u8>, SocketAddress)>
    decreases cs.len(),
{
    if cs.len() == 0 || dss.len() == 0 {
        Seq::empty()
    } else {
        addressed(cs.drop_last(), dss.drop_last()) + dss.last().map_values(
            |d: Seq<u8>| (d, cs.last().spec_remote_addr()),
        )
    }
}

/// The connections of `cs` that are not to be dropped at `time`, in
/// order.
pub open spec fn kept(cs: Seq<Connection>, time: u64, config: Config) -> Seq<Connection>
    decreases cs.len(),
{
    if cs.len() == 0 {
        Seq::empty()
    } else {
        kept(cs.drop_last(), time, config) + if cs.last().spec_should_drop(time, config) {
            Seq::empty()
        } else {
            seq![cs.last()]
        }
    }
}

/// The kept connections are some of the connections, in order.
proof fn lemma_kept_subset(cs: Seq<Connection>, time: u64, config: Config)
    ensures
        forall|i: int|
            0 <= i < kept(cs, time, config).len() ==> exists|j: int|
                0 <= j < cs.len() && #[trigger] kept(cs, time, config)[i] == cs[j],
        kept(cs, time, config).len() <= cs.len(),
    decreases cs.len(),
{
    if cs.len() > 0 {
        lemma_kept_subset(cs.drop_last(), time, config);
        let k = kept(cs.drop_last(), time, config);
        assert forall|i: int| 0 <= i < kept(cs, time, config).len() implies exists|j: int|
            0 <= j < cs.len() && #[trigger] kept(cs, time, config)[i] == cs[j] by {
            if i < k.len() {
                let j = choose|j: int| 0 <= j < cs.drop_last().len() && k[i] == cs.drop_last()[j];
                assert(kept(cs, time, config)[i] == cs[j]);
            } else {
                assert(kept(cs, time, config)[i] == cs[cs.len() - 1]);
            }
        }
    }
}

/// The connections of a peer, the answers to offline messages, the local
/// addresses sent in the handshake and the time the peer was created.
pub struct ConnectionManager {
    config: Config,
    connections: Vec<Connection>,
    offline_packet_handler: OfflinePacketHandler,
    peer_creation_time: u64,
    addr_list: Vec<SocketAddress>,
}

impl ConnectionManager {
    /// The configuration.
    pub closed spec fn spec_config(&self) -> Config {
        self.config
    }

    /// The connections.
    pub closed spec fn connections(&self) -> Seq<Connection> {
        self.connections@
    }

    /// The response sent to an offline ping.
    pub closed spec fn ping_response(&self) -> Seq<u8> {
        self.offline_packet_handler.spec_ping_response()
    }

    /// The time (in nanoseconds) the peer was created.
    pub closed spec fn spec_peer_creation_time(&self) -> u64 {
        self.peer_creation_time
    }

    /// The local addresses sent when a connection request is accepted.
    pub closed spec fn addr_list(&self) -> Seq<SocketAddress> {
        self.addr_list@
    }

    /// No two connections share a remote address and each is well formed.
    pub open spec fn wf(&self) -> bool {
        connections_wf(self.connections())
    }

    /// A manager with no connection and an empty ping response, for a
    /// peer created at `peer_creation_time` with local addresses
    /// `addr_list`.
    pub fn new(config: Config, peer_creation_time: u64, addr_list: Vec<SocketAddress>) -> (r: ConnectionManager)
        ensures
            r.wf(),
            r.spec_config() == config,
            r.connections().len() == 0,
            r.ping_response() == Seq::<u8>::empty(),
            r.spec_peer_creation_time() == peer_creation_time,
            r.addr_list() == addr_list@,
    {
        let r = ConnectionManager {
            config,
            connections: Vec::new(),
            offline_packet_handler: OfflinePacketHandler::new(),
            peer_creation_time,
            addr_list,
        };
        assert(r.connections() =~= Seq::<Connection>::empty());
        r
    }

    /// Sets the response returned to an offline ping. A response longer
    /// than 399 bytes is truncated.
    pub fn set_offline_ping_response(&mut self, ping_response: Vec<u8>)
        ensures
            final(self).ping_response() == if ping_response@.len() > max_ping_response_len() {
                ping_response@.take(max_ping_response_len() as int)
            } else {
                ping_response@
            },
            final(self).connections() == old(self).connections(),
            final(self).spec_config() == old(self).spec_config(),
            final(self).spec_peer_creation_time() == old(self).spec_peer_creation_time(),
            final(self).addr_list() == old(self).addr_list(),
    {
        self.offline_packet_handler.set_offline_ping_response(ping_response);
    }

    /// The number of connections.
    pub fn number_of_connections(&self) -> (r: usize)
        ensures
            r == self.connections().len(),
    {
        self.connections.len()
    }

    /// Processes a datagram from `addr` that arrived at `time`. An offline
    /// message is answered (see `offline_handled`); any other datagram
    /// goes to the connection with `addr`, if there is one. Returns the
    /// answer to send back to `addr` and the events for the user.
    pub fn process_datagram(&mut self, time: u64, addr: SocketAddress, payload: &[u8]) -> (r: (
        Option<Vec<u8>>,
        Vec<PeerEvent>,
    ))
        requires
            old(self).wf(),
        ensures
            final(self).wf(),
            final(self).spec_config() == old(self).spec_config(),
            final(self).ping_response() == old(self).ping_response(),
            final(self).spec_peer_creation_time() == old(self).spec_peer_creation_time(),
            final(self).addr_list() == old(self).addr_list(),
            exists|handled: bool, mid: Seq<Connection>|
                #[trigger] offline_handled(
                    old(self).ping_response(),
                    time,
                    old(self).spec_peer_creation_time(),
                    addr,
                    payload@,
                    old(self).spec_config(),
                    old(self).connections(),
                    mid,
                    handled,
                    reply_view(r.0),
                ) && if handled {
                    final(self).connections() == mid && r.1@.len() == 0
                } else {
                    match index_of_addr(mid, addr) {
                        None => final(self).connections() == mid && r.1@.len() == 0,
                        Some(i) => final(self).connections() == mid.update(
                            i,
                            final(self).connections()[i],
                        ) && Connection::datagram_handled(
                            mid[i],
                            payload@,
                            time,
                            old(self).addr_list(),
                            final(self).connections()[i],
                            r.1@,
                        ),
                    }
                },
    {
        let (handled, reply) = self.offline_packet_handler.process_offline_packet(
            time,
            self.peer_creation_time,
            addr,
            payload,
            &self.config,
            &mut self.connections,
        );
        let ghost mid = self.connections@;
        assert(offline_handled(
            old(self).ping_response(),
            time,
            old(self).spec_peer_creation_time(),
            addr,
            payload@,
            old(self).spec_config(),
            old(self).connections(),
            mid,
            handled,
            reply_view(reply),
        ));
        if handled {
            let events: Vec<PeerEvent> = Vec::new();
            assert(events@.len() == 0);
            return (reply, events);
        }
        match crate::offline_packet_handler::find_addr(&self.connections, addr) {
            None => (reply, Vec::new()),
            Some(i) => {
                let mut conn = self.connections.remove(i);
                let events = conn.process_incoming_datagram(payload, time, &self.addr_list);
                let ghost c = conn;
                self.connections.insert(i, conn);
                assert(self.connections@ =~= mid.update(i as int, c));
                assert forall|a: int, b: int| 0 <= a < b < self.connections@.len() implies (#[trigger] self.connections@[a]).spec_remote_addr()
                    != (#[trigger] self.connections@[b]).spec_remote_addr() by {
                    assert(mid[a].spec_remote_addr() != mid[b].spec_remote_addr());
                }
                (reply, events)
            },
        }
    }

    /// Updates every connection at `time` and then drops those to be
    /// dropped (see `Connection::should_drop`). Returns the datagrams to
    /// send, each with its destination.
    pub fn update(&mut self, time: u64) -> (r: Vec<(Vec<u8>, SocketAddress)>)
        requires
            old(self).wf(),
            time <= u64::MAX - retransmission_timeout(),
        ensures
            final(self).wf(),
            final(self).spec_config() == old(self).spec_config(),
            final(self).ping_response() == old(self).ping_response(),
            final(self).spec_peer_creation_time() == old(self).spec_peer_creation_time(),
            final(self).addr_list() == old(self).addr_list(),
            exists|mid: Seq<Connection>, dss: Seq<Seq<Seq<u8>>>|
                #[trigger] ConnectionManager::all_updated(
                    old(self).connections(),
                    time,
                    old(self).spec_config(),
                    mid,
                    dss,
                ) && final(self).connections() == kept(mid, time, old(self).spec_config())
                    && outgoing_views(r@) == addressed(old(self).connections(), dss),
    {
        let ghost pre = self.connections@;
        let mut remaining: Vec<Connection> = Vec::new();
        std::mem::swap(&mut remaining, &mut self.connections);
        let mut out: Vec<(Vec<u8>, SocketAddress)> = Vec::new();
        let ghost mut mid: Seq<Connection> = Seq::empty();
        let ghost mut dss: Seq<Seq<Seq<u8>>> = Seq::empty();
        let mut k: usize = 0;
        let n: usize = remaining.len();
        assert(pre.skip(0) =~= pre);
        assert(outgoing_views(out@) =~= Seq::<(Seq<u8>, SocketAddress)>::empty());
        assert(self.connections@ =~= Seq::<Connection>::empty());
        while remaining.len() > 0
            invariant
                connections_wf(pre),
                time <= u64::MAX - retransmission_timeout(),
                n == pre.len(),
                k + remaining@.len() == n,
                remaining@ == pre.skip(k as int),
                mid.len() == k,
                dss.len() == k,
                ConnectionManager::all_updated(pre.take(k as int), time, self.config, mid, dss),
                self.connections@ == kept(mid, time, self.config),
                outgoing_views(out@) == addressed(pre.take(k as int), dss),
                self.config == old(self).config,
                self.offline_packet_handler == old(self).offline_packet_handler,
                self.peer_creation_time == old(self).peer_creation_time,
                self.addr_list == old(self).addr_list,
            decreases remaining@.len(),
        {
            let ghost before = remaining@;
            let mut conn = remaining.remove(0);
            assert(conn == pre[k as int]) by {
                assert(before[0] == pre.skip(k as int)[0]);
            }
            assert(remaining@ =~= pre.skip(k as int + 1)) by {
                assert forall|j: int| 0 <= j < remaining@.len() implies remaining@[j] == pre.skip(
                    k as int + 1,
                )[j] by {
                    assert(remaining@[j] == before[j + 1]);
                }
            }
            let ghost c0 = conn;
            assert(c0.wf());
            let datagrams = conn.update(time, &self.config);
            let ghost ds = payload_views(datagrams@);
            let addr = conn.remote_addr();
            let ghost out_before = outgoing_views(out@);
            let mut datagrams = datagrams;
            let mut j: usize = 0;
            let m: usize = datagrams.len();
            assert(ds.skip(0) =~= ds);
            while datagrams.len() > 0
                invariant
                    j + datagrams@.len() == m,
                    m == ds.len(),
                    payload_views(datagrams@) == ds.skip(j as int),
                    outgoing_views(out@) == out_before + ds.take(j as int).map_values(
                        |d: Seq<u8>| (d, addr),
                    ),
                decreases datagrams@.len(),
            {
                let ghost b = datagrams@;
                let d = datagrams.remove(0);
                assert(d@ == ds[j as int]) by {
                    assert(payload_views(b)[0] == ds.skip(j as int)[0]);
                }
                assert(payload_views(datagrams@) =~= ds.skip(j as int + 1)) by {
                    assert forall|x: int| 0 <= x < datagrams@.len() implies payload_views(datagrams@)[x]
                        == ds.skip(j as int + 1)[x] by {
                        assert(payload_views(b)[x + 1] == ds.skip(j as int)[x + 1]);
                    }
                }
                let ghost ob = out@;
                out.push((d, addr));
                assert(outgoing_views(out@) =~= outgoing_views(ob).push((ds[j as int], addr)));
                assert(ds.take(j as int + 1).map_values(|e: Seq<u8>| (e, addr)) =~= ds.take(
                    j as int,
                ).map_values(|e: Seq<u8>| (e, addr)).push((ds[j as int], addr)));
                j = j + 1;
            }
            assert(ds.take(j as int) =~= ds);
            let drop = conn.should_drop(time, &self.config);
            let ghost c1 = conn;
            if !drop {
                self.connections.push(conn);
            }
            proof {
                let old_mid = mid;
                let old_dss = dss;
                mid = mid.push(c1);
                dss = dss.push(ds);
                assert(pre.take(k as int + 1).drop_last() =~= pre.take(k as int));
                assert(pre.take(k as int + 1).last() == c0);
                assert(mid.drop_last() =~= old_mid);
                assert(dss.drop_last() =~= old_dss);
                assert(self.connections@ =~= kept(mid, time, self.config));
                assert(outgoing_views(out@) =~= addressed(pre.take(k as int + 1), dss));
                assert forall|x: int| 0 <= x < k + 1 implies #[trigger] Connection::updated(
                    pre.take(k as int + 1)[x],
                    time,
                    self.config,
                    mid[x],
                    dss[x],
                ) && mid[x].wf() by {
                    if x < k {
                        assert(pre.take(k as int + 1)[x] == pre.take(k as int)[x]);
                        assert(mid[x] == old_mid[x]);
                        assert(dss[x] == old_dss[x]);
                    }
                }
            }
            k = k + 1;
        }
        assert(pre.take(k as int) =~= pre);
        proof {
            lemma_kept_subset(mid, time, self.config);
            assert forall|a: int| 0 <= a < self.connections@.len() implies (#[trigger] self.connections@[a]).wf() by {
                let x = choose|x: int| 0 <= x < mid.len() && #[trigger] kept(mid, time, self.config)[a] == mid[x];
                assert(Connection::updated(pre[x], time, self.config, mid[x], dss[x]) && mid[x].wf());
            }
            lemma_kept_distinct(pre, mid, time, self.config, dss);
        }
        out
    }

    /// Each connection `pre[i]`, updated at `time`, became `post[i]` and
    /// gave the datagrams `dss[i]`.
    pub open spec fn all_updated(
        pre: Seq<Connection>,
        time: u64,
        config: Config,
        post: Seq<Connection>,
        dss: Seq<Seq<Seq<u8>>>,
    ) -> bool {
        &&& post.len() == pre.len()
        &&& dss.len() == pre.len()
        &&& forall|i: int|
            0 <= i < pre.len() ==> #[trigger] Connection::updated(pre[i], time, config, post[i], dss[i])
                && post[i].wf()
    }
}

/// Updating keeps the remote addresses, so the kept connections still
/// have distinct remote addresses.
proof fn lemma_kept_distinct(
    pre: Seq<Connection>,
    mid: Seq<Connection>,
    time: u64,
    config: Config,
    dss: Seq<Seq<Seq<u8>>>,
)
    requires
        connections_wf(pre),
        ConnectionManager::all_updated(pre, time, config, mid, dss),
    ensures
        forall|a: int, b: int|
            0 <= a < b < kept(mid, time, config).len() ==> (#[trigger] kept(mid, time, config)[a]).spec_remote_addr()
                != (#[trigger] kept(mid, time, config)[b]).spec_remote_addr(),
    decreases mid.len(),
{
    if mid.len() > 0 {
        let pre1 = pre.drop_last();
        let mid1 = mid.drop_last();
        let dss1 = dss.drop_last();
        assert forall|i: int| 0 <= i < pre1.len() implies #[trigger] Connection::updated(
            pre1[i],
            time,
            config,
            mid1[i],
            dss1[i],
        ) && mid1[i].wf() by {
            assert(Connection::updated(pre[i], time, config, mid[i], dss[i]));
        }
        assert forall|a: int, b: int| 0 <= a < b < pre1.len() implies (#[trigger] pre1[a]).spec_remote_addr()
            != (#[trigger] pre1[b]).spec_remote_addr() by {
            assert(pre[a].spec_remote_addr() != pre[b].spec_remote_addr());
        }
        lemma_kept_distinct(pre1, mid1, time, config, dss1);
        lemma_kept_subset(mid1, time, config);
        let last = mid.last();
        assert(Connection::updated(pre[mid.len() - 1], time, config, mid[mid.len() - 1], dss[mid.len() - 1]));
        let k1 = kept(mid1, time, config);
        assert forall|a: int| 0 <= a < k1.len() implies (#[trigger] k1[a]).spec_remote_addr()
            != last.spec_remote_addr() by {
            let x = choose|x: int| 0 <= x < mid1.len() && #[trigger] k1[a] == mid1[x];
            assert(Connection::updated(pre[x], time, config, mid[x], dss[x]));
            assert(pre[x].spec_remote_addr() != pre[mid.len() - 1].spec_remote_addr());
        }
    }
}

} // verus!

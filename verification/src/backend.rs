//! The multi-peer socket backend: the peer registry, the round-robin
//! outbound dispatcher, and the fair inbound merger.
//!
//! The backend is the single authoritative owner of which peers exist and
//! of who gets the next outbound message. Peer I/O and scheduling live in
//! the embedding runtime, which drives this core through its operations:
//! `peer_connected` / `peer_disconnected` on handshake completion and
//! connection teardown, `message_received` for inbound frames,
//! `send_round_robin` for outbound dispatch, `take_outbound` from the
//! per-peer I/O task, and `next_inbound` from the merger task.

use vstd::prelude::*;

use std::collections::HashMap;

use crate::msg::{is_data_view, msgs_view, Message, MessageView, SocketType};
use crate::rotation::{
    rotation_entries, rotation_len, rotation_new, rotation_pop, rotation_push,
};
use crate::{res_view, ErrorView, ZmqError, ZmqResult};

verus! {

/// Default bounded capacity of each per-peer queue. The sizing policy is a
/// tunable of the embedding application; this is only its default.
pub const DEFAULT_QUEUE_SIZE: usize = 100;

/// Per-connection record: the peer's bounded outbound queue (backend to
/// peer I/O task) and bounded inbound queue (peer I/O task to merger).
pub struct Peer {
    pub send_queue: Vec<Message>,
    pub recv_queue: Vec<Message>,
}

/// Mathematical value of a peer record.
pub struct PeerV {
    pub outbound: Seq<MessageView>,
    pub inbound: Seq<MessageView>,
}

impl View for Peer {
    type V = PeerV;

    open spec fn view(&self) -> PeerV {
        PeerV { outbound: msgs_view(self.send_queue@), inbound: msgs_view(self.recv_queue@) }
    }
}

/// Mathematical value of a backend: the registry as a map, the rotation
/// queue and the merger's fairness order as sequences, the declared socket
/// type, and the per-peer queue capacity.
pub struct BackendV {
    pub peers: Map<u64, PeerV>,
    pub rotation: Seq<u64>,
    pub fair_order: Seq<u64>,
    pub socket_type: SocketType,
    pub capacity: nat,
}

/// The registry as a map of mathematical peer values.
pub open spec fn peers_view(m: Map<u64, Peer>) -> Map<u64, PeerV> {
    Map::new(|k: u64| m.dom().contains(k), |k: u64| m[k]@)
}

/// Well-formedness of a backend value: the capacity is positive, every
/// registered peer has at least one rotation entry (so it stays eligible
/// for dispatch), every queue respects the capacity bound, and the merger
/// tracks every registered peer exactly once.
pub open spec fn backend_wf(s: BackendV) -> bool {
    &&& s.capacity >= 1
    &&& forall|id: u64| #[trigger] s.peers.dom().contains(id) ==> s.rotation.contains(id)
    &&& forall|id: u64| #[trigger]
        s.peers.dom().contains(id) ==> s.peers[id].outbound.len() <= s.capacity
            && s.peers[id].inbound.len() <= s.capacity
    &&& s.fair_order.no_duplicates()
    &&& forall|id: u64| #[trigger] s.peers.dom().contains(id) ==> s.fair_order.contains(id)
}

/// What `message_received` decides for one inbound message.
pub enum InboundOutcome {
    /// The message was appended to the peer's inbound queue.
    Delivered,
    /// The peer is not (or no longer) registered; the message is dropped.
    /// A race between disconnect and in-flight delivery is expected.
    Ignored,
    /// The peer's inbound queue is at capacity; the message is handed back
    /// so the caller can apply backpressure and retry.
    Full(Message),
}

/// Mathematical value of an inbound outcome.
pub enum InboundOutcomeV {
    Delivered,
    Ignored,
    Full(MessageView),
}

impl View for InboundOutcome {
    type V = InboundOutcomeV;

    open spec fn view(&self) -> InboundOutcomeV {
        match self {
            InboundOutcome::Delivered => InboundOutcomeV::Delivered,
            InboundOutcome::Ignored => InboundOutcomeV::Ignored,
            InboundOutcome::Full(m) => InboundOutcomeV::Full(m@),
        }
    }
}

/// What one `message_received` call does to the registry.
pub struct RecvStep {
    pub peers: Map<u64, PeerV>,
    pub outcome: InboundOutcomeV,
}

/// Mirror of `message_received`: unregistered peers are ignored, a full
/// inbound queue hands the message back, otherwise the message is appended.
pub open spec fn message_received_spec(
    peers: Map<u64, PeerV>,
    cap: nat,
    id: u64,
    m: MessageView,
) -> RecvStep {
    if !peers.dom().contains(id) {
        RecvStep { peers, outcome: InboundOutcomeV::Ignored }
    } else if peers[id].inbound.len() < cap {
        RecvStep {
            peers: peers.insert(
                id,
                PeerV { outbound: peers[id].outbound, inbound: peers[id].inbound.push(m) },
            ),
            outcome: InboundOutcomeV::Delivered,
        }
    } else {
        RecvStep { peers, outcome: InboundOutcomeV::Full(m) }
    }
}

/// The registry and rotation after a dispatch attempt, and its result.
pub struct RrOutcome {
    pub peers: Map<u64, PeerV>,
    pub rotation: Seq<u64>,
    pub result: Result<u64, ErrorView>,
}

/// Mirror of the dispatch loop: pop the rotation head; discard it when its
/// peer is gone; skip it (re-pushing it at the tail, so it stays eligible)
/// when its outbound queue is full; otherwise enqueue the message, re-push
/// the identity at the tail and report it as the recipient. `fuel` bounds
/// the retries: one pass over the rotation entries present at the start.
pub open spec fn rr_spec(
    peers: Map<u64, PeerV>,
    rotation: Seq<u64>,
    cap: nat,
    m: MessageView,
    fuel: nat,
) -> RrOutcome
    decreases fuel,
{
    if fuel == 0 || rotation.len() == 0 {
        RrOutcome { peers, rotation, result: Err(ErrorView::NoPeersAvailable(m)) }
    } else {
        let id = rotation[0];
        let rest = rotation.drop_first();
        if !peers.dom().contains(id) {
            rr_spec(peers, rest, cap, m, (fuel - 1) as nat)
        } else if peers[id].outbound.len() < cap {
            RrOutcome {
                peers: peers.insert(
                    id,
                    PeerV { outbound: peers[id].outbound.push(m), inbound: peers[id].inbound },
                ),
                rotation: rest.push(id),
                result: Ok(id),
            }
        } else {
            rr_spec(peers, rest.push(id), cap, m, (fuel - 1) as nat)
        }
    }
}

/// Mirror of `send_round_robin`: greetings and commands are contract
/// violations whatever the registry holds; data messages take one bounded
/// pass over the rotation.
pub open spec fn send_rr_spec(s: BackendV, m: MessageView) -> RrOutcome {
    if !is_data_view(m) {
        RrOutcome { peers: s.peers, rotation: s.rotation, result: Err(ErrorView::ContractViolation) }
    } else {
        rr_spec(s.peers, s.rotation, s.capacity, m, s.rotation.len() as nat)
    }
}

/// The cumulative effect of dispatching a sequence of messages in turn,
/// each through one bounded round-robin pass.
pub struct DispatchAll {
    pub peers: Map<u64, PeerV>,
    pub rotation: Seq<u64>,
    pub recipients: Seq<Result<u64, ErrorView>>,
}

/// Dispatches each message of `ms` in turn, recording every dispatch
/// result.
pub open spec fn dispatch_all(
    peers: Map<u64, PeerV>,
    rotation: Seq<u64>,
    cap: nat,
    ms: Seq<MessageView>,
) -> DispatchAll
    decreases ms.len(),
{
    if ms.len() == 0 {
        DispatchAll { peers, rotation, recipients: Seq::<Result<u64, ErrorView>>::empty() }
    } else {
        let o = rr_spec(peers, rotation, cap, ms[0], rotation.len() as nat);
        let rec = dispatch_all(o.peers, o.rotation, cap, ms.drop_first());
        DispatchAll {
            peers: rec.peers,
            rotation: rec.rotation,
            recipients: seq![o.result] + rec.recipients,
        }
    }
}

/// One round of dispatches against a fresh peer set, begun after `j` peers
/// have already been served one message each: the next messages go to the
/// following peers in rotation order, one each.
proof fn lemma_rr_round_progress(
    ids: Seq<u64>,
    peers: Map<u64, PeerV>,
    cap: nat,
    ms: Seq<MessageView>,
    j: int,
)
    requires
        ids.no_duplicates(),
        cap >= 1,
        0 <= j,
        j + ms.len() <= ids.len(),
        forall|k: int| 0 <= k < ms.len() ==> is_data_view(#[trigger] ms[k]),
        forall|k: int| 0 <= k < ids.len() ==> peers.dom().contains(#[trigger] ids[k]),
        forall|id: u64| #[trigger] peers.dom().contains(id) ==> ids.contains(id),
        forall|k: int|
            0 <= k < ids.len() ==> #[trigger] peers[ids[k]].outbound.len() == if k < j {
                1int
            } else {
                0int
            },
    ensures
        ({
            let out = dispatch_all(peers, ids.skip(j) + ids.take(j), cap, ms);
            &&& out.recipients.len() == ms.len()
            &&& forall|k: int|
                0 <= k < ms.len() ==> #[trigger] out.recipients[k] == Ok::<u64, ErrorView>(
                    ids[j + k],
                )
            &&& forall|k: int|
                0 <= k < ids.len() ==> #[trigger] out.peers[ids[k]].outbound.len() == if k < j
                    + ms.len() {
                    1int
                } else {
                    0int
                }
            &&& out.rotation == ids.skip(j + ms.len()) + ids.take(j + ms.len())
            &&& forall|k: int| 0 <= k < ids.len() ==> out.peers.dom().contains(#[trigger] ids[k])
            &&& forall|id: u64| #[trigger] out.peers.dom().contains(id) ==> ids.contains(id)
        }),
    decreases ms.len(),
{
    let rot = ids.skip(j) + ids.take(j);
    if ms.len() == 0 {
        assert(dispatch_all(peers, rot, cap, ms).recipients
            =~= Seq::<Result<u64, ErrorView>>::empty());
    } else {
        assert(rot.len() == ids.len());
        assert(j < ids.len());
        assert(rot[0] == ids[j]);
        let o = rr_spec(peers, rot, cap, ms[0], rot.len() as nat);
        assert(peers[ids[j]].outbound.len() == 0) by {
            assert(!(j < j));
        }
        let served = PeerV {
            outbound: peers[ids[j]].outbound.push(ms[0]),
            inbound: peers[ids[j]].inbound,
        };
        assert(o == (RrOutcome {
            peers: peers.insert(ids[j], served),
            rotation: rot.drop_first().push(ids[j]),
            result: Ok::<u64, ErrorView>(ids[j]),
        }));
        assert(rot.drop_first().push(ids[j]) =~= ids.skip(j + 1) + ids.take(j + 1));
        let peers1 = peers.insert(ids[j], served);
        assert forall|k: int| 0 <= k < ids.len() implies #[trigger] peers1[ids[k]].outbound.len()
            == if k < j + 1 {
            1int
        } else {
            0int
        } by {
            if k != j {
                assert(ids[k] != ids[j]);
                assert(peers1[ids[k]] == peers[ids[k]]);
            } else {
                assert(served.outbound.len() == 1);
            }
        }
        lemma_rr_round_progress(ids, peers1, cap, ms.drop_first(), j + 1);
        let sub = dispatch_all(peers1, ids.skip(j + 1) + ids.take(j + 1), cap, ms.drop_first());
        let out = dispatch_all(peers, rot, cap, ms);
        assert(out.recipients == seq![o.result] + sub.recipients);
        assert forall|k: int| 0 <= k < ms.len() implies #[trigger] out.recipients[k] == Ok::<
            u64,
            ErrorView,
        >(ids[j + k]) by {
            if k == 0 {
                assert(out.recipients[0] == o.result);
            } else {
                assert(out.recipients[k] == sub.recipients[k - 1]);
                assert(ms.drop_first().len() == ms.len() - 1);
            }
        }
    }
}

/// Round-robin fairness bound (law): from a fresh set of N registered
/// peers, dispatching M data messages with M <= N and room in every queue
/// serves the first M peers in rotation order, one message each — so every
/// peer ends up with exactly floor(M/N) or ceil(M/N) messages.
pub proof fn lemma_round_robin_fairness(
    ids: Seq<u64>,
    peers: Map<u64, PeerV>,
    cap: nat,
    ms: Seq<MessageView>,
)
    requires
        ids.no_duplicates(),
        ids.len() >= 1,
        cap >= 1,
        ms.len() <= ids.len(),
        forall|k: int| 0 <= k < ms.len() ==> is_data_view(#[trigger] ms[k]),
        forall|k: int| 0 <= k < ids.len() ==> peers.dom().contains(#[trigger] ids[k]),
        forall|id: u64| #[trigger] peers.dom().contains(id) ==> ids.contains(id),
        forall|k: int| 0 <= k < ids.len() ==> #[trigger] peers[ids[k]].outbound.len() == 0,
    ensures
        ({
            let out = dispatch_all(peers, ids, cap, ms);
            &&& out.recipients.len() == ms.len()
            &&& forall|k: int|
                0 <= k < ms.len() ==> #[trigger] out.recipients[k] == Ok::<u64, ErrorView>(ids[k])
            &&& forall|k: int|
                0 <= k < ids.len() ==> #[trigger] out.peers[ids[k]].outbound.len() == if k
                    < ms.len() {
                    1int
                } else {
                    0int
                }
            &&& forall|k: int|
                0 <= k < ids.len() ==> (#[trigger] out.peers[ids[k]].outbound.len() == ms.len()
                    as int / ids.len() as int || out.peers[ids[k]].outbound.len() == (ms.len()
                    as int + ids.len() as int - 1) / ids.len() as int)
        }),
{
    lemma_rr_round_progress(ids, peers, cap, ms, 0);
    assert(ids.skip(0) + ids.take(0) =~= ids);
    let m = ms.len() as int;
    let n = ids.len() as int;
    if m < n {
        vstd::arithmetic::div_mod::lemma_basic_div(m, n);
        if m >= 1 {
            vstd::arithmetic::div_mod::lemma_div_plus_one(m - 1, n);
            vstd::arithmetic::div_mod::lemma_basic_div(m - 1, n);
        } else {
            vstd::arithmetic::div_mod::lemma_basic_div(n - 1, n);
        }
    } else {
        vstd::arithmetic::div_mod::lemma_div_plus_one(m - n, n);
        vstd::arithmetic::div_mod::lemma_basic_div(m - n, n);
        vstd::arithmetic::div_mod::lemma_div_plus_one(m - 1, n);
        vstd::arithmetic::div_mod::lemma_basic_div(m - 1, n);
    }
}

/// No data is lost on an empty socket (law): dispatching a data message
/// with zero registered peers fails with `NoPeersAvailable` carrying the
/// original message unmodified, and the registry is untouched.
pub proof fn lemma_dispatch_without_peers(s: BackendV, m: MessageView)
    requires
        is_data_view(m),
        s.peers.dom() == Set::<u64>::empty(),
    ensures
        send_rr_spec(s, m).result == Err::<u64, ErrorView>(ErrorView::NoPeersAvailable(m)),
        send_rr_spec(s, m).peers == s.peers,
{
    lemma_rr_all_stale(s.peers, s.rotation, s.capacity, m, s.rotation.len() as nat);
}

/// A dispatch pass over rotation entries none of which is registered
/// discards them all and fails with the message handed back.
proof fn lemma_rr_all_stale(
    peers: Map<u64, PeerV>,
    rotation: Seq<u64>,
    cap: nat,
    m: MessageView,
    fuel: nat,
)
    requires
        forall|k: int| 0 <= k < rotation.len() ==> !peers.dom().contains(#[trigger] rotation[k]),
    ensures
        rr_spec(peers, rotation, cap, m, fuel).result == Err::<u64, ErrorView>(
            ErrorView::NoPeersAvailable(m),
        ),
        rr_spec(peers, rotation, cap, m, fuel).peers == peers,
    decreases fuel,
{
    if fuel > 0 && rotation.len() > 0 {
        assert(!peers.dom().contains(rotation[0]));
        lemma_rr_all_stale(peers, rotation.drop_first(), cap, m, (fuel - 1) as nat);
    }
}

/// A full peer never blocks the others (law): as long as some rotation
/// entry names a registered peer with room in its outbound queue, the
/// dispatch pass succeeds, and the recipient is such a peer.
pub proof fn lemma_full_peer_does_not_block(s: BackendV, m: MessageView, k: int)
    requires
        is_data_view(m),
        0 <= k < s.rotation.len(),
        s.peers.dom().contains(s.rotation[k]),
        s.peers[s.rotation[k]].outbound.len() < s.capacity,
    ensures
        ({
            let o = send_rr_spec(s, m);
            &&& o.result matches Ok(id)
            &&& s.peers.dom().contains(o.result->Ok_0)
            &&& s.peers[o.result->Ok_0].outbound.len() < s.capacity
        }),
{
    lemma_rr_reaches_ready(s.peers, s.rotation, s.capacity, m, s.rotation.len() as nat, k);
}

/// Helper for the starvation-freedom law: a ready entry at index `k` is
/// reached within `k + 1` pops, whatever stale or full entries precede it.
proof fn lemma_rr_reaches_ready(
    peers: Map<u64, PeerV>,
    rotation: Seq<u64>,
    cap: nat,
    m: MessageView,
    fuel: nat,
    k: int,
)
    requires
        0 <= k < rotation.len(),
        fuel >= k + 1,
        peers.dom().contains(rotation[k]),
        peers[rotation[k]].outbound.len() < cap,
    ensures
        ({
            let o = rr_spec(peers, rotation, cap, m, fuel);
            &&& o.result matches Ok(id)
            &&& peers.dom().contains(o.result->Ok_0)
            &&& peers[o.result->Ok_0].outbound.len() < cap
        }),
    decreases k,
{
    let id = rotation[0];
    let rest = rotation.drop_first();
    if peers.dom().contains(id) && peers[id].outbound.len() < cap {
        // the head itself is ready
    } else {
        assert(k != 0);
        if !peers.dom().contains(id) {
            assert(rest[k - 1] == rotation[k]);
            lemma_rr_reaches_ready(peers, rest, cap, m, (fuel - 1) as nat, k - 1);
        } else {
            assert(rest.push(id)[k - 1] == rotation[k]);
            lemma_rr_reaches_ready(peers, rest.push(id), cap, m, (fuel - 1) as nat, k - 1);
        }
    }
}

/// Disconnect makes delivery a no-op (law): after a peer is removed from
/// the registry, `message_received` for its identity changes nothing and
/// reports the message ignored, however many rotation entries remain.
pub proof fn lemma_received_after_disconnect(s: BackendV, id: u64, m: MessageView)
    ensures
        ({
            let peers1 = s.peers.remove(id);
            message_received_spec(peers1, s.capacity, id, m) == (RecvStep {
                peers: peers1,
                outcome: InboundOutcomeV::Ignored,
            })
        }),
{
}

/// What one merger turn leaves behind: the registry, the pruned and
/// rotated fairness order, and the selected message, if any peer was ready.
pub struct FqOutcome {
    pub peers: Map<u64, PeerV>,
    pub order: Seq<u64>,
    pub result: Option<(u64, MessageView)>,
}

/// Mirror of one merger turn: walk the fairness order from the front.
/// Identities whose peer is gone are pruned for good; the first peer with a
/// pending inbound message has its oldest message taken and moves to the
/// tail of the order, so the peers behind it get the next turns; ready
/// peers never jump the ones scanned before them, which keeps one
/// high-traffic peer from starving the rest.
pub open spec fn fq_spec(peers: Map<u64, PeerV>, order: Seq<u64>) -> FqOutcome
    decreases order.len(),
{
    if order.len() == 0 {
        FqOutcome { peers, order, result: None }
    } else {
        let id = order[0];
        let rest = order.drop_first();
        if !peers.dom().contains(id) {
            fq_spec(peers, rest)
        } else if peers[id].inbound.len() > 0 {
            FqOutcome {
                peers: peers.insert(
                    id,
                    PeerV { outbound: peers[id].outbound, inbound: peers[id].inbound.drop_first() },
                ),
                order: rest.push(id),
                result: Some((id, peers[id].inbound[0])),
            }
        } else {
            let o = fq_spec(peers, rest);
            FqOutcome { peers: o.peers, order: seq![id] + o.order, result: o.result }
        }
    }
}

/// The view of a registry has the registry's own domain.
pub proof fn lemma_peers_view_dom(m: Map<u64, Peer>)
    ensures
        peers_view(m).dom() == m.dom(),
{
    assert(peers_view(m).dom() =~= m.dom());
}

/// Inserting into the registry and then taking views inserts the view.
pub proof fn lemma_peers_view_insert(m: Map<u64, Peer>, k: u64, v: Peer)
    ensures
        peers_view(m.insert(k, v)) == peers_view(m).insert(k, v@),
{
    assert(peers_view(m.insert(k, v)) =~= peers_view(m).insert(k, v@));
}

/// Removing from the registry and then taking views removes the key.
pub proof fn lemma_peers_view_remove(m: Map<u64, Peer>, k: u64)
    ensures
        peers_view(m.remove(k)) == peers_view(m).remove(k),
{
    assert(peers_view(m.remove(k)) =~= peers_view(m).remove(k));
}

/// Removing an absent key leaves the view unchanged.
pub proof fn lemma_peers_view_remove_absent(m: Map<u64, Peer>, k: u64)
    requires
        !m.dom().contains(k),
    ensures
        peers_view(m.remove(k)) == peers_view(m),
{
    assert(peers_view(m.remove(k)) =~= peers_view(m));
}

/// Re-inserting the value just removed restores the original view.
pub proof fn lemma_peers_view_reinsert(m: Map<u64, Peer>, k: u64, v: Peer)
    requires
        m.dom().contains(k),
        v == m[k],
    ensures
        peers_view(m.remove(k).insert(k, v)) == peers_view(m),
{
    assert(peers_view(m.remove(k).insert(k, v)) =~= peers_view(m));
}

/// True iff `id` occurs in `v`.
fn contains_id(v: &Vec<u64>, id: u64) -> (r: bool)
    ensures
        r == v@.contains(id),
{
    let mut i: usize = 0;
    while i < v.len()
        invariant
            i <= v@.len(),
            forall|j: int| 0 <= j < i ==> v@[j] != id,
        decreases v@.len() - i,
    {
        if v[i] == id {
            return true;
        }
        i += 1;
    }
    false
}

/// One logical socket's backend over many peer connections.
pub struct GenericSocketBackend {
    peers: HashMap<u64, Peer>,
    round_robin: crossbeam::queue::SegQueue<u64>,
    fair_order: Vec<u64>,
    socket_type: SocketType,
    capacity: usize,
}

impl View for GenericSocketBackend {
    type V = BackendV;

    closed spec fn view(&self) -> BackendV {
        BackendV {
            peers: peers_view(self.peers@),
            rotation: rotation_entries(self.round_robin),
            fair_order: self.fair_order@,
            socket_type: self.socket_type,
            capacity: self.capacity as nat,
        }
    }
}

impl GenericSocketBackend {
    /// Well-formedness carried by every operation.
    pub open spec fn wf(&self) -> bool {
        backend_wf(self@)
    }

    /// A fresh backend with no peers. `queue_size` bounds each per-peer
    /// queue; `DEFAULT_QUEUE_SIZE` is the suggested default.
    pub fn new(socket_type: SocketType, queue_size: usize) -> (b: GenericSocketBackend)
        requires
            queue_size >= 1,
        ensures
            b.wf(),
            b@.peers == Map::<u64, PeerV>::empty(),
            b@.rotation == Seq::<u64>::empty(),
            b@.fair_order == Seq::<u64>::empty(),
            b@.socket_type == socket_type,
            b@.capacity == queue_size as nat,
    {
        let b = GenericSocketBackend {
            peers: HashMap::new(),
            round_robin: rotation_new(),
            fair_order: Vec::new(),
            socket_type,
            capacity: queue_size,
        };
        proof {
            assert(b@.peers =~= Map::<u64, PeerV>::empty());
        }
        b
    }

    /// The socket pattern this backend was declared with.
    pub fn socket_type(&self) -> (t: SocketType)
        ensures
            t == self@.socket_type,
    {
        self.socket_type
    }

    /// Registers a peer that completed the handshake: a fresh record with
    /// empty queues, one new rotation entry, and a merger announcement.
    /// Re-connecting an identity replaces its record.
    pub fn peer_connected(&mut self, peer_id: u64)
        requires
            old(self).wf(),
        ensures
            final(self).wf(),
            final(self)@.peers == old(self)@.peers.insert(
                peer_id,
                PeerV { outbound: Seq::<MessageView>::empty(), inbound: Seq::<MessageView>::empty() },
            ),
            final(self)@.rotation == old(self)@.rotation.push(peer_id),
            final(self)@.fair_order == if old(self)@.fair_order.contains(peer_id) {
                old(self)@.fair_order
            } else {
                old(self)@.fair_order.push(peer_id)
            },
            final(self)@.socket_type == old(self)@.socket_type,
            final(self)@.capacity == old(self)@.capacity,
    {
        let ghost m0 = self.peers@;
        let peer = Peer { send_queue: Vec::new(), recv_queue: Vec::new() };
        proof {
            lemma_peers_view_insert(m0, peer_id, peer);
            assert(peer@ == (PeerV {
                outbound: Seq::<MessageView>::empty(),
                inbound: Seq::<MessageView>::empty(),
            })) by {
                assert(msgs_view(Seq::<Message>::empty()) =~= Seq::<MessageView>::empty());
            }
        }
        self.peers.insert(peer_id, peer);
        rotation_push(&mut self.round_robin, peer_id);
        if !contains_id(&self.fair_order, peer_id) {
            self.fair_order.push(peer_id);
        }
        proof {
            broadcast use vstd::seq_lib::lemma_seq_contains_after_push;

            let s0 = old(self)@;
            let s1 = self@;
            assert(s1.rotation.last() == peer_id);
            assert forall|id: u64| #[trigger] s1.peers.dom().contains(id) implies
                s1.rotation.contains(id) by {
                if id != peer_id {
                    assert(s0.peers.dom().contains(id));
                }
            }
            assert forall|id: u64| #[trigger] s1.peers.dom().contains(id) implies
                s1.fair_order.contains(id) by {
                if id != peer_id {
                    assert(s0.peers.dom().contains(id));
                }
            }
            assert forall|id: u64| #[trigger] s1.peers.dom().contains(id) implies
                s1.peers[id].outbound.len() <= s1.capacity && s1.peers[id].inbound.len()
                    <= s1.capacity by {
                if id != peer_id {
                    assert(s0.peers.dom().contains(id));
                    assert(s1.peers[id] == s0.peers[id]);
                } else {
                    assert(s1.peers[id].outbound.len() == 0);
                }
            }
            if !s0.fair_order.contains(peer_id) {
                assert forall|i: int, j: int|
                    (0 <= i < s1.fair_order.len() && 0 <= j < s1.fair_order.len() && i
                        != j) implies s1.fair_order[i] != s1.fair_order[j] by {
                    let last = s1.fair_order.len() - 1;
                    if i == last {
                        assert(s1.fair_order[j] == s0.fair_order[j]);
                        assert(!s0.fair_order.contains(peer_id));
                    } else if j == last {
                        assert(s1.fair_order[i] == s0.fair_order[i]);
                        assert(!s0.fair_order.contains(peer_id));
                    } else {
                        assert(s1.fair_order[i] == s0.fair_order[i]);
                        assert(s1.fair_order[j] == s0.fair_order[j]);
                    }
                }
            }
        }
    }

    /// Removes a departed peer's registry entry. Rotation entries for the
    /// identity are left behind and are discarded when a later dispatch
    /// pops them.
    pub fn peer_disconnected(&mut self, peer_id: u64)
        requires
            old(self).wf(),
        ensures
            final(self).wf(),
            final(self)@ == (BackendV { peers: old(self)@.peers.remove(peer_id), ..old(self)@ }),
    {
        let ghost m0 = self.peers@;
        self.peers.remove(&peer_id);
        proof {
            lemma_peers_view_remove(m0, peer_id);
        }
    }

    /// Forwards a message arriving from a peer's I/O task toward the
    /// merger. A no-op for unregistered identities; hands the message back
    /// when the peer's inbound queue is at capacity.
    pub fn message_received(&mut self, peer_id: u64, message: Message) -> (r: InboundOutcome)
        requires
            old(self).wf(),
        ensures
            final(self).wf(),
            ({
                let step = message_received_spec(
                    old(self)@.peers,
                    old(self)@.capacity,
                    peer_id,
                    message@,
                );
                final(self)@ == (BackendV { peers: step.peers, ..old(self)@ }) && r@
                    == step.outcome
            }),
    {
        let ghost m0 = self.peers@;
        let ghost mv = message@;
        match self.peers.remove(&peer_id) {
            None => {
                proof {
                    lemma_peers_view_remove_absent(m0, peer_id);
                }
                InboundOutcome::Ignored
            },
            Some(mut peer) => {
                if peer.recv_queue.len() < self.capacity {
                    let ghost p0 = peer;
                    proof {
                        crate::msg::lemma_msgs_view_push(peer.recv_queue@, message);
                    }
                    peer.recv_queue.push(message);
                    proof {
                        lemma_peers_view_remove(m0, peer_id);
                        lemma_peers_view_insert(m0.remove(peer_id), peer_id, peer);
                        assert(peers_view(m0).remove(peer_id).insert(peer_id, peer@)
                            =~= peers_view(m0).insert(peer_id, peer@));
                        assert(peer@ == (PeerV {
                            outbound: peers_view(m0)[peer_id].outbound,
                            inbound: peers_view(m0)[peer_id].inbound.push(mv),
                        }));
                    }
                    self.peers.insert(peer_id, peer);
                    InboundOutcome::Delivered
                } else {
                    proof {
                        lemma_peers_view_reinsert(m0, peer_id, peer);
                    }
                    self.peers.insert(peer_id, peer);
                    InboundOutcome::Full(message)
                }
            },
        }
    }

    /// Dispatches one data message to the next peer in rotation.
    ///
    /// Greetings and commands must never travel through this path: asking
    /// for it is a programming error, reported as `ContractViolation` with
    /// the state untouched, whatever the registry holds.
    ///
    /// Rotation entries whose peer has disconnected are discarded as they
    /// are popped. A peer whose outbound queue is full is skipped but
    /// re-joins the rotation at the tail, so it resumes receiving once it
    /// drains. Retries are bounded by one pass over the rotation entries
    /// present at the call: when no peer accepts within the pass — none is
    /// registered, or every registered one is at capacity — the call fails
    /// with `NoPeersAvailable` carrying the message back unmodified, and
    /// the caller may retry once some peer has drained.
    #[verifier::loop_isolation(false)]
    pub fn send_round_robin(&mut self, message: Message) -> (r: ZmqResult<u64>)
        requires
            old(self).wf(),
        ensures
            final(self).wf(),
            ({
                let o = send_rr_spec(old(self)@, message@);
                final(self)@ == (BackendV { peers: o.peers, rotation: o.rotation, ..old(self)@ })
                    && res_view(r) == o.result
            }),
            !is_data_view(message@) ==> final(self)@ == old(self)@ && r matches Err(
                ZmqError::ContractViolation,
            ),
    {
        let ghost s0 = self@;
        let ghost m0 = message@;
        let ghost o = send_rr_spec(s0, m0);
        if !message.is_data() {
            return Err(ZmqError::ContractViolation);
        }
        let mut fuel: usize = rotation_len(&self.round_robin);
        loop
            invariant
                self.wf(),
                is_data_view(m0),
                message@ == m0,
                self@.fair_order == s0.fair_order,
                self@.socket_type == s0.socket_type,
                self@.capacity == s0.capacity,
                rr_spec(self@.peers, self@.rotation, s0.capacity, m0, fuel as nat) == o,
            decreases fuel,
        {
            if fuel == 0 {
                proof {
                    assert(rr_spec(self@.peers, self@.rotation, s0.capacity, m0, fuel as nat)
                        == (RrOutcome {
                        peers: self@.peers,
                        rotation: self@.rotation,
                        result: Err(ErrorView::NoPeersAvailable(m0)),
                    }));
                }
                return Err(ZmqError::NoPeersAvailable(message));
            }
            let ghost r0 = self@.rotation;
            let ghost p0 = self@.peers;
            match rotation_pop(&mut self.round_robin) {
                None => {
                    proof {
                        assert(rr_spec(self@.peers, self@.rotation, s0.capacity, m0, fuel as nat)
                            == (RrOutcome {
                            peers: self@.peers,
                            rotation: self@.rotation,
                            result: Err(ErrorView::NoPeersAvailable(m0)),
                        }));
                    }
                    return Err(ZmqError::NoPeersAvailable(message));
                },
                Some(next_peer_id) => {
                    let ghost m_before = self.peers@;
                    proof {
                        lemma_peers_view_dom(m_before);
                    }
                    match self.peers.remove(&next_peer_id) {
                        None => {
                            // Stale rotation entry: the peer is gone; heal
                            // by discarding the entry.
                            proof {
                                lemma_peers_view_remove_absent(m_before, next_peer_id);
                                assert(rr_spec(p0, r0, s0.capacity, m0, fuel as nat) == rr_spec(
                                    self@.peers,
                                    self@.rotation,
                                    s0.capacity,
                                    m0,
                                    (fuel - 1) as nat,
                                ));
                                assert forall|id: u64| #[trigger]
                                    self@.peers.dom().contains(id) implies
                                    self@.rotation.contains(id) by {
                                    let w = choose|w: int|
                                        0 <= w < r0.len() && r0[w] == id;
                                    assert(r0.contains(id));
                                    assert(w != 0);
                                    assert(self@.rotation[w - 1] == id);
                                }
                            }
                            fuel = fuel - 1;
                        },
                        Some(mut peer) => {
                            if peer.send_queue.len() < self.capacity {
                                let ghost pv0 = peer@;
                                proof {
                                    crate::msg::lemma_msgs_view_push(peer.send_queue@, message);
                                }
                                peer.send_queue.push(message);
                                proof {
                                    lemma_peers_view_remove(m_before, next_peer_id);
                                    lemma_peers_view_insert(
                                        m_before.remove(next_peer_id),
                                        next_peer_id,
                                        peer,
                                    );
                                    assert(peers_view(m_before).remove(next_peer_id).insert(
                                        next_peer_id,
                                        peer@,
                                    ) =~= peers_view(m_before).insert(next_peer_id, peer@));
                                    assert(peer@ == (PeerV {
                                        outbound: p0[next_peer_id].outbound.push(m0),
                                        inbound: p0[next_peer_id].inbound,
                                    }));
                                }
                                self.peers.insert(next_peer_id, peer);
                                rotation_push(&mut self.round_robin, next_peer_id);
                                proof {
                                    broadcast use vstd::seq_lib::lemma_seq_contains_after_push;

                                    assert(rr_spec(p0, r0, s0.capacity, m0, fuel as nat)
                                        == (RrOutcome {
                                        peers: self@.peers,
                                        rotation: self@.rotation,
                                        result: Ok(next_peer_id),
                                    }));
                                    assert forall|id: u64| #[trigger]
                                        self@.peers.dom().contains(id) implies
                                        self@.rotation.contains(id) by {
                                        if id != next_peer_id {
                                            let w = choose|w: int|
                                                0 <= w < r0.len() && r0[w] == id;
                                            assert(r0.contains(id));
                                            if w != 0 {
                                                assert(r0.drop_first()[w - 1] == id);
                                                assert(r0.drop_first().contains(id));
                                            }
                                        }
                                    }
                                    assert forall|id: u64| #[trigger]
                                        self@.peers.dom().contains(id) implies
                                        self@.peers[id].outbound.len() <= s0.capacity
                                            && self@.peers[id].inbound.len() <= s0.capacity by {
                                        if id != next_peer_id {
                                            assert(p0.dom().contains(id));
                                            assert(self@.peers[id] == p0[id]);
                                        }
                                    }
                                }
                                return Ok(next_peer_id);
                            } else {
                                // Slow consumer: skip it for this turn but
                                // keep it eligible at the rotation tail.
                                proof {
                                    lemma_peers_view_reinsert(m_before, next_peer_id, peer);
                                }
                                self.peers.insert(next_peer_id, peer);
                                rotation_push(&mut self.round_robin, next_peer_id);
                                proof {
                                    broadcast use vstd::seq_lib::lemma_seq_contains_after_push;

                                    assert(self@.peers == p0);
                                    assert(p0[next_peer_id].outbound.len() >= s0.capacity);
                                    assert(rr_spec(p0, r0, s0.capacity, m0, fuel as nat)
                                        == rr_spec(
                                        self@.peers,
                                        self@.rotation,
                                        s0.capacity,
                                        m0,
                                        (fuel - 1) as nat,
                                    ));
                                    assert forall|id: u64| #[trigger]
                                        self@.peers.dom().contains(id) implies
                                        self@.rotation.contains(id) by {
                                        if id != next_peer_id {
                                            let w = choose|w: int|
                                                0 <= w < r0.len() && r0[w] == id;
                                            assert(r0.contains(id));
                                            if w != 0 {
                                                assert(r0.drop_first()[w - 1] == id);
                                                assert(r0.drop_first().contains(id));
                                            }
                                        }
                                    }
                                }
                                fuel = fuel - 1;
                            }
                        },
                    }
                },
            }
        }
    }

    /// Hands the peer's oldest queued outbound message to its I/O task.
    pub fn take_outbound(&mut self, peer_id: u64) -> (r: Option<Message>)
        requires
            old(self).wf(),
        ensures
            final(self).wf(),
            !old(self)@.peers.dom().contains(peer_id) || old(self)@.peers[peer_id].outbound.len()
                == 0 ==> final(self)@ == old(self)@ && r is None,
            old(self)@.peers.dom().contains(peer_id) && old(self)@.peers[peer_id].outbound.len()
                > 0 ==> ({
                &&& r matches Some(m) && m@ == old(self)@.peers[peer_id].outbound[0]
                &&& final(self)@ == (BackendV {
                    peers: old(self)@.peers.insert(
                        peer_id,
                        PeerV {
                            outbound: old(self)@.peers[peer_id].outbound.drop_first(),
                            inbound: old(self)@.peers[peer_id].inbound,
                        },
                    ),
                    ..old(self)@
                })
            }),
    {
        let ghost m0 = self.peers@;
        match self.peers.remove(&peer_id) {
            None => {
                proof {
                    lemma_peers_view_remove_absent(m0, peer_id);
                }
                None
            },
            Some(mut peer) => {
                if peer.send_queue.len() == 0 {
                    proof {
                        lemma_peers_view_reinsert(m0, peer_id, peer);
                    }
                    self.peers.insert(peer_id, peer);
                    None
                } else {
                    proof {
                        crate::msg::lemma_msgs_view_drop_first(peer.send_queue@);
                    }
                    let m = peer.send_queue.remove(0);
                    proof {
                        lemma_peers_view_remove(m0, peer_id);
                        lemma_peers_view_insert(m0.remove(peer_id), peer_id, peer);
                        assert(peers_view(m0).remove(peer_id).insert(peer_id, peer@)
                            =~= peers_view(m0).insert(peer_id, peer@));
                    }
                    self.peers.insert(peer_id, peer);
                    Some(m)
                }
            },
        }
    }

    /// One turn of the fair inbound merger: scans the fairness order from
    /// the front, prunes identities whose peer has departed, and takes the
    /// oldest pending message of the first ready peer, which then moves to
    /// the tail of the order so the peers behind it are served first on the
    /// next turns. Returns `None` when no tracked peer has a message
    /// pending.
    #[verifier::loop_isolation(false)]
    pub fn next_inbound(&mut self) -> (r: Option<(u64, Message)>)
        requires
            old(self).wf(),
        ensures
            final(self).wf(),
            ({
                let o = fq_spec(old(self)@.peers, old(self)@.fair_order);
                final(self)@ == (BackendV { peers: o.peers, fair_order: o.order, ..old(self)@ })
                    && (match r {
                    Some(pair) => o.result == Some((pair.0, pair.1@)),
                    None => o.result is None,
                })
            }),
    {
        let ghost s0 = self@;
        let ghost o_all = fq_spec(s0.peers, s0.fair_order);
        proof {
            assert(s0.fair_order.skip(0) =~= s0.fair_order);
            assert(s0.fair_order.take(0) + fq_spec(s0.peers, s0.fair_order.skip(0)).order
                =~= fq_spec(s0.peers, s0.fair_order.skip(0)).order);
        }
        let mut i: usize = 0;
        loop
            invariant
                i <= self.fair_order@.len(),
                self@.peers == s0.peers,
                self@.rotation == s0.rotation,
                self@.socket_type == s0.socket_type,
                self@.capacity == s0.capacity,
                self@.fair_order.no_duplicates(),
                forall|id: u64| #[trigger]
                    self@.peers.dom().contains(id) ==> self@.fair_order.contains(id),
                forall|j: int|
                    0 <= j < i ==> s0.peers.dom().contains(#[trigger] self@.fair_order[j])
                        && s0.peers[self@.fair_order[j]].inbound.len() == 0,
                o_all == ({
                    let o = fq_spec(self@.peers, self@.fair_order.skip(i as int));
                    FqOutcome {
                        peers: o.peers,
                        order: self@.fair_order.take(i as int) + o.order,
                        result: o.result,
                    }
                }),
            decreases self.fair_order@.len() - i,
        {
            if i >= self.fair_order.len() {
                proof {
                    assert(self@.fair_order.skip(i as int) =~= Seq::<u64>::empty());
                    assert(self@.fair_order.take(i as int) + fq_spec(
                        self@.peers,
                        self@.fair_order.skip(i as int),
                    ).order =~= self@.fair_order);
                }
                return None;
            }
            let id = self.fair_order[i];
            let ghost ord0 = self@.fair_order;
            let ghost suffix = ord0.skip(i as int);
            proof {
                lemma_peers_view_dom(self.peers@);
                assert(suffix[0] == id);
                assert(suffix.drop_first() =~= ord0.skip(i as int + 1));
            }
            let ghost m_before = self.peers@;
            match self.peers.remove(&id) {
                None => {
                    // This peer has disconnected: prune its slot for good.
                    proof {
                        lemma_peers_view_remove_absent(m_before, id);
                        ord0.remove_ensures(i as int);
                        assert(ord0.remove(i as int).skip(i as int) =~= ord0.skip(i as int + 1));
                        assert(ord0.remove(i as int).take(i as int) =~= ord0.take(i as int));
                        assert(ord0.remove(i as int).no_duplicates());
                        assert forall|pid: u64| #[trigger]
                            self@.peers.dom().contains(pid) implies ord0.remove(
                            i as int,
                        ).contains(pid) by {
                            let w = choose|w: int| 0 <= w < ord0.len() && ord0[w] == pid;
                            assert(ord0.contains(pid));
                            assert(w != i);
                            if w < i {
                                assert(ord0.remove(i as int)[w] == pid);
                            } else {
                                assert(ord0.remove(i as int)[w - 1] == pid);
                            }
                        }
                    }
                    self.fair_order.remove(i);
                },
                Some(mut peer) => {
                    if peer.recv_queue.len() > 0 {
                        // First ready peer: take its oldest message and
                        // rotate it to the tail of the order.
                        proof {
                            crate::msg::lemma_msgs_view_drop_first(peer.recv_queue@);
                        }
                        let m = peer.recv_queue.remove(0);
                        proof {
                            lemma_peers_view_remove(m_before, id);
                            lemma_peers_view_insert(m_before.remove(id), id, peer);
                            assert(peers_view(m_before).remove(id).insert(id, peer@)
                                =~= peers_view(m_before).insert(id, peer@));
                        }
                        self.peers.insert(id, peer);
                        let moved = self.fair_order.remove(i);
                        self.fair_order.push(moved);
                        proof {
                            broadcast use vstd::seq_lib::lemma_seq_contains_after_push;

                            ord0.remove_ensures(i as int);
                            assert(self@.fair_order =~= ord0.take(i as int) + ord0.skip(
                                i as int + 1,
                            ).push(id));
                            assert(fq_spec(s0.peers, suffix).order == suffix.drop_first().push(id));
                            assert(ord0.take(i as int) + suffix.drop_first().push(id)
                                =~= self@.fair_order);
                            assert forall|pid: u64| #[trigger]
                                self@.peers.dom().contains(pid) implies self@.fair_order.contains(
                                pid,
                            ) by {
                                if pid != id {
                                    let w = choose|w: int| 0 <= w < ord0.len() && ord0[w] == pid;
                                    assert(ord0.contains(pid));
                                    assert(w != i);
                                    if w < i {
                                        assert(ord0.remove(i as int)[w] == pid);
                                    } else {
                                        assert(ord0.remove(i as int)[w - 1] == pid);
                                    }
                                    assert(ord0.remove(i as int).contains(pid));
                                } else {
                                    assert(self@.fair_order.last() == id);
                                }
                            }
                            assert forall|a: int, b: int|
                                (0 <= a < self@.fair_order.len() && 0 <= b
                                    < self@.fair_order.len() && a != b) implies
                                self@.fair_order[a] != self@.fair_order[b] by {
                                ord0.remove_ensures(i as int);
                                let last = self@.fair_order.len() - 1;
                                assert(ord0.remove(i as int).no_duplicates());
                                if a == last || b == last {
                                    assert(!ord0.remove(i as int).contains(id)) by {
                                        if ord0.remove(i as int).contains(id) {
                                            let w = choose|w: int|
                                                0 <= w < ord0.remove(i as int).len() && ord0.remove(
                                                    i as int,
                                                )[w] == id;
                                            if w < i {
                                                assert(ord0[w] == id && ord0[i as int] == id);
                                            } else {
                                                assert(ord0[w + 1] == id && ord0[i as int] == id);
                                            }
                                        }
                                    }
                                }
                            }
                            assert forall|pid: u64| #[trigger]
                                self@.peers.dom().contains(pid) implies
                                self@.peers[pid].outbound.len() <= s0.capacity
                                    && self@.peers[pid].inbound.len() <= s0.capacity by {
                                if pid != id {
                                    assert(s0.peers.dom().contains(pid));
                                    assert(self@.peers[pid] == s0.peers[pid]);
                                }
                            }
                        }
                        return Some((id, m));
                    } else {
                        // Tracked but idle: keep its position and move on.
                        proof {
                            lemma_peers_view_reinsert(m_before, id, peer);
                            assert(peer@.inbound.len() == 0);
                            assert(s0.peers[id].inbound.len() == 0);
                        }
                        self.peers.insert(id, peer);
                        proof {
                            assert(fq_spec(s0.peers, suffix) == ({
                                let o = fq_spec(s0.peers, suffix.drop_first());
                                FqOutcome {
                                    peers: o.peers,
                                    order: seq![id] + o.order,
                                    result: o.result,
                                }
                            }));
                            assert(ord0.take(i as int) + (seq![id] + fq_spec(
                                s0.peers,
                                ord0.skip(i as int + 1),
                            ).order) =~= ord0.take(i as int + 1) + fq_spec(
                                s0.peers,
                                ord0.skip(i as int + 1),
                            ).order);
                        }
                        i = i + 1;
                    }
                },
            }
        }
    }

    /// Clears the whole registry. Live I/O tasks observe their channels
    /// closing and terminate on their own; rotation entries self-heal on
    /// later pops.
    pub fn shutdown(&mut self)
        requires
            old(self).wf(),
        ensures
            final(self).wf(),
            final(self)@ == (BackendV { peers: Map::<u64, PeerV>::empty(), ..old(self)@ }),
    {
        self.peers.clear();
        proof {
            assert(peers_view(Map::<u64, Peer>::empty()) =~= Map::<u64, PeerV>::empty());
        }
    }
}

} // verus!

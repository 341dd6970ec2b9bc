//! Worker-side state of the DATA_STREAM protocol: the version handshake and
//! per-receiver flow control (at most one outstanding data request each).
//!
//! Packets are handled here as values; turning them into bytes and back is
//! the transport's business.
use vstd::prelude::*;

verus! {

/// The protocol version this side speaks and accepts.
pub const PROTOCOL_VERSION: u32 = 1;

/// A DATA_STREAM packet.
pub enum Packet {
    /// Announces the sender's protocol version.
    Version(u32),
    /// Bytes for one stream; empty data ends the stream.
    Data { stream_id: String, data: Vec<u8> },
    /// Asks for up to `window` more bytes of one stream.
    RequestData { stream_id: String, window: usize },
}

pub enum PacketModel {
    Version(u32),
    Data(Seq<char>, Seq<u8>),
    RequestData(Seq<char>, usize),
}

impl View for Packet {
    type V = PacketModel;

    open spec fn view(&self) -> PacketModel {
        match self {
            Packet::Version(v) => PacketModel::Version(*v),
            Packet::Data { stream_id, data } => PacketModel::Data(stream_id@, data@),
            Packet::RequestData { stream_id, window } => PacketModel::RequestData(
                stream_id@,
                *window,
            ),
        }
    }
}

/// What the protocol tells the worker after parsing incoming packets.
pub enum Event {
    /// The peer sent a supported Version packet.
    PeerReady,
    /// Bytes arrived for one registered receiver.
    Data { receiver: String, data: Vec<u8> },
    /// The peer ended one receiver by sending an empty Data packet.
    Eof { receiver: String },
}

pub enum EventModel {
    PeerReady,
    Data(Seq<char>, Seq<u8>),
    Eof(Seq<char>),
}

impl View for Event {
    type V = EventModel;

    open spec fn view(&self) -> EventModel {
        match self {
            Event::PeerReady => EventModel::PeerReady,
            Event::Data { receiver, data } => EventModel::Data(receiver@, data@),
            Event::Eof { receiver } => EventModel::Eof(receiver@),
        }
    }
}

/// The models of a sequence of packets.
pub open spec fn packet_models(ps: Seq<Packet>) -> Seq<PacketModel> {
    ps.map_values(|p: Packet| p@)
}

/// The models of a sequence of events.
pub open spec fn event_models(es: Seq<Event>) -> Seq<EventModel> {
    es.map_values(|e: Event| e@)
}

/// The names of a sequence of strings.
pub open spec fn string_models(ss: Seq<String>) -> Seq<Seq<char>> {
    ss.map_values(|s: String| s@)
}

/// Result of asking for more data for a receiver.
pub enum RequestState {
    /// A request is already outstanding for this receiver.
    Waiting,
    /// These packets are to be sent to the peer.
    Issued(Vec<Packet>),
}

pub enum RequestModel {
    Waiting,
    Issued(Seq<PacketModel>),
}

impl View for RequestState {
    type V = RequestModel;

    open spec fn view(&self) -> RequestModel {
        match self {
            RequestState::Waiting => RequestModel::Waiting,
            RequestState::Issued(ps) => RequestModel::Issued(packet_models(ps@)),
        }
    }
}

/// A packet that the protocol does not accept.
pub enum ProtocolError {
    /// A Version packet with another version.
    UnsupportedVersion(u32),
    /// A Data packet before the peer's Version.
    DataBeforeVersion,
    /// A RequestData packet before the peer's Version.
    RequestDataBeforeVersion,
    /// The peer asked this side for data, which it never serves.
    UnexpectedRequestData { stream_id: String, window: usize },
}

pub enum ProtocolErrorModel {
    UnsupportedVersion(u32),
    DataBeforeVersion,
    RequestDataBeforeVersion,
    UnexpectedRequestData(Seq<char>, usize),
}

impl View for ProtocolError {
    type V = ProtocolErrorModel;

    open spec fn view(&self) -> ProtocolErrorModel {
        match self {
            ProtocolError::UnsupportedVersion(v) => ProtocolErrorModel::UnsupportedVersion(*v),
            ProtocolError::DataBeforeVersion => ProtocolErrorModel::DataBeforeVersion,
            ProtocolError::RequestDataBeforeVersion => ProtocolErrorModel::RequestDataBeforeVersion,
            ProtocolError::UnexpectedRequestData { stream_id, window } =>
                ProtocolErrorModel::UnexpectedRequestData(stream_id@, *window),
        }
    }
}

/// Flow-control state of one receiver.
struct StreamState {
    receiver: String,
    outstanding_req: bool,
}

/// Protocol coordinator for the worker's source receivers.
pub struct DataStream {
    version_sent: bool,
    peer_version_seen: bool,
    streams: Vec<StreamState>,
}

/// The abstract state: whether our Version went out, whether the peer's
/// arrived, and the registered receivers (in registration order) with their
/// outstanding-request flags.
pub struct DataStreamModel {
    pub version_sent: bool,
    pub peer_version_seen: bool,
    pub streams: Seq<(Seq<char>, bool)>,
}

/// The state of a session that has not started: nothing sent or seen, no
/// receivers.
pub open spec fn fresh_session() -> DataStreamModel {
    DataStreamModel { version_sent: false, peer_version_seen: false, streams: seq![] }
}

/// Index of the receiver `id` in `ss`, or `ss.len()`.
pub open spec fn stream_index(ss: Seq<(Seq<char>, bool)>, id: Seq<char>) -> int
    decreases ss.len(),
{
    if ss.len() == 0 {
        0
    } else if ss[0].0 == id {
        0
    } else {
        1 + stream_index(ss.drop_first(), id)
    }
}

/// The receivers of `ss`, in order.
pub open spec fn stream_names(ss: Seq<(Seq<char>, bool)>) -> Seq<Seq<char>> {
    ss.map_values(|p: (Seq<char>, bool)| p.0)
}

/// No receiver is registered twice.
pub open spec fn unique_ids(ss: Seq<(Seq<char>, bool)>) -> bool {
    forall|i: int, j: int| 0 <= i < j < ss.len() ==> ss[i].0 != ss[j].0
}

pub open spec fn is_registered(ss: Seq<(Seq<char>, bool)>, id: Seq<char>) -> bool {
    stream_index(ss, id) < ss.len()
}

pub proof fn lemma_stream_index(ss: Seq<(Seq<char>, bool)>, id: Seq<char>, k: int)
    requires
        0 <= k <= ss.len(),
        k < ss.len() ==> ss[k].0 == id,
        forall|j: int| 0 <= j < k ==> ss[j].0 != id,
    ensures
        stream_index(ss, id) == k,
    decreases ss.len(),
{
    if ss.len() > 0 && ss[0].0 != id {
        lemma_stream_index(ss.drop_first(), id, k - 1);
    }
}

pub proof fn lemma_stream_index_bounds(ss: Seq<(Seq<char>, bool)>, id: Seq<char>)
    ensures
        0 <= stream_index(ss, id) <= ss.len(),
        stream_index(ss, id) < ss.len() ==> ss[stream_index(ss, id)].0 == id,
        forall|j: int| 0 <= j < stream_index(ss, id) ==> ss[j].0 != id,
    decreases ss.len(),
{
    if ss.len() > 0 && ss[0].0 != id {
        let t = ss.drop_first();
        lemma_stream_index_bounds(t, id);
        assert forall|j: int| 0 <= j < stream_index(ss, id) implies ss[j].0 != id by {
            if j > 0 {
                assert(ss[j] == t[j - 1]);
            }
        }
    }
}

/// A receiver is registered once `register` has run.
pub proof fn lemma_register(ss: Seq<(Seq<char>, bool)>, id: Seq<char>)
    ensures
        is_registered(register(ss, id), id),
        unique_ids(ss) ==> unique_ids(register(ss, id)),
{
    lemma_stream_index_bounds(ss, id);
    if !is_registered(ss, id) {
        lemma_stream_index(ss.push((id, false)), id, ss.len() as int);
    }
}

/// `ss` with `id` registered (added at the end with no request outstanding
/// when it is new).
pub open spec fn register(ss: Seq<(Seq<char>, bool)>, id: Seq<char>) -> Seq<(Seq<char>, bool)> {
    if is_registered(ss, id) {
        ss
    } else {
        ss.push((id, false))
    }
}

/// `ss` with the outstanding flag of `id` set to `b` (when registered).
pub open spec fn set_outstanding(ss: Seq<(Seq<char>, bool)>, id: Seq<char>, b: bool) -> Seq<
    (Seq<char>, bool),
> {
    if is_registered(ss, id) {
        ss.update(stream_index(ss, id), (id, b))
    } else {
        ss
    }
}

/// `ss` without `id`.
pub open spec fn unregister(ss: Seq<(Seq<char>, bool)>, id: Seq<char>) -> Seq<(Seq<char>, bool)> {
    if is_registered(ss, id) {
        ss.remove(stream_index(ss, id))
    } else {
        ss
    }
}

/// The state after removing `id`; the session is reset when no receiver is left.
pub open spec fn spec_disable(s: DataStreamModel, id: Seq<char>) -> DataStreamModel {
    let ss = unregister(s.streams, id);
    if ss.len() == 0 {
        DataStreamModel { version_sent: false, peer_version_seen: false, streams: ss }
    } else {
        DataStreamModel { streams: ss, ..s }
    }
}

/// Asking for data for `r`: our Version goes first once per session, the
/// receiver is registered, and a RequestData is issued unless one is
/// already outstanding for it.
pub open spec fn spec_request(s: DataStreamModel, r: Seq<char>, window: usize) -> (
    DataStreamModel,
    RequestModel,
) {
    let prefix: Seq<PacketModel> = if s.version_sent {
        seq![]
    } else {
        seq![PacketModel::Version(PROTOCOL_VERSION)]
    };
    let ss = register(s.streams, r);
    let i = stream_index(ss, r);
    if ss[i].1 {
        (
            DataStreamModel { version_sent: true, peer_version_seen: s.peer_version_seen, streams: ss },
            if prefix.len() == 0 {
                RequestModel::Waiting
            } else {
                RequestModel::Issued(prefix)
            },
        )
    } else {
        (
            DataStreamModel {
                version_sent: true,
                peer_version_seen: s.peer_version_seen,
                streams: ss.update(i, (r, true)),
            },
            RequestModel::Issued(prefix.push(PacketModel::RequestData(r, window))),
        )
    }
}

/// One incoming packet applied to the state.
pub open spec fn spec_handle_packet(s: DataStreamModel, p: PacketModel) -> Result<
    (DataStreamModel, EventModel),
    ProtocolErrorModel,
> {
    match p {
        PacketModel::Version(v) => if v == PROTOCOL_VERSION {
            Ok((DataStreamModel { peer_version_seen: true, ..s }, EventModel::PeerReady))
        } else {
            Err(ProtocolErrorModel::UnsupportedVersion(v))
        },
        PacketModel::Data(id, d) => if !s.peer_version_seen {
            Err(ProtocolErrorModel::DataBeforeVersion)
        } else {
            let s1 = DataStreamModel { streams: set_outstanding(s.streams, id, false), ..s };
            if d.len() == 0 {
                Ok((spec_disable(s1, id), EventModel::Eof(id)))
            } else {
                Ok((s1, EventModel::Data(id, d)))
            }
        },
        PacketModel::RequestData(id, w) => if !s.peer_version_seen {
            Err(ProtocolErrorModel::RequestDataBeforeVersion)
        } else {
            Err(ProtocolErrorModel::UnexpectedRequestData(id, w))
        },
    }
}

/// Packets applied in order; the first refused packet stops the run, and
/// what the earlier packets did to the state stays.
pub open spec fn spec_handle_packets(s: DataStreamModel, ps: Seq<PacketModel>) -> (
    DataStreamModel,
    Result<Seq<EventModel>, ProtocolErrorModel>,
)
    decreases ps.len(),
{
    if ps.len() == 0 {
        (s, Ok(seq![]))
    } else {
        match spec_handle_packet(s, ps[0]) {
            Err(e) => (s, Err(e)),
            Ok((s1, ev)) => {
                let (s2, r) = spec_handle_packets(s1, ps.drop_first());
                (
                    s2,
                    match r {
                        Ok(evs) => Ok(seq![ev] + evs),
                        Err(e) => Err(e),
                    },
                )
            },
        }
    }
}

/// Registered means present under that name.
pub proof fn lemma_registered_iff(ss: Seq<(Seq<char>, bool)>, id: Seq<char>)
    ensures
        is_registered(ss, id) <==> exists|j: int| 0 <= j < ss.len() && #[trigger] ss[j].0 == id,
{
    lemma_stream_index_bounds(ss, id);
    if is_registered(ss, id) {
        let k = stream_index(ss, id);
        assert(ss[k].0 == id);
    }
}

/// Changing a flag keeps every receiver where it was.
pub proof fn lemma_set_outstanding(ss: Seq<(Seq<char>, bool)>, id: Seq<char>, b: bool)
    ensures
        stream_names(set_outstanding(ss, id, b)) == stream_names(ss),
        stream_index(set_outstanding(ss, id, b), id) == stream_index(ss, id),
        is_registered(ss, id) ==> set_outstanding(ss, id, b)[stream_index(ss, id)] == (id, b),
        unique_ids(ss) ==> unique_ids(set_outstanding(ss, id, b)),
{
    lemma_stream_index_bounds(ss, id);
    let t = set_outstanding(ss, id, b);
    assert(stream_names(t) =~= stream_names(ss));
    assert(t.len() == ss.len());
    assert forall|j: int| 0 <= j < ss.len() implies #[trigger] t[j].0 == ss[j].0 by {
        assert(stream_names(t)[j] == stream_names(ss)[j]);
    }
    lemma_stream_index(t, id, stream_index(ss, id));
}

/// A receiver never has two data requests in flight: asking again before
/// any Data arrived for it leaves the state as it is and sends nothing.
pub proof fn lemma_one_request_in_flight(
    s: DataStreamModel,
    r: Seq<char>,
    w1: usize,
    w2: usize,
)
    requires
        unique_ids(s.streams),
    ensures
        ({
            let s1 = spec_request(s, r, w1).0;
            spec_request(s1, r, w2) == (s1, RequestModel::Waiting)
        }),
{
    lemma_register(s.streams, r);
    let ss = register(s.streams, r);
    lemma_stream_index_bounds(ss, r);
    let s1 = spec_request(s, r, w1).0;
    lemma_set_outstanding(ss, r, true);
    assert(ss[stream_index(ss, r)].1 ==> set_outstanding(ss, r, true) =~= ss);
    assert(!ss[stream_index(ss, r)].1 ==> set_outstanding(ss, r, true) =~= ss.update(
        stream_index(ss, r),
        (r, true),
    ));
    assert(s1.streams == set_outstanding(ss, r, true));
    assert(register(s1.streams, r) == s1.streams);
}

/// Our Version goes out once per session: the first request of a session
/// starts with it, and no later request carries it.
pub proof fn lemma_version_once(s: DataStreamModel, r: Seq<char>, w: usize)
    ensures
        spec_request(s, r, w).0.version_sent,
        !s.version_sent ==> match spec_request(s, r, w).1 {
            RequestModel::Issued(ps) => ps.len() > 0 && ps[0] == PacketModel::Version(
                PROTOCOL_VERSION,
            ),
            RequestModel::Waiting => false,
        },
        s.version_sent ==> match spec_request(s, r, w).1 {
            RequestModel::Issued(ps) => forall|k: int|
                0 <= k < ps.len() ==> !(#[trigger] ps[k] is Version),
            RequestModel::Waiting => true,
        },
{
}

/// Data for a receiver clears its request in flight, so the next request
/// for it asks the peer for more.
pub proof fn lemma_data_rearms(s: DataStreamModel, r: Seq<char>, d: Seq<u8>, w: usize)
    requires
        unique_ids(s.streams),
        s.peer_version_seen,
        d.len() > 0,
    ensures
        match spec_handle_packet(s, PacketModel::Data(r, d)) {
            Ok((s1, ev)) => ev == EventModel::Data(r, d) && match spec_request(s1, r, w).1 {
                RequestModel::Issued(ps) => ps.len() > 0 && ps.last() == PacketModel::RequestData(
                    r,
                    w,
                ),
                RequestModel::Waiting => false,
            },
            Err(_) => false,
        },
{
    let s1 = DataStreamModel { streams: set_outstanding(s.streams, r, false), ..s };
    lemma_set_outstanding(s.streams, r, false);
    lemma_stream_index_bounds(s.streams, r);
    lemma_register(s1.streams, r);
    let ss = register(s1.streams, r);
    lemma_stream_index_bounds(s1.streams, r);
    if !is_registered(s1.streams, r) {
        lemma_stream_index(ss, r, s1.streams.len() as int);
    }
    assert(!ss[stream_index(ss, r)].1);
}

/// An empty Data packet ends its receiver; once the last receiver is gone
/// the session starts over.
pub proof fn lemma_eof_ends_receiver(s: DataStreamModel, r: Seq<char>)
    requires
        unique_ids(s.streams),
        s.peer_version_seen,
    ensures
        match spec_handle_packet(s, PacketModel::Data(r, seq![])) {
            Ok((s1, ev)) => ev == EventModel::Eof(r) && !is_registered(s1.streams, r)
                && unique_ids(s1.streams) && (s1.streams.len() == 0 ==> s1 == fresh_session()),
            Err(_) => false,
        },
{
    lemma_set_outstanding(s.streams, r, false);
    let t = set_outstanding(s.streams, r, false);
    lemma_stream_index_bounds(t, r);
    let u = unregister(t, r);
    if is_registered(t, r) {
        let k = stream_index(t, r);
        assert forall|j: int| 0 <= j < u.len() implies #[trigger] u[j].0 != r by {
            if j < k {
                assert(u[j] == t[j]);
            } else {
                assert(u[j] == t[j + 1]);
                assert(t[k].0 == r);
            }
        }
        assert forall|i: int, j: int| 0 <= i < j < u.len() implies u[i].0 != u[j].0 by {
            let i2 = if i < k { i } else { i + 1 };
            let j2 = if j < k { j } else { j + 1 };
            assert(u[i] == t[i2]);
            assert(u[j] == t[j2]);
        }
    }
    lemma_registered_iff(u, r);
    if u.len() == 0 {
        assert(u =~= Seq::<(Seq<char>, bool)>::empty());
    }
}

/// Handling packets in two batches gives what handling them in one does.
pub proof fn lemma_handle_packets_append(s: DataStreamModel, a: Seq<PacketModel>, b: Seq<PacketModel>)
    ensures
        spec_handle_packets(s, a + b) == (match spec_handle_packets(s, a) {
            (s1, Ok(e1)) => {
                let (s2, r2) = spec_handle_packets(s1, b);
                (
                    s2,
                    match r2 {
                        Ok(e2) => Ok(e1 + e2),
                        Err(e) => Err(e),
                    },
                )
            },
            (s1, Err(e)) => (s1, Err(e)),
        }),
    decreases a.len(),
{
    if a.len() == 0 {
        assert(a + b =~= b);
        let (s2, r2) = spec_handle_packets(s, b);
        match r2 {
            Ok(e2) => {
                assert(Seq::<EventModel>::empty() + e2 =~= e2);
            },
            Err(e) => {},
        }
    } else {
        assert((a + b)[0] == a[0]);
        assert((a + b).drop_first() =~= a.drop_first() + b);
        match spec_handle_packet(s, a[0]) {
            Err(e) => {},
            Ok((s1, ev)) => {
                lemma_handle_packets_append(s1, a.drop_first(), b);
                let (sa, ra) = spec_handle_packets(s1, a.drop_first());
                match ra {
                    Ok(ea) => {
                        let (s2, r2) = spec_handle_packets(sa, b);
                        match r2 {
                            Ok(e2) => {
                                assert(seq![ev] + (ea + e2) =~= (seq![ev] + ea) + e2);
                            },
                            Err(e) => {},
                        }
                    },
                    Err(e) => {},
                }
            },
        }
    }
}

/// An operation on the protocol state, as the public methods perform them.
pub enum StreamOp {
    Register(Seq<char>),
    Disable(Seq<char>),
    Disconnect,
    Request(Seq<char>, usize),
    Packet(PacketModel),
}

/// The state after one operation; a refused packet leaves it as it was.
pub open spec fn apply_op(s: DataStreamModel, op: StreamOp) -> DataStreamModel {
    match op {
        StreamOp::Register(id) => DataStreamModel { streams: register(s.streams, id), ..s },
        StreamOp::Disable(id) => spec_disable(s, id),
        StreamOp::Disconnect => fresh_session(),
        StreamOp::Request(id, w) => spec_request(s, id, w).0,
        StreamOp::Packet(p) => match spec_handle_packet(s, p) {
            Ok((s1, _)) => s1,
            Err(_) => s,
        },
    }
}

/// The state after the operations `ops`, in order.
pub open spec fn apply_ops(s: DataStreamModel, ops: Seq<StreamOp>) -> DataStreamModel
    decreases ops.len(),
{
    if ops.len() == 0 {
        s
    } else {
        apply_ops(apply_op(s, ops[0]), ops.drop_first())
    }
}

/// The operations that answer or drop a request in flight for `r`: Data
/// for `r`, removing `r`, and disconnecting.
pub open spec fn ends_request(op: StreamOp, r: Seq<char>) -> bool {
    match op {
        StreamOp::Disable(id) => id == r,
        StreamOp::Disconnect => true,
        StreamOp::Packet(PacketModel::Data(id, _)) => id == r,
        _ => false,
    }
}

/// A request for `r` is in flight: our Version went out and `r` is
/// registered with its flag set.
pub open spec fn in_flight(s: DataStreamModel, r: Seq<char>) -> bool {
    &&& s.version_sent
    &&& exists|j: int| 0 <= j < s.streams.len() && #[trigger] s.streams[j] == (r, true)
}

proof fn lemma_entry_index(ss: Seq<(Seq<char>, bool)>, r: Seq<char>, j: int)
    requires
        unique_ids(ss),
        0 <= j < ss.len(),
        ss[j].0 == r,
    ensures
        stream_index(ss, r) == j,
{
    assert forall|i: int| 0 <= i < j implies ss[i].0 != r by {
        assert(ss[i].0 != ss[j].0);
    }
    lemma_stream_index(ss, r, j);
}

proof fn lemma_unregister_unique(ss: Seq<(Seq<char>, bool)>, id: Seq<char>)
    requires
        unique_ids(ss),
    ensures
        unique_ids(unregister(ss, id)),
{
    lemma_stream_index_bounds(ss, id);
    if is_registered(ss, id) {
        let k = stream_index(ss, id);
        let u = unregister(ss, id);
        assert forall|i: int, j: int| 0 <= i < j < u.len() implies u[i].0 != u[j].0 by {
            let i2 = if i < k { i } else { i + 1 };
            let j2 = if j < k { j } else { j + 1 };
            assert(u[i] == ss[i2]);
            assert(u[j] == ss[j2]);
        }
    }
}

/// Removing another receiver keeps `r`'s entry.
proof fn lemma_unregister_keeps(ss: Seq<(Seq<char>, bool)>, id: Seq<char>, e: (Seq<char>, bool))
    requires
        e.0 != id,
        exists|j: int| 0 <= j < ss.len() && #[trigger] ss[j] == e,
    ensures
        exists|j: int| 0 <= j < unregister(ss, id).len() && #[trigger] unregister(ss, id)[j] == e,
{
    lemma_stream_index_bounds(ss, id);
    let j = choose|j: int| 0 <= j < ss.len() && #[trigger] ss[j] == e;
    if is_registered(ss, id) {
        let k = stream_index(ss, id);
        let u = unregister(ss, id);
        assert(j != k);
        if j < k {
            assert(unregister(ss, id)[j] == e);
        } else {
            assert(unregister(ss, id)[j - 1] == e);
        }
    } else {
        assert(unregister(ss, id)[j] == e);
    }
}

/// Changing the entry of another receiver keeps `r`'s entry.
proof fn lemma_update_keeps(
    ss: Seq<(Seq<char>, bool)>,
    i: int,
    x: (Seq<char>, bool),
    e: (Seq<char>, bool),
)
    requires
        0 <= i < ss.len(),
        ss[i].0 != e.0,
        exists|j: int| 0 <= j < ss.len() && #[trigger] ss[j] == e,
    ensures
        exists|j: int| 0 <= j < ss.update(i, x).len() && #[trigger] ss.update(i, x)[j] == e,
{
    let j = choose|j: int| 0 <= j < ss.len() && #[trigger] ss[j] == e;
    assert(ss.update(i, x)[j] == e);
}

/// Registering any receiver keeps `r`'s entry and the ids unique.
proof fn lemma_register_keeps(ss: Seq<(Seq<char>, bool)>, id: Seq<char>, e: (Seq<char>, bool))
    requires
        exists|j: int| 0 <= j < ss.len() && #[trigger] ss[j] == e,
    ensures
        exists|j: int| 0 <= j < register(ss, id).len() && #[trigger] register(ss, id)[j] == e,
{
    let j = choose|j: int| 0 <= j < ss.len() && #[trigger] ss[j] == e;
    assert(register(ss, id)[j] == e);
}

/// A request for `r` in flight stays in flight through any operation that
/// does not answer or drop it.
proof fn lemma_in_flight_step(s: DataStreamModel, op: StreamOp, r: Seq<char>)
    requires
        unique_ids(s.streams),
        in_flight(s, r),
        !ends_request(op, r),
    ensures
        unique_ids(apply_op(s, op).streams),
        in_flight(apply_op(s, op), r),
{
    let e = (r, true);
    let jr = choose|j: int| 0 <= j < s.streams.len() && #[trigger] s.streams[j] == e;
    assert(s.streams[jr] == e);
    match op {
        StreamOp::Register(id) => {
            lemma_register(s.streams, id);
            lemma_register_keeps(s.streams, id, e);
            let t = apply_op(s, op);
            assert(t.streams == register(s.streams, id));
            let j = choose|j: int| 0 <= j < register(s.streams, id).len() && #[trigger] register(s.streams, id)[j] == e;
            assert(t.streams[j] == e);
        },
        StreamOp::Disable(id) => {
            lemma_unregister_unique(s.streams, id);
            lemma_unregister_keeps(s.streams, id, e);
        },
        StreamOp::Disconnect => {},
        StreamOp::Request(id, w) => {
            lemma_register(s.streams, id);
            lemma_register_keeps(s.streams, id, e);
            let ss = register(s.streams, id);
            lemma_stream_index_bounds(ss, id);
            let i = stream_index(ss, id);
            if !ss[i].1 {
                lemma_set_outstanding(ss, id, true);
                assert(set_outstanding(ss, id, true) =~= ss.update(i, (id, true)));
                let j2 = choose|j: int| 0 <= j < ss.len() && #[trigger] ss[j] == e;
                assert(ss[j2].1);
                assert(i != j2);
                assert(ss.update(i, (id, true))[j2] == e);
            }
        },
        StreamOp::Packet(p) => {
            match p {
                PacketModel::Data(id, d) => {
                    if s.peer_version_seen {
                        lemma_set_outstanding(s.streams, id, false);
                        lemma_stream_index_bounds(s.streams, id);
                        let t = set_outstanding(s.streams, id, false);
                        if is_registered(s.streams, id) {
                            lemma_update_keeps(
                                s.streams,
                                stream_index(s.streams, id),
                                (id, false),
                                e,
                            );
                        }
                        assert(exists|j: int| 0 <= j < t.len() && #[trigger] t[j] == e);
                        if d.len() == 0 {
                            lemma_unregister_unique(t, id);
                            lemma_unregister_keeps(t, id, e);
                        }
                    }
                },
                _ => {},
            }
        },
    }
}

/// A request for `r` in flight: asking again sends nothing and changes
/// nothing.
proof fn lemma_in_flight_waits(s: DataStreamModel, r: Seq<char>, w: usize)
    requires
        unique_ids(s.streams),
        in_flight(s, r),
    ensures
        spec_request(s, r, w) == (s, RequestModel::Waiting),
{
    let j = choose|j: int| 0 <= j < s.streams.len() && #[trigger] s.streams[j] == (r, true);
    assert(s.streams[j] == (r, true));
    lemma_entry_index(s.streams, r, j);
    assert(register(s.streams, r) == s.streams);
}

/// At most one data request is in flight per receiver: once a request for
/// `r` was made, asking again sends nothing, whatever else happened in
/// between, until Data for `r` arrives, `r` is removed, or the transport
/// disconnects.
pub proof fn lemma_request_stays_in_flight(
    s: DataStreamModel,
    r: Seq<char>,
    w1: usize,
    ops: Seq<StreamOp>,
    w2: usize,
)
    requires
        unique_ids(s.streams),
        forall|i: int| 0 <= i < ops.len() ==> !ends_request(#[trigger] ops[i], r),
    ensures
        ({
            let t = apply_ops(spec_request(s, r, w1).0, ops);
            spec_request(t, r, w2) == (t, RequestModel::Waiting)
        }),
{
    let s1 = spec_request(s, r, w1).0;
    lemma_register(s.streams, r);
    let ss = register(s.streams, r);
    lemma_stream_index_bounds(ss, r);
    let i = stream_index(ss, r);
    lemma_set_outstanding(ss, r, true);
    if ss[i].1 {
        assert(s1.streams == ss);
        assert(ss[i] == (r, true));
    } else {
        assert(s1.streams == ss.update(i, (r, true)));
        assert(s1.streams[i] == (r, true));
        assert(set_outstanding(ss, r, true) =~= ss.update(i, (r, true)));
    }
    assert(unique_ids(s1.streams));
    assert(in_flight(s1, r));
    lemma_in_flight_ops(s1, r, ops);
    lemma_in_flight_waits(apply_ops(s1, ops), r, w2);
}

proof fn lemma_in_flight_ops(s: DataStreamModel, r: Seq<char>, ops: Seq<StreamOp>)
    requires
        unique_ids(s.streams),
        in_flight(s, r),
        forall|i: int| 0 <= i < ops.len() ==> !ends_request(#[trigger] ops[i], r),
    ensures
        unique_ids(apply_ops(s, ops).streams),
        in_flight(apply_ops(s, ops), r),
    decreases ops.len(),
{
    if ops.len() > 0 {
        assert(!ends_request(ops[0], r));
        lemma_in_flight_step(s, ops[0], r);
        assert forall|i: int| 0 <= i < ops.drop_first().len() implies !ends_request(
            #[trigger] ops.drop_first()[i],
            r,
        ) by {
            assert(ops.drop_first()[i] == ops[i + 1]);
        }
        lemma_in_flight_ops(apply_op(s, ops[0]), r, ops.drop_first());
    }
}

/// `ss` holds the entry `e`.
pub open spec fn has_entry(ss: Seq<(Seq<char>, bool)>, e: (Seq<char>, bool)) -> bool {
    exists|j: int| 0 <= j < ss.len() && #[trigger] ss[j] == e
}

/// `ss` holds an entry for receiver `id`.
pub open spec fn has_receiver(ss: Seq<(Seq<char>, bool)>, id: Seq<char>) -> bool {
    exists|j: int| 0 <= j < ss.len() && #[trigger] ss[j].0 == id
}

/// Removing a receiver: its entry goes, every other receiver keeps its entry
/// (flag included), and while any receiver is left the session's Version
/// flags stay as they were; with none left the session starts over.
pub proof fn lemma_disable_receiver(s: DataStreamModel, id: Seq<char>)
    requires
        unique_ids(s.streams),
    ensures
        ({
            let t = spec_disable(s, id);
            &&& unique_ids(t.streams)
            &&& !has_receiver(t.streams, id)
            &&& forall|e: (Seq<char>, bool)|
                #![trigger has_entry(t.streams, e)]
                has_entry(t.streams, e) <==> (has_entry(s.streams, e) && e.0 != id)
            &&& t.streams.len() > 0 ==> t.version_sent == s.version_sent && t.peer_version_seen
                == s.peer_version_seen
            &&& t.streams.len() == 0 ==> t == fresh_session()
        }),
{
    let u = unregister(s.streams, id);
    lemma_unregister_unique(s.streams, id);
    lemma_stream_index_bounds(s.streams, id);
    lemma_registered_iff(s.streams, id);
    if is_registered(s.streams, id) {
        let k = stream_index(s.streams, id);
        assert forall|e: (Seq<char>, bool)| has_entry(u, e) <==> (has_entry(s.streams, e) && e.0
            != id) by {
            if has_entry(u, e) {
                let j = choose|j: int| 0 <= j < u.len() && #[trigger] u[j] == e;
                let j2 = if j < k { j } else { j + 1 };
                assert(s.streams[j2] == e);
                assert(s.streams[j2].0 != s.streams[k].0);
            }
            if has_entry(s.streams, e) && e.0 != id {
                let j = choose|j: int| 0 <= j < s.streams.len() && #[trigger] s.streams[j] == e;
                assert(j != k);
                if j < k {
                    assert(u[j] == e);
                } else {
                    assert(u[j - 1] == e);
                }
            }
        }
        assert forall|j: int| 0 <= j < u.len() implies #[trigger] u[j].0 != id by {
            let j2 = if j < k { j } else { j + 1 };
            assert(u[j] == s.streams[j2]);
            assert(s.streams[j2].0 != s.streams[k].0);
        }
    } else {
        assert forall|e: (Seq<char>, bool)| has_entry(u, e) <==> (has_entry(s.streams, e) && e.0
            != id) by {
            if has_entry(s.streams, e) {
                let j = choose|j: int| 0 <= j < s.streams.len() && #[trigger] s.streams[j] == e;
                assert(s.streams[j].0 != id);
            }
        }
    }
    if u.len() == 0 {
        assert(u =~= Seq::<(Seq<char>, bool)>::empty());
    }
}

/// An empty Data packet for one receiver ends only that receiver: Data for
/// any other registered receiver is still accepted afterwards.
pub proof fn lemma_other_receiver_survives_eof(
    s: DataStreamModel,
    id: Seq<char>,
    r: Seq<char>,
    d: Seq<u8>,
)
    requires
        unique_ids(s.streams),
        s.peer_version_seen,
        r != id,
        has_receiver(s.streams, r),
    ensures
        match spec_handle_packet(s, PacketModel::Data(id, seq![])) {
            Ok((s1, _)) => has_receiver(s1.streams, r) && s1.peer_version_seen
                && spec_handle_packet(s1, PacketModel::Data(r, d)) is Ok,
            Err(_) => false,
        },
{
    lemma_set_outstanding(s.streams, id, false);
    let t = set_outstanding(s.streams, id, false);
    let s0 = DataStreamModel { streams: t, ..s };
    let j = choose|j: int| 0 <= j < s.streams.len() && #[trigger] s.streams[j].0 == r;
    assert(stream_names(t).len() == t.len());
    assert(stream_names(s.streams).len() == s.streams.len());
    assert(stream_names(s.streams)[j] == s.streams[j].0);
    assert(stream_names(t)[j] == stream_names(s.streams)[j]);
    assert(stream_names(t)[j] == t[j].0);
    assert(t[j].0 == r);
    assert(has_entry(t, t[j]));
    lemma_disable_receiver(s0, id);
    let s1 = spec_disable(s0, id);
    assert(has_entry(s1.streams, t[j]));
    let j1 = choose|j1: int| 0 <= j1 < s1.streams.len() && #[trigger] s1.streams[j1] == t[j];
    assert(s1.streams[j1].0 == r);
}

/// Asking for data for `r`: afterwards a request for `r` is in flight and
/// our Version has gone out. When none was in flight, the packets end with
/// a RequestData for `r` and the given window, preceded at most by our
/// Version, whatever the peer has or has not sent; when one was in flight,
/// no RequestData goes out and nothing changes but the Version flag. Other
/// receivers keep their entries.
pub proof fn lemma_request_data(s: DataStreamModel, r: Seq<char>, w: usize)
    requires
        unique_ids(s.streams),
    ensures
        ({
            let (t, out) = spec_request(s, r, w);
            &&& has_entry(t.streams, (r, true))
            &&& t.version_sent
            &&& t.peer_version_seen == s.peer_version_seen
            &&& !has_entry(s.streams, (r, true)) ==> match out {
                RequestModel::Issued(ps) => ps.len() > 0 && ps.last() == PacketModel::RequestData(
                    r,
                    w,
                ) && forall|k: int|
                    0 <= k < ps.len() - 1 ==> #[trigger] ps[k] == PacketModel::Version(
                        PROTOCOL_VERSION,
                    ),
                RequestModel::Waiting => false,
            }
            &&& has_entry(s.streams, (r, true)) ==> t.streams == s.streams && match out {
                RequestModel::Issued(ps) => forall|k: int|
                    0 <= k < ps.len() ==> !(#[trigger] ps[k] is RequestData),
                RequestModel::Waiting => true,
            }
            &&& forall|e: (Seq<char>, bool)|
                #![trigger has_entry(t.streams, e)]
                e.0 != r ==> (has_entry(t.streams, e) <==> has_entry(s.streams, e))
        }),
{
    lemma_register(s.streams, r);
    lemma_stream_index_bounds(s.streams, r);
    let ss = register(s.streams, r);
    lemma_stream_index_bounds(ss, r);
    let i = stream_index(ss, r);
    let (t, out) = spec_request(s, r, w);
    if !is_registered(s.streams, r) {
        lemma_stream_index(ss, r, s.streams.len() as int);
        assert(!has_entry(s.streams, (r, true))) by {
            lemma_registered_iff(s.streams, r);
            if has_entry(s.streams, (r, true)) {
                let j = choose|j: int| 0 <= j < s.streams.len() && #[trigger] s.streams[j] == (
                    r,
                    true,
                );
                assert(s.streams[j].0 == r);
            }
        }
    } else {
        assert(ss == s.streams);
        if has_entry(s.streams, (r, true)) {
            let j = choose|j: int| 0 <= j < s.streams.len() && #[trigger] s.streams[j] == (r, true);
            lemma_entry_index(s.streams, r, j);
        }
    }
    // Entries of other receivers.
    assert forall|e: (Seq<char>, bool)| e.0 != r implies (has_entry(ss, e) <==> has_entry(
        s.streams,
        e,
    )) by {
        if has_entry(ss, e) {
            let j = choose|j: int| 0 <= j < ss.len() && #[trigger] ss[j] == e;
            if j < s.streams.len() {
                assert(s.streams[j] == e);
            }
        }
        if has_entry(s.streams, e) {
            let j = choose|j: int| 0 <= j < s.streams.len() && #[trigger] s.streams[j] == e;
            assert(ss[j] == e);
        }
    }
    if ss[i].1 {
        assert(t.streams == ss);
        assert(ss[i] == (r, true));
        assert(has_entry(t.streams, (r, true)));
    } else {
        let u = ss.update(i, (r, true));
        assert(t.streams == u);
        assert(u[i] == (r, true));
        assert(has_entry(t.streams, (r, true)));
        assert forall|e: (Seq<char>, bool)| e.0 != r implies (has_entry(u, e) <==> has_entry(
            ss,
            e,
        )) by {
            if has_entry(u, e) {
                let j = choose|j: int| 0 <= j < u.len() && #[trigger] u[j] == e;
                assert(j != i);
                assert(ss[j] == e);
            }
            if has_entry(ss, e) {
                let j = choose|j: int| 0 <= j < ss.len() && #[trigger] ss[j] == e;
                assert(ss[j].0 != ss[i].0);
                assert(u[j] == e);
            }
        }
    }
}

impl View for DataStream {
    type V = DataStreamModel;

    closed spec fn view(&self) -> DataStreamModel {
        DataStreamModel {
            version_sent: self.version_sent,
            peer_version_seen: self.peer_version_seen,
            streams: self.streams@.map_values(|st: StreamState| (st.receiver@, st.outstanding_req)),
        }
    }
}

impl DataStream {
    /// Every receiver is registered once.
    pub open spec fn wf(&self) -> bool {
        unique_ids(self@.streams)
    }

    /// A fresh protocol state with no registered receivers.
    pub fn new() -> (ds: Self)
        ensures
            ds.wf(),
            ds@ == fresh_session(),
    {
        let ds = DataStream { version_sent: false, peer_version_seen: false, streams: Vec::new() };
        assert(ds@.streams =~= Seq::<(Seq<char>, bool)>::empty());
        ds
    }

    fn find(&self, receiver: &String) -> (i: usize)
        ensures
            i == stream_index(self@.streams, receiver@),
            i <= self.streams@.len(),
    {
        let ghost ss = self@.streams;
        let mut i: usize = 0;
        while i < self.streams.len()
            invariant
                i <= self.streams@.len(),
                ss == self@.streams,
                forall|j: int| 0 <= j < i ==> ss[j].0 != receiver@,
            decreases self.streams@.len() - i,
        {
            if self.streams[i].receiver == *receiver {
                proof {
                    lemma_stream_index(ss, receiver@, i as int);
                }
                return i;
            }
            i = i + 1;
        }
        proof {
            lemma_stream_index(ss, receiver@, i as int);
        }
        i
    }

    /// Register a receiver that may request bytes from the peer.
    pub fn register_receiver(&mut self, receiver: String)
        requires
            old(self).wf(),
        ensures
            final(self).wf(),
            final(self)@ == (DataStreamModel { streams: register(old(self)@.streams, receiver@), ..old(self)@ }),
    {
        let i = self.find(&receiver);
        if i == self.streams.len() {
            let ghost ss = self@.streams;
            self.streams.push(StreamState { receiver, outstanding_req: false });
            proof {
                lemma_stream_index_bounds(ss, receiver@);
                assert(self@.streams =~= ss.push((receiver@, false)));
            }
        }
    }

    fn reset_protocol(&mut self)
        ensures
            final(self)@ == (DataStreamModel { version_sent: false, peer_version_seen: false, ..old(self)@ }),
    {
        self.version_sent = false;
        self.peer_version_seen = false;
    }

    /// Remove a receiver after EOF or teardown; when none is left the
    /// session is reset.
    pub fn disable_receiver(&mut self, receiver: &String)
        requires
            old(self).wf(),
        ensures
            final(self).wf(),
            final(self)@ == spec_disable(old(self)@, receiver@),
    {
        let i = self.find(receiver);
        let ghost ss = self@.streams;
        if i < self.streams.len() {
            self.streams.remove(i);
            assert(self@.streams =~= ss.remove(i as int));
        }
        if self.streams.len() == 0 {
            self.reset_protocol();
        }
        assert(self@ == spec_disable(old(self)@, receiver@));
    }

    /// The receivers registered in this session, in registration order.
    pub fn receivers(&self) -> (r: Vec<String>)
        ensures
            string_models(r@) == stream_names(self@.streams),
    {
        let mut r: Vec<String> = Vec::new();
        let mut i: usize = 0;
        while i < self.streams.len()
            invariant
                i <= self.streams@.len(),
                string_models(r@) =~= stream_names(self@.streams.subrange(0, i as int)),
            decreases self.streams@.len() - i,
        {
            let ghost before = r@;
            r.push(self.streams[i].receiver.clone());
            proof {
                let ss = self@.streams;
                assert(ss.subrange(0, i + 1) =~= ss.subrange(0, i as int).push(ss[i as int]));
                assert(string_models(r@) =~= string_models(before).push(ss[i as int].0));
                assert(stream_names(ss.subrange(0, i + 1)) =~= stream_names(
                    ss.subrange(0, i as int),
                ).push(ss[i as int].0));
            }
            i = i + 1;
        }
        assert(self@.streams.subrange(0, self@.streams.len() as int) =~= self@.streams);
        r
    }

    /// Drop every receiver and reset the session; the dropped receivers are
    /// returned so that each can be ended.
    pub fn disconnect(&mut self) -> (r: Vec<String>)
        requires
            old(self).wf(),
        ensures
            final(self).wf(),
            string_models(r@) == stream_names(old(self)@.streams),
            final(self)@ == fresh_session(),
    {
        let r = self.receivers();
        self.streams.clear();
        self.reset_protocol();
        assert(self@.streams =~= Seq::<(Seq<char>, bool)>::empty());
        r
    }

    /// Packets to send to ask the peer for up to `window` bytes for
    /// `receiver`, if the protocol allows it.
    pub fn request_data(&mut self, receiver: &String, window: usize) -> (r: RequestState)
        requires
            old(self).wf(),
        ensures
            final(self).wf(),
            (final(self)@, r@) == spec_request(old(self)@, receiver@, window),
    {
        let mut packets: Vec<Packet> = Vec::new();
        if !self.version_sent {
            packets.push(Packet::Version(PROTOCOL_VERSION));
            self.version_sent = true;
        }
        let ghost prefix = packet_models(packets@);
        proof {
            lemma_register(self@.streams, receiver@);
            assert(prefix =~= (if old(self)@.version_sent {
                Seq::<PacketModel>::empty()
            } else {
                seq![PacketModel::Version(PROTOCOL_VERSION)]
            }));
        }
        self.register_receiver(receiver.clone());
        let i = self.find(receiver);
        if self.streams[i].outstanding_req {
            if packets.len() == 0 {
                return RequestState::Waiting;
            } else {
                return RequestState::Issued(packets);
            }
        }
        packets.push(Packet::RequestData { stream_id: receiver.clone(), window });
        let ghost ss = self@.streams;
        self.streams.set(i, StreamState { receiver: receiver.clone(), outstanding_req: true });
        proof {
            lemma_stream_index_bounds(ss, receiver@);
            assert(self@.streams =~= ss.update(i as int, (receiver@, true)));
            assert(forall|j: int| 0 <= j < ss.len() ==> #[trigger] self@.streams[j].0 == ss[j].0);
            assert(packet_models(packets@) =~= prefix.push(
                PacketModel::RequestData(receiver@, window),
            ));
        }
        RequestState::Issued(packets)
    }

    /// Apply one decoded packet.
    pub fn handle_packet(&mut self, packet: Packet) -> (r: Result<Event, ProtocolError>)
        requires
            old(self).wf(),
        ensures
            final(self).wf(),
            match r {
                Ok(ev) => spec_handle_packet(old(self)@, packet@) == Ok::<_, ProtocolErrorModel>(
                    (final(self)@, ev@),
                ),
                Err(e) => spec_handle_packet(old(self)@, packet@) == Err::<
                    (DataStreamModel, EventModel),
                    _,
                >(e@) && final(self)@ == old(self)@,
            },
    {
        match packet {
            Packet::Version(v) => {
                if v == PROTOCOL_VERSION {
                    self.peer_version_seen = true;
                    Ok(Event::PeerReady)
                } else {
                    Err(ProtocolError::UnsupportedVersion(v))
                }
            },
            Packet::Data { stream_id, data } => {
                if !self.peer_version_seen {
                    return Err(ProtocolError::DataBeforeVersion);
                }
                let i = self.find(&stream_id);
                proof {
                    lemma_stream_index_bounds(self@.streams, stream_id@);
                }
                if i < self.streams.len() {
                    let ghost ss = self@.streams;
                    self.streams.set(
                        i,
                        StreamState { receiver: stream_id.clone(), outstanding_req: false },
                    );
                    assert(self@.streams =~= ss.update(i as int, (stream_id@, false)));
                }
                if data.len() == 0 {
                    self.disable_receiver(&stream_id);
                    Ok(Event::Eof { receiver: stream_id })
                } else {
                    Ok(Event::Data { receiver: stream_id, data })
                }
            },
            Packet::RequestData { stream_id, window } => {
                if !self.peer_version_seen {
                    return Err(ProtocolError::RequestDataBeforeVersion);
                }
                Err(ProtocolError::UnexpectedRequestData { stream_id, window })
            },
        }
    }

    /// Apply decoded packets in order and collect the events; the first
    /// refused packet ends the run with its error.
    pub fn handle_packets(&mut self, packets: Vec<Packet>) -> (r: Result<Vec<Event>, ProtocolError>)
        requires
            old(self).wf(),
        ensures
            final(self).wf(),
            ({
                let (s, res) = spec_handle_packets(old(self)@, packet_models(packets@));
                &&& final(self)@ == s
                &&& match r {
                    Ok(evs) => res == Ok::<_, ProtocolErrorModel>(event_models(evs@)),
                    Err(e) => res == Err::<Seq<EventModel>, _>(e@),
                }
            }),
    {
        let ghost all = packet_models(packets@);
        let ghost start = self@;
        let mut events: Vec<Event> = Vec::new();
        let mut rest = packets;
        loop
            invariant
                self.wf(),
                all == packet_models(packets@),
                start == old(self)@,
                ({
                    let remaining = packet_models(rest@);
                    let (s, res) = spec_handle_packets(start, all);
                    let (s2, res2) = spec_handle_packets(self@, remaining);
                    &&& s == s2
                    &&& res == match res2 {
                        Ok(evs) => Ok(event_models(events@) + evs),
                        Err(e) => Err(e),
                    }
                }),
            decreases rest@.len(),
        {
            if rest.len() == 0 {
                assert(packet_models(rest@) =~= Seq::<PacketModel>::empty());
                assert(event_models(events@) + seq![] =~= event_models(events@));
                return Ok(events);
            }
            let ghost before = rest@;
            let p = rest.remove(0);
            proof {
                assert(packet_models(before)[0] == p@);
                assert(packet_models(before).drop_first() =~= packet_models(rest@));
            }
            match self.handle_packet(p) {
                Ok(ev) => {
                    let ghost old_events = event_models(events@);
                    events.push(ev);
                    proof {
                        let (s2, res2) = spec_handle_packets(
                            self@,
                            packet_models(rest@),
                        );
                        assert(event_models(events@) =~= old_events.push(ev@));
                        match res2 {
                            Ok(evs) => {
                                assert(old_events + (seq![ev@] + evs) =~= event_models(events@) + evs);
                            },
                            Err(e) => {},
                        }
                    }
                },
                Err(e) => {
                    proof {
                        assert(spec_handle_packets(self@, packet_models(before)) == (
                            self@,
                            Err::<Seq<EventModel>, ProtocolErrorModel>(e@),
                        ));
                    }
                    return Err(e);
                },
            }
        }
    }
}

} // verus!

//! The graph's byte source: bytes pushed from the UI thread are buffered and
//! handed to the graph in arrival order, with at most one pull request for
//! more in flight.
use vstd::prelude::*;

verus! {

/// The receiver name under which the source asks for data.
pub const RECEIVER_SOURCE_ID: &'static str = "rtl-sdr";

/// How many bytes the source asks for at a time.
pub const CHUNK_SIZE: u64 = 65536;

/// A stream tag, by position and key.
pub struct Tag {
    pub pos: usize,
    pub key: String,
}

/// A run of samples with the tags that go with them.
pub struct TaggedVec<T> {
    pub data: Vec<T>,
    pub tags: Vec<Tag>,
}

/// Messages from the worker's data bridge into the source.
pub enum Msg {
    /// No more bytes will arrive for this source.
    Eof,
    /// Append bytes received for this source.
    Extend(Vec<u8>),
}

pub enum MsgModel {
    Eof,
    Extend(Seq<u8>),
}

impl View for Msg {
    type V = MsgModel;

    open spec fn view(&self) -> MsgModel {
        match self {
            Msg::Eof => MsgModel::Eof,
            Msg::Extend(d) => MsgModel::Extend(d@),
        }
    }
}

/// The data of `streams`, one after the other.
pub open spec fn joined_data(streams: Seq<TaggedVec<u8>>) -> Seq<u8>
    decreases streams.len(),
{
    if streams.len() == 0 {
        Seq::empty()
    } else {
        streams[0].data@ + joined_data(streams.drop_first())
    }
}

/// The message that carries `data`: empty data means the end of the stream.
pub open spec fn msg_for(data: Seq<u8>) -> MsgModel {
    if data.len() == 0 {
        MsgModel::Eof
    } else {
        MsgModel::Extend(data)
    }
}

/// Turn one batch of byte runs from the UI thread into a source update: the
/// runs joined in order, or the end of the stream when they hold no byte.
pub fn source_msg_from_bytes(streams: Vec<TaggedVec<u8>>) -> (m: Msg)
    ensures
        m@ == msg_for(joined_data(streams@)),
{
    let ghost all = streams@;
    let mut rest = streams;
    let mut data: Vec<u8> = Vec::new();
    while rest.len() > 0
        invariant
            joined_data(all) == data@ + joined_data(rest@),
        decreases rest@.len(),
    {
        let ghost before = rest@;
        let mut first = rest.remove(0);
        proof {
            assert(before.drop_first() =~= rest@);
            assert(joined_data(before) == first.data@ + joined_data(rest@));
            assert(data@ + (first.data@ + joined_data(rest@)) =~= (data@ + first.data@)
                + joined_data(rest@));
        }
        data.append(&mut first.data);
    }
    assert(data@ + joined_data(rest@) =~= data@);
    if data.len() == 0 {
        Msg::Eof
    } else {
        Msg::Extend(data)
    }
}

/// The models of a list of messages.
pub open spec fn msg_models(ms: Seq<Msg>) -> Seq<MsgModel> {
    ms.map_values(|m: Msg| m@)
}

/// The bytes that the messages `ms` carry, in order.
pub open spec fn msgs_data(ms: Seq<MsgModel>) -> Seq<u8>
    decreases ms.len(),
{
    if ms.len() == 0 {
        Seq::empty()
    } else {
        msg_bytes(ms[0]) + msgs_data(ms.drop_first())
    }
}

/// The bytes one message carries.
pub open spec fn msg_bytes(m: MsgModel) -> Seq<u8> {
    match m {
        MsgModel::Extend(d) => d,
        MsgModel::Eof => Seq::empty(),
    }
}

/// Whether one of the messages `ms` ends the stream.
pub open spec fn msgs_end(ms: Seq<MsgModel>) -> bool {
    exists|i: int| 0 <= i < ms.len() && #[trigger] ms[i] is Eof
}

/// A request for the next bytes of a receiver's stream.
pub struct DataRequest {
    pub receiver: String,
    pub offset: u64,
    pub size: u64,
}

/// What one step of the source does.
pub enum SourceStep {
    /// The stream ended and every byte has been handed on.
    Eof,
    /// Nothing to hand on yet; the request, if any, is to be sent.
    Pending(Option<DataRequest>),
    /// Bytes are waiting but the output has no room.
    WaitForOutput,
    /// These bytes are to be written to the output.
    Produce(Vec<u8>),
}

/// What one step of the source does, as a value: a request is only said to
/// be sent or not.
pub enum StepModel {
    Eof,
    Pending(bool),
    WaitForOutput,
    Produce(Seq<u8>),
}

pub open spec fn step_model(step: SourceStep) -> StepModel {
    match step {
        SourceStep::Eof => StepModel::Eof,
        SourceStep::Pending(req) => StepModel::Pending(req is Some),
        SourceStep::WaitForOutput => StepModel::WaitForOutput,
        SourceStep::Produce(out) => StepModel::Produce(out@),
    }
}

/// The source's state as a value: buffered bytes, whether the stream ended,
/// whether a request is in flight, and every byte that came in and went out.
pub struct SourceModel {
    pub buf: Seq<u8>,
    pub eof: bool,
    pub outstanding: bool,
    pub received: Seq<u8>,
    pub produced: Seq<u8>,
}

/// A source that has received nothing.
pub open spec fn fresh_source() -> SourceModel {
    SourceModel {
        buf: Seq::empty(),
        eof: false,
        outstanding: false,
        received: Seq::empty(),
        produced: Seq::empty(),
    }
}

/// The state after a message from the worker.
pub open spec fn source_msg(m: SourceModel, msg: MsgModel) -> SourceModel {
    match msg {
        MsgModel::Eof => SourceModel { eof: true, outstanding: false, ..m },
        MsgModel::Extend(d) => SourceModel {
            buf: m.buf + d,
            received: m.received + d,
            outstanding: false,
            ..m
        },
    }
}

/// One step with room for `space` bytes at the output.
pub open spec fn source_work(m: SourceModel, space: usize) -> (SourceModel, StepModel) {
    if m.buf.len() == 0 {
        if m.eof {
            (m, StepModel::Eof)
        } else if !m.outstanding {
            (SourceModel { outstanding: true, ..m }, StepModel::Pending(true))
        } else {
            (m, StepModel::Pending(false))
        }
    } else if space == 0 {
        (m, StepModel::WaitForOutput)
    } else {
        let n = if m.buf.len() < space {
            m.buf.len() as int
        } else {
            space as int
        };
        (
            SourceModel { buf: m.buf.skip(n), produced: m.produced + m.buf.take(n), ..m },
            StepModel::Produce(m.buf.take(n)),
        )
    }
}

/// What happens to a source: a message arrives, or the graph runs it with
/// room for some bytes.
pub enum SourceEvent {
    Msg(MsgModel),
    Work(usize),
}

/// The state and the steps after `evs`, in order; messages make no step.
pub open spec fn source_run(m: SourceModel, evs: Seq<SourceEvent>) -> (
    SourceModel,
    Seq<Option<StepModel>>,
)
    decreases evs.len(),
{
    if evs.len() == 0 {
        (m, Seq::empty())
    } else {
        let (m1, steps) = source_run(m, evs.drop_last());
        match evs.last() {
            SourceEvent::Msg(x) => (source_msg(m1, x), steps.push(None)),
            SourceEvent::Work(n) => {
                let (m2, st) = source_work(m1, n);
                (m2, steps.push(Some(st)))
            },
        }
    }
}

/// The bytes the messages among `evs` carry, in order.
pub open spec fn sent_data(evs: Seq<SourceEvent>) -> Seq<u8>
    decreases evs.len(),
{
    if evs.len() == 0 {
        Seq::empty()
    } else {
        sent_data(evs.drop_last()) + match evs.last() {
            SourceEvent::Msg(x) => msg_bytes(x),
            SourceEvent::Work(_) => Seq::empty(),
        }
    }
}

/// Whether a message among `evs` ended the stream.
pub open spec fn sent_end(evs: Seq<SourceEvent>) -> bool {
    exists|i: int| 0 <= i < evs.len() && #[trigger] evs[i] == SourceEvent::Msg(MsgModel::Eof)
}

/// The bytes the steps wrote to the output, in order.
pub open spec fn output(steps: Seq<Option<StepModel>>) -> Seq<u8>
    decreases steps.len(),
{
    if steps.len() == 0 {
        Seq::empty()
    } else {
        output(steps.drop_last()) + match steps.last() {
            Some(StepModel::Produce(d)) => d,
            _ => Seq::empty(),
        }
    }
}

/// The source's state: buffered bytes, whether the stream ended, how many
/// bytes arrived, and whether a request is in flight. `received` and
/// `produced` record every byte that came in and went out.
pub struct WasmSource {
    receiver: String,
    buf: Vec<u8>,
    eof: bool,
    pos: u64,
    outstanding_req: bool,
    received: Ghost<Seq<u8>>,
    produced: Ghost<Seq<u8>>,
}

impl WasmSource {
    pub closed spec fn receiver(&self) -> Seq<char> {
        self.receiver@
    }

    pub closed spec fn buffered(&self) -> Seq<u8> {
        self.buf@
    }

    pub closed spec fn at_eof(&self) -> bool {
        self.eof
    }

    pub closed spec fn position(&self) -> u64 {
        self.pos
    }

    pub closed spec fn request_in_flight(&self) -> bool {
        self.outstanding_req
    }

    /// Every byte that arrived, in order.
    pub closed spec fn received(&self) -> Seq<u8> {
        self.received@
    }

    /// Every byte handed on, in order.
    pub closed spec fn produced(&self) -> Seq<u8> {
        self.produced@
    }

    /// The state as a value.
    pub open spec fn model(&self) -> SourceModel {
        SourceModel {
            buf: self.buffered(),
            eof: self.at_eof(),
            outstanding: self.request_in_flight(),
            received: self.received(),
            produced: self.produced(),
        }
    }

    /// What went out followed by what waits is what came in, and the position
    /// counts what came in.
    pub open spec fn wf(&self) -> bool {
        &&& self.produced() + self.buffered() == self.received()
        &&& self.position() == self.received().len()
    }

    /// A source for the default receiver, with nothing received.
    pub fn new() -> (s: Self)
        ensures
            s.wf(),
            s.receiver() == RECEIVER_SOURCE_ID@,
            s.buffered() == Seq::<u8>::empty(),
            s.received() == Seq::<u8>::empty(),
            !s.at_eof(),
            !s.request_in_flight(),
            s.model() == fresh_source(),
    {
        let s = WasmSource {
            receiver: String::from_str(RECEIVER_SOURCE_ID),
            buf: Vec::new(),
            eof: false,
            pos: 0,
            outstanding_req: false,
            received: Ghost(Seq::empty()),
            produced: Ghost(Seq::empty()),
        };
        assert(s.produced@ + s.buf@ =~= s.received@);
        s
    }

    /// Record that no more bytes will arrive.
    fn set_eof(&mut self)
        ensures
            *final(self) == (WasmSource { eof: true, ..*old(self) }),
    {
        self.eof = true;
    }

    /// Append arrived bytes to the buffer.
    fn extend(&mut self, data: &[u8])
        ensures
            final(self).buf@ == old(self).buf@ + data@,
            final(self).receiver == old(self).receiver,
            final(self).eof == old(self).eof,
            final(self).pos == old(self).pos,
            final(self).outstanding_req == old(self).outstanding_req,
            final(self).received == old(self).received,
            final(self).produced == old(self).produced,
    {
        let mut i: usize = 0;
        let ghost start = self.buf@;
        while i < data.len()
            invariant
                i <= data@.len(),
                self.buf@ == start + data@.subrange(0, i as int),
                self.receiver == old(self).receiver,
                self.eof == old(self).eof,
                self.pos == old(self).pos,
                self.outstanding_req == old(self).outstanding_req,
                self.received == old(self).received,
                self.produced == old(self).produced,
            decreases data@.len() - i,
        {
            self.buf.push(data[i]);
            assert(data@.subrange(0, i + 1) =~= data@.subrange(0, i as int).push(data@[i as int]));
            i = i + 1;
        }
        assert(data@.subrange(0, data@.len() as int) =~= data@);
    }

    /// Apply one message from the worker: data is buffered and counted, the
    /// end of the stream is noted, and either answers the request in flight.
    pub fn apply_msg(&mut self, msg: Msg)
        requires
            old(self).wf(),
            msg matches Msg::Extend(d) ==> old(self).position() + d@.len() <= u64::MAX,
        ensures
            final(self).wf(),
            final(self).receiver() == old(self).receiver(),
            final(self).produced() == old(self).produced(),
            !final(self).request_in_flight(),
            final(self).model() == source_msg(old(self).model(), msg@),
            match msg@ {
                MsgModel::Eof => {
                    &&& final(self).at_eof()
                    &&& final(self).buffered() == old(self).buffered()
                    &&& final(self).received() == old(self).received()
                },
                MsgModel::Extend(d) => {
                    &&& final(self).at_eof() == old(self).at_eof()
                    &&& final(self).buffered() == old(self).buffered() + d
                    &&& final(self).received() == old(self).received() + d
                },
            },
    {
        match msg {
            Msg::Eof => {
                self.set_eof();
                self.outstanding_req = false;
            },
            Msg::Extend(v) => {
                self.pos = self.pos + v.len() as u64;
                self.extend(v.as_slice());
                self.received = Ghost(self.received@ + v@);
                self.outstanding_req = false;
                assert(self.produced@ + self.buf@ =~= self.received@);
            },
        }
    }

    /// Apply the messages queued by the worker, oldest first.
    pub fn apply_msgs(&mut self, msgs: Vec<Msg>)
        requires
            old(self).wf(),
            old(self).position() + msgs_data(msg_models(msgs@)).len() <= u64::MAX,
        ensures
            final(self).wf(),
            final(self).receiver() == old(self).receiver(),
            final(self).produced() == old(self).produced(),
            final(self).buffered() == old(self).buffered() + msgs_data(msg_models(msgs@)),
            final(self).received() == old(self).received() + msgs_data(msg_models(msgs@)),
            final(self).at_eof() == (old(self).at_eof() || msgs_end(msg_models(msgs@))),
            final(self).request_in_flight() == (old(self).request_in_flight() && msgs@.len() == 0),
    {
        let ghost all = msg_models(msgs@);
        let mut rest = msgs;
        let ghost mut done: Seq<MsgModel> = Seq::empty();
        while rest.len() > 0
            invariant
                self.wf(),
                old(self).wf(),
                self.receiver() == old(self).receiver(),
                self.produced() == old(self).produced(),
                all == done + msg_models(rest@),
                self.buffered() == old(self).buffered() + msgs_data(done),
                self.received() == old(self).received() + msgs_data(done),
                old(self).position() + msgs_data(done).len() + msgs_data(msg_models(rest@)).len()
                    <= u64::MAX,
                self.at_eof() == (old(self).at_eof() || msgs_end(done)),
                self.request_in_flight() == (old(self).request_in_flight() && done.len() == 0),
            decreases rest@.len(),
        {
            let ghost before = msg_models(rest@);
            let m = rest.remove(0);
            proof {
                assert(before[0] == m@);
                assert(before.drop_first() =~= msg_models(rest@));
                assert(msgs_data(before) == msg_bytes(m@) + msgs_data(msg_models(rest@)));
                lemma_msgs_data_split(done, m@);
            }
            self.apply_msg(m);
            proof {
                assert(done.push(m@) + msg_models(rest@) =~= done + before);
                assert forall|i: int| 0 <= i < done.push(m@).len() && #[trigger] done.push(m@)[i] is Eof
                    implies i == done.len() || done[i] is Eof by {}
                if m@ is Eof {
                    assert(done.push(m@)[done.len() as int] is Eof);
                }
                if msgs_end(done) {
                    let i = choose|i: int| 0 <= i < done.len() && #[trigger] done[i] is Eof;
                    assert(done.push(m@)[i] is Eof);
                }
                done = done.push(m@);
            }
        }
        proof {
            assert(msg_models(rest@) =~= Seq::<MsgModel>::empty());
            assert(all =~= done);
        }
    }

    /// The request for more bytes, when none is in flight.
    fn req_more(&mut self) -> (r: Option<DataRequest>)
        ensures
            final(self).request_in_flight(),
            *final(self) == (WasmSource { outstanding_req: true, ..*old(self) }),
            match r {
                Some(req) => !old(self).request_in_flight() && req.receiver@ == old(self).receiver()
                    && req.offset == old(self).position() && req.size == CHUNK_SIZE,
                None => old(self).request_in_flight(),
            },
    {
        if !self.outstanding_req {
            let req = DataRequest {
                receiver: self.receiver.clone(),
                offset: self.pos,
                size: CHUNK_SIZE,
            };
            self.outstanding_req = true;
            Some(req)
        } else {
            None
        }
    }

    /// One step of the source, given room for `space` bytes at the output:
    /// buffered bytes go out first, as many as fit; with none buffered the
    /// source ends once the stream has ended, and otherwise asks for more.
    pub fn work(&mut self, space: usize) -> (step: SourceStep)
        requires
            old(self).wf(),
        ensures
            final(self).wf(),
            final(self).receiver() == old(self).receiver(),
            final(self).received() == old(self).received(),
            final(self).at_eof() == old(self).at_eof(),
            (final(self).model(), step_model(step)) == source_work(old(self).model(), space),
            match step {
                SourceStep::Eof => {
                    &&& old(self).buffered().len() == 0 && old(self).at_eof()
                    &&& final(self).request_in_flight() == old(self).request_in_flight()
                    &&& final(self).buffered() == old(self).buffered()
                },
                SourceStep::Pending(req) => {
                    &&& old(self).buffered().len() == 0 && !old(self).at_eof()
                    &&& final(self).request_in_flight()
                    &&& final(self).buffered() == old(self).buffered()
                    &&& match req {
                        Some(q) => !old(self).request_in_flight() && q.receiver@
                            == old(self).receiver() && q.offset == old(self).position()
                            && q.size == CHUNK_SIZE,
                        None => old(self).request_in_flight(),
                    }
                },
                SourceStep::WaitForOutput => {
                    &&& old(self).buffered().len() > 0 && space == 0
                    &&& final(self).request_in_flight() == old(self).request_in_flight()
                    &&& final(self).buffered() == old(self).buffered()
                },
                SourceStep::Produce(out) => {
                    let n = if old(self).buffered().len() < space {
                        old(self).buffered().len() as int
                    } else {
                        space as int
                    };
                    &&& old(self).buffered().len() > 0 && space > 0
                    &&& out@ == old(self).buffered().take(n)
                    &&& final(self).buffered() == old(self).buffered().skip(n)
                    &&& final(self).produced() == old(self).produced() + out@
                    &&& final(self).request_in_flight() == old(self).request_in_flight()
                },
            },
    {
        if self.buf.len() == 0 {
            if self.eof {
                return SourceStep::Eof;
            }
            let req = self.req_more();
            return SourceStep::Pending(req);
        }
        if space == 0 {
            return SourceStep::WaitForOutput;
        }
        let n = if self.buf.len() < space {
            self.buf.len()
        } else {
            space
        };
        let ghost old_buf = self.buf@;
        let mut out = self.buf.split_off(n);
        std::mem::swap(&mut self.buf, &mut out);
        self.produced = Ghost(self.produced@ + out@);
        proof {
            assert(old_buf.take(n as int) + old_buf.skip(n as int) =~= old_buf);
            assert(self.produced@ + self.buf@ =~= old(self).produced@ + (out@ + self.buf@));
        }
        SourceStep::Produce(out)
    }
}

proof fn lemma_msgs_data_split(done: Seq<MsgModel>, m: MsgModel)
    ensures
        msgs_data(done.push(m)) == msgs_data(done) + msg_bytes(m),
    decreases done.len(),
{
    if done.len() == 0 {
        assert(done.push(m) =~= seq![m]);
        assert(seq![m].drop_first() =~= Seq::<MsgModel>::empty());
        assert(seq![m][0] == m);
        assert(msgs_data(Seq::<MsgModel>::empty()) =~= Seq::<u8>::empty());
        assert(msgs_data(seq![m]) =~= msg_bytes(m) + Seq::<u8>::empty());
        assert(msgs_data(seq![m]) =~= msg_bytes(m));
    } else {
        lemma_msgs_data_split(done.drop_first(), m);
        assert(done.push(m).drop_first() =~= done.drop_first().push(m));
        assert(done.push(m)[0] == done[0]);
        assert(msgs_data(done.push(m)) =~= msgs_data(done) + msg_bytes(m));
    }
}

/// The source hands on exactly the bytes it received, in order: once its
/// buffer is empty, what went out is what came in.
pub proof fn lemma_source_delivers_all(s: WasmSource)
    requires
        s.wf(),
        s.buffered().len() == 0,
    ensures
        s.produced() == s.received(),
{
    assert(s.produced() + s.buffered() =~= s.produced());
}

/// A message arrived after event `j` and before event `k`.
pub open spec fn message_between(evs: Seq<SourceEvent>, j: int, k: int) -> bool {
    exists|i: int| j < i < k && #[trigger] evs[i] is Msg
}

/// Over any run of a fresh source, the output is exactly the bytes that the
/// worker sent, in order, and what is not yet written waits in the buffer;
/// the source reports its end only after the end of the stream arrived and
/// every byte sent before it was written; and a second request goes out only
/// after a message answered the first.
pub proof fn lemma_source_run(evs: Seq<SourceEvent>)
    ensures
        ({
            let (m, steps) = source_run(fresh_source(), evs);
            &&& steps.len() == evs.len()
            &&& m.produced == output(steps)
            &&& m.received == sent_data(evs)
            &&& output(steps) + m.buf == sent_data(evs)
            &&& m.eof == sent_end(evs)
            &&& forall|k: int|
                0 <= k < evs.len() && #[trigger] steps[k] == Some(StepModel::Eof) ==> output(
                    steps.take(k),
                ) == sent_data(evs.take(k)) && sent_end(evs.take(k))
            &&& forall|j: int, k: int|
                0 <= j < k < evs.len() && #[trigger] steps[j] == Some(StepModel::Pending(true))
                    && #[trigger] steps[k] == Some(StepModel::Pending(true)) ==> message_between(
                    evs,
                    j,
                    k,
                )
        }),
{
    lemma_source_run_inv(evs);
}

/// The facts behind `lemma_source_run`, with what the in-flight flag means.
proof fn lemma_source_run_inv(evs: Seq<SourceEvent>)
    ensures
        ({
            let (m, steps) = source_run(fresh_source(), evs);
            &&& steps.len() == evs.len()
            &&& m.produced == output(steps)
            &&& m.received == sent_data(evs)
            &&& output(steps) + m.buf == sent_data(evs)
            &&& m.eof == sent_end(evs)
            &&& forall|k: int|
                0 <= k < evs.len() && #[trigger] steps[k] == Some(StepModel::Eof) ==> output(
                    steps.take(k),
                ) == sent_data(evs.take(k)) && sent_end(evs.take(k))
            &&& forall|j: int, k: int|
                0 <= j < k < evs.len() && #[trigger] steps[j] == Some(StepModel::Pending(true))
                    && #[trigger] steps[k] == Some(StepModel::Pending(true)) ==> message_between(
                    evs,
                    j,
                    k,
                )
            &&& forall|j: int|
                0 <= j < evs.len() && #[trigger] steps[j] == Some(StepModel::Pending(true))
                    && !message_between(evs, j, evs.len() as int) ==> m.outstanding
        }),
    decreases evs.len(),
{
    let (m, steps) = source_run(fresh_source(), evs);
    if evs.len() == 0 {
        assert(output(steps) + m.buf =~= sent_data(evs));
    } else {
        let init = evs.drop_last();
        let n = init.len() as int;
        lemma_source_run_inv(init);
        let (m1, s1) = source_run(fresh_source(), init);
        assert(steps.drop_last() =~= s1);
        assert forall|k: int| 0 <= k < n implies #[trigger] steps[k] == s1[k] by {}
        assert forall|k: int| 0 <= k < n implies #[trigger] evs[k] == init[k] by {}
        assert forall|k: int| 0 <= k <= n implies #[trigger] steps.take(k) =~= s1.take(k) by {}
        assert forall|k: int| 0 <= k <= n implies #[trigger] evs.take(k) =~= init.take(k) by {}
        assert(steps.take(n) =~= s1);
        assert(evs.take(n) =~= init);
        // The end of the stream is seen exactly when an end message was sent.
        assert(sent_end(evs) == (sent_end(init) || evs.last() == SourceEvent::Msg(MsgModel::Eof)))
            by {
            if sent_end(evs) {
                let i = choose|i: int|
                    0 <= i < evs.len() && #[trigger] evs[i] == SourceEvent::Msg(MsgModel::Eof);
                if i < n {
                    assert(init[i] == SourceEvent::Msg(MsgModel::Eof));
                }
            }
            if sent_end(init) {
                let i = choose|i: int|
                    0 <= i < init.len() && #[trigger] init[i] == SourceEvent::Msg(MsgModel::Eof);
                assert(evs[i] == SourceEvent::Msg(MsgModel::Eof));
            }
            if evs.last() == SourceEvent::Msg(MsgModel::Eof) {
                assert(evs[n] == SourceEvent::Msg(MsgModel::Eof));
            }
        }
        // A message between j and the end: either before the last event, or
        // the last event itself.
        assert forall|j: int| 0 <= j < n implies message_between(evs, j, n + 1) == (
        message_between(init, j, n) || evs[n] is Msg) by {
            if message_between(evs, j, n + 1) {
                let i = choose|i: int| j < i < n + 1 && #[trigger] evs[i] is Msg;
                if i < n {
                    assert(init[i] is Msg);
                }
            }
            if message_between(init, j, n) {
                let i = choose|i: int| j < i < n && #[trigger] init[i] is Msg;
                assert(evs[i] is Msg);
            }
        }
        assert forall|j: int, k: int| 0 <= j < k < n implies message_between(evs, j, k)
            == message_between(init, j, k) by {
            if message_between(evs, j, k) {
                let i = choose|i: int| j < i < k && #[trigger] evs[i] is Msg;
                assert(init[i] is Msg);
            }
            if message_between(init, j, k) {
                let i = choose|i: int| j < i < k && #[trigger] init[i] is Msg;
                assert(evs[i] is Msg);
            }
        }
        match evs.last() {
            SourceEvent::Msg(x) => {
                assert(steps == s1.push(None));
                assert(output(steps) =~= output(s1));
                assert(sent_data(evs) == sent_data(init) + msg_bytes(x));
                match x {
                    MsgModel::Eof => {
                        assert(output(steps) + m.buf =~= sent_data(evs));
                    },
                    MsgModel::Extend(d) => {
                        assert(output(steps) + m.buf =~= (output(s1) + m1.buf) + d);
                    },
                }
                assert forall|j: int|
                    0 <= j < evs.len() && #[trigger] steps[j] == Some(StepModel::Pending(true))
                    implies message_between(evs, j, evs.len() as int) by {
                    assert(evs[n] is Msg);
                }
            },
            SourceEvent::Work(sp) => {
                let (m2, st) = source_work(m1, sp);
                assert(steps == s1.push(Some(st)));
                assert(sent_data(evs) =~= sent_data(init));
                assert(!(evs[n] is Msg));
                match st {
                    StepModel::Produce(d) => {
                        let k = if m1.buf.len() < sp {
                            m1.buf.len() as int
                        } else {
                            sp as int
                        };
                        assert(output(steps) == output(s1) + d);
                        assert(m1.buf.take(k) + m1.buf.skip(k) =~= m1.buf);
                        assert(output(steps) + m.buf =~= (output(s1) + m1.buf.take(k))
                            + m1.buf.skip(k));
                        assert(output(s1) + (m1.buf.take(k) + m1.buf.skip(k)) =~= (output(s1)
                            + m1.buf.take(k)) + m1.buf.skip(k));
                    },
                    _ => {
                        assert(output(steps) =~= output(s1));
                    },
                }
                if st == StepModel::Eof {
                    assert(m1.buf.len() == 0);
                    assert(output(s1) + m1.buf =~= output(s1));
                }
                if st == StepModel::Pending(true) {
                    assert(!m1.outstanding);
                    assert forall|j: int|
                        0 <= j < n && #[trigger] steps[j] == Some(StepModel::Pending(true))
                        implies message_between(evs, j, n) by {
                        assert(s1[j] == Some(StepModel::Pending(true)));
                    }
                }
                assert forall|j: int|
                    0 <= j < evs.len() && #[trigger] steps[j] == Some(StepModel::Pending(true))
                        && !message_between(evs, j, evs.len() as int) implies m.outstanding by {
                    if j < n {
                        assert(s1[j] == Some(StepModel::Pending(true)));
                    }
                }
            },
        }
    }
}

} // verus!

//! Decisions of the UI thread: which single input feeds the graph, how the
//! worker's pull requests are served from a file, RTL-SDR tuning and gain
//! checks, and where each stream of floats from the worker goes.
use vstd::prelude::*;
use crate::strings::push_str;

verus! {

/// Lowest manual tuner gain, in tenths of a dB.
pub const RTLSDR_MIN_GAIN_TENTHS_DB: i32 = -100;

/// Highest manual tuner gain, in tenths of a dB.
pub const RTLSDR_MAX_GAIN_TENTHS_DB: i32 = 500;

/// Margin kept between the tuning offset and the edge of the band, in Hz.
pub const OFFSET_GUARD_HZ: u32 = 25_000;

/// The input that feeds the graph.
#[derive(Clone, Copy, PartialEq, Eq, Structural)]
pub enum InputSource {
    NotChosen,
    File,
    WebSocket,
    RtlSdr,
}

/// A refused UI-thread request.
#[derive(PartialEq, Eq, Structural)]
pub enum InputError {
    /// Another input was chosen before.
    AlreadySelected,
    /// The worker asked for zero bytes of the file.
    ZeroLengthRequest,
}

/// What happens to a pull request from the worker.
#[derive(PartialEq, Eq, Structural)]
pub enum RequestRoute {
    /// Serve it now from the file.
    Serve,
    /// No input chosen yet: it waits until one is.
    Queued,
    /// The chosen input pushes data by itself; the request is dropped.
    Ignored,
}

/// The file range to read for a pull request: `[offset, end)`.
#[derive(PartialEq, Eq, Structural)]
pub struct FileRead {
    pub offset: u64,
    pub end: u64,
}

/// The UI thread's input state: the chosen input, the read position of each
/// stream in the chosen file, and the requests waiting for an input.
pub struct MainState {
    input: InputSource,
    file_pos: Vec<(String, u64)>,
    pending: Vec<(String, usize)>,
}

pub struct MainModel {
    pub input: InputSource,
    pub file_pos: Seq<(Seq<char>, u64)>,
    pub pending: Seq<(Seq<char>, usize)>,
}

/// Index of the first entry for `name`, or `ps.len()`.
pub open spec fn pos_index(ps: Seq<(Seq<char>, u64)>, name: Seq<char>) -> int
    decreases ps.len(),
{
    if ps.len() == 0 {
        0
    } else if ps[0].0 == name {
        0
    } else {
        1 + pos_index(ps.drop_first(), name)
    }
}

/// The read position of stream `name`: where the last chunk ended, or the
/// start of the file.
pub open spec fn position_of(ps: Seq<(Seq<char>, u64)>, name: Seq<char>) -> u64 {
    if pos_index(ps, name) < ps.len() {
        ps[pos_index(ps, name)].1
    } else {
        0
    }
}

/// `ps` with the position of `name` set to `v`.
pub open spec fn with_position(ps: Seq<(Seq<char>, u64)>, name: Seq<char>, v: u64) -> Seq<
    (Seq<char>, u64),
> {
    if pos_index(ps, name) < ps.len() {
        ps.update(pos_index(ps, name), (name, v))
    } else {
        ps.push((name, v))
    }
}

pub proof fn lemma_pos_index(ps: Seq<(Seq<char>, u64)>, name: Seq<char>, k: int)
    requires
        0 <= k <= ps.len(),
        k < ps.len() ==> ps[k].0 == name,
        forall|j: int| 0 <= j < k ==> ps[j].0 != name,
    ensures
        pos_index(ps, name) == k,
    decreases ps.len(),
{
    if ps.len() > 0 && ps[0].0 != name {
        lemma_pos_index(ps.drop_first(), name, k - 1);
    }
}

pub proof fn lemma_pos_index_bounds(ps: Seq<(Seq<char>, u64)>, name: Seq<char>)
    ensures
        0 <= pos_index(ps, name) <= ps.len(),
        pos_index(ps, name) < ps.len() ==> ps[pos_index(ps, name)].0 == name,
        forall|j: int| 0 <= j < pos_index(ps, name) ==> ps[j].0 != name,
    decreases ps.len(),
{
    if ps.len() > 0 && ps[0].0 != name {
        let t = ps.drop_first();
        lemma_pos_index_bounds(t, name);
        assert forall|j: int| 0 <= j < pos_index(ps, name) implies ps[j].0 != name by {
            if j > 0 {
                assert(ps[j] == t[j - 1]);
            }
        }
    }
}

/// Setting a position is seen by the next lookup, and no other stream's
/// position moves.
pub proof fn lemma_with_position(ps: Seq<(Seq<char>, u64)>, name: Seq<char>, v: u64, other: Seq<char>)
    ensures
        position_of(with_position(ps, name, v), name) == v,
        other != name ==> position_of(with_position(ps, name, v), other) == position_of(ps, other),
{
    lemma_pos_index_bounds(ps, name);
    lemma_pos_index_bounds(ps, other);
    let k = pos_index(ps, name);
    let t = with_position(ps, name, v);
    if k < ps.len() {
        lemma_pos_index(t, name, k);
    } else {
        lemma_pos_index(t, name, ps.len() as int);
    }
    if other != name {
        let ko = pos_index(ps, other);
        assert forall|j: int| 0 <= j < ko implies t[j].0 != other by {
            if j != k {
                assert(t[j] == ps[j]);
            }
        }
        if ko < ps.len() {
            assert(t[ko] == ps[ko]);
            lemma_pos_index(t, other, ko);
        } else {
            assert forall|j: int| 0 <= j < t.len() implies t[j].0 != other by {
                if j < ps.len() && j != k {
                    assert(t[j] == ps[j]);
                }
            }
            lemma_pos_index(t, other, t.len() as int);
        }
    }
}

impl View for MainState {
    type V = MainModel;

    closed spec fn view(&self) -> MainModel {
        MainModel {
            input: self.input,
            file_pos: self.file_pos@.map_values(|p: (String, u64)| (p.0@, p.1)),
            pending: self.pending@.map_values(|p: (String, usize)| (p.0@, p.1)),
        }
    }
}

/// The models of a list of pending requests.
pub open spec fn request_models(rs: Seq<(String, usize)>) -> Seq<(Seq<char>, usize)> {
    rs.map_values(|p: (String, usize)| (p.0@, p.1))
}

impl MainState {
    /// No input chosen, no positions, no waiting requests.
    pub fn new() -> (s: Self)
        ensures
            s@.input == InputSource::NotChosen,
            s@.file_pos == Seq::<(Seq<char>, u64)>::empty(),
            s@.pending == Seq::<(Seq<char>, usize)>::empty(),
    {
        let s = MainState { input: InputSource::NotChosen, file_pos: Vec::new(), pending: Vec::new() };
        assert(s@.file_pos =~= Seq::<(Seq<char>, u64)>::empty());
        assert(s@.pending =~= Seq::<(Seq<char>, usize)>::empty());
        s
    }

    /// The input chosen so far.
    pub fn input_source(&self) -> (i: InputSource)
        ensures
            i == self@.input,
    {
        self.input
    }

    /// Choose the one input that feeds this graph run: the first choice
    /// holds, and any later one is refused.
    pub fn select_input_source(&mut self, source: InputSource) -> (r: Result<(), InputError>)
        ensures
            (final(self)@, r) == spec_select(old(self)@, source),
    {
        match self.input {
            InputSource::NotChosen => {
                self.input = source;
                Ok(())
            },
            _ => Err(InputError::AlreadySelected),
        }
    }

    /// Forget the chosen input, when setting it up failed.
    pub fn clear_input_source(&mut self)
        ensures
            final(self)@ == (MainModel { input: InputSource::NotChosen, ..old(self)@ }),
    {
        self.input = InputSource::NotChosen;
    }

    /// Forget every read position, when a new file is chosen.
    pub fn reset_file_stream_state(&mut self)
        ensures
            final(self)@ == (MainModel { file_pos: Seq::empty(), ..old(self)@ }),
    {
        self.file_pos.clear();
        assert(self@.file_pos =~= Seq::<(Seq<char>, u64)>::empty());
    }

    /// Keep a request that came before any input was chosen.
    pub fn store_pending_file_request(&mut self, stream: String, amount: usize)
        ensures
            final(self)@ == (MainModel {
                pending: old(self)@.pending.push((stream@, amount)),
                ..old(self)@
            }),
    {
        let ghost s = stream@;
        self.pending.push((stream, amount));
        assert(self@.pending =~= old(self)@.pending.push((s, amount)));
    }

    /// Hand over the waiting requests, oldest first, and forget them.
    pub fn take_pending_file_requests(&mut self) -> (rs: Vec<(String, usize)>)
        ensures
            request_models(rs@) == old(self)@.pending,
            final(self)@ == (MainModel { pending: Seq::empty(), ..old(self)@ }),
    {
        let mut rs: Vec<(String, usize)> = Vec::new();
        std::mem::swap(&mut rs, &mut self.pending);
        assert(self@.pending =~= Seq::<(Seq<char>, usize)>::empty());
        rs
    }

    /// The user chose a file: it becomes the input, every read position
    /// starts over, and the requests that waited for an input are handed
    /// back, oldest first, to be served from the file. Refused, with nothing
    /// changed, when an input was chosen before.
    pub fn choose_file(&mut self) -> (r: Result<Vec<(String, usize)>, InputError>)
        ensures
            old(self)@.input == InputSource::NotChosen ==> (r matches Ok(rs) && request_models(rs@)
                == old(self)@.pending && final(self)@ == (MainModel {
                input: InputSource::File,
                file_pos: Seq::empty(),
                pending: Seq::empty(),
            })),
            old(self)@.input != InputSource::NotChosen ==> r == Err::<Vec<(String, usize)>, _>(
                InputError::AlreadySelected,
            ) && final(self)@ == old(self)@,
    {
        match self.select_input_source(InputSource::File) {
            Err(e) => Err(e),
            Ok(()) => {
                self.reset_file_stream_state();
                Ok(self.take_pending_file_requests())
            },
        }
    }

    /// Route a pull request from the worker by the chosen input: a file
    /// serves it, no input yet keeps it for later, and a pushing input drops
    /// it.
    pub fn handle_request_data(&mut self, stream: String, amount: usize) -> (r: RequestRoute)
        ensures
            old(self)@.input == InputSource::File ==> r == RequestRoute::Serve && final(self)@
                == old(self)@,
            old(self)@.input == InputSource::NotChosen ==> r == RequestRoute::Queued && final(self)@
                == (MainModel { pending: old(self)@.pending.push((stream@, amount)), ..old(self)@ }),
            (old(self)@.input == InputSource::WebSocket || old(self)@.input == InputSource::RtlSdr)
                ==> r == RequestRoute::Ignored && final(self)@ == old(self)@,
    {
        match self.input {
            InputSource::File => RequestRoute::Serve,
            InputSource::NotChosen => {
                self.store_pending_file_request(stream, amount);
                RequestRoute::Queued
            },
            InputSource::WebSocket => RequestRoute::Ignored,
            InputSource::RtlSdr => RequestRoute::Ignored,
        }
    }

    fn find_position(&self, stream: &String) -> (i: usize)
        ensures
            i == pos_index(self@.file_pos, stream@),
            i <= self.file_pos@.len(),
    {
        let ghost ps = self@.file_pos;
        let mut i: usize = 0;
        while i < self.file_pos.len()
            invariant
                i <= self.file_pos@.len(),
                ps == self@.file_pos,
                forall|j: int| 0 <= j < i ==> ps[j].0 != stream@,
            decreases self.file_pos@.len() - i,
        {
            if self.file_pos[i].0 == *stream {
                proof {
                    lemma_pos_index(ps, stream@, i as int);
                }
                return i;
            }
            i = i + 1;
        }
        proof {
            lemma_pos_index(ps, stream@, i as int);
        }
        i
    }

    /// The read position of `stream` in the file.
    pub fn file_position(&self, stream: &String) -> (p: u64)
        ensures
            p == position_of(self@.file_pos, stream@),
    {
        let i = self.find_position(stream);
        if i < self.file_pos.len() {
            self.file_pos[i].1
        } else {
            0
        }
    }

    /// The file range that answers a request for `amount` bytes of `stream`:
    /// from its read position, ending no later than the end of the `u64`
    /// range; a zero-length request is refused.
    pub fn file_request(&self, stream: &String, amount: usize) -> (r: Result<FileRead, InputError>)
        ensures
            amount == 0 ==> r == Err::<FileRead, _>(InputError::ZeroLengthRequest),
            amount > 0 ==> r == Ok::<_, InputError>(
                FileRead {
                    offset: position_of(self@.file_pos, stream@),
                    end: if position_of(self@.file_pos, stream@) + amount <= u64::MAX {
                        (position_of(self@.file_pos, stream@) + amount) as u64
                    } else {
                        u64::MAX
                    },
                },
            ),
    {
        if amount == 0 {
            return Err(InputError::ZeroLengthRequest);
        }
        let pos = self.file_position(stream);
        let size = amount as u64;
        Ok(FileRead { offset: pos, end: pos.saturating_add(size) })
    }

    /// Record that `len` bytes of `stream` were sent from `pos`: the next
    /// request starts where they ended.
    pub fn file_chunk_sent(&mut self, stream: String, pos: u64, len: u64)
        ensures
            final(self)@ == (MainModel {
                file_pos: with_position(
                    old(self)@.file_pos,
                    stream@,
                    if pos + len <= u64::MAX {
                        (pos + len) as u64
                    } else {
                        u64::MAX
                    },
                ),
                ..old(self)@
            }),
    {
        let next = pos.saturating_add(len);
        let i = self.find_position(&stream);
        let ghost ps = self@.file_pos;
        let ghost name = stream@;
        proof {
            lemma_pos_index_bounds(ps, name);
        }
        if i < self.file_pos.len() {
            self.file_pos.set(i, (stream, next));
            assert(self@.file_pos =~= ps.update(i as int, (name, next)));
        } else {
            self.file_pos.push((stream, next));
            assert(self@.file_pos =~= ps.push((name, next)));
        }
    }
}

/// Why an RTL-SDR tuning request was refused.
#[derive(PartialEq, Eq, Structural)]
pub enum TuningError {
    /// The offset is above the frequency.
    FrequencyBelowOffset,
    /// The offset is too close to the edge of the band; `limit` is the
    /// largest offset allowed.
    OffsetOutOfBand { limit: u32 },
}

/// The center frequency to tune to for a wanted `freq` and a tuning
/// `offset`: the difference, which must not be negative, and the offset must
/// lie within half the sample rate less the guard margin.
pub fn rtlsdr_tuning(freq: i32, offset: i32, sample_rate: u32) -> (r: Result<u32, TuningError>)
    requires
        i32::MIN <= freq - offset <= i32::MAX,
        sample_rate / 2 >= OFFSET_GUARD_HZ,
    ensures
        freq - offset < 0 ==> r == Err::<u32, _>(TuningError::FrequencyBelowOffset),
        freq - offset >= 0 && abs(offset as int) > sample_rate / 2 - OFFSET_GUARD_HZ ==> r
            == Err::<u32, _>(
            TuningError::OffsetOutOfBand { limit: (sample_rate / 2 - OFFSET_GUARD_HZ) as u32 },
        ),
        freq - offset >= 0 && abs(offset as int) <= sample_rate / 2 - OFFSET_GUARD_HZ ==> r
            == Ok::<_, TuningError>((freq - offset) as u32),
{
    let diff = freq - offset;
    if diff < 0 {
        return Err(TuningError::FrequencyBelowOffset);
    }
    let center = diff as u32;
    let limit = sample_rate / 2 - OFFSET_GUARD_HZ;
    let offset_abs: u32 = if offset < 0 {
        (0i64 - offset as i64) as u32
    } else {
        offset as u32
    };
    if offset_abs > limit {
        return Err(TuningError::OffsetOutOfBand { limit });
    }
    Ok(center)
}

/// The absolute value of `x`.
pub open spec fn abs(x: int) -> int {
    if x < 0 {
        -x
    } else {
        x
    }
}

/// The tuner gain to set.
#[derive(PartialEq, Eq, Structural)]
pub enum GainMode {
    Auto,
    ManualTenthsDb(i32),
}

/// A manual gain outside the tuner's range.
#[derive(PartialEq, Eq, Structural)]
pub enum GainError {
    OutOfRange,
}

/// The manual gain mode for `tenths` tenths of a dB, within the tuner's
/// range.
pub fn manual_gain(tenths: i32) -> (r: Result<GainMode, GainError>)
    ensures
        RTLSDR_MIN_GAIN_TENTHS_DB <= tenths <= RTLSDR_MAX_GAIN_TENTHS_DB ==> r == Ok::<
            _,
            GainError,
        >(GainMode::ManualTenthsDb(tenths)),
        !(RTLSDR_MIN_GAIN_TENTHS_DB <= tenths <= RTLSDR_MAX_GAIN_TENTHS_DB) ==> r == Err::<
            GainMode,
            _,
        >(GainError::OutOfRange),
{
    if RTLSDR_MIN_GAIN_TENTHS_DB <= tenths && tenths <= RTLSDR_MAX_GAIN_TENTHS_DB {
        Ok(GainMode::ManualTenthsDb(tenths))
    } else {
        Err(GainError::OutOfRange)
    }
}

/// Which gain controls are disabled.
#[derive(PartialEq, Eq, Structural)]
pub struct GainControls {
    pub auto_disabled: bool,
    pub gain_disabled: bool,
}

/// The disabled state of the gain controls: the Auto box follows whether the
/// controls are enabled, and the manual gain is off while Auto is off-limits
/// or ticked.
pub fn gain_controls(enabled: bool, auto_checked: bool) -> (c: GainControls)
    ensures
        c.auto_disabled == !enabled,
        c.gain_disabled == (!enabled || auto_checked),
{
    let auto_disabled = !enabled;
    GainControls { auto_disabled, gain_disabled: auto_disabled || auto_checked }
}

/// Where a named stream of floats from the worker goes.
#[derive(PartialEq, Eq, Structural)]
pub enum FloatRoute {
    /// The signal strength time sink.
    TimeSink,
    /// The spectrum and waterfall sinks.
    SpectrumAndWaterfall,
    /// The browser audio output.
    Audio,
    /// No sink has that name.
    Unknown,
}

/// The route of the float stream called `name`.
pub fn route_floats(name: &str) -> (r: FloatRoute)
    ensures
        name@ == "iq_mag"@ ==> r == FloatRoute::TimeSink,
        name@ == "iq_spectrum"@ ==> r == FloatRoute::SpectrumAndWaterfall,
        name@ == "audio_demod"@ ==> r == FloatRoute::Audio,
        name@ != "iq_mag"@ && name@ != "iq_spectrum"@ && name@ != "audio_demod"@ ==> r
            == FloatRoute::Unknown,
{
    proof {
        reveal_strlit("iq_mag");
        reveal_strlit("iq_spectrum");
        reveal_strlit("audio_demod");
        assert("iq_spectrum"@[3] != "iq_mag"@[3]);
        assert("audio_demod"@[0] != "iq_mag"@[0]);
        assert("audio_demod"@[0] != "iq_spectrum"@[0]);
    }
    let n = String::from_str(name);
    if n == String::from_str("iq_mag") {
        FloatRoute::TimeSink
    } else if n == String::from_str("iq_spectrum") {
        FloatRoute::SpectrumAndWaterfall
    } else if n == String::from_str("audio_demod") {
        FloatRoute::Audio
    } else {
        FloatRoute::Unknown
    }
}

/// The page and the code it loaded must come from the same commit: `None`
/// when the versions match, and otherwise the message shown to the user.
pub fn version_mismatch(html_version: &str, wasm_version: &str) -> (r: Option<String>)
    ensures
        html_version@ == wasm_version@ ==> r is None,
        html_version@ != wasm_version@ ==> (r matches Some(m) && m@
            == "Git version mismatch. HTML is "@ + html_version@ + ", Wasm is "@ + wasm_version@
            + ". You may need to clear your caches."@),
{
    if String::from_str(html_version) == String::from_str(wasm_version) {
        return None;
    }
    let mut m = String::new();
    push_str(&mut m, "Git version mismatch. HTML is ");
    push_str(&mut m, html_version);
    push_str(&mut m, ", Wasm is ");
    push_str(&mut m, wasm_version);
    push_str(&mut m, ". You may need to clear your caches.");
    Some(m)
}

/// The state and answer after choosing `source`.
pub open spec fn spec_select(s: MainModel, source: InputSource) -> (MainModel, Result<(), InputError>) {
    if s.input == InputSource::NotChosen {
        (MainModel { input: source, ..s }, Ok(()))
    } else {
        (s, Err(InputError::AlreadySelected))
    }
}

/// One input feeds a run: once an input is chosen, a second choice is
/// refused and the first stays.
pub proof fn lemma_single_input(s: MainModel, a: InputSource, b: InputSource)
    requires
        a != InputSource::NotChosen,
    ensures
        ({
            let s1 = spec_select(s, a).0;
            spec_select(s1, b) == (s1, Err::<(), InputError>(InputError::AlreadySelected))
        }),
{
}

} // verus!

//! The sample history behind the UI's plots: named series that keep only
//! their newest samples and count how many older ones were dropped, and a
//! short history of spectrum frames.
use vstd::prelude::*;

verus! {

/// Samples kept per series of the time plot.
pub const MAX_GRAPH_POINTS: usize = 500_000;

/// Points kept per series of the constellation plot.
pub const MAX_CONSTELLATION_POINTS: usize = 5_000;

/// Spectrum frames kept for the waterfall.
pub const MAX_WATERFALL_FRAMES: usize = 40;

/// The samples that arrived under one name in one message.
pub struct NamedSamples<T> {
    pub name: String,
    pub samples: Vec<T>,
}

/// One named series: its newest samples, at most `cap`, and the index in the
/// whole stream of the first one kept.
pub struct Series<T> {
    name: String,
    start_index: u64,
    samples: Vec<T>,
    cap: usize,
}

pub struct SeriesModel<T> {
    pub name: Seq<char>,
    pub start_index: u64,
    pub samples: Seq<T>,
    pub cap: usize,
}

impl<T> View for Series<T> {
    type V = SeriesModel<T>;

    closed spec fn view(&self) -> SeriesModel<T> {
        SeriesModel {
            name: self.name@,
            start_index: self.start_index,
            samples: self.samples@,
            cap: self.cap,
        }
    }
}

/// `a + b`, or `u64::MAX` when that does not fit.
pub open spec fn saturating_add(a: u64, b: int) -> u64 {
    if a + b <= u64::MAX {
        (a + b) as u64
    } else {
        u64::MAX
    }
}

/// The series after `new` samples arrived: the oldest are dropped to keep at
/// most `cap`, and the start index moves past them.
pub open spec fn appended<T>(s: SeriesModel<T>, new: Seq<T>) -> SeriesModel<T> {
    let all = s.samples + new;
    let drop = if all.len() > s.cap {
        all.len() - s.cap
    } else {
        0
    };
    SeriesModel {
        samples: all.skip(drop),
        start_index: saturating_add(s.start_index, drop),
        ..s
    }
}

impl<T: Copy> Series<T> {
    /// An empty series called `name` that keeps up to `cap` samples.
    pub fn new(name: String, cap: usize) -> (s: Self)
        ensures
            s@ == (SeriesModel { name: name@, start_index: 0, samples: Seq::<T>::empty(), cap }),
    {
        let s = Series { name, start_index: 0, samples: Vec::new(), cap };
        assert(s.samples@ =~= Seq::<T>::empty());
        s
    }

    /// The series' name.
    pub fn name(&self) -> (n: &String)
        ensures
            n@ == self@.name,
    {
        &self.name
    }

    /// The stream index of the first sample kept.
    pub fn start_index(&self) -> (i: u64)
        ensures
            i == self@.start_index,
    {
        self.start_index
    }

    /// The samples kept, oldest first.
    pub fn samples(&self) -> (s: &Vec<T>)
        ensures
            s@ == self@.samples,
    {
        &self.samples
    }

    /// Append `new` samples, dropping the oldest beyond the cap.
    pub fn append_samples(&mut self, new: &[T])
        ensures
            final(self)@ == appended(old(self)@, new@),
    {
        let mut i: usize = 0;
        let ghost start = self.samples@;
        while i < new.len()
            invariant
                i <= new@.len(),
                self.samples@ == start + new@.subrange(0, i as int),
                self.name == old(self).name,
                self.start_index == old(self).start_index,
                self.cap == old(self).cap,
            decreases new@.len() - i,
        {
            self.samples.push(new[i]);
            assert(new@.subrange(0, i + 1) =~= new@.subrange(0, i as int).push(new@[i as int]));
            i = i + 1;
        }
        assert(new@.subrange(0, new@.len() as int) =~= new@);
        if self.samples.len() > self.cap {
            let drop = self.samples.len() - self.cap;
            let ghost all = self.samples@;
            let mut kept = self.samples.split_off(drop);
            std::mem::swap(&mut self.samples, &mut kept);
            assert(self.samples@ =~= all.skip(drop as int));
            let by: u64 = drop as u64;
            self.start_index = self.start_index.saturating_add(by);
        } else {
            assert(self.samples@.skip(0) =~= self.samples@);
        }
    }
}

/// Index of the first series called `name`, or `ss.len()`.
pub open spec fn series_index<T>(ss: Seq<SeriesModel<T>>, name: Seq<char>) -> int
    decreases ss.len(),
{
    if ss.len() == 0 {
        0
    } else if ss[0].name == name {
        0
    } else {
        1 + series_index(ss.drop_first(), name)
    }
}

pub proof fn lemma_series_index<T>(ss: Seq<SeriesModel<T>>, name: Seq<char>, k: int)
    requires
        0 <= k <= ss.len(),
        k < ss.len() ==> ss[k].name == name,
        forall|j: int| 0 <= j < k ==> ss[j].name != name,
    ensures
        series_index(ss, name) == k,
    decreases ss.len(),
{
    if ss.len() > 0 && ss[0].name != name {
        lemma_series_index(ss.drop_first(), name, k - 1);
    }
}

/// The series after `new` samples arrived under `name`: they join the series
/// of that name, or a new one added at the end with capacity `cap`.
pub open spec fn add_to_series<T>(ss: Seq<SeriesModel<T>>, name: Seq<char>, new: Seq<T>, cap: usize) -> Seq<
    SeriesModel<T>,
> {
    let i = series_index(ss, name);
    if i < ss.len() {
        ss.update(i, appended(ss[i], new))
    } else {
        ss.push(
            appended(SeriesModel { name, start_index: 0, samples: Seq::empty(), cap }, new),
        )
    }
}

/// The series after every message of `streams`, in order.
pub open spec fn add_streams<T>(ss: Seq<SeriesModel<T>>, streams: Seq<(Seq<char>, Seq<T>)>, cap: usize) -> Seq<
    SeriesModel<T>,
>
    decreases streams.len(),
{
    if streams.len() == 0 {
        ss
    } else {
        add_streams(
            add_to_series(ss, streams[0].0, streams[0].1, cap),
            streams.drop_first(),
            cap,
        )
    }
}

/// Every series has cap `cap` and holds at most `cap` samples.
pub open spec fn series_capped<T>(ss: Seq<SeriesModel<T>>, cap: usize) -> bool {
    forall|i: int| 0 <= i < ss.len() ==> #[trigger] ss[i].cap == cap && ss[i].samples.len() <= cap
}

/// The samples held under `name` in `ss`, or none.
pub open spec fn samples_of<T>(ss: Seq<SeriesModel<T>>, name: Seq<char>) -> Seq<T> {
    if series_index(ss, name) < ss.len() {
        ss[series_index(ss, name)].samples
    } else {
        Seq::empty()
    }
}

/// The models of a list of named sample runs.
pub open spec fn named_models<T>(ns: Seq<NamedSamples<T>>) -> Seq<(Seq<char>, Seq<T>)> {
    ns.map_values(|n: NamedSamples<T>| (n.name@, n.samples@))
}

/// The named series of one plot, in the order their names first arrived;
/// every series keeps up to `cap` samples.
pub struct SeriesSet<T> {
    series: Vec<Series<T>>,
    cap: usize,
}

impl<T> View for SeriesSet<T> {
    type V = Seq<SeriesModel<T>>;

    closed spec fn view(&self) -> Seq<SeriesModel<T>> {
        self.series@.map_values(|s: Series<T>| s@)
    }
}

impl<T: Copy> SeriesSet<T> {
    /// How many samples each series keeps.
    pub closed spec fn cap(&self) -> usize {
        self.cap
    }

    /// No series yet; each will keep up to `cap` samples.
    pub fn new(cap: usize) -> (s: Self)
        ensures
            s@ == Seq::<SeriesModel<T>>::empty(),
            s.cap() == cap,
            series_capped(s@, s.cap()),
    {
        let s = SeriesSet { series: Vec::new(), cap };
        assert(s@ =~= Seq::<SeriesModel<T>>::empty());
        s
    }

    /// The series, in the order their names first arrived.
    pub fn series(&self) -> (s: &Vec<Series<T>>)
        ensures
            s@.map_values(|x: Series<T>| x@) == self@,
    {
        &self.series
    }

    fn find(&self, name: &String) -> (i: usize)
        ensures
            i == series_index(self@, name@),
            i <= self.series@.len(),
    {
        let ghost ss = self@;
        let mut i: usize = 0;
        while i < self.series.len()
            invariant
                i <= self.series@.len(),
                ss == self@,
                forall|j: int| 0 <= j < i ==> ss[j].name != name@,
            decreases self.series@.len() - i,
        {
            if self.series[i].name == *name {
                proof {
                    lemma_series_index(ss, name@, i as int);
                }
                return i;
            }
            i = i + 1;
        }
        proof {
            lemma_series_index(ss, name@, i as int);
        }
        i
    }

    /// Add `samples` that arrived under `name`.
    pub fn append_stream(&mut self, name: &String, samples: &[T])
        ensures
            final(self)@ == add_to_series(old(self)@, name@, samples@, old(self).cap()),
            final(self).cap() == old(self).cap(),
            series_capped(old(self)@, old(self).cap()) ==> series_capped(final(self)@, final(self).cap()),
    {
        proof {
            if series_capped(self@, self.cap) {
                lemma_add_to_series(self@, name@, samples@, self.cap);
            }
        }
        let i = self.find(name);
        let ghost ss = self@;
        if i < self.series.len() {
            let mut s = self.series.remove(i);
            s.append_samples(samples);
            let ghost sm = s@;
            self.series.insert(i, s);
            assert(self@ =~= ss.update(i as int, sm));
        } else {
            let mut s = Series::new(name.clone(), self.cap);
            s.append_samples(samples);
            self.series.push(s);
            assert(self@ =~= add_to_series(ss, name@, samples@, self.cap));
        }
    }

    /// Add every message of `streams`, in order.
    pub fn append_streams(&mut self, streams: &[NamedSamples<T>])
        ensures
            final(self)@ == add_streams(old(self)@, named_models(streams@), old(self).cap()),
            final(self).cap() == old(self).cap(),
            series_capped(old(self)@, old(self).cap()) ==> series_capped(final(self)@, final(self).cap()),
    {
        proof {
            if series_capped(self@, self.cap) {
                lemma_add_streams_capped(self@, named_models(streams@), self.cap);
            }
        }
        let mut i: usize = 0;
        assert(named_models(streams@).skip(0) =~= named_models(streams@));
        while i < streams.len()
            invariant
                i <= streams@.len(),
                self.cap() == old(self).cap(),
                add_streams(old(self)@, named_models(streams@), self.cap()) == add_streams(
                    self@,
                    named_models(streams@).skip(i as int),
                    self.cap(),
                ),
            decreases streams@.len() - i,
        {
            let ghost rest = named_models(streams@).skip(i as int);
            self.append_stream(&streams[i].name, streams[i].samples.as_slice());
            proof {
                assert(rest[0] == (streams@[i as int].name@, streams@[i as int].samples@));
                assert(rest.drop_first() =~= named_models(streams@).skip(i + 1));
            }
            i = i + 1;
        }
        proof {
            assert(named_models(streams@).skip(streams@.len() as int) =~= Seq::<
                (Seq<char>, Seq<T>),
            >::empty());
        }
    }
}

/// A series holds samples and its last one has a stream index that fits.
pub open spec fn indexable<T>(s: SeriesModel<T>) -> bool {
    s.samples.len() > 0 ==> s.start_index + s.samples.len() - 1 <= u64::MAX
}

/// The first and last stream index held by some series: the least first
/// index and the greatest last index over the series that hold samples, or
/// none when no series holds any.
pub open spec fn spec_index_range<T>(ss: Seq<SeriesModel<T>>) -> Option<(u64, u64)>
    decreases ss.len(),
{
    if ss.len() == 0 {
        None
    } else {
        let s = ss.last();
        let rest = spec_index_range(ss.drop_last());
        if s.samples.len() == 0 {
            rest
        } else {
            let lo = s.start_index;
            let hi = (s.start_index + s.samples.len() - 1) as u64;
            match rest {
                None => Some((lo, hi)),
                Some((a, b)) => Some((if a < lo { a } else { lo }, if b > hi { b } else { hi })),
            }
        }
    }
}

impl<T: Copy> SeriesSet<T> {
    /// The range of stream indices on the time axis.
    pub fn index_range(&self) -> (r: Option<(u64, u64)>)
        requires
            forall|i: int| 0 <= i < self@.len() ==> indexable(#[trigger] self@[i]),
        ensures
            r == spec_index_range(self@),
    {
        let mut lo: Option<(u64, u64)> = None;
        let mut i: usize = 0;
        while i < self.series.len()
            invariant
                i <= self.series@.len(),
                forall|k: int| 0 <= k < self@.len() ==> indexable(#[trigger] self@[k]),
                lo == spec_index_range(self@.subrange(0, i as int)),
            decreases self.series@.len() - i,
        {
            let s = &self.series[i];
            let ghost sub = self@.subrange(0, i + 1);
            proof {
                assert(sub.drop_last() =~= self@.subrange(0, i as int));
                assert(sub.last() == self@[i as int]);
                assert(indexable(self@[i as int]));
            }
            let len = s.samples.len();
            if len > 0 {
                let first = s.start_index;
                let last = first + (len as u64 - 1);
                lo = match lo {
                    None => Some((first, last)),
                    Some((a, b)) => Some((if a < first { a } else { first }, if b > last { b } else { last })),
                };
            }
            i = i + 1;
        }
        assert(self@.subrange(0, self@.len() as int) =~= self@);
        lo
    }
}

/// The frames behind the spectrum and waterfall plots: the newest frames
/// that held samples, at most `MAX_WATERFALL_FRAMES`, and the last frame
/// received.
pub struct FrameHistory<T> {
    history: Vec<Vec<T>>,
    latest: Option<Vec<T>>,
}

pub struct FrameHistoryModel<T> {
    pub history: Seq<Seq<T>>,
    pub latest: Option<Seq<T>>,
}

impl<T> View for FrameHistory<T> {
    type V = FrameHistoryModel<T>;

    closed spec fn view(&self) -> FrameHistoryModel<T> {
        FrameHistoryModel {
            history: self.history@.map_values(|f: Vec<T>| f@),
            latest: match self.latest {
                Some(f) => Some(f@),
                None => None,
            },
        }
    }
}

/// The history after one more frame: a frame with samples joins the history,
/// which keeps its newest `MAX_WATERFALL_FRAMES`; every frame becomes the
/// latest.
pub open spec fn with_frame<T>(h: FrameHistoryModel<T>, f: Seq<T>) -> FrameHistoryModel<T> {
    let history = if f.len() == 0 {
        h.history
    } else {
        let all = h.history.push(f);
        if all.len() > MAX_WATERFALL_FRAMES {
            all.skip(all.len() - MAX_WATERFALL_FRAMES)
        } else {
            all
        }
    };
    FrameHistoryModel { history, latest: Some(f) }
}

/// The history after every frame of `fs`, in order.
pub open spec fn with_frames<T>(h: FrameHistoryModel<T>, fs: Seq<Seq<T>>) -> FrameHistoryModel<T>
    decreases fs.len(),
{
    if fs.len() == 0 {
        h
    } else {
        with_frames(with_frame(h, fs[0]), fs.drop_first())
    }
}

/// The models of a list of frames.
pub open spec fn frame_models<T>(fs: Seq<Vec<T>>) -> Seq<Seq<T>> {
    fs.map_values(|f: Vec<T>| f@)
}

/// A copy of `v`.
fn copy_of<T: Copy>(v: &Vec<T>) -> (c: Vec<T>)
    ensures
        c@ == v@,
{
    let mut c: Vec<T> = Vec::new();
    let mut i: usize = 0;
    while i < v.len()
        invariant
            i <= v@.len(),
            c@ == v@.subrange(0, i as int),
        decreases v@.len() - i,
    {
        c.push(v[i]);
        assert(v@.subrange(0, i + 1) =~= v@.subrange(0, i as int).push(v@[i as int]));
        i = i + 1;
    }
    assert(v@.subrange(0, v@.len() as int) =~= v@);
    c
}

impl<T: Copy> FrameHistory<T> {
    /// No frames yet.
    pub fn new() -> (h: Self)
        ensures
            h@ == (FrameHistoryModel::<T> { history: Seq::empty(), latest: None }),
    {
        let h = FrameHistory { history: Vec::new(), latest: None };
        assert(h@.history =~= Seq::<Seq<T>>::empty());
        h
    }

    /// The frames kept for the waterfall, oldest first.
    pub fn history(&self) -> (h: &Vec<Vec<T>>)
        ensures
            frame_models(h@) == self@.history,
    {
        &self.history
    }

    /// The last frame received, if any.
    pub fn latest(&self) -> (l: &Option<Vec<T>>)
        ensures
            match *l {
                Some(f) => self@.latest == Some(f@),
                None => self@.latest is None,
            },
    {
        &self.latest
    }

    /// Take in one frame.
    pub fn push_frame(&mut self, frame: Vec<T>)
        ensures
            final(self)@ == with_frame(old(self)@, frame@),
    {
        if frame.len() > 0 {
            let ghost old_h = self@.history;
            let copy = copy_of(&frame);
            self.history.push(copy);
            assert(self@.history =~= old_h.push(frame@));
            if self.history.len() > MAX_WATERFALL_FRAMES {
                let drop = self.history.len() - MAX_WATERFALL_FRAMES;
                let ghost all = self@.history;
                let mut kept = self.history.split_off(drop);
                std::mem::swap(&mut self.history, &mut kept);
                assert(self@.history =~= all.skip(drop as int));
            }
        }
        self.latest = Some(frame);
    }

    /// Take in frames, in order.
    pub fn push_frames(&mut self, frames: Vec<Vec<T>>)
        ensures
            final(self)@ == with_frames(old(self)@, frame_models(frames@)),
    {
        let ghost all = frame_models(frames@);
        let mut rest = frames;
        while rest.len() > 0
            invariant
                with_frames(old(self)@, all) == with_frames(self@, frame_models(rest@)),
            decreases rest@.len(),
        {
            let ghost before = frame_models(rest@);
            let f = rest.remove(0);
            proof {
                assert(before[0] == f@);
                assert(before.drop_first() =~= frame_models(rest@));
            }
            self.push_frame(f);
        }
    }
}

/// A series keeps the newest samples, never more than its cap, and its
/// start index counts every sample it dropped (until the count saturates).
pub proof fn lemma_series_keeps_newest<T>(s: SeriesModel<T>, new: Seq<T>)
    requires
        s.samples.len() <= s.cap,
    ensures
        appended(s, new).samples.len() <= s.cap,
        appended(s, new).samples.len() == if s.samples.len() + new.len() <= s.cap {
            (s.samples.len() + new.len()) as int
        } else {
            s.cap as int
        },
        (s.samples + new).subrange(
            s.samples.len() + new.len() - appended(s, new).samples.len(),
            (s.samples.len() + new.len()) as int,
        ) == appended(s, new).samples,
        s.start_index + s.samples.len() + new.len() <= u64::MAX ==> appended(s, new).start_index
            + appended(s, new).samples.len() == s.start_index + s.samples.len() + new.len(),
{
    let all = s.samples + new;
    let n = appended(s, new).samples.len();
    assert(all.subrange(all.len() - n, all.len() as int) =~= appended(s, new).samples);
}

/// Samples appended in two batches leave the series as one batch of both
/// would.
pub proof fn lemma_append_batches<T>(s: SeriesModel<T>, a: Seq<T>, b: Seq<T>)
    ensures
        appended(appended(s, a), b) == appended(s, a + b),
{
    let x = s.samples + a;
    let d1: int = if x.len() > s.cap {
        x.len() - s.cap
    } else {
        0
    };
    let y = x.skip(d1) + b;
    let d2: int = if y.len() > s.cap {
        y.len() - s.cap
    } else {
        0
    };
    let z = s.samples + (a + b);
    let d: int = if z.len() > s.cap {
        z.len() - s.cap
    } else {
        0
    };
    assert(d == d1 + d2);
    assert(z =~= x + b);
    assert(y.skip(d2) =~= z.skip(d));
}

/// The waterfall history keeps at most `MAX_WATERFALL_FRAMES` frames, the
/// newest last; a frame without samples leaves it as it was; every frame
/// becomes the latest.
pub proof fn lemma_frame_history<T>(h: FrameHistoryModel<T>, f: Seq<T>)
    requires
        h.history.len() <= MAX_WATERFALL_FRAMES,
    ensures
        with_frame(h, f).history.len() <= MAX_WATERFALL_FRAMES,
        with_frame(h, f).latest == Some(f),
        f.len() == 0 ==> with_frame(h, f).history == h.history,
        f.len() > 0 ==> with_frame(h, f).history.last() == f,
{
}

/// The Y scale of the time plot: the range shown, whether it follows the
/// data, and whether the range inputs on the page are to be refreshed.
pub struct PlotScale<T> {
    y_min: T,
    y_max: T,
    auto_scale: bool,
    sync_inputs: bool,
}

pub struct PlotScaleModel<T> {
    pub y_min: T,
    pub y_max: T,
    pub auto_scale: bool,
    pub sync_inputs: bool,
}

impl<T> View for PlotScale<T> {
    type V = PlotScaleModel<T>;

    closed spec fn view(&self) -> PlotScaleModel<T> {
        PlotScaleModel {
            y_min: self.y_min,
            y_max: self.y_max,
            auto_scale: self.auto_scale,
            sync_inputs: self.sync_inputs,
        }
    }
}

/// What a redraw does to the scale: following the data, the range becomes
/// the data's range when there is data, and the inputs are refreshed; the
/// inputs are refreshed at most once per request.
pub open spec fn scale_after_draw<T>(s: PlotScaleModel<T>, data: Option<(T, T)>) -> (
    PlotScaleModel<T>,
    Option<(T, T)>,
) {
    let (lo, hi) = if s.auto_scale {
        match data {
            Some((a, b)) => (a, b),
            None => (s.y_min, s.y_max),
        }
    } else {
        (s.y_min, s.y_max)
    };
    let sync = s.auto_scale || s.sync_inputs;
    (
        PlotScaleModel { y_min: lo, y_max: hi, auto_scale: s.auto_scale, sync_inputs: false },
        if sync {
            Some((lo, hi))
        } else {
            None
        },
    )
}

impl<T: Copy> PlotScale<T> {
    /// A scale showing `[y_min, y_max]` that follows the data and refreshes
    /// the inputs at the first redraw.
    pub fn new(y_min: T, y_max: T) -> (s: Self)
        ensures
            s@ == (PlotScaleModel { y_min, y_max, auto_scale: true, sync_inputs: true }),
    {
        PlotScale { y_min, y_max, auto_scale: true, sync_inputs: true }
    }

    /// The range shown.
    pub fn y_range(&self) -> (r: (T, T))
        ensures
            r == (self@.y_min, self@.y_max),
    {
        (self.y_min, self.y_max)
    }

    /// Whether the range follows the data.
    pub fn auto_scale(&self) -> (b: bool)
        ensures
            b == self@.auto_scale,
    {
        self.auto_scale
    }

    /// The user typed a range: it is shown as typed, no longer follows the
    /// data, and the inputs stay as they are.
    pub fn set_manual(&mut self, y_min: T, y_max: T)
        ensures
            final(self)@ == (PlotScaleModel { y_min, y_max, auto_scale: false, sync_inputs: false }),
    {
        self.y_min = y_min;
        self.y_max = y_max;
        self.auto_scale = false;
        self.sync_inputs = false;
    }

    /// The user zoomed to a range: it is shown, no longer follows the data,
    /// and the inputs are refreshed.
    pub fn set_zoomed(&mut self, y_min: T, y_max: T)
        ensures
            final(self)@ == (PlotScaleModel { y_min, y_max, auto_scale: false, sync_inputs: true }),
    {
        self.y_min = y_min;
        self.y_max = y_max;
        self.auto_scale = false;
        self.sync_inputs = true;
    }

    /// The user asked the range to follow the data again.
    pub fn enable_auto(&mut self)
        ensures
            final(self)@ == (PlotScaleModel {
                auto_scale: true,
                sync_inputs: true,
                ..old(self)@
            }),
    {
        self.auto_scale = true;
        self.sync_inputs = true;
    }

    /// Ask for the inputs to be refreshed at the next redraw.
    pub fn request_sync(&mut self)
        ensures
            final(self)@ == (PlotScaleModel { sync_inputs: true, ..old(self)@ }),
    {
        self.sync_inputs = true;
    }

    /// Update the scale for a redraw, given the data's range if there is
    /// data; gives the range to write into the inputs when they are to be
    /// refreshed.
    pub fn prepare_draw(&mut self, data: Option<(T, T)>) -> (inputs: Option<(T, T)>)
        ensures
            (final(self)@, inputs) == scale_after_draw(old(self)@, data),
    {
        if self.auto_scale {
            if let Some((lo, hi)) = data {
                self.y_min = lo;
                self.y_max = hi;
            }
            self.sync_inputs = true;
        }
        if self.sync_inputs {
            self.sync_inputs = false;
            Some((self.y_min, self.y_max))
        } else {
            None
        }
    }
}

/// A redraw leaves no refresh pending, and a second redraw with nothing
/// new in between refreshes the inputs only while the range follows the
/// data.
pub proof fn lemma_sync_once<T>(s: PlotScaleModel<T>, d1: Option<(T, T)>, d2: Option<(T, T)>)
    ensures
        !scale_after_draw(s, d1).0.sync_inputs,
        scale_after_draw(scale_after_draw(s, d1).0, d2).1 is Some <==> s.auto_scale,
{
}

pub proof fn lemma_series_index_bounds<T>(ss: Seq<SeriesModel<T>>, name: Seq<char>)
    ensures
        0 <= series_index(ss, name) <= ss.len(),
        series_index(ss, name) < ss.len() ==> ss[series_index(ss, name)].name == name,
        forall|j: int| 0 <= j < series_index(ss, name) ==> ss[j].name != name,
    decreases ss.len(),
{
    if ss.len() > 0 && ss[0].name != name {
        let t = ss.drop_first();
        lemma_series_index_bounds(t, name);
        assert forall|j: int| 0 <= j < series_index(ss, name) implies ss[j].name != name by {
            if j > 0 {
                assert(ss[j] == t[j - 1]);
            }
        }
    }
}

/// Samples that arrive under a name go to the series of that name (a new
/// one at the end when there is none): it then holds the newest of all the
/// samples that arrived under that name, at most the set's cap of them;
/// every series keeps the set's cap, and the other series do not change.
pub proof fn lemma_add_to_series<T>(ss: Seq<SeriesModel<T>>, name: Seq<char>, new: Seq<T>, cap: usize)
    requires
        series_capped(ss, cap),
    ensures
        ({
            let t = add_to_series(ss, name, new, cap);
            let all = samples_of(ss, name) + new;
            let kept = if all.len() <= cap {
                all.len() as int
            } else {
                cap as int
            };
            &&& series_capped(t, cap)
            &&& t.len() == ss.len() || t.len() == ss.len() + 1
            &&& exists|k: int|
                0 <= k < t.len() && #[trigger] t[k].name == name && t[k].samples == all.subrange(
                    all.len() - kept,
                    all.len() as int,
                ) && forall|j: int| 0 <= j < t.len() && j != k ==> #[trigger] t[j] == ss[j]
        }),
{
    lemma_series_index_bounds(ss, name);
    let i = series_index(ss, name);
    let t = add_to_series(ss, name, new, cap);
    let all = samples_of(ss, name) + new;
    if i < ss.len() {
        assert(ss[i].cap == cap && ss[i].samples.len() <= cap);
        lemma_series_keeps_newest(ss[i], new);
        assert(t[i] == appended(ss[i], new));
        assert forall|j: int| 0 <= j < t.len() && j != i implies #[trigger] t[j] == ss[j] by {}
        assert(t[i].name == name);
    } else {
        let e = SeriesModel { name, start_index: 0, samples: Seq::<T>::empty(), cap };
        lemma_series_keeps_newest(e, new);
        assert(e.samples + new =~= all);
        let k = ss.len() as int;
        assert(t[k] == appended(e, new));
        assert forall|j: int| 0 <= j < t.len() && j != k implies #[trigger] t[j] == ss[j] by {}
        assert(t[k].name == name);
    }
}

/// Every series of a set keeps at most the set's cap, whatever arrives.
pub proof fn lemma_add_streams_capped<T>(ss: Seq<SeriesModel<T>>, streams: Seq<(Seq<char>, Seq<T>)>, cap: usize)
    requires
        series_capped(ss, cap),
    ensures
        series_capped(add_streams(ss, streams, cap), cap),
    decreases streams.len(),
{
    if streams.len() > 0 {
        lemma_add_to_series(ss, streams[0].0, streams[0].1, cap);
        lemma_add_streams_capped(
            add_to_series(ss, streams[0].0, streams[0].1, cap),
            streams.drop_first(),
            cap,
        );
    }
}

} // verus!

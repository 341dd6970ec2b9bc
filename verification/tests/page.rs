use ruwasm::add;
use ruwasm::domlogger::{init_logging as dom_init, DomConsoleLogger, MAX_LOG_MESSAGES};
use ruwasm::logging::{console_method, format_line, level_enabled, worker_line, ConsoleMethod, Level, LevelFilter};
use ruwasm::mainthread::{
    gain_controls, manual_gain, route_floats, rtlsdr_tuning, version_mismatch, FileRead, FloatRoute, GainError,
    GainMode, InputError, InputSource, MainState, RequestRoute, TuningError,
};
use ruwasm::series::{
    FrameHistory, NamedSamples, PlotScale, Series, SeriesSet, MAX_CONSTELLATION_POINTS, MAX_WATERFALL_FRAMES,
};
use ruwasm::workerlogger::{init_logging as worker_init, WorkerLogger};

#[test]
fn add_correct() {
    assert_eq!(add(3, 5), "Add results: 8");
}

#[test]
fn add_negative_and_zero() {
    assert_eq!(add(-10, 3), "Add results: -7");
    assert_eq!(add(0, 0), "Add results: 0");
    assert_eq!(add(i32::MAX, 0), "Add results: 2147483647");
    assert_eq!(add(i32::MIN, 0), "Add results: -2147483648");
}

#[test]
fn one_input_feeds_the_run() {
    let mut s = MainState::new();
    assert!(matches!(s.input_source(), InputSource::NotChosen));
    assert!(s.select_input_source(InputSource::File).is_ok());
    assert!(matches!(
        s.select_input_source(InputSource::WebSocket),
        Err(InputError::AlreadySelected)
    ));
    assert!(matches!(s.input_source(), InputSource::File));
    s.clear_input_source();
    assert!(s.select_input_source(InputSource::RtlSdr).is_ok());
}

#[test]
fn requests_are_routed_by_input() {
    let mut s = MainState::new();
    assert!(matches!(
        s.handle_request_data("rtl-sdr".to_string(), 10),
        RequestRoute::Queued
    ));
    assert!(matches!(
        s.handle_request_data("rtl-sdr".to_string(), 20),
        RequestRoute::Queued
    ));
    assert_eq!(
        s.take_pending_file_requests(),
        vec![("rtl-sdr".to_string(), 10), ("rtl-sdr".to_string(), 20)]
    );
    assert!(s.take_pending_file_requests().is_empty());
    s.select_input_source(InputSource::File).ok();
    assert!(matches!(
        s.handle_request_data("rtl-sdr".to_string(), 10),
        RequestRoute::Serve
    ));
    let mut w = MainState::new();
    w.select_input_source(InputSource::WebSocket).ok();
    assert!(matches!(
        w.handle_request_data("rtl-sdr".to_string(), 10),
        RequestRoute::Ignored
    ));
    assert!(w.take_pending_file_requests().is_empty());
}

#[test]
fn file_positions_follow_sent_chunks() {
    let mut s = MainState::new();
    let a = "a".to_string();
    let b = "b".to_string();
    assert!(matches!(s.file_request(&a, 0), Err(InputError::ZeroLengthRequest)));
    assert!(matches!(
        s.file_request(&a, 100),
        Ok(FileRead { offset: 0, end: 100 })
    ));
    s.file_chunk_sent(a.clone(), 0, 100);
    assert_eq!(s.file_position(&a), 100);
    assert_eq!(s.file_position(&b), 0);
    s.file_chunk_sent(a.clone(), 100, 40);
    assert!(matches!(
        s.file_request(&a, 10),
        Ok(FileRead { offset: 140, end: 150 })
    ));
    s.file_chunk_sent(b.clone(), u64::MAX - 1, 5);
    assert_eq!(s.file_position(&b), u64::MAX);
    assert!(matches!(
        s.file_request(&b, 10),
        Ok(FileRead { offset: u64::MAX, end: u64::MAX })
    ));
    s.reset_file_stream_state();
    assert_eq!(s.file_position(&a), 0);
}

#[test]
fn rtlsdr_tuning_checks() {
    assert!(matches!(rtlsdr_tuning(144_750_000, 100_000, 1_024_000), Ok(144_650_000)));
    assert!(matches!(rtlsdr_tuning(144_750_000, -100_000, 1_024_000), Ok(144_850_000)));
    assert!(matches!(
        rtlsdr_tuning(10, 20, 1_024_000),
        Err(TuningError::FrequencyBelowOffset)
    ));
    assert!(matches!(
        rtlsdr_tuning(144_750_000, 487_001, 1_024_000),
        Err(TuningError::OffsetOutOfBand { limit: 487_000 })
    ));
    assert!(matches!(rtlsdr_tuning(144_750_000, -487_000, 1_024_000), Ok(145_237_000)));
    assert!(matches!(
        rtlsdr_tuning(100, -2_000_000_000, 1_024_000),
        Err(TuningError::OffsetOutOfBand { .. })
    ));
}

#[test]
fn manual_gain_range() {
    assert!(matches!(manual_gain(-100), Ok(GainMode::ManualTenthsDb(-100))));
    assert!(matches!(manual_gain(500), Ok(GainMode::ManualTenthsDb(500))));
    assert!(matches!(manual_gain(-101), Err(GainError::OutOfRange)));
    assert!(matches!(manual_gain(501), Err(GainError::OutOfRange)));
    let c = gain_controls(true, false);
    assert!(!c.auto_disabled && !c.gain_disabled);
    let c = gain_controls(true, true);
    assert!(!c.auto_disabled && c.gain_disabled);
    let c = gain_controls(false, false);
    assert!(c.auto_disabled && c.gain_disabled);
}

#[test]
fn float_streams_are_routed_by_name() {
    assert!(matches!(route_floats("iq_mag"), FloatRoute::TimeSink));
    assert!(matches!(route_floats("iq_spectrum"), FloatRoute::SpectrumAndWaterfall));
    assert!(matches!(route_floats("audio_demod"), FloatRoute::Audio));
    assert!(matches!(route_floats("iq_mag2"), FloatRoute::Unknown));
    assert!(matches!(route_floats(""), FloatRoute::Unknown));
}

#[test]
fn series_keep_newest_and_count_dropped() {
    let mut s: Series<f32> = Series::new("iq_mag".to_string(), 3);
    s.append_samples(&[1.0, 2.0]);
    assert_eq!(s.samples(), &vec![1.0, 2.0]);
    assert_eq!(s.start_index(), 0);
    s.append_samples(&[3.0, 4.0, 5.0]);
    assert_eq!(s.samples(), &vec![3.0, 4.0, 5.0]);
    assert_eq!(s.start_index(), 2);
    assert_eq!(s.name(), "iq_mag");
}

#[test]
fn series_set_groups_by_name() {
    let mut set: SeriesSet<i32> = SeriesSet::new(MAX_CONSTELLATION_POINTS);
    set.append_streams(&[
        NamedSamples { name: "a".to_string(), samples: vec![1, 2] },
        NamedSamples { name: "b".to_string(), samples: vec![] },
        NamedSamples { name: "a".to_string(), samples: vec![3] },
    ]);
    let series = set.series();
    assert_eq!(series.len(), 2);
    assert_eq!(series[0].name(), "a");
    assert_eq!(series[0].samples(), &vec![1, 2, 3]);
    assert_eq!(series[1].samples(), &Vec::<i32>::new());
    assert_eq!(set.index_range(), Some((0, 2)));

    let mut small: SeriesSet<i32> = SeriesSet::new(2);
    assert_eq!(small.index_range(), None);
    small.append_stream(&"x".to_string(), &[1, 2, 3, 4]);
    small.append_stream(&"y".to_string(), &[1]);
    assert_eq!(small.index_range(), Some((0, 3)));
}

#[test]
fn waterfall_history_is_capped() {
    let mut h: FrameHistory<f32> = FrameHistory::new();
    h.push_frames(vec![vec![1.0], vec![], vec![2.0]]);
    assert_eq!(h.history(), &vec![vec![1.0], vec![2.0]]);
    assert_eq!(h.latest(), &Some(vec![2.0]));
    h.push_frame(vec![]);
    assert_eq!(h.latest(), &Some(vec![]));
    assert_eq!(h.history().len(), 2);
    for i in 0..50 {
        h.push_frame(vec![i as f32]);
    }
    assert_eq!(h.history().len(), MAX_WATERFALL_FRAMES);
    assert_eq!(h.history()[0], vec![10.0]);
    assert_eq!(h.history()[MAX_WATERFALL_FRAMES - 1], vec![49.0]);
}

#[test]
fn log_levels_and_lines() {
    assert!(level_enabled(Level::Error, LevelFilter::Error));
    assert!(!level_enabled(Level::Warn, LevelFilter::Error));
    assert!(level_enabled(Level::Debug, LevelFilter::Debug));
    assert!(!level_enabled(Level::Trace, LevelFilter::Debug));
    assert!(!level_enabled(Level::Error, LevelFilter::Off));
    assert_eq!(format_line(Level::Warn, "disk low"), "[WARN] disk low");
    assert_eq!(format_line(Level::Trace, ""), "[TRACE] ");
}

#[test]
fn dom_logger_keeps_newest_lines() {
    let mut l = DomConsoleLogger::new();
    assert!(l.enabled(Level::Debug));
    assert!(!l.enabled(Level::Trace));
    assert_eq!(l.console_line(Level::Info, "hi"), Some("[INFO] hi".to_string()));
    assert_eq!(l.console_line(Level::Trace, "hi"), None);
    assert_eq!(l.push_line("one".to_string()), "one\n");
    assert_eq!(l.push_line("two".to_string()), "one\ntwo\n");
    for i in 0..MAX_LOG_MESSAGES {
        l.push_line(format!("{i}"));
    }
    let content = l.render();
    assert_eq!(content.lines().count(), MAX_LOG_MESSAGES);
    assert!(content.starts_with("0\n"));
    assert!(content.ends_with("999\n"));
}

#[test]
fn worker_logger_records() {
    let l = WorkerLogger::new();
    assert!(l.record(Level::Debug, "x").is_none());
    let r = l.record(Level::Warn, "careful").unwrap();
    assert_eq!(r.line, "careful");
    assert!(matches!(r.level, Level::Warn));
}

struct Quiet;

impl log::Log for Quiet {
    fn enabled(&self, _metadata: &log::Metadata<'_>) -> bool {
        false
    }
    fn log(&self, _record: &log::Record<'_>) {}
    fn flush(&self) {}
}

static QUIET: Quiet = Quiet;

#[test]
fn init_logging_gives_the_filter_to_apply() {
    assert!(matches!(dom_init(Ok(())), Ok(LevelFilter::Debug)));
    assert!(matches!(worker_init(Ok(())), Ok(LevelFilter::Info)));
    let first = log::set_logger(&QUIET);
    let second = log::set_logger(&QUIET);
    assert!(first.is_ok());
    assert!(second.is_err());
    assert!(dom_init(second).is_err());
    assert!(worker_init(log::set_logger(&QUIET)).is_err());
}

#[test]
fn plot_scale_follows_data_until_set() {
    let mut p: PlotScale<i32> = PlotScale::new(-1, 1);
    assert_eq!(p.prepare_draw(None), Some((-1, 1)));
    assert_eq!(p.prepare_draw(Some((3, 9))), Some((3, 9)));
    assert_eq!(p.y_range(), (3, 9));
    p.set_manual(0, 5);
    assert_eq!(p.prepare_draw(Some((3, 9))), None);
    assert_eq!(p.y_range(), (0, 5));
    p.set_zoomed(1, 4);
    assert_eq!(p.prepare_draw(Some((3, 9))), Some((1, 4)));
    assert_eq!(p.prepare_draw(None), None);
    p.request_sync();
    assert_eq!(p.prepare_draw(None), Some((1, 4)));
    p.enable_auto();
    assert!(p.auto_scale());
    assert_eq!(p.prepare_draw(Some((-2, 2))), Some((-2, 2)));
}

#[test]
fn series_batches_equal_one_batch() {
    let mut a: Series<u8> = Series::new("s".to_string(), 4);
    a.append_samples(&[1, 2, 3]);
    a.append_samples(&[4, 5, 6]);
    let mut b: Series<u8> = Series::new("s".to_string(), 4);
    b.append_samples(&[1, 2, 3, 4, 5, 6]);
    assert_eq!(a.samples(), b.samples());
    assert_eq!(a.start_index(), b.start_index());
    assert_eq!(a.start_index(), 2);
}

#[test]
fn console_methods_and_worker_lines() {
    assert!(matches!(console_method(Level::Error), ConsoleMethod::Error));
    assert!(matches!(console_method(Level::Warn), ConsoleMethod::Warn));
    assert!(matches!(console_method(Level::Info), ConsoleMethod::Info));
    assert!(matches!(console_method(Level::Debug), ConsoleMethod::Log));
    assert!(matches!(console_method(Level::Trace), ConsoleMethod::Debug));
    assert_eq!(worker_line("started"), "[worker] started");
}

#[test]
fn page_and_code_versions_must_match() {
    assert_eq!(version_mismatch("abc123", "abc123"), None);
    assert_eq!(
        version_mismatch("abc123", "def456").as_deref(),
        Some("Git version mismatch. HTML is abc123, Wasm is def456. You may need to clear your caches.")
    );
}

#[test]
fn choosing_a_file_serves_waiting_requests() {
    let mut s = MainState::new();
    s.handle_request_data("rtl-sdr".to_string(), 7);
    s.file_chunk_sent("rtl-sdr".to_string(), 0, 3);
    match s.choose_file() {
        Ok(rs) => assert_eq!(rs, vec![("rtl-sdr".to_string(), 7)]),
        Err(_) => panic!("no input was chosen before"),
    }
    assert_eq!(s.file_position(&"rtl-sdr".to_string()), 0);
    assert!(matches!(s.input_source(), InputSource::File));
    assert!(matches!(s.choose_file(), Err(InputError::AlreadySelected)));
}

use ruwasm::data_stream::{DataStream, Event, Packet, ProtocolError, RequestState, PROTOCOL_VERSION};
use ruwasm::wasm_graph::{BlockStatus, RoundOutcome, WasmGraph};
use ruwasm::wasm_source::{source_msg_from_bytes, Msg, SourceStep, Tag, TaggedVec, WasmSource, CHUNK_SIZE};

#[test]
fn empty_byte_message_is_eof() {
    let streams = vec![TaggedVec {
        data: Vec::new(),
        tags: Vec::new(),
    }];
    assert!(matches!(source_msg_from_bytes(streams), Msg::Eof));
}

#[test]
fn byte_streams_are_joined_in_order() {
    let streams = vec![
        TaggedVec {
            data: vec![1, 2],
            tags: Vec::new(),
        },
        TaggedVec {
            data: vec![3, 4],
            tags: Vec::new(),
        },
    ];
    match source_msg_from_bytes(streams) {
        Msg::Extend(data) => assert_eq!(data, [1, 2, 3, 4]),
        Msg::Eof => panic!("expected source bytes"),
    }
}

#[test]
fn no_streams_is_eof_and_tags_are_dropped() {
    assert!(matches!(source_msg_from_bytes(Vec::new()), Msg::Eof));
    let streams = vec![
        TaggedVec {
            data: Vec::new(),
            tags: vec![Tag { pos: 0, key: "k".to_string() }],
        },
        TaggedVec {
            data: vec![9],
            tags: Vec::new(),
        },
        TaggedVec {
            data: Vec::new(),
            tags: Vec::new(),
        },
    ];
    match source_msg_from_bytes(streams) {
        Msg::Extend(data) => assert_eq!(data, [9]),
        Msg::Eof => panic!("expected source bytes"),
    }
}

#[test]
fn source_requests_once_and_hands_bytes_on_in_order() {
    let mut s = WasmSource::new();
    match s.work(10) {
        SourceStep::Pending(Some(req)) => {
            assert_eq!(req.receiver, "rtl-sdr");
            assert_eq!(req.offset, 0);
            assert_eq!(req.size, CHUNK_SIZE);
        }
        _ => panic!("expected a request"),
    }
    assert!(matches!(s.work(10), SourceStep::Pending(None)));

    s.apply_msg(Msg::Extend(vec![1, 2, 3, 4, 5]));
    match s.work(3) {
        SourceStep::Produce(out) => assert_eq!(out, vec![1, 2, 3]),
        _ => panic!("expected bytes"),
    }
    assert!(matches!(s.work(0), SourceStep::WaitForOutput));
    match s.work(8) {
        SourceStep::Produce(out) => assert_eq!(out, vec![4, 5]),
        _ => panic!("expected bytes"),
    }
    match s.work(8) {
        SourceStep::Pending(Some(req)) => assert_eq!(req.offset, 5),
        _ => panic!("expected a second request"),
    }
    s.apply_msg(Msg::Eof);
    assert!(matches!(s.work(8), SourceStep::Eof));
}

#[test]
fn source_drains_buffer_before_eof() {
    let mut s = WasmSource::new();
    s.apply_msg(Msg::Extend(vec![7, 8]));
    s.apply_msg(Msg::Eof);
    match s.work(100) {
        SourceStep::Produce(out) => assert_eq!(out, vec![7, 8]),
        _ => panic!("expected bytes before the end"),
    }
    assert!(matches!(s.work(100), SourceStep::Eof));
}

fn rid() -> String {
    "rtl-sdr".to_string()
}

#[test]
fn first_request_sends_version_then_request() {
    let mut ds = DataStream::new();
    match ds.request_data(&rid(), 4096) {
        RequestState::Issued(ps) => {
            assert_eq!(ps.len(), 2);
            assert!(matches!(ps[0], Packet::Version(v) if v == PROTOCOL_VERSION));
            match &ps[1] {
                Packet::RequestData { stream_id, window } => {
                    assert_eq!(stream_id, "rtl-sdr");
                    assert_eq!(*window, 4096);
                }
                _ => panic!("expected RequestData"),
            }
        }
        RequestState::Waiting => panic!("expected packets"),
    }
    assert!(matches!(ds.request_data(&rid(), 4096), RequestState::Waiting));
    assert_eq!(ds.receivers(), vec![rid()]);
}

#[test]
fn data_rearms_request_and_empty_data_ends_receiver() {
    let mut ds = DataStream::new();
    ds.request_data(&rid(), 10);
    assert!(matches!(
        ds.handle_packet(Packet::Version(PROTOCOL_VERSION)),
        Ok(Event::PeerReady)
    ));
    match ds.handle_packet(Packet::Data {
        stream_id: rid(),
        data: vec![1, 2],
    }) {
        Ok(Event::Data { receiver, data }) => {
            assert_eq!(receiver, "rtl-sdr");
            assert_eq!(data, vec![1, 2]);
        }
        _ => panic!("expected data"),
    }
    match ds.request_data(&rid(), 10) {
        RequestState::Issued(ps) => {
            assert_eq!(ps.len(), 1);
            assert!(matches!(ps[0], Packet::RequestData { .. }));
        }
        RequestState::Waiting => panic!("expected a new request"),
    }
    match ds.handle_packet(Packet::Data {
        stream_id: rid(),
        data: Vec::new(),
    }) {
        Ok(Event::Eof { receiver }) => assert_eq!(receiver, "rtl-sdr"),
        _ => panic!("expected end of stream"),
    }
    assert!(ds.receivers().is_empty());
    // The session starts over: our Version goes out again.
    match ds.request_data(&rid(), 10) {
        RequestState::Issued(ps) => assert!(matches!(ps[0], Packet::Version(_))),
        RequestState::Waiting => panic!("expected packets"),
    }
}

#[test]
fn refused_packets() {
    let mut ds = DataStream::new();
    assert!(matches!(
        ds.handle_packet(Packet::Data {
            stream_id: rid(),
            data: vec![1],
        }),
        Err(ProtocolError::DataBeforeVersion)
    ));
    assert!(matches!(
        ds.handle_packet(Packet::RequestData {
            stream_id: rid(),
            window: 5,
        }),
        Err(ProtocolError::RequestDataBeforeVersion)
    ));
    assert!(matches!(
        ds.handle_packet(Packet::Version(PROTOCOL_VERSION + 1)),
        Err(ProtocolError::UnsupportedVersion(v)) if v == PROTOCOL_VERSION + 1
    ));
    ds.handle_packet(Packet::Version(PROTOCOL_VERSION)).ok();
    match ds.handle_packet(Packet::RequestData {
        stream_id: rid(),
        window: 5,
    }) {
        Err(ProtocolError::UnexpectedRequestData { stream_id, window }) => {
            assert_eq!(stream_id, "rtl-sdr");
            assert_eq!(window, 5);
        }
        _ => panic!("expected a refusal"),
    }
}

#[test]
fn packets_in_a_batch_stop_at_the_first_refusal() {
    let mut ds = DataStream::new();
    ds.register_receiver(rid());
    let r = ds.handle_packets(vec![
        Packet::Version(PROTOCOL_VERSION),
        Packet::Data {
            stream_id: rid(),
            data: vec![5],
        },
        Packet::Version(99),
        Packet::Data {
            stream_id: rid(),
            data: vec![6],
        },
    ]);
    assert!(matches!(r, Err(ProtocolError::UnsupportedVersion(99))));
    let r = ds.handle_packets(vec![Packet::Data {
        stream_id: rid(),
        data: vec![6],
    }]);
    match r {
        Ok(events) => {
            assert_eq!(events.len(), 1);
            assert!(matches!(&events[0], Event::Data { data, .. } if *data == vec![6]));
        }
        Err(_) => panic!("the peer's Version was kept"),
    }
}

#[test]
fn disconnect_returns_receivers_and_resets() {
    let mut ds = DataStream::new();
    ds.register_receiver("a".to_string());
    ds.register_receiver("b".to_string());
    ds.register_receiver("a".to_string());
    assert_eq!(ds.disconnect(), vec!["a".to_string(), "b".to_string()]);
    assert!(ds.receivers().is_empty());
    ds.disable_receiver(&"a".to_string());
    assert!(ds.receivers().is_empty());
}

#[test]
fn graph_rounds() {
    let mut g = WasmGraph::new();
    g.add();
    g.add();
    g.add();
    assert_eq!(g.len(), 3);

    let mut round = WasmGraph::start_round();
    g.record(&mut round, 0, BlockStatus::Again);
    g.record(&mut round, 1, BlockStatus::WaitForFunc);
    g.record(&mut round, 2, BlockStatus::Eof);
    assert!(matches!(WasmGraph::finish_round(&round), RoundOutcome::RunAgain));
    assert!(g.runs(0) && g.runs(1) && !g.runs(2));

    let mut round = WasmGraph::start_round();
    g.record(&mut round, 0, BlockStatus::Pending);
    g.record(
        &mut round,
        1,
        BlockStatus::WaitForStream {
            stream_closed: true,
            block_eof: true,
        },
    );
    assert!(matches!(WasmGraph::finish_round(&round), RoundOutcome::WaitForInput));
    assert!(!g.runs(1));

    let mut round = WasmGraph::start_round();
    g.record(
        &mut round,
        0,
        BlockStatus::WaitForStream {
            stream_closed: false,
            block_eof: true,
        },
    );
    assert!(matches!(WasmGraph::finish_round(&round), RoundOutcome::Done));
    assert!(g.runs(0));
}

fn event_summary(r: Result<Vec<Event>, ProtocolError>) -> Vec<String> {
    match r {
        Ok(events) => events
            .into_iter()
            .map(|e| match e {
                Event::PeerReady => "ready".to_string(),
                Event::Data { receiver, data } => format!("data {receiver} {data:?}"),
                Event::Eof { receiver } => format!("eof {receiver}"),
            })
            .collect(),
        Err(_) => vec!["error".to_string()],
    }
}

fn batch() -> Vec<Packet> {
    vec![
        Packet::Version(PROTOCOL_VERSION),
        Packet::Data {
            stream_id: rid(),
            data: vec![1],
        },
        Packet::Data {
            stream_id: rid(),
            data: vec![],
        },
    ]
}

#[test]
fn split_batches_give_the_same_events() {
    let mut whole = DataStream::new();
    whole.register_receiver(rid());
    let all = event_summary(whole.handle_packets(batch()));

    let mut split = DataStream::new();
    split.register_receiver(rid());
    let mut packets = batch();
    let second = packets.split_off(1);
    let mut parts = event_summary(split.handle_packets(packets));
    parts.extend(event_summary(split.handle_packets(second)));

    assert_eq!(all, parts);
    assert_eq!(all, vec!["ready", "data rtl-sdr [1]", "eof rtl-sdr"]);
    assert_eq!(whole.receivers(), split.receivers());
}

#[test]
fn queued_messages_apply_in_order() {
    let mut s = WasmSource::new();
    assert!(matches!(s.work(4), SourceStep::Pending(Some(_))));
    s.apply_msgs(vec![Msg::Extend(vec![1, 2]), Msg::Extend(vec![3]), Msg::Eof]);
    match s.work(10) {
        SourceStep::Produce(out) => assert_eq!(out, vec![1, 2, 3]),
        _ => panic!("expected bytes"),
    }
    assert!(matches!(s.work(10), SourceStep::Eof));

    let mut t = WasmSource::new();
    assert!(matches!(t.work(4), SourceStep::Pending(Some(_))));
    t.apply_msgs(Vec::new());
    assert!(matches!(t.work(4), SourceStep::Pending(None)));
}

#[test]
fn request_stays_in_flight_across_other_operations() {
    let mut ds = DataStream::new();
    assert!(matches!(ds.request_data(&rid(), 10), RequestState::Issued(_)));
    ds.register_receiver("other".to_string());
    ds.request_data(&"other".to_string(), 5);
    ds.handle_packet(Packet::Version(PROTOCOL_VERSION)).ok();
    ds.handle_packet(Packet::Data {
        stream_id: "other".to_string(),
        data: vec![],
    })
    .ok();
    ds.disable_receiver(&"third".to_string());
    assert!(matches!(ds.request_data(&rid(), 99), RequestState::Waiting));
}

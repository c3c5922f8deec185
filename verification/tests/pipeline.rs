use day_night_shader::bridge::{Bridge, PollResult};
use day_night_shader::params::SunParams;
use day_night_shader::response::{build_response, submit_query, ContentType, RenderError};

const WIDTH: u32 = 4;
const HEIGHT: u32 = 2;

fn frame(fill: u8) -> Vec<u8> {
    vec![fill; (4 * WIDTH * HEIGHT) as usize]
}

/// Stands in for the render pass: a pure function of the parameters.
fn test_render(p: SunParams) -> Vec<u8> {
    frame((p.lat_micro.unsigned_abs() % 251) as u8)
}

#[test]
fn requests_are_served_in_submission_order_with_own_results() {
    let mut bridge = Bridge::new(WIDTH);
    let p1 = SunParams { lat_micro: 1_000_000, lon_micro: 0 };
    let p2 = SunParams { lat_micro: 2_000_000, lon_micro: 0 };
    let p3 = SunParams { lat_micro: 3_000_000, lon_micro: 0 };
    let id1 = bridge.submit(p1).expect("engine alive");
    let id2 = bridge.submit(p2).expect("engine alive");
    let id3 = bridge.submit(p3).expect("engine alive");

    // The worker drains the queue one request at a time, strictly in order.
    for expected in [(id1, p1), (id2, p2), (id3, p3)] {
        let (id, params) = bridge.begin_render().expect("queue not empty");
        assert_eq!((id, params), expected);
        bridge.finish_render(id, test_render(params));
    }
    assert!(bridge.begin_render().is_none());
    assert_eq!(bridge.renders_started(), 3);

    // Each waiter gets the frame of its own parameters, nobody else's.
    for (id, params) in [(id3, p3), (id1, p1), (id2, p2)] {
        match bridge.poll_result(id) {
            PollResult::Delivered(px) => assert_eq!(px, test_render(params)),
            _ => panic!("expected a delivered frame"),
        }
        // A slot delivers at most once.
        assert!(matches!(
            bridge.poll_result(id),
            PollResult::AlreadyDelivered
        ));
    }
}

#[test]
fn waiting_slot_is_not_ready_until_its_own_render() {
    let mut bridge = Bridge::new(WIDTH);
    let p1 = SunParams { lat_micro: 5_000_000, lon_micro: 0 };
    let p2 = SunParams { lat_micro: 6_000_000, lon_micro: 0 };
    let id1 = bridge.submit(p1).expect("engine alive");
    let id2 = bridge.submit(p2).expect("engine alive");

    let (id, params) = bridge.begin_render().expect("queue not empty");
    assert_eq!(id, id1);
    bridge.finish_render(id, test_render(params));

    // The second waiter still has nothing: only the first slot completed.
    assert!(matches!(bridge.poll_result(id2), PollResult::NotReady));
    match bridge.poll_result(id1) {
        PollResult::Delivered(px) => assert_eq!(px, test_render(p1)),
        _ => panic!("expected a delivered frame"),
    }
}

#[test]
fn abandoned_render_is_observed_not_hung() {
    let mut bridge = Bridge::new(WIDTH);
    let p = SunParams { lat_micro: 0, lon_micro: 0 };
    let id = bridge.submit(p).expect("engine alive");
    let (begun, _) = bridge.begin_render().expect("queue not empty");
    assert_eq!(begun, id);

    // The engine dies mid-render: the completion handle is dropped unwritten.
    bridge.abort_render(id);
    assert!(matches!(bridge.poll_result(id), PollResult::Aborted));

    // The dead engine refuses new work.
    assert_eq!(bridge.submit(p), None);
    assert!(bridge.is_terminated());
}

#[test]
fn queued_requests_observe_an_engine_abort() {
    let mut bridge = Bridge::new(WIDTH);
    let p = SunParams { lat_micro: 0, lon_micro: 0 };
    let id1 = bridge.submit(p).expect("engine alive");
    let id2 = bridge.submit(p).expect("engine alive");
    let id3 = bridge.submit(p).expect("engine alive");
    let (begun, _) = bridge.begin_render().expect("queue not empty");
    assert_eq!(begun, id1);
    bridge.abort_render(id1);
    // Not only the request in service resolves: the queued ones do too,
    // since nothing could ever complete them.
    assert!(matches!(bridge.poll_result(id1), PollResult::Aborted));
    assert!(matches!(bridge.poll_result(id2), PollResult::Aborted));
    assert!(matches!(bridge.poll_result(id3), PollResult::Aborted));
    assert_eq!(bridge.pending_count(), 0);
}

#[test]
fn queued_requests_observe_an_orderly_shutdown() {
    let mut bridge = Bridge::new(WIDTH);
    let p = SunParams { lat_micro: 1_000_000, lon_micro: 0 };
    let id = bridge.submit(p).expect("engine alive");
    bridge.terminate();
    assert!(matches!(bridge.poll_result(id), PollResult::Aborted));
    assert_eq!(bridge.submit(p), None);
}

#[test]
fn abandoned_slots_can_be_discarded() {
    let mut bridge = Bridge::new(WIDTH);
    let p = SunParams { lat_micro: 2_000_000, lon_micro: 0 };
    let id = bridge.submit(p).expect("engine alive");
    // Still owed a render: nothing to discard yet.
    assert!(!bridge.discard_result(id));
    let (begun, params) = bridge.begin_render().expect("queue not empty");
    bridge.finish_render(begun, test_render(params));
    // The waiter went away: its delivered frame is dropped, exactly once.
    assert!(bridge.discard_result(id));
    assert!(!bridge.discard_result(id));
    assert!(matches!(bridge.poll_result(id), PollResult::AlreadyDelivered));
}

#[test]
fn submit_query_validates_before_the_engine_sees_anything() {
    let mut bridge = Bridge::new(WIDTH);
    assert_eq!(
        submit_query(&mut bridge, b"lat=abc&lon=10"),
        Err(RenderError::BadInput)
    );
    assert_eq!(
        submit_query(&mut bridge, b"lon=10"),
        Err(RenderError::BadInput)
    );
    // Nothing was queued and no render ever started.
    assert_eq!(bridge.pending_count(), 0);
    assert_eq!(bridge.slot_count(), 0);
    assert!(bridge.begin_render().is_none());
    assert_eq!(bridge.renders_started(), 0);
}

#[test]
fn submit_query_reports_a_dead_engine() {
    let mut bridge = Bridge::new(WIDTH);
    bridge.terminate();
    assert_eq!(
        submit_query(&mut bridge, b"lat=0&lon=0"),
        Err(RenderError::EngineUnavailable)
    );
    assert_eq!(bridge.renders_started(), 0);
}

#[test]
fn success_scenario_yields_a_png_response() {
    let mut bridge = Bridge::new(WIDTH);
    let id = submit_query(&mut bridge, b"lat=0&lon=0").expect("valid query");
    let (begun, params) = bridge.begin_render().expect("queue not empty");
    assert_eq!(begun, id);
    assert_eq!(params, SunParams { lat_micro: 0, lon_micro: 0 });
    bridge.finish_render(begun, test_render(params));
    assert_eq!(bridge.renders_started(), 1);

    let pixels = match bridge.poll_result(id) {
        PollResult::Delivered(px) => px,
        _ => panic!("expected a delivered frame"),
    };
    let resp = build_response(Ok(pixels.clone()), bridge.width(), bridge.height());
    assert_eq!(resp.status, 200);
    assert_eq!(resp.content_type, ContentType::ImagePng);
    // A real PNG: right signature, and the encoder did not just echo input.
    assert_eq!(&resp.body[..8], &[137u8, 80, 78, 71, 13, 10, 26, 10]);
    assert_ne!(resp.body, pixels);

    // Decoding the body gives back exactly the rendered pixels.
    let decoder = png::Decoder::new(&resp.body[..]);
    let mut reader = decoder.read_info().expect("valid png");
    let mut buf = vec![0u8; reader.output_buffer_size()];
    let info = reader.next_frame(&mut buf).expect("one frame");
    assert_eq!(info.width, WIDTH);
    assert_eq!(info.height, HEIGHT);
    assert_eq!(&buf[..info.buffer_size()], &pixels[..]);
}

#[test]
fn same_parameters_give_byte_identical_png_output() {
    let mut bridge = Bridge::new(WIDTH);
    let q: &[u8] = b"lat=12.5&lon=-3";
    let mut bodies = Vec::new();
    for _ in 0..2 {
        let id = submit_query(&mut bridge, q).expect("valid query");
        let (begun, params) = bridge.begin_render().expect("queue not empty");
        assert_eq!(begun, id);
        bridge.finish_render(begun, test_render(params));
        let pixels = match bridge.poll_result(id) {
            PollResult::Delivered(px) => px,
            _ => panic!("expected a delivered frame"),
        };
        bodies.push(build_response(Ok(pixels), bridge.width(), bridge.height()).body);
    }
    assert_eq!(bodies[0], bodies[1]);
}

#[test]
fn error_responses_are_distinct_and_never_images() {
    let bad = build_response(Err(RenderError::BadInput), WIDTH, HEIGHT);
    let gone = build_response(Err(RenderError::EngineUnavailable), WIDTH, HEIGHT);
    let aborted = build_response(Err(RenderError::RenderAborted), WIDTH, HEIGHT);
    assert_eq!(bad.status, 400);
    assert_eq!(gone.status, 503);
    assert_eq!(aborted.status, 500);
    for resp in [&bad, &gone, &aborted] {
        assert_ne!(resp.status, 200);
        assert_eq!(resp.content_type, ContentType::TextPlain);
        assert!(!resp.body.is_empty());
        assert!(resp.body.len() < 8 || &resp.body[..8] != &[137u8, 80, 78, 71, 13, 10, 26, 10]);
    }
    assert_eq!(bad.body, b"bad input".to_vec());
    assert_eq!(gone.body, b"engine unavailable".to_vec());
    assert_eq!(aborted.body, b"render aborted".to_vec());
}

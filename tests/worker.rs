use oxipodder::downloader::{DownloadMessage, DownloadProgress};
use oxipodder::worker::{Phase, Step, Worker};

const CHUNK: u64 = 8192;

fn progress(id: u32, total: u64, completed: u64) -> DownloadProgress {
    DownloadProgress::new(id, total, completed)
}

/// Runs one fetched item through the worker: the chunks, then conversion if
/// needed, then stamping; returns every event sent.
fn run_item(
    w: &mut Worker,
    id: u32,
    length: Option<u64>,
    chunks: &[u64],
    native: bool,
    transcode_ok: bool,
    stamp_error: Option<String>,
) -> Vec<DownloadMessage> {
    let mut events = vec![w.start(id, length)];
    for &n in chunks {
        if let Some(m) = w.chunk(n) {
            events.push(m);
        }
    }
    let mut step = w.end_stream(None, native);
    if let Step::Transcode = step {
        step = w.end_transcode(transcode_ok);
    }
    match step {
        Step::Report(m) => events.push(m),
        Step::Stamp => events.push(w.end_stamp(stamp_error)),
        Step::Transcode => panic!("conversion asked twice"),
    }
    events
}

fn incremental_count(events: &[DownloadMessage]) -> usize {
    events.iter().filter(|m| matches!(m, DownloadMessage::Incremental(_))).count()
}

#[test]
fn scenario_native_item_completes() {
    let mut w = Worker::new(10);
    let mut events = run_item(&mut w, 0, Some(1000), &[1000], true, true, None);
    events.push(w.queue_empty());
    assert_eq!(events[0], DownloadMessage::Started(progress(0, 1000, 0)));
    assert_eq!(events[events.len() - 2], DownloadMessage::Completed(progress(0, 1000, 1000)));
    assert_eq!(events[events.len() - 1], DownloadMessage::ThreadTerminated);
    // the first chunk is chunk 0, which is reported
    assert_eq!(events[1], DownloadMessage::Incremental(progress(0, 1000, 1000)));
    assert_eq!(events.len(), 4);
    assert!(matches!(w.phase, Phase::Finished));
}

#[test]
fn scenario_not_found_fails_the_item() {
    let mut w = Worker::new(10);
    let events = vec![
        w.request_failed(0, "HTTP status client error (404 Not Found)".to_string()),
        w.queue_empty(),
    ];
    assert_eq!(
        events,
        vec![
            DownloadMessage::Failed("HTTP status client error (404 Not Found)".to_string()),
            DownloadMessage::ThreadTerminated,
        ]
    );
}

#[test]
fn scenario_failed_transcode() {
    let mut w = Worker::new(10);
    let events = run_item(&mut w, 0, Some(3 * CHUNK), &[CHUNK, CHUNK, CHUNK], false, false, None);
    assert_eq!(events[0], DownloadMessage::Started(progress(0, 3 * CHUNK, 0)));
    assert_eq!(events[events.len() - 1], DownloadMessage::Failed("Failed to Transcode".to_string()));
    assert!(events[1..events.len() - 1].iter().all(|m| matches!(m, DownloadMessage::Incremental(_))));
    assert!(!events.iter().any(|m| matches!(m, DownloadMessage::Completed(_))));
    assert!(matches!(w.phase, Phase::Idle));
}

#[test]
fn scenario_converted_item_completes() {
    let mut w = Worker::new(10);
    let events = run_item(&mut w, 5, None, &[100, 200], false, true, None);
    assert_eq!(events[0], DownloadMessage::Started(progress(5, 0, 0)));
    assert_eq!(events[events.len() - 1], DownloadMessage::Completed(progress(5, 0, 300)));
}

#[test]
fn scenario_three_items_two_workers() {
    let mut a = Worker::new(10);
    let mut b = Worker::new(10);
    let mut events = Vec::new();
    events.extend(run_item(&mut a, 0, Some(10), &[10], true, true, None));
    events.extend(run_item(&mut b, 1, Some(20), &[20], false, false, None));
    events.push(b.request_failed(2, "connection refused".to_string()));
    events.push(a.queue_empty());
    events.push(b.queue_empty());
    let finished = events.iter().filter(|m| matches!(m, DownloadMessage::ThreadTerminated)).count();
    assert_eq!(finished, 2);
    let terminal = events
        .iter()
        .filter(|m| matches!(m, DownloadMessage::Completed(_) | DownloadMessage::Failed(_)))
        .count();
    assert_eq!(terminal, 3);
    assert!(events.contains(&DownloadMessage::Completed(progress(0, 10, 10))));
    assert!(events.contains(&DownloadMessage::Failed("Failed to Transcode".to_string())));
    assert!(events.contains(&DownloadMessage::Failed("connection refused".to_string())));
}

#[test]
fn scenario_twenty_five_chunks_three_increments() {
    let mut w = Worker::new(10);
    let chunks = vec![CHUNK; 25];
    let events = run_item(&mut w, 1, Some(25 * CHUNK), &chunks, true, true, None);
    assert_eq!(incremental_count(&events), 3);
    assert_eq!(events[1], DownloadMessage::Incremental(progress(1, 25 * CHUNK, CHUNK)));
    assert_eq!(events[2], DownloadMessage::Incremental(progress(1, 25 * CHUNK, 11 * CHUNK)));
    assert_eq!(events[3], DownloadMessage::Incremental(progress(1, 25 * CHUNK, 21 * CHUNK)));
    assert_eq!(events[4], DownloadMessage::Completed(progress(1, 25 * CHUNK, 25 * CHUNK)));
    assert_eq!(events.len(), 5);
}

#[test]
fn progress_cadence_is_tunable() {
    let mut w = Worker::new(4);
    let events = run_item(&mut w, 2, None, &[1; 9], true, true, None);
    // chunks 0, 4 and 8
    assert_eq!(incremental_count(&events), 3);
    let mut quiet = Worker::new(0);
    let events = run_item(&mut quiet, 3, None, &[1; 9], true, true, None);
    assert_eq!(incremental_count(&events), 0);
}

#[test]
fn write_error_fails_the_item() {
    let mut w = Worker::new(10);
    w.start(0, Some(100));
    w.chunk(50);
    match w.end_stream(Some("disk full".to_string()), false) {
        Step::Report(m) => assert_eq!(m, DownloadMessage::Failed("disk full".to_string())),
        other => panic!("unexpected step {other:?}"),
    }
    assert!(matches!(w.phase, Phase::Idle));
}

#[test]
fn stamp_error_fails_the_item() {
    let mut w = Worker::new(10);
    let events = run_item(&mut w, 0, Some(5), &[5], true, true, Some("permission denied".to_string()));
    assert_eq!(events[events.len() - 1], DownloadMessage::Failed("permission denied".to_string()));
}

#[test]
fn native_stream_goes_to_stamping() {
    let mut w = Worker::new(10);
    w.start(0, Some(1));
    w.chunk(1);
    assert!(matches!(w.end_stream(None, true), Step::Stamp));
    assert!(matches!(w.phase, Phase::Stamping));
}

#[test]
fn worker_keeps_serving_after_a_failure() {
    let mut w = Worker::new(10);
    w.request_failed(0, "timeout".to_string());
    let events = run_item(&mut w, 1, Some(3), &[3], true, true, None);
    assert_eq!(events[events.len() - 1], DownloadMessage::Completed(progress(1, 3, 3)));
    assert_eq!(w.queue_empty(), DownloadMessage::ThreadTerminated);
}

use rust_logger::merge_stream::{merge_k_streams, merge_streaming, LogRecord, MergeIter};

fn make_stream(stream_id: usize, timestamps: &[u64]) -> Vec<LogRecord> {
    timestamps
        .iter()
        .map(|&ts| LogRecord::new(ts, stream_id, &format!("msg-{}", ts)))
        .collect()
}

fn drain(mut it: MergeIter) -> Vec<LogRecord> {
    let mut out = Vec::new();
    while let Some(r) = it.next() {
        out.push(r);
    }
    out
}

#[test]
fn test_merge_two_streams() {
    let streams = vec![
        make_stream(0, &[1, 3, 5, 7]),
        make_stream(1, &[2, 4, 6, 8]),
    ];

    let result = merge_k_streams(streams);
    let timestamps: Vec<u64> = result.iter().map(|r| r.timestamp).collect();
    assert_eq!(timestamps, vec![1, 2, 3, 4, 5, 6, 7, 8]);
}

#[test]
fn test_merge_three_streams() {
    let streams = vec![
        make_stream(0, &[5, 15, 25]),
        make_stream(1, &[8, 12]),
        make_stream(2, &[3, 20]),
    ];

    let result = merge_k_streams(streams);
    let timestamps: Vec<u64> = result.iter().map(|r| r.timestamp).collect();
    assert_eq!(timestamps, vec![3, 5, 8, 12, 15, 20, 25]);
}

#[test]
fn test_merge_with_empty_stream() {
    let streams = vec![
        make_stream(0, &[1, 2, 3]),
        make_stream(1, &[]),
        make_stream(2, &[4, 5, 6]),
    ];

    let result = merge_k_streams(streams);
    let timestamps: Vec<u64> = result.iter().map(|r| r.timestamp).collect();
    assert_eq!(timestamps, vec![1, 2, 3, 4, 5, 6]);
}

#[test]
fn test_merge_duplicate_timestamps() {
    let streams = vec![
        make_stream(0, &[10, 20]),
        make_stream(1, &[10, 30]),
    ];

    let result = merge_k_streams(streams);
    assert_eq!(result[0].stream_id, 0);
    assert_eq!(result[1].stream_id, 1);
    assert_eq!(result.len(), 4);
}

#[test]
fn test_streaming_iterator() {
    let streams = vec![
        make_stream(0, &[1, 3]),
        make_stream(1, &[2, 4]),
    ];

    let result: Vec<LogRecord> = drain(merge_streaming(streams));
    let timestamps: Vec<u64> = result.iter().map(|r| r.timestamp).collect();
    assert_eq!(timestamps, vec![1, 2, 3, 4]);
}

#[test]
fn test_single_stream_passthrough() {
    let streams = vec![make_stream(0, &[1, 2, 3, 4, 5])];
    let result = merge_k_streams(streams);
    let timestamps: Vec<u64> = result.iter().map(|r| r.timestamp).collect();
    assert_eq!(timestamps, vec![1, 2, 3, 4, 5]);
}

#[test]
fn merge_no_streams_and_all_empty() {
    assert!(merge_k_streams(Vec::new()).is_empty());
    assert!(merge_k_streams(vec![Vec::new(), Vec::new()]).is_empty());
    let mut it = MergeIter::new(vec![Vec::new()]);
    assert!(it.next().is_none());
}

#[test]
fn merge_ties_broken_by_message_bytes() {
    let streams = vec![
        vec![LogRecord::new(5, 1, "b")],
        vec![LogRecord::new(5, 1, "a")],
    ];
    let result = merge_k_streams(streams);
    assert_eq!(result[0].message, "a");
    assert_eq!(result[1].message, "b");
}

#[test]
fn merge_matches_sorting_the_concatenation() {
    let streams = vec![
        make_stream(2, &[1, 1, 9, 14]),
        make_stream(0, &[0, 3, 3, 20]),
        make_stream(1, &[2, 9]),
    ];
    let mut expected: Vec<LogRecord> = streams.iter().flatten().cloned().collect();
    expected.sort();
    let result = merge_k_streams(streams);
    assert_eq!(result, expected);
}

#[test]
fn merge_keeps_every_record_of_unsorted_input() {
    let streams = vec![make_stream(0, &[5, 1, 4]), make_stream(1, &[3, 2])];
    let mut expected: Vec<LogRecord> = streams.iter().flatten().cloned().collect();
    expected.sort();
    let mut result = merge_k_streams(streams);
    result.sort();
    assert_eq!(result, expected);
}

#[test]
fn log_record_new_copies_message() {
    let r = LogRecord::new(42, 7, "hello");
    assert_eq!(r.timestamp, 42);
    assert_eq!(r.stream_id, 7);
    assert_eq!(r.message, "hello");
}

#[test]
fn merge_of_unsorted_input_takes_smallest_head_each_time() {
    let streams = vec![make_stream(0, &[5, 1, 4]), make_stream(1, &[3, 2])];
    let batch: Vec<u64> = merge_k_streams(streams.clone()).iter().map(|r| r.timestamp).collect();
    assert_eq!(batch, vec![3, 2, 5, 1, 4]);
    let lazy: Vec<u64> = drain(merge_streaming(streams)).iter().map(|r| r.timestamp).collect();
    assert_eq!(lazy, batch);
}

#[test]
fn streaming_drain_equals_batch_and_stays_exhausted() {
    let streams = vec![make_stream(0, &[1, 3]), make_stream(1, &[2, 4])];
    let batch = merge_k_streams(streams.clone());
    let mut it = merge_streaming(streams);
    let mut lazy = Vec::new();
    while let Some(r) = it.next() {
        lazy.push(r);
    }
    assert_eq!(lazy, batch);
    let ts: Vec<u64> = lazy.iter().map(|r| r.timestamp).collect();
    assert_eq!(ts, vec![1, 2, 3, 4]);
    assert!(it.next().is_none());
    assert!(it.next().is_none());
}

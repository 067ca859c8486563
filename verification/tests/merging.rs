use flate2::write::GzEncoder;
use std::io::Write;
use trace::json::Json;
use trace::merge::{merge_traces, shift_pid, take_events, MergeError, Merger};

fn gzipped(data: &[u8]) -> Vec<u8> {
    let mut encoder = GzEncoder::new(Vec::new(), flate2::Compression::default());
    encoder.write_all(data).unwrap();
    encoder.finish().unwrap()
}

fn events(merged: &Json) -> Vec<serde_json::Value> {
    let document: serde_json::Value = serde_json::from_str(&merged.to_text()).unwrap();
    document["traceEvents"].as_array().unwrap().clone()
}

#[test]
fn test_merge_single_file_adds_sort_index() {
    let trace_json = br#"{
        "traceEvents": [
            {"ph": "X", "cat": "cpu_op", "name": "aten::mm", "ts": 100, "dur": 50, "pid": 1000, "tid": 1},
            {"ph": "X", "cat": "kernel", "name": "gemm", "ts": 200, "dur": 100, "pid": 0, "tid": 7}
        ]
    }"#;
    let result = merge_traces(vec![trace_json.to_vec()]).unwrap();
    let events = events(&result);

    // 2 events + 2 sort_index metadata events
    assert_eq!(events.len(), 4);

    // Find sort_index events
    let sort_events: Vec<&serde_json::Value> = events
        .iter()
        .filter(|e| e.get("name").and_then(|v| v.as_str()) == Some("process_sort_index"))
        .collect();
    assert_eq!(sort_events.len(), 2);

    // CPU pid (1000) should have sort_index 0
    let cpu_sort = sort_events.iter().find(|e| e["pid"].as_i64() == Some(1000)).unwrap();
    assert_eq!(cpu_sort["args"]["sort_index"].as_i64(), Some(0));

    // GPU pid (0) should have sort_index 1
    let gpu_sort = sort_events.iter().find(|e| e["pid"].as_i64() == Some(0)).unwrap();
    assert_eq!(gpu_sort["args"]["sort_index"].as_i64(), Some(1));
}

#[test]
fn test_merge_multi_file_offsets_pids() {
    let trace1 = br#"{
        "traceEvents": [
            {"ph": "X", "cat": "cpu_op", "name": "op1", "ts": 100, "dur": 50, "pid": 100, "tid": 1}
        ]
    }"#;
    let trace2 = br#"{
        "traceEvents": [
            {"ph": "X", "cat": "cpu_op", "name": "op2", "ts": 200, "dur": 50, "pid": 100, "tid": 1}
        ]
    }"#;
    let result = merge_traces(vec![trace1.to_vec(), trace2.to_vec()]).unwrap();
    let events = events(&result);

    // File 1 pid stays 100, file 2 pid becomes 100 + 1_000_000
    let pids: Vec<i64> = events
        .iter()
        .filter(|e| e.get("ph").and_then(|v| v.as_str()) == Some("X"))
        .filter_map(|e| e["pid"].as_i64())
        .collect();
    assert!(pids.contains(&100));
    assert!(pids.contains(&1_000_100));
}

#[test]
fn merged_trace_in_full() {
    let first = br#"{"other": 1, "traceEvents": [
        {"ph": "M", "name": "process_sort_index", "pid": 5, "args": {"sort_index": 9}},
        {"ph": "M", "name": "process_name", "pid": 5},
        {"cat": "python", "pid": 5, "ts": 1.5},
        {"cat": "", "pid": 6},
        7,
        {"cat": "kernel"}
    ]}"#;
    let second = br#"{"traceEvents": [
        {"cat": "gpu_memcpy", "pid": "text"},
        {"cat": "cuda_driver", "pid": 5, "name": "x"},
        {"cat": "kernel", "pid": 5},
        {"ph": "M", "name": "process_sort_index", "cat": "gpu_memset", "pid": -3}
    ]}"#;
    let merged = merge_traces(vec![gzipped(first), second.to_vec()]).unwrap();
    let expected = concat(&[
        r#"{"traceEvents":[{"name":"process_name","ph":"M","pid":5},"#,
        r#"{"cat":"python","pid":5,"ts":1.5},{"cat":"","pid":6},7,{"cat":"kernel"},"#,
        r#"{"cat":"gpu_memcpy","pid":"text"},{"cat":"cuda_driver","name":"x","pid":1000005},"#,
        r#"{"cat":"kernel","pid":1000005},"#,
        r#"{"args":{"sort_index":2},"name":"process_sort_index","ph":"M","pid":5,"tid":0},"#,
        r#"{"args":{"sort_index":1},"name":"process_sort_index","ph":"M","pid":0,"tid":0},"#,
        r#"{"args":{"sort_index":0},"name":"process_sort_index","ph":"M","pid":1000005,"tid":0},"#,
        r#"{"args":{"sort_index":1},"name":"process_sort_index","ph":"M","pid":999997,"tid":0}]}"#,
    ]);
    assert_eq!(merged.to_text(), expected);
    // Fields come in the order of serde_json's maps.
    let value: serde_json::Value = serde_json::from_str(&expected).unwrap();
    assert_eq!(value.to_string(), expected);
}

fn concat(parts: &[&str]) -> String {
    parts.join("")
}

#[test]
fn no_files_give_an_empty_trace() {
    assert_eq!(merge_traces(vec![]).unwrap().to_text(), r#"{"traceEvents":[]}"#);
}

#[test]
fn pids_of_a_single_file_stay() {
    let data = br#"{"traceEvents":[{"pid":9223372036854775807},{"pid":-9223372036854775808}]}"#;
    let merged = merge_traces(vec![data.to_vec()]).unwrap();
    assert_eq!(merged.to_text().as_bytes(), data);
}

#[test]
fn pids_within_a_step_do_not_collide() {
    let data = br#"{"traceEvents":[{"pid":0},{"pid":999999}]}"#.to_vec();
    let merged = merge_traces(vec![data.clone(), data.clone(), data]).unwrap();
    let mut pids: Vec<i64> = events(&merged).iter().filter_map(|e| e["pid"].as_i64()).collect();
    assert_eq!(pids, [0, 999999, 1000000, 1999999, 2000000, 2999999]);
    pids.dedup();
    assert_eq!(pids.len(), 6);
    // Beyond a step they can: the second file's 100 becomes what the first file has.
    let merged = merge_traces(vec![
        br#"{"traceEvents":[{"pid":1000100}]}"#.to_vec(),
        br#"{"traceEvents":[{"pid":100}]}"#.to_vec(),
    ])
    .unwrap();
    assert_eq!(merged.to_text(), r#"{"traceEvents":[{"pid":1000100},{"pid":1000100}]}"#);
}

#[test]
fn files_that_cannot_be_merged() {
    let good = br#"{"traceEvents":[]}"#.to_vec();
    let fault = |data: &[u8]| match merge_traces(vec![good.clone(), data.to_vec(), b"[".to_vec()]) {
        Err((1, e)) => e,
        other => panic!("{:?}", other),
    };
    assert!(matches!(fault(&[0x1f, 0x8b, 0, 1]), MergeError::Decompress(_)));
    let whole = gzipped(&good);
    assert!(matches!(fault(&whole[..whole.len() - 5]), MergeError::Decompress(_)));
    assert!(matches!(fault(b"{\"traceEvents\":[]} x"), MergeError::Parse(_)));
    assert!(matches!(fault(b""), MergeError::Parse(_)));
    assert!(matches!(fault(&gzipped(b"nope")), MergeError::Parse(_)));
    assert!(matches!(fault(b"[]"), MergeError::NotAnObject));
    assert!(matches!(fault(b"\"traceEvents\""), MergeError::NotAnObject));
    assert!(matches!(fault(b"null"), MergeError::MissingEvents));
    assert!(matches!(fault(b"{}"), MergeError::MissingEvents));
    assert!(matches!(fault(b"{\"traceEvents\":{}}"), MergeError::MissingEvents));
    assert!(matches!(
        fault(b"{\"traceEvents\":[{\"pid\":9223372036854775807}]}"),
        MergeError::PidOutOfRange
    ));
}

#[test]
fn merger_adds_files_one_by_one() {
    let mut merger = Merger::new(2);
    merger.add_file(br#"{"traceEvents":[{"pid":1}]}"#.to_vec()).unwrap();
    // A file that cannot be merged leaves no trace.
    assert!(merger.add_file(b"null".to_vec()).is_err());
    let more = take_events(Json::parse(br#"{"traceEvents":[{"pid":1,"cat":"cpu_op"}]}"#).unwrap()).unwrap();
    merger.add_events(more);
    assert_eq!(
        merger.finish().to_text(),
        concat(&[
            r#"{"traceEvents":[{"pid":1},{"cat":"cpu_op","pid":1000001},"#,
            r#"{"args":{"sort_index":0},"name":"process_sort_index","ph":"M","pid":1000001,"tid":0}]}"#,
        ])
    );
}

#[test]
fn shifting_moves_the_pid_alone() {
    let shift = |text: &str, offset: i64| shift_pid(Json::parse(text.as_bytes()).unwrap(), offset).to_text();
    assert_eq!(shift(r#"{"a":1,"pid":-5,"z":"pid"}"#, 3), r#"{"a":1,"pid":-2,"z":"pid"}"#);
    assert_eq!(shift(r#"{"pid":-5}"#, 5), r#"{"pid":0}"#);
    assert_eq!(shift(r#"{"pid":1.0}"#, 5), r#"{"pid":1.0}"#);
    assert_eq!(shift(r#"{"pid":18446744073709551615}"#, 5), r#"{"pid":18446744073709551615}"#);
    assert_eq!(shift(r#"["pid"]"#, 5), r#"["pid"]"#);
}

#[test]
fn merging_again_changes_nothing() {
    let data = br#"{"traceEvents":[
        {"ph":"M","name":"process_sort_index","pid":3,"args":{"sort_index":7}},
        {"cat":"kernel","pid":3},{"cat":"cpu_op","pid":4},{"pid":5},{"cat":"x","pid":3}
    ]}"#;
    let once = merge_traces(vec![data.to_vec()]).unwrap().to_text();
    let twice = merge_traces(vec![once.clone().into_bytes()]).unwrap().to_text();
    assert_eq!(once, twice);
    // Unless the event that is left out is all that tells of a process.
    let odd = br#"{"traceEvents":[{"ph":"M","name":"process_sort_index","cat":"x","pid":3}]}"#;
    let once = merge_traces(vec![odd.to_vec()]).unwrap();
    assert_eq!(events(&once).len(), 1);
    let twice = merge_traces(vec![once.to_text().into_bytes()]).unwrap();
    assert!(events(&twice).is_empty());
}

#[test]
fn cpu_comes_before_gpu_and_others_last() {
    for (cat, index) in [
        ("cpu_op", 0), ("cuda_runtime", 0), ("cuda_driver", 0), ("kernel", 1), ("gpu_memcpy", 1),
        ("gpu_memset", 1), ("gpu_user_annotation", 1), ("python_function", 2), ("Kernel", 2),
    ] {
        let data = format!(r#"{{"traceEvents":[{{"cat":"{}","pid":8}}]}}"#, cat);
        let merged = merge_traces(vec![data.into_bytes()]).unwrap();
        assert_eq!(events(&merged)[1]["args"]["sort_index"].as_i64(), Some(index), "{}", cat);
    }
}

#[test]
fn last_offset_fits() {
    let last = (trace::merge::MAX_FILES - 1) as i64;
    assert!(last.checked_mul(trace::merge::PID_OFFSET_STEP).is_some());
    assert!((last + 1).checked_mul(trace::merge::PID_OFFSET_STEP).is_none());
}

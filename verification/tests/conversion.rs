use std::collections::HashMap;
use trace::convert::{
    append_kernel_events, append_memcpy_events, append_memset_events, append_nvtx_events,
    append_runtime_events, chrome_trace, find_min_timestamp, load_strings, memcpy_kind_name,
    nsys_to_chrome_trace, resolve_name, split_global_tid, Activity, KernelRow, MemcpyRow, MemsetRow,
    NvtxRow, Report, RuntimeRow, Times,
};
use trace::json::{JsonFloat, JsonNumber};

fn micros(ns: i64) -> JsonNumber {
    JsonNumber::Float(JsonFloat::from_value(serde_json::Value::from(ns as f64 / 1000.0)).unwrap())
}

fn written(activities: Vec<Activity>) -> serde_json::Value {
    let timed = activities
        .into_iter()
        .map(|a| {
            let times = Times { ts: micros(a.ts), dur: micros(a.dur) };
            (a, times)
        })
        .collect();
    serde_json::from_str(&chrome_trace(timed).to_text()).unwrap()
}

fn empty_report() -> Report {
    Report {
        strings: vec![],
        minima: vec![None; 5],
        kernels: vec![],
        runtime: vec![],
        memcpy: vec![],
        memset: vec![],
        nvtx: vec![],
    }
}

fn kernel_row(start: i64, end: i64) -> KernelRow {
    KernelRow {
        start,
        end,
        device_id: 0,
        stream_id: 7,
        correlation_id: 100,
        demangled: 1,
        short: 1,
        grid_x: 384,
        grid_y: 1,
        grid_z: 1,
        block_x: 128,
        block_y: 1,
        block_z: 1,
        static_sm: 0,
        dynamic_sm: 1024,
        regs: 32,
    }
}

fn test_report() -> Report {
    Report {
        strings: vec![
            (1, "my_kernel".to_string()),
            (2, "cudaLaunchKernel".to_string()),
            (3, "test_annotation".to_string()),
        ],
        minima: vec![Some(1000000), Some(900000), Some(2000000), None, Some(500000)],
        kernels: vec![kernel_row(1000000, 1500000)],
        runtime: vec![RuntimeRow {
            start: 900000,
            end: 950000,
            global_tid: 4294967297,
            correlation_id: 100,
            name_id: 2,
        }],
        memcpy: vec![MemcpyRow {
            start: 2000000,
            end: 2100000,
            device_id: 0,
            stream_id: 7,
            correlation_id: 101,
            bytes: 4096,
            copy_kind: 1,
        }],
        memset: vec![],
        nvtx: vec![NvtxRow { start: 500000, end: 2500000, text_id: Some(3), global_tid: 4294967297 }],
    }
}

#[test]
fn test_convert_nsys_to_chrome_trace() {
    let result = written(nsys_to_chrome_trace(test_report()));
    let events = result["traceEvents"].as_array().unwrap();

    // 1 kernel + 1 runtime + 1 memcpy + 1 nvtx = 4 events
    assert_eq!(events.len(), 4);

    let kernel = events.iter().find(|e| e["cat"] == "kernel").unwrap();
    assert_eq!(kernel["name"], "my_kernel");
    assert_eq!(kernel["ph"], "X");
    assert_eq!(kernel["pid"], 0);
    assert_eq!(kernel["tid"], 7);
    assert_eq!(kernel["args"]["grid"], serde_json::Value::from(vec![384, 1, 1]));
    assert_eq!(kernel["args"]["correlation"], 100);

    let runtime = events.iter().find(|e| e["cat"] == "cuda_runtime").unwrap();
    assert_eq!(runtime["name"], "cudaLaunchKernel");
    assert_eq!(runtime["args"]["correlation"], 100);

    let memcpy = events.iter().find(|e| e["cat"] == "gpu_memcpy").unwrap();
    assert!(memcpy["name"].as_str().unwrap().contains("HtoD"));
    assert_eq!(memcpy["args"]["bytes"], 4096);

    let nvtx = events.iter().find(|e| e["cat"] == "nvtx").unwrap();
    assert_eq!(nvtx["name"], "test_annotation");
}

#[test]
fn test_convert_missing_tables() {
    let result = written(nsys_to_chrome_trace(empty_report()));
    let events = result["traceEvents"].as_array().unwrap();
    assert!(events.is_empty());
}

#[test]
fn test_timestamps_normalized() {
    let report = Report {
        strings: vec![(1, "kern".to_string())],
        minima: vec![Some(10000000), None, None, None, None],
        kernels: vec![KernelRow {
            start: 10000000,
            end: 10500000,
            device_id: 0,
            stream_id: 0,
            correlation_id: 1,
            demangled: 1,
            short: 1,
            grid_x: 1,
            grid_y: 1,
            grid_z: 1,
            block_x: 1,
            block_y: 1,
            block_z: 1,
            static_sm: 0,
            dynamic_sm: 0,
            regs: 0,
        }],
        ..empty_report()
    };
    let result = written(nsys_to_chrome_trace(report));
    let kernel = &result["traceEvents"][0];

    // start=10000000ns, min_ts=10000000ns -> ts=0.0us
    assert!((kernel["ts"].as_f64().unwrap()).abs() < 0.001);
    // dur = 500000ns = 500.0us
    assert!((kernel["dur"].as_f64().unwrap() - 500.0).abs() < 0.001);
}

#[test]
fn test_memcpy_kind_names() {
    assert_eq!(memcpy_kind_name(1), "HtoD");
    assert_eq!(memcpy_kind_name(2), "DtoH");
    assert_eq!(memcpy_kind_name(4), "DtoD");
    assert_eq!(memcpy_kind_name(99), "Unknown");
}

#[test]
fn other_copy_kinds() {
    assert_eq!(memcpy_kind_name(3), "HtoH");
    assert_eq!(memcpy_kind_name(8), "PtoP");
    assert_eq!(memcpy_kind_name(0), "Unknown");
    assert_eq!(memcpy_kind_name(-1), "Unknown");
}

#[test]
fn converted_trace_in_full() {
    let mut report = test_report();
    report.memset = vec![MemsetRow {
        start: 2000001,
        end: 2000500,
        device_id: 1,
        stream_id: 2,
        correlation_id: 3,
        bytes: 4,
        value: -5,
    }];
    let activities = nsys_to_chrome_trace(report);
    let timed = activities
        .into_iter()
        .map(|a| {
            let times = Times { ts: micros(a.ts), dur: micros(a.dur) };
            (a, times)
        })
        .collect();
    let expected = [
        r#"{"traceEvents":[{"args":{"block":[128,1,1],"correlation":100,"grid":[384,1,1],"#,
        r#""registers_per_thread":32,"shared_memory":1024},"cat":"kernel","dur":500.0,"#,
        r#""name":"my_kernel","ph":"X","pid":0,"tid":7,"ts":500.0},"#,
        r#"{"args":{"External id":100,"correlation":100},"cat":"cuda_runtime","dur":50.0,"#,
        r#""name":"cudaLaunchKernel","ph":"X","pid":1,"tid":1,"ts":400.0},"#,
        r#"{"args":{"bytes":4096,"copy_kind":"HtoD","correlation":101},"cat":"gpu_memcpy","#,
        r#""dur":100.0,"name":"Memcpy HtoD","ph":"X","pid":0,"tid":7,"ts":1500.0},"#,
        r#"{"args":{"bytes":4,"correlation":3,"value":-5},"cat":"gpu_memset","dur":0.499,"#,
        r#""name":"Memset","ph":"X","pid":1,"tid":2,"ts":1500.001},"#,
        r#"{"cat":"nvtx","dur":2000.0,"name":"test_annotation","ph":"X","pid":1,"tid":1,"ts":0.0}]}"#,
    ];
    let expected = expected.join("");
    assert_eq!(chrome_trace(timed).to_text(), expected);
    // Fields come in the order of serde_json's maps.
    let value: serde_json::Value = serde_json::from_str(&expected).unwrap();
    assert_eq!(value.to_string(), expected);
}

#[test]
fn names_fall_back() {
    let strings = load_strings(vec![
        (1, "one".to_string()),
        (2, "two".to_string()),
        (1, "uno".to_string()),
    ]);
    // Where an id comes twice the last text counts.
    assert_eq!(resolve_name(&strings, 1, "runtime"), "uno");
    assert_eq!(resolve_name(&strings, -3, "runtime"), "runtime_-3");
    let mut events = Vec::new();
    let mut row = kernel_row(0, 1);
    row.demangled = 9;
    row.short = 2;
    append_kernel_events(&[row], &strings, 0, &mut events);
    row.short = 8;
    append_kernel_events(&[row], &strings, 0, &mut events);
    append_nvtx_events(
        &[
            NvtxRow { start: 1, end: 2, text_id: Some(2), global_tid: 0 },
            NvtxRow { start: 1, end: 2, text_id: Some(5), global_tid: 0 },
            NvtxRow { start: 1, end: 2, text_id: None, global_tid: 0 },
        ],
        &strings,
        0,
        &mut events,
    );
    let none: HashMap<i64, String> = HashMap::new();
    append_runtime_events(
        &[RuntimeRow { start: 0, end: 0, global_tid: 0, correlation_id: 0, name_id: 77 }],
        &none,
        0,
        &mut events,
    );
    let names: Vec<&str> = events.iter().map(|e| e.name.as_str()).collect();
    assert_eq!(names, ["two", "kernel_9", "two", "nvtx", "nvtx", "runtime_77"]);
}

#[test]
fn activities_are_appended() {
    let mut events = Vec::new();
    append_memcpy_events(
        &[MemcpyRow {
            start: 5,
            end: 4,
            device_id: 1,
            stream_id: 2,
            correlation_id: 3,
            bytes: 4,
            copy_kind: 2,
        }],
        7,
        &mut events,
    );
    append_memset_events(&[], 7, &mut events);
    assert_eq!(events.len(), 1);
    assert_eq!((events[0].ts, events[0].dur, events[0].pid, events[0].tid), (-2, -1, 1, 2));
    assert_eq!(events[0].name, "Memcpy DtoH");
}

#[test]
fn earliest_timestamp() {
    assert_eq!(find_min_timestamp(&[None, Some(5), Some(-3), None, Some(9)]), -3);
    assert_eq!(find_min_timestamp(&[None, None]), 0);
    assert_eq!(find_min_timestamp(&[Some(i64::MAX)]), 0);
    assert_eq!(find_min_timestamp(&[]), 0);
}

#[test]
fn global_tids_split_as_bits_do() {
    for g in [0, 1, -1, 4294967297, i64::MIN, i64::MAX, 0x8000_0000, 0x7FFF_FFFF, -0x8000_0001, 0x1234_5678_9ABC_DEF0] {
        let pid = ((g >> 32) & 0xFFFF_FFFF) as i32;
        let tid = (g & 0xFFFF_FFFF) as i32;
        assert_eq!(split_global_tid(g), (pid, tid), "{}", g);
        // The parts make the whole.
        assert_eq!(((pid as i64) << 32) | (tid as u32 as i64), g);
    }
}

#[test]
fn range_of_a_report() {
    assert!(test_report().is_in_range());
    assert!(empty_report().is_in_range());
    let mut report = test_report();
    report.kernels[0].static_sm = i64::MAX;
    assert!(!report.is_in_range());
    let mut report = test_report();
    report.runtime[0].end = i64::MIN;
    assert!(!report.is_in_range());
    let mut report = test_report();
    report.memcpy[0].start = i64::MIN;
    assert!(!report.is_in_range());
    let mut report = test_report();
    report.minima[4] = Some(i64::MIN);
    assert!(!report.is_in_range());
    let mut report = empty_report();
    report.minima[0] = Some(-5);
    report.memset = vec![MemsetRow {
        start: i64::MAX,
        end: i64::MAX,
        device_id: 0,
        stream_id: 0,
        correlation_id: 0,
        bytes: 0,
        value: 0,
    }];
    assert!(!report.is_in_range());
    let mut report = empty_report();
    report.nvtx = vec![NvtxRow { start: -2, end: i64::MAX, text_id: None, global_tid: 0 }];
    assert!(!report.is_in_range());
}

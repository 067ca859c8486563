use trace::json::Json;
use trace::kernels::{format_input_dims, format_value};
use trace::table::{
    compute_stats, duration_rank, escape_md, percentile50, KernelSummary, Median, TraceColumn,
};
use trace::{generate_comparison_table, parse_trace, ChromeTrace, KernelId, TraceEvent};

fn json(text: &str) -> Json {
    Json::parse(text.as_bytes()).unwrap()
}

// Values

#[test]
fn test_format_value_array() {
    let v = json("[384, 1, 1]");
    assert_eq!(format_value(&v), "[384, 1, 1]");
}

#[test]
fn test_format_value_nested_array() {
    let v = json("[[38400, 128], [128, 256]]");
    assert_eq!(format_value(&v), "[[38400, 128], [128, 256]]");
}

#[test]
fn test_format_input_dims_scalars_become_1() {
    let v = json("[[1024, 128], [], [128, 256], []]");
    assert_eq!(format_input_dims(&v), "[[1024, 128], 1, [128, 256], 1]");
}

#[test]
fn test_format_input_dims_all_scalars() {
    let v = json("[[], [], []]");
    assert_eq!(format_input_dims(&v), "[1, 1, 1]");
}

#[test]
fn values_of_other_kinds() {
    assert_eq!(format_value(&json("-7")), "-7");
    assert_eq!(format_value(&json("18446744073709551615")), "18446744073709551615");
    assert_eq!(format_value(&json("1.50")), "1.5");
    assert_eq!(format_value(&json("1e3")), "1000.0");
    // A text stands without quotes, but not inside an object.
    assert_eq!(format_value(&json("\"a\\nb\"")), "a\nb");
    assert_eq!(format_value(&json("null")), "null");
    assert_eq!(format_value(&json("true")), "true");
    assert_eq!(format_value(&json("{\"b\": [1, 2], \"a\": \"x\\\"\"}")), "{\"a\":\"x\\\"\",\"b\":[1,2]}");
    assert_eq!(format_value(&json("[]")), "[]");
    // Only an empty item of the outer array is a scalar.
    assert_eq!(format_input_dims(&json("[[[], 2], 3]")), "[[[], 2], 3]");
    assert_eq!(format_input_dims(&json("[]")), "[]");
    assert_eq!(format_input_dims(&json("\"s\"")), "s");
}

// Traces

fn text_field(v: &serde_json::Value, key: &str) -> Option<String> {
    v.get(key).and_then(|s| s.as_str()).map(|s| s.to_string())
}

fn json_field(v: &serde_json::Value, key: &str) -> Option<Json> {
    v.get(key).map(|j| Json::from_value(j.clone()))
}

fn trace(text: &str) -> ChromeTrace {
    let document: serde_json::Value = serde_json::from_str(text).unwrap();
    let trace_events = document["traceEvents"]
        .as_array()
        .unwrap()
        .iter()
        .map(|e| TraceEvent {
            ph: text_field(e, "ph"),
            cat: text_field(e, "cat"),
            name: text_field(e, "name"),
            pid: json_field(e, "pid"),
            tid: json_field(e, "tid"),
            args: json_field(e, "args"),
        })
        .collect();
    ChromeTrace { trace_events }
}

#[test]
fn test_kernel_id_display() {
    let kid = KernelId {
        name: "my_kernel".to_string(),
        grid: "[384, 1, 1]".to_string(),
        input_shapes: "[38400, 128, 1]".to_string(),
    };
    assert_eq!(kid.to_string(), "my_kernel | [384, 1, 1] | [38400, 128, 1]");
}

#[test]
fn test_parse_trace_correlation_chain() {
    let durations = [500.0, 50.0, 200.0];
    let result = parse_trace(&trace(
        r#"{
        "traceEvents": [
            {
                "ph": "X", "cat": "kernel", "name": "my_kernel",
                "ts": 1000, "dur": 500, "pid": 0, "tid": 7,
                "args": { "External id": 33, "correlation": 100, "grid": [384, 1, 1] }
            },
            {
                "ph": "X", "cat": "cuda_runtime", "name": "cudaLaunchKernel",
                "ts": 900, "dur": 50, "pid": 0, "tid": 1,
                "args": { "External id": 27, "correlation": 100 }
            },
            {
                "ph": "X", "cat": "cpu_op", "name": "aten::mm",
                "ts": 800, "dur": 200, "pid": 0, "tid": 1,
                "args": { "External id": 27, "Input Dims": [[38400, 128], [128, 256]] }
            }
        ]
    }"#,
    ));
    assert_eq!(result.len(), 1);
    let runs = &result[0];
    assert_eq!(runs.id.name, "my_kernel");
    assert_eq!(runs.id.grid, "[384, 1, 1]");
    assert_eq!(runs.id.input_shapes, "[[38400, 128], [128, 256]]");
    assert_eq!(runs.events.len(), 1);
    let dur_ms: f64 = durations[runs.events[0]] / 1000.0;
    assert!((dur_ms - 0.5).abs() < 0.001);
}

#[test]
fn test_parse_trace_scalar_dims_become_1() {
    let result = parse_trace(&trace(
        r#"{
        "traceEvents": [
            {
                "ph": "X", "cat": "kernel", "name": "scale_kernel",
                "ts": 1000, "dur": 200, "pid": 0, "tid": 7,
                "args": { "External id": 33, "correlation": 100, "grid": [1, 1, 1] }
            },
            {
                "ph": "X", "cat": "cuda_runtime", "name": "cudaLaunchKernel",
                "ts": 900, "dur": 50, "pid": 0, "tid": 1,
                "args": { "External id": 27, "correlation": 100 }
            },
            {
                "ph": "X", "cat": "cpu_op", "name": "aten::mul",
                "ts": 800, "dur": 200, "pid": 0, "tid": 1,
                "args": { "External id": 27, "Input Dims": [[1024, 128], []] }
            }
        ]
    }"#,
    ));
    assert_eq!(result[0].id.input_shapes, "[[1024, 128], 1]");
}

#[test]
fn test_parse_trace_no_correlation_leaves_shapes_empty() {
    let result = parse_trace(&trace(
        r#"{
        "traceEvents": [
            {
                "ph": "X", "cat": "kernel", "name": "orphan_kernel",
                "ts": 1000, "dur": 200, "pid": 0, "tid": 7,
                "args": { "External id": 99, "grid": [1, 1, 1] }
            }
        ]
    }"#,
    ));
    assert_eq!(result[0].id.input_shapes, "");
}

#[test]
fn kernels_come_in_order_with_all_their_runs() {
    let result = parse_trace(&trace(
        r#"{"traceEvents": [
            {"ph": "X", "cat": "kernel", "name": "b"},
            {"ph": "X", "cat": "kernel", "name": "a", "args": {"grid": 5}},
            {"ph": "B", "cat": "kernel", "name": "a"},
            {"ph": "X", "cat": "other", "name": "a"},
            {"ph": "X", "cat": "kernel", "name": "b", "args": 3},
            {"ph": "X", "cat": "kernel"},
            {"ph": "X", "cat": "kernel", "name": "a", "args": {"grid": "5"}},
            {"ph": "X", "cat": "kernel", "name": "a", "args": {}}
        ]}"#,
    ));
    let found: Vec<(String, Vec<usize>)> =
        result.iter().map(|r| (r.id.to_string(), r.events.clone())).collect();
    assert_eq!(
        found,
        [
            ("a |  | ".to_string(), vec![7]),
            ("a | 5 | ".to_string(), vec![1, 6]),
            ("b |  | ".to_string(), vec![0, 4]),
            ("unknown |  | ".to_string(), vec![5]),
        ]
    );
    // The order is that of the identifiers.
    let mut ids: Vec<KernelId> = result.iter().map(|r| r.id.clone()).collect();
    ids.sort();
    let sorted: Vec<String> = ids.iter().map(|k| k.to_string()).collect();
    let given: Vec<String> = result.iter().map(|r| r.id.to_string()).collect();
    assert_eq!(sorted, given);
}

#[test]
fn later_records_replace_earlier_ones() {
    let result = parse_trace(&trace(
        r#"{"traceEvents": [
            {"ph": "X", "cat": "kernel", "name": "k", "args": {"correlation": 1}},
            {"cat": "cuda_runtime", "args": {"correlation": 1, "External id": 10}},
            {"cat": "cuda_driver", "args": {"correlation": 1, "External id": 11}},
            {"cat": "cuda_runtime", "args": {"correlation": 1}},
            {"cat": "runtime", "args": {"correlation": 1, "External id": 10}},
            {"ph": "X", "cat": "cpu_op", "args": {"External id": 10, "Input Dims": [[1]]}},
            {"ph": "B", "cat": "cpu_op", "args": {"External id": 11, "Input Dims": [[2]]}},
            {"ph": "X", "cat": "cpu_op", "args": {"External id": 11, "Input dims": [[3]]}},
            {"ph": "X", "cat": "cpu_op", "args": {"External id": 11, "Input Dims": ""}},
            {"ph": "i", "cat": "cpu_op", "args": {"External id": 11, "Input Dims": [[4]]}},
            {"ph": "X", "cat": "cpu_op", "args": {"External id": -11, "Input Dims": [[5]]}},
            {"ph": "X", "cat": "user_annotation", "args": {"External id": 11, "Input Dims": [[6]]}},
            {"ph": "X", "args": {"External id": 11, "Input Dims": [[7]]}}
        ]}"#,
    ));
    assert_eq!(result.len(), 1);
    assert_eq!(result[0].id.input_shapes, "[[3]]");
}

#[test]
fn shapes_come_from_cpu_operators_alone() {
    let with_operator = |cat: &str| {
        let text = format!(
            r#"{{"traceEvents": [
                {{"ph": "X", "cat": "kernel", "name": "k", "dur": 1000,
                  "args": {{"correlation": 1, "grid": [1, 1, 1]}}}},
                {{"ph": "X", "cat": "cuda_runtime", "args": {{"correlation": 1, "External id": 7}}}},
                {{"ph": "X", "cat": "{}", "args": {{"External id": 7, "Input Dims": [[2, 2]]}}}}
            ]}}"#,
            cat
        );
        let result = parse_trace(&trace(&text));
        assert_eq!(result.len(), 1);
        assert_eq!(result[0].events, [0]);
        result[0].id.to_string()
    };
    assert_eq!(with_operator("user_annotation"), "k | [1, 1, 1] | ");
    assert_eq!(with_operator("cuda_runtime"), "k | [1, 1, 1] | ");
    assert_eq!(with_operator("cpu_op"), "k | [1, 1, 1] | [[2, 2]]");
}

// Statistics

#[test]
fn test_percentile50() {
    let median = |sorted: &[f64]| -> f64 {
        let positions: Vec<usize> = (0..sorted.len()).collect();
        match percentile50(&positions) {
            Median::Empty => 0.0,
            Median::One(p) => sorted[p],
            Median::Two(p, q) => (sorted[p] + sorted[q]) / 2.0,
        }
    };
    assert!((median(&[1.0, 2.0, 3.0]) - 2.0).abs() < 0.001);
    assert!((median(&[1.0, 2.0, 3.0, 4.0]) - 2.5).abs() < 0.001);
    assert!((median(&[5.0]) - 5.0).abs() < 0.001);
    assert_eq!(percentile50(&[]), Median::Empty);
    assert_eq!(percentile50(&[7, 3]), Median::Two(7, 3));
}

#[test]
fn ranks_order_doubles() {
    let values = [
        f64::NEG_INFINITY, f64::MIN, -1.5, -1.0, -f64::MIN_POSITIVE, 0.0, f64::MIN_POSITIVE, 0.1, 1.0,
        1.5, f64::MAX, f64::INFINITY,
    ];
    for a in values {
        for b in values {
            let (x, y) = (duration_rank(a.to_bits()), duration_rank(b.to_bits()));
            assert_eq!(x < y, a < b, "{} {}", a, b);
        }
    }
    assert_eq!(duration_rank((-0.0f64).to_bits()), 0);
    assert_eq!(duration_rank(0.0f64.to_bits()), 0);
    assert_eq!(duration_rank(u64::MAX), -i64::MAX);
}

#[test]
fn stats_find_the_longest_and_the_median() {
    let stats = compute_stats(&[30, 10, 20, 10]);
    assert_eq!(stats.sorted, [1, 3, 2, 0]);
    assert_eq!(stats.p50, Median::Two(3, 2));
    assert_eq!(stats.max, Some(0));
    let stats = compute_stats(&[]);
    assert!(stats.sorted.is_empty());
    assert_eq!(stats.p50, Median::Empty);
    assert_eq!(stats.max, None);
    // The sort is stable, as the standard library's is.
    let mut x: u64 = 1;
    let mut ranks: Vec<i64> = Vec::new();
    for _ in 0..500 {
        x = x.wrapping_mul(6364136223846793005).wrapping_add(1442695040888963407);
        ranks.push((x >> 60) as i64 - 8);
    }
    let mut expected: Vec<usize> = (0..ranks.len()).collect();
    expected.sort_by_key(|&p| ranks[p]);
    assert_eq!(compute_stats(&ranks).sorted, expected);
}

// The table

fn summary(id: KernelId, durations: &[f64]) -> KernelSummary {
    let ranks: Vec<i64> = durations.iter().map(|d| duration_rank(d.to_bits())).collect();
    let stats = compute_stats(&ranks);
    let p50 = match stats.p50 {
        Median::Empty => 0.0,
        Median::One(p) => durations[p],
        Median::Two(p, q) => (durations[p] + durations[q]) / 2.0,
    };
    let max = stats.max.map(|p| durations[p]).unwrap_or(0.0);
    let total: f64 = stats.sorted.iter().map(|&p| durations[p]).sum();
    KernelSummary {
        id,
        ranks,
        p50: format!("{:.3}", p50),
        max: format!("{:.3}", max),
        total: format!("{:.3}", total),
    }
}

fn id(name: &str, grid: &str, input_shapes: &str) -> KernelId {
    KernelId {
        name: name.to_string(),
        grid: grid.to_string(),
        input_shapes: input_shapes.to_string(),
    }
}

#[test]
fn test_generate_table_p50_max_total() {
    let kid = id("my_kernel", "[384, 1, 1]", "[38400, 128, 1]");
    let traces = vec![TraceColumn {
        name: "t1".to_string(),
        kernels: vec![summary(kid, &[1.0, 2.0, 3.0])],
    }];
    let table = generate_comparison_table(&traces);

    // Header should have p50, max, total sub-columns
    assert!(table.contains("t1 p50 (ms)"));
    assert!(table.contains("t1 max (ms)"));
    assert!(table.contains("t1 total (ms)"));
    // [3] instances
    assert!(table.contains("[3] my_kernel"));
    // p50=2.0, max=3.0, total=6.0
    assert!(table.contains("2.000"));
    assert!(table.contains("3.000"));
    assert!(table.contains("6.000"));
}

#[test]
fn test_generate_table_sorted_by_max_descending() {
    let kid_fast = id("fast_kernel", "[1, 1, 1]", "");
    let kid_slow = id("slow_kernel", "[1, 1, 1]", "");
    let traces = vec![TraceColumn {
        name: "t1".to_string(),
        kernels: vec![summary(kid_fast, &[0.1]), summary(kid_slow, &[10.0])],
    }];
    let table = generate_comparison_table(&traces);

    // slow_kernel (max=10.0) should appear before fast_kernel (max=0.1)
    let slow_pos = table.find("slow_kernel").unwrap();
    let fast_pos = table.find("fast_kernel").unwrap();
    assert!(slow_pos < fast_pos);
}

#[test]
fn test_generate_table_missing_kernel() {
    let kid1 = id("kernel_a", "[1, 1, 1]", "");
    let kid2 = id("kernel_b", "[2, 1, 1]", "");
    let traces = vec![
        TraceColumn { name: "t1".to_string(), kernels: vec![summary(kid1, &[1.0])] },
        TraceColumn { name: "t2".to_string(), kernels: vec![summary(kid2, &[2.0])] },
    ];
    let table = generate_comparison_table(&traces);

    assert!(table.contains("kernel_a"));
    assert!(table.contains("kernel_b"));
    // Missing kernel should have empty p50/max/total cells
    assert!(table.contains("| | | |"));
}

#[test]
fn table_in_full() {
    let traces = vec![
        TraceColumn {
            name: "one".to_string(),
            kernels: vec![
                summary(id("a|b", "[1]", "s"), &[1.0, 4.0]),
                summary(id("c", "[1]", ""), &[4.0]),
                summary(id("d", "", ""), &[0.5]),
            ],
        },
        TraceColumn {
            name: "two".to_string(),
            kernels: vec![
                summary(id("a|b", "[1]", "s"), &[2.0, 2.0, 2.0]),
                summary(id("d", "", ""), &[9.0]),
            ],
        },
    ];
    let expected = [
        "| Kernel | Grid | Input Shapes | one p50 (ms) | one max (ms) | one total (ms) | two p50 (ms) | two max (ms) | two total (ms) |",
        "| --- | --- | --- | ---: | ---: | ---: | ---: | ---: | ---: |",
        "| `[1] d` | `` | `` | 0.500 | 0.500 | 0.500 | 9.000 | 9.000 | 9.000 |",
        "| `[3] a\\|b` | `[1]` | `s` | 2.500 | 4.000 | 5.000 | 2.000 | 2.000 | 6.000 |",
        "| `[1] c` | `[1]` | `` | 4.000 | 4.000 | 4.000 | | | |",
        "",
    ];
    assert_eq!(generate_comparison_table(&traces), expected.join("\n"));
}

#[test]
fn table_without_kernels() {
    assert_eq!(generate_comparison_table(&[]), "No GPU kernel events found in any trace.\n");
    let empty = vec![TraceColumn { name: "t".to_string(), kernels: vec![] }];
    assert_eq!(generate_comparison_table(&empty), "No GPU kernel events found in any trace.\n");
}

#[test]
fn pipes_are_escaped() {
    for s in ["", "a", "|", "a|b||c", "\\|", "é|ü"] {
        assert_eq!(escape_md(s), s.replace('|', "\\|"));
    }
}

use copper_sched::assembled::CuExecutionLoop;
use copper_sched::assembled::CuExecutionStep;
use copper_sched::assembled::CuExecutionUnit;
use copper_sched::assembled::CuOutputPack;
use copper_sched::assembled::CuStepPhase;
use copper_sched::error::CuError;
use copper_sched::error::CuResult;
use copper_sched::logstats::collect_output_packs;
use copper_sched::logstats::compute_logstats;
use copper_sched::logstats::LengthMismatch;
use copper_sched::memory::peak_rss_kb;
use copper_sched::schedule_profile::compute_schedule_profile;
use copper_sched::schedule_profile::finalize_samples;
use copper_sched::schedule_profile::PlanProfile;
use copper_sched::schedule_profile::ProfileStat;
use copper_sched::signature::build_graph_signature;
use copper_sched::signature::fnv1a64;
use copper_sched::signature::format_endpoint;
use copper_sched::signature::CuConnection;
use copper_sched::signature::CuGraph;
use copper_sched::signature::Flavor;
use copper_sched::signature::GraphNode;
use copper_sched::stats::build_pack_ranges;
use copper_sched::stats::compute_end_to_end_latency;
use copper_sched::stats::duration_stats_from;
use copper_sched::stats::finalize_pipeline;
use copper_sched::stats::format_bottleneck;
use copper_sched::stats::jitter_stats_from;
use copper_sched::stats::sample_step_duration_ns;
use copper_sched::stats::EdgeAccumulator;
use copper_sched::stats::EdgeKey;
use copper_sched::stats::OutputPackInfo;
use copper_sched::stats::PackRange;
use copper_sched::stats::PerfAccumulator;
use copper_sched::stats::Ratio;
use copper_sched::stats::RecordedCopperList;
use copper_sched::stats::StageAccumulator;
use copper_sched::stats::TimeWindow;
use copper_sched::strmap::StrMap;
use copper_sched::timing_profile::chrome_event;
use copper_sched::timing_profile::csv_quote;
use copper_sched::timing_profile::export_timing_profile;
use copper_sched::timing_profile::extract_row;
use copper_sched::timing_profile::TaskTiming;
use copper_sched::timing_profile::TimingFormat;
use serde_json::Value;

fn edge_key() -> EdgeKey {
    EdgeKey {
        src: "src".to_string(),
        src_channel: None,
        dst: "dst".to_string(),
        dst_channel: None,
        msg: "Msg".to_string(),
    }
}

fn value(ratio: Ratio) -> f64 {
    ratio.num as f64 / ratio.den as f64
}

fn fixed(ratio: Ratio, decimals: u32) -> String {
    format!("{:.*}", decimals as usize, value(ratio))
}

#[test]
fn edge_stats_average_and_rate() {
    let mut acc = EdgeAccumulator::new();
    acc.record_sample(Some(100), Some(1_000_000_000));
    acc.record_sample(Some(300), Some(2_000_000_000));
    let stats = acc.finalize(edge_key());

    assert_eq!(stats.samples, 2);
    assert_eq!(stats.none_samples, 0);
    assert_eq!(stats.total_raw_bytes, 400);
    assert!((value(stats.avg_raw_bytes.unwrap()) - 200.0).abs() < 1e-6);
    assert!((value(stats.rate_hz.unwrap()) - 1.0).abs() < 1e-6);
    assert!((value(stats.throughput_bytes_per_sec.unwrap()) - 400.0).abs() < 1e-6);
}

#[test]
fn edge_stats_handles_missing_times() {
    let mut acc = EdgeAccumulator::new();
    acc.record_sample(Some(64), None);
    let stats = acc.finalize(edge_key());
    assert_eq!(stats.samples, 1);
    assert_eq!(stats.valid_time_samples, 0);
    assert!(stats.rate_hz.is_none());
    assert!(stats.throughput_bytes_per_sec.is_none());
}

#[test]
fn edge_stats_of_simultaneous_messages_have_no_rate() {
    let mut acc = EdgeAccumulator::new();
    acc.record_sample(None, Some(5));
    acc.record_sample(None, Some(5));
    let stats = acc.finalize(edge_key());
    assert_eq!((stats.samples, stats.none_samples, stats.valid_time_samples), (2, 2, 2));
    assert_eq!(stats.avg_raw_bytes, None);
    assert_eq!(stats.rate_hz, None);
    assert_eq!(stats.key, edge_key());
}

fn stage(task: &str, durations: &[u64]) -> StageAccumulator {
    let mut acc = StageAccumulator::new(task.to_string());
    for &duration in durations {
        acc.record_sample(duration);
    }
    acc
}

#[test]
fn pipeline_names_the_slowest_step_and_its_rate() {
    // 1 ms + 4 ms + 1 ms serial; the 4 ms step alone allows 250 Hz.
    let stages = vec![
        stage("cam", &[1_000_000, 1_000_000]),
        stage("detect", &[4_000_000, 4_000_000]),
        stage("brake", &[1_000_000, 1_000_000]),
    ];
    let pipeline = finalize_pipeline(&stages);
    assert_eq!(
        format_bottleneck(&pipeline, fixed),
        "Bottleneck: step 1 'detect' at 4.000 ms mean caps the rate at 250.0 Hz; \
         pipelining every step can buy at most 1.50x."
    );

    let slowest = pipeline.bottleneck.unwrap();
    assert_eq!(slowest.task, "detect");
    assert_eq!(slowest.index, 1);
    assert!((value(slowest.max_rate_hz) - 250.0).abs() < 1e-6);
    assert!((pipeline.serial_cycle_ns.unwrap() as f64 - 6_000_000.0).abs() < 1e-6);
    // 6 ms serial / 4 ms bottleneck: pipelining buys 1.5x, not 3x.
    assert!((value(pipeline.max_pipeline_speedup.unwrap()) - 1.5).abs() < 1e-6);

    let shares: Vec<f64> = pipeline.stages.iter().map(|stage| value(stage.share.unwrap())).collect();
    assert!((shares.iter().sum::<f64>() - 1.0).abs() < 1e-6);
    assert!((shares[1] - 4.0 / 6.0).abs() < 1e-6);
}

#[test]
fn pipeline_cycle_is_unknown_when_a_step_was_never_sampled() {
    // An unsampled step must not make the serial cycle look cheaper.
    let stages = vec![stage("cam", &[1_000_000]), stage("detect", &[])];
    let pipeline = finalize_pipeline(&stages);

    assert!(pipeline.serial_cycle_ns.is_none());
    assert!(pipeline.max_pipeline_speedup.is_none());
    assert!(format_bottleneck(&pipeline, fixed).ends_with("can buy at most unknown."));
    assert_eq!(pipeline.bottleneck.unwrap().task, "cam");
    assert_eq!(pipeline.stages[1].samples, 0);
    assert!(pipeline.stages[1].share.is_none());
    assert!(pipeline.stages[1].duration.mean_ns.is_none());
}

#[test]
fn pipeline_without_any_sample_reports_no_bottleneck() {
    let pipeline = finalize_pipeline(&vec![stage("cam", &[])]);
    assert!(pipeline.bottleneck.is_none());
    assert!(format_bottleneck(&pipeline, fixed).contains("unknown"));
}

#[test]
fn the_last_of_equally_slow_steps_is_the_bottleneck() {
    let pipeline = finalize_pipeline(&vec![stage("a", &[7]), stage("b", &[7]), stage("c", &[0])]);
    assert_eq!(pipeline.bottleneck.unwrap().task, "b");
    assert_eq!(pipeline.serial_cycle_ns, Some(14));
    assert_eq!(pipeline.stages[0].share, Some(Ratio { num: 7, den: 14 }));
    let idle = finalize_pipeline(&vec![stage("a", &[0])]);
    assert!(idle.bottleneck.is_none());
    assert!(idle.stages[0].share.is_none());
}

#[test]
fn pack_ranges_follow_the_flattened_slot_order() {
    let packs = vec![
        OutputPackInfo {
            culist_index: 0,
            src: "cam".to_string(),
            msg_types: vec!["Image".to_string(), "Meta".to_string()],
        },
        OutputPackInfo {
            culist_index: 1,
            src: "detect".to_string(),
            msg_types: vec!["Boxes".to_string()],
        },
    ];
    let ranges = build_pack_ranges(&packs);

    assert_eq!(ranges.len(), 2);
    assert_eq!((ranges[0].start, ranges[0].len), (0, 2));
    assert_eq!((ranges[1].start, ranges[1].len), (2, 1));
    assert_eq!(ranges[1].task, "detect");
}

#[test]
fn perf_stats_skip_missing_latency() {
    let mut perf = PerfAccumulator::new();
    perf.record_sample(Some(1_000));
    perf.record_sample(None);
    let stats = perf.finalize();

    assert_eq!(stats.samples, 2);
    assert_eq!(stats.valid_time_samples, 1);
    assert_eq!(stats.end_to_end.min_ns, Some(1_000));
    assert_eq!(stats.end_to_end.max_ns, Some(1_000));
    assert_eq!(stats.jitter.min_ns, None);
}

#[test]
fn jitter_is_the_change_between_neighbours() {
    let durations = vec![100, 130, 90, 91];
    let jitter = jitter_stats_from(&durations);
    assert_eq!((jitter.min_ns, jitter.max_ns, jitter.mean_ns), (Some(1), Some(40), Some(23)));
    let plain = duration_stats_from(&durations);
    assert_eq!((plain.min_ns, plain.max_ns, plain.mean_ns), (Some(90), Some(130), Some(102)));
    assert_eq!(duration_stats_from(&Vec::new()).mean_ns, None);
}

fn window(start: u64, end: u64) -> TimeWindow {
    TimeWindow { start_ns: Some(start), end_ns: Some(end) }
}

const UNSTAMPED: TimeWindow = TimeWindow { start_ns: None, end_ns: None };

#[test]
fn step_durations_span_the_widest_window() {
    let range = |start: usize, len: usize| PackRange { start, len, task: "t".to_string() };
    let msgs = vec![window(10, 20), window(5, 18), UNSTAMPED, window(40, 30)];
    assert_eq!(sample_step_duration_ns(&msgs, &range(0, 2)), Some(15));
    assert_eq!(sample_step_duration_ns(&msgs, &range(2, 1)), None);
    assert_eq!(sample_step_duration_ns(&msgs, &range(3, 1)), None);
    assert_eq!(sample_step_duration_ns(&msgs, &range(1, 9)), Some(25));
    assert_eq!(sample_step_duration_ns(&msgs, &range(7, 1)), None);
    assert_eq!(compute_end_to_end_latency(&msgs), Some(20));
    assert_eq!(compute_end_to_end_latency(&vec![window(9, 1)]), None);
    assert_eq!(compute_end_to_end_latency(&Vec::new()), None);
}

fn connection(src: &str, dst: &str, msg: &str) -> CuConnection {
    CuConnection {
        src: src.to_string(),
        src_channel: None,
        dst: dst.to_string(),
        dst_channel: None,
        msg: msg.to_string(),
    }
}

fn graph() -> CuGraph {
    let node = |node_id: u32, id: &str| GraphNode {
        node_id,
        id: id.to_string(),
        kind: format!("kinds::{id}"),
        flavor: Flavor::Task,
    };
    CuGraph {
        nodes: vec![node(0, "cam"), node(1, "detect"), node(2, "sink")],
        edges: vec![connection("cam", "detect", "Image"), connection("detect", "sink", "Boxes")],
    }
}

fn step(node_id: u32, output: Option<(u32, &[&str])>) -> CuExecutionUnit {
    CuExecutionUnit::Step(CuExecutionStep {
        node_id,
        phase: CuStepPhase::Whole,
        input_msg_indices_types: Vec::new(),
        output_msg_pack: output.map(|(culist_index, types)| CuOutputPack {
            culist_index,
            msg_types: types.iter().map(|t| t.to_string()).collect(),
        }),
    })
}

fn plan() -> CuExecutionLoop {
    // Slots are numbered against the order of the calls.
    CuExecutionLoop {
        steps: vec![
            CuExecutionUnit::Loop(CuExecutionLoop { steps: vec![step(0, Some((1, &["Image", "Meta"])))] }),
            step(1, Some((0, &["Boxes"]))),
            step(2, None),
        ],
    }
}

fn culist(id: u64, sizes: &[Option<u64>], msgs: &[TimeWindow]) -> RecordedCopperList {
    RecordedCopperList { id, payload_raw_bytes: sizes.to_vec(), msgs: msgs.to_vec() }
}

#[test]
fn output_packs_come_in_slot_order() {
    let packs = collect_output_packs(&plan(), &graph()).unwrap();
    assert_eq!(packs.len(), 2);
    assert_eq!((packs[0].culist_index, packs[0].src.as_str()), (0, "detect"));
    assert_eq!((packs[1].culist_index, packs[1].src.as_str()), (1, "cam"));
    let stray = CuExecutionLoop { steps: vec![step(9, Some((0, &["Image"])))] };
    assert_eq!(
        collect_output_packs(&stray, &graph()).unwrap_err().to_string(),
        "Missing node for output pack"
    );
}

#[test]
fn logstats_count_every_connection_and_step() {
    let culists = vec![
        culist(0, &[Some(8), Some(100), None], &[window(50, 90), window(10, 40), window(10, 45)]),
        culist(1, &[None, Some(300), None], &[window(150, 170), window(110, 160), UNSTAMPED]),
        culist(2, &[Some(8)], &[UNSTAMPED]),
    ];
    let stats = compute_logstats(&graph(), Some("m"), &plan(), &culists).unwrap();
    assert_eq!(stats.schema_version, 2);
    assert_eq!(stats.mission.as_deref(), Some("m"));
    assert_eq!(stats.config_signature, build_graph_signature(&graph(), Some("m")));
    assert_eq!(stats.mismatch, Some(LengthMismatch { sizes: 1, msgs: 1, slots: 3 }));
    let image = stats.edges.iter().find(|e| e.key.msg == "Image").unwrap();
    assert_eq!((image.samples, image.none_samples, image.total_raw_bytes), (2, 0, 400));
    assert_eq!(image.rate_hz, Some(Ratio { num: 1_000_000_000, den: 120 }));
    assert_eq!(image.avg_raw_bytes, Some(Ratio { num: 400, den: 2 }));
    let boxes = stats.edges.iter().find(|e| e.key.msg == "Boxes").unwrap();
    assert_eq!((boxes.samples, boxes.none_samples, boxes.valid_time_samples), (3, 1, 2));
    let tasks: Vec<&str> = stats.pipeline.stages.iter().map(|s| s.task.as_str()).collect();
    assert_eq!(tasks, ["detect", "cam"]);
    // detect: 40 and 20; cam: 35 and 50.
    assert_eq!(stats.pipeline.stages[0].duration.mean_ns, Some(30));
    assert_eq!(stats.pipeline.stages[1].duration.mean_ns, Some(42));
    assert_eq!(stats.pipeline.bottleneck.as_ref().unwrap().task, "cam");
    // First message's start to last message's end: 50..45 and 150..None are dropped.
    assert_eq!((stats.perf.samples, stats.perf.valid_time_samples), (3, 0));
}

#[test]
fn signatures_ignore_the_listing_order() {
    assert_eq!(fnv1a64(b""), 0xcbf29ce484222325);
    assert_eq!(fnv1a64(b"a"), 0xaf63dc4c8601ec8c);
    assert_eq!(format_endpoint("radio", &Some("rx".to_string())), "radio/rx");
    let signature = build_graph_signature(&graph(), None);
    let text = "mission=default\nnode|cam|kinds::cam|task\nnode|detect|kinds::detect|task\n\
                node|sink|kinds::sink|task\nedge|cam|detect|Image\nedge|detect|sink|Boxes";
    assert_eq!(signature, format!("fnv1a64:{:016x}", fnv1a64(text.as_bytes())));
    let mut turned = graph();
    turned.nodes.reverse();
    turned.edges.reverse();
    assert_eq!(build_graph_signature(&turned, None), signature);
    turned.nodes[0].flavor = Flavor::Bridge;
    assert_ne!(build_graph_signature(&turned, None), signature);
}

fn samples(entries: &[(&str, &[u64])]) -> StrMap<Vec<u64>> {
    let mut map = StrMap::new();
    for (task, durations) in entries {
        map.insert(task.to_string(), durations.to_vec());
    }
    map
}

#[test]
fn finalize_picks_the_requested_statistic() {
    let input = samples(&[("cam", &[100, 200, 300]), ("imu", &[10])]);
    let mean = finalize_samples(&input, ProfileStat::Mean);
    assert_eq!(mean.get("cam"), Some(&200));
    assert_eq!(mean.get("imu"), Some(&10));

    let max = finalize_samples(&input, ProfileStat::Max);
    assert_eq!(max.get("cam"), Some(&300));

    let p99 = finalize_samples(&input, ProfileStat::P99);
    assert_eq!(p99.get("cam"), Some(&200));
}

#[test]
fn statistics_do_not_depend_on_the_sample_order() {
    let up: Vec<u64> = (1..=200).collect();
    let down: Vec<u64> = up.iter().rev().copied().collect();
    let input = samples(&[("up", &up), ("down", &down), ("none", &[])]);
    let p99 = finalize_samples(&input, ProfileStat::P99);
    assert_eq!(p99.get("up"), Some(&198));
    assert_eq!(p99.get("down"), Some(&198));
    assert_eq!(p99.get("none"), None);
    assert_eq!(ProfileStat::default(), ProfileStat::Mean);
}

#[test]
fn profiles_measure_every_task() {
    let culists = vec![
        culist(0, &[], &[window(50, 90), window(10, 40), window(10, 45)]),
        culist(1, &[], &[window(150, 170), UNSTAMPED, UNSTAMPED]),
    ];
    let profile = compute_schedule_profile(&graph(), &plan(), &culists, ProfileStat::Mean).unwrap();
    let mut expected = StrMap::new();
    expected.insert("detect".to_string(), 30);
    expected.insert("cam".to_string(), 35);
    assert_eq!(profile, PlanProfile { task_duration_ns: expected });
    let stray = CuExecutionLoop { steps: vec![step(9, Some((0, &["Image"])))] };
    assert!(compute_schedule_profile(&graph(), &stray, &culists, ProfileStat::Max).is_err());
}

const TASK_IDS: [&str; 3] = ["src", "transform", "downstream"];

fn synthesized_log() -> Vec<RecordedCopperList> {
    vec![
        culist(0, &[], &[window(1_000, 1_500), window(2_000, 2_300), window(3_000, 4_100)]),
        culist(1, &[], &[window(11_000, 11_400), window(12_000, 12_300), window(13_000, 14_500)]),
    ]
}

fn refuse(_: &TaskTiming) -> CuResult<String> {
    Err(CuError::of("no encoder"))
}

fn object(fields: Vec<(&str, Value)>) -> Value {
    let mut map = serde_json::Map::new();
    for (key, value) in fields {
        map.insert(key.to_string(), value);
    }
    Value::Object(map)
}

fn json_row(row: &TaskTiming) -> CuResult<String> {
    let value = object(vec![
        ("culist_id", Value::from(row.culist_id)),
        ("task_index", Value::from(row.task_index)),
        ("task_id", Value::from(row.task_id.clone())),
        ("start_ns", Value::from(row.start_ns)),
        ("end_ns", Value::from(row.end_ns)),
        ("duration_ns", Value::from(row.duration_ns)),
    ]);
    Ok(serde_json::to_string(&value).unwrap())
}

fn chrome_row(row: &TaskTiming) -> CuResult<String> {
    let event = chrome_event(row);
    let value = object(vec![
        ("name", Value::from(event.name)),
        ("ph", Value::from("X")),
        ("ts", Value::from(event.ts_ns as f64 / 1_000.0)),
        ("dur", Value::from(event.dur_ns as f64 / 1_000.0)),
        ("pid", Value::from(event.pid)),
        ("tid", Value::from(event.tid)),
        ("args", object(vec![("culist_id", Value::from(event.culist_id))])),
    ]);
    Ok(serde_json::to_string(&value).unwrap())
}

#[test]
fn csv_emits_one_row_per_message() {
    let text = export_timing_profile(&synthesized_log(), &TASK_IDS, TimingFormat::Csv, refuse).unwrap();
    let lines: Vec<&str> = text.lines().collect();
    assert_eq!(lines.len(), 7); // header + 2 cycles * 3 messages
    assert_eq!(lines[0], "culist_id,task_index,task_id,start_ns,end_ns,duration_ns");
    assert_eq!(lines[1], "0,0,src,1000,1500,500");
    assert_eq!(lines[3], "0,2,downstream,3000,4100,1100");
    assert_eq!(lines[4], "1,0,src,11000,11400,400");
}

#[test]
fn json_emits_array_of_records() {
    let out = export_timing_profile(&synthesized_log(), &TASK_IDS, TimingFormat::Json, json_row).unwrap();
    let parsed: Vec<Value> = serde_json::from_slice(out.as_bytes()).unwrap();
    assert_eq!(parsed.len(), 6);
    assert_eq!(parsed[0]["culist_id"], 0);
    assert_eq!(parsed[0]["task_id"], "src");
    assert_eq!(parsed[0]["duration_ns"], 500);
    assert_eq!(parsed[5]["culist_id"], 1);
    assert_eq!(parsed[5]["task_index"], 2);
}

#[test]
fn chrome_trace_emits_complete_events_in_microseconds() {
    let out =
        export_timing_profile(&synthesized_log(), &TASK_IDS, TimingFormat::ChromeTrace, chrome_row).unwrap();
    let parsed: Vec<Value> = serde_json::from_slice(out.as_bytes()).unwrap();
    assert_eq!(parsed.len(), 6);
    assert_eq!(parsed[0]["ph"], "X");
    assert_eq!(parsed[0]["name"], "src");
    assert_eq!(parsed[0]["tid"], 0);
    assert_eq!(parsed[0]["args"]["culist_id"], 0);
    assert!((parsed[0]["ts"].as_f64().unwrap() - 1.0).abs() < 1e-9);
    assert!((parsed[0]["dur"].as_f64().unwrap() - 0.5).abs() < 1e-9);
    // Second cycle, third message: start 13_000 ns = 13.0 us, dur 1.5 us.
    assert!((parsed[5]["ts"].as_f64().unwrap() - 13.0).abs() < 1e-9);
    assert!((parsed[5]["dur"].as_f64().unwrap() - 1.5).abs() < 1e-9);
}

#[test]
fn skips_messages_without_stamped_timings() {
    let log = vec![culist(7, &[], &[window(100, 250), UNSTAMPED, window(900, 1_400)])];
    let text = export_timing_profile(&log, &TASK_IDS, TimingFormat::Csv, refuse).unwrap();
    let lines: Vec<&str> = text.lines().collect();
    assert_eq!(lines.len(), 3); // header + 2 stamped messages, unstamped skipped
    assert!(lines[1].starts_with("7,0,src,100,250,150"));
    assert!(lines[2].starts_with("7,2,downstream,900,1400,500"));
}

#[test]
fn csv_quote_escapes_special_characters() {
    assert_eq!(csv_quote("simple"), "simple");
    assert_eq!(csv_quote("bridge::foo::rx::ch"), "bridge::foo::rx::ch");
    assert_eq!(csv_quote("with,comma"), "\"with,comma\"");
    assert_eq!(csv_quote("with\"quote"), "\"with\"\"quote\"");
    assert_eq!(csv_quote("with\nnewline"), "\"with\nnewline\"");
}

#[test]
fn failing_encoders_end_the_export() {
    let told = export_timing_profile(&synthesized_log(), &TASK_IDS, TimingFormat::Json, refuse);
    assert_eq!(told.unwrap_err().to_string(), "no encoder");
    let empty = export_timing_profile(&Vec::new(), &TASK_IDS, TimingFormat::ChromeTrace, refuse).unwrap();
    assert_eq!(empty, "[\n\n]\n");
}

#[test]
fn rows_of_unnamed_tasks_are_numbered() {
    let row = extract_row(3, 5, &TASK_IDS, window(20, 10)).unwrap();
    assert_eq!((row.duration_ns, row.task_id.clone()), (0, None));
    assert_eq!(chrome_event(&row).name, "task_5");
    assert_eq!(extract_row(3, 0, &TASK_IDS, TimeWindow { start_ns: Some(1), end_ns: None }), None);
    assert_eq!(TimingFormat::ChromeTrace.to_string(), "chrome-trace");
}

#[test]
fn the_peak_resident_size_is_read_from_a_status_text() {
    assert_eq!(peak_rss_kb("Name:\tprobe\nVmHWM:\t   1234 kB\nVmRSS:\t 9 kB\n"), 1234);
    assert_eq!(peak_rss_kb("Name:\tprobe\n"), 0);
    assert_eq!(peak_rss_kb("VmHWM:\tmany kB\n"), 0);
}

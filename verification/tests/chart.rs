use fanring::chart::arguments::{arg_value, has_arg};
use fanring::chart::combination::{
    combine_latest_runs, select_run_with_default_mode, ChartError,
};
use fanring::chart::hardware::{
    chart_hardware, configured_hardware, hardware_setting, join_hardware_parts, simplify_cpu_name,
};
use fanring::chart::latency::{
    bar_row, complete_implementation, complete_rows, latency_series, latency_subtitle,
    latency_title, number_of_run, select_run, LatencyRow, Metric,
};
use fanring::chart::layout::{mpmc_heatmap, mpsc_heatmap, Anchor, Cell, Label, Tone};
use fanring::chart::lines::row_starts;
use fanring::chart::page::{
    capacity_footnote, cell_frame, cell_samples, chart_height, chart_subtitle, chart_title,
    chart_width, consumer_counts, is_mpmc, payload_order, payload_rows, payload_title,
    producer_counts, section_top, Frame,
};
use fanring::chart::rows::Row;
use fanring::chart::results::{
    default_output, requested_chart, result_file, results_root, topology, Chart, Measure,
};
use fanring::chart::selection::{implementation_groups, implementation_names, run_is_complete};
use fanring::chart::series::{known_series, present_series, Series};
use fanring::chart::shape::benchmark_shape;
use fanring::chart::summary::{
    legend_place, legend_text, plan_summary, summary_capacity, summary_series, summary_subtitle,
    summary_title, summary_values,
};
use fanring::chart::svg::{finish_svg, replace_first};

fn row(
    run_id: &str,
    mode: &str,
    implementation: &str,
    producers: usize,
    expected_rows: usize,
) -> Row {
    Row {
        run_id: run_id.to_string(),
        cpu: "cpu".to_string(),
        affinity: "physical-first:0,1".to_string(),
        mode: mode.to_string(),
        implementation: implementation.to_string(),
        payload: "u64".to_string(),
        payload_bytes: 8,
        producers,
        consumers: None,
        nominal_capacity: 1,
        capacity_model: Some("per-ring-hwm".to_string()),
        throughput_profile: "saturated".to_string(),
        low_watermark: 1,
        high_watermark: 1,
        sample: 0,
        samples: 1,
        expected_rows,
    }
}

fn chosen(rows: &[Row], list: &[usize]) -> Vec<Row> {
    list.iter().map(|index| rows[*index].clone()).collect()
}

#[test]
fn chart_default_ignores_newer_blocking_run() {
    let rows = vec![
        row("try-run", "try", "fanring", 1, 1),
        row("blocking-run", "blocking", "fanring", 1, 1),
    ];

    let selected = select_run_with_default_mode(&rows, None, Some("try")).unwrap();
    let selected = chosen(&rows, &selected);

    assert_eq!(selected.len(), 1);
    assert_eq!(selected[0].run_id, "try-run");
}

#[test]
fn chart_default_combines_latest_full_run_per_implementation() {
    let rows = vec![
        row("old", "try", "fanring", 1, 4),
        row("old", "try", "fanring", 2, 4),
        row("old", "try", "crossbeam", 1, 4),
        row("old", "try", "crossbeam", 2, 4),
        row("new", "try", "fanring", 1, 2),
        row("new", "try", "fanring", 2, 2),
    ];

    let selected = select_run_with_default_mode(&rows, None, Some("try")).unwrap();
    assert_eq!(selected, [2, 3, 4, 5]);
    let selected = chosen(&rows, &selected);

    assert_eq!(selected.len(), 4);
    assert!(selected
        .iter()
        .any(|row| row.implementation == "fanring" && row.run_id == "new"));
    assert!(selected
        .iter()
        .any(|row| row.implementation == "crossbeam" && row.run_id == "old"));
}

#[test]
fn chart_default_ignores_complete_targeted_run() {
    let rows = vec![
        row("full", "try", "fanring", 1, 4),
        row("full", "try", "fanring", 2, 4),
        row("full", "try", "crossbeam", 1, 4),
        row("full", "try", "crossbeam", 2, 4),
        row("targeted", "try", "fanring", 8, 1),
    ];

    let selected = select_run_with_default_mode(&rows, None, Some("try")).unwrap();
    let selected = chosen(&rows, &selected);

    assert_eq!(selected.len(), 4);
    assert!(selected.iter().all(|row| row.run_id == "full"));
}

#[test]
fn chart_default_does_not_mix_throughput_profiles() {
    let mut rows = vec![
        row("old", "try", "fanring", 1, 4),
        row("old", "try", "fanring", 2, 4),
        row("old", "try", "crossbeam", 1, 4),
        row("old", "try", "crossbeam", 2, 4),
    ];
    for row in &mut rows {
        row.throughput_profile = "uncontrolled".to_string();
        row.low_watermark = 0;
        row.high_watermark = 0;
    }
    rows.extend([
        row("new", "try", "fanring", 1, 2),
        row("new", "try", "fanring", 2, 2),
    ]);

    let selected = select_run_with_default_mode(&rows, None, Some("try")).unwrap();
    let selected = chosen(&rows, &selected);

    assert_eq!(selected.len(), 2);
    assert!(selected.iter().all(|row| row.run_id == "new"));
}

#[test]
fn chart_default_does_not_mix_affinity_policies() {
    let mut rows = vec![
        row("old", "try", "fanring", 1, 2),
        row("old", "try", "fanring", 2, 2),
    ];
    for row in &mut rows {
        row.affinity = "off".to_string();
    }
    rows.extend([
        row("new", "try", "fanring", 1, 2),
        row("new", "try", "fanring", 2, 2),
    ]);

    let selected = select_run_with_default_mode(&rows, None, Some("try")).unwrap();
    let selected = chosen(&rows, &selected);

    assert_eq!(selected.len(), 2);
    assert!(selected.iter().all(|row| row.run_id == "new"));
}

#[test]
fn requested_run_is_found_complete_or_refused() {
    let rows = vec![
        row("a", "try", "fanring", 1, 2),
        row("b", "blocking", "fanring", 1, 1),
        row("a", "try", "fanring", 2, 2),
        row("c", "try", "fanring", 1, 2),
    ];
    let select = |run: &str| select_run_with_default_mode(&rows, Some(run.to_string()), Some("try"));
    assert_eq!(select("a"), Ok(vec![0, 2]));
    assert_eq!(select("b"), Ok(vec![1]));
    assert_eq!(select("c"), Err(ChartError::RunIncomplete("c".to_string())));
    assert_eq!(select("d"), Err(ChartError::RunNotFound("d".to_string())));
    assert_eq!(
        select_run_with_default_mode(&rows, None, Some("other")),
        Err(ChartError::NoCompleteRun)
    );
    assert_eq!(combine_latest_runs(&rows, Some("other")), None);
    assert_eq!(combine_latest_runs(&rows, None), Some(vec![0, 2]));
}

#[test]
fn run_with_mixed_conditions_cannot_be_combined() {
    let mut rows = vec![
        row("a", "try", "fanring", 1, 2),
        row("a", "try", "fanring", 2, 2),
    ];
    rows[1].cpu = "other".to_string();
    assert!(benchmark_shape(&rows, &[0, 1]).is_none());
    assert_eq!(combine_latest_runs(&rows, Some("try")), None);
    let shape = benchmark_shape(&rows, &[0]).unwrap();
    assert_eq!(shape.first, 0);
    assert!(benchmark_shape(&rows, &[]).is_none());
}

#[test]
fn chart_errors_have_texts() {
    assert_eq!(
        ChartError::NoRenderableRows.to_string(),
        "no benchmark rows to render"
    );
    assert_eq!(
        ChartError::NoCompleteRun.to_string(),
        "no complete benchmark run found"
    );
    assert_eq!(
        ChartError::RunNotFound("x".to_string()).to_string(),
        "benchmark run id not found: x"
    );
    assert_eq!(
        ChartError::RunIncomplete("x".to_string()).to_string(),
        "benchmark run is incomplete: x"
    );
}

#[test]
fn joins_configured_hardware_parts() {
    assert_eq!(
        join_hardware_parts(Some("host".to_string()), Some("turbo off".to_string())),
        Some("host, turbo off".to_string())
    );
    assert_eq!(
        join_hardware_parts(Some("host".to_string()), None),
        Some("host".to_string())
    );
}

#[test]
fn simplifies_cpu_brand_markers() {
    assert_eq!(
        simplify_cpu_name("Intel(R) Core(TM) i7 CPU @ 3.20GHz"),
        "Intel Core i7 @ 3.20GHz"
    );
}

#[test]
fn hardware_file_is_read_line_by_line() {
    let content = "# host\r\n label = box \nprefix=old\n\nno value\nprefix = a=b\nempty=\n";
    assert_eq!(hardware_setting(content, "label"), Some("box".to_string()));
    assert_eq!(hardware_setting(content, "prefix"), Some("a=b".to_string()));
    assert_eq!(hardware_setting(content, "empty"), Some(String::new()));
    assert_eq!(hardware_setting(content, "# host"), None);
    assert_eq!(hardware_setting(content, "no value"), None);
    assert_eq!(hardware_setting("", "label"), None);
}

#[test]
fn hardware_comes_from_environment_then_file_then_cpu() {
    let some = |text: &str| Some(text.to_string());
    assert_eq!(
        configured_hardware(some("env"), None, None, "label=file"),
        some("env")
    );
    assert_eq!(
        configured_hardware(some("  "), None, None, "label=file"),
        some("file")
    );
    assert_eq!(
        configured_hardware(None, some("p"), None, "label=\npostfix=q\nprefix=r"),
        some("p, q")
    );
    assert_eq!(configured_hardware(None, None, some("s"), ""), some("s"));
    assert_eq!(configured_hardware(None, None, None, ""), None);
    assert_eq!(chart_hardware(some("host"), "AMD(R) CPU x"), "host");
    assert_eq!(chart_hardware(None, "AMD(R)  CPU x"), "AMD x");
}

#[test]
fn arguments_are_found_by_name() {
    let args = ["--run", "a", "--run", "b", "--summary"].map(str::to_string);
    assert_eq!(arg_value(&args, "--run"), Some("a".to_string()));
    assert_eq!(arg_value(&args, "--summary"), None);
    assert_eq!(arg_value(&args, "--input"), None);
    assert!(has_arg(&args, "--summary"));
    assert!(!has_arg(&args, "--input"));
    assert!(!has_arg(&[], "--run"));
}

#[test]
fn labels_describe_pinning_and_occupancy() {
    let mut one = row("a", "try", "fanring", 1, 1);
    assert_eq!(
        one.affinity_label(),
        "all workers pinned, physical cores first"
    );
    one.affinity = "logical-order:1".to_string();
    assert_eq!(
        one.affinity_label(),
        "all workers pinned in logical CPU order"
    );
    one.affinity = "physical-first".to_string();
    assert_eq!(one.affinity_label(), "physical-first");
    one.nominal_capacity = 8192;
    one.low_watermark = 4096;
    one.high_watermark = 8191;
    assert_eq!(
        one.throughput_profile_label(),
        "saturated occupancy 50-99%"
    );
    one.high_watermark = u64::MAX;
    assert_eq!(
        one.throughput_profile_label(),
        "saturated occupancy 50-2251799813685247%"
    );
    one.nominal_capacity = 0;
    assert_eq!(one.throughput_profile_label(), "saturated");
    one.throughput_profile = "uncontrolled".to_string();
    assert_eq!(one.throughput_profile_label(), "natural queue occupancy");
    one.throughput_profile = "other".to_string();
    assert_eq!(one.throughput_profile_label(), "other");
}

fn latency_row(run_id: &str, implementation: &str, operation: &str) -> LatencyRow {
    LatencyRow {
        run_id: run_id.to_string(),
        cpu: "cpu".to_string(),
        implementation: implementation.to_string(),
        operation: operation.to_string(),
        capacity: 1,
        rounds: 100,
        settle_mode: "sleep".to_string(),
        settle_ns: 50_000,
        p50_ns: 1_000,
        p99_ns: 2_000,
    }
}

fn complete_run(run_id: &str) -> Vec<LatencyRow> {
    latency_series("mpsc")
        .unwrap()
        .iter()
        .flat_map(|series| {
            ["recv_wake", "send_wake"]
                .map(|operation| latency_row(run_id, series.key.as_str(), operation))
        })
        .collect()
}

#[test]
fn selects_latest_complete_run() {
    let mut rows = complete_run("old");
    rows.extend(complete_run("new"));
    rows.push(latency_row("partial", "fanring", "recv_wake"));

    let series = latency_series("mpsc").unwrap();
    let selected = select_run(&rows, &series, None).unwrap();

    assert_eq!(selected.len(), 12);
    assert!(selected.iter().all(|index| rows[*index].run_id == "new"));
}

#[test]
fn combines_latest_compatible_run_for_each_implementation() {
    let mut rows = complete_run("1");
    rows.extend([
        latency_row("2", "crossfire", "recv_wake"),
        latency_row("2", "crossfire", "send_wake"),
    ]);

    let series = latency_series("mpsc").unwrap();
    let selected = select_run(&rows, &series, None).unwrap();

    assert_eq!(selected.len(), series.len() * 2);
    assert!(selected.iter().all(|index| {
        let row = &rows[*index];
        row.run_id
            == if row.implementation == "crossfire" {
                "2"
            } else {
                "1"
            }
    }));
}

#[test]
fn requested_partial_run_is_rejected() {
    let rows = vec![latency_row("partial", "fanring", "recv_wake")];

    let series = latency_series("mpsc").unwrap();
    let error = select_run(&rows, &series, Some("partial".to_string())).unwrap_err();

    assert!(error.to_string().contains("incomplete"));
}

#[test]
fn latency_runs_are_selected_by_name() {
    let mut rows = complete_run("run");
    rows.reverse();
    rows.push(latency_row("run", "unknown", "recv_wake"));
    let series = latency_series("mpsc").unwrap();
    let selected = select_run(&rows, &series, Some("run".to_string())).unwrap();
    let names = selected
        .iter()
        .map(|index| {
            (
                rows[*index].implementation.as_str(),
                rows[*index].operation.as_str(),
            )
        })
        .collect::<Vec<_>>();
    assert_eq!(
        names,
        [
            ("crossbeam-channel", "recv_wake"),
            ("crossbeam-channel", "send_wake"),
            ("crossfire", "recv_wake"),
            ("crossfire", "send_wake"),
            ("fanring", "recv_wake"),
            ("fanring", "send_wake"),
            ("flume", "recv_wake"),
            ("flume", "send_wake"),
            ("kanal", "recv_wake"),
            ("kanal", "send_wake"),
            ("thingbuf", "recv_wake"),
            ("thingbuf", "send_wake"),
        ]
    );
    assert_eq!(
        select_run(&rows, &series, Some("other".to_string())),
        Err(ChartError::RunNotFound("other".to_string()))
    );
    assert_eq!(
        select_run(&rows[..2], &series, None),
        Err(ChartError::NoCompleteRun)
    );
    let list = (0..rows.len()).collect::<Vec<_>>();
    rows.push(latency_row("run", "fanring", "recv_wake"));
    assert!(complete_rows(&rows, &list, &series).is_some());
    let doubled = (0..rows.len()).collect::<Vec<_>>();
    assert!(complete_rows(&rows, &doubled, &series).is_none());
    rows[0].rounds = 1;
    assert!(complete_rows(&rows, &list, &series).is_none());
}

#[test]
fn latency_runs_are_ordered_by_number() {
    assert_eq!(number_of_run("17"), 17);
    assert_eq!(number_of_run("+17"), 17);
    assert_eq!(number_of_run("x"), 0);
    assert_eq!(number_of_run(""), 0);
    assert_eq!(number_of_run("+"), 0);
    assert_eq!(
        number_of_run("340282366920938463463374607431768211455"),
        u128::MAX
    );
    assert_eq!(number_of_run("340282366920938463463374607431768211456"), 0);
    let mut rows = complete_run("10");
    rows.extend(complete_run("9"));
    let series = latency_series("mpsc").unwrap();
    let selected = select_run(&rows, &series, None).unwrap();
    assert!(selected.iter().all(|index| rows[*index].run_id == "10"));
}

#[test]
fn latency_bars_come_from_their_rows() {
    let rows = complete_run("1");
    let list = (0..rows.len()).collect::<Vec<_>>();
    let series = latency_series("mpsc").unwrap();
    assert_eq!(
        bar_row(&rows, &list, &series[1], Metric::RecvMedian),
        Some(2)
    );
    assert_eq!(bar_row(&rows, &list, &series[1], Metric::SendTail), Some(3));
    assert_eq!(bar_row(&rows, &[0, 1], &series[1], Metric::SendTail), None);
    assert_eq!(Metric::SendTail.value(&rows[0]), 2_000);
    assert_eq!(Metric::RecvMedian.value(&rows[0]), 1_000);
    assert_eq!(Metric::SendMedian.operation(), "send_wake");
    assert_eq!(Metric::RecvTail.percentile(), "p99");
    assert!(complete_implementation(&rows, &[0, 1]));
    assert!(!complete_implementation(&rows, &[0]));
    assert!(!complete_implementation(&rows, &[0, 0]));
    assert_eq!(
        latency_title("mpmc"),
        "MPMC blocking wake latency (lower is better)"
    );
    assert_eq!(
        latency_subtitle("host", &rows[0], "50 us"),
        "host; capacity 1; 100 rounds; 50 us sleep settle"
    );
}

#[test]
fn latency_topologies_have_their_series() {
    let keys = |topology: &str| {
        latency_series(topology).map(|series| {
            series
                .into_iter()
                .map(|series| series.key)
                .collect::<Vec<_>>()
        })
    };
    assert_eq!(
        keys("mpmc").unwrap(),
        [
            "fanring-mpmc",
            "crossbeam-channel",
            "crossfire-mpmc",
            "flume",
            "kanal"
        ]
    );
    assert_eq!(keys("mpsc").unwrap().len(), 6);
    assert_eq!(keys("spsc"), None);
}

fn summary_row(implementation: &str, consumers: Option<usize>) -> Row {
    let mut one = row("run", "try", implementation, 4, 1);
    one.consumers = consumers;
    one.nominal_capacity = 8192;
    one.low_watermark = 4096;
    one.high_watermark = 8192;
    one
}

#[test]
fn summary_uses_same_series_for_both_groups() {
    let series = summary_series();
    let mpsc = series
        .iter()
        .map(|series| summary_row(series.mpsc_key.as_str(), None))
        .collect::<Vec<_>>();
    let mpmc = series
        .iter()
        .filter_map(|series| series.mpmc_key.as_deref().map(|key| summary_row(key, Some(4))))
        .collect::<Vec<_>>();

    let mpsc_bars = summary_values(&mpsc, &series, false);
    let mpmc_bars = summary_values(&mpmc, &series, true);
    let shown = |bars: &[Vec<usize>]| bars.iter().filter(|bar| !bar.is_empty()).count();
    assert_eq!(shown(&mpsc_bars), series.len());
    assert_eq!(shown(&mpmc_bars), 4);
    for (index, series) in series.iter().enumerate() {
        assert_eq!(mpsc_bars[index], [index]);
        assert_eq!(mpmc_bars[index].len(), usize::from(series.mpmc_key.is_some()));
    }

    let plan = plan_summary(&mpsc, &mpmc, &series).unwrap();
    assert_eq!(plan.capacity, 8192);
    assert_eq!(plan.mpsc, mpsc_bars);
    assert_eq!(plan.mpmc, mpmc_bars);
    assert_eq!(
        plan_summary(&mpsc[1..], &mpmc, &series).err(),
        Some(ChartError::NoRenderableRows)
    );
}

#[test]
fn summary_values_leave_out_what_was_not_measured() {
    let series = summary_series();
    let mpsc = vec![
        summary_row("kanal", None),
        summary_row("fanring", None),
        summary_row("fanring", Some(4)),
        summary_row("fanring", None),
    ];
    assert_eq!(
        summary_values(&mpsc, &series, false),
        vec![vec![1, 3], vec![], vec![], vec![], vec![], vec![0]]
    );
    let mpmc = vec![summary_row("flume", Some(4)), summary_row("flume", Some(2))];
    assert_eq!(
        summary_values(&mpmc, &series, true),
        vec![vec![], vec![], vec![], vec![], vec![0], vec![]]
    );
    assert!(summary_values(&[], &series, true).iter().all(Vec::is_empty));
    assert_eq!(
        plan_summary(&mpsc, &mpmc, &series).err(),
        Some(ChartError::NoRenderableRows)
    );
}

#[test]
fn summary_rejects_mixed_throughput_profiles() {
    let mpsc = vec![summary_row("fanring", None)];
    let mut mpmc = vec![summary_row("fanring-mpmc", Some(4))];
    mpmc[0].throughput_profile = "uncontrolled".to_string();
    mpmc[0].low_watermark = 0;
    mpmc[0].high_watermark = 0;

    assert!(summary_capacity(&mpsc, &mpmc).is_err());
}

#[test]
fn summary_rejects_mixed_affinity_policies() {
    let mpsc = vec![summary_row("fanring", None)];
    let mut mpmc = vec![summary_row("fanring-mpmc", Some(4))];
    mpmc[0].affinity = "off".to_string();

    assert!(summary_capacity(&mpsc, &mpmc).is_err());
}

#[test]
fn summary_capacity_is_one_multiple_of_four() {
    let mpsc = vec![summary_row("fanring", None)];
    let mut mpmc = vec![summary_row("fanring-mpmc", Some(4))];
    assert_eq!(summary_capacity(&mpsc, &mpmc), Ok(8192));
    mpmc[0].nominal_capacity = 8196;
    assert_eq!(
        summary_capacity(&mpsc, &mpmc),
        Err(ChartError::NoRenderableRows)
    );
    mpmc[0].payload = "other".to_string();
    assert_eq!(summary_capacity(&mpsc, &mpmc), Ok(8192));
    mpmc[0].payload = "u64".to_string();
    mpmc[0].nominal_capacity = 6;
    assert!(summary_capacity(&[], &mpmc).is_err());
    assert!(summary_capacity(&[], &[]).is_err());
}

#[test]
fn summary_texts_are_written_out() {
    let series = summary_series();
    assert_eq!(
        summary_title(8192),
        "u64 channel throughput with capacity=8192 (higher is better)"
    );
    assert_eq!(
        legend_text(&series[0], 8192),
        "fanring (4 x 2048-item rings)"
    );
    assert_eq!(legend_text(&series[1], 8192), "crossbeam-channel 0.5.16");
    assert_eq!(legend_place(5), (2, 1));
    assert_eq!(
        summary_subtitle("host", &summary_row("fanring", None)),
        "host, all workers pinned, physical cores first, saturated occupancy 50-100%"
    );
}

fn sample_row(implementation: &str, sample: usize, samples: usize) -> Row {
    let mut one = row("run", "try", implementation, 1, samples);
    one.sample = sample;
    one.samples = samples;
    one
}

#[test]
fn complete_run_requires_every_sample() {
    let rows = [sample_row("fanring", 0, 2), sample_row("fanring", 1, 2)];
    assert!(run_is_complete(&rows, &[0, 1]));
    assert!(!run_is_complete(&rows, &[0]));
    assert!(!run_is_complete(&rows, &[0, 0]));
    assert!(!run_is_complete(&rows, &[]));
}

#[test]
fn unknown_implementations_are_rendered() {
    let rows = [
        sample_row("fanring", 0, 1),
        sample_row("new-channel", 0, 1),
    ];
    let present = present_series(&rows, &[0, 1])
        .into_iter()
        .map(|series| (series.key, series.label))
        .collect::<Vec<_>>();
    assert_eq!(
        present,
        vec![
            ("fanring".to_string(), "fanring".to_string()),
            ("new-channel".to_string(), "new-channel".to_string())
        ]
    );
    let unknown_only = present_series(&rows, &[1]);
    assert_eq!(unknown_only.len(), 1);
    assert_eq!(unknown_only[0].label, "new-channel");
}

#[test]
fn known_implementations_keep_their_order() {
    let keys = known_series()
        .into_iter()
        .map(|series| series.key)
        .collect::<Vec<_>>();
    assert_eq!(
        keys,
        [
            "fanring",
            "fanring-mpmc",
            "crossbeam-channel",
            "concurrent-queue",
            "thingbuf",
            "flume",
            "kanal"
        ]
    );
    let rows = ["zeta", "kanal", "alpha", "fanring", "zeta"].map(|name| sample_row(name, 0, 1));
    let list = [0, 1, 2, 3, 4];
    let present = present_series(&rows, &list)
        .into_iter()
        .map(|series| series.key)
        .collect::<Vec<_>>();
    assert_eq!(present, ["fanring", "kanal", "alpha", "zeta"]);
    assert_eq!(
        implementation_names(&rows, &list),
        ["alpha", "fanring", "kanal", "zeta"]
    );
    assert_eq!(
        implementation_groups(&rows, &list),
        [vec![2], vec![3], vec![1], vec![0, 4]]
    );
}

#[test]
fn payloads_are_ordered_by_size_and_name() {
    let mut rows = ["a", "b", "c", "a"].map(|payload| {
        let mut one = row("run", "try", "fanring", 2, 1);
        one.payload = payload.to_string();
        one
    });
    rows[0].payload_bytes = 64;
    rows[1].payload_bytes = 16;
    rows[3].payload_bytes = 16;
    rows[3].producers = 1;
    let list = [0, 1, 2, 3];
    let order = payload_order(&rows, &list)
        .into_iter()
        .map(|payload| (payload.name, payload.bytes))
        .collect::<Vec<_>>();
    assert_eq!(
        order,
        [
            ("c".to_string(), 8),
            ("a".to_string(), 16),
            ("b".to_string(), 16)
        ]
    );
    assert_eq!(payload_rows(&rows, &list, "a"), [0, 3]);
    assert_eq!(producer_counts(&rows, &list), [1, 2]);
    assert!(consumer_counts(&rows, &list).is_empty());
    assert!(!is_mpmc(&rows, &list));
    assert_eq!(payload_title(&rows, &[1]), "b (16 B)");
    assert_eq!(payload_title(&rows, &[]), "payload");
    assert_eq!(cell_samples(&rows, &list, "fanring", 2, 0), [0, 1, 2]);
    assert!(cell_samples(&rows, &list, "flume", 2, 0).is_empty());
    rows[2].consumers = Some(3);
    assert!(is_mpmc(&rows, &list));
    assert_eq!(consumer_counts(&rows, &list), [3]);
    assert_eq!(cell_samples(&rows, &list, "fanring", 2, 3), [2]);
}

#[test]
fn pages_grow_with_their_payloads() {
    assert_eq!(chart_width(true), 1440);
    assert_eq!(chart_width(false), 1024);
    assert_eq!(chart_height(3), 790);
    assert_eq!(section_top(2), 530);
    assert_eq!(chart_title(true), "fanring MPMC comparison");
    assert_eq!(
        cell_frame(184, 68, 101, 25),
        Frame {
            x0: 186,
            y0: 70,
            x1: 283,
            y1: 91,
            cx: 234,
            cy: 80,
        }
    );
    let mut rows = [row("run", "try", "fanring", 2, 1)];
    rows[0].cpu = "Intel(R) CPU i7 @ 3.20GHz".to_string();
    assert_eq!(
        chart_subtitle(&rows, &[0]),
        "Intel i7; try operations; 1 samples; nominal capacity 1 items"
    );
    assert_eq!(chart_subtitle(&rows, &[]), "unknown CPU");
    assert_eq!(
        capacity_footnote(&rows, &[0], false),
        "Capacity: fanring uses per-ring HWM; others use one shared bound"
    );
    assert_eq!(
        capacity_footnote(&rows, &[0], true),
        "Capacity: fanring uses per-ring HWM plus receiver staging; others use one shared bound"
    );
    rows[0].capacity_model = None;
    assert_eq!(
        capacity_footnote(&rows, &[0], true),
        "Legacy results: capacity model was not recorded"
    );
}

fn two_series() -> Vec<Series> {
    ["fanring", "flume"]
        .into_iter()
        .map(|name| Series {
            key: name.to_string(),
            label: name.to_string(),
        })
        .collect()
}

fn label(text: &str, x: i32, y: i32, anchor: Anchor, tone: Tone) -> Label {
    Label {
        text: text.to_string(),
        x,
        y,
        anchor,
        tone,
    }
}

#[test]
fn mpsc_heatmap_has_a_column_per_producer_count() {
    let map = mpsc_heatmap(&two_series(), &[1, 4], 58, 1024);
    assert_eq!(
        map.labels,
        [
            label("implementation", 28, 104, Anchor::Left, Tone::Muted),
            label("producer threads", 592, 96, Anchor::Center, Tone::Muted),
            label("1", 388, 114, Anchor::Center, Tone::Plain),
            label("4", 796, 114, Anchor::Center, Tone::Plain),
            label("fanring", 28, 138, Anchor::Left, Tone::Accent),
            label("flume", 28, 163, Anchor::Left, Tone::Plain),
        ]
    );
    let cell = |x: i32, y: i32, series: usize, producers: usize| Cell {
        x,
        y,
        width: 408,
        height: 25,
        series,
        producers,
        consumers: 0,
    };
    assert_eq!(
        map.cells,
        [
            cell(184, 126, 0, 1),
            cell(592, 126, 0, 4),
            cell(184, 151, 1, 1),
            cell(592, 151, 1, 4),
        ]
    );
    assert_eq!(map.separator, 293);
}

#[test]
fn mpmc_heatmap_groups_consumers_by_producers() {
    let map = mpmc_heatmap(&two_series()[..1], &[1, 4], &[2, 8], 0, 1440);
    assert_eq!(
        map.labels,
        [
            label("producer threads", 172, 39, Anchor::Right, Tone::Muted),
            label("consumer threads", 172, 61, Anchor::Right, Tone::Muted),
            label("implementation", 28, 78, Anchor::Left, Tone::Muted),
            label("1", 490, 39, Anchor::Center, Tone::Plain),
            label("2", 337, 61, Anchor::Center, Tone::Plain),
            label("8", 643, 61, Anchor::Center, Tone::Plain),
            label("4", 1110, 39, Anchor::Center, Tone::Plain),
            label("2", 957, 61, Anchor::Center, Tone::Plain),
            label("8", 1263, 61, Anchor::Center, Tone::Plain),
            label("fanring", 28, 103, Anchor::Left, Tone::Accent),
        ]
    );
    let places = map
        .cells
        .iter()
        .map(|cell| (cell.x, cell.y, cell.width, cell.producers, cell.consumers))
        .collect::<Vec<_>>();
    assert_eq!(
        places,
        [
            (184, 89, 306, 1, 2),
            (490, 89, 306, 1, 8),
            (804, 89, 306, 4, 2),
            (1110, 89, 306, 4, 8),
        ]
    );
    assert_eq!(map.separator, 235);
}

#[test]
fn interrupted_rows_are_found_again() {
    let line = "{\"run_id\":\"a\",\"cp{\"run_id\":\"b\"}";
    assert_eq!(row_starts(line.as_bytes()), [0, 17]);
    assert!(row_starts(b"{\"run\"").is_empty());
}

#[test]
fn drawings_scale_with_the_page() {
    let drawn = "<svg width=\"850\" height=\"430\" viewBox=\"0 0 850 430\" xmlns=\"http://www.w3.org/2000/svg\">\n</svg>";
    assert_eq!(
        finish_svg(drawn, 850, 430),
        "<svg viewBox=\"0 0 850 430\" xmlns=\"http://www.w3.org/2000/svg\" font-family=\"system-ui, -apple-system, sans-serif\">\n</svg>"
    );
    assert_eq!(replace_first("aXbX", "X", "--"), "a--bX");
    assert_eq!(replace_first("ab", "X", "--"), "ab");
    assert_eq!(replace_first("ab", "", "-"), "-ab");
}

#[test]
fn default_chart_shows_the_newest_whole_groups() {
    let rows = vec![
        row("a", "try", "kanal", 1, 4),
        row("a", "try", "fanring", 1, 4),
        row("a", "try", "kanal", 2, 4),
        row("a", "try", "fanring", 2, 4),
        row("b", "try", "kanal", 2, 2),
        row("b", "try", "kanal", 1, 2),
        row("c", "try", "fanring", 1, 1),
        row("d", "try", "flume", 1, 3),
        row("d", "try", "flume", 2, 3),
    ];
    let selected = select_run_with_default_mode(&rows, None, Some("try")).unwrap();
    assert_eq!(selected, [1, 3, 4, 5]);
}

#[test]
fn requested_charts_have_their_files() {
    let args = |list: &[&str]| list.iter().map(|arg| arg.to_string()).collect::<Vec<_>>();
    let detail = requested_chart(&args(&["--run", "a"]));
    assert_eq!(detail, Chart::Detail(false));
    assert_eq!(default_output(&detail), "doc/charts/throughput-mpsc.svg");
    let detail = requested_chart(&args(&["--mpmc", "--results-dir", "x"]));
    assert_eq!(detail, Chart::Detail(true));
    assert_eq!(default_output(&detail), "doc/charts/throughput-mpmc.svg");
    let summary = requested_chart(&args(&["--mpmc", "--summary", "--latency"]));
    assert_eq!(summary, Chart::Summary);
    assert_eq!(default_output(&summary), "doc/charts/throughput-summary.svg");
    let latency = requested_chart(&args(&["--summary", "--latency", "mpmc"]));
    assert_eq!(latency, Chart::Latency("mpmc".to_string()));
    assert_eq!(default_output(&latency), "doc/charts/latency-mpmc.svg");

    assert_eq!(topology(false), "mpsc");
    assert_eq!(topology(true), "mpmc");
    assert_eq!(
        result_file(Measure::Throughput, "mpmc"),
        "throughput-mpmc.jsonl"
    );
    assert_eq!(result_file(Measure::Latency, "mpsc"), "latency-mpsc.jsonl");
}

#[test]
fn results_lie_where_argument_environment_or_home_say() {
    let text = |text: &str| Some(text.to_string());
    assert_eq!(
        results_root(text("/a"), text("/b"), text("/c")),
        text("/a")
    );
    assert_eq!(results_root(None, text("/b"), text("/c")), text("/b"));
    assert_eq!(
        results_root(None, None, text("/c")),
        text("/c/.cache/fanring")
    );
    assert_eq!(results_root(None, None, None), None);
}

#[test]
fn heatmaps_may_be_wide() {
    let series = two_series();
    let map = mpsc_heatmap(&series, &[1, 2], 0, 20_208);
    assert_eq!((map.cells[1].x, map.cells[1].width), (10_184, 10_000));
    let map = mpmc_heatmap(&series, &[1, 2], &[1], 0, i32::MAX);
    assert_eq!(map.cells[0].width, (i32::MAX - 216) / 2);
    assert_eq!(map.cells[1].x, 184 + 8 + (i32::MAX - 216) / 2);
}

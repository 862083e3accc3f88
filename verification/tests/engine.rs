//! Scheduler and snapshot behaviour, end to end on concrete values.

use colmet::backends::expand_job_requests;
use colmet::backends::MemoryBackend;
use colmet::catalog::BackendGroup;
use colmet::catalog::Catalog;
use colmet::cgroup_manager::CgroupEntry;
use colmet::metric::Metric;
use colmet::metric::MetricValues;
use colmet::scheduler::BackendsManager;

fn test_catalog() -> Catalog {
    let groups = vec![
        BackendGroup {
            backend_name: String::from("memory"),
            metric_names: vec![String::from("cache"), String::from("pgfault")],
        },
        BackendGroup {
            backend_name: String::from("cpu"),
            metric_names: vec![String::from("nr_periods")],
        },
    ];
    Catalog::new(1, &groups)
}

fn subscription(name: &str, period_ms: i64, job_id: i32, countdown_ms: i64) -> Metric {
    Metric {
        job_id,
        metric_name: String::from(name),
        backend_name: String::from("null"),
        sampling_period: period_ms,
        time_remaining_before_next_measure: countdown_ms,
    }
}

fn bundle(job_id: i32, backend: &str, names: &[&str], values: &[i64]) -> MetricValues {
    MetricValues {
        job_id,
        backend_name: String::from(backend),
        metric_names: names.iter().map(|n| String::from(*n)).collect(),
        metric_values: values.to_vec(),
    }
}

#[test]
fn due_detection_resets_only_expired_countdowns() {
    // Countdowns [500, 1200, 1200] and 600 ms elapsed: exactly the first
    // subscription comes due; the others keep counting down.
    let metrics = vec![
        subscription("cache", -1, 7, 500),
        subscription("pgfault", -1, 7, 1200),
        subscription("nr_periods", -1, 7, 1200),
    ];
    let mut mgr = BackendsManager::new(1000, metrics, test_catalog()).unwrap();
    let groups = mgr.get_metrics_to_collect_now(600);
    assert_eq!(groups.len(), 1);
    assert_eq!(groups[0].backend_name, "memory");
    assert_eq!(groups[0].jobs.len(), 1);
    assert_eq!(groups[0].jobs[0].job_id, 7);
    assert_eq!(groups[0].jobs[0].metrics.len(), 1);
    assert_eq!(groups[0].jobs[0].metrics[0].metric_name, "cache");
    let after: Vec<i64> = mgr
        .metrics_to_get
        .iter()
        .map(|m| m.time_remaining_before_next_measure)
        .collect();
    assert_eq!(after, vec![1000, 600, 600]);
}

#[test]
fn wildcard_subscription_expands_per_known_job() {
    // A wildcard subscription and two known jobs become two per-job
    // requests carrying the same metric and backend.
    let metrics = vec![subscription("cache", -1, -1, 0)];
    let mut mgr = BackendsManager::new(1000, metrics, test_catalog()).unwrap();
    let groups = mgr.get_metrics_to_collect_now(0);
    assert_eq!(groups.len(), 1);
    let cgroups = vec![
        CgroupEntry { job_id: 7, cgroup_name: String::from("batch_7") },
        CgroupEntry { job_id: 9, cgroup_name: String::from("batch_9") },
    ];
    let work = expand_job_requests(&groups[0].jobs, &cgroups);
    assert_eq!(work.len(), 2);
    assert_eq!(work[0].job_id, 7);
    assert_eq!(work[0].cgroup_name, "batch_7");
    assert_eq!(work[1].job_id, 9);
    assert_eq!(work[1].cgroup_name, "batch_9");
    for item in &work {
        assert_eq!(item.metrics.len(), 1);
        assert_eq!(item.metrics[0].metric_name, "cache");
        assert_eq!(item.metrics[0].backend_name, "memory");
    }
}

#[test]
fn explicit_job_no_longer_known_is_dropped() {
    let metrics = vec![subscription("cache", -1, 5, 0)];
    let mut mgr = BackendsManager::new(1000, metrics, test_catalog()).unwrap();
    let groups = mgr.get_metrics_to_collect_now(0);
    let cgroups = vec![CgroupEntry { job_id: 9, cgroup_name: String::from("batch_9") }];
    let work = expand_job_requests(&groups[0].jobs, &cgroups);
    assert!(work.is_empty());
}

fn assert_bundles_equal(a: &MetricValues, b: &MetricValues) {
    assert_eq!(a.job_id, b.job_id);
    assert_eq!(a.backend_name, b.backend_name);
    assert_eq!(a.metric_names, b.metric_names);
    assert_eq!(a.metric_values, b.metric_values);
}

#[test]
fn merging_identical_bundle_twice_equals_merging_once() {
    let metrics = vec![subscription("cache", -1, -1, 0)];
    let mgr = BackendsManager::new(1000, metrics, test_catalog()).unwrap();
    let existing = vec![
        bundle(42, "memory", &["0", "1"], &[10, 20]),
        bundle(42, "cpu", &["2"], &[30]),
    ];
    let incoming = bundle(42, "memory", &["0", "1"], &[11, 21]);
    let once = mgr.update_measurement(existing, incoming);
    let incoming_again = bundle(42, "memory", &["0", "1"], &[11, 21]);
    let existing_again = vec![
        bundle(42, "memory", &["0", "1"], &[11, 21]),
        bundle(42, "cpu", &["2"], &[30]),
    ];
    let twice = mgr.update_measurement(existing_again, incoming_again);
    assert_eq!(once.len(), 2);
    assert_eq!(twice.len(), 2);
    for (a, b) in once.iter().zip(twice.iter()) {
        assert_bundles_equal(a, b);
    }
    // Values replaced in place, not duplicated or appended.
    assert_eq!(once[0].metric_values, vec![11, 21]);
    assert_eq!(once[1].metric_values, vec![30]);
}

#[test]
fn merge_appends_when_no_bundle_matches() {
    let metrics = vec![subscription("cache", -1, -1, 0)];
    let mgr = BackendsManager::new(1000, metrics, test_catalog()).unwrap();
    let existing = vec![bundle(42, "memory", &["0"], &[10])];
    let incoming = bundle(42, "cpu", &["2"], &[30]);
    let merged = mgr.update_measurement(existing, incoming);
    assert_eq!(merged.len(), 2);
    assert_eq!(merged[1].backend_name, "cpu");
    assert_eq!(merged[1].metric_values, vec![30]);
}

#[test]
fn merge_measure_rejects_unknown_metric_name() {
    let metrics = vec![subscription("cache", -1, -1, 0)];
    let mut mgr = BackendsManager::new(1000, metrics, test_catalog()).unwrap();
    let values = bundle(42, "memory", &["no_such_metric"], &[1]);
    let ok = mgr.merge_measure(42, values, &String::from("node1"), 1000);
    assert!(!ok);
    assert!(mgr.last_measurement.is_empty());
}

#[test]
fn reconfiguration_discards_stale_snapshot() {
    // After update_metrics_to_get, the next tick's snapshot holds only
    // entries produced after the call.
    let metrics = vec![subscription("cache", -1, -1, 0)];
    let mut mgr = BackendsManager::new(1000, metrics, test_catalog()).unwrap();
    let due = mgr.make_measure(1000);
    assert!(due.is_some());
    let values = bundle(42, "memory", &["cache"], &[123]);
    assert!(mgr.merge_measure(42, values, &String::from("node1"), 1000));
    assert_eq!(mgr.last_measurement.len(), 1);

    let new_metrics = vec![subscription("pgfault", -1, -1, 0)];
    assert!(mgr.update_metrics_to_get(1000, &new_metrics));
    assert_eq!(mgr.last_measurement.len(), 1, "snapshot is discarded lazily, on the next tick");

    let _ = mgr.make_measure(2000);
    assert!(mgr.last_measurement.is_empty());
    let values = bundle(43, "memory", &["pgfault"], &[5]);
    assert!(mgr.merge_measure(43, values, &String::from("node1"), 2000));
    assert_eq!(mgr.last_measurement.len(), 1);
    assert_eq!(mgr.last_measurement[0].job_id, 43);
}

#[test]
fn rejected_reconfiguration_changes_nothing() {
    let metrics = vec![subscription("cache", -1, -1, 0)];
    let mut mgr = BackendsManager::new(1000, metrics, test_catalog()).unwrap();
    let bad = vec![subscription("no_such_metric", -1, -1, 0)];
    assert!(!mgr.update_metrics_to_get(500, &bad));
    assert_eq!(mgr.sample_period, 1000);
    assert_eq!(mgr.metrics_to_get.len(), 1);
    assert_eq!(mgr.metrics_to_get[0].metric_name, "cache");
    assert!(!mgr.metrics_modified);
}

#[test]
fn ten_second_subscription_fires_on_the_tenth_second() {
    // Base period 1 s, one subscription cache:10:-1, one job 42: ticks at
    // t = 0, 1, ..., 9 s dispatch nothing; at t = 10 s the Memory backend
    // is invoked for job 42 and the snapshot gains one entry.
    let spec = colmet::parse::parse_metrics("cache:10:-1").unwrap();
    assert_eq!(spec.len(), 1);
    assert_eq!(spec[0].sampling_period, 10000);
    assert_eq!(spec[0].job_id, -1);
    let mut mgr = BackendsManager::new(1000, spec, test_catalog()).unwrap();
    let cgroups = vec![CgroupEntry { job_id: 42, cgroup_name: String::from("batch_42") }];
    let hostname = String::from("node1");
    let memory = MemoryBackend::new();

    // Wall-clock ticks; t counts seconds since the first tick.
    let base = 1_000_000i64;
    for tick in 0..10i64 {
        let due = mgr.make_measure(base + tick * 1000);
        assert!(due.is_none(), "nothing is due at t = {} s", tick);
    }
    let due = mgr.make_measure(base + 10000).expect("the subscription is due at t = 10 s");
    assert_eq!(due.len(), 1);
    assert_eq!(due[0].backend_name, "memory");
    let work = expand_job_requests(&due[0].jobs, &cgroups);
    assert_eq!(work.len(), 1);
    assert_eq!(work[0].job_id, 42);
    let content = "cache 777\npgfault 3\n";
    let observed = memory.return_values(&work[0], content).unwrap();
    assert_eq!(observed.metric_values, vec![777]);
    assert!(mgr.merge_measure(42, observed, &hostname, base + 10000));
    assert_eq!(mgr.last_measurement.len(), 1);
    let entry = &mgr.last_measurement[0];
    assert_eq!(entry.job_id, 42);
    assert_eq!(entry.hostname, "node1");
    assert_eq!(entry.timestamp, base + 10000);
    assert_eq!(entry.version, 1);
    assert_eq!(entry.measures.len(), 1);
    assert_eq!(entry.measures[0].metric_names, vec![String::from("0")]);
    assert_eq!(entry.measures[0].metric_values, vec![777]);
}

#[test]
fn sleep_time_is_the_smallest_countdown_in_nanoseconds() {
    let metrics = vec![
        subscription("cache", -1, -1, 900),
        subscription("pgfault", -1, -1, 400),
        subscription("nr_periods", -1, -1, 1700),
    ];
    let mut mgr = BackendsManager::new(1000, metrics, test_catalog()).unwrap();
    let ns = mgr.get_sleep_time();
    assert_eq!(ns, 400_000_000u128);
    // The list is now sorted by urgency.
    assert_eq!(mgr.metrics_to_get[0].metric_name, "pgfault");
    assert_eq!(mgr.metrics_to_get[2].metric_name, "nr_periods");
}

#[test]
fn first_tick_measures_immediately_and_realigns() {
    // A fresh engine from a plain subscription starts with the parser's
    // countdown of -1000 ms, so the very first tick collects everything.
    let spec = colmet::parse::parse_metrics("cache").unwrap();
    let mut mgr = BackendsManager::new(2000, spec, test_catalog()).unwrap();
    let due = mgr.make_measure(5000).expect("everything is due on the first tick");
    assert_eq!(due.len(), 1);
    // The countdown is reset to the base period.
    assert_eq!(mgr.metrics_to_get[0].time_remaining_before_next_measure, 2000);
    assert_eq!(mgr.last_timestamp, 5000);
}

#[test]
fn engine_rejects_bad_configurations() {
    // An unknown metric name is a configuration error.
    let unknown = vec![subscription("no_such_metric", -1, -1, 0)];
    assert!(BackendsManager::new(1000, unknown, test_catalog()).is_none());
    // A period that is neither the sentinel nor positive is rejected.
    let zero_period = vec![subscription("cache", 0, -1, 0)];
    assert!(BackendsManager::new(1000, zero_period, test_catalog()).is_none());
    let negative_period = vec![subscription("cache", -7000, -1, 0)];
    assert!(BackendsManager::new(1000, negative_period, test_catalog()).is_none());
}

#[test]
fn engine_normalizes_periods_against_the_base() {
    let metrics = vec![subscription("cache", 1600, -1, 1600)];
    let mgr = BackendsManager::new(1000, metrics, test_catalog()).unwrap();
    assert_eq!(mgr.metrics_to_get[0].sampling_period, 2000);
    // The countdown itself is left as requested.
    assert_eq!(mgr.metrics_to_get[0].time_remaining_before_next_measure, 1600);
    assert_eq!(mgr.metrics_to_get[0].backend_name, "memory");
}

#[test]
fn counter_request_strings_are_nul_terminated() {
    let perfhw = colmet::backends::PerfhwBackend::new();
    let jc = colmet::backends::JobCollection {
        job_id: 7,
        cgroup_name: String::from("batch_7"),
        metrics: vec![subscription("instructions", -1, 7, 0), subscription("page_faults", -1, 7, 0)],
    };
    let (cgroup_arg, names_arg) = perfhw.request_strings(&jc);
    assert_eq!(cgroup_arg, "/oar/batch_7\u{0}");
    assert_eq!(names_arg, " instructions page_faults\u{0}");
    let observed = perfhw.return_values(&jc, vec![123, 456]);
    assert_eq!(observed.backend_name, "Perfhw");
    assert_eq!(observed.metric_names, vec![String::from("instructions"), String::from("page_faults")]);
    assert_eq!(observed.metric_values, vec![123, 456]);
}

//! Parsers, rounding, the catalog, and the job table on concrete values.

use colmet::catalog::compress_metric_names;
use colmet::catalog::BackendGroup;
use colmet::catalog::Catalog;
use colmet::cgroup_manager::extract_job_id;
use colmet::cgroup_manager::CgroupManager;
use colmet::duration_to_next_multiple;
use colmet::parse::parse_metrics;
use colmet::parse::parse_seconds_ms;
use colmet::sampling::round_sampling;
use colmet::stats::get_metric_names;
use colmet::stats::get_metric_values;
use colmet::stats::parse_i64_str;
use colmet::metric::Metric;

fn named_metric(name: &str) -> Metric {
    Metric {
        job_id: -1,
        metric_name: String::from(name),
        backend_name: String::from("null"),
        sampling_period: -1,
        time_remaining_before_next_measure: -1000,
    }
}

#[test]
fn rounding_picks_the_closer_multiple() {
    // Candidates for 1.6 s on a 1 s grid are 1 s and 2 s; 2 s is closer.
    assert_eq!(round_sampling(1000, 1600), 2000);
    assert_eq!(round_sampling(1000, 1400), 1000);
    assert_eq!(round_sampling(1000, 3000), 3000);
}

#[test]
fn rounding_picks_the_closer_divisor() {
    // Divisors of 1 s bracketing 0.6 s are 0.5 s and 1 s; 0.5 s is closer.
    assert_eq!(round_sampling(1000, 600), 500);
    assert_eq!(round_sampling(1000, 250), 250);
    assert_eq!(round_sampling(1000, 900), 1000);
    assert_eq!(round_sampling(1000, 1000), 1000);
}

#[test]
fn rounding_ties_resolve_to_the_lower_candidate() {
    // 1.5 s is equally far from 1 s and 2 s.
    assert_eq!(round_sampling(1000, 1500), 1000);
    // 0.75 s is equally far from the divisors 0.5 s and 1 s.
    assert_eq!(round_sampling(1000, 750), 500);
}

#[test]
fn parse_metrics_full_entry() {
    let metrics = parse_metrics("cache:1.5:7").unwrap();
    assert_eq!(metrics.len(), 1);
    assert_eq!(metrics[0].metric_name, "cache");
    assert_eq!(metrics[0].sampling_period, 1500);
    assert_eq!(metrics[0].time_remaining_before_next_measure, 1500);
    assert_eq!(metrics[0].job_id, 7);
    assert_eq!(metrics[0].backend_name, "null");
}

#[test]
fn parse_metrics_bare_names_use_the_sentinels() {
    let metrics = parse_metrics("cache,pgfault").unwrap();
    assert_eq!(metrics.len(), 2);
    for m in &metrics {
        assert_eq!(m.sampling_period, -1);
        assert_eq!(m.job_id, -1);
        assert_eq!(m.time_remaining_before_next_measure, -1000);
    }
    assert_eq!(metrics[0].metric_name, "cache");
    assert_eq!(metrics[1].metric_name, "pgfault");
}

#[test]
fn parse_metrics_explicit_sentinel_period() {
    let metrics = parse_metrics("cache:-1:3").unwrap();
    assert_eq!(metrics[0].sampling_period, -1);
    assert_eq!(metrics[0].time_remaining_before_next_measure, -1000);
    assert_eq!(metrics[0].job_id, 3);
}

#[test]
fn parse_metrics_wrong_field_count_invalidates_everything() {
    assert!(parse_metrics("cache:10").is_none());
    assert!(parse_metrics("good,cache:1:2:3").is_none());
    assert!(parse_metrics("cache:ten:-1").is_none());
    assert!(parse_metrics("cache:10:x").is_none());
}

#[test]
fn seconds_parse_truncates_to_milliseconds() {
    assert_eq!(parse_seconds_ms("2"), Some(2000));
    assert_eq!(parse_seconds_ms("1.5"), Some(1500));
    assert_eq!(parse_seconds_ms("-1"), Some(-1000));
    assert_eq!(parse_seconds_ms(".5"), Some(500));
    assert_eq!(parse_seconds_ms("2."), Some(2000));
    assert_eq!(parse_seconds_ms("0.1234"), Some(123));
    assert_eq!(parse_seconds_ms(""), None);
    assert_eq!(parse_seconds_ms("-"), None);
    assert_eq!(parse_seconds_ms("."), None);
    assert_eq!(parse_seconds_ms("1e3"), None);
}

#[test]
fn decimal_parse_accepts_signs_and_rejects_junk() {
    assert_eq!(parse_i64_str("123"), Some(123));
    assert_eq!(parse_i64_str("-45"), Some(-45));
    assert_eq!(parse_i64_str("+6"), Some(6));
    assert_eq!(parse_i64_str("9223372036854775807"), Some(i64::MAX));
    assert_eq!(parse_i64_str("-9223372036854775808"), Some(i64::MIN));
    assert_eq!(parse_i64_str("9223372036854775808"), None);
    assert_eq!(parse_i64_str("12a"), None);
    assert_eq!(parse_i64_str(""), None);
}

#[test]
fn stats_values_project_in_request_order() {
    let content = "user 10\nsystem 20\nnr_periods 30\n";
    let requested = vec![named_metric("system"), named_metric("user")];
    assert_eq!(get_metric_values(content, &requested), Some(vec![20, 10]));
}

#[test]
fn stats_last_occurrence_of_a_repeated_key_wins() {
    let content = "user 10\nuser 11\n";
    let requested = vec![named_metric("user")];
    assert_eq!(get_metric_values(content, &requested), Some(vec![11]));
}

#[test]
fn stats_failures_yield_nothing() {
    let requested = vec![named_metric("user")];
    // A full line without a space is a malformed file.
    assert_eq!(get_metric_values("user 10\nbroken\n", &requested), None);
    // A requested metric missing from the file.
    assert_eq!(get_metric_values("system 20\n", &requested), None);
    // A value that is not an integer.
    assert_eq!(get_metric_values("user ten\n", &requested), None);
}

#[test]
fn stats_piece_after_last_newline_is_ignored() {
    let requested = vec![named_metric("user")];
    // The final piece has no newline, so it is not a full line; a key that
    // only appears there is unavailable.
    assert_eq!(get_metric_values("system 1\nuser 10", &requested), None);
    assert_eq!(get_metric_values("user 10\nsystem 1", &requested), Some(vec![10]));
}

#[test]
fn stats_names_list_every_key_in_order() {
    let content = "cache 1\npgfault 2\ntail_without_newline";
    let names = get_metric_names(content);
    assert_eq!(names, vec![String::from("cache"), String::from("pgfault")]);
}

#[test]
fn catalog_ids_follow_definition_order() {
    let groups = vec![
        BackendGroup {
            backend_name: String::from("memory"),
            metric_names: vec![String::from("cache"), String::from("pgfault")],
        },
        BackendGroup {
            backend_name: String::from("cpu"),
            metric_names: vec![String::from("nr_periods")],
        },
    ];
    let catalog = Catalog::new(7, &groups);
    assert_eq!(catalog.version, 7);
    assert_eq!(catalog.entries.len(), 3);
    let (id, backend) = catalog.lookup(&String::from("nr_periods")).unwrap();
    assert_eq!(id, 2);
    assert_eq!(backend, "cpu");
    assert!(catalog.lookup(&String::from("swap")).is_none());

    let names = vec![String::from("nr_periods"), String::from("cache")];
    let compressed = compress_metric_names(&catalog, &names).unwrap();
    assert_eq!(compressed, vec![String::from("2"), String::from("0")]);
    let unknown = vec![String::from("swap")];
    assert!(compress_metric_names(&catalog, &unknown).is_none());
}

#[test]
fn compressed_ids_can_have_several_digits() {
    let many: Vec<String> = (0..12).map(|i| format!("m{}", i)).collect();
    let groups = vec![BackendGroup {
        backend_name: String::from("memory"),
        metric_names: many.clone(),
    }];
    let catalog = Catalog::new(1, &groups);
    let compressed = compress_metric_names(&catalog, &many).unwrap();
    assert_eq!(compressed[10], "10");
    assert_eq!(compressed[11], "11");
}

#[test]
fn job_table_insert_replace_remove() {
    let mut mgr = CgroupManager::new(
        String::from("_[0-9]+"),
        String::from("/sys/fs/cgroup"),
        String::from("/oar"),
    );
    mgr.add_cgroup(7, String::from("batch_7"));
    mgr.add_cgroup(9, String::from("batch_9"));
    mgr.add_cgroup(7, String::from("batch_7_restarted"));
    let jobs = mgr.get_cgroups();
    assert_eq!(jobs.len(), 2);
    assert_eq!(jobs[0].job_id, 7);
    assert_eq!(jobs[0].cgroup_name, "batch_7_restarted");
    mgr.remove_cgroup(7);
    let jobs = mgr.get_cgroups();
    assert_eq!(jobs.len(), 1);
    assert_eq!(jobs[0].job_id, 9);
    // Removing an unknown id leaves the table alone.
    mgr.remove_cgroup(1234);
    assert_eq!(mgr.get_cgroups().len(), 1);
}

#[test]
fn job_id_extraction_uses_the_configured_pattern() {
    // The matched character before the digits is a separator and is
    // skipped.
    let name = b"batch_123".to_vec();
    assert_eq!(extract_job_id("_[0-9]+", &name), Some(123));
    // No match at all.
    let other = b"system.slice".to_vec();
    assert_eq!(extract_job_id("_[0-9]+", &other), None);
    // A match whose digits overflow a 32-bit id.
    let big = b"batch_99999999999".to_vec();
    assert_eq!(extract_job_id("_[0-9]+", &big), None);
    // An invalid pattern matches nothing rather than aborting.
    assert_eq!(extract_job_id("(", &name), None);
}

#[test]
fn sleep_aligns_to_the_next_round_instant() {
    assert_eq!(duration_to_next_multiple(1234, 100), 66);
    // From an exact multiple the full period passes.
    assert_eq!(duration_to_next_multiple(1300, 100), 100);
}

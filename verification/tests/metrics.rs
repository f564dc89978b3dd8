use cardano_census::histogram::{Histogram, Ratio};
use cardano_census::metrics::{escape, render_failure, Out};

fn labels(pairs: &[(&str, &str)]) -> Vec<(String, String)> {
    pairs.iter().map(|(k, v)| (k.to_string(), v.to_string())).collect()
}

#[test]
fn base_labels_stamp_every_series() {
    let text = render_failure(7, &labels(&[("environment", "preview"), ("group", "preview1")]), "abc123");
    assert!(text.contains("cardano_census_success{environment=\"preview\",group=\"preview1\"} 0\n"));
    assert!(text.contains("cardano_census_last_run_timestamp_seconds{environment=\"preview\",group=\"preview1\"} 7\n"));
    assert!(text.contains("cardano_census_build_info{environment=\"preview\",group=\"preview1\",version=\""));
    assert!(text.contains("rev=\"abc123\"} 1\n"));
}

#[test]
fn series_labels_win_over_base_labels() {
    let mut out = Out::new(&labels(&[("le", "base"), ("env", "x")]));
    out.sample("s", &[("le", "5")], "1");
    assert_eq!(out.text, "cardano_census_s{env=\"x\",le=\"5\"} 1\n");
}

#[test]
fn no_labels_means_no_braces() {
    let mut out = Out::new(&[]);
    out.sample("s", &[], "1");
    assert_eq!(out.text, "cardano_census_s 1\n");
}

#[test]
fn values_are_escaped() {
    assert_eq!(escape("a\\b\"c\nd"), "a\\\\b\\\"c\\nd");
    assert_eq!(escape("plain"), "plain");
    assert_eq!(escape("a\\") + &escape("\nb"), escape("a\\\nb"));
    let mut out = Out::new(&[]);
    out.sample("s", &[("k", "x\"} 2\ny")], "1");
    assert_eq!(out.text, "cardano_census_s{k=\"x\\\"} 2\\ny\"} 1\n");
}

#[test]
fn a_histogram_has_buckets_a_sum_and_a_count() {
    let mut out = Out::new(&[]);
    let seen = [Ratio { num: 1, den: 2 }, Ratio { num: 3, den: 1 }];
    out.histogram("h", "Help", &Histogram::of(&[500, 2000], &seen), "3.5");
    let lines: Vec<&str> = out.text.lines().collect();
    assert_eq!(
        lines,
        vec![
            "# HELP cardano_census_h Help",
            "# TYPE cardano_census_h histogram",
            "cardano_census_h_bucket{le=\"0.5\"} 1",
            "cardano_census_h_bucket{le=\"2\"} 1",
            "cardano_census_h_bucket{le=\"+Inf\"} 2",
            "cardano_census_h_sum 3.5",
            "cardano_census_h_count 2",
        ]
    );
}

use chattiness::aggregate::{merge_sites, process_lines, sites_merge_fits};
use chattiness::corpus::{filter_jsonl, parse_worker_count, site_name_of};
use chattiness::output::{get_output, run_report, Output};
use chattiness::rank::keys_sorted_by_value;
use chattiness::site::Site;
use chattiness::stat::Stat;
use chattiness::Error;

fn owned(pairs: &[(&str, &str)]) -> Vec<(String, String)> {
    let mut out = Vec::new();
    for (site, line) in pairs {
        out.push((site.to_string(), line.to_string()));
    }
    out
}

fn same_sites(a: &Vec<(String, Site)>, b: &Vec<(String, Site)>) -> bool {
    if a.len() != b.len() {
        return false;
    }
    for i in 0..a.len() {
        if a[i].0 != b[i].0 {
            return false;
        }
        let sa = &a[i].1;
        let sb = &b[i].1;
        if sa.questions != sb.questions || sa.words != sb.words || sa.tags.len() != sb.tags.len() {
            return false;
        }
        for j in 0..sa.tags.len() {
            if sa.tags[j].0 != sb.tags[j].0 || sa.tags[j].1 != sb.tags[j].1 {
                return false;
            }
        }
    }
    true
}

#[test]
fn test_output_new() -> Result<(), String> {
    let sites_test: Vec<(String, Site)> = Vec::new();
    let tags_test: Vec<(String, Stat)> = Vec::new();
    let totals_test: Vec<(String, Vec<String>)> = Vec::new();
    let output = Output::new(0, sites_test, tags_test, totals_test);

    assert!(
        output.padron == 0 && output.sites.len() == 0 && output.tags.len() == 0
            && output.totals.len() == 0
    );
    Ok(())
}

#[test]
fn aggregation_is_partition_independent() {
    let all = owned(&[
        ("s1", r#"{"texts": ["a b c"], "tags": ["x"]}"#),
        ("s2", r#"{"texts": ["d"], "tags": ["x", "y"]}"#),
        ("s1", r#"{"texts": ["e f"], "tags": ["y"]}"#),
    ]);
    let one_worker = process_lines(all).expect("aggregation failed");

    let first = owned(&[("s1", r#"{"texts": ["a b c"], "tags": ["x"]}"#)]);
    let second = owned(&[
        ("s2", r#"{"texts": ["d"], "tags": ["x", "y"]}"#),
        ("s1", r#"{"texts": ["e f"], "tags": ["y"]}"#),
    ]);
    let mut left = process_lines(first).expect("aggregation failed");
    let right = process_lines(second).expect("aggregation failed");
    assert!(sites_merge_fits(&left, &right));
    merge_sites(&mut left, right);

    assert!(same_sites(&left, &one_worker));
}

#[test]
fn ranking_breaks_ties_by_name() {
    let pairs = vec![
        ("x".to_string(), Stat::new(1, 2)),
        ("y".to_string(), Stat::new(1, 2)),
        ("z".to_string(), Stat::new(1, 3)),
    ];
    let ranked = keys_sorted_by_value(&pairs);
    assert_eq!(ranked, vec!["z".to_string(), "x".to_string(), "y".to_string()]);
}

#[test]
fn ranking_ignores_listing_order() {
    let forward = vec![
        ("x".to_string(), Stat::new(1, 2)),
        ("y".to_string(), Stat::new(1, 2)),
        ("z".to_string(), Stat::new(1, 3)),
    ];
    let backward = vec![
        ("z".to_string(), Stat::new(1, 3)),
        ("y".to_string(), Stat::new(1, 2)),
        ("x".to_string(), Stat::new(1, 2)),
    ];
    assert_eq!(keys_sorted_by_value(&forward), keys_sorted_by_value(&backward));
}

#[test]
fn equal_ratios_in_different_terms_tie() {
    let pairs = vec![
        ("b".to_string(), Stat::new(2, 4)),
        ("a".to_string(), Stat::new(1, 2)),
        ("c".to_string(), Stat::new(1, 3)),
    ];
    let ranked = keys_sorted_by_value(&pairs);
    assert_eq!(ranked, vec!["c".to_string(), "a".to_string(), "b".to_string()]);
}

#[test]
fn ranked_output_keeps_ten_best() {
    let mut lines: Vec<(String, String)> = Vec::new();
    for i in 1..=15u64 {
        let mut words = String::new();
        for _ in 0..i {
            words.push_str("w ");
        }
        lines.push((
            "site".to_string(),
            format!(r#"{{"texts": ["{}"], "tags": ["t{:02}"]}}"#, words.trim_end(), i),
        ));
    }
    let sites = process_lines(lines).expect("aggregation failed");
    let output = get_output(sites).expect("report failed");
    let chatty = &output.sites[0].1.chatty_tags;
    assert_eq!(chatty.len(), 10);
    let expected: Vec<String> = (6..=15u64).rev().map(|i| format!("t{:02}", i)).collect();
    assert_eq!(chatty, &expected);
}

#[test]
fn end_to_end_single_record() {
    let file = "site.jsonl".to_string();
    let kept = filter_jsonl(file).expect("the corpus file was dropped");
    let site_name = site_name_of(&kept);
    assert_eq!(site_name, "site");

    let lines = owned(&[("site", r#"{"texts":["a b c"],"tags":["t1","t2"]}"#)]);
    let sites = process_lines(lines).expect("aggregation failed");
    let output = get_output(sites).expect("report failed");

    assert_eq!(output.padron, 103740);
    assert_eq!(output.sites.len(), 1);
    assert_eq!(output.sites[0].0, "site");
    let site = &output.sites[0].1;
    assert!(site.questions == 1 && site.words == 3);
    assert_eq!(site.tags.len(), 2);
    for (tag, stat) in &site.tags {
        assert!(tag == "t1" || tag == "t2");
        assert_eq!(*stat, Stat::new(1, 3));
    }
    assert_eq!(site.chatty_tags, vec!["t1".to_string(), "t2".to_string()]);

    assert_eq!(output.tags.len(), 2);
    for (tag, stat) in &output.tags {
        assert!(tag == "t1" || tag == "t2");
        assert_eq!(*stat, Stat::new(1, 3));
    }

    assert_eq!(output.totals.len(), 2);
    assert_eq!(output.totals[0].0, "chatty_sites");
    assert_eq!(output.totals[0].1, vec!["site".to_string()]);
    assert_eq!(output.totals[1].0, "chatty_tags");
    assert_eq!(output.totals[1].1, vec!["t1".to_string(), "t2".to_string()]);
}

#[test]
fn report_ranks_sites_by_ratio() {
    let lines = owned(&[
        ("s2", r#"{"texts": ["a b"], "tags": ["t"]}"#),
        ("s1", r#"{"texts": ["a b c"], "tags": ["t"]}"#),
    ]);
    let output = run_report(lines).expect("the report failed");
    assert_eq!(output.totals[0].1, vec!["s1".to_string(), "s2".to_string()]);
    assert_eq!(output.tags.len(), 1);
    assert_eq!(output.tags[0].0, "t");
    assert_eq!(output.tags[0].1, Stat::new(2, 5));
}

#[test]
fn missing_tags_field_aborts_the_run() {
    let lines = owned(&[
        ("site", r#"{"texts":["a b c"],"tags":["t1"]}"#),
        ("site", r#"{"texts":["d e"]}"#),
    ]);
    let result = process_lines(lines);
    assert!(matches!(result, Err(Error::MalformedRecord)));
}

#[test]
fn malformed_json_aborts_the_run() {
    let lines = owned(&[("site", "not json at all")]);
    assert!(matches!(process_lines(lines), Err(Error::MalformedRecord)));
}

#[test]
fn global_tag_overflow_is_reported() {
    let huge = Site {
        questions: u64::MAX,
        words: u64::MAX,
        tags: vec![("t".to_string(), Stat::new(u64::MAX, u64::MAX))],
        chatty_tags: Vec::new(),
    };
    let huge_too = Site {
        questions: 1,
        words: 1,
        tags: vec![("t".to_string(), Stat::new(1, 1))],
        chatty_tags: Vec::new(),
    };
    let sites = vec![("a".to_string(), huge), ("b".to_string(), huge_too)];
    assert!(matches!(get_output(sites), Err(Error::CounterOverflow)));
}

#[test]
fn merge_fits_detects_overflow() {
    let a = vec![(
        "s".to_string(),
        Site { questions: u64::MAX, words: 1, tags: Vec::new(), chatty_tags: Vec::new() },
    )];
    let b = vec![(
        "s".to_string(),
        Site { questions: 1, words: 1, tags: Vec::new(), chatty_tags: Vec::new() },
    )];
    assert!(!sites_merge_fits(&a, &b));
}

#[test]
fn worker_count_must_be_a_positive_integer() {
    assert!(matches!(parse_worker_count("4"), Ok(4)));
    assert!(matches!(parse_worker_count("+3"), Ok(3)));
    assert!(matches!(parse_worker_count("+0"), Err(Error::InvalidWorkerCount)));
    assert!(matches!(parse_worker_count("12"), Ok(12)));
    assert!(matches!(parse_worker_count("0"), Err(Error::InvalidWorkerCount)));
    assert!(matches!(parse_worker_count(""), Err(Error::InvalidWorkerCount)));
    assert!(matches!(parse_worker_count("abc"), Err(Error::InvalidWorkerCount)));
    assert!(matches!(parse_worker_count("-3"), Err(Error::InvalidWorkerCount)));
}

#[test]
fn only_jsonl_files_are_kept() {
    assert_eq!(filter_jsonl("data.jsonl".to_string()), Some("data.jsonl".to_string()));
    assert_eq!(filter_jsonl("data.json".to_string()), None);
    assert_eq!(filter_jsonl(".jsonl".to_string()), None);
    assert_eq!(filter_jsonl("a.jsonl".to_string()), Some("a.jsonl".to_string()));
    assert_eq!(filter_jsonl("notes.txt".to_string()), None);
    assert_eq!(site_name_of(&"anime.stackexchange.com.jsonl".to_string()), "anime.stackexchange.com");
}

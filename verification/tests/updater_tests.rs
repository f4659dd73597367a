use xkcd_archive::archive::Xkcd;
use xkcd_archive::entry::Comic;
use xkcd_archive::errors::Error;
use xkcd_archive::updater::{normalize_url, plan_fetch, stripe_ids, FetchPlan, UpdateReport};

fn comic_with_img(img: &str) -> Comic {
    Comic {
        num: 1,
        year: String::from("2008"),
        month: String::from("1"),
        day: String::from("1"),
        link: String::new(),
        news: String::new(),
        transcript: String::new(),
        safe_title: String::new(),
        title: String::new(),
        alt: String::new(),
        img: String::from(img),
    }
}

#[test]
fn normalize_rewrites_plain_http() {
    assert_eq!(normalize_url("http://example.com/a.png"), "https://example.com/a.png");
}

#[test]
fn normalize_keeps_https() {
    assert_eq!(normalize_url("https://example.com/a.png"), "https://example.com/a.png");
}

#[test]
fn normalize_keeps_short_and_unrelated_strings() {
    assert_eq!(normalize_url("hi"), "hi");
    assert_eq!(normalize_url("httpfoo"), "httpfoo");
    assert_eq!(normalize_url(""), "");
}

#[test]
fn plan_skips_complete_entries() {
    // The idempotence guarantee: entry present and asset present means
    // nothing is fetched on a re-run.
    let c = comic_with_img("https://x.com/a.png");
    assert_eq!(plan_fetch(7, Some(&c), true), FetchPlan::Skip);
}

#[test]
fn plan_refetches_missing_asset_over_tls() {
    let c = comic_with_img("http://x.com/a.png");
    assert_eq!(
        plan_fetch(7, Some(&c), false),
        FetchPlan::FetchAsset { url: String::from("https://x.com/a.png") }
    );
}

#[test]
fn plan_fetches_absent_entry_at_one_based_number() {
    assert_eq!(plan_fetch(7, None, false), FetchPlan::FetchAll { remote_number: 8 });
    assert_eq!(plan_fetch(0, None, true), FetchPlan::FetchAll { remote_number: 1 });
}

#[test]
fn stripes_partition_the_id_space() {
    // Four workers over ids [0, 10): the four stripes partition the space
    // exactly, with no overlap and no omission.
    let stripes: Vec<Vec<usize>> = (0..4).map(|w| stripe_ids(w, 4, 10)).collect();
    assert_eq!(stripes[0], vec![0, 4, 8]);
    assert_eq!(stripes[1], vec![1, 5, 9]);
    assert_eq!(stripes[2], vec![2, 6]);
    assert_eq!(stripes[3], vec![3, 7]);
    let mut all: Vec<usize> = stripes.into_iter().flatten().collect();
    all.sort();
    let expected: Vec<usize> = (0..10).collect();
    assert_eq!(all, expected);
}

#[test]
fn stripe_of_single_worker_is_everything() {
    assert_eq!(stripe_ids(0, 1, 5), vec![0, 1, 2, 3, 4]);
}

#[test]
fn stripe_beyond_bound_is_empty() {
    assert_eq!(stripe_ids(5, 7, 3), Vec::<usize>::new());
    assert_eq!(stripe_ids(0, 3, 0), Vec::<usize>::new());
}

#[test]
fn second_run_with_no_remote_changes_plans_no_fetches() {
    // After a complete first run, every entry and asset is local: the
    // plans of a second run over every worker's stripe are all skips.
    let slots: Vec<Option<Comic>> = (0..10)
        .map(|i| Some(comic_with_img(&format!("https://x.com/{}.png", i))))
        .collect();
    let archive = Xkcd::new(slots);
    for w in 0..4 {
        for id in stripe_ids(w, 4, 10) {
            assert_eq!(plan_fetch(id, archive.get(id), true), FetchPlan::Skip);
        }
    }
}

#[test]
fn report_records_and_merges() {
    let mut report = UpdateReport::new();
    assert_eq!(report.processed, 0);
    assert!(report.failures.is_empty());
    report.record_success();
    report.record_failure(3, Error::EntryFetchFailed);
    report.record_failure(5, Error::AssetFetchFailed);
    assert_eq!(report.processed, 3);
    assert_eq!(
        report.failures,
        vec![(3, Error::EntryFetchFailed), (5, Error::AssetFetchFailed)]
    );

    let mut other = UpdateReport::new();
    other.record_success();
    other.record_failure(4, Error::EntryParseFailed);
    report.merge(&other);
    assert_eq!(report.processed, 5);
    assert_eq!(
        report.failures,
        vec![
            (3, Error::EntryFetchFailed),
            (5, Error::AssetFetchFailed),
            (4, Error::EntryParseFailed),
        ]
    );
}

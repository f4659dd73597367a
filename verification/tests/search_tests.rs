use xkcd_archive::archive::Xkcd;
use xkcd_archive::entry::Comic;
use xkcd_archive::search::{search, MAX_MATCHES};

fn comic(num: usize, title: &str, alt: &str, transcript: &str) -> Comic {
    Comic {
        num,
        year: String::from("2008"),
        month: String::from("1"),
        day: String::from("1"),
        link: String::new(),
        news: String::new(),
        transcript: String::from(transcript),
        safe_title: String::from(title),
        title: String::from(title),
        alt: String::from(alt),
        img: String::from("https://x.com/img.png"),
    }
}

fn titled_archive(titles: &[&str]) -> Xkcd {
    Xkcd::new(
        titles
            .iter()
            .enumerate()
            .map(|(i, t)| Some(comic(i + 1, t, "-", "-")))
            .collect(),
    )
}

#[test]
fn tier_ordering_whole_word_beats_substring() {
    // The substring-only hit sits at a lower id, yet the whole-word title
    // hit comes out strictly first.
    let archive = titled_archive(&["concatenate", "the cat sat"]);
    let results = search(&archive, "cat");
    let ids: Vec<usize> = results.iter().map(|r| r.id).collect();
    assert_eq!(ids, vec![1, 0]);
}

#[test]
fn dedup_entry_matching_several_tiers_appears_once() {
    // Id 1 matches both the whole-word tier and the substring tier; it
    // appears exactly once, at its tier-one position.
    let archive = titled_archive(&["concatenate", "cat concatenation"]);
    let results = search(&archive, "cat");
    let ids: Vec<usize> = results.iter().map(|r| r.id).collect();
    assert_eq!(ids, vec![1, 0]);
}

#[test]
fn cap_is_enforced_mid_tier() {
    let titles: Vec<String> = (0..151).map(|_| String::from("a cat here")).collect();
    let refs: Vec<&str> = titles.iter().map(|s| s.as_str()).collect();
    let archive = titled_archive(&refs);
    let results = search(&archive, "cat");
    assert_eq!(results.len(), MAX_MATCHES);
    assert_eq!(results.len(), 150);
    let ids: Vec<usize> = results.iter().map(|r| r.id).collect();
    let expected: Vec<usize> = (0..150).collect();
    assert_eq!(ids, expected);
}

#[test]
fn search_is_deterministic() {
    let archive = titled_archive(&["concatenate", "the cat sat", "dogs", "catalog"]);
    let first: Vec<usize> = search(&archive, "cat").iter().map(|r| r.id).collect();
    let second: Vec<usize> = search(&archive, "cat").iter().map(|r| r.id).collect();
    assert_eq!(first, second);
}

#[test]
fn ascending_ids_within_a_tier() {
    let archive = titled_archive(&["cat one", "dog", "cat two", "cat three"]);
    let ids: Vec<usize> = search(&archive, "cat").iter().map(|r| r.id).collect();
    assert_eq!(ids, vec![0, 2, 3]);
}

#[test]
fn body_tiers_rank_between_title_tiers() {
    let a = comic(1, "no match here", "a cat appears", "-");
    let b = comic(2, "concatenate", "-", "-");
    let c = comic(3, "cat", "-", "-");
    let d = comic(4, "no", "-", "about concatenation");
    let archive = Xkcd::new(vec![Some(a), Some(b), Some(c), Some(d)]);
    let ids: Vec<usize> = search(&archive, "cat").iter().map(|r| r.id).collect();
    // Tier one: title whole word (id 2); tier two: body whole word (id 0);
    // tier three: title substring (id 1); tier four: body substring (id 3).
    assert_eq!(ids, vec![2, 0, 1, 3]);
}

#[test]
fn gaps_and_non_matching_entries_are_skipped() {
    let archive = Xkcd::new(vec![
        Some(comic(1, "dog", "-", "-")),
        None,
        Some(comic(3, "the cat", "-", "-")),
    ]);
    let results = search(&archive, "cat");
    assert_eq!(results.len(), 1);
    assert_eq!(results[0].id, 2);
    assert_eq!(results[0].comic.title, "the cat");
}

#[test]
fn result_carries_sanitized_image_path() {
    let mut c = comic(1, "the cat", "-", "-");
    c.img = String::from("https://x.com/a/we ird.png");
    let archive = Xkcd::new(vec![Some(c)]);
    let results = search(&archive, "cat");
    assert_eq!(results[0].img_path, "weird.png");
}

#[test]
fn empty_archive_yields_no_results() {
    let archive = Xkcd::new(Vec::new());
    assert!(search(&archive, "cat").is_empty());
    assert!(search(&archive, "").is_empty());
}

#[test]
fn no_match_yields_no_results() {
    let archive = titled_archive(&["alpha", "beta"]);
    let results = search(&archive, "zzz");
    assert!(results.is_empty());
}

#[test]
fn empty_query_matches_worded_titles_in_tier_one() {
    // A word boundary around the empty query matches wherever the text has
    // a word character at all; punctuation-only entries still surface
    // through the trivial substring tiers.
    let archive = Xkcd::new(vec![
        Some(comic(1, "abc", "-", "-")),
        Some(comic(2, "!!!", "", "")),
    ]);
    let ids: Vec<usize> = search(&archive, "").iter().map(|r| r.id).collect();
    assert_eq!(ids, vec![0, 1]);
}

#[test]
fn query_metacharacters_are_taken_literally() {
    let archive = titled_archive(&["a.c here", "abc here"]);
    let ids: Vec<usize> = search(&archive, "a.c").iter().map(|r| r.id).collect();
    // A literal `a.c` matches only the first title; a raw regex dot would
    // also match the second.
    assert_eq!(ids, vec![0]);
}

#[test]
fn case_sensitive_substring_tier() {
    let archive = titled_archive(&["Catalog", "catalog"]);
    let ids: Vec<usize> = search(&archive, "cat").iter().map(|r| r.id).collect();
    assert_eq!(ids, vec![1]);
}

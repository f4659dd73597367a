use xkcd_archive::archive::Xkcd;
use xkcd_archive::entry::Comic;
use xkcd_archive::errors::Error;
use xkcd_archive::search::search;
use xkcd_archive::sync::SharedArchive;

fn comic(num: usize, title: &str) -> Comic {
    Comic {
        num,
        year: String::from("2008"),
        month: String::from("1"),
        day: String::from("1"),
        link: String::new(),
        news: String::new(),
        transcript: String::new(),
        safe_title: String::from(title),
        title: String::from(title),
        alt: String::new(),
        img: String::from("https://x.com/img.png"),
    }
}

fn slots() -> Vec<Option<Comic>> {
    vec![Some(comic(1, "the cat")), None, Some(comic(3, "concatenate"))]
}

#[test]
fn guarded_length_and_latest_id() {
    let shared = SharedArchive::new(Xkcd::new(slots()));
    assert_eq!(shared.length(), 3);
    assert_eq!(shared.latest_id(), 2);
}

#[test]
fn guarded_navigate_matches_direct_navigation() {
    let shared = SharedArchive::new(Xkcd::new(slots()));
    let direct = Xkcd::new(slots());
    let via_guard = shared.navigate(0).unwrap();
    let straight = direct.navigate(0).unwrap();
    assert_eq!(via_guard.id, straight.id);
    assert_eq!(via_guard.comic.title, straight.comic.title);
    assert_eq!(via_guard.prev, straight.prev);
    assert_eq!(via_guard.next, straight.next);
    assert_eq!(via_guard.max_id, straight.max_id);
    assert_eq!(shared.navigate(1).unwrap_err(), Error::NotFound);
}

#[test]
fn guarded_search_matches_direct_search() {
    let shared = SharedArchive::new(Xkcd::new(slots()));
    let direct = Xkcd::new(slots());
    let via_guard: Vec<usize> = shared.search("cat").iter().map(|r| r.id).collect();
    let straight: Vec<usize> = search(&direct, "cat").iter().map(|r| r.id).collect();
    assert_eq!(via_guard, straight);
    assert_eq!(via_guard, vec![0, 2]);
}

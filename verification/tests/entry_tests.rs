use xkcd_archive::entry::Comic;

fn comic_with_img(img: &str) -> Comic {
    Comic {
        num: 1,
        year: String::from("2008"),
        month: String::from("1"),
        day: String::from("1"),
        link: String::new(),
        news: String::new(),
        transcript: String::new(),
        safe_title: String::new(),
        title: String::new(),
        alt: String::new(),
        img: String::from(img),
    }
}

#[test]
fn sanitize_drops_disallowed_characters() {
    let c = comic_with_img("https://x.com/a/b/weird name!@#.png");
    assert_eq!(c.get_img_path(), "weirdname.png");
}

#[test]
fn sanitize_keeps_whitelisted_characters() {
    let c = comic_with_img("https://imgs.example.com/comics/some_file-1.2.png");
    assert_eq!(c.get_img_path(), "some_file-1.2.png");
}

#[test]
fn sanitize_without_slash_takes_whole_string() {
    let c = comic_with_img("abc.png");
    assert_eq!(c.get_img_path(), "abc.png");
}

#[test]
fn sanitize_empty_url() {
    let c = comic_with_img("");
    assert_eq!(c.get_img_path(), "");
}

#[test]
fn sanitize_trailing_slash_gives_empty_name() {
    let c = comic_with_img("https://x.com/dir/");
    assert_eq!(c.get_img_path(), "");
}

#[test]
fn sanitize_all_disallowed_gives_empty_name() {
    let c = comic_with_img("https://x.com/!@#$%^&*()");
    assert_eq!(c.get_img_path(), "");
}

#[test]
fn sanitize_multi_dot_sequences_survive() {
    let c = comic_with_img("https://x.com/a/..b..png");
    assert_eq!(c.get_img_path(), "..b..png");
}

#[test]
fn clone_preserves_fields() {
    let c = comic_with_img("https://x.com/a.png");
    let d = c.clone();
    assert_eq!(d.num, c.num);
    assert_eq!(d.img, c.img);
    assert_eq!(d.year, c.year);
}

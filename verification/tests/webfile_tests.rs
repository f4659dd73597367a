use xkcd_archive::webfile::{data_path, handle_static, static_path, WebFile};

#[test]
fn web_file_keeps_path_and_content() {
    let w = WebFile::new(String::from("static/app.css"), vec![1, 2, 3]);
    assert_eq!(w.path, "static/app.css");
    assert_eq!(w.content, vec![1, 2, 3]);
}

#[test]
fn static_path_is_under_static_root() {
    assert_eq!(static_path("app.css"), "static/app.css");
    assert_eq!(static_path(""), "static/");
}

#[test]
fn data_path_is_under_archive_root() {
    assert_eq!(data_path("42.json"), "data/42.json");
    assert_eq!(data_path("img.png"), "data/img.png");
}

#[test]
fn handle_static_serves_readable_files() {
    let w = handle_static("app.css", Some(vec![7, 8])).unwrap();
    assert_eq!(w.path, "static/app.css");
    assert_eq!(w.content, vec![7, 8]);
}

#[test]
fn handle_static_absent_file_gives_nothing() {
    assert!(handle_static("missing.css", None).is_none());
}

use http_server::file::{HttpFile, HttpFileSystem};

#[test]
fn file_path_loses_leading_dot_slash() {
    let f = HttpFile::new(String::from("./index.html"), Some(b"hello".to_vec())).unwrap();
    assert_eq!(f.get_path(), "index.html");
    assert_eq!(f.get_content(), &b"hello".to_vec());
    assert_eq!(f.get_string_content(), Some(&String::from("hello")));
}

#[test]
fn file_with_invalid_utf8_has_no_text() {
    let f = HttpFile::new(String::from("img.png"), Some(vec![0x89, 0x50, 0xff])).unwrap();
    assert_eq!(f.get_path(), "img.png");
    assert_eq!(f.get_content(), &vec![0x89, 0x50, 0xff]);
    assert!(f.get_string_content().is_none());
}

#[test]
fn unreadable_file_is_none() {
    assert!(HttpFile::new(String::from("missing.html"), None).is_none());
}

#[test]
fn empty_file_has_empty_text() {
    let f = HttpFile::new_empty();
    assert_eq!(f.get_path(), "");
    assert!(f.get_content().is_empty());
    assert_eq!(f.get_string_content(), Some(&String::new()));
}

#[test]
fn adding_same_path_twice_keeps_first_file() {
    let mut fs = HttpFileSystem::new();
    let a = fs.add_file(String::from("index.html"), Some(b"one".to_vec())).unwrap();
    let b = fs.add_file(String::from("./index.html"), Some(b"two".to_vec())).unwrap();
    assert_eq!(fs.get_files().len(), 1);
    assert_eq!(a.get_content(), &b"one".to_vec());
    assert_eq!(b.get_content(), &b"one".to_vec());
}

#[test]
fn failed_read_adds_nothing() {
    let mut fs = HttpFileSystem::new();
    assert!(fs.add_file(String::from("x.html"), None).is_none());
    assert!(fs.get_files().is_empty());
}

#[test]
fn get_file_after_add_file() {
    let mut fs = HttpFileSystem::new();
    fs.add_file(String::from("404.html"), Some(b"nope".to_vec()));
    let f = fs.get_file(String::from("./404.html")).unwrap();
    assert_eq!(f.get_path(), "404.html");
    assert_eq!(f.get_string_content(), Some(&String::from("nope")));
    assert!(fs.get_file(String::from("index.html")).is_none());
}

#[test]
fn add_files_adds_in_order() {
    let mut fs = HttpFileSystem::new();
    fs.add_files(vec![
        (String::from("a"), Some(b"1".to_vec())),
        (String::from("b"), None),
        (String::from("./c"), Some(b"3".to_vec())),
        (String::from("a"), Some(b"4".to_vec())),
    ]);
    let paths: Vec<&String> = fs.get_files().iter().map(|f| f.get_path()).collect();
    assert_eq!(paths, vec!["a", "c"]);
    assert_eq!(fs.get_file(String::from("a")).unwrap().get_content(), &b"1".to_vec());
}

#[test]
fn added_file_is_found_after_later_adds_and_order_is_kept() {
    let mut fs = HttpFileSystem::new();
    let a = fs.add_file(String::from("./b.html"), Some(b"b".to_vec())).unwrap();
    fs.add_file(String::from("a.html"), Some(b"a".to_vec()));
    fs.add_files(vec![(String::from("b.html"), Some(b"other".to_vec())), (String::from("c.html"), Some(vec![0xff]))]);
    let found = fs.get_file(String::from("b.html")).unwrap();
    assert_eq!(found.get_content(), a.get_content());
    let paths: Vec<&String> = fs.get_files().iter().map(|f| f.get_path()).collect();
    assert_eq!(paths, vec!["b.html", "a.html", "c.html"]);
    assert!(fs.get_file(String::from("c.html")).unwrap().get_string_content().is_none());
}

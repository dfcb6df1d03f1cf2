use vfs::path::{VfsPath, VfsPathBuf};

#[test]
fn path_extension_basic() {
    assert_eq!(VfsPath::new("hello/world.txt").extension(), Some("txt"));
}

#[test]
fn path_extension_is_empty() {
    assert_eq!(VfsPath::new("hello/world.").extension(), Some(""));
}

#[test]
fn path_extension_is_none() {
    assert_eq!(VfsPath::new("hello/world").extension(), None);
}

#[test]
fn path_canonicalize() {
    let path = VfsPath::new("./hello/.//world/././file.txt");
    assert_eq!(
        path.canonicalize(),
        VfsPathBuf::from("/hello/world/file.txt")
    );

    let path = VfsPath::new("././././");
    assert_eq!(path.canonicalize(), VfsPathBuf::from("/"));
}

#[test]
fn path_take_head() {
    let path = VfsPath::new("/path/./file.txt/");
    let (head, tail) = path.take_head();
    assert_eq!(head, "path");
    assert_eq!(tail, Some(VfsPath::new("/./file.txt/")));

    let (head, tail) = tail.unwrap().take_head();
    assert_eq!(head, "file.txt");
    assert_eq!(tail, None);

    let path = VfsPath::new("/././");
    let (head, tail) = path.take_head();
    assert_eq!(head, "");
    assert_eq!(tail, None);
}

#[test]
fn iter_splits_path_correctly() {
    let path = VfsPath::new("//really/long///path.rs");
    let collect: Vec<&str> = path.iter();
    assert_eq!(collect, vec!["really", "long", "path.rs"])
}

#[test]
fn collect_into_vfs_path_buf() {
    let vec = vec!["hello", "world", "file.txt"];
    let path: VfsPathBuf = VfsPathBuf::from_iter(&vec);
    assert_eq!(path.as_path(), VfsPath::new("/hello/world/file.txt"))
}

#[test]
fn path_to_and_from_iter() {
    let path = VfsPathBuf::from("/this/is/a/path.txt");
    assert_eq!(path, VfsPathBuf::from_iter(&path.as_path().iter()));
}

#[test]
fn iter_of_empty_and_root_is_empty() {
    assert_eq!(VfsPath::new("").iter(), Vec::<&str>::new());
    assert_eq!(VfsPath::new("/").iter(), Vec::<&str>::new());
    assert_eq!(VfsPath::new("//././/").iter(), Vec::<&str>::new());
}

#[test]
fn iter_keeps_parent_and_dotted_names() {
    assert_eq!(
        VfsPath::new("a/../.b/c./...").iter(),
        vec!["a", "..", ".b", "c.", "..."]
    );
}

#[test]
fn iter_handles_text_beyond_ascii() {
    assert_eq!(
        VfsPath::new("/grüße/./日本語/x").iter(),
        vec!["grüße", "日本語", "x"]
    );
}

#[test]
fn to_str_hands_back_the_text() {
    assert_eq!(VfsPath::new("//a/./b/").to_str(), "//a/./b/");
}

#[test]
fn canonicalize_is_idempotent() {
    for text in ["", "/", "a", "/a/b", "./a//b/./c/", "..//x", "/é/./ü/"] {
        let once = VfsPath::new(text).canonicalize();
        let twice = once.as_path().canonicalize();
        assert_eq!(once, twice);
    }
}

#[test]
fn canonicalize_exact_values() {
    assert_eq!(VfsPath::new("").canonicalize(), VfsPathBuf::from("/"));
    assert_eq!(VfsPath::new("a").canonicalize(), VfsPathBuf::from("/a"));
    assert_eq!(
        VfsPath::new("a/../b/").canonicalize(),
        VfsPathBuf::from("/a/../b")
    );
}

#[test]
fn take_head_composes_to_the_same_canonical_path() {
    for text in ["", "/", "a", "/a/b", "./a//b/./c/", "//x/./", "/é/./ü/"] {
        let path = VfsPath::new(text);
        let (head, tail) = path.take_head();
        let mut joined = String::from("/");
        joined.push_str(head);
        if let Some(tail) = tail {
            joined.push_str(tail.to_str());
        }
        assert_eq!(
            VfsPath::new(&joined).canonicalize(),
            path.canonicalize()
        );
    }
}

#[test]
fn take_head_skips_insignificant_pieces() {
    let (head, tail) = VfsPath::new("./a/b").take_head();
    assert_eq!(head, "a");
    assert_eq!(tail, Some(VfsPath::new("/b")));

    let (head, tail) = VfsPath::new("a/.//").take_head();
    assert_eq!(head, "a");
    assert_eq!(tail, None);

    let (head, tail) = VfsPath::new("").take_head();
    assert_eq!(head, "");
    assert_eq!(tail, None);
}

#[test]
fn extension_edge_cases() {
    assert_eq!(VfsPath::new("").extension(), None);
    assert_eq!(VfsPath::new("/").extension(), None);
    assert_eq!(VfsPath::new("a.b/c").extension(), None);
    assert_eq!(VfsPath::new("a/b.tar.gz").extension(), Some("gz"));
    assert_eq!(VfsPath::new("a/.hidden").extension(), Some("hidden"));
    assert_eq!(VfsPath::new("a/b.txt/./").extension(), Some("txt"));
    assert_eq!(VfsPath::new("a/..").extension(), Some(""));
}

#[test]
fn validate_rejects_parent_segments_only() {
    for text in ["..", "/..", "a/../b", "/a/b/..", "./../x"] {
        assert_eq!(VfsPath::new(text).validate(), Err(vfs::error::VfsError::InvalidPath));
    }
    for text in ["", "/", "a", "/a/b", "a/.../b", "a/..b", "a/b../c", "./.", "/é"] {
        let path = VfsPath::new(text);
        assert_eq!(path.validate(), Ok(path));
    }
}

#[test]
fn from_iter_exact_values() {
    let none: Vec<&str> = Vec::new();
    assert_eq!(VfsPathBuf::from_iter(&none), VfsPathBuf::from("/"));
    assert_eq!(VfsPathBuf::from_iter(&["a"]), VfsPathBuf::from("/a"));
    assert_eq!(VfsPathBuf::from_iter(&["a", "b"]), VfsPathBuf::from("/a/b"));
}

#[test]
fn path_buf_conversions() {
    assert_eq!(VfsPathBuf::new(), VfsPathBuf::from(""));
    assert_eq!(VfsPathBuf::default(), VfsPathBuf::new());
    assert_eq!(VfsPathBuf::from(String::from("/a")), VfsPathBuf::from("/a"));
    assert_eq!(VfsPath::new("a//b").to_path_buf(), VfsPathBuf::from("a//b"));
    assert_eq!(VfsPathBuf::from("a//b").as_path().to_str(), "a//b");
}

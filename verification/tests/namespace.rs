use std::io::Read;
use vfs::error::VfsError;
use vfs::path::VfsPath;
use vfs::{Mount, VFS};

type File = Box<dyn Read>;
type Provider = Box<dyn Mount<File>>;

// A very simple file for testing purposes
// Only supports read_to_string
struct TestFile(String);

impl Read for TestFile {
    fn read(&mut self, _buf: &mut [u8]) -> std::io::Result<usize> {
        Ok(0)
    }

    fn read_to_string(&mut self, buf: &mut String) -> std::io::Result<usize> {
        buf.push_str(&self.0);
        Ok(self.0.len())
    }
}

// A testing mount that just echoes the paths given to it
struct EchoMount;

impl Mount<File> for EchoMount {
    fn open(&self, path: VfsPath<'_>) -> Result<File, VfsError> {
        Ok(Box::new(TestFile(path.to_str().to_owned())) as Box<dyn Read>)
    }
}

// A mount that will always return "Not Found"
struct EmptyMount;

impl Mount<File> for EmptyMount {
    fn open(&self, _path: VfsPath<'_>) -> Result<File, VfsError> {
        Err(VfsError::NotFound)
    }
}

#[test]
fn vfs_path_resolution() {
    let mut vfs: VFS<Provider> = VFS::new();
    vfs.mount(VfsPath::new("/echo"), Box::new(EchoMount));
    let mut file = vfs.open(VfsPath::new("/echo/hello/world")).unwrap();
    let mut contents = String::new();
    file.read_to_string(&mut contents).unwrap();
    assert_eq!(contents, String::from("/hello/world"));
}

#[test]
fn vfs_multiple_mounts() {
    let mut vfs: VFS<Provider> = VFS::new();
    // Mount an echo at root to handle all not founds
    vfs.mount(VfsPath::new("/"), Box::new(EchoMount));
    vfs.mount(VfsPath::new("/path/empty"), Box::new(EmptyMount));

    let mut file = vfs.open(VfsPath::new("/path/empty/hello/world")).unwrap();
    let mut contents = String::new();
    file.read_to_string(&mut contents).unwrap();

    // "/empty" should NOT be stripped because "/empty" will only return Err
    // The mount at "/" will thus be queried and return the untrimmed path
    assert_eq!(contents, String::from("/path/empty/hello/world"));
}

// A mount that fails with a failure of its own
struct BrokenMount;

impl Mount<File> for BrokenMount {
    fn open(&self, _path: VfsPath<'_>) -> Result<File, VfsError> {
        Err(VfsError::Other)
    }
}

// A mount that answers with a label and the path it was given
struct Labelled(&'static str);

impl Mount<File> for Labelled {
    fn open(&self, path: VfsPath<'_>) -> Result<File, VfsError> {
        Ok(Box::new(TestFile(format!("{}:{}", self.0, path.to_str()))) as Box<dyn Read>)
    }
}

fn contents(file: Result<File, VfsError>) -> Result<String, VfsError> {
    let mut text = String::new();
    file?.read_to_string(&mut text).unwrap();
    Ok(text)
}

fn lookup(vfs: &VFS<Provider>, path: &str) -> Result<String, VfsError> {
    contents(vfs.open(VfsPath::new(path)))
}

#[test]
fn empty_namespace_finds_nothing() {
    let vfs: VFS<Provider> = VFS::new();
    assert_eq!(lookup(&vfs, "/a/b"), Err(VfsError::NotFound));
    let vfs: VFS<Provider> = VFS::default();
    assert_eq!(lookup(&vfs, "/"), Err(VfsError::NotFound));
}

#[test]
fn single_segment_is_not_found_even_below_a_mount() {
    let mut vfs: VFS<Provider> = VFS::new();
    vfs.mount(VfsPath::new("/"), Box::new(EchoMount));
    vfs.mount(VfsPath::new("/echo"), Box::new(EchoMount));
    assert_eq!(lookup(&vfs, "/echo"), Err(VfsError::NotFound));
    assert_eq!(lookup(&vfs, "/"), Err(VfsError::NotFound));
    assert_eq!(lookup(&vfs, ""), Err(VfsError::NotFound));
}

#[test]
fn root_mount_receives_the_whole_path() {
    let mut vfs: VFS<Provider> = VFS::new();
    vfs.mount(VfsPath::new("/"), Box::new(EchoMount));
    assert_eq!(lookup(&vfs, "/a/b/c"), Ok(String::from("/a/b/c")));
    assert_eq!(lookup(&vfs, "a//./b"), Ok(String::from("a//./b")));
}

#[test]
fn dispatch_hands_on_what_follows_the_mount_point() {
    let mut vfs: VFS<Provider> = VFS::new();
    vfs.mount(VfsPath::new("/deep/er/echo"), Box::new(EchoMount));
    assert_eq!(lookup(&vfs, "/deep/er/echo/x/y"), Ok(String::from("/x/y")));
    assert_eq!(lookup(&vfs, "deep/./er//echo/x/"), Ok(String::from("/x/")));
    assert_eq!(lookup(&vfs, "/deep/er/other/x"), Err(VfsError::NotFound));
    assert_eq!(lookup(&vfs, "/deep/er/echo"), Err(VfsError::NotFound));
}

#[test]
fn overlay_tries_the_newest_first() {
    let mut vfs: VFS<Provider> = VFS::new();
    vfs.mount(VfsPath::new("/p"), Box::new(Labelled("a")));
    vfs.mount(VfsPath::new("/p"), Box::new(Labelled("b")));
    assert_eq!(lookup(&vfs, "/p/x"), Ok(String::from("b:/x")));
}

#[test]
fn overlay_falls_back_to_the_older_mount() {
    let mut vfs: VFS<Provider> = VFS::new();
    vfs.mount(VfsPath::new("/p"), Box::new(Labelled("a")));
    vfs.mount(VfsPath::new("/p"), Box::new(EmptyMount));
    assert_eq!(lookup(&vfs, "/p/x"), Ok(String::from("a:/x")));
}

#[test]
fn overlay_below_several_levels() {
    let mut vfs: VFS<Provider> = VFS::new();
    vfs.mount(VfsPath::new("/u/v/p"), Box::new(Labelled("a")));
    vfs.mount(VfsPath::new("/u/v/p"), Box::new(BrokenMount));
    assert_eq!(lookup(&vfs, "/u/v/p/x/y"), Ok(String::from("a:/x/y")));
    vfs.mount(VfsPath::new("/u/v/p"), Box::new(Labelled("c")));
    assert_eq!(lookup(&vfs, "/u/v/p/x/y"), Ok(String::from("c:/x/y")));
}

#[test]
fn last_tried_failure_is_returned() {
    let mut vfs: VFS<Provider> = VFS::new();
    vfs.mount(VfsPath::new("/p"), Box::new(BrokenMount));
    vfs.mount(VfsPath::new("/p"), Box::new(EmptyMount));
    assert_eq!(lookup(&vfs, "/p/x"), Err(VfsError::Other));

    let mut vfs: VFS<Provider> = VFS::new();
    vfs.mount(VfsPath::new("/p"), Box::new(EmptyMount));
    vfs.mount(VfsPath::new("/p"), Box::new(BrokenMount));
    assert_eq!(lookup(&vfs, "/p/x"), Err(VfsError::NotFound));
}

#[test]
fn names_of_equal_length_are_told_apart() {
    let mut vfs: VFS<Provider> = VFS::new();
    vfs.mount(VfsPath::new("/abc"), Box::new(Labelled("abc")));
    vfs.mount(VfsPath::new("/abd"), Box::new(Labelled("abd")));
    vfs.mount(VfsPath::new("/äbc"), Box::new(Labelled("äbc")));
    assert_eq!(lookup(&vfs, "/abc/x"), Ok(String::from("abc:/x")));
    assert_eq!(lookup(&vfs, "/abd/x"), Ok(String::from("abd:/x")));
    assert_eq!(lookup(&vfs, "/äbc/x"), Ok(String::from("äbc:/x")));
    assert_eq!(lookup(&vfs, "/abe/x"), Err(VfsError::NotFound));
}

#[test]
fn directories_are_shared_between_mounts() {
    let mut vfs: VFS<Provider> = VFS::new();
    vfs.mount(VfsPath::new("/d/x"), Box::new(Labelled("x")));
    vfs.mount(VfsPath::new("/d/y"), Box::new(Labelled("y")));
    assert_eq!(lookup(&vfs, "/d/x/f"), Ok(String::from("x:/f")));
    assert_eq!(lookup(&vfs, "/d/y/f"), Ok(String::from("y:/f")));
}

#[test]
fn mounting_below_a_mount_point_shadows_it() {
    let mut vfs: VFS<Provider> = VFS::new();
    vfs.mount(VfsPath::new("/p"), Box::new(Labelled("a")));
    vfs.mount(VfsPath::new("/p/q"), Box::new(Labelled("b")));
    assert_eq!(lookup(&vfs, "/p/q/r"), Ok(String::from("b:/r")));
    assert_eq!(lookup(&vfs, "/p/z/r"), Ok(String::from("a:/z/r")));
}

#[test]
fn shadowed_root_mount_sees_the_untrimmed_path() {
    let mut vfs: VFS<Provider> = VFS::new();
    vfs.mount(VfsPath::new(""), Box::new(EchoMount));
    vfs.mount(VfsPath::new("/path/empty"), Box::new(BrokenMount));
    assert_eq!(
        lookup(&vfs, "//path/./empty/hello/"),
        Ok(String::from("//path/./empty/hello/"))
    );
}

#[test]
fn namespace_mounted_in_a_namespace() {
    let mut inner: VFS<Provider> = VFS::new();
    inner.mount(VfsPath::new("/echo"), Box::new(EchoMount));
    let mut outer: VFS<Provider> = VFS::new();
    outer.mount(VfsPath::new("/inner"), Box::new(inner));
    assert_eq!(lookup(&outer, "/inner/echo/a/b"), Ok(String::from("/a/b")));
    assert_eq!(lookup(&outer, "/inner/echo"), Err(VfsError::NotFound));
}

#[test]
fn namespace_of_one_kind_of_provider() {
    let mut vfs: VFS<EchoMount> = VFS::new();
    vfs.mount(VfsPath::new("/echo"), EchoMount);
    assert_eq!(
        contents(vfs.open(VfsPath::new("/echo/a"))),
        Ok(String::from("/a"))
    );
}

#[test]
fn mount_physical_passes_a_failed_construction_on() {
    let mut vfs: VFS<Provider> = VFS::new();
    let done = vfs.mount_physical(VfsPath::new("/disk"), Err(VfsError::InvalidInput));
    assert_eq!(done, Err(VfsError::InvalidInput));
    assert_eq!(lookup(&vfs, "/disk/x"), Err(VfsError::NotFound));

    let made: Result<Provider, VfsError> = Ok(Box::new(EchoMount));
    assert_eq!(vfs.mount_physical(VfsPath::new("/disk"), made), Ok(()));
    assert_eq!(lookup(&vfs, "/disk/x"), Ok(String::from("/x")));
}

#[test]
fn each_candidate_is_given_its_own_path() {
    let mut vfs: VFS<Provider> = VFS::new();
    vfs.mount(VfsPath::new("/p"), Box::new(Labelled("a")));
    vfs.mount(VfsPath::new("/"), Box::new(EmptyMount));
    assert_eq!(lookup(&vfs, "/p/x"), Ok(String::from("a:/x")));
}

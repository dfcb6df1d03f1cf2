use vfs::error::VfsError;
use vfs::path::VfsPath;
use vfs::physical::PhysicalMount;

#[test]
fn physical_mount_needs_a_directory() {
    assert_eq!(
        PhysicalMount::new("./src", false).map(|_| ()),
        Err(VfsError::InvalidInput)
    );
    let mount = PhysicalMount::new("./src", true).unwrap();
    assert_eq!(mount.folder(), "./src");
}

#[test]
fn physical_mount_locates_below_its_folder() {
    let mount = PhysicalMount::new("./src", true).unwrap();
    assert_eq!(
        mount.locate(VfsPath::new("/lib.rs")),
        Ok(String::from("./src/lib.rs"))
    );
    assert_eq!(
        mount.locate(VfsPath::new("a//./b/")),
        Ok(String::from("./src/a/b"))
    );
    assert_eq!(mount.locate(VfsPath::new("")), Ok(String::from("./src/")));
}

#[test]
fn physical_mount_refuses_parent_segments() {
    let mount = PhysicalMount::new("./src", true).unwrap();
    assert_eq!(
        mount.locate(VfsPath::new("/a/../../etc")),
        Err(VfsError::InvalidPath)
    );
}

use rcore_os::vfs::{metadata, DirEntry, Directory, DiskInodeType};

fn dir(entries: &[(&str, u32)]) -> Directory {
    Directory {
        entries: entries
            .iter()
            .map(|(n, id)| DirEntry { name: String::from(*n), inode_id: *id })
            .collect(),
    }
}

fn names(d: &Directory) -> Vec<(String, u32)> {
    d.entries.iter().map(|e| (e.name.clone(), e.inode_id)).collect()
}

#[test]
fn find_returns_the_first_entry() {
    let d = dir(&[("a", 1), ("b", 2), ("b", 3)]);
    assert_eq!(d.find_inode_id("b"), Some(2));
    assert_eq!(d.find_inode_id("a"), Some(1));
    assert_eq!(d.find_inode_id("c"), None);
    assert_eq!(Directory::new().find_inode_id("a"), None);
}

#[test]
fn ls_lists_names_in_order() {
    let d = dir(&[("x", 4), ("y", 5)]);
    assert_eq!(d.ls(), vec![String::from("x"), String::from("y")]);
    assert!(Directory::new().ls().is_empty());
}

#[test]
fn create_appends_a_fresh_inode() {
    let mut d = dir(&[("a", 1)]);
    let m = d.create("b", || 7).unwrap();
    assert_eq!((m.inode_id, m.ref_cnt, m.is_file, m.is_dir), (7, 1, true, false));
    assert_eq!(names(&d), vec![("a".to_string(), 1), ("b".to_string(), 7)]);
    assert_eq!(d.find_inode_id("b"), Some(7));
}

#[test]
fn create_refuses_an_existing_name_without_allocating() {
    let mut d = dir(&[("a", 1)]);
    assert!(d.create("a", || panic!("no inode should be allocated")).is_none());
    assert_eq!(names(&d), vec![("a".to_string(), 1)]);
}

#[test]
fn link_shares_the_inode() {
    let mut d = dir(&[("a", 1)]);
    assert_eq!(d.linkat("a", "b"), Some(1));
    assert_eq!(d.find_inode_id("a"), Some(1));
    assert_eq!(d.find_inode_id("b"), Some(1));
    assert_eq!(d.ls(), vec![String::from("a"), String::from("b")]);
}

#[test]
fn link_refuses_same_name_and_missing_name() {
    let mut d = dir(&[("a", 1)]);
    assert_eq!(d.linkat("a", "a"), None);
    assert_eq!(d.linkat("c", "d"), None);
    assert_eq!(names(&d), vec![("a".to_string(), 1)]);
}

#[test]
fn unlink_moves_the_last_entry_into_place() {
    let mut d = dir(&[("a", 1), ("b", 2), ("c", 3)]);
    assert_eq!(d.unlinkat("a", |_| 1).map(|u| u.inode_id), Some(1));
    assert_eq!(names(&d), vec![("c".to_string(), 3), ("b".to_string(), 2)]);
    assert_eq!(d.unlinkat("b", |_| 1).map(|u| u.inode_id), Some(2));
    assert_eq!(names(&d), vec![("c".to_string(), 3)]);
    assert_eq!(d.unlinkat("c", |_| 1).map(|u| u.inode_id), Some(3));
    assert!(d.entries.is_empty());
}

#[test]
fn unlink_of_missing_name_changes_nothing() {
    let mut d = dir(&[("a", 1)]);
    assert_eq!(d.unlinkat("z", |_| 1).map(|u| u.inode_id), None);
    assert_eq!(names(&d), vec![("a".to_string(), 1)]);
}

#[test]
fn unlink_keeps_other_names() {
    let mut d = dir(&[("a", 1)]);
    assert_eq!(d.create("b", || 2).map(|m| m.inode_id), Some(2));
    assert_eq!(d.linkat("b", "c"), Some(2));
    assert_eq!(d.unlinkat("b", |_| 2).map(|u| u.inode_id), Some(2));
    assert_eq!(d.find_inode_id("b"), None);
    assert_eq!(d.find_inode_id("a"), Some(1));
    assert_eq!(d.find_inode_id("c"), Some(2));
}

#[test]
fn metadata_reports_kind() {
    let m = metadata(5, 2, DiskInodeType::File);
    assert_eq!((m.inode_id, m.ref_cnt, m.is_file, m.is_dir), (5, 2, true, false));
    let m = metadata(0, 1, DiskInodeType::Directory);
    assert_eq!((m.inode_id, m.ref_cnt, m.is_file, m.is_dir), (0, 1, false, true));
}

#[test]
fn release_link_frees_at_the_last_link() {
    assert_eq!(rcore_os::vfs::release_link(2), (1, false));
    assert_eq!(rcore_os::vfs::release_link(1), (0, true));
}

#[test]
fn add_link_adds_one() {
    assert_eq!(rcore_os::vfs::add_link(1), 2);
    assert_eq!(rcore_os::vfs::add_link(0), 1);
}

#[test]
fn link_then_unlink_restores_entries_and_count() {
    let mut d = dir(&[("a", 1), ("b", 2)]);
    let rc = 1;
    let id = d.linkat("a", "c").unwrap();
    let rc = rcore_os::vfs::add_link(rc);
    let u = d.unlinkat("c", |i| if i == id { rc } else { 0 }).unwrap();
    assert_eq!((u.inode_id, u.ref_cnt, u.free), (id, 1, false));
    assert_eq!(names(&d), vec![("a".to_string(), 1), ("b".to_string(), 2)]);
}

#[test]
fn unlinking_a_created_file_frees_its_inode() {
    let mut d = Directory::new();
    let mut counts = std::collections::HashMap::new();
    for (name, id) in [("a", 10u32), ("b", 11), ("c", 12)] {
        let m = d.create(name, || id).unwrap();
        counts.insert(m.inode_id, m.ref_cnt);
    }
    let u = d.unlinkat("a", |i| counts[&i]).unwrap();
    assert_eq!((u.inode_id, u.ref_cnt, u.free), (10, 0, true));
    assert_eq!(d.ls(), vec![String::from("c"), String::from("b")]);
    assert_eq!(d.find_inode_id("a"), None);
}

use layered_vfs::error::VfsError;
use layered_vfs::pathkey::PathKey;
use layered_vfs::store::{MemStore, Store};
use layered_vfs::vfs::Vfs;

fn store_with(files: &[(&str, &[u8])]) -> MemStore {
    let mut s = MemStore::new();
    for (path, data) in files {
        s.add_file(path, data.to_vec()).expect("a non-empty path holds a file");
    }
    s
}

fn sorted(mut v: Vec<String>) -> Vec<String> {
    v.sort();
    v
}

#[test]
fn later_stores_override_earlier_ones() {
    let mut vfs: Vfs<MemStore> = Vfs::new();
    vfs.add_store(store_with(&[("x", b"old contents")]));
    vfs.add_store(store_with(&[("x", b"new contents")]));
    let mut h = vfs.open("x").expect("the path is present");
    assert_eq!(h.read(64), b"new contents".to_vec());
}

#[test]
fn overriding_is_case_insensitive() {
    let mut vfs: Vfs<MemStore> = Vfs::new();
    vfs.add_store(store_with(&[("Data/Sound.WAV", b"base")]));
    vfs.add_store(store_with(&[("data/SOUND.wav", b"patch")]));
    let mut h = vfs.open("DATA\\sound.WAV").expect("one logical file");
    assert_eq!(h.read(16), b"patch".to_vec());
}

#[test]
fn merged_listing_unites_all_stores_without_duplicates() {
    let mut vfs: Vfs<MemStore> = Vfs::new();
    vfs.add_store(store_with(&[("a.txt", b"1"), ("b.txt", b"2")]));
    vfs.add_store(store_with(&[("b.txt", b"3"), ("c.txt", b"4")]));
    let names = sorted(vfs.read_dir("/").expect("the root lists"));
    assert_eq!(names, vec!["a.txt".to_string(), "b.txt".to_string(), "c.txt".to_string()]);
}

#[test]
fn extension_filtering_keeps_only_matching_names() {
    let mut vfs: Vfs<MemStore> = Vfs::new();
    vfs.add_store(store_with(&[("a.txt", b"1"), ("a.bin", b"2")]));
    let names = vfs.read_dir_with_extension("/", "txt").expect("the root lists");
    assert_eq!(names, vec!["a.txt".to_string()]);
}

#[test]
fn extension_filtering_is_case_insensitive() {
    let mut vfs: Vfs<MemStore> = Vfs::new();
    vfs.add_store(store_with(&[("Readme.TXT", b"1"), ("logo.png", b"2")]));
    let names = vfs.read_dir_with_extension("/", "TxT").expect("the root lists");
    assert_eq!(names, vec!["readme.txt".to_string()]);
}

#[test]
fn open_on_an_empty_stack_fails_with_not_found() {
    let vfs: Vfs<MemStore> = Vfs::new();
    match vfs.open("missing") {
        Err(e) => assert_eq!(e, VfsError::NotFound),
        Ok(_) => panic!("an empty stack resolves nothing"),
    }
    assert!(!vfs.exists_path("missing"));
}

#[test]
fn opening_a_directory_fails_with_is_a_directory() {
    let mut vfs: Vfs<MemStore> = Vfs::new();
    vfs.add_store(store_with(&[("dir/file.txt", b"1")]));
    assert_eq!(vfs.open("dir").err(), Some(VfsError::IsADirectory));
    assert!(vfs.exists_path("dir"));
    assert!(vfs.exists_path("dir/file.txt"));
    assert!(!vfs.exists_path("dir/other.txt"));
}

#[test]
fn listing_a_missing_directory_fails_with_not_found() {
    let mut vfs: Vfs<MemStore> = Vfs::new();
    vfs.add_store(store_with(&[("a.txt", b"1")]));
    assert_eq!(vfs.read_dir("nowhere").err(), Some(VfsError::NotFound));
    let empty: Vfs<MemStore> = Vfs::new();
    assert_eq!(empty.read_dir("/").err(), Some(VfsError::NotFound));
}

#[test]
fn listing_covers_files_and_subdirectories() {
    let mut vfs: Vfs<MemStore> = Vfs::new();
    vfs.add_store(store_with(&[("docs/readme.txt", b"1"), ("a.bin", b"2")]));
    let names = sorted(vfs.read_dir("/").expect("the root lists"));
    assert_eq!(names, vec!["a.bin".to_string(), "docs".to_string()]);
    let inner = vfs.read_dir("DOCS").expect("the directory lists case-insensitively");
    assert_eq!(inner, vec!["readme.txt".to_string()]);
}

#[test]
fn a_store_answers_for_its_own_contents() {
    let mut s = MemStore::new();
    s.add_file("Maps/Town.dat", b"town".to_vec()).unwrap();
    s.add_file("Maps/Town.dat", b"newer town".to_vec()).unwrap();
    let key = PathKey::canonicalize("maps/town.DAT");
    assert!(s.contains(&key));
    assert_eq!(s.open_read(&key).unwrap(), b"newer town".to_vec());
    let dir = PathKey::canonicalize("maps");
    assert_eq!(s.open_read(&dir).err(), Some(VfsError::IsADirectory));
    let missing = PathKey::canonicalize("maps/city.dat");
    assert_eq!(s.open_read(&missing).err(), Some(VfsError::NotFound));
    assert_eq!(s.list(&key).err(), Some(VfsError::NotADirectory));
    assert_eq!(s.list(&missing).err(), Some(VfsError::NotFound));
    let children = s.list(&dir).unwrap();
    assert_eq!(children.len(), 1);
    let expected: Vec<char> = "town.dat".chars().collect();
    assert_eq!(children[0], expected);
    assert_eq!(s.add_file("", b"x".to_vec()).err(), Some(VfsError::IsADirectory));
}

#[test]
fn reading_resolved_files_through_handles() {
    let mut vfs: Vfs<MemStore> = Vfs::new();
    vfs.add_store(store_with(&[("save/slot1.bin", b"abcdef")]));
    let mut h = vfs.open("SAVE/SLOT1.BIN").unwrap();
    assert_eq!(h.len(), 6);
    assert_eq!(h.read_exact(2).unwrap(), b"ab".to_vec());
    assert_eq!(h.read_exact(10).err(), Some(VfsError::UnexpectedEof));
    assert_eq!(h.read(100), b"cdef".to_vec());
}

#[test]
fn a_path_that_is_a_file_in_one_store_may_be_a_directory_in_another() {
    let mut vfs: Vfs<MemStore> = Vfs::new();
    vfs.add_store(store_with(&[("x", b"plain file")]));
    vfs.add_store(store_with(&[("x/y.txt", b"nested")]));
    let names = vfs.read_dir("x").expect("a directory in at least one store lists");
    assert_eq!(names, vec!["y.txt".to_string()]);
    // The later store wins the open, and there it is a directory.
    assert_eq!(vfs.open("x").err(), Some(VfsError::IsADirectory));
}

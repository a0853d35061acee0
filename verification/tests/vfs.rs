use xivvfs::adapter::XivVfs;
use xivvfs::errors::VfsError;
use xivvfs::tree::build_vfs;

fn mk(paths: &[&str]) -> XivVfs {
    let v: Vec<String> = paths.iter().map(|p| p.to_string()).collect();
    XivVfs {
        tree: build_vfs(&v).unwrap(),
    }
}

fn demo() -> XivVfs {
    mk(&["a/b.txt", "a/c.txt", "d.txt"])
}

#[test]
fn list_root_of_demo_tree() {
    let vfs = demo();
    let ls = vfs.list("/").unwrap();
    assert_eq!(ls, vec!["a".to_string(), "d.txt".to_string()]);
    assert!(vfs.metadata("a", None).unwrap().is_dir());
    assert!(vfs.metadata("d.txt", None).unwrap().is_file());
}

#[test]
fn list_subdirectory_of_demo_tree() {
    let vfs = demo();
    let ls = vfs.list("a").unwrap();
    assert_eq!(ls, vec!["a/b.txt".to_string(), "a/c.txt".to_string()]);
    assert!(vfs.metadata("a/b.txt", None).unwrap().is_file());
    assert!(vfs.metadata("a/c.txt", None).unwrap().is_file());
}

#[test]
fn list_of_file_fails() {
    let vfs = demo();
    assert_eq!(vfs.list("d.txt"), Err(VfsError::NotFound));
}

#[test]
fn list_of_missing_path_fails() {
    let vfs = demo();
    assert_eq!(vfs.list("nope"), Err(VfsError::NotFound));
}

#[test]
fn get_with_offset_inside_content() {
    let vfs = demo();
    let out = vfs.get(2, Some(b"hello".to_vec())).unwrap();
    assert_eq!(out, b"llo".to_vec());
}

#[test]
fn get_with_offset_zero() {
    let vfs = demo();
    let out = vfs.get(0, Some(b"hello".to_vec())).unwrap();
    assert_eq!(out, b"hello".to_vec());
}

#[test]
fn get_with_offset_past_end_is_empty_not_error() {
    let vfs = demo();
    let out = vfs.get(10, Some(vec![1u8, 2u8])).unwrap();
    assert!(out.is_empty());
}

#[test]
fn get_without_content_is_not_available() {
    let vfs = demo();
    assert_eq!(vfs.get(0, None), Err(VfsError::NotAvailable));
}

#[test]
fn metadata_of_missing_path_is_not_found() {
    let vfs = demo();
    assert_eq!(vfs.metadata("/zzz", None), Err(VfsError::NotFound));
}

#[test]
fn mutating_operations_always_unsupported() {
    let vfs = demo();
    let before = vfs.list("/").unwrap();
    assert_eq!(vfs.put("new.txt", 0), Err(VfsError::Unsupported));
    assert_eq!(vfs.del("d.txt"), Err(VfsError::Unsupported));
    assert_eq!(vfs.mkd("newdir"), Err(VfsError::Unsupported));
    assert_eq!(vfs.rename("d.txt", "e.txt"), Err(VfsError::Unsupported));
    assert_eq!(vfs.rmd("a"), Err(VfsError::Unsupported));
    assert_eq!(vfs.list("/").unwrap(), before);
}

#[test]
fn every_input_path_resolves_to_a_file() {
    let vfs = demo();
    for p in ["a/b.txt", "a/c.txt", "d.txt"] {
        let m = vfs.metadata(p, Some(5)).unwrap();
        assert!(m.is_file());
        assert!(!m.is_dir());
        assert_eq!(m.len(), 5);
        assert_eq!(vfs.cwd(p), Ok(()));
    }
}

#[test]
fn leading_slash_resolves_like_bare_path() {
    let vfs = demo();
    assert!(vfs.metadata("/a/b.txt", None).unwrap().is_file());
    assert!(vfs.metadata("/a", None).unwrap().is_dir());
}

#[test]
fn proper_prefixes_resolve_to_directories() {
    let vfs = mk(&["x/y/z.dat"]);
    assert!(vfs.metadata("x", None).unwrap().is_dir());
    assert!(vfs.metadata("x/y", None).unwrap().is_dir());
    assert!(vfs.metadata("x/y/z.dat", None).unwrap().is_file());
}

#[test]
fn resolve_then_reconstruct_round_trips() {
    let vfs = demo();
    for p in ["a/b.txt", "a/c.txt", "d.txt", "a"] {
        let n = vfs.resolve(p).unwrap();
        assert_eq!(vfs.get_full_path(n), p.to_string());
    }
    let root = vfs.resolve("/").unwrap();
    assert_eq!(vfs.get_full_path(root), "/".to_string());
}

#[test]
fn building_twice_gives_identical_trees() {
    let v1 = demo();
    let v2 = demo();
    assert_eq!(v1.list("/").unwrap(), v2.list("/").unwrap());
    assert_eq!(v1.list("a").unwrap(), v2.list("a").unwrap());
    for p in ["a", "a/b.txt", "a/c.txt", "d.txt"] {
        assert_eq!(v1.metadata(p, None), v2.metadata(p, None));
    }
}

#[test]
fn fix_path_normalizes_client_paths() {
    let vfs = demo();
    assert_eq!(vfs.fix_path(""), "/".to_string());
    assert_eq!(vfs.fix_path("/"), "/".to_string());
    assert_eq!(vfs.fix_path("//"), "/".to_string());
    assert_eq!(vfs.fix_path("/abc"), "abc".to_string());
    assert_eq!(vfs.fix_path("abc"), "abc".to_string());
    assert_eq!(vfs.fix_path("\\a\\b"), "a/b".to_string());
    assert_eq!(vfs.fix_path("\\x"), "x".to_string());
}

#[test]
fn backslash_paths_resolve() {
    let vfs = demo();
    assert!(vfs.metadata("a\\b.txt", None).unwrap().is_file());
}

#[test]
fn duplicate_entries_are_idempotent() {
    let vfs = mk(&["a/b", "a/b", "a/b"]);
    assert_eq!(vfs.list("a").unwrap(), vec!["a/b".to_string()]);
    assert!(vfs.metadata("a/b", None).unwrap().is_file());
}

#[test]
fn file_blocking_a_subpath_fails_the_build() {
    let v: Vec<String> = vec!["a".to_string(), "a/b".to_string()];
    assert_eq!(build_vfs(&v).err(), Some(VfsError::Internal));
}

#[test]
fn entry_that_is_also_a_prefix_stays_a_directory() {
    let vfs = mk(&["a/b/c", "a/b"]);
    assert!(vfs.metadata("a/b", None).unwrap().is_dir());
    assert!(vfs.metadata("a/b/c", None).unwrap().is_file());
}

#[test]
fn metadata_fixed_fields() {
    let vfs = demo();
    let m = vfs.metadata("d.txt", Some(7)).unwrap();
    assert_eq!(m.len(), 7);
    assert_eq!(m.modified(), 0);
    assert_eq!(m.uid(), 0);
    assert_eq!(m.gid(), 0);
    assert!(!m.is_symlink());
}

#[test]
fn directory_size_defaults_to_zero() {
    let vfs = demo();
    assert_eq!(vfs.metadata("a", None).unwrap().len(), 0);
}

#[test]
fn cwd_accepts_any_existing_node() {
    let vfs = demo();
    assert_eq!(vfs.cwd("/"), Ok(()));
    assert_eq!(vfs.cwd("a"), Ok(()));
    assert_eq!(vfs.cwd("d.txt"), Ok(()));
    assert_eq!(vfs.cwd("missing"), Err(VfsError::NotFound));
}

#[test]
fn empty_segments_do_not_resolve() {
    let vfs = demo();
    assert_eq!(vfs.metadata("a//b.txt", None), Err(VfsError::NotFound));
    assert_eq!(vfs.metadata("a/", None), Err(VfsError::NotFound));
}

#[test]
fn empty_input_list_gives_bare_root() {
    let vfs = mk(&[]);
    assert_eq!(vfs.list("/").unwrap(), Vec::<String>::new());
    assert!(vfs.metadata("/", None).unwrap().is_dir());
    assert_eq!(vfs.metadata("anything", None), Err(VfsError::NotFound));
}

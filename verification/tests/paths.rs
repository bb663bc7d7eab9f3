use m3::path::{child_path, clone_path, dir_c_path, host_path, names_eq, paths_eq, relative_c_path, strip_prefix};

fn comps(path: &str) -> Vec<Vec<u8>> {
    path.split('/').filter(|c| !c.is_empty()).map(|c| c.as_bytes().to_vec()).collect()
}

#[test]
fn strip_prefix_on_whole_components() {
    assert_eq!(strip_prefix(&comps("a/b/c"), &comps("a/b")), Some(comps("c")));
    assert_eq!(strip_prefix(&comps("a/b"), &comps("a/b")), Some(vec![]));
    assert_eq!(strip_prefix(&comps("a/bc"), &comps("a/b")), None);
    assert_eq!(strip_prefix(&comps("a"), &comps("a/b")), None);
    assert_eq!(strip_prefix(&comps("x/y"), &vec![]), Some(comps("x/y")));
}

#[test]
fn relative_c_path_drops_the_root_and_ends_in_nul() {
    assert_eq!(relative_c_path(&comps("/a/b")), b"a/b\0".to_vec());
    assert_eq!(relative_c_path(&vec![]), b"\0".to_vec());
}

#[test]
fn dir_c_path_joins_base_and_directory() {
    assert_eq!(dir_c_path(&b"./testdir/gamedir".to_vec(), &comps("sub/inner")), b"./testdir/gamedir/sub/inner\0".to_vec());
}

#[test]
fn host_path_follows_path_join() {
    assert_eq!(host_path(&b"/base".to_vec(), &comps("x")), b"/base/x".to_vec());
    assert_eq!(host_path(&b"/base/".to_vec(), &comps("x")), b"/base/x".to_vec());
    let absolute = vec![Vec::new(), b"x".to_vec()];
    assert_eq!(host_path(&b"/base".to_vec(), &absolute), b"/x".to_vec());
}

#[test]
fn path_copies_and_comparisons() {
    let p = comps("a/b");
    assert_eq!(clone_path(&p), p);
    assert_eq!(child_path(&p, &b"c".to_vec()), comps("a/b/c"));
    assert!(paths_eq(&p, &comps("a/b")));
    assert!(!paths_eq(&p, &comps("a/c")));
    assert!(!paths_eq(&p, &comps("a")));
    assert!(names_eq(&b"ab".to_vec(), &b"ab".to_vec()));
    assert!(!names_eq(&b"ab".to_vec(), &b"a".to_vec()));
}

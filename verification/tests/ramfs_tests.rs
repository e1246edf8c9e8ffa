use whyos_core::ramfs::{
    change_directory, create_file, delete, list_dir, mkdir, read_file, rename_file, rename_folder,
    resolve_path, split_path, update_file, Node,
};

fn seeded_root() -> Node {
    let mut root = Node::new_dir(b"");
    assert!(mkdir(&mut root, b"/", b"home"));
    assert!(create_file(&mut root, b"/", b"/home/test.txt", b"Hello from RAMFS!"));
    root
}

#[test]
fn resolve_absolute_is_verbatim() {
    assert_eq!(resolve_path(b"/home", b"/etc/conf"), b"/etc/conf".to_vec());
}

#[test]
fn resolve_relative_appends() {
    assert_eq!(resolve_path(b"/", b"home"), b"/home".to_vec());
    assert_eq!(resolve_path(b"/home", b"docs/notes"), b"/home/docs/notes".to_vec());
}

#[test]
fn resolve_dot_is_noop() {
    assert_eq!(resolve_path(b"/a/b", b"."), b"/a/b".to_vec());
    assert_eq!(resolve_path(b"/", b"a/./b"), b"/a/b".to_vec());
}

#[test]
fn resolve_dotdot_pops() {
    assert_eq!(resolve_path(b"/a/b", b".."), b"/a".to_vec());
    assert_eq!(resolve_path(b"/a/b", b"../c"), b"/a/c".to_vec());
}

#[test]
fn resolve_pop_past_root_is_noop() {
    assert_eq!(resolve_path(b"/", b".."), b"/".to_vec());
    assert_eq!(resolve_path(b"/", b"../../x"), b"/x".to_vec());
}

#[test]
fn resolve_is_fixed_point() {
    let cases: [(&[u8], &[u8]); 4] =
        [(b"/", b".."), (b"/a/b", b"../c"), (b"/home", b"docs"), (b"/x", b"/abs/path")];
    for (cwd, target) in cases {
        let once = resolve_path(cwd, target);
        let twice = resolve_path(cwd, &once);
        assert_eq!(once, twice);
    }
}

#[test]
fn split_drops_empty_segments() {
    let parts = split_path(b"//a///b/");
    assert_eq!(parts, vec![b"a".to_vec(), b"b".to_vec()]);
    assert!(split_path(b"/").is_empty());
    assert!(split_path(b"").is_empty());
}

#[test]
fn cd_to_root_via_dotdot() {
    let mut root = Node::new_dir(b"");
    assert_eq!(change_directory(&mut root, b"/", b".."), Some(b"/".to_vec()));
}

#[test]
fn cd_needs_an_existing_directory() {
    let mut root = seeded_root();
    assert_eq!(change_directory(&mut root, b"/", b"home"), Some(b"/home".to_vec()));
    assert_eq!(change_directory(&mut root, b"/", b"nope"), None);
    // A file is not a directory.
    assert_eq!(change_directory(&mut root, b"/home", b"test.txt"), None);
}

#[test]
fn second_create_with_same_name_fails() {
    let mut root = Node::new_dir(b"");
    assert!(mkdir(&mut root, b"/", b"home"));
    let before = list_dir(&root, b"/", b"/").unwrap();
    assert!(!mkdir(&mut root, b"/", b"home"));
    assert!(!create_file(&mut root, b"/", b"home", b"x"));
    let after = list_dir(&root, b"/", b"/").unwrap();
    assert_eq!(before, after);
}

#[test]
fn create_read_update_round_trip() {
    let mut root = Node::new_dir(b"");
    assert!(create_file(&mut root, b"/", b"a.txt", b"first"));
    assert_eq!(read_file(&root, b"/", b"a.txt"), Some(b"first".to_vec()));
    assert!(update_file(&mut root, b"/", b"a.txt", b"second"));
    assert_eq!(read_file(&root, b"/", b"a.txt"), Some(b"second".to_vec()));
}

#[test]
fn delete_then_create_succeeds() {
    let mut root = Node::new_dir(b"");
    assert!(create_file(&mut root, b"/", b"a.txt", b"x"));
    assert!(delete(&mut root, b"/", b"a.txt"));
    assert!(create_file(&mut root, b"/", b"a.txt", b"y"));
    assert_eq!(read_file(&root, b"/", b"a.txt"), Some(b"y".to_vec()));
}

#[test]
fn delete_reports_whether_anything_went() {
    let mut root = seeded_root();
    assert!(!delete(&mut root, b"/", b"missing"));
    assert!(delete(&mut root, b"/home", b"test.txt"));
    assert_eq!(read_file(&root, b"/home", b"test.txt"), None);
}

#[test]
fn list_keeps_insertion_order() {
    let mut root = Node::new_dir(b"");
    assert!(mkdir(&mut root, b"/", b"b"));
    assert!(mkdir(&mut root, b"/", b"a"));
    assert!(create_file(&mut root, b"/", b"c", b""));
    assert_eq!(
        list_dir(&root, b"/", b"/"),
        Some(vec![b"b".to_vec(), b"a".to_vec(), b"c".to_vec()])
    );
}

#[test]
fn list_dir_fails_on_a_file() {
    let root = seeded_root();
    assert_eq!(list_dir(&root, b"/home", b"test.txt"), None);
}

#[test]
fn read_file_fails_on_a_directory() {
    let root = seeded_root();
    assert_eq!(read_file(&root, b"/", b"home"), None);
}

#[test]
fn update_file_fails_on_a_directory() {
    let mut root = seeded_root();
    assert!(!update_file(&mut root, b"/", b"home", b"x"));
}

#[test]
fn create_under_missing_parent_fails() {
    let mut root = Node::new_dir(b"");
    assert!(!create_file(&mut root, b"/", b"/no/such/file.txt", b""));
    assert!(!mkdir(&mut root, b"/", b"/no/such/dir"));
}

#[test]
fn create_at_root_path_fails() {
    let mut root = Node::new_dir(b"");
    assert!(!mkdir(&mut root, b"/", b"/"));
    assert!(!create_file(&mut root, b"/", b"/", b""));
}

#[test]
fn rename_checks_the_kind() {
    let mut root = seeded_root();
    // A directory cannot be renamed through the file entry point.
    assert!(!rename_file(&mut root, b"/", b"home", b"casa"));
    // A file cannot be renamed through the folder entry point.
    assert!(!rename_folder(&mut root, b"/home", b"test.txt", b"other.txt"));
    assert!(rename_file(&mut root, b"/home", b"test.txt", b"other.txt"));
    assert_eq!(read_file(&root, b"/home", b"other.txt"), Some(b"Hello from RAMFS!".to_vec()));
    assert!(rename_folder(&mut root, b"/", b"home", b"casa"));
    assert_eq!(list_dir(&root, b"/", b"/"), Some(vec![b"casa".to_vec()]));
}

#[test]
fn rename_to_existing_name_fails() {
    let mut root = Node::new_dir(b"");
    assert!(create_file(&mut root, b"/", b"a", b""));
    assert!(create_file(&mut root, b"/", b"b", b""));
    assert!(!rename_file(&mut root, b"/", b"a", b"b"));
}

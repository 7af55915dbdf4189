use whenfs::mount::{
    attr_path, enter, kind_of, list_children, list_root, lookup_path, open_path, page, perm_of,
    refuse, shortcut_names, Child, InodeTable, Kind, Mutation, EACCES, ENOENT, EROFS, O_CREAT,
    O_RDWR, O_TRUNC, O_WRONLY, ROOT_INO, WRITE_FLAGS,
};

fn some(s: &str) -> Option<String> {
    Some(s.to_string())
}

#[test]
fn constants_are_the_systems() {
    assert_eq!(ENOENT, libc::ENOENT);
    assert_eq!(EACCES, libc::EACCES);
    assert_eq!(EROFS, libc::EROFS);
    assert_eq!(O_WRONLY, libc::O_WRONLY);
    assert_eq!(O_RDWR, libc::O_RDWR);
    assert_eq!(O_CREAT, libc::O_CREAT);
    assert_eq!(O_TRUNC, libc::O_TRUNC);
    assert_eq!(
        WRITE_FLAGS,
        libc::O_WRONLY | libc::O_RDWR | libc::O_CREAT | libc::O_TRUNC
    );
}

#[test]
fn a_path_keeps_its_inode() {
    let mut t = InodeTable::new();
    let a = t.ino_for_path("/a");
    let b = t.ino_for_path("/b");
    assert_eq!((a, b), (2, 3));
    assert_eq!(t.ino_for_path("/a"), a);
    assert_eq!(t.len(), 2);
    assert_eq!(t.path_for_ino(a), some("/a"));
    assert_eq!(t.path_for_ino(b), some("/b"));
    for ino in [0, ROOT_INO, 4, u64::MAX] {
        assert_eq!(t.path_for_ino(ino), None);
        assert_eq!(attr_path(&t, ino), Err(ENOENT));
    }
    assert_eq!(attr_path(&t, b), Ok("/b".to_string()));
}

#[test]
fn texts_of_the_same_path_have_the_same_inode() {
    let mut t = InodeTable::new();
    let a = t.ino_for_path("/a/b");
    for text in ["/a/b/", "/a//b", "//a/b", "/a/./b", "/a/b/."] {
        assert_eq!(t.ino_for_path(text), a, "{text}");
    }
    for text in ["a/b", "/a/b/c", "/a", "/", "", "./a/b", "/a/../b"] {
        let b = t.ino_for_path(text);
        assert_ne!(b, a);
        assert_eq!(t.path_for_ino(b).as_deref(), Some(text));
    }
    assert_eq!(t.len(), 8);
    assert_eq!(t.path_for_ino(a), some("/a/b"));
}

#[test]
fn a_lookup_leads_to_a_snapshot_or_below_one() {
    let mut t = InodeTable::new();
    let dir = t.ino_for_path("/snap/s1");
    let root = |n: Option<String>, r| lookup_path(&t, ROOT_INO, &n, &r);
    assert_eq!(root(some("now"), some("/snap/s1")), Ok("/snap/s1".to_string()));
    assert_eq!(root(some("nothing"), None), Err(ENOENT));
    assert_eq!(root(None, some("/snap/s1")), Err(ENOENT));
    assert_eq!(
        lookup_path(&t, dir, &some("etc"), &None),
        Ok("/snap/s1/etc".to_string())
    );
    assert_eq!(lookup_path(&t, 99, &some("etc"), &None), Err(ENOENT));
    let mut t2 = t;
    assert_eq!(enter(&mut t2, "/snap/s1/etc", true), Ok(3));
    assert_eq!(enter(&mut t2, "/snap/s1/no", false), Err(ENOENT));
    assert_eq!(t2.len(), 2);
}

#[test]
fn nothing_is_writable() {
    assert_eq!(perm_of(0o100644), 0o444);
    assert_eq!(perm_of(0o40777), 0o555);
    assert_eq!(perm_of(0o222), 0);
    let mut t = InodeTable::new();
    let f = t.ino_for_path("/f");
    assert_eq!(open_path(&t, f, libc::O_RDONLY), Ok("/f".to_string()));
    for flags in [libc::O_WRONLY, libc::O_RDWR, libc::O_CREAT, libc::O_TRUNC] {
        assert_eq!(open_path(&t, f, flags), Err(EROFS));
        assert_eq!(open_path(&t, 99, flags | libc::O_CLOEXEC), Err(EROFS));
    }
    assert_eq!(open_path(&t, 99, libc::O_RDONLY), Err(ENOENT));
    for m in [
        Mutation::Write,
        Mutation::Mkdir,
        Mutation::Create,
        Mutation::Unlink,
        Mutation::Rmdir,
        Mutation::Rename,
    ] {
        assert_eq!(refuse(m), EROFS);
    }
}

#[test]
fn kinds_of_files() {
    assert_eq!(kind_of(true, false), Kind::Directory);
    assert_eq!(kind_of(false, true), Kind::Symlink);
    assert_eq!(kind_of(false, false), Kind::RegularFile);
}

#[test]
fn the_mount_lists_the_shortcuts_that_lead_somewhere() {
    assert_eq!(
        shortcut_names(),
        vec!["now", "today", "yesterday", "last-week", "last-month"]
    );
    let mut t = InodeTable::new();
    let none = list_root(&mut t, "/snap", &vec![false; 5]);
    assert_eq!(none.len(), 2);
    assert_eq!(t.len(), 0);
    let some = list_root(&mut t, "/snap", &vec![true, true, false, false, true]);
    let shown: Vec<(u64, &str)> = some.iter().map(|e| (e.ino, e.name.as_str())).collect();
    assert_eq!(
        shown,
        vec![(1, "."), (1, ".."), (2, "now"), (2, "today"), (2, "last-month")]
    );
    assert_eq!(t.path_for_ino(2).as_deref(), Some("/snap"));
}

#[test]
fn a_directory_lists_its_children() {
    let mut t = InodeTable::new();
    let dir = t.ino_for_path("/d");
    t.ino_for_path("/d/b");
    let child = |name: &str, kind| Child {
        path: format!("/d/{name}"),
        kind,
        name: name.to_string(),
    };
    let list = list_children(
        &mut t,
        dir,
        &vec![child("a", Kind::Symlink), child("b", Kind::RegularFile)],
    );
    let shown: Vec<(u64, Kind, &str)> =
        list.iter().map(|e| (e.ino, e.kind, e.name.as_str())).collect();
    assert_eq!(
        shown,
        vec![
            (2, Kind::Directory, "."),
            (2, Kind::Directory, ".."),
            (4, Kind::Symlink, "a"),
            (3, Kind::RegularFile, "b"),
        ]
    );
    let rest = |o| -> Vec<(i64, String)> {
        page(&list, o).into_iter().map(|(n, e)| (n, e.name)).collect()
    };
    assert_eq!(rest(0).len(), 4);
    assert_eq!(rest(2), vec![(3, "a".to_string()), (4, "b".to_string())]);
    assert_eq!(rest(3), vec![(4, "b".to_string())]);
    assert!(rest(4).is_empty());
    assert!(rest(5).is_empty());
    assert!(rest(-1).is_empty());
}

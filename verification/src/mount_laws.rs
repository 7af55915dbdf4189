//! What holds of the mounted filesystem, told in terms of paths and bits.
use crate::mount::{
    an_inode_keeps_its_path, asks_to_write, dots, is_entry_of, kind_for, led_somewhere,
    lookup_target, page_of, path_of, shortcut_entries, shortcuts, shown_perm, with_children,
    ChildModel, DirEntryModel, Kind, EACCES, ENOENT, EROFS, ROOT_INO,
};
use crate::path::components;
use crate::path_laws::{
    a_name_is_one_component, begins_with_dot, is_name, joining_appends_components,
};
use vstd::prelude::*;

verus! {

/// In the mount itself a name leads to what it resolved to as a time
/// expression. Below it, it leads to the entry of that name in the parent's
/// directory. What is not known, or is no text, is not found.
pub proof fn a_lookup_leads_one_level_down(
    paths: Seq<Seq<char>>,
    parent: u64,
    name: Seq<char>,
    resolved: Option<Seq<char>>,
)
    ensures
        lookup_target(paths, ROOT_INO, Some(name), resolved) == match resolved {
            Some(dir) => Ok(dir),
            None => Err(ENOENT),
        },
        lookup_target(paths, parent, None, resolved) == Err::<Seq<char>, i32>(ENOENT),
        parent != ROOT_INO && path_of(paths, parent) is None ==> lookup_target(
            paths,
            parent,
            Some(name),
            resolved,
        ) == Err::<Seq<char>, i32>(ENOENT),
        parent != ROOT_INO && is_name(name) && name != seq!['.'] ==> (path_of(paths, parent) matches Some(
            dir,
        ) ==> dir.len() > 0 ==> (lookup_target(paths, parent, Some(name), resolved) matches Ok(
            found,
        ) && components(found) == components(dir) + seq![name])),
{
    if parent != ROOT_INO && is_name(name) && name != seq!['.'] {
        assert(name[0] != '/');
        assert(!begins_with_dot(name)) by {
            if begins_with_dot(name) {
                if name.len() > 1 {
                    assert(name[1] != '/');
                }
                assert(name =~= seq!['.']);
            }
        }
        a_name_is_one_component(name);
        if let Some(dir) = path_of(paths, parent) {
            if dir.len() > 0 {
                joining_appends_components(dir, name);
            }
        }
    }
}

/// The inodes are numbered in the order of asking, from the first one on; the
/// mount's own is none of them.
pub proof fn inodes_are_numbered_in_order(paths: Seq<Seq<char>>, i: int)
    requires
        paths.len() < u64::MAX - 2,
    ensures
        0 <= i < paths.len() ==> path_of(paths, (i + 2) as u64) == Some(paths[i]),
        path_of(paths, 0) is None,
        path_of(paths, 1) is None,
        path_of(paths, (paths.len() + 2) as u64) is None,
{
}

/// A directory is shown as a directory, a link as a link, and all else as a
/// file.
pub proof fn kinds_are_shown(is_dir: bool, is_symlink: bool)
    ensures
        kind_for(is_dir, is_symlink) == Kind::Directory <==> is_dir,
        kind_for(is_dir, is_symlink) == Kind::Symlink <==> !is_dir && is_symlink,
        kind_for(is_dir, is_symlink) == Kind::RegularFile <==> !is_dir && !is_symlink,
{
}

/// Who may read a file and who may run it is shown as it is.
pub proof fn reading_and_running_are_shown_as_they_are(mode: u32)
    ensures
        shown_perm(mode) & 0o444 == mode & 0o444,
        shown_perm(mode) & 0o111 == mode & 0o111,
        shown_perm(mode) <= 0o777,
{
    assert((mode & 0o555) & 0o444 == mode & 0o444) by (bit_vector);
    assert((mode & 0o555) & 0o111 == mode & 0o111) by (bit_vector);
    assert(mode & 0o555 <= 0o777) by (bit_vector);
}

/// Opening for writing, for both, to make a file or to cut one off asks to
/// write; opening for reading does not.
pub proof fn writing_is_asked_for_in_four_ways(flags: i32)
    ensures
        asks_to_write(flags) <==> flags & 1 != 0 || flags & 2 != 0 || flags & 0o100 != 0 || flags
            & 0o1000 != 0,
        !asks_to_write(0),
{
    assert(flags & 579 != 0 <==> flags & 1 != 0 || flags & 2 != 0 || flags & 0o100 != 0 || flags
        & 0o1000 != 0) by (bit_vector);
    assert(0i32 & 579 == 0) by (bit_vector);
}

/// What is refused is refused with the system's numbers for it.
pub proof fn errors_have_the_systems_numbers()
    ensures
        ENOENT == 2,
        EACCES == 13,
        EROFS == 30,
{
}

/// The mount lists these expressions.
pub proof fn the_mount_lists_its_shortcuts()
    ensures
        shortcuts().len() == 5,
        shortcuts()[0] == "now"@,
        shortcuts()[1] == "today"@,
        shortcuts()[2] == "yesterday"@,
        shortcuts()[3] == "last-week"@,
        shortcuts()[4] == "last-month"@,
{
}

/// A shortcut is listed exactly if it led to a snapshot, and those that are
/// keep their order.
pub proof fn a_shortcut_is_listed_if_it_leads_somewhere(found: Seq<bool>, n: int, i: int)
    requires
        0 <= n <= 5,
        found.len() == 5,
        0 <= i < 5,
    ensures
        led_somewhere(found, n).contains(shortcuts()[i]) <==> i < n && found[i],
        n > 0 && found[n - 1] ==> led_somewhere(found, n).last() == shortcuts()[n - 1],
        led_somewhere(found, n).len() <= n,
        (forall|k: int| 0 <= k < n ==> found[k]) ==> led_somewhere(found, n) == shortcuts().take(n),
    decreases n,
{
    if n > 0 {
        a_shortcut_is_listed_if_it_leads_somewhere(found, n - 1, i);
        let front = led_somewhere(found, n - 1);
        let all = led_somewhere(found, n);
        lemma_shortcuts_differ(i, n - 1);
        if found[n - 1] {
            assert(all[front.len() as int] == shortcuts()[n - 1]);
            if front.contains(shortcuts()[i]) {
                let k = choose|k: int| 0 <= k < front.len() && front[k] == shortcuts()[i];
                assert(all[k] == shortcuts()[i]);
            }
            if all.contains(shortcuts()[i]) && i != n - 1 {
                let k = choose|k: int| 0 <= k < all.len() && all[k] == shortcuts()[i];
                assert(front[k] == shortcuts()[i]);
            }
        }
        if forall|k: int| 0 <= k < n ==> found[k] {
            assert(shortcuts().take(n) =~= shortcuts().take(n - 1).push(shortcuts()[n - 1]));
        }
    } else {
        assert(shortcuts().take(0) =~= Seq::empty());
    }
}

proof fn lemma_shortcuts_differ(i: int, j: int)
    requires
        0 <= i < 5,
        0 <= j < 5,
    ensures
        shortcuts()[i] == shortcuts()[j] ==> i == j,
{
    reveal_strlit("now");
    reveal_strlit("today");
    reveal_strlit("yesterday");
    reveal_strlit("last-week");
    reveal_strlit("last-month");
    assert("now"@.len() == 3);
    assert("today"@.len() == 5);
    assert("yesterday"@.len() == 9 && "yesterday"@[0] == 'y');
    assert("last-week"@.len() == 9 && "last-week"@[0] == 'l');
    assert("last-month"@.len() == 10);
}

/// Every shortcut is shown as a directory under its own name, with the inode
/// given.
pub proof fn a_shortcut_is_shown_as_a_directory(names: Seq<Seq<char>>, ino: u64, i: int)
    requires
        0 <= i < names.len(),
    ensures
        shortcut_entries(names, ino).len() == names.len(),
        shortcut_entries(names, ino)[i].name == names[i],
        shortcut_entries(names, ino)[i].ino == ino,
        shortcut_entries(names, ino)[i].kind == Kind::Directory,
{
}

/// Every directory begins with itself and with the one above it, both under
/// its own inode.
pub proof fn a_directory_begins_with_the_dots(ino: u64)
    ensures
        dots(ino).len() == 2,
        dots(ino)[0].name == "."@,
        dots(ino)[1].name == ".."@,
        dots(ino)[0].ino == ino && dots(ino)[1].ino == ino,
        dots(ino)[0].kind == Kind::Directory && dots(ino)[1].kind == Kind::Directory,
{
}

/// A page begins at its offset; there is none before the beginning or behind
/// the end.
pub proof fn a_page_begins_at_its_offset(entries: Seq<DirEntryModel>, offset: i64, k: int)
    ensures
        offset < 0 || offset > entries.len() ==> page_of(entries, offset).len() == 0,
        0 <= offset <= entries.len() ==> page_of(entries, offset).len() == entries.len() - offset,
        0 <= offset && 0 <= k < entries.len() - offset ==> page_of(entries, offset)[k] == entries[offset
            + k],
{
}

/// An entry shows its child: the same name, the same kind, and an inode that
/// leads to its path.
pub proof fn an_entry_shows_its_child(e: DirEntryModel, c: ChildModel, paths: Seq<Seq<char>>)
    requires
        is_entry_of(e, c, paths),
    ensures
        e.name == c.name,
        e.kind == c.kind,
        path_of(paths, e.ino) matches Some(p) && components(p) == components(c.path),
{
}

/// Listing a directory takes no inode away from its path.
pub proof fn a_listing_keeps_the_inodes(
    paths: Seq<Seq<char>>,
    children: Seq<ChildModel>,
    ino: u64,
)
    requires
        path_of(paths, ino) is Some,
    ensures
        path_of(with_children(paths, children), ino) == path_of(paths, ino),
    decreases children.len(),
{
    if children.len() > 0 {
        a_listing_keeps_the_inodes(paths, children.drop_last(), ino);
        an_inode_keeps_its_path(
            with_children(paths, children.drop_last()),
            children.last().path,
            ino,
        );
    }
}

} // verus!

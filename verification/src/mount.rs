//! The mounted filesystem's rules: inodes, what a lookup leads to, what a
//! directory lists, and that nothing can be changed.
use crate::path::{
    components, join_path, joined_path, key_of, keys_tell_paths_apart, path_key, same_path,
};
use crate::text::{opt_text, texts};
use vstd::hash_map::StringHashMap;
use vstd::prelude::*;

verus! {

pub const ENOENT: i32 = 2;

pub const EACCES: i32 = 13;

pub const EROFS: i32 = 30;

pub const O_WRONLY: i32 = 1;

pub const O_RDWR: i32 = 2;

pub const O_CREAT: i32 = 64;

pub const O_TRUNC: i32 = 512;

/// The inode of the mount itself.
pub const ROOT_INO: u64 = 1;

/// The first inode of a path below it.
pub const FIRST_INO: u64 = 2;

// ---------------------------------------------------------------------
// Inodes
// ---------------------------------------------------------------------
/// The inodes handed out so far: one per path, for good.
pub struct InodeTable {
    paths: Vec<String>,
    inos: StringHashMap<u64>,
}

impl View for InodeTable {
    type V = Seq<Seq<char>>;

    /// The paths in the order in which they got their inodes.
    closed spec fn view(&self) -> Seq<Seq<char>> {
        texts(self.paths@)
    }
}

/// The inode of the path at a position.
pub open spec fn ino_at(i: int) -> int {
    FIRST_INO + i
}

/// No two inodes stand for the same path.
pub open spec fn are_distinct(paths: Seq<Seq<char>>) -> bool {
    forall|i: int, j: int|
        0 <= i < j < paths.len() ==> !same_path(#[trigger] paths[i], #[trigger] paths[j])
}

/// Is the path among them, in this text or another of the same path?
pub open spec fn has_path(paths: Seq<Seq<char>>, path: Seq<char>) -> bool {
    exists|i: int| 0 <= i < paths.len() && same_path(#[trigger] paths[i], path)
}

/// The paths after one has been asked for.
pub open spec fn with_path(paths: Seq<Seq<char>>, path: Seq<char>) -> Seq<Seq<char>> {
    if has_path(paths, path) {
        paths
    } else {
        paths.push(path)
    }
}

/// The path of an inode.
pub open spec fn path_of(paths: Seq<Seq<char>>, ino: u64) -> Option<Seq<char>> {
    if FIRST_INO <= ino && ino - FIRST_INO < paths.len() {
        Some(paths[ino - FIRST_INO])
    } else {
        None
    }
}

/// Is this the inode of the path?
pub open spec fn is_inode_of(paths: Seq<Seq<char>>, ino: u64, path: Seq<char>) -> bool {
    match path_of(paths, ino) {
        Some(p) => same_path(p, path),
        None => false,
    }
}

impl InodeTable {
    /// The table's invariant: the two directions agree, and no path has two
    /// inodes.
    pub closed spec fn wf(&self) -> bool {
        &&& are_distinct(self@)
        &&& forall|key: Seq<char>| #[trigger]
            self.inos@.contains_key(key) ==> exists|i: int|
                0 <= i < self@.len() && key == key_of(components(#[trigger] self@[i]))
        &&& forall|i: int|
            0 <= i < self@.len() ==> self.inos@.contains_key(key_of(components(#[trigger] self@[i])))
                && self.inos@[key_of(components(self@[i]))] == ino_at(i)
    }

    /// A table without a path.
    pub fn new() -> (t: Self)
        ensures
            t.wf(),
            t@ == Seq::<Seq<char>>::empty(),
    {
        let t = InodeTable { paths: Vec::new(), inos: StringHashMap::new() };
        assert(t@ =~= Seq::<Seq<char>>::empty());
        t
    }

    /// How many paths have an inode.
    pub fn len(&self) -> (n: usize)
        ensures
            n == self@.len(),
    {
        self.paths.len()
    }

    /// The inode of a path: the one that it has, else the next.
    pub fn ino_for_path(&mut self, path: &str) -> (r: u64)
        requires
            old(self).wf(),
            old(self)@.len() < u64::MAX - FIRST_INO,
        ensures
            final(self).wf(),
            final(self)@ == with_path(old(self)@, path@),
            is_inode_of(final(self)@, r, path@),
            !has_path(old(self)@, path@) ==> path_of(final(self)@, r) == Some(path@),
    {
        let ghost before = self@;
        let key = path_key(path);
        match self.inos.get(key.as_str()) {
            Some(ino) => {
                let r = *ino;
                proof {
                    let i = choose|i: int|
                        0 <= i < before.len() && key@ == key_of(components(#[trigger] before[i]));
                    keys_tell_paths_apart(before[i], path@);
                    assert(same_path(before[i], path@));
                    assert(self.inos@[key_of(components(before[i]))] == ino_at(i));
                }
                r
            },
            None => {
                let r = FIRST_INO + self.paths.len() as u64;
                let ghost had = self.inos@;
                self.paths.push(path.to_string());
                self.inos.insert(key, r);
                proof {
                    assert(self@ =~= before.push(path@));
                    let n = before.len() as int;
                    assert(self@[n] == path@);
                    assert forall|i: int| 0 <= i < n implies !same_path(#[trigger] before[i], path@) by {
                        keys_tell_paths_apart(before[i], path@);
                    }
                    assert forall|k: Seq<char>| #[trigger] self.inos@.contains_key(k) implies exists|
                        i: int,
                    |
                        0 <= i < self@.len() && k == key_of(components(#[trigger] self@[i])) by {
                        if k == key_of(components(path@)) {
                            assert(k == key_of(components(self@[n])));
                        } else {
                            assert(had.contains_key(k));
                            let i = choose|i: int|
                                0 <= i < before.len() && k == key_of(
                                    components(#[trigger] before[i]),
                                );
                            assert(self@[i] == before[i]);
                        }
                    }
                    assert forall|i: int| 0 <= i < self@.len() implies self.inos@.contains_key(
                        key_of(components(#[trigger] self@[i])),
                    ) && self.inos@[key_of(components(self@[i]))] == ino_at(i) by {
                        if i < n {
                            assert(self@[i] == before[i]);
                            keys_tell_paths_apart(before[i], path@);
                        }
                    }
                    assert forall|i: int, j: int| 0 <= i < j < self@.len() implies !same_path(
                        #[trigger] self@[i],
                        #[trigger] self@[j],
                    ) by {
                        assert(self@[i] == before[i]);
                        if j < n {
                            assert(self@[j] == before[j]);
                        }
                    }
                    assert(!has_path(before, path@));
                }
                r
            },
        }
    }

    /// The path of an inode.
    pub fn path_for_ino(&self, ino: u64) -> (r: Option<String>)
        ensures
            opt_text(r) == path_of(self@, ino),
    {
        if ino >= FIRST_INO && ino - FIRST_INO < self.paths.len() as u64 {
            Some(self.paths[(ino - FIRST_INO) as usize].clone())
        } else {
            None
        }
    }
}

/// An inode keeps its path for good: asking for further paths changes none.
pub proof fn an_inode_keeps_its_path(paths: Seq<Seq<char>>, path: Seq<char>, ino: u64)
    requires
        path_of(paths, ino) is Some,
    ensures
        path_of(with_path(paths, path), ino) == path_of(paths, ino),
{
}

/// A path that has been asked for has an inode from then on, and asking again
/// gives it again: no other inode is one of that path.
pub proof fn a_path_keeps_its_inode(paths: Seq<Seq<char>>, path: Seq<char>, other: Seq<char>, ino: u64)
    requires
        are_distinct(paths),
        is_inode_of(paths, ino, path),
    ensures
        has_path(paths, path),
        with_path(paths, path) == paths,
        is_inode_of(with_path(paths, other), ino, path),
        forall|again: u64| is_inode_of(paths, again, path) ==> again == ino,
{
    let i = ino - FIRST_INO;
    assert(same_path(paths[i], path));
    an_inode_keeps_its_path(paths, other, ino);
    assert forall|again: u64| is_inode_of(paths, again, path) implies again == ino by {
        inodes_tell_paths_apart(paths, again, ino, path, path);
    }
}

/// Two paths have the same inode exactly if they are the same path, and none
/// has the mount's.
pub proof fn inodes_tell_paths_apart(
    paths: Seq<Seq<char>>,
    a: u64,
    b: u64,
    p: Seq<char>,
    q: Seq<char>,
)
    requires
        are_distinct(paths),
        is_inode_of(paths, a, p),
        is_inode_of(paths, b, q),
    ensures
        a == b <==> same_path(p, q),
        a != ROOT_INO,
{
    let i = a - FIRST_INO;
    let j = b - FIRST_INO;
    if i < j {
        assert(!same_path(paths[i], paths[j]));
    }
    if j < i {
        assert(!same_path(paths[j], paths[i]));
    }
}

// ---------------------------------------------------------------------
// Lookups
// ---------------------------------------------------------------------
/// Where a lookup leads: in the mount itself to the directory that the time
/// expression resolved to, elsewhere to the name below the parent's path. A
/// name that is no text leads nowhere.
pub open spec fn lookup_target(
    paths: Seq<Seq<char>>,
    parent: u64,
    name: Option<Seq<char>>,
    resolved: Option<Seq<char>>,
) -> Result<Seq<char>, i32> {
    match name {
        None => Err(ENOENT),
        Some(n) => if parent == ROOT_INO {
            match resolved {
                Some(dir) => Ok(dir),
                None => Err(ENOENT),
            }
        } else {
            match path_of(paths, parent) {
                Some(p) => Ok(join_path(p, n)),
                None => Err(ENOENT),
            }
        },
    }
}

/// The plain values of an answer.
pub open spec fn answer(r: Result<String, i32>) -> Result<Seq<char>, i32> {
    match r {
        Ok(s) => Ok(s@),
        Err(e) => Err(e),
    }
}

/// Where a lookup leads. `resolved` is what the name resolved to as a time
/// expression; it is asked for in the mount itself only.
pub fn lookup_path(
    table: &InodeTable,
    parent: u64,
    name: &Option<String>,
    resolved: &Option<String>,
) -> (r: Result<String, i32>)
    ensures
        answer(r) == lookup_target(table@, parent, opt_text(*name), opt_text(*resolved)),
{
    match name {
        None => Err(ENOENT),
        Some(n) => {
            if parent == ROOT_INO {
                match resolved {
                    Some(dir) => Ok(dir.clone()),
                    None => Err(ENOENT),
                }
            } else {
                match table.path_for_ino(parent) {
                    Some(p) => Ok(joined_path(p.as_str(), n.as_str())),
                    None => Err(ENOENT),
                }
            }
        },
    }
}

/// The inode of a lookup's target, which gets one if it exists.
pub fn enter(table: &mut InodeTable, target: &str, exists: bool) -> (r: Result<u64, i32>)
    requires
        old(table).wf(),
        old(table)@.len() < u64::MAX - FIRST_INO,
    ensures
        final(table).wf(),
        exists ==> {
            &&& r is Ok
            &&& final(table)@ == with_path(old(table)@, target@)
            &&& is_inode_of(final(table)@, r->Ok_0, target@)
        },
        !exists ==> r == Err::<u64, i32>(ENOENT) && final(table)@ == old(table)@,
{
    if exists {
        Ok(table.ino_for_path(target))
    } else {
        Err(ENOENT)
    }
}

/// The path whose attributes are asked for.
pub fn attr_path(table: &InodeTable, ino: u64) -> (r: Result<String, i32>)
    ensures
        answer(r) == match path_of(table@, ino) {
            Some(p) => Ok(p),
            None => Err(ENOENT),
        },
{
    match table.path_for_ino(ino) {
        Some(p) => Ok(p),
        None => Err(ENOENT),
    }
}

// ---------------------------------------------------------------------
// Attributes
// ---------------------------------------------------------------------
/// The kind of a file.
#[derive(Debug, Clone, Copy, PartialEq, Eq, Structural)]
pub enum Kind {
    Directory,
    Symlink,
    RegularFile,
}

/// The kind of a file: what is neither a directory nor a link is shown as a
/// regular file.
pub open spec fn kind_for(is_dir: bool, is_symlink: bool) -> Kind {
    if is_dir {
        Kind::Directory
    } else if is_symlink {
        Kind::Symlink
    } else {
        Kind::RegularFile
    }
}

/// The kind of a file.
pub fn kind_of(is_dir: bool, is_symlink: bool) -> (r: Kind)
    ensures
        r == kind_for(is_dir, is_symlink),
{
    if is_dir {
        Kind::Directory
    } else if is_symlink {
        Kind::Symlink
    } else {
        Kind::RegularFile
    }
}

/// The permission bits that are shown: those of the file without the bits for
/// writing.
pub open spec fn shown_perm(mode: u32) -> u32 {
    mode & 0o555
}

/// The permission bits that are shown.
pub fn perm_of(mode: u32) -> (r: u16)
    ensures
        r == shown_perm(mode),
{
    assert(mode & 0o555 <= 0o555) by (bit_vector);
    (mode & 0o555) as u16
}

/// Nothing is ever shown as writable, whatever the file's own bits are.
pub proof fn nothing_is_shown_as_writable(mode: u32)
    ensures
        shown_perm(mode) & 0o222 == 0,
        mode & 0o222 == 0 && mode <= 0o777 ==> shown_perm(mode) == mode,
{
    assert((mode & 0o555) & 0o222 == 0) by (bit_vector);
    assert(mode & 0o222 == 0 && mode <= 0o777 ==> mode & 0o555 == mode) by (bit_vector);
}

// ---------------------------------------------------------------------
// Listings
// ---------------------------------------------------------------------
/// The expressions that the mount itself lists. Every other one can be looked
/// up just as well.
pub open spec fn shortcuts() -> Seq<Seq<char>> {
    seq!["now"@, "today"@, "yesterday"@, "last-week"@, "last-month"@]
}

/// The expressions that the mount itself lists.
pub fn shortcut_names() -> (r: Vec<&'static str>)
    ensures
        r@.len() == shortcuts().len(),
        forall|i: int| 0 <= i < r@.len() ==> (#[trigger] r@[i])@ == shortcuts()[i],
{
    vec!["now", "today", "yesterday", "last-week", "last-month"]
}

/// One entry of a listing.
#[derive(Debug, Clone)]
pub struct DirEntry {
    pub ino: u64,
    pub kind: Kind,
    pub name: String,
}

/// The plain values of a [`DirEntry`].
#[verifier::ext_equal]
pub struct DirEntryModel {
    pub ino: u64,
    pub kind: Kind,
    pub name: Seq<char>,
}

impl View for DirEntry {
    type V = DirEntryModel;

    open spec fn view(&self) -> DirEntryModel {
        DirEntryModel { ino: self.ino, kind: self.kind, name: self.name@ }
    }
}

/// The plain values of a list of entries.
pub open spec fn entry_models(list: Seq<DirEntry>) -> Seq<DirEntryModel> {
    Seq::new(list.len(), |i: int| list[i]@)
}

/// What a directory read gave of one child.
#[derive(Debug, Clone)]
pub struct Child {
    pub path: String,
    pub kind: Kind,
    pub name: String,
}

/// The plain values of a [`Child`].
#[verifier::ext_equal]
pub struct ChildModel {
    pub path: Seq<char>,
    pub kind: Kind,
    pub name: Seq<char>,
}

impl View for Child {
    type V = ChildModel;

    open spec fn view(&self) -> ChildModel {
        ChildModel { path: self.path@, kind: self.kind, name: self.name@ }
    }
}

/// The plain values of a list of children.
pub open spec fn child_models(list: Seq<Child>) -> Seq<ChildModel> {
    Seq::new(list.len(), |i: int| list[i]@)
}

/// The two entries that every directory has.
pub open spec fn dots(ino: u64) -> Seq<DirEntryModel> {
    seq![
        DirEntryModel { ino, kind: Kind::Directory, name: "."@ },
        DirEntryModel { ino, kind: Kind::Directory, name: ".."@ },
    ]
}

/// The paths after every child has been asked for.
pub open spec fn with_children(paths: Seq<Seq<char>>, children: Seq<ChildModel>) -> Seq<Seq<char>>
    decreases children.len(),
{
    if children.len() == 0 {
        paths
    } else {
        with_path(with_children(paths, children.drop_last()), children.last().path)
    }
}

/// Is `e` the entry of the child?
pub open spec fn is_entry_of(e: DirEntryModel, c: ChildModel, paths: Seq<Seq<char>>) -> bool {
    e.kind == c.kind && e.name == c.name && is_inode_of(paths, e.ino, c.path)
}

fn push_dots(out: &mut Vec<DirEntry>, ino: u64)
    requires
        old(out)@.len() == 0,
    ensures
        entry_models(final(out)@) == dots(ino),
        final(out)@.len() == 2,
{
    out.push(DirEntry { ino, kind: Kind::Directory, name: ".".to_string() });
    out.push(DirEntry { ino, kind: Kind::Directory, name: "..".to_string() });
    assert(entry_models(out@) =~= dots(ino));
}

/// The entries of a directory below the mount: the two dots, then its
/// children, each with its inode.
pub fn list_children(table: &mut InodeTable, ino: u64, children: &Vec<Child>) -> (r: Vec<DirEntry>)
    requires
        old(table).wf(),
        old(table)@.len() + children@.len() < u64::MAX - FIRST_INO,
    ensures
        final(table).wf(),
        final(table)@ == with_children(old(table)@, child_models(children@)),
        r@.len() == children@.len() + 2,
        entry_models(r@).take(2) == dots(ino),
        forall|i: int|
            0 <= i < children@.len() ==> is_entry_of(
                (#[trigger] r@[i + 2])@,
                children@[i]@,
                final(table)@,
            ),
{
    let mut out: Vec<DirEntry> = Vec::new();
    push_dots(&mut out, ino);
    let ghost paths = table@;
    let ghost all = child_models(children@);
    let mut i: usize = 0;
    assert(all.take(0) =~= Seq::<ChildModel>::empty());
    while i < children.len()
        invariant
            i <= children@.len(),
            all == child_models(children@),
            table.wf(),
            table@ == with_children(paths, all.take(i as int)),
            table@.len() <= paths.len() + i,
            paths.len() + children@.len() < u64::MAX - FIRST_INO,
            out@.len() == i + 2,
            out@[0]@ == dots(ino)[0],
            out@[1]@ == dots(ino)[1],
            forall|k: int|
                0 <= k < i ==> is_entry_of((#[trigger] out@[k + 2])@, children@[k]@, table@),
        decreases children@.len() - i,
    {
        let c = &children[i];
        let ghost before = table@;
        let ghost listed = out@;
        assert(all.take(i + 1).drop_last() =~= all.take(i as int));
        assert(all.take(i + 1).last() == c@);
        let child = table.ino_for_path(c.path.as_str());
        out.push(DirEntry { ino: child, kind: c.kind, name: c.name.clone() });
        proof {
            assert forall|k: int| 0 <= k < i + 1 implies is_entry_of(
                (#[trigger] out@[k + 2])@,
                children@[k]@,
                table@,
            ) by {
                if k < i {
                    assert(out@[k + 2] == listed[k + 2]);
                    an_inode_keeps_its_path(before, c.path@, listed[k + 2].ino);
                }
            }
        }
        i += 1;
    }
    proof {
        assert(all.take(all.len() as int) =~= all);
        assert(entry_models(out@).take(2) =~= dots(ino));
    }
    out
}

/// The shortcuts whose expressions led to a snapshot.
pub open spec fn led_somewhere(found: Seq<bool>, n: int) -> Seq<Seq<char>>
    decreases n,
{
    if n <= 0 {
        Seq::empty()
    } else if found[n - 1] {
        led_somewhere(found, n - 1).push(shortcuts()[n - 1])
    } else {
        led_somewhere(found, n - 1)
    }
}

/// A shortcut as the mount lists it: with the inode of the snapshot
/// directory.
pub open spec fn shortcut_entries(names: Seq<Seq<char>>, ino: u64) -> Seq<DirEntryModel> {
    names.map_values(|n: Seq<char>| DirEntryModel { ino, kind: Kind::Directory, name: n })
}

/// The entries of the mount itself: the two dots, then each shortcut that
/// leads to a snapshot. `found` says of each shortcut whether it does.
pub fn list_root(table: &mut InodeTable, snap_root: &str, found: &Vec<bool>) -> (r: Vec<DirEntry>)
    requires
        old(table).wf(),
        old(table)@.len() + 1 < u64::MAX - FIRST_INO,
        found@.len() == shortcuts().len(),
    ensures
        final(table).wf(),
        led_somewhere(found@, 5).len() == 0 ==> final(table)@ == old(table)@ && entry_models(r@)
            == dots(ROOT_INO),
        led_somewhere(found@, 5).len() > 0 ==> {
            &&& final(table)@ == with_path(old(table)@, snap_root@)
            &&& exists|ino: u64|
                #![trigger shortcut_entries(led_somewhere(found@, 5), ino)]
                is_inode_of(final(table)@, ino, snap_root@) && entry_models(r@) == dots(
                    ROOT_INO,
                ) + shortcut_entries(led_somewhere(found@, 5), ino)
        },
{
    let names = shortcut_names();
    let mut out: Vec<DirEntry> = Vec::new();
    push_dots(&mut out, ROOT_INO);
    let ghost paths = table@;
    let mut ino: u64 = 0;
    let mut i: usize = 0;
    assert(entry_models(out@) =~= dots(ROOT_INO) + shortcut_entries(led_somewhere(found@, 0), ino));
    while i < names.len()
        invariant
            i <= names@.len(),
            names@.len() == 5,
            found@.len() == 5,
            forall|k: int| 0 <= k < 5 ==> (#[trigger] names@[k])@ == shortcuts()[k],
            table.wf(),
            paths.len() + 1 < u64::MAX - FIRST_INO,
            ({
                let led = led_somewhere(found@, i as int);
                &&& led.len() == 0 ==> table@ == paths
                &&& led.len() > 0 ==> table@ == with_path(paths, snap_root@) && is_inode_of(
                    table@,
                    ino,
                    snap_root@,
                )
                &&& entry_models(out@) == dots(ROOT_INO) + shortcut_entries(led, ino)
            }),
        decreases names@.len() - i,
    {
        if found[i] {
            let ghost led = led_somewhere(found@, i as int);
            let ghost before = out@;
            let ghost was = ino;
            let ghost held = table@;
            ino = table.ino_for_path(snap_root);
            let e = DirEntry { ino, kind: Kind::Directory, name: names[i].to_string() };
            out.push(e);
            proof {
                if led.len() > 0 {
                    let at = was - FIRST_INO;
                    assert(same_path(held[at], snap_root@));
                    assert(has_path(held, snap_root@));
                    assert(table@ == held);
                    table_is_distinct(table);
                    inodes_tell_paths_apart(table@, was, ino, snap_root@, snap_root@);
                } else {
                    assert(shortcut_entries(led, was) =~= shortcut_entries(led, ino));
                }
                assert(entry_models(out@) =~= entry_models(before).push(e@));
                assert(names@[i as int]@ == shortcuts()[i as int]);
                let now = led_somewhere(found@, i + 1);
                assert(shortcut_entries(now, ino) =~= shortcut_entries(led, ino).push(e@));
                assert(entry_models(out@) =~= dots(ROOT_INO) + shortcut_entries(now, ino));
            }
        }
        i += 1;
    }
    proof {
        let led = led_somewhere(found@, 5);
        if led.len() == 0 {
            assert(entry_models(out@) =~= dots(ROOT_INO));
        } else {
            assert(entry_models(out@) == dots(ROOT_INO) + shortcut_entries(led, ino));
        }
    }
    out
}

/// A table hands out no path twice.
pub proof fn table_is_distinct(table: &InodeTable)
    requires
        table.wf(),
    ensures
        are_distinct(table@),
{
}

/// The part of a listing from an offset on. Nothing where the offset is
/// negative or behind the end.
pub open spec fn page_of(entries: Seq<DirEntryModel>, offset: i64) -> Seq<DirEntryModel> {
    if 0 <= offset <= entries.len() {
        entries.skip(offset as int)
    } else {
        Seq::empty()
    }
}

fn copy_entry(e: &DirEntry) -> (r: DirEntry)
    ensures
        r@ == e@,
{
    DirEntry { ino: e.ino, kind: e.kind, name: e.name.clone() }
}

/// The entries of a listing that are still to be given, each with the offset
/// to go on from behind it.
pub fn page(entries: &Vec<DirEntry>, offset: i64) -> (r: Vec<(i64, DirEntry)>)
    requires
        entries@.len() < i64::MAX,
    ensures
        r@.len() == page_of(entry_models(entries@), offset).len(),
        forall|k: int|
            0 <= k < r@.len() ==> (#[trigger] r@[k]).1@ == page_of(
                entry_models(entries@),
                offset,
            )[k] && r@[k].0 == offset + k + 1,
{
    let mut out: Vec<(i64, DirEntry)> = Vec::new();
    let n = entries.len();
    assert(entry_models(entries@).len() == n);
    if offset < 0 || offset as u64 > n as u64 {
        return out;
    }
    let start = offset as usize;
    let mut i: usize = start;
    while i < n
        invariant
            start <= i <= n,
            n == entries@.len(),
            n < i64::MAX,
            start == offset,
            out@.len() == i - start,
            forall|k: int|
                0 <= k < out@.len() ==> (#[trigger] out@[k]).1@ == entries@[start + k]@ && out@[k].0
                    == start + k + 1,
        decreases n - i,
    {
        out.push((i as i64 + 1, copy_entry(&entries[i])));
        i += 1;
    }
    out
}

/// Going on behind an entry gives exactly the entries after it.
pub proof fn a_listing_goes_on_where_it_stopped(entries: Seq<DirEntryModel>, k: int)
    requires
        0 <= k < entries.len() <= i64::MAX,
    ensures
        page_of(entries, (k + 1) as i64) == entries.skip(k + 1),
        page_of(entries, 0) == entries,
{
    assert(entries.skip(0) =~= entries);
}

// ---------------------------------------------------------------------
// Read-only
// ---------------------------------------------------------------------
/// The flags that ask for writing.
pub const WRITE_FLAGS: i32 = 579;

/// Do the flags ask for writing?
pub open spec fn asks_to_write(flags: i32) -> bool {
    flags & WRITE_FLAGS != 0
}

/// The flags that ask for writing are the four that open a file for writing,
/// make one, or cut one off.
pub proof fn write_flags_are_all_of_them()
    ensures
        WRITE_FLAGS == O_WRONLY | O_RDWR | O_CREAT | O_TRUNC,
{
    assert(579i32 == 1i32 | 2i32 | 64i32 | 512i32) by (bit_vector);
}

/// The path to open, or the error: opening for writing is refused before
/// anything is looked at.
pub fn open_path(table: &InodeTable, ino: u64, flags: i32) -> (r: Result<String, i32>)
    ensures
        answer(r) == if asks_to_write(flags) {
            Err(EROFS)
        } else {
            match path_of(table@, ino) {
                Some(p) => Ok(p),
                None => Err(ENOENT),
            }
        },
{
    if flags & WRITE_FLAGS != 0 {
        return Err(EROFS);
    }
    match table.path_for_ino(ino) {
        Some(p) => Ok(p),
        None => Err(ENOENT),
    }
}

/// A request that would change something.
#[derive(Debug, Clone, Copy, PartialEq, Eq, Structural)]
pub enum Mutation {
    Write,
    Mkdir,
    Create,
    Unlink,
    Rmdir,
    Rename,
}

/// The answer to a request that would change something: the same to each.
pub fn refuse(m: Mutation) -> (r: i32)
    ensures
        r == EROFS,
{
    match m {
        Mutation::Write => EROFS,
        Mutation::Mkdir => EROFS,
        Mutation::Create => EROFS,
        Mutation::Unlink => EROFS,
        Mutation::Rmdir => EROFS,
        Mutation::Rename => EROFS,
    }
}

} // verus!

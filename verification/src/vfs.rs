//! The directory logic of the file system's inode layer.
//!
//! A directory inode holds a list of directory entries, each a name and the
//! id of the inode that name links to. Looking a name up finds its first
//! entry; creating a file adds an entry for a fresh inode; a hard link adds a
//! second name for an inode; unlinking removes a name's entry by moving the
//! last entry into its place.

use vstd::prelude::*;

verus! {

/// The kind of an inode on disk.
#[derive(Clone, Copy, Debug, PartialEq, Eq)]
pub enum DiskInodeType {
    File,
    Directory,
}

/// What `metadata` tells about an inode.
#[derive(Clone, Copy, Debug)]
pub struct InodeMetadata {
    /// Inode ID
    pub inode_id: u32,
    /// Reference count
    pub ref_cnt: u32,
    /// Whether it's a file
    pub is_file: bool,
    /// Whether it's a directory
    pub is_dir: bool,
}

/// Get metadata of an inode: its id, the number of links to it, and its kind.
pub fn metadata(inode_id: u32, ref_cnt: u32, kind: DiskInodeType) -> (m: InodeMetadata)
    ensures
        m.inode_id == inode_id,
        m.ref_cnt == ref_cnt,
        m.is_file == (kind == DiskInodeType::File),
        m.is_dir == (kind == DiskInodeType::Directory),
{
    InodeMetadata {
        inode_id,
        ref_cnt,
        is_file: match kind {
            DiskInodeType::File => true,
            DiskInodeType::Directory => false,
        },
        is_dir: match kind {
            DiskInodeType::File => false,
            DiskInodeType::Directory => true,
        },
    }
}

/// An inode's link count once a link to it is added.
pub open spec fn added_link(ref_cnt: u32) -> u32 {
    (ref_cnt + 1) as u32
}

/// An inode's link count once a link to it is removed, and whether the inode
/// and its data blocks are then to be freed.
pub open spec fn released_link(ref_cnt: u32) -> (u32, bool) {
    ((ref_cnt - 1) as u32, ref_cnt == 1)
}

/// What adding a link does to an inode's link count: one link more.
pub fn add_link(ref_cnt: u32) -> (r: u32)
    requires
        ref_cnt < u32::MAX,
    ensures
        r == added_link(ref_cnt),
        r == ref_cnt + 1,
{
    ref_cnt + 1
}

/// What removing a link does to an inode's link count: one link less, and
/// the inode and its data blocks are to be freed when no link is left.
pub fn release_link(ref_cnt: u32) -> (r: (u32, bool))
    requires
        ref_cnt >= 1,
    ensures
        r == released_link(ref_cnt),
        r.0 == ref_cnt - 1,
        r.1 == (ref_cnt == 1),
{
    let remaining = ref_cnt - 1;
    (remaining, remaining == 0)
}

/// The metadata a newly created inode starts with: a file with one link.
pub open spec fn new_file_metadata(inode_id: u32) -> InodeMetadata {
    InodeMetadata { inode_id, ref_cnt: 1, is_file: true, is_dir: false }
}

/// What unlinking did to the inode whose link it removed: its id, its link
/// count now, and whether it is to be freed.
#[derive(Clone, Copy, Debug, PartialEq, Eq)]
pub struct LinkRelease {
    pub inode_id: u32,
    pub ref_cnt: u32,
    pub free: bool,
}

/// A directory entry: a name and the inode it links to.
#[derive(Clone, Debug)]
pub struct DirEntry {
    pub name: String,
    pub inode_id: u32,
}

/// The entries of a directory inode, in the order they are stored.
pub struct Directory {
    pub entries: Vec<DirEntry>,
}

/// A directory's entries as (name, inode id) pairs.
pub type EntriesView = Seq<(Seq<char>, u32)>;

impl View for Directory {
    type V = EntriesView;

    open spec fn view(&self) -> EntriesView {
        self.entries@.map_values(|e: DirEntry| (e.name@, e.inode_id))
    }
}

/// The inode that the first entry named `name` links to, if there is one.
pub open spec fn lookup(entries: EntriesView, name: Seq<char>) -> Option<u32>
    decreases entries.len(),
{
    if entries.len() == 0 {
        None
    } else {
        match lookup(entries.drop_last(), name) {
            Some(id) => Some(id),
            None => if entries.last().0 == name {
                Some(entries.last().1)
            } else {
                None
            },
        }
    }
}

/// Entry `i` is the first one named `name`.
pub open spec fn is_first_match(entries: EntriesView, name: Seq<char>, i: int) -> bool {
    &&& 0 <= i < entries.len()
    &&& entries[i].0 == name
    &&& forall|j: int| 0 <= j < i ==> (#[trigger] entries[j]).0 != name
}

/// The entries once the first one named `name` is removed, the last entry
/// taking its place.
pub open spec fn unlinked(entries: EntriesView, name: Seq<char>) -> EntriesView {
    let i = choose|i: int| is_first_match(entries, name, i);
    entries.update(i, entries.last()).drop_last()
}

/// No two entries have the same name.
pub open spec fn names_unique(entries: EntriesView) -> bool {
    forall|i: int, j: int|
        0 <= i < entries.len() && 0 <= j < entries.len() && i != j ==> (#[trigger] entries[i]).0
            != (#[trigger] entries[j]).0
}

/// A name's lookup finds its first entry.
pub proof fn lemma_lookup_first(entries: EntriesView, name: Seq<char>, i: int)
    requires
        is_first_match(entries, name, i),
    ensures
        lookup(entries, name) == Some(entries[i].1),
    decreases entries.len(),
{
    let d = entries.drop_last();
    if i == entries.len() - 1 {
        lemma_lookup_absent(d, name);
    } else {
        assert(is_first_match(d, name, i)) by {
            assert forall|j: int| 0 <= j < i implies (#[trigger] d[j]).0 != name by {
                assert(d[j] == entries[j]);
            }
        }
        lemma_lookup_first(d, name, i);
    }
}

/// A name with no entry is not found.
pub proof fn lemma_lookup_absent(entries: EntriesView, name: Seq<char>)
    requires
        forall|j: int| 0 <= j < entries.len() ==> (#[trigger] entries[j]).0 != name,
    ensures
        lookup(entries, name) is None,
    decreases entries.len(),
{
    if entries.len() > 0 {
        let d = entries.drop_last();
        assert forall|j: int| 0 <= j < d.len() implies (#[trigger] d[j]).0 != name by {
            assert(d[j] == entries[j]);
        }
        lemma_lookup_absent(d, name);
        assert(entries[entries.len() - 1] == entries.last());
    }
}

/// A name that is found has a first entry, which links to what is found.
pub proof fn lemma_lookup_found(entries: EntriesView, name: Seq<char>) -> (i: int)
    requires
        lookup(entries, name) is Some,
    ensures
        is_first_match(entries, name, i),
        lookup(entries, name) == Some(entries[i].1),
    decreases entries.len(),
{
    let d = entries.drop_last();
    if lookup(d, name) is Some {
        let i = lemma_lookup_found(d, name);
        assert(entries[i] == d[i]);
        assert forall|j: int| 0 <= j < i implies (#[trigger] entries[j]).0 != name by {
            assert(entries[j] == d[j]);
        }
        i
    } else {
        let i = entries.len() - 1;
        assert forall|j: int| 0 <= j < i implies (#[trigger] entries[j]).0 != name by {
            assert(entries[j] == d[j]);
            if d[j].0 == name {
                lemma_lookup_absent_inv(d, name, j);
            }
        }
        i
    }
}

/// A name that is not found has no entry.
pub proof fn lemma_lookup_absent_inv(entries: EntriesView, name: Seq<char>, j: int)
    requires
        lookup(entries, name) is None,
        0 <= j < entries.len(),
    ensures
        entries[j].0 != name,
{
    if entries[j].0 == name {
        let k = choose_first(entries, name, j);
        lemma_lookup_first(entries, name, k);
    }
}

/// The first entry named `name`, given one at `j`.
proof fn choose_first(entries: EntriesView, name: Seq<char>, j: int) -> (k: int)
    requires
        0 <= j < entries.len(),
        entries[j].0 == name,
    ensures
        is_first_match(entries, name, k),
    decreases j,
{
    if exists|i: int| 0 <= i < j && (#[trigger] entries[i]).0 == name {
        let i = choose|i: int| 0 <= i < j && (#[trigger] entries[i]).0 == name;
        choose_first(entries, name, i)
    } else {
        j
    }
}

impl Directory {
    /// An empty directory.
    pub fn new() -> (d: Directory)
        ensures
            d@ == EntriesView::empty(),
    {
        let d = Directory { entries: Vec::new() };
        assert(d@ =~= EntriesView::empty());
        d
    }

    /// The position of the first entry named `key`, if any.
    fn find_index(&self, key: &String) -> (i: Option<usize>)
        ensures
            match i {
                Some(i) => is_first_match(self@, key@, i as int),
                None => forall|j: int| 0 <= j < self@.len() ==> (#[trigger] self@[j]).0 != key@,
            },
    {
        let n = self.entries.len();
        let mut i: usize = 0;
        while i < n
            invariant
                n == self@.len(),
                i <= n,
                forall|j: int| 0 <= j < i ==> (#[trigger] self@[j]).0 != key@,
            decreases n - i,
        {
            if self.entries[i].name == *key {
                return Some(i);
            }
            i = i + 1;
        }
        None
    }

    /// Find inode under a disk inode by name
    pub fn find_inode_id(&self, name: &str) -> (id: Option<u32>)
        ensures
            id == lookup(self@, name@),
    {
        let key = name.to_owned();
        match self.find_index(&key) {
            Some(i) => {
                proof {
                    lemma_lookup_first(self@, name@, i as int);
                }
                Some(self.entries[i].inode_id)
            },
            None => {
                proof {
                    lemma_lookup_absent(self@, name@);
                }
                None
            },
        }
    }

    /// List inodes under current inode
    pub fn ls(&self) -> (names: Vec<String>)
        ensures
            names@.len() == self@.len(),
            forall|i: int| 0 <= i < self@.len() ==> (#[trigger] names@[i])@ == self@[i].0,
    {
        let n = self.entries.len();
        let mut names: Vec<String> = Vec::new();
        let mut i: usize = 0;
        while i < n
            invariant
                n == self@.len(),
                i <= n,
                names@.len() == i,
                forall|j: int| 0 <= j < i ==> (#[trigger] names@[j])@ == self@[j].0,
            decreases n - i,
        {
            names.push(self.entries[i].name.clone());
            i = i + 1;
        }
        names
    }

    /// Appends an entry.
    fn push_entry(&mut self, name: String, inode_id: u32)
        ensures
            final(self)@ == old(self)@.push((name@, inode_id)),
    {
        self.entries.push(DirEntry { name, inode_id });
        assert(self@ =~= old(self)@.push((name@, inode_id)));
    }

    /// Create inode under current inode by name
    ///
    /// A name that already has an entry is refused, `None`, changing nothing
    /// and allocating nothing. Otherwise `alloc_inode` is called for a fresh
    /// inode, an entry linking the name to it is appended, and the metadata
    /// the new inode starts with is returned: a file with one link, which the
    /// kernel writes to the inode on disk.
    pub fn create<F: FnOnce() -> u32>(&mut self, name: &str, alloc_inode: F) -> (created: Option<
        InodeMetadata,
    >)
        requires
            lookup(old(self)@, name@) is None ==> call_requires(alloc_inode, ()),
        ensures
            lookup(old(self)@, name@) is Some ==> created is None && final(self)@ == old(self)@,
            lookup(old(self)@, name@) is None ==> (created matches Some(m) && call_ensures(
                alloc_inode,
                (),
                m.inode_id,
            ) && m == new_file_metadata(m.inode_id) && final(self)@ == old(self)@.push(
                (name@, m.inode_id),
            )),
    {
        // has the file been created?
        if self.find_inode_id(name).is_some() {
            return None;
        }
        // create a new file
        let new_inode_id = alloc_inode();
        self.push_entry(name.to_owned(), new_inode_id);
        // initialize inode: a file, with the one link just made
        Some(metadata(new_inode_id, add_link(0), DiskInodeType::File))
    }

    /// Create a hard link at newpath pointing to the same inode as oldpath
    ///
    /// Refused, `None`, changing nothing, when the two names are the same or
    /// `oldpath` has no entry. Otherwise an entry linking `newpath` to the
    /// inode of `oldpath` is appended, and that inode's id is returned; that
    /// inode has one link more (see `add_link`).
    pub fn linkat(&mut self, oldpath: &str, newpath: &str) -> (id: Option<u32>)
        ensures
            oldpath@ == newpath@ ==> id is None && final(self)@ == old(self)@,
            oldpath@ != newpath@ ==> id == lookup(old(self)@, oldpath@),
            oldpath@ != newpath@ && id is None ==> final(self)@ == old(self)@,
            oldpath@ != newpath@ ==> (id matches Some(i) ==> final(self)@ == old(self)@.push(
                (newpath@, i),
            )),
    {
        let old_key = oldpath.to_owned();
        let new_key = newpath.to_owned();
        if old_key == new_key {
            return None;
        }
        // get oldpath inode_id
        let inode_id = match self.find_inode_id(oldpath) {
            Some(id) => id,
            None => {
                return None;
            },
        };
        // link oldpath at newpath, create DirEntry with same inode_id
        self.push_entry(new_key, inode_id);
        Some(inode_id)
    }

    /// unlinkat
    ///
    /// Refused, `None`, changing nothing, when `path` has no entry. Otherwise
    /// its first entry is removed, the last entry taking its place, and the
    /// inode it linked to loses that link: `ref_cnt_of` reads the inode's link
    /// count, and what is returned is the inode's id, its count with one link
    /// less, and whether the inode and its data blocks are now to be freed
    /// (no link left).
    pub fn unlinkat<F: FnOnce(u32) -> u32>(&mut self, path: &str, ref_cnt_of: F) -> (released:
        Option<LinkRelease>)
        requires
            lookup(old(self)@, path@) matches Some(i) ==> (call_requires(ref_cnt_of, (i,))
                && forall|c: u32| #[trigger] call_ensures(ref_cnt_of, (i,), c) ==> c >= 1),
        ensures
            lookup(old(self)@, path@) is None ==> released is None && final(self)@ == old(self)@,
            lookup(old(self)@, path@) matches Some(i) ==> (released matches Some(u) && {
                &&& u.inode_id == i
                &&& u.ref_cnt < u32::MAX
                &&& call_ensures(ref_cnt_of, (i,), (u.ref_cnt + 1) as u32)
                &&& (u.ref_cnt, u.free) == released_link((u.ref_cnt + 1) as u32)
                &&& final(self)@ == unlinked(old(self)@, path@)
            }),
    {
        let key = path.to_owned();
        let i = match self.find_index(&key) {
            Some(i) => i,
            None => {
                proof {
                    lemma_lookup_absent(self@, path@);
                }
                return None;
            },
        };
        proof {
            lemma_lookup_first(self@, path@, i as int);
            assert(is_first_match(self@, path@, i as int));
            let k = choose|k: int| is_first_match(self@, path@, k);
            assert(k == i as int) by {
                if k < i {
                    assert(self@[k].0 != path@);
                } else if k > i {
                    assert(self@[i as int].0 != path@);
                }
            }
        }
        let removed = self.entries.swap_remove(i);
        assert(self@ =~= unlinked(old(self)@, path@));
        let inode_id = removed.inode_id;
        // decrease ref_cnt
        let (ref_cnt, free) = release_link(ref_cnt_of(inode_id));
        Some(LinkRelease { inode_id, ref_cnt, free })
    }
}

/// Looking a name up is not changed by appending an entry when the name is
/// already found.
pub proof fn lemma_lookup_push_found(entries: EntriesView, name: Seq<char>, e: (Seq<char>, u32))
    requires
        lookup(entries, name) is Some,
    ensures
        lookup(entries.push(e), name) == lookup(entries, name),
{
    assert(entries.push(e).drop_last() =~= entries);
}

/// A file that is created is found under its name, linked to the new inode,
/// and the directory keeps each name once.
pub proof fn law_created_file_is_found(entries: EntriesView, name: Seq<char>, id: u32)
    requires
        lookup(entries, name) is None,
    ensures
        lookup(entries.push((name, id)), name) == Some(id),
        names_unique(entries) ==> names_unique(entries.push((name, id))),
{
    let e = entries.push((name, id));
    assert(e.drop_last() =~= entries);
    if names_unique(entries) {
        assert forall|i: int, j: int|
            0 <= i < e.len() && 0 <= j < e.len() && i != j implies (#[trigger] e[i]).0 != (
            #[trigger] e[j]).0 by {
            if i == entries.len() {
                lemma_lookup_absent_inv(entries, name, j);
            } else if j == entries.len() {
                lemma_lookup_absent_inv(entries, name, i);
            } else {
                assert(e[i] == entries[i] && e[j] == entries[j]);
            }
        }
    }
}

/// After a hard link, the old name and the new one (if it had no entry)
/// both lead to the same inode.
pub proof fn law_link_shares_inode(
    entries: EntriesView,
    oldpath: Seq<char>,
    newpath: Seq<char>,
    id: u32,
)
    requires
        lookup(entries, oldpath) == Some(id),
        lookup(entries, newpath) is None,
    ensures
        lookup(entries.push((newpath, id)), oldpath) == Some(id),
        lookup(entries.push((newpath, id)), newpath) == Some(id),
{
    lemma_lookup_push_found(entries, oldpath, (newpath, id));
    law_created_file_is_found(entries, newpath, id);
}

/// In a directory that holds each name once, unlinking a name removes it and
/// leaves every other name linked as before, each still once.
pub proof fn law_unlink_removes_only_that_name(entries: EntriesView, name: Seq<char>)
    requires
        names_unique(entries),
        lookup(entries, name) is Some,
    ensures
        lookup(unlinked(entries, name), name) is None,
        names_unique(unlinked(entries, name)),
        forall|other: Seq<char>|
            other != name ==> #[trigger] lookup(unlinked(entries, name), other) == lookup(
                entries,
                other,
            ),
        unlinked(entries, name).len() + 1 == entries.len(),
{
    let i = lemma_lookup_found(entries, name);
    let k = choose|k: int| is_first_match(entries, name, k);
    assert(k == i) by {
        if k != i {
            assert(entries[k].0 == entries[i].0);
        }
    }
    let n = entries.len();
    let last = n - 1;
    let r = unlinked(entries, name);
    assert(r == entries.update(i, entries.last()).drop_last());
    assert(r.len() == n - 1);
    // entry a of the result is entry src(a) of the directory
    assert forall|a: int| 0 <= a < r.len() implies #[trigger] r[a] == entries[if a == i {
        last
    } else {
        a
    }] by {}
    assert forall|a: int| 0 <= a < r.len() implies (#[trigger] r[a]).0 != name by {
        if a == i {
            assert(entries[last].0 != entries[i].0);
        } else {
            assert(entries[a].0 != entries[i].0);
        }
    }
    lemma_lookup_absent(r, name);
    assert forall|a: int, b: int|
        0 <= a < r.len() && 0 <= b < r.len() && a != b implies (#[trigger] r[a]).0 != (
        #[trigger] r[b]).0 by {
        let sa = if a == i {
            last
        } else {
            a
        };
        let sb = if b == i {
            last
        } else {
            b
        };
        assert(r[a] == entries[sa]);
        assert(r[b] == entries[sb]);
    }
    assert forall|other: Seq<char>| other != name implies #[trigger] lookup(r, other) == lookup(
        entries,
        other,
    ) by {
        if lookup(entries, other) is Some {
            let p = lemma_lookup_found(entries, other);
            assert(p != i);
            let q = if p == last {
                i
            } else {
                p
            };
            assert(r[q] == entries[p]);
            assert(is_first_match(r, other, q)) by {
                assert forall|j: int| 0 <= j < q implies (#[trigger] r[j]).0 != other by {
                    let sj = if j == i {
                        last
                    } else {
                        j
                    };
                    assert(r[j] == entries[sj]);
                    assert(sj != p);
                }
            }
            lemma_lookup_first(r, other, q);
        } else {
            assert forall|j: int| 0 <= j < r.len() implies (#[trigger] r[j]).0 != other by {
                let sj = if j == i {
                    last
                } else {
                    j
                };
                assert(r[j] == entries[sj]);
                lemma_lookup_absent_inv(entries, other, sj);
            }
            lemma_lookup_absent(r, other);
        }
    }
}

/// The number of entries that link to inode `id`.
pub open spec fn links_to(entries: EntriesView, id: u32) -> nat
    decreases entries.len(),
{
    if entries.len() == 0 {
        0
    } else {
        links_to(entries.drop_last(), id) + if entries.last().1 == id {
            1nat
        } else {
            0nat
        }
    }
}

/// Replacing one entry changes each inode's count of links by the change at
/// that entry.
pub proof fn lemma_links_to_update(
    entries: EntriesView,
    i: int,
    e: (Seq<char>, u32),
    id: u32,
)
    requires
        0 <= i < entries.len(),
    ensures
        links_to(entries.update(i, e), id) + (if entries[i].1 == id {
            1int
        } else {
            0int
        }) == links_to(entries, id) + (if e.1 == id {
            1int
        } else {
            0int
        }),
    decreases entries.len(),
{
    let u = entries.update(i, e);
    if i == entries.len() - 1 {
        assert(u.drop_last() =~= entries.drop_last());
    } else {
        assert(u.drop_last() =~= entries.drop_last().update(i, e));
        lemma_links_to_update(entries.drop_last(), i, e, id);
    }
}

/// Unlinking a name takes one link from the inode it named, and none from
/// any other.
pub proof fn lemma_links_to_unlinked(entries: EntriesView, name: Seq<char>, id: u32)
    requires
        lookup(entries, name) is Some,
    ensures
        links_to(unlinked(entries, name), id) + (if lookup(entries, name) == Some(id) {
            1int
        } else {
            0int
        }) == links_to(entries, id),
{
    let i = lemma_lookup_found(entries, name);
    let k = choose|k: int| is_first_match(entries, name, k);
    assert(k == i) by {
        if k < i {
            assert(entries[k].0 != name);
        } else if k > i {
            assert(entries[i].0 != name);
        }
    }
    let u = entries.update(i, entries.last());
    lemma_links_to_update(entries, i, entries.last(), id);
    assert(u.last() == entries.last());
    assert(unlinked(entries, name) == u.drop_last());
}

/// Linking a new name and then unlinking it gives back the directory and
/// the inode's link count, and the inode is kept.
pub proof fn law_link_then_unlink_restores(
    entries: EntriesView,
    oldpath: Seq<char>,
    newpath: Seq<char>,
    id: u32,
    ref_cnt: u32,
)
    requires
        lookup(entries, oldpath) == Some(id),
        lookup(entries, newpath) is None,
        1 <= ref_cnt < u32::MAX,
    ensures
        lookup(entries.push((newpath, id)), newpath) == Some(id),
        unlinked(entries.push((newpath, id)), newpath) == entries,
        released_link(added_link(ref_cnt)) == (ref_cnt, false),
{
    let e = entries.push((newpath, id));
    law_link_shares_inode(entries, oldpath, newpath, id);
    let last = entries.len() as int;
    assert forall|j: int| 0 <= j < last implies (#[trigger] e[j]).0 != newpath by {
        lemma_lookup_absent_inv(entries, newpath, j);
        assert(e[j] == entries[j]);
    }
    assert(is_first_match(e, newpath, last));
    let k = choose|k: int| is_first_match(e, newpath, k);
    assert(k == last) by {
        if k < last {
            assert(e[k].0 != newpath);
        }
    }
    assert(e.update(last, e.last()).drop_last() =~= entries);
}

/// Where every inode's link count is the number of entries that link to it,
/// linking and unlinking keep it so: a link adds one to the linked inode, an
/// unlink takes one from the unlinked inode, which is freed exactly when no
/// entry links to it any more, and no other inode's count changes.
pub proof fn law_link_counts_follow_entries(
    entries: EntriesView,
    oldpath: Seq<char>,
    newpath: Seq<char>,
    path: Seq<char>,
    other: u32,
)
    ensures
        lookup(entries, oldpath) matches Some(i) ==> {
            &&& links_to(entries.push((newpath, i)), i) == links_to(entries, i) + 1
            &&& links_to(entries, i) < u32::MAX ==> added_link(links_to(entries, i) as u32)
                == links_to(entries.push((newpath, i)), i)
            &&& other != i ==> links_to(entries.push((newpath, i)), other) == links_to(
                entries,
                other,
            )
        },
        lookup(entries, path) matches Some(i) ==> {
            &&& links_to(entries, i) >= 1
            &&& links_to(entries, i) <= u32::MAX ==> released_link(links_to(entries, i) as u32)
                == (links_to(unlinked(entries, path), i) as u32, links_to(
                unlinked(entries, path),
                i,
            ) == 0)
            &&& other != i ==> links_to(unlinked(entries, path), other) == links_to(
                entries,
                other,
            )
        },
{
    if lookup(entries, oldpath) is Some {
        let i = lookup(entries, oldpath)->0;
        assert(entries.push((newpath, i)).drop_last() =~= entries);
    }
    if lookup(entries, path) is Some {
        let i = lookup(entries, path)->0;
        lemma_links_to_unlinked(entries, path, i);
        lemma_links_to_unlinked(entries, path, other);
    }
}

/// A file created for an inode that no entry linked to has exactly one link.
pub proof fn law_created_file_has_one_link(entries: EntriesView, name: Seq<char>, id: u32)
    requires
        links_to(entries, id) == 0,
    ensures
        links_to(entries.push((name, id)), id) == 1,
{
    assert(entries.push((name, id)).drop_last() =~= entries);
}

/// Unlinking the only name of an inode leaves no entry linking to it, and its
/// link count, one before, says to free it.
pub proof fn law_unlinking_sole_link_frees(entries: EntriesView, path: Seq<char>, id: u32)
    requires
        lookup(entries, path) == Some(id),
        links_to(entries, id) == 1,
    ensures
        links_to(unlinked(entries, path), id) == 0,
        released_link(1) == (0u32, true),
{
    lemma_links_to_unlinked(entries, path, id);
}

} // verus!

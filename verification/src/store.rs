//! Backing stores.
//!
//! A [`Store`] is one source of files taking part in the layered
//! filesystem.  Its contents are modelled as a map from canonical path
//! keys to file bytes; directories exist implicitly wherever a file
//! stands below them.  [`MemStore`] is the in-memory implementation;
//! further store kinds plug into the [`crate::vfs::Vfs`] through the
//! same trait without changing the resolution logic.

use vstd::prelude::*;
use crate::error::VfsError;
use crate::pathkey::{PathKey, chars_eq, copy_chars, canon_path, views_of};

verus! {

/// Whether a file stands at exactly the key of the file map.
pub open spec fn has_file(m: Map<Seq<Seq<char>>, Seq<u8>>, k: Seq<Seq<char>>) -> bool {
    m.contains_key(k)
}

/// Whether the key names a directory of the file map: a proper prefix
/// of some file.
pub open spec fn has_dir(m: Map<Seq<Seq<char>>, Seq<u8>>, k: Seq<Seq<char>>) -> bool {
    exists|k2: Seq<Seq<char>>|
        #[trigger] m.contains_key(k2) && k2.len() > k.len() && k2.take(k.len() as int) == k
}

/// The canonical names of the direct children of `k` in the file map:
/// the next segment of every file lying below `k`.
pub open spec fn children(m: Map<Seq<Seq<char>>, Seq<u8>>, k: Seq<Seq<char>>) -> Set<Seq<char>> {
    Set::new(
        |c: Seq<char>|
            exists|k2: Seq<Seq<char>>|
                #[trigger] m.contains_key(k2) && k2.len() > k.len() && k2.take(k.len() as int) == k
                    && k2[k.len() as int] == c,
    )
}

/// One source of files, addressed by canonical path keys.
pub trait Store: Sized {
    /// The files of the store: each canonical path to its contents.
    spec fn files(&self) -> Map<Seq<Seq<char>>, Seq<u8>>;

    /// Whether the store's representation is consistent.
    spec fn inv(&self) -> bool;

    /// Whether a file or a directory stands at the key.
    fn contains(&self, k: &PathKey) -> (r: bool)
        requires
            self.inv(),
        ensures
            r == (has_file(self.files(), k@) || has_dir(self.files(), k@));

    /// The contents of the file at the key.
    fn open_read(&self, k: &PathKey) -> (r: Result<Vec<u8>, VfsError>)
        requires
            self.inv(),
        ensures
            match r {
                Ok(v) => has_file(self.files(), k@) && v@ == self.files()[k@],
                Err(e) => !has_file(self.files(), k@) && e == (
                if has_dir(self.files(), k@) {
                    VfsError::IsADirectory
                } else {
                    VfsError::NotFound
                }),
            };

    /// The canonical names of the direct children of the directory at
    /// the key, each exactly once.
    fn list(&self, k: &PathKey) -> (r: Result<Vec<Vec<char>>, VfsError>)
        requires
            self.inv(),
        ensures
            match r {
                Ok(names) => has_dir(self.files(), k@) && views_of(names@).to_set() == children(self.files(), k@)
                    && (forall|i: int, j: int|
                    0 <= i < j < names@.len() ==> (#[trigger] names@[i])@ != (
                    #[trigger] names@[j])@),
                Err(e) => !has_dir(self.files(), k@) && e == (
                if has_file(self.files(), k@) {
                    VfsError::NotADirectory
                } else {
                    VfsError::NotFound
                }),
            };
}

/// A file map with no directory at a key has no children there.
pub proof fn lemma_children_empty_when_no_dir(m: Map<Seq<Seq<char>>, Seq<u8>>, k: Seq<Seq<char>>)
    requires
        !has_dir(m, k),
    ensures
        children(m, k) == Set::<Seq<char>>::empty(),
{
    assert forall|c: Seq<char>| !children(m, k).contains(c) by {
        if children(m, k).contains(c) {
            let k2 = choose|k2: Seq<Seq<char>>|
                #[trigger] m.contains_key(k2) && k2.len() > k.len() && k2.take(k.len() as int) == k
                    && k2[k.len() as int] == c;
            assert(m.contains_key(k2) && k2.len() > k.len() && k2.take(k.len() as int) == k);
            assert(has_dir(m, k));
        }
    }
    assert(children(m, k) =~= Set::<Seq<char>>::empty());
}

/// One file of a [`MemStore`].
struct MemEntry {
    key: PathKey,
    data: Vec<u8>,
}

/// An in-memory store: a growing list of files keyed by canonical
/// path.  Adding a file under an existing key shadows the old
/// contents.
pub struct MemStore {
    entries: Vec<MemEntry>,
}

/// The file map a list of entries describes; a later entry under the
/// same key wins.
spec fn files_of(es: Seq<MemEntry>) -> Map<Seq<Seq<char>>, Seq<u8>>
    decreases es.len(),
{
    if es.len() == 0 {
        Map::empty()
    } else {
        files_of(es.drop_last()).insert(es.last().key@, es.last().data@)
    }
}

/// A key stands in the file map exactly when some entry carries it.
proof fn lemma_files_of_domain(es: Seq<MemEntry>, k: Seq<Seq<char>>)
    ensures
        files_of(es).contains_key(k) <==> exists|i: int| 0 <= i < es.len() && (#[trigger] es[i]).key@ == k,
    decreases es.len(),
{
    if es.len() > 0 {
        lemma_files_of_domain(es.drop_last(), k);
        if es.last().key@ == k {
            assert(es[es.len() - 1].key@ == k);
        } else if files_of(es).contains_key(k) {
            let i = choose|i: int| 0 <= i < es.drop_last().len() && (#[trigger] es.drop_last()[i]).key@ == k;
            assert(es[i].key@ == k);
        } else {
            assert forall|i: int| 0 <= i < es.len() implies (#[trigger] es[i]).key@ != k by {
                if i < es.len() - 1 {
                    assert(es.drop_last()[i] == es[i]);
                }
            }
        }
    }
}

/// The value under a key is the data of the last entry carrying it.
proof fn lemma_files_of_value(es: Seq<MemEntry>, i: int)
    requires
        0 <= i < es.len(),
        forall|j: int| i < j < es.len() ==> (#[trigger] es[j]).key@ != es[i].key@,
    ensures
        files_of(es).contains_key(es[i].key@),
        files_of(es)[es[i].key@] == es[i].data@,
    decreases es.len(),
{
    if i == es.len() - 1 {
    } else {
        assert forall|j: int| i < j < es.drop_last().len() implies (#[trigger] es.drop_last()[j]).key@
            != es[i].key@ by {
            assert(es.drop_last()[j] == es[j]);
        }
        assert(es.drop_last()[i] == es[i]);
        lemma_files_of_value(es.drop_last(), i);
        assert(es.last().key@ != es[i].key@);
    }
}

impl MemStore {
    /// An empty store.
    pub fn new() -> (r: MemStore)
        ensures
            r.files() == Map::<Seq<Seq<char>>, Seq<u8>>::empty(),
            r.inv(),
    {
        MemStore { entries: Vec::new() }
    }

    /// Adds (or replaces) the file at the canonical key of `path` with
    /// the given bytes.  A path with no segments names the root
    /// directory and holds no file.
    pub fn add_file(&mut self, path: &str, data: Vec<u8>) -> (r: Result<(), VfsError>)
        requires
            old(self).inv(),
        ensures
            final(self).inv(),
            match r {
                Ok(()) => canon_path(path@).len() > 0 && final(self).files() == old(self).files().insert(canon_path(path@), data@),
                Err(e) => e == VfsError::IsADirectory && canon_path(path@).len() == 0 && *final(self) == *old(self),
            },
    {
        let key = PathKey::canonicalize(path);
        if key.segment_count() == 0 {
            return Err(VfsError::IsADirectory);
        }
        let ghost before = self.entries@;
        self.entries.push(MemEntry { key, data });
        proof {
            assert(self.entries@.drop_last() =~= before);
        }
        Ok(())
    }

    /// The index of the last entry under the key, if any.
    fn find(&self, k: &PathKey) -> (r: Option<usize>)
        ensures
            match r {
                Some(i) => i < self.entries@.len() && self.entries@[i as int].key@ == k@ && (
                forall|j: int|
                    i < j < self.entries@.len() ==> (#[trigger] self.entries@[j]).key@ != k@),
                None => forall|j: int|
                    0 <= j < self.entries@.len() ==> (#[trigger] self.entries@[j]).key@ != k@,
            },
    {
        let mut i = self.entries.len();
        while i > 0
            invariant
                i <= self.entries@.len(),
                forall|j: int| i <= j < self.entries@.len() ==> (#[trigger] self.entries@[j]).key@ != k@,
            decreases i,
        {
            i -= 1;
            if self.entries[i].key.equals(k) {
                return Some(i);
            }
        }
        None
    }

    /// Whether any entry lies strictly below the key.
    fn find_below(&self, k: &PathKey) -> (r: Option<usize>)
        ensures
            match r {
                Some(i) => i < self.entries@.len() && self.entries@[i as int].key@.len() > k@.len()
                    && self.entries@[i as int].key@.take(k@.len() as int) == k@,
                None => forall|j: int|
                    0 <= j < self.entries@.len() ==> !((#[trigger] self.entries@[j]).key@.len()
                        > k@.len() && self.entries@[j].key@.take(k@.len() as int) == k@),
            },
    {
        let mut i: usize = 0;
        while i < self.entries.len()
            invariant
                i <= self.entries@.len(),
                forall|j: int|
                    0 <= j < i ==> !((#[trigger] self.entries@[j]).key@.len() > k@.len()
                        && self.entries@[j].key@.take(k@.len() as int) == k@),
            decreases self.entries@.len() - i,
        {
            if k.is_proper_prefix_of(&self.entries[i].key) {
                return Some(i);
            }
            i += 1;
        }
        None
    }
}

impl Store for MemStore {
    closed spec fn files(&self) -> Map<Seq<Seq<char>>, Seq<u8>> {
        files_of(self.entries@)
    }

    closed spec fn inv(&self) -> bool {
        true
    }

    fn contains(&self, k: &PathKey) -> (r: bool) {
        proof {
            lemma_files_of_domain(self.entries@, k@);
        }
        match self.find(k) {
            Some(_) => true,
            None => {
                let below = self.find_below(k);
                proof {
                    if below is None {
                        assert forall|k2: Seq<Seq<char>>|
                            !(self.files().contains_key(k2) && k2.len() > k@.len() && k2.take(
                                k@.len() as int,
                            ) == k@) by {
                            if self.files().contains_key(k2) && k2.len() > k@.len() && k2.take(
                                k@.len() as int,
                            ) == k@ {
                                lemma_files_of_domain(self.entries@, k2);
                            }
                        }
                    } else {
                        let i = below->0;
                        lemma_files_of_domain(self.entries@, self.entries@[i as int].key@);
                    }
                }
                below.is_some()
            },
        }
    }

    fn open_read(&self, k: &PathKey) -> (r: Result<Vec<u8>, VfsError>) {
        proof {
            lemma_files_of_domain(self.entries@, k@);
        }
        match self.find(k) {
            Some(i) => {
                proof {
                    lemma_files_of_value(self.entries@, i as int);
                    assert(self.files().contains_key(k@));
                    assert(self.files()[k@] == self.entries@[i as int].data@);
                }
                Ok(copy_bytes(&self.entries[i].data))
            },
            None => {
                let below = self.find_below(k);
                proof {
                    if below is None {
                        assert forall|k2: Seq<Seq<char>>|
                            !(self.files().contains_key(k2) && k2.len() > k@.len() && k2.take(
                                k@.len() as int,
                            ) == k@) by {
                            if self.files().contains_key(k2) && k2.len() > k@.len() && k2.take(
                                k@.len() as int,
                            ) == k@ {
                                lemma_files_of_domain(self.entries@, k2);
                            }
                        }
                    } else {
                        let i = below->0;
                        lemma_files_of_domain(self.entries@, self.entries@[i as int].key@);
                    }
                }
                if below.is_some() {
                    Err(VfsError::IsADirectory)
                } else {
                    Err(VfsError::NotFound)
                }
            },
        }
    }

    fn list(&self, k: &PathKey) -> (r: Result<Vec<Vec<char>>, VfsError>) {
        let mut names: Vec<Vec<char>> = Vec::new();
        let mut i: usize = 0;
        let n = self.entries.len();
        while i < n
            invariant
                i <= n,
                n == self.entries@.len(),
                forall|c: Seq<char>|
                    views_of(names@).to_set().contains(c) <==> exists|j: int|
                        0 <= j < i && entry_child(#[trigger] self.entries@[j], k@, c),
                forall|a: int, b: int|
                    0 <= a < b < names@.len() ==> (#[trigger] names@[a])@ != (#[trigger] names@[b])@,
            decreases n - i,
        {
            let ghost pre = names@;
            if k.is_proper_prefix_of(&self.entries[i].key) {
                proof {
                    k.lemma_view();
                    self.entries@[i as int].key.lemma_view();
                }
                let child = copy_chars(&self.entries[i].key.segments[k.segment_count()]);
                proof {
                    assert(self.entries@[i as int].key@[k@.len() as int] == child@);
                    assert(self.entries@[i as int].key@.take(k@.len() as int) == k@);
                    assert(entry_child(self.entries@[i as int], k@, child@));
                }
                let mut seen = false;
                let mut t: usize = 0;
                while t < names.len()
                    invariant
                        t <= names@.len(),
                        names@ == pre,
                        seen ==> views_of(names@).to_set().contains(child@),
                        !seen ==> forall|a: int| 0 <= a < t ==> (#[trigger] names@[a])@ != child@,
                    decreases names@.len() - t,
                {
                    if chars_eq(&names[t], &child) {
                        proof {
                            assert(views_of(names@)[t as int] == child@);
                            assert(views_of(names@).to_set().contains(child@));
                        }
                        seen = true;
                        t = names.len();
                    } else {
                        t += 1;
                    }
                }
                if !seen {
                    proof {
                        crate::pathkey::lemma_views_to_set_push(names@, child);
                        assert forall|a: int| 0 <= a < names@.len() implies (#[trigger] names@[a])@
                            != child@ by {
                            if names@[a]@ == child@ {
                                assert(views_of(names@)[a] == child@);
                                assert(views_of(names@).to_set().contains(child@));
                            }
                        }
                    }
                    names.push(child);
                }
                proof {
                    assert forall|c: Seq<char>|
                        views_of(names@).to_set().contains(c) <==> exists|j: int|
                            0 <= j < i + 1 && entry_child(#[trigger] self.entries@[j], k@, c) by {
                        if views_of(names@).to_set().contains(c) {
                            if views_of(pre).to_set().contains(c) {
                                let j = choose|j: int|
                                    0 <= j < i && entry_child(#[trigger] self.entries@[j], k@, c);
                                assert(entry_child(self.entries@[j], k@, c));
                            } else {
                                assert(c == child@);
                                assert(entry_child(self.entries@[i as int], k@, c));
                            }
                        }
                        if exists|j: int|
                            0 <= j < i + 1 && entry_child(#[trigger] self.entries@[j], k@, c) {
                            let j = choose|j: int|
                                0 <= j < i + 1 && entry_child(#[trigger] self.entries@[j], k@, c);
                            if j < i {
                                assert(views_of(pre).to_set().contains(c));
                            } else {
                                assert(c == child@);
                            }
                            assert(views_of(names@).to_set().contains(c));
                        }
                    }
                }
            } else {
                proof {
                    assert forall|c: Seq<char>|
                        views_of(names@).to_set().contains(c) <==> exists|j: int|
                            0 <= j < i + 1 && entry_child(#[trigger] self.entries@[j], k@, c) by {
                        if exists|j: int|
                            0 <= j < i + 1 && entry_child(#[trigger] self.entries@[j], k@, c) {
                            let j = choose|j: int|
                                0 <= j < i + 1 && entry_child(#[trigger] self.entries@[j], k@, c);
                            assert(j < i);
                        }
                    }
                }
            }
            i += 1;
        }
        proof {
            assert forall|c: Seq<char>|
                views_of(names@).to_set().contains(c) <==> children(self.files(), k@).contains(
                c,
            ) by {
                if views_of(names@).to_set().contains(c) {
                    let j = choose|j: int| 0 <= j < n && entry_child(#[trigger] self.entries@[j], k@, c);
                    lemma_files_of_domain(self.entries@, self.entries@[j].key@);
                    assert(self.files().contains_key(self.entries@[j].key@));
                } else {
                    if children(self.files(), k@).contains(c) {
                        let k2 = choose|k2: Seq<Seq<char>>|
                            #[trigger] self.files().contains_key(k2) && k2.len() > k@.len()
                                && k2.take(k@.len() as int) == k@ && k2[k@.len() as int] == c;
                        lemma_files_of_domain(self.entries@, k2);
                        let j = choose|j: int| 0 <= j < n && (#[trigger] self.entries@[j]).key@ == k2;
                        assert(entry_child(self.entries@[j], k@, c));
                    }
                }
            }
            assert(views_of(names@).to_set() =~= children(self.files(), k@));
        }
        if names.len() > 0 {
            proof {
                let c0 = views_of(names@)[0];
                assert(views_of(names@).contains(c0));
                assert(views_of(names@).to_set().contains(c0));
                let k2 = choose|k2: Seq<Seq<char>>|
                    #[trigger] self.files().contains_key(k2) && k2.len() > k@.len() && k2.take(
                        k@.len() as int,
                    ) == k@ && k2[k@.len() as int] == c0;
                assert(has_dir(self.files(), k@));
            }
            Ok(names)
        } else {
            proof {
                if has_dir(self.files(), k@) {
                    let k2 = choose|k2: Seq<Seq<char>>|
                        #[trigger] self.files().contains_key(k2) && k2.len() > k@.len() && k2.take(
                            k@.len() as int,
                        ) == k@;
                    assert(children(self.files(), k@).contains(k2[k@.len() as int]));
                    assert(views_of(names@).to_set().contains(k2[k@.len() as int]));
                }
                lemma_files_of_domain(self.entries@, k@);
            }
            match self.find(k) {
                Some(_) => Err(VfsError::NotADirectory),
                None => Err(VfsError::NotFound),
            }
        }
    }
}

/// Whether the entry lies strictly below `k` with `c` as the next
/// segment.
spec fn entry_child(e: MemEntry, k: Seq<Seq<char>>, c: Seq<char>) -> bool {
    e.key@.len() > k.len() && e.key@.take(k.len() as int) == k && e.key@[k.len() as int] == c
}

/// A copy of a byte vector.
pub(crate) fn copy_bytes(v: &Vec<u8>) -> (r: Vec<u8>)
    ensures
        r@ == v@,
{
    let mut r: Vec<u8> = Vec::new();
    let mut i: usize = 0;
    while i < v.len()
        invariant
            i <= v.len(),
            r@ == v@.take(i as int),
        decreases v.len() - i,
    {
        r.push(v[i]);
        proof {
            assert(v@.take(i as int).push(v@[i as int]) =~= v@.take(i + 1 as int));
        }
        i += 1;
    }
    proof {
        assert(v@.take(v@.len() as int) =~= v@);
    }
    r
}

} // verus!

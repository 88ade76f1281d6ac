//! The layered virtual filesystem.
//!
//! A [`Vfs`] owns an ordered stack of stores.  Paths are canonicalized
//! and the stack is consulted most-recently-added first, so a store
//! added later (a patch, a mod) overrides earlier content path by
//! path.  Directory listings are the union of every store's listing,
//! merged by canonical name.

use vstd::prelude::*;
use crate::error::VfsError;
use crate::handle::FileHandle;
use crate::pathkey::{PathKey, canon_path, canon_seg, views_of, chars_to_string, copy_chars, chars_eq, canonical_segment};
use crate::store::{Store, has_file, has_dir, children, lemma_children_empty_when_no_dir};

verus! {

/// The views of a sequence of strings.
pub open spec fn strs_of(v: Seq<String>) -> Seq<Seq<char>> {
    Seq::new(v.len(), |i: int| v[i]@)
}

/// What opening the key against a stack of stores yields: the file of
/// the most recently added store that has the key; `IsADirectory` when
/// that store holds a directory there; `NotFound` when no store has it.
pub open spec fn open_outcome<S: Store>(stores: Seq<S>, k: Seq<Seq<char>>) -> Result<
    Seq<u8>,
    VfsError,
>
    decreases stores.len(),
{
    if stores.len() == 0 {
        Err(VfsError::NotFound)
    } else if has_file(stores.last().files(), k) {
        Ok(stores.last().files()[k])
    } else if has_dir(stores.last().files(), k) {
        Err(VfsError::IsADirectory)
    } else {
        open_outcome(stores.drop_last(), k)
    }
}

/// The canonical child names of the key across the whole stack.
pub open spec fn union_children<S: Store>(stores: Seq<S>, k: Seq<Seq<char>>) -> Set<Seq<char>>
    decreases stores.len(),
{
    if stores.len() == 0 {
        Set::empty()
    } else {
        union_children(stores.drop_last(), k) + children(stores.last().files(), k)
    }
}

/// Whether any store of the stack holds a directory at the key.
pub open spec fn any_dir<S: Store>(stores: Seq<S>, k: Seq<Seq<char>>) -> bool {
    exists|i: int| 0 <= i < stores.len() && has_dir((#[trigger] stores[i]).files(), k)
}

/// Whether any store of the stack holds a file or a directory at the key.
pub open spec fn any_entry<S: Store>(stores: Seq<S>, k: Seq<Seq<char>>) -> bool {
    exists|i: int|
        0 <= i < stores.len() && (has_file((#[trigger] stores[i]).files(), k) || has_dir(
            stores[i].files(),
            k,
        ))
}

/// Opening fails with `NotFound` exactly when no store has the key.
pub proof fn lemma_outcome_notfound<S: Store>(stores: Seq<S>, k: Seq<Seq<char>>)
    ensures
        (open_outcome(stores, k) == Err::<Seq<u8>, VfsError>(VfsError::NotFound)) <==> !any_entry(
            stores,
            k,
        ),
    decreases stores.len(),
{
    if stores.len() > 0 {
        lemma_outcome_notfound(stores.drop_last(), k);
        let last = stores.len() - 1;
        if has_file(stores.last().files(), k) || has_dir(stores.last().files(), k) {
            assert(stores[last] == stores.last());
            assert(any_entry(stores, k));
        } else {
            assert forall|i: int|
                0 <= i < stores.len() && (has_file((#[trigger] stores[i]).files(), k) || has_dir(
                    stores[i].files(),
                    k,
                )) implies i < last by {
            }
            assert forall|i: int| 0 <= i < stores.drop_last().len() implies stores.drop_last()[i]
                == stores[i] by {}
            assert(any_entry(stores, k) <==> any_entry(stores.drop_last(), k));
        }
    }
}

/// A store added on top of the stack and holding a file at the key
/// answers every open of that key: later stores override earlier ones.
pub proof fn lemma_overlay_precedence<S: Store>(stores: Seq<S>, top: S, k: Seq<Seq<char>>)
    requires
        has_file(top.files(), k),
    ensures
        open_outcome(stores.push(top), k) == Ok::<Seq<u8>, VfsError>(top.files()[k]),
{
    assert(stores.push(top).last() == top);
}

/// Merged listings are complete: the children of a stack with one more
/// store on top are the children so far united with the new store's.
pub proof fn lemma_union_children_push<S: Store>(stores: Seq<S>, top: S, k: Seq<Seq<char>>)
    ensures
        union_children(stores.push(top), k) == union_children(stores, k) + children(
            top.files(),
            k,
        ),
{
    assert(stores.push(top).last() == top);
    assert(stores.push(top).drop_last() =~= stores);
}

/// On an empty stack every open fails with `NotFound`.
pub proof fn lemma_open_empty<S: Store>(k: Seq<Seq<char>>)
    ensures
        open_outcome(Seq::<S>::empty(), k) == Err::<Seq<u8>, VfsError>(VfsError::NotFound),
{
}

/// An ordered stack of stores, mutable only by appending.
pub struct Vfs<S: Store> {
    stores: Vec<S>,
}

impl<S: Store> Vfs<S> {
    /// The stores of the stack, in insertion order.
    pub closed spec fn stores_seq(&self) -> Seq<S> {
        self.stores@
    }

    /// Every store of the stack is consistent.
    pub open spec fn inv(&self) -> bool {
        forall|i: int| 0 <= i < self.stores_seq().len() ==> (#[trigger] self.stores_seq()[i]).inv()
    }

    /// An empty stack: it resolves nothing.
    pub fn new() -> (r: Vfs<S>)
        ensures
            r.stores_seq() == Seq::<S>::empty(),
            r.inv(),
    {
        let r = Vfs { stores: Vec::new() };
        proof {
            assert(r.stores_seq() =~= Seq::<S>::empty());
        }
        r
    }

    /// Appends a store at the highest priority: from now on it answers
    /// first for every path it contains.
    pub fn add_store(&mut self, store: S)
        requires
            old(self).inv(),
            store.inv(),
        ensures
            final(self).stores_seq() == old(self).stores_seq().push(store),
            final(self).inv(),
    {
        let ghost pre = self.stores@;
        self.stores.push(store);
        proof {
            assert forall|i: int| 0 <= i < self.stores_seq().len() implies (
            #[trigger] self.stores_seq()[i]).inv() by {
                if i < pre.len() {
                    assert(old(self).stores_seq()[i].inv());
                }
            }
        }
    }

    /// Opens the file at the path: the most recently added store that
    /// has the canonical key answers, with its contents behind a fresh
    /// handle.  `NotFound` when no store has the key, `IsADirectory`
    /// when the winning store holds a directory there.
    pub fn open(&self, path: &str) -> (r: Result<FileHandle, VfsError>)
        requires
            self.inv(),
        ensures
            match r {
                Ok(h) => open_outcome(self.stores_seq(), canon_path(path@)) == Ok::<
                    Seq<u8>,
                    VfsError,
                >(h.bytes()) && h.cursor() == 0,
                Err(e) => open_outcome(self.stores_seq(), canon_path(path@)) == Err::<
                    Seq<u8>,
                    VfsError,
                >(e),
            },
    {
        let k = PathKey::canonicalize(path);
        let ghost all = self.stores_seq();
        proof {
            assert(all.subrange(0, all.len() as int) =~= all);
        }
        let mut i = self.stores.len();
        while i > 0
            invariant
                i <= all.len(),
                all == self.stores_seq(),
                self.inv(),
                k@ == canon_path(path@),
                open_outcome(all.subrange(0, i as int), k@) == open_outcome(all, k@),
            decreases i,
        {
            i -= 1;
            let ghost prefix = all.subrange(0, i + 1);
            proof {
                assert(self.stores_seq()[i as int].inv());
                assert(prefix.last() == all[i as int]);
                assert(prefix.drop_last() =~= all.subrange(0, i as int));
            }
            let st = &self.stores[i];
            if st.contains(&k) {
                match st.open_read(&k) {
                    Ok(v) => {
                        proof {
                            assert(has_file(all[i as int].files(), k@));
                            assert(open_outcome(prefix, k@) == Ok::<Seq<u8>, VfsError>(v@));
                        }
                        return Ok(FileHandle::new(v));
                    },
                    Err(e) => {
                        proof {
                            assert(!has_file(all[i as int].files(), k@));
                            assert(has_dir(all[i as int].files(), k@));
                            assert(e == VfsError::IsADirectory);
                            assert(open_outcome(prefix, k@) == Err::<Seq<u8>, VfsError>(e));
                        }
                        return Err(e);
                    },
                }
            } else {
                proof {
                    assert(open_outcome(prefix, k@) == open_outcome(
                        all.subrange(0, i as int),
                        k@,
                    ));
                }
            }
        }
        proof {
            assert(all.subrange(0, 0) =~= Seq::<S>::empty());
        }
        Err(VfsError::NotFound)
    }

    /// Whether any store holds a file or a directory at the path.
    pub fn exists_path(&self, path: &str) -> (r: bool)
        requires
            self.inv(),
        ensures
            r == any_entry(self.stores_seq(), canon_path(path@)),
            r == !(open_outcome(self.stores_seq(), canon_path(path@)) == Err::<Seq<u8>, VfsError>(
                VfsError::NotFound,
            )),
    {
        proof {
            lemma_outcome_notfound(self.stores_seq(), canon_path(path@));
        }
        let k = PathKey::canonicalize(path);
        let mut i: usize = 0;
        while i < self.stores.len()
            invariant
                i <= self.stores_seq().len(),
                self.inv(),
                k@ == canon_path(path@),
                forall|j: int|
                    0 <= j < i ==> !(has_file((#[trigger] self.stores_seq()[j]).files(), k@)
                        || has_dir(self.stores_seq()[j].files(), k@)),
            decreases self.stores_seq().len() - i,
        {
            proof {
                assert(self.stores_seq()[i as int].inv());
            }
            if self.stores[i].contains(&k) {
                proof {
                    assert(has_file(self.stores_seq()[i as int].files(), k@) || has_dir(
                        self.stores_seq()[i as int].files(),
                        k@,
                    ));
                    assert(any_entry(self.stores_seq(), k@));
                    assert(any_entry(self.stores_seq(), canon_path(path@)));
                    lemma_outcome_notfound(self.stores_seq(), canon_path(path@));
                }
                return true;
            }
            i += 1;
        }
        proof {
            assert(!any_entry(self.stores_seq(), canon_path(path@)));
            lemma_outcome_notfound(self.stores_seq(), canon_path(path@));
        }
        false
    }

    /// The merged canonical child names of the key, and whether any
    /// store holds a directory there.
    #[verifier::loop_isolation(false)]
    fn merged_children(&self, k: &PathKey) -> (r: (Vec<Vec<char>>, bool))
        requires
            self.inv(),
        ensures
            views_of(r.0@).to_set() == union_children(self.stores_seq(), k@),
            forall|a: int, b: int|
                0 <= a < b < r.0@.len() ==> (#[trigger] r.0@[a])@ != (#[trigger] r.0@[b])@,
            r.1 == any_dir(self.stores_seq(), k@),
    {
        let ghost all = self.stores_seq();
        let mut merged: Vec<Vec<char>> = Vec::new();
        let mut found = false;
        let mut i: usize = 0;
        proof {
            assert(all.subrange(0, 0) =~= Seq::<S>::empty());
            assert(views_of(merged@).to_set() =~= union_children(all.subrange(0, 0), k@));
        }
        while i < self.stores.len()
            invariant
                i <= all.len(),
                all == self.stores_seq(),
                self.inv(),
                views_of(merged@).to_set() == union_children(all.subrange(0, i as int), k@),
                forall|a: int, b: int|
                    0 <= a < b < merged@.len() ==> (#[trigger] merged@[a])@ != (
                    #[trigger] merged@[b])@,
                found == exists|j: int| 0 <= j < i && has_dir((#[trigger] all[j]).files(), k@),
            decreases all.len() - i,
        {
            let ghost prefix = all.subrange(0, i + 1);
            let ghost pre_set = views_of(merged@).to_set();
            proof {
                assert(self.stores_seq()[i as int].inv());
                assert(prefix.last() == all[i as int]);
                assert(prefix.drop_last() =~= all.subrange(0, i as int));
            }
            match self.stores[i].list(k) {
                Ok(names) => {
                    proof {
                        assert(has_dir(all[i as int].files(), k@));
                    }
                    found = true;
                    let mut t: usize = 0;
                    proof {
                        assert(views_of(names@.take(0)).to_set() =~= Set::<Seq<char>>::empty());
                        assert(views_of(merged@).to_set() =~= pre_set + views_of(
                            names@.take(0),
                        ).to_set());
                    }
                    while t < names.len()
                        invariant
                            t <= names@.len(),
                            views_of(names@).to_set() == children(all[i as int].files(), k@),
                            views_of(merged@).to_set() == pre_set + views_of(
                                names@.take(t as int),
                            ).to_set(),
                            forall|a: int, b: int|
                                0 <= a < b < merged@.len() ==> (#[trigger] merged@[a])@ != (
                                #[trigger] merged@[b])@,
                        decreases names@.len() - t,
                    {
                        let ghost mid_seq = merged@;
                        let ghost mid_set = views_of(mid_seq).to_set();
                        let cand = copy_chars(&names[t]);
                        let mut seen = false;
                        let mut u: usize = 0;
                        while u < merged.len()
                            invariant
                                u <= merged@.len(),
                                merged@ == mid_seq,
                                seen ==> views_of(merged@).to_set().contains(cand@),
                                !seen ==> forall|a: int|
                                    0 <= a < u ==> (#[trigger] merged@[a])@ != cand@,
                            decreases merged@.len() - u,
                        {
                            if chars_eq(&merged[u], &cand) {
                                proof {
                                    assert(views_of(merged@)[u as int] == cand@);
                                    assert(views_of(merged@).to_set().contains(cand@));
                                }
                                seen = true;
                                u = merged.len();
                            } else {
                                u += 1;
                            }
                        }
                        if !seen {
                            proof {
                                crate::pathkey::lemma_views_to_set_push(mid_seq, cand);
                            }
                            merged.push(cand);
                            proof {
                                assert(merged@ == mid_seq.push(cand));
                                assert(views_of(merged@).to_set() == mid_set.insert(cand@));
                                assert forall|a: int, b: int|
                                    0 <= a < b < merged@.len() implies (#[trigger] merged@[a])@
                                    != (#[trigger] merged@[b])@ by {
                                    if b < mid_seq.len() {
                                        assert(merged@[a] == mid_seq[a]);
                                        assert(merged@[b] == mid_seq[b]);
                                    } else {
                                        assert(merged@[a] == mid_seq[a]);
                                        assert(merged@[b] == cand);
                                        assert(mid_seq[a]@ != cand@);
                                    }
                                }
                            }
                        }
                        proof {
                            let post_take = views_of(names@.take(t + 1)).to_set();
                            let pre_take = views_of(names@.take(t as int)).to_set();
                            assert forall|c: Seq<char>|
                                views_of(merged@).to_set().contains(c) <==> (pre_set
                                + post_take).contains(c) by {
                                assert(names@.take(t + 1)[t as int] == names@[t as int]);
                                assert(views_of(names@.take(t + 1))[t as int] == names@[t as int]@);
                                if post_take.contains(c) {
                                    let u2 = choose|u2: int|
                                        0 <= u2 < views_of(names@.take(t + 1)).len() && (
                                        #[trigger] views_of(names@.take(t + 1))[u2]) == c;
                                    if u2 < t {
                                        assert(views_of(names@.take(t as int))[u2] == c);
                                        assert(pre_take.contains(c));
                                        assert(mid_set.contains(c));
                                    } else {
                                        assert(c == cand@);
                                    }
                                    assert(views_of(merged@).to_set().contains(c));
                                }
                                if pre_take.contains(c) {
                                    let u2 = choose|u2: int|
                                        0 <= u2 < views_of(names@.take(t as int)).len() && (
                                        #[trigger] views_of(names@.take(t as int))[u2]) == c;
                                    assert(views_of(names@.take(t + 1))[u2] == c);
                                    assert(post_take.contains(c));
                                }
                                if views_of(merged@).to_set().contains(c) {
                                    if mid_set.contains(c) {
                                    } else {
                                        assert(c == cand@);
                                        assert(post_take.contains(c));
                                    }
                                }
                                if c == cand@ {
                                    assert(views_of(merged@).to_set().contains(c));
                                    assert(post_take.contains(c));
                                }
                            }
                            assert(views_of(merged@).to_set() =~= pre_set + views_of(
                                names@.take(t + 1),
                            ).to_set());
                        }
                        t += 1;
                    }
                    proof {
                        assert(names@.take(names@.len() as int) =~= names@);
                    }
                    proof {
                        let st_children = children(all[i as int].files(), k@);
                        assert forall|c: Seq<char>|
                            views_of(merged@).to_set().contains(c) <==> union_children(
                            prefix,
                            k@,
                        ).contains(c) by {
                            assert(union_children(prefix, k@) == union_children(
                                all.subrange(0, i as int),
                                k@,
                            ) + st_children);
                            if exists|u: int|
                                0 <= u < names@.len() && (#[trigger] names@[u])@ == c {
                                let u = choose|u: int|
                                    0 <= u < names@.len() && (#[trigger] names@[u])@ == c;
                                assert(views_of(names@)[u] == c);
                                assert(views_of(names@).to_set().contains(c));
                                assert(st_children.contains(c));
                            }
                            if st_children.contains(c) {
                                assert(views_of(names@).to_set().contains(c));
                                let u = choose|u: int|
                                    0 <= u < views_of(names@).len() && views_of(names@)[u] == c;
                                assert(names@[u]@ == c);
                            }
                        }
                        assert(views_of(merged@).to_set() =~= union_children(prefix, k@));
                        assert(has_dir(all[i as int].files(), k@));
                    }
                },
                Err(_) => {
                    proof {
                        assert(!has_dir(all[i as int].files(), k@));
                        lemma_children_empty_when_no_dir(all[i as int].files(), k@);
                        assert(union_children(prefix, k@) =~= union_children(
                            all.subrange(0, i as int),
                            k@,
                        ));
                        assert forall|j: int|
                            0 <= j < i + 1 && has_dir((#[trigger] all[j]).files(), k@) implies j
                            < i by {}
                    }
                },
            }
            i += 1;
        }
        proof {
            assert(all.subrange(0, all.len() as int) =~= all);
        }
        (merged, found)
    }

    /// The merged directory listing at the path: every store's children
    /// of the canonical key, united, each canonical name exactly once.
    /// `NotFound` exactly when the path is a directory in no store.
    #[verifier::loop_isolation(false)]
    pub fn read_dir(&self, path: &str) -> (r: Result<Vec<String>, VfsError>)
        requires
            self.inv(),
        ensures
            match r {
                Ok(names) => any_dir(self.stores_seq(), canon_path(path@)) && strs_of(
                    names@,
                ).to_set() == union_children(self.stores_seq(), canon_path(path@)) && (forall|
                    a: int,
                    b: int,
                |
                    0 <= a < b < names@.len() ==> (#[trigger] names@[a])@ != (
                    #[trigger] names@[b])@),
                Err(e) => e == VfsError::NotFound && !any_dir(
                    self.stores_seq(),
                    canon_path(path@),
                ),
            },
    {
        let k = PathKey::canonicalize(path);
        let (merged, found) = self.merged_children(&k);
        if !found {
            return Err(VfsError::NotFound);
        }
        let mut out: Vec<String> = Vec::new();
        let mut t: usize = 0;
        while t < merged.len()
            invariant
                t <= merged@.len(),
                out@.len() == t,
                forall|a: int| 0 <= a < t ==> (#[trigger] out@[a])@ == (#[trigger] merged@[a])@,
                forall|a: int, b: int|
                    0 <= a < b < merged@.len() ==> (#[trigger] merged@[a])@ != (
                    #[trigger] merged@[b])@,
            decreases merged@.len() - t,
        {
            out.push(chars_to_string(&merged[t]));
            t += 1;
        }
        proof {
            assert(strs_of(out@) =~= views_of(merged@));
            assert(strs_of(out@).to_set() == union_children(self.stores_seq(), canon_path(path@)));
            assert forall|a: int, b: int| 0 <= a < b < out@.len() implies (#[trigger] out@[a])@
                != (#[trigger] out@[b])@ by {
                assert(out@[a]@ == merged@[a]@);
                assert(out@[b]@ == merged@[b]@);
            }
        }
        Ok(out)
    }

    /// The merged directory listing at the path, restricted to names
    /// whose canonical extension (what follows the last dot) is the
    /// canonical form of `ext`.
    #[verifier::loop_isolation(false)]
    pub fn read_dir_with_extension(&self, path: &str, ext: &str) -> (r: Result<
        Vec<String>,
        VfsError,
    >)
        requires
            self.inv(),
        ensures
            match r {
                Ok(names) => any_dir(self.stores_seq(), canon_path(path@)) && (forall|
                    c: Seq<char>,
                |
                    strs_of(names@).to_set().contains(c) <==> (union_children(
                        self.stores_seq(),
                        canon_path(path@),
                    ).contains(c) && extension_of(c) == Some(canon_seg(ext@)))) && (forall|
                    a: int,
                    b: int,
                |
                    0 <= a < b < names@.len() ==> (#[trigger] names@[a])@ != (
                    #[trigger] names@[b])@),
                Err(e) => e == VfsError::NotFound && !any_dir(
                    self.stores_seq(),
                    canon_path(path@),
                ),
            },
    {
        let k = PathKey::canonicalize(path);
        let target = canonical_segment(ext);
        let (merged, found) = self.merged_children(&k);
        if !found {
            return Err(VfsError::NotFound);
        }
        let ghost uni = union_children(self.stores_seq(), k@);
        let mut out: Vec<String> = Vec::new();
        let mut t: usize = 0;
        while t < merged.len()
            invariant
                t <= merged@.len(),
                target@ == canon_seg(ext@),
                views_of(merged@).to_set() == uni,
                forall|a: int, b: int|
                    0 <= a < b < merged@.len() ==> (#[trigger] merged@[a])@ != (
                    #[trigger] merged@[b])@,
                forall|c: Seq<char>|
                    strs_of(out@).to_set().contains(c) <==> ((exists|a: int|
                        0 <= a < t && (#[trigger] merged@[a])@ == c) && extension_of(c) == Some(
                        target@,
                    )),
                forall|a: int, b: int|
                    0 <= a < b < out@.len() ==> (#[trigger] out@[a])@ != (#[trigger] out@[b])@,
            decreases merged@.len() - t,
        {
            let ghost pre = out@;
            let keep = match extension_chars(&merged[t]) {
                Some(e) => chars_eq(&e, &target),
                None => false,
            };
            if keep {
                proof {
                    assert forall|b: int| 0 <= b < out@.len() implies (#[trigger] out@[b])@ != (
                    merged@[t as int])@ by {
                        let c = out@[b]@;
                        assert(strs_of(out@)[b] == c);
                        assert(strs_of(out@).to_set().contains(c));
                        let a = choose|a: int| 0 <= a < t && (#[trigger] merged@[a])@ == c;
                    }
                }
                out.push(chars_to_string(&merged[t]));
                proof {
                    assert(strs_of(out@) =~= strs_of(pre).push(merged@[t as int]@));
                }
            }
            proof {
                assert forall|c: Seq<char>|
                    strs_of(out@).to_set().contains(c) <==> ((exists|a: int|
                        0 <= a < t + 1 && (#[trigger] merged@[a])@ == c) && extension_of(c) == Some(
                        target@,
                    )) by {
                    if strs_of(out@).to_set().contains(c) {
                        let b = choose|b: int| 0 <= b < strs_of(out@).len() && strs_of(out@)[b] == c;
                        if b < pre.len() {
                            assert(strs_of(pre)[b] == c);
                            assert(strs_of(pre).to_set().contains(c));
                        } else {
                            assert(c == merged@[t as int]@);
                        }
                    }
                    if (exists|a: int| 0 <= a < t + 1 && (#[trigger] merged@[a])@ == c)
                        && extension_of(c) == Some(target@) {
                        let a = choose|a: int| 0 <= a < t + 1 && (#[trigger] merged@[a])@ == c;
                        if a < t {
                            assert(strs_of(pre).to_set().contains(c));
                            let b = choose|b: int|
                                0 <= b < strs_of(pre).len() && strs_of(pre)[b] == c;
                            assert(strs_of(out@)[b] == c);
                            assert(strs_of(out@).to_set().contains(c));
                        } else {
                            assert(c == merged@[t as int]@);
                            assert(keep);
                            assert(strs_of(out@)[out@.len() - 1] == c);
                            assert(strs_of(out@).to_set().contains(c));
                        }
                    }
                }
            }
            t += 1;
        }
        proof {
            assert forall|c: Seq<char>|
                strs_of(out@).to_set().contains(c) <==> (uni.contains(c) && extension_of(c)
                    == Some(canon_seg(ext@))) by {
                if uni.contains(c) {
                    let a = choose|a: int|
                        0 <= a < views_of(merged@).len() && (#[trigger] views_of(merged@)[a]) == c;
                    assert(merged@[a]@ == c);
                }
                if exists|a: int| 0 <= a < merged@.len() && (#[trigger] merged@[a])@ == c {
                    let a = choose|a: int| 0 <= a < merged@.len() && (#[trigger] merged@[a])@ == c;
                    assert(views_of(merged@)[a] == c);
                    assert(views_of(merged@).to_set().contains(c));
                }
            }
        }
        Ok(out)
    }
}

/// What follows the last dot of a name, if any dot stands in it.
pub open spec fn extension_of(name: Seq<char>) -> Option<Seq<char>>
    decreases name.len(),
{
    if name.len() == 0 {
        None
    } else if name.last() == '.' {
        Some(Seq::empty())
    } else {
        match extension_of(name.drop_last()) {
            Some(e) => Some(e.push(name.last())),
            None => None,
        }
    }
}

/// A name without a dot has no extension.
proof fn lemma_extension_none(name: Seq<char>)
    requires
        forall|j: int| 0 <= j < name.len() ==> name[j] != '.',
    ensures
        extension_of(name) is None,
    decreases name.len(),
{
    if name.len() > 0 {
        assert forall|j: int| 0 <= j < name.drop_last().len() implies name.drop_last()[j]
            != '.' by {
            assert(name.drop_last()[j] == name[j]);
        }
        lemma_extension_none(name.drop_last());
    }
}

/// With the last dot at `d`, the extension is what follows it.
proof fn lemma_extension_at(name: Seq<char>, d: int)
    requires
        0 <= d < name.len(),
        name[d] == '.',
        forall|j: int| d < j < name.len() ==> name[j] != '.',
    ensures
        extension_of(name) == Some(name.subrange(d + 1, name.len() as int)),
    decreases name.len(),
{
    if d == name.len() - 1 {
        assert(name.last() == '.');
        assert(name.subrange(d + 1, name.len() as int) =~= Seq::<char>::empty());
    } else {
        assert(name.last() != '.');
        assert forall|j: int| d < j < name.drop_last().len() implies name.drop_last()[j] != '.' by {
            assert(name.drop_last()[j] == name[j]);
        }
        assert(name.drop_last()[d] == name[d]);
        lemma_extension_at(name.drop_last(), d);
        assert(name.drop_last().subrange(d + 1, name.drop_last().len() as int).push(name.last())
            =~= name.subrange(d + 1, name.len() as int));
    }
}

/// The characters after the last dot of the name, if a dot stands in it.
fn extension_chars(name: &Vec<char>) -> (r: Option<Vec<char>>)
    ensures
        match r {
            Some(e) => extension_of(name@) == Some(e@),
            None => extension_of(name@) is None,
        },
{
    let n = name.len();
    let mut j = n;
    while j > 0
        invariant
            j <= n,
            n == name@.len(),
            forall|t: int| j <= t < n ==> name@[t] != '.',
        decreases j,
    {
        if name[j - 1] == '.' {
            let mut e: Vec<char> = Vec::new();
            let mut t = j;
            while t < n
                invariant
                    j <= t <= n,
                    n == name@.len(),
                    e@ == name@.subrange(j as int, t as int),
                decreases n - t,
            {
                e.push(name[t]);
                proof {
                    assert(name@.subrange(j as int, t as int).push(name@[t as int])
                        =~= name@.subrange(j as int, t + 1 as int));
                }
                t += 1;
            }
            proof {
                lemma_extension_at(name@, j - 1);
            }
            return Some(e);
        }
        j -= 1;
    }
    proof {
        lemma_extension_none(name@);
    }
    None
}


} // verus!

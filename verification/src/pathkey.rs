//! Canonical, case-insensitive path keys.
//!
//! A [`PathKey`] is derived from a textual path by splitting it on the
//! path separators `/` and `\`, case-folding every segment and bringing
//! it to the canonical composed Unicode form (NFC).  Two keys are equal
//! exactly when every segment is equal after that transform, so key
//! equality does not depend on the case convention of the author nor on
//! the normalization form of the input.

use vstd::prelude::*;
use unicode_normalization::UnicodeNormalization;
use crate::error::VfsError;

verus! {

/// True for the two path separators the library recognizes.
pub open spec fn is_sep(c: char) -> bool {
    c == '/' || c == '\\'
}

pub open spec fn char_is_ascii(c: char) -> bool {
    (c as u32) < 128
}

pub open spec fn seq_is_ascii(s: Seq<char>) -> bool {
    forall|i: int| 0 <= i < s.len() ==> char_is_ascii(#[trigger] s[i])
}

/// The ASCII lowercase map, the identity outside `'A'..='Z'`.
pub open spec fn ascii_lower_char(c: char) -> char {
    if 65 <= (c as u32) && (c as u32) <= 90 {
        ((c as u32 + 32) as u32) as char
    } else {
        c
    }
}

/// The ASCII lowercase map over a whole segment.
pub open spec fn ascii_lower_seq(s: Seq<char>) -> Seq<char> {
    Seq::new(s.len(), |i: int| ascii_lower_char(s[i]))
}

/// The length of the leading separator-free run of `s`.
pub open spec fn first_seg_len(s: Seq<char>) -> nat
    decreases s.len(),
{
    if s.len() == 0 || is_sep(s[0]) {
        0
    } else {
        1 + first_seg_len(s.drop_first())
    }
}

/// The non-empty segments of `s`, in order: separators delimit segments
/// and runs of separators, or separators at either end, add no empty
/// segments.
pub open spec fn split_path(s: Seq<char>) -> Seq<Seq<char>>
    decreases s.len(),
    via split_path_decreases
{
    if s.len() == 0 {
        Seq::empty()
    } else if is_sep(s[0]) {
        split_path(s.drop_first())
    } else {
        seq![s.take(first_seg_len(s) as int)] + split_path(s.skip(first_seg_len(s) as int))
    }
}

#[via_fn]
proof fn split_path_decreases(s: Seq<char>) {
    if s.len() > 0 && !is_sep(s[0]) {
        lemma_first_seg_len_bounds(s);
        assert(first_seg_len(s) >= 1);
    }
}

/// What `caseless::default_case_fold_str` returns for a given segment.
pub uninterp spec fn fold_of(s: Seq<char>) -> Seq<char>;

/// What the `nfc` iterator of `unicode_normalization` returns for a
/// given segment.
pub uninterp spec fn nfc_of(s: Seq<char>) -> Seq<char>;

/// The canonical form of one segment: case folding first, then the
/// canonical composed normalization form.
pub open spec fn canon_seg(s: Seq<char>) -> Seq<char> {
    nfc_of(fold_of(s))
}

/// The canonical segments of a path text.
pub open spec fn canon_path(s: Seq<char>) -> Seq<Seq<char>> {
    Seq::new(split_path(s).len(), |i: int| canon_seg(split_path(s)[i]))
}

/// The canonical segments of an all-ASCII path text, written without
/// the named Unicode operations: on ASCII text, case folding is the
/// ASCII lowercase map and normalization changes nothing.
pub open spec fn ascii_canon_path(s: Seq<char>) -> Seq<Seq<char>> {
    Seq::new(split_path(s).len(), |i: int| ascii_lower_seq(split_path(s)[i]))
}

/// The views of a sequence of character vectors.
pub open spec fn views_of(v: Seq<Vec<char>>) -> Seq<Seq<char>> {
    Seq::new(v.len(), |i: int| v[i]@)
}

/// Relies on `caseless::default_case_fold_str`: Unicode default case
/// folding, a function of the characters alone.  Its folding table maps
/// the ASCII letters `'A'..='Z'` to `'a'..='z'` and holds no other
/// ASCII character, so all-ASCII text folds to its ASCII lowercase.
#[verifier::external_body]
fn fold_str(s: &str) -> (r: String)
    ensures
        r@ == fold_of(s@),
        seq_is_ascii(s@) ==> r@ == ascii_lower_seq(s@),
{
    caseless::default_case_fold_str(s)
}

/// Relies on the `nfc` iterator of `unicode_normalization`: canonical
/// decomposition followed by canonical composition (Unicode NFC), a
/// function of the characters alone.  ASCII characters have no
/// decomposition and never combine, so all-ASCII text is unchanged.
#[verifier::external_body]
fn nfc_str(s: &str) -> (r: String)
    ensures
        r@ == nfc_of(s@),
        seq_is_ascii(s@) ==> r@ == s@,
{
    s.nfc().collect()
}

/// Relies on `String::from_utf8`: succeeds exactly on well-formed
/// UTF-8 bytes and decodes them, as `vstd::utf8` states of the format.
#[verifier::external_body]
fn decode_utf8_bytes(b: &Vec<u8>) -> (r: Option<String>)
    ensures
        r is Some <==> vstd::utf8::valid_utf8(b@),
        r is Some ==> r->0@ == vstd::utf8::decode_utf8(b@),
{
    match String::from_utf8(b.clone()) {
        Ok(s) => Some(s),
        Err(_) => None,
    }
}

/// Relies on `String`'s `FromIterator` over `char`: collecting
/// characters yields the string of exactly those characters.
#[verifier::external_body]
pub(crate) fn chars_to_string(v: &Vec<char>) -> (r: String)
    ensures
        r@ == v@,
{
    v.iter().collect()
}

/// Copies the characters of a string into a vector.
pub fn str_to_chars(s: &str) -> (r: Vec<char>)
    ensures
        r@ == s@,
{
    let n = s.unicode_len();
    let mut r: Vec<char> = Vec::new();
    let mut i: usize = 0;
    while i < n
        invariant
            i <= n,
            n == s@.len(),
            r@ == s@.take(i as int),
        decreases n - i,
    {
        let c = s.get_char(i);
        r.push(c);
        proof {
            assert(s@.take(i as int).push(s@[i as int]) =~= s@.take(i + 1 as int));
        }
        i += 1;
    }
    proof {
        assert(s@.take(n as int) =~= s@);
    }
    r
}

fn is_sep_exec(c: char) -> (r: bool)
    ensures
        r == is_sep(c),
{
    c == '/' || c == '\\'
}

/// The length of the leading separator-free run, and what stands at its end.
proof fn lemma_first_seg_len_at(s: Seq<char>, k: int)
    requires
        0 <= k <= s.len(),
        forall|j: int| 0 <= j < k ==> !is_sep(#[trigger] s[j]),
        k == s.len() || is_sep(s[k]),
    ensures
        first_seg_len(s) == k,
    decreases k,
{
    if k > 0 {
        assert(!is_sep(s[0]));
        assert(forall|j: int| 0 <= j < k - 1 ==> s.drop_first()[j] == s[j + 1]);
        lemma_first_seg_len_at(s.drop_first(), k - 1);
    }
}

/// Bounds of the leading separator-free run.
proof fn lemma_first_seg_len_bounds(s: Seq<char>)
    ensures
        first_seg_len(s) <= s.len(),
        forall|j: int| 0 <= j < first_seg_len(s) ==> !is_sep(#[trigger] s[j]),
        first_seg_len(s) < s.len() ==> is_sep(s[first_seg_len(s) as int]),
    decreases s.len(),
{
    if s.len() == 0 || is_sep(s[0]) {
    } else {
        lemma_first_seg_len_bounds(s.drop_first());
        assert(forall|j: int| 1 <= j < first_seg_len(s) ==> s[j] == s.drop_first()[j - 1]);
    }
}

/// Every segment of a split is non-empty, free of separators, and
/// all-ASCII whenever the path text is.
pub proof fn lemma_split_path_props(s: Seq<char>)
    ensures
        forall|j: int| 0 <= j < split_path(s).len() ==> (#[trigger] split_path(s)[j]).len() > 0,
        forall|j: int, t: int|
            0 <= j < split_path(s).len() && 0 <= t < split_path(s)[j].len() ==> !is_sep(
                #[trigger] split_path(s)[j][t],
            ),
        seq_is_ascii(s) ==> forall|j: int|
            0 <= j < split_path(s).len() ==> seq_is_ascii(#[trigger] split_path(s)[j]),
    decreases s.len(),
{
    let sp = split_path(s);
    if s.len() == 0 {
    } else if is_sep(s[0]) {
        lemma_split_path_props(s.drop_first());
        if seq_is_ascii(s) {
            assert forall|t: int| 0 <= t < s.drop_first().len() implies char_is_ascii(
                #[trigger] s.drop_first()[t],
            ) by {
                assert(s.drop_first()[t] == s[t + 1]);
            }
        }
        assert(sp == split_path(s.drop_first()));
    } else {
        let k = first_seg_len(s) as int;
        lemma_first_seg_len_bounds(s);
        lemma_split_path_props(s.skip(k));
        let head = s.take(k);
        assert(k >= 1);
        assert(head.len() == k);
        assert forall|t: int| 0 <= t < k implies !is_sep(#[trigger] head[t]) by {
            assert(head[t] == s[t]);
        }
        if seq_is_ascii(s) {
            assert forall|t: int| 0 <= t < head.len() implies char_is_ascii(
                #[trigger] head[t],
            ) by {
                assert(head[t] == s[t]);
            }
            assert forall|t: int| 0 <= t < s.skip(k).len() implies char_is_ascii(
                #[trigger] s.skip(k)[t],
            ) by {
                assert(s.skip(k)[t] == s[t + k]);
            }
        }
        assert(sp == seq![head] + split_path(s.skip(k)));
        assert(sp[0] == head);
        assert forall|j: int| 1 <= j < sp.len() implies sp[j] == split_path(s.skip(k))[j
            - 1] by {}
        assert forall|j: int| 0 <= j < sp.len() implies (#[trigger] sp[j]).len() > 0 by {
            if j >= 1 {
                assert(sp[j] == split_path(s.skip(k))[j - 1]);
            }
        }
        assert forall|j: int, t: int|
            0 <= j < sp.len() && 0 <= t < sp[j].len() implies !is_sep(
            #[trigger] sp[j][t],
        ) by {
            if j >= 1 {
                assert(sp[j] == split_path(s.skip(k))[j - 1]);
            }
        }
        if seq_is_ascii(s) {
            assert forall|j: int| 0 <= j < sp.len() implies seq_is_ascii(
                #[trigger] sp[j],
            ) by {
                if j >= 1 {
                    assert(sp[j] == split_path(s.skip(k))[j - 1]);
                }
            }
        }
    }
}

/// Splits a character vector on the path separators, dropping empty
/// segments.
fn split_chars(p: &Vec<char>) -> (r: Vec<Vec<char>>)
    ensures
        views_of(r@) == split_path(p@),
{
    let n = p.len();
    let mut r: Vec<Vec<char>> = Vec::new();
    let mut i: usize = 0;
    proof {
        assert(p@.skip(0) =~= p@);
        assert(views_of(r@) + split_path(p@) =~= split_path(p@));
    }
    while i < n
        invariant
            i <= n,
            n == p@.len(),
            views_of(r@) + split_path(p@.skip(i as int)) == split_path(p@),
        decreases n - i,
    {
        if is_sep_exec(p[i]) {
            proof {
                assert(p@.skip(i as int).drop_first() =~= p@.skip(i + 1 as int));
            }
            i += 1;
        } else {
            let start = i;
            let mut seg: Vec<char> = Vec::new();
            loop
                invariant
                    start <= i <= n,
                    start < n,
                    n == p@.len(),
                    !is_sep(p@[start as int]),
                    seg@ == p@.subrange(start as int, i as int),
                    forall|j: int| start <= j < i ==> !is_sep(#[trigger] p@[j]),
                ensures
                    start <= i <= n,
                    seg@ == p@.subrange(start as int, i as int),
                    forall|j: int| start <= j < i ==> !is_sep(#[trigger] p@[j]),
                    i == n || is_sep(p@[i as int]),
                decreases n - i,
            {
                if i == n {
                    break;
                }
                if is_sep_exec(p[i]) {
                    break;
                }
                seg.push(p[i]);
                proof {
                    assert(p@.subrange(start as int, i as int).push(p@[i as int])
                        =~= p@.subrange(start as int, i + 1 as int));
                }
                i += 1;
            }
            proof {
                let tail = p@.skip(start as int);
                assert(forall|j: int| 0 <= j < i - start ==> tail[j] == p@[start + j]);
                lemma_first_seg_len_at(tail, i - start);
                assert(split_path(tail) == seq![tail.take(i - start)] + split_path(
                    tail.skip(i - start),
                ));
                assert(tail.take(i - start) =~= p@.subrange(start as int, i as int));
                assert(tail.skip(i - start) =~= p@.skip(i as int));
                assert(views_of(r@.push(seg)) =~= views_of(r@).push(seg@));
                assert(views_of(r@).push(seg@) + split_path(p@.skip(i as int)) =~= views_of(r@)
                    + split_path(p@.skip(start as int)));
            }
            r.push(seg);
        }
    }
    proof {
        assert(p@.skip(n as int) =~= Seq::<char>::empty());
        assert(views_of(r@) + split_path(p@.skip(n as int)) =~= views_of(r@));
    }
    r
}

/// The canonical, case-insensitive form of a path: its segments after
/// case folding and Unicode normalization.
pub struct PathKey {
    pub(crate) segments: Vec<Vec<char>>,
}

impl View for PathKey {
    type V = Seq<Seq<char>>;

    closed spec fn view(&self) -> Seq<Seq<char>> {
        views_of(self.segments@)
    }
}

/// The ASCII lowercase map keeps a segment ASCII, keeps its length,
/// maps no character onto a separator it was not, and is idempotent.
pub proof fn lemma_ascii_lower_props(s: Seq<char>)
    ensures
        seq_is_ascii(s) ==> seq_is_ascii(ascii_lower_seq(s)),
        ascii_lower_seq(s).len() == s.len(),
        (forall|t: int| 0 <= t < s.len() ==> !is_sep(#[trigger] s[t])) ==> (forall|t: int|
            0 <= t < s.len() ==> !is_sep(#[trigger] ascii_lower_seq(s)[t])),
        ascii_lower_seq(ascii_lower_seq(s)) == ascii_lower_seq(s),
{
    assert forall|t: int| 0 <= t < s.len() implies ascii_lower_char(ascii_lower_char(s[t]))
        == ascii_lower_char(s[t]) by {
        let c = s[t];
        if 65 <= (c as u32) && (c as u32) <= 90 {
            assert(((c as u32 + 32) as u32) as char as u32 == c as u32 + 32);
        }
    }
    assert forall|t: int| 0 <= t < s.len() && !is_sep(s[t]) implies !is_sep(
        ascii_lower_seq(s)[t],
    ) by {
        let c = s[t];
        if 65 <= (c as u32) && (c as u32) <= 90 {
            assert(((c as u32 + 32) as u32) as char as u32 == c as u32 + 32);
            assert('/' as u32 == 47 && '\\' as u32 == 92);
        }
    }
    assert forall|t: int| 0 <= t < s.len() && char_is_ascii(s[t]) implies char_is_ascii(
        ascii_lower_seq(s)[t],
    ) by {
        let c = s[t];
        if 65 <= (c as u32) && (c as u32) <= 90 {
            assert(((c as u32 + 32) as u32) as char as u32 == c as u32 + 32);
        }
    }
    assert(ascii_lower_seq(ascii_lower_seq(s)) =~= ascii_lower_seq(s));
}

/// The canonical form of one textual segment, for example an extension
/// filter: case-folded, then normalized.
pub fn canonical_segment(s: &str) -> (r: Vec<char>)
    ensures
        r@ == canon_seg(s@),
        seq_is_ascii(s@) ==> r@ == ascii_lower_seq(s@),
{
    let folded = fold_str(s);
    proof {
        if seq_is_ascii(s@) {
            lemma_ascii_lower_props(s@);
        }
    }
    let composed = nfc_str(folded.as_str());
    str_to_chars(composed.as_str())
}

impl PathKey {
    /// Builds the canonical key of a textual path: the path is split on
    /// `/` and `\`, and every segment is case-folded and normalized.
    /// On all-ASCII paths the result is exactly the ASCII-lowercased
    /// segments.
    pub fn canonicalize(path: &str) -> (r: PathKey)
        ensures
            r@ == canon_path(path@),
            seq_is_ascii(path@) ==> r@ == ascii_canon_path(path@),
    {
        let chars = str_to_chars(path);
        let raw = split_chars(&chars);
        let ghost split = split_path(path@);
        let mut segs: Vec<Vec<char>> = Vec::new();
        let mut i: usize = 0;
        while i < raw.len()
            invariant
                i <= raw.len(),
                views_of(raw@) == split,
                split == split_path(path@),
                segs@.len() == i,
                forall|j: int| 0 <= j < i ==> (#[trigger] segs@[j])@ == canon_seg(split[j]),
                seq_is_ascii(path@) ==> forall|j: int|
                    0 <= j < i ==> (#[trigger] segs@[j])@ == ascii_lower_seq(split[j]),
            decreases raw.len() - i,
        {
            proof {
                assert(raw@[i as int]@ == views_of(raw@)[i as int]);
            }
            let s1 = chars_to_string(&raw[i]);
            let out = canonical_segment(s1.as_str());
            proof {
                if seq_is_ascii(path@) {
                    lemma_split_path_props(path@);
                }
            }
            segs.push(out);
            i += 1;
        }
        let r = PathKey { segments: segs };
        proof {
            assert(r@ =~= canon_path(path@));
            if seq_is_ascii(path@) {
                assert(r@ =~= ascii_canon_path(path@));
            }
        }
        r
    }

    /// Builds the canonical key of a path given as raw bytes; bytes
    /// that are not well-formed UTF-8 are rejected.
    pub fn canonicalize_bytes(path: &Vec<u8>) -> (r: Result<PathKey, VfsError>)
        ensures
            match r {
                Ok(k) => vstd::utf8::valid_utf8(path@) && k@ == canon_path(
                    vstd::utf8::decode_utf8(path@),
                ),
                Err(e) => e == VfsError::InvalidEncoding && !vstd::utf8::valid_utf8(path@),
            },
    {
        match decode_utf8_bytes(path) {
            Some(s) => Ok(PathKey::canonicalize(s.as_str())),
            None => Err(VfsError::InvalidEncoding),
        }
    }

    /// The canonical textual form of the key: its segments joined with
    /// the separator.
    pub fn to_path_string(&self) -> (r: String)
        ensures
            r@ == join_segs(self@),
    {
        proof {
            reveal_strlit("/");
            assert("/"@ =~= seq!['/']);
        }
        let ghost segs = self@;
        proof {
            self.lemma_view();
        }
        let mut out = String::new();
        let mut i: usize = 0;
        proof {
            assert(segs.take(0) =~= Seq::<Seq<char>>::empty());
        }
        while i < self.segments.len()
            invariant
                i <= self.segments@.len(),
                segs == self@,
                segs.len() == self.segments@.len(),
                forall|j: int| 0 <= j < segs.len() ==> segs[j] == (#[trigger] self.segments@[j])@,
                out@ == join_segs(segs.take(i as int)),
                "/"@ == seq!['/'],
            decreases self.segments@.len() - i,
        {
            let ghost pre = out@;
            if i > 0 {
                out.append("/");
            }
            let segstr = chars_to_string(&self.segments[i]);
            out.append(segstr.as_str());
            proof {
                lemma_join_push(segs.take(i as int), segs[i as int]);
                assert(segs.take(i as int).push(segs[i as int]) =~= segs.take(i + 1 as int));
                if i == 0 {
                    assert(out@ =~= segs[0]);
                } else {
                    assert(out@ =~= join_segs(segs.take(i as int)) + seq!['/'] + segs[i as int]);
                }
            }
            i += 1;
        }
        proof {
            assert(segs.take(segs.len() as int) =~= segs);
        }
        out
    }

    /// The number of segments of the key.
    pub fn segment_count(&self) -> (r: usize)
        ensures
            r == self@.len(),
    {
        self.segments.len()
    }

    /// Whether two keys are the same canonical path.
    pub fn equals(&self, other: &PathKey) -> (r: bool)
        ensures
            r == (self@ == other@),
    {
        if self.segments.len() != other.segments.len() {
            proof {
                assert(self@.len() != other@.len());
            }
            return false;
        }
        let mut i: usize = 0;
        while i < self.segments.len()
            invariant
                i <= self.segments.len(),
                self.segments.len() == other.segments.len(),
                forall|j: int| 0 <= j < i ==> self@[j] == other@[j],
            decreases self.segments.len() - i,
        {
            if !chars_eq(&self.segments[i], &other.segments[i]) {
                proof {
                    assert(self@[i as int] != other@[i as int]);
                }
                return false;
            }
            i += 1;
        }
        proof {
            assert(self@ =~= other@);
        }
        true
    }
}

impl PathKey {
    /// The view of a key is the view of its segment vectors.
    pub(crate) proof fn lemma_view(&self)
        ensures
            self@ == views_of(self.segments@),
            self@.len() == self.segments@.len(),
            forall|i: int| 0 <= i < self@.len() ==> self@[i] == (#[trigger] self.segments@[i])@,
    {
    }

    /// Whether this key names a position strictly above `other`: a
    /// proper prefix of its segments.
    pub fn is_proper_prefix_of(&self, other: &PathKey) -> (r: bool)
        ensures
            r == (other@.len() > self@.len() && other@.take(self@.len() as int) == self@),
    {
        if other.segments.len() <= self.segments.len() {
            return false;
        }
        let mut i: usize = 0;
        while i < self.segments.len()
            invariant
                i <= self@.len() < other@.len(),
                self@.len() == self.segments@.len(),
                other@.len() == other.segments@.len(),
                forall|j: int| 0 <= j < i ==> self@[j] == other@[j],
            decreases self.segments.len() - i,
        {
            if !chars_eq(&self.segments[i], &other.segments[i]) {
                proof {
                    assert(self@[i as int] != other@[i as int]);
                    assert(other@.take(self@.len() as int)[i as int] == other@[i as int]);
                }
                return false;
            }
            i += 1;
        }
        proof {
            assert(other@.take(self@.len() as int) =~= self@);
        }
        true
    }
}

/// The views of a pushed vector of characters are the pushed views.
pub proof fn lemma_views_to_set_push(names: Seq<Vec<char>>, child: Vec<char>)
    ensures
        views_of(names.push(child)).to_set() == views_of(names).to_set().insert(child@),
{
    assert(views_of(names.push(child)) =~= views_of(names).push(child@));
    let vs = views_of(names);
    assert forall|c: Seq<char>|
        vs.push(child@).to_set().contains(c) <==> vs.to_set().insert(child@).contains(c) by {
        if vs.push(child@).to_set().contains(c) {
            let a = choose|a: int| 0 <= a < vs.push(child@).len() && vs.push(child@)[a] == c;
            if a < vs.len() {
                assert(vs[a] == c);
                assert(vs.to_set().contains(c));
            } else {
                assert(c == child@);
            }
        }
        if vs.to_set().contains(c) {
            let a = choose|a: int| 0 <= a < vs.len() && vs[a] == c;
            assert(vs.push(child@)[a] == c);
            assert(vs.push(child@).to_set().contains(c));
        }
        if c == child@ {
            assert(vs.push(child@)[vs.len() as int] == c);
            assert(vs.push(child@).to_set().contains(c));
        }
    }
    assert(views_of(names.push(child)).to_set() =~= views_of(names).to_set().insert(child@));
}

/// Whether two character vectors hold the same characters.
pub fn chars_eq(a: &Vec<char>, b: &Vec<char>) -> (r: bool)
    ensures
        r == (a@ == b@),
{
    if a.len() != b.len() {
        return false;
    }
    let mut i: usize = 0;
    while i < a.len()
        invariant
            i <= a.len(),
            a.len() == b.len(),
            forall|j: int| 0 <= j < i ==> a@[j] == b@[j],
        decreases a.len() - i,
    {
        if a[i] != b[i] {
            return false;
        }
        i += 1;
    }
    proof {
        assert(a@ =~= b@);
    }
    true
}

/// A copy of a character vector.
pub fn copy_chars(v: &Vec<char>) -> (r: Vec<char>)
    ensures
        r@ == v@,
{
    let mut r: Vec<char> = Vec::new();
    let mut i: usize = 0;
    while i < v.len()
        invariant
            i <= v.len(),
            r@ == v@.take(i as int),
        decreases v.len() - i,
    {
        r.push(v[i]);
        proof {
            assert(v@.take(i as int).push(v@[i as int]) =~= v@.take(i + 1 as int));
        }
        i += 1;
    }
    proof {
        assert(v@.take(v@.len() as int) =~= v@);
    }
    r
}


/// The canonical segments joined with `/` into one path text.
pub open spec fn join_segs(segs: Seq<Seq<char>>) -> Seq<char>
    decreases segs.len(),
{
    if segs.len() == 0 {
        Seq::empty()
    } else if segs.len() == 1 {
        segs[0]
    } else {
        segs[0] + seq!['/'] + join_segs(segs.drop_first())
    }
}

/// Splitting a joined path of non-empty, separator-free segments gives
/// the segments back.
proof fn lemma_split_join(segs: Seq<Seq<char>>)
    requires
        forall|j: int| 0 <= j < segs.len() ==> (#[trigger] segs[j]).len() > 0,
        forall|j: int, t: int|
            0 <= j < segs.len() && 0 <= t < segs[j].len() ==> !is_sep(#[trigger] segs[j][t]),
    ensures
        split_path(join_segs(segs)) == segs,
    decreases segs.len(),
{
    if segs.len() == 0 {
        assert(split_path(join_segs(segs)) =~= segs);
    } else if segs.len() == 1 {
        let s = segs[0];
        assert(join_segs(segs) == s);
        assert forall|t: int| 0 <= t < s.len() implies !is_sep(#[trigger] s[t]) by {
            assert(segs[0][t] == s[t]);
        }
        lemma_first_seg_len_at(s, s.len() as int);
        assert(split_path(s) == seq![s.take(s.len() as int)] + split_path(s.skip(s.len() as int)));
        assert(s.take(s.len() as int) =~= s);
        assert(s.skip(s.len() as int) =~= Seq::<char>::empty());
        assert(split_path(join_segs(segs)) =~= segs);
    } else {
        let s = segs[0];
        let rest = segs.drop_first();
        let joined = join_segs(segs);
        assert(joined == s + seq!['/'] + join_segs(rest));
        assert forall|j: int| 0 <= j < rest.len() implies (#[trigger] rest[j]).len() > 0 by {
            assert(rest[j] == segs[j + 1]);
        }
        assert forall|j: int, t: int|
            0 <= j < rest.len() && 0 <= t < rest[j].len() implies !is_sep(
            #[trigger] rest[j][t],
        ) by {
            assert(rest[j] == segs[j + 1]);
        }
        lemma_split_join(rest);
        assert forall|t: int| 0 <= t < s.len() implies !is_sep(#[trigger] joined[t]) by {
            assert(joined[t] == segs[0][t]);
        }
        assert(joined[s.len() as int] == '/');
        lemma_first_seg_len_at(joined, s.len() as int);
        assert(joined.len() > 0 && !is_sep(joined[0]));
        assert(split_path(joined) == seq![joined.take(s.len() as int)] + split_path(
            joined.skip(s.len() as int),
        ));
        assert(joined.take(s.len() as int) =~= s);
        let tail = joined.skip(s.len() as int);
        assert(tail[0] == '/');
        assert(split_path(tail) == split_path(tail.drop_first()));
        assert(tail.drop_first() =~= join_segs(rest));
        assert(split_path(joined) =~= segs);
    }
}

/// Canonicalization is idempotent: canonicalizing the textual form of a
/// canonical key gives the same key.  Stated for all-ASCII paths, where
/// the canonical form of a segment is its ASCII lowercase.
pub proof fn lemma_canonicalize_idempotent(p: Seq<char>)
    requires
        seq_is_ascii(p),
    ensures
        ascii_canon_path(join_segs(ascii_canon_path(p))) == ascii_canon_path(p),
{
    let canon = ascii_canon_path(p);
    lemma_split_path_props(p);
    assert forall|j: int| 0 <= j < canon.len() implies (#[trigger] canon[j]).len() > 0 by {
        lemma_ascii_lower_props(split_path(p)[j]);
    }
    assert forall|j: int, t: int|
        0 <= j < canon.len() && 0 <= t < canon[j].len() implies !is_sep(#[trigger] canon[j][t]) by {
        lemma_ascii_lower_props(split_path(p)[j]);
        assert(canon[j] == ascii_lower_seq(split_path(p)[j]));
    }
    lemma_split_join(canon);
    assert(split_path(join_segs(canon)) == canon);
    assert forall|j: int| 0 <= j < canon.len() implies #[trigger] ascii_lower_seq(canon[j])
        == canon[j] by {
        lemma_ascii_lower_props(split_path(p)[j]);
        assert(canon[j] == ascii_lower_seq(split_path(p)[j]));
    }
    assert(ascii_canon_path(join_segs(canon)) =~= canon);
}

/// Whether two path texts differ at most in the ASCII case of their
/// characters.
pub open spec fn ascii_case_variant(a: Seq<char>, b: Seq<char>) -> bool {
    a.len() == b.len() && forall|i: int|
        0 <= i < a.len() ==> ascii_lower_char(#[trigger] a[i]) == ascii_lower_char(#[trigger] b[i])
}

/// Case variants agree on where the separators stand.
proof fn lemma_case_variant_sep(a: Seq<char>, b: Seq<char>, i: int)
    requires
        ascii_case_variant(a, b),
        0 <= i < a.len(),
    ensures
        is_sep(a[i]) == is_sep(b[i]),
{
    assert('/' as u32 == 47 && '\\' as u32 == 92);
    if 65 <= (a[i] as u32) && (a[i] as u32) <= 90 {
        assert(((a[i] as u32 + 32) as u32) as char as u32 == a[i] as u32 + 32);
    }
    if 65 <= (b[i] as u32) && (b[i] as u32) <= 90 {
        assert(((b[i] as u32 + 32) as u32) as char as u32 == b[i] as u32 + 32);
    }
}

/// Case variants have leading runs of the same length.
proof fn lemma_case_variant_first_seg(a: Seq<char>, b: Seq<char>)
    requires
        ascii_case_variant(a, b),
    ensures
        first_seg_len(a) == first_seg_len(b),
    decreases a.len(),
{
    if a.len() > 0 {
        lemma_case_variant_sep(a, b, 0);
        if !is_sep(a[0]) {
            assert forall|i: int|
                0 <= i < a.drop_first().len() implies ascii_lower_char(
                #[trigger] a.drop_first()[i],
            ) == ascii_lower_char(#[trigger] b.drop_first()[i]) by {
                assert(a.drop_first()[i] == a[i + 1]);
                assert(b.drop_first()[i] == b[i + 1]);
            }
            lemma_case_variant_first_seg(a.drop_first(), b.drop_first());
        }
    }
}

/// Case invariance: two paths that differ only in the ASCII case of
/// their characters canonicalize to the same key.
pub proof fn lemma_canonicalize_case_invariant(p: Seq<char>, q: Seq<char>)
    requires
        ascii_case_variant(p, q),
    ensures
        ascii_canon_path(p) == ascii_canon_path(q),
    decreases p.len(),
{
    if p.len() == 0 {
        assert(ascii_canon_path(p) =~= ascii_canon_path(q));
    } else {
        lemma_case_variant_sep(p, q, 0);
        if is_sep(p[0]) {
            assert forall|i: int|
                0 <= i < p.drop_first().len() implies ascii_lower_char(
                #[trigger] p.drop_first()[i],
            ) == ascii_lower_char(#[trigger] q.drop_first()[i]) by {
                assert(p.drop_first()[i] == p[i + 1]);
                assert(q.drop_first()[i] == q[i + 1]);
            }
            lemma_canonicalize_case_invariant(p.drop_first(), q.drop_first());
            assert(split_path(p) == split_path(p.drop_first()));
            assert(split_path(q) == split_path(q.drop_first()));
            assert(ascii_canon_path(p) =~= ascii_canon_path(q));
        } else {
            lemma_case_variant_first_seg(p, q);
            let n = first_seg_len(p) as int;
            lemma_first_seg_len_bounds(p);
            assert forall|i: int|
                0 <= i < p.skip(n).len() implies ascii_lower_char(#[trigger] p.skip(n)[i])
                == ascii_lower_char(#[trigger] q.skip(n)[i]) by {
                assert(p.skip(n)[i] == p[i + n]);
                assert(q.skip(n)[i] == q[i + n]);
            }
            lemma_canonicalize_case_invariant(p.skip(n), q.skip(n));
            lemma_case_variant_first_seg(p, q);
            assert(first_seg_len(q) == n);
            assert(split_path(p) == seq![p.take(n)] + split_path(p.skip(n)));
            assert(split_path(q) == seq![q.take(n)] + split_path(q.skip(n)));
            assert forall|i: int| 0 <= i < n implies ascii_lower_seq(p.take(n))[i]
                == ascii_lower_seq(q.take(n))[i] by {
                assert(p.take(n)[i] == p[i]);
                assert(q.take(n)[i] == q[i]);
                assert(ascii_lower_char(p[i]) == ascii_lower_char(q[i]));
            }
            assert(ascii_lower_seq(p.take(n)) =~= ascii_lower_seq(q.take(n)));
            assert(split_path(p.skip(n)).len() == ascii_canon_path(p.skip(n)).len());
            assert(split_path(q.skip(n)).len() == ascii_canon_path(q.skip(n)).len());
            assert(split_path(p.skip(n)).len() == split_path(q.skip(n)).len());
            assert(split_path(p).len() == 1 + split_path(p.skip(n)).len());
            assert(split_path(q).len() == 1 + split_path(q.skip(n)).len());
            assert forall|j: int| 0 <= j < split_path(p).len() implies #[trigger] ascii_canon_path(
                p,
            )[j] == ascii_canon_path(q)[j] by {
                if j == 0 {
                    assert(split_path(p)[0] == p.take(n));
                    assert(split_path(q)[0] == q.take(n));
                    assert(ascii_canon_path(p)[0] == ascii_lower_seq(p.take(n)));
                    assert(ascii_canon_path(q)[0] == ascii_lower_seq(q.take(n)));
                } else {
                    assert(split_path(p)[j] == split_path(p.skip(n))[j - 1]);
                    assert(split_path(q)[j] == split_path(q.skip(n))[j - 1]);
                    assert(ascii_canon_path(p.skip(n))[j - 1] == ascii_canon_path(q.skip(n))[j
                        - 1]);
                    assert(ascii_canon_path(p.skip(n))[j - 1] == ascii_lower_seq(
                        split_path(p.skip(n))[j - 1],
                    ));
                    assert(ascii_canon_path(q.skip(n))[j - 1] == ascii_lower_seq(
                        split_path(q.skip(n))[j - 1],
                    ));
                }
            }
            assert(ascii_canon_path(p) =~= ascii_canon_path(q));
        }
    }
}


/// Joining after appending one more segment appends a separator and the
/// segment to the joined text.
proof fn lemma_join_push(segs: Seq<Seq<char>>, x: Seq<char>)
    ensures
        join_segs(segs.push(x)) == if segs.len() == 0 {
            x
        } else {
            join_segs(segs) + seq!['/'] + x
        },
    decreases segs.len(),
{
    if segs.len() == 0 {
        assert(segs.push(x).len() == 1);
        assert(segs.push(x)[0] == x);
    } else if segs.len() == 1 {
        assert(segs.push(x)[0] == segs[0]);
        assert(segs.push(x).drop_first() =~= seq![x]);
        assert(join_segs(seq![x]) == x);
    } else {
        assert(segs.push(x).drop_first() =~= segs.drop_first().push(x));
        lemma_join_push(segs.drop_first(), x);
        assert(segs.push(x)[0] == segs[0]);
        assert(join_segs(segs.push(x)) == segs[0] + seq!['/'] + (join_segs(segs.drop_first())
            + seq!['/'] + x));
        assert(segs[0] + seq!['/'] + (join_segs(segs.drop_first()) + seq!['/'] + x) =~= (segs[0]
            + seq!['/'] + join_segs(segs.drop_first())) + seq!['/'] + x);
    }
}

} // verus!

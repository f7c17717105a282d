//! Byte-level text helpers: whitespace trimming, byte search,
//! lexicographic ordering of byte strings, and line splitting.
//!
//! All executable functions here are verified against spec functions
//! over `Seq<u8>`; the store's file format is defined in terms of them.

use vstd::prelude::*;
use vstd::relations::total_ordering;

verus! {

/// Line feed.
pub const NL: u8 = 10;

/// Carriage return.
pub const CR: u8 = 13;

/// ASCII whitespace, as trimmed from keys and values.
pub open spec fn is_ws(b: u8) -> bool {
    b == 32 || b == 9 || b == 10 || b == 11 || b == 12 || b == 13
}

/// The views of a sequence of byte vectors.
pub open spec fn views(s: Seq<Vec<u8>>) -> Seq<Seq<u8>> {
    s.map_values(|v: Vec<u8>| v@)
}

// ---------------------------------------------------------------------
// Finding a byte
// ---------------------------------------------------------------------

/// Index of the first occurrence of `b` in `s` at or after `from`,
/// or `s.len()` if there is none.
pub open spec fn find_from(s: Seq<u8>, b: u8, from: int) -> int
    decreases s.len() - from,
{
    if from >= s.len() {
        s.len() as int
    } else if 0 <= from && s[from] == b {
        from
    } else {
        find_from(s, b, from + 1)
    }
}

/// Index of the first occurrence of `b` in `s`, or `s.len()` if none.
pub open spec fn find(s: Seq<u8>, b: u8) -> int {
    find_from(s, b, 0)
}

pub proof fn lemma_find_from(s: Seq<u8>, b: u8, from: int)
    requires
        0 <= from <= s.len(),
    ensures
        from <= find_from(s, b, from) <= s.len(),
        find_from(s, b, from) < s.len() ==> s[find_from(s, b, from)] == b,
        forall|j: int| from <= j < find_from(s, b, from) ==> s[j] != b,
    decreases s.len() - from,
{
    if from < s.len() && s[from] != b {
        lemma_find_from(s, b, from + 1);
    }
}

/// The first occurrence is pinned by the bytes themselves.
pub proof fn lemma_find_from_unique(s: Seq<u8>, b: u8, from: int, i: int)
    requires
        0 <= from <= i <= s.len(),
        forall|j: int| from <= j < i ==> s[j] != b,
        i < s.len() ==> s[i] == b,
    ensures
        find_from(s, b, from) == i,
    decreases i - from,
{
    if from < i {
        assert(s[from] != b);
        lemma_find_from_unique(s, b, from + 1, i);
    }
}

/// Searching from `from` is searching the suffix.
pub proof fn lemma_find_from_skip(s: Seq<u8>, b: u8, from: int)
    requires
        0 <= from <= s.len(),
    ensures
        find_from(s, b, from) == from + find(s.skip(from), b),
{
    let t = s.skip(from);
    lemma_find_from(t, b, 0);
    let i = find(t, b);
    assert(forall|j: int| from <= j < from + i ==> s[j] == t[j - from] && s[j] != b);
    lemma_find_from_unique(s, b, from, from + i);
}

/// First occurrence of `b` in `v`, or `v.len()` if there is none.
pub fn find_byte_from(v: &Vec<u8>, b: u8, from: usize) -> (i: usize)
    requires
        from <= v@.len(),
    ensures
        i as int == find_from(v@, b, from as int),
        from <= i <= v@.len(),
{
    let mut i: usize = from;
    while i < v.len()
        invariant
            from <= i <= v@.len(),
            forall|j: int| from <= j < i ==> v@[j] != b,
        decreases v@.len() - i,
    {
        if v[i] == b {
            proof {
                lemma_find_from_unique(v@, b, from as int, i as int);
            }
            return i;
        }
        i = i + 1;
    }
    proof {
        lemma_find_from_unique(v@, b, from as int, v@.len() as int);
    }
    i
}

// ---------------------------------------------------------------------
// Trimming
// ---------------------------------------------------------------------

/// `s` without its leading ASCII whitespace.
pub open spec fn trim_start(s: Seq<u8>) -> Seq<u8>
    decreases s.len(),
{
    if s.len() > 0 && is_ws(s[0]) {
        trim_start(s.drop_first())
    } else {
        s
    }
}

/// `s` without its trailing ASCII whitespace.
pub open spec fn trim_end(s: Seq<u8>) -> Seq<u8>
    decreases s.len(),
{
    if s.len() > 0 && is_ws(s[s.len() - 1]) {
        trim_end(s.drop_last())
    } else {
        s
    }
}

/// `s` without leading and trailing ASCII whitespace.
pub open spec fn trim(s: Seq<u8>) -> Seq<u8> {
    trim_end(trim_start(s))
}

pub proof fn lemma_trim_start_skip(s: Seq<u8>, i: int)
    requires
        0 <= i <= s.len(),
        forall|j: int| 0 <= j < i ==> is_ws(s[j]),
        i < s.len() ==> !is_ws(s[i]),
    ensures
        trim_start(s) == s.skip(i),
    decreases i,
{
    if i == 0 {
        assert(s.skip(0) =~= s);
    } else {
        let t = s.drop_first();
        assert(t =~= s.skip(1));
        lemma_trim_start_skip(t, i - 1);
        assert(t.skip(i - 1) =~= s.skip(i));
    }
}

pub proof fn lemma_trim_end_take(s: Seq<u8>, i: int)
    requires
        0 <= i <= s.len(),
        forall|j: int| i <= j < s.len() ==> is_ws(s[j]),
        i > 0 ==> !is_ws(s[i - 1]),
    ensures
        trim_end(s) == s.take(i),
    decreases s.len() - i,
{
    if i == s.len() {
        assert(s.take(i) =~= s);
    } else {
        assert(is_ws(s[s.len() - 1]));
        let t = s.drop_last();
        lemma_trim_end_take(t, i);
        assert(t.take(i) =~= s.take(i));
    }
}

/// Trimming keeps exactly the range `[lo, hi)` when everything outside
/// it is whitespace and its own edges are not.
pub proof fn lemma_trim_range(s: Seq<u8>, lo: int, hi: int)
    requires
        0 <= lo <= hi <= s.len(),
        forall|j: int| 0 <= j < lo ==> is_ws(s[j]),
        forall|j: int| hi <= j < s.len() ==> is_ws(s[j]),
        lo < hi ==> !is_ws(s[lo]) && !is_ws(s[hi - 1]),
    ensures
        trim(s) == s.subrange(lo, hi),
{
    if lo == hi {
        lemma_trim_start_skip(s, s.len() as int);
        assert(s.skip(s.len() as int) =~= Seq::<u8>::empty());
        assert(trim_end(Seq::<u8>::empty()) == Seq::<u8>::empty());
        assert(s.subrange(lo, hi) =~= Seq::<u8>::empty());
    } else {
        lemma_trim_start_skip(s, lo);
        let t = s.skip(lo);
        lemma_trim_end_take(t, hi - lo);
        assert(t.take(hi - lo) =~= s.subrange(lo, hi));
    }
}

pub proof fn lemma_trim_start_len(s: Seq<u8>)
    ensures
        trim_start(s).len() <= s.len(),
    decreases s.len(),
{
    if s.len() > 0 && is_ws(s[0]) {
        lemma_trim_start_len(s.drop_first());
    }
}

pub proof fn lemma_trim_end_len(s: Seq<u8>)
    ensures
        trim_end(s).len() <= s.len(),
    decreases s.len(),
{
    if s.len() > 0 && is_ws(s[s.len() - 1]) {
        lemma_trim_end_len(s.drop_last());
    }
}

/// A nonempty byte string that trims to itself has no whitespace at
/// either edge.
pub proof fn lemma_trim_edges(s: Seq<u8>)
    requires
        trim(s) == s,
        s.len() > 0,
    ensures
        !is_ws(s[0]),
        !is_ws(s[s.len() - 1]),
{
    if is_ws(s[0]) {
        let t = s.drop_first();
        assert(trim_start(s) == trim_start(t));
        lemma_trim_start_len(t);
        lemma_trim_end_len(trim_start(t));
        assert(trim(s).len() < s.len());
        assert(false);
    }
    if is_ws(s[s.len() - 1]) {
        assert(trim_start(s) == s);
        assert(trim_end(s) == trim_end(s.drop_last()));
        lemma_trim_end_len(s.drop_last());
        assert(trim(s).len() < s.len());
        assert(false);
    }
}

/// A byte string with no whitespace at either edge trims to itself.
pub proof fn lemma_trim_id(s: Seq<u8>)
    requires
        s.len() > 0 ==> !is_ws(s[0]) && !is_ws(s[s.len() - 1]),
    ensures
        trim(s) == s,
{
    lemma_trim_range(s, 0, s.len() as int);
    assert(s.subrange(0, s.len() as int) =~= s);
}

/// Whether two byte vectors hold the same bytes.
pub fn bytes_eq(a: &Vec<u8>, b: &Vec<u8>) -> (r: bool)
    ensures
        r == (a@ == b@),
{
    if a.len() != b.len() {
        return false;
    }
    let mut i: usize = 0;
    while i < a.len()
        invariant
            0 <= i <= a@.len(),
            a@.len() == b@.len(),
            forall|j: int| 0 <= j < i ==> a@[j] == b@[j],
        decreases a@.len() - i,
    {
        if a[i] != b[i] {
            return false;
        }
        i = i + 1;
    }
    proof {
        assert(a@ =~= b@);
    }
    true
}

/// Copy of `v`.
pub fn copy_bytes(v: &Vec<u8>) -> (r: Vec<u8>)
    ensures
        r@ == v@,
{
    let mut r: Vec<u8> = Vec::new();
    let mut i: usize = 0;
    while i < v.len()
        invariant
            0 <= i <= v@.len(),
            r@ =~= v@.take(i as int),
        decreases v@.len() - i,
    {
        r.push(v[i]);
        i = i + 1;
    }
    proof {
        assert(v@.take(v@.len() as int) =~= v@);
    }
    r
}

/// The bytes of `v` in the range `[lo, hi)`.
pub fn subvec(v: &Vec<u8>, lo: usize, hi: usize) -> (r: Vec<u8>)
    requires
        lo <= hi <= v@.len(),
    ensures
        r@ == v@.subrange(lo as int, hi as int),
{
    let mut r: Vec<u8> = Vec::new();
    let mut i: usize = lo;
    while i < hi
        invariant
            lo <= i <= hi <= v@.len(),
            r@ =~= v@.subrange(lo as int, i as int),
        decreases hi - i,
    {
        r.push(v[i]);
        i = i + 1;
        proof {
            assert(r@ =~= v@.subrange(lo as int, i as int));
        }
    }
    r
}

/// `v` without leading and trailing ASCII whitespace.
pub fn trim_vec(v: &Vec<u8>) -> (r: Vec<u8>)
    ensures
        r@ == trim(v@),
{
    let mut lo: usize = 0;
    while lo < v.len() && (v[lo] == 32 || v[lo] == 9 || v[lo] == 10 || v[lo] == 11 || v[lo] == 12
        || v[lo] == 13)
        invariant
            0 <= lo <= v@.len(),
            forall|j: int| 0 <= j < lo ==> is_ws(v@[j]),
        decreases v@.len() - lo,
    {
        lo = lo + 1;
    }
    if lo == v.len() {
        proof {
            lemma_trim_start_skip(v@, lo as int);
            assert(v@.skip(lo as int) =~= Seq::<u8>::empty());
        }
        return Vec::new();
    }
    let mut hi: usize = v.len();
    while hi > lo && (v[hi - 1] == 32 || v[hi - 1] == 9 || v[hi - 1] == 10 || v[hi - 1] == 11
        || v[hi - 1] == 12 || v[hi - 1] == 13)
        invariant
            lo <= hi <= v@.len(),
            forall|j: int| hi <= j < v@.len() ==> is_ws(v@[j]),
        decreases hi,
    {
        hi = hi - 1;
    }
    proof {
        assert(!is_ws(v@[lo as int]));
        assert(hi > lo);
        lemma_trim_range(v@, lo as int, hi as int);
    }
    subvec(v, lo, hi)
}

// ---------------------------------------------------------------------
// Lexicographic order on byte strings
// ---------------------------------------------------------------------

/// Lexicographic (byte-wise) order: `a` sorts at or before `b`.
pub open spec fn lex_leq(a: Seq<u8>, b: Seq<u8>) -> bool
    decreases a.len(),
{
    if a.len() == 0 {
        true
    } else if b.len() == 0 {
        false
    } else if a[0] < b[0] {
        true
    } else if b[0] < a[0] {
        false
    } else {
        lex_leq(a.drop_first(), b.drop_first())
    }
}

/// `lex_leq` as a value, for use with `sort_by`.
pub open spec fn lex_leq_fn() -> spec_fn(Seq<u8>, Seq<u8>) -> bool {
    |a: Seq<u8>, b: Seq<u8>| lex_leq(a, b)
}

pub proof fn lemma_lex_refl(a: Seq<u8>)
    ensures
        lex_leq(a, a),
    decreases a.len(),
{
    if a.len() > 0 {
        lemma_lex_refl(a.drop_first());
    }
}

pub proof fn lemma_lex_total(a: Seq<u8>, b: Seq<u8>)
    ensures
        lex_leq(a, b) || lex_leq(b, a),
    decreases a.len(),
{
    if a.len() > 0 && b.len() > 0 && a[0] == b[0] {
        lemma_lex_total(a.drop_first(), b.drop_first());
    }
}

pub proof fn lemma_lex_antisym(a: Seq<u8>, b: Seq<u8>)
    requires
        lex_leq(a, b),
        lex_leq(b, a),
    ensures
        a == b,
    decreases a.len(),
{
    if a.len() == 0 {
        assert(b.len() == 0);
        assert(a =~= b);
    } else {
        assert(b.len() > 0);
        assert(a[0] == b[0]);
        lemma_lex_antisym(a.drop_first(), b.drop_first());
        assert(a.drop_first() == b.drop_first());
        assert(a.drop_first().len() == b.drop_first().len());
        assert(a.len() == b.len());
        assert forall|i: int| 0 <= i < a.len() implies a[i] == b[i] by {
            if i >= 1 {
                assert(a[i] == a.drop_first()[i - 1]);
                assert(b[i] == b.drop_first()[i - 1]);
            }
        }
        assert(a =~= b);
    }
}

pub proof fn lemma_lex_trans(a: Seq<u8>, b: Seq<u8>, c: Seq<u8>)
    requires
        lex_leq(a, b),
        lex_leq(b, c),
    ensures
        lex_leq(a, c),
    decreases a.len(),
{
    if a.len() > 0 && b.len() > 0 && c.len() > 0 && a[0] == b[0] && b[0] == c[0] {
        lemma_lex_trans(a.drop_first(), b.drop_first(), c.drop_first());
    }
}

/// `lex_leq` is a total order, as `sort_by` requires.
pub proof fn lemma_lex_total_ordering()
    ensures
        total_ordering(lex_leq_fn()),
{
    let leq = lex_leq_fn();
    assert forall|a: Seq<u8>| #[trigger] leq(a, a) by {
        lemma_lex_refl(a);
    }
    assert forall|a: Seq<u8>, b: Seq<u8>| #[trigger] leq(a, b) && #[trigger] leq(b, a)
        implies a == b by {
        lemma_lex_antisym(a, b);
    }
    assert forall|a: Seq<u8>, b: Seq<u8>, c: Seq<u8>|
        #[trigger] leq(a, b) && #[trigger] leq(b, c) implies leq(a, c) by {
        lemma_lex_trans(a, b, c);
    }
    assert forall|a: Seq<u8>, b: Seq<u8>| true implies #[trigger] leq(a, b) || #[trigger] leq(
        b,
        a,
    ) by {
        lemma_lex_total(a, b);
    }
}

/// Common prefixes do not affect the order of what follows them.
pub proof fn lemma_lex_skip(a: Seq<u8>, b: Seq<u8>, i: int)
    requires
        0 <= i <= a.len(),
        i <= b.len(),
        forall|j: int| 0 <= j < i ==> a[j] == b[j],
    ensures
        lex_leq(a, b) == lex_leq(a.skip(i), b.skip(i)),
    decreases i,
{
    if i == 0 {
        assert(a.skip(0) =~= a);
        assert(b.skip(0) =~= b);
    } else {
        assert(a[0] == b[0]);
        assert(a.drop_first() =~= a.skip(1));
        assert(b.drop_first() =~= b.skip(1));
        lemma_lex_skip(a.skip(1), b.skip(1), i - 1);
        assert(a.skip(1).skip(i - 1) =~= a.skip(i));
        assert(b.skip(1).skip(i - 1) =~= b.skip(i));
    }
}

/// Lexicographic comparison of two byte vectors.
pub fn lex_le(a: &Vec<u8>, b: &Vec<u8>) -> (r: bool)
    ensures
        r == lex_leq(a@, b@),
{
    let mut i: usize = 0;
    while i < a.len() && i < b.len()
        invariant
            0 <= i <= a@.len(),
            i <= b@.len(),
            forall|j: int| 0 <= j < i ==> a@[j] == b@[j],
        decreases a@.len() - i,
    {
        if a[i] < b[i] {
            proof {
                lemma_lex_skip(a@, b@, i as int);
            }
            return true;
        }
        if b[i] < a[i] {
            proof {
                lemma_lex_skip(a@, b@, i as int);
            }
            return false;
        }
        i = i + 1;
    }
    proof {
        lemma_lex_skip(a@, b@, i as int);
        if a@.len() <= b@.len() {
            assert(a@.skip(i as int) =~= Seq::<u8>::empty());
        } else {
            assert(b@.skip(i as int) =~= Seq::<u8>::empty());
            assert(a@.skip(i as int).len() > 0);
        }
    }
    a.len() <= b.len()
}

// ---------------------------------------------------------------------
// Lines
// ---------------------------------------------------------------------

/// `s` without a single trailing carriage return, if it has one.
pub open spec fn chomp_cr(s: Seq<u8>) -> Seq<u8> {
    if s.len() > 0 && s[s.len() - 1] == CR {
        s.drop_last()
    } else {
        s
    }
}

/// The lines of `s`: split at every line feed, a carriage return before
/// a line feed dropped, the final line terminator optional.
pub open spec fn split_lines(s: Seq<u8>) -> Seq<Seq<u8>>
    decreases s.len(),
{
    if s.len() == 0 {
        Seq::<Seq<u8>>::empty()
    } else {
        let i = find(s, NL);
        if 0 <= i < s.len() {
            seq![chomp_cr(s.take(i))] + split_lines(s.skip(i + 1))
        } else {
            seq![s]
        }
    }
}

/// The lines of `v`, as `split_lines` of its bytes.
pub fn split_lines_vec(v: &Vec<u8>) -> (r: Vec<Vec<u8>>)
    ensures
        views(r@) == split_lines(v@),
{
    let mut out: Vec<Vec<u8>> = Vec::new();
    let mut pos: usize = 0;
    proof {
        assert(v@.skip(0) =~= v@);
        assert(views(out@) + split_lines(v@.skip(0)) =~= split_lines(v@));
    }
    while pos < v.len()
        invariant
            0 <= pos <= v@.len(),
            split_lines(v@) =~= views(out@) + split_lines(v@.skip(pos as int)),
        decreases v@.len() - pos,
    {
        let i = find_byte_from(v, NL, pos);
        let ghost rest = v@.skip(pos as int);
        proof {
            lemma_find_from_skip(v@, NL, pos as int);
            lemma_find_from(v@, NL, pos as int);
            assert(rest.len() > 0);
        }
        if i < v.len() {
            let mut line = subvec(v, pos, i);
            if line.len() > 0 && line[line.len() - 1] == CR {
                let _ = line.pop();
            }
            proof {
                assert(rest.take(i - pos as int) =~= v@.subrange(pos as int, i as int));
                assert(line@ =~= chomp_cr(rest.take(i - pos as int)));
                assert(rest.skip(i - pos as int + 1) =~= v@.skip(i as int + 1));
                assert(split_lines(rest) =~= seq![line@] + split_lines(v@.skip(i as int + 1)));
                assert(views(out@.push(line)) =~= views(out@) + seq![line@]);
            }
            out.push(line);
            pos = i + 1;
        } else {
            let line = subvec(v, pos, v.len());
            proof {
                assert(line@ =~= rest);
                assert(find(rest, NL) == rest.len() as int);
                assert(split_lines(rest) =~= seq![line@]);
                assert(views(out@.push(line)) =~= views(out@) + seq![line@]);
                assert(v@.skip(v@.len() as int) =~= Seq::<u8>::empty());
            }
            out.push(line);
            pos = v.len();
        }
    }
    proof {
        assert(v@.skip(pos as int) =~= Seq::<u8>::empty());
        assert(split_lines(Seq::<u8>::empty()) =~= Seq::<Seq<u8>>::empty());
        assert(views(out@) =~= split_lines(v@));
    }
    out
}

} // verus!

//! The text file format: rendering a store to bytes and parsing bytes
//! back into a store.
//!
//! One line per entry, `key = value` with a trailing line feed.  On
//! write, the lines of all three namespaces are sorted
//! lexicographically as whole lines, so the file is deterministic
//! whatever the insertion history.  On read, lines without a separator
//! are ignored; key and value are the trimmed parts around the first
//! separator; a value that is a boolean literal (case-insensitive)
//! goes to the boolean namespace, else one that satisfies the number
//! grammar goes to the number namespace, else the string namespace;
//! within a namespace, later lines win on duplicate keys.

use vstd::prelude::*;
use vstd::relations::sorted_by;
use vstd::seq_lib::lemma_sorted_unique;
use crate::text::{views, find, find_byte_from, trim, trim_vec, subvec, copy_bytes, lex_leq_fn,
    lemma_lex_total_ordering, lex_le, split_lines, split_lines_vec};
use crate::num::{is_bool_text, is_number_text, bool_of_text, true_text, false_text, check_bool,
    check_number};
use crate::store::{Config, kv_views, kb_views};

verus! {

// ---------------------------------------------------------------------
// Rendering
// ---------------------------------------------------------------------

/// The separator written between key and value: `" = "`.
pub open spec fn sep_text() -> Seq<u8> {
    seq![32u8, 61u8, 32u8]
}

/// The written form of a boolean.
pub open spec fn bool_text(b: bool) -> Seq<u8> {
    if b {
        true_text()
    } else {
        false_text()
    }
}

/// One line of the file: key, separator, value, line feed.
pub open spec fn render_line(k: Seq<u8>, v: Seq<u8>) -> Seq<u8> {
    k + sep_text() + v + seq![10u8]
}

/// The lines of the store before sorting: booleans, then numbers,
/// then strings, each namespace in entry order.
pub open spec fn all_lines(c: Config) -> Seq<Seq<u8>> {
    c.bools_entries().map_values(|e: (Seq<u8>, bool)| render_line(e.0, bool_text(e.1)))
        + c.numbers_entries().map_values(|e: (Seq<u8>, Seq<u8>)| render_line(e.0, e.1))
        + c.strings_entries().map_values(|e: (Seq<u8>, Seq<u8>)| render_line(e.0, e.1))
}

/// The rendered file: all lines, sorted lexicographically as whole
/// lines, concatenated.
pub open spec fn file_spec(c: Config) -> Seq<u8> {
    all_lines(c).sort_by(lex_leq_fn()).flatten()
}

/// Appends the bytes of `src` to `dst`.
fn append_bytes(dst: &mut Vec<u8>, src: &Vec<u8>)
    ensures
        final(dst)@ == old(dst)@ + src@,
{
    let mut i: usize = 0;
    while i < src.len()
        invariant
            0 <= i <= src@.len(),
            dst@ =~= old(dst)@ + src@.take(i as int),
        decreases src@.len() - i,
    {
        dst.push(src[i]);
        i = i + 1;
        proof {
            assert(dst@ =~= old(dst)@ + src@.take(i as int));
        }
    }
    proof {
        assert(old(dst)@ + src@.take(src@.len() as int) =~= old(dst)@ + src@);
    }
}

/// Renders one `key = value` line.
fn render_line_vec(k: &Vec<u8>, v: &Vec<u8>) -> (r: Vec<u8>)
    ensures
        r@ == render_line(k@, v@),
{
    let mut r = copy_bytes(k);
    r.push(32);
    r.push(61);
    r.push(32);
    append_bytes(&mut r, v);
    r.push(10);
    proof {
        assert(r@ =~= render_line(k@, v@));
    }
    r
}

/// The written form of a boolean.
fn bool_text_vec(b: bool) -> (r: Vec<u8>)
    ensures
        r@ == bool_text(b),
{
    if b {
        let r: Vec<u8> = vec![116u8, 114u8, 117u8, 101u8];
        proof {
            assert(r@ =~= true_text());
        }
        r
    } else {
        let r: Vec<u8> = vec![102u8, 97u8, 108u8, 115u8, 101u8];
        proof {
            assert(r@ =~= false_text());
        }
        r
    }
}

/// A sequence with an element inserted holds one more of it.
pub(crate) proof fn lemma_to_multiset_insert<A>(s: Seq<A>, i: int, x: A)
    requires
        0 <= i <= s.len(),
    ensures
        s.insert(i, x).to_multiset() == s.to_multiset().insert(x),
{
    broadcast use vstd::seq_lib::group_to_multiset_ensures;
    broadcast use vstd::multiset::group_multiset_axioms;

    let t = s.insert(i, x);
    assert(t.remove(i) =~= s);
    assert(t.remove(i).to_multiset() =~= t.to_multiset().remove(t[i]));
    assert(t[i] == x);
    assert(t.contains(x)) by {
        assert(t[i] == x);
    }
    assert(t.to_multiset().count(x) > 0);
    assert forall|y: A| true implies t.to_multiset().count(y) == s.to_multiset().insert(
        x,
    ).count(y) by {
        if y == x {
            assert(s.to_multiset() == t.to_multiset().remove(x));
        } else {
            assert(s.to_multiset().count(y) == t.to_multiset().remove(x).count(y));
        }
    }
    assert(t.to_multiset() =~= s.to_multiset().insert(x));
}

/// Appending an element is inserting it at the end.
pub(crate) proof fn lemma_to_multiset_push<A>(s: Seq<A>, x: A)
    ensures
        s.push(x).to_multiset() == s.to_multiset().insert(x),
{
    assert(s.insert(s.len() as int, x) =~= s.push(x));
    lemma_to_multiset_insert(s, s.len() as int, x);
}

/// Sorts lines lexicographically; the result is a permutation.
fn sort_lines(lines: &Vec<Vec<u8>>) -> (out: Vec<Vec<u8>>)
    ensures
        sorted_by(views(out@), lex_leq_fn()),
        views(out@).to_multiset() == views(lines@).to_multiset(),
{
    broadcast use vstd::seq_lib::group_to_multiset_ensures;

    let mut out: Vec<Vec<u8>> = Vec::new();
    let mut i: usize = 0;
    proof {
        assert(views(out@) =~= Seq::<Seq<u8>>::empty());
        assert(views(lines@.take(0)) =~= Seq::<Seq<u8>>::empty());
    }
    while i < lines.len()
        invariant
            0 <= i <= lines@.len(),
            sorted_by(views(out@), lex_leq_fn()),
            views(out@).to_multiset() == views(lines@.take(i as int)).to_multiset(),
        decreases lines@.len() - i,
    {
        let x = copy_bytes(&lines[i]);
        let ghost pre = views(out@);
        let mut pos: usize = 0;
        while pos < out.len() && lex_le(&out[pos], &x)
            invariant
                0 <= pos <= out@.len(),
                out@.len() == pre.len(),
                views(out@) == pre,
                forall|j: int| 0 <= j < pos ==> lex_leq_fn()(pre[j], x@),
            decreases out@.len() - pos,
        {
            pos = pos + 1;
        }
        proof {
            lemma_lex_total_ordering();
            if pos < out@.len() {
                assert(!lex_leq_fn()(pre[pos as int], x@));
                assert(lex_leq_fn()(x@, pre[pos as int]));
            }
        }
        out.insert(pos, x);
        proof {
            assert(views(out@) =~= pre.insert(pos as int, x@));
            let now = pre.insert(pos as int, x@);
            assert forall|a: int, b: int| 0 <= a < b < now.len() implies lex_leq_fn()(
                now[a],
                now[b],
            ) by {
                let leq = lex_leq_fn();
                if a < pos && b == pos {
                    assert(now[a] == pre[a]);
                    assert(leq(pre[a], x@));
                } else if a == pos {
                    assert(now[b] == pre[b - 1]);
                    assert(b - 1 >= pos);
                    if pos < pre.len() {
                        assert(leq(x@, pre[pos as int]));
                        if b - 1 > pos {
                            assert(leq(pre[pos as int], pre[b - 1]));
                        }
                    }
                } else if a < pos && b > pos {
                    assert(now[a] == pre[a] && now[b] == pre[b - 1]);
                    if b - 1 > a {
                        assert(leq(pre[a], pre[b - 1]));
                    } else {
                        assert(leq(pre[a], x@));
                        assert(leq(x@, pre[pos as int]));
                    }
                } else if a > pos {
                    assert(now[a] == pre[a - 1] && now[b] == pre[b - 1]);
                    assert(leq(pre[a - 1], pre[b - 1]));
                } else {
                    assert(b < pos);
                    assert(now[a] == pre[a] && now[b] == pre[b]);
                    assert(leq(pre[a], pre[b]));
                }
            }
            lemma_to_multiset_insert(pre, pos as int, x@);
            assert(views(lines@.take(i as int + 1)) =~~= views(lines@.take(i as int)).push(
                lines@[i as int]@,
            ));
            lemma_to_multiset_push(views(lines@.take(i as int)), lines@[i as int]@);
        }
        i = i + 1;
    }
    proof {
        assert(lines@.take(lines@.len() as int) =~= lines@);
    }
    out
}

/// Flattening one more line appends its bytes.
proof fn lemma_flatten_push(s: Seq<Seq<u8>>, x: Seq<u8>)
    ensures
        s.push(x).flatten() == s.flatten() + x,
{
    let t = s.push(x);
    t.lemma_flatten_and_flatten_alt_are_equivalent();
    s.lemma_flatten_and_flatten_alt_are_equivalent();
    assert(t.drop_last() =~= s);
    assert(t.last() == x);
    assert(t.flatten_alt() == t.drop_last().flatten_alt() + t.last());
}

/// Concatenates lines into one byte vector.
fn concat_lines(lines: &Vec<Vec<u8>>) -> (r: Vec<u8>)
    ensures
        r@ == views(lines@).flatten(),
{
    let mut r: Vec<u8> = Vec::new();
    let mut i: usize = 0;
    proof {
        assert(views(lines@.take(0)) =~= Seq::<Seq<u8>>::empty());
        assert(Seq::<Seq<u8>>::empty().flatten() =~= Seq::<u8>::empty());
    }
    while i < lines.len()
        invariant
            0 <= i <= lines@.len(),
            r@ == views(lines@.take(i as int)).flatten(),
        decreases lines@.len() - i,
    {
        append_bytes(&mut r, &lines[i]);
        proof {
            assert(views(lines@.take(i as int + 1)) =~= views(lines@.take(i as int)).push(
                lines@[i as int]@,
            ));
            lemma_flatten_push(views(lines@.take(i as int)), lines@[i as int]@);
        }
        i = i + 1;
    }
    proof {
        assert(lines@.take(lines@.len() as int) =~= lines@);
    }
    r
}

impl Config {
    /// Renders the whole store: one sorted `key = value` line per
    /// entry across all three namespaces.  The caller writes these
    /// bytes to the backing file.
    pub fn save(&self) -> (out: Vec<u8>)
        requires
            self.wf(),
        ensures
            out@ == file_spec(*self),
    {
        let ghost target = all_lines(*self);
        let mut lines: Vec<Vec<u8>> = Vec::new();
        let ghost part_b = self.bools_entries().map_values(
            |e: (Seq<u8>, bool)| render_line(e.0, bool_text(e.1)),
        );
        let ghost part_n = self.numbers_entries().map_values(
            |e: (Seq<u8>, Seq<u8>)| render_line(e.0, e.1),
        );
        let ghost part_s = self.strings_entries().map_values(
            |e: (Seq<u8>, Seq<u8>)| render_line(e.0, e.1),
        );
        let bv = self.bools_vec();
        let mut i: usize = 0;
        proof {
            assert(views(lines@) =~= part_b.take(0));
        }
        while i < bv.len()
            invariant
                0 <= i <= bv@.len(),
                kb_views(bv@) == self.bools_entries(),
                views(lines@) == part_b.take(i as int),
                part_b == self.bools_entries().map_values(
                    |e: (Seq<u8>, bool)| render_line(e.0, bool_text(e.1)),
                ),
            decreases bv@.len() - i,
        {
            let vt = bool_text_vec(bv[i].1);
            let line = render_line_vec(&bv[i].0, &vt);
            proof {
                assert(self.bools_entries()[i as int] == (bv@[i as int].0@, bv@[i as int].1));
                assert(line@ == part_b[i as int]);
                let ghost lv = views(lines@);
                let ghost nv = views(lines@.push(line));
                assert(nv.len() == lv.len() + 1);
                assert(lv.len() == i as int);
                assert(nv[i as int] == line@);
                assert forall|j: int| 0 <= j < i as int implies nv[j] == part_b[j] by {
                    assert(nv[j] == lines@[j]@);
                    assert(lv[j] == lines@[j]@);
                    assert(lv[j] == part_b.take(i as int)[j]);
                }
                assert(views(lines@.push(line)) =~~= part_b.take(i as int + 1));
            }
            lines.push(line);
            i = i + 1;
        }
        proof {
            assert(part_b.take(bv@.len() as int) =~= part_b);
        }
        let nv = self.numbers_vec();
        let mut i: usize = 0;
        while i < nv.len()
            invariant
                0 <= i <= nv@.len(),
                kv_views(nv@) == self.numbers_entries(),
                views(lines@) == part_b + part_n.take(i as int),
                part_b == self.bools_entries().map_values(
                    |e: (Seq<u8>, bool)| render_line(e.0, bool_text(e.1)),
                ),
                part_n == self.numbers_entries().map_values(
                    |e: (Seq<u8>, Seq<u8>)| render_line(e.0, e.1),
                ),
            decreases nv@.len() - i,
        {
            let line = render_line_vec(&nv[i].0, &nv[i].1);
            proof {
                assert(self.numbers_entries()[i as int] == (nv@[i as int].0@, nv@[i as int].1@));
                assert(line@ == part_n[i as int]);
                let ghost lv = views(lines@);
                let ghost pv = views(lines@.push(line));
                let ghost nb = part_b.len() as int;
                assert(pv.len() == lv.len() + 1);
                assert(lv.len() == nb + i as int);
                assert(pv[nb + i as int] == line@);
                assert forall|j: int| 0 <= j < nb + i as int implies pv[j] == lv[j] by {
                    assert(pv[j] == lines@[j]@);
                    assert(lv[j] == lines@[j]@);
                }
                assert(views(lines@.push(line)) =~~= part_b + part_n.take(i as int + 1));
            }
            lines.push(line);
            i = i + 1;
        }
        proof {
            assert(part_n.take(nv@.len() as int) =~= part_n);
        }
        let sv = self.strings_vec();
        let mut i: usize = 0;
        while i < sv.len()
            invariant
                0 <= i <= sv@.len(),
                kv_views(sv@) == self.strings_entries(),
                views(lines@) == part_b + part_n + part_s.take(i as int),
                part_b == self.bools_entries().map_values(
                    |e: (Seq<u8>, bool)| render_line(e.0, bool_text(e.1)),
                ),
                part_n == self.numbers_entries().map_values(
                    |e: (Seq<u8>, Seq<u8>)| render_line(e.0, e.1),
                ),
                part_s == self.strings_entries().map_values(
                    |e: (Seq<u8>, Seq<u8>)| render_line(e.0, e.1),
                ),
            decreases sv@.len() - i,
        {
            let line = render_line_vec(&sv[i].0, &sv[i].1);
            proof {
                assert(self.strings_entries()[i as int] == (sv@[i as int].0@, sv@[i as int].1@));
                assert(line@ == part_s[i as int]);
                let ghost lv = views(lines@);
                let ghost pv = views(lines@.push(line));
                let ghost nbn = (part_b + part_n).len() as int;
                assert(pv.len() == lv.len() + 1);
                assert(lv.len() == nbn + i as int);
                assert(pv[nbn + i as int] == line@);
                assert forall|j: int| 0 <= j < nbn + i as int implies pv[j] == lv[j] by {
                    assert(pv[j] == lines@[j]@);
                    assert(lv[j] == lines@[j]@);
                }
                assert(views(lines@.push(line)) =~~= part_b + part_n + part_s.take(i as int + 1));
            }
            lines.push(line);
            i = i + 1;
        }
        proof {
            assert(part_s.take(sv@.len() as int) =~= part_s);
            assert(views(lines@) == target);
        }
        let sorted = sort_lines(&lines);
        proof {
            lemma_lex_total_ordering();
            target.lemma_sort_by_ensures(lex_leq_fn());
            lemma_sorted_unique(views(sorted@), target.sort_by(lex_leq_fn()), lex_leq_fn());
        }
        concat_lines(&sorted)
    }
}

// ---------------------------------------------------------------------
// Parsing
// ---------------------------------------------------------------------

/// Index of the first separator in a line, or its length.
pub open spec fn line_sep(l: Seq<u8>) -> int {
    find(l, 61)
}

/// Whether a line holds a separator at all.
pub open spec fn line_has_sep(l: Seq<u8>) -> bool {
    0 <= line_sep(l) < l.len()
}

/// The key of a line: what precedes the first separator, trimmed.
pub open spec fn line_key(l: Seq<u8>) -> Seq<u8> {
    trim(l.take(line_sep(l)))
}

/// The raw value of a line: what follows the first separator, trimmed.
pub open spec fn line_val(l: Seq<u8>) -> Seq<u8> {
    trim(l.skip(line_sep(l) + 1))
}

/// One namespace as parsed from `lines`: every line with a separator
/// whose value `accept` claims contributes an entry, later lines
/// winning on duplicate keys.
pub open spec fn parse_ns<V>(
    lines: Seq<Seq<u8>>,
    accept: spec_fn(Seq<u8>) -> bool,
    val: spec_fn(Seq<u8>) -> V,
) -> Map<Seq<u8>, V>
    decreases lines.len(),
{
    if lines.len() == 0 {
        Map::<Seq<u8>, V>::empty()
    } else {
        let m = parse_ns(lines.drop_last(), accept, val);
        let l = lines.last();
        if line_has_sep(l) && accept(line_val(l)) {
            m.insert(line_key(l), val(line_val(l)))
        } else {
            m
        }
    }
}

/// A value bound for the boolean namespace: a boolean literal.
pub open spec fn accept_bool() -> spec_fn(Seq<u8>) -> bool {
    |v: Seq<u8>| is_bool_text(v)
}

/// A value bound for the number namespace: a textual number that is
/// not a boolean literal — the boolean reading is tried first.
pub open spec fn accept_number() -> spec_fn(Seq<u8>) -> bool {
    |v: Seq<u8>| !is_bool_text(v) && is_number_text(v)
}

/// A value bound for the string namespace: anything else.
pub open spec fn accept_string() -> spec_fn(Seq<u8>) -> bool {
    |v: Seq<u8>| !is_bool_text(v) && !is_number_text(v)
}

/// The boolean a literal line stores.
pub open spec fn bool_val() -> spec_fn(Seq<u8>) -> bool {
    |v: Seq<u8>| bool_of_text(v)
}

/// The value a number or string line stores: the trimmed text itself.
pub open spec fn id_val() -> spec_fn(Seq<u8>) -> Seq<u8> {
    |v: Seq<u8>| v
}

/// The boolean namespace parsed from `lines`.
pub open spec fn parse_bools(lines: Seq<Seq<u8>>) -> Map<Seq<u8>, bool> {
    parse_ns(lines, accept_bool(), bool_val())
}

/// The number namespace parsed from `lines`.
pub open spec fn parse_numbers(lines: Seq<Seq<u8>>) -> Map<Seq<u8>, Seq<u8>> {
    parse_ns(lines, accept_number(), id_val())
}

/// The string namespace parsed from `lines`.
pub open spec fn parse_strings(lines: Seq<Seq<u8>>) -> Map<Seq<u8>, Seq<u8>> {
    parse_ns(lines, accept_string(), id_val())
}

/// Builds a store for `path` from the bytes of its backing file, or an
/// empty store when the file could not be read (`contents` is `None`).
/// Malformed lines — those without a separator — contribute nothing.
pub fn load(path: String, contents: Option<Vec<u8>>) -> (c: Config)
    ensures
        c.wf(),
        c.path_view() == path@,
        match contents {
            Some(text) => {
                &&& c.bools_map() == parse_bools(split_lines(text@))
                &&& c.numbers_map() == parse_numbers(split_lines(text@))
                &&& c.strings_map() == parse_strings(split_lines(text@))
            },
            None => {
                &&& c.bools_map() == Map::<Seq<u8>, bool>::empty()
                &&& c.numbers_map() == Map::<Seq<u8>, Seq<u8>>::empty()
                &&& c.strings_map() == Map::<Seq<u8>, Seq<u8>>::empty()
            },
        },
{
    let ghost p = path@;
    let mut c = Config::new(path);
    match contents {
        None => c,
        Some(text) => {
            let lines = split_lines_vec(&text);
            let ghost gl = split_lines(text@);
            let mut i: usize = 0;
            proof {
                assert(gl.take(0) =~= Seq::<Seq<u8>>::empty());
            }
            while i < lines.len()
                invariant
                    0 <= i <= lines@.len(),
                    views(lines@) == gl,
                    c.wf(),
                    c.path_view() == p,
                    c.bools_map() == parse_bools(gl.take(i as int)),
                    c.numbers_map() == parse_numbers(gl.take(i as int)),
                    c.strings_map() == parse_strings(gl.take(i as int)),
                decreases lines@.len() - i,
            {
                let ghost l = gl[i as int];
                let line = &lines[i];
                proof {
                    assert(line@ == l);
                    assert(gl.take(i as int + 1).drop_last() =~= gl.take(i as int));
                    assert(gl.take(i as int + 1).last() == l);
                }
                let sep = find_byte_from(line, 61, 0);
                if sep < line.len() {
                    let rawk = subvec(line, 0, sep);
                    let key = trim_vec(&rawk);
                    let rawv = subvec(line, sep + 1, line.len());
                    let value = trim_vec(&rawv);
                    proof {
                        assert(line_has_sep(l));
                        assert(rawk@ =~= l.take(line_sep(l)));
                        assert(key@ == line_key(l));
                        assert(rawv@ =~= l.skip(line_sep(l) + 1));
                        assert(value@ == line_val(l));
                    }
                    match check_bool(&value) {
                        Some(b) => c.load_bool(key, b),
                        None => {
                            if check_number(&value) {
                                c.load_number(key, value);
                            } else {
                                c.load_string(key, value);
                            }
                        },
                    }
                } else {
                    proof {
                        assert(!line_has_sep(l));
                    }
                }
                i = i + 1;
            }
            proof {
                assert(gl.take(lines@.len() as int) =~= gl);
            }
            c
        },
    }
}

} // verus!

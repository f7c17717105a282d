//! Store-level laws of the file format.
//!
//! Chief among them: saving is deterministic — two stores holding the
//! same namespaces render byte-identical files, whatever their
//! insertion histories — and saving then loading reproduces the
//! namespaces exactly, for stores within the format's limits.

use vstd::prelude::*;
use vstd::multiset::Multiset;
use crate::store::{Config, map_of, keys_uniq, lemma_map_of_pair};
use crate::codec::{all_lines, file_spec, render_line, bool_text, sep_text, lemma_to_multiset_push,
    parse_ns, parse_bools, parse_numbers, parse_strings, line_has_sep, line_sep, line_key,
    line_val, accept_bool, accept_number, accept_string, bool_val, id_val};
use crate::text::{trim, is_ws, lemma_trim_range, lemma_trim_edges, lemma_find_from_unique, find,
    chomp_cr, split_lines, lex_leq_fn, lemma_lex_total_ordering};
use crate::num::{is_bool_text, is_number_text, bool_of_text, true_text, false_text, lower_byte,
    is_true_text, is_false_text, plain_byte, lemma_number_not_bool, lemma_number_text_bytes,
    lemma_bool_text_bytes, lemma_value_text_trim};

verus! {

/// Entry lists with unique keys and the same map hold the same
/// entries, as a multiset.
proof fn lemma_entries_multiset<V>(a: Seq<(Seq<u8>, V)>, b: Seq<(Seq<u8>, V)>)
    requires
        keys_uniq(a),
        keys_uniq(b),
        map_of(a) == map_of(b),
    ensures
        a.to_multiset() == b.to_multiset(),
{
    broadcast use vstd::seq_lib::group_to_multiset_ensures;
    broadcast use vstd::multiset::group_multiset_axioms;

    assert(a.no_duplicates()) by {
        assert forall|i: int, j: int|
            0 <= i < a.len() && 0 <= j < a.len() && i != j implies a[i] != a[j] by {
            if i < j {
                assert(a[i].0 != a[j].0);
            } else {
                assert(a[j].0 != a[i].0);
            }
        }
    }
    assert(b.no_duplicates()) by {
        assert forall|i: int, j: int|
            0 <= i < b.len() && 0 <= j < b.len() && i != j implies b[i] != b[j] by {
            if i < j {
                assert(b[i].0 != b[j].0);
            } else {
                assert(b[j].0 != b[i].0);
            }
        }
    }
    a.lemma_multiset_has_no_duplicates();
    b.lemma_multiset_has_no_duplicates();
    assert forall|e: (Seq<u8>, V)| true implies a.to_multiset().count(e) == b.to_multiset().count(
        e,
    ) by {
        lemma_map_of_pair(a, e.0, e.1);
        lemma_map_of_pair(b, e.0, e.1);
        assert(a.contains(e) <==> b.contains(e));
        if a.contains(e) {
            assert(a.to_multiset().count(e) == 1);
            assert(b.to_multiset().count(e) == 1);
        } else {
            assert(a.to_multiset().count(e) == 0);
            assert(b.to_multiset().count(e) == 0);
        }
    }
    assert(a.to_multiset() =~= b.to_multiset());
}

/// A multiset with an element put back after removal is itself.
proof fn lemma_multiset_remove_insert<A>(m: Multiset<A>, x: A)
    requires
        m.count(x) > 0,
    ensures
        m.remove(x).insert(x) == m,
{
    broadcast use vstd::multiset::group_multiset_axioms;

    assert(m.remove(x).insert(x) =~= m);
}

/// Mapping a function over two sequences that hold the same elements
/// yields sequences that hold the same images.
proof fn lemma_map_values_multiset<A, B>(a: Seq<A>, b: Seq<A>, f: spec_fn(A) -> B)
    requires
        a.to_multiset() == b.to_multiset(),
    ensures
        a.map_values(f).to_multiset() == b.map_values(f).to_multiset(),
    decreases a.len(),
{
    broadcast use vstd::seq_lib::group_to_multiset_ensures;
    broadcast use vstd::multiset::group_multiset_axioms;

    if a.len() == 0 {
        assert(b.to_multiset().len() == 0);
        assert(b.len() == 0);
        assert(a =~= b);
    } else {
        let x = a.last();
        let a0 = a.drop_last();
        assert(a0.push(x) =~= a);
        lemma_to_multiset_push(a0, x);
        assert(a.to_multiset() == a0.to_multiset().insert(x));
        assert(a.contains(x)) by {
            assert(a[a.len() - 1] == x);
        }
        assert(b.to_multiset().count(x) > 0);
        assert(b.contains(x));
        let j = choose|j: int| 0 <= j < b.len() && b[j] == x;
        let b0 = b.remove(j);
        assert(b0.to_multiset() =~= b.to_multiset().remove(x));
        assert(a.remove(a.len() - 1) =~= a0);
        assert(a0.to_multiset() =~= a.to_multiset().remove(x));
        assert(a0.to_multiset() == b0.to_multiset());
        lemma_map_values_multiset(a0, b0, f);
        assert(a.map_values(f) =~= a0.map_values(f).push(f(x))) by {
            assert forall|i: int| 0 <= i < a.len() - 1 implies a0.map_values(f)[i]
                == a.map_values(f)[i] by {
                assert(a0[i] == a[i]);
            }
        }
        lemma_to_multiset_push(a0.map_values(f), f(x));
        assert(a.map_values(f).to_multiset() == a0.map_values(f).to_multiset().insert(f(x)));
        assert(b.map_values(f).remove(j) =~= b0.map_values(f)) by {
            assert forall|i: int| 0 <= i < b.len() - 1 implies b.map_values(f).remove(j)[i]
                == b0.map_values(f)[i] by {
                if i < j {
                    assert(b0[i] == b[i]);
                } else {
                    assert(b0[i] == b[i + 1]);
                }
            }
        }
        assert(b.map_values(f).remove(j).to_multiset() =~= b.map_values(f).to_multiset().remove(
            b.map_values(f)[j],
        ));
        assert(b.map_values(f)[j] == f(x));
        assert(b.map_values(f).to_multiset().count(f(x)) > 0) by {
            assert(b.map_values(f).contains(f(x))) by {
                assert(b.map_values(f)[j] == f(x));
            }
        }
        lemma_multiset_remove_insert(b.map_values(f).to_multiset(), f(x));
        assert(b.map_values(f).to_multiset() == b0.map_values(f).to_multiset().insert(f(x)));
    }
}

/// Deterministic output: two well-formed stores holding the same three
/// namespaces render byte-identical files, whatever order their
/// entries were inserted in.
pub proof fn lemma_deterministic_save(c1: Config, c2: Config)
    requires
        c1.wf(),
        c2.wf(),
        c1.strings_map() == c2.strings_map(),
        c1.numbers_map() == c2.numbers_map(),
        c1.bools_map() == c2.bools_map(),
    ensures
        file_spec(c1) == file_spec(c2),
{
    broadcast use vstd::seq_lib::lemma_multiset_commutative;

    lemma_entries_multiset(c1.bools_entries(), c2.bools_entries());
    lemma_entries_multiset(c1.numbers_entries(), c2.numbers_entries());
    lemma_entries_multiset(c1.strings_entries(), c2.strings_entries());
    let fb = |e: (Seq<u8>, bool)| render_line(e.0, bool_text(e.1));
    let fv = |e: (Seq<u8>, Seq<u8>)| render_line(e.0, e.1);
    lemma_map_values_multiset(c1.bools_entries(), c2.bools_entries(), fb);
    lemma_map_values_multiset(c1.numbers_entries(), c2.numbers_entries(), fv);
    lemma_map_values_multiset(c1.strings_entries(), c2.strings_entries(), fv);
    let b1 = c1.bools_entries().map_values(fb);
    let n1 = c1.numbers_entries().map_values(fv);
    let s1 = c1.strings_entries().map_values(fv);
    let b2 = c2.bools_entries().map_values(fb);
    let n2 = c2.numbers_entries().map_values(fv);
    let s2 = c2.strings_entries().map_values(fv);
    assert(all_lines(c1) == b1 + n1 + s1);
    assert(all_lines(c2) == b2 + n2 + s2);
    assert((b1 + n1).to_multiset() == (b2 + n2).to_multiset());
    assert(((b1 + n1) + s1).to_multiset() == ((b2 + n2) + s2).to_multiset());
    assert(b1 + n1 + s1 == (b1 + n1) + s1);
    assert(b2 + n2 + s2 == (b2 + n2) + s2);
    assert(all_lines(c1).to_multiset() == all_lines(c2).to_multiset());
    crate::text::lemma_lex_total_ordering();
    all_lines(c1).lemma_sort_by_ensures(crate::text::lex_leq_fn());
    all_lines(c2).lemma_sort_by_ensures(crate::text::lex_leq_fn());
    vstd::seq_lib::lemma_sorted_unique(
        all_lines(c1).sort_by(crate::text::lex_leq_fn()),
        all_lines(c2).sort_by(crate::text::lex_leq_fn()),
        crate::text::lex_leq_fn(),
    );
}

// ---------------------------------------------------------------------
// Round trip
// ---------------------------------------------------------------------

/// A key that survives the file format: trimmed, and free of the
/// separator and of line feeds.
pub open spec fn key_ok(k: Seq<u8>) -> bool {
    trim(k) == k && forall|i: int| 0 <= i < k.len() ==> k[i] != 61 && k[i] != 10
}

/// A value as written: trimmed and free of line feeds.
pub open spec fn val_ok(v: Seq<u8>) -> bool {
    trim(v) == v && forall|i: int| 0 <= i < v.len() ==> v[i] != 10
}

/// A string value that survives the file format: besides `val_ok`,
/// not mistakable for a boolean literal or a number on re-reading.
pub open spec fn str_val_ok(v: Seq<u8>) -> bool {
    val_ok(v) && !is_bool_text(v) && !is_number_text(v)
}

/// A store whose saved file re-loads to the same namespaces: every
/// key, and every string value, stays within the format's limits.
/// Number and boolean values are safe by construction.
pub open spec fn round_trip_safe(c: Config) -> bool {
    &&& forall|i: int|
        0 <= i < c.bools_entries().len() ==> key_ok((#[trigger] c.bools_entries()[i]).0)
    &&& forall|i: int|
        0 <= i < c.numbers_entries().len() ==> key_ok((#[trigger] c.numbers_entries()[i]).0)
    &&& forall|i: int|
        0 <= i < c.strings_entries().len() ==> key_ok((#[trigger] c.strings_entries()[i]).0)
    &&& forall|i: int|
        0 <= i < c.strings_entries().len() ==> str_val_ok((#[trigger] c.strings_entries()[i]).1)
}

/// A full line as written: one trailing line feed, no other line feed,
/// and no carriage return just before it.
spec fn nl_terminated(l: Seq<u8>) -> bool {
    &&& l.len() >= 1
    &&& l[l.len() - 1] == 10
    &&& forall|j: int| 0 <= j < l.len() - 1 ==> l[j] != 10
    &&& l.len() >= 2 ==> l[l.len() - 2] != 13
}

/// Boolean values render as literals, which read back as themselves.
proof fn lemma_bool_text_facts(b: bool)
    ensures
        is_bool_text(bool_text(b)),
        bool_of_text(bool_text(b)) == b,
        val_ok(bool_text(b)),
{
    let t = bool_text(b);
    if b {
        assert(t[0] == 116 && t[1] == 114 && t[2] == 117 && t[3] == 101);
        assert forall|i: int| 0 <= i < t.len() implies lower_byte(t[i]) == true_text()[i] by {
            if i == 0 {
            } else if i == 1 {
            } else if i == 2 {
            } else {
                assert(i == 3);
            }
        }
        assert(is_true_text(t));
    } else {
        assert(t[0] == 102 && t[1] == 97 && t[2] == 108 && t[3] == 115 && t[4] == 101);
        assert forall|i: int| 0 <= i < t.len() implies lower_byte(t[i]) == false_text()[i] by {
            if i == 0 {
            } else if i == 1 {
            } else if i == 2 {
            } else if i == 3 {
            } else {
                assert(i == 4);
            }
        }
        assert(is_false_text(t));
        assert(!is_true_text(t));
    }
    lemma_bool_text_bytes(t);
    lemma_value_text_trim(t);
    assert forall|i: int| 0 <= i < t.len() implies t[i] != 10 by {
        assert(plain_byte(t[i]));
    }
}

/// A textual number reads back as a number, not as a boolean.
proof fn lemma_number_val_ok(v: Seq<u8>)
    requires
        is_number_text(v),
    ensures
        val_ok(v),
        !is_bool_text(v),
{
    lemma_number_text_bytes(v);
    lemma_value_text_trim(v);
    lemma_number_not_bool(v);
    assert forall|i: int| 0 <= i < v.len() implies v[i] != 10 by {
        assert(plain_byte(v[i]));
    }
}

/// A rendered line splits and trims back into exactly its key and
/// value.
proof fn lemma_render_decode(k: Seq<u8>, v: Seq<u8>)
    requires
        key_ok(k),
        val_ok(v),
    ensures
        nl_terminated(render_line(k, v)),
        render_line(k, v).drop_last() == k + sep_text() + v,
        line_has_sep(k + sep_text() + v),
        line_sep(k + sep_text() + v) == k.len() + 1,
        line_key(k + sep_text() + v) == k,
        line_val(k + sep_text() + v) == v,
{
    let body = k + sep_text() + v;
    let l = render_line(k, v);
    assert(sep_text()[0] == 32 && sep_text()[1] == 61 && sep_text()[2] == 32);
    assert(body.len() == k.len() + 3 + v.len());
    assert(forall|j: int| 0 <= j < k.len() ==> body[j] == k[j]);
    assert(body[k.len() as int] == 32);
    assert(body[k.len() as int + 1] == 61);
    assert(body[k.len() as int + 2] == 32);
    assert(forall|j: int| k.len() + 3 <= j < body.len() ==> body[j] == v[j - k.len() - 3]);
    assert(l == body + seq![10u8]);
    assert(l.len() == body.len() + 1);
    assert(forall|j: int| 0 <= j < body.len() ==> l[j] == body[j]);
    assert(l[l.len() - 1] == 10);
    assert forall|j: int| 0 <= j < l.len() - 1 implies l[j] != 10 by {
        if j < k.len() {
            assert(l[j] == k[j]);
        } else if j < k.len() + 3 {
            assert(l[j] == body[j]);
        } else {
            assert(l[j] == v[j - k.len() - 3]);
        }
    }
    if v.len() > 0 {
        lemma_trim_edges(v);
        assert(l[l.len() - 2] == v[v.len() - 1]);
        assert(!is_ws(v[v.len() - 1]));
    } else {
        assert(l[l.len() - 2] == 32);
    }
    assert(nl_terminated(l));
    lemma_find_from_unique(body, 61, 0, k.len() as int + 1);
    assert(line_sep(body) == k.len() + 1);
    assert(line_has_sep(body));
    let left = body.take(k.len() as int + 1);
    assert(left =~= k + seq![32u8]);
    if k.len() > 0 {
        lemma_trim_edges(k);
    }
    assert forall|j: int| k.len() <= j < left.len() implies is_ws(left[j]) by {
        assert(j == k.len());
    }
    lemma_trim_range(left, 0, k.len() as int);
    assert(left.subrange(0, k.len() as int) =~= k);
    assert(line_key(body) == k);
    let right = body.skip(k.len() as int + 2);
    assert(right =~= seq![32u8] + v);
    if v.len() > 0 {
        lemma_trim_edges(v);
    }
    assert forall|j: int| 0 <= j < 1 implies is_ws(right[j]) by {
        assert(right[0] == 32);
    }
    lemma_trim_range(right, 1, right.len() as int);
    assert(right.subrange(1, right.len() as int) =~= v);
    assert(line_val(body) == v);
    assert(l.drop_last() =~= body);
}

/// Splitting a concatenation of terminated lines gives back the lines,
/// each without its terminator.
proof fn lemma_split_flatten(ls: Seq<Seq<u8>>)
    requires
        forall|i: int| 0 <= i < ls.len() ==> nl_terminated(#[trigger] ls[i]),
    ensures
        split_lines(ls.flatten()) == ls.map_values(|l: Seq<u8>| l.drop_last()),
    decreases ls.len(),
{
    let f = |l: Seq<u8>| l.drop_last();
    if ls.len() == 0 {
        assert(ls.flatten() =~= Seq::<u8>::empty());
        assert(split_lines(Seq::<u8>::empty()) =~= Seq::<Seq<u8>>::empty());
        assert(ls.map_values(f) =~= Seq::<Seq<u8>>::empty());
    } else {
        let l0 = ls[0];
        let rest = ls.drop_first();
        assert(nl_terminated(l0));
        let s = ls.flatten();
        assert(ls.first() == l0);
        assert(s == l0 + rest.flatten());
        assert(s.len() >= l0.len());
        assert(s[l0.len() - 1] == 10);
        assert(forall|j: int| 0 <= j < l0.len() - 1 ==> s[j] == l0[j]);
        lemma_find_from_unique(s, 10, 0, l0.len() - 1);
        assert(find(s, 10) == l0.len() - 1);
        assert(s.len() > 0);
        assert(s.take(l0.len() - 1) =~= l0.drop_last());
        assert(chomp_cr(l0.drop_last()) == l0.drop_last()) by {
            if l0.len() >= 2 {
                assert(l0.drop_last()[l0.len() - 2] == l0[l0.len() - 2]);
            }
        }
        assert(s.skip(l0.len() as int) =~= rest.flatten());
        assert forall|i: int| 0 <= i < rest.len() implies nl_terminated(#[trigger] rest[i]) by {
            assert(rest[i] == ls[i + 1]);
        }
        lemma_split_flatten(rest);
        assert(split_lines(s) == seq![l0.drop_last()] + rest.map_values(f));
        assert(ls.map_values(f) =~~= seq![l0.drop_last()] + rest.map_values(f)) by {
            assert forall|i: int|
                0 <= i < ls.len() implies ls.map_values(f)[i] == (seq![l0.drop_last()]
                + rest.map_values(f))[i] by {
                if i > 0 {
                    assert(rest[i - 1] == ls[i]);
                }
            }
        }
    }
}

/// A line that one namespace claims: it has a separator and its value
/// passes the namespace's test.
spec fn line_mine(l: Seq<u8>, accept: spec_fn(Seq<u8>) -> bool) -> bool {
    line_has_sep(l) && accept(line_val(l))
}

/// Some claimed line carries exactly this pair.
spec fn mine_with_pair<V>(
    lines: Seq<Seq<u8>>,
    accept: spec_fn(Seq<u8>) -> bool,
    val: spec_fn(Seq<u8>) -> V,
    k: Seq<u8>,
    v: V,
) -> bool {
    exists|i: int|
        0 <= i < lines.len() && line_mine(#[trigger] lines[i], accept) && line_key(lines[i]) == k
            && val(line_val(lines[i])) == v
}

/// Some claimed line carries this key.
spec fn has_mine_key(lines: Seq<Seq<u8>>, accept: spec_fn(Seq<u8>) -> bool, k: Seq<u8>) -> bool {
    exists|i: int|
        0 <= i < lines.len() && line_mine(#[trigger] lines[i], accept) && line_key(lines[i]) == k
}

/// What a parsed namespace holds comes from claimed lines, and every
/// claimed line leaves its key present.
proof fn lemma_parse_ns_members<V>(
    lines: Seq<Seq<u8>>,
    accept: spec_fn(Seq<u8>) -> bool,
    val: spec_fn(Seq<u8>) -> V,
)
    ensures
        forall|k: Seq<u8>| #[trigger]
            parse_ns(lines, accept, val).contains_key(k) ==> mine_with_pair(
                lines,
                accept,
                val,
                k,
                parse_ns(lines, accept, val)[k],
            ),
        forall|i: int|
            0 <= i < lines.len() && line_mine(#[trigger] lines[i], accept) ==> parse_ns(
                lines,
                accept,
                val,
            ).contains_key(line_key(lines[i])),
    decreases lines.len(),
{
    if lines.len() > 0 {
        let pre = lines.drop_last();
        lemma_parse_ns_members(pre, accept, val);
        let l = lines.last();
        let m0 = parse_ns(pre, accept, val);
        let m = parse_ns(lines, accept, val);
        assert(forall|i: int| 0 <= i < pre.len() ==> pre[i] == lines[i]);
        assert forall|k: Seq<u8>| #[trigger] m.contains_key(k) implies mine_with_pair(
            lines,
            accept,
            val,
            k,
            m[k],
        ) by {
            if line_mine(l, accept) && k == line_key(l) {
                assert(lines[lines.len() - 1] == l);
                assert(m[k] == val(line_val(l)));
                assert(mine_with_pair(lines, accept, val, k, m[k])) by {
                    assert(line_mine(lines[lines.len() - 1], accept) && line_key(
                        lines[lines.len() - 1],
                    ) == k && val(line_val(lines[lines.len() - 1])) == m[k]);
                }
            } else {
                assert(m0.contains_key(k) && m[k] == m0[k]);
                let i = choose|i: int|
                    0 <= i < pre.len() && line_mine(#[trigger] pre[i], accept) && line_key(pre[i])
                        == k && val(line_val(pre[i])) == m0[k];
                assert(lines[i] == pre[i]);
                assert(mine_with_pair(lines, accept, val, k, m[k])) by {
                    assert(line_mine(lines[i], accept) && line_key(lines[i]) == k && val(
                        line_val(lines[i]),
                    ) == m[k]);
                }
            }
        }
        assert forall|i: int|
            0 <= i < lines.len() && line_mine(#[trigger] lines[i], accept) implies m.contains_key(
            line_key(lines[i]),
        ) by {
            if i < lines.len() - 1 {
                assert(pre[i] == lines[i]);
                assert(m0.contains_key(line_key(pre[i])));
            } else {
                assert(lines[i] == l);
            }
        }
    }
}

/// A parsed namespace is pinned by its lines: if every claimed line's
/// pair is in `m`, and every key of `m` has a claimed line, the parse
/// is exactly `m`.
proof fn lemma_parse_ns_exact<V>(
    lines: Seq<Seq<u8>>,
    accept: spec_fn(Seq<u8>) -> bool,
    val: spec_fn(Seq<u8>) -> V,
    m: Map<Seq<u8>, V>,
)
    requires
        forall|i: int|
            0 <= i < lines.len() && line_mine(#[trigger] lines[i], accept) ==> m.contains_pair(
                line_key(lines[i]),
                val(line_val(lines[i])),
            ),
        forall|k: Seq<u8>| #[trigger] m.contains_key(k) ==> has_mine_key(lines, accept, k),
    ensures
        parse_ns(lines, accept, val) == m,
{
    lemma_parse_ns_members(lines, accept, val);
    let p = parse_ns(lines, accept, val);
    assert forall|k: Seq<u8>| #[trigger] p.contains_key(k) implies m.contains_key(k) && p[k]
        == m[k] by {
        let i = choose|i: int|
            0 <= i < lines.len() && line_mine(#[trigger] lines[i], accept) && line_key(lines[i])
                == k && val(line_val(lines[i])) == p[k];
        assert(m.contains_pair(k, p[k]));
    }
    assert forall|k: Seq<u8>| #[trigger] m.contains_key(k) implies p.contains_key(k) by {
        let i = choose|i: int|
            0 <= i < lines.len() && line_mine(#[trigger] lines[i], accept) && line_key(lines[i])
                == k;
        assert(p.contains_key(line_key(lines[i])));
    }
    assert(p =~= m);
}

/// `l` is the rendered line of some boolean entry.
spec fn is_bool_line(c: Config, l: Seq<u8>) -> bool {
    exists|j: int|
        0 <= j < c.bools_entries().len() && l == render_line(
            (#[trigger] c.bools_entries()[j]).0,
            bool_text(c.bools_entries()[j].1),
        )
}

/// `l` is the rendered line of some number entry.
spec fn is_number_line(c: Config, l: Seq<u8>) -> bool {
    exists|j: int|
        0 <= j < c.numbers_entries().len() && l == render_line(
            (#[trigger] c.numbers_entries()[j]).0,
            c.numbers_entries()[j].1,
        )
}

/// `l` is the rendered line of some string entry.
spec fn is_string_line(c: Config, l: Seq<u8>) -> bool {
    exists|j: int|
        0 <= j < c.strings_entries().len() && l == render_line(
            (#[trigger] c.strings_entries()[j]).0,
            c.strings_entries()[j].1,
        )
}

/// Every line of the store is a rendered entry of one namespace.
proof fn lemma_line_cases(c: Config, l: Seq<u8>)
    requires
        all_lines(c).contains(l),
    ensures
        is_bool_line(c, l) || is_number_line(c, l) || is_string_line(c, l),
{
    let fb = |e: (Seq<u8>, bool)| render_line(e.0, bool_text(e.1));
    let fv = |e: (Seq<u8>, Seq<u8>)| render_line(e.0, e.1);
    let bl = c.bools_entries().map_values(fb);
    let nl = c.numbers_entries().map_values(fv);
    let sl = c.strings_entries().map_values(fv);
    assert(all_lines(c) == bl + nl + sl);
    let idx = choose|i: int| 0 <= i < all_lines(c).len() && all_lines(c)[i] == l;
    if idx < bl.len() {
        assert(bl[idx] == l);
        assert(l == render_line(c.bools_entries()[idx].0, bool_text(c.bools_entries()[idx].1)));
    } else if idx < bl.len() + nl.len() {
        let j = idx - bl.len();
        assert(nl[j] == l);
        assert(l == render_line(c.numbers_entries()[j].0, c.numbers_entries()[j].1));
    } else {
        let j = idx - bl.len() - nl.len();
        assert(sl[j] == l);
        assert(l == render_line(c.strings_entries()[j].0, c.strings_entries()[j].1));
    }
}

/// What decoding a rendered entry line gives back, per namespace.
proof fn lemma_line_facts(c: Config, l: Seq<u8>)
    requires
        c.wf(),
        round_trip_safe(c),
        is_bool_line(c, l) || is_number_line(c, l) || is_string_line(c, l),
    ensures
        nl_terminated(l),
        line_has_sep(l.drop_last()),
        is_bool_line(c, l) ==> c.bools_map().contains_pair(
            line_key(l.drop_last()),
            bool_of_text(line_val(l.drop_last())),
        ) && is_bool_text(line_val(l.drop_last())),
        is_number_line(c, l) ==> c.numbers_map().contains_pair(
            line_key(l.drop_last()),
            line_val(l.drop_last()),
        ) && !is_bool_text(line_val(l.drop_last())) && is_number_text(line_val(l.drop_last())),
        is_string_line(c, l) ==> c.strings_map().contains_pair(
            line_key(l.drop_last()),
            line_val(l.drop_last()),
        ) && !is_bool_text(line_val(l.drop_last())) && !is_number_text(line_val(l.drop_last())),
{
    if is_bool_line(c, l) {
        let j = choose|j: int|
            0 <= j < c.bools_entries().len() && l == render_line(
                (#[trigger] c.bools_entries()[j]).0,
                bool_text(c.bools_entries()[j].1),
            );
        let e = c.bools_entries()[j];
        assert(key_ok(e.0));
        lemma_bool_text_facts(e.1);
        lemma_render_decode(e.0, bool_text(e.1));
        lemma_map_of_pair(c.bools_entries(), e.0, e.1);
        assert(c.bools_entries().contains((e.0, e.1))) by {
            assert(c.bools_entries()[j] == (e.0, e.1));
        }
    }
    if is_number_line(c, l) {
        let j = choose|j: int|
            0 <= j < c.numbers_entries().len() && l == render_line(
                (#[trigger] c.numbers_entries()[j]).0,
                c.numbers_entries()[j].1,
            );
        let e = c.numbers_entries()[j];
        assert(key_ok(e.0));
        assert(is_number_text(e.1));
        lemma_number_val_ok(e.1);
        lemma_render_decode(e.0, e.1);
        lemma_map_of_pair(c.numbers_entries(), e.0, e.1);
        assert(c.numbers_entries().contains((e.0, e.1))) by {
            assert(c.numbers_entries()[j] == (e.0, e.1));
        }
    }
    if is_string_line(c, l) {
        let j = choose|j: int|
            0 <= j < c.strings_entries().len() && l == render_line(
                (#[trigger] c.strings_entries()[j]).0,
                c.strings_entries()[j].1,
            );
        let e = c.strings_entries()[j];
        assert(key_ok(e.0));
        assert(str_val_ok(e.1));
        lemma_render_decode(e.0, e.1);
        lemma_map_of_pair(c.strings_entries(), e.0, e.1);
        assert(c.strings_entries().contains((e.0, e.1))) by {
            assert(c.strings_entries()[j] == (e.0, e.1));
        }
    }
}

/// Round-trip idempotence: for a well-formed store within the format's
/// limits, parsing the saved file yields namespaces equal to the
/// store's own — what `load` of `save`'s bytes reconstructs.
pub proof fn lemma_save_load_round_trip(c: Config)
    requires
        c.wf(),
        round_trip_safe(c),
    ensures
        parse_bools(split_lines(file_spec(c))) == c.bools_map(),
        parse_numbers(split_lines(file_spec(c))) == c.numbers_map(),
        parse_strings(split_lines(file_spec(c))) == c.strings_map(),
{
    broadcast use vstd::seq_lib::group_to_multiset_ensures;

    let leq = lex_leq_fn();
    lemma_lex_total_ordering();
    let lines0 = all_lines(c);
    let sorted = lines0.sort_by(leq);
    lines0.lemma_sort_by_ensures(leq);
    assert forall|l: Seq<u8>| #[trigger] sorted.contains(l) implies lines0.contains(l) by {
        assert(sorted.to_multiset().count(l) > 0);
        assert(lines0.to_multiset().count(l) > 0);
    }
    assert forall|l: Seq<u8>| #[trigger] lines0.contains(l) implies sorted.contains(l) by {
        assert(lines0.to_multiset().count(l) > 0);
        assert(sorted.to_multiset().count(l) > 0);
    }
    let fb = |e: (Seq<u8>, bool)| render_line(e.0, bool_text(e.1));
    let fv = |e: (Seq<u8>, Seq<u8>)| render_line(e.0, e.1);
    let bl = c.bools_entries().map_values(fb);
    let nl = c.numbers_entries().map_values(fv);
    let sl = c.strings_entries().map_values(fv);
    assert(lines0 == bl + nl + sl);
    assert forall|i: int| 0 <= i < sorted.len() implies nl_terminated(#[trigger] sorted[i]) by {
        assert(sorted.contains(sorted[i]));
        lemma_line_cases(c, sorted[i]);
        lemma_line_facts(c, sorted[i]);
    }
    lemma_split_flatten(sorted);
    let dl = |l: Seq<u8>| l.drop_last();
    let bodies = sorted.map_values(dl);
    assert(file_spec(c) == sorted.flatten());
    assert(split_lines(file_spec(c)) == bodies);
    assert(forall|i: int| 0 <= i < bodies.len() ==> #[trigger] bodies[i] == sorted[i].drop_last());

    // The boolean namespace.
    assert forall|i: int|
        0 <= i < bodies.len() && line_mine(#[trigger] bodies[i], accept_bool()) implies c.bools_map().contains_pair(
        line_key(bodies[i]),
        bool_val()(line_val(bodies[i])),
    ) by {
        assert(sorted.contains(sorted[i]));
        lemma_line_cases(c, sorted[i]);
        lemma_line_facts(c, sorted[i]);
        assert(is_bool_line(c, sorted[i]));
    }
    assert forall|k: Seq<u8>| #[trigger] c.bools_map().contains_key(k) implies has_mine_key(
        bodies,
        accept_bool(),
        k,
    ) by {
        let m = c.bools_map();
        lemma_map_of_pair(c.bools_entries(), k, m[k]);
        let j = choose|j: int|
            0 <= j < c.bools_entries().len() && #[trigger] c.bools_entries()[j] == (k, m[k]);
        let l = render_line(k, bool_text(m[k]));
        assert(bl[j] == l);
        assert(lines0[j] == l);
        assert(lines0.contains(l)) by {
            assert(lines0[j] == l);
        }
        assert(sorted.contains(l));
        let i = choose|i: int| 0 <= i < sorted.len() && sorted[i] == l;
        assert(key_ok(k)) by {
            assert((#[trigger] c.bools_entries()[j]).0 == k);
        }
        lemma_bool_text_facts(m[k]);
        lemma_render_decode(k, bool_text(m[k]));
        assert(bodies[i] == l.drop_last());
        assert(line_mine(bodies[i], accept_bool()) && line_key(bodies[i]) == k);
    }
    lemma_parse_ns_exact(bodies, accept_bool(), bool_val(), c.bools_map());

    // The number namespace.
    assert forall|i: int|
        0 <= i < bodies.len() && line_mine(#[trigger] bodies[i], accept_number()) implies c.numbers_map().contains_pair(
        line_key(bodies[i]),
        id_val()(line_val(bodies[i])),
    ) by {
        assert(sorted.contains(sorted[i]));
        lemma_line_cases(c, sorted[i]);
        lemma_line_facts(c, sorted[i]);
        assert(is_number_line(c, sorted[i]));
    }
    assert forall|k: Seq<u8>| #[trigger] c.numbers_map().contains_key(k) implies has_mine_key(
        bodies,
        accept_number(),
        k,
    ) by {
        let m = c.numbers_map();
        lemma_map_of_pair(c.numbers_entries(), k, m[k]);
        let j = choose|j: int|
            0 <= j < c.numbers_entries().len() && #[trigger] c.numbers_entries()[j] == (k, m[k]);
        let l = render_line(k, m[k]);
        assert(nl[j] == l);
        assert(lines0[bl.len() + j] == l);
        assert(lines0.contains(l)) by {
            assert(lines0[bl.len() + j] == l);
        }
        assert(sorted.contains(l));
        let i = choose|i: int| 0 <= i < sorted.len() && sorted[i] == l;
        assert(key_ok(k)) by {
            assert((#[trigger] c.numbers_entries()[j]).0 == k);
        }
        assert(is_number_text(m[k])) by {
            assert((#[trigger] c.numbers_entries()[j]).1 == m[k]);
        }
        lemma_number_val_ok(m[k]);
        lemma_render_decode(k, m[k]);
        assert(bodies[i] == l.drop_last());
        assert(line_mine(bodies[i], accept_number()) && line_key(bodies[i]) == k);
    }
    lemma_parse_ns_exact(bodies, accept_number(), id_val(), c.numbers_map());

    // The string namespace.
    assert forall|i: int|
        0 <= i < bodies.len() && line_mine(#[trigger] bodies[i], accept_string()) implies c.strings_map().contains_pair(
        line_key(bodies[i]),
        id_val()(line_val(bodies[i])),
    ) by {
        assert(sorted.contains(sorted[i]));
        lemma_line_cases(c, sorted[i]);
        lemma_line_facts(c, sorted[i]);
        assert(is_string_line(c, sorted[i]));
    }
    assert forall|k: Seq<u8>| #[trigger] c.strings_map().contains_key(k) implies has_mine_key(
        bodies,
        accept_string(),
        k,
    ) by {
        let m = c.strings_map();
        lemma_map_of_pair(c.strings_entries(), k, m[k]);
        let j = choose|j: int|
            0 <= j < c.strings_entries().len() && #[trigger] c.strings_entries()[j] == (k, m[k]);
        let l = render_line(k, m[k]);
        assert(sl[j] == l);
        assert(lines0[bl.len() + nl.len() + j] == l);
        assert(lines0.contains(l)) by {
            assert(lines0[bl.len() + nl.len() + j] == l);
        }
        assert(sorted.contains(l));
        let i = choose|i: int| 0 <= i < sorted.len() && sorted[i] == l;
        assert(key_ok(k)) by {
            assert((#[trigger] c.strings_entries()[j]).0 == k);
        }
        assert(str_val_ok(m[k])) by {
            assert((#[trigger] c.strings_entries()[j]).1 == m[k]);
        }
        lemma_render_decode(k, m[k]);
        assert(bodies[i] == l.drop_last());
        assert(line_mine(bodies[i], accept_string()) && line_key(bodies[i]) == k);
    }
    lemma_parse_ns_exact(bodies, accept_string(), id_val(), c.strings_map());
}

} // verus!

//! Textual numbers and boolean literals.
//!
//! A number is carried as its text, validated against the grammar of
//! decimal and exponential literals for single-precision floats:
//! an optional sign, then `inf`, `infinity` or `nan` (case-insensitive),
//! or digits with an optional point and an optional exponent.  The text
//! form keeps the store free of machine floating point while `load` can
//! still classify values exactly as that grammar does.

use vstd::prelude::*;
use crate::text::{is_ws, trim, lemma_trim_id, find, lemma_find_from, subvec};

verus! {

/// An ASCII decimal digit.
pub open spec fn is_digit(b: u8) -> bool {
    48 <= b && b <= 57
}

/// ASCII lower-casing of a single byte.
pub open spec fn lower_byte(b: u8) -> u8 {
    if 65 <= b && b <= 90 {
        (b + 32) as u8
    } else {
        b
    }
}

/// `s` equals `w` up to ASCII case (`w` is already lower case).
pub open spec fn matches_ci(s: Seq<u8>, w: Seq<u8>) -> bool {
    s.len() == w.len() && forall|i: int| 0 <= i < s.len() ==> lower_byte(s[i]) == w[i]
}

/// The bytes of `"inf"`.
pub open spec fn inf_text() -> Seq<u8> {
    seq![105u8, 110u8, 102u8]
}

/// The bytes of `"infinity"`.
pub open spec fn infinity_text() -> Seq<u8> {
    seq![105u8, 110u8, 102u8, 105u8, 110u8, 105u8, 116u8, 121u8]
}

/// The bytes of `"nan"`.
pub open spec fn nan_text() -> Seq<u8> {
    seq![110u8, 97u8, 110u8]
}

/// The bytes of `"true"`.
pub open spec fn true_text() -> Seq<u8> {
    seq![116u8, 114u8, 117u8, 101u8]
}

/// The bytes of `"false"`.
pub open spec fn false_text() -> Seq<u8> {
    seq![102u8, 97u8, 108u8, 115u8, 101u8]
}

/// `s` is the boolean literal `true`, up to ASCII case.
pub open spec fn is_true_text(s: Seq<u8>) -> bool {
    matches_ci(s, true_text())
}

/// `s` is the boolean literal `false`, up to ASCII case.
pub open spec fn is_false_text(s: Seq<u8>) -> bool {
    matches_ci(s, false_text())
}

/// `s` is one of the two boolean literals, up to ASCII case.
pub open spec fn is_bool_text(s: Seq<u8>) -> bool {
    is_true_text(s) || is_false_text(s)
}

/// The boolean a literal denotes.
pub open spec fn bool_of_text(s: Seq<u8>) -> bool {
    is_true_text(s)
}

/// An ASCII sign byte.
pub open spec fn is_sign(b: u8) -> bool {
    b == 43 || b == 45
}

/// `s` without one leading sign byte, if it has one.
pub open spec fn strip_sign(s: Seq<u8>) -> Seq<u8> {
    if s.len() > 0 && is_sign(s[0]) {
        s.drop_first()
    } else {
        s
    }
}

/// Every byte of `s` is a digit.
pub open spec fn all_digits(s: Seq<u8>) -> bool {
    forall|i: int| 0 <= i < s.len() ==> is_digit(s[i])
}

/// An exponent marker, `e` or `E`.
pub open spec fn is_exp_marker(b: u8) -> bool {
    b == 101 || b == 69
}

/// Index of the first exponent marker in `s` at or after `from`,
/// or `s.len()` if there is none.
pub open spec fn find_exp_from(s: Seq<u8>, from: int) -> int
    decreases s.len() - from,
{
    if from >= s.len() {
        s.len() as int
    } else if 0 <= from && is_exp_marker(s[from]) {
        from
    } else {
        find_exp_from(s, from + 1)
    }
}

pub proof fn lemma_find_exp_from(s: Seq<u8>, from: int)
    requires
        0 <= from <= s.len(),
    ensures
        from <= find_exp_from(s, from) <= s.len(),
        find_exp_from(s, from) < s.len() ==> is_exp_marker(s[find_exp_from(s, from)]),
        forall|j: int| from <= j < find_exp_from(s, from) ==> !is_exp_marker(s[j]),
    decreases s.len() - from,
{
    if from < s.len() && !is_exp_marker(s[from]) {
        lemma_find_exp_from(s, from + 1);
    }
}

pub proof fn lemma_find_exp_unique(s: Seq<u8>, from: int, i: int)
    requires
        0 <= from <= i <= s.len(),
        forall|j: int| from <= j < i ==> !is_exp_marker(s[j]),
        i < s.len() ==> is_exp_marker(s[i]),
    ensures
        find_exp_from(s, from) == i,
    decreases i - from,
{
    if from < i {
        assert(!is_exp_marker(s[from]));
        lemma_find_exp_unique(s, from + 1, i);
    }
}

/// The mantissa of a number: digits with an optional point, at least
/// one digit in all.
pub open spec fn is_mantissa(m: Seq<u8>) -> bool {
    let d = find(m, 46);
    if 0 <= d < m.len() {
        m.len() >= 2 && all_digits(m.take(d)) && all_digits(m.skip(d + 1))
    } else {
        m.len() >= 1 && all_digits(m)
    }
}

/// An exponent: an optional sign, then at least one digit.
pub open spec fn is_exp_part(e: Seq<u8>) -> bool {
    let t = strip_sign(e);
    t.len() >= 1 && all_digits(t)
}

/// A mantissa with an optional exponent.
pub open spec fn is_decimal(t: Seq<u8>) -> bool {
    let e = find_exp_from(t, 0);
    if 0 <= e < t.len() {
        is_mantissa(t.take(e)) && is_exp_part(t.skip(e + 1))
    } else {
        is_mantissa(t)
    }
}

/// One of the special values `inf`, `infinity`, `nan`, up to case.
pub open spec fn is_special(t: Seq<u8>) -> bool {
    matches_ci(t, inf_text()) || matches_ci(t, infinity_text()) || matches_ci(t, nan_text())
}

/// `s` is a textual number: an optional sign, then a special value or
/// a decimal with an optional exponent.
pub open spec fn is_number_text(s: Seq<u8>) -> bool {
    let t = strip_sign(s);
    is_special(t) || is_decimal(t)
}

// ---------------------------------------------------------------------
// Executable checks
// ---------------------------------------------------------------------

/// ASCII lower-casing of a single byte.
pub fn lower_byte_x(b: u8) -> (r: u8)
    ensures
        r == lower_byte(b),
{
    if 65 <= b && b <= 90 {
        b + 32
    } else {
        b
    }
}

/// Case-insensitive comparison against an already lower-case word.
pub fn ci_eq(s: &Vec<u8>, w: &Vec<u8>) -> (r: bool)
    ensures
        r == matches_ci(s@, w@),
{
    if s.len() != w.len() {
        return false;
    }
    let mut i: usize = 0;
    while i < s.len()
        invariant
            0 <= i <= s@.len(),
            s@.len() == w@.len(),
            forall|j: int| 0 <= j < i ==> lower_byte(s@[j]) == w@[j],
        decreases s@.len() - i,
    {
        if lower_byte_x(s[i]) != w[i] {
            return false;
        }
        i = i + 1;
    }
    true
}

fn all_digits_range(v: &Vec<u8>, lo: usize, hi: usize) -> (r: bool)
    requires
        lo <= hi <= v@.len(),
    ensures
        r == all_digits(v@.subrange(lo as int, hi as int)),
{
    let ghost sub = v@.subrange(lo as int, hi as int);
    let mut i: usize = lo;
    while i < hi
        invariant
            lo <= i <= hi <= v@.len(),
            sub == v@.subrange(lo as int, hi as int),
            forall|j: int| 0 <= j < i - lo ==> is_digit(sub[j]),
        decreases hi - i,
    {
        if !(48 <= v[i] && v[i] <= 57) {
            assert(sub[i - lo] == v@[i as int]);
            return false;
        }
        i = i + 1;
    }
    true
}

fn is_special_vec(t: &Vec<u8>) -> (r: bool)
    ensures
        r == is_special(t@),
{
    let inf: Vec<u8> = vec![105u8, 110u8, 102u8];
    let infinity: Vec<u8> = vec![105u8, 110u8, 102u8, 105u8, 110u8, 105u8, 116u8, 121u8];
    let nan: Vec<u8> = vec![110u8, 97u8, 110u8];
    proof {
        assert(inf@ =~= inf_text());
        assert(infinity@ =~= infinity_text());
        assert(nan@ =~= nan_text());
    }
    if ci_eq(t, &inf) {
        return true;
    }
    if ci_eq(t, &infinity) {
        return true;
    }
    ci_eq(t, &nan)
}

fn is_mantissa_vec(m: &Vec<u8>) -> (r: bool)
    ensures
        r == is_mantissa(m@),
{
    let d = crate::text::find_byte_from(m, 46, 0);
    if d < m.len() {
        if m.len() < 2 {
            return false;
        }
        let left = all_digits_range(m, 0, d);
        let right = all_digits_range(m, d + 1, m.len());
        proof {
            assert(m@.subrange(0, d as int) =~= m@.take(d as int));
            assert(m@.subrange(d as int + 1, m@.len() as int) =~= m@.skip(d as int + 1));
        }
        left && right
    } else {
        proof {
            assert(m@.subrange(0, m@.len() as int) =~= m@);
        }
        m.len() >= 1 && all_digits_range(m, 0, m.len())
    }
}

fn is_exp_part_vec(e: &Vec<u8>) -> (r: bool)
    ensures
        r == is_exp_part(e@),
{
    let start: usize = if e.len() > 0 && (e[0] == 43 || e[0] == 45) {
        1
    } else {
        0
    };
    proof {
        assert(e@.subrange(start as int, e@.len() as int) =~= strip_sign(e@));
    }
    e.len() - start >= 1 && all_digits_range(e, start, e.len())
}

fn find_exp_vec(t: &Vec<u8>) -> (i: usize)
    ensures
        i as int == find_exp_from(t@, 0),
        i <= t@.len(),
{
    let mut i: usize = 0;
    while i < t.len()
        invariant
            0 <= i <= t@.len(),
            forall|j: int| 0 <= j < i ==> !is_exp_marker(t@[j]),
        decreases t@.len() - i,
    {
        if t[i] == 101 || t[i] == 69 {
            proof {
                lemma_find_exp_unique(t@, 0, i as int);
            }
            return i;
        }
        i = i + 1;
    }
    proof {
        lemma_find_exp_unique(t@, 0, t@.len() as int);
    }
    i
}

fn is_decimal_vec(t: &Vec<u8>) -> (r: bool)
    ensures
        r == is_decimal(t@),
{
    let e = find_exp_vec(t);
    if e < t.len() {
        let mantissa = subvec(t, 0, e);
        let exp = subvec(t, e + 1, t.len());
        proof {
            assert(mantissa@ =~= t@.take(e as int));
            assert(exp@ =~= t@.skip(e as int + 1));
        }
        let ok_m = is_mantissa_vec(&mantissa);
        let ok_e = is_exp_part_vec(&exp);
        ok_m && ok_e
    } else {
        let mantissa = subvec(t, 0, t.len());
        proof {
            assert(mantissa@ =~= t@);
        }
        is_mantissa_vec(&mantissa)
    }
}

/// Whether `v` is a textual number.
pub fn check_number(v: &Vec<u8>) -> (r: bool)
    ensures
        r == is_number_text(v@),
{
    let start: usize = if v.len() > 0 && (v[0] == 43 || v[0] == 45) {
        1
    } else {
        0
    };
    let t = subvec(v, start, v.len());
    proof {
        assert(t@ =~= strip_sign(v@));
    }
    if is_special_vec(&t) {
        return true;
    }
    is_decimal_vec(&t)
}

/// Whether `v` is a boolean literal, and which.
pub fn check_bool(v: &Vec<u8>) -> (r: Option<bool>)
    ensures
        match r {
            Some(b) => is_bool_text(v@) && b == bool_of_text(v@),
            None => !is_bool_text(v@),
        },
{
    let true_lit: Vec<u8> = vec![116u8, 114u8, 117u8, 101u8];
    let false_lit: Vec<u8> = vec![102u8, 97u8, 108u8, 115u8, 101u8];
    proof {
        assert(true_lit@ =~= true_text());
        assert(false_lit@ =~= false_text());
    }
    if ci_eq(v, &true_lit) {
        return Some(true);
    }
    if ci_eq(v, &false_lit) {
        return Some(false);
    }
    None
}

// ---------------------------------------------------------------------
// Facts about the grammar
// ---------------------------------------------------------------------

/// A byte that can occur in a number or boolean literal: not
/// whitespace and not the separator.
pub open spec fn plain_byte(b: u8) -> bool {
    !is_ws(b) && b != 61
}

/// A byte whose lower-case form is a lower-case letter is a letter.
proof fn lemma_letter_byte(b: u8)
    requires
        97 <= lower_byte(b) && lower_byte(b) <= 122,
    ensures
        plain_byte(b),
{
}

/// Every byte of a boolean literal is a letter.
pub proof fn lemma_bool_text_bytes(s: Seq<u8>)
    requires
        is_bool_text(s),
    ensures
        s.len() > 0,
        forall|i: int| 0 <= i < s.len() ==> plain_byte(s[i]),
{
    let w = if is_true_text(s) {
        true_text()
    } else {
        false_text()
    };
    assert forall|i: int| 0 <= i < s.len() implies plain_byte(s[i]) by {
        assert(lower_byte(s[i]) == w[i]);
        assert(97 <= w[i] && w[i] <= 122);
        lemma_letter_byte(s[i]);
    }
}

/// Every byte of a textual number is a digit, sign, point, exponent
/// marker or letter; in particular no whitespace and no separator.
pub proof fn lemma_number_text_bytes(s: Seq<u8>)
    requires
        is_number_text(s),
    ensures
        s.len() > 0,
        forall|i: int| 0 <= i < s.len() ==> plain_byte(s[i]),
{
    let t = strip_sign(s);
    let off: int = if s.len() > 0 && is_sign(s[0]) {
        1
    } else {
        0
    };
    assert(t =~= s.skip(off));
    if is_special(t) {
        let w = if matches_ci(t, inf_text()) {
            inf_text()
        } else if matches_ci(t, infinity_text()) {
            infinity_text()
        } else {
            nan_text()
        };
        assert(forall|i: int| 0 <= i < w.len() ==> 97 <= w[i] && w[i] <= 122);
        assert forall|i: int| 0 <= i < s.len() implies plain_byte(s[i]) by {
            if i >= off {
                assert(s[i] == t[i - off]);
                assert(lower_byte(t[i - off]) == w[i - off]);
                lemma_letter_byte(s[i]);
            }
        }
    } else {
        lemma_decimal_bytes(t);
        assert(t.len() > 0);
        assert forall|i: int| 0 <= i < s.len() implies plain_byte(s[i]) by {
            if i >= off {
                assert(s[i] == t[i - off]);
            }
        }
    }
}

proof fn lemma_mantissa_bytes(m: Seq<u8>)
    requires
        is_mantissa(m),
    ensures
        m.len() > 0,
        forall|i: int| 0 <= i < m.len() ==> is_digit(m[i]) || m[i] == 46,
{
    let d = find(m, 46);
    lemma_find_from(m, 46, 0);
    if 0 <= d < m.len() {
        assert forall|i: int| 0 <= i < m.len() implies is_digit(m[i]) || m[i] == 46 by {
            if i < d {
                assert(m.take(d)[i] == m[i]);
                assert(is_digit(m.take(d)[i]));
            } else if i > d {
                assert(m.skip(d + 1)[i - d - 1] == m[i]);
                assert(is_digit(m.skip(d + 1)[i - d - 1]));
            }
        }
    }
}

proof fn lemma_decimal_bytes(t: Seq<u8>)
    requires
        is_decimal(t),
    ensures
        t.len() > 0,
        forall|i: int| 0 <= i < t.len() ==> plain_byte(t[i]),
{
    let e = find_exp_from(t, 0);
    lemma_find_exp_from(t, 0);
    if 0 <= e < t.len() {
        let m = t.take(e);
        let x = t.skip(e + 1);
        lemma_mantissa_bytes(m);
        let xs = strip_sign(x);
        assert forall|i: int| 0 <= i < t.len() implies plain_byte(t[i]) by {
            if i < e {
                assert(m[i] == t[i]);
                assert(is_digit(m[i]) || m[i] == 46);
            } else if i == e {
                assert(is_exp_marker(t[i]));
            } else {
                assert(x[i - e - 1] == t[i]);
                if x.len() > 0 && is_sign(x[0]) {
                    if i - e - 1 == 0 {
                        assert(is_sign(t[i]));
                    } else {
                        assert(xs[i - e - 2] == x[i - e - 1]);
                        assert(is_digit(xs[i - e - 2]));
                    }
                } else {
                    assert(xs[i - e - 1] == x[i - e - 1]);
                    assert(is_digit(xs[i - e - 1]));
                }
            }
        }
    } else {
        lemma_mantissa_bytes(t);
    }
}

/// A textual number is never a boolean literal.
pub proof fn lemma_number_not_bool(s: Seq<u8>)
    requires
        is_number_text(s),
    ensures
        !is_bool_text(s),
{
    if is_bool_text(s) {
        let w = if is_true_text(s) {
            true_text()
        } else {
            false_text()
        };
        assert(lower_byte(s[0]) == w[0]);
        assert(s[0] == 116 || s[0] == 84 || s[0] == 102 || s[0] == 70);
        let t = strip_sign(s);
        assert(!is_sign(s[0]));
        assert(t =~= s);
        if is_special(t) {
            assert(lower_byte(t[0]) == 105 || lower_byte(t[0]) == 110);
        } else {
            let e = find_exp_from(t, 0);
            lemma_find_exp_from(t, 0);
            let m = if 0 <= e < t.len() {
                t.take(e)
            } else {
                t
            };
            assert(is_mantissa(m));
            lemma_mantissa_bytes(m);
            assert(m.len() > 0);
            assert(m[0] == t[0]);
            assert(is_digit(t[0]) || t[0] == 46);
        }
    }
}

/// Numbers and boolean literals carry no edge whitespace: they trim to
/// themselves.
pub proof fn lemma_value_text_trim(s: Seq<u8>)
    requires
        is_number_text(s) || is_bool_text(s),
    ensures
        trim(s) == s,
{
    if is_number_text(s) {
        lemma_number_text_bytes(s);
    } else {
        lemma_bool_text_bytes(s);
    }
    lemma_trim_id(s);
}

// ---------------------------------------------------------------------
// The number value type
// ---------------------------------------------------------------------

/// A numeric value of the store: text that satisfies the number
/// grammar.
pub struct Number {
    text: Vec<u8>,
}

impl View for Number {
    type V = Seq<u8>;

    closed spec fn view(&self) -> Seq<u8> {
        self.text@
    }
}

impl Number {
    /// The text is a well-formed textual number.
    pub open spec fn wf(&self) -> bool {
        is_number_text(self@)
    }

    /// Validates `text` against the number grammar.
    pub fn new(text: Vec<u8>) -> (r: Option<Number>)
        ensures
            match r {
                Some(n) => n.wf() && n@ == text@,
                None => !is_number_text(text@),
            },
    {
        if check_number(&text) {
            Some(Number { text })
        } else {
            None
        }
    }

    /// Wraps text already known to satisfy the grammar.
    pub(crate) fn from_checked(text: Vec<u8>) -> (r: Number)
        requires
            is_number_text(text@),
        ensures
            r.wf() && r@ == text@,
    {
        Number { text }
    }

    /// The textual form of the number.
    pub fn bytes(&self) -> (r: &Vec<u8>)
        ensures
            r@ == self@,
    {
        &self.text
    }
}

} // verus!

//! The configuration store.
//!
//! A `Config` owns three independent namespaces — strings, numbers and
//! booleans — each a mapping from byte-string keys to values, plus the
//! path of its backing file.  Each namespace is held as a vector of
//! entries with pairwise distinct keys and is viewed, in
//! specifications, as a `Map<Seq<u8>, _>`.
//!
//! Reads materialize their default: `get_X(key, d)` on an absent key
//! inserts `d` and returns it, so the first read pins the value.
//! Writes insert or overwrite unconditionally.  No call here ever
//! touches a namespace other than its own.

use vstd::prelude::*;
use crate::text::{bytes_eq, copy_bytes};
use crate::num::{Number, is_number_text};

verus! {

// ---------------------------------------------------------------------
// Association lists with unique keys, viewed as maps
// ---------------------------------------------------------------------

/// The keys of the entries are pairwise distinct.
pub open spec fn keys_uniq<V>(s: Seq<(Seq<u8>, V)>) -> bool {
    forall|i: int, j: int| 0 <= i < j < s.len() ==> s[i].0 != s[j].0
}

/// Some entry has key `k`.
pub open spec fn has_key<V>(s: Seq<(Seq<u8>, V)>, k: Seq<u8>) -> bool {
    exists|i: int| 0 <= i < s.len() && s[i].0 == k
}

/// The value of the entry with key `k`.
pub open spec fn entry_val<V>(s: Seq<(Seq<u8>, V)>, k: Seq<u8>) -> V {
    let i = choose|i: int| 0 <= i < s.len() && s[i].0 == k;
    s[i].1
}

/// The entries as a mapping from keys to values.
pub open spec fn map_of<V>(s: Seq<(Seq<u8>, V)>) -> Map<Seq<u8>, V> {
    Map::new(|k: Seq<u8>| has_key(s, k), |k: Seq<u8>| entry_val(s, k))
}

/// With unique keys, the entry at index `i` is what the map holds.
pub proof fn lemma_map_of_at<V>(s: Seq<(Seq<u8>, V)>, i: int)
    requires
        keys_uniq(s),
        0 <= i < s.len(),
    ensures
        map_of(s).contains_key(s[i].0),
        map_of(s)[s[i].0] == s[i].1,
{
    assert(has_key(s, s[i].0));
    let j = choose|j: int| 0 <= j < s.len() && s[j].0 == s[i].0;
    assert(j == i);
}

/// With unique keys, the pairs of the map are exactly the entries.
pub proof fn lemma_map_of_pair<V>(s: Seq<(Seq<u8>, V)>, k: Seq<u8>, v: V)
    requires
        keys_uniq(s),
    ensures
        map_of(s).contains_pair(k, v) <==> s.contains((k, v)),
{
    if map_of(s).contains_pair(k, v) {
        let i = choose|i: int| 0 <= i < s.len() && s[i].0 == k;
        lemma_map_of_at(s, i);
        assert(s[i] == (k, v));
    }
    if s.contains((k, v)) {
        let i = choose|i: int| 0 <= i < s.len() && s[i] == (k, v);
        assert(s[i].0 == k && s[i].1 == v);
        lemma_map_of_at(s, i);
    }
}

/// Appending an entry with a fresh key inserts it into the map.
pub proof fn lemma_push_entry<V>(s: Seq<(Seq<u8>, V)>, k: Seq<u8>, v: V)
    requires
        keys_uniq(s),
        !has_key(s, k),
    ensures
        keys_uniq(s.push((k, v))),
        map_of(s.push((k, v))) == map_of(s).insert(k, v),
{
    let t = s.push((k, v));
    assert(forall|i: int| 0 <= i < s.len() ==> s[i].0 != k);
    assert(forall|i: int| 0 <= i < s.len() ==> t[i] == s[i]);
    assert(t[s.len() as int] == (k, v));
    assert forall|k2: Seq<u8>| #[trigger] has_key(t, k2) implies has_key(s, k2) || k2 == k by {
        let i = choose|i: int| 0 <= i < t.len() && t[i].0 == k2;
        if i < s.len() {
            assert(s[i].0 == k2);
        }
    }
    assert forall|k2: Seq<u8>| has_key(s, k2) implies #[trigger] has_key(t, k2) by {
        let i = choose|i: int| 0 <= i < s.len() && s[i].0 == k2;
        assert(t[i].0 == k2);
    }
    assert(has_key(t, k));
    assert forall|k2: Seq<u8>| #[trigger] has_key(t, k2) implies map_of(t)[k2] == map_of(
        s,
    ).insert(k, v)[k2] by {
        if k2 == k {
            lemma_map_of_at(t, s.len() as int);
        } else {
            let i = choose|i: int| 0 <= i < s.len() && s[i].0 == k2;
            lemma_map_of_at(s, i);
            lemma_map_of_at(t, i);
        }
    }
    assert(map_of(t) =~= map_of(s).insert(k, v));
}

/// Removing the entry that holds `k` and appending a new value for `k`
/// overwrites it in the map.
pub proof fn lemma_replace_entry<V>(s: Seq<(Seq<u8>, V)>, i: int, k: Seq<u8>, v: V)
    requires
        keys_uniq(s),
        0 <= i < s.len(),
        s[i].0 == k,
    ensures
        keys_uniq(s.remove(i).push((k, v))),
        map_of(s.remove(i).push((k, v))) == map_of(s).insert(k, v),
{
    let r = s.remove(i);
    assert(forall|j: int|
        0 <= j < r.len() ==> r[j] == (if j < i {
            s[j]
        } else {
            s[j + 1]
        }));
    assert forall|a: int, b: int| 0 <= a < b < r.len() implies r[a].0 != r[b].0 by {
        let a2: int = if a < i {
            a
        } else {
            a + 1
        };
        let b2: int = if b < i {
            b
        } else {
            b + 1
        };
        assert(r[a] == s[a2] && r[b] == s[b2]);
        assert(a2 < b2);
    }
    assert forall|j: int| 0 <= j < r.len() implies r[j].0 != k by {
        let j2: int = if j < i {
            j
        } else {
            j + 1
        };
        assert(r[j] == s[j2] && j2 != i);
    }
    assert(!has_key(r, k));
    lemma_push_entry(r, k, v);
    assert forall|k2: Seq<u8>| #[trigger] has_key(r, k2) implies has_key(s, k2) && k2 != k by {
        let j = choose|j: int| 0 <= j < r.len() && r[j].0 == k2;
        let j2: int = if j < i {
            j
        } else {
            j + 1
        };
        assert(s[j2].0 == k2);
    }
    assert forall|k2: Seq<u8>| has_key(s, k2) && k2 != k implies #[trigger] has_key(r, k2) by {
        let j = choose|j: int| 0 <= j < s.len() && s[j].0 == k2;
        assert(j != i);
        let j2: int = if j < i {
            j
        } else {
            j - 1
        };
        assert(r[j2].0 == k2);
    }
    assert forall|k2: Seq<u8>| #[trigger] has_key(r, k2) implies map_of(r)[k2] == map_of(s)[k2] by {
        let j = choose|j: int| 0 <= j < r.len() && r[j].0 == k2;
        let j2: int = if j < i {
            j
        } else {
            j + 1
        };
        assert(r[j] == s[j2]);
        lemma_map_of_at(r, j);
        lemma_map_of_at(s, j2);
    }
    assert(map_of(r).insert(k, v) =~= map_of(s).insert(k, v));
}

// ---------------------------------------------------------------------
// Entry vectors and their views
// ---------------------------------------------------------------------

/// The views of byte-valued entries.
pub open spec fn kv_views(s: Seq<(Vec<u8>, Vec<u8>)>) -> Seq<(Seq<u8>, Seq<u8>)> {
    s.map_values(|e: (Vec<u8>, Vec<u8>)| (e.0@, e.1@))
}

/// The views of boolean-valued entries.
pub open spec fn kb_views(s: Seq<(Vec<u8>, bool)>) -> Seq<(Seq<u8>, bool)> {
    s.map_values(|e: (Vec<u8>, bool)| (e.0@, e.1))
}

/// Index of the entry with key `key`, if any.
fn find_entry_bytes(entries: &Vec<(Vec<u8>, Vec<u8>)>, key: &Vec<u8>) -> (r: Option<usize>)
    ensures
        match r {
            Some(i) => i < entries@.len() && entries@[i as int].0@ == key@,
            None => !has_key(kv_views(entries@), key@),
        },
{
    let mut i: usize = 0;
    while i < entries.len()
        invariant
            0 <= i <= entries@.len(),
            forall|j: int| 0 <= j < i ==> entries@[j].0@ != key@,
        decreases entries@.len() - i,
    {
        if bytes_eq(&entries[i].0, key) {
            return Some(i);
        }
        i = i + 1;
    }
    proof {
        assert(forall|j: int| 0 <= j < kv_views(entries@).len() ==> kv_views(entries@)[j].0
            != key@);
    }
    None
}

/// Index of the boolean entry with key `key`, if any.
fn find_entry_bool(entries: &Vec<(Vec<u8>, bool)>, key: &Vec<u8>) -> (r: Option<usize>)
    ensures
        match r {
            Some(i) => i < entries@.len() && entries@[i as int].0@ == key@,
            None => !has_key(kb_views(entries@), key@),
        },
{
    let mut i: usize = 0;
    while i < entries.len()
        invariant
            0 <= i <= entries@.len(),
            forall|j: int| 0 <= j < i ==> entries@[j].0@ != key@,
        decreases entries@.len() - i,
    {
        if bytes_eq(&entries[i].0, key) {
            return Some(i);
        }
        i = i + 1;
    }
    proof {
        assert(forall|j: int| 0 <= j < kb_views(entries@).len() ==> kb_views(entries@)[j].0
            != key@);
    }
    None
}

/// Inserts or overwrites `value` under `key`.
fn set_entry_bytes(entries: &mut Vec<(Vec<u8>, Vec<u8>)>, key: &Vec<u8>, value: Vec<u8>)
    requires
        keys_uniq(kv_views(old(entries)@)),
    ensures
        keys_uniq(kv_views(final(entries)@)),
        map_of(kv_views(final(entries)@)) == map_of(kv_views(old(entries)@)).insert(key@, value@),
        forall|i: int|
            0 <= i < final(entries)@.len() ==> (#[trigger] final(entries)@[i].1@) == value@
                || exists|j: int|
                0 <= j < old(entries)@.len() && old(entries)@[j].1@ == final(entries)@[i].1@,
{
    let ghost old_views = kv_views(entries@);
    let k = copy_bytes(key);
    match find_entry_bytes(entries, key) {
        Some(i) => {
            proof {
                lemma_replace_entry(old_views, i as int, key@, value@);
            }
            let _ = entries.remove(i);
            entries.push((k, value));
            proof {
                assert(kv_views(entries@) =~= old_views.remove(i as int).push((key@, value@)));
                assert forall|a: int| 0 <= a < entries@.len() implies entries@[a].1@ == value@
                    || exists|j: int|
                    0 <= j < old(entries)@.len() && old(entries)@[j].1@ == #[trigger] entries@[a].1@ by {
                    if a < entries@.len() - 1 {
                        let j: int = if a < i {
                            a
                        } else {
                            a + 1
                        };
                        assert(old(entries)@[j].1@ == entries@[a].1@);
                    }
                }
            }
        },
        None => {
            proof {
                lemma_push_entry(old_views, key@, value@);
            }
            entries.push((k, value));
            proof {
                assert(kv_views(entries@) =~= old_views.push((key@, value@)));
                assert forall|a: int| 0 <= a < entries@.len() implies entries@[a].1@ == value@
                    || exists|j: int|
                    0 <= j < old(entries)@.len() && old(entries)@[j].1@ == #[trigger] entries@[a].1@ by {
                    if a < entries@.len() - 1 {
                        assert(old(entries)@[a].1@ == entries@[a].1@);
                    }
                }
            }
        },
    }
}

/// Inserts or overwrites `value` under `key`.
fn set_entry_bool(entries: &mut Vec<(Vec<u8>, bool)>, key: &Vec<u8>, value: bool)
    requires
        keys_uniq(kb_views(old(entries)@)),
    ensures
        keys_uniq(kb_views(final(entries)@)),
        map_of(kb_views(final(entries)@)) == map_of(kb_views(old(entries)@)).insert(key@, value),
{
    let ghost old_views = kb_views(entries@);
    let k = copy_bytes(key);
    match find_entry_bool(entries, key) {
        Some(i) => {
            proof {
                lemma_replace_entry(old_views, i as int, key@, value);
            }
            let _ = entries.remove(i);
            entries.push((k, value));
            proof {
                assert(kb_views(entries@) =~= old_views.remove(i as int).push((key@, value)));
            }
        },
        None => {
            proof {
                lemma_push_entry(old_views, key@, value);
            }
            entries.push((k, value));
            proof {
                assert(kb_views(entries@) =~= old_views.push((key@, value)));
            }
        },
    }
}

/// Inserting a value that satisfies the number grammar keeps every
/// stored number value satisfying it.
proof fn lemma_numbers_wf_preserved(
    pre: Seq<(Vec<u8>, Vec<u8>)>,
    post: Seq<(Vec<u8>, Vec<u8>)>,
    v: Seq<u8>,
)
    requires
        forall|i: int| 0 <= i < kv_views(pre).len() ==> is_number_text(#[trigger] kv_views(pre)[i].1),
        is_number_text(v),
        forall|i: int|
            0 <= i < post.len() ==> (#[trigger] post[i].1@) == v || exists|j: int|
                0 <= j < pre.len() && pre[j].1@ == post[i].1@,
    ensures
        forall|i: int|
            0 <= i < kv_views(post).len() ==> is_number_text(#[trigger] kv_views(post)[i].1),
{
    assert forall|i: int| 0 <= i < kv_views(post).len() implies is_number_text(
        #[trigger] kv_views(post)[i].1,
    ) by {
        assert(kv_views(post)[i].1 == post[i].1@);
        if post[i].1@ != v {
            let j = choose|j: int| 0 <= j < pre.len() && pre[j].1@ == post[i].1@;
            assert(kv_views(pre)[j].1 == pre[j].1@);
            assert(is_number_text(kv_views(pre)[j].1));
        }
    }
}

// ---------------------------------------------------------------------
// Reading with a default, in the abstract
// ---------------------------------------------------------------------

/// What a read with a default returns: the stored value if the key is
/// present, the default otherwise.
pub open spec fn read_result<V>(m: Map<Seq<u8>, V>, k: Seq<u8>, d: V) -> V {
    if m.contains_key(k) {
        m[k]
    } else {
        d
    }
}

/// The namespace after a read with a default: the returned value is
/// materialized under the key.
pub open spec fn read_map<V>(m: Map<Seq<u8>, V>, k: Seq<u8>, d: V) -> Map<Seq<u8>, V> {
    m.insert(k, read_result(m, k, d))
}

// ---------------------------------------------------------------------
// The store
// ---------------------------------------------------------------------

/// A typed configuration store: three independent namespaces and the
/// path of the backing file.
pub struct Config {
    strings: Vec<(Vec<u8>, Vec<u8>)>,
    numbers: Vec<(Vec<u8>, Vec<u8>)>,
    bools: Vec<(Vec<u8>, bool)>,
    path: String,
}

impl Config {
    /// The string entries, in insertion order.
    pub closed spec fn strings_entries(&self) -> Seq<(Seq<u8>, Seq<u8>)> {
        kv_views(self.strings@)
    }

    /// The number entries (values in textual form), in insertion order.
    pub closed spec fn numbers_entries(&self) -> Seq<(Seq<u8>, Seq<u8>)> {
        kv_views(self.numbers@)
    }

    /// The boolean entries, in insertion order.
    pub closed spec fn bools_entries(&self) -> Seq<(Seq<u8>, bool)> {
        kb_views(self.bools@)
    }

    /// The string namespace.
    pub open spec fn strings_map(&self) -> Map<Seq<u8>, Seq<u8>> {
        map_of(self.strings_entries())
    }

    /// The number namespace; values are textual numbers.
    pub open spec fn numbers_map(&self) -> Map<Seq<u8>, Seq<u8>> {
        map_of(self.numbers_entries())
    }

    /// The boolean namespace.
    pub open spec fn bools_map(&self) -> Map<Seq<u8>, bool> {
        map_of(self.bools_entries())
    }

    /// The path of the backing file.
    pub closed spec fn path_view(&self) -> Seq<char> {
        self.path@
    }

    /// Well-formedness: keys are unique within each namespace, and
    /// every stored number value satisfies the number grammar.
    pub open spec fn wf(&self) -> bool {
        &&& keys_uniq(self.strings_entries())
        &&& keys_uniq(self.numbers_entries())
        &&& keys_uniq(self.bools_entries())
        &&& forall|i: int|
            0 <= i < self.numbers_entries().len() ==> is_number_text(
                #[trigger] self.numbers_entries()[i].1,
            )
    }

    /// A store with all three namespaces empty.
    pub fn new(path: String) -> (c: Config)
        ensures
            c.wf(),
            c.strings_map() == Map::<Seq<u8>, Seq<u8>>::empty(),
            c.numbers_map() == Map::<Seq<u8>, Seq<u8>>::empty(),
            c.bools_map() == Map::<Seq<u8>, bool>::empty(),
            c.strings_entries() == Seq::<(Seq<u8>, Seq<u8>)>::empty(),
            c.numbers_entries() == Seq::<(Seq<u8>, Seq<u8>)>::empty(),
            c.bools_entries() == Seq::<(Seq<u8>, bool)>::empty(),
            c.path_view() == path@,
    {
        let c = Config { strings: Vec::new(), numbers: Vec::new(), bools: Vec::new(), path };
        proof {
            assert(c.strings_entries() =~= Seq::<(Seq<u8>, Seq<u8>)>::empty());
            assert(c.numbers_entries() =~= Seq::<(Seq<u8>, Seq<u8>)>::empty());
            assert(c.bools_entries() =~= Seq::<(Seq<u8>, bool)>::empty());
            assert(c.strings_map() =~= Map::<Seq<u8>, Seq<u8>>::empty());
            assert(c.numbers_map() =~= Map::<Seq<u8>, Seq<u8>>::empty());
            assert(c.bools_map() =~= Map::<Seq<u8>, bool>::empty());
        }
        c
    }

    /// The boolean entry vector, for rendering.
    pub(crate) fn bools_vec(&self) -> (r: &Vec<(Vec<u8>, bool)>)
        ensures
            kb_views(r@) == self.bools_entries(),
    {
        &self.bools
    }

    /// The number entry vector, for rendering.
    pub(crate) fn numbers_vec(&self) -> (r: &Vec<(Vec<u8>, Vec<u8>)>)
        ensures
            kv_views(r@) == self.numbers_entries(),
    {
        &self.numbers
    }

    /// The string entry vector, for rendering.
    pub(crate) fn strings_vec(&self) -> (r: &Vec<(Vec<u8>, Vec<u8>)>)
        ensures
            kv_views(r@) == self.strings_entries(),
    {
        &self.strings
    }

    /// The path of the backing file.
    pub fn path(&self) -> (p: &String)
        ensures
            p@ == self.path_view(),
    {
        &self.path
    }

    /// The stored string for `key`, or `default`, which is then
    /// materialized in the string namespace.
    pub fn get_string(&mut self, key: &Vec<u8>, default: &Vec<u8>) -> (result: Vec<u8>)
        requires
            old(self).wf(),
        ensures
            final(self).wf(),
            result@ == read_result(old(self).strings_map(), key@, default@),
            final(self).strings_map() == read_map(old(self).strings_map(), key@, default@),
            final(self).numbers_entries() == old(self).numbers_entries(),
            final(self).bools_entries() == old(self).bools_entries(),
            final(self).path_view() == old(self).path_view(),
    {
        let result = match find_entry_bytes(&self.strings, key) {
            Some(i) => {
                proof {
                    lemma_map_of_at(self.strings_entries(), i as int);
                }
                copy_bytes(&self.strings[i].1)
            },
            None => copy_bytes(default),
        };
        let stored = copy_bytes(&result);
        set_entry_bytes(&mut self.strings, key, stored);
        result
    }

    /// The stored number for `key`, or `default`, which is then
    /// materialized in the number namespace.
    pub fn get_number(&mut self, key: &Vec<u8>, default: &Number) -> (result: Number)
        requires
            old(self).wf(),
            default.wf(),
        ensures
            final(self).wf(),
            result.wf(),
            result@ == read_result(old(self).numbers_map(), key@, default@),
            final(self).numbers_map() == read_map(old(self).numbers_map(), key@, default@),
            final(self).strings_entries() == old(self).strings_entries(),
            final(self).bools_entries() == old(self).bools_entries(),
            final(self).path_view() == old(self).path_view(),
    {
        let text = match find_entry_bytes(&self.numbers, key) {
            Some(i) => {
                proof {
                    lemma_map_of_at(self.numbers_entries(), i as int);
                }
                copy_bytes(&self.numbers[i].1)
            },
            None => copy_bytes(default.bytes()),
        };
        let stored = copy_bytes(&text);
        set_entry_bytes(&mut self.numbers, key, stored);
        proof {
            lemma_numbers_wf_preserved(old(self).numbers@, self.numbers@, text@);
        }
        Number::from_checked(text)
    }

    /// The stored boolean for `key`, or `default`, which is then
    /// materialized in the boolean namespace.
    pub fn get_bool(&mut self, key: &Vec<u8>, default: &bool) -> (result: bool)
        requires
            old(self).wf(),
        ensures
            final(self).wf(),
            result == read_result(old(self).bools_map(), key@, *default),
            final(self).bools_map() == read_map(old(self).bools_map(), key@, *default),
            final(self).strings_entries() == old(self).strings_entries(),
            final(self).numbers_entries() == old(self).numbers_entries(),
            final(self).path_view() == old(self).path_view(),
    {
        let result = match find_entry_bool(&self.bools, key) {
            Some(i) => {
                proof {
                    lemma_map_of_at(self.bools_entries(), i as int);
                }
                self.bools[i].1
            },
            None => *default,
        };
        set_entry_bool(&mut self.bools, key, result);
        result
    }

    /// Inserts or overwrites a string, touching nothing else.
    pub fn set_string(&mut self, key: &Vec<u8>, value: &Vec<u8>)
        requires
            old(self).wf(),
        ensures
            final(self).wf(),
            final(self).strings_map() == old(self).strings_map().insert(key@, value@),
            final(self).numbers_entries() == old(self).numbers_entries(),
            final(self).bools_entries() == old(self).bools_entries(),
            final(self).path_view() == old(self).path_view(),
    {
        set_entry_bytes(&mut self.strings, key, copy_bytes(value));
    }

    /// Inserts or overwrites a number, touching nothing else.
    pub fn set_number(&mut self, key: &Vec<u8>, value: &Number)
        requires
            old(self).wf(),
            value.wf(),
        ensures
            final(self).wf(),
            final(self).numbers_map() == old(self).numbers_map().insert(key@, value@),
            final(self).strings_entries() == old(self).strings_entries(),
            final(self).bools_entries() == old(self).bools_entries(),
            final(self).path_view() == old(self).path_view(),
    {
        set_entry_bytes(&mut self.numbers, key, copy_bytes(value.bytes()));
        proof {
            lemma_numbers_wf_preserved(old(self).numbers@, self.numbers@, value@);
        }
    }

    /// Inserts or overwrites a boolean, touching nothing else.
    pub fn set_bool(&mut self, key: &Vec<u8>, value: &bool)
        requires
            old(self).wf(),
        ensures
            final(self).wf(),
            final(self).bools_map() == old(self).bools_map().insert(key@, *value),
            final(self).strings_entries() == old(self).strings_entries(),
            final(self).numbers_entries() == old(self).numbers_entries(),
            final(self).path_view() == old(self).path_view(),
    {
        set_entry_bool(&mut self.bools, key, *value);
    }

    /// Inserts a parsed boolean line while loading.
    pub(crate) fn load_bool(&mut self, key: Vec<u8>, value: bool)
        requires
            old(self).wf(),
        ensures
            final(self).wf(),
            final(self).bools_map() == old(self).bools_map().insert(key@, value),
            final(self).strings_entries() == old(self).strings_entries(),
            final(self).numbers_entries() == old(self).numbers_entries(),
            final(self).path_view() == old(self).path_view(),
    {
        set_entry_bool(&mut self.bools, &key, value);
    }

    /// Inserts a parsed number line while loading.
    pub(crate) fn load_number(&mut self, key: Vec<u8>, value: Vec<u8>)
        requires
            old(self).wf(),
            is_number_text(value@),
        ensures
            final(self).wf(),
            final(self).numbers_map() == old(self).numbers_map().insert(key@, value@),
            final(self).strings_entries() == old(self).strings_entries(),
            final(self).bools_entries() == old(self).bools_entries(),
            final(self).path_view() == old(self).path_view(),
    {
        let ghost v = value@;
        set_entry_bytes(&mut self.numbers, &key, value);
        proof {
            lemma_numbers_wf_preserved(old(self).numbers@, self.numbers@, v);
        }
    }

    /// Inserts a parsed string line while loading.
    pub(crate) fn load_string(&mut self, key: Vec<u8>, value: Vec<u8>)
        requires
            old(self).wf(),
        ensures
            final(self).wf(),
            final(self).strings_map() == old(self).strings_map().insert(key@, value@),
            final(self).numbers_entries() == old(self).numbers_entries(),
            final(self).bools_entries() == old(self).bools_entries(),
            final(self).path_view() == old(self).path_view(),
    {
        set_entry_bytes(&mut self.strings, &key, value);
    }
}

// ---------------------------------------------------------------------
// Laws of reading and writing
// ---------------------------------------------------------------------

/// Default-materialization: a read of an absent key returns the
/// default and pins it — a later read with any other default still
/// returns the first one, and changes nothing further.
pub proof fn lemma_default_materialization<V>(m: Map<Seq<u8>, V>, k: Seq<u8>, d1: V, d2: V)
    requires
        !m.contains_key(k),
    ensures
        read_result(m, k, d1) == d1,
        read_result(read_map(m, k, d1), k, d2) == d1,
        read_map(read_map(m, k, d1), k, d2) == read_map(m, k, d1),
{
    assert(read_map(read_map(m, k, d1), k, d2) =~= read_map(m, k, d1));
}

/// Set-overrides-default: after `set` stores `v` under `k`, a read
/// with any default returns `v` and leaves the namespace unchanged.
pub proof fn lemma_set_overrides_default<V>(m: Map<Seq<u8>, V>, k: Seq<u8>, v: V, d: V)
    ensures
        read_result(m.insert(k, v), k, d) == v,
        read_map(m.insert(k, v), k, d) == m.insert(k, v),
{
    assert(read_map(m.insert(k, v), k, d) =~= m.insert(k, v));
}

/// Namespace independence: writing `k` in one namespace does not make
/// it present in another — a later read there still materializes its
/// own default — and that read in turn leaves the first namespace's
/// entry untouched.
pub proof fn lemma_namespace_independence<VA, VB>(
    a: Map<Seq<u8>, VA>,
    b: Map<Seq<u8>, VB>,
    k: Seq<u8>,
    v: VA,
    d: VB,
)
    requires
        !b.contains_key(k),
    ensures
        read_result(b, k, d) == d,
        read_map(b, k, d) == b.insert(k, d),
        a.insert(k, v)[k] == v,
{
}

} // verus!


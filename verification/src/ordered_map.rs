//! The insertion-ordered map of `indexmap` that holds the enabled mirrors, seen as
//! a sequence of (key, value) pairs, with the operations the mirror logic calls.
use indexmap::IndexMap;
use vstd::prelude::*;

verus! {

#[verifier::external_type_specification]
#[verifier::external_body]
#[verifier::reject_recursive_types(K)]
#[verifier::reject_recursive_types(V)]
#[verifier::reject_recursive_types(S)]
pub struct ExIndexMap<K, V, S>(IndexMap<K, V, S>);

/// The entries of an `IndexMap<String, String>`, as (key, value) pairs in the map's order.
pub uninterp spec fn index_map_entries(m: IndexMap<String, String>) -> Seq<(Seq<char>, Seq<char>)>;

/// Some entry has key `key`.
pub open spec fn has_key(entries: Seq<(Seq<char>, Seq<char>)>, key: Seq<char>) -> bool {
    exists|i: int| 0 <= i < entries.len() && #[trigger] entries[i].0 == key
}

/// No two entries share a key.
pub open spec fn keys_unique(entries: Seq<(Seq<char>, Seq<char>)>) -> bool {
    forall|i: int, j: int|
        0 <= i < entries.len() && 0 <= j < entries.len() && i != j ==> #[trigger] entries[i].0
            != #[trigger] entries[j].0
}

/// The value of an entry with key `key` (meaningful when `has_key(entries, key)`).
pub open spec fn value_of(entries: Seq<(Seq<char>, Seq<char>)>, key: Seq<char>) -> Seq<char> {
    entries[choose|i: int| 0 <= i < entries.len() && #[trigger] entries[i].0 == key].1
}

/// The entries whose key is not `key`, in their order.
pub open spec fn without_key(entries: Seq<(Seq<char>, Seq<char>)>, key: Seq<char>) -> Seq<
    (Seq<char>, Seq<char>),
>
    decreases entries.len(),
{
    if entries.len() == 0 {
        entries
    } else {
        let rest = without_key(entries.drop_last(), key);
        if entries.last().0 == key {
            rest
        } else {
            rest.push(entries.last())
        }
    }
}

/// The entries after inserting `(key, value)`: an entry with that key keeps its place and takes
/// the new value; otherwise the pair is appended.
pub open spec fn insert_entry(
    entries: Seq<(Seq<char>, Seq<char>)>,
    key: Seq<char>,
    value: Seq<char>,
) -> Seq<(Seq<char>, Seq<char>)> {
    if has_key(entries, key) {
        entries.map_values(
            |p: (Seq<char>, Seq<char>)|
                if p.0 == key {
                    (key, value)
                } else {
                    p
                },
        )
    } else {
        entries.push((key, value))
    }
}

pub proof fn lemma_without_key(entries: Seq<(Seq<char>, Seq<char>)>, key: Seq<char>)
    ensures
        forall|x: Seq<char>| #[trigger]
            has_key(without_key(entries, key), x) <==> (has_key(entries, x) && x != key),
        keys_unique(entries) ==> keys_unique(without_key(entries, key)),
        without_key(entries, key).len() <= entries.len(),
        forall|i: int|
            0 <= i < without_key(entries, key).len() ==> #[trigger] entries.contains(
                without_key(entries, key)[i],
            ),
    decreases entries.len(),
{
    if entries.len() > 0 {
        let init = entries.drop_last();
        lemma_without_key(init, key);
        let rest = without_key(init, key);
        assert forall|x: Seq<char>| #[trigger]
            has_key(without_key(entries, key), x) <==> (has_key(entries, x) && x != key) by {
            if has_key(entries, x) && x != key {
                let i = choose|i: int| 0 <= i < entries.len() && #[trigger] entries[i].0 == x;
                if i < entries.len() - 1 {
                    assert(init[i].0 == x);
                    assert(has_key(rest, x));
                    let j = choose|j: int| 0 <= j < rest.len() && #[trigger] rest[j].0 == x;
                    assert(without_key(entries, key)[j].0 == x);
                } else {
                    assert(without_key(entries, key).last().0 == x);
                }
            }
            if has_key(without_key(entries, key), x) {
                let j = choose|j: int|
                    0 <= j < without_key(entries, key).len()
                        && #[trigger] without_key(entries, key)[j].0 == x;
                if j < rest.len() {
                    assert(rest[j].0 == x);
                    assert(has_key(rest, x));
                    assert(has_key(init, x));
                    let i = choose|i: int| 0 <= i < init.len() && #[trigger] init[i].0 == x;
                    assert(entries[i].0 == x);
                } else {
                    assert(entries.last().0 == x);
                }
            }
        }
        assert forall|i: int|
            0 <= i < without_key(entries, key).len() implies #[trigger] entries.contains(
            without_key(entries, key)[i],
        ) by {
            if i < rest.len() {
                assert(init.contains(rest[i]));
                let j = choose|j: int| 0 <= j < init.len() && init[j] == rest[i];
                assert(entries[j] == rest[i]);
            } else {
                assert(entries[entries.len() - 1] == without_key(entries, key)[i]);
            }
        }
        if keys_unique(entries) {
            assert(keys_unique(init));
            let out = without_key(entries, key);
            if entries.last().0 != key {
                assert forall|i: int, j: int|
                    0 <= i < out.len() && 0 <= j < out.len() && i != j implies #[trigger] out[i].0
                    != #[trigger] out[j].0 by {
                    if i < rest.len() && j < rest.len() {
                        assert(rest[i] == out[i] && rest[j] == out[j]);
                    } else if i < rest.len() {
                        assert(init.contains(out[i]));
                        let k = choose|k: int| 0 <= k < init.len() && init[k] == out[i];
                        assert(entries[k] == out[i]);
                        assert(out[j] == entries[entries.len() - 1]);
                    } else {
                        assert(init.contains(out[j]));
                        let k = choose|k: int| 0 <= k < init.len() && init[k] == out[j];
                        assert(entries[k] == out[j]);
                        assert(out[i] == entries[entries.len() - 1]);
                    }
                }
            }
        }
    }
}

/// Calls `IndexMap::keys`, cloning the keys: the keys of the entries in order. No two entries
/// of an `IndexMap` have equal keys, so no two of these are equal.
#[verifier::external_body]
pub(crate) fn index_map_keys(m: &IndexMap<String, String>) -> (r: Vec<String>)
    ensures
        r@.len() == index_map_entries(*m).len(),
        forall|i: int| 0 <= i < r@.len() ==> #[trigger] r@[i]@ == index_map_entries(*m)[i].0,
        forall|i: int, j: int| 0 <= i < r@.len() && 0 <= j < r@.len() && i != j ==> #[trigger] r@[i]@ != #[trigger] r@[j]@,
{
    m.keys().cloned().collect()
}

/// Calls `IndexMap::contains_key`: whether some entry has the key.
#[verifier::external_body]
pub(crate) fn index_map_contains_key(m: &IndexMap<String, String>, key: &str) -> (r: bool)
    ensures
        r == has_key(index_map_entries(*m), key@),
{
    m.contains_key(key)
}

/// Calls `IndexMap::len`: the number of entries.
#[verifier::external_body]
pub(crate) fn index_map_len(m: &IndexMap<String, String>) -> (r: usize)
    ensures
        r == index_map_entries(*m).len(),
{
    m.len()
}

/// Calls `IndexMap::get_index`: the key and value of the entry at a position, if any.
#[verifier::external_body]
pub(crate) fn index_map_get_index(m: &IndexMap<String, String>, index: usize) -> (r: Option<(&String, &String)>)
    ensures
        match r {
            Some(p) => index < index_map_entries(*m).len() && index_map_entries(*m)[index as int] == (p.0@, p.1@),
            None => index >= index_map_entries(*m).len(),
        },
{
    m.get_index(index)
}

/// Calls `IndexMap::clear`: no entry is left.
#[verifier::external_body]
pub(crate) fn index_map_clear(m: &mut IndexMap<String, String>)
    ensures
        index_map_entries(*final(m)) == Seq::<(Seq<char>, Seq<char>)>::empty(),
        keys_unique(index_map_entries(*old(m))),
{
    m.clear()
}

/// Calls `IndexMap::insert`: an entry with the key keeps its place, takes the new value and
/// its former value is returned; otherwise the pair is appended and `None` is returned.
#[verifier::external_body]
pub(crate) fn index_map_insert(m: &mut IndexMap<String, String>, key: String, value: String)
    -> (r: Option<String>)
    ensures
        index_map_entries(*final(m)) == insert_entry(index_map_entries(*old(m)), key@, value@),
        keys_unique(index_map_entries(*old(m))),
        keys_unique(index_map_entries(*final(m))),
        match r {
            Some(prev) => has_key(index_map_entries(*old(m)), key@) && prev@ == value_of(
                index_map_entries(*old(m)),
                key@,
            ),
            None => !has_key(index_map_entries(*old(m)), key@),
        },
{
    m.insert(key, value)
}

/// Calls `IndexMap::shift_remove`: the entry with the key is removed, the later entries keep
/// their order, and its value is returned; `None` when no entry has the key.
#[verifier::external_body]
pub(crate) fn index_map_shift_remove(m: &mut IndexMap<String, String>, key: &str)
    -> (r: Option<String>)
    ensures
        index_map_entries(*final(m)) == without_key(index_map_entries(*old(m)), key@),
        keys_unique(index_map_entries(*old(m))),
        keys_unique(index_map_entries(*final(m))),
        match r {
            Some(v) => has_key(index_map_entries(*old(m)), key@) && v@ == value_of(
                index_map_entries(*old(m)),
                key@,
            ),
            None => !has_key(index_map_entries(*old(m)), key@),
        },
{
    m.shift_remove(key)
}

} // verus!

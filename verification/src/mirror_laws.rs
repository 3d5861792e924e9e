//! What holds of every sequence of edits to the enabled mirrors.
use crate::mirror::{all_enabled, deb_line, deb_lines, lemma_move_to_end_keys, move_to_end, reorder};
use crate::ordered_map::{has_key, keys_unique, lemma_without_key, value_of, without_key};
use vstd::prelude::*;

verus! {

/// With distinct keys, the value of a key is the value of the one entry that has it.
proof fn lemma_value_of_unique(entries: Seq<(Seq<char>, Seq<char>)>, i: int)
    requires
        keys_unique(entries),
        0 <= i < entries.len(),
    ensures
        value_of(entries, entries[i].0) == entries[i].1,
{
    let k = entries[i].0;
    assert(entries[i].0 == k);
    let j = choose|j: int| 0 <= j < entries.len() && #[trigger] entries[j].0 == k;
    assert(j == i);
}

/// Removing a key that some entry has, among distinct keys, removes exactly one entry.
proof fn lemma_without_key_len(entries: Seq<(Seq<char>, Seq<char>)>, key: Seq<char>)
    requires
        keys_unique(entries),
        has_key(entries, key),
    ensures
        without_key(entries, key).len() == entries.len() - 1,
    decreases entries.len(),
{
    let init = entries.drop_last();
    assert(keys_unique(init));
    if entries.last().0 == key {
        assert(!has_key(init, key)) by {
            if has_key(init, key) {
                let i = choose|i: int| 0 <= i < init.len() && #[trigger] init[i].0 == key;
                assert(entries[i].0 == entries[entries.len() - 1].0);
            }
        }
        crate::mirror::lemma_without_key_absent(init, key);
    } else {
        let i = choose|i: int| 0 <= i < entries.len() && #[trigger] entries[i].0 == key;
        assert(init[i].0 == key);
        lemma_without_key_len(init, key);
    }
}

/// The last `m` entries stay last when no one of them has the removed key.
proof fn lemma_without_key_suffix(entries: Seq<(Seq<char>, Seq<char>)>, key: Seq<char>, m: int)
    requires
        0 <= m <= entries.len(),
        forall|i: int| entries.len() - m <= i < entries.len() ==> #[trigger] entries[i].0 != key,
    ensures
        without_key(entries, key).len() >= m,
        forall|t: int|
            0 <= t < m ==> #[trigger] without_key(entries, key)[without_key(entries, key).len() - 1 - t]
                == entries[entries.len() - 1 - t],
    decreases m,
{
    if m > 0 {
        let init = entries.drop_last();
        assert(entries[entries.len() - 1].0 != key);
        assert forall|i: int| init.len() - (m - 1) <= i < init.len() implies #[trigger] init[i].0 != key by {
            assert(init[i] == entries[i]);
        }
        lemma_without_key_suffix(init, key, m - 1);
        let w = without_key(entries, key);
        let wi = without_key(init, key);
        assert(w == wi.push(entries.last()));
        assert forall|t: int| 0 <= t < m implies #[trigger] w[w.len() - 1 - t] == entries[entries.len() - 1 - t] by {
            if t > 0 {
                assert(wi[wi.len() - 1 - (t - 1)] == init[init.len() - 1 - (t - 1)]);
            }
        }
    }
}

/// Disabling a mirror leaves it disabled and every other mirror as it was.
pub proof fn law_remove_disables(entries: Seq<(Seq<char>, Seq<char>)>, name: Seq<char>)
    ensures
        !has_key(without_key(entries, name), name),
        forall|x: Seq<char>| x != name ==> #[trigger] has_key(without_key(entries, name), x) == has_key(entries, x),
{
    lemma_without_key(entries, name);
}

/// Disabling a mirror that was just enabled gives back the mirrors as they were.
pub proof fn law_remove_undoes_add(entries: Seq<(Seq<char>, Seq<char>)>, name: Seq<char>, url: Seq<char>)
    requires
        !has_key(entries, name),
    ensures
        without_key(entries.push((name, url)), name) == entries,
{
    let e = entries.push((name, url));
    assert(e.drop_last() =~= entries);
    crate::mirror::lemma_without_key_absent(entries, name);
}

/// No edit makes a mirror enabled twice: adding one that is not enabled, removing one, setting
/// one, and reordering enabled ones all keep the names distinct.
pub proof fn law_names_stay_distinct(
    entries: Seq<(Seq<char>, Seq<char>)>,
    name: Seq<char>,
    url: Seq<char>,
    names: Seq<Seq<char>>,
)
    requires
        keys_unique(entries),
    ensures
        !has_key(entries, name) ==> keys_unique(entries.push((name, url))),
        keys_unique(without_key(entries, name)),
        keys_unique(seq![(name, url)]),
        all_enabled(entries, names) ==> keys_unique(reorder(entries, names)),
{
    lemma_without_key(entries, name);
    if !has_key(entries, name) {
        let e = entries.push((name, url));
        assert forall|i: int, j: int|
            0 <= i < e.len() && 0 <= j < e.len() && i != j implies #[trigger] e[i].0 != #[trigger] e[j].0 by {
            if i == e.len() - 1 && j < entries.len() {
                assert(entries[j].0 == e[j].0);
            } else if j == e.len() - 1 && i < entries.len() {
                assert(entries[i].0 == e[i].0);
            }
        }
    }
    if all_enabled(entries, names) {
        lemma_reorder_keys(entries, names);
    }
}

/// Reordering enabled mirrors keeps the set of names and, with distinct names, the number of
/// mirrors.
proof fn lemma_reorder_keys(entries: Seq<(Seq<char>, Seq<char>)>, names: Seq<Seq<char>>)
    requires
        all_enabled(entries, names),
    ensures
        forall|x: Seq<char>| #[trigger] has_key(reorder(entries, names), x) == has_key(entries, x),
        keys_unique(entries) ==> keys_unique(reorder(entries, names)),
        keys_unique(entries) ==> reorder(entries, names).len() == entries.len(),
    decreases names.len(),
{
    if names.len() > 0 {
        let rest = names.skip(1);
        assert forall|i: int| 0 <= i < rest.len() implies has_key(entries, #[trigger] rest[i]) by {
            assert(rest[i] == names[i + 1]);
        }
        lemma_reorder_keys(entries, rest);
        let r = reorder(entries, rest);
        assert(has_key(entries, names[0]));
        assert(has_key(r, names[0]));
        lemma_move_to_end_keys(r, names[0]);
        if keys_unique(entries) {
            lemma_without_key_len(r, names[0]);
        }
    }
}

/// Reordering leaves every enabled mirror with its URL, and leaves as many mirrors as there were.
pub proof fn law_set_order_keeps_mirrors(entries: Seq<(Seq<char>, Seq<char>)>, names: Seq<Seq<char>>)
    requires
        keys_unique(entries),
        all_enabled(entries, names),
    ensures
        reorder(entries, names).len() == entries.len(),
        forall|x: Seq<char>| #[trigger] has_key(reorder(entries, names), x) == has_key(entries, x),
        forall|x: Seq<char>| has_key(entries, x) ==> #[trigger] value_of(reorder(entries, names), x) == value_of(entries, x),
    decreases names.len(),
{
    lemma_reorder_keys(entries, names);
    if names.len() > 0 {
        let rest = names.skip(1);
        assert forall|i: int| 0 <= i < rest.len() implies has_key(entries, #[trigger] rest[i]) by {
            assert(rest[i] == names[i + 1]);
        }
        law_set_order_keeps_mirrors(entries, rest);
        lemma_reorder_keys(entries, rest);
        let r = reorder(entries, rest);
        let k = names[0];
        assert(has_key(entries, k));
        assert(has_key(r, k));
        lemma_move_to_end_keys(r, k);
        lemma_without_key(r, k);
        let m = reorder(entries, names);
        let w = without_key(r, k);
        assert(m == w.push((k, value_of(r, k))));
        assert forall|x: Seq<char>| has_key(entries, x) implies #[trigger] value_of(m, x) == value_of(entries, x) by {
            assert(has_key(m, x));
            let i = choose|i: int| 0 <= i < m.len() && #[trigger] m[i].0 == x;
            lemma_value_of_unique(m, i);
            if i == m.len() - 1 {
                assert(x == k);
            } else {
                assert(m[i] == w[i]);
                assert(r.contains(w[i]));
                let j = choose|j: int| 0 <= j < r.len() && r[j] == w[i];
                lemma_value_of_unique(r, j);
            }
        }
    }
}

/// Reordering with distinct enabled names puts those mirrors last, in the reverse of the order
/// of the names: the first name ends up last.
pub proof fn law_set_order_puts_names_last_reversed(entries: Seq<(Seq<char>, Seq<char>)>, names: Seq<Seq<char>>)
    requires
        keys_unique(entries),
        all_enabled(entries, names),
        forall|i: int, j: int| 0 <= i < names.len() && 0 <= j < names.len() && i != j ==> #[trigger] names[i] != #[trigger] names[j],
    ensures
        reorder(entries, names).len() >= names.len(),
        forall|t: int|
            0 <= t < names.len() ==> #[trigger] reorder(entries, names)[reorder(entries, names).len() - 1 - t].0 == names[t],
    decreases names.len(),
{
    if names.len() > 0 {
        let rest = names.skip(1);
        let n = names.len();
        assert forall|i: int| 0 <= i < rest.len() implies has_key(entries, #[trigger] rest[i]) by {
            assert(rest[i] == names[i + 1]);
        }
        assert forall|i: int, j: int| 0 <= i < rest.len() && 0 <= j < rest.len() && i != j implies #[trigger] rest[i] != #[trigger] rest[j] by {
            assert(rest[i] == names[i + 1] && rest[j] == names[j + 1]);
        }
        law_set_order_puts_names_last_reversed(entries, rest);
        lemma_reorder_keys(entries, rest);
        let r = reorder(entries, rest);
        let k = names[0];
        assert(has_key(entries, k));
        let w = without_key(r, k);
        assert forall|i: int| r.len() - (n - 1) <= i < r.len() implies #[trigger] r[i].0 != k by {
            let t = r.len() - 1 - i;
            assert(r[r.len() - 1 - t].0 == rest[t]);
            assert(rest[t] == names[t + 1]);
        }
        lemma_without_key_suffix(r, k, n - 1);
        let m = reorder(entries, names);
        assert(m == w.push((k, value_of(r, k))));
        assert forall|t: int| 0 <= t < n implies #[trigger] m[m.len() - 1 - t].0 == names[t] by {
            if t > 0 {
                assert(m[m.len() - 1 - t] == w[w.len() - 1 - (t - 1)]);
                assert(w[w.len() - 1 - (t - 1)] == r[r.len() - 1 - (t - 1)]);
                assert(r[r.len() - 1 - (t - 1)].0 == rest[t - 1]);
            }
        }
    }
}

/// The entries whose key is none of `keys`, in their order.
pub open spec fn without_keys(entries: Seq<(Seq<char>, Seq<char>)>, keys: Seq<Seq<char>>) -> Seq<(Seq<char>, Seq<char>)>
    decreases keys.len(),
{
    if keys.len() == 0 {
        entries
    } else {
        without_key(without_keys(entries, keys.skip(1)), keys[0])
    }
}

/// The mirrors that reordering by `names` puts last, in their final order, with their URLs in
/// `entries`.
pub open spec fn moved_tail(names: Seq<Seq<char>>, entries: Seq<(Seq<char>, Seq<char>)>) -> Seq<(Seq<char>, Seq<char>)>
    decreases names.len(),
{
    if names.len() == 0 {
        Seq::empty()
    } else {
        without_key(moved_tail(names.skip(1), entries), names[0]).push((names[0], value_of(entries, names[0])))
    }
}

proof fn lemma_without_key_concat(a: Seq<(Seq<char>, Seq<char>)>, b: Seq<(Seq<char>, Seq<char>)>, key: Seq<char>)
    ensures
        without_key(a + b, key) == without_key(a, key) + without_key(b, key),
    decreases b.len(),
{
    if b.len() == 0 {
        assert(a + b =~= a);
        assert(without_key(a, key) + without_key(b, key) =~= without_key(a, key));
    } else {
        lemma_without_key_concat(a, b.drop_last(), key);
        assert((a + b).drop_last() =~= a + b.drop_last());
        assert((a + b).last() == b.last());
        if b.last().0 != key {
            assert(without_key(a, key) + without_key(b.drop_last(), key).push(b.last()) =~= (without_key(a, key)
                + without_key(b.drop_last(), key)).push(b.last()));
        }
    }
}

proof fn lemma_without_keys_concat(a: Seq<(Seq<char>, Seq<char>)>, b: Seq<(Seq<char>, Seq<char>)>, keys: Seq<Seq<char>>)
    ensures
        without_keys(a + b, keys) == without_keys(a, keys) + without_keys(b, keys),
    decreases keys.len(),
{
    if keys.len() > 0 {
        lemma_without_keys_concat(a, b, keys.skip(1));
        lemma_without_key_concat(without_keys(a, keys.skip(1)), without_keys(b, keys.skip(1)), keys[0]);
    }
}

proof fn lemma_without_keys_has_key(entries: Seq<(Seq<char>, Seq<char>)>, keys: Seq<Seq<char>>)
    ensures
        forall|x: Seq<char>| #[trigger] has_key(without_keys(entries, keys), x) <==> (has_key(entries, x) && !keys.contains(x)),
    decreases keys.len(),
{
    if keys.len() > 0 {
        let rest = keys.skip(1);
        lemma_without_keys_has_key(entries, rest);
        lemma_without_key(without_keys(entries, rest), keys[0]);
        assert forall|x: Seq<char>| #[trigger] has_key(without_keys(entries, keys), x) <==> (has_key(entries, x) && !keys.contains(x)) by {
            if keys.contains(x) {
                let i = choose|i: int| 0 <= i < keys.len() && keys[i] == x;
                if i > 0 {
                    assert(rest[i - 1] == x);
                }
            }
            if rest.contains(x) {
                let i = choose|i: int| 0 <= i < rest.len() && rest[i] == x;
                assert(keys[i + 1] == x);
            }
            if x == keys[0] {
                assert(keys.contains(x));
            }
        }
    }
}

proof fn lemma_without_keys_none(entries: Seq<(Seq<char>, Seq<char>)>, keys: Seq<Seq<char>>)
    requires
        forall|x: Seq<char>| #[trigger] has_key(entries, x) ==> !keys.contains(x),
    ensures
        without_keys(entries, keys) == entries,
    decreases keys.len(),
{
    if keys.len() > 0 {
        let rest = keys.skip(1);
        assert forall|x: Seq<char>| #[trigger] has_key(entries, x) implies !rest.contains(x) by {
            if rest.contains(x) {
                let i = choose|i: int| 0 <= i < rest.len() && rest[i] == x;
                assert(keys[i + 1] == x);
            }
        }
        lemma_without_keys_none(entries, rest);
        assert(!has_key(entries, keys[0])) by {
            if has_key(entries, keys[0]) {
                assert(keys.contains(keys[0]));
            }
        }
        crate::mirror::lemma_without_key_absent(entries, keys[0]);
    }
}

proof fn lemma_without_keys_all(entries: Seq<(Seq<char>, Seq<char>)>, keys: Seq<Seq<char>>)
    requires
        forall|x: Seq<char>| #[trigger] has_key(entries, x) ==> keys.contains(x),
    ensures
        without_keys(entries, keys) == Seq::<(Seq<char>, Seq<char>)>::empty(),
{
    lemma_without_keys_has_key(entries, keys);
    let w = without_keys(entries, keys);
    if w.len() > 0 {
        assert(has_key(w, w[0].0));
    }
    assert(w =~= Seq::<(Seq<char>, Seq<char>)>::empty());
}

proof fn lemma_moved_tail_keys(names: Seq<Seq<char>>, entries: Seq<(Seq<char>, Seq<char>)>)
    ensures
        forall|x: Seq<char>| #[trigger] has_key(moved_tail(names, entries), x) ==> names.contains(x),
    decreases names.len(),
{
    if names.len() > 0 {
        let rest = names.skip(1);
        lemma_moved_tail_keys(rest, entries);
        lemma_without_key(moved_tail(rest, entries), names[0]);
        let t = moved_tail(names, entries);
        assert forall|x: Seq<char>| #[trigger] has_key(t, x) implies names.contains(x) by {
            let i = choose|i: int| 0 <= i < t.len() && #[trigger] t[i].0 == x;
            if i == t.len() - 1 {
                assert(names[0] == x);
            } else {
                let w = without_key(moved_tail(rest, entries), names[0]);
                assert(w[i].0 == x);
                assert(has_key(w, x));
                assert(rest.contains(x));
                let j = choose|j: int| 0 <= j < rest.len() && rest[j] == x;
                assert(names[j + 1] == x);
            }
        }
    }
}

proof fn lemma_moved_tail_values(names: Seq<Seq<char>>, a: Seq<(Seq<char>, Seq<char>)>, b: Seq<(Seq<char>, Seq<char>)>)
    requires
        forall|i: int| 0 <= i < names.len() ==> value_of(a, #[trigger] names[i]) == value_of(b, names[i]),
    ensures
        moved_tail(names, a) == moved_tail(names, b),
    decreases names.len(),
{
    if names.len() > 0 {
        let rest = names.skip(1);
        assert forall|i: int| 0 <= i < rest.len() implies value_of(a, #[trigger] rest[i]) == value_of(b, rest[i]) by {
            assert(rest[i] == names[i + 1]);
        }
        lemma_moved_tail_values(rest, a, b);
        assert(value_of(a, names[0]) == value_of(b, names[0]));
    }
}

/// Reordering enabled mirrors keeps the others first, in their order, and puts the named ones
/// after them.
pub proof fn law_set_order_closed_form(entries: Seq<(Seq<char>, Seq<char>)>, names: Seq<Seq<char>>)
    requires
        keys_unique(entries),
        all_enabled(entries, names),
    ensures
        reorder(entries, names) == without_keys(entries, names) + moved_tail(names, entries),
    decreases names.len(),
{
    if names.len() == 0 {
        assert(entries + Seq::<(Seq<char>, Seq<char>)>::empty() =~= entries);
    } else {
        let rest = names.skip(1);
        assert forall|i: int| 0 <= i < rest.len() implies has_key(entries, #[trigger] rest[i]) by {
            assert(rest[i] == names[i + 1]);
        }
        law_set_order_closed_form(entries, rest);
        law_set_order_keeps_mirrors(entries, rest);
        let k = names[0];
        assert(has_key(entries, k));
        let w = without_keys(entries, rest);
        let t = moved_tail(rest, entries);
        lemma_without_key_concat(w, t, k);
        let v = value_of(reorder(entries, rest), k);
        assert(v == value_of(entries, k));
        assert((without_key(w, k) + without_key(t, k)).push((k, v)) =~= without_key(w, k) + without_key(t, k).push((k, v)));
    }
}

/// Reordering a second time by the same names succeeds and changes nothing.
pub proof fn law_set_order_twice_is_once(entries: Seq<(Seq<char>, Seq<char>)>, names: Seq<Seq<char>>)
    requires
        keys_unique(entries),
        all_enabled(entries, names),
    ensures
        all_enabled(reorder(entries, names), names),
        keys_unique(reorder(entries, names)),
        reorder(reorder(entries, names), names) == reorder(entries, names),
{
    let r = reorder(entries, names);
    law_set_order_keeps_mirrors(entries, names);
    lemma_reorder_keys(entries, names);
    assert forall|i: int| 0 <= i < names.len() implies has_key(r, #[trigger] names[i]) by {
        assert(has_key(entries, names[i]));
    }
    law_set_order_closed_form(entries, names);
    law_set_order_closed_form(r, names);
    let w = without_keys(entries, names);
    let t = moved_tail(names, entries);
    lemma_without_keys_concat(w, t, names);
    lemma_without_keys_has_key(entries, names);
    lemma_without_keys_none(w, names);
    lemma_moved_tail_keys(names, entries);
    lemma_without_keys_all(t, names);
    assert(w + Seq::<(Seq<char>, Seq<char>)>::empty() =~= w);
    assert forall|i: int| 0 <= i < names.len() implies value_of(r, #[trigger] names[i]) == value_of(entries, names[i]) by {
        assert(has_key(entries, names[i]));
    }
    lemma_moved_tail_values(names, r, entries);
}

/// The lines for the enabled mirrors are the line for the first one, then the lines for the
/// others: no mirror is left out and their order is kept.
pub proof fn law_deb_lines_first_then_rest(
    entries: Seq<(Seq<char>, Seq<char>)>,
    branch: Seq<char>,
    components: Seq<Seq<char>>,
)
    requires
        entries.len() > 0,
    ensures
        deb_lines(entries, branch, components) == deb_line(entries[0].1, branch, components) + deb_lines(
            entries.skip(1),
            branch,
            components,
        ),
    decreases entries.len(),
{
    if entries.len() == 1 {
        let l = deb_line(entries[0].1, branch, components);
        assert(entries.drop_last().len() == 0);
        assert(entries.skip(1).len() == 0);
        assert(entries.last() == entries[0]);
        assert(deb_lines(entries.drop_last(), branch, components) == Seq::<char>::empty());
        assert(deb_lines(entries, branch, components) == Seq::<char>::empty() + l);
        assert(deb_lines(entries, branch, components) =~= l);
        assert(deb_line(entries[0].1, branch, components) + deb_lines(entries.skip(1), branch, components)
            =~= deb_line(entries[0].1, branch, components));
    } else {
        let init = entries.drop_last();
        law_deb_lines_first_then_rest(init, branch, components);
        assert(init.skip(1) =~= entries.skip(1).drop_last());
        assert(entries.skip(1).last() == entries.last());
        assert(init[0] == entries[0]);
        let l0 = deb_line(entries[0].1, branch, components);
        let ll = deb_line(entries.last().1, branch, components);
        assert(deb_lines(entries.skip(1), branch, components) == deb_lines(init.skip(1), branch, components) + ll);
        assert(deb_lines(entries, branch, components) == (l0 + deb_lines(init.skip(1), branch, components)) + ll);
        assert(deb_lines(entries, branch, components) =~= deb_line(entries[0].1, branch, components) + deb_lines(
            entries.skip(1),
            branch,
            components,
        ));
    }
}

} // verus!

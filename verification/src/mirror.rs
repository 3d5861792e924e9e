//! The set of enabled mirrors, in the order apt uses them, and the edits made to it:
//! enabling a mirror from the table of known mirrors, disabling one, replacing all of them
//! by one, reordering them, and rendering the `sources.list` lines they produce.
use crate::ordered_map::{
    has_key, index_map_clear, index_map_contains_key, index_map_entries, index_map_get_index,
    index_map_insert, index_map_keys, index_map_len, index_map_shift_remove, keys_unique, lemma_without_key,
    value_of, without_key,
};
use crate::text::{join, join_strings, string_of};
use indexmap::IndexMap;
use std::collections::HashMap;
use vstd::prelude::*;

verus! {

/// A known mirror: its description and its URL.
pub struct Mirror {
    pub desc: String,
    pub url: String,
}

/// What is recorded about the enabled mirrors: the branch, the components, and the enabled
/// mirrors (name to URL) in their order.
pub struct Status {
    pub branch: String,
    pub component: Vec<String>,
    pub mirror: IndexMap<String, String>,
}

/// Errors of the mirror operations.
pub enum MirrorError {
    /// The file at `path` could not be read.
    ReadFile { path: String },
    /// The file at `path` could not be parsed.
    Parse { path: String },
    /// No mirror of that name is known.
    MirrorNotExist { mirror_name: String },
    /// The status could not be serialized.
    SerializeJson,
    /// The file at `path` could not be written.
    WriteFile { path: String },
}

#[verifier::external_type_specification]
#[verifier::external_body]
pub struct ExAHashRandomState(ahash::RandomState);

/// The known mirrors of a mirror table: name to (description, URL).
pub uninterp spec fn mirror_table_contents(table: HashMap<String, Mirror, ahash::RandomState>) -> Map<
    Seq<char>,
    (Seq<char>, Seq<char>),
>;

/// Calls `HashMap::get` on a mirror table: the mirror known under `name`, if any.
#[verifier::external_body]
fn mirror_table_get<'a>(table: &'a HashMap<String, Mirror, ahash::RandomState>, name: &str) -> (r: Option<&'a Mirror>)
    ensures
        match r {
            Some(m) => mirror_table_contents(*table).contains_key(name@)
                && mirror_table_contents(*table)[name@] == (m.desc@, m.url@),
            None => !mirror_table_contents(*table).contains_key(name@),
        },
{
    table.get(name)
}

/// The manager of the enabled mirrors.
pub struct MirrorManager {
    status: Status,
}

/// The line apt gets from the status for one enabled mirror whose URL is `url`.
pub open spec fn deb_line(url: Seq<char>, branch: Seq<char>, components: Seq<Seq<char>>) -> Seq<char> {
    "deb "@ + url + " "@ + branch + join(components, " "@) + "\n"@
}

/// The lines for the enabled mirrors `entries`, in their order.
pub open spec fn deb_lines(
    entries: Seq<(Seq<char>, Seq<char>)>,
    branch: Seq<char>,
    components: Seq<Seq<char>>,
) -> Seq<char>
    decreases entries.len(),
{
    if entries.len() == 0 {
        Seq::empty()
    } else {
        deb_lines(entries.drop_last(), branch, components) + deb_line(
            entries.last().1,
            branch,
            components,
        )
    }
}

/// The header line used when no custom one is given.
pub open spec fn default_tips() -> Seq<char> {
    "Generate by oma-mirror, DO NOT EDIT!"@
}

/// The whole text: the header line, then one line per enabled mirror.
pub open spec fn rendered_sources_list(
    tips: Option<Seq<char>>,
    entries: Seq<(Seq<char>, Seq<char>)>,
    branch: Seq<char>,
    components: Seq<Seq<char>>,
) -> Seq<char> {
    let header = match tips {
        Some(t) => t,
        None => default_tips(),
    };
    header + "\n"@ + deb_lines(entries, branch, components)
}

/// The entries after moving the entry with key `name` to the end.
pub open spec fn move_to_end(entries: Seq<(Seq<char>, Seq<char>)>, name: Seq<char>) -> Seq<
    (Seq<char>, Seq<char>),
> {
    without_key(entries, name).push((name, value_of(entries, name)))
}

/// The entries after moving each of `names` to the end, the last name first and the first name
/// last.
pub open spec fn reorder(entries: Seq<(Seq<char>, Seq<char>)>, names: Seq<Seq<char>>) -> Seq<
    (Seq<char>, Seq<char>),
>
    decreases names.len(),
{
    if names.len() == 0 {
        entries
    } else {
        move_to_end(reorder(entries, names.skip(1)), names[0])
    }
}

/// The views of a list of names.
pub open spec fn names_of(names: Seq<&str>) -> Seq<Seq<char>> {
    names.map_values(|n: &str| n@)
}

/// The view of an optional header line.
pub open spec fn tips_of(tips: Option<&str>) -> Option<Seq<char>> {
    match tips {
        Some(t) => Some(t@),
        None => None,
    }
}

/// Moving a key that is present to the end keeps the set of keys.
pub proof fn lemma_move_to_end_keys(entries: Seq<(Seq<char>, Seq<char>)>, name: Seq<char>)
    requires
        has_key(entries, name),
    ensures
        forall|x: Seq<char>| #[trigger] has_key(move_to_end(entries, name), x) == has_key(entries, x),
        keys_unique(entries) ==> keys_unique(move_to_end(entries, name)),
{
    lemma_without_key(entries, name);
    let w = without_key(entries, name);
    let m = move_to_end(entries, name);
    assert forall|x: Seq<char>| #[trigger] has_key(m, x) == has_key(entries, x) by {
        if has_key(w, x) {
            let j = choose|j: int| 0 <= j < w.len() && #[trigger] w[j].0 == x;
            assert(m[j].0 == x);
        }
        if x == name {
            assert(m[m.len() - 1].0 == x);
        }
        if has_key(m, x) && x != name {
            let j = choose|j: int| 0 <= j < m.len() && #[trigger] m[j].0 == x;
            assert(w[j].0 == x);
        }
    }
    if keys_unique(entries) {
        assert forall|i: int, j: int|
            0 <= i < m.len() && 0 <= j < m.len() && i != j implies #[trigger] m[i].0
            != #[trigger] m[j].0 by {
            if i < w.len() && j < w.len() {
                assert(w[i] == m[i] && w[j] == m[j]);
            } else if i < w.len() {
                assert(w[i].0 == m[i].0);
                if m[i].0 == name {
                    assert(has_key(w, name));
                }
            } else {
                assert(w[j].0 == m[j].0);
                if m[j].0 == name {
                    assert(has_key(w, name));
                }
            }
        }
    }
}

/// Every name is the key of an entry.
pub open spec fn all_enabled(entries: Seq<(Seq<char>, Seq<char>)>, names: Seq<Seq<char>>) -> bool {
    forall|i: int| 0 <= i < names.len() ==> has_key(entries, #[trigger] names[i])
}

impl MirrorManager {
    /// The enabled mirrors, as (name, URL) pairs in their order.
    pub closed spec fn enabled(&self) -> Seq<(Seq<char>, Seq<char>)> {
        index_map_entries(self.status.mirror)
    }

    /// The branch of the status.
    pub closed spec fn branch(&self) -> Seq<char> {
        self.status.branch@
    }

    /// The components of the status.
    pub closed spec fn components(&self) -> Seq<Seq<char>> {
        self.status.component@.map_values(|c: String| c@)
    }

    /// A manager for a status read from the status file.
    pub fn new(status: Status) -> (r: Self)
        ensures
            r.enabled() == index_map_entries(status.mirror),
            r.branch() == status.branch@,
            r.components() == status.component@.map_values(|c: String| c@),
            keys_unique(r.enabled()),
    {
        // The names the map hands out are distinct, and so are the names of its entries.
        let names = index_map_keys(&status.mirror);
        proof {
            let e = index_map_entries(status.mirror);
            assert forall|i: int, j: int|
                0 <= i < e.len() && 0 <= j < e.len() && i != j implies #[trigger] e[i].0 != #[trigger] e[j].0 by {
                assert(names@[i]@ == e[i].0 && names@[j]@ == e[j].0);
            }
        }
        MirrorManager { status }
    }

    /// The status, as it is to be saved.
    pub fn status(&self) -> (r: &Status)
        ensures
            index_map_entries(r.mirror) == self.enabled(),
            r.branch@ == self.branch(),
            r.component@.map_values(|c: String| c@) == self.components(),
    {
        &self.status
    }

    /// The enabled mirrors, name to URL, in their order.
    pub fn enabled_mirrors(&self) -> (r: &IndexMap<String, String>)
        ensures
            index_map_entries(*r) == self.enabled(),
    {
        &self.status.mirror
    }

    /// Enables the mirror `mirror_name`, taking its URL from the table of known mirrors, after
    /// the ones already enabled. `Ok(false)` when it is already enabled (the table is not looked
    /// at); otherwise the error met loading the table, or an error when the table does not know
    /// the name.
    pub fn add(&mut self, mirror_name: &str, mirrors: Result<&HashMap<String, Mirror, ahash::RandomState>, MirrorError>) -> (r: Result<bool, MirrorError>)
        requires
            keys_unique(old(self).enabled()),
        ensures
            final(self).branch() == old(self).branch(),
            final(self).components() == old(self).components(),
            keys_unique(final(self).enabled()),
            has_key(old(self).enabled(), mirror_name@) ==> r == Ok::<bool, MirrorError>(false)
                && final(self).enabled() == old(self).enabled(),
            !has_key(old(self).enabled(), mirror_name@) ==> match mirrors {
                Err(e) => r == Err::<bool, MirrorError>(e) && final(self).enabled() == old(self).enabled(),
                Ok(table) => if mirror_table_contents(*table).contains_key(mirror_name@) {
                    r == Ok::<bool, MirrorError>(true) && final(self).enabled() == old(self).enabled().push(
                        (mirror_name@, mirror_table_contents(*table)[mirror_name@].1),
                    )
                } else {
                    (r matches Err(MirrorError::MirrorNotExist { mirror_name: n }) && n@ == mirror_name@)
                        && final(self).enabled() == old(self).enabled()
                },
            },
    {
        if index_map_contains_key(&self.status.mirror, mirror_name) {
            return Ok(false);
        }
        let table = match mirrors {
            Ok(t) => t,
            Err(e) => {
                return Err(e);
            },
        };
        let mirror_url = match mirror_table_get(table, mirror_name) {
            Some(mirror) => mirror.url.clone(),
            None => {
                return Err(MirrorError::MirrorNotExist { mirror_name: string_of(mirror_name) });
            },
        };
        let _prev = index_map_insert(&mut self.status.mirror, string_of(mirror_name), mirror_url);
        Ok(true)
    }

    /// Makes `mirror_name` the only enabled mirror. `Ok(false)`, with nothing changed, when it is
    /// already enabled; otherwise the enabled mirrors are cleared first, also when the table of
    /// known mirrors could not be loaded or does not know the name.
    pub fn set(&mut self, mirror_name: &str, mirrors: Result<&HashMap<String, Mirror, ahash::RandomState>, MirrorError>) -> (r: Result<bool, MirrorError>)
        requires
            keys_unique(old(self).enabled()),
        ensures
            final(self).branch() == old(self).branch(),
            final(self).components() == old(self).components(),
            keys_unique(final(self).enabled()),
            has_key(old(self).enabled(), mirror_name@) ==> r == Ok::<bool, MirrorError>(false)
                && final(self).enabled() == old(self).enabled(),
            !has_key(old(self).enabled(), mirror_name@) ==> match mirrors {
                Err(e) => r == Err::<bool, MirrorError>(e) && final(self).enabled() == Seq::<(Seq<char>, Seq<char>)>::empty(),
                Ok(table) => if mirror_table_contents(*table).contains_key(mirror_name@) {
                    r == Ok::<bool, MirrorError>(true) && final(self).enabled() == seq![
                        (mirror_name@, mirror_table_contents(*table)[mirror_name@].1),
                    ]
                } else {
                    (r matches Err(MirrorError::MirrorNotExist { mirror_name: n }) && n@ == mirror_name@)
                        && final(self).enabled() == Seq::<(Seq<char>, Seq<char>)>::empty()
                },
            },
    {
        if index_map_contains_key(&self.status.mirror, mirror_name) {
            return Ok(false);
        }
        index_map_clear(&mut self.status.mirror);
        let ghost given = mirrors;
        let res = self.add(mirror_name, mirrors);
        proof {
            if let Ok(table) = given {
                assert(Seq::<(Seq<char>, Seq<char>)>::empty().push(
                    (mirror_name@, mirror_table_contents(*table)[mirror_name@].1),
                ) =~= seq![(mirror_name@, mirror_table_contents(*table)[mirror_name@].1)]);
            }
        }
        res
    }

    /// Disables `mirror_name`; the others keep their order. Whether it was enabled.
    pub fn remove(&mut self, mirror_name: &str) -> (r: bool)
        requires
            keys_unique(old(self).enabled()),
        ensures
            r == has_key(old(self).enabled(), mirror_name@),
            final(self).enabled() == without_key(old(self).enabled(), mirror_name@),
            final(self).branch() == old(self).branch(),
            final(self).components() == old(self).components(),
            keys_unique(final(self).enabled()),
    {
        if !index_map_contains_key(&self.status.mirror, mirror_name) {
            proof {
                lemma_without_key_absent(old(self).enabled(), mirror_name@);
            }
            return false;
        }
        let _removed = index_map_shift_remove(&mut self.status.mirror, mirror_name);
        true
    }
}

impl MirrorManager {
    /// Moves the mirrors `names` to the end of the order, taking them from the last to the
    /// first. Stops with an error at the first name, from the end, that is not enabled; the
    /// names after it have been moved by then.
    pub fn set_order(&mut self, names: &[&str]) -> (r: Result<(), MirrorError>)
        requires
            keys_unique(old(self).enabled()),
        ensures
            keys_unique(final(self).enabled()),
            final(self).branch() == old(self).branch(),
            final(self).components() == old(self).components(),
            match r {
                Ok(()) => all_enabled(old(self).enabled(), names_of(names@)) && final(self).enabled()
                    == reorder(old(self).enabled(), names_of(names@)),
                Err(e) => exists|j: int|
                    0 <= j < names@.len() && !has_key(old(self).enabled(), #[trigger] names_of(names@)[j])
                        && all_enabled(old(self).enabled(), names_of(names@).subrange(j + 1, names@.len() as int))
                        && (e matches MirrorError::MirrorNotExist { mirror_name: n } && n@ == names_of(names@)[j])
                        && final(self).enabled() == reorder(
                        old(self).enabled(),
                        names_of(names@).subrange(j + 1, names@.len() as int),
                    ),
            },
    {
        let ghost start = self.enabled();
        let ghost nm = names_of(names@);
        let mut i: usize = names.len();
        assert(nm.subrange(i as int, nm.len() as int) =~= Seq::<Seq<char>>::empty());
        while i > 0
            invariant
                nm == names_of(names@),
                nm.len() == names@.len(),
                i <= names@.len(),
                self.branch() == old(self).branch(),
                self.components() == old(self).components(),
                start == old(self).enabled(),
                keys_unique(start),
                keys_unique(self.enabled()),
                all_enabled(start, nm.subrange(i as int, nm.len() as int)),
                self.enabled() == reorder(start, nm.subrange(i as int, nm.len() as int)),
                forall|x: Seq<char>| #[trigger] has_key(self.enabled(), x) == has_key(start, x),
            decreases i,
        {
            let name = names[i - 1];
            let ghost cur = self.enabled();
            let ghost tail = nm.subrange(i as int, nm.len() as int);
            let ghost next = nm.subrange(i - 1, nm.len() as int);
            assert(nm[i - 1] == name@);
            match index_map_shift_remove(&mut self.status.mirror, name) {
                Some(v) => {
                    proof {
                        lemma_without_key(cur, name@);
                    }
                    let prev = index_map_insert(&mut self.status.mirror, string_of(name), v);
                    proof {
                        assert(next.skip(1) =~= tail);
                        assert(next[0] == name@);
                        assert(self.enabled() == move_to_end(cur, name@));
                        lemma_move_to_end_keys(cur, name@);
                        assert forall|k: int| 0 <= k < next.len() implies has_key(
                            start,
                            #[trigger] next[k],
                        ) by {
                            if k > 0 {
                                assert(next[k] == tail[k - 1]);
                            }
                        }
                    }
                    i = i - 1;
                },
                None => {
                    proof {
                        lemma_without_key_absent(cur, name@);
                        assert(!has_key(start, nm[i - 1]));
                    }
                    return Err(MirrorError::MirrorNotExist { mirror_name: string_of(name) });
                },
            }
        }
        assert(nm.subrange(0, nm.len() as int) =~= nm);
        Ok(())
    }

    /// The `sources.list` text for the enabled mirrors: the header line (`custom_mirror_tips`, or
    /// a default one), then for each enabled mirror `deb <url> <branch><components>`, the
    /// components joined by spaces.
    pub fn sources_list_text(&self, custom_mirror_tips: Option<&str>) -> (r: String)
        ensures
            r@ == rendered_sources_list(tips_of(custom_mirror_tips), self.enabled(), self.branch(), self.components()),
    {
        let mut result = match custom_mirror_tips {
            Some(t) => string_of(t),
            None => string_of("Generate by oma-mirror, DO NOT EDIT!"),
        };
        result.append("\n");
        let components = join_strings(&self.status.component, " ");
        let n = index_map_len(&self.status.mirror);
        let ghost header = result@;
        let ghost entries = self.enabled();
        let mut i: usize = 0;
        assert(entries.take(0) =~= Seq::<(Seq<char>, Seq<char>)>::empty());
        while i < n
            invariant
                n == entries.len(),
                entries == self.enabled(),
                i <= n,
                components@ == join(self.components(), " "@),
                result@ == header + deb_lines(entries.take(i as int), self.branch(), self.components()),
            decreases n - i,
        {
            match index_map_get_index(&self.status.mirror, i) {
                Some(p) => {
                    result.append("deb ");
                    result.append(p.1.as_str());
                    result.append(" ");
                    result.append(self.status.branch.as_str());
                    result.append(components.as_str());
                    result.append("\n");
                    proof {
                        assert(entries.take(i + 1).drop_last() =~= entries.take(i as int));
                    }
                },
                None => {},
            }
            i = i + 1;
        }
        assert(entries.take(n as int) =~= entries);
        result
    }
}

/// Removing a key that no entry has changes nothing.
pub proof fn lemma_without_key_absent(entries: Seq<(Seq<char>, Seq<char>)>, key: Seq<char>)
    requires
        !has_key(entries, key),
    ensures
        without_key(entries, key) == entries,
    decreases entries.len(),
{
    if entries.len() > 0 {
        let init = entries.drop_last();
        assert(!has_key(init, key)) by {
            if has_key(init, key) {
                let i = choose|i: int| 0 <= i < init.len() && #[trigger] init[i].0 == key;
                assert(entries[i].0 == key);
            }
        }
        lemma_without_key_absent(init, key);
        assert(entries.last().0 != key);
        assert(init.push(entries.last()) =~= entries);
    }
}

} // verus!

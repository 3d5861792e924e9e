//! What holds of every sources list entry.
use crate::sourceslist::{
    appended, dist_path_of, human_location, line_entries, list_entries, with_arch, OmaSourceEntry, SourceEntry,
    SourceLine, SourceListType,
};
use crate::text::{
    ends_with_char, law_replace_absent, law_replace_first_occurrence, replace_all, starts_with,
    trim_end_slashes,
};
use vstd::prelude::*;

verus! {

/// `pattern` occurs somewhere in `s`.
pub open spec fn occurs(s: Seq<char>, pattern: Seq<char>) -> bool {
    exists|i: int| 0 <= i <= s.len() && #[trigger] starts_with(s.skip(i), pattern)
}

/// Replacing a pattern that does not occur leaves the text as it is.
proof fn lemma_replace_absent(s: Seq<char>, from: Seq<char>, to: Seq<char>)
    requires
        !occurs(s, from),
    ensures
        replace_all(s, from, to) == s,
    decreases s.len(),
{
    if s.len() > 0 && from.len() > 0 {
        assert(s.skip(0) =~= s);
        assert(!starts_with(s.skip(0), from));
        let rest = s.skip(1);
        assert(!occurs(rest, from)) by {
            if occurs(rest, from) {
                let i = choose|i: int| 0 <= i <= rest.len() && #[trigger] starts_with(rest.skip(i), from);
                assert(rest.skip(i) =~= s.skip(i + 1));
                assert(starts_with(s.skip(i + 1), from));
            }
        }
        lemma_replace_absent(rest, from, to);
        assert(seq![s[0]] + rest =~= s);
    }
}

/// An entry whose URL (or suite) does not mention `$(ARCH)` keeps it as it is, whatever the
/// architecture.
pub proof fn law_no_placeholder_no_change(s: Seq<char>, arch: Seq<char>)
    requires
        !occurs(s, "$(ARCH)"@),
    ensures
        with_arch(s, arch) == s,
{
    lemma_replace_absent(s, "$(ARCH)"@, arch);
}

/// A URL without its trailing slashes does not end with a slash.
pub proof fn law_trimmed_url_has_no_trailing_slash(url: Seq<char>)
    ensures
        !ends_with_char(trim_end_slashes(url), '/'),
        trim_end_slashes(trim_end_slashes(url)) == trim_end_slashes(url),
        trim_end_slashes(url).len() <= url.len(),
        url.subrange(0, trim_end_slashes(url).len() as int) == trim_end_slashes(url),
        forall|i: int| trim_end_slashes(url).len() <= i < url.len() ==> #[trigger] url[i] == '/',
    decreases url.len(),
{
    if url.len() > 0 && url.last() == '/' {
        law_trimmed_url_has_no_trailing_slash(url.drop_last());
        let t = trim_end_slashes(url);
        assert(url.subrange(0, t.len() as int) =~= url.drop_last().subrange(0, t.len() as int));
        assert forall|i: int| t.len() <= i < url.len() implies #[trigger] url[i] == '/' by {
            if i < url.len() - 1 {
                assert(url.drop_last()[i] == '/');
            }
        }
    } else {
        assert(url.subrange(0, url.len() as int) =~= url);
    }
}

/// The index files of a flat entry with suite `/` live in a directory: the path ends with a
/// slash, which is added to the URL when it lacks one.
pub proof fn law_flat_root_dist_path_ends_with_slash(url: Seq<char>, source_dist: Seq<char>)
    ensures
        ends_with_char(dist_path_of(url, "/"@, true, source_dist), '/'),
        dist_path_of(url, "/"@, true, source_dist).subrange(0, url.len() as int) == url,
        dist_path_of(url, "/"@, true, source_dist).len() == url.len() + (if ends_with_char(url, '/') {
            0int
        } else {
            1int
        }),
{
    reveal_strlit("/");
    if !ends_with_char(url, '/') {
        assert((url + "/"@).last() == '/');
        assert((url + "/"@).subrange(0, url.len() as int) =~= url);
    } else {
        assert(url.subrange(0, url.len() as int) =~= url);
    }
}

/// The index files of a non-flat entry live under `dists`: the dist path is the entry's URL
/// without its trailing slashes, then `/dists/`, then the suite as the entry gives it (the
/// architecture is not filled in there).
pub proof fn law_non_flat_dist_path(e: OmaSourceEntry)
    requires
        !e.flat(),
    ensures
        e.dist_path_view().len() == trim_end_slashes(e.entry().url@).len() + 7 + e.entry().suite@.len(),
        e.dist_path_view().subrange(0, trim_end_slashes(e.entry().url@).len() as int) == trim_end_slashes(
            e.entry().url@,
        ),
        e.dist_path_view().subrange(
            trim_end_slashes(e.entry().url@).len() as int,
            trim_end_slashes(e.entry().url@).len() + 7int,
        ) == "/dists/"@,
        e.dist_path_view().subrange(
            trim_end_slashes(e.entry().url@).len() + 7int,
            e.dist_path_view().len() as int,
        ) == e.entry().suite@,
{
    reveal_strlit("/dists/");
    let t = trim_end_slashes(e.entry().url@);
    let d = e.dist_path_view();
    assert(d == t + "/dists/"@ + e.entry().suite@);
    assert(d.subrange(0, t.len() as int) =~= t);
    assert(d.subrange(t.len() as int, t.len() + 7int) =~= "/dists/"@);
    assert(d.subrange(t.len() + 7int, d.len() as int) =~= e.entry().suite@);
}

/// The dist path of a non-flat entry does not depend on the architecture.
pub proof fn law_non_flat_dist_path_ignores_arch(e1: OmaSourceEntry, e2: OmaSourceEntry)
    requires
        !e1.flat(),
        e1.entry() == e2.entry(),
    ensures
        e1.dist_path_view() == e2.dist_path_view(),
{
}

/// The human-readable location with a file name is the one without it, a space, and the file
/// name; the one without starts with the location, has `:` right after it, and ends with the
/// suite.
pub proof fn law_human_location(location: Seq<char>, suite: Seq<char>, file_name: Seq<char>)
    ensures
        human_location(location, suite, Some(file_name)) == human_location(location, suite, None) + " "@ + file_name,
        human_location(location, suite, None).len() == location.len() + 1 + suite.len(),
        human_location(location, suite, None).subrange(0, location.len() as int) == location,
        human_location(location, suite, None)[location.len() as int] == ':',
        human_location(location, suite, None).subrange(location.len() + 1int, location.len() + 1int + suite.len())
            == suite,
{
    reveal_strlit(":");
    reveal_strlit(" ");
    let h = human_location(location, suite, None);
    assert(h =~= location + ":"@ + suite);
    assert(human_location(location, suite, Some(file_name)) =~= h + " "@ + file_name);
    assert(h.subrange(0, location.len() as int) =~= location);
    assert(h.subrange(location.len() + 1int, location.len() + 1int + suite.len()) =~= suite);
}

/// The suite with the architecture filled in depends only on the entry's suite and the
/// architecture: flat and non-flat entries, whatever their URL, fill it in alike.
pub proof fn law_suite_depends_on_suite_and_arch(e1: OmaSourceEntry, e2: OmaSourceEntry)
    requires
        e1.entry().suite@ == e2.entry().suite@,
        e1.arch_of() == e2.arch_of(),
    ensures
        e1.suite_view() == e2.suite_view(),
{
}

/// The URL with the architecture filled in depends only on the entry's URL and the architecture.
pub proof fn law_url_depends_on_url_and_arch(e1: OmaSourceEntry, e2: OmaSourceEntry)
    requires
        e1.entry().url@ == e2.entry().url@,
        e1.arch_of() == e2.arch_of(),
    ensures
        e1.url_view() == e2.url_view(),
{
}

/// A suite without `$(ARCH)` is kept as it is.
pub proof fn law_suite_without_placeholder(e: OmaSourceEntry)
    requires
        forall|i: int| 0 <= i <= e.entry().suite@.len() ==> !#[trigger] starts_with(e.entry().suite@.skip(i), "$(ARCH)"@),
    ensures
        e.suite_view() == e.entry().suite@,
{
    law_replace_absent(e.entry().suite@, "$(ARCH)"@, e.arch_of());
}

/// A URL without `$(ARCH)` is kept as it is.
pub proof fn law_url_without_placeholder(e: OmaSourceEntry)
    requires
        forall|i: int| 0 <= i <= e.entry().url@.len() ==> !#[trigger] starts_with(e.entry().url@.skip(i), "$(ARCH)"@),
    ensures
        e.url_view() == e.entry().url@,
{
    law_replace_absent(e.entry().url@, "$(ARCH)"@, e.arch_of());
}

/// In a suite `a + "$(ARCH)" + b` whose first `$(ARCH)` is the one after `a`, that one becomes
/// the architecture: the suite becomes `a`, the architecture, then `b` filled in the same way.
pub proof fn law_suite_fills_in_arch(e: OmaSourceEntry, a: Seq<char>, b: Seq<char>)
    requires
        e.entry().suite@ == a + "$(ARCH)"@ + b,
        forall|i: int| 0 <= i < a.len() ==> !#[trigger] starts_with(e.entry().suite@.skip(i), "$(ARCH)"@),
    ensures
        e.suite_view() == a + e.arch_of() + with_arch(b, e.arch_of()),
{
    reveal_strlit("$(ARCH)");
    law_replace_first_occurrence(a, "$(ARCH)"@, b, e.arch_of());
}

/// In a URL `a + "$(ARCH)" + b` whose first `$(ARCH)` is the one after `a`, that one becomes the
/// architecture: the URL becomes `a`, the architecture, then `b` filled in the same way.
pub proof fn law_url_fills_in_arch(e: OmaSourceEntry, a: Seq<char>, b: Seq<char>)
    requires
        e.entry().url@ == a + "$(ARCH)"@ + b,
        forall|i: int| 0 <= i < a.len() ==> !#[trigger] starts_with(e.entry().url@.skip(i), "$(ARCH)"@),
    ensures
        e.url_view() == a + e.arch_of() + with_arch(b, e.arch_of()),
{
    reveal_strlit("$(ARCH)");
    law_replace_first_occurrence(a, "$(ARCH)"@, b, e.arch_of());
}

/// For a flat entry whose suite is not `/`, the dist path is the URL, then one joining `/`
/// exactly when the URL does not already end with one, then the suite: it starts with the URL,
/// ends with the suite, and the character before the suite is a `/`.
pub proof fn law_flat_dist_path_joins_url_and_suite(e: OmaSourceEntry)
    requires
        e.flat(),
        e.suite_view() != "/"@,
    ensures
        e.dist_path_view().len() == e.url_view().len() + e.suite_view().len() + (if ends_with_char(
            e.url_view(),
            '/',
        ) {
            0int
        } else {
            1int
        }),
        e.dist_path_view().subrange(0, e.url_view().len() as int) == e.url_view(),
        e.dist_path_view().subrange(
            e.dist_path_view().len() - e.suite_view().len(),
            e.dist_path_view().len() as int,
        ) == e.suite_view(),
        e.dist_path_view()[e.dist_path_view().len() - e.suite_view().len() - 1] == '/',
{
    reveal_strlit("/");
    let u = e.url_view();
    let su = e.suite_view();
    let d = e.dist_path_view();
    if ends_with_char(u, '/') {
        assert(d == u + su);
        assert(d.subrange(0, u.len() as int) =~= u);
        assert(d.subrange(d.len() - su.len(), d.len() as int) =~= su);
        assert(d[d.len() - su.len() - 1] == u[u.len() - 1]);
    } else {
        assert(d == u + "/"@ + su);
        assert(d.subrange(0, u.len() as int) =~= u);
        assert(d.subrange(d.len() - su.len(), d.len() as int) =~= su);
        assert(d[u.len() as int] == '/');
    }
}

/// The entry of a line that holds one.
pub open spec fn entry_of_line(line: SourceLine) -> SourceEntry {
    line->Entry_0
}

/// The lines that hold an entry, in order.
pub open spec fn entry_lines(lines: Seq<SourceLine>) -> Seq<SourceLine> {
    lines.filter(|l: SourceLine| l is Entry)
}

proof fn lemma_line_entries_are_entry_lines(lines: Seq<SourceLine>)
    ensures
        line_entries(lines) == entry_lines(lines).map_values(|l: SourceLine| entry_of_line(l)),
    decreases lines.len(),
{
    reveal(Seq::filter);
    if lines.len() > 0 {
        lemma_line_entries_are_entry_lines(lines.drop_last());
        let init = entry_lines(lines.drop_last());
        if lines.last() is Entry {
            assert(entry_lines(lines) == init.push(lines.last()));
            assert(init.push(lines.last()).map_values(|l: SourceLine| entry_of_line(l)) =~= init.map_values(
                |l: SourceLine| entry_of_line(l),
            ).push(entry_of_line(lines.last())));
        } else {
            assert(entry_lines(lines) == init);
        }
    }
}

/// Taking in a one-line-style file appends one entry per line that holds an entry, the first
/// line included, in file order, each with the architecture; nothing else is appended.
pub proof fn law_one_line_file_appends_each_entry_line(
    before: Seq<OmaSourceEntry>,
    after: Seq<OmaSourceEntry>,
    list: SourceListType,
    arch: Seq<char>,
)
    requires
        list is SourceLine,
        appended(before, after, list_entries(list), arch),
    ensures
        after.len() - before.len() == entry_lines(list->SourceLine_0@).len(),
        forall|j: int| 0 <= j < entry_lines(list->SourceLine_0@).len() ==> (#[trigger] after[before.len() + j]).entry()
            == entry_of_line(entry_lines(list->SourceLine_0@)[j]) && after[before.len() + j].arch_of() == arch,
        forall|i: int| 0 <= i < before.len() ==> #[trigger] after[i] == before[i],
{
    let lines = list->SourceLine_0@;
    lemma_line_entries_are_entry_lines(lines);
    assert(list_entries(list) == line_entries(lines));
    assert forall|j: int| 0 <= j < entry_lines(lines).len() implies (#[trigger] after[before.len() + j]).entry()
        == entry_of_line(entry_lines(lines)[j]) && after[before.len() + j].arch_of() == arch by {
        assert(line_entries(lines)[j] == entry_of_line(entry_lines(lines)[j]));
    }
}

/// Taking in a deb822 file appends one entry per stanza, in order, each with the architecture;
/// nothing else is appended.
pub proof fn law_deb822_file_appends_each_stanza(
    before: Seq<OmaSourceEntry>,
    after: Seq<OmaSourceEntry>,
    list: SourceListType,
    arch: Seq<char>,
)
    requires
        list is Deb822,
        appended(before, after, list_entries(list), arch),
    ensures
        after.len() - before.len() == list->Deb822_0@.len(),
        forall|j: int| 0 <= j < list->Deb822_0@.len() ==> (#[trigger] after[before.len() + j]).entry() == list->Deb822_0@[j]
            && after[before.len() + j].arch_of() == arch,
        forall|i: int| 0 <= i < before.len() ==> #[trigger] after[i] == before[i],
{
}

} // verus!

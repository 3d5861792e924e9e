//! Character-level string operations used by the mirror and sources-list logic,
//! each proved against a short specification over `Seq<char>`.
use vstd::prelude::*;
use vstd::string::*;

verus! {

broadcast use vstd::std_specs::vec::group_vec_axioms;

/// `s` begins with `prefix`.
pub open spec fn starts_with(s: Seq<char>, prefix: Seq<char>) -> bool {
    prefix.len() <= s.len() && s.subrange(0, prefix.len() as int) == prefix
}

/// `s` ends with the character `c`.
pub open spec fn ends_with_char(s: Seq<char>, c: char) -> bool {
    s.len() > 0 && s.last() == c
}

/// `s` with every trailing `'/'` removed.
pub open spec fn trim_end_slashes(s: Seq<char>) -> Seq<char>
    decreases s.len(),
{
    if s.len() > 0 && s.last() == '/' {
        trim_end_slashes(s.drop_last())
    } else {
        s
    }
}

/// `s` with every occurrence of the non-empty pattern `from` replaced by `to`,
/// scanning from the left and never letting two matches overlap.
pub open spec fn replace_all(s: Seq<char>, from: Seq<char>, to: Seq<char>) -> Seq<char>
    decreases s.len(),
{
    if s.len() == 0 || from.len() == 0 {
        s
    } else if starts_with(s, from) {
        to + replace_all(s.skip(from.len() as int), from, to)
    } else {
        seq![s[0]] + replace_all(s.skip(1), from, to)
    }
}

/// The parts, in order, with `sep` between each two neighbours.
pub open spec fn join(parts: Seq<Seq<char>>, sep: Seq<char>) -> Seq<char>
    decreases parts.len(),
{
    if parts.len() == 0 {
        Seq::empty()
    } else if parts.len() == 1 {
        parts[0]
    } else {
        join(parts.drop_last(), sep) + sep + parts.last()
    }
}

/// Appends one character to a string (`String::push`).
#[verifier::external_body]
pub(crate) fn push_char(s: &mut String, c: char)
    ensures
        final(s)@ == old(s)@.push(c),
{
    s.push(c)
}

/// The characters of `s`, in order.
pub(crate) fn chars_of(s: &str) -> (v: Vec<char>)
    ensures
        v@ == s@,
{
    let mut v: Vec<char> = Vec::new();
    for c in it: s.chars()
        invariant
            it.seq() == s@,
            v@ == s@.take(it.index()),
    {
        v.push(c);
        assert(s@.take(it.index() + 1) =~= s@.take(it.index()).push(c));
    }
    assert(s@.take(s@.len() as int) =~= s@);
    v
}


/// Whether `s` begins with `prefix`.
pub(crate) fn str_starts_with(s: &str, prefix: &str) -> (r: bool)
    ensures
        r == starts_with(s@, prefix@),
{
    let sv = chars_of(s);
    let pv = chars_of(prefix);
    if pv.len() > sv.len() {
        return false;
    }
    let mut i: usize = 0;
    while i < pv.len()
        invariant
            sv@ == s@,
            pv@ == prefix@,
            pv.len() <= sv.len(),
            i <= pv.len(),
            forall|j: int| 0 <= j < i ==> sv@[j] == pv@[j],
        decreases pv.len() - i,
    {
        if sv[i] != pv[i] {
            assert(s@.subrange(0, prefix@.len() as int)[i as int] != prefix@[i as int]);
            return false;
        }
        i = i + 1;
    }
    assert(s@.subrange(0, prefix@.len() as int) =~= prefix@);
    true
}

/// Whether the last character of `s` is `c`.
pub(crate) fn str_ends_with_char(s: &str, c: char) -> (r: bool)
    ensures
        r == ends_with_char(s@, c),
{
    let v = chars_of(s);
    v.len() > 0 && v[v.len() - 1] == c
}

/// A new string holding the characters `v[from..to]`.
fn string_of_range(v: &Vec<char>, from: usize, to: usize) -> (r: String)
    requires
        from <= to <= v.len(),
    ensures
        r@ == v@.subrange(from as int, to as int),
{
    let mut r = String::new();
    let mut i = from;
    while i < to
        invariant
            from <= i <= to <= v.len(),
            r@ == v@.subrange(from as int, i as int),
        decreases to - i,
    {
        push_char(&mut r, v[i]);
        assert(v@.subrange(from as int, i + 1) =~= v@.subrange(from as int, i as int).push(v@[i as int]));
        i = i + 1;
    }
    r
}

/// A copy of `s`.
pub(crate) fn string_of(s: &str) -> (r: String)
    ensures
        r@ == s@,
{
    let v = chars_of(s);
    let r = string_of_range(&v, 0, v.len());
    assert(v@.subrange(0, v@.len() as int) =~= v@);
    r
}

/// Whether `pat` occurs in `v` at position `at`.
fn matches_at(v: &Vec<char>, pat: &Vec<char>, at: usize) -> (r: bool)
    requires
        at <= v.len(),
    ensures
        r == starts_with(v@.skip(at as int), pat@),
{
    if pat.len() > v.len() - at {
        return false;
    }
    let mut i: usize = 0;
    while i < pat.len()
        invariant
            at <= v.len(),
            pat.len() <= v.len() - at,
            i <= pat.len(),
            forall|j: int| 0 <= j < i ==> v@[at + j] == pat@[j],
        decreases pat.len() - i,
    {
        if v[at + i] != pat[i] {
            assert(v@.skip(at as int).subrange(0, pat@.len() as int)[i as int] != pat@[i as int]);
            return false;
        }
        i = i + 1;
    }
    assert(v@.skip(at as int).subrange(0, pat@.len() as int) =~= pat@);
    true
}

/// `s` with every occurrence of the non-empty pattern `from` replaced by `to` (as `str::replace`).
pub(crate) fn replace_all_in(s: &str, from: &str, to: &str) -> (r: String)
    requires
        from@.len() > 0,
    ensures
        r@ == replace_all(s@, from@, to@),
{
    let sv = chars_of(s);
    let fv = chars_of(from);
    let mut r = String::new();
    let mut i: usize = 0;
    assert(s@.skip(0) =~= s@);
    while i < sv.len()
        invariant
            sv@ == s@,
            fv@ == from@,
            from@.len() > 0,
            i <= sv.len(),
            r@ + replace_all(s@.skip(i as int), from@, to@) == replace_all(s@, from@, to@),
        decreases sv.len() - i,
    {
        let ghost rest = s@.skip(i as int);
        if matches_at(&sv, &fv, i) {
            r.append(to);
            assert(rest.skip(from@.len() as int) =~= s@.skip(i + fv.len()));
            assert(r@ + replace_all(s@.skip(i + fv.len()), from@, to@) =~= replace_all(s@, from@, to@));
            i = i + fv.len();
        } else {
            push_char(&mut r, sv[i]);
            assert(rest.skip(1) =~= s@.skip(i + 1));
            assert(r@ + replace_all(s@.skip(i + 1), from@, to@) =~= replace_all(s@, from@, to@));
            i = i + 1;
        }
    }
    assert(s@.skip(i as int) =~= Seq::<char>::empty());
    assert(r@ =~= replace_all(s@, from@, to@));
    r
}

/// `s` without its trailing `'/'` characters.
pub(crate) fn trim_end_slashes_of(s: &str) -> (r: String)
    ensures
        r@ == trim_end_slashes(s@),
{
    let v = chars_of(s);
    let mut n = v.len();
    assert(v@.subrange(0, n as int) =~= s@);
    while n > 0 && v[n - 1] == '/'
        invariant
            v@ == s@,
            n <= v.len(),
            trim_end_slashes(v@.subrange(0, n as int)) == trim_end_slashes(s@),
        decreases n,
    {
        assert(v@.subrange(0, n as int).drop_last() =~= v@.subrange(0, n - 1));
        n = n - 1;
    }
    string_of_range(&v, 0, n)
}

/// The strings of `parts` with `sep` between each two neighbours (as `[String]::join`).
pub(crate) fn join_strings(parts: &Vec<String>, sep: &str) -> (r: String)
    ensures
        r@ == join(parts@.map_values(|p: String| p@), sep@),
{
    let ghost views = parts@.map_values(|p: String| p@);
    let mut r = String::new();
    let mut i: usize = 0;
    while i < parts.len()
        invariant
            views == parts@.map_values(|p: String| p@),
            i <= parts.len(),
            r@ == join(views.take(i as int), sep@),
        decreases parts.len() - i,
    {
        if i != 0 {
            r.append(sep);
        }
        r.append(parts[i].as_str());
        assert(views.take(i + 1).drop_last() =~= views.take(i as int));
        i = i + 1;
    }
    assert(views.take(parts.len() as int) =~= views);
    r
}

/// The sum of the lengths of the parts.
pub open spec fn total_len(parts: Seq<Seq<char>>) -> int
    decreases parts.len(),
{
    if parts.len() == 0 {
        0
    } else {
        total_len(parts.drop_last()) + parts.last().len()
    }
}

/// Joining two or more parts gives the first part, the separator, then the join of the others:
/// no part is dropped and each two neighbours are separated by `sep` once.
pub proof fn law_join_first_then_rest(parts: Seq<Seq<char>>, sep: Seq<char>)
    requires
        parts.len() >= 2,
    ensures
        join(parts, sep) == parts[0] + sep + join(parts.skip(1), sep),
    decreases parts.len(),
{
    if parts.len() == 2 {
        assert(parts.drop_last().len() == 1);
        assert(join(parts.drop_last(), sep) == parts[0]);
        assert(parts.skip(1).len() == 1);
        assert(join(parts.skip(1), sep) == parts[1]);
    } else {
        let init = parts.drop_last();
        law_join_first_then_rest(init, sep);
        assert(init.skip(1) =~= parts.skip(1).drop_last());
        assert(parts.skip(1).last() == parts.last());
        assert(init[0] == parts[0]);
        assert(join(parts, sep) =~= parts[0] + sep + join(parts.skip(1), sep));
    }
}

/// The join of `n > 0` parts is as long as the parts together plus `n - 1` separators.
pub proof fn law_join_length(parts: Seq<Seq<char>>, sep: Seq<char>)
    requires
        parts.len() > 0,
    ensures
        join(parts, sep).len() == total_len(parts) + (parts.len() - 1) * sep.len(),
    decreases parts.len(),
{
    let n = parts.len() as int;
    let l = sep.len() as int;
    if parts.len() == 1 {
        assert(parts.drop_last().len() == 0);
        assert(join(parts, sep) == parts[0]);
        assert(total_len(parts) == total_len(parts.drop_last()) + parts.last().len());
        assert((n - 1) * l == 0) by (nonlinear_arith)
            requires
                n == 1,
        ;
    } else {
        let init = parts.drop_last();
        law_join_length(init, sep);
        assert(init.len() == n - 1);
        assert(join(init, sep).len() == total_len(init) + (n - 2) * l);
        assert(join(parts, sep) == join(init, sep) + sep + parts.last());
        assert((n - 2) * l + l == (n - 1) * l) by (nonlinear_arith);
    }
}

/// Where the `i`-th part starts in a join: at the start for the first part, else after the join
/// of the parts before it and one separator.
pub open spec fn part_start(parts: Seq<Seq<char>>, sep: Seq<char>, i: int) -> int {
    if i == 0 {
        0
    } else {
        (join(parts.take(i), sep).len() + sep.len()) as int
    }
}

/// Joining no parts gives the empty text, and joining one part gives that part.
pub proof fn law_join_few(parts: Seq<Seq<char>>, sep: Seq<char>)
    requires
        parts.len() <= 1,
    ensures
        parts.len() == 0 ==> join(parts, sep) == Seq::<char>::empty(),
        parts.len() == 1 ==> join(parts, sep) == parts[0],
{
}

/// The join holds every part, in order, each at its place: the `i`-th part stands right after
/// the parts before it and the separators between them, and a separator stands right before
/// each part but the first.
pub proof fn law_join_places_each_part(parts: Seq<Seq<char>>, sep: Seq<char>)
    ensures
        forall|i: int| 0 <= i < parts.len() ==> 0 <= part_start(parts, sep, i) && part_start(parts, sep, i)
            + parts[i].len() <= join(parts, sep).len() && join(parts, sep).subrange(
            part_start(parts, sep, i),
            part_start(parts, sep, i) + parts[i].len(),
        ) == #[trigger] parts[i],
        forall|i: int| 1 <= i < parts.len() ==> join(parts, sep).subrange(
            #[trigger] part_start(parts, sep, i) - sep.len(),
            part_start(parts, sep, i),
        ) == sep,
    decreases parts.len(),
{
    let n = parts.len() as int;
    let l = sep.len() as int;
    if n == 1 {
        assert(join(parts, sep).subrange(0, parts[0].len() as int) =~= parts[0]);
    } else if n > 1 {
        let init = parts.drop_last();
        law_join_places_each_part(init, sep);
        let j = join(init, sep);
        let whole = join(parts, sep);
        assert(whole == j + sep + parts.last());
        assert forall|i: int| 0 <= i < n - 1 implies part_start(parts, sep, i) == part_start(init, sep, i) by {
            assert(parts.take(i) =~= init.take(i));
        }
        assert(parts.take(n - 1) =~= init);
        assert(part_start(parts, sep, n - 1) == j.len() + l);
        assert forall|i: int| 0 <= i < n implies 0 <= part_start(parts, sep, i) && part_start(parts, sep, i)
            + parts[i].len() <= whole.len() && whole.subrange(
            part_start(parts, sep, i),
            part_start(parts, sep, i) + parts[i].len(),
        ) == #[trigger] parts[i] by {
            if i < n - 1 {
                lemma_join_prefix_part(init, sep, parts.last(), i);
            } else {
                assert(whole.subrange(j.len() + l, j.len() + l + parts[i].len()) =~= parts.last());
            }
        }
        assert forall|i: int| 1 <= i < n implies whole.subrange(
            #[trigger] part_start(parts, sep, i) - l,
            part_start(parts, sep, i),
        ) == sep by {
            if i < n - 1 {
                lemma_join_prefix_sep(init, sep, parts.last(), i);
            } else {
                assert(whole.subrange(j.len() as int, j.len() + l) =~= sep);
            }
        }
    }
}

proof fn lemma_join_prefix_part(init: Seq<Seq<char>>, sep: Seq<char>, last: Seq<char>, i: int)
    requires
        0 <= i < init.len(),
        forall|k: int| 0 <= k < init.len() ==> 0 <= part_start(init, sep, k) && part_start(init, sep, k)
            + init[k].len() <= join(init, sep).len() && join(init, sep).subrange(
            part_start(init, sep, k),
            part_start(init, sep, k) + init[k].len(),
        ) == #[trigger] init[k],
    ensures
        ({
            let a = part_start(init, sep, i);
            let whole = join(init, sep) + sep + last;
            0 <= a && a + init[i].len() <= whole.len() && whole.subrange(a, a + init[i].len()) == init[i]
        }),
{
    let a = part_start(init, sep, i);
    let j = join(init, sep);
    let whole = j + sep + last;
    assert(j.subrange(a, a + init[i].len()) == init[i]);
    assert(whole.subrange(a, a + init[i].len()) =~= j.subrange(a, a + init[i].len()));
}

proof fn lemma_join_prefix_sep(init: Seq<Seq<char>>, sep: Seq<char>, last: Seq<char>, i: int)
    requires
        1 <= i < init.len(),
        forall|k: int| 0 <= k < init.len() ==> 0 <= part_start(init, sep, k) && part_start(init, sep, k)
            + init[k].len() <= join(init, sep).len() && join(init, sep).subrange(
            part_start(init, sep, k),
            part_start(init, sep, k) + init[k].len(),
        ) == #[trigger] init[k],
        forall|k: int| 1 <= k < init.len() ==> join(init, sep).subrange(
            #[trigger] part_start(init, sep, k) - sep.len(),
            part_start(init, sep, k),
        ) == sep,
    ensures
        ({
            let a = part_start(init, sep, i);
            (join(init, sep) + sep + last).subrange(a - sep.len(), a) == sep
        }),
{
    let a = part_start(init, sep, i);
    let l = sep.len() as int;
    let j = join(init, sep);
    let whole = j + sep + last;
    assert(0 <= a && a + init[i].len() <= j.len());
    assert(a - l >= 0);
    assert(j.subrange(a - l, a) == sep);
    assert(whole.subrange(a - l, a) =~= j.subrange(a - l, a));
}

/// Replacing a pattern that does not occur leaves the text as it is.
pub proof fn law_replace_absent(s: Seq<char>, from: Seq<char>, to: Seq<char>)
    requires
        forall|i: int| 0 <= i <= s.len() ==> !#[trigger] starts_with(s.skip(i), from),
    ensures
        replace_all(s, from, to) == s,
    decreases s.len(),
{
    if s.len() > 0 && from.len() > 0 {
        assert(s.skip(0) =~= s);
        assert(!starts_with(s.skip(0), from));
        let rest = s.skip(1);
        assert forall|i: int| 0 <= i <= rest.len() implies !#[trigger] starts_with(rest.skip(i), from) by {
            assert(rest.skip(i) =~= s.skip(i + 1));
            assert(!starts_with(s.skip(i + 1), from));
        }
        law_replace_absent(rest, from, to);
        assert(seq![s[0]] + rest =~= s);
    }
}

/// In `a + from + b`, where no occurrence of `from` starts inside `a`, the occurrence after `a`
/// is the first one replaced: the result is `a`, then `to`, then `b` with its own occurrences
/// replaced.
pub proof fn law_replace_first_occurrence(a: Seq<char>, from: Seq<char>, b: Seq<char>, to: Seq<char>)
    requires
        from.len() > 0,
        forall|i: int| 0 <= i < a.len() ==> !#[trigger] starts_with((a + from + b).skip(i), from),
    ensures
        replace_all(a + from + b, from, to) == a + to + replace_all(b, from, to),
    decreases a.len(),
{
    let s = a + from + b;
    if a.len() == 0 {
        assert(s =~= from + b);
        assert(s.subrange(0, from.len() as int) =~= from);
        assert(s.skip(from.len() as int) =~= b);
        assert(a + to + replace_all(b, from, to) =~= to + replace_all(b, from, to));
    } else {
        assert(s.skip(0) =~= s);
        assert(!starts_with(s.skip(0), from));
        let a1 = a.skip(1);
        assert(s.skip(1) =~= a1 + from + b);
        assert forall|i: int| 0 <= i < a1.len() implies !#[trigger] starts_with((a1 + from + b).skip(i), from) by {
            assert((a1 + from + b).skip(i) =~= s.skip(i + 1));
            assert(!starts_with(s.skip(i + 1), from));
        }
        law_replace_first_occurrence(a1, from, b, to);
        assert(s[0] == a[0]);
        assert(seq![a[0]] + (a1 + to + replace_all(b, from, to)) =~= a + to + replace_all(b, from, to));
    }
}

} // verus!

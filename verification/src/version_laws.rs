//! How versions are written, ordered and raised.
use crate::number::{all_digits, decimal, decimal_reads_back, is_digit, lemma_decimal, parsed};
use crate::text::{
    begins, lemma_span, lemma_span_is, lemma_trimmed_end, pieces, span, trimmed_end, trimmed_start,
    white_space, Text,
};
use crate::version::{
    age, bumped, can_bump, dotted, lemma_dotted_chars, lemma_pieces_last, lemma_pieces_step, newest,
    newest_is_newest, older, semver, semver_reads_back, version_core, Bump, Version,
};
use vstd::prelude::*;

verus! {

/// A version is older than another if its first number that differs is smaller.
pub proof fn first_difference_decides(a: Version, b: Version)
    ensures
        a.0 < b.0 ==> older(a, b) && !older(b, a),
        a.0 == b.0 && a.1 < b.1 ==> older(a, b) && !older(b, a),
        a.0 == b.0 && a.1 == b.1 && a.2 < b.2 ==> older(a, b) && !older(b, a),
        a == b ==> !older(a, b),
        older(a, b) || older(b, a) || a == b,
{
}

/// Whether a version has what raising that part leaves: zeros behind it.
pub open spec fn is_round(v: Version, b: Bump) -> bool {
    match b {
        Bump::Major => v.1 == 0 && v.2 == 0,
        Bump::Minor => v.2 == 0,
        Bump::Patch => true,
    }
}

/// A raised version is the first one behind it that has zeros behind the raised
/// part.
pub proof fn raised_is_the_next_round_one(v: Version, b: Bump, w: Version)
    requires
        can_bump(v, b),
    ensures
        is_round(bumped(v, b), b),
        older(v, bumped(v, b)),
        is_round(w, b) && older(v, w) ==> w == bumped(v, b) || older(bumped(v, b), w),
{
}

/// A version can be raised unless the part to raise is the largest number.
pub proof fn all_but_the_largest_can_be_raised(v: Version)
    ensures
        can_bump(v, Bump::Major) <==> v.0 != u64::MAX,
        can_bump(v, Bump::Minor) <==> v.1 != u64::MAX,
        can_bump(v, Bump::Patch) <==> v.2 != u64::MAX,
{
}

/// The newest of some versions is one of them, and older than none.
pub proof fn newest_is_one_of_them(vs: Seq<Version>)
    ensures
        vs.len() == 0 ==> newest(vs) == (0u64, 0u64, 0u64),
        vs.len() > 0 ==> vs.contains(newest(vs)),
        forall|i: int| 0 <= i < vs.len() ==> !older(newest(vs), #[trigger] vs[i]),
    decreases vs.len(),
{
    newest_is_newest(vs);
    if vs.len() > 0 && newest(vs) == (0u64, 0u64, 0u64) {
        assert(!older(newest(vs), vs[0]));
        assert(vs[0] == (0u64, 0u64, 0u64));
    }
}

proof fn lemma_core(s: Text, rest: Text)
    requires
        s.len() > 0,
        is_digit(s[0]),
        is_digit(s.last()),
        forall|i: int| 0 <= i < s.len() ==> is_digit(#[trigger] s[i]) || s[i] == '.',
        rest.len() == 0 || rest[0] == '-' || rest[0] == '+',
    ensures
        version_core(s + rest) == s,
{
    reveal_strlit("v");
    reveal_strlit("V");
    reveal_strlit("-+");
    let t = s + rest;
    assert(t[0] == s[0]);
    assert(trimmed_start(t) == t);
    let e = trimmed_end(t);
    lemma_trimmed_end(t);
    lemma_keeps_front(s, rest);
    assert(e.len() >= s.len());
    assert(e =~= s + rest.take(e.len() - s.len()));
    assert(e[0] == s[0]);
    if begins(e, "v"@) {
        assert(e.take(1)[0] == e[0]);
    }
    if begins(e, "V"@) {
        assert(e.take(1)[0] == e[0]);
    }
    let stops = "-+"@;
    assert forall|i: int| 0 <= i < s.len() implies !stops.contains(#[trigger] e[i]) by {
        assert(e[i] == s[i]);
    }
    if e.len() > s.len() {
        assert(e[s.len() as int] == rest[0]);
        assert(stops[0] == '-' && stops[1] == '+');
        assert(stops.contains(e[s.len() as int]));
    }
    lemma_span_is(e, stops, s.len());
    assert(e.take(s.len() as int) =~= s);
}

/// Trimming the end stops at a character that is no white space.
proof fn lemma_keeps_front(a: Text, b: Text)
    requires
        a.len() > 0,
        !white_space(a.last()),
    ensures
        trimmed_end(a + b).len() >= a.len(),
    decreases b.len(),
{
    let s = a + b;
    if b.len() == 0 {
        assert(s =~= a);
    } else if white_space(b.last()) {
        assert(s.drop_last() =~= a + b.drop_last());
        lemma_keeps_front(a, b.drop_last());
    }
}

/// A version may leave out its last numbers, which are then zero.
pub proof fn missing_numbers_are_zero(a: u64, b: u64)
    ensures
        semver(decimal(a as nat)) == Some((a, 0u64, 0u64)),
        semver(decimal(a as nat) + "."@ + decimal(b as nat)) == Some((a, b, 0u64)),
{
    reveal_strlit(".");
    let x = decimal(a as nat);
    let y = decimal(b as nat);
    let s = x + "."@ + y;
    let none = Seq::<char>::empty();
    lemma_decimal(a as nat);
    lemma_decimal(b as nat);
    decimal_reads_back(a as nat, u64::MAX as nat);
    decimal_reads_back(b as nat, u64::MAX as nat);
    assert(is_digit(x[0]) && is_digit(x[x.len() - 1]));
    assert(is_digit(y[y.len() - 1]));
    lemma_core(x, none);
    assert(x + none =~= x);
    lemma_pieces_last(x);
    assert forall|i: int| 0 <= i < s.len() implies is_digit(#[trigger] s[i]) || s[i] == '.' by {
        if i < x.len() {
            assert(s[i] == x[i]);
        } else if i > x.len() {
            assert(s[i] == y[i - x.len() - 1]);
        }
    }
    assert(s[0] == x[0]);
    assert(s.last() == y[y.len() - 1]);
    lemma_core(s, none);
    assert(s + none =~= s);
    lemma_pieces_step(x, y);
    lemma_pieces_last(y);
    assert(pieces(s, "."@) =~= seq![x, y]);
}

/// What stands behind a dash or a plus sign does not count.
pub proof fn pre_release_is_dropped(v: Version, rest: Text)
    requires
        rest.len() > 0,
        rest[0] == '-' || rest[0] == '+',
    ensures
        semver(dotted(v) + rest) == Some(v),
{
    let s = dotted(v);
    let none = Seq::<char>::empty();
    lemma_dotted_all(v);
    lemma_core(s, rest);
    lemma_core(s, none);
    assert(s + none =~= s);
    semver_reads_back(v);
}

proof fn lemma_dotted_all(v: Version)
    ensures
        dotted(v).len() > 0,
        is_digit(dotted(v)[0]),
        is_digit(dotted(v).last()),
        forall|i: int|
            0 <= i < dotted(v).len() ==> is_digit(#[trigger] dotted(v)[i]) || dotted(v)[i] == '.',
{
    let s = dotted(v);
    lemma_decimal(v.0 as nat);
    lemma_dotted_chars(v, 0);
    lemma_dotted_chars(v, s.len() - 1);
    assert forall|i: int| 0 <= i < s.len() implies is_digit(#[trigger] s[i]) || s[i] == '.' by {
        lemma_dotted_chars(v, i);
    }
}

/// A `v` in front of a version does not count, in either case.
pub proof fn leading_v_does_not_count(s: Text)
    requires
        s.len() > 0,
        !white_space(s[0]),
        s[0] != 'v',
        s[0] != 'V',
    ensures
        semver(seq!['v'] + s) == semver(s),
        semver(seq!['V'] + s) == semver(s),
{
    lemma_v(s, 'v');
    lemma_v(s, 'V');
}

proof fn lemma_v(s: Text, c: char)
    requires
        s.len() > 0,
        !white_space(s[0]),
        s[0] != 'v',
        s[0] != 'V',
        c == 'v' || c == 'V',
    ensures
        version_core(seq![c] + s) == version_core(s),
{
    reveal_strlit("v");
    reveal_strlit("V");
    let t = seq![c] + s;
    assert(t[0] == c);
    assert(trimmed_start(t) == t);
    assert(trimmed_start(s) == s);
    lemma_end_behind(seq![c], s);
    lemma_keeps_front(seq![s[0]], s.skip(1));
    assert(seq![s[0]] + s.skip(1) =~= s);
    let e = trimmed_end(s);
    lemma_trimmed_end(s);
    assert(e[0] == s[0]);
    let f = trimmed_end(t);
    assert(f == seq![c] + e);
    assert(f.skip(1) =~= e);
    assert(f.take(1) =~= seq![c]);
    assert("v"@ =~= seq!['v']);
    assert("V"@ =~= seq!['V']);
    if begins(e, "v"@) {
        assert(e.take(1)[0] == e[0]);
    }
    if begins(e, "V"@) {
        assert(e.take(1)[0] == e[0]);
    }
}

proof fn lemma_end_behind(a: Text, b: Text)
    requires
        b.len() > 0,
        !white_space(b[0]),
    ensures
        trimmed_end(a + b) == a + trimmed_end(b),
    decreases b.len(),
{
    let s = a + b;
    assert(s.last() == b.last());
    if white_space(b.last()) {
        assert(b.len() > 1);
        assert(s.drop_last() =~= a + b.drop_last());
        lemma_end_behind(a, b.drop_last());
    }
}

/// Four numbers are no version, whatever the fourth is.
pub proof fn four_numbers_are_no_version(v: Version, rest: Text)
    ensures
        semver(dotted(v) + "."@ + rest) is None,
{
    reveal_strlit(".");
    reveal_strlit("-+");
    reveal_strlit("v");
    reveal_strlit("V");
    let s = dotted(v) + "."@;
    let t = s + rest;
    lemma_dotted_all(v);
    assert(t[0] == dotted(v)[0]);
    assert(trimmed_start(t) == t);
    assert(s.last() == '.');
    lemma_keeps_front(s, rest);
    lemma_trimmed_end(t);
    let e = trimmed_end(t);
    assert(e[0] == t[0]);
    if begins(e, "v"@) {
        assert(e.take(1)[0] == e[0]);
    }
    if begins(e, "V"@) {
        assert(e.take(1)[0] == e[0]);
    }
    let stops = "-+"@;
    lemma_span(e, stops);
    let n = span(e, stops) as int;
    if n < s.len() {
        if n < dotted(v).len() {
            assert(e[n] == dotted(v)[n]);
        } else {
            assert(e[n] == '.');
        }
        assert(stops.contains(e[n]));
    }
    let core = version_core(t);
    assert(core == e.take(n));
    let a = decimal(v.0 as nat);
    let b = decimal(v.1 as nat);
    let c = decimal(v.2 as nat);
    let d = core.skip(s.len() as int);
    assert(core =~= a + "."@ + (b + "."@ + (c + "."@ + d)));
    lemma_decimal(v.0 as nat);
    lemma_decimal(v.1 as nat);
    lemma_decimal(v.2 as nat);
    lemma_pieces_step(a, b + "."@ + (c + "."@ + d));
    lemma_pieces_step(b, c + "."@ + d);
    lemma_pieces_step(c, d);
    lemma_some_piece(d);
    assert(pieces(core, "."@).len() > 3);
}

proof fn lemma_some_piece(s: Text)
    ensures
        pieces(s, "."@).len() > 0,
{
}

/// A text that has no digit in front, behind blanks and a `v`, is no version.
pub proof fn version_starts_with_a_number(s: Text)
    requires
        semver(s) is Some,
    ensures
        version_core(s).len() > 0,
        is_digit(version_core(s)[0]) || version_core(s)[0] == '+',
{
    reveal_strlit(".");
    let core = version_core(s);
    let stops = "."@;
    let parts = pieces(core, stops);
    lemma_span(core, stops);
    let n = span(core, stops) as int;
    assert(parts[0] == core.take(n)) by {
        if n >= core.len() {
            assert(core.take(n) =~= core);
        }
    }
    assert(parsed(parts[0], u64::MAX as nat) is Some);
    let d = parts[0];
    assert(d.len() > 0);
    assert(d[0] == core[0]);
    if d[0] != '+' {
        assert(all_digits(d));
        assert(is_digit(d[0]));
    }
}

/// An age is told in whole minutes below an hour, in whole hours below a day, and in
/// whole days from then on.
pub proof fn age_is_told_in_whole_units(secs: u64, n: nat)
    ensures
        secs < 60 ==> age(secs) == "just now"@,
        0 < n < 60 && 60 * n <= secs < 60 * (n + 1) ==> age(secs) == decimal(n) + "m ago"@,
        0 < n < 24 && 3600 * n <= secs < 3600 * (n + 1) ==> age(secs) == decimal(n) + "h ago"@,
        0 < n && 86400 * n <= secs < 86400 * (n + 1) ==> age(secs) == decimal(n) + "d ago"@,
{
}

} // verus!

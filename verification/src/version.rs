//! Versions: reading and writing them, and the next free one.
use crate::number::{
    all_digits, decimal, decimal_reads_back, is_digit, lemma_decimal, parse_number, parsed,
    push_number,
};
use crate::text::{
    before, begins, lemma_span_is, pieces, span, split, strip_prefix, texts, trim, trimmed,
    white_space, Text,
};
use vstd::prelude::*;

verus! {

/// Which part of a version to raise.
#[derive(Clone, Copy, PartialEq, Eq, Debug)]
pub enum Bump {
    Major,
    Minor,
    Patch,
}

/// A version: major, minor and patch number.
pub type Version = (u64, u64, u64);

/// A text without a `v` or `V` in front.
pub open spec fn without_v(s: Text) -> Text {
    if begins(s, "v"@) || begins(s, "V"@) {
        s.skip(1)
    } else {
        s
    }
}

/// The numbers part of a version: trimmed, without `v` in front and without what
/// follows from the first `-` or `+` on.
pub open spec fn version_core(s: Text) -> Text {
    let t = without_v(trimmed(s));
    t.take(span(t, "-+"@) as int)
}

/// The number in part `i`, zero where there is no such part.
pub open spec fn part(parts: Seq<Text>, i: int) -> Option<nat> {
    if i < parts.len() {
        parsed(parts[i], u64::MAX as nat)
    } else {
        Some(0)
    }
}

/// The version that a text writes down: one to three numbers with dots between.
pub open spec fn semver(s: Text) -> Option<Version> {
    let parts = pieces(version_core(s), "."@);
    if version_core(s).len() == 0 || parts.len() > 3 {
        None
    } else {
        match (part(parts, 0), part(parts, 1), part(parts, 2)) {
            (Some(a), Some(b), Some(c)) => Some((a as u64, b as u64, c as u64)),
            _ => None,
        }
    }
}

/// A version written out.
pub open spec fn dotted(v: Version) -> Text {
    decimal(v.0 as nat) + "."@ + decimal(v.1 as nat) + "."@ + decimal(v.2 as nat)
}

/// Whether `a` is older than `b`.
pub open spec fn older(a: Version, b: Version) -> bool {
    ||| a.0 < b.0
    ||| a.0 == b.0 && a.1 < b.1
    ||| a.0 == b.0 && a.1 == b.1 && a.2 < b.2
}

/// Whether a version can be raised without running out of numbers.
pub open spec fn can_bump(v: Version, b: Bump) -> bool {
    match b {
        Bump::Major => v.0 < u64::MAX,
        Bump::Minor => v.1 < u64::MAX,
        Bump::Patch => v.2 < u64::MAX,
    }
}

/// A version with one part raised and the parts behind it set to zero.
pub open spec fn bumped(v: Version, b: Bump) -> Version {
    match b {
        Bump::Major => ((v.0 + 1) as u64, 0, 0),
        Bump::Minor => (v.0, (v.1 + 1) as u64, 0),
        Bump::Patch => (v.0, v.1, (v.2 + 1) as u64),
    }
}

/// The newest of some versions, `0.0.0` if there is none.
pub open spec fn newest(vs: Seq<Version>) -> Version
    decreases vs.len(),
{
    if vs.len() == 0 {
        (0, 0, 0)
    } else {
        let m = newest(vs.drop_last());
        if older(m, vs.last()) {
            vs.last()
        } else {
            m
        }
    }
}

fn number_in(parts: &Vec<String>, i: usize) -> (r: Option<u64>)
    ensures
        match r {
            Some(n) => part(texts(parts@), i as int) == Some(n as nat),
            None => part(texts(parts@), i as int) is None,
        },
{
    if i < parts.len() {
        parse_number(&parts[i], u64::MAX)
    } else {
        Some(0)
    }
}

/// Reads a version: `MAJOR[.MINOR[.PATCH]]` with an optional `v` in front; a
/// pre-release or build suffix is dropped.
pub fn parse_semver(s: &str) -> (r: Option<(u64, u64, u64)>)
    ensures
        r == semver(s@),
{
    proof {
        reveal_strlit("v");
        reveal_strlit("V");
    }
    let t = trim(s);
    let t = match strip_prefix(t, "v") {
        Some(rest) => rest,
        None => match strip_prefix(t, "V") {
            Some(rest) => rest,
            None => t,
        },
    };
    let core = before(t, "-+");
    if core.is_empty() {
        return None;
    }
    let parts = split(core, ".");
    if parts.len() > 3 {
        return None;
    }
    match (number_in(&parts, 0), number_in(&parts, 1), number_in(&parts, 2)) {
        (Some(a), Some(b), Some(c)) => Some((a, b, c)),
        _ => None,
    }
}

/// A version written out.
pub fn fmt_semver(v: (u64, u64, u64)) -> (s: String)
    ensures
        s@ == dotted(v),
{
    let mut s = String::new();
    push_number(&mut s, v.0);
    assert(s@ =~= decimal(v.0 as nat));
    s.append(".");
    push_number(&mut s, v.1);
    s.append(".");
    push_number(&mut s, v.2);
    s
}

/// Raises one part of a version.
pub fn bump_ver(v: (u64, u64, u64), b: Bump) -> (r: (u64, u64, u64))
    requires
        can_bump(v, b),
    ensures
        r == bumped(v, b),
{
    match b {
        Bump::Major => (v.0 + 1, 0, 0),
        Bump::Minor => (v.0, v.1 + 1, 0),
        Bump::Patch => (v.0, v.1, v.2 + 1),
    }
}

/// Whether `a` is older than `b`.
pub fn is_older(a: (u64, u64, u64), b: (u64, u64, u64)) -> (r: bool)
    ensures
        r == older(a, b),
{
    a.0 < b.0 || (a.0 == b.0 && (a.1 < b.1 || (a.1 == b.1 && a.2 < b.2)))
}

/// The newest of some versions, `0.0.0` if there is none.
pub fn newest_of(existing: &[(u64, u64, u64)]) -> (m: (u64, u64, u64))
    ensures
        m == newest(existing@),
{
    let mut m: (u64, u64, u64) = (0, 0, 0);
    let mut i: usize = 0;
    assert(existing@.take(0) =~= Seq::<Version>::empty());
    while i < existing.len()
        invariant
            i <= existing@.len(),
            m == newest(existing@.take(i as int)),
        decreases existing@.len() - i,
    {
        let v = existing[i];
        assert(existing@.take(i + 1).drop_last() =~= existing@.take(i as int));
        if is_older(m, v) {
            m = v;
        }
        i = i + 1;
    }
    assert(existing@.take(i as int) =~= existing@);
    m
}

/// The next free version: the newest one that is taken, raised.
pub fn next_version(existing: &[(u64, u64, u64)], b: Bump) -> (r: (u64, u64, u64))
    requires
        can_bump(newest(existing@), b),
    ensures
        r == bumped(newest(existing@), b),
{
    bump_ver(newest_of(existing), b)
}

/// A raised version is newer than it was.
pub proof fn bump_is_newer(v: Version, b: Bump)
    requires
        can_bump(v, b),
    ensures
        older(v, bumped(v, b)),
{
}

/// No version is newer than the newest one.
pub proof fn newest_is_newest(vs: Seq<Version>)
    ensures
        forall|i: int| 0 <= i < vs.len() ==> !older(newest(vs), #[trigger] vs[i]),
        vs.len() > 0 && newest(vs) != (0u64, 0u64, 0u64) ==> vs.contains(newest(vs)),
    decreases vs.len(),
{
    if vs.len() > 0 {
        let t = vs.drop_last();
        newest_is_newest(t);
        assert forall|i: int| 0 <= i < vs.len() implies !older(newest(vs), #[trigger] vs[i]) by {
            if i < t.len() {
                assert(vs[i] == t[i]);
            }
        }
        if older(newest(t), vs.last()) {
            assert(vs[vs.len() - 1] == newest(vs));
        } else if t.len() > 0 && newest(vs) != (0u64, 0u64, 0u64) {
            let k = choose|k: int| 0 <= k < t.len() && t[k] == newest(t);
            assert(vs[k] == newest(vs));
        }
    }
}

/// The next version is newer than every one that is taken, so it is free.
pub proof fn next_version_is_free(vs: Seq<Version>, b: Bump)
    requires
        can_bump(newest(vs), b),
    ensures
        forall|i: int| 0 <= i < vs.len() ==> older(#[trigger] vs[i], bumped(newest(vs), b)),
        !vs.contains(bumped(newest(vs), b)),
{
    newest_is_newest(vs);
    bump_is_newer(newest(vs), b);
    assert forall|i: int| 0 <= i < vs.len() implies older(
        #[trigger] vs[i],
        bumped(newest(vs), b),
    ) by {
        assert(!older(newest(vs), vs[i]));
    }
    if vs.contains(bumped(newest(vs), b)) {
        let k = choose|k: int| 0 <= k < vs.len() && vs[k] == bumped(newest(vs), b);
        assert(older(vs[k], vs[k]));
    }
}

pub(crate) proof fn lemma_pieces_step(a: Text, b: Text)
    requires
        all_digits(a),
    ensures
        pieces(a + "."@ + b, "."@) == seq![a] + pieces(b, "."@),
{
    reveal_strlit(".");
    let stops = "."@;
    let s = a + stops + b;
    assert forall|i: int| 0 <= i < a.len() implies !stops.contains(#[trigger] s[i]) by {
        assert(s[i] == a[i]);
        assert(is_digit(a[i]));
    }
    assert(s[a.len() as int] == stops[0]);
    lemma_span_is(s, stops, a.len());
    assert(s.take(a.len() as int) =~= a);
    assert(s.skip(a.len() as int + 1) =~= b);
}

pub(crate) proof fn lemma_pieces_last(c: Text)
    requires
        all_digits(c),
    ensures
        pieces(c, "."@) == seq![c],
{
    reveal_strlit(".");
    assert forall|i: int| 0 <= i < c.len() implies !"."@.contains(#[trigger] c[i]) by {
        assert(is_digit(c[i]));
    }
    lemma_span_is(c, "."@, c.len());
    assert(c.take(c.len() as int) =~= c);
}

/// Where a character of a written version comes from.
pub(crate) proof fn lemma_dotted_chars(v: Version, i: int)
    requires
        0 <= i < dotted(v).len(),
    ensures
        is_digit(dotted(v)[i]) || dotted(v)[i] == '.',
        i == 0 || i == dotted(v).len() - 1 ==> is_digit(dotted(v)[i]),
        dotted(v).len() > 0,
{
    reveal_strlit(".");
    let a = decimal(v.0 as nat);
    let b = decimal(v.1 as nat);
    let c = decimal(v.2 as nat);
    let s = dotted(v);
    lemma_decimal(v.0 as nat);
    lemma_decimal(v.1 as nat);
    lemma_decimal(v.2 as nat);
    if i < a.len() {
        assert(s[i] == a[i]);
    } else if i == a.len() {
        assert(s[i] == '.');
    } else if i < a.len() + 1 + b.len() {
        assert(s[i] == b[i - a.len() - 1]);
    } else if i == a.len() + 1 + b.len() {
        assert(s[i] == '.');
    } else {
        assert(s[i] == c[i - a.len() - b.len() - 2]);
    }
}

proof fn lemma_dotted_core(v: Version)
    ensures
        version_core(dotted(v)) == dotted(v),
        dotted(v).len() > 0,
{
    reveal_strlit("v");
    reveal_strlit("V");
    reveal_strlit("-+");
    lemma_decimal(v.0 as nat);
    let s = dotted(v);
    lemma_dotted_chars(v, 0);
    lemma_dotted_chars(v, s.len() - 1);
    lemma_settled(s);
    if begins(s, "v"@) {
        assert(s.take(1)[0] == s[0]);
    }
    if begins(s, "V"@) {
        assert(s.take(1)[0] == s[0]);
    }
    assert forall|i: int| 0 <= i < s.len() implies !"-+"@.contains(#[trigger] s[i]) by {
        lemma_dotted_chars(v, i);
    }
    lemma_span_is(s, "-+"@, s.len());
    assert(s.take(s.len() as int) =~= s);
}

/// A text without white space at its ends is trimmed.
proof fn lemma_settled(s: Text)
    requires
        s.len() > 0,
        !white_space(s[0]),
        !white_space(s.last()),
    ensures
        trimmed(s) == s,
{
}

/// A version that was written out reads back.
pub proof fn semver_reads_back(v: Version)
    ensures
        semver(dotted(v)) == Some(v),
{
    let a = decimal(v.0 as nat);
    let b = decimal(v.1 as nat);
    let c = decimal(v.2 as nat);
    let s = dotted(v);
    let bc = b + "."@ + c;
    lemma_dotted_core(v);
    lemma_decimal(v.0 as nat);
    lemma_decimal(v.1 as nat);
    lemma_decimal(v.2 as nat);
    assert(s =~= a + "."@ + bc);
    lemma_pieces_step(a, bc);
    lemma_pieces_step(b, c);
    lemma_pieces_last(c);
    assert(pieces(s, "."@) =~= seq![a, b, c]);
    decimal_reads_back(v.0 as nat, u64::MAX as nat);
    decimal_reads_back(v.1 as nat, u64::MAX as nat);
    decimal_reads_back(v.2 as nat, u64::MAX as nat);
}

/// How long ago something was, in its largest whole unit.
pub open spec fn age(secs: u64) -> Text {
    if secs < 60 {
        "just now"@
    } else if secs / 60 < 60 {
        decimal(secs as nat / 60) + "m ago"@
    } else if secs / 3600 < 24 {
        decimal(secs as nat / 3600) + "h ago"@
    } else {
        decimal(secs as nat / 86400) + "d ago"@
    }
}

/// How long ago something was, in words.
pub fn human_age(secs: u64) -> (r: String)
    ensures
        r@ == age(secs),
{
    if secs < 60 {
        return "just now".to_string();
    }
    let mut s = String::new();
    let m = secs / 60;
    let h = m / 60;
    assert(h == secs / 3600);
    assert(h / 24 == secs / 86400);
    if m < 60 {
        push_number(&mut s, m);
        assert(s@ =~= decimal(m as nat));
        s.append("m ago");
    } else if h < 24 {
        push_number(&mut s, h);
        assert(s@ =~= decimal(h as nat));
        s.append("h ago");
    } else {
        push_number(&mut s, h / 24);
        assert(s@ =~= decimal((h / 24) as nat));
        s.append("d ago");
    }
    s
}

} // verus!

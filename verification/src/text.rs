//! Text as sequences of characters: the vocabulary in which every contract of
//! the library is written, and the executable operations that match it.
use vstd::prelude::*;

verus! {

/// The model of a string: its characters in order.
pub type Text = Seq<char>;

/// Appends one character, as the documentation of `String::push` says.
pub assume_specification[ String::push ](s: &mut String, c: char)
    ensures
        final(s)@ == old(s)@.push(c),
;

/// The Unicode `White_Space` property.
pub open spec fn white_space(c: char) -> bool {
    ||| '\t' <= c <= '\r'
    ||| c == ' '
    ||| c == '\u{85}'
    ||| c == '\u{a0}'
    ||| c == '\u{1680}'
    ||| '\u{2000}' <= c <= '\u{200a}'
    ||| c == '\u{2028}'
    ||| c == '\u{2029}'
    ||| c == '\u{202f}'
    ||| c == '\u{205f}'
    ||| c == '\u{3000}'
}

/// `s` without its leading white space.
pub open spec fn trimmed_start(s: Text) -> Text
    decreases s.len(),
{
    if s.len() > 0 && white_space(s[0]) {
        trimmed_start(s.skip(1))
    } else {
        s
    }
}

/// `s` without its trailing white space.
pub open spec fn trimmed_end(s: Text) -> Text
    decreases s.len(),
{
    if s.len() > 0 && white_space(s.last()) {
        trimmed_end(s.drop_last())
    } else {
        s
    }
}

/// `s` without white space at either end.
pub open spec fn trimmed(s: Text) -> Text {
    trimmed_end(trimmed_start(s))
}

/// Whether `p` stands in `s` at index `i`.
pub open spec fn occurs_at(s: Text, p: Text, i: int) -> bool {
    0 <= i && i + p.len() <= s.len() && s.subrange(i, i + p.len()) == p
}

/// The first index, from `i` on, at which `p` stands in `s`.
pub open spec fn position_from(s: Text, p: Text, i: int) -> Option<int>
    decreases s.len() - i + 1,
{
    if i < 0 || i + p.len() > s.len() {
        None
    } else if occurs_at(s, p, i) {
        Some(i)
    } else {
        position_from(s, p, i + 1)
    }
}

/// The first index at which `p` stands in `s`.
pub open spec fn position(s: Text, p: Text) -> Option<int> {
    position_from(s, p, 0)
}

/// Whether `p` stands somewhere in `s`.
pub open spec fn contains(s: Text, p: Text) -> bool {
    position(s, p) is Some
}

/// Whether `s` begins with `p`.
pub open spec fn begins(s: Text, p: Text) -> bool {
    p.len() <= s.len() && s.take(p.len() as int) == p
}

/// Whether `s` ends with `p`.
pub open spec fn ends(s: Text, p: Text) -> bool {
    p.len() <= s.len() && s.skip(s.len() - p.len()) == p
}

/// `s` with every copy of `p` cut off its end, one after another.
pub open spec fn without_suffixes(s: Text, p: Text) -> Text
    decreases s.len(),
{
    if p.len() > 0 && ends(s, p) {
        without_suffixes(s.take(s.len() - p.len()), p)
    } else {
        s
    }
}

/// How many characters of `s` come before the first one that is in `stops`.
pub open spec fn span(s: Text, stops: Text) -> nat
    decreases s.len(),
{
    if s.len() == 0 || stops.contains(s[0]) {
        0
    } else {
        1 + span(s.skip(1), stops)
    }
}

/// `s` cut at every character that is in `stops`; those characters are dropped.
pub open spec fn pieces(s: Text, stops: Text) -> Seq<Text>
    decreases s.len(),
{
    let n = span(s, stops) as int;
    if n >= s.len() {
        seq![s]
    } else {
        seq![s.take(n)] + pieces(s.skip(n + 1), stops)
    }
}

/// `s` without one final carriage return.
pub open spec fn without_return(s: Text) -> Text {
    if s.len() > 0 && s.last() == '\r' {
        s.drop_last()
    } else {
        s
    }
}

/// The lines of `s`: each ends at a line feed, or a carriage return and a line
/// feed, which are dropped; the last line needs no ending.
pub open spec fn lines_of(s: Text) -> Seq<Text>
    decreases s.len(),
{
    if s.len() == 0 {
        Seq::empty()
    } else {
        let n = span(s, seq!['\n']) as int;
        if n >= s.len() {
            seq![s]
        } else {
            seq![without_return(s.take(n))] + lines_of(s.skip(n + 1))
        }
    }
}

/// Every part with `sep` in front of it, one after another.
pub open spec fn prefixed(parts: Seq<Text>, sep: Text) -> Text
    decreases parts.len(),
{
    if parts.len() == 0 {
        Seq::empty()
    } else {
        sep + parts[0] + prefixed(parts.skip(1), sep)
    }
}

/// The parts one after another with `sep` between each two.
pub open spec fn joined(parts: Seq<Text>, sep: Text) -> Text {
    if parts.len() == 0 {
        Seq::empty()
    } else {
        parts[0] + prefixed(parts.skip(1), sep)
    }
}

/// `s` with every copy of `from` replaced by `to`, found from left to right and
/// without overlap.
pub open spec fn replaced(s: Text, from: Text, to: Text) -> Text
    decreases s.len(),
{
    if from.len() == 0 || s.len() < from.len() {
        s
    } else if begins(s, from) {
        to + replaced(s.skip(from.len() as int), from, to)
    } else {
        seq![s[0]] + replaced(s.skip(1), from, to)
    }
}

/// `s` with every character that is in `from` replaced by `to`.
pub open spec fn chars_replaced(s: Text, from: Text, to: char) -> Text {
    s.map_values(|c: char| if from.contains(c) { to } else { c })
}

/// `n` copies of `s`, one after another.
pub open spec fn repeated(s: Text, n: nat) -> Text
    decreases n,
{
    if n == 0 {
        Seq::empty()
    } else {
        repeated(s, (n - 1) as nat) + s
    }
}

/// `s` filled up with blanks on the right until it has `width` characters.
pub open spec fn padded(s: Text, width: nat) -> Text {
    if s.len() >= width {
        s
    } else {
        s + repeated(seq![' '], (width - s.len()) as nat)
    }
}

/// The models of some strings.
pub open spec fn texts(v: Seq<String>) -> Seq<Text> {
    v.map_values(|s: String| s@)
}

/// The models of some string slices.
pub open spec fn slices(v: Seq<&str>) -> Seq<Text> {
    v.map_values(|s: &str| s@)
}

/// `s` cut at every character that is in `stops`, each piece trimmed, without
/// the empty ones.
pub open spec fn items_of(s: Text, stops: Text) -> Seq<Text> {
    pieces(s, stops).map_values(|p: Text| trimmed(p)).filter(|p: Text| p.len() > 0)
}

/// How many characters stand in front of the first white space.
pub open spec fn word_len(s: Text) -> nat
    decreases s.len(),
{
    if s.len() == 0 || white_space(s[0]) {
        0
    } else {
        1 + word_len(s.skip(1))
    }
}

/// The words of `s`: the longest rows of characters without white space.
pub open spec fn words_of(s: Text) -> Seq<Text>
    decreases s.len(),
{
    let t = trimmed_start(s);
    if t.len() == 0 {
        Seq::empty()
    } else {
        proof {
            lemma_trimmed_start(s);
            lemma_word_len(t);
        }
        seq![t.take(word_len(t) as int)] + words_of(t.skip(word_len(t) as int))
    }
}

/// A word is no longer than the text, and not empty where one begins.
pub proof fn lemma_word_len(s: Text)
    ensures
        word_len(s) <= s.len(),
        s.len() > 0 && !white_space(s[0]) ==> word_len(s) > 0,
    decreases s.len(),
{
    if s.len() == 0 || white_space(s[0]) {
    } else {
        lemma_word_len(s.skip(1));
    }
}

/// What is trimmed off the front is white space, and what is left begins without.
pub proof fn lemma_trimmed_start(s: Text)
    ensures
        trimmed_start(s).len() <= s.len(),
        trimmed_start(s) == s.skip(s.len() - trimmed_start(s).len()),
        trimmed_start(s).len() > 0 ==> !white_space(trimmed_start(s)[0]),
        forall|i: int|
            0 <= i < s.len() - trimmed_start(s).len() ==> #[trigger] white_space(s[i]),
    decreases s.len(),
{
    if s.len() > 0 && white_space(s[0]) {
        let t = s.skip(1);
        lemma_trimmed_start(t);
        assert(trimmed_start(s) =~= s.skip(s.len() - trimmed_start(s).len()));
        assert forall|i: int| 0 <= i < s.len() - trimmed_start(s).len() implies #[trigger] white_space(
            s[i],
        ) by {
            if i > 0 {
                assert(s[i] == t[i - 1]);
            }
        }
    } else {
        assert(s =~= s.skip(0));
    }
}

/// Trimming the end leaves a beginning.
pub proof fn lemma_trimmed_end(s: Text)
    ensures
        trimmed_end(s).len() <= s.len(),
        trimmed_end(s) == s.take(trimmed_end(s).len() as int),
    decreases s.len(),
{
    if s.len() > 0 && white_space(s.last()) {
        lemma_trimmed_end(s.drop_last());
        assert(trimmed_end(s) =~= s.take(trimmed_end(s).len() as int));
    } else {
        assert(s =~= s.take(s.len() as int));
    }
}

/// What `position_from` finds: the first place, or that there is none.
pub proof fn lemma_position_from(s: Text, p: Text, i: int)
    requires
        0 <= i,
    ensures
        match position_from(s, p, i) {
            Some(k) => {
                &&& i <= k
                &&& occurs_at(s, p, k)
                &&& forall|j: int| i <= j < k ==> !#[trigger] occurs_at(s, p, j)
            },
            None => forall|j: int| i <= j ==> !#[trigger] occurs_at(s, p, j),
        },
    decreases s.len() - i + 1,
{
    if i + p.len() > s.len() || occurs_at(s, p, i) {
    } else {
        lemma_position_from(s, p, i + 1);
    }
}

/// The first place at which a pattern stands is where `position` says it is.
pub proof fn lemma_position_is(s: Text, p: Text, k: int)
    requires
        occurs_at(s, p, k),
        forall|j: int| 0 <= j < k ==> !#[trigger] occurs_at(s, p, j),
    ensures
        position(s, p) == Some(k),
{
    lemma_position_from(s, p, 0);
}

/// Searching from an index on is searching what is left from there.
pub proof fn lemma_position_shift(s: Text, p: Text, i: int)
    requires
        0 <= i <= s.len(),
    ensures
        position_from(s, p, i) == (match position(s.skip(i), p) {
            Some(k) => Some(i + k),
            None => None,
        }),
{
    let t = s.skip(i);
    lemma_position_from(s, p, i);
    lemma_position_from(t, p, 0);
    assert forall|j: int| 0 <= j implies occurs_at(s, p, i + j) == #[trigger] occurs_at(t, p, j) by {
        if i + j + p.len() <= s.len() {
            assert(s.subrange(i + j, i + j + p.len()) =~= t.subrange(j, j + p.len()));
        }
    }
    match (position_from(s, p, i), position(t, p)) {
        (Some(a), Some(b)) => {
            assert(occurs_at(t, p, a - i));
            assert(occurs_at(s, p, i + b));
        },
        (Some(a), None) => {
            assert(occurs_at(t, p, a - i));
        },
        (None, Some(b)) => {
            assert(occurs_at(s, p, i + b));
        },
        (None, None) => {},
    }
}

/// Before the first stop there is none, and there it is, unless the text ends.
pub proof fn lemma_span(s: Text, stops: Text)
    ensures
        span(s, stops) <= s.len(),
        forall|i: int| 0 <= i < span(s, stops) ==> !stops.contains(#[trigger] s[i]),
        span(s, stops) < s.len() ==> stops.contains(s[span(s, stops) as int]),
    decreases s.len(),
{
    if s.len() == 0 || stops.contains(s[0]) {
    } else {
        let t = s.skip(1);
        lemma_span(t, stops);
        assert forall|i: int| 0 <= i < span(s, stops) implies !stops.contains(#[trigger] s[i]) by {
            if i > 0 {
                assert(s[i] == t[i - 1]);
            }
        }
        if span(s, stops) < s.len() {
            assert(s[span(s, stops) as int] == t[span(t, stops) as int]);
        }
    }
}

/// `span` is the only length with the two properties of `lemma_span`.
pub proof fn lemma_span_is(s: Text, stops: Text, n: nat)
    requires
        n <= s.len(),
        forall|i: int| 0 <= i < n ==> !stops.contains(#[trigger] s[i]),
        n < s.len() ==> stops.contains(s[n as int]),
    ensures
        span(s, stops) == n,
{
    lemma_span(s, stops);
    let m = span(s, stops);
    if m < n {
        assert(!stops.contains(s[m as int]));
    } else if n < m {
        assert(!stops.contains(s[n as int]));
    }
}

/// The characters of a string.
pub fn chars_of(s: &str) -> (cs: Vec<char>)
    ensures
        cs@ == s@,
{
    let mut cs: Vec<char> = Vec::new();
    for c in it: s.chars()
        invariant
            it.seq() == s@,
            cs@ == s@.take(it.index() as int),
    {
        cs.push(c);
        assert(cs@ =~= s@.take(it.index() + 1));
    }
    assert(s@.take(s@.len() as int) =~= s@);
    cs
}

/// The string with the characters of `cs` from `from` up to `to`.
pub fn string_of(cs: &[char], from: usize, to: usize) -> (s: String)
    requires
        from <= to <= cs@.len(),
    ensures
        s@ == cs@.subrange(from as int, to as int),
{
    let mut s = String::new();
    let mut i: usize = from;
    while i < to
        invariant
            from <= i <= to <= cs@.len(),
            s@ == cs@.subrange(from as int, i as int),
        decreases to - i,
    {
        s.push(cs[i]);
        i = i + 1;
        assert(s@ =~= cs@.subrange(from as int, i as int));
    }
    s
}

/// Whether two strings hold the same text.
pub fn same(a: &str, b: &str) -> (r: bool)
    ensures
        r == (a@ == b@),
{
    a.to_string() == b.to_string()
}

/// Whether a character is white space.
pub fn is_white_space(c: char) -> (r: bool)
    ensures
        r == white_space(c),
{
    ('\t' <= c && c <= '\r') || c == ' ' || c == '\u{85}' || c == '\u{a0}' || c == '\u{1680}' || (
    '\u{2000}' <= c && c <= '\u{200a}') || c == '\u{2028}' || c == '\u{2029}' || c == '\u{202f}'
        || c == '\u{205f}' || c == '\u{3000}'
}

/// How many white-space characters `cs` begins with.
fn leading_blanks(cs: &Vec<char>) -> (n: usize)
    ensures
        n == cs@.len() - trimmed_start(cs@).len(),
        trimmed_start(cs@) == cs@.skip(n as int),
{
    let mut i: usize = 0;
    assert(cs@.skip(0) =~= cs@);
    while i < cs.len() && is_white_space(cs[i])
        invariant
            i <= cs@.len(),
            trimmed_start(cs@) == trimmed_start(cs@.skip(i as int)),
        decreases cs@.len() - i,
    {
        assert(cs@.skip(i as int).skip(1) =~= cs@.skip(i + 1));
        i = i + 1;
    }
    i
}

/// The string without its leading white space.
pub fn trim_start(s: &str) -> (r: &str)
    ensures
        r@ == trimmed_start(s@),
{
    let cs = chars_of(s);
    let from = leading_blanks(&cs);
    s.substring_char(from, cs.len())
}

/// The string without white space at either end.
pub fn trim(s: &str) -> (r: &str)
    ensures
        r@ == trimmed(s@),
{
    let cs = chars_of(s);
    let from = leading_blanks(&cs);
    let mut to: usize = cs.len();
    let ghost t = cs@.skip(from as int);
    assert(t.take(t.len() as int) =~= t);
    while to > from && is_white_space(cs[to - 1])
        invariant
            from <= to <= cs@.len(),
            t == cs@.skip(from as int),
            trimmed_end(t) == trimmed_end(t.take(to - from)),
        decreases to,
    {
        assert(t.take(to - from).drop_last() =~= t.take(to - from - 1));
        to = to - 1;
    }
    assert(cs@.subrange(from as int, to as int) =~= t.take(to - from));
    s.substring_char(from, to)
}

/// Whether `p` stands in `cs` at index `i`.
fn occurs(cs: &Vec<char>, p: &Vec<char>, i: usize) -> (r: bool)
    ensures
        r == occurs_at(cs@, p@, i as int),
{
    let n = cs.len();
    if n < p.len() || i > n - p.len() {
        return false;
    }
    let mut k: usize = 0;
    while k < p.len()
        invariant
            k <= p@.len(),
            i + p@.len() <= cs@.len(),
            cs@.len() == n,
            forall|j: int| 0 <= j < k ==> cs@[i + j] == p@[j],
        decreases p@.len() - k,
    {
        if cs[i + k] != p[k] {
            assert(cs@.subrange(i as int, i + p@.len())[k as int] != p@[k as int]);
            return false;
        }
        k = k + 1;
    }
    assert(cs@.subrange(i as int, i + p@.len()) =~= p@);
    true
}

/// The first index, from `from` on, at which `p` stands in `cs`.
pub(crate) fn search_from(cs: &Vec<char>, p: &Vec<char>, from: usize) -> (r: Option<usize>)
    ensures
        match r {
            Some(k) => position_from(cs@, p@, from as int) == Some(k as int),
            None => position_from(cs@, p@, from as int) is None,
        },
{
    if cs.len() < p.len() {
        return None;
    }
    let end = cs.len() - p.len();
    let mut i: usize = from;
    while i <= end
        invariant
            from <= i,
            end + p@.len() == cs@.len(),
            i <= end + 1 || i == from,
            position_from(cs@, p@, from as int) == position_from(cs@, p@, i as int),
        decreases end + 1 - i,
    {
        if occurs(cs, p, i) {
            return Some(i);
        }
        if i == end {
            assert(position_from(cs@, p@, i + 1) is None);
            return None;
        }
        i = i + 1;
    }
    None
}

/// The index of the first character at which `p` stands in `s`.
pub fn find(s: &str, p: &str) -> (r: Option<usize>)
    ensures
        match r {
            Some(k) => position(s@, p@) == Some(k as int) && k + p@.len() <= s@.len(),
            None => position(s@, p@) is None,
        },
{
    let r = search_from(&chars_of(s), &chars_of(p), 0);
    proof {
        lemma_position_from(s@, p@, 0);
    }
    r
}

/// Whether `p` stands somewhere in `s`.
pub fn has(s: &str, p: &str) -> (r: bool)
    ensures
        r == contains(s@, p@),
{
    find(s, p).is_some()
}

/// Whether `s` begins with `p`.
pub fn starts_with(s: &str, p: &str) -> (r: bool)
    ensures
        r == begins(s@, p@),
{
    assert(p@.len() <= s@.len() ==> s@.subrange(0, p@.len() as int) =~= s@.take(p@.len() as int));
    occurs(&chars_of(s), &chars_of(p), 0)
}

/// Whether `s` ends with `p`.
pub fn ends_with(s: &str, p: &str) -> (r: bool)
    ensures
        r == ends(s@, p@),
{
    let cs = chars_of(s);
    let ps = chars_of(p);
    if cs.len() < ps.len() {
        return false;
    }
    let from = cs.len() - ps.len();
    assert(s@.subrange(from as int, from + p@.len()) =~= s@.skip(from as int));
    occurs(&cs, &ps, from)
}

/// What follows `p` in `s`, if `s` begins with `p`.
pub fn strip_prefix<'a>(s: &'a str, p: &str) -> (r: Option<&'a str>)
    ensures
        match r {
            Some(rest) => begins(s@, p@) && rest@ == s@.skip(p@.len() as int),
            None => !begins(s@, p@),
        },
{
    if starts_with(s, p) {
        let r = s.substring_char(p.unicode_len(), s.unicode_len());
        assert(r@ =~= s@.skip(p@.len() as int));
        Some(r)
    } else {
        None
    }
}

/// `s` with every copy of `p` cut off its end.
pub fn strip_suffixes<'a>(s: &'a str, p: &str) -> (r: &'a str)
    ensures
        r@ == without_suffixes(s@, p@),
{
    let cs = chars_of(s);
    let ps = chars_of(p);
    let mut to: usize = cs.len();
    assert(s@.take(to as int) =~= s@);
    while ps.len() > 0 && to >= ps.len() && occurs(&cs, &ps, to - ps.len())
        invariant
            cs@ == s@,
            ps@ == p@,
            to <= s@.len(),
            without_suffixes(s@, p@) == without_suffixes(s@.take(to as int), p@),
        decreases to,
    {
        let ghost t = s@.take(to as int);
        assert(t.skip(t.len() - p@.len()) =~= s@.subrange(to - p@.len(), to as int));
        assert(t.take(t.len() - p@.len()) =~= s@.take(to - p@.len()));
        to = to - ps.len();
    }
    proof {
        let t = s@.take(to as int);
        if p@.len() > 0 && p@.len() <= to {
            assert(t.skip(t.len() - p@.len()) =~= s@.subrange(to - p@.len(), to as int));
        }
    }
    let r = s.substring_char(0, to);
    assert(r@ =~= s@.take(to as int));
    r
}

/// Whether a character occurs in `cs`.
fn listed(cs: &Vec<char>, c: char) -> (r: bool)
    ensures
        r == cs@.contains(c),
{
    let mut i: usize = 0;
    while i < cs.len()
        invariant
            i <= cs@.len(),
            forall|j: int| 0 <= j < i ==> cs@[j] != c,
        decreases cs@.len() - i,
    {
        if cs[i] == c {
            assert(cs@[i as int] == c);
            return true;
        }
        i = i + 1;
    }
    false
}

/// The first index, from `from` on, of a character that is in `stops`, or the
/// length of `cs`.
fn stop_from(cs: &Vec<char>, stops: &Vec<char>, from: usize) -> (to: usize)
    requires
        from <= cs@.len(),
    ensures
        from <= to <= cs@.len(),
        to - from == span(cs@.skip(from as int), stops@),
{
    let mut i: usize = from;
    let ghost t = cs@.skip(from as int);
    while i < cs.len() && !listed(stops, cs[i])
        invariant
            from <= i <= cs@.len(),
            t == cs@.skip(from as int),
            forall|j: int| 0 <= j < i - from ==> !stops@.contains(#[trigger] t[j]),
        decreases cs@.len() - i,
    {
        assert(t[i - from] == cs@[i as int]);
        i = i + 1;
    }
    proof {
        if i < cs@.len() {
            assert(t[i - from] == cs@[i as int]);
        }
        lemma_span_is(t, stops@, (i - from) as nat);
    }
    i
}

/// `s` cut at every character that is in `stops`.
pub fn split(s: &str, stops: &str) -> (r: Vec<String>)
    ensures
        texts(r@) == pieces(s@, stops@),
{
    let cs = chars_of(s);
    let ss = chars_of(stops);
    let mut r: Vec<String> = Vec::new();
    let mut i: usize = 0;
    assert(texts(r@) + pieces(s@.skip(0), stops@) =~= pieces(s@, stops@)) by {
        assert(s@.skip(0) =~= s@);
    }
    loop
        invariant
            i <= cs@.len(),
            cs@ == s@,
            ss@ == stops@,
            texts(r@) + pieces(s@.skip(i as int), stops@) == pieces(s@, stops@),
        decreases cs@.len() - i,
    {
        let to = stop_from(&cs, &ss, i);
        let ghost rest = s@.skip(i as int);
        let ghost before = texts(r@);
        let piece = string_of(&cs, i, to);
        assert(piece@ =~= rest.take(to - i));
        r.push(piece);
        assert(texts(r@) =~= before.push(piece@));
        if to == cs.len() {
            assert(piece@ =~= rest);
            assert(texts(r@) =~= before + seq![rest]);
            return r;
        }
        assert(rest.skip(to - i + 1) =~= s@.skip(to + 1));
        assert(texts(r@) + pieces(s@.skip(to + 1), stops@) =~= before + (seq![piece@] + pieces(
            s@.skip(to + 1),
            stops@,
        )));
        i = to + 1;
    }
}

/// The part of `s` before the first character that is in `stops`.
pub fn before<'a>(s: &'a str, stops: &str) -> (r: &'a str)
    ensures
        r@ == s@.take(span(s@, stops@) as int),
{
    let cs = chars_of(s);
    assert(s@.skip(0) =~= s@);
    let to = stop_from(&cs, &chars_of(stops), 0);
    let r = s.substring_char(0, to);
    assert(r@ =~= s@.take(to as int));
    r
}

/// The lines of `s`.
pub fn lines(s: &str) -> (r: Vec<String>)
    ensures
        texts(r@) == lines_of(s@),
{
    let cs = chars_of(s);
    let mut stops: Vec<char> = Vec::new();
    stops.push('\n');
    let mut r: Vec<String> = Vec::new();
    let mut i: usize = 0;
    assert(stops@ =~= seq!['\n']);
    assert(texts(r@) + lines_of(s@.skip(0)) =~= lines_of(s@)) by {
        assert(s@.skip(0) =~= s@);
    }
    while i < cs.len()
        invariant
            i <= cs@.len(),
            cs@ == s@,
            stops@ == seq!['\n'],
            texts(r@) + lines_of(s@.skip(i as int)) == lines_of(s@),
        decreases cs@.len() - i,
    {
        let to = stop_from(&cs, &stops, i);
        let ghost rest = s@.skip(i as int);
        let ghost before = texts(r@);
        if to == cs.len() {
            let line = string_of(&cs, i, to);
            assert(line@ =~= rest);
            r.push(line);
            assert(texts(r@) =~= before + lines_of(rest));
            return r;
        }
        let end = if to > i && cs[to - 1] == '\r' {
            to - 1
        } else {
            to
        };
        let line = string_of(&cs, i, end);
        assert(line@ =~= without_return(rest.take(to - i)));
        r.push(line);
        assert(rest.skip(to - i + 1) =~= s@.skip(to + 1));
        assert(texts(r@) + lines_of(s@.skip(to + 1)) =~= before + (seq![line@] + lines_of(
            s@.skip(to + 1),
        )));
        i = to + 1;
    }
    assert(s@.skip(i as int).len() == 0);
    assert(texts(r@) =~= lines_of(s@));
    r
}

/// The parts one after another with `sep` between each two.
pub fn join(parts: &[String], sep: &str) -> (r: String)
    ensures
        r@ == joined(texts(parts@), sep@),
{
    let ghost all = texts(parts@);
    if parts.len() == 0 {
        return String::new();
    }
    let mut r = parts[0].clone();
    let mut i: usize = 1;
    while i < parts.len()
        invariant
            1 <= i <= parts@.len(),
            all == texts(parts@),
            r@ + prefixed(all.skip(i as int), sep@) == joined(all, sep@),
        decreases parts@.len() - i,
    {
        let ghost rest = all.skip(i as int);
        let ghost done = r@;
        r.append(sep);
        r.append(&parts[i]);
        assert(rest[0] == parts@[i as int]@);
        assert(rest.skip(1) =~= all.skip(i + 1));
        assert(done + (sep@ + rest[0] + prefixed(rest.skip(1), sep@)) =~= done + sep@ + rest[0]
            + prefixed(rest.skip(1), sep@));
        i = i + 1;
    }
    assert(all.skip(i as int).len() == 0);
    assert(r@ =~= joined(all, sep@));
    r
}

/// `s` with every copy of `from` replaced by `to`.
pub fn replace(s: &str, from: &str, to: &str) -> (r: String)
    requires
        from@.len() > 0,
    ensures
        r@ == replaced(s@, from@, to@),
{
    let cs = chars_of(s);
    let fs = chars_of(from);
    let mut r = String::new();
    let mut i: usize = 0;
    assert(r@ + replaced(s@.skip(0), from@, to@) =~= replaced(s@, from@, to@)) by {
        assert(s@.skip(0) =~= s@);
    }
    while i < cs.len()
        invariant
            i <= cs@.len(),
            cs@ == s@,
            fs@ == from@,
            from@.len() > 0,
            r@ + replaced(s@.skip(i as int), from@, to@) == replaced(s@, from@, to@),
        decreases cs@.len() - i,
    {
        let ghost rest = s@.skip(i as int);
        let ghost done = r@;
        if occurs(&cs, &fs, i) {
            assert(rest.take(from@.len() as int) =~= s@.subrange(i as int, i + from@.len()));
            r.append(to);
            assert(rest.skip(from@.len() as int) =~= s@.skip(i + from@.len()));
            assert(done + (to@ + replaced(s@.skip(i + from@.len()), from@, to@)) =~= r@ + replaced(
                s@.skip(i + from@.len()),
                from@,
                to@,
            ));
            i = i + fs.len();
        } else {
            r.push(cs[i]);
            proof {
                let next = s@.skip(i + 1);
                assert(rest.skip(1) =~= next);
                if rest.len() < from@.len() {
                    assert(replaced(next, from@, to@) == next);
                    assert(r@ + next =~= done + rest);
                } else {
                    assert(rest.take(from@.len() as int) =~= s@.subrange(i as int, i + from@.len()));
                    assert(done + (seq![rest[0]] + replaced(next, from@, to@)) =~= r@ + replaced(
                        next,
                        from@,
                        to@,
                    ));
                }
            }
            i = i + 1;
        }
    }
    assert(s@.skip(i as int).len() == 0);
    assert(r@ =~= replaced(s@, from@, to@));
    r
}

/// `s` with every character that is in `from` replaced by `to`.
pub fn replace_chars(s: &str, from: &str, to: char) -> (r: String)
    ensures
        r@ == chars_replaced(s@, from@, to),
{
    let cs = chars_of(s);
    let fs = chars_of(from);
    let mut r = String::new();
    let mut i: usize = 0;
    while i < cs.len()
        invariant
            i <= cs@.len(),
            cs@ == s@,
            fs@ == from@,
            r@ == chars_replaced(s@, from@, to).take(i as int),
        decreases cs@.len() - i,
    {
        if listed(&fs, cs[i]) {
            r.push(to);
        } else {
            r.push(cs[i]);
        }
        i = i + 1;
        assert(r@ =~= chars_replaced(s@, from@, to).take(i as int));
    }
    assert(r@ =~= chars_replaced(s@, from@, to));
    r
}

/// `n` copies of `s`.
pub fn repeat(s: &str, n: usize) -> (r: String)
    ensures
        r@ == repeated(s@, n as nat),
{
    let mut r = String::new();
    let mut i: usize = 0;
    while i < n
        invariant
            i <= n,
            r@ == repeated(s@, i as nat),
        decreases n - i,
    {
        r.append(s);
        i = i + 1;
    }
    r
}

/// `s` filled up with blanks on the right until it has `width` characters.
pub fn pad(s: &str, width: usize) -> (r: String)
    ensures
        r@ == padded(s@, width as nat),
{
    let mut r = s.to_string();
    let n = s.unicode_len();
    if n < width {
        proof {
            reveal_strlit(" ");
            assert(" "@ =~= seq![' ']);
        }
        r.append(&repeat(" ", width - n));
    }
    r
}

/// The first `n` characters of `s`.
pub fn shorten(s: &str, n: usize) -> (r: &str)
    ensures
        r@ == (if s@.len() <= n { s@ } else { s@.take(n as int) }),
{
    if s.unicode_len() <= n {
        s
    } else {
        let r = s.substring_char(0, n);
        assert(r@ =~= s@.take(n as int));
        r
    }
}

/// `s` cut at every character that is in `stops`, each piece trimmed, without
/// the empty ones.
pub fn split_items(s: &str, stops: &str) -> (r: Vec<String>)
    ensures
        texts(r@) == items_of(s@, stops@),
{
    let parts = split(s, stops);
    let ghost all = pieces(s@, stops@).map_values(|p: Text| trimmed(p));
    let mut r: Vec<String> = Vec::new();
    let mut i: usize = 0;
    assert(texts(r@) =~= all.take(0).filter(|p: Text| p.len() > 0)) by {
        reveal(Seq::filter);
    }
    while i < parts.len()
        invariant
            i <= parts@.len(),
            texts(parts@) == pieces(s@, stops@),
            all == pieces(s@, stops@).map_values(|p: Text| trimmed(p)),
            texts(r@) == all.take(i as int).filter(|p: Text| p.len() > 0),
        decreases parts@.len() - i,
    {
        let ghost head = all.take(i + 1);
        assert(head.drop_last() =~= all.take(i as int));
        assert(texts(parts@)[i as int] == parts@[i as int]@);
        let ghost done = texts(r@);
        let t = trim(&parts[i]);
        if !t.is_empty() {
            r.push(t.to_string());
            assert(texts(r@) =~= done.push(head.last()));
        }
        proof {
            reveal(Seq::filter);
        }
        i = i + 1;
    }
    assert(all.take(i as int) =~= all);
    r
}

/// The words of `s`.
pub fn split_words(s: &str) -> (r: Vec<String>)
    ensures
        texts(r@) == words_of(s@),
{
    let mut rest = s;
    let mut r: Vec<String> = Vec::new();
    assert(texts(r@) + words_of(s@) =~= words_of(s@));
    loop
        invariant
            texts(r@) + words_of(rest@) == words_of(s@),
        decreases rest@.len(),
    {
        let t = trim_start(rest);
        proof {
            lemma_trimmed_start(rest@);
        }
        let cs = chars_of(t);
        if cs.len() == 0 {
            assert(texts(r@) =~= words_of(s@));
            return r;
        }
        let mut n: usize = 0;
        assert(t@.skip(0) =~= t@);
        while n < cs.len() && !is_white_space(cs[n])
            invariant
                n <= cs@.len(),
                cs@ == t@,
                word_len(t@) == n + word_len(t@.skip(n as int)),
            decreases cs@.len() - n,
        {
            assert(t@.skip(n as int).skip(1) =~= t@.skip(n + 1));
            n = n + 1;
        }
        assert(word_len(t@) == n);
        proof {
            lemma_word_len(t@);
        }
        let word = string_of(&cs, 0, n);
        assert(word@ =~= t@.take(n as int));
        let ghost before = texts(r@);
        r.push(word);
        rest = t.substring_char(n, t.unicode_len());
        assert(rest@ =~= t@.skip(n as int));
        assert(texts(r@) + words_of(rest@) =~= before + (seq![word@] + words_of(rest@)));
    }
}

/// `a`, then `b`.
pub fn chain(a: &str, b: &str) -> (s: String)
    ensures
        s@ == a@ + b@,
{
    let mut s = a.to_string();
    s.append(b);
    s
}

/// Whether a word is in a list.
pub fn mentions(list: &[String], word: &str) -> (r: bool)
    ensures
        r == texts(list@).contains(word@),
{
    let ghost all = texts(list@);
    let mut i: usize = 0;
    while i < list.len()
        invariant
            i <= list@.len(),
            all == texts(list@),
            forall|j: int| 0 <= j < i ==> #[trigger] all[j] != word@,
        decreases list@.len() - i,
    {
        assert(all[i as int] == list@[i as int]@);
        if same(&list[i], word) {
            return true;
        }
        i = i + 1;
    }
    false
}

} // verus!

//! What cutting, trimming and ordering texts comes to.
use crate::frontmatter_laws::lemma_trimmed_start_pad;
use crate::naming::{alphanumeric, lower, normalized};
use crate::order::text_less;
use crate::text::{
    items_of, joined, lemma_span_is, lemma_trimmed_end, lemma_trimmed_start, pieces, prefixed,
    trimmed, trimmed_end, trimmed_start, white_space, words_of, Text,
};
use vstd::prelude::*;

verus! {

/// Whether a text is nothing but white space.
pub open spec fn is_blank(s: Text) -> bool {
    forall|i: int| 0 <= i < s.len() ==> white_space(#[trigger] s[i])
}

/// Trimming takes white space off both ends and nothing else.
pub proof fn trimming_cuts_the_ends(a: Text, core: Text, b: Text)
    requires
        is_blank(a),
        is_blank(b),
        core.len() > 0 ==> !white_space(core[0]) && !white_space(core.last()),
    ensures
        trimmed(a + core + b) == core,
{
    if core.len() == 0 {
        let s = a + core + b;
        assert forall|i: int| 0 <= i < s.len() implies white_space(#[trigger] s[i]) by {
            if i < a.len() {
                assert(s[i] == a[i]);
            } else {
                assert(s[i] == b[i - a.len()]);
            }
        }
        lemma_trimmed_start(s);
        let t = trimmed_start(s);
        if t.len() > 0 {
            assert(t[0] == s[s.len() - t.len()]);
        }
        assert(t =~= core);
    } else {
        assert(a + core + b =~= a + (core + b));
        assert((core + b)[0] == core[0]);
        lemma_trimmed_start_pad(a, core + b);
        lemma_trimmed_end_pad(core, b);
    }
}

proof fn lemma_trimmed_end_pad(core: Text, b: Text)
    requires
        is_blank(b),
        core.len() > 0,
        !white_space(core.last()),
    ensures
        trimmed_end(core + b) == core,
    decreases b.len(),
{
    let s = core + b;
    if b.len() == 0 {
        assert(s =~= core);
    } else {
        assert(s.last() == b[b.len() - 1]);
        assert(s.drop_last() =~= core + b.drop_last());
        assert forall|i: int| 0 <= i < b.drop_last().len() implies white_space(
            #[trigger] b.drop_last()[i],
        ) by {
            assert(b.drop_last()[i] == b[i]);
        }
        lemma_trimmed_end_pad(core, b.drop_last());
    }
}

proof fn lemma_end_blank(s: Text)
    ensures
        trimmed_end(s).len() <= s.len(),
        is_blank(s.skip(trimmed_end(s).len() as int)),
        trimmed_end(s).len() > 0 ==> !white_space(trimmed_end(s).last()),
    decreases s.len(),
{
    lemma_trimmed_end(s);
    if s.len() > 0 && white_space(s.last()) {
        let t = s.drop_last();
        lemma_end_blank(t);
        lemma_trimmed_end(t);
        let n = trimmed_end(t).len() as int;
        assert forall|i: int| 0 <= i < s.skip(n).len() implies white_space(#[trigger] s.skip(n)[i]) by {
            if n + i < t.len() {
                assert(t.skip(n)[i] == s.skip(n)[i]);
            }
        }
    }
}

/// Every text is its trimmed form with white space around it.
pub proof fn text_is_trimmed_with_blanks_around(s: Text) -> (r: (Text, Text))
    ensures
        s == r.0 + trimmed(s) + r.1,
        is_blank(r.0),
        is_blank(r.1),
        trimmed(s).len() > 0 ==> !white_space(trimmed(s)[0]) && !white_space(trimmed(s).last()),
{
    lemma_trimmed_start(s);
    let t = trimmed_start(s);
    lemma_trimmed_end(t);
    lemma_end_blank(t);
    let a = s.take(s.len() - t.len());
    let b = t.skip(trimmed_end(t).len() as int);
    assert forall|i: int| 0 <= i < a.len() implies white_space(#[trigger] a[i]) by {
        assert(white_space(s[i]));
    }
    assert(s =~= a + trimmed(s) + b);
    if trimmed(s).len() > 0 {
        assert(trimmed(s)[0] == t[0]);
    }
    (a, b)
}

/// What is white space: blanks, tabs and line ends among the first characters, and no
/// letter, digit or punctuation.
pub proof fn ascii_white_space(c: char)
    requires
        c < '\u{80}',
    ensures
        white_space(c) <==> c == ' ' || c == '\t' || c == '\n' || c == '\r' || c == '\u{b}' || c
            == '\u{c}',
{
}

/// Beyond ASCII these code points are white space, and no others.
pub proof fn other_white_space(c: char)
    requires
        c >= '\u{80}',
    ensures
        white_space(c) <==> {
            let n = c as u32;
            ||| n == 0x85
            ||| n == 0xa0
            ||| n == 0x1680
            ||| 0x2000 <= n <= 0x200a
            ||| n == 0x2028
            ||| n == 0x2029
            ||| n == 0x202f
            ||| n == 0x205f
            ||| n == 0x3000
        },
{
}

/// Normalizing goes character by character: a digit or small letter stays, a capital
/// becomes small, and anything else goes.
pub proof fn norm_goes_by_characters(a: Text, c: char)
    ensures
        'a' <= c <= 'z' || '0' <= c <= '9' ==> normalized(a.push(c)) == normalized(a).push(c),
        'A' <= c <= 'Z' ==> normalized(a.push(c)) == normalized(a).push((c as u32 + 32) as char),
        !('a' <= c <= 'z' || '0' <= c <= '9' || 'A' <= c <= 'Z') ==> normalized(a.push(c))
            == normalized(a),
        normalized(Seq::empty()) == Seq::<char>::empty(),
{
    reveal(Seq::filter);
    let s = a.push(c);
    assert(s.drop_last() =~= a);
    let p = |c: char| alphanumeric(c);
    let f = |c: char| lower(c);
    if p(c) {
        assert(s.filter(p) == a.filter(p).push(c));
        assert(normalized(s) =~= normalized(a).push(lower(c)));
    }
    assert(Seq::<char>::empty().filter(p) =~= Seq::<char>::empty());
    assert(normalized(Seq::empty()) =~= Seq::<char>::empty());
}

/// A text comes before another if it is a beginning of it, or if its first character
/// that differs is smaller.
pub proof fn order_goes_by_the_first_difference(common: Text, a: Text, b: Text)
    ensures
        a.len() == 0 && b.len() > 0 ==> text_less(common + a, common + b) && !text_less(
            common + b,
            common + a,
        ),
        a.len() > 0 && b.len() > 0 && a[0] < b[0] ==> text_less(common + a, common + b)
            && !text_less(common + b, common + a),
        !text_less(common, common),
    decreases common.len(),
{
    if common.len() == 0 {
        assert(common + a =~= a);
        assert(common + b =~= b);
    } else {
        let more = common.skip(1);
        order_goes_by_the_first_difference(more, a, b);
        assert((common + a).skip(1) =~= more + a);
        assert((common + b).skip(1) =~= more + b);
        assert((common + a)[0] == common[0] && (common + b)[0] == common[0]);
    }
}

/// Whether a text has none of some characters.
pub open spec fn has_none(s: Text, stops: Text) -> bool {
    forall|i: int| 0 <= i < s.len() ==> !stops.contains(#[trigger] s[i])
}

/// Cutting goes from the front: what stands before the first stop is the first piece.
pub proof fn first_piece_ends_at_the_first_stop(a: Text, stop: char, b: Text, stops: Text)
    requires
        has_none(a, stops),
        stops.contains(stop),
    ensures
        pieces(a + seq![stop] + b, stops) == seq![a] + pieces(b, stops),
        pieces(a, stops) == seq![a],
{
    let s = a + seq![stop] + b;
    assert forall|i: int| 0 <= i < a.len() implies !stops.contains(#[trigger] s[i]) by {
        assert(s[i] == a[i]);
    }
    assert(s[a.len() as int] == stop);
    lemma_span_is(s, stops, a.len());
    assert(s.take(a.len() as int) =~= a);
    assert(s.skip(a.len() as int + 1) =~= b);
    lemma_span_is(a, stops, a.len());
    assert(a.take(a.len() as int) =~= a);
}

/// The items of a text are its pieces between stops, trimmed, without empty ones.
pub proof fn items_are_the_trimmed_pieces(a: Text, stop: char, b: Text, stops: Text)
    requires
        has_none(a, stops),
        stops.contains(stop),
    ensures
        items_of(a + seq![stop] + b, stops) == (if trimmed(a).len() > 0 {
            seq![trimmed(a)] + items_of(b, stops)
        } else {
            items_of(b, stops)
        }),
        items_of(a, stops) == (if trimmed(a).len() > 0 {
            seq![trimmed(a)]
        } else {
            Seq::empty()
        }),
{
    first_piece_ends_at_the_first_stop(a, stop, b, stops);
    let f = |p: Text| trimmed(p);
    let g = |p: Text| p.len() > 0;
    let rest = pieces(b, stops);
    let all = seq![a] + rest;
    assert(all.map_values(f) =~= seq![trimmed(a)] + rest.map_values(f));
    Seq::filter_distributes_over_add(seq![trimmed(a)], rest.map_values(f), g);
    assert(seq![a].map_values(f) =~= seq![trimmed(a)]);
    crate::reserve_laws::lemma_filter_all(seq![trimmed(a)], g);
    if trimmed(a).len() > 0 {
        assert(forall|i: int| 0 <= i < seq![trimmed(a)].len() ==> g(#[trigger] seq![trimmed(a)][i]));
    } else {
        assert(forall|i: int| 0 <= i < seq![trimmed(a)].len() ==> !g(#[trigger] seq![trimmed(a)][i]));
        assert(Seq::<Text>::empty() + rest.map_values(f).filter(g) =~= rest.map_values(f).filter(g));
    }
}

/// The words of a text are what stands between white space.
pub proof fn words_stand_between_blanks(blank: Text, word: Text, rest: Text)
    requires
        is_blank(blank),
        word.len() > 0,
        forall|i: int| 0 <= i < word.len() ==> !white_space(#[trigger] word[i]),
        rest.len() > 0 ==> white_space(rest[0]),
    ensures
        words_of(blank + word + rest) == seq![word] + words_of(rest),
        words_of(blank) == Seq::<Text>::empty(),
{
    let s = blank + word + rest;
    let t = word + rest;
    assert(s =~= blank + t);
    assert(!white_space(word[0]));
    assert(t[0] == word[0]);
    lemma_trimmed_start_pad(blank, t);
    lemma_word_is(word, rest);
    assert(t.take(word.len() as int) =~= word);
    assert(t.skip(word.len() as int) =~= rest);
    let none = Seq::<char>::empty();
    lemma_trimmed_start_pad(blank, none);
    assert(blank + none =~= blank);
}

proof fn lemma_word_is(word: Text, rest: Text)
    requires
        forall|i: int| 0 <= i < word.len() ==> !white_space(#[trigger] word[i]),
        rest.len() > 0 ==> white_space(rest[0]),
    ensures
        crate::text::word_len(word + rest) == word.len(),
    decreases word.len(),
{
    let t = word + rest;
    if word.len() == 0 {
        assert(t =~= rest);
    } else {
        let more = word.skip(1);
        assert(t[0] == word[0]);
        assert forall|i: int| 0 <= i < more.len() implies !white_space(#[trigger] more[i]) by {
            assert(more[i] == word[i + 1]);
        }
        lemma_word_is(more, rest);
        assert(t.skip(1) =~= more + rest);
    }
}

/// Joined parts stand one behind another with the separator between each two of them.
pub proof fn separator_stands_between(first: Text, rest: Seq<Text>, sep: Text)
    ensures
        joined(Seq::empty(), sep) == Seq::<char>::empty(),
        joined(seq![first], sep) == first,
        rest.len() > 0 ==> joined(seq![first] + rest, sep) == first + sep + joined(rest, sep),
{
    let all = seq![first] + rest;
    assert(seq![first].skip(1) =~= Seq::<Text>::empty());
    assert(joined(seq![first], sep) =~= first);
    if rest.len() > 0 {
        assert(all.skip(1) =~= rest);
        assert(prefixed(rest, sep) == sep + rest[0] + prefixed(rest.skip(1), sep));
        assert(joined(all, sep) =~= first + sep + joined(rest, sep));
    }
}

} // verus!

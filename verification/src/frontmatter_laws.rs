//! What rewriting a frontmatter keeps and what reading it gives back.
use crate::frontmatter::{
    anchor, block, field, frontmatter_of, has_key, indent, inserted, is_anchor, is_scope_line,
    is_shared, names, rebuilt, says_shared, scoped, unscoped, updated, with_line, with_value,
};
use crate::text::{
    begins, contains, joined, lemma_position_from, lemma_position_is, lemma_position_shift,
    lemma_span, lemma_span_is, lemma_trimmed_end, lemma_trimmed_start, lines_of, occurs_at,
    position, prefixed, span, trimmed, trimmed_end, trimmed_start, white_space, without_return,
    Text,
};
use vstd::prelude::*;

verus! {

/// Whether a text has no line feed.
pub open spec fn one_line(s: Text) -> bool {
    !s.contains('\n')
}

/// Whether some lines can stand in a frontmatter: none has a line feed and none
/// but the first begins like a fence.
pub open spec fn sound(ls: Seq<Text>) -> bool {
    &&& forall|i: int| 0 <= i < ls.len() ==> one_line(#[trigger] ls[i])
    &&& forall|i: int| 0 < i < ls.len() ==> !begins(#[trigger] ls[i], "---"@)
}

/// The lines, each with a line feed behind it.
pub open spec fn ended(ls: Seq<Text>) -> Text
    decreases ls.len(),
{
    if ls.len() == 0 {
        Seq::empty()
    } else {
        ls[0] + "\n"@ + ended(ls.skip(1))
    }
}

/// What lines become when they are joined and read again: each but the last
/// loses a final carriage return, and an empty last line is not seen.
pub open spec fn reread(ls: Seq<Text>) -> Seq<Text> {
    if ls.len() == 0 {
        ls
    } else {
        ls.drop_last().map_values(|l: Text| without_return(l)) + lines_of(ls.last())
    }
}

/// Whether lines that are joined and read again come out as they were.
pub open spec fn settled(ls: Seq<Text>) -> bool {
    lines_of(joined(ls, "\n"@)) == ls
}

proof fn lemma_feed()
    ensures
        "\n"@ == seq!['\n'],
        "\n---"@ == seq!['\n', '-', '-', '-'],
        "---"@ == seq!['-', '-', '-'],
        "---\n"@ == seq!['-', '-', '-', '\n'],
        ":"@ == seq![':'],
        ": "@ == seq![':', ' '],
        "  "@ == seq![' ', ' '],
        "scope"@ == seq!['s', 'c', 'o', 'p', 'e'],
        "scope:"@ == seq!['s', 'c', 'o', 'p', 'e', ':'],
        "shared"@ == seq!['s', 'h', 'a', 'r', 'e', 'd'],
{
    reveal_strlit("\n");
    reveal_strlit("\n---");
    reveal_strlit("---");
    reveal_strlit("---\n");
    reveal_strlit(":");
    reveal_strlit(": ");
    reveal_strlit("  ");
    reveal_strlit("scope");
    reveal_strlit("scope:");
    reveal_strlit("shared");
    assert("\n"@ =~= seq!['\n']);
    assert("\n---"@ =~= seq!['\n', '-', '-', '-']);
    assert("---"@ =~= seq!['-', '-', '-']);
    assert("---\n"@ =~= seq!['-', '-', '-', '\n']);
    assert(":"@ =~= seq![':']);
    assert(": "@ =~= seq![':', ' ']);
    assert("  "@ =~= seq![' ', ' ']);
    assert("scope"@ =~= seq!['s', 'c', 'o', 'p', 'e']);
    assert("scope:"@ =~= seq!['s', 'c', 'o', 'p', 'e', ':']);
    assert("shared"@ =~= seq!['s', 'h', 'a', 'r', 'e', 'd']);
}

/// The first line of a text that is a line, a line feed and a rest.
pub(crate) proof fn lemma_lines_step(a: Text, b: Text)
    requires
        one_line(a),
    ensures
        lines_of(a + "\n"@ + b) == seq![without_return(a)] + lines_of(b),
{
    lemma_feed();
    let s = a + "\n"@ + b;
    let stops = seq!['\n'];
    assert forall|i: int| 0 <= i < a.len() implies !stops.contains(#[trigger] s[i]) by {
        assert(s[i] == a[i]);
        assert(a.contains(a[i]));
    }
    assert(s[a.len() as int] == '\n');
    assert(stops[0] == '\n');
    lemma_span_is(s, stops, a.len());
    assert(s.take(a.len() as int) =~= a);
    assert(s.skip(a.len() as int + 1) =~= b);
}

pub(crate) proof fn lemma_lines_single(a: Text)
    requires
        one_line(a),
    ensures
        lines_of(a) == (if a.len() == 0 {
            Seq::empty()
        } else {
            seq![a]
        }),
{
    let stops = seq!['\n'];
    assert forall|i: int| 0 <= i < a.len() implies !stops.contains(#[trigger] a[i]) by {
        assert(a.contains(a[i]));
    }
    lemma_span_is(a, stops, a.len());
}

/// Lines that stand in front of a text are the first lines of the whole.
pub(crate) proof fn lemma_lines_after(ls: Seq<Text>, rest: Text)
    requires
        forall|i: int| 0 <= i < ls.len() ==> one_line(#[trigger] ls[i]),
    ensures
        lines_of(ended(ls) + rest) == ls.map_values(|l: Text| without_return(l)) + lines_of(rest),
    decreases ls.len(),
{
    if ls.len() == 0 {
        assert(ended(ls) + rest =~= rest);
        assert(ls.map_values(|l: Text| without_return(l)) + lines_of(rest) =~= lines_of(rest));
    } else {
        let more = ls.skip(1);
        lemma_lines_after(more, rest);
        lemma_lines_step(ls[0], ended(more) + rest);
        assert(ended(ls) + rest =~= ls[0] + "\n"@ + (ended(more) + rest));
        assert(ls.map_values(|l: Text| without_return(l)) + lines_of(rest) =~= seq![
            without_return(ls[0]),
        ] + (more.map_values(|l: Text| without_return(l)) + lines_of(rest)));
    }
}

/// A line in the middle of some joined lines.
proof fn lemma_joined_split(ls: Seq<Text>, line: Text, more: Seq<Text>)
    ensures
        joined(ls + seq![line] + more, "\n"@) == ended(ls) + line + prefixed(more, "\n"@),
    decreases ls.len(),
{
    let all = ls + seq![line] + more;
    if ls.len() == 0 {
        assert(all[0] == line);
        assert(all.skip(1) =~= more);
        assert(ended(ls) + line =~= line);
    } else {
        let short = ls.skip(1);
        let rest = all.skip(1);
        assert(rest =~= short + seq![line] + more);
        lemma_joined_split(short, line, more);
        assert(rest.len() > 0);
        assert(prefixed(rest, "\n"@) == "\n"@ + rest[0] + prefixed(rest.skip(1), "\n"@));
        assert(joined(rest, "\n"@) == rest[0] + prefixed(rest.skip(1), "\n"@));
        assert(prefixed(rest, "\n"@) =~= "\n"@ + joined(rest, "\n"@));
        assert(joined(all, "\n"@) == ls[0] + prefixed(rest, "\n"@));
        assert(joined(all, "\n"@) =~= ls[0] + "\n"@ + ended(short) + line + prefixed(more, "\n"@));
        assert(ended(ls) + line + prefixed(more, "\n"@) =~= ls[0] + "\n"@ + ended(short) + line
            + prefixed(more, "\n"@));
    }
}

pub(crate) proof fn lemma_joined_last(ls: Seq<Text>)
    requires
        ls.len() > 0,
    ensures
        joined(ls, "\n"@) == ended(ls.drop_last()) + ls.last(),
{
    let more = Seq::<Text>::empty();
    lemma_joined_split(ls.drop_last(), ls.last(), more);
    assert(ls.drop_last() + seq![ls.last()] + more =~= ls);
    assert(ended(ls.drop_last()) + ls.last() + prefixed(more, "\n"@) =~= ended(ls.drop_last())
        + ls.last());
}

pub(crate) proof fn lemma_lines_joined(ls: Seq<Text>)
    requires
        forall|i: int| 0 <= i < ls.len() ==> one_line(#[trigger] ls[i]),
    ensures
        lines_of(joined(ls, "\n"@)) == reread(ls),
{
    if ls.len() > 0 {
        lemma_joined_last(ls);
        lemma_lines_after(ls.drop_last(), ls.last());
    }
}

/// No fence stands among sound lines.
proof fn lemma_no_fence(ls: Seq<Text>, rest: Text, j: int)
    requires
        sound(ls),
        ls.len() > 0 ==> !begins(rest, "---"@),
        0 <= j < ended(ls).len(),
    ensures
        !occurs_at(ended(ls) + rest, "\n---"@, j),
    decreases ls.len(),
{
    lemma_feed();
    let s = ended(ls) + rest;
    let a = ls[0];
    let more = ls.skip(1);
    let t = ended(more) + rest;
    assert(s =~= a + "\n"@ + t);
    if occurs_at(s, "\n---"@, j) {
        let sub = s.subrange(j, j + 4);
        assert(sub[0] == s[j] && sub[1] == s[j + 1] && sub[2] == s[j + 2] && sub[3] == s[j + 3]);
        if j < a.len() {
            assert(a[j] == '\n');
            assert(a.contains(a[j]));
        } else if j == a.len() {
            assert(t[0] == s[j + 1] && t[1] == s[j + 2] && t[2] == s[j + 3]);
            assert(t.take(3) =~= "---"@);
            if more.len() == 0 {
                assert(t =~= rest);
            } else {
                let b = ls[1];
                assert(t =~= b + "\n"@ + (ended(more.skip(1)) + rest));
                if b.len() < 3 {
                    assert(t[b.len() as int] == '\n');
                } else {
                    assert(b.take(3) =~= t.take(3));
                }
                assert(begins(ls[1], "---"@));
            }
        } else {
            assert(sound(more)) by {
                assert forall|i: int| 0 <= i < more.len() implies one_line(#[trigger] more[i]) by {
                    assert(more[i] == ls[i + 1]);
                }
                assert forall|i: int| 0 < i < more.len() implies !begins(#[trigger] more[i], "---"@) by {
                    assert(more[i] == ls[i + 1]);
                }
            }
            lemma_no_fence(more, rest, j - a.len() - 1);
            assert(t.subrange(j - a.len() - 1, j - a.len() + 3) =~= sub);
        }
    }
}

/// Where the frontmatter ends behind sound lines.
proof fn lemma_block(ls: Seq<Text>, rest: Text, p: int)
    requires
        sound(ls),
        ls.len() > 0 ==> !begins(rest, "---"@),
        position(rest, "\n---"@) == Some(p),
    ensures
        block("---\n"@ + ended(ls) + rest) == Some((ended(ls) + rest.take(p), rest.skip(p))),
{
    lemma_feed();
    let c = "---\n"@ + ended(ls) + rest;
    let s = ended(ls) + rest;
    let n = ended(ls).len() as int;
    assert(c.take(4) =~= "---\n"@);
    assert(c.skip(4) =~= s);
    lemma_position_from(rest, "\n---"@, 0);
    assert(s.subrange(n + p, n + p + 4) =~= rest.subrange(p, p + 4));
    assert forall|j: int| 0 <= j < n + p implies !#[trigger] occurs_at(s, "\n---"@, j) by {
        if j < n {
            lemma_no_fence(ls, rest, j);
        } else if occurs_at(s, "\n---"@, j) {
            assert(rest.subrange(j - n, j - n + 4) =~= s.subrange(j, j + 4));
            assert(occurs_at(rest, "\n---"@, j - n));
        }
    }
    lemma_position_is(s, "\n---"@, n + p);
    assert(s.take(n + p) =~= ended(ls) + rest.take(p));
    assert(s.skip(n + p) =~= rest.skip(p));
}

/// Every line of a text has no line feed, and one that begins like a fence
/// behind the first shows a fence in the text.
proof fn lemma_lines_clean(s: Text)
    ensures
        forall|i: int| 0 <= i < lines_of(s).len() ==> one_line(#[trigger] lines_of(s)[i]),
        forall|i: int|
            0 < i < lines_of(s).len() && begins(#[trigger] lines_of(s)[i], "---"@) ==> exists|j: int|
                occurs_at(s, "\n---"@, j),
        lines_of(s).len() > 0 && begins(lines_of(s)[0], "---"@) ==> begins(s, "---"@),
    decreases s.len(),
{
    lemma_feed();
    if s.len() > 0 {
        let stops = seq!['\n'];
        lemma_span(s, stops);
        let n = span(s, stops) as int;
        let a = s.take(n);
        assert(one_line(a)) by {
            if a.contains('\n') {
                let k = choose|k: int| 0 <= k < a.len() && a[k] == '\n';
                assert(stops[0] == s[k]);
                assert(!stops.contains(s[k]));
            }
        }
        let l = lines_of(s)[0];
        if n >= s.len() {
            assert(a =~= s);
        } else {
            let t = s.skip(n + 1);
            lemma_lines_clean(t);
            assert(s[n] == '\n') by {
                let k = choose|k: int| 0 <= k < stops.len() && stops[k] == s[n];
            }
            assert(lines_of(s) =~= seq![without_return(a)] + lines_of(t));
            assert(one_line(without_return(a))) by {
                if without_return(a).contains('\n') {
                    let k = choose|k: int|
                        0 <= k < without_return(a).len() && without_return(a)[k] == '\n';
                    assert(a[k] == '\n');
                }
            }
            if begins(l, "---"@) {
                assert(s.take(3) =~= l.take(3));
            }
            assert forall|i: int|
                0 < i < lines_of(s).len() && begins(#[trigger] lines_of(s)[i], "---"@) implies exists|
                j: int,
            |
                occurs_at(s, "\n---"@, j) by {
                assert(lines_of(s)[i] == lines_of(t)[i - 1]);
                if i == 1 {
                    assert(t.take(3) =~= "---"@);
                    assert(t[0] == t.take(3)[0] && t[1] == t.take(3)[1] && t[2] == t.take(3)[2]);
                    assert(s.subrange(n, n + 4) =~= "\n---"@);
                    assert(occurs_at(s, "\n---"@, n));
                } else {
                    let j = choose|j: int| occurs_at(t, "\n---"@, j);
                    assert(s.subrange(n + 1 + j, n + 5 + j) =~= t.subrange(j, j + 4));
                    assert(occurs_at(s, "\n---"@, n + 1 + j));
                }
            }
        }
    }
}

/// The lines of a frontmatter are sound, and what follows it begins with the
/// closing fence.
pub proof fn lemma_frontmatter_sound(content: Text)
    requires
        block(content) is Some,
    ensures
        sound(lines_of((block(content)->0).0)),
        begins((block(content)->0).1, "\n---"@),
{
    lemma_feed();
    let rest = content.skip(4);
    let (fm, tail) = block(content)->0;
    lemma_position_from(rest, "\n---"@, 0);
    let e = position(rest, "\n---"@)->0;
    lemma_lines_clean(fm);
    assert forall|i: int| 0 < i < lines_of(fm).len() implies !begins(
        #[trigger] lines_of(fm)[i],
        "---"@,
    ) by {
        if begins(lines_of(fm)[i], "---"@) {
            let j = choose|j: int| occurs_at(fm, "\n---"@, j);
            assert(rest.subrange(j, j + 4) =~= fm.subrange(j, j + 4));
            assert(occurs_at(rest, "\n---"@, j));
        }
    }
    assert(tail.take(4) =~= rest.subrange(e, e + 4));
}

/// The frontmatter of a rebuilt content is the lines that it was built from.
pub proof fn lemma_rebuilt(ls: Seq<Text>, tail: Text)
    requires
        sound(ls),
        begins(tail, "\n---"@),
    ensures
        block(rebuilt(ls, tail)) == Some((joined(ls, "\n"@), tail)),
        lines_of(joined(ls, "\n"@)) == reread(ls),
{
    lemma_feed();
    lemma_lines_joined(ls);
    if ls.len() == 0 {
        assert(tail.subrange(0, 4) =~= tail.take(4));
        lemma_position_is(tail, "\n---"@, 0);
        lemma_block(ls, tail, 0);
        assert("---\n"@ + ended(ls) + tail =~= rebuilt(ls, tail));
        assert(ended(ls) + tail.take(0) =~= joined(ls, "\n"@));
        assert(tail.skip(0) =~= tail);
    } else {
        let head = ls.drop_last();
        let last = ls.last();
        let rest = last + tail;
        let p = last.len() as int;
        assert(one_line(ls[ls.len() - 1]));
        lemma_joined_last(ls);
        assert(rest.subrange(p, p + 4) =~= tail.take(4));
        assert forall|j: int| 0 <= j < p implies !#[trigger] occurs_at(rest, "\n---"@, j) by {
            if occurs_at(rest, "\n---"@, j) {
                assert(rest.subrange(j, j + 4)[0] == last[j]);
                assert(last.contains(last[j]));
            }
        }
        lemma_position_is(rest, "\n---"@, p);
        assert(sound(head)) by {
            assert forall|i: int| 0 <= i < head.len() implies one_line(#[trigger] head[i]) by {
                assert(head[i] == ls[i]);
            }
            assert forall|i: int| 0 < i < head.len() implies !begins(#[trigger] head[i], "---"@) by {
                assert(head[i] == ls[i]);
            }
        }
        if head.len() > 0 && begins(rest, "---"@) {
            assert(rest.take(3)[0] == rest[0] && rest.take(3)[1] == rest[1] && rest.take(3)[2]
                == rest[2]);
            assert(tail.take(4)[0] == tail[0]);
            if last.len() < 3 {
                assert(rest[last.len() as int] == tail[0]);
            } else {
                assert(last.take(3) =~= rest.take(3));
            }
            assert(begins(ls[ls.len() - 1], "---"@));
        }
        lemma_block(head, rest, p);
        assert("---\n"@ + ended(head) + rest =~= rebuilt(ls, tail));
        assert(rest.take(p) =~= last);
        assert(rest.skip(p) =~= tail);
    }
}

/// White space in front of a text is trimmed away.
pub proof fn lemma_trimmed_start_pad(w: Text, core: Text)
    requires
        forall|i: int| 0 <= i < w.len() ==> white_space(#[trigger] w[i]),
        core.len() > 0 ==> !white_space(core[0]),
    ensures
        trimmed_start(w + core) == core,
    decreases w.len(),
{
    let s = w + core;
    if w.len() == 0 {
        assert(s =~= core);
    } else {
        assert(white_space(w[0]));
        assert(s[0] == w[0]);
        assert(s.skip(1) =~= w.skip(1) + core);
        assert forall|i: int| 0 <= i < w.skip(1).len() implies white_space(#[trigger] w.skip(1)[i]) by {
            assert(w.skip(1)[i] == w[i + 1]);
        }
        lemma_trimmed_start_pad(w.skip(1), core);
    }
}

proof fn lemma_return_start(l: Text)
    ensures
        trimmed_start(without_return(l)) == without_return(trimmed_start(l)),
    decreases l.len(),
{
    if l.len() > 0 && white_space(l[0]) {
        lemma_return_start(l.skip(1));
        let m = without_return(l);
        if l.len() == 1 {
            assert(l.skip(1) =~= Seq::<char>::empty());
            assert(trimmed_start(l.skip(1)) =~= Seq::<char>::empty());
            if m.len() > 0 {
                assert(m.skip(1) =~= Seq::<char>::empty());
                assert(trimmed_start(m.skip(1)) =~= Seq::<char>::empty());
            } else {
                assert(m =~= Seq::<char>::empty());
            }
        } else {
            assert(m.skip(1) =~= without_return(l.skip(1)));
            assert(m[0] == l[0]);
        }
    } else if l.len() > 0 {
        assert(without_return(l).len() > 0 ==> without_return(l)[0] == l[0]);
    }
}

proof fn lemma_return_trimmed(s: Text)
    ensures
        trimmed(without_return(s)) == trimmed(s),
{
    lemma_return_start(s);
    let t = trimmed_start(s);
    if t.len() > 0 && t.last() == '\r' {
        assert(trimmed_end(t) == trimmed_end(t.drop_last()));
    }
}

/// A final carriage return changes neither the key of a line nor its value.
pub(crate) proof fn lemma_return_harmless(l: Text, key: Text)
    ensures
        names(without_return(l), key) == names(l, key),
        names(l, key) ==> trimmed(trimmed_start(without_return(l)).skip((key + ":"@).len() as int))
            == trimmed(trimmed_start(l).skip((key + ":"@).len() as int)),
        is_scope_line(without_return(l)) == is_scope_line(l),
        says_shared(without_return(l)) == says_shared(l),
{
    lemma_feed();
    lemma_return_start(l);
    lemma_return_trimmed(l);
    let t = trimmed_start(l);
    let u = without_return(t);
    let p = key + ":"@;
    if t.len() > 0 && t.last() == '\r' {
        if begins(t, p) {
            assert(p.last() == ':');
            assert(t.take(p.len() as int).last() == t[p.len() - 1]);
            assert(u.take(p.len() as int) =~= t.take(p.len() as int));
            assert(u.skip(p.len() as int) =~= without_return(t.skip(p.len() as int)));
            lemma_return_trimmed(t.skip(p.len() as int));
        } else if begins(u, p) {
            assert(u.take(p.len() as int) =~= t.take(p.len() as int));
        }
        let stops = ":"@;
        lemma_span(t, stops);
        lemma_span(u, stops);
        let n = span(t, stops);
        if n < t.len() {
            assert(stops.contains(t[n as int]));
            assert(t[n as int] != '\r');
            assert(n < u.len());
            assert forall|i: int| 0 <= i < n implies !stops.contains(#[trigger] u[i]) by {
                assert(u[i] == t[i]);
            }
            lemma_span_is(u, stops, n);
            assert(u.take(n as int) =~= t.take(n as int));
        } else {
            assert forall|i: int| 0 <= i < u.len() implies !stops.contains(#[trigger] u[i]) by {
                assert(u[i] == t[i]);
            }
            lemma_span_is(u, stops, u.len());
            assert(u.take(u.len() as int) =~= u);
            assert(t.take(t.len() as int) =~= t);
            lemma_return_trimmed(t);
        }
    }
}

/// The field on the first line that names the key.
pub(crate) proof fn lemma_field_first(ls: Seq<Text>, key: Text, k: int)
    requires
        0 <= k < ls.len(),
        names(ls[k], key),
        forall|j: int| 0 <= j < k ==> !names(#[trigger] ls[j], key),
    ensures
        field(ls, key) == Some(trimmed(trimmed_start(ls[k]).skip((key + ":"@).len() as int))),
    decreases k,
{
    if k > 0 {
        assert(!names(ls[0], key));
        assert forall|j: int| 0 <= j < k - 1 implies !names(#[trigger] ls.skip(1)[j], key) by {
            assert(ls.skip(1)[j] == ls[j + 1]);
        }
        lemma_field_first(ls.skip(1), key, k - 1);
    }
}

proof fn lemma_field_none(ls: Seq<Text>, key: Text)
    ensures
        field(ls, key) is None <==> !has_key(ls, key),
    decreases ls.len(),
{
    if ls.len() > 0 {
        let more = ls.skip(1);
        lemma_field_none(more, key);
        if names(ls[0], key) {
            assert(has_key(ls, key));
        } else {
            if has_key(ls, key) {
                let i = choose|i: int| 0 <= i < ls.len() && names(#[trigger] ls[i], key);
                assert(more[i - 1] == ls[i]);
                assert(has_key(more, key));
            }
            if has_key(more, key) {
                let i = choose|i: int| 0 <= i < more.len() && names(#[trigger] more[i], key);
                assert(more[i] == ls[i + 1]);
            }
        }
    }
}

/// The first line that names a key that some line names.
proof fn lemma_first_named(ls: Seq<Text>, key: Text) -> (k: int)
    requires
        has_key(ls, key),
    ensures
        0 <= k < ls.len(),
        names(ls[k], key),
        forall|j: int| 0 <= j < k ==> !names(#[trigger] ls[j], key),
        forall|value: Text|
            #[trigger] with_value(ls, key, value) == ls.take(k) + seq![
                indent(ls[k]) + key + ": "@ + value,
            ] + ls.skip(k + 1),
    decreases ls.len(),
{
    if names(ls[0], key) {
        assert forall|value: Text| #[trigger] with_value(ls, key, value) == ls.take(0) + seq![
            indent(ls[0]) + key + ": "@ + value,
        ] + ls.skip(1) by {
            assert(with_value(ls, key, value) =~= ls.take(0) + seq![
                indent(ls[0]) + key + ": "@ + value,
            ] + ls.skip(1));
        }
        0
    } else {
        let more = ls.skip(1);
        let i = choose|i: int| 0 <= i < ls.len() && names(#[trigger] ls[i], key);
        assert(more[i - 1] == ls[i]);
        let k = lemma_first_named(more, key);
        assert forall|j: int| 0 <= j < k + 1 implies !names(#[trigger] ls[j], key) by {
            if j > 0 {
                assert(ls[j] == more[j - 1]);
            }
        }
        assert forall|value: Text| #[trigger] with_value(ls, key, value) == ls.take(k + 1) + seq![
            indent(ls[k + 1]) + key + ": "@ + value,
        ] + ls.skip(k + 2) by {
            assert(with_value(more, key, value) == more.take(k) + seq![
                indent(more[k]) + key + ": "@ + value,
            ] + more.skip(k + 1));
            assert(with_value(ls, key, value) =~= ls.take(k + 1) + seq![
                indent(ls[k + 1]) + key + ": "@ + value,
            ] + ls.skip(k + 2));
        }
        k + 1
    }
}

proof fn lemma_anchor(ls: Seq<Text>)
    ensures
        match anchor(ls) {
            Some(i) => 0 <= i < ls.len() && is_anchor(ls[i]),
            None => true,
        },
    decreases ls.len(),
{
    if ls.len() > 0 && !is_anchor(ls.last()) {
        lemma_anchor(ls.drop_last());
    }
}

/// An indent is white space within one line.
proof fn lemma_indent(line: Text)
    ensures
        forall|i: int| 0 <= i < indent(line).len() ==> white_space(#[trigger] indent(line)[i]),
        one_line(line) ==> one_line(indent(line)),
        line == indent(line) + trimmed_start(line),
{
    lemma_trimmed_start(line);
    let w = indent(line);
    assert forall|i: int| 0 <= i < w.len() implies white_space(#[trigger] w[i]) by {
        assert(w[i] == line[i]);
    }
    if one_line(line) && w.contains('\n') {
        let k = choose|k: int| 0 <= k < w.len() && w[k] == '\n';
        assert(line[k] == '\n');
    }
    assert(line =~= w + trimmed_start(line));
}

/// The first line of a text that begins with an entry, whatever the value, and
/// where the closing fence of that text stands.
proof fn lemma_entry_first(w: Text, key: Text, value: Text, middle: Text, tail: Text) -> (p: int)
    requires
        one_line(w),
        one_line(key),
        middle.len() > 0 ==> middle[0] == '\n',
        begins(tail, "\n---"@),
    ensures
        ({
            let rest = w + key + ": "@ + value + middle + tail;
            let y0 = w + key + ": "@ + value.take(span(value, "\n"@) as int);
            let n = y0.len() as int;
            &&& one_line(y0)
            &&& n <= p
            &&& n < rest.len()
            &&& rest.take(n) == y0
            &&& rest[n] == '\n'
            &&& position(rest, "\n---"@) == Some(p)
        }),
{
    lemma_feed();
    let line = w + key + ": "@ + value;
    let rest = line + middle + tail;
    let stops = "\n"@;
    let v0 = value.take(span(value, stops) as int);
    let y0 = w + key + ": "@ + v0;
    lemma_span(value, stops);
    assert(tail[0] == tail.take(4)[0]);
    let n = y0.len() as int;
    assert(rest.take(n) =~= y0);
    assert(rest[n] == '\n') by {
        if v0.len() < value.len() {
            assert(rest[n] == value[v0.len() as int]);
            assert(stops.contains(value[v0.len() as int]));
        }
    }
    assert(one_line(y0)) by {
        if y0.contains('\n') {
            let k = choose|k: int| 0 <= k < y0.len() && y0[k] == '\n';
            if k < w.len() {
                assert(w[k] == '\n');
            } else if k < w.len() + key.len() {
                assert(key[k - w.len()] == '\n');
            } else if k >= w.len() + key.len() + 2 {
                let i = k - w.len() - key.len() - 2;
                assert(v0[i] == '\n');
                assert(value[i] == '\n');
                assert(stops[0] == value[i]);
                assert(stops.contains(value[i]));
            }
        }
    }
    let t = (line.len() + middle.len()) as int;
    assert(rest.subrange(t, t + 4) =~= tail.take(4));
    assert(occurs_at(rest, "\n---"@, t));
    lemma_position_from(rest, "\n---"@, 0);
    let p = position(rest, "\n---"@)->0;
    assert(p >= n) by {
        assert(rest.subrange(p, p + 4)[0] == rest[p]);
        if p < n {
            assert(y0[p] == rest.take(n)[p]);
            assert(y0[p] == '\n');
        }
    }
    p
}

/// The first line of a text up to some place behind that line.
proof fn lemma_first_line(rest: Text, y0: Text, p: int)
    requires
        one_line(y0),
        0 < y0.len() <= p <= rest.len(),
        y0.len() < rest.len(),
        rest.take(y0.len() as int) == y0,
        rest[y0.len() as int] == '\n',
    ensures
        lines_of(rest.take(p)).len() > 0,
        lines_of(rest.take(p))[0] == y0 || lines_of(rest.take(p))[0] == without_return(y0),
{
    lemma_feed();
    let n = y0.len() as int;
    if p == n {
        lemma_lines_single(y0);
    } else {
        let z = rest.subrange(n + 1, p);
        let s = rest.take(p);
        assert(s =~= rest.take(n) + seq!['\n'] + z);
        lemma_lines_step(y0, z);
    }
}

/// What an entry says under its key.
pub(crate) proof fn lemma_entry_value(w: Text, key: Text, v0: Text)
    requires
        forall|i: int| 0 <= i < w.len() ==> white_space(#[trigger] w[i]),
        key.len() > 0 ==> !white_space(key[0]),
    ensures
        names(w + key + ": "@ + v0, key),
        trimmed(trimmed_start(w + key + ": "@ + v0).skip((key + ":"@).len() as int)) == trimmed(v0),
{
    lemma_feed();
    let core = key + ": "@ + v0;
    let k = key + ":"@;
    assert(w + key + ": "@ + v0 =~= w + core);
    assert(core[0] == (if key.len() > 0 {
        key[0]
    } else {
        ':'
    }));
    lemma_trimmed_start_pad(w, core);
    assert(core.take(k.len() as int) =~= k);
    assert(core.skip(k.len() as int) =~= seq![' '] + v0);
    assert((seq![' '] + v0).skip(1) =~= v0);
}

/// An entry does not begin like a fence if it is indented or its key does not.
pub(crate) proof fn lemma_entry_no_fence(w: Text, key: Text, rest: Text)
    requires
        forall|i: int| 0 <= i < w.len() ==> white_space(#[trigger] w[i]),
        w.len() > 0 || !begins(key, "---"@),
    ensures
        !begins(w + key + ": "@ + rest, "---"@),
{
    lemma_feed();
    let s = w + key + ": "@ + rest;
    if begins(s, "---"@) {
        let h = s.take(3);
        assert(h[0] == s[0] && h[1] == s[1] && h[2] == s[2]);
        if w.len() > 0 {
            assert(s[0] == w[0]);
            assert(white_space(w[0]));
        } else if key.len() >= 3 {
            assert(key.take(3) =~= h);
        } else {
            assert(s[key.len() as int] == ':');
        }
    }
}

/// A line that was put among sound lines is what the key reads back.
proof fn lemma_line_placed(ls: Seq<Text>, w: Text, key: Text, value: Text, more: Seq<Text>, tail: Text)
    requires
        sound(ls),
        !has_key(ls, key),
        one_line(w),
        forall|i: int| 0 <= i < w.len() ==> white_space(#[trigger] w[i]),
        one_line(key),
        key.len() > 0 ==> !white_space(key[0]),
        ls.len() == 0 || w.len() > 0 || !begins(key, "---"@),
        begins(tail, "\n---"@),
    ensures
        ({
            let out = rebuilt(ls + seq![w + key + ": "@ + value] + more, tail);
            let now = lines_of(frontmatter_of(out));
            &&& block(out) is Some
            &&& field(now, key) == Some(trimmed(value.take(span(value, "\n"@) as int)))
            &&& has_key(now, key)
        }),
{
    let line = w + key + ": "@ + value;
    let middle = prefixed(more, "\n"@);
    let out = rebuilt(ls + seq![line] + more, tail);
    let rest = line + middle + tail;
    let v0 = value.take(span(value, "\n"@) as int);
    let y0 = w + key + ": "@ + v0;
    assert("\n"@[0] == '\n' && "\n"@.len() == 1 && ": "@.len() == 2) by {
        lemma_feed();
    }
    lemma_joined_split(ls, line, more);
    assert(out =~= "---\n"@ + ended(ls) + rest);
    let p = lemma_entry_first(w, key, value, middle, tail);
    if ls.len() > 0 {
        lemma_entry_no_fence(w, key, value + middle + tail);
        assert(rest =~= w + key + ": "@ + (value + middle + tail));
    }
    lemma_position_from(rest, "\n---"@, 0);
    lemma_block(ls, rest, p);
    lemma_lines_after(ls, rest.take(p));
    lemma_first_line(rest, y0, p);
    let head = ls.map_values(|l: Text| without_return(l));
    let now = lines_of(ended(ls) + rest.take(p));
    let i = head.len() as int;
    assert(now[i] == lines_of(rest.take(p))[0]);
    lemma_entry_value(w, key, v0);
    lemma_return_harmless(y0, key);
    assert forall|j: int| 0 <= j < i implies !names(#[trigger] now[j], key) by {
        assert(now[j] == without_return(ls[j]));
        lemma_return_harmless(ls[j], key);
        assert(!names(ls[j], key));
    }
    lemma_field_first(now, key, i);
    assert(has_key(now, key));
}

proof fn lemma_sound_take(ls: Seq<Text>, k: int)
    requires
        sound(ls),
        0 <= k <= ls.len(),
    ensures
        sound(ls.take(k)),
{
    let t = ls.take(k);
    assert forall|i: int| 0 <= i < t.len() implies one_line(#[trigger] t[i]) by {
        assert(t[i] == ls[i]);
    }
    assert forall|i: int| 0 < i < t.len() implies !begins(#[trigger] t[i], "---"@) by {
        assert(t[i] == ls[i]);
    }
}

/// Whether a new line for `key` can stand behind the last anchor of `ls` without
/// looking like a fence there.
pub open spec fn fits(ls: Seq<Text>, key: Text) -> bool {
    match anchor(ls) {
        Some(i) => indent(ls[i]).len() > 0 || !begins(key, "---"@),
        None => true,
    }
}

/// A frontmatter line that was inserted is there and reads back: the key gives
/// the first line of the value, trimmed.
pub proof fn insert_reads_back(content: Text, key: Text, value: Text)
    requires
        inserted(content, key, value) is Some,
        one_line(key),
        key.len() > 0 ==> !white_space(key[0]),
        fits(lines_of(frontmatter_of(content)), key),
    ensures
        ({
            let now = lines_of(frontmatter_of(inserted(content, key, value)->0));
            &&& block(inserted(content, key, value)->0) is Some
            &&& field(now, key) == Some(trimmed(value.take(span(value, "\n"@) as int)))
            &&& has_key(now, key)
        }),
{
    lemma_feed();
    lemma_frontmatter_sound(content);
    let (fm, tail) = block(content)->0;
    let ls = lines_of(fm);
    lemma_anchor(ls);
    match anchor(ls) {
        Some(i) => {
            let head = ls.take(i + 1);
            lemma_sound_take(ls, i + 1);
            lemma_indent(ls[i]);
            assert(one_line(ls[i]));
            if has_key(head, key) {
                let j = choose|j: int| 0 <= j < head.len() && names(#[trigger] head[j], key);
                assert(names(ls[j], key));
            }
            lemma_line_placed(head, indent(ls[i]), key, value, ls.skip(i + 1), tail);
            assert(with_line(ls, key, value) =~= head + seq![indent(ls[i]) + key + ": "@ + value]
                + ls.skip(i + 1));
        },
        None => {
            let more = Seq::<Text>::empty();
            assert(one_line("  "@)) by {
                if "  "@.contains('\n') {
                    let k = choose|k: int| 0 <= k < 2 && "  "@[k] == '\n';
                }
            }
            lemma_line_placed(ls, "  "@, key, value, more, tail);
            assert(with_line(ls, key, value) =~= ls + seq!["  "@ + key + ": "@ + value] + more);
        },
    }
}

/// A field that was set reads back: the key gives the first line of the value,
/// trimmed.
pub proof fn update_reads_back(content: Text, key: Text, value: Text)
    requires
        block(content) is Some,
        one_line(key),
        key.len() > 0 ==> !white_space(key[0]),
        has_key(lines_of(frontmatter_of(content)), key) || fits(
            lines_of(frontmatter_of(content)),
            key,
        ),
    ensures
        updated(content, key, value) is Some,
        block(updated(content, key, value)->0) is Some,
        field(lines_of(frontmatter_of(updated(content, key, value)->0)), key) == Some(
            trimmed(value.take(span(value, "\n"@) as int)),
        ),
{
    lemma_feed();
    lemma_frontmatter_sound(content);
    let (fm, tail) = block(content)->0;
    let ls = lines_of(fm);
    if has_key(ls, key) {
        let k = lemma_first_named(ls, key);
        let head = ls.take(k);
        lemma_sound_take(ls, k);
        lemma_indent(ls[k]);
        assert(one_line(ls[k]));
        if has_key(head, key) {
            let j = choose|j: int| 0 <= j < head.len() && names(#[trigger] head[j], key);
            assert(names(ls[j], key));
        }
        if k > 0 && indent(ls[k]).len() == 0 && begins(key, "---"@) {
            let t = trimmed_start(ls[k]);
            assert(t =~= ls[k]);
            let p = key + ":"@;
            assert(t.take(p.len() as int) == p);
            assert(ls[k].take(3) =~= p.take(3));
            assert(p.take(3) =~= key.take(3));
            assert(begins(ls[k], "---"@));
        }
        lemma_line_placed(head, indent(ls[k]), key, value, ls.skip(k + 1), tail);
        assert(updated(content, key, value) == Some(rebuilt(with_value(ls, key, value), tail)));
    } else {
        insert_reads_back(content, key, value);
    }
}

/// An origin is stamped at most once: a stamped memory is not stamped again.
pub proof fn origin_is_stamped_once(content: Text, host: Text, other: Text)
    requires
        inserted(content, "origin"@, host) is Some,
    ensures
        inserted(inserted(content, "origin"@, host)->0, "origin"@, other) is None,
{
    reveal_strlit("origin");
    reveal_strlit("---");
    let key = "origin"@;
    assert(one_line(key)) by {
        if key.contains('\n') {
            let k = choose|k: int| 0 <= k < 6 && key[k] == '\n';
        }
    }
    assert(!begins(key, "---"@)) by {
        assert(key.take(3)[0] == 'o');
    }
    insert_reads_back(content, key, host);
}

proof fn lemma_scope_line_named(l: Text, key: Text)
    requires
        names(l, key),
    ensures
        is_scope_line(l) <==> trimmed(key.take(span(key, ":"@) as int)) == "scope"@,
{
    lemma_feed();
    let t = trimmed_start(l);
    let p = key + ":"@;
    let stops = ":"@;
    let n = span(key, stops);
    lemma_span(key, stops);
    assert(t.take(p.len() as int) == p);
    assert forall|i: int| 0 <= i < n implies !stops.contains(#[trigger] t[i]) by {
        assert(t[i] == p[i]);
        assert(p[i] == key[i]);
    }
    assert(t[n as int] == p[n as int]);
    if n < key.len() {
        assert(p[n as int] == key[n as int]);
    } else {
        assert(stops[0] == ':');
    }
    lemma_span_is(t, stops, n);
    assert(t.take(n as int) =~= key.take(n as int));
}

/// The new line says that the memory is shared, and its key is `scope`.
pub(crate) proof fn lemma_shared_line(w: Text)
    requires
        forall|i: int| 0 <= i < w.len() ==> white_space(#[trigger] w[i]),
    ensures
        says_shared(w + "scope"@ + ": "@ + "shared"@),
        is_scope_line(w + "scope"@ + ": "@ + "shared"@),
        without_return(w + "scope"@ + ": "@ + "shared"@) == w + "scope"@ + ": "@ + "shared"@,
{
    lemma_feed();
    let l = w + "scope"@ + ": "@ + "shared"@;
    let core = "scope"@ + ": "@ + "shared"@;
    assert(l =~= w + core);
    lemma_trimmed_start_pad(w, core);
    assert(core.last() == 'd');
    assert(trimmed(l) == core);
    assert(core.take(6) =~= "scope:"@);
    let v = seq![' '] + "shared"@;
    assert(core.skip(6) =~= v);
    assert(v.skip(1) =~= "shared"@);
    assert("shared"@.last() == 'd' && "shared"@[0] == 's');
    assert(trimmed_start(v.skip(1)) == "shared"@);
    assert(trimmed(v) == "shared"@);
    let t = core;
    let stops = ":"@;
    assert forall|i: int| 0 <= i < 5 implies !stops.contains(#[trigger] t[i]) by {}
    assert(stops[0] == t[5]);
    lemma_span_is(t, stops, 5);
    assert(t.take(5) =~= "scope"@);
    assert("scope"@.last() == 'e');
}

/// A line that says that the memory is shared has the key `scope`.
proof fn lemma_says_shared_scope(l: Text)
    requires
        says_shared(l),
    ensures
        is_scope_line(l),
{
    lemma_feed();
    let t = trimmed_start(l);
    lemma_trimmed_end(t);
    let core = trimmed(l);
    assert(core == t.take(core.len() as int));
    assert(core.take(6) == "scope:"@);
    assert("scope"@ + ":"@ =~= "scope:"@);
    assert(t.take(6) =~= core.take(6));
    assert(names(l, "scope"@));
    lemma_scope_line_named(l, "scope"@);
    let stops = ":"@;
    let k = "scope"@;
    assert forall|i: int| 0 <= i < 5 implies !stops.contains(#[trigger] k[i]) by {}
    lemma_span_is(k, stops, 5);
    assert(k.take(5) =~= k);
    assert(k.last() == 'e');
}

/// The lines without `scope` are sound, hold no `scope` line, and every one of
/// them was there.
proof fn lemma_unscoped(ls: Seq<Text>)
    requires
        sound(ls),
    ensures
        sound(unscoped(ls)),
        unscoped(ls).len() <= ls.len(),
        forall|i: int| 0 <= i < unscoped(ls).len() ==> !is_scope_line(#[trigger] unscoped(ls)[i]),
    decreases ls.len(),
{
    reveal(Seq::filter);
    if ls.len() > 0 {
        let head = ls.drop_last();
        assert(head =~= ls.take(ls.len() - 1));
        lemma_sound_take(ls, ls.len() - 1);
        lemma_unscoped(head);
        let u = unscoped(ls);
        let v = unscoped(head);
        let last = ls[ls.len() - 1];
        assert(one_line(last));
        assert(u == (if is_scope_line(last) {
            v
        } else {
            v.push(last)
        }));
        assert forall|i: int| 0 <= i < u.len() implies one_line(#[trigger] u[i]) by {
            if i < v.len() {
                assert(u[i] == v[i]);
            }
        }
        assert forall|i: int| 0 < i < u.len() implies !begins(#[trigger] u[i], "---"@) by {
            if i < v.len() {
                assert(u[i] == v[i]);
            } else {
                assert(ls.len() > 1);
            }
        }
        assert forall|i: int| 0 <= i < u.len() implies !is_scope_line(#[trigger] u[i]) by {
            if i < v.len() {
                assert(u[i] == v[i]);
            }
        }
    } else {
        assert(unscoped(ls) =~= ls);
    }
}

proof fn lemma_unscoped_concat(a: Seq<Text>, b: Seq<Text>)
    ensures
        unscoped(a + b) == unscoped(a) + unscoped(b),
{
    Seq::filter_distributes_over_add(a, b, |l: Text| !is_scope_line(l));
}

proof fn lemma_unscoped_same(ls: Seq<Text>)
    requires
        forall|i: int| 0 <= i < ls.len() ==> !is_scope_line(#[trigger] ls[i]),
    ensures
        unscoped(ls) == ls,
    decreases ls.len(),
{
    reveal(Seq::filter);
    if ls.len() > 0 {
        let head = ls.drop_last();
        assert forall|i: int| 0 <= i < head.len() implies !is_scope_line(#[trigger] head[i]) by {
            assert(head[i] == ls[i]);
        }
        lemma_unscoped_same(head);
        assert(!is_scope_line(ls[ls.len() - 1]));
        assert(head.push(ls.last()) =~= ls);
    }
}

/// A `scope` line put among lines of which none has that key is the one that is
/// taken out.
proof fn lemma_unscoped_insert(ls: Seq<Text>, k: int, line: Text)
    requires
        0 <= k <= ls.len(),
        is_scope_line(line),
        forall|i: int| 0 <= i < ls.len() ==> !is_scope_line(#[trigger] ls[i]),
    ensures
        unscoped(ls.insert(k, line)) == ls,
{
    let a = ls.take(k);
    let b = ls.skip(k);
    assert(ls =~= a + b);
    assert(ls.insert(k, line) =~= a + (seq![line] + b));
    lemma_unscoped_concat(a, seq![line] + b);
    lemma_unscoped_concat(seq![line], b);
    assert forall|i: int| 0 <= i < a.len() implies !is_scope_line(#[trigger] a[i]) by {
        assert(a[i] == ls[i]);
    }
    assert forall|i: int| 0 <= i < b.len() implies !is_scope_line(#[trigger] b[i]) by {
        assert(b[i] == ls[k + i]);
    }
    lemma_unscoped_same(a);
    lemma_unscoped_same(b);
    assert(unscoped(seq![line]) =~= Seq::<Text>::empty()) by {
        reveal(Seq::filter);
        assert(seq![line].drop_last() =~= Seq::<Text>::empty());
        assert(unscoped(seq![line].drop_last()) =~= Seq::<Text>::empty());
    }
    assert(Seq::<Text>::empty() + b =~= b);
}

/// Reading lines again keeps them sound and keeps their keys.
pub(crate) proof fn lemma_reread(ls: Seq<Text>)
    requires
        sound(ls),
    ensures
        sound(reread(ls)),
        reread(ls).len() <= ls.len(),
        ls.len() <= reread(ls).len() + 1,
        forall|i: int|
            0 <= i < reread(ls).len() ==> #[trigger] reread(ls)[i] == without_return(ls[i])
                || reread(ls)[i] == ls[i],
        reread(ls).len() < ls.len() ==> ls.last().len() == 0,
        forall|i: int|
            0 <= i < reread(ls).len() ==> is_scope_line(#[trigger] reread(ls)[i]) == is_scope_line(
                ls[i],
            ),
        forall|i: int|
            0 <= i < reread(ls).len() ==> says_shared(#[trigger] reread(ls)[i]) == says_shared(ls[i]),
{
    if ls.len() > 0 {
        let r = reread(ls);
        let last = ls[ls.len() - 1];
        assert(one_line(last));
        lemma_lines_single(last);
        assert forall|i: int| 0 <= i < r.len() implies #[trigger] r[i] == without_return(ls[i]) || r[i]
            == ls[i] by {}
        assert forall|i: int| 0 <= i < r.len() implies one_line(#[trigger] r[i]) by {
            assert(one_line(ls[i]));
            if r[i].contains('\n') {
                let k = choose|k: int| 0 <= k < r[i].len() && r[i][k] == '\n';
                assert(ls[i][k] == '\n');
            }
        }
        assert forall|i: int| 0 < i < r.len() implies !begins(#[trigger] r[i], "---"@) by {
            if begins(r[i], "---"@) {
                assert("---"@.len() == 3) by {
                    lemma_feed();
                }
                assert(ls[i].take(3) =~= r[i].take(3));
                assert(begins(ls[i], "---"@));
            }
        }
        assert forall|i: int| 0 <= i < r.len() implies is_scope_line(#[trigger] r[i])
            == is_scope_line(ls[i]) by {
            lemma_return_harmless(ls[i], "scope"@);
        }
        assert forall|i: int| 0 <= i < r.len() implies says_shared(#[trigger] r[i]) == says_shared(
            ls[i],
        ) by {
            lemma_return_harmless(ls[i], "scope"@);
        }
    }
}

/// A new line keeps sound lines sound.
proof fn lemma_with_line(ls: Seq<Text>, key: Text, value: Text) -> (r: (int, Text))
    requires
        sound(ls),
        one_line(key),
        one_line(value),
        fits(ls, key),
    ensures
        sound(with_line(ls, key, value)),
        0 <= r.0 <= ls.len(),
        with_line(ls, key, value) == ls.insert(r.0, r.1 + key + ": "@ + value),
        forall|i: int| 0 <= i < r.1.len() ==> white_space(#[trigger] r.1[i]),
{
    lemma_feed();
    lemma_anchor(ls);
    let (k, w) = match anchor(ls) {
        Some(i) => (i + 1, indent(ls[i])),
        None => (ls.len() as int, "  "@),
    };
    if let Some(i) = anchor(ls) {
        lemma_indent(ls[i]);
        assert(one_line(ls[i]));
    } else {
        if w.contains('\n') {
            let j = choose|j: int| 0 <= j < 2 && w[j] == '\n';
        }
    }
    let line = w + key + ": "@ + value;
    let all = with_line(ls, key, value);
    assert(all =~= ls.insert(k, line));
    assert(one_line(line)) by {
        if line.contains('\n') {
            let j = choose|j: int| 0 <= j < line.len() && line[j] == '\n';
            if j < w.len() {
                assert(w[j] == '\n');
            } else if j < w.len() + key.len() {
                assert(key[j - w.len()] == '\n');
            } else if j >= w.len() + key.len() + 2 {
                assert(value[j - w.len() - key.len() - 2] == '\n');
            }
        }
    }
    lemma_entry_no_fence(w, key, value);
    assert forall|i: int| 0 <= i < all.len() implies one_line(#[trigger] all[i]) by {
        if i < k {
            assert(all[i] == ls[i]);
        } else if i > k {
            assert(all[i] == ls[i - 1]);
        }
    }
    assert forall|i: int| 0 < i < all.len() implies !begins(#[trigger] all[i], "---"@) by {
        if i < k {
            assert(all[i] == ls[i]);
        } else if i > k {
            assert(all[i] == ls[i - 1]);
            assert(k > 0);
        }
    }
    (k, w)
}

/// The bare content that scoping starts from.
proof fn lemma_bare(content: Text)
    requires
        block(content) is Some,
    ensures
        ({
            let (fm, tail) = block(content)->0;
            let a = unscoped(lines_of(fm));
            let bare = rebuilt(a, tail);
            &&& begins(tail, "\n---"@)
            &&& sound(a)
            &&& scoped(content, false) == Some(bare)
            &&& block(bare) == Some((joined(a, "\n"@), tail))
            &&& lines_of(joined(a, "\n"@)) == reread(a)
            &&& sound(reread(a))
            &&& forall|i: int|
                0 <= i < reread(a).len() ==> !is_scope_line(#[trigger] reread(a)[i])
            &&& !has_key(reread(a), "scope"@)
            &&& scoped(content, true) == Some(
                rebuilt(with_line(reread(a), "scope"@, "shared"@), tail),
            )
        }),
{
    let (fm, tail) = block(content)->0;
    lemma_frontmatter_sound(content);
    lemma_unscoped(lines_of(fm));
    let a = unscoped(lines_of(fm));
    lemma_rebuilt(a, tail);
    lemma_reread(a);
    let b = reread(a);
    assert forall|i: int| 0 <= i < b.len() implies !is_scope_line(#[trigger] b[i]) by {
        assert(!is_scope_line(a[i]));
    }
    if has_key(b, "scope"@) {
        lemma_feed();
        let i = choose|i: int| 0 <= i < b.len() && names(#[trigger] b[i], "scope"@);
        lemma_scope_line_named(b[i], "scope"@);
        let k = "scope"@;
        let stops = ":"@;
        assert forall|j: int| 0 <= j < 5 implies !stops.contains(#[trigger] k[j]) by {}
        lemma_span_is(k, stops, 5);
        assert(k.take(5) =~= k);
        assert(k.last() == 'e');
    }
}

proof fn lemma_scope_fits(ls: Seq<Text>)
    ensures
        one_line("scope"@),
        one_line("shared"@),
        fits(ls, "scope"@),
{
    lemma_feed();
    let k = "scope"@;
    let v = "shared"@;
    if k.contains('\n') {
        let j = choose|j: int| 0 <= j < 5 && k[j] == '\n';
    }
    if v.contains('\n') {
        let j = choose|j: int| 0 <= j < 6 && v[j] == '\n';
    }
    assert(!begins(k, "---"@)) by {
        assert(k.take(3)[0] == 's');
    }
}

/// Sharing a memory marks it as shared, with exactly one `scope` line, and keeps
/// everything from the closing fence on.
pub proof fn sharing_marks(content: Text)
    requires
        block(content) is Some,
    ensures
        scoped(content, true) is Some,
        is_shared(frontmatter_of(scoped(content, true)->0)),
        ({
            let now = lines_of(frontmatter_of(scoped(content, true)->0));
            exists|i: int|
                {
                    &&& 0 <= i < now.len()
                    &&& is_scope_line(#[trigger] now[i])
                    &&& says_shared(now[i])
                    &&& forall|j: int|
                        0 <= j < now.len() && is_scope_line(#[trigger] now[j]) ==> j == i
                }
        }),
        block(scoped(content, true)->0) is Some,
        (block(scoped(content, true)->0)->0).1 == (block(content)->0).1,
{
    lemma_bare(content);
    let (fm, tail) = block(content)->0;
    let b = reread(unscoped(lines_of(fm)));
    lemma_scope_fits(b);
    let (k, w) = lemma_with_line(b, "scope"@, "shared"@);
    let line = w + "scope"@ + ": "@ + "shared"@;
    let l = with_line(b, "scope"@, "shared"@);
    lemma_shared_line(w);
    lemma_rebuilt(l, tail);
    lemma_reread(l);
    let now = reread(l);
    assert(l[k] == line);
    assert(k < now.len()) by {
        lemma_feed();
        if now.len() <= k {
            assert(l.last() == line);
            assert(line.len() >= 5);
        }
    }
    assert(is_scope_line(now[k]) && says_shared(now[k]));
    assert forall|j: int| 0 <= j < now.len() && is_scope_line(#[trigger] now[j]) implies j == k by {
        assert(is_scope_line(l[j]));
        if j < k {
            assert(l[j] == b[j]);
        } else if j > k {
            assert(l[j] == b[j - 1]);
        }
    }
    assert(frontmatter_of(scoped(content, true)->0) == joined(l, "\n"@));
}

/// Making a memory local leaves no `scope` line, so that it is not shared, and
/// keeps everything from the closing fence on.
pub proof fn clearing_unmarks(content: Text)
    requires
        block(content) is Some,
    ensures
        scoped(content, false) is Some,
        !is_shared(frontmatter_of(scoped(content, false)->0)),
        ({
            let now = lines_of(frontmatter_of(scoped(content, false)->0));
            forall|i: int| 0 <= i < now.len() ==> !is_scope_line(#[trigger] now[i])
        }),
        block(scoped(content, false)->0) is Some,
        (block(scoped(content, false)->0)->0).1 == (block(content)->0).1,
{
    lemma_bare(content);
    let fm = frontmatter_of(scoped(content, false)->0);
    if is_shared(fm) {
        let i = choose|i: int| 0 <= i < lines_of(fm).len() && says_shared(#[trigger] lines_of(fm)[i]);
        lemma_says_shared_scope(lines_of(fm)[i]);
    }
}

/// Sharing a memory that was just shared changes nothing, wherever the lines
/// that the first rewriting worked on and those that it wrote read back as they
/// are.
pub proof fn sharing_is_idempotent(content: Text)
    requires
        block(content) is Some,
        settled(reread(unscoped(lines_of(frontmatter_of(content))))),
        settled(
            with_line(
                reread(unscoped(lines_of(frontmatter_of(content)))),
                "scope"@,
                "shared"@,
            ),
        ),
    ensures
        scoped(scoped(content, true)->0, true) == scoped(content, true),
{
    lemma_bare(content);
    let (fm, tail) = block(content)->0;
    let b = reread(unscoped(lines_of(fm)));
    lemma_scope_fits(b);
    let (k, w) = lemma_with_line(b, "scope"@, "shared"@);
    let line = w + "scope"@ + ": "@ + "shared"@;
    let l = with_line(b, "scope"@, "shared"@);
    lemma_shared_line(w);
    lemma_rebuilt(l, tail);
    let once = scoped(content, true)->0;
    lemma_bare(once);
    lemma_unscoped_insert(b, k, line);
    lemma_lines_joined(b);
}

/// Whether no line ends in a carriage return and the last one is not empty.
pub open spec fn is_plain(ls: Seq<Text>) -> bool {
    &&& forall|i: int|
        0 <= i < ls.len() && (#[trigger] ls[i]).len() > 0 ==> ls[i].last() != '\r'
    &&& ls.len() > 0 ==> ls.last().len() > 0
}

proof fn lemma_plain_reread(ls: Seq<Text>)
    requires
        sound(ls),
        is_plain(ls),
    ensures
        reread(ls) == ls,
{
    if ls.len() > 0 {
        let last = ls[ls.len() - 1];
        assert(one_line(last));
        lemma_lines_single(last);
        let r = reread(ls);
        assert forall|i: int| 0 <= i < ls.len() implies #[trigger] r[i] == ls[i] by {}
        assert(r =~= ls);
    }
}

/// Of several scopes that a memory is given one after another, only the last one
/// counts. The lines that are no `scope` lines are to read back as they are.
pub proof fn last_scope_wins(content: Text, first: bool, last: bool)
    requires
        block(content) is Some,
        is_plain(unscoped(lines_of(frontmatter_of(content)))),
    ensures
        scoped(scoped(content, first)->0, last) == scoped(content, last),
{
    lemma_bare(content);
    let (fm, tail) = block(content)->0;
    let a = unscoped(lines_of(fm));
    lemma_plain_reread(a);
    let once = scoped(content, first)->0;
    if first {
        lemma_scope_fits(a);
        let (k, w) = lemma_with_line(a, "scope"@, "shared"@);
        let line = w + "scope"@ + ": "@ + "shared"@;
        let l = with_line(a, "scope"@, "shared"@);
        lemma_shared_line(w);
        assert(line.last() == 'd') by {
            lemma_feed();
        }
        assert forall|i: int| 0 <= i < l.len() && (#[trigger] l[i]).len() > 0 implies l[i].last()
            != '\r' by {
            if i < k {
                assert(l[i] == a[i]);
            } else if i > k {
                assert(l[i] == a[i - 1]);
            }
        }
        assert(l.last().len() > 0) by {
            lemma_feed();
            if k < a.len() {
                assert(l.last() == a.last());
            }
        }
        lemma_plain_reread(l);
        lemma_rebuilt(l, tail);
        lemma_bare(once);
        lemma_unscoped_insert(a, k, line);
    } else {
        lemma_bare(once);
        lemma_unscoped_same(a);
    }
}

proof fn lemma_lines_no_return(s: Text)
    requires
        !s.contains('\r'),
    ensures
        forall|i: int| 0 <= i < lines_of(s).len() ==> !(#[trigger] lines_of(s)[i]).contains('\r'),
    decreases s.len(),
{
    if s.len() > 0 {
        let stops = seq!['\n'];
        lemma_span(s, stops);
        let n = span(s, stops) as int;
        if n < s.len() {
            let rest = s.skip(n + 1);
            let line = without_return(s.take(n));
            if rest.contains('\r') {
                let k = choose|k: int| 0 <= k < rest.len() && rest[k] == '\r';
                assert(s[n + 1 + k] == '\r');
            }
            lemma_lines_no_return(rest);
            assert forall|i: int| 0 <= i < lines_of(s).len() implies !(#[trigger] lines_of(
                s,
            )[i]).contains('\r') by {
                if i == 0 {
                    if line.contains('\r') {
                        let k = choose|k: int| 0 <= k < line.len() && line[k] == '\r';
                        assert(s[k] == '\r');
                    }
                } else {
                    assert(lines_of(s)[i] == lines_of(rest)[i - 1]);
                }
            }
        }
    }
}

proof fn lemma_unscoped_kept(ls: Seq<Text>)
    ensures
        forall|i: int| 0 <= i < unscoped(ls).len() ==> ls.contains(#[trigger] unscoped(ls)[i]),
    decreases ls.len(),
{
    reveal(Seq::filter);
    if ls.len() > 0 {
        let head = ls.drop_last();
        lemma_unscoped_kept(head);
        let u = unscoped(ls);
        let v = unscoped(head);
        assert forall|i: int| 0 <= i < u.len() implies ls.contains(#[trigger] u[i]) by {
            if i < v.len() {
                assert(u[i] == v[i]);
                let k = choose|k: int| 0 <= k < head.len() && head[k] == v[i];
                assert(ls[k] == u[i]);
            } else {
                assert(u[i] == ls[ls.len() - 1]);
            }
        }
    }
}

/// A frontmatter without carriage returns and without empty lines is one for
/// which the last scope wins.
pub proof fn plain_text_is_plain(fm: Text)
    requires
        !fm.contains('\r'),
        forall|i: int| 0 <= i < lines_of(fm).len() ==> (#[trigger] lines_of(fm)[i]).len() > 0,
    ensures
        is_plain(unscoped(lines_of(fm))),
{
    lemma_lines_no_return(fm);
    lemma_unscoped_kept(lines_of(fm));
    let ls = lines_of(fm);
    let u = unscoped(ls);
    assert forall|i: int| 0 <= i < u.len() implies (#[trigger] u[i]).len() > 0 && u[i].last()
        != '\r' by {
        let k = choose|k: int| 0 <= k < ls.len() && ls[k] == u[i];
        assert(ls[k].len() > 0);
        assert(ls[k].contains(ls[k][ls[k].len() - 1]));
    }
    if u.len() > 0 {
        assert(u[u.len() - 1].len() > 0);
    }
}

proof fn lemma_rejoined(s: Text)
    requires
        !contains(s, "\r\n"@),
        s.len() > 0 ==> s.last() != '\n',
    ensures
        joined(lines_of(s), "\n"@) == s,
    decreases s.len(),
{
    lemma_feed();
    reveal_strlit("\r\n");
    if s.len() > 0 {
        let stops = seq!['\n'];
        lemma_span(s, stops);
        let n = span(s, stops) as int;
        if n >= s.len() {
            assert(seq![s].skip(1) =~= Seq::<Text>::empty());
            assert(joined(lines_of(s), "\n"@) =~= s);
        } else {
            let rest = s.skip(n + 1);
            let line = s.take(n);
            lemma_position_from(s, "\r\n"@, 0);
            lemma_position_from(s, "\r\n"@, n + 1);
            lemma_position_shift(s, "\r\n"@, n + 1);
            assert(s[n] == '\n');
            if n > 0 && line.last() == '\r' {
                assert(s.subrange(n - 1, n + 1) =~= "\r\n"@);
                assert(occurs_at(s, "\r\n"@, n - 1));
            }
            assert(rest.len() > 0);
            assert(rest.last() == s.last());
            lemma_rejoined(rest);
            let more = lines_of(rest);
            let all = seq![line] + more;
            assert(more.len() > 0);
            assert(all.skip(1) =~= more);
            assert(prefixed(more, "\n"@) =~= "\n"@ + joined(more, "\n"@));
            assert(joined(all, "\n"@) =~= s);
        }
    }
}

/// Making a memory local that has no `scope` line changes nothing, where its
/// frontmatter has no carriage return in front of a line feed and does not end in
/// an empty line.
pub proof fn local_stays_as_it_is(content: Text)
    requires
        block(content) is Some,
        !contains(frontmatter_of(content), "\r\n"@),
        frontmatter_of(content).len() > 0 ==> frontmatter_of(content).last() != '\n',
        forall|i: int|
            0 <= i < lines_of(frontmatter_of(content)).len() ==> !is_scope_line(
                #[trigger] lines_of(frontmatter_of(content))[i],
            ),
    ensures
        scoped(content, false) == Some(content),
{
    let (fm, tail) = block(content)->0;
    lemma_unscoped_same(lines_of(fm));
    lemma_rejoined(fm);
    lemma_feed();
    let rest = content.skip(4);
    lemma_position_from(rest, "\n---"@, 0);
    assert(content.take(4) =~= "---\n"@);
    assert(fm + tail =~= rest);
    assert("---\n"@ + fm + tail =~= content);
}

proof fn lemma_field_concat(a: Seq<Text>, b: Seq<Text>, key: Text)
    ensures
        field(a + b, key) == (if has_key(a, key) {
            field(a, key)
        } else {
            field(b, key)
        }),
    decreases a.len(),
{
    let s = a + b;
    if a.len() == 0 {
        assert(s =~= b);
    } else {
        assert(s[0] == a[0]);
        if names(a[0], key) {
            assert(has_key(a, key));
        } else {
            let more = a.skip(1);
            assert(s.skip(1) =~= more + b);
            lemma_field_concat(more, b, key);
            lemma_field_none(a, key);
            lemma_field_none(more, key);
        }
    }
}

proof fn lemma_field_return(ls: Seq<Text>, key: Text)
    ensures
        field(ls.map_values(|l: Text| without_return(l)), key) == field(ls, key),
    decreases ls.len(),
{
    if ls.len() > 0 {
        let r = ls.map_values(|l: Text| without_return(l));
        assert(r.skip(1) =~= ls.skip(1).map_values(|l: Text| without_return(l)));
        lemma_return_harmless(ls[0], key);
        lemma_field_return(ls.skip(1), key);
    }
}

/// Joining lines and reading them again changes no field.
pub(crate) proof fn lemma_field_reread(ls: Seq<Text>, key: Text)
    requires
        sound(ls),
    ensures
        field(reread(ls), key) == field(ls, key),
{
    if ls.len() > 0 {
        let head = ls.drop_last();
        let last = ls[ls.len() - 1];
        let r = head.map_values(|l: Text| without_return(l));
        assert(one_line(last));
        lemma_lines_single(last);
        lemma_field_return(head, key);
        lemma_field_concat(r, lines_of(last), key);
        lemma_field_concat(head, seq![last], key);
        assert(head + seq![last] =~= ls);
        lemma_field_none(r, key);
        lemma_field_none(head, key);
        if last.len() == 0 {
            assert(!names(last, key)) by {
                lemma_feed();
                assert(trimmed_start(last) =~= last);
            }
            lemma_field_none(lines_of(last), key);
            lemma_field_none(seq![last], key);
            if has_key(seq![last], key) {
                let i = choose|i: int| 0 <= i < 1 && names(#[trigger] seq![last][i], key);
            }
        }
    }
}

/// A line that does not name a key can be put in or left out.
proof fn lemma_field_insert(ls: Seq<Text>, k: int, line: Text, key: Text)
    requires
        0 <= k <= ls.len(),
        !names(line, key),
    ensures
        field(ls.insert(k, line), key) == field(ls, key),
{
    let a = ls.take(k);
    let b = ls.skip(k);
    assert(ls =~= a + b);
    assert(ls.insert(k, line) =~= a + (seq![line] + b));
    lemma_field_concat(a, b, key);
    lemma_field_concat(a, seq![line] + b, key);
    lemma_field_concat(seq![line], b, key);
    if has_key(seq![line], key) {
        let i = choose|i: int| 0 <= i < 1 && names(#[trigger] seq![line][i], key);
    }
}

proof fn lemma_field_unscoped(ls: Seq<Text>, key: Text)
    requires
        trimmed(key.take(span(key, ":"@) as int)) != "scope"@,
    ensures
        field(unscoped(ls), key) == field(ls, key),
    decreases ls.len(),
{
    reveal(Seq::filter);
    if ls.len() > 0 {
        let head = ls.drop_last();
        let last = ls.last();
        lemma_field_unscoped(head, key);
        lemma_field_concat(head, seq![last], key);
        assert(head + seq![last] =~= ls);
        lemma_field_none(head, key);
        lemma_field_none(unscoped(head), key);
        if is_scope_line(last) {
            if names(last, key) {
                lemma_scope_line_named(last, key);
            }
            if has_key(seq![last], key) {
                let i = choose|i: int| 0 <= i < 1 && names(#[trigger] seq![last][i], key);
            }
            lemma_field_none(seq![last], key);
        } else {
            lemma_field_concat(unscoped(head), seq![last], key);
            assert(unscoped(head) + seq![last] =~= unscoped(ls));
        }
    } else {
        assert(unscoped(ls) =~= ls);
    }
}

/// Setting the scope of a memory changes no other field.
pub proof fn scoping_keeps_other_fields(content: Text, shared: bool, key: Text)
    requires
        block(content) is Some,
        trimmed(key.take(span(key, ":"@) as int)) != "scope"@,
    ensures
        scoped(content, shared) is Some,
        field(lines_of(frontmatter_of(scoped(content, shared)->0)), key) == field(
            lines_of(frontmatter_of(content)),
            key,
        ),
{
    lemma_bare(content);
    let (fm, tail) = block(content)->0;
    let a = unscoped(lines_of(fm));
    let b = reread(a);
    lemma_field_unscoped(lines_of(fm), key);
    lemma_field_reread(a, key);
    if shared {
        lemma_scope_fits(b);
        let (k, w) = lemma_with_line(b, "scope"@, "shared"@);
        let line = w + "scope"@ + ": "@ + "shared"@;
        let l = with_line(b, "scope"@, "shared"@);
        lemma_shared_line(w);
        lemma_rebuilt(l, tail);
        if names(line, key) {
            lemma_scope_line_named(line, key);
        }
        lemma_field_insert(b, k, line, key);
        lemma_field_reread(l, key);
    }
}

/// What a line names up to the first colon is the same for every key it names.
proof fn lemma_named_alike(l: Text, a: Text, b: Text)
    requires
        names(l, a),
        names(l, b),
    ensures
        a.take(span(a, ":"@) as int) == b.take(span(b, ":"@) as int),
{
    lemma_feed();
    let t = trimmed_start(l);
    let stops = ":"@;
    let p = a + ":"@;
    let q = b + ":"@;
    let n = span(a, stops);
    let m = span(b, stops);
    lemma_span(a, stops);
    lemma_span(b, stops);
    assert(t.take(p.len() as int) == p);
    assert(t.take(q.len() as int) == q);
    assert(stops[0] == ':');
    assert(t[n as int] == p[n as int]);
    assert(t[m as int] == q[m as int]);
    assert(stops.contains(t[n as int])) by {
        if n < a.len() {
            assert(p[n as int] == a[n as int]);
        }
    }
    assert(stops.contains(t[m as int])) by {
        if m < b.len() {
            assert(q[m as int] == b[m as int]);
        }
    }
    if n < m {
        assert(t[n as int] == q[n as int] && q[n as int] == b[n as int]);
    } else if m < n {
        assert(t[m as int] == p[m as int] && p[m as int] == a[m as int]);
    }
    assert(a.take(n as int) =~= t.take(n as int));
    assert(b.take(m as int) =~= t.take(m as int));
}

/// Setting a field to a value of one line changes no other field and keeps
/// everything from the closing fence on.
pub proof fn update_keeps_other_fields(content: Text, key: Text, value: Text, other: Text)
    requires
        block(content) is Some,
        one_line(key),
        one_line(value),
        key.len() > 0 ==> !white_space(key[0]),
        has_key(lines_of(frontmatter_of(content)), key) || fits(
            lines_of(frontmatter_of(content)),
            key,
        ),
        other.take(span(other, ":"@) as int) != key.take(span(key, ":"@) as int),
    ensures
        updated(content, key, value) is Some,
        block(updated(content, key, value)->0) is Some,
        (block(updated(content, key, value)->0)->0).1 == (block(content)->0).1,
        field(lines_of(frontmatter_of(updated(content, key, value)->0)), other) == field(
            lines_of(frontmatter_of(content)),
            other,
        ),
{
    lemma_frontmatter_sound(content);
    let (fm, tail) = block(content)->0;
    let ls = lines_of(fm);
    if has_key(ls, key) {
        let k = lemma_first_named(ls, key);
        let w = indent(ls[k]);
        let line = w + key + ": "@ + value;
        let now = with_value(ls, key, value);
        lemma_indent(ls[k]);
        lemma_entry_value(w, key, value);
        assert(now == ls.take(k) + seq![line] + ls.skip(k + 1));
        let short = ls.remove(k);
        assert(now =~= short.insert(k, line));
        assert(ls =~= short.insert(k, ls[k]));
        if names(line, other) {
            lemma_named_alike(line, key, other);
        }
        if names(ls[k], other) {
            lemma_named_alike(ls[k], key, other);
        }
        lemma_field_insert(short, k, line, other);
        lemma_field_insert(short, k, ls[k], other);
        lemma_value_sound(ls, k, key, value);
        lemma_rebuilt(now, tail);
        lemma_field_reread(now, other);
    } else {
        let (k, w) = lemma_with_line(ls, key, value);
        let line = w + key + ": "@ + value;
        lemma_entry_value(w, key, value);
        if names(line, other) {
            lemma_named_alike(line, key, other);
        }
        let now = with_line(ls, key, value);
        lemma_field_insert(ls, k, line, other);
        lemma_rebuilt(now, tail);
        lemma_field_reread(now, other);
    }
}

/// Replacing the value on a line keeps sound lines sound.
proof fn lemma_value_sound(ls: Seq<Text>, k: int, key: Text, value: Text)
    requires
        sound(ls),
        0 <= k < ls.len(),
        names(ls[k], key),
        one_line(key),
        one_line(value),
    ensures
        sound(ls.update(k, indent(ls[k]) + key + ": "@ + value)),
        ls.update(k, indent(ls[k]) + key + ": "@ + value) == ls.take(k) + seq![
            indent(ls[k]) + key + ": "@ + value,
        ] + ls.skip(k + 1),
{
    lemma_feed();
    let w = indent(ls[k]);
    let line = w + key + ": "@ + value;
    let now = ls.update(k, line);
    assert(now =~= ls.take(k) + seq![line] + ls.skip(k + 1));
    lemma_indent(ls[k]);
    assert(one_line(ls[k]));
    assert(one_line(line)) by {
        if line.contains('\n') {
            let j = choose|j: int| 0 <= j < line.len() && line[j] == '\n';
            if j < w.len() {
                assert(w[j] == '\n');
            } else if j < w.len() + key.len() {
                assert(key[j - w.len()] == '\n');
            } else if j >= w.len() + key.len() + 2 {
                assert(value[j - w.len() - key.len() - 2] == '\n');
            }
        }
    }
    if k > 0 && w.len() == 0 && begins(key, "---"@) {
        let t = trimmed_start(ls[k]);
        assert(t =~= ls[k]);
        let p = key + ":"@;
        assert(t.take(p.len() as int) == p);
        assert(ls[k].take(3) =~= p.take(3));
        assert(p.take(3) =~= key.take(3));
        assert(begins(ls[k], "---"@));
    }
    if k > 0 {
        lemma_entry_no_fence(w, key, value);
    }
    assert forall|i: int| 0 <= i < now.len() implies one_line(#[trigger] now[i]) by {
        if i != k {
            assert(now[i] == ls[i]);
        }
    }
    assert forall|i: int| 0 < i < now.len() implies !begins(#[trigger] now[i], "---"@) by {
        if i != k {
            assert(now[i] == ls[i]);
        }
    }
}

} // verus!

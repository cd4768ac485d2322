//! Which lines of a frontmatter are rewritten, and where new ones go.
use crate::frontmatter::{
    anchor, block, frontmatter_of, has_key, indent, inserted, is_anchor, is_scope_line, names,
    rebuilt, updated, with_line, with_value,
};
use crate::frontmatter_laws::{lemma_lines_step, lemma_trimmed_start_pad};
use crate::memory_laws::{gives, lemma_gives};
use crate::scope::{sets_scope, shared_now, Found, ScopeChange};
use crate::text::{
    lemma_span, lemma_span_is, lemma_trimmed_start, lines_of, span, trimmed_start, white_space,
    Text,
};
use crate::text_laws::{is_blank, text_is_trimmed_with_blanks_around, trimming_cuts_the_ends};
use vstd::prelude::*;

verus! {

/// A line ends at a line feed, and a carriage return in front of that is no part of it.
pub proof fn lines_end_at_line_feeds(line: Text, rest: Text)
    requires
        !line.contains('\n'),
        line.len() > 0 ==> line.last() != '\r',
    ensures
        lines_of(line + "\n"@ + rest) == seq![line] + lines_of(rest),
        lines_of(line + "\r\n"@ + rest) == seq![line] + lines_of(rest),
        line.len() > 0 ==> lines_of(line) == seq![line],
        lines_of(Seq::empty()) == Seq::<Text>::empty(),
{
    reveal_strlit("\n");
    reveal_strlit("\r\n");
    lemma_lines_step(line, rest);
    let cr = line.push('\r');
    if cr.contains('\n') {
        let k = choose|k: int| 0 <= k < cr.len() && cr[k] == '\n';
        assert(line[k] == '\n');
    }
    lemma_lines_step(cr, rest);
    assert(cr.drop_last() =~= line);
    assert(line + "\r\n"@ + rest =~= cr + "\n"@ + rest);
    crate::frontmatter_laws::lemma_lines_single(line);
}

proof fn lemma_anchor_line(line: Text)
    ensures
        is_anchor(line) <==> exists|v: Text|
            gives(line, "type"@, v) || gives(line, "scope"@, v),
{
    reveal_strlit("type");
    reveal_strlit("scope");
    reveal_strlit("type:");
    reveal_strlit("scope:");
    reveal_strlit(":");
    assert("type"@ + ":"@ =~= "type:"@);
    assert("scope"@ + ":"@ =~= "scope:"@);
    lemma_gives(line, "type"@);
    lemma_gives(line, "scope"@);
    if is_anchor(line) {
        if names(line, "type"@) {
            let v = trimmed_start(line).skip(("type"@ + ":"@).len() as int);
            assert(gives(line, "type"@, v));
        } else {
            let v = trimmed_start(line).skip(("scope"@ + ":"@).len() as int);
            assert(gives(line, "scope"@, v));
        }
    }
    if exists|v: Text| gives(line, "type"@, v) || gives(line, "scope"@, v) {
        let v = choose|v: Text| gives(line, "type"@, v) || gives(line, "scope"@, v);
        if gives(line, "type"@, v) {
            assert(names(line, "type"@));
        } else {
            assert(names(line, "scope"@));
        }
    }
}

/// Whether a line gives the type or the scope.
pub open spec fn gives_type_or_scope(line: Text) -> bool {
    exists|v: Text| gives(line, "type"@, v) || gives(line, "scope"@, v)
}

/// A new line goes behind the last line that gives the type or the scope, with the same
/// indent; without such a line it goes to the end, indented by two blanks.
pub proof fn new_line_goes_behind_type_and_scope(
    ls: Seq<Text>,
    key: Text,
    value: Text,
    k: int,
    w: Text,
    core: Text,
)
    ensures
        0 <= k < ls.len() && gives_type_or_scope(ls[k]) && (forall|j: int|
            k < j < ls.len() ==> !gives_type_or_scope(#[trigger] ls[j])) && ls[k] == w + core
            && is_blank(w) && core.len() > 0 && !white_space(core[0]) ==> with_line(ls, key, value)
            == ls.take(k + 1) + seq![w + key + ": "@ + value] + ls.skip(k + 1),
        (forall|j: int| 0 <= j < ls.len() ==> !gives_type_or_scope(#[trigger] ls[j])) ==> with_line(
            ls,
            key,
            value,
        ) == ls.push("  "@ + key + ": "@ + value),
{
    lemma_anchor_place(ls);
    if 0 <= k < ls.len() && gives_type_or_scope(ls[k]) && (forall|j: int|
        k < j < ls.len() ==> !gives_type_or_scope(#[trigger] ls[j])) && ls[k] == w + core
        && is_blank(w) && core.len() > 0 && !white_space(core[0]) {
        assert(anchor(ls) == Some(k));
        lemma_trimmed_start_pad(w, core);
        assert(indent(ls[k]) =~= w);
        assert(with_line(ls, key, value) =~= ls.take(k + 1) + seq![w + key + ": "@ + value]
            + ls.skip(k + 1));
    }
}

proof fn lemma_anchor_place(ls: Seq<Text>)
    ensures
        match anchor(ls) {
            Some(i) => {
                &&& 0 <= i < ls.len()
                &&& gives_type_or_scope(ls[i])
                &&& forall|j: int| i < j < ls.len() ==> !gives_type_or_scope(#[trigger] ls[j])
            },
            None => forall|j: int| 0 <= j < ls.len() ==> !gives_type_or_scope(#[trigger] ls[j]),
        },
    decreases ls.len(),
{
    if ls.len() > 0 {
        let head = ls.drop_last();
        let last = ls[ls.len() - 1];
        lemma_anchor_line(last);
        lemma_anchor_place(head);
        if !is_anchor(last) {
            match anchor(head) {
                Some(i) => {
                    assert(ls[i] == head[i]);
                    assert forall|j: int| i < j < ls.len() implies !gives_type_or_scope(
                        #[trigger] ls[j],
                    ) by {
                        if j < head.len() {
                            assert(ls[j] == head[j]);
                        }
                    }
                },
                None => {
                    assert forall|j: int| 0 <= j < ls.len() implies !gives_type_or_scope(
                        #[trigger] ls[j],
                    ) by {
                        if j < head.len() {
                            assert(ls[j] == head[j]);
                        }
                    }
                },
            }
        }
    }
}

/// Replacing a value changes the first line that gives the key, keeps its indent, and
/// leaves every other line as it is.
pub proof fn value_is_replaced_in_its_line(
    ls: Seq<Text>,
    key: Text,
    value: Text,
    k: int,
    w: Text,
    was: Text,
)
    requires
        key.len() > 0,
        !white_space(key[0]),
        0 <= k < ls.len(),
        is_blank(w),
        ls[k] == w + key + ":"@ + was,
        forall|j: int, v: Text| 0 <= j < k ==> !#[trigger] gives(ls[j], key, v),
    ensures
        with_value(ls, key, value) == ls.update(k, w + key + ": "@ + value),
    decreases ls.len(),
{
    let more = ls.skip(1);
    lemma_gives(ls[0], key);
    if k == 0 {
        assert(gives(ls[0], key, was));
        assert(names(ls[0], key));
        let core = key + ":"@ + was;
        assert(ls[0] =~= w + core);
        assert(core[0] == key[0]);
        lemma_trimmed_start_pad(w, core);
        assert(indent(ls[0]) =~= w);
        assert(with_value(ls, key, value) =~= ls.update(0, w + key + ": "@ + value));
    } else {
        assert(!names(ls[0], key)) by {
            if names(ls[0], key) {
                assert(gives(ls[0], key, trimmed_start(ls[0]).skip((key + ":"@).len() as int)));
            }
        }
        assert forall|j: int, v: Text| 0 <= j < k - 1 implies !#[trigger] gives(
            more[j],
            key,
            v,
        ) by {
            assert(more[j] == ls[j + 1]);
        }
        assert(more[k - 1] == ls[k]);
        value_is_replaced_in_its_line(more, key, value, k - 1, w, was);
        assert(with_value(ls, key, value) =~= ls.update(k, w + key + ": "@ + value));
    }
}

/// A field is set in its own line where it has one, and else in a new line; without a
/// frontmatter nothing is set. A new line is only put in where the key has none.
pub proof fn field_is_set_in_place_or_new(content: Text, key: Text, value: Text)
    ensures
        block(content) is None ==> updated(content, key, value) is None && inserted(
            content,
            key,
            value,
        ) is None,
        block(content) matches Some((fm, tail)) ==> {
            let ls = lines_of(fm);
            &&& has_key(ls, key) ==> inserted(content, key, value) is None && updated(
                content,
                key,
                value,
            ) == Some(rebuilt(with_value(ls, key, value), tail))
            &&& !has_key(ls, key) ==> inserted(content, key, value) == Some(
                rebuilt(with_line(ls, key, value), tail),
            ) && updated(content, key, value) == inserted(content, key, value)
        },
{
}

/// Whether a line has the key `scope`: that word in front of the first colon, or alone,
/// with nothing but white space around it.
pub open spec fn has_scope_key(line: Text) -> bool {
    exists|a: Text, b: Text, rest: Text|
        {
            &&& is_blank(a)
            &&& is_blank(b)
            &&& rest.len() > 0 ==> rest[0] == ':'
            &&& line == #[trigger] (a + "scope"@ + b + rest)
        }
}

/// Setting a scope takes out exactly the lines that have the key `scope`.
pub proof fn scope_lines_have_the_key_scope(line: Text)
    ensures
        is_scope_line(line) <==> has_scope_key(line),
{
    reveal_strlit("scope");
    reveal_strlit(":");
    let key = "scope"@;
    let stops = ":"@;
    assert(stops =~= seq![':']);
    assert(stops[0] == ':');
    let t = trimmed_start(line);
    lemma_trimmed_start(line);
    lemma_span(t, stops);
    let n = span(t, stops) as int;
    if is_scope_line(line) {
        let x = t.take(n);
        let (a, b) = text_is_trimmed_with_blanks_around(x);
        let w = line.take(line.len() - t.len());
        let rest = t.skip(n);
        let front = w + a;
        assert forall|i: int| 0 <= i < front.len() implies white_space(#[trigger] front[i]) by {
            if i < w.len() {
                assert(white_space(line[i]));
            } else {
                assert(front[i] == a[i - w.len()]);
            }
        }
        if rest.len() > 0 {
            assert(rest[0] == t[n]);
        }
        assert(line =~= w + t);
        assert(t =~= x + rest);
        assert(x == a + key + b);
        assert(line =~= front + key + b + rest);
    }
    if has_scope_key(line) {
        let (a, b, rest) = choose|a: Text, b: Text, rest: Text|
            {
                &&& is_blank(a)
                &&& is_blank(b)
                &&& rest.len() > 0 ==> rest[0] == ':'
                &&& line == #[trigger] (a + key + b + rest)
            };
        let core = key + b + rest;
        assert(line =~= a + core);
        assert(core[0] == 's');
        lemma_trimmed_start_pad(a, core);
        let x = key + b;
        assert forall|i: int| 0 <= i < x.len() implies !stops.contains(#[trigger] core[i]) by {
            if i < 5 {
                assert(core[i] == key[i]);
            } else {
                assert(core[i] == b[i - 5]);
                assert(white_space(b[i - 5]));
            }
        }
        if rest.len() > 0 {
            assert(core[x.len() as int] == rest[0]);
        }
        lemma_span_is(core, stops, x.len());
        assert(core.take(x.len() as int) =~= x);
        let none = Seq::<char>::empty();
        assert(key.last() == 'e');
        trimming_cuts_the_ends(none, key, b);
        assert(none + key + b =~= x);
    }
}

/// A change of scope pushes exactly where the memory becomes shared, writes exactly
/// where there is a frontmatter, and writes a memory that has the scope asked for.
pub proof fn scope_change_does_what_was_asked(
    w: ScopeChange,
    state: Found,
    shared: bool,
    file: Text,
)
    requires
        sets_scope(w, state, shared),
    ensures
        w.push == shared,
        w.write is Some <==> (state matches Found::Content(c) && block(c) is Some),
        w.bare <==> (state matches Found::Content(c) && block(c) is None),
        w.write matches Some(c) ==> crate::memory::memory_of(file, c@).shared == shared,
{
    if let Found::Content(c) = state {
        if block(c) is Some {
            crate::memory_laws::scope_is_what_it_was_set_to(file, c, shared);
        }
    }
}

/// What is not there or cannot be read is not shared, and a content is as it says.
pub proof fn only_what_can_be_read_is_shared(file: Text, c: Text)
    ensures
        !shared_now(Found::Missing),
        !shared_now(Found::Unreadable),
        shared_now(Found::Content(c)) == crate::memory::memory_of(file, c).shared,
{
    reveal_strlit("");
    reveal_strlit("---\n");
    assert(lines_of(frontmatter_of(""@)) =~= Seq::<Text>::empty());
}

} // verus!

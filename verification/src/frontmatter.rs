//! The frontmatter of a memory: the lines between its fences, reading a field
//! of it, and rewriting it without touching the body.
use crate::text::{
    before, begins, find, join, joined, lemma_trimmed_start, lines, lines_of, position, same, span,
    starts_with, strip_prefix, texts, trim, trim_start, trimmed, trimmed_start, Text,
};
use vstd::prelude::*;

verus! {

/// The text between the opening and the closing fence, and everything from the
/// closing fence on.
pub open spec fn block(content: Text) -> Option<(Text, Text)> {
    if begins(content, "---\n"@) {
        let rest = content.skip("---\n"@.len() as int);
        match position(rest, "\n---"@) {
            Some(e) => Some((rest.take(e), rest.skip(e))),
            None => None,
        }
    } else {
        None
    }
}

/// The frontmatter, empty where there is none.
pub open spec fn frontmatter_of(content: Text) -> Text {
    match block(content) {
        Some(b) => b.0,
        None => Seq::empty(),
    }
}

/// A content with the given frontmatter lines, closed by `tail`.
pub open spec fn rebuilt(lines: Seq<Text>, tail: Text) -> Text {
    "---\n"@ + joined(lines, "\n"@) + tail
}

/// Whether a line begins, behind its indent, with `key` and a colon.
pub open spec fn names(line: Text, key: Text) -> bool {
    begins(trimmed_start(line), key + ":"@)
}

/// The value on the first line that names `key`.
pub open spec fn field(lines: Seq<Text>, key: Text) -> Option<Text>
    decreases lines.len(),
{
    if lines.len() == 0 {
        None
    } else if names(lines[0], key) {
        Some(trimmed(trimmed_start(lines[0]).skip((key + ":"@).len() as int)))
    } else {
        field(lines.skip(1), key)
    }
}

/// Whether a line says `scope: shared`.
pub open spec fn says_shared(line: Text) -> bool {
    let t = trimmed(line);
    begins(t, "scope:"@) && trimmed(t.skip("scope:"@.len() as int)) == "shared"@
}

/// Whether some line of a frontmatter says `scope: shared`.
pub open spec fn is_shared(fm: Text) -> bool {
    exists|i: int| 0 <= i < lines_of(fm).len() && says_shared(#[trigger] lines_of(fm)[i])
}

/// The white space in front of a line.
pub open spec fn indent(line: Text) -> Text {
    line.take(line.len() - trimmed_start(line).len())
}

/// Whether new lines are put behind this one.
pub open spec fn is_anchor(line: Text) -> bool {
    begins(trimmed_start(line), "type:"@) || begins(trimmed_start(line), "scope:"@)
}

/// The index of the last line behind which new lines are put.
pub open spec fn anchor(lines: Seq<Text>) -> Option<int>
    decreases lines.len(),
{
    if lines.len() == 0 {
        None
    } else if is_anchor(lines.last()) {
        Some(lines.len() - 1)
    } else {
        anchor(lines.drop_last())
    }
}

/// Whether some line names `key`.
pub open spec fn has_key(lines: Seq<Text>, key: Text) -> bool {
    exists|i: int| 0 <= i < lines.len() && names(#[trigger] lines[i], key)
}

/// The lines with `key: value` put behind the last anchor, with its indent, or
/// at the end, indented by two blanks.
pub open spec fn with_line(lines: Seq<Text>, key: Text, value: Text) -> Seq<Text> {
    match anchor(lines) {
        Some(i) => lines.insert(i + 1, indent(lines[i]) + key + ": "@ + value),
        None => lines.push("  "@ + key + ": "@ + value),
    }
}

/// The content with a new frontmatter line, unless there is no frontmatter or
/// the key is there already.
pub open spec fn inserted(content: Text, key: Text, value: Text) -> Option<Text> {
    match block(content) {
        Some(b) => if has_key(lines_of(b.0), key) {
            None
        } else {
            Some(rebuilt(with_line(lines_of(b.0), key, value), b.1))
        },
        None => None,
    }
}

/// Whether the key of a line, up to its first colon, is `scope`.
pub open spec fn is_scope_line(line: Text) -> bool {
    let t = trimmed_start(line);
    trimmed(t.take(span(t, ":"@) as int)) == "scope"@
}

/// The lines whose key is not `scope`.
pub open spec fn unscoped(lines: Seq<Text>) -> Seq<Text> {
    lines.filter(|l: Text| !is_scope_line(l))
}

/// The content without its `scope` lines and, if `shared`, with one new line
/// `scope: shared`.
pub open spec fn scoped(content: Text, shared: bool) -> Option<Text> {
    match block(content) {
        Some(b) => {
            let bare = rebuilt(unscoped(lines_of(b.0)), b.1);
            if shared {
                match inserted(bare, "scope"@, "shared"@) {
                    Some(c) => Some(c),
                    None => Some(bare),
                }
            } else {
                Some(bare)
            }
        },
        None => None,
    }
}

/// The lines with the value of the first one that names `key` replaced.
pub open spec fn with_value(lines: Seq<Text>, key: Text, value: Text) -> Seq<Text>
    decreases lines.len(),
{
    if lines.len() == 0 {
        lines
    } else if names(lines[0], key) {
        seq![indent(lines[0]) + key + ": "@ + value] + lines.skip(1)
    } else {
        seq![lines[0]] + with_value(lines.skip(1), key, value)
    }
}

/// The content with the value of `key` replaced, or inserted where no line
/// names it.
pub open spec fn updated(content: Text, key: Text, value: Text) -> Option<Text> {
    match block(content) {
        Some(b) => if has_key(lines_of(b.0), key) {
            Some(rebuilt(with_value(lines_of(b.0), key, value), b.1))
        } else {
            inserted(content, key, value)
        },
        None => None,
    }
}

/// The frontmatter of a memory, without its fences.
pub fn frontmatter(t: &str) -> (fm: &str)
    ensures
        fm@ == frontmatter_of(t@),
{
    match split_block(t) {
        Some((fm, _)) => fm,
        None => t.substring_char(0, 0),
    }
}

/// The frontmatter and everything from the closing fence on.
pub fn split_block(t: &str) -> (r: Option<(&str, &str)>)
    ensures
        match r {
            Some((fm, tail)) => block(t@) == Some((fm@, tail@)),
            None => block(t@) is None,
        },
{
    match strip_prefix(t, "---\n") {
        Some(rest) => match find(rest, "\n---") {
            Some(e) => {
                let fm = rest.substring_char(0, e);
                let tail = rest.substring_char(e, rest.unicode_len());
                assert(fm@ =~= rest@.take(e as int));
                assert(tail@ =~= rest@.skip(e as int));
                Some((fm, tail))
            },
            None => None,
        },
        None => None,
    }
}

/// `key` and a colon.
fn label(key: &str) -> (s: String)
    ensures
        s@ == key@ + ":"@,
{
    let mut s = key.to_string();
    s.append(":");
    s
}

/// The value of a frontmatter field.
pub fn fm_field(fm: &str, key: &str) -> (r: Option<String>)
    ensures
        match r {
            Some(v) => field(lines_of(fm@), key@) == Some(v@),
            None => field(lines_of(fm@), key@) is None,
        },
{
    let ls = lines(fm);
    let label = label(key);
    let ghost all = lines_of(fm@);
    let mut i: usize = 0;
    assert(all.skip(0) =~= all);
    while i < ls.len()
        invariant
            i <= ls@.len(),
            all == texts(ls@),
            all == lines_of(fm@),
            label@ == key@ + ":"@,
            field(all, key@) == field(all.skip(i as int), key@),
        decreases ls@.len() - i,
    {
        assert(all.skip(i as int)[0] == ls@[i as int]@);
        match strip_prefix(trim_start(&ls[i]), &label) {
            Some(v) => {
                return Some(trim(v).to_string());
            },
            None => {},
        }
        assert(all.skip(i as int).skip(1) =~= all.skip(i + 1));
        i = i + 1;
    }
    None
}

/// Whether a frontmatter marks its memory as shared.
pub fn has_scope_shared(fm: &str) -> (r: bool)
    ensures
        r == is_shared(fm@),
{
    let ls = lines(fm);
    let ghost all = lines_of(fm@);
    let mut i: usize = 0;
    while i < ls.len()
        invariant
            i <= ls@.len(),
            all == texts(ls@),
            all == lines_of(fm@),
            forall|j: int| 0 <= j < i ==> !says_shared(#[trigger] all[j]),
        decreases ls@.len() - i,
    {
        assert(all[i as int] == ls@[i as int]@);
        match strip_prefix(trim(&ls[i]), "scope:") {
            Some(v) => {
                if same(trim(v), "shared") {
                    assert(says_shared(all[i as int]));
                    return true;
                }
            },
            None => {},
        }
        i = i + 1;
    }
    false
}

/// Whether some line names `key`.
fn any_named(ls: &Vec<String>, key: &str) -> (r: bool)
    ensures
        r == has_key(texts(ls@), key@),
{
    let label = label(key);
    let mut i: usize = 0;
    let ghost all = texts(ls@);
    while i < ls.len()
        invariant
            i <= ls@.len(),
            all == texts(ls@),
            label@ == key@ + ":"@,
            forall|j: int| 0 <= j < i ==> !names(#[trigger] all[j], key@),
        decreases ls@.len() - i,
    {
        assert(all[i as int] == ls@[i as int]@);
        if starts_with(trim_start(&ls[i]), &label) {
            assert(names(all[i as int], key@));
            return true;
        }
        i = i + 1;
    }
    false
}

/// The index of the last line behind which new lines are put.
fn find_anchor(ls: &Vec<String>) -> (r: Option<usize>)
    ensures
        match r {
            Some(i) => anchor(texts(ls@)) == Some(i as int) && i < ls@.len() <= usize::MAX,
            None => anchor(texts(ls@)) is None,
        },
{
    let ghost all = texts(ls@);
    let mut i: usize = ls.len();
    assert(all.take(i as int) =~= all);
    while i > 0
        invariant
            i <= ls@.len() <= usize::MAX,
            all == texts(ls@),
            anchor(all) == anchor(all.take(i as int)),
        decreases i,
    {
        let t = trim_start(&ls[i - 1]);
        assert(all.take(i as int).last() == ls@[i - 1]@);
        if starts_with(t, "type:") || starts_with(t, "scope:") {
            return Some(i - 1);
        }
        assert(all.take(i as int).drop_last() =~= all.take(i - 1));
        i = i - 1;
    }
    None
}

/// `key: value` behind an indent.
fn entry(indent: &str, key: &str, value: &str) -> (s: String)
    ensures
        s@ == indent@ + key@ + ": "@ + value@,
{
    let mut s = indent.to_string();
    s.append(key);
    s.append(": ");
    s.append(value);
    s
}

/// The white space in front of a line.
fn indent_of(line: &str) -> (r: &str)
    ensures
        r@ == indent(line@),
{
    proof {
        lemma_trimmed_start(line@);
    }
    let n = line.unicode_len() - trim_start(line).unicode_len();
    let r = line.substring_char(0, n);
    assert(r@ =~= line@.take(n as int));
    r
}

/// A content with the given frontmatter lines, closed by `tail`.
pub(crate) fn rebuild(ls: &Vec<String>, tail: &str) -> (s: String)
    ensures
        s@ == rebuilt(texts(ls@), tail@),
{
    let mut s = "---\n".to_string();
    s.append(&join(ls, "\n"));
    s.append(tail);
    s
}

/// Puts a frontmatter line behind the last `type:` or `scope:` line, with its
/// indent, else at the end; `None` if there is no frontmatter or the key is
/// there already.
pub fn insert_fm_line(content: &str, key: &str, value: &str) -> (r: Option<String>)
    ensures
        match r {
            Some(s) => inserted(content@, key@, value@) == Some(s@),
            None => inserted(content@, key@, value@) is None,
        },
{
    match split_block(content) {
        Some((fm, tail)) => {
            let mut ls = lines(fm);
            if any_named(&ls, key) {
                return None;
            }
            let ghost all = texts(ls@);
            match find_anchor(&ls) {
                Some(i) => {
                    let line = entry(indent_of(&ls[i]), key, value);
                    assert(all[i as int] == ls@[i as int]@);
                    ls.insert(i + 1, line);
                    assert(texts(ls@) =~= with_line(all, key@, value@));
                },
                None => {
                    ls.push(entry("  ", key, value));
                    assert(texts(ls@) =~= with_line(all, key@, value@));
                },
            }
            Some(rebuild(&ls, tail))
        },
        None => None,
    }
}

/// Sets or clears the `scope: shared` line; `None` if there is no frontmatter.
pub fn set_scope_in(content: &str, shared: bool) -> (r: Option<String>)
    ensures
        match r {
            Some(s) => scoped(content@, shared) == Some(s@),
            None => scoped(content@, shared) is None,
        },
{
    match split_block(content) {
        Some((fm, tail)) => {
            let ls = lines(fm);
            let ghost all = texts(ls@);
            let mut kept: Vec<String> = Vec::new();
            let mut i: usize = 0;
            assert(texts(kept@) =~= unscoped(all.take(0)));
            while i < ls.len()
                invariant
                    i <= ls@.len(),
                    all == texts(ls@),
                    texts(kept@) == unscoped(all.take(i as int)),
                decreases ls@.len() - i,
            {
                let ghost head = all.take(i + 1);
                assert(head.drop_last() =~= all.take(i as int));
                assert(head.last() == ls@[i as int]@);
                let ghost done = texts(kept@);
                if !same(trim(before(trim_start(&ls[i]), ":")), "scope") {
                    kept.push(ls[i].clone());
                    assert(texts(kept@) =~= done.push(head.last()));
                }
                proof {
                    reveal(Seq::filter);
                }
                i = i + 1;
            }
            assert(all.take(i as int) =~= all);
            let bare = rebuild(&kept, tail);
            if !shared {
                return Some(bare);
            }
            match insert_fm_line(&bare, "scope", "shared") {
                Some(s) => Some(s),
                None => Some(bare),
            }
        },
        None => None,
    }
}

/// Stamps a memory with the machine that it was written on; `None` if there is
/// no frontmatter or an origin is there already.
pub fn set_origin_in(content: &str, host: &str) -> (r: Option<String>)
    ensures
        match r {
            Some(s) => inserted(content@, "origin"@, host@) == Some(s@),
            None => inserted(content@, "origin"@, host@) is None,
        },
{
    insert_fm_line(content, "origin", host)
}

/// Replaces the value of a frontmatter field, keeping its indent, or inserts
/// the field; `None` if there is no frontmatter.
pub fn set_fm_field(content: &str, key: &str, value: &str) -> (r: Option<String>)
    ensures
        match r {
            Some(s) => updated(content@, key@, value@) == Some(s@),
            None => updated(content@, key@, value@) is None,
        },
{
    match split_block(content) {
        Some((fm, tail)) => {
            let mut ls = lines(fm);
            let label = label(key);
            let ghost all = texts(ls@);
            let mut i: usize = 0;
            assert(all.skip(0) =~= all);
            assert(all.take(0) + with_value(all, key@, value@) =~= with_value(all, key@, value@));
            while i < ls.len()
                invariant
                    i <= ls@.len(),
                    all == texts(ls@),
                    label@ == key@ + ":"@,
                    forall|j: int| 0 <= j < i ==> !names(#[trigger] all[j], key@),
                    all.take(i as int) + with_value(all.skip(i as int), key@, value@)
                        == with_value(all, key@, value@),
                    block(content@) == Some((fm@, tail@)),
                    all == lines_of(fm@),
                decreases ls@.len() - i,
            {
                let ghost rest = all.skip(i as int);
                assert(rest[0] == ls@[i as int]@ && all[i as int] == rest[0]);
                if starts_with(trim_start(&ls[i]), &label) {
                    let line = entry(indent_of(&ls[i]), key, value);
                    assert(names(all[i as int], key@));
                    ls.set(i, line);
                    assert(texts(ls@) =~= all.take(i as int) + (seq![line@] + rest.skip(1)));
                    return Some(rebuild(&ls, tail));
                }
                assert(rest.skip(1) =~= all.skip(i + 1));
                assert(all.take(i as int) + (seq![rest[0]] + with_value(rest.skip(1), key@, value@))
                    =~= all.take(i + 1) + with_value(rest.skip(1), key@, value@));
                i = i + 1;
            }
            assert(!has_key(all, key@));
            insert_fm_line(content, key, value)
        },
        None => None,
    }
}

} // verus!

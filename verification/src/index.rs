//! The index of the memories: one line for each, kept as the user wrote it, and
//! in compact form only those of the always-on types.
use crate::analysis::is_knowledge;
use crate::links::pairs;
use crate::memory::{stem, Mem, Memory};
use crate::number::{decimal, size};
use crate::order::views;
use crate::scope::{FileState, Found};
use crate::text::{
    chars_replaced, find, items_of, join, joined, lemma_position_from, lines, lines_of, mentions,
    position, replace_chars, same, slices, split_items, strip_suffixes, texts, Text,
};
use vstd::prelude::*;

verus! {

/// The file that an index line is about: from the first `](` up to the next
/// `.md)`.
pub open spec fn index_file(line: Text) -> Option<Text> {
    match position(line, "]("@) {
        Some(s) => {
            let rest = line.skip(s).skip(2);
            match position(rest, ".md)"@) {
                Some(e) => Some(rest.take(e + 3)),
                None => None,
            }
        },
        None => None,
    }
}

/// The first line that is about a file.
pub open spec fn kept_line(ls: Seq<Text>, file: Text) -> Option<Text>
    decreases ls.len(),
{
    if ls.len() == 0 {
        None
    } else if index_file(ls[0]) == Some(file) {
        Some(ls[0])
    } else {
        kept_line(ls.skip(1), file)
    }
}

/// The line for a memory that the user has not written one for.
pub open spec fn fresh_line(m: Memory) -> Text {
    "- ["@ + chars_replaced(stem(m.file), "_"@, ' ') + "]("@ + m.file + ") — "@ + m.desc
}

/// The line for a memory, given the lines of the index so far.
pub open spec fn line_for(ls: Seq<Text>, m: Memory) -> Text {
    match kept_line(ls, m.file) {
        Some(l) => l,
        None => fresh_line(m),
    }
}

/// What is in the index: the type and the line of every memory but reservations.
pub open spec fn index_items(ls: Seq<Text>, mems: Seq<Memory>) -> Seq<(Text, Text)> {
    mems.filter(|m: Memory| is_knowledge(m)).map_values(|m: Memory| (m.typ, line_for(ls, m)))
}

/// The lines of the items whose type is in `tier0`, or of the others.
pub open spec fn tier_lines(items: Seq<(Text, Text)>, tier0: Seq<Text>, inside: bool) -> Seq<Text> {
    items.filter(|it: (Text, Text)| tier0.contains(it.0) == inside).map_values(
        |it: (Text, Text)| it.1,
    )
}

/// The head of a compact index.
pub open spec fn compact_head(tier0: Seq<Text>) -> Text {
    "# Memory Index (Tier-0)\n\n> Compacted: only "@ + joined(tier0, "/"@)
        + " memories are always-on. Full catalog in [MEMORY.full.md](MEMORY.full.md); every memory stays searchable via `memnir search`.\n\n"@
}

/// The always-on index, compact if types are given.
pub open spec fn index_text(ls: Seq<Text>, mems: Seq<Memory>, tier0: Option<Seq<Text>>) -> Text {
    let items = index_items(ls, mems);
    match tier0 {
        Some(t) => compact_head(t) + joined(tier_lines(items, t, true), "\n"@) + "\n"@,
        None => "# Memory Index\n\n"@ + joined(items.map_values(|it: (Text, Text)| it.1), "\n"@)
            + "\n"@,
    }
}

/// The full catalog that stands beside a compact index.
pub open spec fn full_text(ls: Seq<Text>, mems: Seq<Memory>) -> Text {
    "# Memory Index — full catalog\n\n"@ + joined(
        index_items(ls, mems).map_values(|it: (Text, Text)| it.1),
        "\n"@,
    ) + "\n"@
}

/// The types that are always on unless the marker says otherwise.
pub open spec fn default_types() -> Seq<Text> {
    seq!["user"@, "feedback"@]
}

/// The always-on types that a marker names.
pub open spec fn marked_types(marker: Option<Text>) -> Seq<Text> {
    match marker {
        Some(s) => if items_of(s, ", \n\t"@).len() > 0 {
            items_of(s, ", \n\t"@)
        } else {
            default_types()
        },
        None => default_types(),
    }
}

/// The file that an index line is about.
pub fn index_file_of(line: &str) -> (r: Option<&str>)
    ensures
        match r {
            Some(f) => index_file(line@) == Some(f@),
            None => index_file(line@) is None,
        },
{
    proof {
        reveal_strlit("](");
        reveal_strlit(".md)");
    }
    let n = line.unicode_len();
    match find(line, "](") {
        Some(s) => {
            proof {
                lemma_position_from(line@, "]("@, 0);
            }
            let rest = line.substring_char(s + 2, n);
            assert(rest@ =~= line@.skip(s as int).skip(2));
            proof {
                lemma_position_from(rest@, ".md)"@, 0);
            }
            match find(rest, ".md)") {
                Some(e) => {
                    let f = rest.substring_char(0, e + 3);
                    assert(f@ =~= rest@.take(e + 3));
                    Some(f)
                },
                None => None,
            }
        },
        None => None,
    }
}

/// The default always-on types.
fn usual_types() -> (r: Vec<String>)
    ensures
        texts(r@) == default_types(),
{
    let mut r: Vec<String> = Vec::new();
    r.push("user".to_string());
    r.push("feedback".to_string());
    assert(texts(r@) =~= default_types());
    r
}

/// A marker's text, as a model.
pub open spec fn given(marker: Option<&str>) -> Option<Text> {
    match marker {
        Some(s) => Some(s@),
        None => None,
    }
}

/// The always-on types: those that the marker names, else the default ones.
pub fn tier0_types(marker: Option<&str>) -> (r: Vec<String>)
    ensures
        texts(r@) == marked_types(given(marker)),
{
    match marker {
        Some(s) => {
            let v = split_items(s, ", \n\t");
            if v.len() > 0 {
                v
            } else {
                usual_types()
            }
        },
        None => usual_types(),
    }
}

/// Whether the index is compact: whether there is a marker, readable or not.
pub fn compact_on(marker: &FileState) -> (r: bool)
    ensures
        r == !(marker@ is Missing),
{
    match marker {
        FileState::Missing => false,
        _ => true,
    }
}

/// The always-on types where the index is compact.
pub open spec fn types_by(marker: Found) -> Option<Seq<Text>> {
    match marker {
        Found::Missing => None,
        Found::Unreadable => Some(marked_types(None)),
        Found::Content(s) => Some(marked_types(Some(s))),
    }
}

/// The always-on types where the index is compact.
pub fn always_on(marker: &FileState) -> (r: Option<Vec<String>>)
    ensures
        match r {
            Some(t) => types_by(marker@) == Some(texts(t@)),
            None => types_by(marker@) is None,
        },
{
    if !compact_on(marker) {
        return None;
    }
    match marker {
        FileState::Content(s) => Some(tier0_types(Some(s.as_str()))),
        _ => Some(tier0_types(None)),
    }
}

/// Parts the lines of `items` by whether their type is in `tier0`.
pub fn partition_tier0<'a>(items: &'a [(String, String)], tier0: &[String]) -> (r: (Vec<&'a str>, Vec<&'a str>))
    ensures
        slices(r.0@) == tier_lines(pairs(items@), texts(tier0@), true),
        slices(r.1@) == tier_lines(pairs(items@), texts(tier0@), false),
{
    let ghost all = pairs(items@);
    let ghost t = texts(tier0@);
    let mut t0: Vec<&'a str> = Vec::new();
    let mut rest: Vec<&'a str> = Vec::new();
    let mut i: usize = 0;
    proof {
        reveal(Seq::filter);
        assert(slices(t0@) =~= tier_lines(all.take(0), t, true));
        assert(slices(rest@) =~= tier_lines(all.take(0), t, false));
    }
    while i < items.len()
        invariant
            i <= items@.len(),
            all == pairs(items@),
            t == texts(tier0@),
            slices(t0@) == tier_lines(all.take(i as int), t, true),
            slices(rest@) == tier_lines(all.take(i as int), t, false),
        decreases items@.len() - i,
    {
        let ghost head = all.take(i + 1);
        let ghost a = slices(t0@);
        let ghost b = slices(rest@);
        assert(head.drop_last() =~= all.take(i as int));
        assert(head.last() == (items@[i as int].0@, items@[i as int].1@));
        if mentions(tier0, &items[i].0) {
            t0.push(items[i].1.as_str());
            assert(slices(t0@) =~= a.push(head.last().1));
        } else {
            rest.push(items[i].1.as_str());
            assert(slices(rest@) =~= b.push(head.last().1));
        }
        proof {
            reveal(Seq::filter);
            assert(slices(t0@) =~= tier_lines(head, t, true));
            assert(slices(rest@) =~= tier_lines(head, t, false));
        }
        i = i + 1;
    }
    assert(all.take(i as int) =~= all);
    (t0, rest)
}

/// The line for a memory, given the lines of the index so far.
fn choose_line(ls: &[String], m: &Mem) -> (r: String)
    ensures
        r@ == line_for(texts(ls@), m@),
{
    let ghost all = texts(ls@);
    let mut i: usize = 0;
    assert(all.skip(0) =~= all);
    while i < ls.len()
        invariant
            i <= ls@.len(),
            all == texts(ls@),
            kept_line(all, m.file@) == kept_line(all.skip(i as int), m.file@),
        decreases ls@.len() - i,
    {
        assert(all.skip(i as int)[0] == ls@[i as int]@);
        assert(all.skip(i as int).skip(1) =~= all.skip(i + 1));
        match index_file_of(&ls[i]) {
            Some(f) => {
                if same(f, &m.file) {
                    return ls[i].clone();
                }
            },
            None => {},
        }
        i = i + 1;
    }
    let mut s = "- [".to_string();
    s.append(&replace_chars(strip_suffixes(&m.file, ".md"), "_", ' '));
    s.append("](");
    s.append(&m.file);
    s.append(") — ");
    s.append(&m.desc);
    s
}

/// What is in the index: the type and the line of every memory but reservations.
fn list_items(ls: &[String], mems: &[Mem]) -> (r: Vec<(String, String)>)
    ensures
        pairs(r@) == index_items(texts(ls@), views(mems@)),
{
    let ghost all = views(mems@);
    let ghost g = texts(ls@);
    let mut r: Vec<(String, String)> = Vec::new();
    let mut i: usize = 0;
    assert(pairs(r@) =~= index_items(g, all.take(0))) by {
        reveal(Seq::filter);
    }
    while i < mems.len()
        invariant
            i <= mems@.len(),
            all == views(mems@),
            g == texts(ls@),
            pairs(r@) == index_items(g, all.take(i as int)),
        decreases mems@.len() - i,
    {
        let m = &mems[i];
        let ghost head = all.take(i + 1);
        let ghost done = pairs(r@);
        assert(head.drop_last() =~= all.take(i as int));
        assert(head.last() == m@);
        if !same(&m.typ, "reservation") {
            let item = (m.typ.clone(), choose_line(ls, m));
            r.push(item);
            assert(pairs(r@) =~= done.push((m.typ@, line_for(g, m@))));
        }
        proof {
            reveal(Seq::filter);
            assert(pairs(r@) =~= index_items(g, head));
        }
        i = i + 1;
    }
    assert(all.take(i as int) =~= all);
    r
}

/// The lines of some items.
fn lines_from(items: &[(String, String)]) -> (r: Vec<String>)
    ensures
        texts(r@) == pairs(items@).map_values(|it: (Text, Text)| it.1),
{
    let ghost all = pairs(items@).map_values(|it: (Text, Text)| it.1);
    let mut r: Vec<String> = Vec::new();
    let mut i: usize = 0;
    while i < items.len()
        invariant
            i <= items@.len(),
            all == pairs(items@).map_values(|it: (Text, Text)| it.1),
            texts(r@) == all.take(i as int),
        decreases items@.len() - i,
    {
        let ghost done = texts(r@);
        r.push(items[i].1.clone());
        assert(texts(r@) =~= done.push(items@[i as int].1@));
        i = i + 1;
        assert(texts(r@) =~= all.take(i as int));
    }
    assert(texts(r@) =~= all);
    r
}

/// Copies of some strings.
fn own(parts: &[&str]) -> (r: Vec<String>)
    ensures
        texts(r@) == slices(parts@),
{
    let mut r: Vec<String> = Vec::new();
    let mut i: usize = 0;
    while i < parts.len()
        invariant
            i <= parts@.len(),
            texts(r@) == slices(parts@).take(i as int),
        decreases parts@.len() - i,
    {
        let ghost done = texts(r@);
        r.push(parts[i].to_string());
        assert(texts(r@) =~= done.push(parts@[i as int]@));
        i = i + 1;
        assert(texts(r@) =~= slices(parts@).take(i as int));
    }
    assert(texts(r@) =~= slices(parts@));
    r
}

/// The index files as they should be.
pub struct Regenerated {
    /// The always-on index.
    pub index: String,
    /// The full catalog; without one there should be no such file.
    pub full: Option<String>,
}

/// The types, as a model.
pub open spec fn tier_given(tier0: Option<&Vec<String>>) -> Option<Seq<Text>> {
    match tier0 {
        Some(t) => Some(texts(t@)),
        None => None,
    }
}

/// Makes the index anew from the memories. Lines that stand in the index or in
/// the full catalog so far are kept as they are. With `tier0` the index is
/// compact.
pub fn regen_index(index: &str, full: &str, mems: &[Mem], tier0: Option<&Vec<String>>) -> (r: Regenerated)
    ensures
        r.index@ == index_text(lines_of(index@) + lines_of(full@), views(mems@), tier_given(tier0)),
        match r.full {
            Some(f) => tier0 is Some && f@ == full_text(
                lines_of(index@) + lines_of(full@),
                views(mems@),
            ),
            None => tier0 is None,
        },
{
    let mut ls = lines(index);
    let mut more = lines(full);
    ls.append(&mut more);
    assert(texts(ls@) =~= lines_of(index@) + lines_of(full@));
    let items = list_items(&ls, mems);
    match tier0 {
        Some(t) => {
            let (t0, _) = partition_tier0(&items, t);
            let mut s = "# Memory Index (Tier-0)\n\n> Compacted: only ".to_string();
            s.append(&join(t, "/"));
            s.append(
                " memories are always-on. Full catalog in [MEMORY.full.md](MEMORY.full.md); every memory stays searchable via `memnir search`.\n\n",
            );
            s.append(&join(&own(&t0), "\n"));
            s.append("\n");
            let mut f = "# Memory Index — full catalog\n\n".to_string();
            f.append(&join(&lines_from(&items), "\n"));
            f.append("\n");
            Regenerated { index: s, full: Some(f) }
        },
        None => {
            let mut s = "# Memory Index\n\n".to_string();
            s.append(&join(&lines_from(&items), "\n"));
            s.append("\n");
            Regenerated { index: s, full: None }
        },
    }
}

/// What the marker of a compact index holds.
pub open spec fn marker_text(types: Seq<Text>) -> Text {
    joined(
        if types.len() == 0 {
            default_types()
        } else {
            types
        },
        ","@,
    ) + "\n"@
}

/// What to write to the marker to have these types always on.
pub fn write_marker(types: &[String]) -> (r: String)
    ensures
        r@ == marker_text(texts(types@)),
{
    let mut s = if types.len() == 0 {
        join(&usual_types(), ",")
    } else {
        join(types, ",")
    };
    s.append("\n");
    s
}

/// How many memories have one of the types.
pub fn count_kept(mems: &[Mem], tier0: &[String]) -> (n: usize)
    ensures
        n == views(mems@).filter(|m: Memory| texts(tier0@).contains(m.typ)).len(),
{
    let ghost all = views(mems@);
    let ghost p = |m: Memory| texts(tier0@).contains(m.typ);
    let mut n: usize = 0;
    let mut i: usize = 0;
    assert(all.take(0).filter(p).len() == 0) by {
        reveal(Seq::filter);
    }
    while i < mems.len()
        invariant
            i <= mems@.len(),
            all == views(mems@),
            p == (|m: Memory| texts(tier0@).contains(m.typ)),
            n == all.take(i as int).filter(p).len(),
            n <= i,
        decreases mems@.len() - i,
    {
        let ghost head = all.take(i + 1);
        assert(head.drop_last() =~= all.take(i as int));
        assert(head.last() == mems@[i as int]@);
        proof {
            reveal(Seq::filter);
        }
        if mentions(tier0, &mems[i].typ) {
            n = n + 1;
        }
        i = i + 1;
    }
    assert(all.take(i as int) =~= all);
    n
}

/// What the user is told once the index is compact. `before` and `after` are its
/// tokens in thousands, with one decimal.
pub open spec fn compacted_lines(
    tier0: Seq<Text>,
    before: Text,
    after: Text,
    kept: nat,
    n: nat,
    after_tok: nat,
) -> Seq<Text> {
    let said = seq![
        "✓ compact-index ON — Tier-0 = "@ + joined(tier0, "/"@),
        "  MEMORY.md       ~"@ + before + "k → ~"@ + after + "k tok/session ("@ + decimal(kept)
            + " of "@ + decimal(n) + " memories)"@,
        "  MEMORY.full.md  full catalog — on-demand, still searchable via `memnir search`"@,
    ];
    if after_tok > crate::analysis::IDX_WARN {
        said.push("  ⚠ still above 12k — widen what's local or prune Tier-0 types"@)
    } else {
        said
    }
}

/// What the user is told once the index is compact.
pub fn report_compacted(tier0: &[String], before: &str, after: &str, mems: &[Mem], after_tok: usize) -> (r: Vec<
    String,
>)
    ensures
        texts(r@) == compacted_lines(
            texts(tier0@),
            before@,
            after@,
            views(mems@).filter(|m: Memory| texts(tier0@).contains(m.typ)).len(),
            mems@.len(),
            after_tok as nat,
        ),
{
    let mut a = "✓ compact-index ON — Tier-0 = ".to_string();
    a.append(&join(tier0, "/"));
    let mut b = "  MEMORY.md       ~".to_string();
    b.append(before);
    b.append("k → ~");
    b.append(after);
    b.append("k tok/session (");
    b.append(&size(count_kept(mems, tier0)));
    b.append(" of ");
    b.append(&size(mems.len()));
    b.append(" memories)");
    let c = "  MEMORY.full.md  full catalog — on-demand, still searchable via `memnir search`".to_string();
    let mut r: Vec<String> = Vec::new();
    r.push(a);
    r.push(b);
    r.push(c);
    assert(texts(r@) =~= seq![a@, b@, c@]);
    if after_tok > crate::analysis::IDX_WARN {
        let ghost said = texts(r@);
        let d = "  ⚠ still above 12k — widen what's local or prune Tier-0 types".to_string();
        r.push(d);
        assert(texts(r@) =~= said.push(d@));
    }
    r
}

/// What the user is told once the index is no longer compact.
pub fn report_restored(after: &str) -> (r: String)
    ensures
        r@ == "✓ compact-index OFF — MEMORY.md restored to full catalog (~"@ + after@
            + "k tok/session)"@,
{
    let mut s = "✓ compact-index OFF — MEMORY.md restored to full catalog (~".to_string();
    s.append(after);
    s.append("k tok/session)");
    s
}

} // verus!

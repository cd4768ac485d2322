//! What holds of the index as a whole: making it anew changes nothing, and making
//! it compact can be undone.
use crate::analysis::{is_knowledge, lemma_filter_holds};
use crate::frontmatter_laws::{ended, lemma_joined_last, lemma_lines_after, one_line};
use crate::index::{
    compact_head, fresh_line, full_text, index_file, index_items, index_text, kept_line, line_for,
    marked_types, marker_text, tier_lines,
};
use crate::memory::{is_memory_file, reservation_type, stem, Memory};
use crate::text::{
    chars_replaced, ends, items_of, joined, lemma_position_from, lemma_position_is, lemma_span_is,
    lines_of, occurs_at, pieces, position, prefixed, trimmed, without_return, without_suffixes,
    Text,
};
use vstd::prelude::*;

verus! {

/// Whether a line comes out as it was when it is written and read again.
pub open spec fn is_clean(line: Text) -> bool {
    one_line(line) && without_return(line) == line
}

/// The memories that are in the index.
pub open spec fn indexed(mems: Seq<Memory>) -> Seq<Memory> {
    mems.filter(|m: Memory| is_knowledge(m))
}

/// Whether every memory's line is clean, and no other line is about its file.
pub open spec fn is_tidy(ls: Seq<Text>, mems: Seq<Memory>) -> bool {
    let k = indexed(mems);
    &&& forall|i: int| 0 <= i < k.len() ==> is_clean(line_for(ls, #[trigger] k[i]))
    &&& forall|i: int, j: int|
        0 <= i < k.len() && 0 <= j < k.len() && index_file(line_for(ls, #[trigger] k[j])) == Some(
            (#[trigger] k[i]).file,
        ) ==> line_for(ls, k[j]) == line_for(ls, k[i])
}

/// The line in the head of a compact index that names the always-on types.
pub open spec fn types_line(tier0: Seq<Text>) -> Text {
    "> Compacted: only "@ + joined(tier0, "/"@)
        + " memories are always-on. Full catalog in [MEMORY.full.md](MEMORY.full.md); every memory stays searchable via `memnir search`."@
}

proof fn lemma_kept_concat(a: Seq<Text>, b: Seq<Text>, file: Text)
    ensures
        kept_line(a + b, file) == (match kept_line(a, file) {
            Some(l) => Some(l),
            None => kept_line(b, file),
        }),
    decreases a.len(),
{
    if a.len() == 0 {
        assert(a + b =~= b);
    } else {
        assert((a + b)[0] == a[0]);
        assert((a + b).skip(1) =~= a.skip(1) + b);
        lemma_kept_concat(a.skip(1), b, file);
    }
}

/// What is kept is a line about the file, if there is one.
proof fn lemma_kept(ls: Seq<Text>, file: Text)
    ensures
        match kept_line(ls, file) {
            Some(l) => ls.contains(l) && index_file(l) == Some(file),
            None => forall|i: int| 0 <= i < ls.len() ==> index_file(#[trigger] ls[i]) != Some(file),
        },
    decreases ls.len(),
{
    if ls.len() > 0 {
        let t = ls.skip(1);
        if index_file(ls[0]) == Some(file) {
            assert(ls.contains(ls[0]));
        } else {
            lemma_kept(t, file);
            match kept_line(t, file) {
                Some(l) => {
                    let k = choose|k: int| 0 <= k < t.len() && t[k] == l;
                    assert(ls[k + 1] == l);
                },
                None => {
                    assert forall|i: int| 0 <= i < ls.len() implies index_file(#[trigger] ls[i]) != Some(
                        file,
                    ) by {
                        if i > 0 {
                            assert(t[i - 1] == ls[i]);
                        }
                    }
                },
            }
        }
    }
}

proof fn lemma_ended_concat(a: Seq<Text>, b: Seq<Text>)
    ensures
        ended(a + b) == ended(a) + ended(b),
    decreases a.len(),
{
    if a.len() == 0 {
        assert(a + b =~= b);
        assert(ended(a) + ended(b) =~= ended(b));
    } else {
        assert((a + b)[0] == a[0]);
        assert((a + b).skip(1) =~= a.skip(1) + b);
        lemma_ended_concat(a.skip(1), b);
        assert(ended(a) + ended(b) =~= a[0] + "\n"@ + (ended(a.skip(1)) + ended(b)));
    }
}

proof fn lemma_one(a: Text)
    ensures
        ended(seq![a]) == a + "\n"@,
{
    let none = Seq::<Text>::empty();
    assert(seq![a].skip(1) =~= none);
    assert(ended(none) =~= Seq::<char>::empty());
    assert(a + "\n"@ + ended(none) =~= a + "\n"@);
}

/// Joined lines with a line feed behind are ended lines.
proof fn lemma_joined_ended(b: Seq<Text>)
    requires
        b.len() > 0,
    ensures
        joined(b, "\n"@) + "\n"@ == ended(b),
{
    lemma_joined_last(b);
    let last = seq![b.last()];
    assert(b.drop_last() + last =~= b);
    lemma_ended_concat(b.drop_last(), last);
    lemma_one(b.last());
    assert(ended(b.drop_last()) + b.last() + "\n"@ =~= ended(b.drop_last()) + ended(last));
}

/// The lines that are read from a file with a head and a body.
proof fn lemma_written(h: Seq<Text>, b: Seq<Text>)
    requires
        forall|i: int| 0 <= i < h.len() ==> is_clean(#[trigger] h[i]),
        forall|i: int| 0 <= i < b.len() ==> is_clean(#[trigger] b[i]),
    ensures
        lines_of(ended(h) + joined(b, "\n"@) + "\n"@) == h + (if b.len() == 0 {
            seq![Seq::<char>::empty()]
        } else {
            b
        }),
{
    let none = Seq::<char>::empty();
    let body = if b.len() == 0 {
        seq![none]
    } else {
        b
    };
    let all = h + body;
    if b.len() == 0 {
        lemma_one(none);
        assert(ended(body) =~= "\n"@);
        assert(ended(h) + joined(b, "\n"@) + "\n"@ =~= ended(h) + ended(body));
    } else {
        lemma_joined_ended(b);
        assert(ended(h) + joined(b, "\n"@) + "\n"@ =~= ended(h) + ended(body));
    }
    lemma_ended_concat(h, body);
    assert(ended(all) + none =~= ended(all));
    assert forall|i: int| 0 <= i < all.len() implies is_clean(#[trigger] all[i]) by {
        if i < h.len() {
            assert(all[i] == h[i]);
        } else if b.len() > 0 {
            assert(all[i] == b[i - h.len()]);
        }
    }
    assert forall|i: int| 0 <= i < all.len() implies one_line(#[trigger] all[i]) by {
        assert(is_clean(all[i]));
    }
    lemma_lines_after(all, none);
    assert(all.map_values(|l: Text| without_return(l)) + lines_of(none) =~= all) by {
        assert forall|i: int| 0 <= i < all.len() implies without_return(#[trigger] all[i]) == all[i] by {
            assert(is_clean(all[i]));
        }
    }
}

/// A line without a closing bracket is about no file.
proof fn lemma_no_file(line: Text)
    requires
        !line.contains(']'),
    ensures
        index_file(line) is None,
{
    reveal_strlit("](");
    lemma_position_from(line, "]("@, 0);
    match position(line, "]("@) {
        Some(k) => {
            assert(line.subrange(k, k + 2)[0] == line[k]);
            assert(line.contains(line[k]));
        },
        None => {},
    }
}

/// The heads of the index files.
proof fn lemma_heads(tier0: Seq<Text>)
    ensures
        "# Memory Index\n\n"@ == ended(seq!["# Memory Index"@, Seq::empty()]),
        "# Memory Index — full catalog\n\n"@ == ended(
            seq!["# Memory Index — full catalog"@, Seq::empty()],
        ),
        compact_head(tier0) == ended(
            seq!["# Memory Index (Tier-0)"@, Seq::empty(), types_line(tier0), Seq::empty()],
        ),
        is_clean("# Memory Index"@),
        is_clean("# Memory Index — full catalog"@),
        is_clean("# Memory Index (Tier-0)"@),
        is_clean(Seq::<char>::empty()),
        index_file("# Memory Index"@) is None,
        index_file("# Memory Index — full catalog"@) is None,
        index_file("# Memory Index (Tier-0)"@) is None,
        index_file(Seq::<char>::empty()) is None,
{
    reveal_with_fuel(ended, 5);
    reveal_strlit("\n");
    let none = Seq::<char>::empty();
    lemma_no_file(none);
    assert("# Memory Index\n\n"@ == ended(seq!["# Memory Index"@, none]) && is_clean(
        "# Memory Index"@,
    ) && index_file("# Memory Index"@) is None) by {
        reveal_strlit("# Memory Index");
        reveal_strlit("# Memory Index\n\n");
        lemma_no_file("# Memory Index"@);
        lemma_two("# Memory Index"@, none);
        assert("# Memory Index\n\n"@ =~= "# Memory Index"@ + "\n"@ + none + "\n"@);
    }
    assert("# Memory Index — full catalog\n\n"@ == ended(
        seq!["# Memory Index — full catalog"@, none],
    ) && is_clean("# Memory Index — full catalog"@) && index_file(
        "# Memory Index — full catalog"@,
    ) is None) by {
        reveal_strlit("# Memory Index — full catalog");
        reveal_strlit("# Memory Index — full catalog\n\n");
        lemma_no_file("# Memory Index — full catalog"@);
        lemma_two("# Memory Index — full catalog"@, none);
        assert("# Memory Index — full catalog\n\n"@ =~= "# Memory Index — full catalog"@ + "\n"@ + none
            + "\n"@);
    }
    lemma_compact_head(tier0);
}

proof fn lemma_two(a: Text, b: Text)
    ensures
        ended(seq![a, b]) == a + "\n"@ + b + "\n"@,
{
    let s = seq![a, b];
    assert(s.skip(1) =~= seq![b]);
    lemma_one(b);
    assert(ended(s) =~= a + "\n"@ + b + "\n"@);
}

proof fn lemma_compact_head(tier0: Seq<Text>)
    ensures
        compact_head(tier0) == ended(
            seq!["# Memory Index (Tier-0)"@, Seq::empty(), types_line(tier0), Seq::empty()],
        ),
        is_clean("# Memory Index (Tier-0)"@),
        index_file("# Memory Index (Tier-0)"@) is None,
{
    let none = Seq::<char>::empty();
    let a = "# Memory Index (Tier-0)"@;
    let t = types_line(tier0);
    let j = joined(tier0, "/"@);
    reveal_strlit("\n");
    reveal_strlit("# Memory Index (Tier-0)");
    lemma_no_file(a);
    lemma_two(a, none);
    lemma_two(t, none);
    lemma_ended_concat(seq![a, none], seq![t, none]);
    assert(seq![a, none] + seq![t, none] =~= seq![a, none, t, none]);
    let p = "# Memory Index (Tier-0)\n\n> Compacted: only "@;
    let q =
        " memories are always-on. Full catalog in [MEMORY.full.md](MEMORY.full.md); every memory stays searchable via `memnir search`.\n\n"@;
    let p2 = "> Compacted: only "@;
    let q2 =
        " memories are always-on. Full catalog in [MEMORY.full.md](MEMORY.full.md); every memory stays searchable via `memnir search`."@;
    assert(p == a + "\n"@ + "\n"@ + p2) by {
        reveal_strlit("# Memory Index (Tier-0)\n\n> Compacted: only ");
        reveal_strlit("> Compacted: only ");
        assert(p =~= a + "\n"@ + "\n"@ + p2);
    }
    assert(q == q2 + "\n"@ + "\n"@) by {
        reveal_strlit(
            " memories are always-on. Full catalog in [MEMORY.full.md](MEMORY.full.md); every memory stays searchable via `memnir search`.\n\n",
        );
        reveal_strlit(
            " memories are always-on. Full catalog in [MEMORY.full.md](MEMORY.full.md); every memory stays searchable via `memnir search`.",
        );
        assert(q =~= q2 + "\n"@ + "\n"@);
    }
    assert(compact_head(tier0) =~= a + "\n"@ + none + "\n"@ + (p2 + j + q2 + "\n"@ + none + "\n"@));
}

/// Whether `line` is the line of a memory in the index.
spec fn is_memory_line(ls: Seq<Text>, mems: Seq<Memory>, line: Text) -> bool {
    exists|j: int| 0 <= j < indexed(mems).len() && line == line_for(ls, #[trigger] indexed(mems)[j])
}

/// Whether `line` is about no memory in the index.
spec fn is_aside(mems: Seq<Memory>, line: Text) -> bool {
    forall|i: int|
        0 <= i < indexed(mems).len() ==> index_file(line) != Some((#[trigger] indexed(mems)[i]).file)
}

/// New lines that hold every memory's line, and nothing else about a memory, give
/// every memory the same line.
proof fn lemma_stays(ls: Seq<Text>, mems: Seq<Memory>, new: Seq<Text>)
    requires
        is_tidy(ls, mems),
        forall|x: int|
            0 <= x < new.len() ==> is_memory_line(ls, mems, #[trigger] new[x]) || is_aside(mems, new[x]),
        forall|i: int|
            0 <= i < indexed(mems).len() ==> new.contains(line_for(ls, #[trigger] indexed(mems)[i])),
    ensures
        index_items(new, mems) == index_items(ls, mems),
{
    let k = indexed(mems);
    assert forall|i: int| 0 <= i < k.len() implies line_for(new, #[trigger] k[i]) == line_for(ls, k[i]) by {
        let want = line_for(ls, k[i]);
        lemma_kept(new, k[i].file);
        lemma_kept(ls, k[i].file);
        match kept_line(new, k[i].file) {
            Some(l) => {
                let x = choose|x: int| 0 <= x < new.len() && new[x] == l;
                assert(!is_aside(mems, new[x])) by {
                    assert(index_file(new[x]) == Some(k[i].file));
                }
                let j = choose|j: int| 0 <= j < k.len() && new[x] == line_for(ls, #[trigger] k[j]);
                assert(line_for(ls, k[j]) == line_for(ls, k[i]));
            },
            None => {
                let w = choose|w: int| 0 <= w < new.len() && new[w] == want;
                assert(index_file(new[w]) != Some(k[i].file));
            },
        }
    }
    assert(index_items(new, mems) =~= index_items(ls, mems));
}

/// The lines of the index are those of the memories, and clean.
proof fn lemma_items(ls: Seq<Text>, mems: Seq<Memory>)
    requires
        is_tidy(ls, mems),
    ensures
        ({
            let b = index_items(ls, mems).map_values(|it: (Text, Text)| it.1);
            &&& b.len() == indexed(mems).len()
            &&& forall|i: int| 0 <= i < b.len() ==> #[trigger] b[i] == line_for(ls, indexed(mems)[i])
            &&& forall|i: int| 0 <= i < b.len() ==> is_clean(#[trigger] b[i])
            &&& forall|i: int| 0 <= i < b.len() ==> is_memory_line(ls, mems, #[trigger] b[i])
        }),
{
    let k = indexed(mems);
    let b = index_items(ls, mems).map_values(|it: (Text, Text)| it.1);
    assert forall|i: int| 0 <= i < b.len() implies is_clean(#[trigger] b[i]) && is_memory_line(
        ls,
        mems,
        b[i],
    ) by {
        assert(b[i] == line_for(ls, k[i]));
    }
}

/// The always-on lines are lines of memories, and clean.
proof fn lemma_tier(ls: Seq<Text>, mems: Seq<Memory>, tier0: Seq<Text>)
    requires
        is_tidy(ls, mems),
    ensures
        ({
            let t = tier_lines(index_items(ls, mems), tier0, true);
            &&& forall|i: int| 0 <= i < t.len() ==> is_clean(#[trigger] t[i])
            &&& forall|i: int| 0 <= i < t.len() ==> is_memory_line(ls, mems, #[trigger] t[i])
        }),
{
    let items = index_items(ls, mems);
    let b = items.map_values(|it: (Text, Text)| it.1);
    let p = |it: (Text, Text)| tier0.contains(it.0) == true;
    let t = tier_lines(items, tier0, true);
    lemma_items(ls, mems);
    assert forall|i: int| 0 <= i < t.len() implies is_clean(#[trigger] t[i]) && is_memory_line(
        ls,
        mems,
        t[i],
    ) by {
        lemma_filter_holds(items, p, i);
        let x = choose|x: int| 0 <= x < items.len() && items[x] == items.filter(p)[i];
        assert(t[i] == items.filter(p)[i].1);
        assert(b[x] == t[i]);
    }
}

proof fn lemma_aside_none(mems: Seq<Memory>, line: Text)
    requires
        index_file(line) is None,
    ensures
        is_aside(mems, line),
{
}

/// Making the index anew from itself changes nothing.
pub proof fn regenerating_changes_nothing(ls: Seq<Text>, mems: Seq<Memory>)
    requires
        is_tidy(ls, mems),
    ensures
        index_text(lines_of(index_text(ls, mems, None)), mems, None) == index_text(ls, mems, None),
{
    let b = index_items(ls, mems).map_values(|it: (Text, Text)| it.1);
    let h = seq!["# Memory Index"@, Seq::empty()];
    let new = lines_of(index_text(ls, mems, None));
    let body = if b.len() == 0 {
        seq![Seq::<char>::empty()]
    } else {
        b
    };
    lemma_heads(Seq::empty());
    lemma_items(ls, mems);
    lemma_written(h, b);
    assert(new == h + body);
    assert forall|x: int| 0 <= x < new.len() implies is_memory_line(ls, mems, #[trigger] new[x])
        || is_aside(mems, new[x]) by {
        if x < h.len() {
            assert(new[x] == h[x]);
            lemma_aside_none(mems, h[x]);
        } else {
            assert(new[x] == body[x - h.len()]);
            if b.len() == 0 {
                lemma_aside_none(mems, new[x]);
            } else {
                assert(is_memory_line(ls, mems, b[x - h.len()]));
            }
        }
    }
    assert forall|i: int| 0 <= i < indexed(mems).len() implies new.contains(
        line_for(ls, #[trigger] indexed(mems)[i]),
    ) by {
        assert(b[i] == line_for(ls, indexed(mems)[i]));
        assert(new[h.len() + i] == b[i]);
    }
    lemma_stays(ls, mems, new);
}

/// Making the index compact loses nothing: from the compact index and the full
/// catalog beside it, the full index comes out as it would have been, and the
/// compact one, made anew, stays as it is.
pub proof fn compacting_is_reversible(ls: Seq<Text>, mems: Seq<Memory>, tier0: Seq<Text>)
    requires
        is_tidy(ls, mems),
        is_clean(types_line(tier0)),
        forall|i: int|
            0 <= i < indexed(mems).len() ==> index_file(types_line(tier0)) != Some(
                (#[trigger] indexed(mems)[i]).file,
            ),
    ensures
        ({
            let now = lines_of(index_text(ls, mems, Some(tier0))) + lines_of(full_text(ls, mems));
            &&& index_text(now, mems, None) == index_text(ls, mems, None)
            &&& index_text(now, mems, Some(tier0)) == index_text(ls, mems, Some(tier0))
            &&& full_text(now, mems) == full_text(ls, mems)
        }),
{
    let none = Seq::<char>::empty();
    let items = index_items(ls, mems);
    let b = items.map_values(|it: (Text, Text)| it.1);
    let t = tier_lines(items, tier0, true);
    let hc = seq!["# Memory Index (Tier-0)"@, none, types_line(tier0), none];
    let hf = seq!["# Memory Index — full catalog"@, none];
    let tb = if t.len() == 0 {
        seq![none]
    } else {
        t
    };
    let fb = if b.len() == 0 {
        seq![none]
    } else {
        b
    };
    let one = lines_of(index_text(ls, mems, Some(tier0)));
    let two = lines_of(full_text(ls, mems));
    lemma_heads(tier0);
    lemma_items(ls, mems);
    lemma_tier(ls, mems, tier0);
    lemma_written(hc, t);
    lemma_written(hf, b);
    assert(one == hc + tb);
    assert(two == hf + fb);
    let new = one + two;
    let n = one.len() as int;
    assert forall|x: int| 0 <= x < new.len() implies is_memory_line(ls, mems, #[trigger] new[x])
        || is_aside(mems, new[x]) by {
        if x < hc.len() {
            assert(new[x] == hc[x]);
            if x != 2 {
                lemma_aside_none(mems, hc[x]);
            }
        } else if x < n {
            assert(new[x] == tb[x - hc.len()]);
            if t.len() == 0 {
                lemma_aside_none(mems, new[x]);
            } else {
                assert(is_memory_line(ls, mems, t[x - hc.len()]));
            }
        } else if x < n + hf.len() {
            assert(new[x] == hf[x - n]);
            lemma_aside_none(mems, hf[x - n]);
        } else {
            assert(new[x] == fb[x - n - hf.len()]);
            if b.len() == 0 {
                lemma_aside_none(mems, new[x]);
            } else {
                assert(is_memory_line(ls, mems, b[x - n - hf.len()]));
            }
        }
    }
    assert forall|i: int| 0 <= i < indexed(mems).len() implies new.contains(
        line_for(ls, #[trigger] indexed(mems)[i]),
    ) by {
        assert(b[i] == line_for(ls, indexed(mems)[i]));
        assert(new[n + hf.len() + i] == b[i]);
    }
    lemma_stays(ls, mems, new);
}

/// A line that is made for a memory is about that memory's file.
pub proof fn fresh_line_is_about_its_file(m: Memory)
    requires
        ends(m.file, ".md"@),
        !m.file.contains(']'),
        !m.file.contains(')'),
    ensures
        index_file(fresh_line(m)) == Some(m.file),
{
    reveal_strlit("- [");
    reveal_strlit("](");
    reveal_strlit(") — ");
    reveal_strlit(".md)");
    reveal_strlit(".md");
    let title = chars_replaced(stem(m.file), "_"@, ' ');
    let line = fresh_line(m);
    let n = 3 + title.len() as int;
    lemma_stem_chars(m.file);
    assert(line.subrange(n, n + 2) =~= "]("@);
    assert forall|j: int| 0 <= j < n implies !occurs_at(line, "]("@, j) by {
        if occurs_at(line, "]("@, j) {
            assert(line.subrange(j, j + 2)[0] == line[j]);
            assert(line[j] == ']');
            if j >= 3 {
                assert(line[j] == title[j - 3]);
                assert(stem(m.file)[j - 3] == ']');
                assert(stem(m.file).contains(']'));
            }
        }
    }
    lemma_position_is(line, "]("@, n);
    let rest = line.skip(n).skip(2);
    let e = m.file.len() - 3;
    assert(rest =~= m.file + ") — "@ + m.desc);
    assert(rest.subrange(e, e + 4) =~= ".md)"@) by {
        let s = m.file.skip(m.file.len() - 3);
        assert(s == ".md"@);
        assert(s[0] == m.file[e] && s[1] == m.file[e + 1] && s[2] == m.file[e + 2]);
        assert(rest[e] == m.file[e] && rest[e + 1] == m.file[e + 1] && rest[e + 2] == m.file[e + 2]);
        assert(rest[e + 3] == ')');
    }
    assert forall|j: int| 0 <= j < e implies !occurs_at(rest, ".md)"@, j) by {
        if occurs_at(rest, ".md)"@, j) {
            assert(rest.subrange(j, j + 4)[3] == rest[j + 3]);
            assert(rest[j + 3] == m.file[j + 3]);
            assert(m.file.contains(m.file[j + 3]));
        }
    }
    lemma_position_is(rest, ".md)"@, e);
    assert(rest.take(e + 3) =~= m.file);
}

/// A file's name without `.md` has no other characters than the name.
proof fn lemma_stem_chars(file: Text)
    ensures
        forall|c: char| #[trigger] stem(file).contains(c) ==> file.contains(c),
{
    lemma_suffix_chars(file, ".md"@);
}

proof fn lemma_suffix_chars(s: Text, p: Text)
    ensures
        forall|c: char| #[trigger] without_suffixes(s, p).contains(c) ==> s.contains(c),
    decreases s.len(),
{
    if p.len() > 0 && ends(s, p) {
        let t = s.take(s.len() - p.len());
        lemma_suffix_chars(t, p);
        assert forall|c: char| #[trigger] without_suffixes(s, p).contains(c) implies s.contains(c) by {
            assert(without_suffixes(t, p).contains(c));
            assert(t.contains(c));
            let k = choose|k: int| 0 <= k < t.len() && t[k] == c;
            assert(s[k] == c);
        }
    }
}

/// Joined parts hold no character that neither they nor the separator hold.
proof fn lemma_joined_chars(parts: Seq<Text>, sep: Text, c: char)
    requires
        forall|i: int| 0 <= i < parts.len() ==> !(#[trigger] parts[i]).contains(c),
        !sep.contains(c),
    ensures
        !joined(parts, sep).contains(c),
        !prefixed(parts, sep).contains(c),
    decreases parts.len(),
{
    if parts.len() > 0 {
        let more = parts.skip(1);
        assert forall|i: int| 0 <= i < more.len() implies !(#[trigger] more[i]).contains(c) by {
            assert(more[i] == parts[i + 1]);
        }
        lemma_joined_chars(more, sep, c);
        assert(!parts[0].contains(c));
        let a = sep + parts[0] + prefixed(more, sep);
        if a.contains(c) {
            let k = choose|k: int| 0 <= k < a.len() && a[k] == c;
            if k < sep.len() {
                assert(sep[k] == c);
            } else if k < sep.len() + parts[0].len() {
                assert(parts[0][k - sep.len()] == c);
            } else {
                assert(prefixed(more, sep)[k - sep.len() - parts[0].len()] == c);
            }
        }
        let b = parts[0] + prefixed(more, sep);
        if b.contains(c) {
            let k = choose|k: int| 0 <= k < b.len() && b[k] == c;
            if k < parts[0].len() {
                assert(parts[0][k] == c);
            } else {
                assert(prefixed(more, sep)[k - parts[0].len()] == c);
            }
        }
    }
}

/// The head of a compact index is clean and about no memory, whatever types
/// without brackets and line breaks are always on.
pub proof fn types_line_is_harmless(tier0: Seq<Text>, file: Text)
    requires
        forall|i: int|
            0 <= i < tier0.len() ==> !(#[trigger] tier0[i]).contains(']') && one_line(tier0[i]),
        is_memory_file(file),
    ensures
        is_clean(types_line(tier0)),
        index_file(types_line(tier0)) != Some(file),
{
    reveal_strlit("](");
    reveal_strlit("/");
    reveal_strlit("MEMORY");
    reveal_strlit(".md)");
    let p = "> Compacted: only "@;
    let j = joined(tier0, "/"@);
    let q =
        " memories are always-on. Full catalog in [MEMORY.full.md](MEMORY.full.md); every memory stays searchable via `memnir search`."@;
    let line = types_line(tier0);
    lemma_joined_chars(tier0, "/"@, ']');
    assert forall|i: int| 0 <= i < tier0.len() implies !(#[trigger] tier0[i]).contains('\n') by {
        assert(one_line(tier0[i]));
    }
    lemma_joined_chars(tier0, "/"@, '\n');
    reveal_strlit("> Compacted: only ");
    lemma_catalog_words();
    let n = p.len() + j.len() as int;
    assert(line.last() == q[q.len() - 1]);
    if line.contains('\n') {
        let k = choose|k: int| 0 <= k < line.len() && line[k] == '\n';
        if k < p.len() {
            assert(p[k] == '\n');
        } else if k < n {
            assert(j[k - p.len()] == '\n');
        } else {
            assert(q[k - n] == '\n');
        }
    }
    lemma_position_from(line, "]("@, 0);
    assert forall|i: int| n <= i < line.len() implies line[i] == q[i - n] by {}
    match position(line, "]("@) {
        Some(k) => {
            assert(line.subrange(k, k + 2)[0] == line[k]);
            if k < p.len() {
                assert(p[k] == ']');
            } else if k < n {
                assert(j[k - p.len()] == ']');
            }
            assert(k >= n);
            let rest = line.skip(k).skip(2);
            lemma_position_from(rest, ".md)"@, 0);
            if index_file(line) == Some(file) {
                let e = position(rest, ".md)"@)->0;
                assert(file == rest.take(e + 3));
                lemma_catalog_place(k - n);
                assert forall|i: int| 0 <= i < 6 implies rest[i] == "MEMORY"@[i] by {
                    assert(rest[i] == line[k + 2 + i]);
                    assert(line[k + 2 + i] == q[k - n + 2 + i]);
                }
                assert(occurs_at(rest, ".md)"@, e));
                assert(rest.subrange(e, e + 4)[0] == rest[e]);
                assert(e >= 6);
                assert(file.take(6) =~= "MEMORY"@);
            }
        },
        None => {},
    }
}

proof fn lemma_catalog_words()
    ensures
        ({
            let q =
                " memories are always-on. Full catalog in [MEMORY.full.md](MEMORY.full.md); every memory stays searchable via `memnir search`."@;
            q.len() > 0 && !q.contains('\n') && q[q.len() - 1] == '.'
        }),
{
    reveal_strlit(
        " memories are always-on. Full catalog in [MEMORY.full.md](MEMORY.full.md); every memory stays searchable via `memnir search`.",
    );
}

/// Where the closing bracket stands in the words about the full catalog, and what
/// follows it.
proof fn lemma_catalog_place(k: int)
    requires
        ({
            let q =
                " memories are always-on. Full catalog in [MEMORY.full.md](MEMORY.full.md); every memory stays searchable via `memnir search`."@;
            0 <= k < q.len() && q[k] == ']'
        }),
    ensures
        ({
            let q =
                " memories are always-on. Full catalog in [MEMORY.full.md](MEMORY.full.md); every memory stays searchable via `memnir search`."@;
            &&& k + 8 <= q.len()
            &&& forall|i: int| 0 <= i < 6 ==> #[trigger] q[k + 2 + i] == "MEMORY"@[i]
        }),
{
    reveal_strlit(
        " memories are always-on. Full catalog in [MEMORY.full.md](MEMORY.full.md); every memory stays searchable via `memnir search`.",
    );
    reveal_strlit("MEMORY");
    assert(k == 56);
}

/// Parting the index by type loses no line and adds none.
pub proof fn parting_loses_nothing(items: Seq<(Text, Text)>, tier0: Seq<Text>)
    ensures
        tier_lines(items, tier0, true).to_multiset().add(
            tier_lines(items, tier0, false).to_multiset(),
        ) == items.map_values(|it: (Text, Text)| it.1).to_multiset(),
        tier_lines(items, tier0, true).len() + tier_lines(items, tier0, false).len() == items.len(),
    decreases items.len(),
{
    broadcast use vstd::seq_lib::group_to_multiset_ensures;

    reveal(Seq::filter);
    let a = tier_lines(items, tier0, true);
    let b = tier_lines(items, tier0, false);
    let all = items.map_values(|it: (Text, Text)| it.1);
    if items.len() > 0 {
        let head = items.drop_last();
        parting_loses_nothing(head, tier0);
        let c = tier_lines(head, tier0, true);
        let d = tier_lines(head, tier0, false);
        let l = items.last().1;
        let some = head.map_values(|it: (Text, Text)| it.1);
        assert(all =~= some.push(l));
        if tier0.contains(items.last().0) {
            assert(a =~= c.push(l));
            assert(b =~= d);
        } else {
            assert(a =~= c);
            assert(b =~= d.push(l));
        }
        assert(a.to_multiset().add(b.to_multiset()) =~= all.to_multiset());
    } else {
        assert(a =~= Seq::<Text>::empty());
        assert(b =~= Seq::<Text>::empty());
        assert(all =~= Seq::<Text>::empty());
        assert(a.to_multiset().add(b.to_multiset()) =~= all.to_multiset());
    }
}

/// No reservation is in the index.
pub proof fn reservations_stay_out(ls: Seq<Text>, mems: Seq<Memory>, k: int)
    requires
        0 <= k < index_items(ls, mems).len(),
    ensures
        index_items(ls, mems)[k].0 != reservation_type(),
{
    lemma_filter_holds(mems, |m: Memory| is_knowledge(m), k);
}

/// Whether a type can stand in a marker by itself.
pub open spec fn is_plain_type(t: Text) -> bool {
    t.len() > 0 && trimmed(t) == t && forall|i: int|
        0 <= i < t.len() ==> !", \n\t"@.contains(#[trigger] t[i])
}

proof fn lemma_marker_pieces(types: Seq<Text>)
    requires
        types.len() > 0,
        forall|i: int| 0 <= i < types.len() ==> is_plain_type(#[trigger] types[i]),
    ensures
        pieces(joined(types, ","@) + "\n"@, ", \n\t"@) == types.push(Seq::empty()),
    decreases types.len(),
{
    reveal_strlit(",");
    reveal_strlit("\n");
    reveal_strlit(", \n\t");
    let stops = ", \n\t"@;
    assert(stops[0] == ',' && stops[2] == '\n');
    let t = types[0];
    let none = Seq::<char>::empty();
    let s = joined(types, ","@) + "\n"@;
    assert(is_plain_type(t));
    assert forall|i: int| 0 <= i < t.len() implies !stops.contains(#[trigger] s[i]) by {
        assert(s[i] == t[i]);
    }
    if types.len() == 1 {
        assert(prefixed(types.skip(1), ","@) =~= none);
        assert(s =~= t + "\n"@);
        assert(s[t.len() as int] == '\n');
        lemma_span_is(s, stops, t.len());
        assert(s.take(t.len() as int) =~= t);
        assert(s.skip(t.len() as int + 1) =~= none);
        lemma_span_is(none, stops, 0);
        assert(pieces(none, stops) =~= seq![none]);
        assert(types.push(none) =~= seq![t] + seq![none]);
    } else {
        let more = types.skip(1);
        assert forall|i: int| 0 <= i < more.len() implies is_plain_type(#[trigger] more[i]) by {
            assert(more[i] == types[i + 1]);
        }
        lemma_marker_pieces(more);
        let rest = joined(more, ","@) + "\n"@;
        assert(prefixed(more, ","@) =~= ","@ + joined(more, ","@));
        assert(s =~= t + ","@ + rest);
        assert(s[t.len() as int] == ',');
        lemma_span_is(s, stops, t.len());
        assert(s.take(t.len() as int) =~= t);
        assert(s.skip(t.len() as int + 1) =~= rest);
        assert(types.push(none) =~= seq![t] + more.push(none));
    }
}

proof fn lemma_trim_plain(types: Seq<Text>)
    requires
        forall|i: int| 0 <= i < types.len() ==> is_plain_type(#[trigger] types[i]),
    ensures
        types.push(Seq::empty()).map_values(|p: Text| trimmed(p)) == types.push(Seq::empty()),
{
    let none = Seq::<char>::empty();
    let ps = types.push(none);
    let qs = ps.map_values(|p: Text| trimmed(p));
    assert(trimmed(none) =~= none);
    assert forall|i: int| 0 <= i < ps.len() implies qs[i] == ps[i] by {
        if i < types.len() {
            assert(is_plain_type(types[i]));
        }
    }
    assert(qs =~= ps);
}

/// The types that were written to the marker are read back from it.
pub proof fn marker_reads_back(types: Seq<Text>)
    requires
        types.len() > 0,
        forall|i: int| 0 <= i < types.len() ==> is_plain_type(#[trigger] types[i]),
    ensures
        marked_types(Some(marker_text(types))) == types,
{
    let g = |p: Text| p.len() > 0;
    assert(items_of(marker_text(types), ", \n\t"@) == types.push(Seq::empty()).filter(g)) by {
        lemma_marker_pieces(types);
        lemma_trim_plain(types);
    }
    assert(types.push(Seq::empty()).filter(g) == types) by {
        lemma_last_dropped(types, g, Seq::empty());
        assert forall|i: int| 0 <= i < types.len() implies g(#[trigger] types[i]) by {
            assert(is_plain_type(types[i]));
        }
        lemma_all_kept(types, g);
    }
}

proof fn lemma_last_dropped(s: Seq<Text>, p: spec_fn(Text) -> bool, x: Text)
    requires
        !p(x),
    ensures
        s.push(x).filter(p) == s.filter(p),
{
    reveal(Seq::filter);
    assert(s.push(x).drop_last() =~= s);
}

proof fn lemma_all_kept(s: Seq<Text>, p: spec_fn(Text) -> bool)
    requires
        forall|i: int| 0 <= i < s.len() ==> p(#[trigger] s[i]),
    ensures
        s.filter(p) == s,
    decreases s.len(),
{
    reveal(Seq::filter);
    if s.len() > 0 {
        let head = s.drop_last();
        assert forall|i: int| 0 <= i < head.len() implies p(#[trigger] head[i]) by {
            assert(head[i] == s[i]);
        }
        lemma_all_kept(head, p);
        assert(p(s[s.len() - 1]));
        assert(head.push(s.last()) =~= s);
    } else {
        assert(s.filter(p) =~= s);
    }
}

/// Where memories have ordinary names and the lines so far are clean, the index is
/// tidy.
pub proof fn ordinary_names_are_tidy(ls: Seq<Text>, mems: Seq<Memory>)
    requires
        forall|i: int| 0 <= i < ls.len() ==> is_clean(#[trigger] ls[i]),
        forall|i: int|
            0 <= i < indexed(mems).len() ==> {
                let m = #[trigger] indexed(mems)[i];
                &&& ends(m.file, ".md"@)
                &&& !m.file.contains(']')
                &&& !m.file.contains(')')
                &&& one_line(m.file)
                &&& is_clean(m.desc)
            },
        forall|i: int, j: int|
            0 <= i < j < indexed(mems).len() ==> (#[trigger] indexed(mems)[i]).file != (
            #[trigger] indexed(mems)[j]).file,
    ensures
        is_tidy(ls, mems),
{
    let k = indexed(mems);
    assert forall|i: int| 0 <= i < k.len() implies is_clean(line_for(ls, #[trigger] k[i])) && index_file(
        line_for(ls, k[i]),
    ) == Some(k[i].file) by {
        lemma_kept(ls, k[i].file);
        match kept_line(ls, k[i].file) {
            Some(l) => {
                let x = choose|x: int| 0 <= x < ls.len() && ls[x] == l;
                assert(is_clean(ls[x]));
            },
            None => {
                fresh_line_is_about_its_file(k[i]);
                lemma_fresh_clean(k[i]);
            },
        }
    }
}

proof fn lemma_fresh_clean(m: Memory)
    requires
        one_line(m.file),
        is_clean(m.desc),
    ensures
        is_clean(fresh_line(m)),
{
    reveal_strlit("- [");
    reveal_strlit("](");
    reveal_strlit(") — ");
    let title = chars_replaced(stem(m.file), "_"@, ' ');
    let line = fresh_line(m);
    let n = line.len() - m.desc.len();
    lemma_stem_chars(m.file);
    if line.contains('\n') {
        let x = choose|x: int| 0 <= x < line.len() && line[x] == '\n';
        if x < 3 {
        } else if x < 3 + title.len() {
            assert(title[x - 3] == '\n');
            assert(stem(m.file)[x - 3] == '\n');
            assert(stem(m.file).contains('\n'));
        } else if x < 5 + title.len() {
        } else if x < 5 + title.len() + m.file.len() {
            assert(m.file[x - 5 - title.len()] == '\n');
        } else if x < n {
        } else {
            assert(m.desc[x - n] == '\n');
        }
    }
    if m.desc.len() > 0 {
        assert(line.last() == m.desc.last());
    } else {
        assert(line.last() == ' ');
    }
}

} // verus!

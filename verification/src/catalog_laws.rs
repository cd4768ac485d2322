//! What the index lists, in full and compact.
use crate::analysis::is_knowledge;
use crate::index::{
    compact_head, default_types, full_text, index_file, index_items, index_text, line_for,
    marked_types, marker_text, tier_lines, types_by,
};
use crate::link_laws::{found_means_inside, inside};
use crate::memory::{stem, Memory};
use crate::scope::Found;
use crate::text::{
    chars_replaced, items_of, joined, lemma_position_from, lemma_position_is, occurs_at, position,
    Text,
};
use vstd::prelude::*;

verus! {

/// A pattern whose first character stands nowhere else in it occurs first where it is
/// put, if it does not occur before.
pub(crate) proof fn lemma_first_put(a: Text, p: Text, b: Text)
    requires
        p.len() > 0,
        !inside(p, a),
        forall|i: int| 0 < i < p.len() ==> #[trigger] p[i] != p[0],
    ensures
        position(a + p + b, p) == Some(a.len() as int),
{
    let s = a + p + b;
    let n = a.len() as int;
    let m = p.len() as int;
    found_means_inside(a, p);
    lemma_position_from(a, p, 0);
    assert(s.subrange(n, n + m) =~= p);
    assert forall|j: int| 0 <= j < n implies !#[trigger] occurs_at(s, p, j) by {
        if occurs_at(s, p, j) {
            if j + m <= n {
                assert(a.subrange(j, j + m) =~= s.subrange(j, j + m));
                assert(occurs_at(a, p, j));
            } else {
                let x = s.subrange(j, j + m);
                assert(x[n - j] == s[n]);
                assert(s[n] == p[0]);
                assert(p[n - j] != p[0]);
            }
        }
    }
    lemma_position_is(s, p, n);
}

/// An index line is about the file in its first pair of round brackets behind square
/// ones.
pub proof fn index_line_is_about_its_file(title: Text, file: Text, rest: Text)
    requires
        !inside("]("@, title),
        !inside(".md)"@, file),
    ensures
        index_file(title + "]("@ + file + ".md)"@ + rest) == Some(file + ".md"@),
{
    reveal_strlit("](");
    reveal_strlit(".md)");
    reveal_strlit(".md");
    let line = title + "]("@ + file + ".md)"@ + rest;
    let tail = file + ".md)"@ + rest;
    assert(line =~= title + "]("@ + tail);
    lemma_first_put(title, "]("@, tail);
    let n = title.len() as int;
    assert(line.skip(n).skip(2) =~= tail);
    lemma_first_put(file, ".md)"@, rest);
    assert(tail.take(file.len() as int + 3) =~= file + ".md"@);
}

/// A line without such brackets is about no file.
pub proof fn other_lines_are_about_no_file(line: Text)
    requires
        !inside("]("@, line) || !inside(".md)"@, line),
    ensures
        index_file(line) is None,
{
    reveal_strlit("](");
    reveal_strlit(".md)");
    found_means_inside(line, "]("@);
    if let Some(s) = position(line, "]("@) {
        lemma_position_from(line, "]("@, 0);
        assert(occurs_at(line, "]("@, s));
        let rest = line.skip(s).skip(2);
        assert(line =~= line.take(s + 2) + rest);
        found_means_inside(rest, ".md)"@);
        if inside(".md)"@, rest) {
            let (a, b) = choose|a: Text, b: Text| rest == #[trigger] (a + ".md)"@ + b);
            let c = line.take(s + 2) + a;
            assert(line =~= c + ".md)"@ + b);
        }
    }
}

/// A line that the user wrote for a memory is kept, the first of them; a memory without
/// one gets a line with its title, its file and its description.
pub proof fn own_lines_are_kept(ls: Seq<Text>, m: Memory, k: int)
    ensures
        0 <= k < ls.len() && index_file(ls[k]) == Some(m.file) && (forall|j: int|
            0 <= j < k ==> index_file(#[trigger] ls[j]) != Some(m.file)) ==> line_for(ls, m)
            == ls[k],
        (forall|j: int| 0 <= j < ls.len() ==> index_file(#[trigger] ls[j]) != Some(m.file))
            ==> line_for(ls, m) == "- ["@ + chars_replaced(stem(m.file), "_"@, ' ') + "]("@ + m.file
            + ") — "@ + m.desc,
    decreases ls.len(),
{
    if ls.len() > 0 && index_file(ls[0]) != Some(m.file) {
        let more = ls.skip(1);
        own_lines_are_kept(more, m, k - 1);
        if 0 <= k < ls.len() && index_file(ls[k]) == Some(m.file) && (forall|j: int|
            0 <= j < k ==> index_file(#[trigger] ls[j]) != Some(m.file)) {
            assert(more[k - 1] == ls[k]);
            assert forall|j: int| 0 <= j < k - 1 implies index_file(#[trigger] more[j]) != Some(
                m.file,
            ) by {
                assert(more[j] == ls[j + 1]);
            }
        }
        if forall|j: int| 0 <= j < ls.len() ==> index_file(#[trigger] ls[j]) != Some(m.file) {
            assert forall|j: int| 0 <= j < more.len() implies index_file(#[trigger] more[j])
                != Some(m.file) by {
                assert(more[j] == ls[j + 1]);
            }
        }
    } else if ls.len() > 0 {
        if 0 <= k < ls.len() && (forall|j: int|
            0 <= j < k ==> index_file(#[trigger] ls[j]) != Some(m.file)) && k > 0 {
            assert(index_file(ls[0]) != Some(m.file));
        }
        if forall|j: int| 0 <= j < ls.len() ==> index_file(#[trigger] ls[j]) != Some(m.file) {
            assert(index_file(ls[0]) != Some(m.file));
        }
    }
}

proof fn lemma_catalog(ls: Seq<Text>, mems: Seq<Memory>, t: Seq<Text>)
    ensures
        index_items(ls, mems).map_values(|it: (Text, Text)| it.1) == mems.filter(
            |m: Memory| m.typ != "reservation"@,
        ).map_values(|m: Memory| line_for(ls, m)),
        tier_lines(index_items(ls, mems), t, true) == mems.filter(
            |m: Memory| m.typ != "reservation"@ && t.contains(m.typ),
        ).map_values(|m: Memory| line_for(ls, m)),
    decreases mems.len(),
{
    reveal(Seq::filter);
    let p = |m: Memory| is_knowledge(m);
    let q = |m: Memory| m.typ != "reservation"@;
    let r = |m: Memory| m.typ != "reservation"@ && t.contains(m.typ);
    let f = |m: Memory| line_for(ls, m);
    let g = |it: (Text, Text)| it.1;
    let h = |m: Memory| (m.typ, line_for(ls, m));
    let inn = |it: (Text, Text)| t.contains(it.0) == true;
    let items = index_items(ls, mems);
    if mems.len() > 0 {
        let head = mems.drop_last();
        let m = mems.last();
        let old = index_items(ls, head);
        lemma_catalog(ls, head, t);
        if p(m) {
            assert(items =~= old.push(h(m)));
            assert(items.drop_last() =~= old);
            assert(items.map_values(g) =~= old.map_values(g).push(f(m)));
            assert(mems.filter(q).map_values(f) =~= head.filter(q).map_values(f).push(f(m)));
            if t.contains(m.typ) {
                assert(tier_lines(items, t, true) =~= tier_lines(old, t, true).push(f(m)));
                assert(mems.filter(r).map_values(f) =~= head.filter(r).map_values(f).push(f(m)));
            } else {
                assert(tier_lines(items, t, true) =~= tier_lines(old, t, true));
                assert(mems.filter(r).map_values(f) =~= head.filter(r).map_values(f));
            }
        } else {
            assert(items =~= old);
            assert(mems.filter(q) =~= head.filter(q));
            assert(mems.filter(r) =~= head.filter(r));
        }
    } else {
        assert(items =~= Seq::<(Text, Text)>::empty());
        assert(items.map_values(g) =~= mems.filter(q).map_values(f));
        assert(tier_lines(items, t, true) =~= mems.filter(r).map_values(f));
    }
}

/// The full index has a line for every memory but the records of reservations, in the
/// order of the memories; so has the full catalog beside a compact index.
pub proof fn full_index_lists_every_memory(ls: Seq<Text>, mems: Seq<Memory>)
    ensures
        ({
            let lines = mems.filter(|m: Memory| m.typ != "reservation"@).map_values(
                |m: Memory| line_for(ls, m),
            );
            &&& index_text(ls, mems, None) == "# Memory Index\n\n"@ + joined(lines, "\n"@) + "\n"@
            &&& full_text(ls, mems) == "# Memory Index — full catalog\n\n"@ + joined(lines, "\n"@)
                + "\n"@
        }),
{
    lemma_catalog(ls, mems, Seq::empty());
}

/// A compact index has a line for exactly those memories whose type is one of the
/// always-on ones.
pub proof fn compact_index_lists_the_always_on_types(
    ls: Seq<Text>,
    mems: Seq<Memory>,
    types: Seq<Text>,
)
    ensures
        index_text(ls, mems, Some(types)) == compact_head(types) + joined(
            mems.filter(
                |m: Memory| m.typ != "reservation"@ && types.contains(m.typ),
            ).map_values(|m: Memory| line_for(ls, m)),
            "\n"@,
        ) + "\n"@,
{
    lemma_catalog(ls, mems, types);
}

/// With every type always on, a compact index lists what the full catalog lists.
pub proof fn all_types_on_lists_everything(ls: Seq<Text>, mems: Seq<Memory>, types: Seq<Text>)
    requires
        forall|i: int| 0 <= i < mems.len() ==> types.contains((#[trigger] mems[i]).typ),
    ensures
        tier_lines(index_items(ls, mems), types, true) == index_items(ls, mems).map_values(
            |it: (Text, Text)| it.1,
        ),
{
    lemma_catalog(ls, mems, types);
    crate::reserve_laws::lemma_filter_same(
        mems,
        |m: Memory| m.typ != "reservation"@ && types.contains(m.typ),
        |m: Memory| m.typ != "reservation"@,
    );
}

/// The index is compact exactly where there is a marker; a marker that names no type
/// stands for `user` and `feedback`.
pub proof fn marker_decides_what_is_always_on(marker: Found)
    ensures
        types_by(marker) is None <==> marker is Missing,
        marker is Unreadable ==> types_by(marker) == Some(seq!["user"@, "feedback"@]),
        marker matches Found::Content(s) ==> types_by(marker) == Some(
            if items_of(s, ", \n\t"@).len() == 0 {
                seq!["user"@, "feedback"@]
            } else {
                items_of(s, ", \n\t"@)
            },
        ),
        marked_types(None) == seq!["user"@, "feedback"@],
{
}

/// Compacting without types writes down `user` and `feedback`.
pub proof fn no_types_means_user_and_feedback()
    ensures
        marker_text(Seq::empty()) == "user,feedback\n"@,
{
    reveal_strlit("user");
    reveal_strlit("feedback");
    reveal_strlit(",");
    reveal_strlit("\n");
    reveal_strlit("user,feedback\n");
    reveal_with_fuel(crate::text::prefixed, 3);
    let d = default_types();
    assert(d.skip(1)[0] == "feedback"@);
    assert(marker_text(Seq::empty()) =~= "user,feedback\n"@);
}

} // verus!

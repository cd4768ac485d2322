//! What repairing links changes and what it leaves alone.
use crate::analysis::{answers, broken_links, lemma_filter_holds, target, target_answers};
use crate::links::{
    candidates, close_to, fits_in_link, lemma_fits, lemma_link_read, links_in, repaired,
};
use crate::memory::Memory;
use crate::naming::{normalized, punctuation_does_not_matter};
use crate::repair::{
    fixable_of, fixed_content, fixed_count, fixes_from, fixes_in, lemma_contains_first,
    lemma_targets_named, lemma_unclosed, link_text, relinked, targets_of,
};
use crate::text::{
    lemma_position_from, occurs_at, position, trimmed, trimmed_end, trimmed_start, Text,
};
use vstd::prelude::*;

verus! {

/// What a link is read as once every link to `old` is rewritten.
pub open spec fn renamed_once(old: Text, new: Text, link: Text) -> Text {
    if link == old {
        trimmed(new)
    } else {
        link
    }
}

/// What a link is read as once the repairs are made.
pub open spec fn renamed(fixes: Seq<(Text, Text)>, link: Text) -> Text
    decreases fixes.len(),
{
    if fixes.len() == 0 {
        link
    } else {
        renamed(fixes.skip(1), renamed_once(fixes[0].0, fixes[0].1, link))
    }
}

/// Whether no repair makes a link that a repair is for.
pub open spec fn are_final(fixes: Seq<(Text, Text)>) -> bool {
    forall|i: int, j: int|
        0 <= i < fixes.len() && 0 <= j < fixes.len() ==> trimmed((#[trigger] fixes[i]).1) != (
        #[trigger] fixes[j]).0
}

/// What lies in the rest of the repairs lies in all of them.
proof fn lemma_rest(fixes: Seq<(Text, Text)>)
    requires
        fixes.len() > 0,
    ensures
        forall|i: int| 0 <= i < fixes.len() - 1 ==> #[trigger] fixes.skip(1)[i] == fixes[i + 1],
        are_final(fixes) ==> are_final(fixes.skip(1)),
{
    let more = fixes.skip(1);
    if are_final(fixes) {
        assert forall|i: int, j: int| 0 <= i < more.len() && 0 <= j < more.len() implies trimmed(
            (#[trigger] more[i]).1,
        ) != (#[trigger] more[j]).0 by {
            assert(trimmed(fixes[i + 1].1) != fixes[j + 1].0);
        }
    }
}

/// A link that a repair is for gets the new name of such a repair; any other stays.
proof fn lemma_renamed(fixes: Seq<(Text, Text)>, link: Text)
    requires
        are_final(fixes),
    ensures
        (forall|i: int| 0 <= i < fixes.len() ==> (#[trigger] fixes[i]).0 != link) ==> renamed(
            fixes,
            link,
        ) == link,
        (exists|i: int| 0 <= i < fixes.len() && (#[trigger] fixes[i]).0 == link) ==> exists|i: int|
            0 <= i < fixes.len() && (#[trigger] fixes[i]).0 == link && renamed(fixes, link)
                == trimmed(fixes[i].1),
    decreases fixes.len(),
{
    if fixes.len() > 0 {
        let more = fixes.skip(1);
        let now = renamed_once(fixes[0].0, fixes[0].1, link);
        lemma_rest(fixes);
        lemma_renamed(more, now);
        if fixes[0].0 == link {
            assert forall|i: int| 0 <= i < more.len() implies (#[trigger] more[i]).0 != now by {
                assert(trimmed(fixes[0].1) != fixes[i + 1].0);
            }
        } else if exists|i: int| 0 <= i < fixes.len() && (#[trigger] fixes[i]).0 == link {
            let i = choose|i: int| 0 <= i < fixes.len() && (#[trigger] fixes[i]).0 == link;
            assert(more[i - 1].0 == link);
            let k = choose|k: int|
                0 <= k < more.len() && (#[trigger] more[k]).0 == link && renamed(more, link)
                    == trimmed(more[k].1);
            assert(fixes[k + 1].0 == link);
        }
    }
}

/// The first character of a content stays.
proof fn lemma_first_stays(content: Text, old: Text, new: Text)
    requires
        content.len() > 0,
    ensures
        relinked(content, old, new).len() > 0,
        relinked(content, old, new)[0] == content[0],
{
    reveal_strlit("[[");
}

proof fn lemma_relinked(content: Text, old: Text, new: Text)
    requires
        fits_in_link(new),
    ensures
        links_in(relinked(content, old, new)) == links_in(content).map_values(
            |l: Text| renamed_once(old, new, l),
        ),
    decreases content.len(),
{
    reveal_strlit("]]");
    let f = |l: Text| renamed_once(old, new, l);
    if content.len() < 2 {
        assert(links_in(content).map_values(f) =~= links_in(content));
    } else if content[0] == '[' && content[1] == '[' {
        let t = content.skip(2);
        lemma_position_from(t, "]]"@, 0);
        match position(t, "]]"@) {
            Some(e) => {
                let inner = t.take(e);
                let rest = t.skip(e).skip(2);
                let after = relinked(rest, old, new);
                lemma_relinked(rest, old, new);
                if trimmed(inner) == old {
                    lemma_fits(new);
                    lemma_link_read(new, after);
                } else {
                    assert forall|j: int| 0 <= j < inner.len() implies !#[trigger] occurs_at(
                        inner + "]]"@,
                        "]]"@,
                        j,
                    ) by {
                        assert(t.subrange(e, e + 2) == "]]"@);
                        assert(inner + "]]"@ =~= t.take(e + 2));
                        assert(t.take(e + 2).subrange(j, j + 2) =~= t.subrange(j, j + 2));
                        assert(!occurs_at(t, "]]"@, j));
                    }
                    lemma_link_read(inner, after);
                }
                assert(links_in(content).map_values(f) =~= seq![f(trimmed(inner))] + links_in(
                    rest,
                ).map_values(f));
            },
            None => {
                lemma_unclosed(content);
                assert(links_in(content).map_values(f) =~= links_in(content));
            },
        }
    } else {
        let rest = content.skip(1);
        let after = relinked(rest, old, new);
        let s = seq![content[0]] + after;
        lemma_relinked(rest, old, new);
        lemma_first_stays(rest, old, new);
        assert(s.skip(1) =~= after);
        assert(s[0] == content[0] && s[1] == content[1]);
    }
}

/// Repairing changes the links of a content one by one, and nothing else that is
/// read of them.
pub proof fn repair_renames_links(content: Text, fixes: Seq<(Text, Text)>)
    requires
        forall|i: int| 0 <= i < fixes.len() ==> fits_in_link((#[trigger] fixes[i]).1),
    ensures
        links_in(fixed_content(content, fixes)) == links_in(content).map_values(
            |l: Text| renamed(fixes, l),
        ),
    decreases fixes.len(),
{
    let links = links_in(content);
    if fixes.len() == 0 {
        assert(links.map_values(|l: Text| renamed(fixes, l)) =~= links);
    } else {
        let (old, new) = fixes[0];
        let more = fixes.skip(1);
        let f = |l: Text| renamed_once(old, new, l);
        lemma_rest(fixes);
        lemma_relinked(content, old, new);
        repair_renames_links(relinked(content, old, new), more);
        assert(links.map_values(f).map_values(|l: Text| renamed(more, l)) =~= links.map_values(
            |l: Text| renamed(fixes, l),
        ));
    }
}

/// Once the repairs are made, no link has a name that was to be repaired.
pub proof fn repaired_names_are_gone(content: Text, fixes: Seq<(Text, Text)>)
    requires
        forall|i: int| 0 <= i < fixes.len() ==> fits_in_link((#[trigger] fixes[i]).1),
        are_final(fixes),
    ensures
        forall|i: int|
            0 <= i < fixes.len() ==> !links_in(fixed_content(content, fixes)).contains(
                (#[trigger] fixes[i]).0,
            ),
{
    repair_renames_links(content, fixes);
    let now = links_in(fixed_content(content, fixes));
    let was = links_in(content);
    assert forall|i: int| 0 <= i < fixes.len() implies !now.contains((#[trigger] fixes[i]).0) by {
        if now.contains(fixes[i].0) {
            let k = choose|k: int| 0 <= k < now.len() && now[k] == fixes[i].0;
            assert(now[k] == renamed(fixes, was[k]));
            lemma_renamed(fixes, was[k]);
        }
    }
}

proof fn lemma_relinked_same(content: Text, old: Text, new: Text)
    requires
        !links_in(content).contains(old),
    ensures
        relinked(content, old, new) == content,
    decreases content.len(),
{
    reveal_strlit("[[");
    reveal_strlit("]]");
    if content.len() >= 2 {
        if content[0] == '[' && content[1] == '[' {
            let t = content.skip(2);
            lemma_position_from(t, "]]"@, 0);
            if let Some(e) = position(t, "]]"@) {
                let inner = t.take(e);
                let rest = t.skip(e).skip(2);
                lemma_contains_first(trimmed(inner), links_in(rest), old);
                lemma_relinked_same(rest, old, new);
                assert(t.subrange(e, e + 2) == "]]"@);
                assert(link_text(inner) + rest =~= content);
            }
        } else {
            lemma_relinked_same(content.skip(1), old, new);
            assert(seq![content[0]] + content.skip(1) =~= content);
        }
    }
}

/// A content that has none of the links to repair stays as it is.
pub proof fn repair_leaves_others_alone(content: Text, fixes: Seq<(Text, Text)>)
    requires
        forall|i: int| 0 <= i < fixes.len() ==> !links_in(content).contains((#[trigger] fixes[i]).0),
    ensures
        fixed_content(content, fixes) == content,
        fixed_count(content, fixes) == 0,
    decreases fixes.len(),
{
    if fixes.len() > 0 {
        lemma_rest(fixes);
        assert(!links_in(content).contains(fixes[0].0));
        lemma_relinked_same(content, fixes[0].0, fixes[0].1);
        repair_leaves_others_alone(content, fixes.skip(1));
    }
}

/// The names that are to be repaired and that a content links to.
pub open spec fn names_found(content: Text, fixes: Seq<(Text, Text)>) -> Set<Text> {
    fixes.map_values(|f: (Text, Text)| f.0).to_set().intersect(links_in(content).to_set())
}

/// What is counted is the names that are rewritten, each of them once, however
/// often it is linked to and however many repairs there are for it.
pub proof fn names_are_counted_once(content: Text, fixes: Seq<(Text, Text)>)
    requires
        forall|i: int| 0 <= i < fixes.len() ==> fits_in_link((#[trigger] fixes[i]).1),
        are_final(fixes),
    ensures
        names_found(content, fixes).finite(),
        fixed_count(content, fixes) == names_found(content, fixes).len(),
    decreases fixes.len(),
{
    let links = links_in(content);
    let found = names_found(content, fixes);
    let pick = |f: (Text, Text)| f.0;
    let olds = fixes.map_values(pick);
    if fixes.len() == 0 {
        assert(found =~= Set::<Text>::empty());
    } else {
        let (old, new) = fixes[0];
        let more = fixes.skip(1);
        let after = relinked(content, old, new);
        let now = links_in(after);
        let rest = names_found(after, more);
        let olds_more = more.map_values(pick);
        lemma_rest(fixes);
        lemma_relinked(content, old, new);
        names_are_counted_once(after, more);
        assert(olds =~= seq![old] + olds_more);
        assert(!now.contains(old)) by {
            if now.contains(old) {
                let k = choose|k: int| 0 <= k < now.len() && now[k] == old;
                assert(now[k] == renamed_once(old, new, links[k]));
                assert(trimmed(fixes[0].1) != fixes[0].0);
            }
        }
        assert forall|x: Text| x != old && olds_more.contains(x) implies now.contains(x)
            == #[trigger] links.contains(x) by {
            let j = choose|j: int| 0 <= j < olds_more.len() && olds_more[j] == x;
            assert(trimmed(fixes[0].1) != fixes[j + 1].0);
            assert(fixes[j + 1].0 == x);
            if now.contains(x) {
                let k = choose|k: int| 0 <= k < now.len() && now[k] == x;
                assert(now[k] == renamed_once(old, new, links[k]));
                assert(links[k] == x);
            }
            if links.contains(x) {
                let k = choose|k: int| 0 <= k < links.len() && links[k] == x;
                assert(now[k] == renamed_once(old, new, links[k]));
                assert(now[k] == x);
            }
        }
        if links.contains(old) {
            assert(found =~= rest.insert(old)) by {
                assert forall|x: Text| found.contains(x) == rest.insert(old).contains(x) by {
                    lemma_contains_first(old, olds_more, x);
                }
            }
        } else {
            assert(found =~= rest) by {
                assert forall|x: Text| found.contains(x) == rest.contains(x) by {
                    lemma_contains_first(old, olds_more, x);
                }
            }
        }
    }
}

/// What a link is repaired to is the name of a memory.
proof fn lemma_repaired_named(mems: Seq<Memory>, link: Text) -> (i: int)
    requires
        repaired(link, targets_of(mems)) is Some,
    ensures
        0 <= i < mems.len(),
        repaired(link, targets_of(mems)) == Some(mems[i].name),
{
    let ts = targets_of(mems);
    let nl = normalized(link);
    let p = |t: (Text, Text)| close_to(nl, t.0);
    let name = repaired(link, ts)->0;
    assert(name == candidates(nl, ts)[0]);
    assert(candidates(nl, ts).len() == ts.filter(p).len());
    lemma_filter_holds(ts, p, 0);
    let k = choose|k: int| 0 <= k < ts.len() && ts[k] == ts.filter(p)[0];
    assert(ts[k].1 == name);
    lemma_targets_named(mems, k);
    choose|i: int| 0 <= i < mems.len() && (#[trigger] mems[i]).name == ts[k].1
}

/// A repaired link is no longer broken: what it becomes leads to a memory.
pub proof fn repair_resolves(mems: Seq<Memory>, link: Text)
    requires
        repaired(link, targets_of(mems)) is Some,
    ensures
        target(mems, normalized(repaired(link, targets_of(mems))->0)) is Some,
        repaired(link, targets_of(mems)) != Some(link),
{
    let i = lemma_repaired_named(mems, link);
    let name = mems[i].name;
    assert(answers(mems[i], normalized(name)));
    target_answers(mems, normalized(name));
}

/// Blanks at the ends of a name make no difference to the normalized name.
proof fn lemma_norm_trimmed_end(s: Text)
    ensures
        normalized(trimmed_end(s)) == normalized(s),
    decreases s.len(),
{
    reveal(Seq::filter);
    if trimmed_end(s) != s {
        lemma_norm_trimmed_end(s.drop_last());
    }
}

proof fn lemma_norm_trimmed_start(s: Text)
    ensures
        normalized(trimmed_start(s)) == normalized(s),
    decreases s.len(),
{
    if trimmed_start(s) != s {
        let t = s.skip(1);
        lemma_norm_trimmed_start(t);
        let none = Seq::<char>::empty();
        punctuation_does_not_matter(none, s[0], t);
        assert(none + seq![s[0]] + t =~= s);
        assert(none + t =~= t);
    }
}

/// Every repair in a plan is of a broken link, to what the link can be repaired
/// to.
proof fn lemma_fixable_sound(mems: Seq<Memory>, todo: Seq<Memory>)
    ensures
        forall|k: int|
            0 <= k < fixable_of(mems, todo).len() ==> {
                let f = #[trigger] fixable_of(mems, todo)[k];
                &&& target(mems, normalized(f.1)) is None
                &&& repaired(f.1, targets_of(mems)) == Some(f.2)
            },
    decreases todo.len(),
{
    if todo.len() > 0 {
        let head = todo.drop_last();
        let m = todo.last();
        let ts = targets_of(mems);
        let broken = broken_links(mems, m.links);
        let p = |l: Text| repaired(l, ts) is Some;
        let q = |l: Text| target(mems, normalized(l)) is None;
        lemma_fixable_sound(mems, head);
        let done = fixable_of(mems, head);
        let all = fixable_of(mems, todo);
        assert forall|k: int| 0 <= k < all.len() implies {
            let f = #[trigger] all[k];
            &&& target(mems, normalized(f.1)) is None
            &&& repaired(f.1, ts) == Some(f.2)
        } by {
            if k < done.len() {
                assert(all[k] == done[k]);
            } else {
                let j = k - done.len();
                assert(all[k] == fixes_from(ts, m.file, broken)[j]);
                lemma_filter_holds(broken, p, j);
                let l = broken.filter(p)[j];
                let i = choose|i: int| 0 <= i < broken.len() && broken[i] == l;
                lemma_filter_holds(m.links, q, i);
            }
        }
    }
}

pub(crate) proof fn lemma_filter_keeps<A>(s: Seq<A>, p: spec_fn(A) -> bool, x: A)
    requires
        s.contains(x),
        p(x),
    ensures
        s.filter(p).contains(x),
    decreases s.len(),
{
    reveal(Seq::filter);
    let head = s.drop_last();
    let k = choose|k: int| 0 <= k < s.len() && s[k] == x;
    let all = s.filter(p);
    if k < head.len() {
        assert(head[k] == x);
        lemma_filter_keeps(head, p, x);
        let j = choose|j: int| 0 <= j < head.filter(p).len() && head.filter(p)[j] == x;
        assert(all[j] == x);
    } else {
        assert(all[all.len() - 1] == x);
    }
}

/// Every broken link that can be repaired has its repair in the plan.
proof fn lemma_fixable_complete(mems: Seq<Memory>, todo: Seq<Memory>, i: int, link: Text)
    requires
        0 <= i < todo.len(),
        todo[i].links.contains(link),
        target(mems, normalized(link)) is None,
        repaired(link, targets_of(mems)) is Some,
    ensures
        fixable_of(mems, todo).contains((todo[i].file, link, repaired(link, targets_of(mems))->0)),
    decreases todo.len(),
{
    let head = todo.drop_last();
    let ts = targets_of(mems);
    let done = fixable_of(mems, head);
    let all = fixable_of(mems, todo);
    let x = (todo[i].file, link, repaired(link, ts)->0);
    if i < head.len() {
        lemma_fixable_complete(mems, head, i, link);
        let k = choose|k: int| 0 <= k < done.len() && done[k] == x;
        assert(all[k] == x);
    } else {
        let m = todo.last();
        let broken = broken_links(mems, m.links);
        let p = |l: Text| repaired(l, ts) is Some;
        lemma_filter_keeps(m.links, |l: Text| target(mems, normalized(l)) is None, link);
        lemma_filter_keeps(broken, p, link);
        let k = choose|k: int| 0 <= k < broken.filter(p).len() && broken.filter(p)[k] == link;
        assert(fixes_from(ts, m.file, broken)[k] == x);
        assert(all[done.len() + k] == x);
    }
}

/// The repairs in one file are those of the plan that name the file.
proof fn lemma_in_file(all: Seq<(Text, Text, Text)>, file: Text)
    ensures
        forall|k: int|
            0 <= k < fixes_in(all, file).len() ==> exists|j: int|
                0 <= j < all.len() && (#[trigger] all[j]).1 == (#[trigger] fixes_in(all, file)[k]).0
                    && all[j].2 == fixes_in(all, file)[k].1,
        forall|j: int|
            0 <= j < all.len() && (#[trigger] all[j]).0 == file ==> fixes_in(all, file).contains(
                (all[j].1, all[j].2),
            ),
    decreases all.len(),
{
    reveal(Seq::filter);
    if all.len() > 0 {
        let head = all.drop_last();
        let last = all[all.len() - 1];
        let now = fixes_in(all, file);
        let was = fixes_in(head, file);
        lemma_in_file(head, file);
        assert(now =~= (if last.0 == file {
            was.push((last.1, last.2))
        } else {
            was
        }));
        assert forall|k: int| 0 <= k < now.len() implies exists|j: int|
            0 <= j < all.len() && (#[trigger] all[j]).1 == (#[trigger] now[k]).0 && all[j].2
                == now[k].1 by {
            if k < was.len() {
                assert(now[k] == was[k]);
                let j = choose|j: int|
                    0 <= j < head.len() && (#[trigger] head[j]).1 == was[k].0 && head[j].2
                        == was[k].1;
                assert(all[j] == head[j]);
            } else {
                assert(all[all.len() - 1] == last);
            }
        }
        assert forall|j: int| 0 <= j < all.len() && (#[trigger] all[j]).0 == file implies now.contains(
            (all[j].1, all[j].2),
        ) by {
            if j < head.len() {
                assert(head[j] == all[j]);
                let k = choose|k: int| 0 <= k < was.len() && was[k] == (head[j].1, head[j].2);
                assert(now[k] == was[k]);
            } else {
                assert(now[was.len() as int] == (last.1, last.2));
            }
        }
    }
}

/// Every repair of a plan in one file is of a broken link, to what the link can be
/// repaired to.
proof fn lemma_plan_sound(mems: Seq<Memory>, file: Text)
    ensures
        forall|k: int|
            0 <= k < fixes_in(fixable_of(mems, mems), file).len() ==> {
                let f = #[trigger] fixes_in(fixable_of(mems, mems), file)[k];
                &&& target(mems, normalized(f.0)) is None
                &&& repaired(f.0, targets_of(mems)) == Some(f.1)
            },
{
    let all = fixable_of(mems, mems);
    let fixes = fixes_in(all, file);
    lemma_fixable_sound(mems, mems);
    lemma_in_file(all, file);
    assert forall|k: int| 0 <= k < fixes.len() implies {
        let f = #[trigger] fixes[k];
        &&& target(mems, normalized(f.0)) is None
        &&& repaired(f.0, targets_of(mems)) == Some(f.1)
    } by {
        let j = choose|j: int|
            0 <= j < all.len() && (#[trigger] all[j]).1 == fixes[k].0 && all[j].2 == fixes[k].1;
        assert(repaired(all[j].1, targets_of(mems)) == Some(all[j].2));
    }
}

/// No repair of a plan makes a link that the plan is to repair: what a link
/// becomes is not broken.
pub proof fn planned_repairs_are_final(mems: Seq<Memory>, file: Text)
    ensures
        are_final(fixes_in(fixable_of(mems, mems), file)),
{
    let fixes = fixes_in(fixable_of(mems, mems), file);
    lemma_plan_sound(mems, file);
    assert forall|i: int, j: int| 0 <= i < fixes.len() && 0 <= j < fixes.len() implies trimmed(
        (#[trigger] fixes[i]).1,
    ) != (#[trigger] fixes[j]).0 by {
        let new = fixes[i].1;
        repair_resolves(mems, fixes[i].0);
        lemma_norm_trimmed_start(new);
        lemma_norm_trimmed_end(trimmed_start(new));
    }
}

/// What a plan makes of a link in one file.
proof fn lemma_planned(mems: Seq<Memory>, i: int, link: Text)
    requires
        0 <= i < mems.len(),
        mems[i].links.contains(link),
    ensures
        renamed(fixes_in(fixable_of(mems, mems), mems[i].file), link) == (if target(
            mems,
            normalized(link),
        ) is None && repaired(link, targets_of(mems)) is Some {
            trimmed(repaired(link, targets_of(mems))->0)
        } else {
            link
        }),
{
    let all = fixable_of(mems, mems);
    let file = mems[i].file;
    let fixes = fixes_in(all, file);
    lemma_plan_sound(mems, file);
    planned_repairs_are_final(mems, file);
    lemma_renamed(fixes, link);
    if target(mems, normalized(link)) is None && repaired(link, targets_of(mems)) is Some {
        lemma_fixable_complete(mems, mems, i, link);
        lemma_in_file(all, file);
        let x = (file, link, repaired(link, targets_of(mems))->0);
        let j = choose|j: int| 0 <= j < all.len() && all[j] == x;
        assert(all[j].0 == file);
        let k = choose|k: int| 0 <= k < fixes.len() && fixes[k] == (x.1, x.2);
        assert(fixes[k].0 == link);
    }
}

/// Selecting among changed elements, where those that are selected are unchanged.
proof fn lemma_filter_mapped(
    s: Seq<Text>,
    f: spec_fn(Text) -> Text,
    p: spec_fn(Text) -> bool,
    q: spec_fn(Text) -> bool,
)
    requires
        forall|i: int|
            0 <= i < s.len() ==> p(f(#[trigger] s[i])) == (p(s[i]) && q(s[i])),
        forall|i: int| 0 <= i < s.len() && p(s[i]) && q(#[trigger] s[i]) ==> f(s[i]) == s[i],
    ensures
        s.map_values(f).filter(p) == s.filter(p).filter(q),
    decreases s.len(),
{
    reveal(Seq::filter);
    if s.len() > 0 {
        let head = s.drop_last();
        let last = s[s.len() - 1];
        assert forall|i: int| 0 <= i < head.len() implies p(f(#[trigger] head[i])) == (p(head[i])
            && q(head[i])) by {
            assert(head[i] == s[i]);
        }
        assert forall|i: int| 0 <= i < head.len() && p(head[i]) && q(#[trigger] head[i]) implies f(
            head[i],
        ) == head[i] by {
            assert(head[i] == s[i]);
        }
        lemma_filter_mapped(head, f, p, q);
        assert(s.map_values(f).drop_last() =~= head.map_values(f));
        assert(s.map_values(f).last() == f(last));
        assert(p(f(last)) == (p(last) && q(last)));
        if p(last) {
            assert(s.filter(p) == head.filter(p).push(last));
            assert(head.filter(p).push(last).drop_last() =~= head.filter(p));
        }
    } else {
        assert(s.map_values(f) =~= s);
        assert(s.filter(p) =~= s);
    }
}

/// Once the repairs of a plan are made in a file, the links in it that are still
/// broken are those that cannot be repaired.
pub proof fn only_unresolved_links_stay_broken(mems: Seq<Memory>, i: int, content: Text)
    requires
        0 <= i < mems.len(),
        mems[i].links == links_in(content),
        forall|j: int| 0 <= j < mems.len() ==> fits_in_link((#[trigger] mems[j]).name),
    ensures
        ({
            let fixes = fixes_in(fixable_of(mems, mems), mems[i].file);
            broken_links(mems, links_in(fixed_content(content, fixes))) == broken_links(
                mems,
                links_in(content),
            ).filter(|l: Text| repaired(l, targets_of(mems)) is None)
        }),
{
    let ts = targets_of(mems);
    let fixes = fixes_in(fixable_of(mems, mems), mems[i].file);
    let links = links_in(content);
    let f = |l: Text| renamed(fixes, l);
    let p = |l: Text| target(mems, normalized(l)) is None;
    let q = |l: Text| repaired(l, ts) is None;
    lemma_plan_sound(mems, mems[i].file);
    assert forall|k: int| 0 <= k < fixes.len() implies fits_in_link((#[trigger] fixes[k]).1) by {
        let m = lemma_repaired_named(mems, fixes[k].0);
        assert(fits_in_link(mems[m].name));
    }
    repair_renames_links(content, fixes);
    assert forall|k: int| 0 <= k < links.len() implies p(f(#[trigger] links[k])) == (p(links[k])
        && q(links[k])) && (p(links[k]) && q(links[k]) ==> f(links[k]) == links[k]) by {
        let l = links[k];
        assert(mems[i].links.contains(l));
        lemma_planned(mems, i, l);
        if p(l) && !q(l) {
            let n = repaired(l, ts)->0;
            repair_resolves(mems, l);
            lemma_norm_trimmed_start(n);
            lemma_norm_trimmed_end(trimmed_start(n));
        }
    }
    lemma_filter_mapped(links, f, p, q);
}

} // verus!

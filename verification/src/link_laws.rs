//! What links are for: which memory a link leads to, which edges that makes, and
//! which broken links are repaired to what.
use crate::analysis::{broken_links, edges_from, edges_of, lemma_filter_holds, target};
use crate::links::{candidates, close_to, repaired};
use crate::memory::{stem, Memory};
use crate::naming::normalized;
use crate::repair::{fixable_of, fixes_from, rest_from, targets_of, unresolved_of};
use crate::repair_laws::lemma_filter_keeps;
use crate::text::{contains, ends, lemma_position_from, occurs_at, without_suffixes, Text};
use vstd::prelude::*;
use vstd::utf8::encode_utf8;

verus! {

/// Whether `p` stands inside `s`: something before it, something behind it.
pub open spec fn inside(p: Text, s: Text) -> bool {
    exists|a: Text, b: Text| s == #[trigger] (a + p + b)
}

/// Searching a text finds a pattern exactly where the pattern stands inside it.
pub proof fn found_means_inside(s: Text, p: Text)
    ensures
        contains(s, p) <==> inside(p, s),
{
    lemma_position_from(s, p, 0);
    if contains(s, p) {
        let k = crate::text::position(s, p)->0;
        assert(occurs_at(s, p, k));
        assert(s =~= s.take(k) + p + s.skip(k + p.len()));
    }
    if inside(p, s) {
        let (a, b) = choose|a: Text, b: Text| s == #[trigger] (a + p + b);
        assert(s.subrange(a.len() as int, a.len() as int + p.len()) =~= p);
        assert(occurs_at(s, p, a.len() as int));
    }
}

/// What stands inside a part stands inside the whole.
pub(crate) proof fn lemma_inside_part(p: Text, front: Text, part: Text, back: Text)
    requires
        inside(p, part),
    ensures
        inside(p, front + part + back),
{
    let (a, b) = choose|a: Text, b: Text| part == #[trigger] (a + p + b);
    let x = front + a;
    let y = b + back;
    assert(front + part + back =~= x + p + y);
}

/// Whether a link may mean a name: of the two, in small letters and without
/// punctuation, one stands inside the other, and the name is no less than four
/// bytes long.
pub open spec fn may_mean(link: Text, key: Text) -> bool {
    encode_utf8(key).len() >= 4 && (inside(key, link) || inside(link, key))
}

proof fn lemma_close(link: Text, key: Text)
    ensures
        close_to(link, key) <==> may_mean(link, key),
{
    found_means_inside(link, key);
    found_means_inside(key, link);
}

/// Whether a link may mean a target of that name.
spec fn is_meant(link: Text, targets: Seq<(Text, Text)>, name: Text) -> bool {
    exists|j: int|
        0 <= j < targets.len() && may_mean(link, (#[trigger] targets[j]).0) && targets[j].1 == name
}

proof fn lemma_candidates(link: Text, targets: Seq<(Text, Text)>)
    ensures
        forall|j: int|
            0 <= j < targets.len() && may_mean(link, (#[trigger] targets[j]).0) ==> candidates(
                link,
                targets,
            ).contains(targets[j].1),
        forall|k: int|
            0 <= k < candidates(link, targets).len() ==> is_meant(
                link,
                targets,
                #[trigger] candidates(link, targets)[k],
            ),
{
    let p = |t: (Text, Text)| close_to(link, t.0);
    let hits = candidates(link, targets);
    let f = targets.filter(p);
    assert(hits.len() == f.len());
    assert forall|j: int|
        0 <= j < targets.len() && may_mean(link, (#[trigger] targets[j]).0) implies hits.contains(
        targets[j].1,
    ) by {
        lemma_close(link, targets[j].0);
        lemma_filter_keeps(targets, p, targets[j]);
        let k = choose|k: int| 0 <= k < f.len() && f[k] == targets[j];
        assert(hits[k] == targets[j].1);
    }
    assert forall|k: int| 0 <= k < hits.len() implies is_meant(link, targets, #[trigger] hits[k]) by {
        lemma_filter_holds(targets, p, k);
        let j = choose|j: int| 0 <= j < targets.len() && targets[j] == f[k];
        lemma_close(link, targets[j].0);
        assert(may_mean(link, targets[j].0) && targets[j].1 == hits[k]);
    }
}

/// A link that may mean one name only, and is not that name already, is repaired
/// to it.
pub proof fn unambiguous_link_is_repaired(link: Text, targets: Seq<(Text, Text)>, k: int)
    requires
        0 <= k < targets.len(),
        normalized(link).len() >= 5,
        may_mean(normalized(link), targets[k].0),
        forall|j: int|
            0 <= j < targets.len() && may_mean(normalized(link), (#[trigger] targets[j]).0)
                ==> targets[j].1 == targets[k].1,
        targets[k].1 != link,
    ensures
        repaired(link, targets) == Some(targets[k].1),
{
    let nl = normalized(link);
    lemma_candidates(nl, targets);
    let hits = candidates(nl, targets);
    assert(hits.contains(targets[k].1));
    assert forall|i: int| 0 <= i < hits.len() implies #[trigger] hits[i] == targets[k].1 by {
        assert(is_meant(nl, targets, hits[i]));
        let j = choose|j: int|
            0 <= j < targets.len() && may_mean(nl, (#[trigger] targets[j]).0) && targets[j].1
                == hits[i];
    }
    assert(hits[0] == targets[k].1);
}

/// A link is left alone if it is short, if it may mean nothing, if it may mean two
/// things, or if it is the name that it means.
pub proof fn other_links_are_left_alone(link: Text, targets: Seq<(Text, Text)>)
    requires
        normalized(link).len() < 5 || (forall|j: int|
            0 <= j < targets.len() ==> !may_mean(normalized(link), (#[trigger] targets[j]).0)) || (
        exists|i: int, j: int|
            0 <= i < targets.len() && 0 <= j < targets.len() && may_mean(
                normalized(link),
                (#[trigger] targets[i]).0,
            ) && may_mean(normalized(link), (#[trigger] targets[j]).0) && targets[i].1
                != targets[j].1) || (exists|j: int|
            0 <= j < targets.len() && may_mean(normalized(link), (#[trigger] targets[j]).0)
                && targets[j].1 == link),
    ensures
        repaired(link, targets) is None,
{
    let nl = normalized(link);
    lemma_candidates(nl, targets);
    let hits = candidates(nl, targets);
    if repaired(link, targets) is Some {
        assert(is_meant(nl, targets, hits[0]));
        let k = choose|k: int|
            0 <= k < targets.len() && may_mean(nl, (#[trigger] targets[k]).0) && targets[k].1
                == hits[0];
        assert(may_mean(nl, targets[k].0));
        assert forall|j: int| 0 <= j < targets.len() && may_mean(nl, (#[trigger] targets[j]).0) implies targets[j].1
            == hits[0] by {
            let i = choose|i: int| 0 <= i < hits.len() && hits[i] == targets[j].1;
            assert(hits[i] == hits[0]);
        }
    }
}

/// Whether a link leads to a memory: in small letters and without punctuation it is
/// the memory's file without `.md`, or the memory's name.
pub open spec fn leads_to(link: Text, m: Memory) -> bool {
    normalized(link) == normalized(stem(m.file)) || normalized(link) == normalized(m.name)
}

/// A file's name is its stem with `.md` behind it, as often as it stands there.
pub proof fn stem_cuts_the_ending(file: Text)
    ensures
        !ends(stem(file), ".md"@),
        stem(file + ".md"@) == stem(file),
        !ends(file, ".md"@) ==> stem(file) == file,
{
    reveal_strlit(".md");
    lemma_without_ends(file, ".md"@);
    let s = file + ".md"@;
    assert(s.skip(s.len() - 3) =~= ".md"@);
    assert(s.take(s.len() - 3) =~= file);
}

proof fn lemma_without_ends(s: Text, p: Text)
    requires
        p.len() > 0,
    ensures
        !ends(without_suffixes(s, p), p),
    decreases s.len(),
{
    if ends(s, p) {
        lemma_without_ends(s.take(s.len() - p.len()), p);
    }
}

proof fn lemma_target(mems: Seq<Memory>, link: Text)
    ensures
        match target(mems, normalized(link)) {
            Some(f) => exists|i: int|
                {
                    &&& 0 <= i < mems.len()
                    &&& leads_to(link, #[trigger] mems[i])
                    &&& mems[i].file == f
                    &&& forall|j: int| i < j < mems.len() ==> !leads_to(link, #[trigger] mems[j])
                },
            None => forall|i: int| 0 <= i < mems.len() ==> !leads_to(link, #[trigger] mems[i]),
        },
    decreases mems.len(),
{
    if mems.len() > 0 {
        let head = mems.drop_last();
        let last = mems[mems.len() - 1];
        lemma_target(head, link);
        if leads_to(link, last) {
            assert(target(mems, normalized(link)) == Some(last.file));
        } else {
            assert(target(mems, normalized(link)) == target(head, normalized(link)));
            match target(head, normalized(link)) {
                Some(f) => {
                    let i = choose|i: int|
                        {
                            &&& 0 <= i < head.len()
                            &&& leads_to(link, #[trigger] head[i])
                            &&& head[i].file == f
                            &&& forall|j: int|
                                i < j < head.len() ==> !leads_to(link, #[trigger] head[j])
                        };
                    assert(leads_to(link, mems[i]) && mems[i].file == f);
                    assert forall|j: int| i < j < mems.len() implies !leads_to(
                        link,
                        #[trigger] mems[j],
                    ) by {
                        if j < head.len() {
                            assert(head[j] == mems[j]);
                        }
                    }
                },
                None => {
                    assert forall|i: int| 0 <= i < mems.len() implies !leads_to(
                        link,
                        #[trigger] mems[i],
                    ) by {
                        if i < head.len() {
                            assert(head[i] == mems[i]);
                        }
                    }
                },
            }
        }
    }
}

/// A link by a memory's file or by its name leads somewhere; where no other memory
/// has that file or name, it leads to that memory.
pub proof fn file_and_name_lead_to_a_memory(mems: Seq<Memory>, i: int, link: Text)
    requires
        0 <= i < mems.len(),
        normalized(link) == normalized(stem(mems[i].file)) || normalized(link) == normalized(
            mems[i].name,
        ),
    ensures
        target(mems, normalized(link)) is Some,
        (forall|j: int| 0 <= j < mems.len() && j != i ==> !leads_to(link, #[trigger] mems[j]))
            ==> target(mems, normalized(link)) == Some(mems[i].file),
        (forall|j: int| i < j < mems.len() ==> !leads_to(link, #[trigger] mems[j])) ==> target(
            mems,
            normalized(link),
        ) == Some(mems[i].file),
{
    lemma_target(mems, link);
    assert(leads_to(link, mems[i]));
    if forall|j: int| i < j < mems.len() ==> !leads_to(link, #[trigger] mems[j]) {
        let k = choose|k: int|
            {
                &&& 0 <= k < mems.len()
                &&& leads_to(link, #[trigger] mems[k])
                &&& Some(mems[k].file) == target(mems, normalized(link))
                &&& forall|j: int| k < j < mems.len() ==> !leads_to(link, #[trigger] mems[j])
            };
        assert(k == i);
    }
}

/// A link leads nowhere exactly where no memory has it for its file or its name.
pub proof fn broken_means_no_such_memory(mems: Seq<Memory>, link: Text)
    ensures
        target(mems, normalized(link)) is None <==> forall|i: int|
            0 <= i < mems.len() ==> !leads_to(link, #[trigger] mems[i]),
        target(mems, normalized(link)) matches Some(f) ==> exists|i: int|
            0 <= i < mems.len() && leads_to(link, #[trigger] mems[i]) && mems[i].file == f,
{
    lemma_target(mems, link);
}

/// Whether some link makes an edge.
spec fn makes_edge(mems: Seq<Memory>, todo: Seq<Memory>, e: (Text, Text)) -> bool {
    exists|i: int, l: Text|
        {
            &&& 0 <= i < todo.len()
            &&& (#[trigger] todo[i]).links.contains(l)
            &&& e.0 == todo[i].file
            &&& Some(e.1) == target(mems, #[trigger] normalized(l))
        }
}

proof fn lemma_edges(mems: Seq<Memory>, todo: Seq<Memory>)
    ensures
        forall|k: int|
            0 <= k < edges_of(mems, todo).len() ==> makes_edge(
                mems,
                todo,
                #[trigger] edges_of(mems, todo)[k],
            ),
        forall|i: int, l: Text|
            0 <= i < todo.len() && (#[trigger] todo[i]).links.contains(l) && target(
                mems,
                #[trigger] normalized(l),
            ) is Some ==> edges_of(mems, todo).contains(
                (todo[i].file, target(mems, normalized(l))->0),
            ),
    decreases todo.len(),
{
    if todo.len() > 0 {
        let head = todo.drop_last();
        let m = todo[todo.len() - 1];
        let p = |l: Text| target(mems, normalized(l)) is Some;
        let old = edges_of(mems, head);
        let new = edges_from(mems, m.file, m.links);
        let all = edges_of(mems, todo);
        lemma_edges(mems, head);
        assert(all == old + new);
        assert forall|k: int| 0 <= k < all.len() implies makes_edge(mems, todo, #[trigger] all[k]) by {
            if k < old.len() {
                assert(all[k] == old[k]);
                assert(makes_edge(mems, head, old[k]));
                let (i, l) = choose|i: int, l: Text|
                    {
                        &&& 0 <= i < head.len()
                        &&& (#[trigger] head[i]).links.contains(l)
                        &&& old[k].0 == head[i].file
                        &&& Some(old[k].1) == target(mems, #[trigger] normalized(l))
                    };
                assert(todo[i] == head[i]);
                assert(Some(all[k].1) == target(mems, normalized(l)));
            } else {
                let j = k - old.len();
                assert(all[k] == new[j]);
                lemma_filter_holds(m.links, p, j);
                let l = m.links.filter(p)[j];
                assert(todo[todo.len() - 1].links.contains(l));
                assert(Some(all[k].1) == target(mems, normalized(l)));
            }
        }
        assert forall|i: int, l: Text|
            0 <= i < todo.len() && (#[trigger] todo[i]).links.contains(l) && target(
                mems,
                #[trigger] normalized(l),
            ) is Some implies all.contains((todo[i].file, target(mems, normalized(l))->0)) by {
            let e = (todo[i].file, target(mems, normalized(l))->0);
            if i < head.len() {
                assert(head[i] == todo[i]);
                let k = choose|k: int| 0 <= k < old.len() && old[k] == e;
                assert(all[k] == e);
            } else {
                lemma_filter_keeps(m.links, p, l);
                let j = choose|j: int| 0 <= j < m.links.filter(p).len() && m.links.filter(p)[j] == l;
                assert(new[j] == e);
                assert(all[old.len() + j] == e);
            }
        }
    }
}

/// There is an edge from a memory's file to another's where the memory holds a link
/// that leads to the other and to no memory behind it, and there is no edge but
/// such ones.
pub proof fn edges_are_the_links_that_lead_somewhere(mems: Seq<Memory>, e: (Text, Text))
    ensures
        edges_of(mems, mems).contains(e) <==> exists|i: int, j: int, l: Text|
            {
                &&& 0 <= i < mems.len()
                &&& 0 <= j < mems.len()
                &&& e == (mems[i].file, mems[j].file)
                &&& #[trigger] mems[i].links.contains(l)
                &&& #[trigger] leads_to(l, mems[j])
                &&& forall|k: int| j < k < mems.len() ==> !leads_to(l, #[trigger] mems[k])
            },
{
    let all = edges_of(mems, mems);
    lemma_edges(mems, mems);
    if all.contains(e) {
        let k = choose|k: int| 0 <= k < all.len() && all[k] == e;
        assert(makes_edge(mems, mems, all[k]));
        let (i, l) = choose|i: int, l: Text|
            {
                &&& 0 <= i < mems.len()
                &&& (#[trigger] mems[i]).links.contains(l)
                &&& all[k].0 == mems[i].file
                &&& Some(all[k].1) == target(mems, #[trigger] normalized(l))
            };
        lemma_target(mems, l);
        let j = choose|j: int|
            {
                &&& 0 <= j < mems.len()
                &&& leads_to(l, #[trigger] mems[j])
                &&& mems[j].file == e.1
                &&& forall|k: int| j < k < mems.len() ==> !leads_to(l, #[trigger] mems[k])
            };
        assert(mems[i].links.contains(l) && leads_to(l, mems[j]));
    }
    if exists|i: int, j: int, l: Text|
        {
            &&& 0 <= i < mems.len()
            &&& 0 <= j < mems.len()
            &&& e == (mems[i].file, mems[j].file)
            &&& #[trigger] mems[i].links.contains(l)
            &&& #[trigger] leads_to(l, mems[j])
            &&& forall|k: int| j < k < mems.len() ==> !leads_to(l, #[trigger] mems[k])
        } {
        let (i, j, l) = choose|i: int, j: int, l: Text|
            {
                &&& 0 <= i < mems.len()
                &&& 0 <= j < mems.len()
                &&& e == (mems[i].file, mems[j].file)
                &&& #[trigger] mems[i].links.contains(l)
                &&& #[trigger] leads_to(l, mems[j])
                &&& forall|k: int| j < k < mems.len() ==> !leads_to(l, #[trigger] mems[k])
            };
        file_and_name_lead_to_a_memory(mems, j, l);
        assert(target(mems, normalized(l)) is Some);
    }
}

/// What a memory can be meant by: its file and its name, and what it is then called
/// is its name.
pub proof fn targets_are_files_and_names(mems: Seq<Memory>, key: Text, name: Text)
    ensures
        targets_of(mems).contains((key, name)) <==> exists|i: int|
            0 <= i < mems.len() && (#[trigger] mems[i]).name == name && (key == normalized(
                stem(mems[i].file),
            ) || key == normalized(name)),
    decreases mems.len(),
{
    let all = targets_of(mems);
    let x = (key, name);
    if mems.len() > 0 {
        let head = mems.drop_last();
        let old = targets_of(head);
        let m = mems[mems.len() - 1];
        targets_are_files_and_names(head, key, name);
        let a = (normalized(stem(m.file)), m.name);
        let b = (normalized(m.name), m.name);
        assert(all == old.push(a).push(b));
        if all.contains(x) {
            let k = choose|k: int| 0 <= k < all.len() && all[k] == x;
            if k < old.len() {
                assert(old[k] == x);
                let i = choose|i: int|
                    0 <= i < head.len() && (#[trigger] head[i]).name == name && (key == normalized(
                        stem(head[i].file),
                    ) || key == normalized(name));
                assert(mems[i] == head[i]);
            } else {
                assert(mems[mems.len() - 1].name == name);
            }
        }
        if exists|i: int|
            0 <= i < mems.len() && (#[trigger] mems[i]).name == name && (key == normalized(
                stem(mems[i].file),
            ) || key == normalized(name)) {
            let i = choose|i: int|
                0 <= i < mems.len() && (#[trigger] mems[i]).name == name && (key == normalized(
                    stem(mems[i].file),
                ) || key == normalized(name));
            if i < head.len() {
                assert(head[i] == mems[i]);
                let k = choose|k: int| 0 <= k < old.len() && old[k] == x;
                assert(all[k] == x);
            } else if x == a {
                assert(all[old.len() as int] == x);
            } else {
                assert(all[old.len() as int + 1] == x);
            }
        }
    }
}

/// Whether a link may mean a memory, by its file or by its name.
pub open spec fn may_mean_memory(link: Text, m: Memory) -> bool {
    may_mean(normalized(link), normalized(stem(m.file))) || may_mean(
        normalized(link),
        normalized(m.name),
    )
}

/// Whether a broken link can be repaired: it is long enough, may mean some memory,
/// and every memory that it may mean is called `name`, which is not how it is
/// written already.
pub open spec fn is_repairable(mems: Seq<Memory>, link: Text, name: Text) -> bool {
    &&& normalized(link).len() >= 5
    &&& name != link
    &&& exists|i: int| 0 <= i < mems.len() && may_mean_memory(link, #[trigger] mems[i])
    &&& forall|i: int|
        0 <= i < mems.len() && may_mean_memory(link, #[trigger] mems[i]) ==> mems[i].name == name
}

/// A link is repaired to a name exactly where that name is all that it may mean.
pub proof fn repair_is_the_one_meaning(mems: Seq<Memory>, link: Text, name: Text)
    ensures
        repaired(link, targets_of(mems)) == Some(name) <==> is_repairable(mems, link, name),
{
    let ts = targets_of(mems);
    let nl = normalized(link);
    assert forall|j: int| 0 <= j < ts.len() && may_mean(nl, (#[trigger] ts[j]).0) implies exists|i: int|
        0 <= i < mems.len() && may_mean_memory(link, #[trigger] mems[i]) && mems[i].name
            == ts[j].1 by {
        assert(ts.contains(ts[j]));
        targets_are_files_and_names(mems, ts[j].0, ts[j].1);
        let i = choose|i: int|
            0 <= i < mems.len() && (#[trigger] mems[i]).name == ts[j].1 && (ts[j].0 == normalized(
                stem(mems[i].file),
            ) || ts[j].0 == normalized(ts[j].1));
        assert(may_mean_memory(link, mems[i]));
    }
    assert forall|i: int| 0 <= i < mems.len() && may_mean_memory(link, #[trigger] mems[i]) implies exists|
        j: int,
    | 0 <= j < ts.len() && may_mean(nl, (#[trigger] ts[j]).0) && ts[j].1 == mems[i].name by {
        let key = if may_mean(nl, normalized(stem(mems[i].file))) {
            normalized(stem(mems[i].file))
        } else {
            normalized(mems[i].name)
        };
        targets_are_files_and_names(mems, key, mems[i].name);
        assert(mems[i].name == mems[i].name);
        let j = choose|j: int| 0 <= j < ts.len() && ts[j] == (key, mems[i].name);
        assert(may_mean(nl, ts[j].0));
    }
    if is_repairable(mems, link, name) {
        let i = choose|i: int| 0 <= i < mems.len() && may_mean_memory(link, #[trigger] mems[i]);
        let k = choose|k: int|
            0 <= k < ts.len() && may_mean(nl, (#[trigger] ts[k]).0) && ts[k].1 == mems[i].name;
        assert forall|j: int| 0 <= j < ts.len() && may_mean(nl, (#[trigger] ts[j]).0) implies ts[j].1
            == ts[k].1 by {
            let a = choose|a: int|
                0 <= a < mems.len() && may_mean_memory(link, #[trigger] mems[a]) && mems[a].name
                    == ts[j].1;
        }
        unambiguous_link_is_repaired(link, ts, k);
    }
    if repaired(link, ts) == Some(name) {
        if normalized(link).len() < 5 || forall|j: int|
            0 <= j < ts.len() ==> !may_mean(nl, (#[trigger] ts[j]).0) {
            other_links_are_left_alone(link, ts);
        }
        let k = choose|k: int| 0 <= k < ts.len() && may_mean(nl, (#[trigger] ts[k]).0);
        let i = choose|i: int|
            0 <= i < mems.len() && may_mean_memory(link, #[trigger] mems[i]) && mems[i].name
                == ts[k].1;
        assert forall|j: int| 0 <= j < ts.len() && may_mean(nl, (#[trigger] ts[j]).0) implies ts[j].1
            == ts[k].1 by {
            if ts[j].1 != ts[k].1 {
                other_links_are_left_alone(link, ts);
            }
        }
        if ts[k].1 == link {
            other_links_are_left_alone(link, ts);
        }
        unambiguous_link_is_repaired(link, ts, k);
        assert(name == ts[k].1);
        assert forall|a: int| 0 <= a < mems.len() && may_mean_memory(link, #[trigger] mems[a]) implies mems[a].name
            == name by {
            let j = choose|j: int|
                0 <= j < ts.len() && may_mean(nl, (#[trigger] ts[j]).0) && ts[j].1 == mems[a].name;
        }
    }
}

proof fn lemma_plan(mems: Seq<Memory>, todo: Seq<Memory>, file: Text, link: Text)
    ensures
        forall|name: Text| #[trigger]
            fixable_of(mems, todo).contains((file, link, name)) <==> (repaired(
                link,
                targets_of(mems),
            ) == Some(name) && target(mems, normalized(link)) is None && exists|i: int|
                0 <= i < todo.len() && (#[trigger] todo[i]).file == file && todo[i].links.contains(
                    link,
                )),
        unresolved_of(mems, todo).contains((file, link)) <==> (repaired(link, targets_of(mems)) is None
            && target(mems, normalized(link)) is None && exists|i: int|
            0 <= i < todo.len() && (#[trigger] todo[i]).file == file && todo[i].links.contains(link)),
    decreases todo.len(),
{
    let ts = targets_of(mems);
    let fixes = fixable_of(mems, todo);
    let left = unresolved_of(mems, todo);
    if todo.len() > 0 {
        let head = todo.drop_last();
        let m = todo[todo.len() - 1];
        let broken = broken_links(mems, m.links);
        let b = |l: Text| target(mems, normalized(l)) is None;
        let p = |l: Text| repaired(l, ts) is Some;
        let q = |l: Text| repaired(l, ts) is None;
        let f0 = fixable_of(mems, head);
        let l0 = unresolved_of(mems, head);
        let f1 = fixes_from(ts, m.file, broken);
        let l1 = rest_from(ts, m.file, broken);
        lemma_plan(mems, head, file, link);
        let here = exists|i: int|
            0 <= i < todo.len() && (#[trigger] todo[i]).file == file && todo[i].links.contains(link);
        let before = exists|i: int|
            0 <= i < head.len() && (#[trigger] head[i]).file == file && head[i].links.contains(link);
        assert(here <==> before || m.file == file && m.links.contains(link)) by {
            if here {
                let i = choose|i: int|
                    0 <= i < todo.len() && (#[trigger] todo[i]).file == file
                        && todo[i].links.contains(link);
                if i < head.len() {
                    assert(head[i] == todo[i]);
                }
            }
            if before {
                let i = choose|i: int|
                    0 <= i < head.len() && (#[trigger] head[i]).file == file
                        && head[i].links.contains(link);
                assert(todo[i] == head[i]);
            }
            if m.file == file && m.links.contains(link) {
                assert(todo[todo.len() - 1].links.contains(link));
            }
        }
        if m.links.contains(link) && b(link) {
            lemma_filter_keeps(m.links, b, link);
            if p(link) {
                lemma_filter_keeps(broken, p, link);
                let k = choose|k: int| 0 <= k < broken.filter(p).len() && broken.filter(p)[k] == link;
                assert(f1[k] == (m.file, link, repaired(link, ts)->0));
            } else {
                lemma_filter_keeps(broken, q, link);
                let k = choose|k: int| 0 <= k < broken.filter(q).len() && broken.filter(q)[k] == link;
                assert(l1[k] == (m.file, link));
            }
        }
        assert forall|name: Text| #[trigger] f1.contains((file, link, name)) implies m.file == file
            && m.links.contains(link) && b(link) && repaired(link, ts) == Some(name) by {
            let k = choose|k: int| 0 <= k < f1.len() && f1[k] == (file, link, name);
            lemma_filter_holds(broken, p, k);
            let j = choose|j: int| 0 <= j < broken.len() && broken[j] == link;
            lemma_filter_holds(m.links, b, j);
        }
        if l1.contains((file, link)) {
            let k = choose|k: int| 0 <= k < l1.len() && l1[k] == (file, link);
            lemma_filter_holds(broken, q, k);
            let j = choose|j: int| 0 <= j < broken.len() && broken[j] == link;
            lemma_filter_holds(m.links, b, j);
        }
        assert(fixes == f0 + f1);
        assert(left == l0 + l1);
        assert forall|name: Text| #[trigger] fixes.contains((file, link, name)) <==> (f0.contains(
            (file, link, name),
        ) || f1.contains((file, link, name))) by {
            lemma_contains_sum(f0, f1, (file, link, name));
        }
        lemma_contains_sum(l0, l1, (file, link));
    }
}

proof fn lemma_contains_sum<A>(a: Seq<A>, b: Seq<A>, x: A)
    ensures
        (a + b).contains(x) <==> a.contains(x) || b.contains(x),
{
    let s = a + b;
    if a.contains(x) {
        let k = choose|k: int| 0 <= k < a.len() && a[k] == x;
        assert(s[k] == x);
    }
    if b.contains(x) {
        let k = choose|k: int| 0 <= k < b.len() && b[k] == x;
        assert(s[a.len() + k] == x);
    }
    if s.contains(x) {
        let k = choose|k: int| 0 <= k < s.len() && s[k] == x;
        if k < a.len() {
            assert(a[k] == x);
        } else {
            assert(b[k - a.len()] == x);
        }
    }
}

/// Whether a link of a file leads to no memory.
pub open spec fn is_broken_in(mems: Seq<Memory>, file: Text, link: Text) -> bool {
    &&& exists|i: int|
        0 <= i < mems.len() && (#[trigger] mems[i]).file == file && mems[i].links.contains(link)
    &&& forall|i: int| 0 <= i < mems.len() ==> !leads_to(link, #[trigger] mems[i])
}

/// A repair is planned exactly for the links that lead to no memory and may mean one
/// name only.
pub proof fn planned_are_the_repairable_links(
    mems: Seq<Memory>,
    file: Text,
    link: Text,
    name: Text,
)
    ensures
        fixable_of(mems, mems).contains((file, link, name)) <==> is_broken_in(mems, file, link)
            && is_repairable(mems, link, name),
{
    lemma_plan(mems, mems, file, link);
    broken_means_no_such_memory(mems, link);
    repair_is_the_one_meaning(mems, link, name);
    assert(fixable_of(mems, mems).contains((file, link, name)) <==> (repaired(
        link,
        targets_of(mems),
    ) == Some(name) && target(mems, normalized(link)) is None && exists|i: int|
        0 <= i < mems.len() && (#[trigger] mems[i]).file == file && mems[i].links.contains(link)));
}

/// The links that are left as they are are exactly those that lead to no memory and
/// have no one name that they may mean.
pub proof fn unresolved_are_the_other_broken_links(mems: Seq<Memory>, file: Text, link: Text)
    ensures
        unresolved_of(mems, mems).contains((file, link)) <==> is_broken_in(mems, file, link)
            && forall|name: Text| !#[trigger] is_repairable(mems, link, name),
{
    lemma_plan(mems, mems, file, link);
    broken_means_no_such_memory(mems, link);
    let ts = targets_of(mems);
    if repaired(link, ts) is Some {
        repair_is_the_one_meaning(mems, link, repaired(link, ts)->0);
    } else {
        assert forall|name: Text| !#[trigger] is_repairable(mems, link, name) by {
            repair_is_the_one_meaning(mems, link, name);
        }
    }
}

} // verus!

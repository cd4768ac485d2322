//! What an analysis says of the memories that it was made of.
use crate::analysis::{
    edges_of, files_where, hints, is_flagged, is_knowledge, is_linked, is_oversized,
    lemma_filter_holds, link_count, links_are_edges_or_broken, oversized_files, pool, weights,
    Analysis,
};
use crate::counts::{count_in, counts_name, occurrences, Count};
use crate::link_laws::{found_means_inside, inside};
use crate::links::pairs;
use crate::memory::Memory;
use crate::order::{ranked, text_less};
use crate::order_laws::larger_counts_come_first;
use crate::repair_laws::lemma_filter_keeps;
use crate::reservation::{collisions, is_active, Reservation};
use crate::reserve_laws::lemma_filter_same;
use crate::text::{contains, texts, Text};
use vstd::prelude::*;

verus! {

/// What is selected from memories by a condition.
proof fn lemma_files_where(mems: Seq<Memory>, p: spec_fn(Memory) -> bool, file: Text)
    ensures
        files_where(mems, p).contains(file) <==> exists|i: int|
            0 <= i < mems.len() && p(#[trigger] mems[i]) && mems[i].file == file,
{
    let out = files_where(mems, p);
    if out.contains(file) {
        let k = choose|k: int| 0 <= k < out.len() && out[k] == file;
        lemma_filter_holds(mems, p, k);
        let i = choose|i: int| 0 <= i < mems.len() && mems[i] == mems.filter(p)[k];
        assert(p(mems[i]) && mems[i].file == file);
    }
    if exists|i: int| 0 <= i < mems.len() && p(#[trigger] mems[i]) && mems[i].file == file {
        let i = choose|i: int| 0 <= i < mems.len() && p(#[trigger] mems[i]) && mems[i].file == file;
        lemma_filter_keeps(mems, p, mems[i]);
        let k = choose|k: int| 0 <= k < mems.filter(p).len() && mems.filter(p)[k] == mems[i];
        assert(out[k] == file);
    }
}

/// A memory is isolated exactly where no edge begins or ends at its file, unless it is
/// the record of a reservation.
pub proof fn isolated_are_the_memories_without_edges(
    a: Analysis,
    mems: Seq<Memory>,
    rs: Seq<Reservation>,
    index: Text,
    file: Text,
)
    requires
        a.describes(mems, rs, index),
    ensures
        texts(a.isolated@).contains(file) <==> exists|i: int|
            {
                &&& 0 <= i < mems.len()
                &&& (#[trigger] mems[i]).file == file
                &&& mems[i].typ != "reservation"@
                &&& forall|x: Text|
                    !(#[trigger] pairs(a.edges@).contains((file, x))) && !pairs(a.edges@).contains(
                        (x, file),
                    )
            },
{
    let edges = edges_of(mems, mems);
    let p = |m: Memory| !is_linked(edges, m.file) && is_knowledge(m);
    lemma_files_where(mems, p, file);
    let free = forall|x: Text|
        !(#[trigger] pairs(a.edges@).contains((file, x))) && !pairs(a.edges@).contains((x, file));
    assert(free == !is_linked(edges, file)) by {
        if is_linked(edges, file) {
            let i = choose|i: int|
                0 <= i < edges.len() && ((#[trigger] edges[i]).0 == file || edges[i].1 == file);
            if edges[i].0 == file {
                assert(edges.contains((file, edges[i].1)));
            } else {
                assert(edges.contains((edges[i].0, file)));
                assert(!edges.contains((file, edges[i].0)) || !free);
            }
        } else {
            assert forall|x: Text|
                !(#[trigger] edges.contains((file, x))) && !edges.contains((x, file)) by {
                if edges.contains((file, x)) {
                    let i = choose|i: int| 0 <= i < edges.len() && edges[i] == (file, x);
                    assert(edges[i].0 == file);
                }
                if edges.contains((x, file)) {
                    let i = choose|i: int| 0 <= i < edges.len() && edges[i] == (x, file);
                    assert(edges[i].1 == file);
                }
            }
        }
    }
    if exists|i: int| 0 <= i < mems.len() && p(#[trigger] mems[i]) && mems[i].file == file {
        let i = choose|i: int| 0 <= i < mems.len() && p(#[trigger] mems[i]) && mems[i].file == file;
        assert(mems[i].typ != "reservation"@);
    }
    if free && exists|i: int|
        0 <= i < mems.len() && (#[trigger] mems[i]).file == file && mems[i].typ != "reservation"@ {
        let i = choose|i: int|
            0 <= i < mems.len() && (#[trigger] mems[i]).file == file && mems[i].typ
                != "reservation"@;
        assert(p(mems[i]));
    }
}

/// A memory is flagged for splitting exactly where it takes more than two thousand
/// tokens, unless it is the record of a reservation; the largest comes first.
pub proof fn oversized_take_more_than_two_thousand_tokens(
    a: Analysis,
    mems: Seq<Memory>,
    rs: Seq<Reservation>,
    index: Text,
    file: Text,
)
    requires
        a.describes(mems, rs, index),
    ensures
        texts(a.oversized@).contains(file) <==> exists|i: int|
            0 <= i < mems.len() && (#[trigger] mems[i]).file == file && mems[i].tok > 2000
                && mems[i].typ != "reservation"@,
{
    let p = |m: Memory| is_oversized(m);
    let kept = mems.filter(p);
    let ws = weights(kept);
    let r = ranked::<Count>(ws);
    let out = oversized_files(mems);
    larger_counts_come_first(ws);
    broadcast use vstd::seq_lib::group_to_multiset_ensures;

    if out.contains(file) {
        let k = choose|k: int| 0 <= k < out.len() && out[k] == file;
        assert(r.contains(r[k]));
        assert(r.to_multiset().count(r[k]) > 0);
        assert(ws.to_multiset().count(r[k]) > 0);
        assert(ws.contains(r[k]));
        let j = choose|j: int| 0 <= j < ws.len() && ws[j] == r[k];
        lemma_filter_holds(mems, p, j);
        let i = choose|i: int| 0 <= i < mems.len() && mems[i] == kept[j];
        assert(mems[i].file == file);
    }
    if exists|i: int|
        0 <= i < mems.len() && (#[trigger] mems[i]).file == file && mems[i].tok > 2000
            && mems[i].typ != "reservation"@ {
        let i = choose|i: int|
            0 <= i < mems.len() && (#[trigger] mems[i]).file == file && mems[i].tok > 2000
                && mems[i].typ != "reservation"@;
        lemma_filter_keeps(mems, p, mems[i]);
        let j = choose|j: int| 0 <= j < kept.len() && kept[j] == mems[i];
        assert(ws[j] == (file, mems[i].tok));
        assert(ws.to_multiset().count(ws[j]) > 0);
        assert(r.to_multiset().count(ws[j]) > 0);
        assert(r.contains(ws[j]));
        let k = choose|k: int| 0 <= k < r.len() && r[k] == ws[j];
        assert(out[k] == file);
    }
}

/// The files that are flagged for splitting stand with the largest first.
pub proof fn the_largest_is_flagged_first(mems: Seq<Memory>, i: int, j: int)
    requires
        0 <= i < j < oversized_files(mems).len(),
    ensures
        exists|x: nat, y: nat| #[trigger]
            weights(mems).contains((oversized_files(mems)[i], x)) && #[trigger] weights(
                mems,
            ).contains((oversized_files(mems)[j], y)) && x >= y,
{
    let p = |m: Memory| is_oversized(m);
    let kept = mems.filter(p);
    let ws = weights(kept);
    let r = ranked::<Count>(ws);
    larger_counts_come_first(ws);
    broadcast use vstd::seq_lib::group_to_multiset_ensures;

    assert forall|k: int| 0 <= k < r.len() implies #[trigger] weights(mems).contains(r[k]) by {
        assert(r.contains(r[k]));
        assert(r.to_multiset().count(r[k]) > 0);
        assert(ws.to_multiset().count(r[k]) > 0);
        assert(ws.contains(r[k]));
        let b = choose|b: int| 0 <= b < ws.len() && ws[b] == r[k];
        lemma_filter_holds(mems, p, b);
        let c = choose|c: int| 0 <= c < mems.len() && mems[c] == kept[b];
        assert(weights(mems)[c] == r[k]);
    }
    assert(weights(mems).contains(r[i]));
    assert(weights(mems).contains(r[j]));
    assert(r[i] == (oversized_files(mems)[i], r[i].1));
    assert(r[j] == (oversized_files(mems)[j], r[j].1));
}

/// Whether a file's name holds a word that makes it look like one for every machine.
pub open spec fn looks_shared(file: Text) -> bool {
    ||| inside("mimir"@, file)
    ||| inside("mac_mini"@, file)
    ||| inside("macmini"@, file)
    ||| inside("machine"@, file)
    ||| inside("checkout"@, file)
    ||| inside("cadence"@, file)
    ||| inside("zsh"@, file)
    ||| inside("commit"@, file)
    ||| inside("backup"@, file)
    ||| inside("deploy"@, file)
}

proof fn lemma_looks_shared(file: Text)
    ensures
        looks_shared(file) <==> exists|i: int|
            0 <= i < hints().len() && contains(file, #[trigger] hints()[i]),
{
    let hs = hints();
    assert forall|i: int| 0 <= i < hs.len() implies contains(file, #[trigger] hs[i]) == inside(
        hs[i],
        file,
    ) by {
        found_means_inside(file, hs[i]);
    }
    assert(hs.len() == 10);
    assert(hs[0] == "mimir"@ && hs[1] == "mac_mini"@ && hs[2] == "macmini"@ && hs[3] == "machine"@);
    assert(hs[4] == "checkout"@ && hs[5] == "cadence"@ && hs[6] == "zsh"@ && hs[7] == "commit"@);
    assert(hs[8] == "backup"@ && hs[9] == "deploy"@);
}

/// A memory is proposed for sharing exactly where it is local, is no reservation, and
/// its file's name holds one of the words that speak of machines or of work in common.
pub proof fn proposed_are_local_files_that_look_shared(
    a: Analysis,
    mems: Seq<Memory>,
    rs: Seq<Reservation>,
    index: Text,
    file: Text,
)
    requires
        a.describes(mems, rs, index),
    ensures
        texts(a.scope_flags@).contains(file) <==> looks_shared(file) && exists|i: int|
            0 <= i < mems.len() && (#[trigger] mems[i]).file == file && !mems[i].shared
                && mems[i].typ != "reservation"@,
{
    let p = |m: Memory| is_flagged(m);
    lemma_files_where(mems, p, file);
    lemma_looks_shared(file);
    if looks_shared(file) && exists|i: int|
        0 <= i < mems.len() && (#[trigger] mems[i]).file == file && !mems[i].shared && mems[i].typ
            != "reservation"@ {
        let i = choose|i: int|
            0 <= i < mems.len() && (#[trigger] mems[i]).file == file && !mems[i].shared
                && mems[i].typ != "reservation"@;
        assert(p(mems[i]));
    }
    if exists|i: int| 0 <= i < mems.len() && p(#[trigger] mems[i]) && mems[i].file == file {
        let i = choose|i: int| 0 <= i < mems.len() && p(#[trigger] mems[i]) && mems[i].file == file;
        assert(mems[i].file == file && !mems[i].shared && mems[i].typ != "reservation"@);
    }
}

/// The numbers of an analysis: all memories, the shared ones, the links that make no
/// edge, the active reservations and the versions that are claimed twice, and how often
/// each type and each origin occurs.
pub proof fn numbers_count_what_they_say(
    a: Analysis,
    mems: Seq<Memory>,
    rs: Seq<Reservation>,
    index: Text,
    name: Text,
)
    requires
        a.describes(mems, rs, index),
    ensures
        a.n == mems.len(),
        a.shared == mems.filter(|m: Memory| m.shared).len(),
        a.broken + a.edges@.len() == link_count(mems),
        a.resv_active == rs.filter(|r: Reservation| r.status == "active"@).len(),
        a.resv_collisions == collisions(rs).len(),
        4 * a.idx_tok <= index.len() < 4 * a.idx_tok + 4,
        a.pool_tok == pool(mems),
        count_in(a.types.seq(), name) == occurrences(mems.map_values(|m: Memory| m.typ), name),
        count_in(a.origins.seq(), name) == occurrences(mems.map_values(|m: Memory| m.origin), name),
{
    links_are_edges_or_broken(mems, mems);
    assert(pairs(a.edges@).len() == a.edges@.len());
    let p = |r: Reservation| is_active(r);
    let q = |r: Reservation| r.status == "active"@;
    lemma_filter_same(rs, p, q);
}

/// The memories take together what each of them takes, and hold together the links
/// that each of them holds.
pub proof fn totals_add_up(a: Seq<Memory>, b: Seq<Memory>, m: Memory)
    ensures
        pool(a + b) == pool(a) + pool(b),
        link_count(a + b) == link_count(a) + link_count(b),
        pool(seq![m]) == m.tok,
        link_count(seq![m]) == m.links.len(),
    decreases b.len(),
{
    let none = Seq::<Memory>::empty();
    assert(seq![m].drop_last() =~= none);
    assert(pool(none) == 0 && link_count(none) == 0);
    if b.len() == 0 {
        assert(a + b =~= a);
    } else {
        assert((a + b).drop_last() =~= a + b.drop_last());
        totals_add_up(a, b.drop_last(), m);
    }
}

/// One more occurrence counts one more, and only for its own name.
pub proof fn occurrences_add_up(names: Seq<Text>, x: Text, name: Text)
    ensures
        occurrences(Seq::empty(), name) == 0,
        occurrences(names.push(x), name) == occurrences(names, name) + (if x == name {
            1nat
        } else {
            0nat
        }),
{
    reveal(Seq::filter);
    assert(names.push(x).drop_last() =~= names);
}

/// Types and origins are counted in the order of their names, each name once, and
/// exactly those that some memory has.
pub proof fn counts_go_by_name(
    a: Analysis,
    mems: Seq<Memory>,
    rs: Seq<Reservation>,
    index: Text,
    i: int,
    j: int,
)
    requires
        a.describes(mems, rs, index),
    ensures
        0 <= i < j < a.types.seq().len() ==> text_less(a.types.seq()[i].0, a.types.seq()[j].0),
        0 <= i < j < a.origins.seq().len() ==> text_less(a.origins.seq()[i].0, a.origins.seq()[j].0),
        0 <= i < a.types.seq().len() ==> exists|k: int|
            0 <= k < mems.len() && (#[trigger] mems[k]).typ == a.types.seq()[i].0,
        0 <= i < a.origins.seq().len() ==> exists|k: int|
            0 <= k < mems.len() && (#[trigger] mems[k]).origin == a.origins.seq()[i].0,
        0 <= i < mems.len() ==> exists|k: int|
            0 <= k < a.types.seq().len() && (#[trigger] a.types.seq()[k]).0 == mems[i].typ,
        0 <= i < mems.len() ==> exists|k: int|
            0 <= k < a.origins.seq().len() && (#[trigger] a.origins.seq()[k]).0 == mems[i].origin,
{
    let ts = mems.map_values(|m: Memory| m.typ);
    let os = mems.map_values(|m: Memory| m.origin);
    let t = a.types.seq();
    let o = a.origins.seq();
    if 0 <= i < t.len() {
        assert(counts_name(t, t[i].0));
        let k = choose|k: int| 0 <= k < ts.len() && ts[k] == t[i].0;
        assert(mems[k].typ == t[i].0);
    }
    if 0 <= i < o.len() {
        assert(counts_name(o, o[i].0));
        let k = choose|k: int| 0 <= k < os.len() && os[k] == o[i].0;
        assert(mems[k].origin == o[i].0);
    }
    if 0 <= i < mems.len() {
        assert(ts[i] == mems[i].typ);
        assert(os[i] == mems[i].origin);
        assert(ts.contains(mems[i].typ));
        assert(os.contains(mems[i].origin));
        assert(counts_name(t, mems[i].typ));
        assert(counts_name(o, mems[i].origin));
    }
}

} // verus!

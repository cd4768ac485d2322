//! What comes in which order: files, counts, search results, related memories.
use crate::analysis::{files_where, lemma_filter_holds};
use crate::counts::Count;
use crate::listing::listed_before;
use crate::memory::{is_memory_file, loaded, memory_files, Memory};
use crate::order::{
    ranked, ranking_orders, ranking_permutes, text_less, text_order_is_total,
    text_order_is_transitive, Ranked,
};
use crate::related::{at_hop, hops};
use crate::reservation::{Reservation, Resv};
use crate::search::{best_of, led_by, neighbours, Hit};
use crate::text::Text;
use vstd::prelude::*;

verus! {

/// Whether texts stand in order, each once.
pub open spec fn is_sorted(s: Seq<Text>) -> bool {
    forall|i: int, j: int| 0 <= i < j < s.len() ==> text_less(#[trigger] s[i], #[trigger] s[j])
}

/// Not to come before goes on.
proof fn lemma_text_not_less(a: Text, b: Text, c: Text)
    requires
        !text_less(a, b),
        !text_less(b, c),
    ensures
        !text_less(a, c),
{
    text_order_is_total(a, b);
    text_order_is_total(b, c);
    text_order_is_total(a, c);
    if text_less(a, c) {
        if a == b {
        } else if b == c {
        } else {
            text_order_is_transitive(c, b, a);
        }
    }
}

proof fn lemma_filter_distinct<A>(s: Seq<A>, p: spec_fn(A) -> bool)
    requires
        s.no_duplicates(),
    ensures
        s.filter(p).no_duplicates(),
    decreases s.len(),
{
    reveal(Seq::filter);
    if s.len() > 0 {
        let head = s.drop_last();
        assert(head.no_duplicates());
        lemma_filter_distinct(head, p);
        let f = head.filter(p);
        if p(s.last()) {
            assert forall|i: int| 0 <= i < f.len() implies f[i] != s.last() by {
                lemma_filter_holds(head, p, i);
                let k = choose|k: int| 0 <= k < head.len() && head[k] == f[i];
                assert(s[k] != s[s.len() - 1]);
            }
        }
    }
}

/// The memory files come in the order of their names.
pub proof fn memory_files_are_in_order(names: Seq<Text>)
    requires
        names.no_duplicates(),
    ensures
        is_sorted(memory_files(names)),
        forall|k: int|
            0 <= k < memory_files(names).len() ==> is_memory_file(#[trigger] memory_files(names)[k]),
{
    let p = |n: Text| is_memory_file(n);
    let f = names.filter(p);
    let r = memory_files(names);
    lemma_filter_distinct(names, p);
    ranking_permutes::<String>(f);
    assert forall|a: Text, b: Text| #[trigger] String::precedes(a, b) implies !String::precedes(b, a) by {
        text_order_is_total(a, b);
    }
    assert forall|a: Text, b: Text, c: Text|
        !(#[trigger] String::precedes(a, b)) && !(#[trigger] String::precedes(b, c)) implies !String::precedes(
        a,
        c,
    ) by {
        lemma_text_not_less(a, b, c);
    }
    ranking_orders::<String>(f);
    f.lemma_multiset_has_no_duplicates();
    r.lemma_multiset_has_no_duplicates_conv();
    assert forall|i: int, j: int| 0 <= i < j < r.len() implies text_less(
        #[trigger] r[i],
        #[trigger] r[j],
    ) by {
        assert(!String::precedes(r[j], r[i]));
        text_order_is_total(r[i], r[j]);
        assert(r[i] != r[j]);
    }
    assert forall|k: int| 0 <= k < r.len() implies is_memory_file(#[trigger] r[k]) by {
        broadcast use vstd::seq_lib::group_to_multiset_ensures;

        assert(r.contains(r[k]));
        assert(r.to_multiset().count(r[k]) > 0);
        assert(f.to_multiset().count(r[k]) > 0);
        assert(f.contains(r[k]));
        let x = choose|x: int| 0 <= x < f.len() && f[x] == r[k];
        lemma_filter_holds(names, p, x);
    }
}

/// Memories are loaded in the order of their files.
pub proof fn loading_keeps_the_order(files: Seq<(Text, Text)>)
    requires
        is_sorted(files.map_values(|f: (Text, Text)| f.0)),
    ensures
        is_sorted(loaded(files).map_values(|m: Memory| m.file)),
{
    let a = files.map_values(|f: (Text, Text)| f.0);
    let b = loaded(files).map_values(|m: Memory| m.file);
    assert(a =~= b);
}

/// A selection of memories keeps their order.
proof fn lemma_selection_sorted(mems: Seq<Memory>, p: spec_fn(Memory) -> bool)
    requires
        is_sorted(mems.map_values(|m: Memory| m.file)),
    ensures
        is_sorted(files_where(mems, p)),
    decreases mems.len(),
{
    reveal(Seq::filter);
    if mems.len() > 0 {
        let head = mems.drop_last();
        let names = mems.map_values(|m: Memory| m.file);
        let less_names = head.map_values(|m: Memory| m.file);
        assert(less_names =~= names.drop_last());
        assert(is_sorted(less_names)) by {
            assert forall|i: int, j: int| 0 <= i < j < less_names.len() implies text_less(
                #[trigger] less_names[i],
                #[trigger] less_names[j],
            ) by {
                assert(less_names[i] == names[i] && less_names[j] == names[j]);
            }
        }
        lemma_selection_sorted(head, p);
        let f = files_where(head, p);
        let g = files_where(mems, p);
        if p(mems.last()) {
            assert(g =~= f.push(mems.last().file));
            assert forall|i: int, j: int| 0 <= i < j < g.len() implies text_less(
                #[trigger] g[i],
                #[trigger] g[j],
            ) by {
                assert(g[i] == f[i]);
                if j < f.len() {
                    assert(g[j] == f[j]);
                } else {
                    lemma_filter_holds(head, p, i);
                    let k = choose|k: int| 0 <= k < head.len() && head[k] == head.filter(p)[i];
                    assert(names[k] == g[i]);
                    assert(names[mems.len() - 1] == g[j]);
                }
            }
        } else {
            assert(g =~= f);
        }
    }
}

/// Neighbours of search results come in the order of their names.
pub proof fn neighbours_are_in_order(mems: Seq<Memory>, edges: Seq<(Text, Text)>, found: Seq<Text>)
    requires
        is_sorted(mems.map_values(|m: Memory| m.file)),
    ensures
        is_sorted(neighbours(mems, edges, found).map_values(|n: (Text, Text)| n.0)),
{
    let p = |m: Memory| led_by(edges, found, m.file) is Some;
    lemma_selection_sorted(mems, p);
    assert(neighbours(mems, edges, found).map_values(|n: (Text, Text)| n.0) =~= files_where(mems, p));
}

/// Related memories come by distance, and at the same distance by name.
pub proof fn related_are_in_order(
    mems: Seq<Memory>,
    edges: Seq<(Text, Text)>,
    start: Text,
    depth: nat,
)
    requires
        is_sorted(mems.map_values(|m: Memory| m.file)),
    ensures
        forall|i: int, j: int|
            0 <= i < j < hops(mems, edges, start, depth).len() ==> {
                let a = #[trigger] hops(mems, edges, start, depth)[i];
                let b = #[trigger] hops(mems, edges, start, depth)[j];
                a.1 < b.1 || (a.1 == b.1 && text_less(a.0, b.0))
            },
        forall|i: int|
            0 <= i < hops(mems, edges, start, depth).len() ==> 1 <= (#[trigger] hops(
                mems,
                edges,
                start,
                depth,
            )[i]).1 <= depth && at_hop(
                edges,
                start,
                hops(mems, edges, start, depth)[i].1,
                hops(mems, edges, start, depth)[i].0,
            ),
    decreases depth,
{
    if depth > 0 {
        let d = (depth - 1) as nat;
        related_are_in_order(mems, edges, start, d);
        let p = |m: Memory| at_hop(edges, start, depth, m.file);
        lemma_selection_sorted(mems, p);
        let old = hops(mems, edges, start, d);
        let f = files_where(mems, p);
        let new = f.map_values(|x: Text| (x, depth));
        let all = hops(mems, edges, start, depth);
        assert(all == old + new);
        assert forall|i: int| 0 <= i < all.len() implies 1 <= (#[trigger] all[i]).1 <= depth && at_hop(
            edges,
            start,
            all[i].1,
            all[i].0,
        ) by {
            if i < old.len() {
                assert(all[i] == old[i]);
            } else {
                let k = i - old.len();
                assert(all[i] == new[k]);
                lemma_filter_holds(mems, p, k);
            }
        }
        assert forall|i: int, j: int| 0 <= i < j < all.len() implies {
            let a = #[trigger] all[i];
            let b = #[trigger] all[j];
            a.1 < b.1 || (a.1 == b.1 && text_less(a.0, b.0))
        } by {
            if j < old.len() {
                assert(all[i] == old[i] && all[j] == old[j]);
            } else if i < old.len() {
                assert(all[i] == old[i]);
                assert(all[j] == new[j - old.len()]);
            } else {
                assert(all[i] == new[i - old.len()] && all[j] == new[j - old.len()]);
                assert(text_less(f[i - old.len()], f[j - old.len()]));
            }
        }
    }
}

/// Search results come by score, and with the same score by name; the best are
/// kept.
pub proof fn best_come_first(hits: Seq<(Text, int, Text)>)
    ensures
        best_of(hits).len() == (if hits.len() > 15 {
            15
        } else {
            hits.len()
        }),
        forall|i: int, j: int|
            0 <= i < j < ranked::<Hit>(hits).len() ==> {
                let a = #[trigger] ranked::<Hit>(hits)[i];
                let b = #[trigger] ranked::<Hit>(hits)[j];
                a.1 > b.1 || (a.1 == b.1 && !text_less(b.0, a.0))
            },
        forall|i: int| 0 <= i < best_of(hits).len() ==> #[trigger] best_of(hits)[i] == ranked::<Hit>(hits)[i],
{
    ranking_permutes::<Hit>(hits);
    assert forall|a: (Text, int, Text), b: (Text, int, Text)| #[trigger]
        Hit::precedes(a, b) implies !Hit::precedes(b, a) by {
        text_order_is_total(a.0, b.0);
    }
    assert forall|a: (Text, int, Text), b: (Text, int, Text), c: (Text, int, Text)|
        !(#[trigger] Hit::precedes(a, b)) && !(#[trigger] Hit::precedes(b, c)) implies !Hit::precedes(a, c) by {
        if a.1 == b.1 && b.1 == c.1 {
            lemma_text_not_less(a.0, b.0, c.0);
        }
    }
    ranking_orders::<Hit>(hits);
    let r = ranked::<Hit>(hits);
    assert forall|i: int, j: int| 0 <= i < j < r.len() implies {
        let a = #[trigger] r[i];
        let b = #[trigger] r[j];
        a.1 > b.1 || (a.1 == b.1 && !text_less(b.0, a.0))
    } by {
        assert(!Hit::precedes(r[j], r[i]));
    }
}

/// Counts come with the larger first.
pub proof fn larger_counts_come_first(s: Seq<(Text, nat)>)
    ensures
        ranked::<Count>(s).len() == s.len(),
        ranked::<Count>(s).to_multiset() == s.to_multiset(),
        forall|i: int, j: int|
            0 <= i < j < s.len() ==> (#[trigger] ranked::<Count>(s)[i]).1 >= (#[trigger] ranked::<Count>(
                s,
            )[j]).1,
{
    ranking_permutes::<Count>(s);
    assert forall|a: (Text, nat), b: (Text, nat)| #[trigger]
        Count::precedes(a, b) implies !Count::precedes(b, a) by {}
    assert forall|a: (Text, nat), b: (Text, nat), c: (Text, nat)|
        !(#[trigger] Count::precedes(a, b)) && !(#[trigger] Count::precedes(b, c)) implies !Count::precedes(
        a,
        c,
    ) by {}
    ranking_orders::<Count>(s);
    let r = ranked::<Count>(s);
    assert forall|i: int, j: int| 0 <= i < j < s.len() implies (#[trigger] r[i]).1 >= (#[trigger] r[j]).1 by {
        assert(!Count::precedes(r[j], r[i]));
    }
}

/// Reservations are listed in order: by repository, version, written form, time.
pub proof fn reservations_are_listed_in_order(rs: Seq<Reservation>)
    ensures
        ranked::<Resv>(rs).len() == rs.len(),
        ranked::<Resv>(rs).to_multiset() == rs.to_multiset(),
        forall|i: int, j: int|
            0 <= i < j < rs.len() ==> !listed_before(
                #[trigger] ranked::<Resv>(rs)[j],
                #[trigger] ranked::<Resv>(rs)[i],
            ),
{
    ranking_permutes::<Resv>(rs);
    assert forall|a: Reservation, b: Reservation| #[trigger] Resv::precedes(a, b) implies !Resv::precedes(
        b,
        a,
    ) by {
        text_order_is_total(a.repo_slug, b.repo_slug);
        text_order_is_total(a.version, b.version);
    }
    assert forall|a: Reservation, b: Reservation, c: Reservation|
        !(#[trigger] Resv::precedes(a, b)) && !(#[trigger] Resv::precedes(b, c)) implies !Resv::precedes(
        a,
        c,
    ) by {
        text_order_is_total(a.repo_slug, b.repo_slug);
        text_order_is_total(b.repo_slug, c.repo_slug);
        text_order_is_total(a.version, b.version);
        text_order_is_total(b.version, c.version);
        lemma_text_not_less(a.repo_slug, b.repo_slug, c.repo_slug);
        text_order_is_total(a.repo_slug, c.repo_slug);
        if a.repo_slug == c.repo_slug {
            if a.repo_slug != b.repo_slug {
                assert(text_less(b.repo_slug, a.repo_slug) && text_less(c.repo_slug, b.repo_slug));
            }
            if a.ver == b.ver && b.ver == c.ver {
                lemma_text_not_less(a.version, b.version, c.version);
                text_order_is_total(a.version, c.version);
            }
        }
    }
    ranking_orders::<Resv>(rs);
    let r = ranked::<Resv>(rs);
    assert forall|i: int, j: int| 0 <= i < j < rs.len() implies !listed_before(
        #[trigger] r[j],
        #[trigger] r[i],
    ) by {
        assert(!Resv::precedes(r[j], r[i]));
    }
}

} // verus!

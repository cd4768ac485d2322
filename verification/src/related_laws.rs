//! What it means for memories to be related: a way along the links between them.
use crate::analysis::{files_where, lemma_filter_holds};
use crate::memory::Memory;
use crate::related::{at_hop, has_file, hops, within};
use crate::repair_laws::lemma_filter_keeps;
use crate::search_laws::joins;
use crate::text::Text;
use vstd::prelude::*;

verus! {

/// Whether two files are joined by an edge, whichever way it goes.
pub open spec fn are_joined(edges: Seq<(Text, Text)>, a: Text, b: Text) -> bool {
    exists|k: int| 0 <= k < edges.len() && joins(#[trigger] edges[k], a, b)
}

/// Whether `way` goes from one file to another along edges.
pub open spec fn is_way(edges: Seq<(Text, Text)>, way: Seq<Text>, from: Text, to: Text) -> bool {
    &&& way.len() > 0
    &&& way[0] == from
    &&& way.last() == to
    &&& forall|i: int| 0 <= i < way.len() - 1 ==> #[trigger] are_joined(edges, way[i], way[i + 1])
}

proof fn lemma_way_within(edges: Seq<(Text, Text)>, way: Seq<Text>, from: Text, to: Text, n: nat)
    requires
        is_way(edges, way, from, to),
        way.len() <= n + 1,
    ensures
        within(edges, from, n, to),
    decreases n,
{
    if way.len() == 1 {
        lemma_start_within(edges, from, n);
    } else {
        let m = (n - 1) as nat;
        let head = way.drop_last();
        let x = head.last();
        assert forall|i: int| 0 <= i < head.len() - 1 implies #[trigger] are_joined(
            edges,
            head[i],
            head[i + 1],
        ) by {
            assert(are_joined(edges, way[i], way[i + 1]));
        }
        lemma_way_within(edges, head, from, x, m);
        assert(are_joined(edges, way[way.len() - 2], way[way.len() - 2 + 1]));
        let k = choose|k: int| 0 <= k < edges.len() && joins(#[trigger] edges[k], x, to);
        assert(edges[k].1 == to && edges[k].0 == x || edges[k].0 == to && edges[k].1 == x);
    }
}

proof fn lemma_start_within(edges: Seq<(Text, Text)>, from: Text, n: nat)
    ensures
        within(edges, from, n, from),
    decreases n,
{
    if n > 0 {
        lemma_start_within(edges, from, (n - 1) as nat);
    }
}

proof fn lemma_within_way(edges: Seq<(Text, Text)>, from: Text, to: Text, n: nat) -> (way: Seq<Text>)
    requires
        within(edges, from, n, to),
    ensures
        is_way(edges, way, from, to),
        way.len() <= n + 1,
    decreases n,
{
    if n == 0 {
        seq![from]
    } else {
        let m = (n - 1) as nat;
        if within(edges, from, m, to) {
            lemma_within_way(edges, from, to, m)
        } else {
            let k = choose|k: int|
                0 <= k < edges.len() && ((#[trigger] edges[k]).1 == to && within(
                    edges,
                    from,
                    m,
                    edges[k].0,
                ) || edges[k].0 == to && within(edges, from, m, edges[k].1));
            let x = if edges[k].1 == to && within(edges, from, m, edges[k].0) {
                edges[k].0
            } else {
                edges[k].1
            };
            let head = lemma_within_way(edges, from, x, m);
            let way = head.push(to);
            assert(joins(edges[k], x, to));
            assert(are_joined(edges, x, to));
            assert forall|i: int| 0 <= i < way.len() - 1 implies #[trigger] are_joined(
                edges,
                way[i],
                way[i + 1],
            ) by {
                if i < head.len() - 1 {
                    assert(are_joined(edges, head[i], head[i + 1]));
                } else {
                    assert(way[i] == head.last());
                }
            }
            way
        }
    }
}

/// A file is at most `n` hops away exactly where a way of at most `n` edges leads to
/// it.
pub proof fn within_means_a_way(edges: Seq<(Text, Text)>, from: Text, to: Text, n: nat)
    ensures
        within(edges, from, n, to) <==> exists|way: Seq<Text>|
            #[trigger] is_way(edges, way, from, to) && way.len() <= n + 1,
{
    if within(edges, from, n, to) {
        let way = lemma_within_way(edges, from, to, n);
        assert(is_way(edges, way, from, to));
    }
    if exists|way: Seq<Text>| #[trigger] is_way(edges, way, from, to) && way.len() <= n + 1 {
        let way = choose|way: Seq<Text>| #[trigger]
            is_way(edges, way, from, to) && way.len() <= n + 1;
        lemma_way_within(edges, way, from, to, n);
    }
}

/// Whether the shortest way between two files has `d` edges.
pub open spec fn is_distance(edges: Seq<(Text, Text)>, from: Text, to: Text, d: nat) -> bool {
    &&& exists|way: Seq<Text>| #[trigger] is_way(edges, way, from, to) && way.len() == d + 1
    &&& forall|way: Seq<Text>| #[trigger] is_way(edges, way, from, to) ==> way.len() >= d + 1
}

proof fn lemma_at_hop(edges: Seq<(Text, Text)>, from: Text, to: Text, d: nat)
    requires
        d > 0,
    ensures
        at_hop(edges, from, d, to) <==> is_distance(edges, from, to, d),
{
    within_means_a_way(edges, from, to, d);
    within_means_a_way(edges, from, to, (d - 1) as nat);
    if at_hop(edges, from, d, to) {
        assert forall|way: Seq<Text>| #[trigger] is_way(edges, way, from, to) implies way.len() >= d
            + 1 by {}
        let way = choose|way: Seq<Text>| #[trigger]
            is_way(edges, way, from, to) && way.len() <= d + 1;
        assert(way.len() == d + 1);
    }
}

proof fn lemma_hops(mems: Seq<Memory>, edges: Seq<(Text, Text)>, start: Text, depth: nat, file: Text, d: nat)
    ensures
        hops(mems, edges, start, depth).contains((file, d)) <==> 0 < d <= depth && has_file(mems, file)
            && at_hop(edges, start, d, file),
    decreases depth,
{
    let all = hops(mems, edges, start, depth);
    if depth > 0 {
        let old = hops(mems, edges, start, (depth - 1) as nat);
        let p = |m: Memory| at_hop(edges, start, depth, m.file);
        let fs = files_where(mems, p);
        let new = fs.map_values(|f: Text| (f, depth));
        lemma_hops(mems, edges, start, (depth - 1) as nat, file, d);
        assert(all == old + new);
        if all.contains((file, d)) {
            let k = choose|k: int| 0 <= k < all.len() && all[k] == (file, d);
            if k < old.len() {
                assert(old[k] == (file, d));
            } else {
                let j = k - old.len();
                assert(new[j] == (file, d));
                lemma_filter_holds(mems, p, j);
                let i = choose|i: int| 0 <= i < mems.len() && mems[i] == mems.filter(p)[j];
                assert(mems[i].file == file);
            }
        }
        if 0 < d <= depth && has_file(mems, file) && at_hop(edges, start, d, file) {
            if d < depth {
                let k = choose|k: int| 0 <= k < old.len() && old[k] == (file, d);
                assert(all[k] == (file, d));
            } else {
                let i = choose|i: int| 0 <= i < mems.len() && (#[trigger] mems[i]).file == file;
                lemma_filter_keeps(mems, p, mems[i]);
                let j = choose|j: int| 0 <= j < mems.filter(p).len() && mems.filter(p)[j] == mems[i];
                assert(fs[j] == file);
                assert(new[j] == (file, d));
                assert(all[old.len() + j] == (file, d));
            }
        }
    }
}

/// A memory is listed as related exactly where some way leads to it and the shortest
/// has at least one edge and no more than `depth`; it is listed with that distance.
pub proof fn related_are_as_far_as_the_shortest_way(
    mems: Seq<Memory>,
    edges: Seq<(Text, Text)>,
    start: Text,
    depth: nat,
    file: Text,
    d: nat,
)
    ensures
        hops(mems, edges, start, depth).contains((file, d)) <==> {
            &&& 0 < d <= depth
            &&& exists|i: int| 0 <= i < mems.len() && (#[trigger] mems[i]).file == file
            &&& is_distance(edges, start, file, d)
        },
{
    lemma_hops(mems, edges, start, depth, file, d);
    if d > 0 {
        lemma_at_hop(edges, start, file, d);
    }
}

} // verus!

//! The memories that links join to one, by distance.
use crate::analysis::{edges_join_memories, edges_of, files_where, follow_links, is_countable};
use crate::links::pairs;
use crate::memory::{file_of, resolve_name, Mem, Memory};
use crate::number::{decimal, size};
use crate::order::views;
use crate::text::{chain, repeat, repeated, same, texts, Text};
use vstd::prelude::*;

verus! {

/// Whether a file is at most `n` links away from another, whichever way they go.
pub open spec fn within(edges: Seq<(Text, Text)>, start: Text, n: nat, file: Text) -> bool
    decreases n,
{
    if n == 0 {
        file == start
    } else {
        let m = (n - 1) as nat;
        within(edges, start, m, file) || exists|i: int|
            0 <= i < edges.len() && ((#[trigger] edges[i]).1 == file && within(
                edges,
                start,
                m,
                edges[i].0,
            ) || edges[i].0 == file && within(edges, start, m, edges[i].1))
    }
}

/// Whether a file is exactly `n` links away, `n` at least one.
pub open spec fn at_hop(edges: Seq<(Text, Text)>, start: Text, n: nat, file: Text) -> bool {
    within(edges, start, n, file) && !within(edges, start, (n - 1) as nat, file)
}

/// The files at most `depth` links away with their distances, the nearest first,
/// else in the order of the memories.
pub open spec fn hops(mems: Seq<Memory>, edges: Seq<(Text, Text)>, start: Text, depth: nat) -> Seq<
    (Text, nat),
>
    decreases depth,
{
    if depth == 0 {
        Seq::empty()
    } else {
        hops(mems, edges, start, (depth - 1) as nat) + files_where(
            mems,
            |m: Memory| at_hop(edges, start, depth, m.file),
        ).map_values(|f: Text| (f, depth))
    }
}

/// Whether some memory has a file.
pub open spec fn has_file(mems: Seq<Memory>, file: Text) -> bool {
    exists|i: int| 0 <= i < mems.len() && (#[trigger] mems[i]).file == file
}

/// What the user is told of the related memories.
pub open spec fn related_lines(start: Text, depth: nat, rows: Seq<(Text, nat)>) -> Seq<Text> {
    seq!["🔗 related to "@ + start + " (≤"@ + decimal(depth) + " hops):"@] + (if rows.len() == 0 {
        seq!["  (no [[links]] — isolated)"@]
    } else {
        rows.map_values(|r: (Text, nat)| "  "@ + repeated("  "@, r.1) + r.0)
    })
}

/// Whether both ends of every edge are files of memories.
spec fn joins(mems: Seq<Memory>, edges: Seq<(Text, Text)>) -> bool {
    forall|i: int|
        0 <= i < edges.len() ==> has_file(mems, (#[trigger] edges[i]).0) && has_file(mems, edges[i].1)
}

/// Where nothing new is `d + 1` links away, nothing is further away.
proof fn lemma_stable(mems: Seq<Memory>, edges: Seq<(Text, Text)>, start: Text, d: nat, n: nat)
    requires
        joins(mems, edges),
        forall|i: int|
            0 <= i < mems.len() ==> within(edges, start, d + 1, (#[trigger] mems[i]).file) == within(
                edges,
                start,
                d,
                mems[i].file,
            ),
        d <= n,
    ensures
        forall|i: int|
            0 <= i < mems.len() ==> within(edges, start, n, (#[trigger] mems[i]).file) == within(
                edges,
                start,
                d,
                mems[i].file,
            ),
        hops(mems, edges, start, n) == hops(mems, edges, start, d),
    decreases n,
{
    if n > d {
        let m = (n - 1) as nat;
        lemma_stable(mems, edges, start, d, m);
        assert forall|i: int| 0 <= i < mems.len() implies within(
            edges,
            start,
            n,
            (#[trigger] mems[i]).file,
        ) == within(edges, start, d, mems[i].file) by {
            let f = mems[i].file;
            if within(edges, start, n, f) && !within(edges, start, m, f) {
                let e = choose|e: int|
                    0 <= e < edges.len() && ((#[trigger] edges[e]).1 == f && within(
                        edges,
                        start,
                        m,
                        edges[e].0,
                    ) || edges[e].0 == f && within(edges, start, m, edges[e].1));
                assert(has_file(mems, edges[e].0) && has_file(mems, edges[e].1));
                let a = choose|a: int| 0 <= a < mems.len() && (#[trigger] mems[a]).file == edges[e].0;
                let b = choose|b: int| 0 <= b < mems.len() && (#[trigger] mems[b]).file == edges[e].1;
                assert(within(edges, start, m, mems[a].file) == within(edges, start, d, mems[a].file));
                assert(within(edges, start, m, mems[b].file) == within(edges, start, d, mems[b].file));
                assert(within(edges, start, d + 1, f));
            }
        }
        let p = |x: Memory| at_hop(edges, start, n, x.file);
        assert forall|i: int| 0 <= i < mems.len() implies !p(#[trigger] mems[i]) by {
            assert(within(edges, start, m, mems[i].file) == within(edges, start, d, mems[i].file));
        }
        lemma_none(mems, p);
        assert(hops(mems, edges, start, n) =~= hops(mems, edges, start, m));
    }
}

proof fn lemma_none(mems: Seq<Memory>, p: spec_fn(Memory) -> bool)
    requires
        forall|i: int| 0 <= i < mems.len() ==> !p(#[trigger] mems[i]),
    ensures
        mems.filter(p).len() == 0,
    decreases mems.len(),
{
    reveal(Seq::filter);
    if mems.len() > 0 {
        let head = mems.drop_last();
        assert forall|i: int| 0 <= i < head.len() implies !p(#[trigger] head[i]) by {
            assert(head[i] == mems[i]);
        }
        lemma_none(head, p);
        assert(!p(mems[mems.len() - 1]));
    }
}

/// The index of the memory with a file.
fn index_of(mems: &[Mem], file: &str) -> (r: Option<usize>)
    ensures
        match r {
            Some(i) => i < mems@.len() && mems@[i as int].file@ == file@,
            None => !has_file(views(mems@), file@),
        },
{
    let mut i: usize = 0;
    while i < mems.len()
        invariant
            i <= mems@.len(),
            forall|k: int| 0 <= k < i ==> (#[trigger] views(mems@)[k]).file != file@,
        decreases mems@.len() - i,
    {
        assert(views(mems@)[i as int].file == mems@[i as int].file@);
        if same(&mems[i].file, file) {
            return Some(i);
        }
        i = i + 1;
    }
    None
}

/// The ends of the edges, as indices of memories.
fn index_edges(mems: &[Mem], edges: &[(String, String)]) -> (r: Vec<(usize, usize)>)
    requires
        joins(views(mems@), pairs(edges@)),
    ensures
        r@.len() == edges@.len(),
        forall|i: int|
            0 <= i < r@.len() ==> {
                &&& (#[trigger] r@[i]).0 < mems@.len()
                &&& r@[i].1 < mems@.len()
                &&& mems@[r@[i].0 as int].file@ == edges@[i].0@
                &&& mems@[r@[i].1 as int].file@ == edges@[i].1@
            },
{
    let ghost all = pairs(edges@);
    let mut r: Vec<(usize, usize)> = Vec::new();
    let mut i: usize = 0;
    while i < edges.len()
        invariant
            i <= edges@.len(),
            r@.len() == i,
            all == pairs(edges@),
            joins(views(mems@), all),
            forall|k: int|
                0 <= k < i ==> {
                    &&& (#[trigger] r@[k]).0 < mems@.len()
                    &&& r@[k].1 < mems@.len()
                    &&& mems@[r@[k].0 as int].file@ == edges@[k].0@
                    &&& mems@[r@[k].1 as int].file@ == edges@[k].1@
                },
        decreases edges@.len() - i,
    {
        assert(all[i as int] == (edges@[i as int].0@, edges@[i as int].1@));
        match (index_of(mems, &edges[i].0), index_of(mems, &edges[i].1)) {
            (Some(a), Some(b)) => {
                r.push((a, b));
            },
            _ => {
                assert(false);
            },
        }
        i = i + 1;
    }
    r
}

/// Whether a memory is at most one link away from those that are reached.
fn is_next(
    mems: &[Mem],
    edges: &[(String, String)],
    ends: &[(usize, usize)],
    reached: &Vec<bool>,
    i: usize,
    Ghost(start): Ghost<Text>,
    Ghost(d): Ghost<nat>,
) -> (r: bool)
    requires
        i < mems@.len(),
        reached@.len() == mems@.len(),
        ends@.len() == edges@.len(),
        forall|k: int|
            0 <= k < ends@.len() ==> {
                &&& (#[trigger] ends@[k]).0 < mems@.len()
                &&& ends@[k].1 < mems@.len()
                &&& mems@[ends@[k].0 as int].file@ == edges@[k].0@
                &&& mems@[ends@[k].1 as int].file@ == edges@[k].1@
            },
        forall|k: int|
            0 <= k < reached@.len() ==> (#[trigger] reached@[k]) == within(
                pairs(edges@),
                start,
                d,
                mems@[k].file@,
            ),
    ensures
        r == within(pairs(edges@), start, d + 1, mems@[i as int].file@),
{
    let ghost es = pairs(edges@);
    let ghost f = mems@[i as int].file@;
    if reached[i] {
        return true;
    }
    let mut e: usize = 0;
    while e < edges.len()
        invariant
            e <= edges@.len(),
            i < mems@.len(),
            f == mems@[i as int].file@,
            es == pairs(edges@),
            !within(es, start, d, f),
            reached@.len() == mems@.len(),
            ends@.len() == edges@.len(),
            forall|k: int|
                0 <= k < ends@.len() ==> {
                    &&& (#[trigger] ends@[k]).0 < mems@.len()
                    &&& ends@[k].1 < mems@.len()
                    &&& mems@[ends@[k].0 as int].file@ == edges@[k].0@
                    &&& mems@[ends@[k].1 as int].file@ == edges@[k].1@
                },
            forall|k: int|
                0 <= k < reached@.len() ==> (#[trigger] reached@[k]) == within(
                    es,
                    start,
                    d,
                    mems@[k].file@,
                ),
            forall|k: int|
                0 <= k < e ==> !((#[trigger] es[k]).1 == f && within(es, start, d, es[k].0) || es[k].0 == f
                    && within(es, start, d, es[k].1)),
        decreases edges@.len() - e,
    {
        let (a, b) = ends[e];
        assert(ends@[e as int] == (a, b));
        assert(es[e as int] == (edges@[e as int].0@, edges@[e as int].1@));
        assert(reached@[a as int] == within(es, start, d, es[e as int].0));
        assert(reached@[b as int] == within(es, start, d, es[e as int].1));
        if (reached[a] && same(&edges[e].1, &mems[i].file)) || (reached[b] && same(
            &edges[e].0,
            &mems[i].file,
        )) {
            assert(within(es, start, d + 1, f));
            return true;
        }
        e = e + 1;
    }
    false
}

/// The files at most `depth` links away with their distances.
pub fn find_related(mems: &[Mem], start: &str, depth: usize) -> (r: Vec<(String, usize)>)
    requires
        is_countable(views(mems@)),
        has_file(views(mems@), start@),
    ensures
        r@.map_values(|x: (String, usize)| (x.0@, x.1 as nat)) == hops(
            views(mems@),
            edges_of(views(mems@), views(mems@)),
            start@,
            depth as nat,
        ),
{
    let (edges, _) = follow_links(mems);
    let ghost all = views(mems@);
    let ghost es = edges_of(all, all);
    let ghost s = start@;
    proof {
        assert forall|k: int| 0 <= k < all.len() implies all.contains(#[trigger] all[k]) by {}
        edges_join_memories(all, all);
        assert forall|i: int| 0 <= i < es.len() implies has_file(all, (#[trigger] es[i]).0) && has_file(
            all,
            es[i].1,
        ) by {
            let e = edges_of(all, all)[i];
            let a = choose|a: int| 0 <= a < all.len() && (#[trigger] all[a]).file == e.0;
            let b = choose|b: int| 0 <= b < all.len() && (#[trigger] all[b]).file == e.1;
        }
    }
    let ends = index_edges(mems, &edges);
    let mut reached: Vec<bool> = Vec::new();
    let mut k: usize = 0;
    while k < mems.len()
        invariant
            k <= mems@.len(),
            reached@.len() == k,
            s == start@,
            forall|j: int|
                0 <= j < k ==> (#[trigger] reached@[j]) == within(es, s, 0, mems@[j].file@),
        decreases mems@.len() - k,
    {
        reached.push(same(&mems[k].file, start));
        k = k + 1;
    }
    let mut rows: Vec<(String, usize)> = Vec::new();
    let ghost f = |x: (String, usize)| (x.0@, x.1 as nat);
    assert(rows@.map_values(f) =~= hops(all, es, s, 0));
    let mut d: usize = 0;
    while d < depth
        invariant
            d <= depth,
            all == views(mems@),
            es == edges_of(all, all),
            pairs(edges@) == es,
            joins(all, es),
            s == start@,
            f == (|x: (String, usize)| (x.0@, x.1 as nat)),
            reached@.len() == mems@.len(),
            ends@.len() == edges@.len(),
            forall|k: int|
                0 <= k < ends@.len() ==> {
                    &&& (#[trigger] ends@[k]).0 < mems@.len()
                    &&& ends@[k].1 < mems@.len()
                    &&& mems@[ends@[k].0 as int].file@ == edges@[k].0@
                    &&& mems@[ends@[k].1 as int].file@ == edges@[k].1@
                },
            forall|j: int|
                0 <= j < reached@.len() ==> (#[trigger] reached@[j]) == within(
                    es,
                    s,
                    d as nat,
                    mems@[j].file@,
                ),
            rows@.map_values(f) == hops(all, es, s, d as nat),
        decreases depth - d,
    {
        let ghost before = rows@.map_values(f);
        let ghost n = (d + 1) as nat;
        let ghost p = |m: Memory| at_hop(es, s, n, m.file);
        let ghost g = |x: Text| (x, n);
        let mut next: Vec<bool> = Vec::new();
        let mut grown = false;
        let mut i: usize = 0;
        assert(before + files_where(all.take(0), p).map_values(g) =~= before) by {
            reveal(Seq::filter);
        }
        while i < mems.len()
            invariant
                i <= mems@.len(),
                next@.len() == i,
                d < depth,
                n == d + 1,
                all == views(mems@),
                pairs(edges@) == es,
                f == (|x: (String, usize)| (x.0@, x.1 as nat)),
                p == (|m: Memory| at_hop(es, s, n, m.file)),
                g == (|x: Text| (x, n)),
                reached@.len() == mems@.len(),
                ends@.len() == edges@.len(),
                forall|k: int|
                    0 <= k < ends@.len() ==> {
                        &&& (#[trigger] ends@[k]).0 < mems@.len()
                        &&& ends@[k].1 < mems@.len()
                        &&& mems@[ends@[k].0 as int].file@ == edges@[k].0@
                        &&& mems@[ends@[k].1 as int].file@ == edges@[k].1@
                    },
                forall|j: int|
                    0 <= j < reached@.len() ==> (#[trigger] reached@[j]) == within(
                        es,
                        s,
                        d as nat,
                        mems@[j].file@,
                    ),
                forall|j: int|
                    0 <= j < i ==> (#[trigger] next@[j]) == within(es, s, n, mems@[j].file@),
                !grown ==> forall|j: int|
                    0 <= j < i ==> within(es, s, n, (#[trigger] all[j]).file) == within(
                        es,
                        s,
                        d as nat,
                        all[j].file,
                    ),
                rows@.map_values(f) == before + files_where(all.take(i as int), p).map_values(g),
            decreases mems@.len() - i,
        {
            let m = &mems[i];
            let ghost head = all.take(i + 1);
            let ghost sofar = rows@.map_values(f);
            let ghost was = files_where(all.take(i as int), p);
            assert(head.drop_last() =~= all.take(i as int));
            assert(head.last() == m@);
            assert(all[i as int] == m@);
            let now = is_next(mems, &edges, &ends, &reached, i, Ghost(s), Ghost(d as nat));
            proof {
                reveal(Seq::filter);
            }
            if now && !reached[i] {
                grown = true;
                let row = (m.file.clone(), d + 1);
                rows.push(row);
                assert(rows@.map_values(f) =~= sofar.push((m.file@, n)));
                assert(files_where(head, p) =~= was.push(m.file@));
            } else {
                assert(files_where(head, p) =~= was);
            }
            assert(rows@.map_values(f) =~= before + files_where(head, p).map_values(g));
            next.push(now);
            i = i + 1;
        }
        assert(all.take(i as int) =~= all);
        if !grown {
            proof {
                lemma_stable(all, es, s, d as nat, depth as nat);
                lemma_stable(all, es, s, d as nat, n);
            }
            return rows;
        }
        reached = next;
        d = d + 1;
    }
    rows
}

/// The memories related to one, as the user is told; or that there is no such
/// memory.
pub fn related(mems: &[Mem], id: &str, depth: usize) -> (r: Result<Vec<String>, String>)
    requires
        is_countable(views(mems@)),
    ensures
        match r {
            Ok(ls) => has_file(views(mems@), file_of(id@)) && texts(ls@) == related_lines(
                file_of(id@),
                depth as nat,
                hops(
                    views(mems@),
                    edges_of(views(mems@), views(mems@)),
                    file_of(id@),
                    depth as nat,
                ),
            ),
            Err(e) => !has_file(views(mems@), file_of(id@)) && e@ == "not found: "@ + id@,
        },
{
    let start = resolve_name(id);
    match index_of(mems, &start) {
        Some(i) => {
            assert(views(mems@)[i as int].file == start@);
        },
        None => {
            return Err(chain("not found: ", id));
        },
    }
    let rows = find_related(mems, &start, depth);
    let ghost all = rows@.map_values(|x: (String, usize)| (x.0@, x.1 as nat));
    let ghost f = |r: (Text, nat)| "  "@ + repeated("  "@, r.1) + r.0;
    let mut s = "🔗 related to ".to_string();
    s.append(&start);
    s.append(" (≤");
    s.append(&size(depth));
    s.append(" hops):");
    let mut r: Vec<String> = Vec::new();
    r.push(s);
    let ghost top = seq![s@];
    if rows.len() == 0 {
        let t = "  (no [[links]] — isolated)".to_string();
        r.push(t);
        assert(texts(r@) =~= top + seq![t@]);
        return Ok(r);
    }
    assert(texts(r@) =~= top + all.map_values(f).take(0));
    let mut i: usize = 0;
    while i < rows.len()
        invariant
            i <= rows@.len(),
            all == rows@.map_values(|x: (String, usize)| (x.0@, x.1 as nat)),
            f == (|r: (Text, nat)| "  "@ + repeated("  "@, r.1) + r.0),
            texts(r@) == top + all.map_values(f).take(i as int),
        decreases rows@.len() - i,
    {
        let ghost done = texts(r@);
        let mut t = "  ".to_string();
        t.append(&repeat("  ", rows[i].1));
        t.append(&rows[i].0);
        assert(all[i as int] == (rows@[i as int].0@, rows@[i as int].1 as nat));
        assert(t@ == f(all[i as int]));
        r.push(t);
        assert(texts(r@) =~= done.push(t@));
        i = i + 1;
        assert(texts(r@) =~= top + all.map_values(f).take(i as int));
    }
    assert(all.map_values(f).take(i as int) =~= all.map_values(f));
    Ok(r)
}

/// What is within some links is within more.
pub proof fn within_grows(edges: Seq<(Text, Text)>, start: Text, n: nat, m: nat, file: Text)
    requires
        within(edges, start, n, file),
        n <= m,
    ensures
        within(edges, start, m, file),
    decreases m,
{
    if m > n {
        within_grows(edges, start, n, (m - 1) as nat, file);
    }
}

/// Being within `n + 1` links, seen from the start.
proof fn lemma_first_step(edges: Seq<(Text, Text)>, a: Text, n: nat, b: Text)
    ensures
        within(edges, a, n + 1, b) <==> within(edges, a, n, b) || exists|i: int|
            0 <= i < edges.len() && ((#[trigger] edges[i]).1 == a && within(edges, edges[i].0, n, b)
                || edges[i].0 == a && within(edges, edges[i].1, n, b)),
    decreases n,
{
    let via_a = exists|i: int|
        0 <= i < edges.len() && ((#[trigger] edges[i]).1 == a && within(edges, edges[i].0, n, b)
            || edges[i].0 == a && within(edges, edges[i].1, n, b));
    if n == 0 {
        if within(edges, a, 1, b) && !within(edges, a, 0, b) {
            let i = choose|i: int|
                0 <= i < edges.len() && ((#[trigger] edges[i]).1 == b && within(edges, a, 0, edges[i].0)
                    || edges[i].0 == b && within(edges, a, 0, edges[i].1));
            assert(edges[i].1 == a && within(edges, edges[i].0, 0, b) || edges[i].0 == a && within(
                edges,
                edges[i].1,
                0,
                b,
            ));
        }
        if via_a {
            let i = choose|i: int|
                0 <= i < edges.len() && ((#[trigger] edges[i]).1 == a && within(edges, edges[i].0, n, b)
                    || edges[i].0 == a && within(edges, edges[i].1, n, b));
            assert(edges[i].1 == b && within(edges, a, 0, edges[i].0) || edges[i].0 == b && within(
                edges,
                a,
                0,
                edges[i].1,
            ));
        }
    } else {
        let m = (n - 1) as nat;
        if within(edges, a, n + 1, b) && !within(edges, a, n, b) {
            let i = choose|i: int|
                0 <= i < edges.len() && ((#[trigger] edges[i]).1 == b && within(edges, a, n, edges[i].0)
                    || edges[i].0 == b && within(edges, a, n, edges[i].1));
            let c = if edges[i].1 == b && within(edges, a, n, edges[i].0) {
                edges[i].0
            } else {
                edges[i].1
            };
            lemma_first_step(edges, a, m, c);
            if within(edges, a, m, c) {
                assert(within(edges, a, n, b));
            } else {
                let j = choose|j: int|
                    0 <= j < edges.len() && ((#[trigger] edges[j]).1 == a && within(
                        edges,
                        edges[j].0,
                        m,
                        c,
                    ) || edges[j].0 == a && within(edges, edges[j].1, m, c));
                let d = if edges[j].1 == a && within(edges, edges[j].0, m, c) {
                    edges[j].0
                } else {
                    edges[j].1
                };
                assert(within(edges, d, n, b)) by {
                    assert(edges[i].1 == b && within(edges, d, m, edges[i].0) || edges[i].0 == b
                        && within(edges, d, m, edges[i].1));
                }
                assert(edges[j].1 == a && within(edges, edges[j].0, n, b) || edges[j].0 == a && within(
                    edges,
                    edges[j].1,
                    n,
                    b,
                ));
            }
        }
        if via_a {
            let j = choose|j: int|
                0 <= j < edges.len() && ((#[trigger] edges[j]).1 == a && within(edges, edges[j].0, n, b)
                    || edges[j].0 == a && within(edges, edges[j].1, n, b));
            let d = if edges[j].1 == a && within(edges, edges[j].0, n, b) {
                edges[j].0
            } else {
                edges[j].1
            };
            if within(edges, d, m, b) {
                lemma_first_step(edges, a, m, b);
                assert(within(edges, a, n, b));
            } else {
                let i = choose|i: int|
                    0 <= i < edges.len() && ((#[trigger] edges[i]).1 == b && within(
                        edges,
                        d,
                        m,
                        edges[i].0,
                    ) || edges[i].0 == b && within(edges, d, m, edges[i].1));
                let c = if edges[i].1 == b && within(edges, d, m, edges[i].0) {
                    edges[i].0
                } else {
                    edges[i].1
                };
                lemma_first_step(edges, a, m, c);
                assert(edges[j].1 == a && within(edges, edges[j].0, m, c) || edges[j].0 == a && within(
                    edges,
                    edges[j].1,
                    m,
                    c,
                ));
                assert(within(edges, a, n, c));
                assert(edges[i].1 == b && within(edges, a, n, edges[i].0) || edges[i].0 == b && within(
                    edges,
                    a,
                    n,
                    edges[i].1,
                ));
            }
        }
    }
}

/// Distance goes both ways: what one memory is related to is as close to it.
pub proof fn within_is_mutual(edges: Seq<(Text, Text)>, a: Text, n: nat, b: Text)
    ensures
        within(edges, a, n, b) == within(edges, b, n, a),
    decreases n,
{
    if n > 0 {
        let m = (n - 1) as nat;
        within_is_mutual(edges, a, m, b);
        lemma_first_step(edges, b, m, a);
        assert forall|i: int| 0 <= i < edges.len() implies within(edges, a, m, (#[trigger] edges[i]).0)
            == within(edges, edges[i].0, m, a) && within(edges, a, m, edges[i].1) == within(
            edges,
            edges[i].1,
            m,
            a,
        ) by {
            within_is_mutual(edges, a, m, edges[i].0);
            within_is_mutual(edges, a, m, edges[i].1);
        }
        if within(edges, a, n, b) && !within(edges, a, m, b) {
            let i = choose|i: int|
                0 <= i < edges.len() && ((#[trigger] edges[i]).1 == b && within(edges, a, m, edges[i].0)
                    || edges[i].0 == b && within(edges, a, m, edges[i].1));
            assert(edges[i].1 == b && within(edges, edges[i].0, m, a) || edges[i].0 == b && within(
                edges,
                edges[i].1,
                m,
                a,
            ));
        }
        if within(edges, b, n, a) && !within(edges, b, m, a) {
            let i = choose|i: int|
                0 <= i < edges.len() && ((#[trigger] edges[i]).1 == b && within(edges, edges[i].0, m, a)
                    || edges[i].0 == b && within(edges, edges[i].1, m, a));
            assert(edges[i].1 == b && within(edges, a, m, edges[i].0) || edges[i].0 == b && within(
                edges,
                a,
                m,
                edges[i].1,
            ));
        }
    }
}

} // verus!

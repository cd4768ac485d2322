//! What the memories amount to: how they link to each other, what they take, and
//! what calls for attention.
use crate::counts::{tallies, tally, Count, Counts};
use crate::links::pairs;
use crate::memory::{count_tokens, reservation_type, stem, tokens, Mem, Memory};
use crate::naming::{norm, normalized};
use crate::order::{rank, ranked, views};
use crate::reservation::{collisions, count_resv_collisions, is_active, Reservation, Resv};
use crate::text::{contains, has, same, strip_suffixes, texts, Text};
use vstd::prelude::*;

verus! {

/// How many tokens a memory may take before it is flagged for splitting.
pub const OVERSIZE: usize = 2_000;

/// How many tokens the always-on index may take before it is flagged.
pub const IDX_WARN: usize = 12_000;

/// Whether a normalized link leads to a memory, by its file or by its name.
pub open spec fn answers(m: Memory, key: Text) -> bool {
    normalized(stem(m.file)) == key || normalized(m.name) == key
}

/// The file that a normalized link leads to; the last memory that answers counts.
pub open spec fn target(mems: Seq<Memory>, key: Text) -> Option<Text>
    decreases mems.len(),
{
    if mems.len() == 0 {
        None
    } else if answers(mems.last(), key) {
        Some(mems.last().file)
    } else {
        target(mems.drop_last(), key)
    }
}

/// The edges that the links of one file make.
pub open spec fn edges_from(mems: Seq<Memory>, file: Text, links: Seq<Text>) -> Seq<(Text, Text)> {
    links.filter(|l: Text| target(mems, normalized(l)) is Some).map_values(
        |l: Text| (file, target(mems, normalized(l))->0),
    )
}

/// The edges that the links of the memories `todo` make among `mems`.
pub open spec fn edges_of(mems: Seq<Memory>, todo: Seq<Memory>) -> Seq<(Text, Text)>
    decreases todo.len(),
{
    if todo.len() == 0 {
        Seq::empty()
    } else {
        edges_of(mems, todo.drop_last()) + edges_from(mems, todo.last().file, todo.last().links)
    }
}

/// Those of some links that lead nowhere.
pub open spec fn broken_links(mems: Seq<Memory>, links: Seq<Text>) -> Seq<Text> {
    links.filter(|l: Text| target(mems, normalized(l)) is None)
}

/// How many links of the memories `todo` lead nowhere among `mems`.
pub open spec fn broken_count(mems: Seq<Memory>, todo: Seq<Memory>) -> nat
    decreases todo.len(),
{
    if todo.len() == 0 {
        0
    } else {
        broken_count(mems, todo.drop_last()) + broken_links(mems, todo.last().links).len()
    }
}

/// How many links the memories hold.
pub open spec fn link_count(mems: Seq<Memory>) -> nat
    decreases mems.len(),
{
    if mems.len() == 0 {
        0
    } else {
        link_count(mems.drop_last()) + mems.last().links.len()
    }
}

/// How many tokens the memories take together.
pub open spec fn pool(mems: Seq<Memory>) -> nat
    decreases mems.len(),
{
    if mems.len() == 0 {
        0
    } else {
        pool(mems.drop_last()) + mems.last().tok
    }
}

/// Whether the totals over the memories can be counted.
pub open spec fn is_countable(mems: Seq<Memory>) -> bool {
    link_count(mems) <= usize::MAX && pool(mems) <= usize::MAX
}

/// Whether an edge begins or ends at a file.
pub open spec fn is_linked(edges: Seq<(Text, Text)>, file: Text) -> bool {
    exists|i: int| 0 <= i < edges.len() && ((#[trigger] edges[i]).0 == file || edges[i].1 == file)
}

/// Whether a memory is knowledge, not the record of a reservation.
pub open spec fn is_knowledge(m: Memory) -> bool {
    m.typ != reservation_type()
}

/// Whether a memory should be split.
pub open spec fn is_oversized(m: Memory) -> bool {
    m.tok > OVERSIZE && is_knowledge(m)
}

/// Words in a file's name that make it look like one for every machine.
pub open spec fn hints() -> Seq<Text> {
    seq![
        "mimir"@,
        "mac_mini"@,
        "macmini"@,
        "machine"@,
        "checkout"@,
        "cadence"@,
        "zsh"@,
        "commit"@,
        "backup"@,
        "deploy"@,
    ]
}

/// Whether a memory looks like one for every machine, yet is not shared.
pub open spec fn is_flagged(m: Memory) -> bool {
    !m.shared && is_knowledge(m) && exists|i: int|
        0 <= i < hints().len() && contains(m.file, #[trigger] hints()[i])
}

/// The files of the memories that satisfy `p`, in order.
pub open spec fn files_where(mems: Seq<Memory>, p: spec_fn(Memory) -> bool) -> Seq<Text> {
    mems.filter(p).map_values(|m: Memory| m.file)
}

/// Each memory's file with its tokens.
pub open spec fn weights(mems: Seq<Memory>) -> Seq<(Text, nat)> {
    mems.map_values(|m: Memory| (m.file, m.tok))
}

/// The files that are flagged for splitting, the largest first.
pub open spec fn oversized_files(mems: Seq<Memory>) -> Seq<Text> {
    ranked::<Count>(weights(mems.filter(|m: Memory| is_oversized(m)))).map_values(
        |c: (Text, nat)| c.0,
    )
}

/// What the memories amount to.
pub struct Analysis {
    pub mems: Vec<Mem>,
    /// The links between memories, each from a file to a file.
    pub edges: Vec<(String, String)>,
    /// How many links lead nowhere.
    pub broken: usize,
    /// The files that no link touches.
    pub isolated: Vec<String>,
    /// How many tokens the always-on index takes.
    pub idx_tok: usize,
    /// How many tokens all memories take.
    pub pool_tok: usize,
    pub n: usize,
    pub shared: usize,
    pub types: Counts,
    pub origins: Counts,
    /// The files that should be split, the largest first.
    pub oversized: Vec<String>,
    /// The local files that look like ones for every machine.
    pub scope_flags: Vec<String>,
    pub resv_active: usize,
    pub resv_collisions: usize,
}

impl Analysis {
    /// Whether this is the analysis of the given memories, reservations and index.
    pub open spec fn describes(&self, mems: Seq<Memory>, rs: Seq<Reservation>, index: Text) -> bool {
        &&& views(self.mems@) == mems
        &&& pairs(self.edges@) == edges_of(mems, mems)
        &&& self.broken == broken_count(mems, mems)
        &&& texts(self.isolated@) == files_where(
            mems,
            |m: Memory| !is_linked(edges_of(mems, mems), m.file) && is_knowledge(m),
        )
        &&& self.idx_tok == tokens(index)
        &&& self.pool_tok == pool(mems)
        &&& self.n == mems.len()
        &&& self.shared == mems.filter(|m: Memory| m.shared).len()
        &&& tallies(self.types.seq(), mems.map_values(|m: Memory| m.typ))
        &&& tallies(self.origins.seq(), mems.map_values(|m: Memory| m.origin))
        &&& texts(self.oversized@) == oversized_files(mems)
        &&& texts(self.scope_flags@) == files_where(mems, |m: Memory| is_flagged(m))
        &&& self.resv_active == rs.filter(|r: Reservation| is_active(r)).len()
        &&& self.resv_collisions == collisions(rs).len()
    }
}

/// A memory's normalized file and name.
pub struct Keys {
    pub file: String,
    pub name: String,
}

/// Whether `keys` holds the normalized files and names of the memories.
pub open spec fn keyed(keys: Seq<Keys>, mems: Seq<Memory>) -> bool {
    &&& keys.len() == mems.len()
    &&& forall|i: int|
        0 <= i < keys.len() ==> (#[trigger] keys[i]).file@ == normalized(stem(mems[i].file))
            && keys[i].name@ == normalized(mems[i].name)
}

/// The normalized files and names of the memories.
pub fn make_keys(mems: &[Mem]) -> (r: Vec<Keys>)
    ensures
        keyed(r@, views(mems@)),
{
    let mut r: Vec<Keys> = Vec::new();
    let mut i: usize = 0;
    while i < mems.len()
        invariant
            i <= mems@.len(),
            keyed(r@, views(mems@).take(i as int)),
        decreases mems@.len() - i,
    {
        let m = &mems[i];
        r.push(Keys { file: norm(strip_suffixes(&m.file, ".md")), name: norm(&m.name) });
        i = i + 1;
        assert(views(mems@).take(i as int)[i - 1] == m@);
    }
    assert(views(mems@).take(i as int) =~= views(mems@));
    r
}

/// The index of the memory that a normalized link leads to.
pub fn find_target(mems: &[Mem], keys: &[Keys], key: &str) -> (r: Option<usize>)
    requires
        keyed(keys@, views(mems@)),
    ensures
        match r {
            Some(i) => i < mems@.len() && target(views(mems@), key@) == Some(mems@[i as int].file@),
            None => target(views(mems@), key@) is None,
        },
{
    let ghost all = views(mems@);
    let mut i: usize = mems.len();
    assert(all.take(i as int) =~= all);
    while i > 0
        invariant
            i <= mems@.len(),
            all == views(mems@),
            keyed(keys@, all),
            target(all, key@) == target(all.take(i as int), key@),
        decreases i,
    {
        let ghost head = all.take(i as int);
        assert(head.last() == mems@[i - 1]@);
        assert(head.drop_last() =~= all.take(i - 1));
        if same(&keys[i - 1].file, key) || same(&keys[i - 1].name, key) {
            return Some(i - 1);
        }
        i = i - 1;
    }
    None
}

/// Whether the totals over the memories can be counted.
pub fn can_count(mems: &[Mem]) -> (r: bool)
    ensures
        r == is_countable(views(mems@)),
{
    let ghost all = views(mems@);
    let mut links: usize = 0;
    let mut toks: usize = 0;
    let mut i: usize = 0;
    assert(all.take(0) =~= Seq::<Memory>::empty());
    while i < mems.len()
        invariant
            i <= mems@.len(),
            all == views(mems@),
            links == link_count(all.take(i as int)),
            toks == pool(all.take(i as int)),
        decreases mems@.len() - i,
    {
        let ghost head = all.take(i + 1);
        let m = &mems[i];
        assert(head.last() == m@);
        assert(head.drop_last() =~= all.take(i as int));
        proof {
            lemma_totals_grow(all, i + 1);
        }
        match (links.checked_add(m.links.len()), toks.checked_add(m.tok)) {
            (Some(a), Some(b)) => {
                links = a;
                toks = b;
            },
            _ => {
                return false;
            },
        }
        i = i + 1;
    }
    assert(all.take(i as int) =~= all);
    true
}

proof fn lemma_totals_grow(mems: Seq<Memory>, i: int)
    requires
        0 <= i <= mems.len(),
    ensures
        link_count(mems.take(i)) <= link_count(mems),
        pool(mems.take(i)) <= pool(mems),
    decreases mems.len(),
{
    if i == mems.len() {
        assert(mems.take(i) =~= mems);
    } else {
        assert(mems.drop_last().take(i) =~= mems.take(i));
        lemma_totals_grow(mems.drop_last(), i);
    }
}

proof fn lemma_broken_bound(mems: Seq<Memory>, todo: Seq<Memory>)
    ensures
        broken_count(mems, todo) <= link_count(todo),
    decreases todo.len(),
{
    if todo.len() > 0 {
        lemma_broken_bound(mems, todo.drop_last());
        lemma_filter_bound(todo.last().links, |l: Text| target(mems, normalized(l)) is None);
    }
}

/// A selection is no longer than what it is taken from.
pub proof fn lemma_filter_bound<A>(s: Seq<A>, p: spec_fn(A) -> bool)
    ensures
        s.filter(p).len() <= s.len(),
    decreases s.len(),
{
    reveal(Seq::filter);
    if s.len() > 0 {
        lemma_filter_bound(s.drop_last(), p);
    }
}

/// The edges that the links of the memories make, and how many links lead
/// nowhere.
pub fn follow_links(mems: &[Mem]) -> (r: (Vec<(String, String)>, usize))
    requires
        is_countable(views(mems@)),
    ensures
        pairs(r.0@) == edges_of(views(mems@), views(mems@)),
        r.1 == broken_count(views(mems@), views(mems@)),
{
    let keys = make_keys(mems);
    let ghost all = views(mems@);
    let mut edges: Vec<(String, String)> = Vec::new();
    let mut broken: usize = 0;
    let mut i: usize = 0;
    assert(all.take(0) =~= Seq::<Memory>::empty());
    assert(pairs(edges@) =~= edges_of(all, all.take(0)));
    while i < mems.len()
        invariant
            i <= mems@.len(),
            all == views(mems@),
            keyed(keys@, all),
            is_countable(all),
            pairs(edges@) == edges_of(all, all.take(i as int)),
            broken == broken_count(all, all.take(i as int)),
        decreases mems@.len() - i,
    {
        let m = &mems[i];
        let ghost links = texts(m.links@);
        let ghost head = all.take(i + 1);
        let ghost before = pairs(edges@);
        let ghost bad = broken as nat;
        assert(head.last() == m@);
        assert(head.drop_last() =~= all.take(i as int));
        proof {
            lemma_broken_bound(all, head);
            lemma_totals_grow(all, i + 1);
            reveal(Seq::filter);
            assert(links.take(0) =~= Seq::<Text>::empty());
            assert(before + edges_from(all, m.file@, links.take(0)) =~= before);
        }
        let mut j: usize = 0;
        while j < m.links.len()
            invariant
                j <= m.links@.len(),
                all == views(mems@),
                keyed(keys@, all),
                links == texts(m.links@),
                pairs(edges@) == before + edges_from(all, m.file@, links.take(j as int)),
                broken == bad + broken_links(all, links.take(j as int)).len(),
                bad + broken_links(all, links).len() <= usize::MAX,
            decreases m.links@.len() - j,
        {
            let l = &m.links[j];
            let ghost part = links.take(j + 1);
            let ghost sofar = pairs(edges@);
            assert(part.last() == l@);
            assert(part.drop_last() =~= links.take(j as int));
            proof {
                reveal(Seq::filter);
                lemma_part_bound(links, j + 1, |l: Text| target(all, normalized(l)) is None);
            }
            match find_target(mems, &keys, &norm(l)) {
                Some(t) => {
                    let edge = (m.file.clone(), mems[t].file.clone());
                    edges.push(edge);
                    assert(pairs(edges@) =~= sofar.push((m.file@, mems@[t as int].file@)));
                },
                None => {
                    broken = broken + 1;
                },
            }
            assert(pairs(edges@) =~= before + edges_from(all, m.file@, part));
            j = j + 1;
        }
        assert(links.take(j as int) =~= links);
        i = i + 1;
    }
    assert(all.take(i as int) =~= all);
    (edges, broken)
}

/// A selection from the front of a sequence is no longer than one from all of it.
proof fn lemma_part_bound<A>(s: Seq<A>, n: int, p: spec_fn(A) -> bool)
    requires
        0 <= n <= s.len(),
    ensures
        s.take(n).filter(p).len() <= s.filter(p).len(),
    decreases s.len(),
{
    reveal(Seq::filter);
    if n == s.len() {
        assert(s.take(n) =~= s);
    } else {
        assert(s.drop_last().take(n) =~= s.take(n));
        lemma_part_bound(s.drop_last(), n, p);
    }
}

/// Whether an edge begins or ends at a file.
fn touches(edges: &[(String, String)], file: &str) -> (r: bool)
    ensures
        r == is_linked(pairs(edges@), file@),
{
    let ghost all = pairs(edges@);
    let mut i: usize = 0;
    while i < edges.len()
        invariant
            i <= edges@.len(),
            all == pairs(edges@),
            forall|k: int| 0 <= k < i ==> (#[trigger] all[k]).0 != file@ && all[k].1 != file@,
        decreases edges@.len() - i,
    {
        assert(all[i as int] == (edges@[i as int].0@, edges@[i as int].1@));
        if same(&edges[i].0, file) || same(&edges[i].1, file) {
            return true;
        }
        i = i + 1;
    }
    false
}

/// The words in a file's name that make it look like one for every machine.
fn hint_words() -> (r: Vec<&'static str>)
    ensures
        r@.len() == hints().len(),
        forall|i: int| 0 <= i < r@.len() ==> (#[trigger] r@[i])@ == hints()[i],
{
    let mut r: Vec<&'static str> = Vec::new();
    r.push("mimir");
    r.push("mac_mini");
    r.push("macmini");
    r.push("machine");
    r.push("checkout");
    r.push("cadence");
    r.push("zsh");
    r.push("commit");
    r.push("backup");
    r.push("deploy");
    r
}

/// Whether a memory looks like one for every machine, yet is not shared.
fn flagged(m: &Mem, words: &Vec<&'static str>) -> (r: bool)
    requires
        words@.len() == hints().len(),
        forall|i: int| 0 <= i < words@.len() ==> (#[trigger] words@[i])@ == hints()[i],
    ensures
        r == is_flagged(m@),
{
    if m.shared || same(&m.typ, "reservation") {
        return false;
    }
    let mut i: usize = 0;
    while i < words.len()
        invariant
            i <= words@.len(),
            words@.len() == hints().len(),
            forall|k: int| 0 <= k < words@.len() ==> (#[trigger] words@[k])@ == hints()[k],
            forall|k: int| 0 <= k < i ==> !contains(m.file@, #[trigger] hints()[k]),
            !m.shared,
            is_knowledge(m@),
        decreases words@.len() - i,
    {
        assert(words@[i as int]@ == hints()[i as int]);
        if has(&m.file, words[i]) {
            return true;
        }
        i = i + 1;
    }
    false
}

/// The files that no edge touches.
fn find_isolated(mems: &[Mem], edges: &[(String, String)]) -> (r: Vec<String>)
    ensures
        texts(r@) == files_where(
            views(mems@),
            |m: Memory| !is_linked(pairs(edges@), m.file) && is_knowledge(m),
        ),
{
    let ghost all = views(mems@);
    let ghost p = |m: Memory| !is_linked(pairs(edges@), m.file) && is_knowledge(m);
    let mut r: Vec<String> = Vec::new();
    let mut i: usize = 0;
    assert(texts(r@) =~= files_where(all.take(0), p)) by {
        reveal(Seq::filter);
    }
    while i < mems.len()
        invariant
            i <= mems@.len(),
            all == views(mems@),
            p == (|m: Memory| !is_linked(pairs(edges@), m.file) && is_knowledge(m)),
            texts(r@) == files_where(all.take(i as int), p),
        decreases mems@.len() - i,
    {
        let ghost head = all.take(i + 1);
        let ghost done = texts(r@);
        assert(head.drop_last() =~= all.take(i as int));
        assert(head.last() == mems@[i as int]@);
        if !touches(edges, &mems[i].file) && !same(&mems[i].typ, "reservation") {
            r.push(mems[i].file.clone());
            assert(texts(r@) =~= done.push(head.last().file));
        }
        proof {
            reveal(Seq::filter);
            assert(texts(r@) =~= files_where(head, p));
        }
        i = i + 1;
    }
    assert(all.take(i as int) =~= all);
    r
}

/// The local files that look like ones for every machine.
fn find_flagged(mems: &[Mem]) -> (r: Vec<String>)
    ensures
        texts(r@) == files_where(views(mems@), |m: Memory| is_flagged(m)),
{
    let words = hint_words();
    let ghost all = views(mems@);
    let ghost p = |m: Memory| is_flagged(m);
    let mut r: Vec<String> = Vec::new();
    let mut i: usize = 0;
    assert(texts(r@) =~= files_where(all.take(0), p)) by {
        reveal(Seq::filter);
    }
    while i < mems.len()
        invariant
            i <= mems@.len(),
            all == views(mems@),
            p == (|m: Memory| is_flagged(m)),
            words@.len() == hints().len(),
            forall|k: int| 0 <= k < words@.len() ==> (#[trigger] words@[k])@ == hints()[k],
            texts(r@) == files_where(all.take(i as int), p),
        decreases mems@.len() - i,
    {
        let ghost head = all.take(i + 1);
        let ghost done = texts(r@);
        assert(head.drop_last() =~= all.take(i as int));
        assert(head.last() == mems@[i as int]@);
        if flagged(&mems[i], &words) {
            r.push(mems[i].file.clone());
            assert(texts(r@) =~= done.push(head.last().file));
        }
        proof {
            reveal(Seq::filter);
            assert(texts(r@) =~= files_where(head, p));
        }
        i = i + 1;
    }
    assert(all.take(i as int) =~= all);
    r
}

/// The names of some entries.
fn names_of(counts: &[Count]) -> (r: Vec<String>)
    ensures
        texts(r@) == views(counts@).map_values(|c: (Text, nat)| c.0),
{
    let mut r: Vec<String> = Vec::new();
    let mut i: usize = 0;
    while i < counts.len()
        invariant
            i <= counts@.len(),
            texts(r@) == views(counts@).map_values(|c: (Text, nat)| c.0).take(i as int),
        decreases counts@.len() - i,
    {
        let ghost done = texts(r@);
        r.push(counts[i].name.clone());
        assert(texts(r@) =~= done.push(counts@[i as int].name@));
        i = i + 1;
        assert(texts(r@) =~= views(counts@).map_values(|c: (Text, nat)| c.0).take(i as int));
    }
    assert(texts(r@) =~= views(counts@).map_values(|c: (Text, nat)| c.0));
    r
}

/// The files that should be split, the largest first.
fn find_oversized(mems: &[Mem]) -> (r: Vec<String>)
    ensures
        texts(r@) == oversized_files(views(mems@)),
{
    let ghost all = views(mems@);
    let ghost p = |m: Memory| is_oversized(m);
    let mut big: Vec<Count> = Vec::new();
    let mut i: usize = 0;
    assert(views(big@) =~= weights(all.take(0).filter(p))) by {
        reveal(Seq::filter);
    }
    while i < mems.len()
        invariant
            i <= mems@.len(),
            all == views(mems@),
            p == (|m: Memory| is_oversized(m)),
            views(big@) == weights(all.take(i as int).filter(p)),
        decreases mems@.len() - i,
    {
        let ghost head = all.take(i + 1);
        let ghost done = views(big@);
        assert(head.drop_last() =~= all.take(i as int));
        assert(head.last() == mems@[i as int]@);
        if mems[i].tok > OVERSIZE && !same(&mems[i].typ, "reservation") {
            let c = Count { name: mems[i].file.clone(), n: mems[i].tok };
            big.push(c);
            assert(views(big@) =~= done.push(c@));
        }
        proof {
            reveal(Seq::filter);
            assert(views(big@) =~= weights(head.filter(p)));
        }
        i = i + 1;
    }
    assert(all.take(i as int) =~= all);
    let big = rank(big);
    names_of(&big)
}

/// The types and the origins of the memories, how many are shared, and what they
/// take together.
fn sum_up(mems: &[Mem]) -> (r: (Vec<String>, Vec<String>, usize, usize))
    requires
        is_countable(views(mems@)),
    ensures
        texts(r.0@) == views(mems@).map_values(|m: Memory| m.typ),
        texts(r.1@) == views(mems@).map_values(|m: Memory| m.origin),
        r.2 == views(mems@).filter(|m: Memory| m.shared).len(),
        r.3 == pool(views(mems@)),
{
    let ghost all = views(mems@);
    let ghost p = |m: Memory| m.shared;
    let mut types: Vec<String> = Vec::new();
    let mut origins: Vec<String> = Vec::new();
    let mut shared: usize = 0;
    let mut toks: usize = 0;
    let mut i: usize = 0;
    assert(all.take(0) =~= Seq::<Memory>::empty());
    assert(all.take(0).filter(p).len() == 0) by {
        reveal(Seq::filter);
    }
    while i < mems.len()
        invariant
            i <= mems@.len(),
            all == views(mems@),
            is_countable(all),
            p == (|m: Memory| m.shared),
            texts(types@) == all.map_values(|m: Memory| m.typ).take(i as int),
            texts(origins@) == all.map_values(|m: Memory| m.origin).take(i as int),
            shared == all.take(i as int).filter(p).len(),
            shared <= i,
            toks == pool(all.take(i as int)),
        decreases mems@.len() - i,
    {
        let m = &mems[i];
        let ghost head = all.take(i + 1);
        let ghost done = texts(types@);
        let ghost from = texts(origins@);
        assert(head.drop_last() =~= all.take(i as int));
        assert(head.last() == m@);
        proof {
            reveal(Seq::filter);
            lemma_totals_grow(all, i + 1);
        }
        types.push(m.typ.clone());
        origins.push(m.origin.clone());
        assert(texts(types@) =~= done.push(m.typ@));
        assert(texts(origins@) =~= from.push(m.origin@));
        if m.shared {
            shared = shared + 1;
        }
        toks = toks + m.tok;
        i = i + 1;
        assert(texts(types@) =~= all.map_values(|m: Memory| m.typ).take(i as int));
        assert(texts(origins@) =~= all.map_values(|m: Memory| m.origin).take(i as int));
    }
    assert(all.take(i as int) =~= all);
    assert(texts(types@) =~= all.map_values(|m: Memory| m.typ));
    assert(texts(origins@) =~= all.map_values(|m: Memory| m.origin));
    (types, origins, shared, toks)
}

/// How many reservations are active.
pub fn count_active(rs: &[Resv]) -> (n: usize)
    ensures
        n == views(rs@).filter(|r: Reservation| is_active(r)).len(),
{
    let ghost all = views(rs@);
    let ghost p = |r: Reservation| is_active(r);
    let mut n: usize = 0;
    let mut i: usize = 0;
    assert(all.take(0).filter(p).len() == 0) by {
        reveal(Seq::filter);
    }
    while i < rs.len()
        invariant
            i <= rs@.len(),
            all == views(rs@),
            p == (|r: Reservation| is_active(r)),
            n == all.take(i as int).filter(p).len(),
            n <= i,
        decreases rs@.len() - i,
    {
        let ghost head = all.take(i + 1);
        assert(head.drop_last() =~= all.take(i as int));
        assert(head.last() == rs@[i as int]@);
        proof {
            reveal(Seq::filter);
        }
        if same(&rs[i].status, "active") {
            n = n + 1;
        }
        i = i + 1;
    }
    assert(all.take(i as int) =~= all);
    n
}

/// What the memories amount to, given the reservations and the always-on index.
pub fn analyze(mems: Vec<Mem>, resvs: &[Resv], index: &str) -> (a: Analysis)
    requires
        is_countable(views(mems@)),
    ensures
        a.describes(views(mems@), views(resvs@), index@),
        a.shared <= a.n,
        a.idx_tok <= usize::MAX / 4,
{
    let (edges, broken) = follow_links(&mems);
    let isolated = find_isolated(&mems, &edges);
    let (types, origins, shared, pool_tok) = sum_up(&mems);
    let oversized = find_oversized(&mems);
    let scope_flags = find_flagged(&mems);
    proof {
        lemma_filter_bound(views(mems@), |m: Memory| m.shared);
    }
    Analysis {
        edges,
        broken,
        isolated,
        idx_tok: count_tokens(index),
        pool_tok,
        n: mems.len(),
        shared,
        types: tally(&types),
        origins: tally(&origins),
        oversized,
        scope_flags,
        resv_active: count_active(resvs),
        resv_collisions: count_resv_collisions(resvs),
        mems,
    }
}

/// Every link either makes an edge or is broken.
pub proof fn links_are_edges_or_broken(mems: Seq<Memory>, todo: Seq<Memory>)
    ensures
        edges_of(mems, todo).len() + broken_count(mems, todo) == link_count(todo),
    decreases todo.len(),
{
    if todo.len() > 0 {
        links_are_edges_or_broken(mems, todo.drop_last());
        lemma_links_split(mems, todo.last().links);
    }
}

proof fn lemma_links_split(mems: Seq<Memory>, links: Seq<Text>)
    ensures
        links.filter(|l: Text| target(mems, normalized(l)) is Some).len() + broken_links(
            mems,
            links,
        ).len() == links.len(),
    decreases links.len(),
{
    reveal(Seq::filter);
    if links.len() > 0 {
        lemma_links_split(mems, links.drop_last());
    }
}

/// A link leads somewhere exactly where some memory answers to it, and then to
/// the file of one that does.
pub proof fn target_answers(mems: Seq<Memory>, key: Text)
    ensures
        target(mems, key) is Some <==> exists|i: int|
            0 <= i < mems.len() && answers(#[trigger] mems[i], key),
        target(mems, key) matches Some(f) ==> exists|i: int|
            0 <= i < mems.len() && answers(#[trigger] mems[i], key) && mems[i].file == f,
    decreases mems.len(),
{
    if mems.len() > 0 {
        let head = mems.drop_last();
        target_answers(head, key);
        if answers(mems.last(), key) {
            assert(answers(mems[mems.len() - 1], key));
        } else {
            if target(head, key) is Some {
                let f = target(head, key)->0;
                let i = choose|i: int|
                    0 <= i < head.len() && answers(#[trigger] head[i], key) && head[i].file == f;
                assert(answers(mems[i], key) && mems[i].file == f);
            }
            if exists|i: int| 0 <= i < mems.len() && answers(#[trigger] mems[i], key) {
                let i = choose|i: int| 0 <= i < mems.len() && answers(#[trigger] mems[i], key);
                assert(answers(head[i], key));
            }
        }
    }
}

/// Both ends of every edge are files of memories.
pub proof fn edges_join_memories(mems: Seq<Memory>, todo: Seq<Memory>)
    requires
        forall|k: int| 0 <= k < todo.len() ==> mems.contains(#[trigger] todo[k]),
    ensures
        forall|i: int|
            0 <= i < edges_of(mems, todo).len() ==> {
                let e = #[trigger] edges_of(mems, todo)[i];
                &&& exists|a: int| 0 <= a < mems.len() && (#[trigger] mems[a]).file == e.0
                &&& exists|b: int| 0 <= b < mems.len() && (#[trigger] mems[b]).file == e.1
            },
    decreases todo.len(),
{
    if todo.len() > 0 {
        let head = todo.drop_last();
        let m = todo[todo.len() - 1];
        assert forall|k: int| 0 <= k < head.len() implies mems.contains(#[trigger] head[k]) by {
            assert(head[k] == todo[k]);
        }
        edges_join_memories(mems, head);
        let old = edges_of(mems, head);
        let new = edges_from(mems, m.file, m.links);
        let p = |l: Text| target(mems, normalized(l)) is Some;
        assert(edges_of(mems, todo) == old + new);
        assert forall|i: int| 0 <= i < (old + new).len() implies {
            let e = #[trigger] (old + new)[i];
            &&& exists|a: int| 0 <= a < mems.len() && (#[trigger] mems[a]).file == e.0
            &&& exists|b: int| 0 <= b < mems.len() && (#[trigger] mems[b]).file == e.1
        } by {
            if i < old.len() {
                assert((old + new)[i] == old[i]);
            } else {
                let k = i - old.len();
                let l = m.links.filter(p)[k];
                assert((old + new)[i] == new[k]);
                assert(new[k] == (m.file, target(mems, normalized(l))->0));
                lemma_filter_holds(m.links, p, k);
                target_answers(mems, normalized(l));
                let a = choose|a: int| 0 <= a < mems.len() && mems[a] == m;
                assert(mems[a].file == m.file);
            }
        }
    }
}

/// What is selected satisfies the condition of the selection, and was there.
pub proof fn lemma_filter_holds<A>(s: Seq<A>, p: spec_fn(A) -> bool, k: int)
    requires
        0 <= k < s.filter(p).len(),
    ensures
        p(s.filter(p)[k]),
        s.contains(s.filter(p)[k]),
    decreases s.len(),
{
    reveal(Seq::filter);
    if s.len() > 0 {
        let f = s.drop_last().filter(p);
        if k < f.len() {
            lemma_filter_holds(s.drop_last(), p, k);
            assert(s.filter(p)[k] == f[k]);
            let j = choose|j: int| 0 <= j < s.drop_last().len() && s.drop_last()[j] == f[k];
            assert(s[j] == f[k]);
        } else {
            assert(s[s.len() - 1] == s.filter(p)[k]);
        }
    }
}

} // verus!

//! Searching the memories, and the neighbours of what was found.
use crate::analysis::files_where;
use crate::frontmatter::{frontmatter, frontmatter_of};
use crate::links::pairs;
use crate::memory::{field_or, fm_field_or, Mem, Memory};
use crate::number::{decimal, size};
use crate::order::{less, rank, ranked, text_less, views, Ranked};
use crate::text::{
    contains, has, join, joined, pad, padded, repeat, repeated, same, slices, split_words, texts,
    words_of, Text,
};
use vstd::prelude::*;

verus! {

/// A text in small letters, as `str::to_lowercase` gives it.
pub uninterp spec fn lowercase(s: Seq<char>) -> Seq<char>;

/// Calls `str::to_lowercase`, which maps a text to small letters by Unicode's
/// tables, whatever the locale. Only that the result depends on the text alone is
/// claimed.
#[verifier::external_body]
pub(crate) fn lower_case(s: &str) -> (r: String)
    ensures
        r@ == lowercase(s@),
{
    s.to_lowercase()
}

/// What is searched of a memory, in small letters.
pub struct Lowered {
    pub file: Text,
    pub name: Text,
    pub desc: Text,
    pub body: Text,
}

/// Whether a word is in the file's name or in the memory's name.
pub open spec fn in_name(t: Text, m: Lowered) -> bool {
    contains(m.file, t) || contains(m.name, t)
}

/// What a word is worth: six in a name, three in the description, one in the body.
pub open spec fn points(t: Text, m: Lowered) -> nat {
    (if in_name(t, m) {
        6nat
    } else {
        0
    }) + (if contains(m.desc, t) {
        3nat
    } else {
        0
    }) + (if contains(m.body, t) {
        1nat
    } else {
        0
    })
}

/// What some words are worth together.
pub open spec fn score_of(ts: Seq<Text>, m: Lowered) -> nat
    decreases ts.len(),
{
    if ts.len() == 0 {
        0
    } else {
        score_of(ts.drop_last(), m) + points(ts.last(), m)
    }
}

/// Where some words were found.
pub open spec fn fields_of(ts: Seq<Text>, m: Lowered) -> Text {
    let n = exists|i: int| 0 <= i < ts.len() && in_name(#[trigger] ts[i], m);
    let d = exists|i: int| 0 <= i < ts.len() && contains(m.desc, #[trigger] ts[i]);
    let b = exists|i: int| 0 <= i < ts.len() && contains(m.body, #[trigger] ts[i]);
    joined(
        (if n {
            seq!["name"@]
        } else {
            Seq::empty()
        }) + (if d {
            seq!["desc"@]
        } else {
            Seq::empty()
        }) + (if b {
            seq!["body"@]
        } else {
            Seq::empty()
        }),
        "+"@,
    )
}

/// A memory made ready for searching.
pub open spec fn lowered(file: Text, name: Text, desc: Text, body: Text) -> Lowered {
    Lowered {
        file: lowercase(file),
        name: lowercase(name),
        desc: lowercase(desc),
        body: lowercase(body),
    }
}

proof fn lemma_score_bound(ts: Seq<Text>, m: Lowered)
    ensures
        score_of(ts, m) <= 10 * ts.len(),
    decreases ts.len(),
{
    if ts.len() > 0 {
        lemma_score_bound(ts.drop_last(), m);
    }
}

/// Scores words against a memory whose texts are in small letters already; also
/// says where they were found.
pub fn score_lowered(tokens: &[&str], file: &str, name: &str, desc: &str, body: &str) -> (r: (i32, String))
    requires
        tokens@.len() * 10 <= i32::MAX,
    ensures
        r.0 == score_of(
            slices(tokens@),
            (Lowered { file: file@, name: name@, desc: desc@, body: body@ }),
        ),
        r.1@ == fields_of(
            slices(tokens@),
            (Lowered { file: file@, name: name@, desc: desc@, body: body@ }),
        ),
{
    let ghost ts = slices(tokens@);
    let ghost m = Lowered { file: file@, name: name@, desc: desc@, body: body@ };
    let mut score: i32 = 0;
    let mut n = false;
    let mut d = false;
    let mut b = false;
    let mut i: usize = 0;
    assert(ts.take(0) =~= Seq::<Text>::empty());
    while i < tokens.len()
        invariant
            i <= tokens@.len(),
            tokens@.len() * 10 <= i32::MAX,
            ts == slices(tokens@),
            m == (Lowered { file: file@, name: name@, desc: desc@, body: body@ }),
            score == score_of(ts.take(i as int), m),
            0 <= score <= 10 * i,
            n == exists|k: int| 0 <= k < i && in_name(#[trigger] ts[k], m),
            d == exists|k: int| 0 <= k < i && contains(m.desc, #[trigger] ts[k]),
            b == exists|k: int| 0 <= k < i && contains(m.body, #[trigger] ts[k]),
        decreases tokens@.len() - i,
    {
        let t = tokens[i];
        assert(ts[i as int] == t@);
        assert(ts.take(i + 1).drop_last() =~= ts.take(i as int));
        assert(ts.take(i + 1).last() == t@);
        if has(file, t) || has(name, t) {
            score = score + 6;
            n = true;
            assert(in_name(ts[i as int], m));
        }
        if has(desc, t) {
            score = score + 3;
            d = true;
            assert(contains(m.desc, ts[i as int]));
        }
        if has(body, t) {
            score = score + 1;
            b = true;
            assert(contains(m.body, ts[i as int]));
        }
        i = i + 1;
    }
    assert(ts.take(i as int) =~= ts);
    let mut f: Vec<String> = Vec::new();
    if n {
        f.push("name".to_string());
    }
    if d {
        f.push("desc".to_string());
    }
    if b {
        f.push("body".to_string());
    }
    assert(texts(f@) =~= (if n {
        seq!["name"@]
    } else {
        Seq::empty()
    }) + (if d {
        seq!["desc"@]
    } else {
        Seq::empty()
    }) + (if b {
        seq!["body"@]
    } else {
        Seq::empty()
    }));
    (score, join(&f, "+"))
}

/// Scores words in small letters against a memory: per word six for a name, three
/// for the description, one for the body. Also says where they were found.
pub fn score_match(tokens: &[&str], file: &str, name: &str, desc: &str, body: &str) -> (r: (i32, String))
    requires
        tokens@.len() * 10 <= i32::MAX,
    ensures
        r.0 == score_of(slices(tokens@), lowered(file@, name@, desc@, body@)),
        r.1@ == fields_of(slices(tokens@), lowered(file@, name@, desc@, body@)),
{
    let fl = lower_case(file);
    let nm = lower_case(name);
    let dl = lower_case(desc);
    let bl = lower_case(body);
    score_lowered(tokens, &fl, &nm, &dl, &bl)
}

/// The words of a query, in small letters.
pub fn query_words(query: &str) -> (r: Vec<String>)
    ensures
        texts(r@) == words_of(lowercase(query@)),
{
    split_words(&lower_case(query))
}

/// A file that was found.
pub struct Hit {
    pub file: String,
    pub score: i32,
    pub fields: String,
}

impl View for Hit {
    type V = (Text, int, Text);

    open spec fn view(&self) -> (Text, int, Text) {
        (self.file@, self.score as int, self.fields@)
    }
}

impl Ranked for Hit {
    /// The higher score comes first, then the file's name counts.
    open spec fn precedes(a: (Text, int, Text), b: (Text, int, Text)) -> bool {
        a.1 > b.1 || (a.1 == b.1 && text_less(a.0, b.0))
    }

    fn is_before(&self, other: &Self) -> (r: bool) {
        self.score > other.score || (self.score == other.score && less(&self.file, &other.file))
    }
}

/// How a file scores.
pub open spec fn hit_of(ts: Seq<Text>, file: Text, content: Text) -> (Text, int, Text) {
    let fm = frontmatter_of(content);
    let m = lowered(file, field_or(fm, "name"@, ""@), field_or(fm, "description"@, ""@), content);
    (file, score_of(ts, m) as int, fields_of(ts, m))
}

/// The files in which some word occurs.
pub open spec fn hits_in(ts: Seq<Text>, files: Seq<(Text, Text)>) -> Seq<(Text, int, Text)> {
    files.map_values(|f: (Text, Text)| hit_of(ts, f.0, f.1)).filter(
        |h: (Text, int, Text)| h.1 > 0,
    )
}

/// The best of what was found, fifteen at most.
pub open spec fn best_of(hits: Seq<(Text, int, Text)>) -> Seq<(Text, int, Text)> {
    let r = ranked::<Hit>(hits);
    if r.len() > 15 {
        r.take(15)
    } else {
        r
    }
}

/// The best of what was found, fifteen at most.
pub fn take_best(hits: Vec<Hit>) -> (r: Vec<Hit>)
    ensures
        views(r@) == best_of(views(hits@)),
{
    let mut r = rank(hits);
    let ghost all = views(r@);
    if r.len() > 15 {
        r.truncate(15);
        assert(views(r@) =~= all.take(15));
    }
    r
}

/// Searches the files, each given by its name and its content, for words in small
/// letters.
pub fn search(tokens: &[String], files: &[(String, String)]) -> (r: Vec<Hit>)
    requires
        tokens@.len() * 10 <= i32::MAX,
    ensures
        views(r@) == best_of(hits_in(texts(tokens@), pairs(files@))),
{
    let mut ts: Vec<&str> = Vec::new();
    let mut k: usize = 0;
    while k < tokens.len()
        invariant
            k <= tokens@.len(),
            slices(ts@) == texts(tokens@).take(k as int),
        decreases tokens@.len() - k,
    {
        let ghost done = slices(ts@);
        ts.push(tokens[k].as_str());
        assert(slices(ts@) =~= done.push(tokens@[k as int]@));
        k = k + 1;
        assert(slices(ts@) =~= texts(tokens@).take(k as int));
    }
    assert(slices(ts@) =~= texts(tokens@));
    let ghost words = texts(tokens@);
    let ghost all = pairs(files@).map_values(|f: (Text, Text)| hit_of(words, f.0, f.1));
    let ghost p = |h: (Text, int, Text)| h.1 > 0;
    let mut hits: Vec<Hit> = Vec::new();
    let mut i: usize = 0;
    assert(views(hits@) =~= all.take(0).filter(p)) by {
        reveal(Seq::filter);
    }
    while i < files.len()
        invariant
            i <= files@.len(),
            ts@.len() * 10 <= i32::MAX,
            slices(ts@) == words,
            all == pairs(files@).map_values(|f: (Text, Text)| hit_of(words, f.0, f.1)),
            p == (|h: (Text, int, Text)| h.1 > 0),
            views(hits@) == all.take(i as int).filter(p),
        decreases files@.len() - i,
    {
        let ghost head = all.take(i + 1);
        let ghost done = views(hits@);
        assert(head.drop_last() =~= all.take(i as int));
        assert(pairs(files@)[i as int] == (files@[i as int].0@, files@[i as int].1@));
        let file = &files[i].0;
        let c = &files[i].1;
        let fm = frontmatter(c);
        let name = fm_field_or(fm, "name", "");
        let desc = fm_field_or(fm, "description", "");
        let (score, fields) = score_match(&ts, file, &name, &desc, c);
        assert(head.last() == hit_of(words, file@, c@));
        if score > 0 {
            let h = Hit { file: file.clone(), score, fields };
            hits.push(h);
            assert(views(hits@) =~= done.push(h@));
        }
        proof {
            reveal(Seq::filter);
        }
        i = i + 1;
    }
    assert(all.take(i as int) =~= all);
    take_best(hits)
}

/// How long the bar of a score is, ten for the best.
pub open spec fn bar_len(score: int, best: int) -> nat {
    let n = score * 10 / (if best > 1 {
        best
    } else {
        1
    });
    if n > 1 {
        n as nat
    } else {
        1
    }
}

/// The line for a file that was found.
pub open spec fn hit_line(h: (Text, int, Text), best: int) -> Text {
    "  "@ + padded(h.0, 46) + padded(repeated("█"@, bar_len(h.1, best)), 11) + "["@ + h.2 + "]"@
}

/// What the user is told of a search.
pub open spec fn search_lines(query: Text, hits: Seq<(Text, int, Text)>) -> Seq<Text> {
    if hits.len() == 0 {
        seq!["no matches for \""@ + query + "\""@]
    } else {
        seq!["🔍 \""@ + query + "\" — "@ + decimal(hits.len()) + " match(es)"@] + hits.map_values(
            |h: (Text, int, Text)| hit_line(h, hits[0].1),
        )
    }
}

/// What the user is told of a search.
pub fn report_search(query: &str, hits: &[Hit]) -> (r: Vec<String>)
    requires
        forall|i: int| 0 <= i < hits@.len() ==> 0 <= (#[trigger] hits@[i]).score * 10 <= i32::MAX,
    ensures
        texts(r@) == search_lines(query@, views(hits@)),
{
    let mut r: Vec<String> = Vec::new();
    if hits.len() == 0 {
        let mut s = "no matches for \"".to_string();
        s.append(query);
        s.append("\"");
        r.push(s);
        assert(texts(r@) =~= seq![s@]);
        return r;
    }
    let ghost all = views(hits@);
    let best = hits[0].score;
    let max = if best > 1 {
        best
    } else {
        1
    };
    let mut s = "🔍 \"".to_string();
    s.append(query);
    s.append("\" — ");
    s.append(&size(hits.len()));
    s.append(" match(es)");
    r.push(s);
    let ghost top = seq![s@];
    let ghost f = |h: (Text, int, Text)| hit_line(h, all[0].1);
    assert(all[0].1 == best);
    assert(texts(r@) =~= top + all.map_values(f).take(0));
    let mut i: usize = 0;
    while i < hits.len()
        invariant
            i <= hits@.len(),
            all == views(hits@),
            hits@.len() > 0,
            all[0].1 == best,
            f == (|h: (Text, int, Text)| hit_line(h, all[0].1)),
            max == (if best > 1 {
                best
            } else {
                1
            }),
            forall|k: int| 0 <= k < hits@.len() ==> 0 <= (#[trigger] hits@[k]).score * 10 <= i32::MAX,
            texts(r@) == top + all.map_values(f).take(i as int),
        decreases hits@.len() - i,
    {
        let h = &hits[i];
        let ghost done = texts(r@);
        assert(hits@[i as int] == *h);
        let q: i32 = h.score * 10 / max;
        let n: usize = if q > 1 {
            q as usize
        } else {
            1
        };
        let mut t = "  ".to_string();
        t.append(&pad(&h.file, 46));
        t.append(&pad(&repeat("█", n), 11));
        t.append("[");
        t.append(&h.fields);
        t.append("]");
        assert(all[i as int] == h@);
        assert(t@ == f(all[i as int]));
        r.push(t);
        assert(texts(r@) =~= done.push(t@));
        i = i + 1;
        assert(texts(r@) =~= top + all.map_values(f).take(i as int));
    }
    assert(all.map_values(f).take(i as int) =~= all.map_values(f));
    r
}

/// What was found that an edge joins to a file which was not: the first edge
/// counts.
pub open spec fn led_by(edges: Seq<(Text, Text)>, found: Seq<Text>, file: Text) -> Option<Text>
    decreases edges.len(),
{
    if found.contains(file) || edges.len() == 0 {
        None
    } else if edges[0].1 == file && found.contains(edges[0].0) {
        Some(edges[0].0)
    } else if edges[0].0 == file && found.contains(edges[0].1) {
        Some(edges[0].1)
    } else {
        led_by(edges.skip(1), found, file)
    }
}

/// The neighbours of what was found, in the order of the memories.
pub open spec fn neighbours(mems: Seq<Memory>, edges: Seq<(Text, Text)>, found: Seq<Text>) -> Seq<
    (Text, Text),
> {
    files_where(mems, |m: Memory| led_by(edges, found, m.file) is Some).map_values(
        |f: Text| (f, led_by(edges, found, f)->0),
    )
}

/// What the user is told of the neighbours.
pub open spec fn neighbour_lines(nb: Seq<(Text, Text)>) -> Seq<Text> {
    if nb.len() == 0 {
        Seq::empty()
    } else {
        seq!["  ── related via [[links]] ──"@] + nb.map_values(
            |n: (Text, Text)| "  "@ + padded(n.0, 46) + "↳ from "@ + n.1,
        )
    }
}

fn was_found(hits: &[Hit], file: &str) -> (r: bool)
    ensures
        r == views(hits@).map_values(|h: (Text, int, Text)| h.0).contains(file@),
{
    let ghost names = views(hits@).map_values(|h: (Text, int, Text)| h.0);
    let mut i: usize = 0;
    while i < hits.len()
        invariant
            i <= hits@.len(),
            names == views(hits@).map_values(|h: (Text, int, Text)| h.0),
            forall|k: int| 0 <= k < i ==> #[trigger] names[k] != file@,
        decreases hits@.len() - i,
    {
        assert(names[i as int] == hits@[i as int].file@);
        if same(&hits[i].file, file) {
            return true;
        }
        i = i + 1;
    }
    false
}

/// What was found that an edge joins to a file which was not.
fn find_lead(edges: &[(String, String)], hits: &[Hit], file: &str) -> (r: Option<String>)
    ensures
        match r {
            Some(v) => led_by(
                pairs(edges@),
                views(hits@).map_values(|h: (Text, int, Text)| h.0),
                file@,
            ) == Some(v@),
            None => led_by(
                pairs(edges@),
                views(hits@).map_values(|h: (Text, int, Text)| h.0),
                file@,
            ) is None,
        },
{
    let ghost found = views(hits@).map_values(|h: (Text, int, Text)| h.0);
    let ghost all = pairs(edges@);
    if was_found(hits, file) {
        return None;
    }
    let mut i: usize = 0;
    assert(all.skip(0) =~= all);
    while i < edges.len()
        invariant
            i <= edges@.len(),
            all == pairs(edges@),
            found == views(hits@).map_values(|h: (Text, int, Text)| h.0),
            !found.contains(file@),
            led_by(all, found, file@) == led_by(all.skip(i as int), found, file@),
        decreases edges@.len() - i,
    {
        let ghost rest = all.skip(i as int);
        assert(rest[0] == (edges@[i as int].0@, edges@[i as int].1@));
        assert(rest.skip(1) =~= all.skip(i + 1));
        if same(&edges[i].1, file) && was_found(hits, &edges[i].0) {
            return Some(edges[i].0.clone());
        }
        if same(&edges[i].0, file) && was_found(hits, &edges[i].1) {
            return Some(edges[i].1.clone());
        }
        i = i + 1;
    }
    None
}

/// The neighbours of what was found, each with what it was found by.
pub fn expand(mems: &[Mem], edges: &[(String, String)], hits: &[Hit]) -> (r: Vec<(String, String)>)
    ensures
        pairs(r@) == neighbours(
            views(mems@),
            pairs(edges@),
            views(hits@).map_values(|h: (Text, int, Text)| h.0),
        ),
{
    let ghost found = views(hits@).map_values(|h: (Text, int, Text)| h.0);
    let ghost all = views(mems@);
    let ghost es = pairs(edges@);
    let ghost p = |m: Memory| led_by(es, found, m.file) is Some;
    let mut r: Vec<(String, String)> = Vec::new();
    let mut i: usize = 0;
    assert(pairs(r@) =~= neighbours(all.take(0), es, found)) by {
        reveal(Seq::filter);
    }
    while i < mems.len()
        invariant
            i <= mems@.len(),
            all == views(mems@),
            es == pairs(edges@),
            found == views(hits@).map_values(|h: (Text, int, Text)| h.0),
            p == (|m: Memory| led_by(es, found, m.file) is Some),
            pairs(r@) == neighbours(all.take(i as int), es, found),
        decreases mems@.len() - i,
    {
        let m = &mems[i];
        let ghost head = all.take(i + 1);
        let ghost done = pairs(r@);
        assert(head.drop_last() =~= all.take(i as int));
        assert(head.last() == m@);
        match find_lead(edges, hits, &m.file) {
            Some(v) => {
                let pair = (m.file.clone(), v);
                r.push(pair);
                assert(pairs(r@) =~= done.push((m.file@, led_by(es, found, m.file@)->0)));
            },
            None => {},
        }
        proof {
            reveal(Seq::filter);
            assert(pairs(r@) =~= neighbours(head, es, found));
        }
        i = i + 1;
    }
    assert(all.take(i as int) =~= all);
    r
}

/// What the user is told of the neighbours.
pub fn report_neighbours(nb: &[(String, String)]) -> (r: Vec<String>)
    ensures
        texts(r@) == neighbour_lines(pairs(nb@)),
{
    let ghost all = pairs(nb@);
    let ghost f = |n: (Text, Text)| "  "@ + padded(n.0, 46) + "↳ from "@ + n.1;
    let mut r: Vec<String> = Vec::new();
    if nb.len() == 0 {
        assert(texts(r@) =~= Seq::<Text>::empty());
        return r;
    }
    r.push("  ── related via [[links]] ──".to_string());
    let ghost top = seq!["  ── related via [[links]] ──"@];
    assert(texts(r@) =~= top + all.map_values(f).take(0));
    let mut i: usize = 0;
    while i < nb.len()
        invariant
            i <= nb@.len(),
            all == pairs(nb@),
            f == (|n: (Text, Text)| "  "@ + padded(n.0, 46) + "↳ from "@ + n.1),
            texts(r@) == top + all.map_values(f).take(i as int),
        decreases nb@.len() - i,
    {
        let ghost done = texts(r@);
        let mut t = "  ".to_string();
        t.append(&pad(&nb[i].0, 46));
        t.append("↳ from ");
        t.append(&nb[i].1);
        assert(all[i as int] == (nb@[i as int].0@, nb@[i as int].1@));
        assert(t@ == f(all[i as int]));
        r.push(t);
        assert(texts(r@) =~= done.push(t@));
        i = i + 1;
        assert(texts(r@) =~= top + all.map_values(f).take(i as int));
    }
    assert(all.map_values(f).take(i as int) =~= all.map_values(f));
    r
}

/// A memory scores above zero exactly where some word occurs in it.
pub proof fn score_means_found(ts: Seq<Text>, m: Lowered)
    ensures
        score_of(ts, m) > 0 <==> exists|i: int|
            0 <= i < ts.len() && (in_name(#[trigger] ts[i], m) || contains(m.desc, ts[i]) || contains(
                m.body,
                ts[i],
            )),
        score_of(ts, m) <= 10 * ts.len(),
    decreases ts.len(),
{
    lemma_score_bound(ts, m);
    if ts.len() > 0 {
        let head = ts.drop_last();
        score_means_found(head, m);
        if score_of(head, m) > 0 {
            let i = choose|i: int|
                0 <= i < head.len() && (in_name(#[trigger] head[i], m) || contains(m.desc, head[i])
                    || contains(m.body, head[i]));
            assert(ts[i] == head[i]);
        }
        if exists|i: int|
            0 <= i < ts.len() && (in_name(#[trigger] ts[i], m) || contains(m.desc, ts[i]) || contains(
                m.body,
                ts[i],
            )) {
            let i = choose|i: int|
                0 <= i < ts.len() && (in_name(#[trigger] ts[i], m) || contains(m.desc, ts[i])
                    || contains(m.body, ts[i]));
            if i < head.len() {
                assert(head[i] == ts[i]);
            }
        }
        if points(ts.last(), m) > 0 {
            let i = ts.len() - 1;
            assert(in_name(ts[i], m) || contains(m.desc, ts[i]) || contains(m.body, ts[i]));
        }
    }
}

} // verus!

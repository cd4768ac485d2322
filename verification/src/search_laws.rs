//! What a search finds, what it is worth, and what is shown of it.
use crate::analysis::{files_where, lemma_filter_holds};
use crate::frontmatter::{field, frontmatter_of};
use crate::link_laws::{found_means_inside, inside};
use crate::memory::Memory;
use crate::order::{ranked, ranking_permutes, text_less};
use crate::order_laws::best_come_first;
use crate::repair_laws::lemma_filter_keeps;
use crate::search::{
    best_of, fields_of, hit_of, hits_in, in_name, led_by, lowercase, lowered, neighbours, score_of,
    Hit, Lowered,
};
use crate::text::{contains, joined, lines_of, prefixed, Text};
use vstd::prelude::*;

verus! {

/// One word is worth six where it stands in the file's or the memory's name, three
/// more in the description and one more in the body.
pub proof fn word_is_worth(t: Text, m: Lowered)
    ensures
        score_of(seq![t], m) == (if inside(t, m.file) || inside(t, m.name) {
            6int
        } else {
            0
        }) + (if inside(t, m.desc) {
            3int
        } else {
            0
        }) + (if inside(t, m.body) {
            1int
        } else {
            0
        }),
{
    lemma_words_inside(t, m);
    let none = Seq::<Text>::empty();
    assert(seq![t].drop_last() =~= none);
    assert(score_of(none, m) == 0);
}

proof fn lemma_words_inside(t: Text, m: Lowered)
    ensures
        contains(m.file, t) == inside(t, m.file),
        contains(m.name, t) == inside(t, m.name),
        contains(m.desc, t) == inside(t, m.desc),
        contains(m.body, t) == inside(t, m.body),
{
    found_means_inside(m.file, t);
    found_means_inside(m.name, t);
    found_means_inside(m.desc, t);
    found_means_inside(m.body, t);
}

/// Words are worth what each of them is worth.
pub proof fn scores_add_up(a: Seq<Text>, b: Seq<Text>, m: Lowered)
    ensures
        score_of(a + b, m) == score_of(a, m) + score_of(b, m),
    decreases b.len(),
{
    if b.len() == 0 {
        assert(a + b =~= a);
    } else {
        assert((a + b).drop_last() =~= a + b.drop_last());
        scores_add_up(a, b.drop_last(), m);
    }
}

/// Whether some word stands in a text.
pub open spec fn some_inside(ts: Seq<Text>, s: Text) -> bool {
    exists|i: int| 0 <= i < ts.len() && inside(#[trigger] ts[i], s)
}

/// Where words were found is said in words: in a name, the description, the body.
pub proof fn fields_say_where(ts: Seq<Text>, m: Lowered)
    ensures
        ({
            let n = some_inside(ts, m.file) || some_inside(ts, m.name);
            let d = some_inside(ts, m.desc);
            let b = some_inside(ts, m.body);
            &&& n && d && b ==> fields_of(ts, m) == "name+desc+body"@
            &&& n && d && !b ==> fields_of(ts, m) == "name+desc"@
            &&& n && !d && b ==> fields_of(ts, m) == "name+body"@
            &&& n && !d && !b ==> fields_of(ts, m) == "name"@
            &&& !n && d && b ==> fields_of(ts, m) == "desc+body"@
            &&& !n && d && !b ==> fields_of(ts, m) == "desc"@
            &&& !n && !d && b ==> fields_of(ts, m) == "body"@
            &&& !n && !d && !b ==> fields_of(ts, m) == ""@
        }),
{
    reveal_strlit("name+desc+body");
    reveal_strlit("name+desc");
    reveal_strlit("name+body");
    reveal_strlit("desc+body");
    reveal_strlit("name");
    reveal_strlit("desc");
    reveal_strlit("body");
    reveal_strlit("+");
    reveal_strlit("");
    let n0 = exists|i: int| 0 <= i < ts.len() && in_name(#[trigger] ts[i], m);
    let d0 = exists|i: int| 0 <= i < ts.len() && contains(m.desc, #[trigger] ts[i]);
    let b0 = exists|i: int| 0 <= i < ts.len() && contains(m.body, #[trigger] ts[i]);
    let n = some_inside(ts, m.file) || some_inside(ts, m.name);
    let d = some_inside(ts, m.desc);
    let b = some_inside(ts, m.body);
    assert forall|i: int| 0 <= i < ts.len() implies in_name(#[trigger] ts[i], m) == (inside(
        ts[i],
        m.file,
    ) || inside(ts[i], m.name)) && contains(m.desc, ts[i]) == inside(ts[i], m.desc) && contains(
        m.body,
        ts[i],
    ) == inside(ts[i], m.body) by {
        lemma_words_inside(ts[i], m);
    }
    assert(n0 == n);
    assert(d0 == d);
    assert(b0 == b);
    let sn = if n {
        seq!["name"@]
    } else {
        Seq::empty()
    };
    let sd = if d {
        seq!["desc"@]
    } else {
        Seq::empty()
    };
    let sb = if b {
        seq!["body"@]
    } else {
        Seq::empty()
    };
    let all = sn + sd + sb;
    lemma_joined_few(all, "+"@);
    assert(fields_of(ts, m) == joined(all, "+"@));
    if n && d && b {
        assert(fields_of(ts, m) =~= "name+desc+body"@);
    } else if n && d {
        assert(fields_of(ts, m) =~= "name+desc"@);
    } else if n && b {
        assert(fields_of(ts, m) =~= "name+body"@);
    } else if d && b {
        assert(fields_of(ts, m) =~= "desc+body"@);
    } else if n {
        assert(fields_of(ts, m) =~= "name"@);
    } else if d {
        assert(fields_of(ts, m) =~= "desc"@);
    } else if b {
        assert(fields_of(ts, m) =~= "body"@);
    } else {
        assert(fields_of(ts, m) =~= ""@);
    }
}

proof fn lemma_joined_few(s: Seq<Text>, sep: Text)
    ensures
        s.len() == 0 ==> joined(s, sep) == Seq::<char>::empty(),
        s.len() == 1 ==> joined(s, sep) == s[0],
        s.len() == 2 ==> joined(s, sep) == s[0] + (sep + s[1]),
        s.len() == 3 ==> joined(s, sep) == s[0] + (sep + s[1] + (sep + s[2])),
{
    reveal_with_fuel(prefixed, 3);
    if s.len() > 0 {
        let a = s.skip(1);
        if s.len() == 1 {
            assert(joined(s, sep) =~= s[0]);
        } else {
            let b = a.skip(1);
            assert(a[0] == s[1]);
            if s.len() == 2 {
                assert(prefixed(a, sep) =~= sep + s[1]);
            } else if s.len() == 3 {
                assert(b[0] == s[2]);
                assert(prefixed(b, sep) =~= sep + s[2]);
            }
        }
    }
}

/// The value of a frontmatter field, empty where it is not there.
pub open spec fn value_or_empty(content: Text, key: Text) -> Text {
    match field(lines_of(frontmatter_of(content)), key) {
        Some(v) => v,
        None => ""@,
    }
}

/// Whether a word of a query stands in a file's name or anywhere in the file, or in
/// the name or the description that it gives, all of them in small letters.
pub open spec fn is_about(ts: Seq<Text>, file: Text, content: Text) -> bool {
    ||| some_inside(ts, lowercase(file))
    ||| some_inside(ts, lowercase(value_or_empty(content, "name"@)))
    ||| some_inside(ts, lowercase(value_or_empty(content, "description"@)))
    ||| some_inside(ts, lowercase(content))
}

proof fn lemma_score(ts: Seq<Text>, m: Lowered)
    ensures
        score_of(ts, m) > 0 <==> some_inside(ts, m.file) || some_inside(ts, m.name) || some_inside(
            ts,
            m.desc,
        ) || some_inside(ts, m.body),
    decreases ts.len(),
{
    if ts.len() > 0 {
        let head = ts.drop_last();
        let t = ts[ts.len() - 1];
        lemma_score(head, m);
        lemma_words_inside(t, m);
        lemma_some_last(ts, m.file);
        lemma_some_last(ts, m.name);
        lemma_some_last(ts, m.desc);
        lemma_some_last(ts, m.body);
    }
}

proof fn lemma_some_last(ts: Seq<Text>, s: Text)
    requires
        ts.len() > 0,
    ensures
        some_inside(ts, s) <==> some_inside(ts.drop_last(), s) || inside(ts.last(), s),
{
    let head = ts.drop_last();
    if some_inside(ts, s) {
        let i = choose|i: int| 0 <= i < ts.len() && inside(#[trigger] ts[i], s);
        if i < head.len() {
            assert(inside(head[i], s));
        }
    }
    if some_inside(head, s) {
        let i = choose|i: int| 0 <= i < head.len() && inside(#[trigger] head[i], s);
        assert(inside(ts[i], s));
    }
    if inside(ts.last(), s) {
        assert(inside(ts[ts.len() - 1], s));
    }
}

/// Every file in which some word of the query stands is found, with its score.
pub proof fn every_file_with_a_word_is_found(ts: Seq<Text>, files: Seq<(Text, Text)>, i: int)
    requires
        0 <= i < files.len(),
        is_about(ts, files[i].0, files[i].1),
    ensures
        hits_in(ts, files).contains(hit_of(ts, files[i].0, files[i].1)),
        hit_of(ts, files[i].0, files[i].1).0 == files[i].0,
        hit_of(ts, files[i].0, files[i].1).1 > 0,
{
    let p = |h: (Text, int, Text)| h.1 > 0;
    let f = |f: (Text, Text)| hit_of(ts, f.0, f.1);
    let all = files.map_values(f);
    let c = files[i].1;
    lemma_score(
        ts,
        lowered(
            files[i].0,
            value_or_empty(c, "name"@),
            value_or_empty(c, "description"@),
            c,
        ),
    );
    assert(all[i] == hit_of(ts, files[i].0, c));
    lemma_filter_keeps(all, p, all[i]);
}

/// Nothing is found but files in which some word of the query stands.
pub proof fn only_files_with_a_word_are_found(ts: Seq<Text>, files: Seq<(Text, Text)>, k: int)
    requires
        0 <= k < hits_in(ts, files).len(),
    ensures
        exists|i: int|
            0 <= i < files.len() && is_about(ts, (#[trigger] files[i]).0, files[i].1) && hits_in(
                ts,
                files,
            )[k] == hit_of(ts, files[i].0, files[i].1),
        hits_in(ts, files).len() <= files.len(),
{
    let p = |h: (Text, int, Text)| h.1 > 0;
    let f = |f: (Text, Text)| hit_of(ts, f.0, f.1);
    let all = files.map_values(f);
    lemma_filter_holds(all, p, k);
    let i = choose|i: int| 0 <= i < all.len() && all[i] == hits_in(ts, files)[k];
    let c = files[i].1;
    lemma_score(
        ts,
        lowered(
            files[i].0,
            value_or_empty(c, "name"@),
            value_or_empty(c, "description"@),
            c,
        ),
    );
    assert(is_about(ts, files[i].0, c));
    crate::analysis::lemma_filter_bound(all, p);
}

/// What is found of a file is its name, what the words are worth in it, and where
/// they were found.
pub proof fn hit_tells_of_its_file(ts: Seq<Text>, file: Text, content: Text)
    ensures
        ({
            let m = Lowered {
                file: lowercase(file),
                name: lowercase(value_or_empty(content, "name"@)),
                desc: lowercase(value_or_empty(content, "description"@)),
                body: lowercase(content),
            };
            hit_of(ts, file, content) == (file, score_of(ts, m) as int, fields_of(ts, m))
        }),
{
}

/// Where no more than fifteen files are found, all of them are shown; of more, fifteen
/// are, and none that is left out is better than one that is shown.
pub proof fn the_best_are_shown(hits: Seq<(Text, int, Text)>)
    ensures
        hits.len() <= 15 ==> best_of(hits).to_multiset() == hits.to_multiset(),
        hits.len() > 15 ==> best_of(hits).len() == 15,
        forall|i: int| 0 <= i < best_of(hits).len() ==> hits.contains(#[trigger] best_of(hits)[i]),
        forall|h: (Text, int, Text), i: int|
            hits.contains(h) && !best_of(hits).contains(h) && 0 <= i < best_of(hits).len() ==> {
                let b = #[trigger] best_of(hits)[i];
                b.1 > (#[trigger] h.1) || b.1 == h.1 && !text_less(h.0, b.0)
            },
        forall|i: int, j: int|
            0 <= i < j < best_of(hits).len() ==> {
                let a = #[trigger] best_of(hits)[i];
                let b = #[trigger] best_of(hits)[j];
                a.1 > b.1 || a.1 == b.1 && !text_less(b.0, a.0)
            },
{
    best_come_first(hits);
    ranking_permutes::<Hit>(hits);
    let r = ranked::<Hit>(hits);
    let best = best_of(hits);
    broadcast use vstd::seq_lib::group_to_multiset_ensures;

    assert forall|i: int| 0 <= i < best.len() implies hits.contains(#[trigger] best[i]) by {
        assert(best[i] == r[i]);
        assert(r.contains(r[i]));
        assert(r.to_multiset().count(r[i]) > 0);
        assert(hits.to_multiset().count(r[i]) > 0);
    }
    assert forall|h: (Text, int, Text), i: int|
        hits.contains(h) && !best.contains(h) && 0 <= i < best.len() implies {
        let b = #[trigger] best[i];
        b.1 > (#[trigger] h.1) || b.1 == h.1 && !text_less(h.0, b.0)
    } by {
        assert(hits.to_multiset().count(h) > 0);
        assert(r.to_multiset().count(h) > 0);
        assert(r.contains(h));
        let j = choose|j: int| 0 <= j < r.len() && r[j] == h;
        if j < best.len() {
            assert(best[j] == h);
        }
        assert(best[i] == r[i]);
    }
    assert forall|i: int, j: int| 0 <= i < j < best.len() implies {
        let a = #[trigger] best[i];
        let b = #[trigger] best[j];
        a.1 > b.1 || a.1 == b.1 && !text_less(b.0, a.0)
    } by {
        assert(best[i] == r[i] && best[j] == r[j]);
    }
}

/// With fifteen files or fewer, a file is shown exactly where some word of the query
/// stands in it.
pub proof fn few_files_are_shown_by_their_words(
    ts: Seq<Text>,
    files: Seq<(Text, Text)>,
    h: (Text, int, Text),
)
    requires
        files.len() <= 15,
    ensures
        best_of(hits_in(ts, files)).contains(h) <==> exists|i: int|
            0 <= i < files.len() && is_about(ts, (#[trigger] files[i]).0, files[i].1) && h
                == hit_of(ts, files[i].0, files[i].1),
{
    let hits = hits_in(ts, files);
    let best = best_of(hits);
    the_best_are_shown(hits);
    broadcast use vstd::seq_lib::group_to_multiset_ensures;

    if hits.len() > 0 {
        only_files_with_a_word_are_found(ts, files, 0);
    }
    assert(hits.len() <= 15);
    assert(best.contains(h) <==> best.to_multiset().count(h) > 0);
    assert(hits.contains(h) <==> hits.to_multiset().count(h) > 0);
    if best.contains(h) {
        let k = choose|k: int| 0 <= k < hits.len() && hits[k] == h;
        only_files_with_a_word_are_found(ts, files, k);
    }
    if exists|i: int|
        0 <= i < files.len() && is_about(ts, (#[trigger] files[i]).0, files[i].1) && h == hit_of(
            ts,
            files[i].0,
            files[i].1,
        ) {
        let i = choose|i: int|
            0 <= i < files.len() && is_about(ts, (#[trigger] files[i]).0, files[i].1) && h
                == hit_of(ts, files[i].0, files[i].1);
        every_file_with_a_word_is_found(ts, files, i);
    }
}

/// Whether an edge joins two files, whichever way it goes.
pub open spec fn joins(e: (Text, Text), a: Text, b: Text) -> bool {
    e == (a, b) || e == (b, a)
}

proof fn lemma_led(edges: Seq<(Text, Text)>, found: Seq<Text>, file: Text)
    ensures
        match led_by(edges, found, file) {
            Some(g) => {
                &&& !found.contains(file)
                &&& found.contains(g)
                &&& exists|k: int|
                    {
                        &&& 0 <= k < edges.len()
                        &&& joins(#[trigger] edges[k], g, file)
                        &&& forall|j: int, x: Text|
                            0 <= j < k && found.contains(x) ==> !#[trigger] joins(edges[j], x, file)
                    }
            },
            None => found.contains(file) || forall|k: int, x: Text|
                0 <= k < edges.len() && found.contains(x) ==> !#[trigger] joins(edges[k], x, file),
        },
    decreases edges.len(),
{
    if !found.contains(file) && edges.len() > 0 {
        let more = edges.skip(1);
        let e = edges[0];
        if e.1 == file && found.contains(e.0) {
            assert(joins(edges[0], e.0, file));
        } else if e.0 == file && found.contains(e.1) {
            assert(joins(edges[0], e.1, file));
        } else {
            lemma_led(more, found, file);
            assert forall|x: Text| found.contains(x) implies !#[trigger] joins(e, x, file) by {}
            match led_by(more, found, file) {
                Some(g) => {
                    let k = choose|k: int|
                        {
                            &&& 0 <= k < more.len()
                            &&& joins(#[trigger] more[k], g, file)
                            &&& forall|j: int, x: Text|
                                0 <= j < k && found.contains(x) ==> !#[trigger] joins(
                                    more[j],
                                    x,
                                    file,
                                )
                        };
                    assert(joins(edges[k + 1], g, file));
                    assert forall|j: int, x: Text|
                        0 <= j < k + 1 && found.contains(x) implies !#[trigger] joins(
                        edges[j],
                        x,
                        file,
                    ) by {
                        if j > 0 {
                            assert(more[j - 1] == edges[j]);
                            assert(!joins(more[j - 1], x, file));
                        }
                    }
                },
                None => {
                    assert forall|k: int, x: Text|
                        0 <= k < edges.len() && found.contains(x) implies !#[trigger] joins(
                        edges[k],
                        x,
                        file,
                    ) by {
                        if k > 0 {
                            assert(more[k - 1] == edges[k]);
                            assert(!joins(more[k - 1], x, file));
                        }
                    }
                },
            }
        }
    }
}

/// A memory is shown as a neighbour exactly where it was not found itself and an edge
/// joins it, whichever way, with a file that was.
pub proof fn neighbours_are_joined_to_what_was_found(
    mems: Seq<Memory>,
    edges: Seq<(Text, Text)>,
    found: Seq<Text>,
    file: Text,
)
    ensures
        (exists|g: Text| #[trigger] neighbours(mems, edges, found).contains((file, g))) <==> {
            &&& exists|i: int| 0 <= i < mems.len() && (#[trigger] mems[i]).file == file
            &&& !found.contains(file)
            &&& exists|k: int, x: Text|
                0 <= k < edges.len() && found.contains(x) && #[trigger] joins(edges[k], x, file)
        },
        forall|g: Text| #[trigger]
            neighbours(mems, edges, found).contains((file, g)) ==> found.contains(g) && exists|k: int|
                {
                    &&& 0 <= k < edges.len()
                    &&& joins(#[trigger] edges[k], g, file)
                    &&& forall|j: int, x: Text|
                        0 <= j < k && found.contains(x) ==> !#[trigger] joins(edges[j], x, file)
                },
{
    let p = |m: Memory| led_by(edges, found, m.file) is Some;
    let nb = neighbours(mems, edges, found);
    lemma_led(edges, found, file);
    assert forall|g: Text| #[trigger] nb.contains((file, g)) implies led_by(edges, found, file)
        == Some(g) && exists|i: int| 0 <= i < mems.len() && (#[trigger] mems[i]).file == file by {
        let k = choose|k: int| 0 <= k < nb.len() && nb[k] == (file, g);
        lemma_filter_holds(mems, p, k);
        let i = choose|i: int| 0 <= i < mems.len() && mems[i] == mems.filter(p)[k];
        assert(mems[i].file == file);
    }
    if led_by(edges, found, file) is Some && exists|i: int|
        0 <= i < mems.len() && (#[trigger] mems[i]).file == file {
        let i = choose|i: int| 0 <= i < mems.len() && (#[trigger] mems[i]).file == file;
        lemma_filter_keeps(mems, p, mems[i]);
        let k = choose|k: int| 0 <= k < mems.filter(p).len() && mems.filter(p)[k] == mems[i];
        assert(files_where(mems, p)[k] == file);
        assert(nb[k] == (file, led_by(edges, found, file)->0));
        assert(nb.contains((file, led_by(edges, found, file)->0)));
    }
}

} // verus!

//! What the page shows.
use crate::analysis::{is_knowledge, lemma_filter_holds, weights, Analysis};
use crate::counts::Count;
use crate::dashboard::{
    color, count_entry, dash_data, edge, escape, escaped, node, node_title, nodes_of, quoted,
    top_of,
};
use crate::link_laws::inside;
use crate::links::pairs;
use crate::memory::{stem, Memory};
use crate::number::decimal;
use crate::order::{ranked, views};
use crate::order_laws::larger_counts_come_first;
use crate::repair_laws::lemma_filter_keeps;
use crate::text::{chars_replaced, joined, Text};
use crate::told_laws::lemma_inside;
use vstd::prelude::*;

verus! {

/// A quoted text has no line end and no tab in it, and every quote inside it stands
/// behind a backslash.
pub proof fn quoted_text_has_no_raw_marks(s: Text)
    ensures
        quoted(s).len() == escaped(s).len() + 2,
        quoted(s)[0] == '"',
        quoted(s).last() == '"',
        forall|i: int| 0 <= i < escaped(s).len() ==> #[trigger] escaped(s)[i] != '\n',
        forall|i: int| 0 <= i < escaped(s).len() ==> #[trigger] escaped(s)[i] != '\t',
        forall|i: int|
            0 <= i < escaped(s).len() && #[trigger] escaped(s)[i] == '"' ==> i > 0 && escaped(s)[i
                - 1] == '\\',
    decreases s.len(),
{
    if s.len() > 0 {
        let t = s.skip(1);
        quoted_text_has_no_raw_marks(t);
        let x = escape(s[0]);
        let rest = escaped(t);
        let e = escaped(s);
        assert(e == x + rest);
        assert forall|i: int| 0 <= i < e.len() implies #[trigger] e[i] != '\n' && e[i] != '\t' && (e[i]
            == '"' ==> i > 0 && e[i - 1] == '\\') by {
            if i < x.len() {
                assert(e[i] == x[i]);
                if i > 0 {
                    assert(e[i - 1] == x[i - 1]);
                }
            } else {
                assert(e[i] == rest[i - x.len()]);
                if i > x.len() {
                    assert(e[i - 1] == rest[i - x.len() - 1]);
                }
            }
        }
    }
}

/// The graph has a node for every memory but the records of reservations.
pub proof fn graph_shows_every_memory(mems: Seq<Memory>, x: Text)
    ensures
        nodes_of(mems).contains(x) <==> exists|i: int|
            0 <= i < mems.len() && (#[trigger] mems[i]).typ != "reservation"@ && x == node(mems[i]),
{
    let p = |m: Memory| is_knowledge(m);
    let out = nodes_of(mems);
    if out.contains(x) {
        let k = choose|k: int| 0 <= k < out.len() && out[k] == x;
        lemma_filter_holds(mems, p, k);
        let i = choose|i: int| 0 <= i < mems.len() && mems[i] == mems.filter(p)[k];
        assert(mems[i].typ != "reservation"@);
    }
    if exists|i: int|
        0 <= i < mems.len() && (#[trigger] mems[i]).typ != "reservation"@ && x == node(mems[i]) {
        let i = choose|i: int|
            0 <= i < mems.len() && (#[trigger] mems[i]).typ != "reservation"@ && x == node(mems[i]);
        lemma_filter_keeps(mems, p, mems[i]);
        let k = choose|k: int| 0 <= k < mems.filter(p).len() && mems.filter(p)[k] == mems[i];
        assert(out[k] == x);
    }
}

/// A node names its file, its type and its size, has a label out of the file's name, a
/// border that tells shared from local, and the colour of its type.
pub proof fn node_tells_of_its_memory(m: Memory)
    ensures
        inside("{\"id\":"@ + quoted(m.file), node(m)),
        inside(",\"label\":"@ + quoted(label_of(m.file)), node(m)),
        inside(",\"group\":"@ + quoted(m.typ), node(m)),
        inside(",\"value\":"@ + decimal(m.tok), node(m)),
        inside(
            ",\"border\":"@ + quoted(
                if m.shared {
                    "#0f766e"@
                } else {
                    "#e11d48"@
                },
            ),
            node(m),
        ),
        inside(",\"shape\":\"dot\",\"color\":{\"background\":"@ + quoted(color(m.typ)), node(m)),
        inside("},\"title\":"@ + quoted(node_title(m)), node(m)),
{
    lemma_inside();
}

/// A file's name as a label: without `.md`, blanks for underscores, and no more than
/// twenty-two characters.
pub open spec fn label_of(file: Text) -> Text {
    let s = chars_replaced(stem(file), "_"@, ' ');
    if s.len() > 22 {
        s.take(22)
    } else {
        s
    }
}

/// What is said of a memory names its file, its size, its scope and its origin.
pub proof fn title_tells_of_its_memory(m: Memory)
    ensures
        inside(m.file, node_title(m)),
        inside("~"@ + decimal(m.tok) + "tok"@, node_title(m)),
        inside(
            if m.shared {
                "shared"@
            } else {
                "local"@
            },
            node_title(m),
        ),
        inside(" · from "@ + m.origin, node_title(m)),
{
    lemma_inside();
    reveal_strlit("  ~");
    reveal_strlit("  ");
    reveal_strlit("~");
    reveal_strlit("tok  ");
    reveal_strlit("tok");
    let p = "~"@ + decimal(m.tok) + "tok"@;
    assert("  ~"@ =~= "  "@ + "~"@);
    assert("tok  "@ =~= "tok"@ + "  "@);
    let a = m.file + "  ~"@ + decimal(m.tok) + "tok  "@;
    assert(a =~= m.file + "  "@ + p + "  "@);
    assert(inside(p, m.file + "  "@ + p + "  "@));
}

/// Projects, references and feedback have colours of their own.
pub proof fn types_have_colours()
    ensures
        color("project"@) == "#14b8a6"@,
        color("reference"@) == "#22c55e"@,
        color("feedback"@) == "#f59e0b"@,
        forall|t: Text|
            t != "project"@ && t != "reference"@ && t != "feedback"@ ==> #[trigger] color(t)
                == "#94a3b8"@,
{
    reveal_strlit("project");
    reveal_strlit("reference");
    reveal_strlit("feedback");
    assert("project"@[0] == 'p' && "reference"@[0] == 'r' && "feedback"@[0] == 'f');
}

/// The list by size shows the twelve largest memories, the largest first.
pub proof fn twelve_largest_are_shown(mems: Seq<Memory>) -> (r: Seq<(Text, nat)>)
    ensures
        r.to_multiset() == weights(mems).to_multiset(),
        r.len() == mems.len(),
        forall|i: int, j: int| 0 <= i < j < r.len() ==> (#[trigger] r[i]).1 >= (#[trigger] r[j]).1,
        top_of(mems).len() == (if mems.len() > 12 {
            12
        } else {
            mems.len()
        }),
        forall|k: int|
            0 <= k < top_of(mems).len() ==> #[trigger] top_of(mems)[k] == "["@ + quoted(r[k].0)
                + ","@ + decimal(r[k].1) + "]"@,
{
    let ws = weights(mems);
    larger_counts_come_first(ws);
    assert(ws =~= mems.map_values(|m: Memory| (m.file, m.tok)));
    ranked::<Count>(ws)
}

/// The data of the page hold the nodes, the links, the counts and the numbers of the
/// analysis, each under its name.
pub proof fn data_hold_the_analysis(a: Analysis, serve: bool, token: Text, host: Text, os: Text)
    ensures
        ({
            let d = dash_data(a, serve, token, host, os);
            let links = pairs(a.edges@).map_values(
                |e: (Text, Text)| "{\"from\":"@ + quoted(e.0) + ",\"to\":"@ + quoted(e.1) + "}"@,
            );
            let counts = |s: Seq<(Text, nat)>|
                s.map_values(|c: (Text, nat)| quoted(c.0) + ":"@ + decimal(c.1));
            &&& inside("{\"nodes\":["@ + joined(nodes_of(views(a.mems@)), ","@), d)
            &&& inside("],\"edges\":["@ + joined(links, ","@), d)
            &&& inside("],\"types\":{"@ + joined(counts(a.types.seq()), ","@), d)
            &&& inside("},\"origins\":{"@ + joined(counts(a.origins.seq()), ","@), d)
            &&& inside("},\"shared\":"@ + decimal(a.shared as nat), d)
            &&& inside(",\"n\":"@ + decimal(a.n as nat), d)
            &&& inside(",\"idx_tok\":"@ + decimal(a.idx_tok as nat), d)
            &&& inside(",\"pool_tok\":"@ + decimal(a.pool_tok as nat), d)
            &&& inside(",\"broken\":"@ + decimal(a.broken as nat), d)
            &&& inside(",\"isolated\":"@ + decimal(a.isolated@.len()), d)
            &&& inside(",\"top\":["@ + joined(top_of(views(a.mems@)), ","@), d)
            &&& inside(
                "],\"serve\":"@ + (if serve {
                    "true"@
                } else {
                    "false"@
                }),
                d,
            )
            &&& inside(",\"token\":"@ + quoted(token), d)
            &&& inside(",\"host\":"@ + quoted(host), d)
            &&& inside(",\"os\":"@ + quoted(os), d)
        }),
{
    lemma_inside();
    let links = pairs(a.edges@).map_values(
        |e: (Text, Text)| "{\"from\":"@ + quoted(e.0) + ",\"to\":"@ + quoted(e.1) + "}"@,
    );
    assert(links =~= pairs(a.edges@).map_values(|e: (Text, Text)| edge(e)));
    let counts = |s: Seq<(Text, nat)>|
        s.map_values(|c: (Text, nat)| quoted(c.0) + ":"@ + decimal(c.1));
    assert(counts(a.types.seq()) =~= a.types.seq().map_values(|c: (Text, nat)| count_entry(c)));
    assert(counts(a.origins.seq()) =~= a.origins.seq().map_values(
        |c: (Text, nat)| count_entry(c),
    ));
}

} // verus!

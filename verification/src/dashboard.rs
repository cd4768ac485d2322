//! The dashboard: the data that a page shows, put into the page.
use crate::analysis::{is_knowledge, Analysis};
use crate::counts::{Count, Counts};
use crate::links::pairs;
use crate::memory::{stem, Mem, Memory};
use crate::number::{decimal, size};
use crate::order::{rank, ranked, views};
use crate::text::{
    chars_of, chars_replaced, join, joined, replace, replace_chars, replaced, same, shorten,
    strip_suffixes, texts, Text,
};
use vstd::prelude::*;

verus! {

/// How many memories the page lists by size.
pub const TOP_N: usize = 12;

/// How many characters of a name the page shows in the graph.
pub const LABEL_LEN: usize = 22;

/// A character as it stands in a quoted string.
pub open spec fn escape(c: char) -> Text {
    if c == '"' {
        seq!['\\', '"']
    } else if c == '\\' {
        seq!['\\', '\\']
    } else if c == '\n' {
        seq!['\\', 'n']
    } else if c == '\t' {
        seq!['\\', 't']
    } else {
        seq![c]
    }
}

/// A text as it stands in a quoted string.
pub open spec fn escaped(s: Text) -> Text
    decreases s.len(),
{
    if s.len() == 0 {
        s
    } else {
        escape(s[0]) + escaped(s.skip(1))
    }
}

/// A quoted string.
pub open spec fn quoted(s: Text) -> Text {
    seq!['"'] + escaped(s) + seq!['"']
}

/// A quoted string.
pub fn jstr(s: &str) -> (r: String)
    ensures
        r@ == quoted(s@),
{
    let cs = chars_of(s);
    let mut o = String::new();
    o.push('"');
    let mut i: usize = 0;
    assert(s@.skip(0) =~= s@);
    assert(o@ + escaped(s@.skip(0)) =~= seq!['"'] + escaped(s@));
    while i < cs.len()
        invariant
            i <= cs@.len(),
            cs@ == s@,
            o@ + escaped(s@.skip(i as int)) == seq!['"'] + escaped(s@),
        decreases cs@.len() - i,
    {
        let c = cs[i];
        let ghost done = o@;
        let ghost rest = s@.skip(i as int);
        assert(rest[0] == c);
        assert(rest.skip(1) =~= s@.skip(i + 1));
        if c == '"' {
            o.push('\\');
            o.push('"');
        } else if c == '\\' {
            o.push('\\');
            o.push('\\');
        } else if c == '\n' {
            o.push('\\');
            o.push('n');
        } else if c == '\t' {
            o.push('\\');
            o.push('t');
        } else {
            o.push(c);
        }
        assert(o@ =~= done + escape(c));
        assert(o@ + escaped(s@.skip(i + 1)) =~= done + (escape(c) + escaped(s@.skip(i + 1))));
        i = i + 1;
    }
    assert(s@.skip(i as int) =~= Seq::<char>::empty());
    assert(o@ =~= seq!['"'] + escaped(s@));
    o.push('"');
    assert(o@ =~= quoted(s@));
    o
}

/// What a quoted string stands for, without its quotes.
pub open spec fn unescaped(s: Text) -> Text
    decreases s.len(),
{
    if s.len() == 0 {
        s
    } else if s[0] == '\\' && s.len() > 1 {
        seq![
            if s[1] == 'n' {
                '\n'
            } else if s[1] == 't' {
                '\t'
            } else {
                s[1]
            },
        ] + unescaped(s.skip(2))
    } else {
        seq![s[0]] + unescaped(s.skip(1))
    }
}

/// A quoted string gives back the text that was quoted.
pub proof fn quoting_reads_back(s: Text)
    ensures
        unescaped(escaped(s)) == s,
        quoted(s).subrange(1, quoted(s).len() - 1) == escaped(s),
    decreases s.len(),
{
    assert(quoted(s).subrange(1, quoted(s).len() - 1) =~= escaped(s));
    if s.len() > 0 {
        let t = s.skip(1);
        quoting_reads_back(t);
        let e = escaped(s);
        let n = escape(s[0]).len() as int;
        assert(e.skip(n) =~= escaped(t));
        assert(e[0] == escape(s[0])[0]);
        if n == 2 {
            assert(e[1] == escape(s[0])[1]);
        }
        assert(seq![s[0]] + t =~= s);
    }
}

/// The colour of a type in the graph.
pub open spec fn color(typ: Text) -> Text {
    if typ == "project"@ {
        "#14b8a6"@
    } else if typ == "reference"@ {
        "#22c55e"@
    } else if typ == "feedback"@ {
        "#f59e0b"@
    } else {
        "#94a3b8"@
    }
}

/// The first characters of a text.
pub open spec fn first_chars(s: Text, n: int) -> Text {
    if s.len() <= n {
        s
    } else {
        s.take(n)
    }
}

/// What is said of a memory in the graph.
pub open spec fn node_title(m: Memory) -> Text {
    m.file + "  ~"@ + decimal(m.tok) + "tok  "@ + (if m.shared {
        "shared"@
    } else {
        "local"@
    }) + " · from "@ + m.origin
}

/// A memory in the graph.
pub open spec fn node(m: Memory) -> Text {
    "{\"id\":"@ + quoted(m.file) + ",\"label\":"@ + quoted(
        first_chars(chars_replaced(stem(m.file), "_"@, ' '), LABEL_LEN as int),
    ) + ",\"group\":"@ + quoted(m.typ) + ",\"value\":"@ + decimal(m.tok)
        + ",\"shape\":\"dot\",\"color\":{\"background\":"@ + quoted(color(m.typ)) + ",\"border\":"@
        + quoted(
        if m.shared {
            "#0f766e"@
        } else {
            "#e11d48"@
        },
    ) + "},\"title\":"@ + quoted(node_title(m)) + "}"@
}

/// An edge in the graph.
pub open spec fn edge(e: (Text, Text)) -> Text {
    "{\"from\":"@ + quoted(e.0) + ",\"to\":"@ + quoted(e.1) + "}"@
}

/// A count in the data.
pub open spec fn count_entry(c: (Text, nat)) -> Text {
    quoted(c.0) + ":"@ + decimal(c.1)
}

/// A memory in the list by size.
pub open spec fn top_entry(c: (Text, nat)) -> Text {
    "["@ + quoted(c.0) + ","@ + decimal(c.1) + "]"@
}

/// The nodes of the graph.
pub open spec fn nodes_of(mems: Seq<Memory>) -> Seq<Text> {
    mems.filter(|m: Memory| is_knowledge(m)).map_values(|m: Memory| node(m))
}

/// The largest memories.
pub open spec fn top_of(mems: Seq<Memory>) -> Seq<Text> {
    let r = ranked::<Count>(mems.map_values(|m: Memory| (m.file, m.tok)));
    (if r.len() > TOP_N {
        r.take(TOP_N as int)
    } else {
        r
    }).map_values(|c: (Text, nat)| top_entry(c))
}

/// The data that the page shows.
pub open spec fn dash_data(a: Analysis, serve: bool, token: Text, host: Text, os: Text) -> Text {
    "{\"nodes\":["@ + joined(nodes_of(views(a.mems@)), ","@) + "],\"edges\":["@ + joined(
        pairs(a.edges@).map_values(|e: (Text, Text)| edge(e)),
        ","@,
    ) + "],\"types\":{"@ + joined(
        a.types.seq().map_values(|c: (Text, nat)| count_entry(c)),
        ","@,
    ) + "},\"origins\":{"@ + joined(
        a.origins.seq().map_values(|c: (Text, nat)| count_entry(c)),
        ","@,
    ) + "},\"shared\":"@ + decimal(a.shared as nat) + ",\"n\":"@ + decimal(a.n as nat)
        + ",\"idx_tok\":"@ + decimal(a.idx_tok as nat) + ",\"pool_tok\":"@ + decimal(
        a.pool_tok as nat,
    ) + ",\"broken\":"@ + decimal(a.broken as nat) + ",\"isolated\":"@ + decimal(
        a.isolated@.len(),
    ) + ",\"top\":["@ + joined(top_of(views(a.mems@)), ","@) + "],\"serve\":"@ + (if serve {
        "true"@
    } else {
        "false"@
    }) + ",\"token\":"@ + quoted(token) + ",\"host\":"@ + quoted(host) + ",\"os\":"@ + quoted(os)
        + "}"@
}

/// The colour of a type in the graph.
fn color_of(typ: &str) -> (r: &'static str)
    ensures
        r@ == color(typ@),
{
    if same(typ, "project") {
        "#14b8a6"
    } else if same(typ, "reference") {
        "#22c55e"
    } else if same(typ, "feedback") {
        "#f59e0b"
    } else {
        "#94a3b8"
    }
}

/// A memory in the graph.
fn write_node(m: &Mem) -> (s: String)
    ensures
        s@ == node(m@),
{
    let spaced = replace_chars(strip_suffixes(&m.file, ".md"), "_", ' ');
    let mut title = m.file.clone();
    title.append("  ~");
    title.append(&size(m.tok));
    title.append("tok  ");
    title.append(
        if m.shared {
            "shared"
        } else {
            "local"
        },
    );
    title.append(" · from ");
    title.append(&m.origin);
    let mut s = "{\"id\":".to_string();
    s.append(&jstr(&m.file));
    s.append(",\"label\":");
    s.append(&jstr(shorten(&spaced, LABEL_LEN)));
    s.append(",\"group\":");
    s.append(&jstr(&m.typ));
    s.append(",\"value\":");
    s.append(&size(m.tok));
    s.append(",\"shape\":\"dot\",\"color\":{\"background\":");
    s.append(&jstr(color_of(&m.typ)));
    s.append(",\"border\":");
    s.append(
        &jstr(
            if m.shared {
                "#0f766e"
            } else {
                "#e11d48"
            },
        ),
    );
    s.append("},\"title\":");
    s.append(&jstr(&title));
    s.append("}");
    s
}

fn write_nodes(mems: &[Mem]) -> (r: Vec<String>)
    ensures
        texts(r@) == nodes_of(views(mems@)),
{
    let ghost all = views(mems@);
    let mut r: Vec<String> = Vec::new();
    let mut i: usize = 0;
    assert(texts(r@) =~= nodes_of(all.take(0))) by {
        reveal(Seq::filter);
    }
    while i < mems.len()
        invariant
            i <= mems@.len(),
            all == views(mems@),
            texts(r@) == nodes_of(all.take(i as int)),
        decreases mems@.len() - i,
    {
        let ghost head = all.take(i + 1);
        let ghost done = texts(r@);
        assert(head.drop_last() =~= all.take(i as int));
        assert(head.last() == mems@[i as int]@);
        if !same(&mems[i].typ, "reservation") {
            r.push(write_node(&mems[i]));
            assert(texts(r@) =~= done.push(node(head.last())));
        }
        proof {
            reveal(Seq::filter);
            assert(texts(r@) =~= nodes_of(head));
        }
        i = i + 1;
    }
    assert(all.take(i as int) =~= all);
    r
}

fn write_edges(edges: &[(String, String)]) -> (r: Vec<String>)
    ensures
        texts(r@) == pairs(edges@).map_values(|e: (Text, Text)| edge(e)),
{
    let ghost all = pairs(edges@).map_values(|e: (Text, Text)| edge(e));
    let mut r: Vec<String> = Vec::new();
    let mut i: usize = 0;
    while i < edges.len()
        invariant
            i <= edges@.len(),
            all == pairs(edges@).map_values(|e: (Text, Text)| edge(e)),
            texts(r@) == all.take(i as int),
        decreases edges@.len() - i,
    {
        let ghost done = texts(r@);
        let mut s = "{\"from\":".to_string();
        s.append(&jstr(&edges[i].0));
        s.append(",\"to\":");
        s.append(&jstr(&edges[i].1));
        s.append("}");
        assert(s@ == all[i as int]);
        r.push(s);
        assert(texts(r@) =~= done.push(s@));
        i = i + 1;
        assert(texts(r@) =~= all.take(i as int));
    }
    assert(texts(r@) =~= all);
    r
}

fn write_counts(c: &Counts) -> (r: Vec<String>)
    ensures
        texts(r@) == c.seq().map_values(|c: (Text, nat)| count_entry(c)),
{
    let ghost all = c.seq().map_values(|c: (Text, nat)| count_entry(c));
    let mut r: Vec<String> = Vec::new();
    let mut i: usize = 0;
    while i < c.entries.len()
        invariant
            i <= c.entries@.len(),
            all == c.seq().map_values(|c: (Text, nat)| count_entry(c)),
            texts(r@) == all.take(i as int),
        decreases c.entries@.len() - i,
    {
        let ghost done = texts(r@);
        assert(c.seq()[i as int] == c.entries@[i as int]@);
        let mut s = jstr(&c.entries[i].name);
        s.append(":");
        s.append(&size(c.entries[i].n));
        assert(s@ == all[i as int]);
        r.push(s);
        assert(texts(r@) =~= done.push(s@));
        i = i + 1;
        assert(texts(r@) =~= all.take(i as int));
    }
    assert(texts(r@) =~= all);
    r
}

fn write_top(mems: &[Mem]) -> (r: Vec<String>)
    ensures
        texts(r@) == top_of(views(mems@)),
{
    let ghost w = views(mems@).map_values(|m: Memory| (m.file, m.tok));
    let mut v: Vec<Count> = Vec::new();
    let mut i: usize = 0;
    while i < mems.len()
        invariant
            i <= mems@.len(),
            w == views(mems@).map_values(|m: Memory| (m.file, m.tok)),
            views(v@) == w.take(i as int),
        decreases mems@.len() - i,
    {
        let ghost done = views(v@);
        let c = Count { name: mems[i].file.clone(), n: mems[i].tok };
        assert(c@ == w[i as int]);
        v.push(c);
        assert(views(v@) =~= done.push(c@));
        i = i + 1;
        assert(views(v@) =~= w.take(i as int));
    }
    assert(views(v@) =~= w);
    let v = rank(v);
    let ghost s = views(v@);
    let n: usize = if v.len() > TOP_N {
        TOP_N
    } else {
        v.len()
    };
    let ghost f = |c: (Text, nat)| top_entry(c);
    let mut r: Vec<String> = Vec::new();
    let mut j: usize = 0;
    while j < n
        invariant
            j <= n <= v@.len(),
            s == views(v@),
            f == (|c: (Text, nat)| top_entry(c)),
            texts(r@) == s.map_values(f).take(j as int),
        decreases n - j,
    {
        let ghost done = texts(r@);
        assert(s[j as int] == v@[j as int]@);
        let mut t = "[".to_string();
        t.append(&jstr(&v[j].name));
        t.append(",");
        t.append(&size(v[j].n));
        t.append("]");
        assert(t@ == f(s[j as int]));
        r.push(t);
        assert(texts(r@) =~= done.push(t@));
        j = j + 1;
        assert(texts(r@) =~= s.map_values(f).take(j as int));
    }
    assert(texts(r@) =~= (if s.len() > TOP_N {
        s.take(TOP_N as int)
    } else {
        s
    }).map_values(f));
    r
}

/// The data that the page shows.
pub fn write_data(a: &Analysis, serve: bool, token: &str, host: &str, os: &str) -> (s: String)
    ensures
        s@ == dash_data(*a, serve, token@, host@, os@),
{
    let mut s = "{\"nodes\":[".to_string();
    s.append(&join(&write_nodes(&a.mems), ","));
    s.append("],\"edges\":[");
    s.append(&join(&write_edges(&a.edges), ","));
    s.append("],\"types\":{");
    s.append(&join(&write_counts(&a.types), ","));
    s.append("},\"origins\":{");
    s.append(&join(&write_counts(&a.origins), ","));
    s.append("},\"shared\":");
    s.append(&size(a.shared));
    s.append(",\"n\":");
    s.append(&size(a.n));
    s.append(",\"idx_tok\":");
    s.append(&size(a.idx_tok));
    s.append(",\"pool_tok\":");
    s.append(&size(a.pool_tok));
    s.append(",\"broken\":");
    s.append(&size(a.broken));
    s.append(",\"isolated\":");
    s.append(&size(a.isolated.len()));
    s.append(",\"top\":[");
    s.append(&join(&write_top(&a.mems), ","));
    s.append("],\"serve\":");
    s.append(
        if serve {
            "true"
        } else {
            "false"
        },
    );
    s.append(",\"token\":");
    s.append(&jstr(token));
    s.append(",\"host\":");
    s.append(&jstr(host));
    s.append(",\"os\":");
    s.append(&jstr(os));
    s.append("}");
    s
}

/// The page: the template with the data in place of each `/*DATA*/`.
pub fn dash_html(template: &str, a: &Analysis, serve: bool, token: &str, host: &str, os: &str) -> (r: String)
    ensures
        r@ == replaced(template@, "/*DATA*/"@, dash_data(*a, serve, token@, host@, os@)),
{
    proof {
        reveal_strlit("/*DATA*/");
    }
    replace(template, "/*DATA*/", &write_data(a, serve, token, host, os))
}

} // verus!

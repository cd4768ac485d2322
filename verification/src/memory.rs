//! Memories: which files are memories, what is read from one, and where one is.
use crate::frontmatter::{field, fm_field, frontmatter, frontmatter_of, has_scope_shared, is_shared};
use crate::links::{extract_links, links_in, pairs};
use crate::number::{hex, hex_string};
use crate::order::{rank, ranked, views};
use crate::text::{
    begins, ends, ends_with, lemma_span, lemma_span_is, lines_of, pieces, same, shorten, span,
    split, starts_with, strip_suffixes, texts, without_suffixes, Text,
};
use vstd::prelude::*;

verus! {

/// The `type` of memories that reserve a version.
pub open spec fn reservation_type() -> Text {
    "reservation"@
}

/// One memory as it is read from its file.
pub struct Mem {
    /// The file's name, with `.md`.
    pub file: String,
    pub name: String,
    pub typ: String,
    pub desc: String,
    /// The machine that it was written on.
    pub origin: String,
    pub shared: bool,
    /// About how many tokens it takes.
    pub tok: usize,
    /// The names that it links to.
    pub links: Vec<String>,
}

/// The model of a memory.
#[verifier::ext_equal]
pub struct Memory {
    pub file: Text,
    pub name: Text,
    pub typ: Text,
    pub desc: Text,
    pub origin: Text,
    pub shared: bool,
    pub tok: nat,
    pub links: Seq<Text>,
}

impl View for Mem {
    type V = Memory;

    open spec fn view(&self) -> Memory {
        Memory {
            file: self.file@,
            name: self.name@,
            typ: self.typ@,
            desc: self.desc@,
            origin: self.origin@,
            shared: self.shared,
            tok: self.tok as nat,
            links: texts(self.links@),
        }
    }
}

/// Whether a file in the store is a memory: `.md` behind some name that does not
/// begin with `MEMORY`.
pub open spec fn is_memory_file(name: Text) -> bool {
    ends(name, ".md"@) && name.len() > ".md"@.len() && !begins(name, "MEMORY"@)
}

/// The memory files among some names, in order.
pub open spec fn memory_files(names: Seq<Text>) -> Seq<Text> {
    ranked::<String>(names.filter(|n: Text| is_memory_file(n)))
}

/// A file's name without `.md`.
pub open spec fn stem(file: Text) -> Text {
    without_suffixes(file, ".md"@)
}

/// The value of a frontmatter field, or `default` where it is not given.
pub open spec fn field_or(fm: Text, key: Text, default: Text) -> Text {
    match field(lines_of(fm), key) {
        Some(v) => v,
        None => default,
    }
}

/// How many tokens a text takes: a quarter of its characters.
pub open spec fn tokens(s: Text) -> nat {
    s.len() / 4
}

/// The memory in a file.
pub open spec fn memory_of(file: Text, content: Text) -> Memory {
    let fm = frontmatter_of(content);
    Memory {
        file,
        name: field_or(fm, "name"@, stem(file)),
        typ: field_or(fm, "type"@, "?"@),
        desc: field_or(fm, "description"@, ""@),
        origin: field_or(fm, "origin"@, "?"@),
        shared: is_shared(fm),
        tok: tokens(content),
        links: links_in(content),
    }
}

/// The memories in some files, each given by its name and its content.
pub open spec fn loaded(files: Seq<(Text, Text)>) -> Seq<Memory> {
    files.map_values(|f: (Text, Text)| memory_of(f.0, f.1))
}

/// The files of the shared memories.
pub open spec fn shared_of(mems: Seq<Memory>) -> Seq<Text> {
    mems.filter(|m: Memory| m.shared).map_values(|m: Memory| m.file)
}

/// `b` below the directory `a`, or `b` itself if it is absolute.
pub open spec fn below(a: Text, b: Text) -> Text {
    if begins(b, "/"@) {
        b
    } else if a.len() == 0 || ends(a, "/"@) {
        a + b
    } else {
        a + "/"@ + b
    }
}

/// The last of some path segments that names something.
pub open spec fn last_name(segments: Seq<Text>) -> Option<Text>
    decreases segments.len(),
{
    if segments.len() == 0 {
        None
    } else if segments.last() == ""@ || segments.last() == "."@ {
        last_name(segments.drop_last())
    } else if segments.last() == ".."@ {
        None
    } else {
        Some(segments.last())
    }
}

/// The name of the file that an identity stands for: a memory's name, with or
/// without `.md`; directories before it do not count.
pub open spec fn file_of(id: Text) -> Text {
    match last_name(pieces(id, "/"@)) {
        Some(base) => stem(base) + ".md"@,
        None => stem(""@) + ".md"@,
    }
}

/// The value of a frontmatter field, or `default` where it is not given.
pub fn fm_field_or(fm: &str, key: &str, default: &str) -> (r: String)
    ensures
        r@ == field_or(fm@, key@, default@),
{
    match fm_field(fm, key) {
        Some(v) => v,
        None => default.to_string(),
    }
}

/// How many tokens a text takes, about.
pub fn count_tokens(s: &str) -> (n: usize)
    ensures
        n == tokens(s@),
        n <= usize::MAX / 4,
{
    s.unicode_len() / 4
}

/// The names of the files in the store that are memories, in order.
pub fn md_files(names: Vec<String>) -> (r: Vec<String>)
    ensures
        texts(r@) == memory_files(texts(names@)),
{
    let mut kept: Vec<String> = Vec::new();
    let ghost all = texts(names@);
    let mut i: usize = 0;
    assert(texts(kept@) =~= all.take(0).filter(|n: Text| is_memory_file(n))) by {
        reveal(Seq::filter);
    }
    while i < names.len()
        invariant
            i <= names@.len(),
            all == texts(names@),
            texts(kept@) == all.take(i as int).filter(|n: Text| is_memory_file(n)),
        decreases names@.len() - i,
    {
        let ghost head = all.take(i + 1);
        assert(head.drop_last() =~= all.take(i as int));
        assert(head.last() == names@[i as int]@);
        let ghost done = texts(kept@);
        let n = &names[i];
        if ends_with(n, ".md") && n.as_str().unicode_len() > ".md".unicode_len() && !starts_with(n, "MEMORY") {
            kept.push(n.clone());
            assert(texts(kept@) =~= done.push(head.last()));
        }
        proof {
            reveal(Seq::filter);
        }
        i = i + 1;
    }
    assert(all.take(i as int) =~= all);
    assert(views(kept@) =~= texts(kept@));
    let r = rank(kept);
    assert(views(r@) =~= texts(r@));
    r
}

/// The memory in a file.
pub fn read_memory(file: &str, content: &str) -> (m: Mem)
    ensures
        m@ == memory_of(file@, content@),
{
    let fm = frontmatter(content);
    Mem {
        file: file.to_string(),
        name: fm_field_or(fm, "name", strip_suffixes(file, ".md")),
        typ: fm_field_or(fm, "type", "?"),
        desc: fm_field_or(fm, "description", ""),
        origin: fm_field_or(fm, "origin", "?"),
        shared: has_scope_shared(fm),
        tok: count_tokens(content),
        links: extract_links(content),
    }
}

/// The memories in some files, each given by its name and its content.
pub fn load(files: &[(String, String)]) -> (r: Vec<Mem>)
    ensures
        views(r@) == loaded(pairs(files@)),
{
    let mut r: Vec<Mem> = Vec::new();
    let mut i: usize = 0;
    while i < files.len()
        invariant
            i <= files@.len(),
            views(r@) == loaded(pairs(files@)).take(i as int),
        decreases files@.len() - i,
    {
        let m = read_memory(&files[i].0, &files[i].1);
        let ghost done = views(r@);
        assert(pairs(files@)[i as int] == (files@[i as int].0@, files@[i as int].1@));
        assert(m@ == loaded(pairs(files@))[i as int]);
        r.push(m);
        assert(views(r@) =~= done.push(m@));
        i = i + 1;
        assert(views(r@) =~= loaded(pairs(files@)).take(i as int));
    }
    assert(views(r@) =~= loaded(pairs(files@)));
    r
}

/// The files that may leave this machine: those of the shared memories.
pub fn shared_files(mems: &[Mem]) -> (r: Vec<String>)
    ensures
        texts(r@) == shared_of(views(mems@)),
{
    let mut r: Vec<String> = Vec::new();
    let ghost all = views(mems@);
    let mut i: usize = 0;
    assert(texts(r@) =~= shared_of(all.take(0))) by {
        reveal(Seq::filter);
    }
    while i < mems.len()
        invariant
            i <= mems@.len(),
            all == views(mems@),
            texts(r@) == shared_of(all.take(i as int)),
        decreases mems@.len() - i,
    {
        let ghost head = all.take(i + 1);
        assert(head.drop_last() =~= all.take(i as int));
        assert(head.last() == mems@[i as int]@);
        let ghost done = texts(r@);
        if mems[i].shared {
            r.push(mems[i].file.clone());
            assert(texts(r@) =~= done.push(head.last().file));
        }
        proof {
            reveal(Seq::filter);
            assert(texts(r@) =~= shared_of(head));
        }
        i = i + 1;
    }
    assert(all.take(i as int) =~= all);
    r
}

/// `b` below the directory `a`.
pub fn join_path(a: &str, b: &str) -> (r: String)
    ensures
        r@ == below(a@, b@),
{
    if starts_with(b, "/") {
        return b.to_string();
    }
    let mut r = a.to_string();
    if !(a.is_empty() || ends_with(a, "/")) {
        r.append("/");
    }
    r.append(b);
    r
}

/// The store: `memnir` in the directory `base` of the home directory.
pub open spec fn store_of(home: Text, base: Text) -> Text {
    below(below(home, base), "memnir"@)
}

/// The store: the directory that holds the memories. `base` is the directory in
/// the home directory that everything is kept in.
pub fn sm(home: &str, base: &str) -> (r: String)
    ensures
        r@ == store_of(home@, base@),
{
    join_path(&join_path(home, base), "memnir")
}

/// The marker in the store that says that the index is compact.
pub fn compact_marker(home: &str, base: &str) -> (r: String)
    ensures
        r@ == below(store_of(home@, base@), ".index_compact"@),
{
    join_path(&sm(home, base), ".index_compact")
}

/// The file that lists the peers.
pub fn peers_file(home: &str, base: &str) -> (r: String)
    ensures
        r@ == below(below(home@, base@), "memnir.conf"@),
{
    join_path(&join_path(home, base), "memnir.conf")
}

/// The name of the file that an identity stands for.
pub fn resolve_name(id: &str) -> (r: String)
    ensures
        r@ == file_of(id@),
{
    let parts = split(id, "/");
    let ghost all = texts(parts@);
    let mut i: usize = parts.len();
    assert(all.take(i as int) =~= all);
    while i > 0
        invariant
            i <= parts@.len(),
            all == texts(parts@),
            all == pieces(id@, "/"@),
            last_name(all) == last_name(all.take(i as int)),
        decreases i,
    {
        let p = &parts[i - 1];
        assert(all.take(i as int).last() == p@);
        assert(all.take(i as int).drop_last() =~= all.take(i - 1));
        if !same(p, "") && !same(p, ".") {
            let base = if same(p, "..") {
                ""
            } else {
                p.as_str()
            };
            let mut r = strip_suffixes(base, ".md").to_string();
            r.append(".md");
            return r;
        }
        i = i - 1;
    }
    let mut r = strip_suffixes("", ".md").to_string();
    r.append(".md");
    r
}

/// The path of the file that an identity stands for.
pub fn resolve(store: &str, id: &str) -> (r: String)
    ensures
        r@ == below(store@, file_of(id@)),
{
    join_path(store, &resolve_name(id))
}

/// A token: random bytes in hexadecimal.
pub fn rand_token(bytes: &[u8]) -> (r: String)
    ensures
        r@ == hex(bytes@),
{
    hex_string(bytes)
}

/// The first six characters of a token.
pub open spec fn tag_of(token: Text) -> Text {
    if token.len() <= 6 {
        token
    } else {
        token.take(6)
    }
}

/// The tag of a reservation: the first six characters of a token.
pub fn short_tag(token: &str) -> (r: String)
    ensures
        r@ == tag_of(token@),
{
    shorten(token, 6).to_string()
}

/// Cutting a text that goes on without a place to cut only makes its last piece
/// longer.
proof fn lemma_pieces_extend(s: Text, t: Text, stops: Text)
    requires
        forall|i: int| 0 <= i < t.len() ==> !stops.contains(#[trigger] t[i]),
    ensures
        pieces(s, stops).len() > 0,
        pieces(s + t, stops) == pieces(s, stops).drop_last().push(pieces(s, stops).last() + t),
    decreases s.len(),
{
    let n = span(s, stops);
    lemma_span(s, stops);
    let all = s + t;
    if n == s.len() {
        assert forall|i: int| 0 <= i < all.len() implies !stops.contains(#[trigger] all[i]) by {
            if i < s.len() {
                assert(all[i] == s[i]);
            } else {
                assert(all[i] == t[i - s.len()]);
            }
        }
        lemma_span_is(all, stops, all.len());
        assert(pieces(s, stops) =~= seq![s]);
        assert(pieces(all, stops) =~= seq![all]);
    } else {
        let rest = s.skip(n as int + 1);
        assert forall|i: int| 0 <= i < n implies !stops.contains(#[trigger] all[i]) by {
            assert(all[i] == s[i]);
        }
        assert(all[n as int] == s[n as int]);
        lemma_span_is(all, stops, n);
        lemma_pieces_extend(rest, t, stops);
        assert(all.take(n as int) =~= s.take(n as int));
        assert(all.skip(n as int + 1) =~= rest + t);
        let p = pieces(rest, stops);
        let first = seq![s.take(n as int)];
        assert(pieces(s, stops) == first + p);
        assert((first + p).drop_last().push((first + p).last() + t) =~= first + p.drop_last().push(
            p.last() + t,
        ));
    }
}

/// An identity means the same with or without `.md`.
pub proof fn extension_does_not_matter(id: Text)
    requires
        pieces(id, "/"@).last() != ""@,
        pieces(id, "/"@).last() != "."@,
        pieces(id, "/"@).last() != ".."@,
    ensures
        file_of(id + ".md"@) == file_of(id),
{
    reveal_strlit(".md");
    reveal_strlit("/");
    reveal_strlit("");
    reveal_strlit(".");
    reveal_strlit("..");
    let t = ".md"@;
    assert forall|i: int| 0 <= i < t.len() implies !"/"@.contains(#[trigger] t[i]) by {}
    lemma_pieces_extend(id, t, "/"@);
    let last = pieces(id, "/"@).last();
    let longer = last + t;
    assert(pieces(id + t, "/"@).last() == longer);
    assert(last_name(pieces(id + t, "/"@)) == Some(longer));
    assert(longer.skip(longer.len() - 3) =~= t);
    assert(longer.take(longer.len() - 3) =~= last);
}

} // verus!

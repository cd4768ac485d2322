//! What is read of a memory, which memories are sent, and how a memory's scope and
//! origin come about.
use crate::analysis::lemma_filter_holds;
use crate::config::{listed_peers, peers_of};
use crate::frontmatter::{block, field, frontmatter_of, has_key, names, says_shared, scoped};
use crate::frontmatter_laws::{
    clearing_unmarks, insert_reads_back, lemma_field_first, lemma_lines_joined, lemma_lines_single,
    lemma_trimmed_start_pad, one_line, sharing_marks,
};
use crate::index_laws::is_clean;
use crate::link_laws::{found_means_inside, inside};
use crate::memory::{
    below, file_of, is_memory_file, last_name, loaded, memory_files, memory_of, shared_of, stem,
    store_of, tag_of, Memory,
};
use crate::repair_laws::lemma_filter_keeps;
use crate::reservation::{is_reservation, reservation_of, reservations_in};
use crate::scope::{stamped, stamping, Stamping};
use crate::sync::{file_list, has_files, names_file};
use crate::text::{
    begins, ends, items_of, lemma_position_from, lemma_position_is, lemma_trimmed_start, lines_of,
    occurs_at, pieces, span, lemma_span_is, trimmed, trimmed_start, white_space, without_return,
    Text,
};
use crate::text_laws::{
    first_piece_ends_at_the_first_stop, has_none, is_blank, text_is_trimmed_with_blanks_around,
    trimming_cuts_the_ends,
};
use crate::version::semver;
use vstd::prelude::*;

verus! {

/// The frontmatter is what stands between a first line `---` and the next line that
/// begins with `---`.
pub proof fn frontmatter_stands_between_fences(fm: Text, rest: Text)
    requires
        !inside("\n---"@, fm),
    ensures
        frontmatter_of("---\n"@ + fm + "\n---"@ + rest) == fm,
        block("---\n"@ + fm + "\n---"@ + rest) == Some((fm, "\n---"@ + rest)),
{
    reveal_strlit("---\n");
    reveal_strlit("\n---");
    let p = "\n---"@;
    let s = "---\n"@ + fm + p + rest;
    let t = s.skip(4);
    let n = fm.len() as int;
    assert(s.take(4) =~= "---\n"@);
    assert(t =~= fm + p + rest);
    assert(t.subrange(n, n + 4) =~= p);
    lemma_first_fence(fm, rest);
    lemma_position_is(t, p, n);
    assert(t.take(n) =~= fm);
    assert(t.skip(n) =~= p + rest);
}

proof fn lemma_first_fence(fm: Text, rest: Text)
    requires
        !inside("\n---"@, fm),
    ensures
        forall|j: int|
            0 <= j < fm.len() ==> !#[trigger] occurs_at(fm + "\n---"@ + rest, "\n---"@, j),
{
    reveal_strlit("\n---");
    let p = "\n---"@;
    let n = fm.len() as int;
    let t = fm + p + rest;
    found_means_inside(fm, p);
    lemma_position_from(fm, p, 0);
    assert forall|j: int| 0 <= j < n implies !#[trigger] occurs_at(t, p, j) by {
        if occurs_at(t, p, j) {
            if j + 4 <= n {
                assert(fm.subrange(j, j + 4) =~= t.subrange(j, j + 4));
                assert(occurs_at(fm, p, j));
            } else {
                let x = t.subrange(j, j + 4);
                assert(x[n - j] == t[n]);
                assert(t[n] == '\n');
                assert(p[n - j] == '-');
            }
        }
    }
}

/// Without a first line `---`, or without a line that closes it, there is no
/// frontmatter.
pub proof fn no_fences_no_frontmatter(content: Text)
    requires
        !begins(content, "---\n"@) || !inside("\n---"@, content.skip(4)),
    ensures
        block(content) is None,
        frontmatter_of(content) == Seq::<char>::empty(),
{
    reveal_strlit("---\n");
    found_means_inside(content.skip(4), "\n---"@);
}

/// Whether a line gives a key a value, behind any indent.
pub open spec fn gives(line: Text, key: Text, value: Text) -> bool {
    exists|w: Text| is_blank(w) && line == #[trigger] (w + key + ":"@ + value)
}

pub(crate) proof fn lemma_gives(line: Text, key: Text)
    requires
        key.len() > 0,
        !white_space(key[0]),
    ensures
        names(line, key) <==> exists|v: Text| gives(line, key, v),
        names(line, key) ==> gives(
            line,
            key,
            trimmed_start(line).skip((key + ":"@).len() as int),
        ),
        forall|v: Text| #[trigger]
            gives(line, key, v) ==> v == trimmed_start(line).skip((key + ":"@).len() as int),
{
    let k = key + ":"@;
    let n = k.len() as int;
    let t = trimmed_start(line);
    lemma_trimmed_start(line);
    if names(line, key) {
        let w = line.take(line.len() - t.len());
        let v = t.skip(n);
        assert forall|i: int| 0 <= i < w.len() implies white_space(#[trigger] w[i]) by {
            assert(white_space(line[i]));
        }
        assert(line =~= w + t);
        assert(t =~= k + v);
        assert(line =~= w + key + ":"@ + v);
        assert(gives(line, key, v));
    }
    assert forall|v: Text| #[trigger] gives(line, key, v) implies v == t.skip(n) && names(line, key) by {
        let w = choose|w: Text| is_blank(w) && line == #[trigger] (w + key + ":"@ + v);
        let core = k + v;
        assert(line =~= w + core);
        assert(core[0] == key[0]);
        lemma_trimmed_start_pad(w, core);
        assert(core.take(n) =~= k);
        assert(core.skip(n) =~= v);
    }
}

/// A field is what the first line that gives it says, trimmed.
pub proof fn field_is_what_the_first_line_gives(ls: Seq<Text>, key: Text, k: int, value: Text)
    requires
        key.len() > 0,
        !white_space(key[0]),
        0 <= k < ls.len(),
        gives(ls[k], key, value),
        forall|j: int, v: Text| 0 <= j < k ==> !#[trigger] gives(ls[j], key, v),
    ensures
        field(ls, key) == Some(trimmed(value)),
{
    lemma_gives(ls[k], key);
    assert forall|j: int| 0 <= j < k implies !names(#[trigger] ls[j], key) by {
        lemma_gives(ls[j], key);
    }
    lemma_field_first(ls, key, k);
}

/// A field that no line gives is not there.
pub proof fn field_that_no_line_gives(ls: Seq<Text>, key: Text)
    requires
        key.len() > 0,
        !white_space(key[0]),
        forall|j: int, v: Text| 0 <= j < ls.len() ==> !#[trigger] gives(ls[j], key, v),
    ensures
        field(ls, key) is None,
    decreases ls.len(),
{
    if ls.len() > 0 {
        let more = ls.skip(1);
        lemma_gives(ls[0], key);
        assert forall|j: int, v: Text| 0 <= j < more.len() implies !#[trigger] gives(
            more[j],
            key,
            v,
        ) by {
            assert(more[j] == ls[j + 1]);
        }
        field_that_no_line_gives(more, key);
        assert(!names(ls[0], key)) by {
            if names(ls[0], key) {
                assert(gives(ls[0], key, trimmed_start(ls[0]).skip((key + ":"@).len() as int)));
            }
        }
    }
}

/// Whether a line says that a memory is shared: `scope:` and `shared`, with nothing but
/// white space around them.
pub open spec fn says_scope_shared(line: Text) -> bool {
    exists|a: Text, b: Text, c: Text|
        is_blank(a) && is_blank(b) && is_blank(c) && line == #[trigger] (a + "scope:"@ + b
            + "shared"@ + c)
}

proof fn lemma_says(line: Text)
    ensures
        says_shared(line) <==> says_scope_shared(line),
{
    reveal_strlit("scope:");
    reveal_strlit("shared");
    let k = "scope:"@;
    let v = "shared"@;
    if says_scope_shared(line) {
        let (a, b, c) = choose|a: Text, b: Text, c: Text|
            is_blank(a) && is_blank(b) && is_blank(c) && line == #[trigger] (a + k + b + v + c);
        let core = k + b + v;
        assert(core[0] == 's' && core.last() == 'd');
        trimming_cuts_the_ends(a, core, c);
        assert(line =~= a + core + c);
        assert(core.take(6) =~= k);
        let none = Seq::<char>::empty();
        assert(core.skip(6) =~= b + v + none);
        trimming_cuts_the_ends(b, v, none);
    }
    if says_shared(line) {
        let t = trimmed(line);
        let (a, c) = text_is_trimmed_with_blanks_around(line);
        let u = t.skip(6);
        let (b, d) = text_is_trimmed_with_blanks_around(u);
        assert(t =~= k + u);
        assert(u == b + v + d);
        let e = d + c;
        assert forall|i: int| 0 <= i < e.len() implies white_space(#[trigger] e[i]) by {
            if i < d.len() {
                assert(e[i] == d[i]);
            } else {
                assert(e[i] == c[i - d.len()]);
            }
        }
        assert(line =~= a + k + b + v + e);
    }
}

/// A memory is shared exactly where a line of its frontmatter says `scope: shared`.
pub proof fn shared_means_a_line_that_says_so(file: Text, content: Text)
    ensures
        memory_of(file, content).shared <==> exists|i: int|
            0 <= i < lines_of(frontmatter_of(content)).len() && says_scope_shared(
                #[trigger] lines_of(frontmatter_of(content))[i],
            ),
{
    let ls = lines_of(frontmatter_of(content));
    assert forall|i: int| 0 <= i < ls.len() implies says_shared(#[trigger] ls[i])
        == says_scope_shared(ls[i]) by {
        lemma_says(ls[i]);
    }
}

/// What is read of a memory: its fields with their defaults, a quarter of its
/// characters as its size, and its links.
pub proof fn memory_says_what_its_file_says(file: Text, content: Text)
    ensures
        ({
            let m = memory_of(file, content);
            let ls = lines_of(frontmatter_of(content));
            &&& m.file == file
            &&& match field(ls, "name"@) {
                Some(v) => m.name == v,
                None => m.name == stem(file),
            }
            &&& match field(ls, "type"@) {
                Some(v) => m.typ == v,
                None => m.typ == "?"@,
            }
            &&& match field(ls, "description"@) {
                Some(v) => m.desc == v,
                None => m.desc == ""@,
            }
            &&& match field(ls, "origin"@) {
                Some(v) => m.origin == v,
                None => m.origin == "?"@,
            }
            &&& 4 * m.tok <= content.len() < 4 * m.tok + 4
            &&& m.links == crate::links::links_in(content)
        }),
{
}

/// Every file that is read becomes a memory, in the same place.
pub proof fn every_file_is_read(files: Seq<(Text, Text)>)
    ensures
        loaded(files).len() == files.len(),
        forall|i: int|
            0 <= i < files.len() ==> #[trigger] loaded(files)[i] == memory_of(
                files[i].0,
                files[i].1,
            ),
{
}

/// A file is a memory exactly where its name is something with `.md` behind it and does
/// not begin with `MEMORY`.
pub proof fn memories_are_the_md_files_but_the_index(names: Seq<Text>, name: Text)
    ensures
        memory_files(names).contains(name) <==> names.contains(name) && (exists|x: Text|
            x.len() > 0 && name == #[trigger] (x + ".md"@)) && !(exists|y: Text|
            name == #[trigger] ("MEMORY"@ + y)),
{
    reveal_strlit(".md");
    reveal_strlit("MEMORY");
    let p = |n: Text| is_memory_file(n);
    let kept = names.filter(p);
    let out = memory_files(names);
    crate::order::ranking_permutes::<String>(kept);
    broadcast use vstd::seq_lib::group_to_multiset_ensures;

    assert(out.contains(name) <==> out.to_multiset().count(name) > 0);
    assert(kept.contains(name) <==> kept.to_multiset().count(name) > 0);
    if kept.contains(name) {
        let k = choose|k: int| 0 <= k < kept.len() && kept[k] == name;
        lemma_filter_holds(names, p, k);
    }
    if names.contains(name) && p(name) {
        lemma_filter_keeps(names, p, name);
    }
    if is_memory_file(name) {
        let x = name.take(name.len() - 3);
        assert(name =~= x + ".md"@);
        if exists|y: Text| name == #[trigger] ("MEMORY"@ + y) {
            let y = choose|y: Text| name == #[trigger] ("MEMORY"@ + y);
            assert(name.take(6) =~= "MEMORY"@);
        }
    }
    if exists|x: Text| x.len() > 0 && name == #[trigger] (x + ".md"@) {
        let x = choose|x: Text| x.len() > 0 && name == #[trigger] (x + ".md"@);
        assert(name.skip(name.len() - 3) =~= ".md"@);
        if begins(name, "MEMORY"@) {
            assert(name =~= "MEMORY"@ + name.skip(6));
        }
    }
}

/// What is sent is exactly the files that say `scope: shared`.
pub proof fn sent_are_the_files_that_say_so(files: Seq<(Text, Text)>, file: Text)
    ensures
        shared_of(loaded(files)).contains(file) <==> exists|i: int|
            0 <= i < files.len() && (#[trigger] files[i]).0 == file && exists|j: int|
                0 <= j < lines_of(frontmatter_of(files[i].1)).len() && says_scope_shared(
                    #[trigger] lines_of(frontmatter_of(files[i].1))[j],
                ),
        shared_of(loaded(files)).len() <= files.len(),
{
    let mems = loaded(files);
    let p = |m: Memory| m.shared;
    let sent = shared_of(mems);
    crate::analysis::lemma_filter_bound(mems, p);
    if sent.contains(file) {
        let k = choose|k: int| 0 <= k < sent.len() && sent[k] == file;
        lemma_filter_holds(mems, p, k);
        let i = choose|i: int| 0 <= i < mems.len() && mems[i] == mems.filter(p)[k];
        shared_means_a_line_that_says_so(files[i].0, files[i].1);
        assert(files[i].0 == file);
    }
    if exists|i: int|
        0 <= i < files.len() && (#[trigger] files[i]).0 == file && exists|j: int|
            0 <= j < lines_of(frontmatter_of(files[i].1)).len() && says_scope_shared(
                #[trigger] lines_of(frontmatter_of(files[i].1))[j],
            ) {
        let i = choose|i: int|
            0 <= i < files.len() && (#[trigger] files[i]).0 == file && exists|j: int|
                0 <= j < lines_of(frontmatter_of(files[i].1)).len() && says_scope_shared(
                    #[trigger] lines_of(frontmatter_of(files[i].1))[j],
                );
        shared_means_a_line_that_says_so(files[i].0, files[i].1);
        lemma_filter_keeps(mems, p, mems[i]);
        let k = choose|k: int| 0 <= k < mems.filter(p).len() && mems.filter(p)[k] == mems[i];
        assert(sent[k] == file);
    }
}

/// The list that is handed over has one line for each file that is sent.
pub proof fn list_has_a_line_for_each_file(mems: Seq<Memory>)
    requires
        forall|i: int|
            0 <= i < mems.len() ==> is_clean((#[trigger] mems[i]).file) && mems[i].file.len() > 0,
    ensures
        lines_of(file_list(mems)) == shared_of(mems),
{
    let files = shared_of(mems);
    let p = |m: Memory| m.shared;
    assert forall|k: int| 0 <= k < files.len() implies is_clean(#[trigger] files[k])
        && files[k].len() > 0 by {
        lemma_filter_holds(mems, p, k);
        let i = choose|i: int| 0 <= i < mems.len() && mems[i] == mems.filter(p)[k];
        assert(is_clean(mems[i].file));
    }
    lemma_lines_joined(files);
    if files.len() > 0 {
        let last = files[files.len() - 1];
        assert(is_clean(last));
        lemma_lines_single(last);
        let head = files.drop_last();
        assert(head.map_values(|l: Text| without_return(l)) =~= head) by {
            assert forall|i: int| 0 <= i < head.len() implies without_return(#[trigger] head[i])
                == head[i] by {
                assert(is_clean(files[i]));
            }
        }
        assert(lines_of(file_list(mems)) =~= files);
    }
}

/// A list is worth sending exactly where something in it is not white space, and a line
/// of a report names a file where that holds of it and it does not end in a slash.
pub proof fn blank_lists_and_directories_do_not_count(s: Text)
    ensures
        has_files(s) <==> !is_blank(s),
        names_file(s) <==> !is_blank(s) && s.last() != '/',
{
    reveal_strlit("/");
    let (a, b) = text_is_trimmed_with_blanks_around(s);
    let none = Seq::<char>::empty();
    if is_blank(s) {
        assert(a + none + b =~= a + b);
        trimming_cuts_the_ends(s, none, none);
        assert(s + none + none =~= s);
    } else if trimmed(s).len() == 0 {
        assert(s =~= a + b);
        assert forall|i: int| 0 <= i < s.len() implies white_space(#[trigger] s[i]) by {
            if i < a.len() {
                assert(s[i] == a[i]);
            } else {
                assert(s[i] == b[i - a.len()]);
            }
        }
    }
    if s.len() > 0 {
        if s.last() == '/' {
            assert(s.skip(s.len() - 1) =~= "/"@);
        }
        if ends(s, "/"@) {
            assert(s.skip(s.len() - 1)[0] == s.last());
        }
    }
}

/// Sharing a memory makes it one that is shared, and making it local makes it one that
/// is not; its text behind the frontmatter stays.
pub proof fn scope_is_what_it_was_set_to(file: Text, content: Text, shared: bool)
    requires
        block(content) is Some,
    ensures
        scoped(content, shared) is Some,
        memory_of(file, scoped(content, shared)->0).shared == shared,
        (block(scoped(content, shared)->0)->0).1 == (block(content)->0).1,
{
    sharing_marks(content);
    clearing_unmarks(content);
}

/// A memory without frontmatter has no scope to set.
pub proof fn no_frontmatter_no_scope(content: Text, shared: bool)
    ensures
        scoped(content, shared) is None <==> block(content) is None,
{
}

/// A machine without a name stamps nothing; the first time, it takes what is there as
/// known; from then on it stamps exactly the files that were not known.
pub proof fn stamped_are_the_files_that_are_new(
    host: Text,
    baseline: Text,
    files: Seq<Text>,
    file: Text,
)
    ensures
        stamping(host, baseline, files) is Nothing <==> host.len() == 0,
        stamping(host, baseline, files) is Baseline <==> host.len() > 0 && lines_of(
            baseline,
        ).len() == 0,
        stamping(host, baseline, files) matches Stamping::Stamp(v) ==> (v.contains(file)
            <==> files.contains(file) && !lines_of(baseline).contains(file)),
{
    let known = lines_of(baseline);
    let p = |f: Text| !known.contains(f);
    let v = files.filter(p);
    if v.contains(file) {
        let k = choose|k: int| 0 <= k < v.len() && v[k] == file;
        lemma_filter_holds(files, p, k);
    }
    if files.contains(file) && p(file) {
        lemma_filter_keeps(files, p, file);
    }
}

/// A memory that has no origin yet is stamped with the machine's name; one that has
/// one is left alone.
pub proof fn new_memory_gets_this_machine_as_origin(file: Text, content: Text, host: Text)
    requires
        block(content) is Some,
        one_line(host),
        trimmed(host) == host,
    ensures
        memory_of(file, content).origin == "?"@ && field(
            lines_of(frontmatter_of(content)),
            "origin"@,
        ) is None ==> stamped(content, host) is Some && memory_of(
            file,
            stamped(content, host)->0,
        ).origin == host,
        field(lines_of(frontmatter_of(content)), "origin"@) is Some ==> stamped(content, host) is None,
{
    reveal_strlit("origin");
    reveal_strlit("---");
    reveal_strlit("\n");
    let key = "origin"@;
    let ls = lines_of(frontmatter_of(content));
    if field(ls, key) is None {
        assert(!has_key(ls, key)) by {
            if has_key(ls, key) {
                lemma_named_is_there(ls, key);
            }
        }
        assert(key[0] == 'o');
        if key.contains('\n') {
            let j = choose|j: int| 0 <= j < key.len() && key[j] == '\n';
        }
        if begins(key, "---"@) {
            assert(key.take(3)[0] == key[0]);
        }
        insert_reads_back(content, key, host);
        assert forall|i: int| 0 <= i < host.len() implies !"\n"@.contains(#[trigger] host[i]) by {
            assert(host.contains(host[i]));
        }
        lemma_span_is(host, "\n"@, host.len());
        assert(host.take(host.len() as int) =~= host);
    }
}

proof fn lemma_named_is_there(ls: Seq<Text>, key: Text)
    requires
        has_key(ls, key),
    ensures
        field(ls, key) is Some,
    decreases ls.len(),
{
    if !names(ls[0], key) {
        let i = choose|i: int| 0 <= i < ls.len() && names(#[trigger] ls[i], key);
        let more = ls.skip(1);
        assert(names(more[i - 1], key));
        lemma_named_is_there(more, key);
    }
}

/// An identity is the last part of a path, with or without `.md`.
pub proof fn identity_is_the_last_part_of_a_path(dir: Text, name: Text)
    requires
        name.len() > 0,
        has_none(name, "/"@),
        name != "."@,
        name != ".."@,
        !ends(name, ".md"@),
    ensures
        file_of(name) == name + ".md"@,
        file_of(name + ".md"@) == name + ".md"@,
        file_of(dir + "/"@ + name) == name + ".md"@,
{
    reveal_strlit("/");
    reveal_strlit(".md");
    reveal_strlit("");
    reveal_strlit(".");
    reveal_strlit("..");
    let stops = "/"@;
    assert(stops[0] == '/');
    assert(stops =~= seq!['/']);
    first_piece_ends_at_the_first_stop(name, '/', name, stops);
    let full = name + ".md"@;
    assert(has_none(full, stops)) by {
        assert forall|i: int| 0 <= i < full.len() implies !stops.contains(#[trigger] full[i]) by {
            if i < name.len() {
                assert(full[i] == name[i]);
            }
        }
    }
    first_piece_ends_at_the_first_stop(full, '/', full, stops);
    assert(full.skip(full.len() - 3) =~= ".md"@);
    assert(full.take(full.len() - 3) =~= name);
    assert(full.len() >= 4);
    lemma_last_piece(dir, name);
    assert(seq![name].last() == name);
    assert(seq![full].last() == full);
}

proof fn lemma_last_piece(dir: Text, name: Text)
    requires
        has_none(name, "/"@),
    ensures
        pieces(dir + "/"@ + name, "/"@).len() > 0,
        pieces(dir + "/"@ + name, "/"@) == pieces(dir, "/"@).push(name),
    decreases dir.len(),
{
    reveal_strlit("/");
    let stops = "/"@;
    assert(stops =~= seq!['/']);
    assert(stops[0] == '/');
    let n = span(dir, stops) as int;
    crate::text::lemma_span(dir, stops);
    first_piece_ends_at_the_first_stop(name, '/', name, stops);
    if n >= dir.len() {
        assert(has_none(dir, stops));
        first_piece_ends_at_the_first_stop(dir, '/', name, stops);
        assert(dir + stops + name =~= dir + seq!['/'] + name);
    } else {
        let a = dir.take(n);
        let d = dir.skip(n + 1);
        assert(has_none(a, stops)) by {
            assert forall|i: int| 0 <= i < a.len() implies !stops.contains(#[trigger] a[i]) by {
                assert(a[i] == dir[i]);
            }
        }
        assert(dir[n] == '/');
        lemma_last_piece(d, name);
        first_piece_ends_at_the_first_stop(a, '/', d + stops + name, stops);
        assert(dir + stops + name =~= a + seq!['/'] + (d + stops + name));
    }
}

/// A slash or a dot behind a path names nothing of its own, and a path that goes up at
/// its end names nothing at all.
pub proof fn dots_and_slashes_name_nothing(path: Text)
    ensures
        file_of(path + "/"@) == file_of(path),
        file_of(path + "/"@ + "."@) == file_of(path),
        file_of(path + "/"@ + ".."@) == ".md"@,
        file_of(""@) == ".md"@,
{
    reveal_strlit("/");
    reveal_strlit("");
    reveal_strlit(".");
    reveal_strlit("..");
    reveal_strlit(".md");
    let none = ""@;
    assert(none =~= Seq::<char>::empty());
    assert(path + "/"@ + none =~= path + "/"@);
    lemma_last_piece(path, none);
    lemma_last_piece(path, "."@);
    lemma_last_piece(path, ".."@);
    let ps = pieces(path, "/"@);
    assert(ps.push(none).drop_last() =~= ps);
    assert(ps.push("."@).drop_last() =~= ps);
    assert(stem(none) =~= none);
    assert(none + ".md"@ =~= ".md"@);
    assert(pieces(none, "/"@) =~= seq![none]);
    assert(seq![none].drop_last() =~= Seq::<Text>::empty());
    reveal_with_fuel(last_name, 2);
}

/// A path below a directory is the two with a slash between them.
pub proof fn paths_are_joined_by_a_slash(dir: Text, name: Text)
    requires
        dir.len() > 0,
        dir.last() != '/',
        name.len() > 0 ==> name[0] != '/',
    ensures
        below(dir, name) == dir + "/"@ + name,
{
    reveal_strlit("/");
    if begins(name, "/"@) {
        assert(name.take(1)[0] == name[0]);
    }
    if ends(dir, "/"@) {
        assert(dir.skip(dir.len() - 1)[0] == dir.last());
    }
}

/// An absolute name is a path of its own, and no second slash is put behind a
/// directory that ends in one.
pub proof fn absolute_names_stay(dir: Text, name: Text)
    ensures
        name.len() > 0 && name[0] == '/' ==> below(dir, name) == name,
        (name.len() > 0 ==> name[0] != '/') && (dir.len() > 0 ==> dir.last() == '/') ==> below(
            dir,
            name,
        ) == dir + name,
{
    reveal_strlit("/");
    if name.len() > 0 {
        assert(name[0] == '/' ==> name.take(1) =~= "/"@);
        assert(begins(name, "/"@) ==> name.take(1)[0] == name[0]);
    }
    if dir.len() > 0 && dir.last() == '/' {
        assert(dir.skip(dir.len() - 1) =~= "/"@);
    }
}

/// The store lies in the base directory of the home directory.
pub proof fn store_lies_below_home(home: Text, base: Text)
    requires
        home.len() > 0,
        home.last() != '/',
        base.len() > 0,
        base[0] != '/',
        base.last() != '/',
    ensures
        store_of(home, base) == home + "/"@ + base + "/"@ + "memnir"@,
{
    reveal_strlit("memnir");
    paths_are_joined_by_a_slash(home, base);
    let dir = home + "/"@ + base;
    assert(dir.last() == base.last());
    paths_are_joined_by_a_slash(dir, "memnir"@);
}

/// A tag is the beginning of a token, six characters of it.
pub proof fn tag_is_six_characters(token: Text)
    ensures
        token.len() >= 6 ==> tag_of(token).len() == 6,
        token == tag_of(token) + token.skip(tag_of(token).len() as int),
{
    assert(token =~= tag_of(token) + token.skip(tag_of(token).len() as int));
}

/// The configuration names a peer exactly where one of its lines, trimmed, is the peer
/// and no comment.
pub proof fn configured_peers_are_the_lines_but_comments(conf: Text, peer: Text)
    ensures
        listed_peers(conf).contains(peer) <==> peer.len() > 0 && peer[0] != '#' && exists|i: int|
            0 <= i < lines_of(conf).len() && trimmed(#[trigger] lines_of(conf)[i]) == peer,
{
    reveal_strlit("#");
    let ls = lines_of(conf);
    let f = |l: Text| trimmed(l);
    let all = ls.map_values(f);
    let p = |l: Text| l.len() > 0 && !begins(l, "#"@);
    let out = listed_peers(conf);
    if peer.len() > 0 {
        if peer[0] == '#' {
            assert(peer.take(1) =~= "#"@);
        }
        if begins(peer, "#"@) {
            assert(peer.take(1)[0] == peer[0]);
        }
    }
    if out.contains(peer) {
        let k = choose|k: int| 0 <= k < out.len() && out[k] == peer;
        lemma_filter_holds(all, p, k);
        let i = choose|i: int| 0 <= i < all.len() && all[i] == peer;
        assert(trimmed(ls[i]) == peer);
    }
    if exists|i: int| 0 <= i < ls.len() && trimmed(#[trigger] ls[i]) == peer {
        let i = choose|i: int| 0 <= i < ls.len() && trimmed(#[trigger] ls[i]) == peer;
        assert(all[i] == peer);
        if p(peer) {
            lemma_filter_keeps(all, p, peer);
        }
    }
}

/// Peers that the environment names go before those in the configuration; it names
/// them with commas, blanks, tabs or line ends between.
pub proof fn environment_goes_before_the_configuration(env: Text, conf: Text)
    ensures
        items_of(env, ", \n\t"@).len() > 0 ==> peers_of(env, conf) == items_of(env, ", \n\t"@),
        items_of(env, ", \n\t"@).len() == 0 ==> peers_of(env, conf) == listed_peers(conf),
{
}

/// The reservations are the files whose type is `reservation`, read field by field.
pub proof fn reservations_are_the_files_of_that_type(file: Text, content: Text)
    ensures
        is_reservation(content) <==> memory_of(file, content).typ == "reservation"@ && field(
            lines_of(frontmatter_of(content)),
            "type"@,
        ) is Some,
        ({
            let r = reservation_of(file, content);
            let ls = lines_of(frontmatter_of(content));
            &&& r.file == file
            &&& field(ls, "repo"@) matches Some(v) ==> r.repo == v
            &&& field(ls, "version"@) matches Some(v) ==> r.version == v
            &&& r.ver == semver(r.version)
            &&& r.repo_slug == crate::naming::slugged(r.repo)
            &&& match field(ls, "status"@) {
                Some(v) => r.status == v,
                None => r.status == "active"@,
            }
            &&& match field(ls, "owner"@) {
                Some(v) => r.owner == v,
                None => r.owner == "?"@,
            }
            &&& field(ls, "tag"@) matches Some(v) ==> r.tag == v
            &&& field(ls, "description"@) matches Some(v) ==> r.desc == v
            &&& match field(ls, "reserved_at"@) {
                Some(v) => match crate::number::parsed(v, u64::MAX as nat) {
                    Some(n) => r.reserved_at == n,
                    None => r.reserved_at == 0,
                },
                None => r.reserved_at == 0,
            }
        }),
{
}

/// Every file that is a reservation is read as one, and nothing else is.
pub proof fn every_reservation_is_read(files: Seq<(Text, Text)>, i: int, k: int)
    ensures
        0 <= i < files.len() && is_reservation(files[i].1) ==> reservations_in(files).contains(
            reservation_of(files[i].0, files[i].1),
        ),
        0 <= k < reservations_in(files).len() ==> exists|j: int|
            0 <= j < files.len() && is_reservation((#[trigger] files[j]).1) && reservations_in(
                files,
            )[k] == reservation_of(files[j].0, files[j].1),
{
    let p = |f: (Text, Text)| is_reservation(f.1);
    let rs = reservations_in(files);
    if 0 <= i < files.len() && is_reservation(files[i].1) {
        lemma_filter_keeps(files, p, files[i]);
        let j = choose|j: int| 0 <= j < files.filter(p).len() && files.filter(p)[j] == files[i];
        assert(rs[j] == reservation_of(files[i].0, files[i].1));
    }
    if 0 <= k < rs.len() {
        lemma_filter_holds(files, p, k);
        let j = choose|j: int| 0 <= j < files.len() && files[j] == files.filter(p)[k];
        assert(is_reservation(files[j].1));
    }
}

} // verus!

//! What passes between machines: which files are sent, and what a peer lacks.
use crate::analysis::lemma_filter_holds;
use crate::frontmatter::{block, frontmatter_of, is_shared, scoped};
use crate::frontmatter_laws::{clearing_unmarks, sharing_marks};
use crate::memory::{is_memory_file, loaded, memory_of, shared_files, shared_of, Mem, Memory};
use crate::order::views;
use crate::text::{
    chain, ends, ends_with, join, joined, lines, lines_of, texts, trim, trimmed, Text,
};
use vstd::prelude::*;

verus! {

/// What is handed to the copying tool: the files, one to a line.
pub open spec fn file_list(mems: Seq<Memory>) -> Text {
    joined(shared_of(mems), "\n"@)
}

/// Whether a list of files is worth handing over.
pub open spec fn has_files(list: Text) -> bool {
    trimmed(list).len() > 0
}

/// The files to send, one to a line: those of the shared memories.
pub fn push_list(mems: &[Mem]) -> (r: String)
    ensures
        r@ == file_list(views(mems@)),
{
    join(&shared_files(mems), "\n")
}

/// Whether a list of files is worth handing over.
pub fn is_worth_sending(list: &str) -> (r: bool)
    ensures
        r == has_files(list@),
{
    !trim(list).is_empty()
}

/// The store on a peer, as the copying tool takes it.
pub fn peer_store(peer: &str, base: &str) -> (r: String)
    ensures
        r@ == peer@ + ":"@ + base@ + "/memnir/"@,
{
    let mut s = chain(peer, ":");
    s.append(base);
    s.append("/memnir/");
    s
}

/// The command that lists the shared memories on a peer.
pub fn remote_list(base: &str) -> (r: String)
    ensures
        r@ == "cd ~/"@ + base@
            + "/memnir && grep -lE '^[[:space:]]*scope:[[:space:]]*shared[[:space:]]*$' -- *.md 2>/dev/null"@,
{
    let mut s = chain("cd ~/", base);
    s.append(
        "/memnir && grep -lE '^[[:space:]]*scope:[[:space:]]*shared[[:space:]]*$' -- *.md 2>/dev/null",
    );
    s
}

/// What the user is told where there is no peer to sync with.
pub fn no_peers_line(base: &str) -> (r: String)
    ensures
        r@ == "memnir: no peers configured (~/"@ + base@ + "/memnir.conf)"@,
{
    let mut s = chain("memnir: no peers configured (~/", base);
    s.append("/memnir.conf)");
    s
}

/// A directory as the copying tool takes it.
pub fn source_dir(dir: &str) -> (r: String)
    ensures
        r@ == dir@ + "/"@,
{
    chain(dir, "/")
}

/// Whether a line of the copying tool's report names a file.
pub open spec fn names_file(line: Text) -> bool {
    trimmed(line).len() > 0 && !ends(line, "/"@)
}

/// How many files a dry run would copy.
pub fn count_drift(report: &str) -> (n: usize)
    ensures
        n == lines_of(report@).filter(|l: Text| names_file(l)).len(),
{
    let ls = lines(report);
    let ghost all = lines_of(report@);
    let ghost p = |l: Text| names_file(l);
    let mut n: usize = 0;
    let mut i: usize = 0;
    assert(all.take(0).filter(p).len() == 0) by {
        reveal(Seq::filter);
    }
    while i < ls.len()
        invariant
            i <= ls@.len(),
            all == texts(ls@),
            p == (|l: Text| names_file(l)),
            n == all.take(i as int).filter(p).len(),
            n <= i,
        decreases ls@.len() - i,
    {
        let ghost head = all.take(i + 1);
        assert(head.drop_last() =~= all.take(i as int));
        assert(head.last() == ls@[i as int]@);
        proof {
            reveal(Seq::filter);
        }
        if !trim(&ls[i]).is_empty() && !ends_with(&ls[i], "/") {
            n = n + 1;
        }
        i = i + 1;
    }
    assert(all.take(i as int) =~= all);
    n
}

/// Only shared memories leave this machine: every file that is sent is the file
/// of a memory that says `scope: shared`, and none is an index.
pub proof fn only_shared_files_leave(files: Seq<(Text, Text)>, k: int)
    requires
        forall|i: int| 0 <= i < files.len() ==> is_memory_file((#[trigger] files[i]).0),
        0 <= k < shared_of(loaded(files)).len(),
    ensures
        is_memory_file(shared_of(loaded(files))[k]),
        exists|i: int|
            0 <= i < files.len() && (#[trigger] files[i]).0 == shared_of(loaded(files))[k] && is_shared(
                frontmatter_of(files[i].1),
            ),
{
    let mems = loaded(files);
    let p = |m: Memory| m.shared;
    lemma_filter_holds(mems, p, k);
    let m = mems.filter(p)[k];
    let i = choose|i: int| 0 <= i < mems.len() && mems[i] == m;
    assert(mems[i] == memory_of(files[i].0, files[i].1));
    assert(files[i].0 == shared_of(mems)[k]);
}

/// Every shared memory is sent.
pub proof fn every_shared_file_leaves(files: Seq<(Text, Text)>, i: int)
    requires
        0 <= i < files.len(),
        is_shared(frontmatter_of(files[i].1)),
    ensures
        shared_of(loaded(files)).contains(files[i].0),
{
    lemma_shared_kept(loaded(files), i);
}

proof fn lemma_shared_kept(mems: Seq<Memory>, i: int)
    requires
        0 <= i < mems.len(),
        mems[i].shared,
    ensures
        shared_of(mems).contains(mems[i].file),
    decreases mems.len(),
{
    reveal(Seq::filter);
    let p = |m: Memory| m.shared;
    let head = mems.drop_last();
    let old = shared_of(head);
    let new = shared_of(mems);
    if i == mems.len() - 1 {
        assert(new =~= old.push(mems[i].file));
        assert(new[new.len() - 1] == mems[i].file);
    } else {
        lemma_shared_kept(head, i);
        assert(head[i] == mems[i]);
        let k = choose|k: int| 0 <= k < old.len() && old[k] == mems[i].file;
        if p(mems.last()) {
            assert(new =~= old.push(mems.last().file));
        }
        assert(new[k] == mems[i].file);
    }
}

/// A memory that was shared is sent from then on, and one that was made local is
/// not.
pub proof fn scope_decides_what_leaves(file: Text, content: Text)
    requires
        block(content) is Some,
    ensures
        scoped(content, true) matches Some(c) && shared_of(loaded(seq![(file, c)])) == seq![file],
        scoped(content, false) matches Some(c) && shared_of(loaded(seq![(file, c)])) == Seq::<
            Text,
        >::empty(),
{
    sharing_marks(content);
    clearing_unmarks(content);
    lemma_single(file, scoped(content, true)->0);
    lemma_single(file, scoped(content, false)->0);
}

proof fn lemma_single(file: Text, content: Text)
    ensures
        shared_of(loaded(seq![(file, content)])) == (if is_shared(frontmatter_of(content)) {
            seq![file]
        } else {
            Seq::<Text>::empty()
        }),
{
    reveal(Seq::filter);
    let mems = loaded(seq![(file, content)]);
    let none = Seq::<Memory>::empty();
    let p = |m: Memory| m.shared;
    assert(mems.drop_last() =~= none);
    assert(none.filter(p) =~= none);
    assert(mems.last() == memory_of(file, content));
    if is_shared(frontmatter_of(content)) {
        assert(mems.filter(p) =~= seq![mems.last()]);
        assert(shared_of(mems) =~= seq![file]);
    } else {
        assert(mems.filter(p) =~= none);
        assert(shared_of(mems) =~= Seq::<Text>::empty());
    }
}

} // verus!

//! Sharing a memory or keeping it local, and stamping where it was written.
use crate::frontmatter::{
    block, field, fm_field, frontmatter, frontmatter_of, has_scope_shared, inserted, is_shared,
    scoped, set_origin_in, set_scope_in,
};
use crate::analysis::lemma_filter_holds;
use crate::frontmatter_laws::{
    clearing_unmarks, lemma_lines_joined, lemma_lines_single, one_line, origin_is_stamped_once,
    sharing_marks,
};
use crate::index_laws::is_clean;
use crate::memory::{file_of, resolve_name};
use crate::text::{chain, join, joined, lines, lines_of, mentions, texts, without_return, Text};
use vstd::prelude::*;

verus! {

/// What there is where a memory's file should be.
pub enum FileState {
    Missing,
    /// Something that cannot be read as text.
    Unreadable,
    Content(String),
}

/// The model of `FileState`.
pub enum Found {
    Missing,
    Unreadable,
    Content(Text),
}

impl View for FileState {
    type V = Found;

    open spec fn view(&self) -> Found {
        match self {
            FileState::Missing => Found::Missing,
            FileState::Unreadable => Found::Unreadable,
            FileState::Content(c) => Found::Content(c@),
        }
    }
}

/// What to do to set a memory's scope. The index is made anew in any case.
pub struct ScopeChange {
    /// The new content of the file, if it is to be written.
    pub write: Option<String>,
    /// Whether the file was found to have no frontmatter.
    pub bare: bool,
    /// Whether to push to the peers.
    pub push: bool,
}

/// Whether a scope change writes `c` to the file.
pub open spec fn writes(w: ScopeChange, c: Option<Text>) -> bool {
    match (w.write, c) {
        (Some(a), Some(b)) => a@ == b,
        (None, None) => true,
        _ => false,
    }
}

/// The content with its scope set, where there is one that has a frontmatter.
pub open spec fn rescoped(state: Found, shared: bool) -> Option<Text> {
    match state {
        Found::Content(c) => scoped(c, shared),
        _ => None,
    }
}

/// Whether a change sets a memory's scope: it writes the content with the scope set,
/// says whether there was no frontmatter, and pushes what is shared.
pub open spec fn sets_scope(w: ScopeChange, state: Found, shared: bool) -> bool {
    &&& writes(w, rescoped(state, shared))
    &&& w.bare == (state matches Found::Content(c) && scoped(c, shared) is None)
    &&& w.push == shared
}

/// Sets the scope of a memory: what to write, and whether to push. A shared
/// memory is pushed to the peers, a local one never is.
pub fn apply_scope(id: &str, state: &FileState, shared: bool) -> (r: Result<ScopeChange, String>)
    ensures
        match r {
            Ok(w) => {
                &&& !(state is Missing)
                &&& sets_scope(w, state@, shared)
            },
            Err(e) => state is Missing && e@ == "not found: "@ + id@,
        },
{
    match state {
        FileState::Missing => Err(chain("not found: ", id)),
        FileState::Unreadable => Ok(ScopeChange { write: None, bare: false, push: shared }),
        FileState::Content(c) => {
            let new = set_scope_in(c, shared);
            let bare = new.is_none();
            Ok(ScopeChange { write: new, bare, push: shared })
        },
    }
}

/// What the user is told once a scope is set.
pub open spec fn scope_lines(id: Text, shared: bool) -> Seq<Text> {
    let said = seq![
        "✓ "@ + file_of(id) + " → scope:"@ + (if shared {
            "shared"@
        } else {
            "local"@
        }),
    ];
    if shared {
        said.push("  pushed to peers"@)
    } else {
        said
    }
}

/// What the user is told once a scope is set.
pub fn report_scope(id: &str, shared: bool) -> (r: Vec<String>)
    ensures
        texts(r@) == scope_lines(id@, shared),
{
    let mut s = "✓ ".to_string();
    s.append(&resolve_name(id));
    s.append(" → scope:");
    s.append(
        if shared {
            "shared"
        } else {
            "local"
        },
    );
    let mut r: Vec<String> = Vec::new();
    r.push(s);
    assert(texts(r@) =~= seq![s@]);
    if shared {
        let ghost said = texts(r@);
        r.push("  pushed to peers".to_string());
        assert(texts(r@) =~= said.push("  pushed to peers"@));
    }
    r
}

/// Whether what is in a file is marked as shared.
pub open spec fn shared_now(state: Found) -> bool {
    match state {
        Found::Content(c) => is_shared(frontmatter_of(c)),
        _ => is_shared(frontmatter_of(""@)),
    }
}

/// Whether what is in a file is marked as shared.
pub fn is_shared_now(state: &FileState) -> (r: bool)
    ensures
        r == shared_now(state@),
{
    match state {
        FileState::Content(c) => has_scope_shared(frontmatter(c)),
        _ => has_scope_shared(frontmatter("")),
    }
}

/// What is answered once a memory's scope was turned around.
pub open spec fn toggled_text(id: Text, was_shared: bool) -> Text {
    if was_shared {
        id + " → "@ + "local"@
    } else {
        id + " → "@ + "shared"@ + " (pushed)"@
    }
}

/// Turns a memory's scope around: what to do, and what is answered.
pub fn toggle_scope(id: &str, state: &FileState) -> (r: (Option<ScopeChange>, String))
    ensures
        match r.0 {
            Some(w) => {
                &&& !(state is Missing)
                &&& sets_scope(w, state@, !shared_now(state@))
                &&& r.1@ == toggled_text(id@, shared_now(state@))
            },
            None => state is Missing && r.1@ == "not found: "@ + id@,
        },
{
    let cur = is_shared_now(state);
    match apply_scope(id, state, !cur) {
        Ok(w) => {
            let mut s = id.to_string();
            s.append(" → ");
            if cur {
                s.append("local");
            } else {
                s.append("shared");
                s.append(" (pushed)");
            }
            (Some(w), s)
        },
        Err(e) => (None, e),
    }
}

/// What to do about origins.
pub enum StampPlan {
    /// This machine has no name: do nothing.
    Nothing,
    /// Nothing is known yet: take the files that are there as known.
    Baseline(String),
    /// The files that are new.
    Stamp(Vec<String>),
}

/// The model of `StampPlan`.
pub enum Stamping {
    Nothing,
    Baseline(Text),
    Stamp(Seq<Text>),
}

impl View for StampPlan {
    type V = Stamping;

    open spec fn view(&self) -> Stamping {
        match self {
            StampPlan::Nothing => Stamping::Nothing,
            StampPlan::Baseline(s) => Stamping::Baseline(s@),
            StampPlan::Stamp(v) => Stamping::Stamp(texts(v@)),
        }
    }
}

/// Which files get an origin: those that appeared since the baseline was taken.
pub open spec fn stamping(host: Text, baseline: Text, files: Seq<Text>) -> Stamping {
    let known = lines_of(baseline);
    if host.len() == 0 {
        Stamping::Nothing
    } else if known.len() == 0 {
        Stamping::Baseline(joined(files, "\n"@))
    } else {
        Stamping::Stamp(files.filter(|f: Text| !known.contains(f)))
    }
}

/// Plans which files get an origin. `baseline` lists the files that were there at
/// the first run.
pub fn stamp_origins(host: &str, baseline: &str, files: &[String]) -> (r: StampPlan)
    ensures
        r@ == stamping(host@, baseline@, texts(files@)),
{
    if host.is_empty() {
        return StampPlan::Nothing;
    }
    let known = lines(baseline);
    if known.len() == 0 {
        return StampPlan::Baseline(join(files, "\n"));
    }
    let ghost all = texts(files@);
    let ghost k = lines_of(baseline@);
    let ghost p = |f: Text| !k.contains(f);
    let mut r: Vec<String> = Vec::new();
    let mut i: usize = 0;
    assert(texts(r@) =~= all.take(0).filter(p)) by {
        reveal(Seq::filter);
    }
    while i < files.len()
        invariant
            i <= files@.len(),
            all == texts(files@),
            k == texts(known@),
            p == (|f: Text| !k.contains(f)),
            texts(r@) == all.take(i as int).filter(p),
        decreases files@.len() - i,
    {
        let ghost head = all.take(i + 1);
        let ghost done = texts(r@);
        assert(head.drop_last() =~= all.take(i as int));
        assert(head.last() == files@[i as int]@);
        if !mentions(&known, &files[i]) {
            r.push(files[i].clone());
            assert(texts(r@) =~= done.push(head.last()));
        }
        proof {
            reveal(Seq::filter);
        }
        i = i + 1;
    }
    assert(all.take(i as int) =~= all);
    StampPlan::Stamp(r)
}

/// A new memory with its origin, where it has none yet.
pub open spec fn stamped(content: Text, host: Text) -> Option<Text> {
    if field(lines_of(frontmatter_of(content)), "origin"@) is Some {
        None
    } else {
        inserted(content, "origin"@, host)
    }
}

/// Gives a new memory its origin; `None` if there is nothing to write.
pub fn stamp(content: &str, host: &str) -> (r: Option<String>)
    ensures
        match r {
            Some(s) => stamped(content@, host@) == Some(s@),
            None => stamped(content@, host@) is None,
        },
{
    if fm_field(frontmatter(content), "origin").is_some() {
        return None;
    }
    set_origin_in(content, host)
}

/// Turning a memory's scope around does turn it around.
pub proof fn toggling_turns_around(content: Text)
    requires
        block(content) is Some,
    ensures
        ({
            let was = shared_now(Found::Content(content));
            &&& rescoped(Found::Content(content), !was) is Some
            &&& shared_now(Found::Content(rescoped(Found::Content(content), !was)->0)) == !was
        }),
{
    sharing_marks(content);
    clearing_unmarks(content);
}

/// A memory that has its origin keeps it, whichever machine stamps it next.
pub proof fn origin_stays(content: Text, host: Text, other: Text)
    requires
        stamped(content, host) is Some,
    ensures
        stamped(stamped(content, host)->0, other) is None,
{
    origin_is_stamped_once(content, host, other);
}

/// What was there before is never stamped.
pub proof fn known_files_are_not_stamped(host: Text, baseline: Text, files: Seq<Text>, k: int)
    requires
        stamping(host, baseline, files) matches Stamping::Stamp(v) && 0 <= k < v.len(),
    ensures
        stamping(host, baseline, files) matches Stamping::Stamp(v) && !lines_of(baseline).contains(
            v[k],
        ) && files.contains(v[k]),
{
    let known = lines_of(baseline);
    lemma_filter_holds(files, |f: Text| !known.contains(f), k);
}

/// The first run takes everything that is there as known, so that the next one
/// stamps nothing of it.
pub proof fn baseline_covers_what_is_there(host: Text, baseline: Text, files: Seq<Text>)
    requires
        host.len() > 0,
        lines_of(baseline).len() == 0,
        files.len() > 0,
        forall|i: int| 0 <= i < files.len() ==> is_clean(#[trigger] files[i]) && files[i].len() > 0,
    ensures
        stamping(host, baseline, files) matches Stamping::Baseline(b) && stamping(host, b, files)
            == Stamping::Stamp(Seq::empty()),
{
    let b = joined(files, "\n"@);
    assert forall|i: int| 0 <= i < files.len() implies one_line(#[trigger] files[i]) by {
        assert(is_clean(files[i]));
    }
    lemma_lines_joined(files);
    let last = files[files.len() - 1];
    assert(is_clean(last));
    lemma_lines_single(last);
    let head = files.drop_last();
    assert(head.map_values(|l: Text| without_return(l)) =~= head) by {
        assert forall|i: int| 0 <= i < head.len() implies without_return(#[trigger] head[i]) == head[i] by {
            assert(is_clean(files[i]));
        }
    }
    assert(lines_of(b) =~= files);
    let p = |f: Text| !files.contains(f);
    assert forall|i: int| 0 <= i < files.len() implies !p(#[trigger] files[i]) by {}
    lemma_none_left(files, p);
    assert(files.filter(p) =~= Seq::<Text>::empty());
}

proof fn lemma_none_left(s: Seq<Text>, p: spec_fn(Text) -> bool)
    requires
        forall|i: int| 0 <= i < s.len() ==> !p(#[trigger] s[i]),
    ensures
        s.filter(p).len() == 0,
    decreases s.len(),
{
    reveal(Seq::filter);
    if s.len() > 0 {
        let head = s.drop_last();
        assert forall|i: int| 0 <= i < head.len() implies !p(#[trigger] head[i]) by {
            assert(head[i] == s[i]);
        }
        lemma_none_left(head, p);
        assert(!p(s[s.len() - 1]));
    }
}

} // verus!

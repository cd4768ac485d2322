//! Repairing broken links: which ones can be, what they become, and the rewriting.
use crate::analysis::{broken_links, find_target, keyed, make_keys, target, Keys};
use crate::links::{links_in, pairs, repaired, resolve_broken_link};
use crate::memory::{stem, Mem, Memory};
use crate::naming::{norm, normalized};
use crate::number::{decimal, size};
use crate::order::views;
use crate::text::{
    chars_of, lemma_position_from, lemma_position_shift, position, same, search_from, string_of,
    strip_suffixes, texts, trim, trimmed, Text,
};
use vstd::prelude::*;

verus! {

/// What a link can be repaired to: each memory's name, under its normalized file
/// and under its normalized name.
pub open spec fn targets_of(mems: Seq<Memory>) -> Seq<(Text, Text)>
    decreases mems.len(),
{
    if mems.len() == 0 {
        Seq::empty()
    } else {
        let m = mems.last();
        targets_of(mems.drop_last()).push((normalized(stem(m.file)), m.name)).push(
            (normalized(m.name), m.name),
        )
    }
}

/// A link in a file and what it becomes.
pub struct Fix {
    pub file: String,
    pub old: String,
    pub new: String,
}

impl View for Fix {
    type V = (Text, Text, Text);

    open spec fn view(&self) -> (Text, Text, Text) {
        (self.file@, self.old@, self.new@)
    }
}

/// What becomes of some broken links of one file.
pub open spec fn fixes_from(ts: Seq<(Text, Text)>, file: Text, broken: Seq<Text>) -> Seq<
    (Text, Text, Text),
> {
    broken.filter(|l: Text| repaired(l, ts) is Some).map_values(
        |l: Text| (file, l, repaired(l, ts)->0),
    )
}

/// Those of some broken links of one file that stay as they are.
pub open spec fn rest_from(ts: Seq<(Text, Text)>, file: Text, broken: Seq<Text>) -> Seq<(Text, Text)> {
    broken.filter(|l: Text| repaired(l, ts) is None).map_values(|l: Text| (file, l))
}

/// The broken links of the memories `todo` that can be repaired among `mems`.
pub open spec fn fixable_of(mems: Seq<Memory>, todo: Seq<Memory>) -> Seq<(Text, Text, Text)>
    decreases todo.len(),
{
    if todo.len() == 0 {
        Seq::empty()
    } else {
        let m = todo.last();
        fixable_of(mems, todo.drop_last()) + fixes_from(
            targets_of(mems),
            m.file,
            broken_links(mems, m.links),
        )
    }
}

/// The broken links of the memories `todo` that cannot be repaired among `mems`.
pub open spec fn unresolved_of(mems: Seq<Memory>, todo: Seq<Memory>) -> Seq<(Text, Text)>
    decreases todo.len(),
{
    if todo.len() == 0 {
        Seq::empty()
    } else {
        let m = todo.last();
        unresolved_of(mems, todo.drop_last()) + rest_from(
            targets_of(mems),
            m.file,
            broken_links(mems, m.links),
        )
    }
}

/// What can be repaired and what cannot.
pub struct RepairPlan {
    pub fixable: Vec<Fix>,
    /// Files and the links in them that stay as they are.
    pub unresolved: Vec<(String, String)>,
}

/// What a link can be repaired to.
fn make_targets(mems: &[Mem], keys: &[Keys]) -> (r: Vec<(String, String)>)
    requires
        keyed(keys@, views(mems@)),
    ensures
        pairs(r@) == targets_of(views(mems@)),
{
    let ghost all = views(mems@);
    let mut r: Vec<(String, String)> = Vec::new();
    let mut i: usize = 0;
    assert(all.take(0) =~= Seq::<Memory>::empty());
    assert(pairs(r@) =~= targets_of(all.take(0)));
    while i < mems.len()
        invariant
            i <= mems@.len(),
            all == views(mems@),
            keyed(keys@, all),
            pairs(r@) == targets_of(all.take(i as int)),
        decreases mems@.len() - i,
    {
        let ghost head = all.take(i + 1);
        let ghost done = pairs(r@);
        let m = &mems[i];
        assert(head.last() == m@);
        assert(head.drop_last() =~= all.take(i as int));
        let a = (keys[i].file.clone(), m.name.clone());
        let b = (keys[i].name.clone(), m.name.clone());
        r.push(a);
        r.push(b);
        assert(pairs(r@) =~= done.push((keys@[i as int].file@, m.name@)).push(
            (keys@[i as int].name@, m.name@),
        ));
        assert(all[i as int] == m@);
        i = i + 1;
    }
    assert(all.take(i as int) =~= all);
    r
}

/// Finds the broken links and what can be repaired.
pub fn plan_repairs(mems: &[Mem]) -> (r: RepairPlan)
    ensures
        views(r.fixable@) == fixable_of(views(mems@), views(mems@)),
        pairs(r.unresolved@) == unresolved_of(views(mems@), views(mems@)),
{
    let keys = make_keys(mems);
    let ts = make_targets(mems, &keys);
    let ghost all = views(mems@);
    let ghost gts = targets_of(all);
    let mut fixable: Vec<Fix> = Vec::new();
    let mut unresolved: Vec<(String, String)> = Vec::new();
    let mut i: usize = 0;
    assert(all.take(0) =~= Seq::<Memory>::empty());
    assert(views(fixable@) =~= fixable_of(all, all.take(0)));
    assert(pairs(unresolved@) =~= unresolved_of(all, all.take(0)));
    while i < mems.len()
        invariant
            i <= mems@.len(),
            all == views(mems@),
            keyed(keys@, all),
            gts == targets_of(all),
            pairs(ts@) == gts,
            views(fixable@) == fixable_of(all, all.take(i as int)),
            pairs(unresolved@) == unresolved_of(all, all.take(i as int)),
        decreases mems@.len() - i,
    {
        let m = &mems[i];
        let ghost links = texts(m.links@);
        let ghost head = all.take(i + 1);
        let ghost fixed = views(fixable@);
        let ghost left = pairs(unresolved@);
        assert(head.last() == m@);
        assert(head.drop_last() =~= all.take(i as int));
        proof {
            reveal(Seq::filter);
            assert(links.take(0) =~= Seq::<Text>::empty());
            assert(broken_links(all, links.take(0)) =~= Seq::<Text>::empty());
            assert(fixed + fixes_from(gts, m.file@, broken_links(all, links.take(0))) =~= fixed);
            assert(left + rest_from(gts, m.file@, broken_links(all, links.take(0))) =~= left);
        }
        let mut j: usize = 0;
        while j < m.links.len()
            invariant
                j <= m.links@.len(),
                all == views(mems@),
                keyed(keys@, all),
                pairs(ts@) == gts,
                links == texts(m.links@),
                views(fixable@) == fixed + fixes_from(
                    gts,
                    m.file@,
                    broken_links(all, links.take(j as int)),
                ),
                pairs(unresolved@) == left + rest_from(
                    gts,
                    m.file@,
                    broken_links(all, links.take(j as int)),
                ),
            decreases m.links@.len() - j,
        {
            let l = &m.links[j];
            let ghost part = links.take(j + 1);
            let ghost was = broken_links(all, links.take(j as int));
            let ghost now = broken_links(all, part);
            let ghost f = views(fixable@);
            let ghost u = pairs(unresolved@);
            assert(part.last() == l@);
            assert(part.drop_last() =~= links.take(j as int));
            proof {
                reveal(Seq::filter);
                if target(all, normalized(l@)) is None {
                    assert(now == was.push(l@));
                    assert(now.drop_last() =~= was);
                } else {
                    assert(now == was);
                }
            }
            if find_target(mems, &keys, &norm(l)).is_none() {
                match resolve_broken_link(l, &ts) {
                    Some(new) => {
                        let fix = Fix { file: m.file.clone(), old: l.clone(), new };
                        fixable.push(fix);
                        assert(views(fixable@) =~= f.push(fix@));
                    },
                    None => {
                        let pair = (m.file.clone(), l.clone());
                        unresolved.push(pair);
                        assert(pairs(unresolved@) =~= u.push((m.file@, l@)));
                    },
                }
            }
            assert(views(fixable@) =~= fixed + fixes_from(gts, m.file@, now));
            assert(pairs(unresolved@) =~= left + rest_from(gts, m.file@, now));
            j = j + 1;
        }
        assert(links.take(j as int) =~= links);
        i = i + 1;
    }
    assert(all.take(i as int) =~= all);
    RepairPlan { fixable, unresolved }
}

/// The repairs in one file: what each link is and what it becomes.
pub open spec fn fixes_in(fixes: Seq<(Text, Text, Text)>, file: Text) -> Seq<(Text, Text)> {
    fixes.filter(|f: (Text, Text, Text)| f.0 == file).map_values(
        |f: (Text, Text, Text)| (f.1, f.2),
    )
}

/// A link as it is written.
pub open spec fn link_text(name: Text) -> Text {
    "[["@ + name + "]]"@
}

/// A content with every link to `old` rewritten, blanks inside its brackets or
/// not, and everything else as it is.
pub open spec fn relinked(content: Text, old: Text, new: Text) -> Text
    decreases content.len(),
{
    if content.len() < 2 {
        content
    } else if content[0] == '[' && content[1] == '[' {
        proof {
            lemma_position_from(content.skip(2), "]]"@, 0);
            reveal_strlit("]]");
        }
        match position(content.skip(2), "]]"@) {
            Some(e) => {
                let inner = content.skip(2).take(e);
                let rest = content.skip(2).skip(e).skip(2);
                link_text(
                    if trimmed(inner) == old {
                        new
                    } else {
                        inner
                    },
                ) + relinked(rest, old, new)
            },
            None => content,
        }
    } else {
        seq![content[0]] + relinked(content.skip(1), old, new)
    }
}

/// A content with the repairs made one after another.
pub open spec fn fixed_content(content: Text, fixes: Seq<(Text, Text)>) -> Text
    decreases fixes.len(),
{
    if fixes.len() == 0 {
        content
    } else {
        fixed_content(relinked(content, fixes[0].0, fixes[0].1), fixes.skip(1))
    }
}

/// How many of the repairs find a link to rewrite. One that rewrites several
/// copies of a link counts once.
pub open spec fn fixed_count(content: Text, fixes: Seq<(Text, Text)>) -> nat
    decreases fixes.len(),
{
    if fixes.len() == 0 {
        0
    } else {
        (if links_in(content).contains(fixes[0].0) {
            1nat
        } else {
            0nat
        }) + fixed_count(relinked(content, fixes[0].0, fixes[0].1), fixes.skip(1))
    }
}

/// The repairs in one file.
pub fn fixes_for(fixes: &[Fix], file: &str) -> (r: Vec<(String, String)>)
    ensures
        pairs(r@) == fixes_in(views(fixes@), file@),
{
    let ghost all = views(fixes@);
    let mut r: Vec<(String, String)> = Vec::new();
    let mut i: usize = 0;
    assert(pairs(r@) =~= fixes_in(all.take(0), file@)) by {
        reveal(Seq::filter);
    }
    while i < fixes.len()
        invariant
            i <= fixes@.len(),
            all == views(fixes@),
            pairs(r@) == fixes_in(all.take(i as int), file@),
        decreases fixes@.len() - i,
    {
        let ghost head = all.take(i + 1);
        let ghost done = pairs(r@);
        assert(head.drop_last() =~= all.take(i as int));
        assert(head.last() == fixes@[i as int]@);
        if same(&fixes[i].file, file) {
            let pair = (fixes[i].old.clone(), fixes[i].new.clone());
            r.push(pair);
            assert(pairs(r@) =~= done.push((head.last().1, head.last().2)));
        }
        proof {
            reveal(Seq::filter);
            assert(pairs(r@) =~= fixes_in(head, file@));
        }
        i = i + 1;
    }
    assert(all.take(i as int) =~= all);
    r
}

/// A link as it is written.
fn write_link(name: &str) -> (s: String)
    ensures
        s@ == link_text(name@),
{
    let mut s = "[[".to_string();
    s.append(name);
    s.append("]]");
    s
}

/// Where no brackets close, there is no link.
proof fn lemma_no_close(s: Text)
    requires
        position(s, "]]"@) is None,
    ensures
        links_in(s) == Seq::<Text>::empty(),
    decreases s.len(),
{
    lemma_position_from(s, "]]"@, 0);
    if s.len() >= 2 {
        lemma_position_shift(s, "]]"@, 1);
        lemma_position_shift(s, "]]"@, 2);
        lemma_position_from(s, "]]"@, 1);
        lemma_position_from(s, "]]"@, 2);
        lemma_no_close(s.skip(1));
    }
}

/// Rewrites every link to `old`; also says whether there was one.
fn relink(content: &str, old: &str, new: &str) -> (r: (String, bool))
    ensures
        r.0@ == relinked(content@, old@, new@),
        r.1 == links_in(content@).contains(old@),
{
    let cs = chars_of(content);
    let close = chars_of("]]");
    let ghost t = content@;
    let mut out = String::new();
    let mut found = false;
    let n = cs.len();
    let mut i: usize = 0;
    proof {
        reveal_strlit("]]");
        assert(t.skip(0) =~= t);
        assert(out@ + relinked(t, old@, new@) =~= relinked(t, old@, new@));
    }
    while i < n && n - i >= 2
        invariant
            i <= n == cs@.len(),
            cs@ == t,
            t == content@,
            close@ == "]]"@,
            "]]"@.len() == 2,
            out@ + relinked(t.skip(i as int), old@, new@) == relinked(t, old@, new@),
            (found || links_in(t.skip(i as int)).contains(old@)) == links_in(t).contains(old@),
        decreases n - i,
    {
        let ghost rest = t.skip(i as int);
        let ghost done = out@;
        assert(rest[0] == cs@[i as int] && rest[1] == cs@[i + 1]);
        assert(rest.skip(1) =~= t.skip(i + 1));
        assert(rest.skip(2) =~= t.skip(i + 2));
        if cs[i] == '[' && cs[i + 1] == '[' {
            proof {
                lemma_position_shift(t, "]]"@, i + 2);
                lemma_position_from(t, "]]"@, i + 2);
            }
            match search_from(&cs, &close, i + 2) {
                Some(e) => {
                    let inner = string_of(&cs, i + 2, e);
                    let ghost k = e - i - 2;
                    let ghost after = t.skip(e + 2);
                    assert(inner@ =~= rest.skip(2).take(k));
                    assert(rest.skip(2).skip(k).skip(2) =~= after);
                    let name = trim(&inner);
                    proof {
                        lemma_contains_first(name@, links_in(after), old@);
                    }
                    let link = if same(name, old) {
                        found = true;
                        write_link(new)
                    } else {
                        write_link(&inner)
                    };
                    out.append(&link);
                    assert(out@ + relinked(after, old@, new@) =~= done + (link@ + relinked(
                        after,
                        old@,
                        new@,
                    )));
                    i = e + 2;
                },
                None => {
                    let tail = string_of(&cs, i, n);
                    assert(tail@ =~= rest);
                    out.append(&tail);
                    proof {
                        lemma_unclosed(rest);
                    }
                    return (out, found);
                },
            }
        } else {
            out.push(cs[i]);
            assert(out@ + relinked(t.skip(i + 1), old@, new@) =~= done + (seq![rest[0]] + relinked(
                t.skip(i + 1),
                old@,
                new@,
            )));
            i = i + 1;
        }
    }
    let tail = string_of(&cs, i, n);
    assert(tail@ =~= t.skip(i as int));
    out.append(&tail);
    (out, found)
}

/// Makes the repairs in one file, one after another; also says how many of them
/// found a link to rewrite.
pub fn apply_fixes(content: &str, fixes: &[(String, String)]) -> (r: (String, usize))
    ensures
        r.0@ == fixed_content(content@, pairs(fixes@)),
        r.1 == fixed_count(content@, pairs(fixes@)),
{
    let ghost all = pairs(fixes@);
    let mut text = content.to_string();
    let mut count: usize = 0;
    let mut i: usize = 0;
    assert(all.skip(0) =~= all);
    while i < fixes.len()
        invariant
            i <= fixes@.len(),
            all == pairs(fixes@),
            fixed_content(text@, all.skip(i as int)) == fixed_content(content@, all),
            count + fixed_count(text@, all.skip(i as int)) == fixed_count(content@, all),
            count <= i,
        decreases fixes@.len() - i,
    {
        assert(all.skip(i as int)[0] == (fixes@[i as int].0@, fixes@[i as int].1@));
        assert(all.skip(i as int).skip(1) =~= all.skip(i + 1));
        let (new, found) = relink(&text, &fixes[i].0, &fixes[i].1);
        if found {
            count = count + 1;
        }
        text = new;
        i = i + 1;
    }
    (text, count)
}

/// Where brackets open and none close, there is no link.
pub(crate) proof fn lemma_unclosed(s: Text)
    requires
        s.len() >= 2,
        s[0] == '[',
        s[1] == '[',
        position(s.skip(2), "]]"@) is None,
    ensures
        links_in(s) == Seq::<Text>::empty(),
{
    reveal_strlit("]]");
    lemma_position_from(s.skip(2), "]]"@, 0);
    lemma_position_from(s.skip(1), "]]"@, 0);
    lemma_position_shift(s.skip(1), "]]"@, 1);
    lemma_position_from(s.skip(1), "]]"@, 1);
    assert(s.skip(1).skip(1) =~= s.skip(2));
    match position(s.skip(1), "]]"@) {
        Some(k) => {
            assert(s.skip(1).subrange(k, k + 2)[0] == s.skip(1)[k]);
        },
        None => {
            lemma_no_close(s.skip(1));
        },
    }
}

/// What is in a sequence with one more element in front.
pub(crate) proof fn lemma_contains_first(x: Text, s: Seq<Text>, y: Text)
    ensures
        (seq![x] + s).contains(y) == (x == y || s.contains(y)),
{
    let all = seq![x] + s;
    assert(all[0] == x);
    if s.contains(y) {
        let k = choose|k: int| 0 <= k < s.len() && s[k] == y;
        assert(all[k + 1] == y);
    }
    if all.contains(y) {
        let k = choose|k: int| 0 <= k < all.len() && all[k] == y;
        if k > 0 {
            assert(s[k - 1] == y);
        }
    }
}

/// What the user is told before anything is rewritten.
pub open spec fn repair_lines(
    fixable: Seq<(Text, Text, Text)>,
    unresolved: Seq<(Text, Text)>,
    apply: bool,
) -> Seq<Text> {
    if fixable.len() == 0 && unresolved.len() == 0 {
        seq!["✓ no broken [[links]] — nothing to fix"@]
    } else if fixable.len() == 0 {
        Seq::empty()
    } else {
        seq![
            decimal(fixable.len()) + " fixable [[link]]"@ + (if fixable.len() == 1 {
                ""@
            } else {
                "s"@
            }) + (if apply {
                " (applying)"@
            } else {
                " (dry-run — pass --apply)"@
            }) + ":"@,
        ] + fixable.map_values(
            |f: (Text, Text, Text)|
                "  "@ + stem(f.0) + ":  [["@ + f.1 + "]] → [["@ + f.2 + "]]"@,
        )
    }
}

/// What the user is told of the links that stay as they are, the first twenty of
/// them one by one.
pub open spec fn unresolved_lines(unresolved: Seq<(Text, Text)>) -> Seq<Text> {
    if unresolved.len() == 0 {
        Seq::empty()
    } else {
        let shown = if unresolved.len() > 20 {
            unresolved.take(20)
        } else {
            unresolved
        };
        let more = if unresolved.len() > 20 {
            seq!["  … +"@ + decimal((unresolved.len() - 20) as nat) + " more"@]
        } else {
            Seq::empty()
        };
        seq![
            decimal(unresolved.len())
                + " unresolved (no unique match — likely forward-references, left as-is):"@,
        ] + shown.map_values(|u: (Text, Text)| "  "@ + stem(u.0) + ":  [["@ + u.1 + "]]"@) + more
    }
}

/// What the user is told before anything is rewritten.
pub fn report_repairs(plan: &RepairPlan, apply: bool) -> (r: Vec<String>)
    ensures
        texts(r@) == repair_lines(views(plan.fixable@), pairs(plan.unresolved@), apply),
{
    let ghost all = views(plan.fixable@);
    let ghost f = |f: (Text, Text, Text)|
        "  "@ + stem(f.0) + ":  [["@ + f.1 + "]] → [["@ + f.2 + "]]"@;
    let mut r: Vec<String> = Vec::new();
    let n = plan.fixable.len();
    if n == 0 {
        if plan.unresolved.len() == 0 {
            let s = "✓ no broken [[links]] — nothing to fix".to_string();
            r.push(s);
            assert(texts(r@) =~= seq![s@]);
        } else {
            assert(texts(r@) =~= Seq::<Text>::empty());
        }
        return r;
    }
    let mut s = size(n);
    s.append(" fixable [[link]]");
    s.append(
        if n == 1 {
            ""
        } else {
            "s"
        },
    );
    s.append(
        if apply {
            " (applying)"
        } else {
            " (dry-run — pass --apply)"
        },
    );
    s.append(":");
    r.push(s);
    let ghost top = seq![s@];
    assert(texts(r@) =~= top + all.map_values(f).take(0));
    let mut i: usize = 0;
    while i < n
        invariant
            i <= n == plan.fixable@.len(),
            all == views(plan.fixable@),
            f == (|f: (Text, Text, Text)|
                "  "@ + stem(f.0) + ":  [["@ + f.1 + "]] → [["@ + f.2 + "]]"@),
            texts(r@) == top + all.map_values(f).take(i as int),
        decreases n - i,
    {
        let x = &plan.fixable[i];
        let ghost done = texts(r@);
        let mut t = "  ".to_string();
        t.append(strip_suffixes(&x.file, ".md"));
        t.append(":  [[");
        t.append(&x.old);
        t.append("]] → [[");
        t.append(&x.new);
        t.append("]]");
        assert(all[i as int] == x@);
        assert(t@ == f(all[i as int]));
        r.push(t);
        assert(texts(r@) =~= done.push(t@));
        i = i + 1;
        assert(texts(r@) =~= top + all.map_values(f).take(i as int));
    }
    assert(all.map_values(f).take(n as int) =~= all.map_values(f));
    r
}

/// What the user is told once links are rewritten.
pub fn report_rewritten(n: usize) -> (r: String)
    ensures
        r@ == "✓ rewrote "@ + decimal(n as nat) + " link"@ + (if n == 1 {
            ""@
        } else {
            "s"@
        }),
{
    let mut s = "✓ rewrote ".to_string();
    s.append(&size(n));
    s.append(" link");
    s.append(
        if n == 1 {
            ""
        } else {
            "s"
        },
    );
    s
}

/// What the user is told of the links that stay as they are.
pub fn report_unresolved(unresolved: &[(String, String)]) -> (r: Vec<String>)
    ensures
        texts(r@) == unresolved_lines(pairs(unresolved@)),
{
    let ghost all = pairs(unresolved@);
    let ghost f = |u: (Text, Text)| "  "@ + stem(u.0) + ":  [["@ + u.1 + "]]"@;
    let mut r: Vec<String> = Vec::new();
    let n = unresolved.len();
    if n == 0 {
        assert(texts(r@) =~= Seq::<Text>::empty());
        return r;
    }
    let mut s = size(n);
    s.append(" unresolved (no unique match — likely forward-references, left as-is):");
    r.push(s);
    let ghost top = seq![s@];
    let m = if n > 20 {
        20
    } else {
        n
    };
    assert(texts(r@) =~= top + all.map_values(f).take(0));
    let mut i: usize = 0;
    while i < m
        invariant
            i <= m <= unresolved@.len(),
            all == pairs(unresolved@),
            f == (|u: (Text, Text)| "  "@ + stem(u.0) + ":  [["@ + u.1 + "]]"@),
            texts(r@) == top + all.map_values(f).take(i as int),
        decreases m - i,
    {
        let ghost done = texts(r@);
        let mut t = "  ".to_string();
        t.append(strip_suffixes(&unresolved[i].0, ".md"));
        t.append(":  [[");
        t.append(&unresolved[i].1);
        t.append("]]");
        assert(all[i as int] == (unresolved@[i as int].0@, unresolved@[i as int].1@));
        assert(t@ == f(all[i as int]));
        r.push(t);
        assert(texts(r@) =~= done.push(t@));
        i = i + 1;
        assert(texts(r@) =~= top + all.map_values(f).take(i as int));
    }
    let ghost shown = if all.len() > 20 {
        all.take(20)
    } else {
        all
    };
    assert(all.map_values(f).take(m as int) =~= shown.map_values(f));
    if n > 20 {
        let ghost done = texts(r@);
        let mut t = "  … +".to_string();
        t.append(&size(n - 20));
        t.append(" more");
        r.push(t);
        assert(texts(r@) =~= done + seq![t@]);
    } else {
        assert(texts(r@) =~= texts(r@) + Seq::<Text>::empty());
    }
    r
}

/// What can be repaired to is the name of a memory.
pub(crate) proof fn lemma_targets_named(mems: Seq<Memory>, k: int)
    requires
        0 <= k < targets_of(mems).len(),
    ensures
        exists|i: int| 0 <= i < mems.len() && (#[trigger] mems[i]).name == targets_of(mems)[k].1,
    decreases mems.len(),
{
    if mems.len() > 0 {
        let head = mems.drop_last();
        let old = targets_of(head);
        if k < old.len() {
            lemma_targets_named(head, k);
            let i = choose|i: int| 0 <= i < head.len() && (#[trigger] head[i]).name == old[k].1;
            assert(mems[i].name == targets_of(mems)[k].1);
        } else {
            assert(mems[mems.len() - 1].name == targets_of(mems)[k].1);
        }
    }
}

/// Every broken link is either repaired or reported as left alone.
pub proof fn broken_links_are_accounted_for(mems: Seq<Memory>, todo: Seq<Memory>)
    ensures
        fixable_of(mems, todo).len() + unresolved_of(mems, todo).len()
            == crate::analysis::broken_count(mems, todo),
    decreases todo.len(),
{
    if todo.len() > 0 {
        broken_links_are_accounted_for(mems, todo.drop_last());
        lemma_split(targets_of(mems), broken_links(mems, todo.last().links));
    }
}

proof fn lemma_split(ts: Seq<(Text, Text)>, broken: Seq<Text>)
    ensures
        broken.filter(|l: Text| repaired(l, ts) is Some).len() + broken.filter(
            |l: Text| repaired(l, ts) is None,
        ).len() == broken.len(),
    decreases broken.len(),
{
    reveal(Seq::filter);
    if broken.len() > 0 {
        lemma_split(ts, broken.drop_last());
    }
}

} // verus!

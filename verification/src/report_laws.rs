//! What the reports warn of and what they list.
use crate::analysis::{is_knowledge, lemma_filter_holds, Analysis};
use crate::link_laws::inside;
use crate::memory::Memory;
use crate::number::decimal;
use crate::repair_laws::lemma_filter_keeps;
use crate::report::{
    check_line, check_warnings, drift_sum, first_three, health_issues, light, local_rows, only_if,
    reachable, shared_rows, thousands,
};
use crate::search::bar_len;
use crate::text::{joined, prefixed, texts, Text};
use vstd::prelude::*;

verus! {

/// The quick check says nothing exactly where the index takes no more than twelve
/// thousand tokens, no link is broken, no peer lacks a file, and no version is claimed
/// twice.
pub proof fn quick_check_is_quiet_when_nothing_is_wrong(a: Analysis, drift: nat)
    ensures
        check_line(a, drift) is None <==> a.idx_tok <= 12_000 && a.broken == 0 && drift == 0
            && a.resv_collisions == 0,
{
}

/// Whether a line of some lines stands inside a text.
proof fn lemma_joined_inside(parts: Seq<Text>, sep: Text, i: int) -> (r: (Text, Text))
    requires
        0 <= i < parts.len(),
    ensures
        joined(parts, sep) == r.0 + parts[i] + r.1,
    decreases parts.len(),
{
    let none = Seq::<char>::empty();
    let more = parts.skip(1);
    if i == 0 {
        let b = prefixed(more, sep);
        assert(joined(parts, sep) =~= none + parts[0] + b);
        (none, b)
    } else {
        let (a, b) = lemma_joined_inside(more, sep, i - 1);
        assert(more[i - 1] == parts[i]);
        assert(prefixed(more, sep) =~= sep + joined(more, sep));
        let c = parts[0] + sep + a;
        assert(joined(parts, sep) =~= c + parts[i] + b);
        (c, b)
    }
}

/// Whether the quick check says something that a text stands in.
pub open spec fn tells(a: Analysis, drift: nat, what: Text) -> bool {
    check_line(a, drift) matches Some(s) && inside(what, s)
}

/// What is wrong is in the line of the quick check, with its number.
pub proof fn quick_check_tells_what_is_wrong(a: Analysis, drift: nat)
    ensures
        a.broken > 0 ==> tells(a, drift, decimal(a.broken as nat) + " broken [[links]]"@),
        drift > 0 ==> tells(a, drift, "sync drift "@ + decimal(drift) + " files"@),
        a.resv_collisions > 0 ==> tells(
            a,
            drift,
            decimal(a.resv_collisions as nat) + " version reservation collision(s)"@,
        ),
        a.idx_tok > 12_000 ==> tells(
            a,
            drift,
            "index "@ + decimal((a.idx_tok as nat + 500) / 1000) + "k tok always-on"@,
        ),
{
    let w1 = only_if(
        a.idx_tok > 12_000,
        "index "@ + thousands(a.idx_tok as nat) + "k tok always-on"@,
    );
    let w2 = only_if(a.broken > 0, decimal(a.broken as nat) + " broken [[links]]"@);
    let w3 = only_if(drift > 0, "sync drift "@ + decimal(drift) + " files"@);
    let w4 = only_if(
        a.resv_collisions > 0,
        decimal(a.resv_collisions as nat) + " version reservation collision(s)"@,
    );
    let w = check_warnings(a, drift);
    assert(w =~= w1 + w2 + w3 + w4);
    if a.idx_tok > 12_000 {
        assert(w[0] == w1[0]);
        lemma_warned(a, drift, 0);
    }
    if a.broken > 0 {
        let i = w1.len() as int;
        assert(w[i] == w2[0]);
        lemma_warned(a, drift, i);
    }
    if drift > 0 {
        let i = (w1 + w2).len() as int;
        assert(w[i] == w3[0]);
        lemma_warned(a, drift, i);
    }
    if a.resv_collisions > 0 {
        let i = (w1 + w2 + w3).len() as int;
        assert(w[i] == w4[0]);
        lemma_warned(a, drift, i);
    }
}

proof fn lemma_warned(a: Analysis, drift: nat, i: int)
    requires
        0 <= i < check_warnings(a, drift).len(),
    ensures
        tells(a, drift, check_warnings(a, drift)[i]),
{
    let w = check_warnings(a, drift);
    let (x, y) = lemma_joined_inside(w, "; "@, i);
    let s = check_line(a, drift)->0;
    let front = "⚠ memnir: "@ + x;
    let back = y + "  → run `memnir doctor`"@;
    assert(s =~= front + w[i] + back);
}

/// What the health report calls for: a line for each thing that is wrong, and none for
/// what is not.
pub proof fn issues_are_what_is_wrong(a: Analysis, compact: bool)
    ensures
        ({
            let lines = health_issues(a, compact);
            let n = |b: bool| if b { 1int } else { 0 };
            &&& lines.len() == 4 + n(a.resv_collisions > 0) + n(a.idx_tok > 12_000) + n(
                a.broken > 0,
            ) + n(a.oversized@.len() > 0) + n(a.isolated@.len() > 0) + n(a.scope_flags@.len() > 0)
            &&& a.resv_collisions > 0 ==> lines.contains(
                " 🔴 "@ + decimal(a.resv_collisions as nat)
                    + " version reservation collision(s) → memnir reservations   (two sessions claimed one version)"@,
            )
            &&& a.idx_tok > 12_000 ==> lines.contains(
                " 🔴 index "@ + decimal((a.idx_tok as nat + 500) / 1000)
                    + "k always-on        → memnir compact-index   ("@ + (if compact {
                    "widen local / prune Tier-0"@
                } else {
                    "Tier-0 split"@
                }) + ")"@,
            )
            &&& a.broken > 0 ==> lines.contains(
                " 🟠 "@ + decimal(a.broken as nat)
                    + " broken [[links]]          → memnir fix-links"@,
            )
            &&& a.oversized@.len() > 0 ==> lines.contains(
                " 🟠 "@ + decimal(a.oversized@.len())
                    + " oversized (>2k tok)      → memnir split <id>   ("@ + first_three(
                    texts(a.oversized@),
                ) + "…)"@,
            )
            &&& a.isolated@.len() > 0 ==> lines.contains(
                " 🟡 "@ + decimal(a.isolated@.len())
                    + " isolated memories       → link them (graph: memnir dash)"@,
            )
            &&& a.scope_flags@.len() > 0 ==> lines.contains(
                " 🟡 "@ + decimal(a.scope_flags@.len())
                    + " local look cross-machine → memnir share <id>  ("@ + first_three(
                    texts(a.scope_flags@),
                ) + "…)"@,
            )
        }),
{
    let lines = health_issues(a, compact);
    let c1 = only_if(
        a.resv_collisions > 0,
        " 🔴 "@ + decimal(a.resv_collisions as nat)
            + " version reservation collision(s) → memnir reservations   (two sessions claimed one version)"@,
    );
    let c2 = only_if(
        a.idx_tok > 12_000,
        " 🔴 index "@ + decimal((a.idx_tok as nat + 500) / 1000)
            + "k always-on        → memnir compact-index   ("@ + (if compact {
            "widen local / prune Tier-0"@
        } else {
            "Tier-0 split"@
        }) + ")"@,
    );
    let c3 = only_if(
        a.broken > 0,
        " 🟠 "@ + decimal(a.broken as nat) + " broken [[links]]          → memnir fix-links"@,
    );
    let c4 = only_if(
        a.oversized@.len() > 0,
        " 🟠 "@ + decimal(a.oversized@.len())
            + " oversized (>2k tok)      → memnir split <id>   ("@ + first_three(texts(a.oversized@))
            + "…)"@,
    );
    let c5 = only_if(
        a.isolated@.len() > 0,
        " 🟡 "@ + decimal(a.isolated@.len())
            + " isolated memories       → link them (graph: memnir dash)"@,
    );
    let c6 = only_if(
        a.scope_flags@.len() > 0,
        " 🟡 "@ + decimal(a.scope_flags@.len())
            + " local look cross-machine → memnir share <id>  ("@ + first_three(
            texts(a.scope_flags@),
        ) + "…)"@,
    );
    let top = seq![""@, "⚠ ISSUES & ACTIONS"@];
    let end = seq![""@, "→ visualize:  memnir dash"@];
    lemma_parts(top, c1, c2, c3, c4, c5, c6, end);
    assert(lines == top + c1 + c2 + c3 + c4 + c5 + c6 + end);
}

/// What stands in a part stands in the whole.
proof fn lemma_parts(
    top: Seq<Text>,
    c1: Seq<Text>,
    c2: Seq<Text>,
    c3: Seq<Text>,
    c4: Seq<Text>,
    c5: Seq<Text>,
    c6: Seq<Text>,
    end: Seq<Text>,
)
    ensures
        ({
            let all = top + c1 + c2 + c3 + c4 + c5 + c6 + end;
            &&& all.len() == top.len() + c1.len() + c2.len() + c3.len() + c4.len() + c5.len()
                + c6.len() + end.len()
            &&& c1.len() > 0 ==> all.contains(c1[0])
            &&& c2.len() > 0 ==> all.contains(c2[0])
            &&& c3.len() > 0 ==> all.contains(c3[0])
            &&& c4.len() > 0 ==> all.contains(c4[0])
            &&& c5.len() > 0 ==> all.contains(c5[0])
            &&& c6.len() > 0 ==> all.contains(c6[0])
        }),
{
    let s1 = top + c1;
    let s2 = s1 + c2;
    let s3 = s2 + c3;
    let s4 = s3 + c4;
    let s5 = s4 + c5;
    let s6 = s5 + c6;
    let all = s6 + end;
    if c1.len() > 0 {
        assert(all[top.len() as int] == c1[0]);
    }
    if c2.len() > 0 {
        assert(all[s1.len() as int] == c2[0]);
    }
    if c3.len() > 0 {
        assert(all[s2.len() as int] == c3[0]);
    }
    if c4.len() > 0 {
        assert(all[s3.len() as int] == c4[0]);
    }
    if c5.len() > 0 {
        assert(all[s4.len() as int] == c5[0]);
    }
    if c6.len() > 0 {
        assert(all[s5.len() as int] == c6[0]);
    }
}

/// A size is red above its limit, orange above six tenths of it, and else green.
pub proof fn light_goes_by_the_limit(v: nat, limit: nat)
    ensures
        light(v, limit) == "🔴"@ <==> v > limit,
        light(v, limit) == "🟠"@ <==> v <= limit && 10 * v > 6 * limit,
        light(v, limit) == "🟢"@ <==> 10 * v <= 6 * limit,
{
    reveal_strlit("🔴");
    reveal_strlit("🟠");
    reveal_strlit("🟢");
    assert("🔴"@[0] != "🟠"@[0]);
    assert("🔴"@[0] != "🟢"@[0]);
    assert("🟠"@[0] != "🟢"@[0]);
}

/// What the peers lack together is what each of them lacks; one that does not answer
/// adds nothing and does not count as reachable.
pub proof fn drift_adds_up(health: Seq<(Text, Option<nat>)>, peer: Text, lacks: Option<nat>)
    ensures
        drift_sum(Seq::empty()) == 0,
        lacks matches Some(n) ==> drift_sum(health.push((peer, lacks))) == drift_sum(health) + n
            && reachable(health.push((peer, lacks))) == reachable(health) + 1,
        lacks is None ==> drift_sum(health.push((peer, lacks))) == drift_sum(health) && reachable(
            health.push((peer, lacks)),
        ) == reachable(health),
{
    reveal(Seq::filter);
    let more = health.push((peer, lacks));
    assert(more.drop_last() =~= health);
}

/// The shared memories are listed with their origins, the local ones without, and
/// reservations not at all.
pub proof fn list_parts_shared_from_local(mems: Seq<Memory>, row: Text)
    ensures
        shared_rows(mems).contains(row) <==> exists|i: int|
            0 <= i < mems.len() && (#[trigger] mems[i]).shared && mems[i].typ != "reservation"@ && row
                == "  ["@ + mems[i].origin + "]  "@ + mems[i].file,
        local_rows(mems).contains(row) <==> exists|i: int|
            0 <= i < mems.len() && !(#[trigger] mems[i]).shared && mems[i].typ != "reservation"@
                && row == "  "@ + mems[i].file,
{
    let p = |m: Memory| m.shared && is_knowledge(m);
    let q = |m: Memory| !m.shared && is_knowledge(m);
    let a = shared_rows(mems);
    let b = local_rows(mems);
    if a.contains(row) {
        let k = choose|k: int| 0 <= k < a.len() && a[k] == row;
        lemma_filter_holds(mems, p, k);
        let i = choose|i: int| 0 <= i < mems.len() && mems[i] == mems.filter(p)[k];
        assert(mems[i].shared && mems[i].typ != "reservation"@);
    }
    if exists|i: int|
        0 <= i < mems.len() && (#[trigger] mems[i]).shared && mems[i].typ != "reservation"@ && row
            == "  ["@ + mems[i].origin + "]  "@ + mems[i].file {
        let i = choose|i: int|
            0 <= i < mems.len() && (#[trigger] mems[i]).shared && mems[i].typ != "reservation"@ && row
                == "  ["@ + mems[i].origin + "]  "@ + mems[i].file;
        lemma_filter_keeps(mems, p, mems[i]);
        let k = choose|k: int| 0 <= k < mems.filter(p).len() && mems.filter(p)[k] == mems[i];
        assert(a[k] == row);
    }
    if b.contains(row) {
        let k = choose|k: int| 0 <= k < b.len() && b[k] == row;
        lemma_filter_holds(mems, q, k);
        let i = choose|i: int| 0 <= i < mems.len() && mems[i] == mems.filter(q)[k];
        assert(!mems[i].shared && mems[i].typ != "reservation"@);
    }
    if exists|i: int|
        0 <= i < mems.len() && !(#[trigger] mems[i]).shared && mems[i].typ != "reservation"@ && row
            == "  "@ + mems[i].file {
        let i = choose|i: int|
            0 <= i < mems.len() && !(#[trigger] mems[i]).shared && mems[i].typ != "reservation"@
                && row == "  "@ + mems[i].file;
        lemma_filter_keeps(mems, q, mems[i]);
        let k = choose|k: int| 0 <= k < mems.filter(q).len() && mems.filter(q)[k] == mems[i];
        assert(b[k] == row);
    }
}

/// The best hit has a bar of ten, and a better one never has a shorter bar.
pub proof fn bars_go_by_score(score: int, other: int, best: int)
    requires
        0 < score <= other <= best,
    ensures
        bar_len(best, best) == 10,
        1 <= bar_len(score, best) <= bar_len(other, best) <= 10,
        bar_len(score, best) * best <= score * 10 || bar_len(score, best) == 1,
        score * 10 < (bar_len(score, best) + 1) * best,
{
    let b = best;
    assert(b * 10 / b == 10) by (nonlinear_arith)
        requires
            b > 0,
    ;
    assert(score * 10 / b <= other * 10 / b) by (nonlinear_arith)
        requires
            b > 0,
            score <= other,
    ;
    assert(other * 10 / b <= b * 10 / b) by (nonlinear_arith)
        requires
            b > 0,
            other <= b,
    ;
    let n = score * 10 / b;
    assert(n * b <= score * 10 < (n + 1) * b) by (nonlinear_arith)
        requires
            b > 0,
            n == score * 10 / b,
    ;
    let m = bar_len(score, best) as int;
    assert((n + 1) * b <= (m + 1) * b) by (nonlinear_arith)
        requires
            b > 0,
            n <= m,
    ;
}

} // verus!

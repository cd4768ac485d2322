//! What the user is told of the store: status, lists, and the health report.
use crate::analysis::{is_knowledge, Analysis, IDX_WARN};
use crate::counts::{counts_text, fmt_counts};
use crate::memory::{stem, Mem, Memory};
use crate::number::{decimal, size};
use crate::order::views;
use crate::text::{chain, join, joined, same, strip_suffixes, texts, Text};
use vstd::prelude::*;

verus! {

/// A line that is only there if `b`.
pub open spec fn only_if(b: bool, line: Text) -> Seq<Text> {
    if b {
        seq![line]
    } else {
        Seq::empty()
    }
}

/// Puts a line behind the others if `b`.
pub(crate) fn push_if(out: &mut Vec<String>, b: bool, line: String)
    ensures
        texts(final(out)@) == texts(old(out)@) + only_if(b, line@),
{
    let ghost before = texts(out@);
    let ghost l = line@;
    if b {
        out.push(line);
        assert(texts(out@) =~= before + seq![l]);
    } else {
        assert(texts(out@) =~= before + Seq::<Text>::empty());
    }
}

/// The peers, or what stands for none.
pub open spec fn peers_or(peers: Seq<Text>, sep: Text, none: Text) -> Text {
    if peers.len() == 0 {
        none
    } else {
        joined(peers, sep)
    }
}

fn show_peers(peers: &[String], sep: &str, none: &str) -> (r: String)
    ensures
        r@ == peers_or(texts(peers@), sep@, none@),
{
    if peers.len() == 0 {
        none.to_string()
    } else {
        join(peers, sep)
    }
}

impl Analysis {
    /// Whether the numbers can be shown: no more memories are shared than there
    /// are, and the index can be rounded.
    pub open spec fn can_show(&self) -> bool {
        self.shared <= self.n && self.idx_tok <= usize::MAX / 4
    }
}

/// The state of the store in four lines.
pub open spec fn status_lines(
    store: Text,
    base: Text,
    n: nat,
    shared: nat,
    origins: Seq<(Text, nat)>,
    peers: Seq<Text>,
) -> Seq<Text> {
    seq![
        "Memnir store: "@ + store,
        "memories: "@ + decimal(n) + "  (shared:"@ + decimal(shared) + "  local:"@ + decimal(
            (n - shared) as nat,
        ) + ")"@,
        "origins:  "@ + counts_text(origins),
        "peers:    "@ + peers_or(
            peers,
            ", "@,
            "(none — see ~/"@ + base + "/memnir.conf)"@,
        ),
    ]
}

/// The state of the store.
pub fn report_status(a: &Analysis, store: &str, base: &str, peers: &[String]) -> (r: Vec<String>)
    requires
        a.can_show(),
    ensures
        texts(r@) == status_lines(
            store@,
            base@,
            a.n as nat,
            a.shared as nat,
            a.origins.seq(),
            texts(peers@),
        ),
{
    let l1 = chain("Memnir store: ", store);
    let mut l2 = "memories: ".to_string();
    l2.append(&size(a.n));
    l2.append("  (shared:");
    l2.append(&size(a.shared));
    l2.append("  local:");
    l2.append(&size(a.n - a.shared));
    l2.append(")");
    let l3 = chain("origins:  ", &fmt_counts(&a.origins));
    let mut none = chain("(none — see ~/", base);
    none.append("/memnir.conf)");
    let l4 = chain("peers:    ", &show_peers(peers, ", ", &none));
    let mut r: Vec<String> = Vec::new();
    r.push(l1);
    r.push(l2);
    r.push(l3);
    r.push(l4);
    assert(texts(r@) =~= seq![l1@, l2@, l3@, l4@]);
    r
}

/// The shared memories with their origins.
pub open spec fn shared_rows(mems: Seq<Memory>) -> Seq<Text> {
    mems.filter(|m: Memory| m.shared && is_knowledge(m)).map_values(
        |m: Memory| "  ["@ + m.origin + "]  "@ + m.file,
    )
}

/// The local memories.
pub open spec fn local_rows(mems: Seq<Memory>) -> Seq<Text> {
    mems.filter(|m: Memory| !m.shared && is_knowledge(m)).map_values(|m: Memory| "  "@ + m.file)
}

/// The memories, shared ones first.
pub open spec fn list_lines(mems: Seq<Memory>) -> Seq<Text> {
    seq!["SHARED (sync ข้ามเครื่อง):"@] + shared_rows(mems) + seq!["LOCAL (เครื่องนี้เท่านั้น):"@] + local_rows(mems)
}

/// Puts the shared or the local memories behind the others.
fn push_rows(out: &mut Vec<String>, mems: &[Mem], shared: bool)
    ensures
        texts(final(out)@) == texts(old(out)@) + (if shared {
            shared_rows(views(mems@))
        } else {
            local_rows(views(mems@))
        }),
{
    let ghost all = views(mems@);
    let ghost start = texts(out@);
    let mut i: usize = 0;
    assert(texts(out@) =~= start + (if shared {
        shared_rows(all.take(0))
    } else {
        local_rows(all.take(0))
    })) by {
        reveal(Seq::filter);
    }
    while i < mems.len()
        invariant
            i <= mems@.len(),
            all == views(mems@),
            texts(out@) == start + (if shared {
                shared_rows(all.take(i as int))
            } else {
                local_rows(all.take(i as int))
            }),
        decreases mems@.len() - i,
    {
        let m = &mems[i];
        let ghost head = all.take(i + 1);
        let ghost done = texts(out@);
        let ghost s = shared_rows(all.take(i as int));
        let ghost l = local_rows(all.take(i as int));
        assert(head.drop_last() =~= all.take(i as int));
        assert(head.last() == m@);
        let ghost on = "  ["@ + m.origin@ + "]  "@ + m.file@;
        let ghost off = "  "@ + m.file@;
        proof {
            reveal(Seq::filter);
            assert(shared_rows(head) =~= (if m.shared && is_knowledge(m@) {
                s.push(on)
            } else {
                s
            }));
            assert(local_rows(head) =~= (if !m.shared && is_knowledge(m@) {
                l.push(off)
            } else {
                l
            }));
        }
        if m.shared == shared && !same(&m.typ, "reservation") {
            let mut t = "  ".to_string();
            if shared {
                t.append("[");
                t.append(&m.origin);
                t.append("]  ");
                proof {
                    reveal_strlit("  ");
                    reveal_strlit("[");
                    reveal_strlit("  [");
                    assert("  "@ + "["@ =~= "  ["@);
                }
            }
            t.append(&m.file);
            assert(t@ == if shared {
                on
            } else {
                off
            });
            out.push(t);
            assert(texts(out@) =~= done.push(t@));
        }
        assert(texts(out@) =~= start + (if shared {
            shared_rows(head)
        } else {
            local_rows(head)
        }));
        i = i + 1;
    }
    assert(all.take(i as int) =~= all);
}

/// The memories, shared ones first.
pub fn report_list(mems: &[Mem]) -> (r: Vec<String>)
    ensures
        texts(r@) == list_lines(views(mems@)),
{
    let mut r: Vec<String> = Vec::new();
    r.push("SHARED (sync ข้ามเครื่อง):".to_string());
    assert(texts(r@) =~= seq!["SHARED (sync ข้ามเครื่อง):"@]);
    push_rows(&mut r, mems, true);
    let ghost before = texts(r@);
    r.push("LOCAL (เครื่องนี้เท่านั้น):".to_string());
    assert(texts(r@) =~= before + seq!["LOCAL (เครื่องนี้เท่านั้น):"@]);
    push_rows(&mut r, mems, false);
    r
}

/// What the user is told before a sync.
pub fn report_sync_start(host: &str, os: &str, peers: &[String]) -> (r: String)
    ensures
        r@ == "host="@ + host@ + "  os="@ + os@ + "  peers="@ + peers_or(
            texts(peers@),
            ","@,
            "(none)"@,
        ),
{
    let mut s = "host=".to_string();
    s.append(host);
    s.append("  os=");
    s.append(os);
    s.append("  peers=");
    s.append(&show_peers(peers, ",", "(none)"));
    s
}

/// What the user is told after a sync.
pub fn report_synced(a: &Analysis) -> (r: String)
    requires
        a.can_show(),
    ensures
        r@ == "✓ synced — shared:"@ + decimal(a.shared as nat) + "  local:"@ + decimal(
            (a.n - a.shared) as nat,
        ) + "  total:"@ + decimal(a.n as nat),
{
    let mut s = "✓ synced — shared:".to_string();
    s.append(&size(a.shared));
    s.append("  local:");
    s.append(&size(a.n - a.shared));
    s.append("  total:");
    s.append(&size(a.n));
    s
}

/// How many peers answered.
pub open spec fn reachable(health: Seq<(Text, Option<nat>)>) -> nat {
    health.filter(|h: (Text, Option<nat>)| h.1 is Some).len()
}

/// How many files the peers that answered lack, together.
pub open spec fn drift_sum(health: Seq<(Text, Option<nat>)>) -> nat
    decreases health.len(),
{
    if health.len() == 0 {
        0
    } else {
        drift_sum(health.drop_last()) + (match health.last().1 {
            Some(n) => n,
            None => 0,
        })
    }
}

/// The peers and what each lacks, as models.
pub open spec fn health_of(h: Seq<(String, Option<usize>)>) -> Seq<(Text, Option<nat>)> {
    h.map_values(
        |x: (String, Option<usize>)|
            (
                x.0@,
                match x.1 {
                    Some(n) => Some(n as nat),
                    None => None,
                },
            ),
    )
}

proof fn lemma_drift_grows(h: Seq<(Text, Option<nat>)>, i: int)
    requires
        0 <= i <= h.len(),
    ensures
        drift_sum(h.take(i)) <= drift_sum(h),
    decreases h.len(),
{
    if i == h.len() {
        assert(h.take(i) =~= h);
    } else {
        assert(h.drop_last().take(i) =~= h.take(i));
        lemma_drift_grows(h.drop_last(), i);
    }
}

/// How many files the peers that answered lack, together; `None` if that is more
/// than can be counted.
pub fn total_drift(health: &[(String, Option<usize>)]) -> (r: Option<usize>)
    ensures
        match r {
            Some(n) => n == drift_sum(health_of(health@)),
            None => drift_sum(health_of(health@)) > usize::MAX,
        },
{
    let ghost all = health_of(health@);
    let mut n: usize = 0;
    let mut i: usize = 0;
    assert(all.take(0) =~= Seq::<(Text, Option<nat>)>::empty());
    while i < health.len()
        invariant
            i <= health@.len(),
            all == health_of(health@),
            n == drift_sum(all.take(i as int)),
        decreases health@.len() - i,
    {
        let ghost head = all.take(i + 1);
        assert(head.drop_last() =~= all.take(i as int));
        assert(head.last() == all[i as int]);
        proof {
            lemma_drift_grows(all, i + 1);
        }
        match health[i].1 {
            Some(d) => match n.checked_add(d) {
                Some(m) => {
                    n = m;
                },
                None => {
                    return None;
                },
            },
            None => {},
        }
        i = i + 1;
    }
    assert(all.take(i as int) =~= all);
    Some(n)
}

fn count_reachable(health: &[(String, Option<usize>)]) -> (n: usize)
    ensures
        n == reachable(health_of(health@)),
        n <= health@.len(),
{
    let ghost all = health_of(health@);
    let ghost p = |h: (Text, Option<nat>)| h.1 is Some;
    let mut n: usize = 0;
    let mut i: usize = 0;
    assert(all.take(0).filter(p).len() == 0) by {
        reveal(Seq::filter);
    }
    while i < health.len()
        invariant
            i <= health@.len(),
            all == health_of(health@),
            p == (|h: (Text, Option<nat>)| h.1 is Some),
            n == all.take(i as int).filter(p).len(),
            n <= i,
        decreases health@.len() - i,
    {
        let ghost head = all.take(i + 1);
        assert(head.drop_last() =~= all.take(i as int));
        assert(head.last() == all[i as int]);
        proof {
            reveal(Seq::filter);
        }
        if health[i].1.is_some() {
            n = n + 1;
        }
        i = i + 1;
    }
    assert(all.take(i as int) =~= all);
    n
}

/// Tokens in thousands, rounded.
pub open spec fn thousands(tok: nat) -> Text {
    decimal((tok + 500) / 1000)
}

/// The warnings of the quick check.
pub open spec fn check_warnings(a: Analysis, drift: nat) -> Seq<Text> {
    Seq::<Text>::empty() + only_if(
        a.idx_tok > IDX_WARN,
        "index "@ + thousands(a.idx_tok as nat) + "k tok always-on"@,
    ) + only_if(a.broken > 0, decimal(a.broken as nat) + " broken [[links]]"@) + only_if(
        drift > 0,
        "sync drift "@ + decimal(drift) + " files"@,
    ) + only_if(
        a.resv_collisions > 0,
        decimal(a.resv_collisions as nat) + " version reservation collision(s)"@,
    )
}

/// The quick check: one line if anything is amiss.
pub open spec fn check_line(a: Analysis, drift: nat) -> Option<Text> {
    let w = check_warnings(a, drift);
    if w.len() == 0 {
        None
    } else {
        Some("⚠ memnir: "@ + joined(w, "; "@) + "  → run `memnir doctor`"@)
    }
}

/// Tokens in thousands, rounded.
fn show_thousands(tok: usize) -> (r: String)
    requires
        tok <= usize::MAX / 4,
    ensures
        r@ == thousands(tok as nat),
{
    size((tok + 500) / 1000)
}

/// The quick check: one line if anything is amiss.
pub fn quick_check(a: &Analysis, drift: usize) -> (r: Option<String>)
    requires
        a.can_show(),
    ensures
        match r {
            Some(s) => check_line(*a, drift as nat) == Some(s@),
            None => check_line(*a, drift as nat) is None,
        },
{
    let mut w: Vec<String> = Vec::new();
    assert(texts(w@) =~= Seq::<Text>::empty());
    let mut s = "index ".to_string();
    s.append(&show_thousands(a.idx_tok));
    s.append("k tok always-on");
    push_if(&mut w, a.idx_tok > IDX_WARN, s);
    push_if(&mut w, a.broken > 0, chain(&size(a.broken), " broken [[links]]"));
    let mut s = "sync drift ".to_string();
    s.append(&size(drift));
    s.append(" files");
    push_if(&mut w, drift > 0, s);
    push_if(
        &mut w,
        a.resv_collisions > 0,
        chain(&size(a.resv_collisions), " version reservation collision(s)"),
    );
    assert(texts(w@) =~= check_warnings(*a, drift as nat));
    if w.len() == 0 {
        return None;
    }
    let mut s = "⚠ memnir: ".to_string();
    s.append(&join(&w, "; "));
    s.append("  → run `memnir doctor`");
    Some(s)
}

/// How a size does against its limit.
pub open spec fn light(v: nat, limit: nat) -> Text {
    if v > limit {
        "🔴"@
    } else if v * 10 > limit * 6 {
        "🟠"@
    } else {
        "🟢"@
    }
}

fn light_of(v: usize) -> (r: &'static str)
    ensures
        r@ == light(v as nat, IDX_WARN as nat),
{
    if v > IDX_WARN {
        "🔴"
    } else if v * 10 > IDX_WARN * 6 {
        "🟠"
    } else {
        "🟢"
    }
}

/// The first three names without `.md`.
pub open spec fn first_three(files: Seq<Text>) -> Text {
    joined(
        (if files.len() > 3 {
            files.take(3)
        } else {
            files
        }).map_values(|f: Text| stem(f)),
        ", "@,
    )
}

fn show_three(files: &[String]) -> (r: String)
    ensures
        r@ == first_three(texts(files@)),
{
    let ghost all = texts(files@);
    let n: usize = if files.len() > 3 {
        3
    } else {
        files.len()
    };
    let mut v: Vec<String> = Vec::new();
    let ghost f = |f: Text| stem(f);
    let mut i: usize = 0;
    while i < n
        invariant
            i <= n <= files@.len(),
            all == texts(files@),
            f == (|f: Text| stem(f)),
            texts(v@) == all.map_values(f).take(i as int),
        decreases n - i,
    {
        let ghost done = texts(v@);
        v.push(strip_suffixes(&files[i], ".md").to_string());
        assert(texts(v@) =~= done.push(stem(files@[i as int]@)));
        i = i + 1;
        assert(texts(v@) =~= all.map_values(f).take(i as int));
    }
    assert(texts(v@) =~= (if all.len() > 3 {
        all.take(3)
    } else {
        all
    }).map_values(f));
    join(&v, ", ")
}

/// The lines that show each peer.
pub open spec fn peer_rows(health: Seq<(Text, Option<nat>)>) -> Seq<Text> {
    health.map_values(
        |h: (Text, Option<nat>)|
            "            "@ + (if h.1 is Some {
                "✓"@
            } else {
                "✗"@
            }) + " "@ + h.0,
    )
}

/// The state of the store, in the health report. `idx_k` is the size of the index
/// in thousands, with one decimal.
pub open spec fn health_head(
    a: Analysis,
    health: Seq<(Text, Option<nat>)>,
    drift: nat,
    host: Text,
    os: Text,
    idx_k: Text,
) -> Seq<Text> {
    seq![
        "MEMNIR HEALTH ───────────────────────────────── "@ + host + " · "@ + os,
        "inventory   "@ + decimal(a.n as nat) + " memories   "@ + counts_text(a.types.seq()),
        "scope       shared:"@ + decimal(a.shared as nat) + "   local:"@ + decimal(
            (a.n - a.shared) as nat,
        ),
    ] + only_if(
        a.resv_active > 0 || a.resv_collisions > 0,
        "reservations "@ + decimal(a.resv_active as nat) + " active"@ + (if a.resv_collisions > 0 {
            "   🔴 "@ + decimal(a.resv_collisions as nat) + " collision(s)"@
        } else {
            ""@
        }),
    ) + seq![
        "origins     "@ + counts_text(a.origins.seq()),
        "tokens      index ~"@ + idx_k + "k/session "@ + light(a.idx_tok as nat, IDX_WARN as nat)
            + "   pool ~"@ + decimal(a.pool_tok as nat / 1000) + "k"@,
        "peers       "@ + decimal(health.len()) + " (reachable "@ + decimal(reachable(health))
            + ")   drift: "@ + decimal(drift) + " files"@,
    ] + (if health.len() > 1 || reachable(health) < health.len() {
        peer_rows(health)
    } else {
        Seq::empty()
    })
}

/// What calls for action, in the health report.
pub open spec fn health_issues(a: Analysis, compact: bool) -> Seq<Text> {
    seq![""@, "⚠ ISSUES & ACTIONS"@] + only_if(
        a.resv_collisions > 0,
        " 🔴 "@ + decimal(a.resv_collisions as nat)
            + " version reservation collision(s) → memnir reservations   (two sessions claimed one version)"@,
    ) + only_if(
        a.idx_tok > IDX_WARN,
        " 🔴 index "@ + thousands(a.idx_tok as nat)
            + "k always-on        → memnir compact-index   ("@ + (if compact {
            "widen local / prune Tier-0"@
        } else {
            "Tier-0 split"@
        }) + ")"@,
    ) + only_if(
        a.broken > 0,
        " 🟠 "@ + decimal(a.broken as nat) + " broken [[links]]          → memnir fix-links"@,
    ) + only_if(
        a.oversized@.len() > 0,
        " 🟠 "@ + decimal(a.oversized@.len())
            + " oversized (>2k tok)      → memnir split <id>   ("@ + first_three(texts(a.oversized@))
            + "…)"@,
    ) + only_if(
        a.isolated@.len() > 0,
        " 🟡 "@ + decimal(a.isolated@.len())
            + " isolated memories       → link them (graph: memnir dash)"@,
    ) + only_if(
        a.scope_flags@.len() > 0,
        " 🟡 "@ + decimal(a.scope_flags@.len())
            + " local look cross-machine → memnir share <id>  ("@ + first_three(
            texts(a.scope_flags@),
        ) + "…)"@,
    ) + seq![""@, "→ visualize:  memnir dash"@]
}

/// Puts the lines for the peers behind the others.
fn push_peers(out: &mut Vec<String>, health: &[(String, Option<usize>)])
    ensures
        texts(final(out)@) == texts(old(out)@) + peer_rows(health_of(health@)),
{
    let ghost all = peer_rows(health_of(health@));
    let ghost start = texts(out@);
    let mut i: usize = 0;
    assert(texts(out@) =~= start + all.take(0));
    while i < health.len()
        invariant
            i <= health@.len(),
            all == peer_rows(health_of(health@)),
            texts(out@) == start + all.take(i as int),
        decreases health@.len() - i,
    {
        let ghost done = texts(out@);
        let mut t = "            ".to_string();
        t.append(
            if health[i].1.is_some() {
                "✓"
            } else {
                "✗"
            },
        );
        t.append(" ");
        t.append(&health[i].0);
        assert(t@ == all[i as int]);
        out.push(t);
        assert(texts(out@) =~= done.push(t@));
        i = i + 1;
        assert(texts(out@) =~= start + all.take(i as int));
    }
    assert(all.take(i as int) =~= all);
}

fn push_head(
    out: &mut Vec<String>,
    a: &Analysis,
    health: &[(String, Option<usize>)],
    drift: usize,
    host: &str,
    os: &str,
    idx_k: &str,
)
    requires
        a.can_show(),
        old(out)@.len() == 0,
    ensures
        texts(final(out)@) == health_head(
            *a,
            health_of(health@),
            drift as nat,
            host@,
            os@,
            idx_k@,
        ),
{
    let mut l1 = "MEMNIR HEALTH ───────────────────────────────── ".to_string();
    l1.append(host);
    l1.append(" · ");
    l1.append(os);
    let mut l2 = "inventory   ".to_string();
    l2.append(&size(a.n));
    l2.append(" memories   ");
    l2.append(&fmt_counts(&a.types));
    let mut l3 = "scope       shared:".to_string();
    l3.append(&size(a.shared));
    l3.append("   local:");
    l3.append(&size(a.n - a.shared));
    out.push(l1);
    out.push(l2);
    out.push(l3);
    assert(texts(out@) =~= seq![l1@, l2@, l3@]);
    let clash = if a.resv_collisions > 0 {
        let mut c = "   🔴 ".to_string();
        c.append(&size(a.resv_collisions));
        c.append(" collision(s)");
        c
    } else {
        "".to_string()
    };
    let mut l4 = "reservations ".to_string();
    l4.append(&size(a.resv_active));
    l4.append(" active");
    l4.append(&clash);
    push_if(out, a.resv_active > 0 || a.resv_collisions > 0, l4);
    let l5 = chain("origins     ", &fmt_counts(&a.origins));
    let mut l6 = "tokens      index ~".to_string();
    l6.append(idx_k);
    l6.append("k/session ");
    l6.append(light_of(a.idx_tok));
    l6.append("   pool ~");
    l6.append(&size(a.pool_tok / 1000));
    l6.append("k");
    let n = count_reachable(health);
    let mut l7 = "peers       ".to_string();
    l7.append(&size(health.len()));
    l7.append(" (reachable ");
    l7.append(&size(n));
    l7.append(")   drift: ");
    l7.append(&size(drift));
    l7.append(" files");
    let ghost before = texts(out@);
    out.push(l5);
    out.push(l6);
    out.push(l7);
    assert(texts(out@) =~= before + seq![l5@, l6@, l7@]);
    if health.len() > 1 || n < health.len() {
        push_peers(out, health);
    } else {
        assert(texts(out@) =~= texts(out@) + Seq::<Text>::empty());
    }
}

fn push_issues(out: &mut Vec<String>, a: &Analysis, compact: bool)
    requires
        a.can_show(),
        old(out)@.len() == 0,
    ensures
        texts(final(out)@) == health_issues(*a, compact),
{
    out.push("".to_string());
    out.push("⚠ ISSUES & ACTIONS".to_string());
    assert(texts(out@) =~= seq![""@, "⚠ ISSUES & ACTIONS"@]);
    let mut s = " 🔴 ".to_string();
    s.append(&size(a.resv_collisions));
    s.append(
        " version reservation collision(s) → memnir reservations   (two sessions claimed one version)",
    );
    push_if(out, a.resv_collisions > 0, s);
    let mut s = " 🔴 index ".to_string();
    s.append(&show_thousands(a.idx_tok));
    s.append("k always-on        → memnir compact-index   (");
    s.append(
        if compact {
            "widen local / prune Tier-0"
        } else {
            "Tier-0 split"
        },
    );
    s.append(")");
    push_if(out, a.idx_tok > IDX_WARN, s);
    let mut s = " 🟠 ".to_string();
    s.append(&size(a.broken));
    s.append(" broken [[links]]          → memnir fix-links");
    push_if(out, a.broken > 0, s);
    let mut s = " 🟠 ".to_string();
    s.append(&size(a.oversized.len()));
    s.append(" oversized (>2k tok)      → memnir split <id>   (");
    s.append(&show_three(&a.oversized));
    s.append("…)");
    push_if(out, a.oversized.len() > 0, s);
    let mut s = " 🟡 ".to_string();
    s.append(&size(a.isolated.len()));
    s.append(" isolated memories       → link them (graph: memnir dash)");
    push_if(out, a.isolated.len() > 0, s);
    let mut s = " 🟡 ".to_string();
    s.append(&size(a.scope_flags.len()));
    s.append(" local look cross-machine → memnir share <id>  (");
    s.append(&show_three(&a.scope_flags));
    s.append("…)");
    push_if(out, a.scope_flags.len() > 0, s);
    let ghost before = texts(out@);
    out.push("".to_string());
    out.push("→ visualize:  memnir dash".to_string());
    assert(texts(out@) =~= before + seq![""@, "→ visualize:  memnir dash"@]);
}

/// The health report: the state of the store, then what calls for action.
pub fn health_report(
    a: &Analysis,
    health: &[(String, Option<usize>)],
    drift: usize,
    host: &str,
    os: &str,
    idx_k: &str,
    compact: bool,
) -> (r: Vec<String>)
    requires
        a.can_show(),
    ensures
        texts(r@) == health_head(*a, health_of(health@), drift as nat, host@, os@, idx_k@)
            + health_issues(*a, compact),
{
    let mut r: Vec<String> = Vec::new();
    push_head(&mut r, a, health, drift, host, os, idx_k);
    let mut more: Vec<String> = Vec::new();
    push_issues(&mut more, a, compact);
    let ghost x = texts(r@);
    let ghost y = texts(more@);
    r.append(&mut more);
    assert(texts(r@) =~= x + y);
    r
}

/// The quick check is silent exactly where nothing is amiss.
pub proof fn check_is_silent_when_all_is_well(a: Analysis, drift: nat)
    ensures
        check_line(a, drift) is None <==> a.idx_tok <= IDX_WARN && a.broken == 0 && drift == 0
            && a.resv_collisions == 0,
{
}

} // verus!

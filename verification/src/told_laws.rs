//! What the user is told.
use crate::analysis::{lemma_filter_holds, Analysis};
use crate::counts::counts_text;
use crate::index::compacted_lines;
use crate::link_laws::{inside, lemma_inside_part};
use crate::listing::{flag, listed, reservation_list, row, rows, scope_words};
use crate::memory::{file_of, stem, Memory};
use crate::naming::slugged;
use crate::number::decimal;
use crate::related::related_lines;
use crate::repair::{repair_lines, unresolved_lines};
use crate::report::{health_head, light, list_lines, local_rows, reachable, shared_rows, status_lines};
use crate::reservation::{collisions, Reservation, Wanted};
use crate::reserve::{
    decision, first_holder, freeing, holds, is_meant, reservation_file, reservation_rest,
    reserved_lines, since, version_slug, Decision, Freeing, Goal,
};
use crate::reserve_laws::{has_version, is_active_in, is_of_version};
use crate::scope::scope_lines;
use crate::search::{bar_len, hit_line, neighbour_lines, search_lines};
use crate::text::{joined, padded, repeated, Text};
use crate::version::{age, dotted, semver};
use vstd::prelude::*;

verus! {

/// A text stands inside itself, and inside everything that is put together with it.
pub(crate) proof fn lemma_inside()
    ensures
        forall|p: Text| #[trigger] inside(p, p),
        forall|p: Text, s: Text| #[trigger] inside(p, s + p),
        forall|p: Text, s: Text, t: Text| inside(p, s) ==> #[trigger] inside(p, s + t),
        forall|s: Text, a: Text, b: Text| #[trigger] inside(a + b, s + a + b),
        forall|s: Text, a: Text, b: Text, c: Text| #[trigger] inside(a + b + c, s + a + b + c),
{
    let none = Seq::<char>::empty();
    assert forall|p: Text| #[trigger] inside(p, p) by {
        assert(p =~= none + p + none);
    }
    assert forall|p: Text, s: Text| #[trigger] inside(p, s + p) by {
        assert(s + p =~= s + p + none);
    }
    assert forall|p: Text, s: Text, t: Text| inside(p, s) implies #[trigger] inside(p, s + t) by {
        lemma_inside_part(p, none, s, t);
        assert(none + s + t =~= s + t);
    }
    assert forall|s: Text, a: Text, b: Text| #[trigger] inside(a + b, s + a + b) by {
        assert(s + a + b =~= s + (a + b) + none);
    }
    assert forall|s: Text, a: Text, b: Text, c: Text| #[trigger]
        inside(a + b + c, s + a + b + c) by {
        assert(s + a + b + c =~= s + (a + b + c) + none);
    }
}

/// Copies of a text that is all one character are that character again and again.
proof fn lemma_repeated(s: Text, c: char, n: nat)
    requires
        forall|i: int| 0 <= i < s.len() ==> #[trigger] s[i] == c,
    ensures
        repeated(s, n).len() == s.len() * n,
        s.len() == 1 ==> repeated(s, n).len() == n,
        s.len() == 2 ==> repeated(s, n).len() == 2 * n,
        forall|i: int| 0 <= i < repeated(s, n).len() ==> #[trigger] repeated(s, n)[i] == c,
    decreases n,
{
    if n > 0 {
        lemma_repeated(s, c, (n - 1) as nat);
        assert(s.len() * (n - 1) + s.len() == s.len() * n) by (nonlinear_arith)
            requires
                n > 0,
        ;
    } else {
        assert(s.len() * n == 0) by (nonlinear_arith)
            requires
                n == 0,
        ;
    }
}

/// Each related memory has a line of its own, indented by two blanks and two more for
/// every link on the way.
pub proof fn related_are_indented_by_distance(
    start: Text,
    depth: nat,
    rows: Seq<(Text, nat)>,
    k: int,
)
    requires
        0 <= k < rows.len(),
    ensures
        ({
            let lines = related_lines(start, depth, rows);
            let line = lines[k + 1];
            let n = 2 * (rows[k].1 + 1);
            &&& lines.len() == rows.len() + 1
            &&& inside(start, lines[0])
            &&& inside(decimal(depth), lines[0])
            &&& line.len() == n + rows[k].0.len()
            &&& forall|i: int| 0 <= i < n ==> #[trigger] line[i] == ' '
            &&& line.skip(n as int) == rows[k].0
        }),
{
    reveal_strlit("  ");
    lemma_inside();
    let n = rows[k].1;
    lemma_repeated("  "@, ' ', n);
    let w = repeated("  "@, n);
    let line = "  "@ + w + rows[k].0;
    assert(w.len() == 2 * n);
    assert(related_lines(start, depth, rows)[k + 1] == line);
    assert(line.skip((2 * (n + 1)) as int) =~= rows[k].0);
}

/// A memory without links is said to have none.
pub proof fn isolated_is_said(start: Text, depth: nat)
    ensures
        related_lines(start, depth, Seq::empty()).len() == 2,
        inside(start, related_lines(start, depth, Seq::empty())[0]),
        inside("isolated"@, related_lines(start, depth, Seq::empty())[1]),
{
    lemma_inside();
    reveal_strlit("  (no [[links]] — isolated)");
    reveal_strlit("isolated");
    reveal_strlit(")");
    let s = "  (no [[links]] — isolated)"@;
    assert(s =~= s.take(18) + "isolated"@ + ")"@);
}

/// A file that was found is shown with a bar that is as long as its score is high, and
/// with the places in which it was found.
pub proof fn hit_is_shown_with_its_bar(h: (Text, int, Text), best: int)
    requires
        h.0.len() <= 46,
        0 < h.1 <= best,
    ensures
        ({
            let line = hit_line(h, best);
            let n = bar_len(h.1, best);
            &&& n <= 10
            &&& line.len() == 2 + 46 + 11 + 2 + h.2.len()
            &&& line.take(2) == "  "@
            &&& line.subrange(2, 2 + h.0.len() as int) == h.0
            &&& forall|i: int| 2 + h.0.len() <= i < 48 ==> #[trigger] line[i] == ' '
            &&& forall|i: int| 48 <= i < 48 + n ==> #[trigger] line[i] == '█'
            &&& forall|i: int| 48 + n <= i < 59 ==> #[trigger] line[i] == ' '
            &&& line.skip(59) == "["@ + h.2 + "]"@
        }),
{
    reveal_strlit("  ");
    reveal_strlit("█");
    reveal_strlit("[");
    reveal_strlit("]");
    crate::report_laws::bars_go_by_score(h.1, h.1, best);
    let n = bar_len(h.1, best);
    lemma_repeated("█"@, '█', n);
    lemma_repeated(seq![' '], ' ', (46 - h.0.len()) as nat);
    lemma_repeated(seq![' '], ' ', (11 - n) as nat);
    let name = padded(h.0, 46);
    let bar = padded(repeated("█"@, n), 11);
    let line = "  "@ + name + bar + "["@ + h.2 + "]"@;
    assert(name.len() == 46);
    assert(bar.len() == 11);
    assert(line == hit_line(h, best));
    assert(line.take(2) =~= "  "@);
    assert(line.subrange(2, 2 + h.0.len() as int) =~= h.0);
    assert(line.skip(59) =~= "["@ + h.2 + "]"@);
}

/// A search shows what was asked for and how many files it found, then each of them,
/// with its bar against the first.
pub proof fn search_shows_every_hit(query: Text, hits: Seq<(Text, int, Text)>)
    ensures
        inside("\""@ + query + "\""@, search_lines(query, hits)[0]),
        hits.len() == 0 ==> search_lines(query, hits).len() == 1,
        hits.len() > 0 ==> search_lines(query, hits).len() == hits.len() + 1 && inside(
            decimal(hits.len()) + " match(es)"@,
            search_lines(query, hits)[0],
        ),
        forall|k: int|
            0 <= k < hits.len() ==> #[trigger] search_lines(query, hits)[k + 1] == hit_line(
                hits[k],
                hits[0].1,
            ),
{
    lemma_inside();
    let none = Seq::<char>::empty();
    reveal_strlit("\"");
    reveal_strlit("\" — ");
    reveal_strlit("🔍 \"");
    reveal_strlit("no matches for \"");
    reveal_strlit(" — ");
    reveal_strlit("🔍 ");
    reveal_strlit("no matches for ");
    let q = "\""@ + query + "\""@;
    if hits.len() == 0 {
        assert("no matches for \""@ + query + "\""@ =~= "no matches for "@ + q + none);
    } else {
        let t = " — "@ + decimal(hits.len()) + " match(es)"@;
        let first = "🔍 \""@ + query + "\" — "@ + decimal(hits.len()) + " match(es)"@;
        assert(first =~= "🔍 "@ + q + t);
        assert(search_lines(query, hits)[0] == first);
    }
}

/// A neighbour is shown with the file that leads to it.
pub proof fn neighbour_is_shown_with_its_way(nb: Seq<(Text, Text)>, k: int)
    requires
        0 <= k < nb.len(),
    ensures
        neighbour_lines(nb).len() == nb.len() + 1,
        neighbour_lines(nb)[k + 1] == "  "@ + padded(nb[k].0, 46) + "↳ from "@ + nb[k].1,
        neighbour_lines(Seq::empty()).len() == 0,
{
}

/// Every repair is shown in its file, with the link as it was and as it becomes.
pub proof fn repairs_are_shown(
    fixable: Seq<(Text, Text, Text)>,
    unresolved: Seq<(Text, Text)>,
    apply: bool,
    k: int,
)
    requires
        0 <= k < fixable.len(),
    ensures
        ({
            let lines = repair_lines(fixable, unresolved, apply);
            &&& lines.len() == fixable.len() + 1
            &&& inside(decimal(fixable.len()) + " fixable [[link]]"@, lines[0])
            &&& inside(
                if apply {
                    " (applying)"@
                } else {
                    " (dry-run — pass --apply)"@
                },
                lines[0],
            )
            &&& inside(stem(fixable[k].0), lines[k + 1])
            &&& inside("[["@ + fixable[k].1 + "]]"@, lines[k + 1])
            &&& inside("[["@ + fixable[k].2 + "]]"@, lines[k + 1])
        }),
{
    lemma_inside();
    reveal_strlit("[[");
    reveal_strlit("]]");
    reveal_strlit(":  [[");
    reveal_strlit(":  ");
    reveal_strlit("]] → [[");
    reveal_strlit(" → ");
    let f = fixable[k];
    let head = "  "@ + stem(f.0);
    let a = "[["@ + f.1 + "]]"@;
    let b = "[["@ + f.2 + "]]"@;
    let line = "  "@ + stem(f.0) + ":  [["@ + f.1 + "]] → [["@ + f.2 + "]]"@;
    assert(line =~= head + ":  "@ + a + " → "@ + b);
    assert(repair_lines(fixable, unresolved, apply)[k + 1] == line);
    assert(inside(stem(f.0), head + ":  "@ + a + " → "@ + b));
}

/// Where no link is broken there is nothing to repair, and where none can be repaired
/// nothing is said of it.
pub proof fn nothing_to_repair_is_said(unresolved: Seq<(Text, Text)>, apply: bool)
    ensures
        repair_lines(Seq::empty(), Seq::empty(), apply) == seq![
            "✓ no broken [[links]] — nothing to fix"@,
        ],
        unresolved.len() > 0 ==> repair_lines(Seq::empty(), unresolved, apply).len() == 0,
{
}

/// The first twenty links that stay broken are shown in their files.
pub proof fn unresolved_links_are_shown(u: Seq<(Text, Text)>, k: int)
    requires
        0 <= k < u.len(),
        k < 20,
    ensures
        inside(decimal(u.len()) + " unresolved"@, unresolved_lines(u)[0]),
        unresolved_lines(u)[k + 1] == "  "@ + stem(u[k].0) + ":  [["@ + u[k].1 + "]]"@,
{
    lemma_inside();
    reveal_strlit(" unresolved (no unique match — likely forward-references, left as-is):");
    reveal_strlit(" unresolved");
    let t = " unresolved (no unique match — likely forward-references, left as-is):"@;
    let none = Seq::<char>::empty();
    let n = decimal(u.len());
    assert(n + t =~= none + (n + " unresolved"@) + t.skip(11));
}

/// Setting a scope names the file and the scope, and says that it was pushed exactly
/// where it is shared.
pub proof fn new_scope_is_told(id: Text, shared: bool)
    ensures
        inside(file_of(id) + " → scope:"@, scope_lines(id, shared)[0]),
        inside(
            if shared {
                "shared"@
            } else {
                "local"@
            },
            scope_lines(id, shared)[0],
        ),
        scope_lines(id, shared).len() == (if shared {
            2int
        } else {
            1
        }),
        shared ==> inside("pushed"@, scope_lines(id, shared)[1]),
{
    lemma_inside();
    reveal_strlit("  pushed to peers");
    reveal_strlit("pushed");
    let s = "  pushed to peers"@;
    assert(s =~= s.take(2) + "pushed"@ + s.skip(8));
}

/// A reservation that was made is told with its repository, version, machine and tag,
/// with what it is for, and with how to release it.
pub proof fn reservation_is_told(repo: Text, version: Text, host: Text, tag: Text, desc: Text)
    ensures
        ({
            let lines = reserved_lines(repo, version, host, tag, desc);
            &&& inside(repo + " v"@ + version, lines[0])
            &&& inside("owner "@ + host, lines[1])
            &&& inside("tag "@ + tag, lines[1])
            &&& desc.len() == 0 ==> lines.len() == 3
            &&& desc.len() > 0 ==> lines.len() == 4 && inside(desc, lines[2])
            &&& inside("memnir release "@ + repo + " "@ + version, lines.last())
        }),
{
    lemma_inside();
    reveal_strlit("   owner ");
    reveal_strlit("owner ");
    reveal_strlit("   tag ");
    reveal_strlit("tag ");
    reveal_strlit("   ");
    reveal_strlit("   release when done:  memnir release ");
    reveal_strlit("memnir release ");
    let a = "   owner "@ + host + "   tag "@ + tag;
    assert(a =~= "   "@ + ("owner "@ + host) + ("   "@ + ("tag "@ + tag)));
    assert(a =~= ("   owner "@ + host + "   "@) + ("tag "@ + tag));
    let t = "   release when done:  memnir release "@;
    let b = t + repo + " "@ + version;
    assert(b =~= t.take(23) + ("memnir release "@ + repo + " "@ + version));
}

/// The state of the store tells where it is, how many memories it has, how many of
/// them are shared and how many are not, and the peers.
pub proof fn status_tells_the_numbers(
    store: Text,
    base: Text,
    n: nat,
    shared: nat,
    origins: Seq<(Text, nat)>,
    peers: Seq<Text>,
)
    requires
        shared <= n,
    ensures
        ({
            let lines = status_lines(store, base, n, shared, origins, peers);
            &&& lines.len() == 4
            &&& inside(store, lines[0])
            &&& inside("memories: "@ + decimal(n), lines[1])
            &&& inside("(shared:"@ + decimal(shared), lines[1])
            &&& inside("local:"@ + decimal((n - shared) as nat), lines[1])
            &&& inside(counts_text(origins), lines[2])
            &&& peers.len() > 0 ==> inside(joined(peers, ", "@), lines[3])
            &&& peers.len() == 0 ==> inside(base + "/memnir.conf"@, lines[3])
        }),
{
    lemma_inside();
    reveal_strlit("  (shared:");
    reveal_strlit("(shared:");
    reveal_strlit("  local:");
    reveal_strlit("local:");
    reveal_strlit("  ");
    reveal_strlit("/memnir.conf)");
    reveal_strlit("/memnir.conf");
    reveal_strlit(")");
    let all = "memories: "@ + decimal(n);
    let a = "(shared:"@ + decimal(shared);
    let b = "local:"@ + decimal((n - shared) as nat);
    let line = "memories: "@ + decimal(n) + "  (shared:"@ + decimal(shared) + "  local:"@ + decimal(
        (n - shared) as nat,
    ) + ")"@;
    assert(line =~= all + "  "@ + a + "  "@ + b + ")"@);
    assert(inside(a, all + "  "@ + a + "  "@ + b + ")"@));
    assert(inside(b, all + "  "@ + a + "  "@ + b + ")"@));
    if peers.len() == 0 {
        let none = "(none — see ~/"@ + base + "/memnir.conf)"@;
        assert("peers:    "@ + none =~= "peers:    "@ + "(none — see ~/"@ + (base
            + "/memnir.conf"@) + ")"@);
    }
}

/// The list of memories has a heading for the shared ones, these, a heading for the
/// local ones, and these.
pub proof fn list_shows_shared_ones_first(mems: Seq<Memory>, i: int, j: int)
    requires
        0 <= i < shared_rows(mems).len(),
        0 <= j < local_rows(mems).len(),
    ensures
        ({
            let n = shared_rows(mems).len();
            let lines = list_lines(mems);
            &&& lines.len() == n + local_rows(mems).len() + 2
            &&& inside("SHARED"@, lines[0])
            &&& lines[i + 1] == shared_rows(mems)[i]
            &&& inside("LOCAL"@, lines[(n + 1) as int])
            &&& lines[n + 2 + j] == local_rows(mems)[j]
        }),
{
    reveal_strlit("SHARED");
    reveal_strlit("LOCAL");
    reveal_strlit("SHARED (sync ข้ามเครื่อง):");
    reveal_strlit("LOCAL (เครื่องนี้เท่านั้น):");
    let none = Seq::<char>::empty();
    let a = "SHARED (sync ข้ามเครื่อง):"@;
    let b = "LOCAL (เครื่องนี้เท่านั้น):"@;
    assert(a =~= none + "SHARED"@ + a.skip(6));
    assert(b =~= none + "LOCAL"@ + b.skip(5));
}

/// The health report tells the numbers of the analysis, the index against its limit,
/// and how many peers there are and answered; each peer is shown where there are
/// several or one did not answer.
pub proof fn health_tells_the_numbers(
    a: Analysis,
    health: Seq<(Text, Option<nat>)>,
    drift: nat,
    host: Text,
    os: Text,
    idx_k: Text,
)
    requires
        a.shared <= a.n,
    ensures
        ({
            let lines = health_head(a, health, drift, host, os, idx_k);
            let r = if a.resv_active > 0 || a.resv_collisions > 0 {
                1int
            } else {
                0
            };
            let peers = health.len() > 1 || reachable(health) < health.len();
            &&& lines.len() == 6 + r + (if peers {
                health.len() as int
            } else {
                0
            })
            &&& inside(host + " · "@ + os, lines[0])
            &&& inside(decimal(a.n as nat) + " memories"@, lines[1])
            &&& inside("shared:"@ + decimal(a.shared as nat), lines[2])
            &&& inside("local:"@ + decimal((a.n - a.shared) as nat), lines[2])
            &&& r == 1 ==> inside(decimal(a.resv_active as nat) + " active"@, lines[3])
            &&& a.resv_collisions > 0 ==> inside(
                decimal(a.resv_collisions as nat) + " collision(s)"@,
                lines[3],
            )
            &&& inside(counts_text(a.origins.seq()), lines[3 + r])
            &&& inside(idx_k + "k/session "@, lines[4 + r])
            &&& inside(
                if a.idx_tok > 12_000 {
                    "🔴"@
                } else if a.idx_tok > 7_200 {
                    "🟠"@
                } else {
                    "🟢"@
                },
                lines[4 + r],
            )
            &&& inside(decimal(a.pool_tok as nat / 1000) + "k"@, lines[4 + r])
            &&& inside(decimal(health.len()) + " (reachable "@, lines[5 + r])
            &&& inside("(reachable "@ + decimal(reachable(health)), lines[5 + r])
            &&& inside("drift: "@ + decimal(drift) + " files"@, lines[5 + r])
            &&& peers ==> forall|k: int|
                0 <= k < health.len() ==> #[trigger] lines[6 + r + k] == "            "@ + (
                if health[k].1 is Some {
                    "✓"@
                } else {
                    "✗"@
                }) + " "@ + health[k].0
        }),
{
    lemma_inside();
    reveal_strlit(" memories   ");
    reveal_strlit(" memories");
    reveal_strlit("   ");
    reveal_strlit("scope       shared:");
    reveal_strlit("scope       ");
    reveal_strlit("shared:");
    reveal_strlit("   local:");
    reveal_strlit("local:");
    reveal_strlit(" (reachable ");
    reveal_strlit("(reachable ");
    reveal_strlit(" ");
    reveal_strlit(")   drift: ");
    reveal_strlit(")   ");
    reveal_strlit("drift: ");
    let lines = health_head(a, health, drift, host, os, idx_k);
    let n = decimal(a.n as nat);
    let c = counts_text(a.types.seq());
    assert("inventory   "@ + n + " memories   "@ + c =~= "inventory   "@ + n + " memories"@ + "   "@
        + c);
    assert(inside(n + " memories"@, "inventory   "@ + n + " memories"@ + "   "@ + c));
    let s = "shared:"@ + decimal(a.shared as nat);
    let l = "local:"@ + decimal((a.n - a.shared) as nat);
    assert("scope       shared:"@ + decimal(a.shared as nat) + "   local:"@ + decimal(
        (a.n - a.shared) as nat,
    ) =~= "scope       "@ + s + "   "@ + l);
    assert(inside(s, "scope       "@ + s + "   "@ + l));
    let h = decimal(health.len());
    let re = "(reachable "@ + decimal(reachable(health));
    let d = "drift: "@ + decimal(drift) + " files"@;
    let line = "peers       "@ + h + " (reachable "@ + decimal(reachable(health)) + ")   drift: "@
        + decimal(drift) + " files"@;
    assert(line =~= "peers       "@ + h + " "@ + re + ")   "@ + d);
    assert(inside(re, "peers       "@ + h + " "@ + re + ")   "@ + d));
    assert(inside(d, "peers       "@ + h + " "@ + re + ")   "@ + d));
    assert(inside(h + " (reachable "@, line));
    let r = if a.resv_active > 0 || a.resv_collisions > 0 {
        1int
    } else {
        0
    };
    let peers = health.len() > 1 || reachable(health) < health.len();
    let lit = light(a.idx_tok as nat, 12_000);
    let k = decimal(a.pool_tok as nat / 1000);
    let sizes = "tokens      index ~"@ + idx_k + "k/session "@ + lit + "   pool ~"@ + k + "k"@;
    assert(inside(idx_k + "k/session "@, sizes));
    assert(inside(lit, sizes));
    assert(inside(k + "k"@, sizes));
    let active = decimal(a.resv_active as nat);
    let clash = decimal(a.resv_collisions as nat);
    let held = "reservations "@ + active + " active"@ + (if a.resv_collisions > 0 {
        "   🔴 "@ + clash + " collision(s)"@
    } else {
        ""@
    });
    assert(inside(active + " active"@, held));
    if a.resv_collisions > 0 {
        let t = "   🔴 "@ + clash + " collision(s)"@;
        assert(inside(clash + " collision(s)"@, t));
        let none = Seq::<char>::empty();
        lemma_inside_part(
            clash + " collision(s)"@,
            "reservations "@ + active + " active"@,
            t,
            none,
        );
        assert(held =~= "reservations "@ + active + " active"@ + t + none);
        assert(inside(clash + " collision(s)"@, held));
    }
    assert(lines[0] == "MEMNIR HEALTH ───────────────────────────────── "@ + host + " · "@ + os);
    assert(inside(host + " · "@ + os, lines[0]));
    assert(lines[3 + r] == "origins     "@ + counts_text(a.origins.seq()));
    assert(lines[4 + r] == sizes);
    assert(lines[5 + r] == line);
    assert(r == 1 ==> lines[3] == held);
}

/// Compacting tells the types that stay, the size of the index before and after, and
/// how many of the memories are in it.
pub proof fn compacting_is_told(
    tier0: Seq<Text>,
    before: Text,
    after: Text,
    kept: nat,
    n: nat,
    tok: nat,
)
    ensures
        ({
            let lines = compacted_lines(tier0, before, after, kept, n, tok);
            &&& inside(joined(tier0, "/"@), lines[0])
            &&& inside(before + "k → ~"@ + after + "k tok/session"@, lines[1])
            &&& inside(decimal(kept) + " of "@ + decimal(n) + " memories"@, lines[1])
            &&& inside("MEMORY.full.md"@, lines[2])
        }),
{
    lemma_inside();
    reveal_strlit("k tok/session (");
    reveal_strlit("k tok/session");
    reveal_strlit(" (");
    reveal_strlit(" memories)");
    reveal_strlit(" memories");
    reveal_strlit(")");
    reveal_strlit("MEMORY.full.md");
    reveal_strlit("  MEMORY.full.md  full catalog — on-demand, still searchable via `memnir search`");
    let t = "  MEMORY.full.md  full catalog — on-demand, still searchable via `memnir search`"@;
    assert(t =~= t.take(2) + "MEMORY.full.md"@ + t.skip(16));
    let a = before + "k → ~"@ + after + "k tok/session"@;
    let b = decimal(kept) + " of "@ + decimal(n) + " memories"@;
    let line = "  MEMORY.md       ~"@ + before + "k → ~"@ + after + "k tok/session ("@ + decimal(kept)
        + " of "@ + decimal(n) + " memories)"@;
    assert(line =~= "  MEMORY.md       ~"@ + a + " ("@ + b + ")"@);
    assert(inside(a, "  MEMORY.md       ~"@ + a + " ("@ + b + ")"@));
    assert(inside(b, "  MEMORY.md       ~"@ + a + " ("@ + b + ")"@));
}

/// The line for a reservation tells its version, its machine and its age, what it is
/// for, unless nothing was said of that, and last whether it was released or collides.
pub proof fn row_tells_of_its_reservation(rs: Seq<Reservation>, r: Reservation, now: u64)
    ensures
        inside(" v"@ + padded(r.version, 10) + " "@ + padded(r.owner, 16), row(rs, r, now)),
        inside(padded(age(since(now, r.reserved_at)), 10), row(rs, r, now)),
        r.desc != "(no description)"@ ==> inside(r.desc + flag(rs, r), row(rs, r, now)),
        r.desc == "(no description)"@ ==> row(rs, r, now) == "    v"@ + padded(r.version, 10) + " "@
            + padded(r.owner, 16) + " "@ + padded(age(since(now, r.reserved_at)), 10) + " "@ + flag(
            rs,
            r,
        ),
        inside(flag(rs, r), row(rs, r, now)),
{
    lemma_inside();
    reveal_strlit("    v");
    reveal_strlit(" v");
    reveal_strlit("   ");
    reveal_strlit("");
    let v = padded(r.version, 10);
    let o = padded(r.owner, 16);
    let a = padded(age(since(now, r.reserved_at)), 10);
    let d = if r.desc == "(no description)"@ {
        ""@
    } else {
        r.desc
    };
    let p = " v"@ + v + " "@ + o;
    let front = "    v"@ + v + " "@ + o;
    assert(front =~= "   "@ + p);
    assert(inside(p, "   "@ + p));
    let line = front + " "@ + a + " "@ + d + flag(rs, r);
    assert(line == row(rs, r, now));
    assert(inside(p, line));
    assert(inside(a, line));
    assert(inside(d + flag(rs, r), line));
    assert(""@ =~= Seq::<char>::empty());
    assert(front + " "@ + a + " "@ + ""@ =~= front + " "@ + a + " "@);
}

/// How many headings the rows of some reservations have: one wherever the repository
/// is another than the one before.
pub open spec fn changes(todo: Seq<Reservation>, last: Text) -> nat
    decreases todo.len(),
{
    if todo.len() == 0 {
        0
    } else {
        (if todo[0].repo == last {
            0nat
        } else {
            1nat
        }) + changes(todo.skip(1), todo[0].repo)
    }
}

/// Every reservation has its row, and a new repository its heading right above the row
/// of its first reservation; there is nothing else.
pub proof fn rows_stand_below_their_repository(
    rs: Seq<Reservation>,
    todo: Seq<Reservation>,
    last: Text,
    now: u64,
    i: int,
) -> (k: int)
    requires
        0 <= i < todo.len(),
    ensures
        ({
            let lines = rows(rs, todo, last, now);
            &&& lines.len() == todo.len() + changes(todo, last)
            &&& i <= k < lines.len()
            &&& lines[k] == row(rs, todo[i], now)
            &&& todo[i].repo != (if i == 0 {
                last
            } else {
                todo[i - 1].repo
            }) ==> k > 0 && lines[k - 1] == "\n  "@ + todo[i].repo
        }),
    decreases todo.len(),
{
    let r = todo[0];
    let rest = todo.skip(1);
    let head = if r.repo != last {
        seq!["\n  "@ + r.repo]
    } else {
        Seq::empty()
    };
    let top = head + seq![row(rs, r, now)];
    let lines = rows(rs, todo, last, now);
    assert(lines == top + rows(rs, rest, r.repo, now));
    if rest.len() > 0 {
        let first = rows_stand_below_their_repository(rs, rest, r.repo, now, 0);
    }
    if i == 0 {
        assert(lines[head.len() as int] == row(rs, r, now));
        head.len() as int
    } else {
        let k = rows_stand_below_their_repository(rs, rest, r.repo, now, i - 1);
        assert(rest[i - 1] == todo[i]);
        if i > 1 {
            assert(rest[i - 2] == todo[i - 1]);
        }
        assert(lines[top.len() + k] == rows(rs, rest, r.repo, now)[k]);
        if k > 0 {
            assert(lines[top.len() + k - 1] == rows(rs, rest, r.repo, now)[k - 1]);
        }
        top.len() + k
    }
}

/// The list of reservations counts what it lists, shows it, and warns at the end of
/// the versions that are held twice; without any it says so, for which repository and
/// whether only active ones were asked for.
pub proof fn list_counts_shows_and_warns(
    all_rs: Seq<Reservation>,
    repo: Option<Text>,
    all: bool,
    now: u64,
)
    ensures
        ({
            let rs = listed(all_rs, repo, all);
            let lines = reservation_list(all_rs, repo, all, now);
            let body = rows(rs, rs, ""@, now);
            let n = collisions(rs).len();
            &&& repo matches Some(name) ==> inside(" for "@ + name, lines[0])
            &&& repo is None ==> scope_words(repo) == ""@
            &&& rs.len() == 0 ==> lines.len() == 1 && (!all <==> lines[0] == "no active reservations"@
                + scope_words(repo))
            &&& rs.len() > 0 ==> {
                &&& inside(decimal(rs.len()) + " reservation(s)"@, lines[0])
                &&& !all ==> inside(" · active"@, lines[0])
                &&& lines.len() == 1 + body.len() + (if n > 0 {
                    1int
                } else {
                    0
                })
                &&& forall|k: int| 0 <= k < body.len() ==> #[trigger] lines[k + 1] == body[k]
                &&& n > 0 ==> inside(decimal(n) + " version(s) claimed by 2+ sessions"@, lines.last())
            }
        }),
{
    lemma_inside();
    reveal_strlit("no ");
    reveal_strlit("");
    reveal_strlit("active ");
    reveal_strlit("reservations");
    reveal_strlit("no active reservations");
    reveal_strlit(" version(s) claimed by 2+ sessions");
    reveal_strlit(
        " version(s) claimed by 2+ sessions — release the duplicate(s): memnir release <repo> <version>",
    );
    let rs = listed(all_rs, repo, all);
    let lines = reservation_list(all_rs, repo, all, now);
    let w = scope_words(repo);
    if rs.len() == 0 {
        let a = if all {
            ""@
        } else {
            "active "@
        };
        assert(lines[0] == "no "@ + a + "reservations"@ + w);
        let long = "no active reservations"@ + w;
        if all {
            assert(lines[0].len() == 15 + w.len());
            assert(long.len() == 22 + w.len());
        } else {
            assert(lines[0] =~= long);
        }
    } else {
        let n = collisions(rs).len();
        let t =
            " version(s) claimed by 2+ sessions — release the duplicate(s): memnir release <repo> <version>"@;
        let p = decimal(n) + " version(s) claimed by 2+ sessions"@;
        assert("\n⚠ "@ + decimal(n) + t =~= "\n⚠ "@ + p + t.skip(34));
        assert(lines[0] == "🔖 "@ + decimal(rs.len()) + " reservation(s)"@ + w + (if all {
            ""@
        } else {
            " · active"@
        }));
        if n > 0 {
            assert(lines.last() == "\n⚠ "@ + decimal(n) + t);
        }
    }
}

/// The first reservation that holds something is at the first place where one does.
proof fn lemma_first_holder(
    rs: Seq<Reservation>,
    key: Text,
    goal: Goal,
    host: Text,
    mine: bool,
    i: int,
)
    requires
        0 <= i < rs.len(),
        holds(rs[i], key, goal, host, mine),
        forall|j: int| 0 <= j < i ==> !holds(#[trigger] rs[j], key, goal, host, mine),
    ensures
        first_holder(rs, key, goal, host, mine) == Some(rs[i]),
    decreases rs.len(),
{
    if i > 0 {
        assert(!holds(rs[0], key, goal, host, mine));
        assert(rs.skip(1)[i - 1] == rs[i]);
        lemma_first_holder(rs.skip(1), key, goal, host, mine, i - 1);
    }
}

/// A refusal names the machine of the first reservation that holds the version and,
/// for a version of numbers, how long ago it was made, and says how to get another.
pub proof fn refusal_names_the_holder(
    repo: Text,
    version: Text,
    host: Text,
    rs: Seq<Reservation>,
    now: u64,
    i: int,
)
    requires
        0 <= i < rs.len(),
        is_active_in(rs[i], repo) && has_version(rs[i], version) && rs[i].owner != host,
        forall|j: int|
            0 <= j < i ==> !(is_active_in(#[trigger] rs[j], repo) && has_version(rs[j], version)
                && rs[j].owner != host),
    ensures
        decision(repo, Wanted::Explicit(version), host, rs, now) matches Decision::Refused(said)
            && inside(repo, said[0]) && inside("is already reserved by "@ + rs[i].owner, said[0]) && (
        semver(version) is Some ==> inside(age(since(now, rs[i].reserved_at)), said[0]) && said.len()
            == 2 && inside("memnir reserve "@ + repo + " --next"@, said[1])),
{
    lemma_inside();
    reveal_strlit(" is already reserved by ");
    reveal_strlit("is already reserved by ");
    reveal_strlit(" ");
    reveal_strlit("  pick another:  memnir reserve ");
    reveal_strlit("memnir reserve ");
    let key = slugged(repo);
    let o = rs[i];
    let said = "is already reserved by "@ + o.owner;
    assert(" is already reserved by "@ =~= " "@ + "is already reserved by "@);
    match semver(version) {
        Some(n) => {
            lemma_first_holder(rs, key, Goal::Number(n), host, false, i);
            let a = age(since(now, o.reserved_at));
            let line = "⚠ "@ + repo + " v"@ + dotted(n) + " is already reserved by "@ + o.owner + " ("@
                + a + ")."@;
            assert(line =~= "⚠ "@ + repo + " v"@ + dotted(n) + " "@ + said + " ("@ + a + ")."@);
            assert(inside(said, "⚠ "@ + repo + " v"@ + dotted(n) + " "@ + said + " ("@ + a + ")."@));
            assert(inside(a, line));
            assert(inside(repo, line));
            let t = "  pick another:  memnir reserve "@;
            assert(t + repo + " --next"@ =~= t.take(17) + ("memnir reserve "@ + repo + " --next"@));
        },
        None => {
            lemma_first_holder(rs, key, Goal::Name(version), host, false, i);
            let line = "⚠ "@ + repo + " "@ + version + " is already reserved by "@ + o.owner;
            assert(line =~= "⚠ "@ + repo + " "@ + version + " "@ + said);
            assert(inside(said, "⚠ "@ + repo + " "@ + version + " "@ + said));
            assert(inside(repo, line));
        },
    }
}

/// Where this machine holds a version already, it is told so.
pub proof fn own_version_is_told(
    repo: Text,
    version: Text,
    host: Text,
    rs: Seq<Reservation>,
    now: u64,
)
    ensures
        decision(repo, Wanted::Explicit(version), host, rs, now) matches Decision::Nothing(said)
            ==> semver(version) is Some && inside(repo + " v"@ + dotted(semver(version)->0), said)
            && inside("by you ("@ + host + ")"@, said),
{
    lemma_inside();
    if let Some(n) = semver(version) {
        reveal_strlit(" is already reserved by you (");
        reveal_strlit("by you (");
        reveal_strlit(") — nothing to do");
        reveal_strlit(")");
        let a = " is already reserved by you ("@;
        let z = ") — nothing to do"@;
        let p = "by you ("@ + host + ")"@;
        let said = "✓ "@ + repo + " v"@ + dotted(n) + a + host + z;
        assert(a =~= a.take(21) + "by you ("@);
        assert(z =~= ")"@ + z.skip(1));
        assert(said =~= "✓ "@ + repo + " v"@ + dotted(n) + a.take(21) + p + z.skip(1));
        assert(inside(p, "✓ "@ + repo + " v"@ + dotted(n) + a.take(21) + p + z.skip(1)));
    }
}

/// A release that is refused names the machine of the first reservation that is meant,
/// or says that there is none.
pub proof fn refused_release_names_the_holder(
    repo: Text,
    version: Text,
    host: Text,
    rs: Seq<Reservation>,
    i: int,
)
    ensures
        (forall|j: int|
            0 <= j < rs.len() ==> !(is_active_in(#[trigger] rs[j], repo) && is_of_version(
                rs[j],
                version,
            ))) ==> freeing(repo, version, host, rs) == Freeing::Refused(
            seq!["no active reservation for "@ + repo + " v"@ + version],
        ),
        0 <= i < rs.len() && is_active_in(rs[i], repo) && is_of_version(rs[i], version) && (forall|
            j: int,
        |
            0 <= j < i ==> !(is_active_in(#[trigger] rs[j], repo) && is_of_version(rs[j], version)))
            ==> (freeing(repo, version, host, rs) matches Freeing::Refused(said) ==> inside(
            "is reserved by "@ + rs[i].owner,
            said[0],
        ) && inside(host, said[0])),
{
    lemma_inside();
    let p = |r: Reservation| is_meant(r, repo, version);
    let meant = rs.filter(p);
    assert forall|r: Reservation| #[trigger] p(r) == (is_active_in(r, repo) && is_of_version(
        r,
        version,
    )) by {}
    if forall|j: int|
        0 <= j < rs.len() ==> !(is_active_in(#[trigger] rs[j], repo) && is_of_version(
            rs[j],
            version,
        )) {
        assert(meant.len() == 0) by {
            if meant.len() > 0 {
                lemma_filter_holds(rs, p, 0);
                let j = choose|j: int| 0 <= j < rs.len() && rs[j] == meant[0];
                assert(!p(rs[j]));
            }
        }
    }
    if 0 <= i < rs.len() && is_active_in(rs[i], repo) && is_of_version(rs[i], version) && (forall|
        j: int,
    |
        0 <= j < i ==> !(is_active_in(#[trigger] rs[j], repo) && is_of_version(rs[j], version))) {
        lemma_filter_first(rs, p, i);
        reveal_strlit(" is reserved by ");
        reveal_strlit("is reserved by ");
        reveal_strlit(" ");
        let o = rs[i].owner;
        let q = "is reserved by "@ + o;
        let line = "⚠ "@ + repo + " v"@ + version + " is reserved by "@ + o + " (not this machine, "@
            + host + ")."@;
        assert(" is reserved by "@ =~= " "@ + "is reserved by "@);
        assert(line =~= "⚠ "@ + repo + " v"@ + version + " "@ + q + " (not this machine, "@ + host
            + ")."@);
        assert(inside(
            q,
            "⚠ "@ + repo + " v"@ + version + " "@ + q + " (not this machine, "@ + host + ")."@,
        ));
        assert(inside(host, line));
    }
}

/// The first element that is kept is the first that fits.
proof fn lemma_filter_first<A>(s: Seq<A>, p: spec_fn(A) -> bool, i: int)
    requires
        0 <= i < s.len(),
        p(s[i]),
        forall|j: int| 0 <= j < i ==> !p(#[trigger] s[j]),
    ensures
        s.filter(p).len() > 0,
        s.filter(p)[0] == s[i],
{
    let front = s.take(i);
    let back = s.skip(i + 1);
    Seq::filter_distributes_over_add(front + seq![s[i]], back, p);
    Seq::filter_distributes_over_add(front, seq![s[i]], p);
    assert(s =~= front + seq![s[i]] + back);
    assert(front.filter(p).len() == 0) by {
        if front.filter(p).len() > 0 {
            lemma_filter_holds(front, p, 0);
        }
    }
    assert(seq![s[i]].filter(p) =~= seq![s[i]]) by {
        reveal(Seq::filter);
        assert(seq![s[i]].drop_last() =~= Seq::<A>::empty());
        assert(Seq::<A>::empty().filter(p) =~= Seq::<A>::empty());
    }
}

/// In the name of a reservation's file, blanks and slashes of the version are dashes
/// and everything else stays.
pub proof fn version_can_stand_in_a_file_name(repo: Text, version: Text, tag: Text)
    ensures
        version_slug(version).len() == version.len(),
        forall|i: int|
            0 <= i < version.len() ==> #[trigger] version_slug(version)[i] == (if version[i] == '/'
                || version[i] == ' ' || version[i] == '\\' {
                '-'
            } else {
                version[i]
            }),
        reservation_file(repo, version, tag) == "reservation_"@ + slugged(repo) + "_"@ + version_slug(
            version,
        ) + "_"@ + tag + ".md"@,
{
    reveal_strlit("/ \\");
    let from = "/ \\"@;
    assert(from[0] == '/' && from[1] == ' ' && from[2] == '\\' && from.len() == 3);
}

/// The text of a reservation, below its frontmatter, tells what is reserved by which
/// machine, what for, when, and how to release it.
pub proof fn reservation_text_tells_what_it_is(
    repo: Text,
    version: Text,
    host: Text,
    desc: Text,
    now: u64,
)
    ensures
        ({
            let t = reservation_rest(repo, version, host, desc, now);
            &&& inside(repo + " v"@ + version, t)
            &&& inside("reserved by `"@ + host, t)
            &&& inside(
                "**For:** "@ + (if desc.len() == 0 {
                    "(no description)"@
                } else {
                    desc
                }),
                t,
            )
            &&& inside("**Reserved:** "@ + decimal(now as nat), t)
            &&& inside("memnir release "@ + repo + " "@ + version, t)
        }),
{
    lemma_inside();
    reveal_strlit("** — reserved by `");
    reveal_strlit("reserved by `");
    reveal_strlit("`\n\n**For:** ");
    reveal_strlit("**For:** ");
    reveal_strlit("  \n**Reserved:** ");
    reveal_strlit("**Reserved:** ");
    reveal_strlit(" (unix epoch)  \n**Release when done:** `memnir release ");
    reveal_strlit("memnir release ");
    let a = "\n---\n🔖 **"@;
    let b = "** — reserved by `"@;
    let c = "`\n\n**For:** "@;
    let e = "  \n**Reserved:** "@;
    let g = " (unix epoch)  \n**Release when done:** `memnir release "@;
    let z = "`\n"@;
    let d = if desc.len() == 0 {
        "(no description)"@
    } else {
        desc
    };
    let n = decimal(now as nat);
    let t = a + repo + " v"@ + version + b + host + c + d + e + n + g + repo + " "@ + version + z;
    assert(t == reservation_rest(repo, version, host, desc, now));
    let b1 = b.take(5);
    let c1 = c.take(3);
    let e1 = e.take(3);
    let g1 = g.take(g.len() - 15);
    assert(b =~= b1 + "reserved by `"@);
    assert(c =~= c1 + "**For:** "@);
    assert(e =~= e1 + "**Reserved:** "@);
    assert(g =~= g1 + "memnir release "@);
    let t1 = a + repo + " v"@ + version;
    let t2 = t1 + b + host;
    assert(t2 =~= t1 + b1 + ("reserved by `"@ + host));
    assert(inside("reserved by `"@ + host, t1 + b1 + ("reserved by `"@ + host)));
    let t3 = t2 + c + d;
    assert(t3 =~= t2 + c1 + ("**For:** "@ + d));
    assert(inside("**For:** "@ + d, t2 + c1 + ("**For:** "@ + d)));
    let t4 = t3 + e + n;
    assert(t4 =~= t3 + e1 + ("**Reserved:** "@ + n));
    assert(inside("**Reserved:** "@ + n, t3 + e1 + ("**Reserved:** "@ + n)));
    let t5 = t4 + g + repo + " "@ + version;
    let how = "memnir release "@ + repo + " "@ + version;
    assert(t5 =~= t4 + g1 + how);
    assert(inside(how, t4 + g1 + how));
    assert(inside(repo + " v"@ + version, t1));
    assert(t == t5 + z);
}

} // verus!

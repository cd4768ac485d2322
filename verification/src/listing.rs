//! The list of reservations that the user sees.
use crate::naming::{slug, slugged};
use crate::number::{decimal, size};
use crate::order::{less, rank, ranked, text_less, views, Ranked};
use crate::reservation::{
    claim, collide, collisions, contested, count_resv_collisions, has_rival, is_active, Reservation,
    Resv,
};
use crate::reserve::since;
use crate::text::{chain, pad, padded, same, texts, Text};
use crate::version::{age, human_age, is_older, older, Version};
use vstd::prelude::*;

verus! {

/// Whether a reservation's version comes before another's; none comes first.
pub open spec fn version_before(a: Option<Version>, b: Option<Version>) -> bool {
    match (a, b) {
        (None, Some(_)) => true,
        (Some(x), Some(y)) => older(x, y),
        _ => false,
    }
}

/// Whether a reservation is listed before another: by repository, then version,
/// then its written form, then time.
pub open spec fn listed_before(a: Reservation, b: Reservation) -> bool {
    ||| text_less(a.repo_slug, b.repo_slug)
    ||| {
        &&& a.repo_slug == b.repo_slug
        &&& {
            ||| version_before(a.ver, b.ver)
            ||| a.ver == b.ver && (text_less(a.version, b.version) || a.version == b.version
                && a.reserved_at < b.reserved_at)
        }
    }
}

impl Ranked for Resv {
    open spec fn precedes(a: Reservation, b: Reservation) -> bool {
        listed_before(a, b)
    }

    fn is_before(&self, other: &Self) -> (r: bool) {
        if less(&self.repo_slug, &other.repo_slug) {
            return true;
        }
        if !same(&self.repo_slug, &other.repo_slug) {
            return false;
        }
        match (self.ver, other.ver) {
            (None, Some(_)) => {
                return true;
            },
            (Some(_), None) => {
                return false;
            },
            (Some(x), Some(y)) => {
                if is_older(x, y) {
                    return true;
                }
                if x.0 != y.0 || x.1 != y.1 || x.2 != y.2 {
                    return false;
                }
            },
            (None, None) => {},
        }
        less(&self.version, &other.version) || (same(&self.version, &other.version) && self.reserved_at
            < other.reserved_at)
    }
}

/// Whether a reservation is listed.
pub open spec fn is_listed(r: Reservation, repo: Option<Text>, all: bool) -> bool {
    (match repo {
        Some(n) => r.repo_slug == slugged(n),
        None => true,
    }) && (all || is_active(r))
}

/// The reservations that are listed, in order.
pub open spec fn listed(rs: Seq<Reservation>, repo: Option<Text>, all: bool) -> Seq<Reservation> {
    ranked::<Resv>(rs.filter(|r: Reservation| is_listed(r, repo, all)))
}

/// The restriction to one repository, in words.
pub open spec fn scope_words(repo: Option<Text>) -> Text {
    match repo {
        Some(n) => " for "@ + n,
        None => ""@,
    }
}

/// What is said of a reservation behind its description.
pub open spec fn flag(rs: Seq<Reservation>, r: Reservation) -> Text {
    if !is_active(r) {
        "  (released)"@
    } else if contested(rs, claim(r)) {
        "  ⚠ COLLISION"@
    } else {
        ""@
    }
}

/// The line for one reservation.
pub open spec fn row(rs: Seq<Reservation>, r: Reservation, now: u64) -> Text {
    "    v"@ + padded(r.version, 10) + " "@ + padded(r.owner, 16) + " "@ + padded(
        age(since(now, r.reserved_at)),
        10,
    ) + " "@ + (if r.desc == "(no description)"@ {
        ""@
    } else {
        r.desc
    }) + flag(rs, r)
}

/// The lines for the reservations `todo` out of `rs`, with a heading wherever
/// the repository changes from the one before, `last` before the first.
pub open spec fn rows(rs: Seq<Reservation>, todo: Seq<Reservation>, last: Text, now: u64) -> Seq<Text>
    decreases todo.len(),
{
    if todo.len() == 0 {
        Seq::empty()
    } else {
        let r = todo[0];
        let head = if r.repo != last {
            seq!["\n  "@ + r.repo]
        } else {
            Seq::empty()
        };
        head + seq![row(rs, r, now)] + rows(rs, todo.skip(1), r.repo, now)
    }
}

/// The list of reservations.
pub open spec fn reservation_list(
    all_rs: Seq<Reservation>,
    repo: Option<Text>,
    all: bool,
    now: u64,
) -> Seq<Text> {
    let rs = listed(all_rs, repo, all);
    if rs.len() == 0 {
        seq![
            "no "@ + (if all {
                ""@
            } else {
                "active "@
            }) + "reservations"@ + scope_words(repo),
        ]
    } else {
        let top = seq![
            "🔖 "@ + decimal(rs.len()) + " reservation(s)"@ + scope_words(repo) + (if all {
                ""@
            } else {
                " · active"@
            }),
        ];
        let n = collisions(rs).len();
        top + rows(rs, rs, ""@, now) + if n > 0 {
            seq![
                "\n⚠ "@ + decimal(n)
                    + " version(s) claimed by 2+ sessions — release the duplicate(s): memnir release <repo> <version>"@,
            ]
        } else {
            Seq::empty()
        }
    }
}

/// An optional name, as a model.
pub open spec fn named(repo: Option<&str>) -> Option<Text> {
    match repo {
        Some(n) => Some(n@),
        None => None,
    }
}

proof fn lemma_contested(rs: Seq<Reservation>, i: int)
    requires
        0 <= i < rs.len(),
        is_active(rs[i]),
    ensures
        contested(rs, claim(rs[i])) <==> exists|j: int| 0 <= j < rs.len() && collide(rs[i], #[trigger] rs[j]),
{
    let c = claim(rs[i]);
    if contested(rs, c) {
        let (a, b) = choose|a: int, b: int|
            {
                &&& 0 <= a < rs.len()
                &&& 0 <= b < rs.len()
                &&& #[trigger] collide(rs[a], rs[b])
                &&& claim(rs[a]) == c
            };
        if rs[a].tag != rs[i].tag {
            assert(collide(rs[i], rs[a]));
        } else {
            assert(collide(rs[i], rs[b]));
        }
    }
    if exists|j: int| 0 <= j < rs.len() && collide(rs[i], #[trigger] rs[j]) {
        let j = choose|j: int| 0 <= j < rs.len() && collide(rs[i], #[trigger] rs[j]);
        assert(collide(rs[i], rs[j]));
    }
}

/// What is said of a reservation behind its description.
fn flag_of(rs: &[Resv], i: usize) -> (r: &'static str)
    requires
        i < rs@.len(),
    ensures
        r@ == flag(views(rs@), rs@[i as int]@),
{
    let x = &rs[i];
    if !same(&x.status, "active") {
        "  (released)"
    } else {
        let rival = has_rival(rs, x);
        proof {
            assert(views(rs@)[i as int] == x@);
            lemma_contested(views(rs@), i as int);
            if rival {
                let j = choose|j: int| 0 <= j < rs@.len() && collide(x@, (#[trigger] views(rs@)[j]));
                assert(collide(views(rs@)[i as int], views(rs@)[j]));
            }
        }
        if rival {
            "  ⚠ COLLISION"
        } else {
            ""
        }
    }
}

/// The line for one reservation.
fn row_of(rs: &[Resv], i: usize, now: u64) -> (s: String)
    requires
        i < rs@.len(),
    ensures
        s@ == row(views(rs@), rs@[i as int]@, now),
{
    let r = &rs[i];
    let mut s = "    v".to_string();
    s.append(&pad(&r.version, 10));
    s.append(" ");
    s.append(&pad(&r.owner, 16));
    s.append(" ");
    let gone = if now >= r.reserved_at {
        now - r.reserved_at
    } else {
        0
    };
    s.append(&pad(&human_age(gone), 10));
    s.append(" ");
    s.append(
        if same(&r.desc, "(no description)") {
            ""
        } else {
            r.desc.as_str()
        },
    );
    s.append(flag_of(rs, i));
    s
}

/// The reservations that are listed, in order.
pub fn select(rs: Vec<Resv>, repo: Option<&str>, all: bool) -> (r: Vec<Resv>)
    ensures
        views(r@) == listed(views(rs@), named(repo), all),
{
    let key = match repo {
        Some(n) => slug(n),
        None => String::new(),
    };
    let ghost every = views(rs@);
    let ghost p = |r: Reservation| is_listed(r, named(repo), all);
    let mut rs = rs;
    let mut kept: Vec<Resv> = Vec::new();
    let ghost mut done: int = 0;
    assert(views(kept@) =~= every.take(0).filter(p)) by {
        reveal(Seq::filter);
    }
    assert(every.skip(0) =~= every);
    while rs.len() > 0
        invariant
            0 <= done <= every.len(),
            views(rs@) == every.skip(done),
            p == (|r: Reservation| is_listed(r, named(repo), all)),
            repo matches Some(n) ==> key@ == slugged(n@),
            views(kept@) == every.take(done).filter(p),
        decreases rs@.len(),
    {
        let ghost rest = views(rs@);
        let x = rs.remove(0);
        let ghost v = x@;
        assert(rest[0] == v);
        assert(views(rs@) =~= rest.skip(1));
        let ghost head = every.take(done + 1);
        let ghost before = views(kept@);
        assert(head.drop_last() =~= every.take(done));
        assert(head.last() == v);
        let here = match repo {
            Some(_) => same(&x.repo_slug, &key),
            None => true,
        };
        if here && (all || same(&x.status, "active")) {
            kept.push(x);
            assert(views(kept@) =~= before.push(v));
        }
        proof {
            reveal(Seq::filter);
            assert(views(rs@) =~= every.skip(done + 1));
            done = done + 1;
        }
    }
    assert(every.take(done) =~= every);
    rank(kept)
}

/// The list of reservations, for one repository or all, with the released ones
/// if `all`.
pub fn list_reservations(all_rs: Vec<Resv>, repo: Option<&str>, all: bool, now: u64) -> (r: Vec<String>)
    ensures
        texts(r@) == reservation_list(views(all_rs@), named(repo), all, now),
{
    let scope = match repo {
        Some(n) => chain(" for ", n),
        None => "".to_string(),
    };
    let rs = select(all_rs, repo, all);
    let ghost v = views(rs@);
    let mut out: Vec<String> = Vec::new();
    if rs.len() == 0 {
        let mut s = "no ".to_string();
        s.append(
            if all {
                ""
            } else {
                "active "
            },
        );
        s.append("reservations");
        s.append(&scope);
        out.push(s);
        assert(texts(out@) =~= seq![s@]);
        return out;
    }
    let n = count_resv_collisions(&rs);
    let mut s = "🔖 ".to_string();
    s.append(&size(rs.len()));
    s.append(" reservation(s)");
    s.append(&scope);
    s.append(
        if all {
            ""
        } else {
            " · active"
        },
    );
    out.push(s);
    let ghost top = texts(out@);
    assert(top =~= seq![s@]);
    let mut last = "".to_string();
    let mut i: usize = 0;
    assert(v.skip(0) =~= v);
    assert(top + rows(v, v, last@, now) =~= texts(out@) + rows(v, v, last@, now));
    while i < rs.len()
        invariant
            i <= rs@.len(),
            v == views(rs@),
            texts(out@) + rows(v, v.skip(i as int), last@, now) == top + rows(v, v, ""@, now),
        decreases rs@.len() - i,
    {
        let ghost rest = v.skip(i as int);
        let ghost before = texts(out@);
        assert(rest[0] == rs@[i as int]@);
        assert(rest.skip(1) =~= v.skip(i + 1));
        let ghost head = if rest[0].repo != last@ {
            seq!["\n  "@ + rest[0].repo]
        } else {
            Seq::empty()
        };
        if !same(&rs[i].repo, &last) {
            out.push(chain("\n  ", &rs[i].repo));
        }
        assert(texts(out@) =~= before + head);
        last = rs[i].repo.clone();
        let line = row_of(&rs, i, now);
        out.push(line);
        let ghost tail = rows(v, v.skip(i + 1), last@, now);
        assert(texts(out@) + tail =~= before + (head + seq![line@] + tail));
        i = i + 1;
    }
    assert(v.skip(i as int).len() == 0);
    assert(texts(out@) =~= top + rows(v, v, ""@, now));
    if n > 0 {
        let ghost before = texts(out@);
        let mut s = "\n⚠ ".to_string();
        s.append(&size(n));
        s.append(
            " version(s) claimed by 2+ sessions — release the duplicate(s): memnir release <repo> <version>",
        );
        out.push(s);
        assert(texts(out@) =~= before + seq![s@]);
    } else {
        assert(texts(out@) =~= texts(out@) + Seq::<Text>::empty());
    }
    out
}

} // verus!

//! Version reservations: reading and writing them, choosing a version, and
//! releasing one. Each reservation is a shared memory of its own, so that two
//! claims on one version stay visible.
use crate::frontmatter::{field, fm_field, frontmatter, frontmatter_of};
use crate::links::pairs;
use crate::memory::{field_or, fm_field_or, reservation_type};
use crate::naming::{slug, slugged};
use crate::number::{parse_number, parsed};
use crate::order::views;
use crate::text::{lines_of, same, Text};
use crate::version::{dotted, fmt_semver, parse_semver, semver, Bump, Version};
use vstd::prelude::*;

verus! {

/// Which version to reserve: one that is given, or the next one.
#[derive(Clone, PartialEq, Eq, Debug)]
pub enum ReserveMode {
    Explicit(String),
    Auto(Bump),
}

/// The model of `ReserveMode`.
pub enum Wanted {
    Explicit(Text),
    Auto(Bump),
}

impl View for ReserveMode {
    type V = Wanted;

    open spec fn view(&self) -> Wanted {
        match self {
            ReserveMode::Explicit(v) => Wanted::Explicit(v@),
            ReserveMode::Auto(b) => Wanted::Auto(*b),
        }
    }
}

/// A reservation as it is read from its file.
pub struct Resv {
    pub file: String,
    /// The repository's name as the user typed it.
    pub repo: String,
    /// The repository's name as it is matched.
    pub repo_slug: String,
    /// The version as it is stored.
    pub version: String,
    pub ver: Option<(u64, u64, u64)>,
    /// `active` or `released`.
    pub status: String,
    /// The machine that made it.
    pub owner: String,
    /// A short random text that makes each reservation a file of its own.
    pub tag: String,
    pub reserved_at: u64,
    pub desc: String,
}

/// The model of a reservation.
#[verifier::ext_equal]
pub struct Reservation {
    pub file: Text,
    pub repo: Text,
    pub repo_slug: Text,
    pub version: Text,
    pub ver: Option<Version>,
    pub status: Text,
    pub owner: Text,
    pub tag: Text,
    pub reserved_at: u64,
    pub desc: Text,
}

impl View for Resv {
    type V = Reservation;

    open spec fn view(&self) -> Reservation {
        Reservation {
            file: self.file@,
            repo: self.repo@,
            repo_slug: self.repo_slug@,
            version: self.version@,
            ver: self.ver,
            status: self.status@,
            owner: self.owner@,
            tag: self.tag@,
            reserved_at: self.reserved_at,
            desc: self.desc@,
        }
    }
}

/// Whether a content is a reservation.
pub open spec fn is_reservation(content: Text) -> bool {
    field(lines_of(frontmatter_of(content)), "type"@) == Some(reservation_type())
}

/// The number in a frontmatter field, zero where there is none.
pub open spec fn number_field(fm: Text, key: Text) -> u64 {
    match field(lines_of(fm), key) {
        Some(v) => match parsed(v, u64::MAX as nat) {
            Some(n) => n as u64,
            None => 0,
        },
        None => 0,
    }
}

/// The reservation in a file.
pub open spec fn reservation_of(file: Text, content: Text) -> Reservation {
    let fm = frontmatter_of(content);
    let repo = field_or(fm, "repo"@, ""@);
    let version = field_or(fm, "version"@, ""@);
    Reservation {
        file,
        repo,
        repo_slug: slugged(repo),
        version,
        ver: semver(version),
        status: field_or(fm, "status"@, "active"@),
        owner: field_or(fm, "owner"@, "?"@),
        tag: field_or(fm, "tag"@, ""@),
        reserved_at: number_field(fm, "reserved_at"@),
        desc: field_or(fm, "description"@, ""@),
    }
}

/// The reservations among some files, each given by its name and its content.
pub open spec fn reservations_in(files: Seq<(Text, Text)>) -> Seq<Reservation> {
    files.filter(|f: (Text, Text)| is_reservation(f.1)).map_values(
        |f: (Text, Text)| reservation_of(f.0, f.1),
    )
}

/// Whether a reservation still holds its version.
pub open spec fn is_active(r: Reservation) -> bool {
    r.status == "active"@
}

/// What a reservation's version is called: written out in full where it is one.
pub open spec fn label(r: Reservation) -> Text {
    match r.ver {
        Some(v) => dotted(v),
        None => r.version,
    }
}

/// What a reservation claims: a version of a repository.
pub open spec fn claim(r: Reservation) -> (Text, Text) {
    (r.repo_slug, label(r))
}

/// Whether two reservations hold the same version under different tags.
pub open spec fn collide(a: Reservation, b: Reservation) -> bool {
    is_active(a) && is_active(b) && claim(a) == claim(b) && a.tag != b.tag
}

/// Whether a claim is held twice, under different tags.
pub open spec fn contested(rs: Seq<Reservation>, c: (Text, Text)) -> bool {
    exists|i: int, j: int|
        {
            &&& 0 <= i < rs.len()
            &&& 0 <= j < rs.len()
            &&& #[trigger] collide(rs[i], rs[j])
            &&& claim(rs[i]) == c
        }
}

/// The claims that are held twice.
pub open spec fn collisions(rs: Seq<Reservation>) -> Set<(Text, Text)> {
    Set::new(|c: (Text, Text)| contested(rs, c))
}

fn read_number(fm: &str, key: &str) -> (n: u64)
    ensures
        n == number_field(fm@, key@),
{
    match fm_field(fm, key) {
        Some(v) => match parse_number(&v, u64::MAX) {
            Some(n) => n,
            None => 0,
        },
        None => 0,
    }
}

/// The reservation in a file, if it is one.
pub fn read_reservation(file: &str, content: &str) -> (r: Option<Resv>)
    ensures
        match r {
            Some(x) => is_reservation(content@) && x@ == reservation_of(file@, content@),
            None => !is_reservation(content@),
        },
{
    let fm = frontmatter(content);
    match fm_field(fm, "type") {
        Some(t) => {
            if !same(&t, "reservation") {
                return None;
            }
        },
        None => {
            return None;
        },
    }
    let repo = fm_field_or(fm, "repo", "");
    let version = fm_field_or(fm, "version", "");
    Some(
        Resv {
            file: file.to_string(),
            repo_slug: slug(&repo),
            ver: parse_semver(&version),
            repo,
            version,
            status: fm_field_or(fm, "status", "active"),
            owner: fm_field_or(fm, "owner", "?"),
            tag: fm_field_or(fm, "tag", ""),
            reserved_at: read_number(fm, "reserved_at"),
            desc: fm_field_or(fm, "description", ""),
        },
    )
}

/// The reservations among some files, each given by its name and its content.
pub fn load_reservations(files: &[(String, String)]) -> (r: Vec<Resv>)
    ensures
        views(r@) == reservations_in(pairs(files@)),
{
    let mut r: Vec<Resv> = Vec::new();
    let ghost all = pairs(files@);
    let mut i: usize = 0;
    assert(views(r@) =~= reservations_in(all.take(0))) by {
        reveal(Seq::filter);
    }
    while i < files.len()
        invariant
            i <= files@.len(),
            all == pairs(files@),
            views(r@) == reservations_in(all.take(i as int)),
        decreases files@.len() - i,
    {
        let ghost head = all.take(i + 1);
        assert(head.drop_last() =~= all.take(i as int));
        assert(head.last() == (files@[i as int].0@, files@[i as int].1@));
        let ghost done = views(r@);
        match read_reservation(&files[i].0, &files[i].1) {
            Some(x) => {
                let ghost v = x@;
                r.push(x);
                assert(views(r@) =~= done.push(v));
            },
            None => {},
        }
        proof {
            reveal(Seq::filter);
            assert(views(r@) =~= reservations_in(head));
        }
        i = i + 1;
    }
    assert(all.take(i as int) =~= all);
    r
}

/// What a reservation's version is called.
pub(crate) fn label_of(r: &Resv) -> (s: String)
    ensures
        s@ == label(r@),
{
    match r.ver {
        Some(v) => fmt_semver(v),
        None => r.version.clone(),
    }
}

/// Whether two reservations claim the same.
fn same_claim(a: &Resv, b: &Resv) -> (r: bool)
    ensures
        r == (claim(a@) == claim(b@)),
{
    same(&a.repo_slug, &b.repo_slug) && same(&label_of(a), &label_of(b))
}

/// Whether some reservation collides with `x`.
pub(crate) fn has_rival(rs: &[Resv], x: &Resv) -> (r: bool)
    ensures
        r == exists|j: int| 0 <= j < rs@.len() && collide(x@, (#[trigger] views(rs@)[j])),
{
    let mut j: usize = 0;
    while j < rs.len()
        invariant
            j <= rs@.len(),
            forall|k: int| 0 <= k < j ==> !collide(x@, (#[trigger] views(rs@)[k])),
        decreases rs@.len() - j,
    {
        let y = &rs[j];
        assert(views(rs@)[j as int] == y@);
        if same(&x.status, "active") && same(&y.status, "active") && same_claim(x, y) && !same(&x.tag, &y.tag) {
            assert(collide(x@, views(rs@)[j as int]));
            return true;
        }
        j = j + 1;
    }
    false
}

/// Whether one of the first `n` reservations is active and claims the same as `x`.
fn claimed_before(rs: &[Resv], n: usize, x: &Resv) -> (r: bool)
    requires
        n <= rs@.len(),
    ensures
        r == exists|j: int|
            0 <= j < n && is_active((#[trigger] views(rs@)[j])) && claim(views(rs@)[j]) == claim(x@),
{
    let mut j: usize = 0;
    while j < n
        invariant
            j <= n <= rs@.len(),
            forall|k: int|
                0 <= k < j ==> !(is_active((#[trigger] views(rs@)[k])) && claim(views(rs@)[k]) == claim(
                    x@,
                )),
        decreases n - j,
    {
        let y = &rs[j];
        assert(views(rs@)[j as int] == y@);
        if same(&y.status, "active") && same_claim(y, x) {
            assert(is_active(views(rs@)[j as int]));
            return true;
        }
        j = j + 1;
    }
    false
}

/// Whether a claim is held twice and some reservation among the first `n` makes it.
spec fn contested_upto(rs: Seq<Reservation>, n: int, c: (Text, Text)) -> bool {
    &&& contested(rs, c)
    &&& exists|a: int| 0 <= a < n && is_active(#[trigger] rs[a]) && claim(rs[a]) == c
}

/// How many versions are held by two or more active reservations with different
/// tags.
pub fn count_resv_collisions(rs: &[Resv]) -> (n: usize)
    ensures
        collisions(views(rs@)).finite(),
        n == collisions(views(rs@)).len(),
{
    let ghost all = views(rs@);
    let ghost mut found: Set<(Text, Text)> = Set::empty();
    let mut n: usize = 0;
    let mut i: usize = 0;
    assert forall|c: (Text, Text)| #[trigger] found.contains(c) <==> contested_upto(all, 0, c) by {}
    while i < rs.len()
        invariant
            i <= rs@.len(),
            all == views(rs@),
            found.finite(),
            found.len() == n,
            n <= i,
            forall|c: (Text, Text)| #[trigger]
                found.contains(c) <==> contested_upto(all, i as int, c),
        decreases rs@.len() - i,
    {
        let x = &rs[i];
        assert(all[i as int] == x@);
        let rival = has_rival(rs, x);
        let earlier = claimed_before(rs, i, x);
        let ghost c = claim(x@);
        proof {
            if is_active(x@) {
                assert(contested(all, c) <==> rival) by {
                    if rival {
                        let j = choose|j: int|
                            0 <= j < rs@.len() && collide(x@, (#[trigger] views(rs@)[j]));
                        assert(collide(all[i as int], all[j]));
                    }
                    if contested(all, c) {
                        let (a, b) = choose|a: int, b: int|
                            {
                                &&& 0 <= a < all.len()
                                &&& 0 <= b < all.len()
                                &&& #[trigger] collide(all[a], all[b])
                                &&& claim(all[a]) == c
                            };
                        if all[a].tag != x@.tag {
                            assert(collide(x@, views(rs@)[a]));
                        } else {
                            assert(collide(x@, views(rs@)[b]));
                        }
                    }
                }
            }
            assert forall|d: (Text, Text)| contested_upto(all, i + 1, d) <==> (contested_upto(
                all,
                i as int,
                d,
            ) || (is_active(x@) && d == c && contested(all, c))) by {
                if contested_upto(all, i + 1, d) {
                    let a = choose|a: int|
                        0 <= a < i + 1 && is_active(#[trigger] all[a]) && claim(all[a]) == d;
                    assert(a < i || a == i);
                }
                if contested_upto(all, i as int, d) {
                    let a = choose|a: int|
                        0 <= a < i && is_active(#[trigger] all[a]) && claim(all[a]) == d;
                    assert(0 <= a < i + 1 && is_active(all[a]));
                }
                if is_active(x@) && d == c && contested(all, c) {
                    assert(0 <= i < i + 1 && is_active(all[i as int]));
                }
            }
            assert(earlier ==> (contested(all, c) ==> contested_upto(all, i as int, c)));
        }
        if rival && !earlier {
            n = n + 1;
            proof {
                assert(is_active(x@));
                assert(!contested_upto(all, i as int, c));
                assert(!found.contains(c));
                found = found.insert(c);
            }
        }
        i = i + 1;
    }
    proof {
        assert forall|c: (Text, Text)| contested(all, c) implies #[trigger] found.contains(c) by {
            let (a, b) = choose|a: int, b: int|
                {
                    &&& 0 <= a < all.len()
                    &&& 0 <= b < all.len()
                    &&& #[trigger] collide(all[a], all[b])
                    &&& claim(all[a]) == c
                };
            assert(is_active(all[a]));
            assert(contested_upto(all, all.len() as int, c));
        }
        assert(found =~= collisions(all));
    }
    n
}

} // verus!

//! Reserving a version, and releasing it: what the arguments ask for, which
//! version to take, and what is written.
use crate::frontmatter::{rebuild, rebuilt, set_fm_field, updated};
use crate::memory::{short_tag, tag_of};
use crate::naming::{slug, slugged};
use crate::number::{decimal, number, size};
use crate::order::views;
use crate::reservation::{
    claim, collide, is_active, label, label_of, Reservation, ReserveMode, Resv, Wanted,
};
use crate::text::{
    begins, chain, chars_replaced, join, joined, mentions, replace_chars, same, starts_with, texts,
    trim, trimmed, Text,
};
use crate::version::{
    age, bumped, can_bump, dotted, fmt_semver, human_age, newest, newest_of, next_version,
    parse_semver, semver, Bump, Version,
};
use vstd::prelude::*;

verus! {

/// Whether an argument is an option.
pub open spec fn is_option(arg: Text) -> bool {
    begins(arg, "--"@)
}

/// The arguments that are no options.
pub open spec fn positionals(args: Seq<Text>) -> Seq<Text> {
    args.filter(|a: Text| !is_option(a))
}

/// The part of the version that the options ask to raise.
pub open spec fn asked_bump(args: Seq<Text>) -> Option<Bump> {
    if args.contains("--major"@) {
        Some(Bump::Major)
    } else if args.contains("--patch"@) {
        Some(Bump::Patch)
    } else if args.contains("--minor"@) || args.contains("--next"@) {
        Some(Bump::Minor)
    } else {
        None
    }
}

/// The index of the first argument that is a version.
pub open spec fn first_version(args: Seq<Text>) -> Option<int>
    decreases args.len(),
{
    if args.len() == 0 {
        None
    } else if semver(args[0]) is Some {
        Some(0)
    } else {
        match first_version(args.skip(1)) {
            Some(k) => Some(k + 1),
            None => None,
        }
    }
}

/// What the arguments of `reserve` ask for: repository, version and description.
/// Without an option, the first version among them is the one to take; without
/// that either, it is the next minor one.
pub open spec fn reserve_request(args: Seq<Text>) -> Option<(Text, Wanted, Text)> {
    let given = positionals(args);
    if given.len() == 0 {
        None
    } else {
        let rest = given.skip(1);
        Some(
            match (asked_bump(args), first_version(rest)) {
                (Some(b), _) => (given[0], Wanted::Auto(b), trimmed(joined(rest, " "@))),
                (None, Some(k)) => (
                    given[0],
                    Wanted::Explicit(rest[k]),
                    trimmed(joined(rest.remove(k), " "@)),
                ),
                (None, None) => (given[0], Wanted::Auto(Bump::Minor), trimmed(joined(rest, " "@))),
            },
        )
    }
}

/// The arguments that are no options.
pub fn take_positionals(args: &[String]) -> (r: Vec<String>)
    ensures
        texts(r@) == positionals(texts(args@)),
{
    let mut r: Vec<String> = Vec::new();
    let ghost all = texts(args@);
    let mut i: usize = 0;
    assert(texts(r@) =~= positionals(all.take(0))) by {
        reveal(Seq::filter);
    }
    while i < args.len()
        invariant
            i <= args@.len(),
            all == texts(args@),
            texts(r@) == positionals(all.take(i as int)),
        decreases args@.len() - i,
    {
        let ghost head = all.take(i + 1);
        assert(head.drop_last() =~= all.take(i as int));
        assert(head.last() == args@[i as int]@);
        let ghost done = texts(r@);
        if !starts_with(&args[i], "--") {
            r.push(args[i].clone());
            assert(texts(r@) =~= done.push(head.last()));
        }
        proof {
            reveal(Seq::filter);
        }
        i = i + 1;
    }
    assert(all.take(i as int) =~= all);
    r
}

pub(crate) proof fn lemma_first_version(args: Seq<Text>, k: int)
    requires
        0 <= k <= args.len(),
        forall|j: int| 0 <= j < k ==> semver(#[trigger] args[j]) is None,
        k < args.len() ==> semver(args[k]) is Some,
    ensures
        first_version(args) == (if k < args.len() {
            Some(k)
        } else {
            None
        }),
    decreases args.len(),
{
    if args.len() > 0 {
        if k > 0 {
            assert(semver(args[0]) is None);
            let t = args.skip(1);
            assert forall|j: int| 0 <= j < k - 1 implies semver(#[trigger] t[j]) is None by {
                assert(t[j] == args[j + 1]);
            }
            lemma_first_version(t, k - 1);
        }
    }
}

/// The index of the first argument that is a version.
fn find_version(args: &[String]) -> (r: Option<usize>)
    ensures
        match r {
            Some(k) => first_version(texts(args@)) == Some(k as int) && k < args@.len(),
            None => first_version(texts(args@)) is None,
        },
{
    let ghost all = texts(args@);
    let mut i: usize = 0;
    while i < args.len()
        invariant
            i <= args@.len(),
            all == texts(args@),
            forall|j: int| 0 <= j < i ==> semver(#[trigger] all[j]) is None,
        decreases args@.len() - i,
    {
        assert(all[i as int] == args@[i as int]@);
        if parse_semver(&args[i]).is_some() {
            proof {
                lemma_first_version(all, i as int);
            }
            return Some(i);
        }
        i = i + 1;
    }
    proof {
        lemma_first_version(all, i as int);
    }
    None
}

/// Reads the arguments of `reserve`: repository, which version, description.
pub fn parse_reserve_args(rest: &[String]) -> (r: Option<(String, ReserveMode, String)>)
    ensures
        match r {
            Some((repo, mode, desc)) => reserve_request(texts(rest@)) == Some((repo@, mode@, desc@)),
            None => reserve_request(texts(rest@)) is None,
        },
{
    let bump = if mentions(rest, "--major") {
        Some(Bump::Major)
    } else if mentions(rest, "--patch") {
        Some(Bump::Patch)
    } else if mentions(rest, "--minor") || mentions(rest, "--next") {
        Some(Bump::Minor)
    } else {
        None
    };
    let mut given = take_positionals(rest);
    if given.len() == 0 {
        return None;
    }
    let ghost all = texts(given@);
    let repo = given.remove(0);
    assert(texts(given@) =~= all.skip(1));
    match bump {
        Some(b) => {
            let desc = trim(&join(&given, " ")).to_string();
            Some((repo, ReserveMode::Auto(b), desc))
        },
        None => match find_version(&given) {
            Some(k) => {
                let v = given.remove(k);
                assert(texts(given@) =~= all.skip(1).remove(k as int));
                let desc = trim(&join(&given, " ")).to_string();
                Some((repo, ReserveMode::Explicit(v), desc))
            },
            None => {
                let desc = trim(&join(&given, " ")).to_string();
                Some((repo, ReserveMode::Auto(Bump::Minor), desc))
            },
        },
    }
}

/// A version, or a name that is used in place of one.
pub enum Target {
    Number(u64, u64, u64),
    Name(String),
}

/// The model of `Target`.
pub enum Goal {
    Number(Version),
    Name(Text),
}

impl View for Target {
    type V = Goal;

    open spec fn view(&self) -> Goal {
        match self {
            Target::Number(a, b, c) => Goal::Number((*a, *b, *c)),
            Target::Name(n) => Goal::Name(n@),
        }
    }
}

/// Whether a reservation is an active one of a repository.
pub open spec fn active_for(r: Reservation, repo_slug: Text) -> bool {
    is_active(r) && r.repo_slug == repo_slug
}

/// Whether a reservation holds `goal` in a repository for the machine `host`,
/// or, if not `mine`, for another one.
pub open spec fn holds(r: Reservation, repo_slug: Text, goal: Goal, host: Text, mine: bool) -> bool {
    &&& active_for(r, repo_slug)
    &&& match goal {
        Goal::Number(v) => r.ver == Some(v),
        Goal::Name(n) => r.version == n,
    }
    &&& (r.owner == host) == mine
}

/// The first reservation that holds `goal`.
pub open spec fn first_holder(
    rs: Seq<Reservation>,
    repo_slug: Text,
    goal: Goal,
    host: Text,
    mine: bool,
) -> Option<Reservation>
    decreases rs.len(),
{
    if rs.len() == 0 {
        None
    } else if holds(rs[0], repo_slug, goal, host, mine) {
        Some(rs[0])
    } else {
        first_holder(rs.skip(1), repo_slug, goal, host, mine)
    }
}

/// The versions that are held in a repository.
pub open spec fn held_versions(rs: Seq<Reservation>, repo_slug: Text) -> Seq<Version> {
    rs.filter(|r: Reservation| active_for(r, repo_slug) && r.ver is Some).map_values(
        |r: Reservation| r.ver->0,
    )
}

/// `a` less `b`, zero where `b` is greater.
pub open spec fn since(a: u64, b: u64) -> u64 {
    if a >= b {
        (a - b) as u64
    } else {
        0
    }
}

/// What comes of asking for a version.
pub enum Decision {
    /// Another machine holds it: what to tell the user.
    Refused(Seq<Text>),
    /// This machine holds it already: what to tell the user.
    Nothing(Text),
    /// The version to take.
    Take(Text),
}

/// What comes of asking for a version, as `Decision`.
pub enum Choice {
    Refused(Vec<String>),
    Nothing(String),
    Take(String),
}

impl View for Choice {
    type V = Decision;

    open spec fn view(&self) -> Decision {
        match self {
            Choice::Refused(v) => Decision::Refused(texts(v@)),
            Choice::Nothing(s) => Decision::Nothing(s@),
            Choice::Take(s) => Decision::Take(s@),
        }
    }
}

/// Which version is reserved for `host`, given the reservations that are known.
/// A version that another machine holds is refused; the next one is the newest
/// that is held, raised.
pub open spec fn decision(
    repo: Text,
    mode: Wanted,
    host: Text,
    rs: Seq<Reservation>,
    now: u64,
) -> Decision {
    let key = slugged(repo);
    match mode {
        Wanted::Explicit(v) => match semver(v) {
            Some(n) => match first_holder(rs, key, Goal::Number(n), host, false) {
                Some(o) => Decision::Refused(
                    seq![
                        "⚠ "@ + repo + " v"@ + dotted(n) + " is already reserved by "@ + o.owner
                            + " ("@ + age(since(now, o.reserved_at)) + ")."@,
                        "  pick another:  memnir reserve "@ + repo + " --next"@,
                    ],
                ),
                None => if first_holder(rs, key, Goal::Number(n), host, true) is Some {
                    Decision::Nothing(
                        "✓ "@ + repo + " v"@ + dotted(n) + " is already reserved by you ("@ + host
                            + ") — nothing to do"@,
                    )
                } else {
                    Decision::Take(dotted(n))
                },
            },
            None => match first_holder(rs, key, Goal::Name(v), host, false) {
                Some(o) => Decision::Refused(
                    seq!["⚠ "@ + repo + " "@ + v + " is already reserved by "@ + o.owner],
                ),
                None => Decision::Take(v),
            },
        },
        Wanted::Auto(b) => Decision::Take(dotted(bumped(newest(held_versions(rs, key)), b))),
    }
}

/// The index of the first reservation that holds `goal`.
fn find_holder(rs: &[Resv], repo_slug: &str, goal: &Target, host: &str, mine: bool) -> (r: Option<usize>)
    ensures
        match r {
            Some(i) => i < rs@.len() && first_holder(views(rs@), repo_slug@, goal@, host@, mine)
                == Some(rs@[i as int]@),
            None => first_holder(views(rs@), repo_slug@, goal@, host@, mine) is None,
        },
{
    let ghost all = views(rs@);
    let mut i: usize = 0;
    assert(all.skip(0) =~= all);
    while i < rs.len()
        invariant
            i <= rs@.len(),
            all == views(rs@),
            first_holder(all, repo_slug@, goal@, host@, mine) == first_holder(
                all.skip(i as int),
                repo_slug@,
                goal@,
                host@,
                mine,
            ),
        decreases rs@.len() - i,
    {
        let x = &rs[i];
        assert(all.skip(i as int)[0] == x@);
        assert(all.skip(i as int).skip(1) =~= all.skip(i + 1));
        let wanted = match goal {
            Target::Number(a, b, c) => match x.ver {
                Some(v) => v.0 == *a && v.1 == *b && v.2 == *c,
                None => false,
            },
            Target::Name(n) => same(&x.version, n),
        };
        if same(&x.status, "active") && same(&x.repo_slug, repo_slug) && wanted && same(&x.owner, host) == mine {
            return Some(i);
        }
        i = i + 1;
    }
    None
}

/// The versions that are held in a repository.
pub fn versions_held(rs: &[Resv], repo_slug: &str) -> (r: Vec<(u64, u64, u64)>)
    ensures
        r@ == held_versions(views(rs@), repo_slug@),
{
    let mut r: Vec<(u64, u64, u64)> = Vec::new();
    let ghost all = views(rs@);
    let mut i: usize = 0;
    assert(r@ =~= held_versions(all.take(0), repo_slug@)) by {
        reveal(Seq::filter);
    }
    while i < rs.len()
        invariant
            i <= rs@.len(),
            all == views(rs@),
            r@ == held_versions(all.take(i as int), repo_slug@),
        decreases rs@.len() - i,
    {
        let ghost head = all.take(i + 1);
        assert(head.drop_last() =~= all.take(i as int));
        assert(head.last() == rs@[i as int]@);
        if same(&rs[i].status, "active") && same(&rs[i].repo_slug, repo_slug) {
            match rs[i].ver {
                Some(v) => {
                    r.push(v);
                },
                None => {},
            }
        }
        proof {
            reveal(Seq::filter);
            assert(r@ =~= held_versions(head, repo_slug@));
        }
        i = i + 1;
    }
    assert(all.take(i as int) =~= all);
    r
}

/// What to tell the user where another machine holds a version.
fn refuse_version(repo: &str, v: Version, o: &Resv, now: u64) -> (r: Vec<String>)
    ensures
        texts(r@) == seq![
            "⚠ "@ + repo@ + " v"@ + dotted(v) + " is already reserved by "@ + o@.owner + " ("@ + age(
                since(now, o@.reserved_at),
            ) + ")."@,
            "  pick another:  memnir reserve "@ + repo@ + " --next"@,
        ],
{
    let mut a = "⚠ ".to_string();
    a.append(repo);
    a.append(" v");
    a.append(&fmt_semver(v));
    a.append(" is already reserved by ");
    a.append(&o.owner);
    a.append(" (");
    let gone = if now >= o.reserved_at {
        now - o.reserved_at
    } else {
        0
    };
    a.append(&human_age(gone));
    a.append(").");
    let mut b = "  pick another:  memnir reserve ".to_string();
    b.append(repo);
    b.append(" --next");
    let mut r: Vec<String> = Vec::new();
    r.push(a);
    r.push(b);
    assert(texts(r@) =~= seq![a@, b@]);
    r
}

/// Chooses the version to reserve.
pub fn choose_version(repo: &str, mode: ReserveMode, host: &str, rs: &[Resv], now: u64) -> (r: Choice)
    requires
        mode matches ReserveMode::Auto(b) ==> can_bump(
            newest(held_versions(views(rs@), slugged(repo@))),
            b,
        ),
    ensures
        r@ == decision(repo@, mode@, host@, views(rs@), now),
{
    let key = slug(repo);
    match mode {
        ReserveMode::Explicit(v) => match parse_semver(&v) {
            Some(n) => {
                let goal = Target::Number(n.0, n.1, n.2);
                assert(goal@ == Goal::Number(n));
                match find_holder(rs, &key, &goal, host, false) {
                    Some(i) => Choice::Refused(refuse_version(repo, n, &rs[i], now)),
                    None => match find_holder(rs, &key, &goal, host, true) {
                        Some(_) => {
                            let mut s = "✓ ".to_string();
                            s.append(repo);
                            s.append(" v");
                            s.append(&fmt_semver(n));
                            s.append(" is already reserved by you (");
                            s.append(host);
                            s.append(") — nothing to do");
                            Choice::Nothing(s)
                        },
                        None => Choice::Take(fmt_semver(n)),
                    },
                }
            },
            None => {
                let goal = Target::Name(v);
                match find_holder(rs, &key, &goal, host, false) {
                    Some(i) => {
                        let mut s = "⚠ ".to_string();
                        s.append(repo);
                        s.append(" ");
                        match &goal {
                            Target::Name(n) => {
                                s.append(n);
                            },
                            _ => {},
                        }
                        s.append(" is already reserved by ");
                        s.append(&rs[i].owner);
                        let mut lines: Vec<String> = Vec::new();
                        lines.push(s);
                        assert(texts(lines@) =~= seq![s@]);
                        Choice::Refused(lines)
                    },
                    None => match goal {
                        Target::Name(n) => Choice::Take(n),
                        _ => Choice::Take(String::new()),
                    },
                }
            },
        },
        ReserveMode::Auto(b) => {
            let held = versions_held(rs, &key);
            Choice::Take(fmt_semver(next_version(&held, b)))
        },
    }
}

/// A description on one line.
pub open spec fn one_liner(desc: Text) -> Text {
    trimmed(chars_replaced(desc, "\n\r"@, ' '))
}

/// A machine's name, or a stand-in where it has none.
pub open spec fn host_or_unknown(host: Text) -> Text {
    if host.len() == 0 {
        "unknown"@
    } else {
        host
    }
}

/// A version as it stands in file names.
pub open spec fn version_slug(version: Text) -> Text {
    chars_replaced(version, "/ \\"@, '-')
}

/// The file of a reservation.
pub open spec fn reservation_file(repo: Text, version: Text, tag: Text) -> Text {
    "reservation_"@ + slugged(repo) + "_"@ + version_slug(version) + "_"@ + tag + ".md"@
}

/// The description as it is written down.
pub open spec fn shown_desc(desc: Text) -> Text {
    if desc.len() == 0 {
        "(no description)"@
    } else {
        desc
    }
}

/// The frontmatter of a reservation.
pub open spec fn reservation_lines(
    repo: Text,
    version: Text,
    host: Text,
    tag: Text,
    desc: Text,
    now: u64,
) -> Seq<Text> {
    seq![
        "name: reservation-"@ + slugged(repo) + "-"@ + version_slug(version) + "-"@ + tag,
        "description: "@ + shown_desc(desc),
        "metadata:"@,
        "  type: reservation"@,
        "  scope: shared"@,
        "  repo: "@ + repo,
        "  version: "@ + version,
        "  status: active"@,
        "  owner: "@ + host,
        "  tag: "@ + tag,
        "  reserved_at: "@ + decimal(now as nat),
    ]
}

/// What follows the frontmatter of a reservation.
pub open spec fn reservation_rest(
    repo: Text,
    version: Text,
    host: Text,
    desc: Text,
    now: u64,
) -> Text {
    "\n---\n🔖 **"@ + repo + " v"@ + version + "** — reserved by `"@ + host + "`\n\n**For:** "@
        + shown_desc(desc) + "  \n**Reserved:** "@ + decimal(now as nat)
        + " (unix epoch)  \n**Release when done:** `memnir release "@ + repo + " "@ + version + "`\n"@
}

/// A reservation as it is written to its file.
pub open spec fn reservation_text(
    repo: Text,
    version: Text,
    host: Text,
    tag: Text,
    desc: Text,
    now: u64,
) -> Text {
    rebuilt(
        reservation_lines(repo, version, host, tag, desc, now),
        reservation_rest(repo, version, host, desc, now),
    )
}

/// What to tell the user once a version is reserved.
pub open spec fn reserved_lines(repo: Text, version: Text, host: Text, tag: Text, desc: Text) -> Seq<
    Text,
> {
    let first = seq![
        "🔖 reserved "@ + repo + " v"@ + version,
        "   owner "@ + host + "   tag "@ + tag,
    ];
    let last = seq!["   release when done:  memnir release "@ + repo + " "@ + version];
    if desc.len() == 0 {
        first + last
    } else {
        first + seq!["   for: "@ + desc] + last
    }
}

/// What a version is called, however it is written.
pub open spec fn version_label(version: Text) -> Text {
    match semver(version) {
        Some(v) => dotted(v),
        None => version,
    }
}

/// Whether a reservation claims the version too that `tag` just reserved.
pub open spec fn rivals(r: Reservation, repo_slug: Text, called: Text, tag: Text) -> bool {
    is_active(r) && claim(r) == (repo_slug, called) && r.tag != tag
}

/// The warning that others hold the version too, if any do.
pub open spec fn rival_warning(rs: Seq<Reservation>, repo: Text, version: Text, tag: Text) -> Option<
    Text,
> {
    let n = rs.filter(
        |r: Reservation| rivals(r, slugged(repo), version_label(version), tag),
    ).len();
    if n == 0 {
        None
    } else {
        Some(
            "⚠ heads-up: "@ + decimal(n) + " other active claim(s) on "@ + repo + " v"@ + version
                + " — run `memnir reservations "@ + repo + "` to resolve"@,
        )
    }
}

/// A description on one line.
pub fn clean_desc(desc: &str) -> (r: String)
    ensures
        r@ == one_liner(desc@),
{
    trim(&replace_chars(desc, "\n\r", ' ')).to_string()
}

/// A machine's name, or a stand-in where it has none.
pub fn known_host(host: &str) -> (r: String)
    ensures
        r@ == host_or_unknown(host@),
{
    if host.is_empty() {
        "unknown".to_string()
    } else {
        host.to_string()
    }
}

/// Why a repository cannot be reserved for, if its name has nothing to go by.
pub fn check_repo(repo: &str) -> (r: Option<String>)
    ensures
        match r {
            Some(s) => slugged(repo@).len() == 0 && s@ == "memnir: repo name has no usable characters"@,
            None => slugged(repo@).len() > 0,
        },
{
    if slug(repo).as_str().is_empty() {
        Some("memnir: repo name has no usable characters".to_string())
    } else {
        None
    }
}

/// The name of a reservation's file.
pub fn name_file(repo: &str, version: &str, tag: &str) -> (r: String)
    ensures
        r@ == reservation_file(repo@, version@, tag@),
{
    let mut s = "reservation_".to_string();
    s.append(&slug(repo));
    s.append("_");
    s.append(&replace_chars(version, "/ \\", '-'));
    s.append("_");
    s.append(tag);
    s.append(".md");
    s
}

/// The description as it is written down.
fn show_desc(desc: &str) -> (r: String)
    ensures
        r@ == shown_desc(desc@),
{
    if desc.is_empty() {
        "(no description)".to_string()
    } else {
        desc.to_string()
    }
}

/// A reservation as it is written to its file.
pub fn write_reservation(repo: &str, version: &str, host: &str, tag: &str, desc: &str, now: u64) -> (r: String)
    ensures
        r@ == reservation_text(repo@, version@, host@, tag@, desc@, now),
{
    let shown = show_desc(desc);
    let stamp = number(now);
    let mut name = "name: reservation-".to_string();
    name.append(&slug(repo));
    name.append("-");
    name.append(&replace_chars(version, "/ \\", '-'));
    name.append("-");
    name.append(tag);
    let mut ls: Vec<String> = Vec::new();
    ls.push(name);
    ls.push(chain("description: ", &shown));
    ls.push("metadata:".to_string());
    ls.push("  type: reservation".to_string());
    ls.push("  scope: shared".to_string());
    ls.push(chain("  repo: ", repo));
    ls.push(chain("  version: ", version));
    ls.push("  status: active".to_string());
    ls.push(chain("  owner: ", host));
    ls.push(chain("  tag: ", tag));
    ls.push(chain("  reserved_at: ", &stamp));
    assert(texts(ls@) =~= reservation_lines(repo@, version@, host@, tag@, desc@, now));
    let mut rest = "\n---\n🔖 **".to_string();
    rest.append(repo);
    rest.append(" v");
    rest.append(version);
    rest.append("** — reserved by `");
    rest.append(host);
    rest.append("`\n\n**For:** ");
    rest.append(&shown);
    rest.append("  \n**Reserved:** ");
    rest.append(&stamp);
    rest.append(" (unix epoch)  \n**Release when done:** `memnir release ");
    rest.append(repo);
    rest.append(" ");
    rest.append(version);
    rest.append("`\n");
    rebuild(&ls, &rest)
}

/// What to tell the user once a version is reserved.
pub fn report_reserved(repo: &str, version: &str, host: &str, tag: &str, desc: &str) -> (r: Vec<String>)
    ensures
        texts(r@) == reserved_lines(repo@, version@, host@, tag@, desc@),
{
    let mut a = "🔖 reserved ".to_string();
    a.append(repo);
    a.append(" v");
    a.append(version);
    let mut b = "   owner ".to_string();
    b.append(host);
    b.append("   tag ");
    b.append(tag);
    let mut c = "   release when done:  memnir release ".to_string();
    c.append(repo);
    c.append(" ");
    c.append(version);
    let mut r: Vec<String> = Vec::new();
    r.push(a);
    r.push(b);
    if !desc.is_empty() {
        r.push(chain("   for: ", desc));
    }
    r.push(c);
    assert(texts(r@) =~= reserved_lines(repo@, version@, host@, tag@, desc@));
    r
}

/// Whether two optional versions are the same.
fn same_version(a: Option<Version>, b: Option<Version>) -> (r: bool)
    ensures
        r == (a == b),
{
    match (a, b) {
        (Some(x), Some(y)) => x.0 == y.0 && x.1 == y.1 && x.2 == y.2,
        (None, None) => true,
        _ => false,
    }
}

/// Warns where others hold the version too that was just reserved.
pub fn warn_rivals(rs: &[Resv], repo: &str, version: &str, tag: &str) -> (r: Option<String>)
    ensures
        match r {
            Some(s) => rival_warning(views(rs@), repo@, version@, tag@) == Some(s@),
            None => rival_warning(views(rs@), repo@, version@, tag@) is None,
        },
{
    let key = slug(repo);
    let called = match parse_semver(version) {
        Some(v) => fmt_semver(v),
        None => version.to_string(),
    };
    let ghost all = views(rs@);
    let ghost p = |r: Reservation| rivals(r, slugged(repo@), version_label(version@), tag@);
    let mut n: usize = 0;
    let mut i: usize = 0;
    assert(all.take(0).filter(p).len() == 0) by {
        reveal(Seq::filter);
    }
    while i < rs.len()
        invariant
            i <= rs@.len(),
            all == views(rs@),
            key@ == slugged(repo@),
            called@ == version_label(version@),
            p == (|r: Reservation| rivals(r, slugged(repo@), version_label(version@), tag@)),
            n == all.take(i as int).filter(p).len(),
            n <= i,
        decreases rs@.len() - i,
    {
        let x = &rs[i];
        let ghost head = all.take(i + 1);
        assert(head.drop_last() =~= all.take(i as int));
        assert(head.last() == x@);
        proof {
            reveal(Seq::filter);
        }
        if same(&x.status, "active") && same(&x.repo_slug, &key) && same(&label_of(x), &called) && !same(
            &x.tag,
            tag,
        ) {
            n = n + 1;
        }
        i = i + 1;
    }
    assert(all.take(i as int) =~= all);
    if n == 0 {
        return None;
    }
    let mut s = "⚠ heads-up: ".to_string();
    s.append(&size(n));
    s.append(" other active claim(s) on ");
    s.append(repo);
    s.append(" v");
    s.append(version);
    s.append(" — run `memnir reservations ");
    s.append(repo);
    s.append("` to resolve");
    Some(s)
}

/// The claims that are warned of are those that collide with the reservation.
pub proof fn rivals_are_those_that_collide(x: Reservation, r: Reservation)
    requires
        is_active(x),
    ensures
        rivals(r, x.repo_slug, label(x), x.tag) == collide(x, r),
{
}

/// What comes of a request to reserve.
pub enum ReservePlan {
    /// Another machine holds the version: what to tell the user.
    Refused(Vec<String>),
    /// This machine holds it already: what to tell the user.
    Nothing(String),
    Write(NewReservation),
}

/// A reservation to be written.
pub struct NewReservation {
    pub version: String,
    pub tag: String,
    /// The name of its file.
    pub file: String,
    pub text: String,
    /// What to tell the user once it is written.
    pub said: Vec<String>,
}

impl NewReservation {
    /// Whether this is the reservation of `version` with the given values.
    pub open spec fn records(
        &self,
        repo: Text,
        version: Text,
        host: Text,
        tag: Text,
        desc: Text,
        now: u64,
    ) -> bool {
        &&& self.version@ == version
        &&& self.tag@ == tag
        &&& self.file@ == reservation_file(repo, version, tag)
        &&& self.text@ == reservation_text(repo, version, host, tag, desc, now)
        &&& texts(self.said@) == reserved_lines(repo, version, host, tag, desc)
    }
}

/// Plans a reservation: which version it is, or why there is none, and what is
/// written. `token` is random; its beginning is the reservation's tag.
pub fn plan_reservation(
    repo: &str,
    mode: ReserveMode,
    desc: &str,
    host: &str,
    rs: &[Resv],
    token: &str,
    now: u64,
) -> (r: ReservePlan)
    requires
        mode matches ReserveMode::Auto(b) ==> can_bump(
            newest(held_versions(views(rs@), slugged(repo@))),
            b,
        ),
    ensures
        ({
            let h = host_or_unknown(host@);
            match r {
                ReservePlan::Refused(v) => decision(repo@, mode@, h, views(rs@), now)
                    == Decision::Refused(texts(v@)),
                ReservePlan::Nothing(s) => decision(repo@, mode@, h, views(rs@), now)
                    == Decision::Nothing(s@),
                ReservePlan::Write(w) => {
                    &&& decision(repo@, mode@, h, views(rs@), now) == Decision::Take(w.version@)
                    &&& w.records(
                        repo@,
                        w.version@,
                        h,
                        tag_of(token@),
                        one_liner(desc@),
                        now,
                    )
                },
            }
        }),
{
    let host = known_host(host);
    let desc = clean_desc(desc);
    match choose_version(repo, mode, &host, rs, now) {
        Choice::Refused(v) => ReservePlan::Refused(v),
        Choice::Nothing(s) => ReservePlan::Nothing(s),
        Choice::Take(version) => {
            let tag = short_tag(token);
            let file = name_file(repo, &version, &tag);
            let text = write_reservation(repo, &version, &host, &tag, &desc, now);
            let said = report_reserved(repo, &version, &host, &tag, &desc);
            ReservePlan::Write(NewReservation { version, tag, file, text, said })
        },
    }
}

/// Whether the version that a reservation asks for can be counted up to.
pub fn can_reserve(repo: &str, mode: &ReserveMode, rs: &[Resv]) -> (r: bool)
    ensures
        r == (mode matches ReserveMode::Auto(b) ==> can_bump(
            newest(held_versions(views(rs@), slugged(repo@))),
            *b,
        )),
{
    match mode {
        ReserveMode::Explicit(_) => true,
        ReserveMode::Auto(b) => {
            let v = newest_of(&versions_held(rs, &slug(repo)));
            match b {
                Bump::Major => v.0 < u64::MAX,
                Bump::Minor => v.1 < u64::MAX,
                Bump::Patch => v.2 < u64::MAX,
            }
        },
    }
}

/// Whether a reservation is one that `release` means.
pub open spec fn is_meant(r: Reservation, repo: Text, version: Text) -> bool {
    active_for(r, slugged(repo)) && (semver(version) is Some && r.ver == semver(version) || r.version
        == version)
}

/// What comes of asking to release a version.
pub enum Freeing {
    /// It is not held here: what to tell the user.
    Refused(Seq<Text>),
    /// The files of the reservations to release.
    Release(Seq<Text>),
}

/// What comes of asking to release a version, as `Freeing`.
pub enum ReleasePlan {
    Refused(Vec<String>),
    Release(Vec<String>),
}

impl View for ReleasePlan {
    type V = Freeing;

    open spec fn view(&self) -> Freeing {
        match self {
            ReleasePlan::Refused(v) => Freeing::Refused(texts(v@)),
            ReleasePlan::Release(v) => Freeing::Release(texts(v@)),
        }
    }
}

/// The files of the reservations that `host` may release.
pub open spec fn own_files(rs: Seq<Reservation>, repo: Text, version: Text, host: Text) -> Seq<Text> {
    rs.filter(|r: Reservation| is_meant(r, repo, version)).filter(
        |r: Reservation| r.owner == host,
    ).map_values(|r: Reservation| r.file)
}

/// What is released: only what this machine itself reserved.
pub open spec fn freeing(repo: Text, version: Text, host: Text, rs: Seq<Reservation>) -> Freeing {
    let meant = rs.filter(|r: Reservation| is_meant(r, repo, version));
    let own = own_files(rs, repo, version, host);
    if meant.len() == 0 {
        Freeing::Refused(seq!["no active reservation for "@ + repo + " v"@ + version])
    } else if own.len() == 0 {
        Freeing::Refused(
            seq![
                "⚠ "@ + repo + " v"@ + version + " is reserved by "@ + meant[0].owner
                    + " (not this machine, "@ + host + ")."@,
                "  release it from the owning machine, or delete the file manually if it's stale."@,
            ],
        )
    } else {
        Freeing::Release(own)
    }
}

/// Plans the release of a version.
pub fn plan_release(repo: &str, version: &str, host: &str, rs: &[Resv]) -> (r: ReleasePlan)
    ensures
        r@ == freeing(repo@, version@, host@, views(rs@)),
{
    let key = slug(repo);
    let want = parse_semver(version);
    let ghost all = views(rs@);
    let ghost p = |r: Reservation| is_meant(r, repo@, version@);
    let ghost q = |r: Reservation| r.owner == host@;
    let mut own: Vec<String> = Vec::new();
    let mut first: Option<usize> = None;
    let mut i: usize = 0;
    assert(all.take(0).filter(p).len() == 0 && texts(own@) =~= own_files(
        all.take(0),
        repo@,
        version@,
        host@,
    )) by {
        reveal(Seq::filter);
    }
    while i < rs.len()
        invariant
            i <= rs@.len(),
            all == views(rs@),
            key@ == slugged(repo@),
            want == semver(version@),
            p == (|r: Reservation| is_meant(r, repo@, version@)),
            q == (|r: Reservation| r.owner == host@),
            texts(own@) == own_files(all.take(i as int), repo@, version@, host@),
            match first {
                Some(f) => f < rs@.len() && all.take(i as int).filter(p).len() > 0 && all.take(
                    i as int,
                ).filter(p)[0] == rs@[f as int]@,
                None => all.take(i as int).filter(p).len() == 0,
            },
        decreases rs@.len() - i,
    {
        let x = &rs[i];
        let ghost head = all.take(i + 1);
        assert(head.drop_last() =~= all.take(i as int));
        assert(head.last() == x@);
        let ghost before = all.take(i as int).filter(p);
        let ghost done = texts(own@);
        proof {
            reveal(Seq::filter);
            if p(x@) {
                assert(head.filter(p) == before.push(x@));
                assert(before.push(x@).drop_last() =~= before);
                assert(head.filter(p).filter(q) == (if q(x@) {
                    before.filter(q).push(x@)
                } else {
                    before.filter(q)
                }));
            } else {
                assert(head.filter(p) == before);
            }
        }
        let meant = same(&x.status, "active") && same(&x.repo_slug, &key) && ((want.is_some() && same_version(
            x.ver,
            want,
        )) || same(&x.version, version));
        assert(meant == p(x@));
        if meant {
            if first.is_none() {
                first = Some(i);
            }
            if same(&x.owner, host) {
                own.push(x.file.clone());
                assert(texts(own@) =~= done.push(x@.file));
            }
        }
        assert(texts(own@) =~= own_files(head, repo@, version@, host@));
        i = i + 1;
    }
    assert(all.take(i as int) =~= all);
    match first {
        None => {
            let mut s = "no active reservation for ".to_string();
            s.append(repo);
            s.append(" v");
            s.append(version);
            let mut lines: Vec<String> = Vec::new();
            lines.push(s);
            assert(texts(lines@) =~= seq![s@]);
            ReleasePlan::Refused(lines)
        },
        Some(f) => {
            if own.len() > 0 {
                return ReleasePlan::Release(own);
            }
            let mut s = "⚠ ".to_string();
            s.append(repo);
            s.append(" v");
            s.append(version);
            s.append(" is reserved by ");
            s.append(&rs[f].owner);
            s.append(" (not this machine, ");
            s.append(host);
            s.append(").");
            let t =
                "  release it from the owning machine, or delete the file manually if it's stale.".to_string();
            let mut lines: Vec<String> = Vec::new();
            lines.push(s);
            lines.push(t);
            assert(texts(lines@) =~= seq![s@, t@]);
            ReleasePlan::Refused(lines)
        },
    }
}

/// `content` with a frontmatter field set, or as it is where it has no
/// frontmatter.
pub open spec fn with_field(content: Text, key: Text, value: Text) -> Text {
    match updated(content, key, value) {
        Some(c) => c,
        None => content,
    }
}

/// A reservation that was released.
pub open spec fn released(content: Text, now: u64) -> Text {
    with_field(
        with_field(content, "status"@, "released"@),
        "released_at"@,
        decimal(now as nat),
    )
}

fn set_field(content: String, key: &str, value: &str) -> (r: String)
    ensures
        r@ == with_field(content@, key@, value@),
{
    match set_fm_field(&content, key, value) {
        Some(c) => c,
        None => content,
    }
}

/// Marks a reservation as released.
pub fn release(content: String, now: u64) -> (r: String)
    ensures
        r@ == released(content@, now),
{
    let c = set_field(content, "status", "released");
    set_field(c, "released_at", &number(now))
}

/// What to tell the user once reservations are released.
pub fn report_released(repo: &str, version: &str, n: usize) -> (r: String)
    ensures
        r@ == "✓ released "@ + repo@ + " v"@ + version@ + "  ("@ + decimal(n as nat) + " reservation"@ + (
        if n == 1 {
            ""@
        } else {
            "s"@
        }) + ")"@,
{
    let mut s = "✓ released ".to_string();
    s.append(repo);
    s.append(" v");
    s.append(version);
    s.append("  (");
    s.append(&size(n));
    s.append(" reservation");
    s.append(
        if n == 1 {
            ""
        } else {
            "s"
        },
    );
    s.append(")");
    s
}

} // verus!

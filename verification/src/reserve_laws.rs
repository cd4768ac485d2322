//! What reserving and releasing are for: which version is asked for, who gets it,
//! what is freed, and when two claims collide.
use crate::analysis::lemma_filter_holds;
use crate::listing::{flag, is_listed, listed, listed_before};
use crate::naming::slugged;
use crate::number::decimal;
use crate::order::{ranked, text_less};
use crate::order_laws::reservations_are_listed_in_order;
use crate::repair_laws::lemma_filter_keeps;
use crate::reservation::{claim, collide, collisions, contested, Reservation, Resv, Wanted};
use crate::reservation_laws::{
    lemma_held_version, lemma_no_holder, no_collision_without_double_claim,
};
use crate::reserve::{
    active_for, decision, first_version, freeing, held_versions, holds, is_meant, is_option,
    lemma_first_version, own_files, positionals, reserve_request, rival_warning, rivals,
    version_label, Decision, Freeing, Goal,
};
use crate::text::{begins, joined, trimmed, Text};
use crate::version::{
    bumped, can_bump, dotted, newest, older, semver, semver_reads_back, Bump, Version,
};
use crate::version_laws::{is_round, newest_is_one_of_them, raised_is_the_next_round_one};
use vstd::prelude::*;

verus! {

/// Whether an argument begins with two dashes.
pub open spec fn is_flag(a: Text) -> bool {
    a.len() >= 2 && a[0] == '-' && a[1] == '-'
}

proof fn lemma_flag(a: Text)
    ensures
        is_option(a) == is_flag(a),
{
    reveal_strlit("--");
    if is_flag(a) {
        assert(a.take(2) =~= "--"@);
    }
    if is_option(a) {
        assert(a.take(2)[0] == a[0] && a.take(2)[1] == a[1]);
    }
}

/// Conditions that agree on every element select the same.
pub(crate) proof fn lemma_filter_same<A>(s: Seq<A>, p: spec_fn(A) -> bool, q: spec_fn(A) -> bool)
    requires
        forall|i: int| 0 <= i < s.len() ==> p(#[trigger] s[i]) == q(s[i]),
    ensures
        s.filter(p) == s.filter(q),
    decreases s.len(),
{
    reveal(Seq::filter);
    if s.len() > 0 {
        let head = s.drop_last();
        assert forall|i: int| 0 <= i < head.len() implies p(#[trigger] head[i]) == q(head[i]) by {
            assert(head[i] == s[i]);
        }
        lemma_filter_same(head, p, q);
        assert(p(s[s.len() - 1]) == q(s[s.len() - 1]));
    }
}

/// A condition that holds of every element selects all, one that holds of none
/// nothing.
pub(crate) proof fn lemma_filter_all<A>(s: Seq<A>, p: spec_fn(A) -> bool)
    ensures
        (forall|i: int| 0 <= i < s.len() ==> p(#[trigger] s[i])) ==> s.filter(p) == s,
        (forall|i: int| 0 <= i < s.len() ==> !p(#[trigger] s[i])) ==> s.filter(p) == Seq::<
            A,
        >::empty(),
    decreases s.len(),
{
    reveal(Seq::filter);
    if s.len() > 0 {
        let head = s.drop_last();
        lemma_filter_all(head, p);
        if forall|i: int| 0 <= i < s.len() ==> p(#[trigger] s[i]) {
            assert forall|i: int| 0 <= i < head.len() implies p(#[trigger] head[i]) by {
                assert(head[i] == s[i]);
            }
            assert(p(s[s.len() - 1]));
            assert(head.push(s.last()) =~= s);
        }
        if forall|i: int| 0 <= i < s.len() ==> !p(#[trigger] s[i]) {
            assert forall|i: int| 0 <= i < head.len() implies !p(#[trigger] head[i]) by {
                assert(head[i] == s[i]);
            }
            assert(!p(s[s.len() - 1]));
        }
    } else {
        assert(s.filter(p) =~= s);
        assert(s =~= Seq::<A>::empty());
    }
}

/// Whether some argument is no option.
pub open spec fn has_word(args: Seq<Text>) -> bool {
    exists|i: int| 0 <= i < args.len() && !is_flag(#[trigger] args[i])
}

proof fn lemma_has_word(args: Seq<Text>)
    ensures
        positionals(args).len() > 0 <==> has_word(args),
{
    let p = |a: Text| !is_option(a);
    if has_word(args) {
        let i = choose|i: int| 0 <= i < args.len() && !is_flag(#[trigger] args[i]);
        lemma_flag(args[i]);
        lemma_filter_keeps(args, p, args[i]);
    }
    if positionals(args).len() > 0 {
        lemma_filter_holds(args, p, 0);
        let i = choose|i: int| 0 <= i < args.len() && args[i] == positionals(args)[0];
        lemma_flag(args[i]);
    }
}

/// Nothing is reserved without a repository; with one there always is a request.
pub proof fn request_needs_a_repository(args: Seq<Text>)
    ensures
        reserve_request(args) is Some <==> has_word(args),
{
    lemma_has_word(args);
}

/// `--major` asks for the next major version, whatever else is there.
pub proof fn major_asks_for_the_next_major(args: Seq<Text>)
    requires
        has_word(args),
        args.contains("--major"@),
    ensures
        reserve_request(args) is Some,
        (reserve_request(args)->0).1 == Wanted::Auto(Bump::Major),
{
    lemma_has_word(args);
}

/// `--patch` asks for the next patch version, unless `--major` is there.
pub proof fn patch_asks_for_the_next_patch(args: Seq<Text>)
    requires
        has_word(args),
        args.contains("--patch"@),
        !args.contains("--major"@),
    ensures
        reserve_request(args) is Some,
        (reserve_request(args)->0).1 == Wanted::Auto(Bump::Patch),
{
    lemma_has_word(args);
}

/// `--minor` and `--next` both ask for the next minor version, unless another part
/// is named.
pub proof fn minor_and_next_ask_for_the_next_minor(args: Seq<Text>)
    requires
        has_word(args),
        args.contains("--minor"@) || args.contains("--next"@),
        !args.contains("--major"@),
        !args.contains("--patch"@),
    ensures
        reserve_request(args) is Some,
        (reserve_request(args)->0).1 == Wanted::Auto(Bump::Minor),
{
    lemma_has_word(args);
}

/// Where no option asks for a part, a version among the words behind the repository is
/// asked for, and without one the next minor version.
pub proof fn without_options_the_words_decide(args: Seq<Text>)
    requires
        has_word(args),
        !args.contains("--major"@),
        !args.contains("--patch"@),
        !args.contains("--minor"@),
        !args.contains("--next"@),
    ensures
        reserve_request(args) is Some,
        (reserve_request(args)->0).1 matches Wanted::Explicit(v) ==> semver(v) is Some
            && args.contains(v) && !is_flag(v),
        (reserve_request(args)->0).1 matches Wanted::Auto(b) ==> b == Bump::Minor,
{
    lemma_has_word(args);
    let p = |a: Text| !is_option(a);
    let given = positionals(args);
    let rest = given.skip(1);
    lemma_first_of(rest);
    if let Some(k) = first_version(rest) {
        assert(rest[k] == given[k + 1]);
        lemma_filter_holds(args, p, k + 1);
        lemma_flag(rest[k]);
    }
}

proof fn lemma_first_of(ws: Seq<Text>)
    ensures
        match first_version(ws) {
            Some(k) => {
                &&& 0 <= k < ws.len()
                &&& semver(ws[k]) is Some
                &&& forall|j: int| 0 <= j < k ==> semver(#[trigger] ws[j]) is None
            },
            None => forall|j: int| 0 <= j < ws.len() ==> semver(#[trigger] ws[j]) is None,
        },
    decreases ws.len(),
{
    if ws.len() > 0 && semver(ws[0]) is None {
        let more = ws.skip(1);
        lemma_first_of(more);
        match first_version(more) {
            Some(k) => {
                assert forall|j: int| 0 <= j < k + 1 implies semver(#[trigger] ws[j]) is None by {
                    if j > 0 {
                        assert(more[j - 1] == ws[j]);
                    }
                }
            },
            None => {
                assert forall|j: int| 0 <= j < ws.len() implies semver(#[trigger] ws[j]) is None by {
                    if j > 0 {
                        assert(more[j - 1] == ws[j]);
                    }
                }
            },
        }
    }
}

/// `--minor` and `--next` can stand for each other.
pub proof fn next_is_minor(args: Seq<Text>, i: int)
    requires
        0 <= i < args.len(),
        args[i] == "--minor"@,
    ensures
        reserve_request(args) == reserve_request(args.update(i, "--next"@)),
{
    reveal_strlit("--minor");
    reveal_strlit("--next");
    reveal_strlit("--major");
    reveal_strlit("--patch");
    let other = args.update(i, "--next"@);
    let p = |a: Text| !is_option(a);
    let a = args.take(i);
    let b = args.skip(i + 1);
    lemma_flag("--minor"@);
    lemma_flag("--next"@);
    lemma_drop_option(a, "--minor"@, b);
    lemma_drop_option(a, "--next"@, b);
    assert(args =~= a + seq!["--minor"@] + b);
    assert(other =~= a + seq!["--next"@] + b);
    assert(args.contains(args[i]));
    assert(other[i] == "--next"@);
    assert("--major"@ != "--minor"@ && "--major"@ != "--next"@) by {
        assert("--major"@[3] == 'a');
    }
    assert("--patch"@ != "--minor"@ && "--patch"@ != "--next"@) by {
        assert("--patch"@[2] == 'p');
    }
    lemma_contains_update(args, i, "--next"@, "--major"@);
    lemma_contains_update(args, i, "--next"@, "--patch"@);
}

proof fn lemma_contains_update(s: Seq<Text>, i: int, x: Text, y: Text)
    requires
        0 <= i < s.len(),
        s[i] != y,
        x != y,
    ensures
        s.contains(y) == s.update(i, x).contains(y),
{
    let t = s.update(i, x);
    if s.contains(y) {
        let k = choose|k: int| 0 <= k < s.len() && s[k] == y;
        assert(t[k] == y);
    }
    if t.contains(y) {
        let k = choose|k: int| 0 <= k < t.len() && t[k] == y;
        assert(s[k] == y);
    }
}

proof fn lemma_drop_option(a: Seq<Text>, x: Text, b: Seq<Text>)
    requires
        is_option(x),
    ensures
        positionals(a + seq![x] + b) == positionals(a + b),
{
    let p = |a: Text| !is_option(a);
    Seq::filter_distributes_over_add(a + seq![x], b, p);
    Seq::filter_distributes_over_add(a, seq![x], p);
    Seq::filter_distributes_over_add(a, b, p);
    lemma_filter_all(seq![x], p);
    assert(forall|i: int| 0 <= i < seq![x].len() ==> !p(#[trigger] seq![x][i]));
    assert(a.filter(p) + Seq::<Text>::empty() =~= a.filter(p));
}

/// An option that asks for nothing makes no difference, wherever it stands.
pub proof fn other_options_do_not_count(a: Seq<Text>, x: Text, b: Seq<Text>)
    requires
        is_flag(x),
        x != "--major"@,
        x != "--patch"@,
        x != "--minor"@,
        x != "--next"@,
    ensures
        reserve_request(a + seq![x] + b) == reserve_request(a + b),
{
    lemma_flag(x);
    lemma_drop_option(a, x, b);
    lemma_contains_without(a, x, b, "--major"@);
    lemma_contains_without(a, x, b, "--patch"@);
    lemma_contains_without(a, x, b, "--minor"@);
    lemma_contains_without(a, x, b, "--next"@);
}

proof fn lemma_contains_without(a: Seq<Text>, x: Text, b: Seq<Text>, y: Text)
    requires
        x != y,
    ensures
        (a + seq![x] + b).contains(y) == (a + b).contains(y),
{
    let s = a + seq![x] + b;
    let t = a + b;
    if s.contains(y) {
        let k = choose|k: int| 0 <= k < s.len() && s[k] == y;
        if k < a.len() {
            assert(t[k] == y);
        } else {
            assert(t[k - 1] == y);
        }
    }
    if t.contains(y) {
        let k = choose|k: int| 0 <= k < t.len() && t[k] == y;
        if k < a.len() {
            assert(s[k] == y);
        } else {
            assert(s[k + 1] == y);
        }
    }
}

/// Whether every word is no option.
pub open spec fn are_words(ws: Seq<Text>) -> bool {
    forall|i: int| 0 <= i < ws.len() ==> !is_flag(#[trigger] ws[i])
}

proof fn lemma_words(ws: Seq<Text>)
    requires
        are_words(ws),
    ensures
        positionals(ws) == ws,
        !ws.contains("--major"@),
        !ws.contains("--patch"@),
        !ws.contains("--minor"@),
        !ws.contains("--next"@),
{
    reveal_strlit("--minor");
    reveal_strlit("--next");
    reveal_strlit("--major");
    reveal_strlit("--patch");
    let p = |a: Text| !is_option(a);
    assert forall|i: int| 0 <= i < ws.len() implies p(#[trigger] ws[i]) by {
        lemma_flag(ws[i]);
    }
    lemma_filter_all(ws, p);
    assert forall|x: Text| is_flag(x) implies !#[trigger] ws.contains(x) by {
        if ws.contains(x) {
            let k = choose|k: int| 0 <= k < ws.len() && ws[k] == x;
            assert(!is_flag(ws[k]));
        }
    }
    assert(is_flag("--major"@) && is_flag("--patch"@) && is_flag("--minor"@) && is_flag("--next"@));
}

/// The first word is the repository, the first version behind it is asked for, and
/// the other words are the description.
pub proof fn given_version_is_asked_for(
    repo: Text,
    before: Seq<Text>,
    version: Text,
    after: Seq<Text>,
)
    requires
        !is_flag(repo),
        are_words(before),
        !is_flag(version),
        are_words(after),
        forall|i: int| 0 <= i < before.len() ==> semver(#[trigger] before[i]) is None,
        semver(version) is Some,
    ensures
        reserve_request(seq![repo] + before + seq![version] + after) == Some(
            (repo, Wanted::Explicit(version), trimmed(joined(before + after, " "@))),
        ),
{
    let rest = before + seq![version] + after;
    lemma_words_around(before, version, after);
    lemma_given(before, version, after);
    lemma_plain(repo, rest);
    assert(seq![repo] + before + seq![version] + after =~= seq![repo] + rest);
}

proof fn lemma_words_around(before: Seq<Text>, version: Text, after: Seq<Text>)
    requires
        are_words(before),
        !is_flag(version),
        are_words(after),
    ensures
        are_words(before + seq![version] + after),
{
    let rest = before + seq![version] + after;
    let k = before.len() as int;
    assert forall|j: int| 0 <= j < rest.len() implies !is_flag(#[trigger] rest[j]) by {
        if j < k {
            assert(rest[j] == before[j]);
        } else if j > k {
            assert(rest[j] == after[j - k - 1]);
        }
    }
}

/// What words ask for without options.
proof fn lemma_plain(repo: Text, rest: Seq<Text>)
    requires
        !is_flag(repo),
        are_words(rest),
    ensures
        reserve_request(seq![repo] + rest) == Some(
            match first_version(rest) {
                Some(k) => (
                    repo,
                    Wanted::Explicit(rest[k]),
                    trimmed(joined(rest.remove(k), " "@)),
                ),
                None => (repo, Wanted::Auto(Bump::Minor), trimmed(joined(rest, " "@))),
            },
        ),
{
    let args = seq![repo] + rest;
    assert forall|i: int| 0 <= i < args.len() implies !is_flag(#[trigger] args[i]) by {
        if i > 0 {
            assert(args[i] == rest[i - 1]);
        }
    }
    lemma_words(args);
    assert(args[0] == repo);
    assert(args.skip(1) =~= rest);
}

proof fn lemma_given(before: Seq<Text>, version: Text, after: Seq<Text>)
    requires
        forall|i: int| 0 <= i < before.len() ==> semver(#[trigger] before[i]) is None,
        semver(version) is Some,
    ensures
        ({
            let rest = before + seq![version] + after;
            let k = before.len() as int;
            &&& first_version(rest) == Some(k)
            &&& rest[k] == version
            &&& rest.remove(k) == before + after
        }),
{
    let rest = before + seq![version] + after;
    let k = before.len() as int;
    assert forall|j: int| 0 <= j < k implies semver(#[trigger] rest[j]) is None by {
        assert(rest[j] == before[j]);
    }
    assert(rest[k] == version);
    lemma_first_version(rest, k);
    assert(rest.remove(k) =~= before + after);
}

/// Without a version among the words, the next minor version is asked for and all
/// words behind the repository are the description.
pub proof fn no_version_asks_for_the_next_minor(repo: Text, words: Seq<Text>)
    requires
        !is_flag(repo),
        are_words(words),
        forall|i: int| 0 <= i < words.len() ==> semver(#[trigger] words[i]) is None,
    ensures
        reserve_request(seq![repo] + words) == Some(
            (repo, Wanted::Auto(Bump::Minor), trimmed(joined(words, " "@))),
        ),
{
    lemma_plain(repo, words);
    lemma_first_version(words, words.len() as int);
}

/// With an option, all words behind the repository are the description, versions
/// too, wherever the option stands.
pub proof fn option_leaves_the_words_to_the_description(
    repo: Text,
    words: Seq<Text>,
    a: Seq<Text>,
    option: Text,
    b: Seq<Text>,
)
    requires
        !is_flag(repo),
        are_words(words),
        a + b == seq![repo] + words,
        option == "--major"@ || option == "--patch"@ || option == "--minor"@ || option == "--next"@,
    ensures
        reserve_request(a + seq![option] + b) matches Some(r) && r.0 == repo && r.2 == trimmed(
            joined(words, " "@),
        ) && r.1 is Auto,
{
    reveal_strlit("--minor");
    reveal_strlit("--next");
    reveal_strlit("--major");
    reveal_strlit("--patch");
    let plain = seq![repo] + words;
    assert forall|i: int| 0 <= i < plain.len() implies !is_flag(#[trigger] plain[i]) by {
        if i > 0 {
            assert(plain[i] == words[i - 1]);
        }
    }
    lemma_words(plain);
    lemma_flag(option);
    lemma_drop_option(a, option, b);
    let args = a + seq![option] + b;
    assert(args[a.len() as int] == option);
    assert(args.contains(option));
    assert(crate::reserve::asked_bump(args) is Some);
    assert(plain.skip(1) =~= words);
}

/// Whether a reservation is an active one of a repository.
pub open spec fn is_active_in(r: Reservation, repo: Text) -> bool {
    r.status == "active"@ && r.repo_slug == slugged(repo)
}

/// Whether a reservation has the version that is asked for: the same three numbers,
/// or, where no numbers are asked for, the same text.
pub open spec fn has_version(r: Reservation, version: Text) -> bool {
    match semver(version) {
        Some(w) => r.ver matches Some(v) && v.0 == w.0 && v.1 == w.1 && v.2 == w.2,
        None => r.version == version,
    }
}

/// A version is refused exactly where another machine holds it, left alone where only
/// this machine does, and else taken, in its full form.
pub proof fn asked_version_goes_to_who_holds_it(
    repo: Text,
    version: Text,
    host: Text,
    rs: Seq<Reservation>,
    now: u64,
)
    ensures
        ({
            let d = decision(repo, Wanted::Explicit(version), host, rs, now);
            let others = exists|i: int|
                0 <= i < rs.len() && is_active_in(#[trigger] rs[i], repo) && has_version(
                    rs[i],
                    version,
                ) && rs[i].owner != host;
            let own = exists|i: int|
                0 <= i < rs.len() && is_active_in(#[trigger] rs[i], repo) && has_version(
                    rs[i],
                    version,
                ) && rs[i].owner == host;
            &&& d is Refused <==> others
            &&& d is Nothing <==> !others && own && semver(version) is Some
            &&& d is Take <==> !others && (!own || semver(version) is None)
            &&& d matches Decision::Take(t) ==> match semver(version) {
                Some(v) => t == dotted(v),
                None => t == version,
            }
        }),
{
    let key = slugged(repo);
    let goal = match semver(version) {
        Some(n) => Goal::Number(n),
        None => Goal::Name(version),
    };
    lemma_no_holder(rs, key, goal, host, false);
    lemma_no_holder(rs, key, goal, host, true);
    assert forall|i: int, mine: bool| 0 <= i < rs.len() implies #[trigger] holds(
        rs[i],
        key,
        goal,
        host,
        mine,
    ) == (is_active_in(rs[i], repo) && has_version(rs[i], version) && (rs[i].owner == host)
        == mine) by {
        lemma_holds(rs[i], repo, version, host, mine);
    }
    let others = exists|i: int|
        0 <= i < rs.len() && is_active_in(#[trigger] rs[i], repo) && has_version(rs[i], version)
            && rs[i].owner != host;
    let own = exists|i: int|
        0 <= i < rs.len() && is_active_in(#[trigger] rs[i], repo) && has_version(rs[i], version)
            && rs[i].owner == host;
    if others {
        let i = choose|i: int|
            0 <= i < rs.len() && is_active_in(#[trigger] rs[i], repo) && has_version(
                rs[i],
                version,
            ) && rs[i].owner != host;
        assert(holds(rs[i], key, goal, host, false));
    } else {
        assert forall|i: int| 0 <= i < rs.len() implies !holds(
            #[trigger] rs[i],
            key,
            goal,
            host,
            false,
        ) by {}
    }
    if own {
        let i = choose|i: int|
            0 <= i < rs.len() && is_active_in(#[trigger] rs[i], repo) && has_version(
                rs[i],
                version,
            ) && rs[i].owner == host;
        assert(holds(rs[i], key, goal, host, true));
    } else {
        assert forall|i: int| 0 <= i < rs.len() implies !holds(
            #[trigger] rs[i],
            key,
            goal,
            host,
            true,
        ) by {}
    }
}

proof fn lemma_holds(r: Reservation, repo: Text, version: Text, host: Text, mine: bool)
    ensures
        holds(
            r,
            slugged(repo),
            (match semver(version) {
                Some(n) => Goal::Number(n),
                None => Goal::Name(version),
            }),
            host,
            mine,
        ) == (is_active_in(r, repo) && has_version(r, version) && (r.owner == host) == mine),
{
}

/// Whether a version is newer than every active one of a repository.
pub open spec fn is_newest_in(rs: Seq<Reservation>, repo: Text, v: Version) -> bool {
    &&& older((0, 0, 0), v)
    &&& forall|i: int|
        0 <= i < rs.len() && is_active_in(#[trigger] rs[i], repo) && rs[i].ver is Some ==> older(
            rs[i].ver->0,
            v,
        )
}

/// The next version is the first one, among those with zeros behind the raised part,
/// that is newer than every active one of the repository.
pub proof fn next_version_is_the_first_newer_one(
    repo: Text,
    b: Bump,
    host: Text,
    rs: Seq<Reservation>,
    now: u64,
) -> (n: Version)
    requires
        can_bump(newest(held_versions(rs, slugged(repo))), b),
    ensures
        decision(repo, Wanted::Auto(b), host, rs, now) == Decision::Take(dotted(n)),
        is_round(n, b),
        is_newest_in(rs, repo, n),
        forall|w: Version| #[trigger]
            is_newest_in(rs, repo, w) && is_round(w, b) ==> w == n || older(n, w),
{
    let key = slugged(repo);
    let held = held_versions(rs, key);
    let base = newest(held);
    let n = bumped(base, b);
    let p = |r: Reservation| active_for(r, key) && r.ver is Some;
    newest_is_one_of_them(held);
    raised_is_the_next_round_one(base, b, n);
    assert forall|i: int|
        0 <= i < rs.len() && is_active_in(#[trigger] rs[i], repo) && rs[i].ver is Some implies older(
        rs[i].ver->0,
        n,
    ) by {
        lemma_held_version(rs, key, i);
        let k = choose|k: int| 0 <= k < held.len() && held[k] == rs[i].ver->0;
        assert(!older(base, held[k]));
    }
    assert forall|w: Version| #[trigger] is_newest_in(rs, repo, w) && is_round(w, b) implies w == n
        || older(n, w) by {
        assert(older(base, w)) by {
            if held.len() > 0 {
                let k = choose|k: int| 0 <= k < held.len() && held[k] == base;
                lemma_filter_holds(rs, p, k);
                let i = choose|i: int| 0 <= i < rs.len() && rs[i] == rs.filter(p)[k];
                assert(is_active_in(rs[i], repo));
                assert(rs[i].ver == Some(base));
            }
        }
        raised_is_the_next_round_one(base, b, w);
    }
    n
}

/// Whether a reservation has the version that is to be released: the same three
/// numbers, or the same text.
pub open spec fn is_of_version(r: Reservation, version: Text) -> bool {
    ||| r.version == version
    ||| (r.ver matches Some(v) && semver(version) matches Some(w) && v.0 == w.0 && v.1 == w.1 && v.2
        == w.2)
}

/// Whether releasing a version is to free a reservation: it is this machine's own
/// active one of that version.
pub open spec fn is_to_free(
    r: Reservation,
    repo: Text,
    version: Text,
    host: Text,
) -> bool {
    is_active_in(r, repo) && is_of_version(r, version) && r.owner == host
}

proof fn lemma_own(rs: Seq<Reservation>, repo: Text, version: Text, host: Text)
    ensures
        forall|k: int|
            0 <= k < own_files(rs, repo, version, host).len() ==> frees(
                rs,
                repo,
                version,
                host,
                #[trigger] own_files(rs, repo, version, host)[k],
            ),
        forall|i: int|
            0 <= i < rs.len() && is_to_free(#[trigger] rs[i], repo, version, host) ==> own_files(
                rs,
                repo,
                version,
                host,
            ).contains(rs[i].file),
{
    let p = |r: Reservation| is_meant(r, repo, version);
    let q = |r: Reservation| r.owner == host;
    let meant = rs.filter(p);
    let own = own_files(rs, repo, version, host);
    assert forall|k: int| 0 <= k < own.len() implies frees(
        rs,
        repo,
        version,
        host,
        #[trigger] own[k],
    ) by {
        lemma_filter_holds(meant, q, k);
        let a = choose|a: int| 0 <= a < meant.len() && meant[a] == meant.filter(q)[k];
        lemma_filter_holds(rs, p, a);
        let i = choose|i: int| 0 <= i < rs.len() && rs[i] == meant[a];
        assert(is_to_free(rs[i], repo, version, host));
        assert(rs[i].file == own[k]);
    }
    assert forall|i: int|
        0 <= i < rs.len() && is_to_free(#[trigger] rs[i], repo, version, host) implies own.contains(
        rs[i].file,
    ) by {
        assert(p(rs[i]));
        lemma_filter_keeps(rs, p, rs[i]);
        lemma_filter_keeps(meant, q, rs[i]);
        let k = choose|k: int| 0 <= k < meant.filter(q).len() && meant.filter(q)[k] == rs[i];
        assert(own[k] == rs[i].file);
    }
}

/// Whether releasing a version is to free a reservation that stands in `file`.
pub open spec fn frees(
    rs: Seq<Reservation>,
    repo: Text,
    version: Text,
    host: Text,
    file: Text,
) -> bool {
    exists|i: int|
        0 <= i < rs.len() && is_to_free(#[trigger] rs[i], repo, version, host) && rs[i].file == file
}

/// Releasing a version frees exactly this machine's own active reservations of it;
/// where there is none, nothing is freed.
pub proof fn release_frees_exactly_ones_own_of_that_version(
    repo: Text,
    version: Text,
    host: Text,
    rs: Seq<Reservation>,
    file: Text,
)
    ensures
        freeing(repo, version, host, rs) is Release <==> exists|i: int|
            0 <= i < rs.len() && is_to_free(#[trigger] rs[i], repo, version, host),
        freeing(repo, version, host, rs) matches Freeing::Release(v) ==> (v.contains(file) <==> frees(
            rs,
            repo,
            version,
            host,
            file,
        )),
{
    let p = |r: Reservation| is_meant(r, repo, version);
    let own = own_files(rs, repo, version, host);
    lemma_own(rs, repo, version, host);
    if own.contains(file) {
        let k = choose|k: int| 0 <= k < own.len() && own[k] == file;
        assert(frees(rs, repo, version, host, own[k]));
    }
    if own.len() > 0 {
        assert(frees(rs, repo, version, host, own[0]));
    }
    if exists|i: int| 0 <= i < rs.len() && is_to_free(#[trigger] rs[i], repo, version, host) {
        let i = choose|i: int|
            0 <= i < rs.len() && is_to_free(#[trigger] rs[i], repo, version, host);
        assert(own.contains(rs[i].file));
        assert(p(rs[i]));
        lemma_filter_keeps(rs, p, rs[i]);
    }
}

/// Whether two reservations are of one version of one repository: the same three
/// numbers or, where neither has numbers, the same text.
pub open spec fn same_claim(a: Reservation, b: Reservation) -> bool {
    a.repo_slug == b.repo_slug && match (a.ver, b.ver) {
        (Some(v), Some(w)) => v.0 == w.0 && v.1 == w.1 && v.2 == w.2,
        (None, None) => a.version == b.version,
        _ => false,
    }
}

/// Whether a reservation's numbers are those that its version is written with.
pub open spec fn is_read(r: Reservation) -> bool {
    r.ver == semver(r.version)
}

/// Claims are the same exactly where repository and version are.
pub proof fn claims_are_versions_of_repositories(a: Reservation, b: Reservation)
    requires
        is_read(a),
        is_read(b),
    ensures
        claim(a) == claim(b) <==> same_claim(a, b),
{
    if let Some(v) = a.ver {
        semver_reads_back(v);
    }
    if let Some(w) = b.ver {
        semver_reads_back(w);
    }
}

/// Whether two reservations hold one version under different tags.
pub open spec fn both_hold(a: Reservation, b: Reservation) -> bool {
    a.status == "active"@ && b.status == "active"@ && same_claim(a, b) && a.tag != b.tag
}

/// Claims collide exactly where two active reservations of one version have different
/// tags; each such version counts once.
pub proof fn collisions_are_versions_held_twice(rs: Seq<Reservation>, i: int)
    requires
        forall|k: int| 0 <= k < rs.len() ==> is_read(#[trigger] rs[k]),
        0 <= i < rs.len(),
    ensures
        collisions(rs).finite(),
        collisions(rs).contains(claim(rs[i])) <==> exists|a: int, b: int|
            0 <= a < rs.len() && 0 <= b < rs.len() && #[trigger] both_hold(rs[a], rs[b])
                && same_claim(rs[a], rs[i]),
        collisions(rs).len() > 0 <==> exists|a: int, b: int|
            0 <= a < rs.len() && 0 <= b < rs.len() && #[trigger] both_hold(rs[a], rs[b]),
{
    no_collision_without_double_claim(rs);
    assert forall|a: int, b: int| 0 <= a < rs.len() && 0 <= b < rs.len() implies #[trigger] collide(
        rs[a],
        rs[b],
    ) == both_hold(rs[a], rs[b]) by {
        claims_are_versions_of_repositories(rs[a], rs[b]);
    }
    if collisions(rs).contains(claim(rs[i])) {
        let (a, b) = choose|a: int, b: int|
            {
                &&& 0 <= a < rs.len()
                &&& 0 <= b < rs.len()
                &&& #[trigger] collide(rs[a], rs[b])
                &&& claim(rs[a]) == claim(rs[i])
            };
        claims_are_versions_of_repositories(rs[a], rs[i]);
        assert(both_hold(rs[a], rs[b]));
    }
    if exists|a: int, b: int|
        0 <= a < rs.len() && 0 <= b < rs.len() && #[trigger] both_hold(rs[a], rs[b]) && same_claim(
            rs[a],
            rs[i],
        ) {
        let (a, b) = choose|a: int, b: int|
            0 <= a < rs.len() && 0 <= b < rs.len() && #[trigger] both_hold(rs[a], rs[b])
                && same_claim(rs[a], rs[i]);
        claims_are_versions_of_repositories(rs[a], rs[i]);
        assert(collide(rs[a], rs[b]));
        assert(contested(rs, claim(rs[i])));
    }
    if exists|a: int, b: int|
        0 <= a < rs.len() && 0 <= b < rs.len() && #[trigger] both_hold(rs[a], rs[b]) {
        let (a, b) = choose|a: int, b: int|
            0 <= a < rs.len() && 0 <= b < rs.len() && #[trigger] both_hold(rs[a], rs[b]);
        assert(collide(rs[a], rs[b]));
    }
    if collisions(rs).len() > 0 {
        let (a, b) = choose|a: int, b: int|
            0 <= a < rs.len() && 0 <= b < rs.len() && #[trigger] collide(rs[a], rs[b]);
        assert(both_hold(rs[a], rs[b]));
    }
}

/// Whether a reservation is another active claim on the version of a repository.
pub open spec fn is_other_claim(r: Reservation, repo: Text, version: Text, tag: Text) -> bool {
    is_active_in(r, repo) && r.tag != tag && match (r.ver, semver(version)) {
        (Some(v), Some(w)) => v.0 == w.0 && v.1 == w.1 && v.2 == w.2,
        (None, None) => r.version == version,
        _ => false,
    }
}

/// One is warned exactly where others claim the version too, and told how many.
pub proof fn warning_counts_the_other_claims(
    rs: Seq<Reservation>,
    repo: Text,
    version: Text,
    tag: Text,
)
    requires
        forall|k: int| 0 <= k < rs.len() ==> is_read(#[trigger] rs[k]),
    ensures
        rival_warning(rs, repo, version, tag) is Some <==> exists|i: int|
            0 <= i < rs.len() && is_other_claim(#[trigger] rs[i], repo, version, tag),
        rival_warning(rs, repo, version, tag) matches Some(s) ==> begins(
            s,
            "⚠ heads-up: "@ + decimal(
                rs.filter(|r: Reservation| is_other_claim(r, repo, version, tag)).len(),
            ) + " other active claim(s) on "@ + repo + " v"@ + version,
        ),
{
    let p = |r: Reservation| rivals(r, slugged(repo), version_label(version), tag);
    let q = |r: Reservation| is_other_claim(r, repo, version, tag);
    assert forall|i: int| 0 <= i < rs.len() implies p(#[trigger] rs[i]) == q(rs[i]) by {
        if let Some(v) = rs[i].ver {
            semver_reads_back(v);
        }
        if let Some(w) = semver(version) {
            semver_reads_back(w);
        }
    }
    lemma_filter_same(rs, p, q);
    if exists|i: int| 0 <= i < rs.len() && is_other_claim(#[trigger] rs[i], repo, version, tag) {
        let i = choose|i: int|
            0 <= i < rs.len() && is_other_claim(#[trigger] rs[i], repo, version, tag);
        lemma_filter_keeps(rs, q, rs[i]);
    }
    if rs.filter(q).len() > 0 {
        lemma_filter_holds(rs, q, 0);
    }
    if let Some(s) = rival_warning(rs, repo, version, tag) {
        let start = "⚠ heads-up: "@ + decimal(rs.filter(q).len()) + " other active claim(s) on "@
            + repo + " v"@ + version;
        assert(s.take(start.len() as int) =~= start);
    }
}

/// A reservation is listed exactly where it is one of the repository that is asked
/// for, if any, and is active, unless all are asked for.
pub proof fn listed_are_those_asked_for(
    rs: Seq<Reservation>,
    repo: Option<Text>,
    all: bool,
    r: Reservation,
)
    ensures
        listed(rs, repo, all).contains(r) <==> rs.contains(r) && (repo matches Some(n) ==> r.repo_slug
            == slugged(n)) && (!all ==> r.status == "active"@),
        listed(rs, repo, all).len() <= rs.len(),
{
    let p = |r: Reservation| is_listed(r, repo, all);
    let kept = rs.filter(p);
    let out = listed(rs, repo, all);
    reservations_are_listed_in_order(kept);
    broadcast use vstd::seq_lib::group_to_multiset_ensures;

    assert(out.contains(r) <==> out.to_multiset().count(r) > 0);
    assert(kept.contains(r) <==> kept.to_multiset().count(r) > 0);
    if kept.contains(r) {
        let k = choose|k: int| 0 <= k < kept.len() && kept[k] == r;
        lemma_filter_holds(rs, p, k);
    }
    if rs.contains(r) && p(r) {
        lemma_filter_keeps(rs, p, r);
    }
    crate::analysis::lemma_filter_bound(rs, p);
}

/// Reservations are listed by repository; within one, those without numbers first and
/// then from the oldest version to the newest; then by how the version is written,
/// and then the earliest first.
pub proof fn list_goes_by_repository_version_and_time(
    rs: Seq<Reservation>,
    repo: Option<Text>,
    all: bool,
    i: int,
    j: int,
)
    requires
        0 <= i < j < listed(rs, repo, all).len(),
    ensures
        ({
            let a = listed(rs, repo, all)[i];
            let b = listed(rs, repo, all)[j];
            &&& !text_less(b.repo_slug, a.repo_slug)
            &&& a.repo_slug == b.repo_slug ==> {
                &&& !(a.ver is Some && b.ver is None)
                &&& a.ver is Some && b.ver is Some ==> !older(b.ver->0, a.ver->0)
                &&& a.ver == b.ver ==> !text_less(b.version, a.version) && (a.version == b.version
                    ==> a.reserved_at <= b.reserved_at)
            }
        }),
{
    let kept = rs.filter(|r: Reservation| is_listed(r, repo, all));
    reservations_are_listed_in_order(kept);
    let r = ranked::<Resv>(kept);
    assert(!listed_before(r[j], r[i]));
}

/// A listed reservation is marked as released where it is not active, and as a
/// collision exactly where another listed one claims the same under another tag.
pub proof fn marks_tell_released_and_collisions(rs: Seq<Reservation>, i: int)
    requires
        0 <= i < rs.len(),
        forall|k: int| 0 <= k < rs.len() ==> is_read(#[trigger] rs[k]),
    ensures
        rs[i].status != "active"@ ==> flag(rs, rs[i]) == "  (released)"@,
        rs[i].status == "active"@ ==> flag(rs, rs[i]) == (if exists|j: int|
            0 <= j < rs.len() && both_hold(rs[i], #[trigger] rs[j]) {
            "  ⚠ COLLISION"@
        } else {
            ""@
        }),
{
    assert forall|a: int, b: int| 0 <= a < rs.len() && 0 <= b < rs.len() implies #[trigger] collide(
        rs[a],
        rs[b],
    ) == both_hold(rs[a], rs[b]) by {
        claims_are_versions_of_repositories(rs[a], rs[b]);
    }
    let x = rs[i];
    if x.status == "active"@ {
        if exists|j: int| 0 <= j < rs.len() && both_hold(x, #[trigger] rs[j]) {
            let j = choose|j: int| 0 <= j < rs.len() && both_hold(x, #[trigger] rs[j]);
            assert(collide(rs[i], rs[j]));
        }
        if contested(rs, claim(x)) {
            let (a, b) = choose|a: int, b: int|
                {
                    &&& 0 <= a < rs.len()
                    &&& 0 <= b < rs.len()
                    &&& #[trigger] collide(rs[a], rs[b])
                    &&& claim(rs[a]) == claim(x)
                };
            assert(both_hold(rs[a], rs[b]));
            claims_are_versions_of_repositories(rs[a], x);
            claims_are_versions_of_repositories(rs[b], x);
            if rs[a].tag != x.tag {
                assert(both_hold(x, rs[a]));
            } else {
                assert(both_hold(x, rs[b]));
            }
        }
    }
}

} // verus!

//! What the commands ask for.
use crate::cli::{option_number, order_of, types_in, Order};
use crate::number::parsed;
use crate::reserve::{positionals, reserve_request};
use crate::reserve_laws::{are_words, is_flag};
use crate::text::{items_of, joined, Text};
use vstd::prelude::*;

verus! {

/// Without a command, and with `sync`, everything is synchronised.
pub proof fn no_command_is_a_sync(args: Seq<Text>)
    ensures
        args.len() <= 1 ==> order_of(args) is Sync,
        args.len() > 1 && args[1] == "sync"@ ==> order_of(args) is Sync,
{
    lemma_names();
}

/// The commands that take nothing.
pub proof fn plain_commands(args: Seq<Text>)
    requires
        args.len() > 1,
    ensures
        args[1] == "start"@ ==> order_of(args) is Start,
        args[1] == "push"@ ==> order_of(args) is Push,
        args[1] == "pull"@ ==> order_of(args) is Pull,
        args[1] == "link"@ ==> order_of(args) is Link,
        args[1] == "autolink"@ ==> order_of(args) is Autolink,
        args[1] == "status"@ ==> order_of(args) is Status,
        args[1] == "list"@ ==> order_of(args) is List,
        args[1] == "dash"@ ==> order_of(args) is Dash,
        args[1] == "help"@ || args[1] == "-h"@ || args[1] == "--help"@ ==> order_of(args) is Help,
{
    lemma_names();
}

/// `share` and `local` set the scope of the memory that is named behind them.
pub proof fn share_and_local_name_a_memory(args: Seq<Text>)
    requires
        args.len() > 2,
    ensures
        args[1] == "share"@ ==> order_of(args) == Order::Share(args[2]),
        args[1] == "local"@ ==> order_of(args) == Order::Local(args[2]),
{
    lemma_names();
}

/// `release` frees the version of the repository that are named behind it, in that
/// order.
pub proof fn release_names_repository_and_version(args: Seq<Text>)
    requires
        args.len() > 1,
        args[1] == "release"@,
    ensures
        args.len() > 3 && !is_flag(args[2]) && !is_flag(args[3]) ==> order_of(args)
            == Order::Release(args[2], args[3]),
        args.len() <= 3 || is_flag(args[2]) || is_flag(args[3]) ==> order_of(args) is Usage,
{
    lemma_names();
    if args.len() > 2 {
        lemma_option(args[2]);
    }
    if args.len() > 3 {
        lemma_option(args[3]);
    }
}

/// `reserve` asks for what the arguments behind it ask for.
pub proof fn reserve_passes_on_its_arguments(args: Seq<Text>)
    requires
        args.len() > 2,
        args[1] == "reserve"@,
    ensures
        match reserve_request(args.skip(2)) {
            Some((repo, mode, desc)) => order_of(args) == Order::Reserve(repo, mode, desc),
            None => order_of(args) is Usage,
        },
{
    lemma_names();
}

/// `reservations`, by any of its names, lists those of the repository that is named, or
/// of all, and with `--all` those that were released too.
pub proof fn reservations_may_name_a_repository(args: Seq<Text>, k: int)
    requires
        args.len() > 1,
        args[1] == "reservations"@ || args[1] == "reserved"@ || args[1] == "resv"@,
    ensures
        order_of(args) matches Order::Reservations(repo, all) && all == args.contains("--all"@),
        2 <= k < args.len() && !is_flag(args[k]) && (forall|j: int|
            2 <= j < k ==> is_flag(#[trigger] args[j])) ==> order_of(args)
            == Order::Reservations(Some(args[k]), args.contains("--all"@)),
        (forall|j: int| 2 <= j < args.len() ==> is_flag(#[trigger] args[j])) ==> order_of(args)
            == Order::Reservations(None, args.contains("--all"@)),
{
    lemma_names();
    let rest = if args.len() > 2 {
        args.skip(2)
    } else {
        Seq::empty()
    };
    if 2 <= k < args.len() && !is_flag(args[k]) && (forall|j: int|
        2 <= j < k ==> is_flag(#[trigger] args[j])) {
        lemma_first_word(rest, k - 2);
    }
    if forall|j: int| 2 <= j < args.len() ==> is_flag(#[trigger] args[j]) {
        assert forall|j: int| 0 <= j < rest.len() implies is_flag(#[trigger] rest[j]) by {
            assert(rest[j] == args[j + 2]);
        }
        lemma_no_words(rest);
    }
}

/// A command that misses its arguments is answered with how it is used, and one that
/// there is not with its name.
pub proof fn usage_and_unknown_are_told(args: Seq<Text>)
    requires
        args.len() > 1,
    ensures
        args[1] == "share"@ && args.len() == 2 ==> order_of(args) == Order::NoId(
            "usage: memnir share <id>"@,
        ),
        args[1] == "local"@ && args.len() == 2 ==> order_of(args) == Order::NoId(
            "usage: memnir local <id>"@,
        ),
        args[1] == "release"@ && (args.len() <= 3 || is_flag(args[2]) || is_flag(args[3]))
            ==> order_of(args) == Order::Usage("usage: memnir release <repo> <version>"@),
        args[1] == "related"@ && (args.len() <= 2 || is_flag(args[2])) ==> order_of(args)
            == Order::Usage("usage: memnir related <id> [--depth N]"@),
        args[1] == "reserve"@ && (forall|j: int| 2 <= j < args.len() ==> is_flag(#[trigger] args[j]))
            ==> order_of(args) == Order::Usage(
            "usage: memnir reserve <repo> [<version>|--patch|--minor|--major] [description]"@,
        ),
        !commands().contains(args[1]) <==> order_of(args) == Order::Unknown(args[1]),
{
    lemma_names();
    if args.len() > 2 {
        lemma_option(args[2]);
    }
    if args.len() > 3 {
        lemma_option(args[3]);
    }
    if forall|j: int| 2 <= j < args.len() ==> is_flag(#[trigger] args[j]) {
        let rest = crate::cli::behind(args);
        assert forall|j: int| 0 <= j < rest.len() implies is_flag(#[trigger] rest[j]) by {
            assert(rest[j] == args[j + 2]);
        }
        lemma_no_words(rest);
    }
}

proof fn lemma_option(a: Text)
    ensures
        crate::reserve::is_option(a) == is_flag(a),
{
    reveal_strlit("--");
    if is_flag(a) {
        assert(a.take(2) =~= "--"@);
    }
    if crate::reserve::is_option(a) {
        assert(a.take(2)[0] == a[0] && a.take(2)[1] == a[1]);
    }
}

proof fn lemma_no_words(ws: Seq<Text>)
    requires
        forall|j: int| 0 <= j < ws.len() ==> is_flag(#[trigger] ws[j]),
    ensures
        positionals(ws) == Seq::<Text>::empty(),
{
    let p = |a: Text| !crate::reserve::is_option(a);
    assert forall|j: int| 0 <= j < ws.len() implies !p(#[trigger] ws[j]) by {
        lemma_option(ws[j]);
    }
    crate::reserve_laws::lemma_filter_all(ws, p);
}

proof fn lemma_first_word(ws: Seq<Text>, k: int)
    requires
        0 <= k < ws.len(),
        !is_flag(ws[k]),
        forall|j: int| 0 <= j < k ==> is_flag(#[trigger] ws[j]),
    ensures
        positionals(ws).len() > 0,
        positionals(ws)[0] == ws[k],
{
    let p = |a: Text| !crate::reserve::is_option(a);
    let a = ws.take(k);
    let b = ws.skip(k);
    assert(ws =~= a + b);
    Seq::filter_distributes_over_add(a, b, p);
    assert forall|j: int| 0 <= j < a.len() implies is_flag(#[trigger] a[j]) by {
        assert(a[j] == ws[j]);
    }
    lemma_no_words(a);
    let c = ws.skip(k + 1);
    assert(b =~= seq![ws[k]] + c);
    Seq::filter_distributes_over_add(seq![ws[k]], c, p);
    lemma_option(ws[k]);
    crate::reserve_laws::lemma_filter_all(seq![ws[k]], p);
    assert(forall|i: int| 0 <= i < seq![ws[k]].len() ==> p(#[trigger] seq![ws[k]][i]));
    assert(positionals(ws) =~= seq![ws[k]] + c.filter(p));
}

/// `search` looks for the words behind it, and with `--expand` for their neighbours
/// too; options are no words.
pub proof fn search_takes_the_words(program: Text, words: Seq<Text>)
    requires
        are_words(words),
    ensures
        order_of(seq![program, "search"@] + words) == Order::Search(joined(words, " "@), false)
            || program == "--expand"@,
        order_of(seq![program, "search"@] + words + seq!["--expand"@]) == Order::Search(
            joined(words, " "@),
            true,
        ),
{
    reveal_strlit("--expand");
    reveal_strlit("search");
    lemma_names();
    let a = seq![program, "search"@] + words;
    let b = a + seq!["--expand"@];
    let p = |a: Text| !crate::reserve::is_option(a);
    assert forall|i: int| 0 <= i < words.len() implies p(#[trigger] words[i]) by {
        lemma_option(words[i]);
    }
    crate::reserve_laws::lemma_filter_all(words, p);
    if words.len() > 0 {
        assert(a.skip(2) =~= words);
    } else {
        assert(words =~= Seq::<Text>::empty());
    }
    assert(a[1] == "search"@);
    assert(b[1] == "search"@);
    assert(b.skip(2) =~= words + seq!["--expand"@]);
    lemma_option("--expand"@);
    Seq::filter_distributes_over_add(words, seq!["--expand"@], p);
    lemma_no_words(seq!["--expand"@]);
    assert(positionals(b.skip(2)) =~= words);
    assert(b[b.len() - 1] == "--expand"@);
    if a.contains("--expand"@) {
        let k = choose|k: int| 0 <= k < a.len() && a[k] == "--expand"@;
        if k >= 2 {
            assert(words[k - 2] == "--expand"@);
            assert(!is_flag(words[k - 2]));
        } else if k == 1 {
            assert("search"@[0] == 's');
        }
    }
}

/// `related` follows the links of the memory that is named, two hops unless `--depth`
/// says otherwise.
pub proof fn related_goes_two_hops(args: Seq<Text>, k: int)
    requires
        args.len() > 2,
        args[1] == "related"@,
        !is_flag(args[2]),
    ensures
        !args.contains("--depth"@) ==> order_of(args) == Order::Related(args[2], 2),
        0 <= k < args.len() - 1 && args[k] == "--depth"@ && (forall|j: int|
            0 <= j < k ==> #[trigger] args[j] != "--depth"@) ==> order_of(args) == Order::Related(
            args[2],
            match parsed(args[k + 1], usize::MAX as nat) {
                Some(n) => n,
                None => 2,
            },
        ),
{
    lemma_names();
    lemma_option(args[2]);
    lemma_option_number(args, "--depth"@, usize::MAX as nat, 2, k);
}

/// `serve` listens on port 7177 unless `--port` says otherwise.
pub proof fn serve_has_a_port(args: Seq<Text>, k: int)
    requires
        args.len() > 1,
        args[1] == "serve"@,
    ensures
        !args.contains("--port"@) ==> order_of(args) == Order::Serve(7177),
        0 <= k < args.len() - 1 && args[k] == "--port"@ && (forall|j: int|
            0 <= j < k ==> #[trigger] args[j] != "--port"@) ==> order_of(args) == Order::Serve(
            match parsed(args[k + 1], 65535) {
                Some(n) => n,
                None => 7177,
            },
        ),
{
    lemma_names();
    lemma_option_number(args, "--port"@, u16::MAX as nat, 7177, k);
}

proof fn lemma_option_number(args: Seq<Text>, name: Text, max: nat, default: nat, k: int)
    ensures
        !args.contains(name) ==> option_number(args, name, max, default) == default,
        0 <= k < args.len() - 1 && args[k] == name && (forall|j: int|
            0 <= j < k ==> #[trigger] args[j] != name) ==> option_number(args, name, max, default)
            == (match parsed(args[k + 1], max) {
            Some(n) => n,
            None => default,
        }),
    decreases args.len(),
{
    if args.len() > 0 {
        let more = args.skip(1);
        lemma_option_number(more, name, max, default, k - 1);
        if !args.contains(name) {
            assert(args.contains(args[0]));
            if more.contains(name) {
                let j = choose|j: int| 0 <= j < more.len() && more[j] == name;
                assert(args[j + 1] == name);
            }
        }
        if 0 <= k < args.len() - 1 && args[k] == name && (forall|j: int|
            0 <= j < k ==> #[trigger] args[j] != name) {
            if k > 0 {
                assert(args[0] != name);
                assert(more[k - 1] == name);
                assert(more[k] == args[k + 1]);
                assert forall|j: int| 0 <= j < k - 1 implies #[trigger] more[j] != name by {
                    assert(more[j] == args[j + 1]);
                }
            }
        }
    }
}

/// The options that turn a command: `--check`, `--apply` and `--off`.
pub proof fn options_turn_commands(args: Seq<Text>)
    requires
        args.len() > 1,
    ensures
        args[1] == "doctor"@ ==> order_of(args) == Order::Doctor(args.contains("--check"@)),
        args[1] == "fix-links"@ ==> order_of(args) == Order::FixLinks(args.contains("--apply"@)),
        args[1] == "compact-index"@ ==> (order_of(args) matches Order::CompactIndex(on, types) ==> on
            == !args.contains("--off"@)),
        args[1] == "compact-index"@ ==> order_of(args) is CompactIndex,
{
    lemma_names();
}

/// Types may stand in one argument with commas between, or in several.
pub proof fn types_may_stand_together_or_apart(a: Seq<Text>, b: Seq<Text>, x: Text)
    ensures
        types_in(a + b) == types_in(a) + types_in(b),
        types_in(seq![x]) == items_of(x, ","@),
    decreases b.len(),
{
    let none = Seq::<Text>::empty();
    assert(seq![x].drop_last() =~= none);
    assert(types_in(none) =~= none);
    assert(none + items_of(x, ","@) =~= items_of(x, ","@));
    if b.len() == 0 {
        assert(a + b =~= a);
        assert(types_in(a) + none =~= types_in(a));
    } else {
        assert((a + b).drop_last() =~= a + b.drop_last());
        types_may_stand_together_or_apart(a, b.drop_last(), x);
        assert(types_in(a) + (types_in(b.drop_last()) + items_of(b.last(), ","@)) =~= types_in(a)
            + types_in(b.drop_last()) + items_of(b.last(), ","@));
    }
}

/// The names of the commands differ.
proof fn lemma_names()
    ensures
        forall|i: int, j: int|
            0 <= i < j < commands().len() ==> #[trigger] commands()[i] != #[trigger] commands()[j],
        commands().len() == 25,
        commands()[0] == "start"@,
        commands()[1] == "sync"@,
        commands()[2] == "push"@,
        commands()[3] == "pull"@,
        commands()[4] == "share"@,
        commands()[5] == "local"@,
        commands()[6] == "link"@,
        commands()[7] == "autolink"@,
        commands()[8] == "reserve"@,
        commands()[9] == "reservations"@,
        commands()[10] == "reserved"@,
        commands()[11] == "resv"@,
        commands()[12] == "release"@,
        commands()[13] == "status"@,
        commands()[14] == "list"@,
        commands()[15] == "search"@,
        commands()[16] == "related"@,
        commands()[17] == "doctor"@,
        commands()[18] == "compact-index"@,
        commands()[19] == "fix-links"@,
        commands()[20] == "dash"@,
        commands()[21] == "serve"@,
        commands()[22] == "help"@,
        commands()[23] == "-h"@,
        commands()[24] == "--help"@,
{
    reveal_strlit("start");
    reveal_strlit("sync");
    reveal_strlit("push");
    reveal_strlit("pull");
    reveal_strlit("share");
    reveal_strlit("local");
    reveal_strlit("link");
    reveal_strlit("autolink");
    reveal_strlit("reserve");
    reveal_strlit("reservations");
    reveal_strlit("reserved");
    reveal_strlit("resv");
    reveal_strlit("release");
    reveal_strlit("status");
    reveal_strlit("list");
    reveal_strlit("search");
    reveal_strlit("related");
    reveal_strlit("doctor");
    reveal_strlit("compact-index");
    reveal_strlit("fix-links");
    reveal_strlit("dash");
    reveal_strlit("serve");
    reveal_strlit("help");
    reveal_strlit("-h");
    reveal_strlit("--help");
    let ns = commands();
    assert forall|i: int| 0 <= i < ns.len() implies key(#[trigger] ns[i]) == keys()[i] by {}
    assert forall|i: int, j: int| 0 <= i < j < ns.len() implies #[trigger] ns[i] != #[trigger] ns[j] by {
        assert(key(ns[i]) == keys()[i]);
        assert(key(ns[j]) == keys()[j]);
    }
}

/// The names of all commands.
pub open spec fn commands() -> Seq<Text> {
    seq![
        "start"@,
        "sync"@,
        "push"@,
        "pull"@,
        "share"@,
        "local"@,
        "link"@,
        "autolink"@,
        "reserve"@,
        "reservations"@,
        "reserved"@,
        "resv"@,
        "release"@,
        "status"@,
        "list"@,
        "search"@,
        "related"@,
        "doctor"@,
        "compact-index"@,
        "fix-links"@,
        "dash"@,
        "serve"@,
        "help"@,
        "-h"@,
        "--help"@,
    ]
}

/// What tells a name from the others: its length and its first characters.
spec fn key(s: Text) -> (nat, char, char, char, char) {
    let long = s.len() > 3;
    (
        s.len(),
        s[0],
        s[1],
        if long {
            s[2]
        } else {
            ' '
        },
        if long {
            s[3]
        } else {
            ' '
        },
    )
}

spec fn keys() -> Seq<(nat, char, char, char, char)> {
    seq![
        (5nat, 's', 't', 'a', 'r'),
        (4nat, 's', 'y', 'n', 'c'),
        (4nat, 'p', 'u', 's', 'h'),
        (4nat, 'p', 'u', 'l', 'l'),
        (5nat, 's', 'h', 'a', 'r'),
        (5nat, 'l', 'o', 'c', 'a'),
        (4nat, 'l', 'i', 'n', 'k'),
        (8nat, 'a', 'u', 't', 'o'),
        (7nat, 'r', 'e', 's', 'e'),
        (12nat, 'r', 'e', 's', 'e'),
        (8nat, 'r', 'e', 's', 'e'),
        (4nat, 'r', 'e', 's', 'v'),
        (7nat, 'r', 'e', 'l', 'e'),
        (6nat, 's', 't', 'a', 't'),
        (4nat, 'l', 'i', 's', 't'),
        (6nat, 's', 'e', 'a', 'r'),
        (7nat, 'r', 'e', 'l', 'a'),
        (6nat, 'd', 'o', 'c', 't'),
        (13nat, 'c', 'o', 'm', 'p'),
        (9nat, 'f', 'i', 'x', '-'),
        (4nat, 'd', 'a', 's', 'h'),
        (5nat, 's', 'e', 'r', 'v'),
        (4nat, 'h', 'e', 'l', 'p'),
        (2nat, '-', 'h', ' ', ' '),
        (6nat, '-', '-', 'h', 'e'),
    ]
}

} // verus!

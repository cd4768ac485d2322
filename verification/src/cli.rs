//! The command line: what the arguments ask for.
use crate::number::{parse_number, parsed};
use crate::reservation::{ReserveMode, Wanted};
use crate::reserve::{is_option, parse_reserve_args, positionals, reserve_request, take_positionals};
use crate::text::{items_of, join, joined, mentions, same, split_items, starts_with, texts, Text};
use vstd::prelude::*;

verus! {

/// What the arguments ask for.
pub enum Order {
    Start,
    Sync,
    Push,
    Pull,
    Share(Text),
    Local(Text),
    /// An identity is missing: how the command is used.
    NoId(Text),
    Link,
    Autolink,
    /// Repository, version and description.
    Reserve(Text, Wanted, Text),
    /// Only this repository, and whether released ones are listed too.
    Reservations(Option<Text>, bool),
    /// Repository and version.
    Release(Text, Text),
    Status,
    List,
    /// The query, and whether neighbours are shown too.
    Search(Text, bool),
    /// The identity, and how many links to follow.
    Related(Text, nat),
    /// Whether only to check.
    Doctor(bool),
    /// Whether to turn it on, and the types that stay.
    CompactIndex(bool, Seq<Text>),
    /// Whether to rewrite files.
    FixLinks(bool),
    Dash,
    Serve(nat),
    Help,
    /// The arguments are not right: how the command is used.
    Usage(Text),
    Unknown(Text),
}

/// What the arguments ask for, as `Order`.
pub enum Command {
    Start,
    Sync,
    Push,
    Pull,
    Share(String),
    Local(String),
    NoId(String),
    Link,
    Autolink,
    Reserve(String, ReserveMode, String),
    Reservations(Option<String>, bool),
    Release(String, String),
    Status,
    List,
    Search(String, bool),
    Related(String, usize),
    Doctor(bool),
    CompactIndex(bool, Vec<String>),
    FixLinks(bool),
    Dash,
    Serve(u16),
    Help,
    Usage(String),
    Unknown(String),
}

impl View for Command {
    type V = Order;

    open spec fn view(&self) -> Order {
        match self {
            Command::Start => Order::Start,
            Command::Sync => Order::Sync,
            Command::Push => Order::Push,
            Command::Pull => Order::Pull,
            Command::Share(id) => Order::Share(id@),
            Command::Local(id) => Order::Local(id@),
            Command::NoId(s) => Order::NoId(s@),
            Command::Link => Order::Link,
            Command::Autolink => Order::Autolink,
            Command::Reserve(r, m, d) => Order::Reserve(r@, m@, d@),
            Command::Reservations(r, all) => Order::Reservations(
                match r {
                    Some(s) => Some(s@),
                    None => None,
                },
                *all,
            ),
            Command::Release(r, v) => Order::Release(r@, v@),
            Command::Status => Order::Status,
            Command::List => Order::List,
            Command::Search(q, e) => Order::Search(q@, *e),
            Command::Related(id, d) => Order::Related(id@, *d as nat),
            Command::Doctor(c) => Order::Doctor(*c),
            Command::CompactIndex(on, types) => Order::CompactIndex(*on, texts(types@)),
            Command::FixLinks(a) => Order::FixLinks(*a),
            Command::Dash => Order::Dash,
            Command::Serve(p) => Order::Serve(*p as nat),
            Command::Help => Order::Help,
            Command::Usage(s) => Order::Usage(s@),
            Command::Unknown(s) => Order::Unknown(s@),
        }
    }
}

/// The arguments behind the command.
pub open spec fn behind(args: Seq<Text>) -> Seq<Text> {
    if args.len() > 2 {
        args.skip(2)
    } else {
        Seq::empty()
    }
}

/// Argument `i`, if it is there and no option.
pub open spec fn plain_arg(args: Seq<Text>, i: int) -> Option<Text> {
    if i < args.len() && !is_option(args[i]) {
        Some(args[i])
    } else {
        None
    }
}

/// The number behind the first copy of an option.
pub open spec fn option_number(args: Seq<Text>, name: Text, max: nat, default: nat) -> nat
    decreases args.len(),
{
    if args.len() == 0 {
        default
    } else if args[0] == name {
        if args.len() > 1 {
            match parsed(args[1], max) {
                Some(n) => n,
                None => default,
            }
        } else {
            default
        }
    } else {
        option_number(args.skip(1), name, max, default)
    }
}

/// The types in a list of arguments, each of which may hold several with commas
/// between.
pub open spec fn types_in(args: Seq<Text>) -> Seq<Text>
    decreases args.len(),
{
    if args.len() == 0 {
        Seq::empty()
    } else {
        types_in(args.drop_last()) + items_of(args.last(), ","@)
    }
}

/// What `share` and `local` ask for.
pub open spec fn scope_order(args: Seq<Text>, shared: bool) -> Order {
    if args.len() > 2 {
        if shared {
            Order::Share(args[2])
        } else {
            Order::Local(args[2])
        }
    } else if shared {
        Order::NoId("usage: memnir share <id>"@)
    } else {
        Order::NoId("usage: memnir local <id>"@)
    }
}

/// What `reserve` asks for.
pub open spec fn reserve_order(args: Seq<Text>) -> Order {
    match reserve_request(behind(args)) {
        Some((repo, mode, desc)) => Order::Reserve(repo, mode, desc),
        None => Order::Usage(
            "usage: memnir reserve <repo> [<version>|--patch|--minor|--major] [description]"@,
        ),
    }
}

/// What `reservations` asks for.
pub open spec fn reservations_order(args: Seq<Text>) -> Order {
    let given = positionals(behind(args));
    Order::Reservations(
        if given.len() > 0 {
            Some(given[0])
        } else {
            None
        },
        args.contains("--all"@),
    )
}

/// What `release` asks for.
pub open spec fn release_order(args: Seq<Text>) -> Order {
    match (plain_arg(args, 2), plain_arg(args, 3)) {
        (Some(r), Some(v)) => Order::Release(r, v),
        _ => Order::Usage("usage: memnir release <repo> <version>"@),
    }
}

/// What `related` asks for.
pub open spec fn related_order(args: Seq<Text>) -> Order {
    match plain_arg(args, 2) {
        Some(id) => Order::Related(id, option_number(args, "--depth"@, usize::MAX as nat, 2)),
        None => Order::Usage("usage: memnir related <id> [--depth N]"@),
    }
}

/// What a command with its arguments asks for.
pub open spec fn named_order(cmd: Text, args: Seq<Text>) -> Order {
    if cmd == "start"@ {
        Order::Start
    } else if cmd == "sync"@ {
        Order::Sync
    } else if cmd == "push"@ {
        Order::Push
    } else if cmd == "pull"@ {
        Order::Pull
    } else if cmd == "share"@ {
        scope_order(args, true)
    } else if cmd == "local"@ {
        scope_order(args, false)
    } else if cmd == "link"@ {
        Order::Link
    } else if cmd == "autolink"@ {
        Order::Autolink
    } else if cmd == "reserve"@ {
        reserve_order(args)
    } else if cmd == "reservations"@ || cmd == "reserved"@ || cmd == "resv"@ {
        reservations_order(args)
    } else if cmd == "release"@ {
        release_order(args)
    } else if cmd == "status"@ {
        Order::Status
    } else if cmd == "list"@ {
        Order::List
    } else if cmd == "search"@ {
        Order::Search(
            joined(positionals(behind(args)), " "@),
            args.contains("--expand"@),
        )
    } else if cmd == "related"@ {
        related_order(args)
    } else if cmd == "doctor"@ {
        Order::Doctor(args.contains("--check"@))
    } else if cmd == "compact-index"@ {
        Order::CompactIndex(!args.contains("--off"@), types_in(positionals(behind(args))))
    } else if cmd == "fix-links"@ {
        Order::FixLinks(args.contains("--apply"@))
    } else if cmd == "dash"@ {
        Order::Dash
    } else if cmd == "serve"@ {
        Order::Serve(option_number(args, "--port"@, u16::MAX as nat, 7177))
    } else if cmd == "help"@ || cmd == "-h"@ || cmd == "--help"@ {
        Order::Help
    } else {
        Order::Unknown(cmd)
    }
}

/// What the arguments ask for; the first one is the program itself. Without a
/// command it is a sync.
pub open spec fn order_of(args: Seq<Text>) -> Order {
    if args.len() > 1 {
        named_order(args[1], args)
    } else {
        named_order("sync"@, args)
    }
}

/// Copies of the arguments behind the command.
fn take_behind(args: &[String]) -> (r: Vec<String>)
    ensures
        texts(r@) == behind(texts(args@)),
{
    let mut r: Vec<String> = Vec::new();
    let ghost all = texts(args@);
    let n = args.len();
    let mut i: usize = 2;
    if n <= 2 {
        assert(texts(r@) =~= Seq::<Text>::empty());
        return r;
    }
    assert(texts(r@) =~= all.subrange(2, 2));
    while i < n
        invariant
            2 <= i <= n == args@.len(),
            all == texts(args@),
            texts(r@) == all.subrange(2, i as int),
        decreases n - i,
    {
        let ghost done = texts(r@);
        r.push(args[i].clone());
        assert(texts(r@) =~= done.push(args@[i as int]@));
        i = i + 1;
        assert(texts(r@) =~= all.subrange(2, i as int));
    }
    assert(texts(r@) =~= all.skip(2));
    r
}

/// Argument `i`, if it is there and no option.
fn take_plain(args: &[String], i: usize) -> (r: Option<String>)
    ensures
        match r {
            Some(s) => plain_arg(texts(args@), i as int) == Some(s@),
            None => plain_arg(texts(args@), i as int) is None,
        },
{
    if i < args.len() {
        assert(texts(args@)[i as int] == args@[i as int]@);
        if !starts_with(&args[i], "--") {
            return Some(args[i].clone());
        }
    }
    None
}

/// The number behind the first copy of an option.
fn take_number(args: &[String], name: &str, max: u64, default: u64) -> (r: u64)
    requires
        default <= max,
    ensures
        r == option_number(texts(args@), name@, max as nat, default as nat),
        r <= max,
{
    let ghost all = texts(args@);
    let n = args.len();
    let mut i: usize = 0;
    assert(all.skip(0) =~= all);
    while i < n
        invariant
            i <= n == args@.len(),
            all == texts(args@),
            default <= max,
            option_number(all, name@, max as nat, default as nat) == option_number(
                all.skip(i as int),
                name@,
                max as nat,
                default as nat,
            ),
        decreases n - i,
    {
        let ghost rest = all.skip(i as int);
        assert(rest[0] == args@[i as int]@);
        assert(rest.skip(1) =~= all.skip(i + 1));
        if same(&args[i], name) {
            if n - i > 1 {
                assert(rest[1] == args@[i + 1]@);
                return match parse_number(&args[i + 1], max) {
                    Some(v) => v,
                    None => default,
                };
            }
            return default;
        }
        i = i + 1;
    }
    default
}

/// The types in a list of arguments.
fn take_types(args: &[String]) -> (r: Vec<String>)
    ensures
        texts(r@) == types_in(texts(args@)),
{
    let ghost all = texts(args@);
    let mut r: Vec<String> = Vec::new();
    let mut i: usize = 0;
    assert(all.take(0) =~= Seq::<Text>::empty());
    assert(texts(r@) =~= types_in(all.take(0)));
    while i < args.len()
        invariant
            i <= args@.len(),
            all == texts(args@),
            texts(r@) == types_in(all.take(i as int)),
        decreases args@.len() - i,
    {
        let ghost head = all.take(i + 1);
        let ghost done = texts(r@);
        assert(head.drop_last() =~= all.take(i as int));
        assert(head.last() == args@[i as int]@);
        let mut more = split_items(&args[i], ",");
        let ghost m = texts(more@);
        r.append(&mut more);
        assert(texts(r@) =~= done + m);
        i = i + 1;
    }
    assert(all.take(i as int) =~= all);
    r
}

/// What `share` and `local` ask for.
fn read_scope(args: &[String], shared: bool) -> (r: Command)
    ensures
        r@ == scope_order(texts(args@), shared),
{
    if args.len() > 2 {
        assert(texts(args@)[2] == args@[2]@);
        let id = args[2].clone();
        if shared {
            Command::Share(id)
        } else {
            Command::Local(id)
        }
    } else if shared {
        Command::NoId("usage: memnir share <id>".to_string())
    } else {
        Command::NoId("usage: memnir local <id>".to_string())
    }
}

/// What `reserve` asks for.
fn read_reserve(args: &[String]) -> (r: Command)
    ensures
        r@ == reserve_order(texts(args@)),
{
    match parse_reserve_args(&take_behind(args)) {
        Some((repo, mode, desc)) => Command::Reserve(repo, mode, desc),
        None => Command::Usage(
            "usage: memnir reserve <repo> [<version>|--patch|--minor|--major] [description]".to_string(),
        ),
    }
}

/// What `reservations` asks for.
fn read_reservations(args: &[String]) -> (r: Command)
    ensures
        r@ == reservations_order(texts(args@)),
{
    let mut given = take_positionals(&take_behind(args));
    let all = mentions(args, "--all");
    if given.len() > 0 {
        assert(texts(given@)[0] == given@[0]@);
        let repo = given.remove(0);
        Command::Reservations(Some(repo), all)
    } else {
        Command::Reservations(None, all)
    }
}

/// What `release` asks for.
fn read_release(args: &[String]) -> (r: Command)
    ensures
        r@ == release_order(texts(args@)),
{
    match (take_plain(args, 2), take_plain(args, 3)) {
        (Some(r), Some(v)) => Command::Release(r, v),
        _ => Command::Usage("usage: memnir release <repo> <version>".to_string()),
    }
}

/// What `related` asks for.
fn read_related(args: &[String]) -> (r: Command)
    ensures
        r@ == related_order(texts(args@)),
{
    match take_plain(args, 2) {
        Some(id) => {
            let d = take_number(args, "--depth", usize::MAX as u64, 2);
            Command::Related(id, d as usize)
        },
        None => Command::Usage("usage: memnir related <id> [--depth N]".to_string()),
    }
}

/// What a command with its arguments asks for.
fn read_command(cmd: &str, args: &[String]) -> (r: Command)
    ensures
        r@ == named_order(cmd@, texts(args@)),
{
    if same(cmd, "start") {
        Command::Start
    } else if same(cmd, "sync") {
        Command::Sync
    } else if same(cmd, "push") {
        Command::Push
    } else if same(cmd, "pull") {
        Command::Pull
    } else if same(cmd, "share") {
        read_scope(args, true)
    } else if same(cmd, "local") {
        read_scope(args, false)
    } else if same(cmd, "link") {
        Command::Link
    } else if same(cmd, "autolink") {
        Command::Autolink
    } else if same(cmd, "reserve") {
        read_reserve(args)
    } else if same(cmd, "reservations") || same(cmd, "reserved") || same(cmd, "resv") {
        read_reservations(args)
    } else if same(cmd, "release") {
        read_release(args)
    } else if same(cmd, "status") {
        Command::Status
    } else if same(cmd, "list") {
        Command::List
    } else if same(cmd, "search") {
        Command::Search(
            join(&take_positionals(&take_behind(args)), " "),
            mentions(args, "--expand"),
        )
    } else if same(cmd, "related") {
        read_related(args)
    } else if same(cmd, "doctor") {
        Command::Doctor(mentions(args, "--check"))
    } else if same(cmd, "compact-index") {
        let off = mentions(args, "--off");
        Command::CompactIndex(!off, take_types(&take_positionals(&take_behind(args))))
    } else if same(cmd, "fix-links") {
        Command::FixLinks(mentions(args, "--apply"))
    } else if same(cmd, "dash") {
        Command::Dash
    } else if same(cmd, "serve") {
        let p = take_number(args, "--port", u16::MAX as u64, 7177);
        Command::Serve(p as u16)
    } else if same(cmd, "help") || same(cmd, "-h") || same(cmd, "--help") {
        Command::Help
    } else {
        Command::Unknown(cmd.to_string())
    }
}

/// Reads the command line; the first argument is the program itself.
pub fn parse_command(args: &[String]) -> (r: Command)
    ensures
        r@ == order_of(texts(args@)),
{
    if args.len() > 1 {
        assert(texts(args@)[1] == args@[1]@);
        read_command(&args[1], args)
    } else {
        read_command("sync", args)
    }
}

} // verus!

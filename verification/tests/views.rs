use memnir::analysis::{analyze, Analysis};
use memnir::cli::{parse_command, Command};
use memnir::config::{os_label, os_label_for, peers};
use memnir::dashboard::{dash_html, jstr, write_data};
use memnir::link::{backup_name, plan_link, project_dir, report_link, LinkPlan};
use memnir::memory::load;
use memnir::report::{
    health_report, quick_check, report_list, report_status, report_sync_start, report_synced, total_drift,
};
use memnir::reservation::ReserveMode;
use memnir::search::{
    expand, query_words, report_neighbours, report_search, score_lowered, score_match, search, take_best, Hit,
};
use memnir::server::{
    can_urldecode, route, scope_message, serve_addr, serve_forbidden, serve_message, serve_not_found, serve_page,
    serve_url, urldecode, Route,
};
use memnir::version::Bump;

fn files() -> Vec<(String, String)> {
    [
        ("a.md", "---\nname: Alpha\ndescription: the Ärger\ntype: project\nscope: shared\norigin: mac\n---\n[[b]] needle"),
        ("b.md", "---\ntype: user\n---\nplain"),
        ("c_machine.md", "---\ntype: feedback\n---\n[[b]] [[x]]"),
    ]
    .iter()
    .map(|(a, b)| (a.to_string(), b.to_string()))
    .collect()
}

fn analysis() -> Analysis {
    analyze(load(&files()), &[], "index text")
}

fn strings(xs: &[&str]) -> Vec<String> {
    xs.iter().map(|x| x.to_string()).collect()
}

#[test]
fn queries_are_put_in_small_letters() {
    assert_eq!(query_words("  ÄRGER Übung\tİ "), vec!["ärger", "übung", "i\u{307}"]);
    assert!(query_words(" \n").is_empty());
    // Texts are, too.
    assert_eq!(score_match(&["ärger"], "X.md", "ÄRGER", "x", "y").0, 6);
    assert_eq!(score_lowered(&["ärger"], "X.md", "ÄRGER", "x", "y").0, 0);
}

#[test]
fn every_word_scores() {
    assert_eq!(score_lowered(&["a", "b"], "a.md", "", "b", "ab"), (11, "name+desc+body".to_string()));
    assert_eq!(score_lowered(&["b"], "x", "y", "b", "z"), (3, "desc".to_string()));
    assert_eq!(score_lowered(&[], "x", "y", "b", "z"), (0, String::new()));
}

#[test]
fn search_finds_and_ranks() {
    let hits = search(&query_words("ärger NEEDLE"), &files());
    assert_eq!(hits.len(), 1);
    assert_eq!((hits[0].file.as_str(), hits[0].score, hits[0].fields.as_str()), ("a.md", 5, "desc+body"));
    assert_eq!(
        report_search("q", &hits),
        vec!["🔍 \"q\" — 1 match(es)".to_string(), format!("  {:<46}{:<11}[{}]", "a.md", "█".repeat(10), "desc+body")]
    );
    assert_eq!(report_search("q", &[]), vec!["no matches for \"q\""]);
    let nb = expand(&load(&files()), &analysis().edges, &hits);
    assert_eq!(nb, vec![("b.md".to_string(), "a.md".to_string())]);
    assert_eq!(
        report_neighbours(&nb),
        vec!["  ── related via [[links]] ──".to_string(), format!("  {:<46}↳ from {}", "b.md", "a.md")]
    );
    assert!(report_neighbours(&[]).is_empty());
}

#[test]
fn best_hits_come_first() {
    let hits: Vec<Hit> = (0..20)
        .map(|i| Hit { file: format!("f{:02}", 19 - i), score: i % 4, fields: String::new() })
        .collect();
    let best = take_best(hits);
    assert_eq!(best.len(), 15);
    for w in best.windows(2) {
        assert!(w[0].score > w[1].score || (w[0].score == w[1].score && w[0].file < w[1].file));
    }
    // A low score still has a bar.
    let low = vec![
        Hit { file: "a".to_string(), score: 60, fields: "name".to_string() },
        Hit { file: "b".to_string(), score: 1, fields: "body".to_string() },
    ];
    assert_eq!(report_search("q", &low)[2], format!("  {:<46}{:<11}[body]", "b", "█"));
}

#[test]
fn status_and_lists_are_reported() {
    let a = analysis();
    assert_eq!(
        report_status(&a, "/s", ".store", &strings(&["x", "y"])),
        vec!["Memnir store: /s", "memories: 3  (shared:1  local:2)", "origins:  ?:2  mac:1", "peers:    x, y"]
    );
    assert_eq!(report_status(&a, "/s", ".store", &[])[3], "peers:    (none — see ~/.store/memnir.conf)");
    assert_eq!(
        report_list(&load(&files())),
        vec!["SHARED (sync ข้ามเครื่อง):", "  [mac]  a.md", "LOCAL (เครื่องนี้เท่านั้น):", "  b.md", "  c_machine.md"]
    );
    assert_eq!(report_sync_start("mac", "Linux (x)", &[]), "host=mac  os=Linux (x)  peers=(none)");
    assert_eq!(report_sync_start("mac", "Linux (x)", &strings(&["a", "b"])), "host=mac  os=Linux (x)  peers=a,b");
    assert_eq!(report_synced(&a), "✓ synced — shared:1  local:2  total:3");
}

#[test]
fn health_is_reported() {
    let a = analysis();
    let health = vec![("p".to_string(), Some(2)), ("q".to_string(), None)];
    assert_eq!(total_drift(&health), Some(2));
    assert_eq!(
        health_report(&a, &health, 2, "mac", "Linux (x)", "0.0", false),
        vec![
            "MEMNIR HEALTH ───────────────────────────────── mac · Linux (x)",
            "inventory   3 memories   feedback:1  project:1  user:1",
            "scope       shared:1   local:2",
            "origins     ?:2  mac:1",
            "tokens      index ~0.0k/session 🟢   pool ~0k",
            "peers       2 (reachable 1)   drift: 2 files",
            "            ✓ p",
            "            ✗ q",
            "",
            "⚠ ISSUES & ACTIONS",
            " 🟠 1 broken [[links]]          → memnir fix-links",
            " 🟡 1 local look cross-machine → memnir share <id>  (c_machine…)",
            "",
            "→ visualize:  memnir dash",
        ]
    );
    assert_eq!(total_drift(&[("p".to_string(), Some(usize::MAX)), ("q".to_string(), Some(1))]), None);
}

#[test]
fn health_warns_of_a_large_index_and_collisions() {
    let mut a = analysis();
    a.idx_tok = 12001;
    a.resv_active = 3;
    a.resv_collisions = 1;
    a.oversized = strings(&["a.md", "b.md", "c.md", "d.md"]);
    a.isolated = strings(&["z.md"]);
    let said = health_report(&a, &[], 0, "h", "o", "12.0", true);
    assert!(said.contains(&"reservations 3 active   🔴 1 collision(s)".to_string()));
    assert!(said.contains(&"tokens      index ~12.0k/session 🔴   pool ~0k".to_string()));
    assert!(said.contains(&" 🔴 index 12k always-on        → memnir compact-index   (widen local / prune Tier-0)".to_string()));
    assert!(said.contains(&" 🟠 4 oversized (>2k tok)      → memnir split <id>   (a, b, c…)".to_string()));
    assert!(said.contains(&" 🟡 1 isolated memories       → link them (graph: memnir dash)".to_string()));
    assert!(said.contains(
        &" 🔴 1 version reservation collision(s) → memnir reservations   (two sessions claimed one version)".to_string()
    ));
    a.idx_tok = 7201;
    assert!(health_report(&a, &[], 0, "h", "o", "7.2", false)[5].contains("🟠"));
    a.idx_tok = 7200;
    assert!(health_report(&a, &[], 0, "h", "o", "7.2", false)[5].contains("🟢"));
}

#[test]
fn quick_check_is_silent_when_all_is_well() {
    let mut a = analysis();
    a.broken = 0;
    assert_eq!(quick_check(&a, 0), None);
    a.idx_tok = 12500;
    a.broken = 2;
    a.resv_collisions = 1;
    assert_eq!(
        quick_check(&a, 4).as_deref(),
        Some("⚠ memnir: index 13k tok always-on; 2 broken [[links]]; sync drift 4 files; 1 version reservation collision(s)  → run `memnir doctor`")
    );
}

#[test]
fn peers_come_from_the_environment_or_the_file() {
    assert_eq!(peers("a, b\tc\n", "x"), vec!["a", "b", "c"]);
    assert_eq!(peers(" ,", "# no\n  x@y  \n\n#z\nw"), vec!["x@y", "w"]);
    assert!(peers("", "").is_empty());
}

#[test]
fn systems_have_names() {
    assert_eq!(os_label_for("macos", "aarch64", false), "macOS (Apple Silicon)");
    assert_eq!(os_label_for("macos", "x86_64", false), "macOS (Intel)");
    assert_eq!(os_label_for("macos", "ppc", false), "macOS (ppc)");
    assert_eq!(os_label_for("windows", "x86_64", false), "Windows (x86_64)");
    assert_eq!(os_label_for("freebsd", "arm", true), "freebsd (arm)");
    assert_eq!(os_label("linux", "x86_64", "Linux 5 MICROSOFT-standard"), "Linux (WSL2)");
    assert_eq!(os_label("linux", "x86_64", "Linux 5"), "Linux (x86_64)");
}

#[test]
fn quoted_strings_read_back() {
    let s = "a\"b\\c\nd\te\r/é";
    let q = jstr(s);
    assert_eq!(q, "\"a\\\"b\\\\c\\nd\\te\r/é\"");
    let mut back = String::new();
    let mut it = q[1..q.len() - 1].chars();
    while let Some(c) = it.next() {
        back.push(if c == '\\' {
            match it.next().unwrap() {
                'n' => '\n',
                't' => '\t',
                x => x,
            }
        } else {
            c
        });
    }
    assert_eq!(back, s);
}

#[test]
fn page_holds_the_data() {
    let a = analysis();
    let data = write_data(&a, true, "tok", "mac", "os");
    let toks: Vec<usize> = a.mems.iter().map(|m| m.tok).collect();
    assert!(data.starts_with(&format!(
        "{{\"nodes\":[{{\"id\":\"a.md\",\"label\":\"a\",\"group\":\"project\",\"value\":{},\"shape\":\"dot\",\"color\":{{\"background\":\"#14b8a6\",\"border\":\"#0f766e\"}},\"title\":\"a.md  ~{}tok  shared · from mac\"}},",
        toks[0], toks[0]
    )));
    assert!(data.contains("\"label\":\"c machine\""));
    assert!(data.contains("\"edges\":[{\"from\":\"a.md\",\"to\":\"b.md\"},{\"from\":\"c_machine.md\",\"to\":\"b.md\"}]"));
    assert!(data.contains("\"types\":{\"feedback\":1,\"project\":1,\"user\":1},\"origins\":{\"?\":2,\"mac\":1},\"shared\":1,\"n\":3,"));
    assert!(data.ends_with(&format!(
        "\"top\":[[\"a.md\",{}],[\"c_machine.md\",{}],[\"b.md\",{}]],\"serve\":true,\"token\":\"tok\",\"host\":\"mac\",\"os\":\"os\"}}",
        toks[0], toks[2], toks[1]
    )));
    assert_eq!(dash_html("x/*DATA*/y/*DATA*/", &a, true, "tok", "mac", "os"), format!("x{data}y{data}"));
    assert!(write_data(&a, false, "", "", "").contains("\"serve\":false,\"token\":\"\""));
}

#[test]
fn plain_text_decodes_to_itself() {
    for s in ["", "plain-text_1.md", "a/b?c=d"] {
        assert!(can_urldecode(s));
        assert_eq!(urldecode(s), s);
    }
    assert_eq!(urldecode("%zz%4"), "%zz%4");
    assert_eq!(urldecode("%41%+1%7e"), "A\u{1}~");
    assert_eq!(urldecode("é"), "Ã©");
    assert_eq!(urldecode("%é!"), "%Ã©!");
    assert!(!can_urldecode("%aé"));
    assert!(!can_urldecode("%กx"));
    assert!(can_urldecode("%é"));
}

#[test]
fn requests_are_routed() {
    let r = |target: &str| route(&format!("GET {target} HTTP/1.1\r\nHost: x\r\n"), "T");
    assert!(matches!(r("/?t=T"), Route::Page));
    assert!(matches!(r("/?x=1&t=T"), Route::Page));
    assert!(matches!(r("/"), Route::Forbidden));
    assert!(matches!(r("/?t=wrong"), Route::Forbidden));
    assert!(matches!(route("", "T"), Route::Forbidden));
    assert!(matches!(r("/other"), Route::NotFound));
    assert!(matches!(r("/api/sync?t=T"), Route::Sync));
    assert!(matches!(r("/api/nothing?t=T&id=a"), Route::Unknown));
    assert!(matches!(r("/api/toggle?t=T&id=a+b%2Emd&id=c"), Route::Toggle(id) if id == "a b.md"));
    assert!(matches!(r("/api/share?id=a&t=T"), Route::Share(id) if id == "a"));
    assert!(matches!(r("/api/local?t=T"), Route::Local(id) if id.is_empty()));
    assert!(matches!(r("/api/local?t=T&id=%aé"), Route::Undecodable));
}

#[test]
fn nothing_is_done_without_the_token() {
    for target in ["/", "/?", "/?t=", "/?t=t", "/?id=T", "/api/sync", "/api/sync?t=", "/api/sync?t=t", "/api/toggle?id=a&tt=T", "/api/share?t=x&t=T", "/api/local?id=%aé"] {
        assert!(matches!(route(&format!("GET {target} HTTP/1.1"), "T"), Route::Forbidden), "{target}");
    }
    assert_eq!(
        serve_forbidden(),
        "HTTP/1.1 403 Forbidden\r\nContent-Type: application/json\r\nContent-Length: 30\r\nConnection: close\r\n\r\n{\"ok\":false,\"msg\":\"bad token\"}"
    );
}

#[test]
fn answers_have_their_length_in_bytes() {
    assert_eq!(
        serve_message("é"),
        "HTTP/1.1 200 OK\r\nContent-Type: application/json\r\nContent-Length: 22\r\nConnection: close\r\n\r\n{\"ok\":true,\"msg\":\"é\"}"
    );
    assert!(serve_page("<p>").starts_with("HTTP/1.1 200 OK\r\nContent-Type: text/html; charset=utf-8\r\nContent-Length: 3\r\n"));
    assert!(serve_not_found().ends_with("Content-Length: 9\r\nConnection: close\r\n\r\nnot found"));
    assert_eq!(serve_addr(7177), "127.0.0.1:7177");
    assert_eq!(serve_url(80, "abc"), "http://127.0.0.1:80/?t=abc");
    assert!(matches!(route("GET /?t=abc HTTP/1.1\r\n", "abc"), Route::Page));
    assert_eq!(scope_message("x", true, &Err("not found: x".to_string())), "not found: x");
    let done = memnir::scope::apply_scope("x", &memnir::scope::FileState::Unreadable, true);
    assert_eq!(scope_message("x", true, &done), "x → shared");
    assert_eq!(scope_message("x", false, &done), "x → local");
}

#[test]
fn projects_are_linked() {
    assert_eq!(project_dir("/home/me", ".store", "/home/me/work"), "/home/me/.store/projects/-home-me-work");
    assert_eq!(backup_name(12), "memory.bak.12");
    assert_eq!(plan_link(true, true), LinkPlan::Nothing);
    assert_eq!(plan_link(false, true), LinkPlan::MergeAndLink);
    assert_eq!(plan_link(false, false), LinkPlan::Link);
    assert_eq!(report_link(LinkPlan::Nothing, false, "/m", "/s").as_deref(), Some("already linked: /m"));
    assert_eq!(report_link(LinkPlan::Link, false, "/m", "/s").as_deref(), Some("✓ linked /m → /s"));
    assert_eq!(report_link(LinkPlan::Link, true, "/m", "/s"), None);
}

#[test]
fn command_line_is_read() {
    let p = |xs: &[&str]| {
        let mut v = vec!["memnir".to_string()];
        v.extend(xs.iter().map(|s| s.to_string()));
        parse_command(&v)
    };
    assert!(matches!(p(&[]), Command::Sync));
    assert!(matches!(parse_command(&[]), Command::Sync));
    assert!(matches!(p(&["start"]), Command::Start));
    assert!(matches!(p(&["sync"]), Command::Sync));
    assert!(matches!(p(&["push"]), Command::Push));
    assert!(matches!(p(&["pull"]), Command::Pull));
    assert!(matches!(p(&["link"]), Command::Link));
    assert!(matches!(p(&["autolink"]), Command::Autolink));
    assert!(matches!(p(&["status"]), Command::Status));
    assert!(matches!(p(&["list"]), Command::List));
    assert!(matches!(p(&["dash"]), Command::Dash));
    assert!(matches!(p(&["-h"]), Command::Help));
    assert!(matches!(p(&["--help"]), Command::Help));
    assert!(matches!(p(&["help"]), Command::Help));
    assert!(matches!(p(&["what"]), Command::Unknown(c) if c == "what"));
    assert!(matches!(p(&["share", "x"]), Command::Share(id) if id == "x"));
    assert!(matches!(p(&["share"]), Command::NoId(u) if u == "usage: memnir share <id>"));
    assert!(matches!(p(&["local", "--x"]), Command::Local(id) if id == "--x"));
    assert!(matches!(p(&["local"]), Command::NoId(u) if u == "usage: memnir local <id>"));
    assert!(matches!(p(&["reserve", "R", "1.0"]), Command::Reserve(r, ReserveMode::Explicit(v), d) if r == "R" && v == "1.0" && d.is_empty()));
    assert!(matches!(p(&["reserve", "R"]), Command::Reserve(_, ReserveMode::Auto(Bump::Minor), _)));
    assert!(matches!(p(&["reserve"]), Command::Usage(_)));
    assert!(matches!(p(&["resv", "--all", "R"]), Command::Reservations(Some(r), true) if r == "R"));
    assert!(matches!(p(&["reserved"]), Command::Reservations(None, false)));
    assert!(matches!(p(&["release", "R", "1"]), Command::Release(r, v) if r == "R" && v == "1"));
    assert!(matches!(p(&["release", "R", "--x"]), Command::Usage(u) if u == "usage: memnir release <repo> <version>"));
    assert!(matches!(p(&["search", "a", "--expand", "b"]), Command::Search(q, true) if q == "a b"));
    assert!(matches!(p(&["related", "x"]), Command::Related(id, 2) if id == "x"));
    assert!(matches!(p(&["related", "x", "--depth", "5"]), Command::Related(_, 5)));
    assert!(matches!(p(&["related", "x", "--depth", "many"]), Command::Related(_, 2)));
    assert!(matches!(p(&["related", "--depth", "5"]), Command::Usage(u) if u == "usage: memnir related <id> [--depth N]"));
    assert!(matches!(p(&["doctor", "--check"]), Command::Doctor(true)));
    assert!(matches!(p(&["doctor"]), Command::Doctor(false)));
    assert!(matches!(p(&["compact-index", "user, x", "y"]), Command::CompactIndex(true, t) if t == strings(&["user", "x", "y"])));
    assert!(matches!(p(&["compact-index", "--off"]), Command::CompactIndex(false, t) if t.is_empty()));
    assert!(matches!(p(&["fix-links", "--apply"]), Command::FixLinks(true)));
    assert!(matches!(p(&["fix-links"]), Command::FixLinks(false)));
    assert!(matches!(p(&["serve"]), Command::Serve(7177)));
    assert!(matches!(p(&["serve", "--port", "80"]), Command::Serve(80)));
    assert!(matches!(p(&["serve", "--port", "70000"]), Command::Serve(7177)));
}

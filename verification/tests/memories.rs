use memnir::analysis::{analyze, can_count, follow_links, Analysis};
use memnir::counts::{fmt_counts, tally, Counts};
use memnir::memory::{
    compact_marker, count_tokens, join_path, load, md_files, peers_file, rand_token, resolve, resolve_name, shared_files,
    short_tag, sm, Mem,
};
use memnir::related::{find_related, related};
use memnir::repair::{apply_fixes, fixes_for, plan_repairs, report_repairs, report_rewritten, report_unresolved};
use memnir::reservation::load_reservations;
use memnir::sync::{
    count_drift, is_worth_sending, no_peers_line, peer_store, push_list, remote_list, source_dir,
};

fn file(name: &str, text: &str) -> (String, String) {
    (name.to_string(), text.to_string())
}

fn pool() -> Vec<(String, String)> {
    vec![
        file("alpha_note.md", "---\nname: alpha-note\ndescription: first\ntype: project\nscope: shared\norigin: mac\n---\nsee [[beta]] and [[gamma note]]"),
        file("beta.md", "---\nname: beta\ntype: user\n---\nback to [[Alpha Note]] or [[nowhere-at-all]]"),
        file("gamma_note_long.md", "---\ntype: project\n---\nalone"),
        file("mac_mini_setup.md", "no frontmatter"),
        file("reservation_x_1.0.0_aaaaaa.md", "---\ndescription: d\ntype: reservation\nscope: shared\nrepo: X\nversion: 1.0.0\nowner: mac\ntag: aaaaaa\nreserved_at: 5\n---\n"),
    ]
}

fn analysis() -> Analysis {
    let files = pool();
    analyze(load(&files), &load_reservations(&files), "abcdefgh")
}

#[test]
fn memory_files_are_found_in_order() {
    let names = ["b.md", ".md", "MEMORY.md", "MEMORY.full.md", "a.md", "x.txt", "a.md.bak", "..md"];
    let got = md_files(names.iter().map(|s| s.to_string()).collect());
    assert_eq!(got, vec!["..md", "a.md", "b.md"]);
}

#[test]
fn memories_are_loaded_with_defaults() {
    let mems = load(&pool());
    let m = &mems[0];
    assert_eq!((m.file.as_str(), m.name.as_str(), m.typ.as_str()), ("alpha_note.md", "alpha-note", "project"));
    assert_eq!((m.desc.as_str(), m.origin.as_str(), m.shared), ("first", "mac", true));
    assert_eq!(m.links, vec!["beta", "gamma note"]);
    assert_eq!(m.tok, pool()[0].1.chars().count() / 4);
    let m = &mems[3];
    assert_eq!((m.name.as_str(), m.typ.as_str(), m.desc.as_str(), m.origin.as_str()), ("mac_mini_setup", "?", "", "?"));
    assert!(!m.shared);
}

#[test]
fn only_shared_memories_are_sent() {
    let mems = load(&pool());
    assert_eq!(shared_files(&mems), vec!["alpha_note.md", "reservation_x_1.0.0_aaaaaa.md"]);
    assert_eq!(push_list(&mems), "alpha_note.md\nreservation_x_1.0.0_aaaaaa.md");
    assert!(is_worth_sending("a.md"));
    assert!(!is_worth_sending(" \n"));
    assert_eq!(peer_store("me@mini", ".store"), "me@mini:.store/memnir/");
    assert_eq!(source_dir("/home/me/.store/memnir"), "/home/me/.store/memnir/");
    assert_eq!(no_peers_line(".store"), "memnir: no peers configured (~/.store/memnir.conf)");
    assert!(remote_list(".store").starts_with("cd ~/.store/memnir && grep -lE "));
    assert_eq!(count_drift("a.md\n\n./\nb.md\n  \ndir/\n"), 2);
}

#[test]
fn sharing_a_memory_sends_it() {
    let plain = "---\ntype: a\n---\nx";
    let on = memnir::frontmatter::set_scope_in(plain, true).unwrap();
    let off = memnir::frontmatter::set_scope_in(&on, false).unwrap();
    assert_eq!(shared_files(&load(&[file("m.md", &on)])), vec!["m.md"]);
    assert!(shared_files(&load(&[file("m.md", &off)])).is_empty());
}

#[test]
fn identities_name_files() {
    for (id, want) in [
        ("x", "x.md"),
        ("x.md", "x.md"),
        ("dir/x", "x.md"),
        ("dir/x.md/", "x.md"),
        ("dir/x/.", "x.md"),
        ("x.md.md", "x.md"),
        ("", ".md"),
        (".", ".md"),
        ("..", ".md"),
        ("a/..", ".md"),
        ("/", ".md"),
    ] {
        assert_eq!(resolve_name(id), want, "{id}");
    }
    assert_eq!(resolve_name("a/b"), resolve_name("a/b.md"));
    assert_eq!(resolve("/s", "x"), "/s/x.md");
    assert_eq!(sm("/home/me", ".store"), "/home/me/.store/memnir");
    assert_eq!(sm("/", ".store"), "/.store/memnir");
    assert_eq!(compact_marker("/home/me", ".store"), "/home/me/.store/memnir/.index_compact");
    assert_eq!(peers_file("/home/me", ".store"), "/home/me/.store/memnir.conf");
    assert_eq!(join_path("", "b"), "b");
    assert_eq!(join_path("a/", "b"), "a/b");
    assert_eq!(join_path("a", "/b"), "/b");
}

#[test]
fn tokens_are_hexadecimal() {
    let t = rand_token(&[0xab, 0x01, 0xff, 0x00]);
    assert_eq!(t, "ab01ff00");
    assert_eq!(short_tag(&t), "ab01ff");
    assert_eq!(short_tag("abc"), "abc");
    assert_eq!(count_tokens("กขคงจฉชซ"), 2);
}

#[test]
fn counts_are_kept_in_order() {
    let names: Vec<String> = ["b", "a", "b", "c", "b", "a"].iter().map(|s| s.to_string()).collect();
    let c = tally(&names);
    let got: Vec<(&str, usize)> = c.entries.iter().map(|e| (e.name.as_str(), e.n)).collect();
    assert_eq!(got, vec![("a", 2), ("b", 3), ("c", 1)]);
    assert_eq!(fmt_counts(&c), "b:3  a:2  c:1");
    let mut d = Counts::new();
    for (n, k) in [("c", 9), ("b", 3), ("a", 2), ("c", 1)] {
        d.insert(n.to_string(), k);
    }
    assert_eq!(fmt_counts(&d), fmt_counts(&c));
    assert_eq!(d.get("c"), 1);
    assert_eq!(d.get("x"), 0);
    // Equal counts stand by name.
    let mut e = Counts::new();
    e.insert("z".to_string(), 1);
    e.insert("y".to_string(), 1);
    assert_eq!(fmt_counts(&e), "y:1  z:1");
}

#[test]
fn links_become_edges_or_are_broken() {
    let a = analysis();
    let edges: Vec<(&str, &str)> = a.edges.iter().map(|e| (e.0.as_str(), e.1.as_str())).collect();
    assert_eq!(edges, vec![("alpha_note.md", "beta.md"), ("beta.md", "alpha_note.md")]);
    assert_eq!(a.broken, 2);
    assert_eq!(a.edges.len() + a.broken, a.mems.iter().map(|m| m.links.len()).sum::<usize>());
    assert_eq!(a.isolated, vec!["gamma_note_long.md", "mac_mini_setup.md"]);
    assert!(a.edges.iter().all(|e| a.mems.iter().any(|m| m.file == e.0) && a.mems.iter().any(|m| m.file == e.1)));
}

#[test]
fn analysis_sums_up() {
    let a = analysis();
    assert_eq!((a.n, a.shared, a.idx_tok), (5, 2, 2));
    assert_eq!(a.pool_tok, a.mems.iter().map(|m| m.tok).sum::<usize>());
    assert_eq!(fmt_counts(&a.types), "project:2  ?:1  reservation:1  user:1");
    assert_eq!(fmt_counts(&a.origins), "?:4  mac:1");
    assert_eq!(a.scope_flags, vec!["mac_mini_setup.md"]);
    assert!(a.oversized.is_empty());
    assert_eq!((a.resv_active, a.resv_collisions), (1, 0));
}

#[test]
fn oversized_memories_are_flagged_largest_first() {
    let mk = |file: &str, typ: &str, tok: usize| Mem {
        file: file.to_string(),
        name: file.to_string(),
        typ: typ.to_string(),
        desc: String::new(),
        origin: "?".to_string(),
        shared: false,
        tok,
        links: Vec::new(),
    };
    let mems = vec![
        mk("a.md", "project", 2000),
        mk("b.md", "project", 2001),
        mk("c.md", "reservation", 9000),
        mk("d.md", "user", 5000),
        mk("e.md", "user", 2001),
    ];
    assert!(can_count(&mems));
    let a = analyze(mems, &[], "");
    assert_eq!(a.oversized, vec!["d.md", "b.md", "e.md"]);
    // Totals that do not fit are noticed.
    assert!(!can_count(&[mk("a.md", "x", usize::MAX), mk("b.md", "x", 1)]));
}

#[test]
fn last_memory_that_answers_is_the_target() {
    let mems = load(&[
        file("one.md", "---\nname: same\n---\n[[same]]"),
        file("two.md", "---\nname: Same!\n---\n"),
    ]);
    let (edges, broken) = follow_links(&mems);
    assert_eq!(edges, vec![("one.md".to_string(), "two.md".to_string())]);
    assert_eq!(broken, 0);
}

#[test]
fn broken_links_are_repaired_or_left() {
    let mems = load(&pool());
    let plan = plan_repairs(&mems);
    assert_eq!(plan.fixable.len(), 1);
    let f = &plan.fixable[0];
    assert_eq!((f.file.as_str(), f.old.as_str(), f.new.as_str()), ("alpha_note.md", "gamma note", "gamma_note_long"));
    assert_eq!(plan.unresolved, vec![("beta.md".to_string(), "nowhere-at-all".to_string())]);
    // All broken links are accounted for.
    assert_eq!(plan.fixable.len() + plan.unresolved.len(), analysis().broken);
    assert_eq!(
        report_repairs(&plan, false),
        vec!["1 fixable [[link]] (dry-run — pass --apply):", "  alpha_note:  [[gamma note]] → [[gamma_note_long]]"]
    );
    assert_eq!(report_repairs(&plan, true)[0], "1 fixable [[link]] (applying):");
    assert_eq!(
        report_unresolved(&plan.unresolved),
        vec![
            "1 unresolved (no unique match — likely forward-references, left as-is):",
            "  beta:  [[nowhere-at-all]]"
        ]
    );
    let fixes = fixes_for(&plan.fixable, "alpha_note.md");
    let (text, n) = apply_fixes(&pool()[0].1, &fixes);
    assert_eq!(n, 1);
    assert!(text.ends_with("see [[beta]] and [[gamma_note_long]]"));
    assert!(fixes_for(&plan.fixable, "beta.md").is_empty());
    // A repaired link is no longer broken.
    let mut files = pool();
    files[0].1 = text;
    assert!(plan_repairs(&load(&files)).fixable.is_empty());
    // A content without the link stays.
    assert_eq!(apply_fixes("nothing", &fixes), ("nothing".to_string(), 0));
    assert_eq!(report_rewritten(1), "✓ rewrote 1 link");
    assert_eq!(report_rewritten(0), "✓ rewrote 0 links");
}

#[test]
fn links_with_blanks_are_repaired() {
    let files = [
        file("a.md", "see [[ primekg graph ]] and [[primekg graph]], not [[ other ]] or [[primekg graph"),
        file("primekg_graph_db.md", "x"),
        file("other.md", "y"),
    ];
    let mems = load(&files);
    let plan = plan_repairs(&mems);
    assert_eq!(plan.fixable[0].old, "primekg graph");
    let fixes = fixes_for(&plan.fixable, "a.md");
    let (text, n) = apply_fixes(&files[0].1, &fixes);
    // Both copies are rewritten; the link counts once.
    assert_eq!((fixes.len(), n), (2, 1));
    assert_eq!(text, "see [[primekg_graph_db]] and [[primekg_graph_db]], not [[ other ]] or [[primekg graph");
    // Nothing is left to repair.
    let again = load(&[file("a.md", &text), file("primekg_graph_db.md", "x"), file("other.md", "y")]);
    let plan = plan_repairs(&again);
    assert!(plan.fixable.is_empty() && plan.unresolved.is_empty());
    assert_eq!(apply_fixes(&text, &fixes), (text.clone(), 0));
}

#[test]
fn only_whole_links_are_rewritten() {
    let fixes = [("a".to_string(), "b".to_string()), ("a".to_string(), "c".to_string()), ("x".to_string(), "y".to_string())];
    let fix = |s: &str| apply_fixes(s, &fixes);
    assert_eq!(fix("[[a]]"), ("[[b]]".to_string(), 1));
    assert_eq!(fix("[[a]][[\tx\n]][[a b]]"), ("[[b]][[y]][[a b]]".to_string(), 2));
    assert_eq!(fix("[[[a]]"), ("[[[a]]".to_string(), 0));
    assert_eq!(fix("[a] [[a]"), ("[a] [[a]".to_string(), 0));
    // An open link reaches to the next closing brackets.
    assert_eq!(fix("[[ [[a]] ]] [[x]]"), ("[[ [[a]] ]] [[y]]".to_string(), 1));
    assert_eq!(fix("é [[a]]]"), ("é [[b]]]".to_string(), 1));
    assert_eq!(fix("[[a]] [[a]] [[x]] [[x]] [[x]]"), ("[[b]] [[b]] [[y]] [[y]] [[y]]".to_string(), 2));
    assert_eq!(fix(""), (String::new(), 0));
    assert_eq!(fix("["), ("[".to_string(), 0));
    assert_eq!(fix("[["), ("[[".to_string(), 0));
}

#[test]
fn repairs_are_made_one_after_another() {
    let fixes = [("a".to_string(), "b".to_string()), ("b".to_string(), "c".to_string())];
    assert_eq!(apply_fixes("[[a]] [[b]]", &fixes), ("[[c]] [[c]]".to_string(), 2));
    assert_eq!(apply_fixes("[[a]]", &fixes), ("[[c]]".to_string(), 2));
    assert_eq!(apply_fixes("[[b]]", &fixes), ("[[c]]".to_string(), 1));
}

#[test]
fn nothing_to_repair_is_said() {
    let plan = plan_repairs(&load(&[file("a.md", "[[a]]")]));
    assert_eq!(report_repairs(&plan, true), vec!["✓ no broken [[links]] — nothing to fix"]);
    assert!(report_unresolved(&plan.unresolved).is_empty());
    let many: Vec<(String, String)> = (0..22).map(|i| ("f.md".to_string(), format!("l{i}"))).collect();
    let said = report_unresolved(&many);
    assert_eq!(said.len(), 22);
    assert_eq!(said[20], "  f:  [[l19]]");
    assert_eq!(said[21], "  … +2 more");
}

#[test]
fn related_memories_come_by_distance() {
    let mems = load(&[
        file("a.md", "[[b]]"),
        file("b.md", "[[d]]"),
        file("c.md", "[[a]]"),
        file("d.md", "[[e]]"),
        file("e.md", ""),
        file("f.md", ""),
    ]);
    let rows = |start: &str, depth: usize| {
        find_related(&mems, start, depth).into_iter().map(|(f, d)| format!("{f}{d}")).collect::<Vec<_>>().join(" ")
    };
    assert_eq!(rows("a.md", 0), "");
    assert_eq!(rows("a.md", 1), "b.md1 c.md1");
    assert_eq!(rows("a.md", 2), "b.md1 c.md1 d.md2");
    assert_eq!(rows("a.md", usize::MAX), "b.md1 c.md1 d.md2 e.md3");
    // Distance goes both ways.
    assert!(rows("e.md", 3).contains("a.md3"));
    assert_eq!(
        related(&mems, "a", 2).unwrap(),
        vec!["🔗 related to a.md (≤2 hops):", "    b.md", "    c.md", "      d.md"]
    );
    assert_eq!(related(&mems, "f", 2).unwrap()[1], "  (no [[links]] — isolated)");
    assert_eq!(related(&mems, "zzz", 2), Err("not found: zzz".to_string()));
}

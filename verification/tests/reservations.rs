use memnir::frontmatter::{frontmatter, has_scope_shared};
use memnir::listing::{list_reservations, select};
use memnir::memory::md_files;
use memnir::reservation::{
    count_resv_collisions, load_reservations, read_reservation, ReserveMode, Resv,
};
use memnir::reserve::{
    can_reserve, check_repo, choose_version, clean_desc, known_host, name_file, parse_reserve_args, plan_release,
    plan_reservation, release, report_released, versions_held, warn_rivals, write_reservation, Choice, ReleasePlan,
    ReservePlan,
};
use memnir::version::{next_version, Bump};

fn resv(repo: &str, version: &str, owner: &str, tag: &str) -> Resv {
    let text = write_reservation(repo, version, owner, tag, "work", 100);
    read_reservation(&name_file(repo, version, tag), &text).unwrap()
}

fn said(c: Choice) -> String {
    match c {
        Choice::Refused(v) => format!("refused: {}", v.join("|")),
        Choice::Nothing(s) => format!("nothing: {s}"),
        Choice::Take(v) => format!("take: {v}"),
    }
}

#[test]
fn written_reservation_reads_back() {
    let text = write_reservation("Mimir", "0.5.0", "mac", "abc123", "OCR retry", 1234);
    assert_eq!(
        text,
        "---\nname: reservation-mimir-0.5.0-abc123\ndescription: OCR retry\nmetadata:\n  type: reservation\n  scope: shared\n  repo: Mimir\n  version: 0.5.0\n  status: active\n  owner: mac\n  tag: abc123\n  reserved_at: 1234\n---\n🔖 **Mimir v0.5.0** — reserved by `mac`\n\n**For:** OCR retry  \n**Reserved:** 1234 (unix epoch)  \n**Release when done:** `memnir release Mimir 0.5.0`\n"
    );
    let r = read_reservation("f.md", &text).unwrap();
    assert_eq!((r.file.as_str(), r.repo.as_str(), r.repo_slug.as_str()), ("f.md", "Mimir", "mimir"));
    assert_eq!((r.version.as_str(), r.ver), ("0.5.0", Some((0, 5, 0))));
    assert_eq!((r.status.as_str(), r.owner.as_str(), r.tag.as_str()), ("active", "mac", "abc123"));
    assert_eq!((r.reserved_at, r.desc.as_str()), (1234, "OCR retry"));
    assert!(has_scope_shared(frontmatter(&text)));
    // Without a description a stand-in is written.
    let text = write_reservation("Mimir", "0.5.0", "mac", "t", "", 1);
    assert_eq!(read_reservation("f.md", &text).unwrap().desc, "(no description)");
}

#[test]
fn other_memories_are_no_reservations() {
    assert!(read_reservation("f.md", "---\ntype: project\nrepo: x\n---\n").is_none());
    assert!(read_reservation("f.md", "plain").is_none());
    let r = read_reservation("f.md", "---\ntype: reservation\nreserved_at: soon\n---\n").unwrap();
    assert_eq!((r.status.as_str(), r.owner.as_str(), r.tag.as_str(), r.reserved_at), ("active", "?", "", 0));
    assert_eq!((r.repo.as_str(), r.ver), ("", None));
}

#[test]
fn reservation_file_is_a_memory_file() {
    let f = name_file("My Repo", "2025/01 02\\x", "aa");
    assert_eq!(f, "reservation_my-repo_2025-01-02-x_aa.md");
    assert_eq!(md_files(vec![f.clone()]), vec![f.clone()]);
    assert_ne!(f, name_file("My Repo", "2025/01 02\\x", "bb"));
}

#[test]
fn released_reservation_is_free() {
    let text = write_reservation("Mimir", "0.5.0", "mac", "abc123", "OCR", 1234);
    let done = release(text.clone(), 2000);
    let r = read_reservation("f.md", &done).unwrap();
    assert_eq!(r.status, "released");
    assert_eq!((r.repo.as_str(), r.owner.as_str(), r.tag.as_str(), r.reserved_at), ("Mimir", "mac", "abc123", 1234));
    assert!(done.contains("  status: released\n"));
    assert!(done.contains("  scope: shared\n  released_at: 2000\n"));
    assert_eq!(release("plain".to_string(), 1), "plain");
    // It no longer counts.
    let files = vec![("f.md".to_string(), done)];
    let rs = load_reservations(&files);
    assert!(versions_held(&rs, "mimir").is_empty());
}

#[test]
fn explicit_version_is_taken_or_refused() {
    let rs = vec![resv("Mimir", "0.5.0", "mini", "a"), resv("Mimir", "0.6.0", "mac", "b")];
    let ask = |v: &str| said(choose_version("Mimir", ReserveMode::Explicit(v.to_string()), "mac", &rs, 100 + 7200));
    assert_eq!(
        ask("v0.5"),
        "refused: ⚠ Mimir v0.5.0 is already reserved by mini (2h ago).|  pick another:  memnir reserve Mimir --next"
    );
    assert_eq!(ask("0.6.0"), "nothing: ✓ Mimir v0.6.0 is already reserved by you (mac) — nothing to do");
    assert_eq!(ask("0.7"), "take: 0.7.0");
    // A clock that is behind does not matter.
    let c = choose_version("Mimir", ReserveMode::Explicit("0.5.0".to_string()), "mac", &rs, 0);
    assert!(said(c).contains("(just now)."));
    // Another repository is another matter.
    let c = choose_version("Eir", ReserveMode::Explicit("0.5.0".to_string()), "mac", &rs, 0);
    assert_eq!(said(c), "take: 0.5.0");
}

#[test]
fn names_can_be_reserved_too() {
    let rs = vec![resv("Mimir", "spring", "mini", "a"), resv("Mimir", "autumn", "mac", "b")];
    let ask = |v: &str| said(choose_version("Mimir", ReserveMode::Explicit(v.to_string()), "mac", &rs, 0));
    assert_eq!(ask("spring"), "refused: ⚠ Mimir spring is already reserved by mini");
    assert_eq!(ask("autumn"), "take: autumn");
    assert_eq!(ask("winter"), "take: winter");
}

#[test]
fn only_the_same_claim_is_warned_of() {
    let mut rs = vec![resv("Mimir", "spring", "mini", "a"), resv("Mimir", "autumn", "mac", "b")];
    assert_eq!(warn_rivals(&rs, "Mimir", "spring", "a"), None);
    assert_eq!(warn_rivals(&rs, "Mimir", "autumn", "b"), None);
    assert_eq!(count_resv_collisions(&rs), 0);
    rs.push(resv("Mimir", "spring", "mac", "c"));
    assert_eq!(count_resv_collisions(&rs), 1);
    assert_eq!(
        warn_rivals(&rs, "Mimir", "spring", "a").as_deref(),
        Some("⚠ heads-up: 1 other active claim(s) on Mimir vspring — run `memnir reservations Mimir` to resolve")
    );
    // A version is the same however it is written.
    let rs = vec![resv("Mimir", "1.2", "mini", "a"), resv("Mimir", "v1.2.0", "mac", "b"), resv("Eir", "1.2.0", "mac", "c")];
    assert_eq!(
        warn_rivals(&rs, "mimir", "1.2.0", "a").as_deref(),
        Some("⚠ heads-up: 1 other active claim(s) on mimir v1.2.0 — run `memnir reservations mimir` to resolve")
    );
}

#[test]
fn next_version_is_held_by_nobody() {
    let rs = vec![resv("Mimir", "0.5.0", "mini", "a"), resv("Mimir", "1.2.3", "mac", "b"), resv("Eir", "9.0.0", "mac", "c")];
    for (b, want) in [(Bump::Major, "2.0.0"), (Bump::Minor, "1.3.0"), (Bump::Patch, "1.2.4")] {
        assert!(can_reserve("mimir", &ReserveMode::Auto(b), &rs));
        let c = choose_version("mimir", ReserveMode::Auto(b), "mac", &rs, 0);
        assert_eq!(said(c), format!("take: {want}"));
    }
    assert_eq!(versions_held(&rs, "mimir"), vec![(0, 5, 0), (1, 2, 3)]);
    assert_eq!(next_version(&versions_held(&rs, "mimir"), Bump::Minor), (1, 3, 0));
    // The numbers can run out.
    let full = vec![resv("Mimir", "18446744073709551615.0.0", "mac", "z")];
    assert!(!can_reserve("Mimir", &ReserveMode::Auto(Bump::Major), &full));
    assert!(can_reserve("Mimir", &ReserveMode::Auto(Bump::Minor), &full));
}

#[test]
fn reserving_adds_no_collision() {
    let mut rs = vec![resv("Mimir", "0.5.0", "mini", "a"), resv("Mimir", "0.5.0", "mac", "b")];
    assert_eq!(count_resv_collisions(&rs), 1);
    match plan_reservation("Mimir", ReserveMode::Auto(Bump::Minor), " new\nthing ", "", &rs, "0123456789", 77) {
        ReservePlan::Write(w) => {
            assert_eq!((w.version.as_str(), w.tag.as_str()), ("0.6.0", "012345"));
            assert_eq!(w.file, "reservation_mimir_0.6.0_012345.md");
            assert_eq!(
                w.said,
                vec![
                    "🔖 reserved Mimir v0.6.0",
                    "   owner unknown   tag 012345",
                    "   for: new thing",
                    "   release when done:  memnir release Mimir 0.6.0"
                ]
            );
            rs.push(read_reservation(&w.file, &w.text).unwrap());
            assert_eq!(count_resv_collisions(&rs), 1);
            assert_eq!(warn_rivals(&rs, "Mimir", "0.6.0", "012345"), None);
            rs.push(resv("Mimir", "0.6.0", "mini", "other"));
            // A second claim shows up.
            assert_eq!(count_resv_collisions(&rs), 2);
            assert_eq!(
                warn_rivals(&rs, "Mimir", "0.6.0", "012345").as_deref(),
                Some("⚠ heads-up: 1 other active claim(s) on Mimir v0.6.0 — run `memnir reservations Mimir` to resolve")
            );
        }
        _ => panic!(),
    }
    match plan_reservation("Mimir", ReserveMode::Explicit("0.5.0".to_string()), "", "third", &rs, "t", 77) {
        ReservePlan::Refused(v) => assert_eq!(v.len(), 2),
        _ => panic!(),
    }
    match plan_reservation("Eir", ReserveMode::Explicit("1".to_string()), "", "mac", &rs, "t", 77) {
        ReservePlan::Write(w) => assert_eq!(w.said.len(), 3),
        _ => panic!(),
    }
}

#[test]
fn requests_are_tidied() {
    assert_eq!(clean_desc(" a\nb\r\nc "), "a b  c");
    assert_eq!(known_host(""), "unknown");
    assert_eq!(known_host("mac"), "mac");
    assert_eq!(check_repo("!!"), Some("memnir: repo name has no usable characters".to_string()));
    assert_eq!(check_repo("a"), None);
    let args: Vec<String> = ["Mimir", "1.0", "2.0", "x"].iter().map(|s| s.to_string()).collect();
    // Only the first version is the version.
    assert_eq!(
        parse_reserve_args(&args),
        Some(("Mimir".to_string(), ReserveMode::Explicit("1.0".to_string()), "2.0 x".to_string()))
    );
    let args: Vec<String> = ["Mimir", "1.0", "--patch", "--major"].iter().map(|s| s.to_string()).collect();
    assert_eq!(
        parse_reserve_args(&args),
        Some(("Mimir".to_string(), ReserveMode::Auto(Bump::Major), "1.0".to_string()))
    );
}

#[test]
fn only_own_reservations_are_released() {
    let rs = vec![
        resv("Mimir", "0.5.0", "mini", "a"),
        resv("Mimir", "0.5", "mac", "b"),
        resv("Mimir", "0.6.0", "mini", "c"),
        resv("Eir", "0.5.0", "mac", "d"),
    ];
    match plan_release("mimir", "v0.5.0", "mac", &rs) {
        ReleasePlan::Release(files) => assert_eq!(files, vec!["reservation_mimir_0.5_b.md"]),
        _ => panic!(),
    }
    match plan_release("Mimir", "0.6.0", "mac", &rs) {
        ReleasePlan::Refused(v) => assert_eq!(
            v,
            vec![
                "⚠ Mimir v0.6.0 is reserved by mini (not this machine, mac).",
                "  release it from the owning machine, or delete the file manually if it's stale."
            ]
        ),
        _ => panic!(),
    }
    match plan_release("Mimir", "7", "mac", &rs) {
        ReleasePlan::Refused(v) => assert_eq!(v, vec!["no active reservation for Mimir v7"]),
        _ => panic!(),
    }
    assert_eq!(report_released("Mimir", "0.5.0", 1), "✓ released Mimir v0.5.0  (1 reservation)");
    assert_eq!(report_released("Mimir", "0.5.0", 2), "✓ released Mimir v0.5.0  (2 reservations)");
}

#[test]
fn reservations_are_listed() {
    let mk = || {
        let mut done = resv("Eir", "1.0.0", "mac", "z");
        done.status = "released".to_string();
        let mut plain = resv("Mimir", "0.5.0", "mac", "b");
        plain.desc = "(no description)".to_string();
        vec![plain, done, resv("Mimir", "0.5.0", "mini", "a"), resv("Mimir", "0.4.0", "mini", "c"), resv("Mimir", "zeta", "mini", "d")]
    };
    let all = list_reservations(mk(), None, true, 160);
    assert_eq!(
        all,
        vec![
            "🔖 5 reservation(s)".to_string(),
            "\n  Eir".to_string(),
            format!("    v{:<10} {:<16} {:<10} {}{}", "1.0.0", "mac", "1m ago", "work", "  (released)"),
            "\n  Mimir".to_string(),
            format!("    v{:<10} {:<16} {:<10} {}", "zeta", "mini", "1m ago", "work"),
            format!("    v{:<10} {:<16} {:<10} {}", "0.4.0", "mini", "1m ago", "work"),
            format!("    v{:<10} {:<16} {:<10} {}{}", "0.5.0", "mac", "1m ago", "", "  ⚠ COLLISION"),
            format!("    v{:<10} {:<16} {:<10} {}{}", "0.5.0", "mini", "1m ago", "work", "  ⚠ COLLISION"),
            "\n⚠ 1 version(s) claimed by 2+ sessions — release the duplicate(s): memnir release <repo> <version>".to_string(),
        ]
    );
    let active = list_reservations(mk(), Some("mimir"), false, 160);
    assert_eq!(active[0], "🔖 4 reservation(s) for mimir · active");
    assert_eq!(list_reservations(mk(), Some("Eir"), false, 160), vec!["no active reservations for Eir"]);
    assert_eq!(list_reservations(Vec::new(), None, true, 0), vec!["no reservations"]);
    let order: Vec<String> = select(mk(), None, true).into_iter().map(|r| r.tag).collect();
    assert_eq!(order, vec!["z", "d", "c", "b", "a"]);
}

use memnir::counts::{fmt_counts, Counts};
use memnir::dashboard::jstr;
use memnir::frontmatter::{fm_field, frontmatter, has_scope_shared, set_fm_field, set_origin_in, set_scope_in};
use memnir::index::{index_file_of, partition_tier0, tier0_types};
use memnir::links::{extract_links, resolve_broken_link};
use memnir::naming::{norm, slug};
use memnir::reservation::{count_resv_collisions, ReserveMode, Resv};
use memnir::reserve::parse_reserve_args;
use memnir::search::score_match;
use memnir::server::urldecode;
use memnir::version::{bump_ver, human_age, next_version, parse_semver, Bump};

#[test]
fn frontmatter_extracts_block() {
    assert_eq!(frontmatter("---\nname: x\ntype: project\n---\nbody"), "name: x\ntype: project");
    assert_eq!(frontmatter("no frontmatter here"), "");
    assert_eq!(frontmatter("---\nunterminated"), "");
}

#[test]
fn fm_field_reads_values_and_indent() {
    let fm = "name: foo\n  type: project\ndescription: hi there: ok";
    assert_eq!(fm_field(fm, "name").as_deref(), Some("foo"));
    assert_eq!(fm_field(fm, "type").as_deref(), Some("project"));
    assert_eq!(fm_field(fm, "description").as_deref(), Some("hi there: ok"));
    assert_eq!(fm_field(fm, "missing"), None);
}

#[test]
fn scope_shared_detection() {
    assert!(has_scope_shared("type: project\n  scope: shared"));
    assert!(has_scope_shared("scope:shared"));
    assert!(!has_scope_shared("scope: local"));
    assert!(!has_scope_shared("type: project"));
}

#[test]
fn extract_links_finds_and_trims_wikilinks() {
    assert_eq!(extract_links("see [[a]] and [[ b-c ]] end"), vec!["a", "b-c"]);
    assert_eq!(extract_links("none here"), Vec::<String>::new());
    assert_eq!(extract_links("[[unterminated"), Vec::<String>::new());
}

#[test]
fn norm_strips_punct_and_lowercases() {
    assert_eq!(norm("Project_Firestore-Envs"), "projectfirestoreenvs");
    assert_eq!(norm("a-b_c"), norm("A B C"));
}

#[test]
fn set_scope_adds_after_type_idempotently() {
    let src = "---\nname: x\nmetadata:\n  type: project\n---\nbody\n";
    let out = set_scope_in(src, true).unwrap();
    assert!(out.contains("  scope: shared"), "{out}");
    assert!(out.contains("body"));
    let twice = set_scope_in(&out, true).unwrap();
    assert_eq!(twice.matches("scope: shared").count(), 1);
}

#[test]
fn set_scope_local_removes_tag() {
    let src = "---\ntype: project\n  scope: shared\n---\nx";
    let out = set_scope_in(src, false).unwrap();
    assert!(!out.contains("scope:"));
    assert!(out.contains("type: project"));
}

#[test]
fn set_scope_none_without_frontmatter() {
    assert!(set_scope_in("plain text", true).is_none());
}

#[test]
fn set_origin_adds_once() {
    let src = "---\nname: x\nmetadata:\n  type: project\n  scope: shared\n---\nbody";
    let out = set_origin_in(src, "MacBook").unwrap();
    assert!(out.contains("  origin: MacBook"), "{out}");
    // The origin goes behind the scope.
    assert!(out.find("scope: shared").unwrap() < out.find("origin: MacBook").unwrap());
    // One that is there stays.
    assert!(set_origin_in(&out, "Other").is_none());
}

#[test]
fn index_file_parsing() {
    assert_eq!(index_file_of("- [Title](foo_bar.md) — desc"), Some("foo_bar.md"));
    assert_eq!(index_file_of("- [a](x.md)"), Some("x.md"));
    assert_eq!(index_file_of("no link here"), None);
}

#[test]
fn urldecode_handles_percent_and_plus() {
    assert_eq!(urldecode("a%20b+c"), "a b c");
    assert_eq!(urldecode("plain"), "plain");
    assert_eq!(urldecode("%2F"), "/");
    assert_eq!(urldecode("trailing%"), "trailing%");
}

#[test]
fn jstr_escapes_specials() {
    assert_eq!(jstr("a\"b\\c\n"), "\"a\\\"b\\\\c\\n\"");
    assert_eq!(jstr("plain"), "\"plain\"");
}

#[test]
fn score_match_weights_and_fields() {
    // The word is in the name (6), the description (3) and the body (1).
    let (s, f) = score_match(&["primekg"], "primekg_graph_agent.md", "PrimeKG agent", "uses primekg", "body about primekg");
    assert_eq!(s, 10);
    assert_eq!(f, "name+desc+body");
    // Nothing matches.
    assert_eq!(score_match(&["zzz"], "a.md", "a", "b", "c"), (0, String::new()));
    // Only the body does.
    let (s2, f2) = score_match(&["tenant"], "a.md", "a", "b", "the tenant id");
    assert_eq!((s2, f2.as_str()), (1, "body"));
}

#[test]
fn fmt_counts_sorts_desc() {
    let mut m = Counts::new();
    m.insert("a".to_string(), 2);
    m.insert("b".to_string(), 5);
    assert_eq!(fmt_counts(&m), "b:5  a:2");
}

#[test]
fn partition_tier0_splits_by_type() {
    let items = vec![
        ("user".to_string(), "U".to_string()),
        ("project".to_string(), "P".to_string()),
        ("feedback".to_string(), "F".to_string()),
        ("reference".to_string(), "R".to_string()),
    ];
    let tier0 = vec!["user".to_string(), "feedback".to_string()];
    let (t0, rest) = partition_tier0(&items, &tier0);
    assert_eq!(t0, vec!["U", "F"]);
    assert_eq!(rest, vec!["P", "R"]);
    // Without always-on types everything is in the rest.
    let (none, all) = partition_tier0(&items, &[]);
    assert!(none.is_empty());
    assert_eq!(all.len(), 4);
}

#[test]
fn resolve_broken_link_unique_match_only() {
    let targets: Vec<(String, String)> = [("primekg-graph-agent", "primekg-graph-agent"), ("iris-fhir-r5-plan", "iris-fhir-r5-plan")]
        .iter().map(|(f, n)| (norm(f), n.to_string())).collect();
    // The only name that the link is part of.
    assert_eq!(resolve_broken_link("primekg graph", &targets).as_deref(), Some("primekg-graph-agent"));
    // Too short.
    assert_eq!(resolve_broken_link("iris", &targets), None);
    // No match.
    assert_eq!(resolve_broken_link("totally-new-note", &targets), None);
}

#[test]
fn resolve_broken_link_ambiguous_is_skipped() {
    let targets: Vec<(String, String)> = [("eir-cds-cardio", "eir-cds-cardio"), ("eir-cds-router", "eir-cds-router")]
        .iter().map(|(f, n)| (norm(f), n.to_string())).collect();
    // Part of both.
    assert_eq!(resolve_broken_link("eir-cds", &targets), None);
}

#[test]
fn tier0_types_parses_marker_body() {
    let parsed: Vec<String> = tier0_types(Some("user, feedback project\n"));
    assert_eq!(parsed, vec!["user", "feedback", "project"]);
}

#[test]
fn slug_normalizes() {
    assert_eq!(slug("Mimir"), "mimir");
    assert_eq!(slug("heimdall-trace"), "heimdall-trace");
    assert_eq!(slug("My Repo / v2!!"), "my-repo-v2");
    assert_eq!(slug("__weird__"), "weird");
    assert_eq!(slug("!!!"), "");
}

#[test]
fn parse_semver_variants() {
    assert_eq!(parse_semver("1.2.3"), Some((1, 2, 3)));
    assert_eq!(parse_semver("v2.4.0"), Some((2, 4, 0)));
    assert_eq!(parse_semver("1.2"), Some((1, 2, 0)));
    assert_eq!(parse_semver("3"), Some((3, 0, 0)));
    assert_eq!(parse_semver("1.2.3-rc1"), Some((1, 2, 3)));
    assert_eq!(parse_semver("1.2.3+build"), Some((1, 2, 3)));
    assert_eq!(parse_semver("1.2.3.4"), None);
    assert_eq!(parse_semver("1.x.0"), None);
    assert_eq!(parse_semver(""), None);
    assert_eq!(parse_semver("v"), None);
}

#[test]
fn bump_and_next_version() {
    assert_eq!(bump_ver((1, 2, 3), Bump::Major), (2, 0, 0));
    assert_eq!(bump_ver((1, 2, 3), Bump::Minor), (1, 3, 0));
    assert_eq!(bump_ver((1, 2, 3), Bump::Patch), (1, 2, 4));
    // The first of its kind.
    assert_eq!(next_version(&[], Bump::Minor), (0, 1, 0));
    assert_eq!(next_version(&[], Bump::Major), (1, 0, 0));
    assert_eq!(next_version(&[], Bump::Patch), (0, 0, 1));
    // The newest one raised, in whatever order they come.
    assert_eq!(next_version(&[(1, 0, 0), (2, 3, 0), (2, 1, 5)], Bump::Minor), (2, 4, 0));
    assert_eq!(next_version(&[(0, 9, 0), (1, 0, 0)], Bump::Patch), (1, 0, 1));
}

#[test]
fn set_fm_field_replaces_or_inserts() {
    let src = "---\nname: x\nmetadata:\n  type: reservation\n  status: active\n---\nbody";
    // Replaced, with its indent.
    let out = set_fm_field(src, "status", "released").unwrap();
    assert!(out.contains("  status: released"), "{out}");
    assert!(!out.contains("status: active"));
    assert_eq!(out.matches("status:").count(), 1);
    // Inserted.
    let out2 = set_fm_field(src, "released_at", "123").unwrap();
    assert!(out2.contains("released_at: 123"), "{out2}");
    // Nothing to write to.
    assert!(set_fm_field("plain", "k", "v").is_none());
}

#[test]
fn human_age_buckets() {
    assert_eq!(human_age(10), "just now");
    assert_eq!(human_age(120), "2m ago");
    assert_eq!(human_age(3 * 3600), "3h ago");
    assert_eq!(human_age(2 * 86400 + 5), "2d ago");
}

#[test]
fn parse_reserve_args_modes() {
    let s = |xs: &[&str]| xs.iter().map(|x| x.to_string()).collect::<Vec<_>>();
    // The next minor one, with a description.
    assert_eq!(
        parse_reserve_args(&s(&["Mimir", "OCR", "retry"])),
        Some(("Mimir".into(), ReserveMode::Auto(Bump::Minor), "OCR retry".into()))
    );
    // A version.
    assert_eq!(
        parse_reserve_args(&s(&["heimdall", "2.4.0", "tool", "fix"])),
        Some(("heimdall".into(), ReserveMode::Explicit("2.4.0".into()), "tool fix".into()))
    );
    // An option.
    assert_eq!(
        parse_reserve_args(&s(&["Mimir", "--major", "big", "rewrite"])),
        Some(("Mimir".into(), ReserveMode::Auto(Bump::Major), "big rewrite".into()))
    );
    assert_eq!(
        parse_reserve_args(&s(&["Mimir", "--next"])),
        Some(("Mimir".into(), ReserveMode::Auto(Bump::Minor), String::new()))
    );
    assert_eq!(
        parse_reserve_args(&s(&["Eir", "--patch", "hotfix"])),
        Some(("Eir".into(), ReserveMode::Auto(Bump::Patch), "hotfix".into()))
    );
    // No repository.
    assert_eq!(parse_reserve_args(&s(&["--patch"])), None);
    assert_eq!(parse_reserve_args(&[]), None);
}

#[test]
fn collision_counts_distinct_tags() {
    let mk = |repo: &str, ver: &str, status: &str, tag: &str| Resv {
        file: format!("reservation_{}_{}_{}.md", repo, ver, tag),
        repo_slug: slug(repo),
        repo: repo.into(),
        ver: parse_semver(ver),
        version: ver.into(),
        status: status.into(),
        owner: "host".into(),
        tag: tag.into(),
        reserved_at: 0,
        desc: String::new(),
    };
    // One version under two tags.
    let rs = vec![
        mk("Mimir", "0.5.0", "active", "aaa"),
        mk("Mimir", "0.5.0", "active", "bbb"),
        mk("Mimir", "0.6.0", "active", "ccc"),
    ];
    assert_eq!(count_resv_collisions(&rs), 1);
    // A released one does not count.
    let rs2 = vec![
        mk("Mimir", "0.5.0", "active", "aaa"),
        mk("Mimir", "0.5.0", "released", "bbb"),
    ];
    assert_eq!(count_resv_collisions(&rs2), 0);
}

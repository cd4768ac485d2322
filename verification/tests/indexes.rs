use memnir::index::{
    always_on, compact_on, count_kept, index_file_of, partition_tier0, regen_index, report_compacted, report_restored,
    tier0_types, write_marker,
};
use memnir::memory::{load, Mem};
use memnir::scope::FileState;

fn pool() -> Vec<Mem> {
    let files: Vec<(String, String)> = [
        ("a_note.md", "---\ndescription: first\ntype: user\n---\n"),
        ("b.md", "---\ndescription: second\ntype: project\n---\n"),
        ("reservation_x.md", "---\ntype: reservation\n---\n"),
    ]
    .iter()
    .map(|(a, b)| (a.to_string(), b.to_string()))
    .collect();
    load(&files)
}

fn types(xs: &[&str]) -> Vec<String> {
    xs.iter().map(|s| s.to_string()).collect()
}

#[test]
fn index_has_a_line_for_each_memory_but_reservations() {
    let r = regen_index("", "", &pool(), None);
    assert_eq!(r.index, "# Memory Index\n\n- [a note](a_note.md) — first\n- [b](b.md) — second\n");
    assert_eq!(r.full, None);
    assert!(!r.index.contains("reservation"));
    assert_eq!(regen_index("", "", &[], None).index, "# Memory Index\n\n\n");
}

#[test]
fn lines_of_the_user_are_kept() {
    let old = "# Memory Index\n\n- [B!](b.md) — mine\n- [B?](b.md) — later\n- [gone](gone.md)\n";
    let r = regen_index(old, "- [A](a_note.md) — from the catalog\n", &pool(), None);
    assert_eq!(r.index, "# Memory Index\n\n- [A](a_note.md) — from the catalog\n- [B!](b.md) — mine\n");
}

#[test]
fn regenerating_changes_nothing() {
    let once = regen_index("- [B!](b.md) — mine", "", &pool(), None).index;
    let twice = regen_index(&once, "", &pool(), None).index;
    assert_eq!(once, twice);
}

#[test]
fn compacting_can_be_undone() {
    let start = regen_index("- [B!](b.md) — mine", "", &pool(), None).index;
    let tier0 = types(&["user", "feedback"]);
    let c = regen_index(&start, "", &pool(), Some(&tier0));
    assert_eq!(
        c.index,
        "# Memory Index (Tier-0)\n\n> Compacted: only user/feedback memories are always-on. Full catalog in [MEMORY.full.md](MEMORY.full.md); every memory stays searchable via `memnir search`.\n\n- [a note](a_note.md) — first\n"
    );
    let full = c.full.unwrap();
    assert_eq!(full, "# Memory Index — full catalog\n\n- [a note](a_note.md) — first\n- [B!](b.md) — mine\n");
    // Made anew, it stays.
    let again = regen_index(&c.index, &full, &pool(), Some(&tier0));
    assert_eq!(again.index, c.index);
    assert_eq!(again.full, Some(full.clone()));
    // Turned off, it is what it was.
    assert_eq!(regen_index(&c.index, &full, &pool(), None).index, start);
    // The head is about no memory.
    let head = c.index.lines().nth(2).unwrap().to_string();
    assert_eq!(index_file_of(&head), Some("MEMORY.full.md"));
}

#[test]
fn parting_loses_no_line() {
    let items: Vec<(String, String)> = (0..7).map(|i| (format!("t{}", i % 3), format!("l{i}"))).collect();
    let (a, b) = partition_tier0(&items, &types(&["t1"]));
    assert_eq!(a, vec!["l1", "l4"]);
    assert_eq!(a.len() + b.len(), items.len());
}

#[test]
fn marker_reads_back() {
    let t = types(&["project", "user"]);
    assert_eq!(write_marker(&t), "project,user\n");
    assert_eq!(tier0_types(Some(&write_marker(&t))), t);
    assert_eq!(write_marker(&[]), "user,feedback\n");
    assert_eq!(tier0_types(Some(" ,\n\t")), types(&["user", "feedback"]));
    assert_eq!(tier0_types(None), types(&["user", "feedback"]));
}

#[test]
fn marker_decides_whether_the_index_is_compact() {
    assert!(!compact_on(&FileState::Missing));
    assert!(compact_on(&FileState::Unreadable));
    assert_eq!(always_on(&FileState::Missing), None);
    assert_eq!(always_on(&FileState::Unreadable), Some(types(&["user", "feedback"])));
    assert_eq!(always_on(&FileState::Content("x y".to_string())), Some(types(&["x", "y"])));
}

#[test]
fn compacting_is_reported() {
    let tier0 = types(&["user", "reservation"]);
    assert_eq!(count_kept(&pool(), &tier0), 2);
    assert_eq!(
        report_compacted(&tier0, "15.0", "1.2", &pool(), 1200),
        vec![
            "✓ compact-index ON — Tier-0 = user/reservation",
            "  MEMORY.md       ~15.0k → ~1.2k tok/session (2 of 3 memories)",
            "  MEMORY.full.md  full catalog — on-demand, still searchable via `memnir search`"
        ]
    );
    let said = report_compacted(&tier0, "15.0", "12.0", &pool(), 12001);
    assert_eq!(said[3], "  ⚠ still above 12k — widen what's local or prune Tier-0 types");
    assert_eq!(report_compacted(&tier0, "15.0", "12.0", &pool(), 12000).len(), 3);
    assert_eq!(
        report_restored("9.9"),
        "✓ compact-index OFF — MEMORY.md restored to full catalog (~9.9k tok/session)"
    );
}

#[test]
fn index_lines_name_files() {
    assert_eq!(index_file_of("- [a](b.mdx) [c](d.md)"), Some("b.mdx) [c](d.md"));
    assert_eq!(index_file_of("[a](b.txt)"), None);
    assert_eq!(index_file_of("[ä](ö.md)"), Some("ö.md"));
}

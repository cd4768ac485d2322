use memnir::frontmatter::{
    fm_field, frontmatter, has_scope_shared, insert_fm_line, set_fm_field, set_origin_in, set_scope_in, split_block,
};
use memnir::scope::{
    apply_scope, is_shared_now, report_scope, stamp, stamp_origins, toggle_scope, FileState, StampPlan,
};

const MEMORY: &str = "---\nname: x\nmetadata:\n  type: project\n---\nbody\n";

#[test]
fn block_is_parted_at_the_fence() {
    assert_eq!(split_block(MEMORY), Some(("name: x\nmetadata:\n  type: project", "\n---\nbody\n")));
    assert_eq!(split_block("---\n---\n"), None);
    assert_eq!(split_block("---\na\n---"), Some(("a", "\n---")));
}

#[test]
fn inserted_line_reads_back() {
    let out = insert_fm_line(MEMORY, "owner", " me ").unwrap();
    assert_eq!(out, "---\nname: x\nmetadata:\n  type: project\n  owner:  me \n---\nbody\n");
    assert_eq!(fm_field(frontmatter(&out), "owner").as_deref(), Some("me"));
    // Only once.
    assert_eq!(insert_fm_line(&out, "owner", "you"), None);
    // Without an anchor it goes to the end.
    assert_eq!(insert_fm_line("---\na: 1\n---", "b", "2").as_deref(), Some("---\na: 1\n  b: 2\n---"));
    assert_eq!(insert_fm_line("plain", "b", "2"), None);
}

#[test]
fn updated_value_reads_back_and_keeps_the_rest() {
    let src = "---\nname: x\n  status: active\nstatus: other\n---\nbody";
    let out = set_fm_field(src, "status", "released").unwrap();
    assert_eq!(out, "---\nname: x\n  status: released\nstatus: other\n---\nbody");
    assert_eq!(fm_field(frontmatter(&out), "status").as_deref(), Some("released"));
    assert_eq!(fm_field(frontmatter(&out), "name").as_deref(), Some("x"));
    assert_eq!(set_fm_field("---\nopen", "k", "v"), None);
}

#[test]
fn sharing_marks_once_and_clearing_unmarks() {
    let on = set_scope_in(MEMORY, true).unwrap();
    assert_eq!(on, "---\nname: x\nmetadata:\n  type: project\n  scope: shared\n---\nbody\n");
    assert!(has_scope_shared(frontmatter(&on)));
    // Idempotent.
    assert_eq!(set_scope_in(&on, true).unwrap(), on);
    // Undone.
    let off = set_scope_in(&on, false).unwrap();
    assert_eq!(off, MEMORY);
    assert!(!has_scope_shared(frontmatter(&off)));
    // Other fields stay.
    assert_eq!(fm_field(frontmatter(&on), "name").as_deref(), Some("x"));
    // A scope that says something else is replaced.
    let other = "---\ntype: a\nscope: local\n---\n";
    assert_eq!(set_scope_in(other, true).unwrap(), "---\ntype: a\nscope: shared\n---\n");
}

#[test]
fn only_the_last_scope_counts() {
    for content in ["---\ntype: a\n---\nx", "---\nscope: shared\nname: b\nscope: local\n---", "---\nname: a\n\ntype: b\n---\n", "---\n\n---\n"] {
        for (first, last) in [(false, false), (false, true), (true, false), (true, true)] {
            let once = set_scope_in(content, first).unwrap();
            assert_eq!(set_scope_in(&once, last), set_scope_in(content, last));
        }
    }
    // Without a scope, a local memory stays as it is.
    for content in ["---\ntype: a\n---\nx", "---\nname: a\n\ntype: b\n---\n", "---\n\n---\n"] {
        assert_eq!(set_scope_in(content, false).as_deref(), Some(content));
    }
}

#[test]
fn origin_is_stamped_once_only() {
    let out = set_origin_in(MEMORY, "mac").unwrap();
    assert_eq!(fm_field(frontmatter(&out), "origin").as_deref(), Some("mac"));
    assert_eq!(set_origin_in(&out, "other"), None);
    assert_eq!(stamp(MEMORY, "mac"), Some(out.clone()));
    assert_eq!(stamp(&out, "other"), None);
    assert_eq!(stamp("plain", "mac"), None);
}

#[test]
fn scope_is_applied_to_what_is_there() {
    match apply_scope("x", &FileState::Missing, true) {
        Err(e) => assert_eq!(e, "not found: x"),
        Ok(_) => panic!(),
    }
    let w = apply_scope("x", &FileState::Content(MEMORY.to_string()), true).ok().unwrap();
    assert_eq!(w.write, set_scope_in(MEMORY, true));
    assert!(w.push && !w.bare);
    let w = apply_scope("x", &FileState::Content("plain".to_string()), false).ok().unwrap();
    assert_eq!(w.write, None);
    assert!(!w.push && w.bare);
    let w = apply_scope("x", &FileState::Unreadable, true).ok().unwrap();
    assert_eq!(w.write, None);
    assert!(w.push && !w.bare);
    assert_eq!(report_scope("a/x.md", true), vec!["✓ x.md → scope:shared", "  pushed to peers"]);
    assert_eq!(report_scope("x", false), vec!["✓ x.md → scope:local"]);
}

#[test]
fn toggling_goes_back_and_forth() {
    let start = FileState::Content(MEMORY.to_string());
    assert!(!is_shared_now(&start));
    let (w, said) = toggle_scope("x", &start);
    assert_eq!(said, "x → shared (pushed)");
    let next = FileState::Content(w.unwrap().write.unwrap());
    assert!(is_shared_now(&next));
    let (w, said) = toggle_scope("x", &next);
    assert_eq!(said, "x → local");
    assert_eq!(w.unwrap().write.as_deref(), Some(MEMORY));
    let (w, said) = toggle_scope("x", &FileState::Missing);
    assert!(w.is_none());
    assert_eq!(said, "not found: x");
    let (w, said) = toggle_scope("x", &FileState::Unreadable);
    assert!(w.unwrap().push);
    assert_eq!(said, "x → shared (pushed)");
}

#[test]
fn only_new_files_are_stamped() {
    let files = vec!["a.md".to_string(), "b.md".to_string()];
    assert!(matches!(stamp_origins("", "", &files), StampPlan::Nothing));
    let base = match stamp_origins("mac", "", &files) {
        StampPlan::Baseline(b) => b,
        _ => panic!(),
    };
    assert_eq!(base, "a.md\nb.md");
    // What was there is known from then on.
    match stamp_origins("mac", &base, &files) {
        StampPlan::Stamp(v) => assert!(v.is_empty()),
        _ => panic!(),
    }
    let more = vec!["a.md".to_string(), "b.md".to_string(), "c.md".to_string()];
    match stamp_origins("mac", &base, &more) {
        StampPlan::Stamp(v) => assert_eq!(v, vec!["c.md"]),
        _ => panic!(),
    }
}

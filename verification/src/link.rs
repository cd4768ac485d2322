//! Linking a project's memory directory to the store.
use crate::memory::{below, join_path};
use crate::number::{decimal, number};
use crate::text::{chain, chars_replaced, replace_chars, Text};
use vstd::prelude::*;

verus! {

/// The directory that is kept for a project, by the path it is worked on at.
pub fn project_dir(home: &str, base: &str, pwd: &str) -> (r: String)
    ensures
        r@ == below(
            below(below(home@, base@), "projects"@),
            chars_replaced(pwd@, "/"@, '-'),
        ),
{
    let projects = join_path(&join_path(home, base), "projects");
    join_path(&projects, &replace_chars(pwd, "/", '-'))
}

/// The name that an earlier memory directory is kept under.
pub fn backup_name(now: u64) -> (r: String)
    ensures
        r@ == "memory.bak."@ + decimal(now as nat),
{
    chain("memory.bak.", &number(now))
}

/// What to do to link a project.
#[derive(Clone, Copy, PartialEq, Eq, Debug)]
pub enum LinkPlan {
    /// It is linked already.
    Nothing,
    /// There is nothing in the way.
    Link,
    /// What is there goes to the store first, and is then kept as a backup.
    MergeAndLink,
}

/// Plans the link: whether the memory directory is a link already, and whether
/// there is one at all.
pub fn plan_link(is_link: bool, exists: bool) -> (r: LinkPlan)
    ensures
        r == (if is_link {
            LinkPlan::Nothing
        } else if exists {
            LinkPlan::MergeAndLink
        } else {
            LinkPlan::Link
        }),
{
    if is_link {
        LinkPlan::Nothing
    } else if exists {
        LinkPlan::MergeAndLink
    } else {
        LinkPlan::Link
    }
}

/// What the user is told once a project is linked, or was already; nothing if it
/// was done on the way.
pub open spec fn link_line(plan: LinkPlan, auto: bool, dir: Text, store: Text) -> Option<Text> {
    if auto {
        None
    } else if plan == LinkPlan::Nothing {
        Some("already linked: "@ + dir)
    } else {
        Some("✓ linked "@ + dir + " → "@ + store)
    }
}

/// What the user is told once a project is linked.
pub fn report_link(plan: LinkPlan, auto: bool, dir: &str, store: &str) -> (r: Option<String>)
    ensures
        match r {
            Some(s) => link_line(plan, auto, dir@, store@) == Some(s@),
            None => link_line(plan, auto, dir@, store@) is None,
        },
{
    if auto {
        return None;
    }
    match plan {
        LinkPlan::Nothing => Some(chain("already linked: ", dir)),
        _ => {
            let mut s = chain("✓ linked ", dir);
            s.append(" → ");
            s.append(store);
            Some(s)
        },
    }
}

} // verus!

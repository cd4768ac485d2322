//! The machine and its peers.
use crate::search::{lower_case, lowercase};
use crate::text::{
    begins, chain, contains, has, items_of, lines, lines_of, same, split_items, starts_with, texts,
    trim, trimmed, Text,
};
use vstd::prelude::*;

verus! {

/// The peers that a configuration file lists: its lines, trimmed, but for empty
/// ones and comments.
pub open spec fn listed_peers(conf: Text) -> Seq<Text> {
    lines_of(conf).map_values(|l: Text| trimmed(l)).filter(
        |l: Text| l.len() > 0 && !begins(l, "#"@),
    )
}

/// The peers that the environment names, or else those in the configuration.
pub open spec fn peers_of(env: Text, conf: Text) -> Seq<Text> {
    if items_of(env, ", \n\t"@).len() > 0 {
        items_of(env, ", \n\t"@)
    } else {
        listed_peers(conf)
    }
}

/// The other machines. `env` is what the environment says, `conf` the
/// configuration file; each is empty where it is missing.
pub fn peers(env: &str, conf: &str) -> (r: Vec<String>)
    ensures
        texts(r@) == peers_of(env@, conf@),
{
    let named = split_items(env, ", \n\t");
    if named.len() > 0 {
        return named;
    }
    let ls = lines(conf);
    let ghost all = lines_of(conf@).map_values(|l: Text| trimmed(l));
    let ghost p = |l: Text| l.len() > 0 && !begins(l, "#"@);
    let mut r: Vec<String> = Vec::new();
    let mut i: usize = 0;
    assert(texts(r@) =~= all.take(0).filter(p)) by {
        reveal(Seq::filter);
    }
    while i < ls.len()
        invariant
            i <= ls@.len(),
            texts(ls@) == lines_of(conf@),
            all == lines_of(conf@).map_values(|l: Text| trimmed(l)),
            p == (|l: Text| l.len() > 0 && !begins(l, "#"@)),
            texts(r@) == all.take(i as int).filter(p),
        decreases ls@.len() - i,
    {
        let ghost head = all.take(i + 1);
        let ghost done = texts(r@);
        assert(head.drop_last() =~= all.take(i as int));
        assert(texts(ls@)[i as int] == ls@[i as int]@);
        let t = trim(&ls[i]);
        if !t.is_empty() && !starts_with(t, "#") {
            r.push(t.to_string());
            assert(texts(r@) =~= done.push(head.last()));
        }
        proof {
            reveal(Seq::filter);
        }
        i = i + 1;
    }
    assert(all.take(i as int) =~= all);
    r
}

/// What a macOS machine is called by its processor.
pub open spec fn chip(arch: Text) -> Text {
    if arch == "aarch64"@ {
        "Apple Silicon"@
    } else if arch == "x86_64"@ {
        "Intel"@
    } else {
        arch
    }
}

/// The system's name, with its processor.
pub open spec fn os_text(os: Text, arch: Text, wsl: bool) -> Text {
    if os == "macos"@ {
        "macOS ("@ + chip(arch) + ")"@
    } else if os == "linux"@ {
        if wsl {
            "Linux (WSL2)"@
        } else {
            "Linux ("@ + arch + ")"@
        }
    } else if os == "windows"@ {
        "Windows ("@ + arch + ")"@
    } else {
        os + " ("@ + arch + ")"@
    }
}

/// `a (b)`.
fn with_arch(a: &str, b: &str) -> (r: String)
    ensures
        r@ == a@ + b@ + ")"@,
{
    let mut s = chain(a, b);
    s.append(")");
    s
}

/// The system's name, given whether it is the Linux inside Windows.
pub fn os_label_for(os: &str, arch: &str, wsl: bool) -> (r: String)
    ensures
        r@ == os_text(os@, arch@, wsl),
{
    if same(os, "macos") {
        let c = if same(arch, "aarch64") {
            "Apple Silicon"
        } else if same(arch, "x86_64") {
            "Intel"
        } else {
            arch
        };
        with_arch("macOS (", c)
    } else if same(os, "linux") {
        if wsl {
            "Linux (WSL2)".to_string()
        } else {
            with_arch("Linux (", arch)
        }
    } else if same(os, "windows") {
        with_arch("Windows (", arch)
    } else {
        with_arch(&chain(os, " ("), arch)
    }
}

/// The system's name. `kernel` is what the kernel says of its version, empty
/// where it says nothing.
pub fn os_label(os: &str, arch: &str, kernel: &str) -> (r: String)
    ensures
        r@ == os_text(os@, arch@, contains(lowercase(kernel@), "microsoft"@)),
{
    let wsl = has(&lower_case(kernel), "microsoft");
    os_label_for(os, arch, wsl)
}

} // verus!

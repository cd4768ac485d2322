//! `[[links]]` between memories: finding them and repairing broken ones.
use crate::naming::{norm, normalized};
use crate::text::{
    chars_of, contains, has, lemma_position_from, lemma_position_is, lemma_position_shift,
    occurs_at, position, same, search_from, string_of, texts, trim, trimmed, Text,
};
use vstd::prelude::*;
use vstd::utf8::encode_utf8;

verus! {

/// The names that `s` links to, in order and trimmed: what stands between `[[`
/// and the next `]]`.
pub open spec fn links_in(s: Text) -> Seq<Text>
    decreases s.len(),
{
    if s.len() < 2 {
        Seq::empty()
    } else if s[0] == '[' && s[1] == '[' {
        proof {
            lemma_position_from(s.skip(2), "]]"@, 0);
            reveal_strlit("]]");
        }
        match position(s.skip(2), "]]"@) {
            Some(e) => seq![trimmed(s.skip(2).take(e))] + links_in(s.skip(2).skip(e).skip(2)),
            None => links_in(s.skip(1)),
        }
    } else {
        links_in(s.skip(1))
    }
}

/// The models of pairs of strings.
pub open spec fn pairs(v: Seq<(String, String)>) -> Seq<(Text, Text)> {
    v.map_values(|p: (String, String)| (p.0@, p.1@))
}

/// Whether a normalized link and a normalized key stand for each other: the key
/// has at least four bytes and one of the two holds the other.
pub open spec fn close_to(link: Text, key: Text) -> bool {
    encode_utf8(key).len() >= 4 && (contains(key, link) || contains(link, key))
}

/// The names of the targets whose key is close to a normalized link.
pub open spec fn candidates(link: Text, targets: Seq<(Text, Text)>) -> Seq<Text> {
    targets.filter(|t: (Text, Text)| close_to(link, t.0)).map_values(|t: (Text, Text)| t.1)
}

/// The one name that a broken link can be repaired to.
pub open spec fn repaired(link: Text, targets: Seq<(Text, Text)>) -> Option<Text> {
    let hits = candidates(normalized(link), targets);
    if normalized(link).len() >= 5 && hits.len() > 0 && (forall|i: int|
        0 <= i < hits.len() ==> #[trigger] hits[i] == hits[0]) && hits[0] != link {
        Some(hits[0])
    } else {
        None
    }
}

/// The names that a text links to.
pub fn extract_links(t: &str) -> (r: Vec<String>)
    ensures
        texts(r@) == links_in(t@),
{
    let cs = chars_of(t);
    let close = chars_of("]]");
    let mut out: Vec<String> = Vec::new();
    let mut i: usize = 0;
    proof {
        reveal_strlit("]]");
        assert(t@.skip(0) =~= t@);
        assert(texts(out@) + links_in(t@) =~= links_in(t@));
    }
    while i < cs.len() && cs.len() - i >= 2
        invariant
            i <= cs@.len(),
            cs@ == t@,
            close@ == "]]"@,
            "]]"@.len() == 2,
            texts(out@) + links_in(t@.skip(i as int)) == links_in(t@),
        decreases cs@.len() - i,
    {
        let ghost rest = t@.skip(i as int);
        assert(rest.skip(1) =~= t@.skip(i + 1));
        assert(rest.skip(2) =~= t@.skip(i + 2));
        if cs[i] == '[' && cs[i + 1] == '[' {
            proof {
                lemma_position_shift(t@, "]]"@, i + 2);
                lemma_position_from(t@, "]]"@, i + 2);
            }
            match search_from(&cs, &close, i + 2) {
                Some(e) => {
                    let inner = string_of(&cs, i + 2, e);
                    let ghost k = e - i - 2;
                    assert(inner@ =~= rest.skip(2).take(k));
                    let name = trim(&inner).to_string();
                    let ghost before = texts(out@);
                    out.push(name);
                    assert(rest.skip(2).skip(k).skip(2) =~= t@.skip(e + 2));
                    assert(texts(out@) + links_in(t@.skip(e + 2)) =~= before + (seq![name@]
                        + links_in(t@.skip(e + 2))));
                    i = e + 2;
                },
                None => {
                    i = i + 1;
                },
            }
        } else {
            i = i + 1;
        }
    }
    assert(texts(out@) =~= links_in(t@));
    out
}

/// Whether a normalized link and a normalized key stand for each other.
fn is_close(link: &str, key: &str) -> (r: bool)
    ensures
        r == close_to(link@, key@),
{
    key.as_bytes().len() >= 4 && (has(key, link) || has(link, key))
}

/// The name that a broken link can be repaired to: the only one among `targets`,
/// pairs of a normalized key and a name, that is close to it.
pub fn resolve_broken_link(link: &str, targets: &[(String, String)]) -> (r: Option<String>)
    ensures
        match r {
            Some(name) => repaired(link@, pairs(targets@)) == Some(name@),
            None => repaired(link@, pairs(targets@)) is None,
        },
{
    let nl = norm(link);
    if nl.unicode_len() < 5 {
        return None;
    }
    let ghost all = pairs(targets@);
    let mut found: Option<usize> = None;
    let mut unique = true;
    let mut i: usize = 0;
    proof {
        reveal(Seq::filter);
        assert(candidates(nl@, all.take(0)) =~= Seq::<Text>::empty());
    }
    while i < targets.len()
        invariant
            i <= targets@.len(),
            all == pairs(targets@),
            ({
                let hits = candidates(nl@, all.take(i as int));
                match found {
                    Some(f) => {
                        &&& f < targets@.len()
                        &&& hits.len() > 0
                        &&& hits[0] == targets@[f as int].1@
                        &&& unique == (forall|j: int|
                            0 <= j < hits.len() ==> #[trigger] hits[j] == hits[0])
                    },
                    None => hits.len() == 0 && unique,
                }
            }),
        decreases targets@.len() - i,
    {
        let ghost head = all.take(i + 1);
        let ghost hits = candidates(nl@, all.take(i as int));
        assert(head.drop_last() =~= all.take(i as int));
        assert(head.last() == (targets@[i as int].0@, targets@[i as int].1@));
        let ghost now = candidates(nl@, head);
        proof {
            reveal(Seq::filter);
            if close_to(nl@, targets@[i as int].0@) {
                assert(now =~= hits.push(targets@[i as int].1@));
            } else {
                assert(now =~= hits);
            }
        }
        if is_close(&nl, &targets[i].0) {
            match found {
                Some(f) => {
                    if !same(&targets[f].1, &targets[i].1) {
                        unique = false;
                        assert(now[now.len() - 1] != now[0]);
                    } else {
                        assert(forall|j: int| 0 <= j < hits.len() ==> now[j] == #[trigger] hits[j]);
                        if unique {
                            assert forall|j: int| 0 <= j < now.len() implies #[trigger] now[j] == now[0] by {
                                if j < hits.len() {
                                    assert(now[j] == hits[j]);
                                }
                            }
                        } else {
                            let ghost j = choose|j: int|
                                0 <= j < hits.len() && #[trigger] hits[j] != hits[0];
                            assert(now[j] != now[0]);
                        }
                    }
                },
                None => {
                    found = Some(i);
                },
            }
        }
        i = i + 1;
    }
    assert(all.take(i as int) =~= all);
    match found {
        Some(f) => {
            if unique && !same(&targets[f].1, link) {
                Some(targets[f].1.clone())
            } else {
                None
            }
        },
        None => None,
    }
}

/// Whether a name can stand between brackets: the first `]]` behind it closes the
/// link.
pub open spec fn fits_in_link(name: Text) -> bool {
    !contains(name, "]]"@) && (name.len() > 0 ==> name.last() != ']')
}

/// A link that is written with `inner` between its brackets is read as such,
/// whatever follows, if the brackets that close it are the first.
pub proof fn lemma_link_read(inner: Text, rest: Text)
    requires
        forall|j: int| 0 <= j < inner.len() ==> !#[trigger] occurs_at(inner + "]]"@, "]]"@, j),
    ensures
        links_in("[["@ + inner + "]]"@ + rest) == seq![trimmed(inner)] + links_in(rest),
{
    reveal_strlit("[[");
    reveal_strlit("]]");
    let s = "[["@ + inner + "]]"@ + rest;
    let t = s.skip(2);
    let n = inner.len() as int;
    assert(t =~= inner + "]]"@ + rest);
    assert(t.subrange(n, n + 2) =~= "]]"@);
    assert forall|j: int| 0 <= j < n implies !#[trigger] occurs_at(t, "]]"@, j) by {
        assert(t.subrange(j, j + 2) =~= (inner + "]]"@).subrange(j, j + 2));
        assert(!occurs_at(inner + "]]"@, "]]"@, j));
    }
    lemma_position_is(t, "]]"@, n);
    assert(t.take(n) =~= inner);
    assert(t.skip(n).skip(2) =~= rest);
}

/// A name that fits is closed by the first `]]`.
pub proof fn lemma_fits(name: Text)
    requires
        fits_in_link(name),
    ensures
        forall|j: int| 0 <= j < name.len() ==> !#[trigger] occurs_at(name + "]]"@, "]]"@, j),
{
    reveal_strlit("]]");
    let s = name + "]]"@;
    lemma_position_from(name, "]]"@, 0);
    assert forall|j: int| 0 <= j < name.len() implies !#[trigger] occurs_at(s, "]]"@, j) by {
        if occurs_at(s, "]]"@, j) {
            if j + 2 <= name.len() {
                assert(s.subrange(j, j + 2) =~= name.subrange(j, j + 2));
                assert(occurs_at(name, "]]"@, j));
            } else {
                assert(s.subrange(j, j + 2)[0] == name[j]);
            }
        }
    }
}

/// What is written as a link is read as one, and what follows it is read on its
/// own.
pub proof fn written_link_is_found(before: Text, name: Text, after: Text)
    requires
        !contains(before, "[["@),
        before.len() > 0 ==> before.last() != '[',
        fits_in_link(name),
    ensures
        links_in(before + "[["@ + name + "]]"@ + after) == seq![trimmed(name)] + links_in(after),
    decreases before.len(),
{
    reveal_strlit("[[");
    if before.len() > 0 {
        let s = before + "[["@ + name + "]]"@ + after;
        let b = before.skip(1);
        lemma_position_from(before, "[["@, 0);
        lemma_position_shift(before, "[["@, 1);
        lemma_position_from(before, "[["@, 1);
        assert(s[0] == before[0]);
        if before.len() > 1 {
            assert(s[1] == before[1]);
            assert(!occurs_at(before, "[["@, 0));
            if before[0] == '[' && before[1] == '[' {
                assert(before.subrange(0, 2) =~= "[["@);
            }
            assert(b.last() == before.last());
        }
        assert(s.skip(1) =~= b + "[["@ + name + "]]"@ + after);
        written_link_is_found(b, name, after);
    } else {
        lemma_fits(name);
        lemma_link_read(name, after);
        assert(before + "[["@ =~= "[["@);
    }
}

} // verus!

//! Names made comparable: `norm` for links, `slug` for repositories and files.
use crate::text::{chars_of, strip_suffixes, without_suffixes, Text};
use vstd::prelude::*;

verus! {

/// Whether a character is an ASCII letter or digit.
pub open spec fn alphanumeric(c: char) -> bool {
    '0' <= c <= '9' || 'a' <= c <= 'z' || 'A' <= c <= 'Z'
}

/// A character with an ASCII capital made small.
pub open spec fn lower(c: char) -> char {
    if 'A' <= c <= 'Z' {
        (c as u32 + 32) as char
    } else {
        c
    }
}

/// The ASCII letters and digits of `s`, in small letters.
pub open spec fn normalized(s: Text) -> Text {
    s.filter(|c: char| alphanumeric(c)).map_values(|c: char| lower(c))
}

/// `s` with its ASCII letters made small and each run of other characters turned
/// into one dash; nothing stands for such a run at the start.
pub open spec fn dashed(s: Text) -> Text
    decreases s.len(),
{
    if s.len() == 0 {
        s
    } else {
        let done = dashed(s.drop_last());
        if alphanumeric(s.last()) {
            done.push(lower(s.last()))
        } else if done.len() > 0 && done.last() != '-' {
            done.push('-')
        } else {
            done
        }
    }
}

/// `dashed` without a dash at the end.
pub open spec fn slugged(s: Text) -> Text {
    without_suffixes(dashed(s), "-"@)
}

/// Whether a character is an ASCII letter or digit.
fn is_alphanumeric(c: char) -> (r: bool)
    ensures
        r == alphanumeric(c),
{
    ('0' <= c && c <= '9') || ('a' <= c && c <= 'z') || ('A' <= c && c <= 'Z')
}

/// A character with an ASCII capital made small.
fn to_lower(c: char) -> (r: char)
    ensures
        r == lower(c),
{
    if 'A' <= c && c <= 'Z' {
        (c as u8 + 32) as char
    } else {
        c
    }
}

/// The ASCII letters and digits of a name, in small letters.
pub fn norm(s: &str) -> (r: String)
    ensures
        r@ == normalized(s@),
{
    let cs = chars_of(s);
    let mut r = String::new();
    let mut i: usize = 0;
    proof {
        reveal(Seq::filter);
        assert(r@ =~= normalized(s@.take(0)));
    }
    while i < cs.len()
        invariant
            i <= cs@.len(),
            cs@ == s@,
            r@ == normalized(s@.take(i as int)),
        decreases cs@.len() - i,
    {
        let ghost head = s@.take(i + 1);
        assert(head.drop_last() =~= s@.take(i as int));
        if is_alphanumeric(cs[i]) {
            r.push(to_lower(cs[i]));
        }
        proof {
            reveal(Seq::filter);
            assert(r@ =~= normalized(head));
        }
        i = i + 1;
    }
    assert(s@.take(i as int) =~= s@);
    r
}

/// A name that is safe in file names and identities.
pub fn slug(s: &str) -> (r: String)
    ensures
        r@ == slugged(s@),
{
    let cs = chars_of(s);
    let mut out = String::new();
    let mut started = false;
    let mut dash = false;
    let mut i: usize = 0;
    assert(s@.take(0) =~= Seq::<char>::empty());
    while i < cs.len()
        invariant
            i <= cs@.len(),
            cs@ == s@,
            out@ == dashed(s@.take(i as int)),
            started == (out@.len() > 0),
            dash == (out@.len() > 0 && out@.last() == '-'),
        decreases cs@.len() - i,
    {
        assert(s@.take(i + 1).drop_last() =~= s@.take(i as int));
        if is_alphanumeric(cs[i]) {
            out.push(to_lower(cs[i]));
            started = true;
            dash = false;
        } else if started && !dash {
            out.push('-');
            dash = true;
        }
        i = i + 1;
    }
    assert(s@.take(i as int) =~= s@);
    strip_suffixes(&out, "-").to_string()
}

/// Whether every character of a text is one that `norm` keeps as it is.
pub open spec fn is_normal(s: Text) -> bool {
    forall|i: int| 0 <= i < s.len() ==> alphanumeric(#[trigger] s[i]) && lower(s[i]) == s[i]
}

/// Normalized names consist of small ASCII letters and digits.
pub proof fn norm_is_normal(s: Text)
    ensures
        is_normal(normalized(s)),
    decreases s.len(),
{
    reveal(Seq::filter);
    if s.len() > 0 {
        norm_is_normal(s.drop_last());
        let n = normalized(s);
        let m = normalized(s.drop_last());
        assert(n =~= (if alphanumeric(s.last()) {
            m.push(lower(s.last()))
        } else {
            m
        }));
        assert forall|i: int| 0 <= i < n.len() implies alphanumeric(#[trigger] n[i]) && lower(n[i])
            == n[i] by {
            if i < m.len() {
                assert(n[i] == m[i]);
            }
        }
    }
}

proof fn lemma_normal_stays(s: Text)
    requires
        is_normal(s),
    ensures
        normalized(s) == s,
    decreases s.len(),
{
    reveal(Seq::filter);
    if s.len() > 0 {
        let t = s.drop_last();
        assert forall|i: int| 0 <= i < t.len() implies alphanumeric(#[trigger] t[i]) && lower(t[i])
            == t[i] by {
            assert(t[i] == s[i]);
        }
        lemma_normal_stays(t);
        assert(alphanumeric(s[s.len() - 1]));
        assert(normalized(s) =~= t.push(s.last()));
        assert(t.push(s.last()) =~= s);
    } else {
        assert(normalized(s) =~= s);
    }
}

/// Normalizing a normalized name changes nothing.
pub proof fn norm_is_idempotent(s: Text)
    ensures
        normalized(normalized(s)) == normalized(s),
{
    norm_is_normal(s);
    lemma_normal_stays(normalized(s));
}

/// Whether a text is made of small ASCII letters and digits and single dashes
/// that follow one.
pub open spec fn is_dashed(s: Text) -> bool {
    forall|i: int|
        0 <= i < s.len() ==> {
            ||| alphanumeric(#[trigger] s[i]) && lower(s[i]) == s[i]
            ||| s[i] == '-' && i > 0 && s[i - 1] != '-'
        }
}

/// Whether a text is a slug: small ASCII letters and digits, and single dashes
/// between them.
pub open spec fn is_slug(s: Text) -> bool {
    is_dashed(s) && (s.len() > 0 ==> s.last() != '-')
}

proof fn lemma_dashed(s: Text)
    ensures
        is_dashed(dashed(s)),
    decreases s.len(),
{
    if s.len() > 0 {
        let t = s.drop_last();
        lemma_dashed(t);
        let d = dashed(s);
        let e = dashed(t);
        assert forall|i: int| 0 <= i < d.len() implies {
            ||| alphanumeric(#[trigger] d[i]) && lower(d[i]) == d[i]
            ||| d[i] == '-' && i > 0 && d[i - 1] != '-'
        } by {
            if i < e.len() {
                assert(d[i] == e[i]);
                if i > 0 {
                    assert(d[i - 1] == e[i - 1]);
                }
            }
        }
    }
}

proof fn lemma_is_dashed_take(s: Text, n: int)
    requires
        is_dashed(s),
        0 <= n <= s.len(),
    ensures
        is_dashed(s.take(n)),
{
    let t = s.take(n);
    assert forall|i: int| 0 <= i < t.len() implies {
        ||| alphanumeric(#[trigger] t[i]) && lower(t[i]) == t[i]
        ||| t[i] == '-' && i > 0 && t[i - 1] != '-'
    } by {
        assert(t[i] == s[i]);
        if i > 0 {
            assert(t[i - 1] == s[i - 1]);
        }
    }
}

proof fn lemma_cut_dash(s: Text)
    requires
        is_dashed(s),
    ensures
        is_slug(without_suffixes(s, "-"@)),
        s.len() > 0 && s.last() == '-' ==> without_suffixes(s, "-"@) == s.drop_last(),
        !(s.len() > 0 && s.last() == '-') ==> without_suffixes(s, "-"@) == s,
{
    reveal_strlit("-");
    let p = "-"@;
    assert(p =~= seq!['-']);
    let ghost cut = s.drop_last();
    if s.len() > 0 && s.last() == '-' {
        assert(s.skip(s.len() - 1) =~= p);
        assert(s.take(s.len() - 1) =~= cut);
        lemma_is_dashed_take(s, s.len() - 1);
        assert(s[s.len() - 1] == '-');
        assert(cut.len() > 0 && cut.last() == s[s.len() - 2]);
        if crate::text::ends(cut, p) {
            assert(cut.skip(cut.len() - 1)[0] == cut.last());
        }
        assert(without_suffixes(cut, p) == cut);
    } else if crate::text::ends(s, p) {
        assert(s.skip(s.len() - 1)[0] == s.last());
    }
}

/// A slug holds small ASCII letters and digits and single dashes between them.
pub proof fn slug_is_slug(s: Text)
    ensures
        is_slug(slugged(s)),
{
    lemma_dashed(s);
    lemma_cut_dash(dashed(s));
}

proof fn lemma_dashed_stays(s: Text)
    requires
        is_dashed(s),
    ensures
        dashed(s) == s,
    decreases s.len(),
{
    if s.len() > 0 {
        let t = s.drop_last();
        assert(t =~= s.take(s.len() - 1));
        lemma_is_dashed_take(s, s.len() - 1);
        lemma_dashed_stays(t);
        let last = s[s.len() - 1];
        assert(alphanumeric(last) && lower(last) == last || last == '-' && s.len() > 1 && s[s.len()
            - 2] != '-');
        assert(t.push(last) =~= s);
        if t.len() > 0 {
            assert(t.last() == s[s.len() - 2]);
        }
    }
}

/// The slug of a slug is that slug.
pub proof fn slug_is_idempotent(s: Text)
    ensures
        slugged(slugged(s)) == slugged(s),
{
    slug_is_slug(s);
    lemma_dashed_stays(slugged(s));
    lemma_cut_dash(slugged(s));
}

proof fn lemma_dashed_norm(s: Text)
    ensures
        dashed(s).filter(|c: char| c != '-') == normalized(s),
    decreases s.len(),
{
    reveal(Seq::filter);
    let kept = |c: char| c != '-';
    if s.len() > 0 {
        let t = s.drop_last();
        lemma_dashed_norm(t);
        let d = dashed(s);
        let e = dashed(t);
        if alphanumeric(s.last()) {
            assert(d.drop_last() =~= e);
            assert(kept(d.last()));
            assert(normalized(s) =~= normalized(t).push(lower(s.last())));
        } else {
            if d != e {
                assert(d.drop_last() =~= e);
                assert(!kept(d.last()));
            }
            assert(normalized(s) =~= normalized(t));
        }
    } else {
        assert(dashed(s).filter(kept) =~= normalized(s));
    }
}

/// A slug without its dashes is the normalized name.
pub proof fn slug_without_dashes_is_norm(s: Text)
    ensures
        slugged(s).filter(|c: char| c != '-') == normalized(s),
{
    lemma_dashed(s);
    lemma_dashed_norm(s);
    lemma_cut_dash(dashed(s));
    reveal(Seq::filter);
}

proof fn lemma_dashed_empty(s: Text)
    ensures
        dashed(s).len() == 0 <==> forall|i: int| 0 <= i < s.len() ==> !alphanumeric(#[trigger] s[i]),
    decreases s.len(),
{
    if s.len() > 0 {
        let t = s.drop_last();
        lemma_dashed_empty(t);
        if dashed(s).len() == 0 {
            assert forall|i: int| 0 <= i < s.len() implies !alphanumeric(#[trigger] s[i]) by {
                if i < t.len() {
                    assert(t[i] == s[i]);
                }
            }
        } else if forall|i: int| 0 <= i < s.len() ==> !alphanumeric(#[trigger] s[i]) {
            assert forall|i: int| 0 <= i < t.len() implies !alphanumeric(#[trigger] t[i]) by {
                assert(t[i] == s[i]);
            }
            assert(!alphanumeric(s[s.len() - 1]));
        }
    }
}

/// The slug of a name is empty exactly where the name has no ASCII letter or
/// digit.
pub proof fn slug_is_empty_without_letters(s: Text)
    ensures
        slugged(s).len() == 0 <==> forall|i: int|
            0 <= i < s.len() ==> !alphanumeric(#[trigger] s[i]),
{
    lemma_dashed(s);
    lemma_dashed_empty(s);
    let d = dashed(s);
    lemma_cut_dash(d);
    if d.len() > 0 {
        assert(d[0] != '-');
    }
}

/// Where in the slug of `s` the letter or digit `s[i]` stands.
pub open spec fn place(s: Text, i: int) -> int {
    dashed(s.take(i + 1)).len() - 1
}

/// Whether `s[i]` is the first letter or digit from index `from` on.
pub open spec fn is_next(s: Text, from: int, i: int) -> bool {
    from <= i < s.len() && alphanumeric(s[i]) && forall|k: int|
        from <= k < i ==> !alphanumeric(#[trigger] s[k])
}

proof fn lemma_dashed_prefix(s: Text, n: int)
    requires
        0 <= n <= s.len(),
    ensures
        dashed(s.take(n)).len() <= dashed(s).len(),
        forall|k: int|
            0 <= k < dashed(s.take(n)).len() ==> dashed(s)[k] == (#[trigger] dashed(s.take(n))[k]),
    decreases s.len(),
{
    if n == s.len() {
        assert(s.take(n) =~= s);
    } else {
        let t = s.drop_last();
        lemma_dashed_prefix(t, n);
        assert(t.take(n) =~= s.take(n));
    }
}

proof fn lemma_dashed_gap(s: Text, i: int, j: int)
    requires
        0 <= i < j <= s.len(),
        alphanumeric(s[i]),
        forall|k: int| i < k < j ==> !alphanumeric(#[trigger] s[k]),
    ensures
        dashed(s.take(i + 1)) == dashed(s.take(i)).push(lower(s[i])),
        dashed(s.take(j)) == (if j == i + 1 {
            dashed(s.take(i + 1))
        } else {
            dashed(s.take(i + 1)).push('-')
        }),
    decreases j,
{
    assert(s.take(i + 1).drop_last() =~= s.take(i));
    if j > i + 1 {
        lemma_dashed_gap(s, i, j - 1);
        assert(s.take(j).drop_last() =~= s.take(j - 1));
        assert(!alphanumeric(s[j - 1]));
    }
}

proof fn lemma_placed(s: Text, i: int)
    requires
        0 <= i < s.len(),
        alphanumeric(s[i]),
    ensures
        0 <= place(s, i) < slugged(s).len(),
        slugged(s)[place(s, i)] == lower(s[i]),
        forall|k: int| 0 <= k < slugged(s).len() ==> #[trigger] slugged(s)[k] == dashed(s)[k],
{
    let d = dashed(s);
    let head = dashed(s.take(i + 1));
    lemma_dashed(s);
    lemma_cut_dash(d);
    lemma_dashed_gap(s, i, i + 1);
    lemma_dashed_prefix(s, i + 1);
    assert(d[place(s, i)] == head[place(s, i)]);
}

/// A slug starts with the first letter or digit of the name and ends with the
/// last.
pub proof fn slug_starts_and_ends_with_letters(s: Text, i: int, j: int)
    requires
        is_next(s, 0, i),
        0 <= j < s.len(),
        alphanumeric(s[j]),
        forall|k: int| j < k < s.len() ==> !alphanumeric(#[trigger] s[k]),
    ensures
        place(s, i) == 0,
        place(s, j) == slugged(s).len() - 1,
        slugged(s)[0] == lower(s[i]),
        slugged(s).last() == lower(s[j]),
{
    lemma_placed(s, i);
    lemma_placed(s, j);
    lemma_dashed_gap(s, i, i + 1);
    lemma_dashed_gap(s, j, s.len() as int);
    assert(s.take(s.len() as int) =~= s);
    let front = s.take(i);
    lemma_dashed_empty(front);
    assert forall|k: int| 0 <= k < front.len() implies !alphanumeric(#[trigger] front[k]) by {
        assert(front[k] == s[k]);
    }
    lemma_dashed(s);
    lemma_cut_dash(dashed(s));
}

/// Two letters or digits that follow each other in a name follow each other in its
/// slug; a dash stands between them exactly where something else stood between
/// them in the name.
pub proof fn slug_dashes_mark_gaps(s: Text, i: int, j: int)
    requires
        0 <= i < s.len(),
        alphanumeric(s[i]),
        is_next(s, i + 1, j),
    ensures
        0 <= place(s, i) < place(s, j) < slugged(s).len(),
        slugged(s)[place(s, i)] == lower(s[i]),
        slugged(s)[place(s, j)] == lower(s[j]),
        j == i + 1 ==> place(s, j) == place(s, i) + 1,
        j > i + 1 ==> place(s, j) == place(s, i) + 2 && slugged(s)[place(s, i) + 1] == '-',
{
    lemma_placed(s, i);
    lemma_placed(s, j);
    lemma_dashed_gap(s, i, j);
    lemma_dashed_gap(s, j, j + 1);
    if j > i + 1 {
        let d = dashed(s.take(j));
        lemma_dashed_prefix(s, j);
        assert(d[place(s, i) + 1] == '-');
        assert(slugged(s)[place(s, i) + 1] == dashed(s)[place(s, i) + 1]);
    }
}

/// A character that is no ASCII letter or digit makes no difference to a
/// normalized name.
pub proof fn punctuation_does_not_matter(a: Text, c: char, b: Text)
    requires
        !alphanumeric(c),
    ensures
        normalized(a + seq![c] + b) == normalized(a + b),
{
    let p = |c: char| alphanumeric(c);
    Seq::filter_distributes_over_add(a + seq![c], b, p);
    Seq::filter_distributes_over_add(a, seq![c], p);
    Seq::filter_distributes_over_add(a, b, p);
    assert(seq![c].filter(p) =~= Seq::<char>::empty()) by {
        reveal(Seq::filter);
        let none = Seq::<char>::empty();
        assert(seq![c].drop_last() =~= none);
        assert(none.filter(p) =~= none);
        assert(!p(seq![c].last()));
    }
    assert(a.filter(p) + Seq::<char>::empty() =~= a.filter(p));
}

} // verus!

//! How often each of some names occurs, in the order of the names.
use crate::number::{decimal, size};
use crate::order::{
    less, rank, ranked, text_less, text_order_is_total, text_order_is_transitive, views, Ranked,
};
use crate::text::{join, joined, same, texts, Text};
use vstd::prelude::*;

verus! {

/// A name and a number: how often it occurs, or how large it is.
pub struct Count {
    pub name: String,
    pub n: usize,
}

impl View for Count {
    type V = (Text, nat);

    open spec fn view(&self) -> (Text, nat) {
        (self.name@, self.n as nat)
    }
}

impl Ranked for Count {
    /// The larger number comes first.
    open spec fn precedes(a: (Text, nat), b: (Text, nat)) -> bool {
        a.1 > b.1
    }

    fn is_before(&self, other: &Self) -> (r: bool) {
        self.n > other.n
    }
}

/// Names with their counts, each name once, in order.
pub struct Counts {
    pub entries: Vec<Count>,
}

/// Whether entries stand in the order of their names, each once.
pub open spec fn in_order(s: Seq<(Text, nat)>) -> bool {
    forall|i: int, j: int| 0 <= i < j < s.len() ==> text_less((#[trigger] s[i]).0, (#[trigger] s[j]).0)
}

/// Whether `s` counts `name`.
pub open spec fn counts_name(s: Seq<(Text, nat)>, name: Text) -> bool {
    exists|i: int| 0 <= i < s.len() && (#[trigger] s[i]).0 == name
}

/// The count of a name among entries, zero where it is not there.
pub open spec fn count_in(s: Seq<(Text, nat)>, name: Text) -> nat
    decreases s.len(),
{
    if s.len() == 0 {
        0
    } else if s[0].0 == name {
        s[0].1
    } else {
        count_in(s.skip(1), name)
    }
}

/// How often a name occurs among names.
pub open spec fn occurrences(names: Seq<Text>, name: Text) -> nat {
    names.filter(|n: Text| n == name).len()
}

/// Whether entries count exactly the given names.
pub open spec fn tallies(s: Seq<(Text, nat)>, names: Seq<Text>) -> bool {
    &&& in_order(s)
    &&& forall|name: Text| #[trigger] counts_name(s, name) <==> names.contains(name)
    &&& forall|name: Text| #[trigger] count_in(s, name) == occurrences(names, name)
}

impl Counts {
    /// The entries.
    pub open spec fn seq(&self) -> Seq<(Text, nat)> {
        views(self.entries@)
    }

    /// Whether the entries stand in the order of their names, each once.
    pub open spec fn wf(&self) -> bool {
        in_order(self.seq())
    }

    /// No counts.
    pub fn new() -> (c: Counts)
        ensures
            c.wf(),
            c.seq() == Seq::<(Text, nat)>::empty(),
    {
        let c = Counts { entries: Vec::new() };
        assert(c.seq() =~= Seq::<(Text, nat)>::empty());
        c
    }

    /// The place of a name: the index of its entry, or where it belongs.
    fn place(&self, name: &str) -> (r: (usize, bool))
        requires
            self.wf(),
        ensures
            r.0 <= self.entries@.len(),
            forall|i: int| 0 <= i < r.0 ==> text_less((#[trigger] self.seq()[i]).0, name@),
            r.1 ==> r.0 < self.entries@.len() && self.seq()[r.0 as int].0 == name@,
            !r.1 ==> forall|i: int|
                r.0 <= i < self.entries@.len() ==> text_less(name@, (#[trigger] self.seq()[i]).0),
    {
        let ghost s = self.seq();
        let mut i: usize = 0;
        while i < self.entries.len() && less(&self.entries[i].name, name)
            invariant
                i <= self.entries@.len(),
                s == self.seq(),
                forall|k: int| 0 <= k < i ==> text_less((#[trigger] s[k]).0, name@),
            decreases self.entries@.len() - i,
        {
            assert(s[i as int].0 == self.entries@[i as int].name@);
            i = i + 1;
        }
        if i < self.entries.len() {
            assert(s[i as int].0 == self.entries@[i as int].name@);
            if same(&self.entries[i].name, name) {
                return (i, true);
            }
            proof {
                text_order_is_total(s[i as int].0, name@);
                assert forall|k: int| i <= k < s.len() implies text_less(name@, (#[trigger] s[k]).0) by {
                    if k > i {
                        assert(text_less(s[i as int].0, s[k].0));
                        text_order_is_transitive(name@, s[i as int].0, s[k].0);
                    }
                }
            }
        }
        (i, false)
    }

    /// Sets the count of a name.
    pub fn insert(&mut self, name: String, n: usize)
        requires
            old(self).wf(),
        ensures
            final(self).wf(),
            forall|k: Text|
                #[trigger] counts_name(final(self).seq(), k) <==> counts_name(old(self).seq(), k) || k
                    == name@,
            forall|k: Text|
                #[trigger] count_in(final(self).seq(), k) == if k == name@ {
                    n as nat
                } else {
                    count_in(old(self).seq(), k)
                },
    {
        let ghost s = self.seq();
        let ghost name_text = name@;
        let (i, found) = self.place(&name);
        if found {
            self.entries.set(i, Count { name, n });
            proof {
                let t = self.seq();
                assert(t =~= s.update(i as int, (name_text, n as nat)));
                lemma_set(s, i as int, name_text, n as nat);
            }
        } else {
            self.entries.insert(i, Count { name, n });
            proof {
                let t = self.seq();
                assert(t =~= s.insert(i as int, (name_text, n as nat)));
                lemma_put(s, i as int, name_text, n as nat);
            }
        }
    }

    /// The count of a name, zero where it is not there.
    pub fn get(&self, name: &str) -> (n: usize)
        requires
            self.wf(),
        ensures
            n == count_in(self.seq(), name@),
    {
        let (i, found) = self.place(name);
        let ghost s = self.seq();
        if found {
            proof {
                lemma_count_at(s, i as int);
            }
            assert(s[i as int].1 == self.entries@[i as int].n);
            self.entries[i].n
        } else {
            proof {
                assert forall|k: int| 0 <= k < s.len() implies (#[trigger] s[k]).0 != name@ by {
                    text_order_is_total(s[k].0, name@);
                }
                lemma_count_none(s, name@);
            }
            0
        }
    }
}

proof fn lemma_count_none(s: Seq<(Text, nat)>, name: Text)
    requires
        forall|k: int| 0 <= k < s.len() ==> (#[trigger] s[k]).0 != name,
    ensures
        count_in(s, name) == 0,
    decreases s.len(),
{
    if s.len() > 0 {
        let t = s.skip(1);
        assert forall|k: int| 0 <= k < t.len() implies (#[trigger] t[k]).0 != name by {
            assert(t[k] == s[k + 1]);
        }
        lemma_count_none(t, name);
    }
}

/// The first entry for a name gives its count.
proof fn lemma_count_first(s: Seq<(Text, nat)>, i: int)
    requires
        0 <= i < s.len(),
        forall|k: int| 0 <= k < i ==> (#[trigger] s[k]).0 != s[i].0,
    ensures
        count_in(s, s[i].0) == s[i].1,
    decreases s.len(),
{
    if i > 0 {
        let t = s.skip(1);
        assert(s[0].0 != s[i].0);
        assert(t[i - 1] == s[i]);
        assert forall|k: int| 0 <= k < i - 1 implies (#[trigger] t[k]).0 != t[i - 1].0 by {
            assert(t[k] == s[k + 1]);
        }
        lemma_count_first(t, i - 1);
    }
}

proof fn lemma_count_at(s: Seq<(Text, nat)>, i: int)
    requires
        in_order(s),
        0 <= i < s.len(),
    ensures
        count_in(s, s[i].0) == s[i].1,
{
    assert forall|k: int| 0 <= k < i implies (#[trigger] s[k]).0 != s[i].0 by {
        text_order_is_total(s[k].0, s[i].0);
    }
    lemma_count_first(s, i);
}

/// Entries that agree except on one name count the others alike.
proof fn lemma_count_alike(s: Seq<(Text, nat)>, t: Seq<(Text, nat)>, name: Text)
    requires
        in_order(s),
        in_order(t),
        forall|i: int|
            0 <= i < s.len() && (#[trigger] s[i]).0 == name ==> exists|j: int|
                0 <= j < t.len() && #[trigger] t[j] == s[i],
        forall|j: int|
            0 <= j < t.len() && (#[trigger] t[j]).0 == name ==> exists|i: int|
                0 <= i < s.len() && #[trigger] s[i] == t[j],
    ensures
        count_in(s, name) == count_in(t, name),
        counts_name(s, name) == counts_name(t, name),
{
    if counts_name(s, name) {
        let i = choose|i: int| 0 <= i < s.len() && (#[trigger] s[i]).0 == name;
        let j = choose|j: int| 0 <= j < t.len() && #[trigger] t[j] == s[i];
        lemma_count_at(s, i);
        lemma_count_at(t, j);
        assert(t[j].0 == name);
    } else {
        lemma_count_none(s, name);
        assert forall|j: int| 0 <= j < t.len() implies (#[trigger] t[j]).0 != name by {
            if t[j].0 == name {
                let i = choose|i: int| 0 <= i < s.len() && #[trigger] s[i] == t[j];
                assert(s[i].0 == name);
            }
        }
        lemma_count_none(t, name);
    }
}

proof fn lemma_set(s: Seq<(Text, nat)>, i: int, name: Text, n: nat)
    requires
        in_order(s),
        0 <= i < s.len(),
        s[i].0 == name,
    ensures
        ({
            let t = s.update(i, (name, n));
            &&& in_order(t)
            &&& forall|k: Text| #[trigger] counts_name(t, k) <==> counts_name(s, k) || k == name
            &&& forall|k: Text|
                #[trigger] count_in(t, k) == if k == name {
                    n
                } else {
                    count_in(s, k)
                }
        }),
{
    let t = s.update(i, (name, n));
    assert(t[i].0 == name);
    assert(in_order(t)) by {
        assert forall|a: int, b: int| 0 <= a < b < t.len() implies text_less(
            (#[trigger] t[a]).0,
            (#[trigger] t[b]).0,
        ) by {
            assert(t[a].0 == s[a].0 && t[b].0 == s[b].0);
        }
    }
    lemma_count_at(t, i);
    assert forall|k: Text| k != name implies #[trigger] count_in(t, k) == count_in(s, k) && counts_name(
        t,
        k,
    ) == counts_name(s, k) by {
        assert forall|a: int| 0 <= a < s.len() && (#[trigger] s[a]).0 == k implies exists|b: int|
            0 <= b < t.len() && #[trigger] t[b] == s[a] by {
            assert(t[a] == s[a]);
        }
        assert forall|b: int| 0 <= b < t.len() && (#[trigger] t[b]).0 == k implies exists|a: int|
            0 <= a < s.len() && #[trigger] s[a] == t[b] by {
            assert(s[b] == t[b]);
        }
        lemma_count_alike(s, t, k);
    }
    assert forall|k: Text| #[trigger] counts_name(t, k) <==> counts_name(s, k) || k == name by {
        if k != name {
            assert(count_in(t, k) == count_in(s, k));
        }
    }
}

proof fn lemma_put(s: Seq<(Text, nat)>, i: int, name: Text, n: nat)
    requires
        in_order(s),
        0 <= i <= s.len(),
        forall|k: int| 0 <= k < i ==> text_less((#[trigger] s[k]).0, name),
        forall|k: int| i <= k < s.len() ==> text_less(name, (#[trigger] s[k]).0),
    ensures
        ({
            let t = s.insert(i, (name, n));
            &&& in_order(t)
            &&& forall|k: Text| #[trigger] counts_name(t, k) <==> counts_name(s, k) || k == name
            &&& forall|k: Text|
                #[trigger] count_in(t, k) == if k == name {
                    n
                } else {
                    count_in(s, k)
                }
        }),
{
    let t = s.insert(i, (name, n));
    assert(t[i] == (name, n));
    assert(in_order(t)) by {
        assert forall|a: int, b: int| 0 <= a < b < t.len() implies text_less(
            (#[trigger] t[a]).0,
            (#[trigger] t[b]).0,
        ) by {
            if a < i {
                assert(t[a] == s[a]);
            } else if a > i {
                assert(t[a] == s[a - 1]);
            }
            if b < i {
                assert(t[b] == s[b]);
            } else if b > i {
                assert(t[b] == s[b - 1]);
            }
        }
    }
    lemma_count_at(t, i);
    assert forall|k: Text| k != name implies #[trigger] count_in(t, k) == count_in(s, k) && counts_name(
        t,
        k,
    ) == counts_name(s, k) by {
        assert forall|a: int| 0 <= a < s.len() && (#[trigger] s[a]).0 == k implies exists|b: int|
            0 <= b < t.len() && #[trigger] t[b] == s[a] by {
            if a < i {
                assert(t[a] == s[a]);
            } else {
                assert(t[a + 1] == s[a]);
            }
        }
        assert forall|b: int| 0 <= b < t.len() && (#[trigger] t[b]).0 == k implies exists|a: int|
            0 <= a < s.len() && #[trigger] s[a] == t[b] by {
            if b < i {
                assert(s[b] == t[b]);
            } else {
                assert(s[b - 1] == t[b]);
            }
        }
        lemma_count_alike(s, t, k);
    }
    assert forall|k: Text| #[trigger] counts_name(t, k) <==> counts_name(s, k) || k == name by {
        if k != name {
            assert(count_in(t, k) == count_in(s, k));
        }
    }
}

/// Entries are determined by the names that they count.
pub proof fn tally_is_unique(s: Seq<(Text, nat)>, t: Seq<(Text, nat)>, names: Seq<Text>)
    requires
        tallies(s, names),
        tallies(t, names),
    ensures
        s == t,
    decreases s.len() + t.len(),
{
    lemma_alike(s, t);
}

/// Entries in order that count alike are the same.
proof fn lemma_alike(s: Seq<(Text, nat)>, t: Seq<(Text, nat)>)
    requires
        in_order(s),
        in_order(t),
        forall|k: Text| #[trigger] counts_name(s, k) <==> counts_name(t, k),
        forall|k: Text| #[trigger] count_in(s, k) == count_in(t, k),
    ensures
        s == t,
    decreases s.len(),
{
    if s.len() == 0 {
        if t.len() > 0 {
            assert(counts_name(t, t[0].0));
            assert(counts_name(s, t[0].0));
        }
        assert(s =~= t);
    } else {
        assert(counts_name(s, s[0].0));
        assert(counts_name(t, s[0].0));
        assert(t.len() > 0);
        assert(counts_name(t, t[0].0));
        assert(counts_name(s, t[0].0));
        let i = choose|i: int| 0 <= i < t.len() && (#[trigger] t[i]).0 == s[0].0;
        let j = choose|j: int| 0 <= j < s.len() && (#[trigger] s[j]).0 == t[0].0;
        if i > 0 && j > 0 {
            text_order_is_total(s[0].0, t[0].0);
            assert(text_less(t[0].0, t[i].0));
            assert(text_less(s[0].0, s[j].0));
        }
        assert(s[0].0 == t[0].0);
        lemma_count_at(s, 0);
        lemma_count_at(t, 0);
        assert(s[0] == t[0]);
        let a = s.skip(1);
        let b = t.skip(1);
        lemma_rest(s);
        lemma_rest(t);
        assert forall|k: Text| #[trigger] counts_name(a, k) <==> counts_name(b, k) by {
            assert(counts_name(s, k) <==> counts_name(t, k));
        }
        assert forall|k: Text| #[trigger] count_in(a, k) == count_in(b, k) by {
            assert(counts_name(a, k) <==> counts_name(b, k));
            assert(count_in(s, k) == count_in(t, k));
            if k == s[0].0 {
                assert forall|x: int| 0 <= x < a.len() implies (#[trigger] a[x]).0 != k by {
                    assert(counts_name(a, a[x].0));
                }
                assert forall|x: int| 0 <= x < b.len() implies (#[trigger] b[x]).0 != k by {
                    assert(counts_name(b, b[x].0));
                }
                lemma_count_none(a, k);
                lemma_count_none(b, k);
            }
        }
        lemma_alike(a, b);
        assert(s =~= seq![s[0]] + a);
        assert(t =~= seq![t[0]] + b);
    }
}

proof fn lemma_rest(s: Seq<(Text, nat)>)
    requires
        in_order(s),
        s.len() > 0,
    ensures
        in_order(s.skip(1)),
        forall|k: Text| #[trigger]
            counts_name(s.skip(1), k) <==> counts_name(s, k) && k != s[0].0,
{
    let a = s.skip(1);
    assert(in_order(a)) by {
        assert forall|x: int, y: int| 0 <= x < y < a.len() implies text_less(
            (#[trigger] a[x]).0,
            (#[trigger] a[y]).0,
        ) by {
            assert(a[x] == s[x + 1] && a[y] == s[y + 1]);
        }
    }
    assert forall|k: Text| #[trigger] counts_name(a, k) <==> counts_name(s, k) && k != s[0].0 by {
        if counts_name(a, k) {
            let x = choose|x: int| 0 <= x < a.len() && (#[trigger] a[x]).0 == k;
            assert(s[x + 1] == a[x]);
            assert(text_less(s[0].0, s[x + 1].0));
            text_order_is_total(s[0].0, s[x + 1].0);
        }
        if counts_name(s, k) && k != s[0].0 {
            let x = choose|x: int| 0 <= x < s.len() && (#[trigger] s[x]).0 == k;
            assert(a[x - 1] == s[x]);
        }
    }
}

/// Counts names.
pub fn tally(names: &[String]) -> (c: Counts)
    ensures
        tallies(c.seq(), texts(names@)),
{
    let ghost all = texts(names@);
    let mut c = Counts::new();
    let mut i: usize = 0;
    proof {
        reveal(Seq::filter);
        assert forall|k: Text| #[trigger] count_in(c.seq(), k) == occurrences(all.take(0), k) by {}
        assert(tallies(c.seq(), all.take(0)));
    }
    while i < names.len()
        invariant
            i <= names@.len(),
            all == texts(names@),
            tallies(c.seq(), all.take(i as int)),
        decreases names@.len() - i,
    {
        let ghost before = c.seq();
        let ghost head = all.take(i + 1);
        assert(head.drop_last() =~= all.take(i as int));
        assert(head.last() == names@[i as int]@);
        let n = c.get(&names[i]);
        proof {
            lemma_occurrences_bound(all.take(i as int), names@[i as int]@);
        }
        c.insert(names[i].clone(), n + 1);
        proof {
            reveal(Seq::filter);
            assert forall|k: Text| #[trigger] count_in(c.seq(), k) == occurrences(head, k) by {
                assert(count_in(before, k) == occurrences(all.take(i as int), k));
            }
            assert forall|k: Text| #[trigger] counts_name(c.seq(), k) <==> head.contains(k) by {
                assert(counts_name(before, k) <==> all.take(i as int).contains(k));
                if head.contains(k) {
                    let x = choose|x: int| 0 <= x < head.len() && head[x] == k;
                    if x < i {
                        assert(all.take(i as int)[x] == k);
                    }
                }
                if all.take(i as int).contains(k) {
                    let x = choose|x: int| 0 <= x < i && all.take(i as int)[x] == k;
                    assert(head[x] == k);
                }
                assert(head[i as int] == head.last());
            }
        }
        i = i + 1;
    }
    assert(all.take(i as int) =~= all);
    c
}

proof fn lemma_occurrences_bound(names: Seq<Text>, name: Text)
    ensures
        occurrences(names, name) <= names.len(),
    decreases names.len(),
{
    reveal(Seq::filter);
    if names.len() > 0 {
        lemma_occurrences_bound(names.drop_last(), name);
    }
}

/// An entry as it is shown.
pub open spec fn count_text(c: (Text, nat)) -> Text {
    c.0 + ":"@ + decimal(c.1)
}

/// Counts as they are shown: the most frequent first, else by name.
pub open spec fn counts_text(s: Seq<(Text, nat)>) -> Text {
    joined(ranked::<Count>(s).map_values(|c: (Text, nat)| count_text(c)), "  "@)
}

/// Counts in one line, the most frequent first; equal ones stand by name.
pub fn fmt_counts(m: &Counts) -> (r: String)
    ensures
        r@ == counts_text(m.seq()),
{
    let mut v: Vec<Count> = Vec::new();
    let mut i: usize = 0;
    while i < m.entries.len()
        invariant
            i <= m.entries@.len(),
            views(v@) == m.seq().take(i as int),
        decreases m.entries@.len() - i,
    {
        let c = Count { name: m.entries[i].name.clone(), n: m.entries[i].n };
        let ghost done = views(v@);
        assert(c@ == m.seq()[i as int]);
        v.push(c);
        assert(views(v@) =~= done.push(c@));
        i = i + 1;
        assert(views(v@) =~= m.seq().take(i as int));
    }
    assert(views(v@) =~= m.seq());
    let v = rank(v);
    let ghost s = views(v@);
    let mut parts: Vec<String> = Vec::new();
    let mut j: usize = 0;
    while j < v.len()
        invariant
            j <= v@.len(),
            s == views(v@),
            texts(parts@) == s.map_values(|c: (Text, nat)| count_text(c)).take(j as int),
        decreases v@.len() - j,
    {
        assert(s[j as int] == v@[j as int]@);
        let mut t = v[j].name.clone();
        t.append(":");
        t.append(&size(v[j].n));
        let ghost done = texts(parts@);
        assert(t@ == count_text(s[j as int]));
        parts.push(t);
        assert(texts(parts@) =~= done.push(t@));
        j = j + 1;
        assert(texts(parts@) =~= s.map_values(|c: (Text, nat)| count_text(c)).take(j as int));
    }
    assert(texts(parts@) =~= s.map_values(|c: (Text, nat)| count_text(c)));
    join(&parts, "  ")
}

} // verus!

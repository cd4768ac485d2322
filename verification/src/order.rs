//! The order of texts and a stable sort for anything that has an order.
use crate::text::{chars_of, Text};
use vstd::prelude::*;

verus! {

/// Whether `a` comes strictly before `b`: character by character, by code point.
/// This is the order of the UTF-8 encodings, and so of Rust's strings.
pub open spec fn text_less(a: Text, b: Text) -> bool
    decreases a.len(),
{
    &&& b.len() > 0
    &&& {
        ||| a.len() == 0
        ||| a[0] < b[0]
        ||| a[0] == b[0] && text_less(a.skip(1), b.skip(1))
    }
}

proof fn lemma_not_less(a: Text)
    ensures
        !text_less(a, a),
    decreases a.len(),
{
    if a.len() > 0 {
        lemma_not_less(a.skip(1));
    }
}

/// The order of texts is strict and total.
pub proof fn text_order_is_total(a: Text, b: Text)
    ensures
        !text_less(a, a),
        !(text_less(a, b) && text_less(b, a)),
        a == b || text_less(a, b) || text_less(b, a),
    decreases a.len() + b.len(),
{
    lemma_not_less(a);
    if a.len() > 0 && b.len() > 0 {
        text_order_is_total(a.skip(1), b.skip(1));
        if a[0] == b[0] && a.skip(1) == b.skip(1) {
            assert(a =~= seq![a[0]] + a.skip(1));
            assert(b =~= seq![b[0]] + b.skip(1));
        }
    } else if a.len() == 0 && b.len() == 0 {
        assert(a =~= b);
    }
}

/// The order of texts is transitive.
pub proof fn text_order_is_transitive(a: Text, b: Text, c: Text)
    requires
        text_less(a, b),
        text_less(b, c),
    ensures
        text_less(a, c),
    decreases a.len(),
{
    if a.len() > 0 && a[0] == b[0] && b[0] == c[0] {
        text_order_is_transitive(a.skip(1), b.skip(1), c.skip(1));
    }
}

/// Whether `a` comes strictly before `b`.
pub fn less(a: &str, b: &str) -> (r: bool)
    ensures
        r == text_less(a@, b@),
{
    let x = chars_of(a);
    let y = chars_of(b);
    let mut i: usize = 0;
    assert(a@.skip(0) =~= a@);
    assert(b@.skip(0) =~= b@);
    while i < x.len() && i < y.len()
        invariant
            i <= x@.len(),
            i <= y@.len(),
            x@ == a@,
            y@ == b@,
            text_less(a@, b@) == text_less(a@.skip(i as int), b@.skip(i as int)),
        decreases x@.len() - i,
    {
        assert(a@.skip(i as int)[0] == x@[i as int]);
        assert(b@.skip(i as int)[0] == y@[i as int]);
        if x[i] < y[i] {
            return true;
        }
        if y[i] < x[i] {
            return false;
        }
        assert(a@.skip(i as int).skip(1) =~= a@.skip(i + 1));
        assert(b@.skip(i as int).skip(1) =~= b@.skip(i + 1));
        i = i + 1;
    }
    i == x.len() && i < y.len()
}

/// Something that lists put in an order.
pub trait Ranked: View + Sized {
    /// Whether `a` must stand before `b`.
    spec fn precedes(a: Self::V, b: Self::V) -> bool;

    /// Whether `self` must stand before `other`.
    fn is_before(&self, other: &Self) -> (r: bool)
        ensures
            r == Self::precedes(self@, other@),
    ;
}

impl Ranked for String {
    open spec fn precedes(a: Text, b: Text) -> bool {
        text_less(a, b)
    }

    fn is_before(&self, other: &Self) -> (r: bool) {
        less(self, other)
    }
}

/// The models of some values.
pub open spec fn views<T: View>(v: Seq<T>) -> Seq<T::V> {
    v.map_values(|x: T| x@)
}

/// How many elements of `s`, from the front, `x` need not stand before.
pub open spec fn place<T: Ranked>(s: Seq<T::V>, x: T::V) -> nat
    decreases s.len(),
{
    if s.len() == 0 || T::precedes(x, s[0]) {
        0
    } else {
        1 + place::<T>(s.skip(1), x)
    }
}

/// `s` in order; elements of which neither must stand before the other keep the
/// order that they had.
pub open spec fn ranked<T: Ranked>(s: Seq<T::V>) -> Seq<T::V>
    decreases s.len(),
{
    if s.len() == 0 {
        Seq::empty()
    } else {
        let rest = ranked::<T>(s.drop_last());
        rest.insert(place::<T>(rest, s.last()) as int, s.last())
    }
}

proof fn lemma_place<T: Ranked>(s: Seq<T::V>, x: T::V)
    ensures
        place::<T>(s, x) <= s.len(),
        forall|i: int| 0 <= i < place::<T>(s, x) ==> !T::precedes(x, #[trigger] s[i]),
        place::<T>(s, x) < s.len() ==> T::precedes(x, s[place::<T>(s, x) as int]),
    decreases s.len(),
{
    if s.len() == 0 || T::precedes(x, s[0]) {
    } else {
        let t = s.skip(1);
        lemma_place::<T>(t, x);
        assert forall|i: int| 0 <= i < place::<T>(s, x) implies !T::precedes(x, #[trigger] s[i]) by {
            if i > 0 {
                assert(s[i] == t[i - 1]);
            }
        }
        if place::<T>(s, x) < s.len() {
            assert(s[place::<T>(s, x) as int] == t[place::<T>(t, x) as int]);
        }
    }
}

/// Putting a list in order keeps exactly its elements.
pub proof fn ranking_permutes<T: Ranked>(s: Seq<T::V>)
    ensures
        ranked::<T>(s).to_multiset() == s.to_multiset(),
        ranked::<T>(s).len() == s.len(),
    decreases s.len(),
{
    if s.len() > 0 {
        let rest = ranked::<T>(s.drop_last());
        let n = place::<T>(rest, s.last()) as int;
        ranking_permutes::<T>(s.drop_last());
        lemma_place::<T>(rest, s.last());
        rest.to_multiset_ensures();
        vstd::seq_lib::to_multiset_insert(rest, n, s.last());
        assert(s =~= s.drop_last().push(s.last()));
        vstd::seq_lib::to_multiset_build(s.drop_last(), s.last());
    } else {
        assert(s =~= ranked::<T>(s));
    }
}

/// In a list that was put in order nothing stands behind what it must stand
/// before, wherever the order is asymmetric and transitive on negation.
pub proof fn ranking_orders<T: Ranked>(s: Seq<T::V>)
    requires
        forall|a: T::V, b: T::V| #[trigger] T::precedes(a, b) ==> !T::precedes(b, a),
        forall|a: T::V, b: T::V, c: T::V|
            #![trigger T::precedes(a, b), T::precedes(b, c)]
            !T::precedes(a, b) && !T::precedes(b, c) ==> !T::precedes(a, c),
    ensures
        forall|i: int, j: int|
            0 <= i < j < s.len() ==> !T::precedes(
                #[trigger] ranked::<T>(s)[j],
                #[trigger] ranked::<T>(s)[i],
            ),
    decreases s.len(),
{
    if s.len() > 0 {
        let x = s.last();
        let rest = ranked::<T>(s.drop_last());
        let n = place::<T>(rest, x) as int;
        ranking_orders::<T>(s.drop_last());
        ranking_permutes::<T>(s.drop_last());
        lemma_place::<T>(rest, x);
        let r = ranked::<T>(s);
        assert forall|i: int, j: int| 0 <= i < j < s.len() implies !T::precedes(
            #[trigger] r[j],
            #[trigger] r[i],
        ) by {
            let a = if i < n { i } else { i - 1 };
            let b = if j < n { j } else { j - 1 };
            if i == n {
                assert(r[j] == rest[j - 1]);
                assert(T::precedes(x, rest[n]));
                if j - 1 > n {
                    assert(!T::precedes(rest[j - 1], rest[n]));
                    assert(!T::precedes(rest[n], x));
                    assert(!T::precedes(rest[j - 1], x));
                }
            } else if j == n {
                assert(r[i] == rest[i]);
            } else {
                assert(r[i] == rest[a]);
                assert(r[j] == rest[b]);
            }
        }
    }
}

/// Puts a list in order.
pub fn rank<T: Ranked>(items: Vec<T>) -> (out: Vec<T>)
    ensures
        views(out@) == ranked::<T>(views(items@)),
{
    let mut items = items;
    let mut out: Vec<T> = Vec::new();
    let ghost all = views(items@);
    let ghost mut done: int = 0;
    assert(views(out@) =~= ranked::<T>(all.take(0)));
    assert(all.skip(0) =~= all);
    while items.len() > 0
        invariant
            0 <= done,
            done + items@.len() == all.len(),
            views(items@) == all.skip(done),
            views(out@) == ranked::<T>(all.take(done)),
        decreases items@.len(),
    {
        let ghost left = items@;
        let x = items.remove(0);
        assert(views(items@) =~= views(left).skip(1));
        assert(x@ == all.skip(done)[0]);
        let ghost sorted = views(out@);
        let mut n: usize = 0;
        assert(sorted.skip(0) =~= sorted);
        while n < out.len() && !x.is_before(&out[n])
            invariant
                n <= out@.len(),
                sorted == views(out@),
                place::<T>(sorted, x@) == n + place::<T>(sorted.skip(n as int), x@),
            decreases out@.len() - n,
        {
            assert(sorted.skip(n as int)[0] == out@[n as int]@);
            assert(sorted.skip(n as int).skip(1) =~= sorted.skip(n + 1));
            n = n + 1;
        }
        proof {
            if n < out@.len() {
                assert(sorted.skip(n as int)[0] == out@[n as int]@);
            }
            assert(place::<T>(sorted, x@) == n);
        }
        let ghost v = x@;
        out.insert(n, x);
        assert(views(out@) =~= sorted.insert(n as int, v));
        proof {
            let upto = all.take(done + 1);
            assert(upto.drop_last() =~= all.take(done));
            assert(upto.last() == v);
            assert(all.skip(done).skip(1) =~= all.skip(done + 1));
            done = done + 1;
        }
    }
    assert(all.take(done) =~= all);
    out
}

} // verus!

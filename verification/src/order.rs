//! Orders, and a stable sort.
use crate::text;
use vstd::prelude::*;

verus! {

/// Whether a text comes no later than another, character by character.
///
/// For two strings this is the order of their UTF-8 bytes.
pub open spec fn text_le(a: Seq<char>, b: Seq<char>) -> bool
    decreases a.len(),
{
    if a.len() == 0 {
        true
    } else if b.len() == 0 {
        false
    } else if a[0] == b[0] {
        text_le(a.drop_first(), b.drop_first())
    } else {
        a[0] < b[0]
    }
}

/// Every text comes no later than itself.
pub proof fn lemma_text_le_reflexive(a: Seq<char>)
    ensures
        text_le(a, a),
    decreases a.len(),
{
    if a.len() > 0 {
        lemma_text_le_reflexive(a.drop_first());
    }
}

/// Of two texts, one comes no later than the other.
pub proof fn lemma_text_le_total(a: Seq<char>, b: Seq<char>)
    ensures
        text_le(a, b) || text_le(b, a),
    decreases a.len(),
{
    if a.len() > 0 && b.len() > 0 && a[0] == b[0] {
        lemma_text_le_total(a.drop_first(), b.drop_first());
    }
}

/// The order of texts is transitive.
pub proof fn lemma_text_le_transitive(a: Seq<char>, b: Seq<char>, c: Seq<char>)
    requires
        text_le(a, b),
        text_le(b, c),
    ensures
        text_le(a, c),
    decreases a.len(),
{
    if a.len() > 0 && b.len() > 0 && c.len() > 0 && a[0] == b[0] && b[0] == c[0] {
        lemma_text_le_transitive(a.drop_first(), b.drop_first(), c.drop_first());
    }
}

/// Texts that come no later than each other are equal.
pub proof fn lemma_text_le_antisymmetric(a: Seq<char>, b: Seq<char>)
    requires
        text_le(a, b),
        text_le(b, a),
    ensures
        a == b,
    decreases a.len(),
{
    if a.len() > 0 && b.len() > 0 {
        lemma_text_le_antisymmetric(a.drop_first(), b.drop_first());
        assert(a =~= seq![a[0]] + a.drop_first());
        assert(b =~= seq![b[0]] + b.drop_first());
    } else {
        assert(a =~= b);
    }
}

/// Of two texts of one length, the order is that of the texts without their last characters, or
/// of the last characters where the rest is equal.
pub proof fn lemma_text_le_by_last(a: Seq<char>, b: Seq<char>)
    requires
        a.len() == b.len(),
        a.len() > 0,
    ensures
        text_le(a, b) == if a.drop_last() == b.drop_last() {
            a.last() <= b.last()
        } else {
            text_le(a.drop_last(), b.drop_last())
        },
    decreases a.len(),
{
    let x = a.drop_first();
    let y = b.drop_first();
    if a.len() == 1 {
        assert(a.drop_last() =~= b.drop_last());
        if a[0] == b[0] {
            assert(text_le(x, y));
        }
    } else if a[0] == b[0] {
        lemma_text_le_by_last(x, y);
        assert(x.drop_last() =~= a.drop_last().drop_first());
        assert(y.drop_last() =~= b.drop_last().drop_first());
        if a.drop_last() != b.drop_last() {
            if x.drop_last() == y.drop_last() {
                assert(a.drop_last() =~= seq![a[0]] + x.drop_last());
                assert(b.drop_last() =~= seq![b[0]] + y.drop_last());
            }
        }
    } else {
        assert(a.drop_last()[0] == a[0]);
        assert(b.drop_last()[0] == b[0]);
    }
}

/// Whether a text comes no later than another.
pub fn no_later(a: &[char], b: &[char]) -> (r: bool)
    ensures
        r == text_le(a@, b@),
{
    let mut i: usize = 0;
    assert(a@.skip(0) == a@);
    assert(b@.skip(0) == b@);
    while i < a.len() && i < b.len()
        invariant
            i <= a@.len(),
            i <= b@.len(),
            text_le(a@, b@) == text_le(a@.skip(i as int), b@.skip(i as int)),
        decreases a@.len() - i,
    {
        if a[i] != b[i] {
            return a[i] < b[i];
        }
        assert(a@.skip(i as int).drop_first() == a@.skip(i + 1));
        assert(b@.skip(i as int).drop_first() == b@.skip(i + 1));
        i += 1;
    }
    i >= a.len()
}

/// Whether a string comes no later than another.
pub fn string_no_later(a: &str, b: &str) -> (r: bool)
    ensures
        r == text_le(a@, b@),
{
    let x = text::chars_of(a);
    let y = text::chars_of(b);
    no_later(&x, &y)
}

/// A type whose values have a rank: a total preorder.
pub trait Ranked: Sized {
    /// Whether a value may stand before another.
    spec fn le(self, other: Self) -> bool;

    /// Computes `le`.
    fn may_precede(&self, other: &Self) -> (r: bool)
        ensures
            r == self.le(*other),
    ;

    /// Of two values, one may stand before the other.
    proof fn total(a: Self, b: Self)
        ensures
            a.le(b) || b.le(a),
    ;

    /// The relation is transitive.
    proof fn transitive(a: Self, b: Self, c: Self)
        requires
            a.le(b),
            b.le(c),
        ensures
            a.le(c),
    ;
}

/// Whether the values of a sequence stand in the order of their ranks.
pub open spec fn is_sorted<T: Ranked>(s: Seq<T>) -> bool {
    forall|i: int, j: int| 0 <= i <= j < s.len() ==> (#[trigger] s[i]).le(#[trigger] s[j])
}

/// How many values at the front of a sequence stay in front of `x`: all up to the last that may
/// precede it.
pub open spec fn place<T: Ranked>(s: Seq<T>, x: T) -> int
    decreases s.len(),
{
    if s.len() == 0 || s.last().le(x) {
        s.len() as int
    } else {
        place(s.drop_last(), x)
    }
}

/// The sequence with `x` at its place.
pub open spec fn inserted<T: Ranked>(s: Seq<T>, x: T) -> Seq<T> {
    s.insert(place(s, x), x)
}

/// The values in the order of their ranks; values of one rank keep their order.
pub open spec fn sorted<T: Ranked>(s: Seq<T>) -> Seq<T>
    decreases s.len(),
{
    if s.len() == 0 {
        seq![]
    } else {
        inserted(sorted(s.drop_last()), s.last())
    }
}

/// The place lies within the sequence, behind a value that may precede `x` and in front of the
/// values that may not.
pub proof fn lemma_place<T: Ranked>(s: Seq<T>, x: T)
    ensures
        0 <= place(s, x) <= s.len(),
        forall|i: int| place(s, x) <= i < s.len() ==> !(#[trigger] s[i]).le(x),
        place(s, x) > 0 ==> s[place(s, x) - 1].le(x),
    decreases s.len(),
{
    if s.len() > 0 && !s.last().le(x) {
        let t = s.drop_last();
        lemma_place(t, x);
        assert forall|i: int| place(s, x) <= i < s.len() implies !(#[trigger] s[i]).le(x) by {
            if i < t.len() {
                assert(s[i] == t[i]);
            }
        }
    }
}

/// Sorting puts the values in the order of their ranks.
pub proof fn lemma_sorted<T: Ranked>(s: Seq<T>)
    ensures
        is_sorted(sorted(s)),
        sorted(s).len() == s.len(),
    decreases s.len(),
{
    if s.len() > 0 {
        let t = sorted(s.drop_last());
        let x = s.last();
        lemma_sorted(s.drop_last());
        lemma_place(t, x);
        let p = place(t, x);
        let r = sorted(s);
        assert forall|i: int, j: int| 0 <= i <= j < r.len() implies (#[trigger] r[i]).le(
            #[trigger] r[j],
        ) by {
            T::total(x, x);
            if i < p && j == p {
                assert(r[i] == t[i]);
                assert(t[i].le(t[p - 1]));
                T::transitive(t[i], t[p - 1], x);
            } else if i == p && j > p {
                assert(r[j] == t[j - 1]);
                T::total(x, t[j - 1]);
            } else if i < p && j > p {
                assert(r[i] == t[i]);
                assert(r[j] == t[j - 1]);
            } else if i < p && j < p {
                assert(r[i] == t[i]);
                assert(r[j] == t[j]);
            } else if i > p {
                assert(r[i] == t[i - 1]);
                assert(r[j] == t[j - 1]);
            }
        }
    }
}

/// Sorting loses nothing and adds nothing.
pub proof fn lemma_sorted_is_permutation<T: Ranked>(s: Seq<T>)
    ensures
        sorted(s).to_multiset() == s.to_multiset(),
    decreases s.len(),
{
    broadcast use vstd::seq_lib::group_to_multiset_ensures;

    if s.len() > 0 {
        let t = sorted(s.drop_last());
        let x = s.last();
        lemma_sorted_is_permutation(s.drop_last());
        lemma_place(t, x);
        let p = place(t, x);
        vstd::seq_lib::to_multiset_insert(t, p, x);
        assert(s =~= s.drop_last().push(x));
        assert(s.to_multiset() =~= s.drop_last().to_multiset().insert(x));
        assert(sorted(s).to_multiset() =~= t.to_multiset().insert(x));
    }
}

/// Sorts values by their ranks.
pub fn sort<T: Ranked>(values: Vec<T>) -> (r: Vec<T>)
    ensures
        r@ == sorted(values@),
{
    let ghost all = values@;
    let mut out: Vec<T> = Vec::new();
    assert(all.take(0) =~= Seq::<T>::empty());
    for x in it: values
        invariant
            it.seq() == all,
            out@ == sorted(all.take(it.index() as int)),
    {
        proof {
            let k = it.index() as int;
            assert(all.take(k + 1).drop_last() =~= all.take(k));
            assert(all.take(k + 1).last() == x);
        }
        let mut p: usize = out.len();
        assert(out@.take(p as int) =~= out@);
        while p > 0 && !out[p - 1].may_precede(&x)
            invariant
                p <= out@.len(),
                place(out@, x) == place(out@.take(p as int), x),
            decreases p,
        {
            assert(out@.take(p as int).drop_last() =~= out@.take(p - 1));
            p -= 1;
        }
        out.insert(p, x);
    }
    assert(all.take(all.len() as int) =~= all);
    out
}

// ---------------------------------------------------------------------------
// Sorting by an order
// ---------------------------------------------------------------------------

/// The values with `x` behind the last that may precede it.
pub open spec fn placed_by<V>(s: Seq<V>, x: V, le: spec_fn(V, V) -> bool) -> Seq<V>
    decreases s.len(),
{
    if s.len() == 0 || le(s.last(), x) {
        s.push(x)
    } else {
        placed_by(s.drop_last(), x, le).push(s.last())
    }
}

/// The values in an order; values that may precede each other stay as they stand.
pub open spec fn sorted_by<V>(s: Seq<V>, le: spec_fn(V, V) -> bool) -> Seq<V>
    decreases s.len(),
{
    if s.len() == 0 {
        seq![]
    } else {
        placed_by(sorted_by(s.drop_last(), le), s.last(), le)
    }
}

/// Placing a value adds it and nothing else.
proof fn lemma_placed_by<V>(s: Seq<V>, x: V, le: spec_fn(V, V) -> bool)
    ensures
        placed_by(s, x, le).len() == s.len() + 1,
        forall|t: V| #[trigger] placed_by(s, x, le).contains(t) <==> s.contains(t) || t == x,
        s.no_duplicates() && !s.contains(x) ==> placed_by(s, x, le).no_duplicates(),
    decreases s.len(),
{
    if s.len() == 0 || le(s.last(), x) {
        lemma_push(s, x);
    } else {
        let front = s.drop_last();
        lemma_placed_by(front, x, le);
        lemma_push(placed_by(front, x, le), s.last());
        lemma_push(front, s.last());
        assert(s =~= front.push(s.last()));
        if s.no_duplicates() && !s.contains(x) {
            assert(front.no_duplicates());
            assert(!front.contains(s.last())) by {
                if front.contains(s.last()) {
                    let i = choose|i: int| 0 <= i < front.len() && front[i] == s.last();
                    assert(s[i] == s[s.len() - 1]);
                }
            }
            assert(s.contains(s.last()));
        }
    }
}

/// What a sequence with one more value contains.
proof fn lemma_push<V>(s: Seq<V>, x: V)
    ensures
        forall|t: V| #[trigger] s.push(x).contains(t) <==> s.contains(t) || t == x,
        s.no_duplicates() && !s.contains(x) ==> s.push(x).no_duplicates(),
{
    assert forall|t: V| #[trigger] s.push(x).contains(t) <==> s.contains(t) || t == x by {
        if s.contains(t) {
            let i = choose|i: int| 0 <= i < s.len() && s[i] == t;
            assert(s.push(x)[i] == t);
        }
        if t == x {
            assert(s.push(x)[s.len() as int] == t);
        }
    }
    if s.no_duplicates() && !s.contains(x) {
        assert forall|i: int, j: int|
            0 <= i < s.push(x).len() && 0 <= j < s.push(x).len() && i != j implies s.push(x)[i]
            != s.push(x)[j] by {
            if i < s.len() && j < s.len() {
                assert(s[i] != s[j]);
            } else if i < s.len() {
                assert(s.contains(s[i]));
            } else {
                assert(s.contains(s[j]));
            }
        }
    }
}

/// Sorting loses no value and adds none.
pub proof fn lemma_sorted_by<V>(s: Seq<V>, le: spec_fn(V, V) -> bool)
    ensures
        sorted_by(s, le).len() == s.len(),
        forall|t: V| #[trigger] sorted_by(s, le).contains(t) <==> s.contains(t),
        s.no_duplicates() ==> sorted_by(s, le).no_duplicates(),
    decreases s.len(),
{
    if s.len() > 0 {
        let front = s.drop_last();
        lemma_sorted_by(front, le);
        lemma_placed_by(sorted_by(front, le), s.last(), le);
        lemma_push(front, s.last());
        assert(s =~= front.push(s.last()));
        if s.no_duplicates() {
            assert(front.no_duplicates());
            assert(!front.contains(s.last())) by {
                if front.contains(s.last()) {
                    let i = choose|i: int| 0 <= i < front.len() && front[i] == s.last();
                    assert(s[i] == s[s.len() - 1]);
                }
            }
        }
    }
}

/// Placing by ranks is placing by an order that agrees with them.
proof fn lemma_inserted_as<T: Ranked, V>(
    s: Seq<T>,
    x: T,
    f: spec_fn(T) -> V,
    le: spec_fn(V, V) -> bool,
)
    requires
        forall|a: T, b: T| #[trigger] a.le(b) == le(f(a), f(b)),
    ensures
        inserted(s, x).map_values(f) == placed_by(s.map_values(f), f(x), le),
    decreases s.len(),
{
    lemma_place(s, x);
    let m = s.map_values(f);
    if s.len() == 0 || s.last().le(x) {
        if s.len() > 0 {
            assert(m.last() == f(s.last()));
        }
        assert(inserted(s, x) =~= s.push(x));
        assert(s.push(x).map_values(f) =~= m.push(f(x)));
    } else {
        let front = s.drop_last();
        lemma_place(front, x);
        lemma_inserted_as(front, x, f, le);
        assert(m.last() == f(s.last()));
        assert(m.drop_last() =~= front.map_values(f));
        assert(inserted(s, x) =~= inserted(front, x).push(s.last()));
        assert(inserted(front, x).push(s.last()).map_values(f) =~= inserted(front, x).map_values(
            f,
        ).push(f(s.last())));
    }
}

/// Sorting by ranks is sorting by an order that agrees with them.
pub proof fn lemma_sorted_as<T: Ranked, V>(
    s: Seq<T>,
    f: spec_fn(T) -> V,
    le: spec_fn(V, V) -> bool,
)
    requires
        forall|a: T, b: T| #[trigger] a.le(b) == le(f(a), f(b)),
    ensures
        sorted(s).map_values(f) == sorted_by(s.map_values(f), le),
    decreases s.len(),
{
    if s.len() == 0 {
        assert(sorted(s).map_values(f) =~= sorted_by(s.map_values(f), le));
    } else {
        let front = s.drop_last();
        lemma_sorted_as(front, f, le);
        lemma_inserted_as(sorted(front), s.last(), f, le);
        assert(s.map_values(f).drop_last() =~= front.map_values(f));
        assert(s.map_values(f).last() == f(s.last()));
    }
}

/// The order of texts.
pub open spec fn text_order() -> spec_fn(Seq<char>, Seq<char>) -> bool {
    |a: Seq<char>, b: Seq<char>| text_le(a, b)
}

/// The texts of a list in their order.
pub open spec fn sorted_texts(list: Seq<Seq<char>>) -> Seq<Seq<char>> {
    sorted_by(list, text_order())
}

/// Puts strings in their order.
pub fn sort_strings(list: Vec<String>) -> (r: Vec<String>)
    ensures
        text::texts(r@) == sorted_texts(text::texts(list@)),
{
    proof {
        let f = |s: String| s@;
        lemma_sorted_as(list@, f, text_order());
        assert(text::texts(sorted(list@)) =~= sorted(list@).map_values(f));
        assert(text::texts(list@) =~= list@.map_values(f));
    }
    sort(list)
}

/// Texts are ordered by the first character in which they differ, and one that ends there comes
/// first.
pub proof fn law_first_difference_decides(
    p: Seq<char>,
    a: char,
    x: Seq<char>,
    b: char,
    y: Seq<char>,
)
    requires
        a < b,
    ensures
        text_le(p + (seq![a] + x), p + (seq![b] + y)),
        !text_le(p + (seq![b] + y), p + (seq![a] + x)),
        text_le(p, p + (seq![a] + x)),
        !text_le(p + (seq![a] + x), p),
    decreases p.len(),
{
    let u = p + (seq![a] + x);
    let v = p + (seq![b] + y);
    if p.len() > 0 {
        let q = p.drop_first();
        law_first_difference_decides(q, a, x, b, y);
        assert(u.drop_first() =~= q + (seq![a] + x));
        assert(v.drop_first() =~= q + (seq![b] + y));
        assert(u[0] == p[0] && v[0] == p[0]);
    } else {
        assert(u[0] == a && v[0] == b);
    }
}

/// Sorting under a total order puts every value in its place and loses none; and so the order in
/// which values come does not count.
pub proof fn law_sorted_by<V>(s: Seq<V>, t: Seq<V>, le: spec_fn(V, V) -> bool)
    requires
        vstd::relations::total_ordering(le),
    ensures
        vstd::relations::sorted_by(sorted_by(s, le), le),
        sorted_by(s, le).to_multiset() == s.to_multiset(),
        s.to_multiset() == t.to_multiset() ==> sorted_by(s, le) == sorted_by(t, le),
{
    lemma_sorted_in_order(s, le);
    lemma_sorted_in_order(t, le);
    if s.to_multiset() == t.to_multiset() {
        vstd::seq_lib::lemma_sorted_unique(sorted_by(s, le), sorted_by(t, le), le);
    }
}

/// Sorting puts values in order and loses none.
proof fn lemma_sorted_in_order<V>(s: Seq<V>, le: spec_fn(V, V) -> bool)
    requires
        vstd::relations::total_ordering(le),
    ensures
        vstd::relations::sorted_by(sorted_by(s, le), le),
        sorted_by(s, le).to_multiset() == s.to_multiset(),
    decreases s.len(),
{
    broadcast use vstd::seq_lib::group_to_multiset_ensures;

    if s.len() > 0 {
        lemma_sorted_in_order(s.drop_last(), le);
        lemma_placed_in_order(sorted_by(s.drop_last(), le), s.last(), le);
        assert(s =~= s.drop_last().push(s.last()));
    } else {
        assert(sorted_by(s, le) =~= s);
    }
}

/// A value that is put in its place among sorted ones leaves them sorted.
proof fn lemma_placed_in_order<V>(s: Seq<V>, x: V, le: spec_fn(V, V) -> bool)
    requires
        vstd::relations::total_ordering(le),
        vstd::relations::sorted_by(s, le),
    ensures
        vstd::relations::sorted_by(placed_by(s, x, le), le),
        placed_by(s, x, le).to_multiset() == s.to_multiset().insert(x),
    decreases s.len(),
{
    broadcast use vstd::seq_lib::group_to_multiset_ensures;

    let r = placed_by(s, x, le);
    if s.len() == 0 || le(s.last(), x) {
        assert forall|i: int, j: int| 0 <= i < j < r.len() implies #[trigger] le(r[i], r[j]) by {
            if j == s.len() {
                if i < s.len() - 1 {
                    assert(le(s[i], s[s.len() - 1]));
                }
                assert(le(s[i], s.last()));
                assert(le(s.last(), x));
            } else {
                assert(le(s[i], s[j]));
            }
        }
    } else {
        let front = s.drop_last();
        assert(vstd::relations::sorted_by(front, le)) by {
            assert forall|i: int, j: int| 0 <= i < j < front.len() implies #[trigger] le(
                front[i],
                front[j],
            ) by {
                assert(le(s[i], s[j]));
            }
        }
        lemma_placed_in_order(front, x, le);
        lemma_placed_by(front, x, le);
        let f = placed_by(front, x, le);
        assert(s =~= front.push(s.last()));
        assert forall|i: int, j: int| 0 <= i < j < r.len() implies #[trigger] le(r[i], r[j]) by {
            if j == f.len() {
                assert(f.contains(f[i]));
                if f[i] == x {
                    assert(le(x, s.last()) || le(s.last(), x));
                } else {
                    assert(front.contains(f[i]));
                    let k = choose|k: int| 0 <= k < front.len() && front[k] == f[i];
                    assert(le(s[k], s[s.len() - 1]));
                }
            } else {
                assert(le(f[i], f[j]));
            }
        }
        assert(r.to_multiset() =~= s.to_multiset().insert(x));
    }
}

/// The order of texts is a total order.
pub proof fn law_text_order_is_total()
    ensures
        vstd::relations::total_ordering(text_order()),
        forall|a: Seq<char>, b: Seq<char>| #[trigger] (text_order())(a, b) == text_le(a, b),
{
    let le = text_order();
    assert forall|a: Seq<char>| #[trigger] le(a, a) by {
        lemma_text_le_reflexive(a);
    }
    assert forall|a: Seq<char>, b: Seq<char>|
        #[trigger] le(a, b) && #[trigger] le(b, a) implies a == b by {
        lemma_text_le_antisymmetric(a, b);
    }
    assert forall|a: Seq<char>, b: Seq<char>, c: Seq<char>|
        #[trigger] le(a, b) && #[trigger] le(b, c) implies le(a, c) by {
        lemma_text_le_transitive(a, b, c);
    }
    assert forall|a: Seq<char>, b: Seq<char>| #[trigger] le(a, b) || #[trigger] le(b, a) by {
        lemma_text_le_total(a, b);
    }
}

/// Sorting puts every value in its place and loses none, and values of one rank keep their order.
pub proof fn law_sorted<T: Ranked>(s: Seq<T>, x: T, i: int, j: int)
    ensures
        0 <= i <= j < sorted(s).len() ==> sorted(s)[i].le(sorted(s)[j]),
        sorted(s).to_multiset() == s.to_multiset(),
        sorted(s).len() == s.len(),
        (forall|k: int| 0 <= k < s.len() ==> (#[trigger] s[k]).le(x)) ==> sorted(s.push(x))
            == sorted(s).push(x),
{
    lemma_sorted(s);
    lemma_sorted_is_permutation(s);
    if forall|k: int| 0 <= k < s.len() ==> (#[trigger] s[k]).le(x) {
        let t = sorted(s);
        assert(s.push(x).drop_last() =~= s);
        if t.len() > 0 {
            assert(t.to_multiset().contains(t.last())) by {
                broadcast use vstd::seq_lib::group_to_multiset_ensures;

                assert(t.contains(t[t.len() - 1]));
            }
            assert(s.contains(t.last())) by {
                broadcast use vstd::seq_lib::group_to_multiset_ensures;

            }
            let k = choose|k: int| 0 <= k < s.len() && s[k] == t.last();
            assert(s[k].le(x));
        }
        assert(sorted(s.push(x)) =~= t.push(x));
    }
}

} // verus!

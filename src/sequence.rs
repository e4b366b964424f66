use vstd::prelude::*;
use crate::order::{Comparable, lemma_order, same_key};

verus! {

/// Strictly ascending: no two items carry the same key.
pub open spec fn sorted<T: Comparable>(s: Seq<T>) -> bool {
    forall|i: int, j: int| 0 <= i < j < s.len() ==> #[trigger] s[i].precedes(#[trigger] s[j])
}

/// The number of leading items of `s` that precede `x`: in an ascending
/// sequence, the index at which `x` stands or would be inserted.
pub open spec fn place<T: Comparable>(s: Seq<T>, x: T) -> int
    decreases s.len(),
{
    if s.len() > 0 && s[0].precedes(x) {
        1 + place(s.drop_first(), x)
    } else {
        0
    }
}

/// `i` is the place of `x` when the items before it precede `x` and the
/// item at it does not.
pub(crate) proof fn lemma_place<T: Comparable>(s: Seq<T>, x: T, i: int)
    requires
        0 <= i <= s.len(),
        forall|j: int| 0 <= j < i ==> #[trigger] s[j].precedes(x),
        i < s.len() ==> !s[i].precedes(x),
    ensures
        place(s, x) == i,
    decreases i,
{
    if i > 0 {
        let t = s.drop_first();
        assert forall|j: int| 0 <= j < i - 1 implies #[trigger] t[j].precedes(x) by {
            assert(t[j] == s[j + 1]);
        }
        if i - 1 < t.len() {
            assert(t[i - 1] == s[i]);
        }
        lemma_place(t, x, i - 1);
    }
}

/// Some item of `s` carries the key of `x`.
pub open spec fn has_key<T: Comparable>(s: Seq<T>, x: T) -> bool {
    exists|i: int| 0 <= i < s.len() && same_key(#[trigger] s[i], x)
}

/// `t` is the ascending sequence that results from putting `x` into the
/// ascending sequence `s`: an item of `s` with the key of `x` is replaced by
/// `x`, and otherwise `x` is added.
pub open spec fn put_into<T: Comparable>(s: Seq<T>, x: T, t: Seq<T>) -> bool {
    &&& sorted(t)
    &&& t.len() == if has_key(s, x) { s.len() } else { s.len() + 1 }
    &&& forall|y: T| #[trigger] t.contains(y) <==> (y == x || (s.contains(y) && !same_key(y, x)))
}

/// Putting `x` over the item of the same key at `i` replaces that item.
pub(crate) proof fn lemma_put_replace<T: Comparable>(s: Seq<T>, i: int, x: T)
    requires
        sorted(s),
        0 <= i < s.len(),
        same_key(s[i], x),
    ensures
        put_into(s, x, s.update(i, x)),
        has_key(s, x),
{
    lemma_order::<T>();
    let t = s.update(i, x);
    assert forall|j: int| 0 <= j < s.len() && j != i implies !same_key(#[trigger] s[j], x) by {
        if j < i {
            assert(s[j].precedes(s[i]));
        } else {
            assert(s[i].precedes(s[j]));
        }
    }
    assert forall|a: int, b: int| 0 <= a < b < t.len() implies #[trigger] t[a].precedes(#[trigger] t[b]) by {
        assert(s[a].precedes(s[b]));
        if a == i {
            assert(s[i].precedes(s[b]));
        } else if b == i {
            assert(s[a].precedes(s[i]));
        }
    }
    assert forall|y: T| #[trigger] t.contains(y) <==> (y == x || (s.contains(y) && !same_key(y, x))) by {
        if t.contains(y) && y != x {
            let j = choose|j: int| 0 <= j < t.len() && t[j] == y;
            assert(j != i);
            assert(s[j] == y);
        }
        if s.contains(y) && !same_key(y, x) {
            let j = choose|j: int| 0 <= j < s.len() && s[j] == y;
            assert(t[j] == y);
        }
        if y == x {
            assert(t[i] == y);
        }
    }
    assert(same_key(s[i], x));
}

/// Putting `x` where no item has its key adds it at its place.
pub(crate) proof fn lemma_put_insert<T: Comparable>(s: Seq<T>, i: int, x: T)
    requires
        sorted(s),
        0 <= i <= s.len(),
        forall|j: int| 0 <= j < i ==> #[trigger] s[j].precedes(x),
        forall|j: int| i <= j < s.len() ==> x.precedes(#[trigger] s[j]),
    ensures
        put_into(s, x, s.insert(i, x)),
        !has_key(s, x),
{
    lemma_order::<T>();
    let t = s.insert(i, x);
    assert forall|a: int, b: int| 0 <= a < b < t.len() implies #[trigger] t[a].precedes(#[trigger] t[b]) by {
        if a < i && b < i {
            assert(s[a].precedes(s[b]));
        } else if a < i && b > i {
            assert(s[a].precedes(x));
            assert(x.precedes(s[b - 1]));
        } else if a > i {
            assert(s[a - 1].precedes(s[b - 1]));
        }
    }
    assert forall|y: T| #[trigger] t.contains(y) <==> (y == x || (s.contains(y) && !same_key(y, x))) by {
        if t.contains(y) && y != x {
            let j = choose|j: int| 0 <= j < t.len() && t[j] == y;
            if j < i {
                assert(s[j] == y);
            } else {
                assert(s[j - 1] == y);
            }
        }
        if s.contains(y) {
            let j = choose|j: int| 0 <= j < s.len() && s[j] == y;
            if j < i {
                assert(t[j] == y);
                assert(s[j].precedes(x));
            } else {
                assert(t[j + 1] == y);
                assert(x.precedes(s[j]));
            }
        }
        if y == x {
            assert(t[i] == y);
        }
    }
    assert forall|j: int| 0 <= j < s.len() implies !same_key(#[trigger] s[j], x) by {
        if j < i {
            assert(s[j].precedes(x));
        } else {
            assert(x.precedes(s[j]));
        }
    }
}

/// Items around a sorted middle part, ordered before and after `x`, stay
/// where they are when `x` is put into the middle part.
pub(crate) proof fn lemma_put_middle<T: Comparable>(a: Seq<T>, m: Seq<T>, m2: Seq<T>, b: Seq<T>, x: T)
    requires
        sorted(a + m + b),
        forall|j: int| 0 <= j < a.len() ==> #[trigger] a[j].precedes(x),
        forall|j: int| 0 <= j < b.len() ==> x.precedes(#[trigger] b[j]),
        put_into(m, x, m2),
    ensures
        put_into(a + m + b, x, a + m2 + b),
        has_key(a + m + b, x) == has_key(m, x),
{
    lemma_order::<T>();
    let s = a + m + b;
    let t = a + m2 + b;
    assert forall|y: T| #[trigger] m2.contains(y) implies
        (forall|j: int| 0 <= j < a.len() ==> #[trigger] a[j].precedes(y))
        && (forall|j: int| 0 <= j < b.len() ==> y.precedes(#[trigger] b[j])) by {
        if y != x {
            let k = choose|k: int| 0 <= k < m.len() && m[k] == y;
            assert forall|j: int| 0 <= j < a.len() implies #[trigger] a[j].precedes(y) by {
                assert(s[j] == a[j]);
                assert(s[a.len() + k] == y);
            }
            assert forall|j: int| 0 <= j < b.len() implies y.precedes(#[trigger] b[j]) by {
                assert(s[a.len() + m.len() + j] == b[j]);
                assert(s[a.len() + k] == y);
            }
        }
    }
    assert forall|p: int, q: int| 0 <= p < q < t.len() implies #[trigger] t[p].precedes(#[trigger] t[q]) by {
        let la = a.len() as int;
        let lm = m2.len() as int;
        if q < la {
            assert(s[p] == t[p] && s[q] == t[q]);
        } else if p >= la + lm {
            assert(s[p - lm + m.len()] == t[p] && s[q - lm + m.len()] == t[q]);
        } else if p >= la && q < la + lm {
            assert(m2[p - la] == t[p] && m2[q - la] == t[q]);
        } else if p < la && q < la + lm {
            assert(m2.contains(m2[q - la]));
        } else if p < la {
            assert(s[p] == t[p] && s[q - lm + m.len()] == t[q]);
        } else {
            assert(m2.contains(m2[p - la]));
        }
    }
    if has_key(s, x) {
        let j = choose|j: int| 0 <= j < s.len() && same_key(#[trigger] s[j], x);
        assert(m[j - a.len()] == s[j]);
    }
    if has_key(m, x) {
        let j = choose|j: int| 0 <= j < m.len() && same_key(#[trigger] m[j], x);
        assert(s[a.len() + j] == m[j]);
    }
    assert forall|y: T| #[trigger] t.contains(y) <==> (y == x || (s.contains(y) && !same_key(y, x))) by {
        lemma_contains3(a, m, b, y);
        lemma_contains3(a, m2, b, y);
        if a.contains(y) {
            let j = choose|j: int| 0 <= j < a.len() && a[j] == y;
            assert(a[j].precedes(x));
        }
        if b.contains(y) {
            let j = choose|j: int| 0 <= j < b.len() && b[j] == y;
            assert(x.precedes(b[j]));
        }
    }
}

/// Membership in a concatenation of three sequences.
pub(crate) proof fn lemma_contains3<T>(a: Seq<T>, m: Seq<T>, b: Seq<T>, y: T)
    ensures
        (a + m + b).contains(y) <==> a.contains(y) || m.contains(y) || b.contains(y),
{
    let s = a + m + b;
    if s.contains(y) {
        let j = choose|j: int| 0 <= j < s.len() && s[j] == y;
        if j < a.len() {
            assert(a[j] == y);
        } else if j < a.len() + m.len() {
            assert(m[j - a.len()] == y);
        } else {
            assert(b[j - a.len() - m.len()] == y);
        }
    }
    if a.contains(y) {
        let j = choose|j: int| 0 <= j < a.len() && a[j] == y;
        assert(s[j] == y);
    }
    if m.contains(y) {
        let j = choose|j: int| 0 <= j < m.len() && m[j] == y;
        assert(s[a.len() + j] == y);
    }
    if b.contains(y) {
        let j = choose|j: int| 0 <= j < b.len() && b[j] == y;
        assert(s[a.len() + m.len() + j] == y);
    }
}

} // verus!

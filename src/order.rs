use vstd::prelude::*;
use core::cmp::Ordering;

verus! {

/// A strict weak order on items. Two items that neither precede the other
/// count as the same key.
pub trait Comparable: Sized {
    spec fn precedes(self, other: Self) -> bool;

    proof fn lemma_irreflexive(x: Self)
        ensures
            !x.precedes(x),
    ;

    proof fn lemma_transitive(x: Self, y: Self, z: Self)
        requires
            x.precedes(y),
            y.precedes(z),
        ensures
            x.precedes(z),
    ;

    proof fn lemma_connected(x: Self, y: Self, z: Self)
        requires
            x.precedes(z),
        ensures
            x.precedes(y) || y.precedes(z),
    ;

    fn compare(&self, other: &Self) -> (r: Ordering)
        ensures
            (r == Ordering::Less) == self.precedes(*other),
            (r == Ordering::Greater) == other.precedes(*self),
    ;
}

/// `a` and `b` carry the same key.
pub open spec fn same_key<T: Comparable>(a: T, b: T) -> bool {
    !a.precedes(b) && !b.precedes(a)
}

/// The order laws of `T`, as quantified facts.
pub proof fn lemma_order<T: Comparable>()
    ensures
        forall|x: T| !#[trigger] x.precedes(x),
        forall|x: T, y: T, z: T|
            #[trigger] x.precedes(y) && #[trigger] y.precedes(z) ==> x.precedes(z),
        forall|x: T, y: T, z: T|
            #[trigger] x.precedes(z) ==> x.precedes(y) || #[trigger] y.precedes(z),
{
    assert forall|x: T| !#[trigger] x.precedes(x) by {
        T::lemma_irreflexive(x);
    }
    assert forall|x: T, y: T, z: T|
        #[trigger] x.precedes(y) && #[trigger] y.precedes(z) implies x.precedes(z) by {
        T::lemma_transitive(x, y, z);
    }
    assert forall|x: T, y: T, z: T|
        #[trigger] x.precedes(z) implies x.precedes(y) || #[trigger] y.precedes(z) by {
        T::lemma_connected(x, y, z);
    }
}

/// Integers in their numeric order.
impl Comparable for i64 {
    open spec fn precedes(self, other: Self) -> bool {
        self < other
    }

    proof fn lemma_irreflexive(x: Self) {
    }

    proof fn lemma_transitive(x: Self, y: Self, z: Self) {
    }

    proof fn lemma_connected(x: Self, y: Self, z: Self) {
    }

    fn compare(&self, other: &Self) -> (r: Ordering) {
        if *self < *other {
            Ordering::Less
        } else if *self > *other {
            Ordering::Greater
        } else {
            Ordering::Equal
        }
    }
}

impl Comparable for i8 {
    open spec fn precedes(self, other: Self) -> bool {
        self < other
    }

    proof fn lemma_irreflexive(x: Self) {
    }

    proof fn lemma_transitive(x: Self, y: Self, z: Self) {
    }

    proof fn lemma_connected(x: Self, y: Self, z: Self) {
    }

    fn compare(&self, other: &Self) -> (r: Ordering) {
        if *self < *other {
            Ordering::Less
        } else if *self > *other {
            Ordering::Greater
        } else {
            Ordering::Equal
        }
    }
}

impl Comparable for i16 {
    open spec fn precedes(self, other: Self) -> bool {
        self < other
    }

    proof fn lemma_irreflexive(x: Self) {
    }

    proof fn lemma_transitive(x: Self, y: Self, z: Self) {
    }

    proof fn lemma_connected(x: Self, y: Self, z: Self) {
    }

    fn compare(&self, other: &Self) -> (r: Ordering) {
        if *self < *other {
            Ordering::Less
        } else if *self > *other {
            Ordering::Greater
        } else {
            Ordering::Equal
        }
    }
}

impl Comparable for i32 {
    open spec fn precedes(self, other: Self) -> bool {
        self < other
    }

    proof fn lemma_irreflexive(x: Self) {
    }

    proof fn lemma_transitive(x: Self, y: Self, z: Self) {
    }

    proof fn lemma_connected(x: Self, y: Self, z: Self) {
    }

    fn compare(&self, other: &Self) -> (r: Ordering) {
        if *self < *other {
            Ordering::Less
        } else if *self > *other {
            Ordering::Greater
        } else {
            Ordering::Equal
        }
    }
}

impl Comparable for i128 {
    open spec fn precedes(self, other: Self) -> bool {
        self < other
    }

    proof fn lemma_irreflexive(x: Self) {
    }

    proof fn lemma_transitive(x: Self, y: Self, z: Self) {
    }

    proof fn lemma_connected(x: Self, y: Self, z: Self) {
    }

    fn compare(&self, other: &Self) -> (r: Ordering) {
        if *self < *other {
            Ordering::Less
        } else if *self > *other {
            Ordering::Greater
        } else {
            Ordering::Equal
        }
    }
}

impl Comparable for isize {
    open spec fn precedes(self, other: Self) -> bool {
        self < other
    }

    proof fn lemma_irreflexive(x: Self) {
    }

    proof fn lemma_transitive(x: Self, y: Self, z: Self) {
    }

    proof fn lemma_connected(x: Self, y: Self, z: Self) {
    }

    fn compare(&self, other: &Self) -> (r: Ordering) {
        if *self < *other {
            Ordering::Less
        } else if *self > *other {
            Ordering::Greater
        } else {
            Ordering::Equal
        }
    }
}

impl Comparable for u8 {
    open spec fn precedes(self, other: Self) -> bool {
        self < other
    }

    proof fn lemma_irreflexive(x: Self) {
    }

    proof fn lemma_transitive(x: Self, y: Self, z: Self) {
    }

    proof fn lemma_connected(x: Self, y: Self, z: Self) {
    }

    fn compare(&self, other: &Self) -> (r: Ordering) {
        if *self < *other {
            Ordering::Less
        } else if *self > *other {
            Ordering::Greater
        } else {
            Ordering::Equal
        }
    }
}

impl Comparable for u16 {
    open spec fn precedes(self, other: Self) -> bool {
        self < other
    }

    proof fn lemma_irreflexive(x: Self) {
    }

    proof fn lemma_transitive(x: Self, y: Self, z: Self) {
    }

    proof fn lemma_connected(x: Self, y: Self, z: Self) {
    }

    fn compare(&self, other: &Self) -> (r: Ordering) {
        if *self < *other {
            Ordering::Less
        } else if *self > *other {
            Ordering::Greater
        } else {
            Ordering::Equal
        }
    }
}

impl Comparable for u32 {
    open spec fn precedes(self, other: Self) -> bool {
        self < other
    }

    proof fn lemma_irreflexive(x: Self) {
    }

    proof fn lemma_transitive(x: Self, y: Self, z: Self) {
    }

    proof fn lemma_connected(x: Self, y: Self, z: Self) {
    }

    fn compare(&self, other: &Self) -> (r: Ordering) {
        if *self < *other {
            Ordering::Less
        } else if *self > *other {
            Ordering::Greater
        } else {
            Ordering::Equal
        }
    }
}

impl Comparable for u64 {
    open spec fn precedes(self, other: Self) -> bool {
        self < other
    }

    proof fn lemma_irreflexive(x: Self) {
    }

    proof fn lemma_transitive(x: Self, y: Self, z: Self) {
    }

    proof fn lemma_connected(x: Self, y: Self, z: Self) {
    }

    fn compare(&self, other: &Self) -> (r: Ordering) {
        if *self < *other {
            Ordering::Less
        } else if *self > *other {
            Ordering::Greater
        } else {
            Ordering::Equal
        }
    }
}

impl Comparable for u128 {
    open spec fn precedes(self, other: Self) -> bool {
        self < other
    }

    proof fn lemma_irreflexive(x: Self) {
    }

    proof fn lemma_transitive(x: Self, y: Self, z: Self) {
    }

    proof fn lemma_connected(x: Self, y: Self, z: Self) {
    }

    fn compare(&self, other: &Self) -> (r: Ordering) {
        if *self < *other {
            Ordering::Less
        } else if *self > *other {
            Ordering::Greater
        } else {
            Ordering::Equal
        }
    }
}

impl Comparable for usize {
    open spec fn precedes(self, other: Self) -> bool {
        self < other
    }

    proof fn lemma_irreflexive(x: Self) {
    }

    proof fn lemma_transitive(x: Self, y: Self, z: Self) {
    }

    proof fn lemma_connected(x: Self, y: Self, z: Self) {
    }

    fn compare(&self, other: &Self) -> (r: Ordering) {
        if *self < *other {
            Ordering::Less
        } else if *self > *other {
            Ordering::Greater
        } else {
            Ordering::Equal
        }
    }
}

/// Lexicographic order on byte strings, looking from position `i` on.
pub open spec fn lex_from(a: Seq<u8>, b: Seq<u8>, i: nat) -> bool
    decreases a.len() - i,
{
    if i >= b.len() {
        false
    } else if i >= a.len() {
        true
    } else if a[i as int] != b[i as int] {
        a[i as int] < b[i as int]
    } else {
        lex_from(a, b, i + 1)
    }
}

/// `a` sorts strictly before `b` in lexicographic byte order.
pub open spec fn lex_less(a: Seq<u8>, b: Seq<u8>) -> bool {
    lex_from(a, b, 0)
}

proof fn lemma_lex_irreflexive(a: Seq<u8>, i: nat)
    ensures
        !lex_from(a, a, i),
    decreases a.len() - i,
{
    if i < a.len() {
        lemma_lex_irreflexive(a, i + 1);
    }
}

proof fn lemma_lex_transitive(a: Seq<u8>, b: Seq<u8>, c: Seq<u8>, i: nat)
    requires
        lex_from(a, b, i),
        lex_from(b, c, i),
    ensures
        lex_from(a, c, i),
    decreases a.len() - i,
{
    if i < a.len() && a[i as int] == b[i as int] && b[i as int] == c[i as int] {
        lemma_lex_transitive(a, b, c, i + 1);
    }
}

proof fn lemma_lex_trichotomy(a: Seq<u8>, b: Seq<u8>, i: nat)
    requires
        i <= a.len(),
        i <= b.len(),
    ensures
        lex_from(a, b, i) || lex_from(b, a, i) || (a.len() == b.len() && forall|j: int|
            i <= j < a.len() ==> a[j] == b[j]),
    decreases a.len() - i,
{
    if i < a.len() && i < b.len() && a[i as int] == b[i as int] {
        lemma_lex_trichotomy(a, b, i + 1);
    }
}

proof fn lemma_lex_connected(a: Seq<u8>, b: Seq<u8>, c: Seq<u8>)
    requires
        lex_less(a, c),
    ensures
        lex_less(a, b) || lex_less(b, c),
{
    lemma_lex_trichotomy(a, b, 0);
    lemma_lex_trichotomy(b, c, 0);
    if !lex_less(a, b) && !lex_less(b, c) {
        if lex_less(b, a) {
            if lex_less(c, b) {
                lemma_lex_transitive(c, b, a, 0);
            } else {
                assert(b =~= c);
            }
            lemma_lex_transitive(a, c, a, 0);
        } else {
            assert(a =~= b);
        }
        lemma_lex_irreflexive(a, 0);
    }
}

/// Compares two byte strings in lexicographic order.
fn compare_bytes(a: &[u8], b: &[u8]) -> (r: Ordering)
    ensures
        (r == Ordering::Less) == lex_less(a@, b@),
        (r == Ordering::Greater) == lex_less(b@, a@),
{
    let mut i: usize = 0;
    while i < a.len() && i < b.len()
        invariant
            i <= a@.len(),
            i <= b@.len(),
            lex_less(a@, b@) == lex_from(a@, b@, i as nat),
            lex_less(b@, a@) == lex_from(b@, a@, i as nat),
            forall|j: int| 0 <= j < i ==> a@[j] == b@[j],
        decreases a.len() - i,
    {
        if a[i] < b[i] {
            return Ordering::Less;
        } else if a[i] > b[i] {
            return Ordering::Greater;
        }
        i += 1;
    }
    if a.len() < b.len() {
        Ordering::Less
    } else if a.len() > b.len() {
        Ordering::Greater
    } else {
        proof {
            assert(a@ =~= b@);
            lemma_lex_irreflexive(a@, 0);
        }
        Ordering::Equal
    }
}

impl<'a> Comparable for &'a [u8] {
    open spec fn precedes(self, other: Self) -> bool {
        lex_less(self@, other@)
    }

    proof fn lemma_irreflexive(x: Self) {
        lemma_lex_irreflexive(x@, 0);
    }

    proof fn lemma_transitive(x: Self, y: Self, z: Self) {
        lemma_lex_transitive(x@, y@, z@, 0);
    }

    proof fn lemma_connected(x: Self, y: Self, z: Self) {
        lemma_lex_connected(x@, y@, z@);
    }

    fn compare(&self, other: &Self) -> (r: Ordering) {
        compare_bytes(*self, *other)
    }
}

/// Strings sort by their UTF-8 bytes, as `str` does.
impl Comparable for String {
    open spec fn precedes(self, other: Self) -> bool {
        lex_less(vstd::utf8::encode_utf8(self@), vstd::utf8::encode_utf8(other@))
    }

    proof fn lemma_irreflexive(x: Self) {
        lemma_lex_irreflexive(vstd::utf8::encode_utf8(x@), 0);
    }

    proof fn lemma_transitive(x: Self, y: Self, z: Self) {
        lemma_lex_transitive(
            vstd::utf8::encode_utf8(x@),
            vstd::utf8::encode_utf8(y@),
            vstd::utf8::encode_utf8(z@),
            0,
        );
    }

    proof fn lemma_connected(x: Self, y: Self, z: Self) {
        lemma_lex_connected(
            vstd::utf8::encode_utf8(x@),
            vstd::utf8::encode_utf8(y@),
            vstd::utf8::encode_utf8(z@),
        );
    }

    fn compare(&self, other: &Self) -> (r: Ordering) {
        compare_bytes(self.as_str().as_bytes(), other.as_str().as_bytes())
    }
}

} // verus!

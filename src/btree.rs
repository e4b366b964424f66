use vstd::prelude::*;
use crate::node::{Node, PutResult};
use crate::sequence::{has_key, put_into};
use crate::order::{Comparable, same_key};

verus! {

/// An ordered search tree: the root node and the number of items stored.
#[derive(Debug)]
pub struct Btree<Item: Comparable> {
    root: Node<Item>,
    length: usize,
}

impl<Item: Comparable> View for Btree<Item> {
    type V = Seq<Item>;

    /// The stored items in ascending order.
    closed spec fn view(&self) -> Seq<Item> {
        self.root.contents()
    }
}

impl<Item: Comparable> Btree<Item> {
    /// The root is a well-formed node and the count is the number of items.
    pub closed spec fn wf(self) -> bool {
        &&& self.root.wf()
        &&& self.length == self.root.contents().len()
    }

    /// The root node.
    pub closed spec fn root_node(self) -> Node<Item> {
        self.root
    }

    /// The node capacity the tree was made with.
    pub open spec fn capacity(self) -> usize {
        self.root_node().capacity
    }

    /// An empty tree whose nodes hold up to `size` items: its root is an
    /// empty leaf.
    pub fn new(size: usize) -> (r: Self)
        requires
            1 <= size < usize::MAX,
        ensures
            r.wf(),
            r@ == Seq::<Item>::empty(),
            r.root_node().is_leaf_of(seq![], size),
            r.capacity() == size,
    {
        let r = Btree { root: Node::new(size), length: 0 };
        assert(r.root.items@ =~= seq![]);
        r
    }

    /// The stored item with the key of `item`, if any.
    pub fn get(&self, item: &Item) -> (r: Option<&Item>)
        requires
            self.wf(),
        ensures
            match r {
                Some(found) => self@.contains(*found) && same_key(*found, *item),
                None => !has_key(self@, *item),
            },
    {
        self.root.get(item)
    }

    /// Stores `item`, replacing the item with its key if there is one.
    pub fn put(&mut self, item: Item)
        requires
            old(self).wf(),
            old(self)@.len() < usize::MAX,
        ensures
            final(self).wf(),
            put_into(old(self)@, item, final(self)@),
            final(self).capacity() == old(self).capacity(),
            old(self).root_node().put_shape(
                item,
                true,
                if has_key(old(self)@, item) {
                    PutResult::Updated
                } else {
                    PutResult::Inserted
                },
                final(self).root_node(),
            ),
    {
        let res = self.root.put(item, true);
        match res {
            PutResult::Inserted => {
                self.length += 1;
            },
            _ => {},
        }
    }

    /// The number of items stored, one for each distinct key.
    pub fn len(&self) -> (r: usize)
        requires
            self.wf(),
        ensures
            r == self@.len(),
    {
        self.length
    }

    /// The root node.
    pub fn root(&self) -> (r: &Node<Item>)
        requires
            self.wf(),
        ensures
            *r == self.root_node(),
            r.wf(),
            r.contents() == self@,
            r.capacity == self.capacity(),
    {
        &self.root
    }
}

/// After a run of puts, the item stored under a key is the one put last with
/// that key: the item put at `i` is stored, and it is the only stored item
/// with its key, as long as no later put carries that key.
pub proof fn lemma_last_put_wins<T: Comparable>(states: Seq<Seq<T>>, puts: Seq<T>, i: int)
    requires
        states.len() == puts.len() + 1,
        forall|k: int| 0 <= k < puts.len() ==> put_into(#[trigger] states[k], puts[k], states[k + 1]),
        0 <= i < puts.len(),
        forall|k: int| i < k < puts.len() ==> !same_key(#[trigger] puts[k], puts[i]),
    ensures
        states.last().contains(puts[i]),
        forall|y: T| #[trigger] states.last().contains(y) && same_key(y, puts[i]) ==> y == puts[i],
    decreases puts.len() - i,
{
    let n = puts.len() as int;
    if i == n - 1 {
        assert(put_into(states[n - 1], puts[n - 1], states[n]));
    } else {
        assert(put_into(states[i], puts[i], states[i + 1]));
        lemma_stays(states, puts, i, i + 1);
    }
}

proof fn lemma_stays<T: Comparable>(states: Seq<Seq<T>>, puts: Seq<T>, i: int, k: int)
    requires
        states.len() == puts.len() + 1,
        forall|k: int| 0 <= k < puts.len() ==> put_into(#[trigger] states[k], puts[k], states[k + 1]),
        0 <= i < k <= puts.len(),
        forall|k: int| i < k < puts.len() ==> !same_key(#[trigger] puts[k], puts[i]),
        states[k].contains(puts[i]),
        forall|y: T| #[trigger] states[k].contains(y) && same_key(y, puts[i]) ==> y == puts[i],
    ensures
        states.last().contains(puts[i]),
        forall|y: T| #[trigger] states.last().contains(y) && same_key(y, puts[i]) ==> y == puts[i],
    decreases puts.len() - k,
{
    if k < puts.len() {
        assert(put_into(states[k], puts[k], states[k + 1]));
        assert(!same_key(puts[k], puts[i]));
        lemma_stays(states, puts, i, k + 1);
    }
}

/// A put over a key that is already stored leaves the number of items as it
/// was.
pub proof fn lemma_repeat_keeps_count<T: Comparable>(s: Seq<T>, x: T, t: Seq<T>)
    requires
        put_into(s, x, t),
        has_key(s, x),
    ensures
        t.len() == s.len(),
{
}

/// Puts of `n` items with pairwise distinct keys into an empty sequence
/// leave `n` items.
pub proof fn lemma_distinct_puts_count<T: Comparable>(states: Seq<Seq<T>>, puts: Seq<T>)
    requires
        states.len() == puts.len() + 1,
        states[0].len() == 0,
        forall|k: int| 0 <= k < puts.len() ==> put_into(#[trigger] states[k], puts[k], states[k + 1]),
        forall|a: int, b: int| 0 <= a < b < puts.len() ==> !same_key(#[trigger] puts[a], #[trigger] puts[b]),
    ensures
        states.last().len() == puts.len(),
{
    lemma_distinct_from(states, puts, 0);
}

proof fn lemma_distinct_from<T: Comparable>(states: Seq<Seq<T>>, puts: Seq<T>, k: int)
    requires
        0 <= k <= puts.len(),
        states.len() == puts.len() + 1,
        forall|k: int| 0 <= k < puts.len() ==> put_into(#[trigger] states[k], puts[k], states[k + 1]),
        forall|a: int, b: int| 0 <= a < b < puts.len() ==> !same_key(#[trigger] puts[a], #[trigger] puts[b]),
        states[k].len() == k,
        forall|y: T| #[trigger] states[k].contains(y) ==> exists|j: int| 0 <= j < k && y == puts[j],
    ensures
        states.last().len() == puts.len(),
    decreases puts.len() - k,
{
    if k < puts.len() {
        assert(put_into(states[k], puts[k], states[k + 1]));
        if has_key(states[k], puts[k]) {
            let p = choose|p: int| 0 <= p < states[k].len() && same_key(#[trigger] states[k][p], puts[k]);
            assert(states[k].contains(states[k][p]));
            let j = choose|j: int| 0 <= j < k && states[k][p] == puts[j];
            assert(!same_key(puts[j], puts[k]));
        }
        assert forall|y: T| #[trigger] states[k + 1].contains(y) implies exists|j: int| 0 <= j < k + 1 && y == puts[j] by {
            if y == puts[k] {
                assert(0 <= k < k + 1 && y == puts[k]);
            } else {
                assert(states[k].contains(y));
                let j = choose|j: int| 0 <= j < k && y == puts[j];
                assert(0 <= j < k + 1 && y == puts[j]);
            }
        }
        lemma_distinct_from(states, puts, k + 1);
    }
}

/// A key that no put of a run carries, and that was absent before the run,
/// is absent after it.
pub proof fn lemma_never_put_absent<T: Comparable>(states: Seq<Seq<T>>, puts: Seq<T>, x: T)
    requires
        states.len() == puts.len() + 1,
        forall|k: int| 0 <= k < puts.len() ==> put_into(#[trigger] states[k], puts[k], states[k + 1]),
        forall|k: int| 0 <= k < puts.len() ==> !same_key(#[trigger] puts[k], x),
        !has_key(states[0], x),
    ensures
        !has_key(states.last(), x),
    decreases puts.len(),
{
    let n = puts.len() as int;
    if n > 0 {
        lemma_never_put_absent(states.drop_last(), puts.drop_last(), x);
        let s = states[n - 1];
        let t = states[n];
        assert(put_into(s, puts[n - 1], t));
        assert(!same_key(puts[n - 1], x));
        if has_key(t, x) {
            let j = choose|j: int| 0 <= j < t.len() && same_key(#[trigger] t[j], x);
            assert(t.contains(t[j]));
            if t[j] != puts[n - 1] {
                assert(s.contains(t[j]));
                let i = choose|i: int| 0 <= i < s.len() && s[i] == t[j];
                assert(same_key(s[i], x));
            }
        }
    }
}

} // verus!

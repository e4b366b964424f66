use vstd::prelude::*;
use core::cmp::Ordering;
use crate::layout::{
    after, before, interleave, lemma_interleave_absorb, lemma_interleave_head, lemma_interleave_split,
    lemma_interleave_update, lemma_interleave_update_sep,
};
use crate::order::{Comparable, lemma_order, same_key};
use crate::sequence::{
    has_key, lemma_place, place, lemma_contains3, lemma_put_insert, lemma_put_middle, lemma_put_replace, put_into, sorted,
};

verus! {

/// A node of the tree: its items in ascending order and, unless it is a
/// leaf, one child more than it has items.
#[derive(Debug)]
pub struct Node<Item: Comparable> {
    pub items: Vec<Item>,
    pub children: Vec<Node<Item>>,
    pub capacity: usize,
}

/// What a node tells its caller after a put.
#[derive(Debug, PartialEq)]
pub enum PutResult<Item: Comparable> {
    /// The node overflowed and handed its items up: the left half, the
    /// median, the right half. The caller rebuilds the structure.
    Putting(usize, Vec<Item>, Item, Vec<Item>),
    /// An item with the same key was replaced.
    Updated,
    /// A new item was added.
    Inserted,
}

impl<Item: Comparable> Node<Item> {
    /// The contents of the children, in order.
    pub open spec fn parts(self) -> Seq<Seq<Item>>
        decreases self, 0nat,
    {
        Seq::new(
            self.children@.len(),
            |i: int|
                if 0 <= i < self.children@.len() {
                    self.children@[i].contents()
                } else {
                    seq![]
                },
        )
    }

    /// All items of the subtree, in order.
    pub open spec fn contents(self) -> Seq<Item>
        decreases self, 1nat,
    {
        if self.children@.len() == 0 {
            self.items@
        } else {
            interleave(self.parts(), self.items@)
        }
    }

    /// The invariants of a node and its whole subtree.
    pub open spec fn wf(self) -> bool
        decreases self,
    {
        &&& 1 <= self.capacity < usize::MAX
        &&& self.items@.len() <= self.capacity
        &&& (self.children@.len() == 0 || self.children@.len() == self.items@.len() + 1)
        &&& forall|i: int|
            0 <= i < self.children@.len() ==> (#[trigger] self.children@[i]).wf()
                && self.children@[i].capacity == self.capacity
        &&& sorted(self.items@)
        &&& sorted(self.contents())
    }

    /// A leaf holding nothing.
    pub open spec fn is_empty_leaf(self) -> bool {
        self.items@.len() == 0 && self.children@.len() == 0
    }

    /// A leaf holding exactly `items`, with capacity `cap`.
    pub open spec fn is_leaf_of(self, items: Seq<Item>, cap: usize) -> bool {
        &&& self.items@ == items
        &&& self.children@.len() == 0
        &&& self.capacity == cap
    }

    /// The shape one put of `x` gives: `self` is the node before, `f` the
    /// node after, `p` tells that the caller has no room, `r` is the result.
    /// At the place `i` of `x` among the items: an item with the key of `x`
    /// is overwritten there and nothing else changes. A leaf gets `x`
    /// inserted; once it holds `capacity` items it splits at the median
    /// `n / 2`, in place when `p` holds and otherwise by handing the halves
    /// up. An internal node passes `x` on to child `i`, telling it whether
    /// its own items are full. When that child is a leaf that fills up under
    /// a node with room, the median goes in at `i`, the left half stays in
    /// child `i` and a leaf with the right half comes in at `i + 1`;
    /// otherwise only child `i` changes, by its own put.
    pub open spec fn put_shape(self, x: Item, p: bool, r: PutResult<Item>, f: Node<Item>) -> bool
        decreases self,
    {
        let i = place(self.items@, x);
        let cap = self.capacity;
        let full = self.items@.len() >= cap;
        if !(0 <= i <= self.items@.len()) {
            false
        } else if i < self.items@.len() && same_key(self.items@[i], x) {
            &&& r is Updated
            &&& f.items@ == self.items@.update(i, x)
            &&& f.children == self.children
            &&& f.capacity == cap
        } else if self.children@.len() == 0 {
            let s = self.items@.insert(i, x);
            let h = (s.len() / 2) as int;
            if s.len() < cap {
                &&& r is Inserted
                &&& f.is_leaf_of(s, cap)
            } else if p {
                &&& r is Inserted
                &&& f.items@ == seq![s[h]]
                &&& f.children@.len() == 2
                &&& f.children@[0].is_leaf_of(s.subrange(0, h), cap)
                &&& f.children@[1].is_leaf_of(s.subrange(h + 1, s.len() as int), cap)
                &&& f.capacity == cap
            } else {
                &&& f.is_leaf_of(seq![], cap)
                &&& match r {
                    PutResult::Putting(k, l, m, rr) => {
                        &&& k == i
                        &&& l@ == s.subrange(0, h)
                        &&& m == s[h]
                        &&& rr@ == s.subrange(h + 1, s.len() as int)
                    },
                    _ => false,
                }
            }
        } else if i < self.children@.len() {
            let c = self.children@[i];
            let j = place(c.items@, x);
            let t = c.items@.insert(j, x);
            let k = (t.len() / 2) as int;
            if !full && c.children@.len() == 0 && 0 <= j <= c.items@.len() && !(j < c.items@.len()
                && same_key(c.items@[j], x)) && t.len() >= c.capacity {
                &&& r is Inserted
                &&& f.items@ == self.items@.insert(i, t[k])
                &&& f.children@.len() == self.children@.len() + 1
                &&& f.children@[i].is_leaf_of(t.subrange(0, k), c.capacity)
                &&& f.children@[i + 1].is_leaf_of(t.subrange(k + 1, t.len() as int), c.capacity)
                &&& forall|m: int| 0 <= m < i ==> f.children@[m] == self.children@[m]
                &&& forall|m: int|
                    i < m < self.children@.len() ==> f.children@[m + 1] == self.children@[m]
                &&& f.capacity == cap
            } else {
                &&& c.put_shape(x, full, r, f.children@[i])
                &&& f.items == self.items
                &&& f.children@ == self.children@.update(i, f.children@[i])
                &&& f.capacity == cap
            }
        } else {
            false
        }
    }

    /// The subtree laid out around child `c`: its contents lie between the
    /// items on either side of it.
    proof fn lemma_around(self, c: int)
        requires
            self.wf(),
            self.children@.len() > 0,
            0 <= c < self.children@.len(),
        ensures
            self.contents() == before(self.parts(), self.items@, c) + self.parts()[c] + after(
                self.parts(),
                self.items@,
                c,
            ),
            self.parts()[c] == self.children@[c].contents(),
            c > 0 ==> forall|j: int|
                0 <= j < before(self.parts(), self.items@, c).len() ==> !self.items@[c - 1].precedes(
                    #[trigger] before(self.parts(), self.items@, c)[j],
                ),
            c < self.items@.len() ==> forall|j: int|
                0 <= j < after(self.parts(), self.items@, c).len() ==> !(#[trigger] after(
                    self.parts(),
                    self.items@,
                    c,
                )[j]).precedes(self.items@[c]),
            forall|y: Item|
                #[trigger] self.parts()[c].contains(y) ==> (c > 0 ==> self.items@[c - 1].precedes(y))
                    && (c < self.items@.len() ==> y.precedes(self.items@[c])),
            c == 0 ==> before(self.parts(), self.items@, c).len() == 0,
            c == self.items@.len() ==> after(self.parts(), self.items@, c).len() == 0,
    {
        lemma_order::<Item>();
        let parts = self.parts();
        let seps = self.items@;
        lemma_interleave_split(parts, seps, c);
        let a = before(parts, seps, c);
        let m = parts[c];
        let b = after(parts, seps, c);
        let s = a + m + b;
        assert(s == self.contents());
        if c > 0 {
            assert(s[a.len() - 1] == seps[c - 1]);
            assert forall|j: int| 0 <= j < a.len() implies !seps[c - 1].precedes(#[trigger] a[j]) by {
                assert(s[j] == a[j]);
                if j < a.len() - 1 {
                    assert(s[j].precedes(s[a.len() - 1]));
                }
            }
        }
        if c < seps.len() {
            assert(s[(a.len() + m.len()) as int] == seps[c]);
            assert forall|j: int| 0 <= j < b.len() implies !(#[trigger] b[j]).precedes(seps[c]) by {
                assert(s[a.len() + m.len() + j] == b[j]);
                if j > 0 {
                    assert(s[(a.len() + m.len()) as int].precedes(s[a.len() + m.len() + j]));
                }
            }
        }
        assert forall|y: Item| #[trigger] m.contains(y) implies (c > 0 ==> seps[c - 1].precedes(y))
            && (c < seps.len() ==> y.precedes(seps[c])) by {
            let k = choose|k: int| 0 <= k < m.len() && m[k] == y;
            assert(s[a.len() + k] == y);
            if c > 0 {
                assert(s[a.len() - 1].precedes(s[a.len() + k]));
            }
            if c < seps.len() {
                assert(s[a.len() + k].precedes(s[(a.len() + m.len()) as int]));
            }
        }
    }

    /// The key of `x` can only be under child `c`, the child between the
    /// items on either side of `x`.
    proof fn lemma_descend(self, c: int, x: Item)
        requires
            self.wf(),
            self.children@.len() > 0,
            0 <= c <= self.items@.len(),
            forall|j: int| 0 <= j < c ==> #[trigger] self.items@[j].precedes(x),
            forall|j: int| c <= j < self.items@.len() ==> x.precedes(#[trigger] self.items@[j]),
        ensures
            self.contents() == before(self.parts(), self.items@, c) + self.children@[c].contents()
                + after(self.parts(), self.items@, c),
            forall|j: int|
                0 <= j < before(self.parts(), self.items@, c).len() ==> (#[trigger] before(
                    self.parts(),
                    self.items@,
                    c,
                )[j]).precedes(x),
            forall|j: int|
                0 <= j < after(self.parts(), self.items@, c).len() ==> x.precedes(
                    #[trigger] after(self.parts(), self.items@, c)[j],
                ),
            has_key(self.contents(), x) == has_key(self.children@[c].contents(), x),
            forall|y: Item|
                #[trigger] self.children@[c].contents().contains(y) ==> self.contents().contains(y),
    {
        lemma_order::<Item>();
        self.lemma_around(c);
        let a = before(self.parts(), self.items@, c);
        let m = self.children@[c].contents();
        let b = after(self.parts(), self.items@, c);
        if c > 0 {
            assert(self.items@[c - 1].precedes(x));
            assert forall|j: int| 0 <= j < a.len() implies (#[trigger] a[j]).precedes(x) by {
                assert(!self.items@[c - 1].precedes(a[j]));
            }
        }
        if c < self.items@.len() {
            assert(x.precedes(self.items@[c]));
            assert forall|j: int| 0 <= j < b.len() implies x.precedes(#[trigger] b[j]) by {
                assert(!b[j].precedes(self.items@[c]));
            }
        }
        let s = a + m + b;
        if has_key(s, x) {
            let j = choose|j: int| 0 <= j < s.len() && same_key(#[trigger] s[j], x);
            if j < a.len() {
                assert(a[j].precedes(x));
            } else if j >= a.len() + m.len() {
                assert(x.precedes(b[j - a.len() - m.len()]));
            } else {
                assert(m[j - a.len()] == s[j]);
            }
        }
        if has_key(m, x) {
            let j = choose|j: int| 0 <= j < m.len() && same_key(#[trigger] m[j], x);
            assert(s[a.len() + j] == m[j]);
        }
        assert forall|y: Item| #[trigger] m.contains(y) implies s.contains(y) by {
            lemma_contains3(a, m, b, y);
        }
    }

    /// The item stored under the key of `item`, if any.
    pub fn get(&self, item: &Item) -> (r: Option<&Item>)
        requires
            self.wf(),
        ensures
            match r {
                Some(found) => self.contents().contains(*found) && same_key(*found, *item),
                None => !has_key(self.contents(), *item),
            },
        decreases self,
    {
        proof {
            lemma_order::<Item>();
        }
        let (idx, found) = self.search(item);
        if found {
            proof {
                if self.children@.len() > 0 {
                    self.lemma_around(idx + 1);
                    let a = before(self.parts(), self.items@, idx + 1);
                    assert(self.contents()[a.len() - 1] == self.items@[idx as int]);
                } else {
                    assert(self.contents()[idx as int] == self.items@[idx as int]);
                }
            }
            return Some(&self.items[idx]);
        }
        if idx + 1 > self.children.len() {
            proof {
                assert forall|j: int| 0 <= j < self.items@.len() implies !same_key(#[trigger] self.items@[j], *item) by {
                    if j < idx {
                        assert(self.items@[j].precedes(*item));
                    } else {
                        assert(item.precedes(self.items@[j]));
                    }
                }
            }
            return None;
        }
        proof {
            self.lemma_descend(idx as int, *item);
        }
        self.children[idx].get(item)
    }

    /// Puts `item` into the subtree: it replaces the item with its key, or
    /// is added. A leaf that fills up splits; with `parent_no_space` it
    /// becomes the parent of its two halves itself, and otherwise it hands
    /// up the index at which `item` went in, the halves and the median, and
    /// is left empty: its caller, which has room for the median, rebuilds
    /// the structure.
    #[verifier::rlimit(100)]
    pub fn put(&mut self, item: Item, parent_no_space: bool) -> (r: PutResult<Item>)
        requires
            old(self).wf(),
        ensures
            final(self).capacity == old(self).capacity,
            (r is Updated) == has_key(old(self).contents(), item),
            old(self).put_shape(item, parent_no_space, r, *final(self)),
            match r {
                PutResult::Putting(index, left, median, right) => {
                    &&& !parent_no_space
                    &&& index <= old(self).items@.len()
                    &&& forall|j: int| 0 <= j < index ==> #[trigger] old(self).items@[j].precedes(item)
                    &&& forall|j: int|
                        index <= j < old(self).items@.len() ==> item.precedes(#[trigger] old(self).items@[j])
                    &&& old(self).children@.len() == 0
                    &&& final(self).is_empty_leaf()
                    &&& put_into(old(self).contents(), item, left@ + seq![median] + right@)
                    &&& left@.len() <= old(self).capacity
                    &&& right@.len() <= old(self).capacity
                },
                _ => final(self).wf() && put_into(old(self).contents(), item, final(self).contents()),
            },
        decreases *old(self),
    {
        proof {
            lemma_order::<Item>();
        }
        let ghost s0 = *self;
        let (cursor, exists) = self.search(&item);
        proof {
            if cursor < s0.items@.len() && !exists {
                assert(item.precedes(s0.items@[cursor as int]));
            }
            if exists {
                assert forall|j: int| 0 <= j < cursor implies #[trigger] s0.items@[j].precedes(item) by {
                    assert(s0.items@[j].precedes(s0.items@[cursor as int]));
                    Item::lemma_connected(s0.items@[j], item, s0.items@[cursor as int]);
                }
            }
            lemma_place(s0.items@, item, cursor as int);
        }
        if exists {
            self.items.set(cursor, item);
            proof {
                lemma_put_replace(s0.items@, cursor as int, item);
                if s0.children@.len() > 0 {
                    assert(self.parts() =~= s0.parts());
                    lemma_interleave_update_sep(s0.parts(), s0.items@, cursor as int, item);
                    let a = before(s0.parts(), s0.items@, cursor + 1);
                    lemma_interleave_split(s0.parts(), s0.items@, cursor + 1);
                    assert(s0.contents()[a.len() - 1] == s0.items@[cursor as int]);
                    lemma_put_replace(s0.contents(), a.len() - 1, item);
                }
                assert forall|i: int| 0 <= i < self.children@.len() implies (#[trigger] self.children@[i]).wf()
                    && self.children@[i].capacity == self.capacity by {
                    assert(self.children@[i] == s0.children@[i]);
                }
            }
            return PutResult::Updated;
        }
        let res = PutResult::Inserted;
        if self.children.len() == 0 {
            self.items.insert(cursor, item);
            proof {
                lemma_put_insert(s0.items@, cursor as int, item);
            }
        } else {
            let is_max = self.is_items_filled();
            proof {
                s0.lemma_descend(cursor as int, item);
                s0.lemma_around(cursor as int);
            }
            let child_res = self.children[cursor].put(item, is_max);
            let ghost a = before(s0.parts(), s0.items@, cursor as int);
            let ghost b = after(s0.parts(), s0.items@, cursor as int);
            let ghost m = s0.children@[cursor as int].contents();
            match child_res {
                PutResult::Putting(_, mut left, center, mut right) => {
                    let ghost l = left@;
                    let ghost rt = right@;
                    self.items.insert(cursor, center);
                    self.children[cursor].items.append(&mut left);
                    let mut right_node = self.new_node();
                    right_node.items.append(&mut right);
                    self.children.insert(cursor + 1, right_node);
                    proof {
                        let m2 = l + seq![center] + rt;
                        lemma_put_middle(a, m, m2, b, item);
                        assert(m2.contains(center)) by {
                            assert(m2[l.len() as int] == center);
                        }
                        assert forall|j: int| 0 <= j < cursor implies #[trigger] s0.items@[j].precedes(center) by {
                            if center != item {
                                assert(s0.parts()[cursor as int].contains(center));
                                assert(s0.items@[j].precedes(s0.items@[cursor - 1]) || j == cursor - 1);
                            }
                        }
                        assert forall|j: int| cursor <= j < s0.items@.len() implies center.precedes(#[trigger] s0.items@[j]) by {
                            if center != item {
                                assert(s0.parts()[cursor as int].contains(center));
                                assert(s0.items@[cursor as int].precedes(s0.items@[j]) || j == cursor);
                            }
                        }
                        lemma_put_insert(s0.items@, cursor as int, center);
                        assert forall|p: int, q: int| 0 <= p < q < l.len() implies #[trigger] l[p].precedes(#[trigger] l[q]) by {
                            assert(m2[p] == l[p] && m2[q] == l[q]);
                        }
                        assert forall|p: int, q: int| 0 <= p < q < rt.len() implies #[trigger] rt[p].precedes(#[trigger] rt[q]) by {
                            let k = l.len() + 1;
                            assert(m2[k + p] == rt[p] && m2[k + q] == rt[q]);
                        }
                        let ln = self.children@[cursor as int];
                        let rn = self.children@[cursor + 1];
                        assert(ln.contents() == l);
                        assert(rn.contents() == rt);
                        assert(ln.wf());
                        assert(rn.wf());
                        assert(self.parts() =~= s0.parts().update(cursor as int, l).insert(cursor + 1, rt));
                        lemma_interleave_absorb(s0.parts(), s0.items@, cursor as int, l, center, rt);
                        assert forall|i: int| 0 <= i < self.children@.len() implies (#[trigger] self.children@[i]).wf()
                            && self.children@[i].capacity == self.capacity by {
                            if i < cursor {
                                assert(self.children@[i] == s0.children@[i]);
                            } else if i > cursor + 1 {
                                assert(self.children@[i] == s0.children@[i - 1]);
                            }
                        }
                        let c = s0.children@[cursor as int];
                        let t = c.items@.insert(place(c.items@, item), item);
                        assert(!is_max);
                        assert(c.children@.len() == 0);
                        assert(t.len() >= c.capacity);
                        assert(t[(t.len() / 2) as int] == center);
                        assert(self.children@[cursor as int].is_leaf_of(l, c.capacity));
                        assert(self.children@[cursor + 1].is_leaf_of(rt, c.capacity));
                        assert(forall|m: int| 0 <= m < cursor ==> self.children@[m] == s0.children@[m]);
                        assert(forall|m: int| cursor < m < s0.children@.len() ==> self.children@[m + 1] == s0.children@[m]);
                        assert(s0.put_shape(item, parent_no_space, res, *self));
                    }
                },
                done => {
                    proof {
                        let m2 = self.children@[cursor as int].contents();
                        lemma_put_middle(a, m, m2, b, item);
                        assert(self.parts() =~= s0.parts().update(cursor as int, m2));
                        lemma_interleave_update(s0.parts(), s0.items@, cursor as int, m2);
                        assert forall|i: int| 0 <= i < self.children@.len() implies (#[trigger] self.children@[i]).wf()
                            && self.children@[i].capacity == self.capacity by {
                            if i != cursor {
                                assert(self.children@[i] == s0.children@[i]);
                            }
                        }
                    }
                    proof {
                        let fc = self.children@[cursor as int];
                        assert(s0.children@[cursor as int].put_shape(item, is_max, done, fc));
                        assert(self.children@ =~= s0.children@.update(cursor as int, fc));
                        assert(self.items == s0.items);
                    }
                    return done;
                },
            }
        }
        if !self.is_items_filled() || self.is_children_filled() {
            proof {
                if s0.children@.len() == 0 {
                    assert(self.is_leaf_of(s0.items@.insert(cursor as int, item), s0.capacity));
                }
            }
            return res;
        }
        // Only a leaf gets here: an internal node has one child more than it
        // has items, so its children are full whenever its items are.
        let ghost full = self.items@;
        proof {
            assert(self.children@.len() == 0);
            assert(put_into(s0.contents(), item, full));
        }
        let (mut left, center, mut right) = self.split_three_items();
        proof {
            assert forall|p: int, q: int| 0 <= p < q < left@.len() implies #[trigger] left@[p].precedes(#[trigger] left@[q]) by {
                assert(full[p] == left@[p] && full[q] == left@[q]);
            }
            assert forall|p: int, q: int| 0 <= p < q < right@.len() implies #[trigger] right@[p].precedes(#[trigger] right@[q]) by {
                let k = full.len() / 2 + 1;
                assert(full[k + p] == right@[p] && full[k + q] == right@[q]);
            }
        }
        if parent_no_space {
            let mut left_node = self.new_node();
            let mut right_node = self.new_node();
            left_node.items.append(&mut left);
            right_node.items.append(&mut right);
            self.children.push(left_node);
            self.children.push(right_node);
            self.items.push(center);
            proof {
                let l = self.children@[0].contents();
                let rt = self.children@[1].contents();
                assert(self.parts() =~= seq![l, rt]);
                lemma_interleave_head(self.parts(), self.items@);
                assert(self.parts().drop_first() =~= seq![rt]);
                assert(self.contents() =~= full);
                assert(self.children@[0].wf());
                assert(self.children@[1].wf());
                assert(sorted(self.items@));
                assert(self.wf());
                let h = (full.len() / 2) as int;
                assert(self.items@ =~= seq![full[h]]);
                assert(self.children@[0].is_leaf_of(full.subrange(0, h), s0.capacity));
                assert(self.children@[1].is_leaf_of(full.subrange(h + 1, full.len() as int), s0.capacity));
            }
            return res;
        }
        proof {
            assert(self.items@ =~= seq![]);
        }
        PutResult::Putting(cursor, left, center, right)
    }

    /// An empty leaf.
    pub fn new(capacity: usize) -> (r: Self)
        requires
            1 <= capacity < usize::MAX,
        ensures
            r.wf(),
            r.is_empty_leaf(),
            r.capacity == capacity,
            r.contents() == Seq::<Item>::empty(),
    {
        Node { children: Vec::with_capacity(capacity + 1), items: Vec::with_capacity(capacity), capacity }
    }

    /// Where `item` stands among this node's items: the index of the item
    /// with its key and `true`, or the index at which it would be inserted
    /// and `false`.
    pub fn search(&self, item: &Item) -> (r: (usize, bool))
        requires
            sorted(self.items@),
        ensures
            r.0 <= self.items@.len(),
            r.1 ==> r.0 < self.items@.len() && same_key(self.items@[r.0 as int], *item),
            !r.1 ==> (forall|j: int| 0 <= j < r.0 ==> #[trigger] self.items@[j].precedes(*item)),
            !r.1 ==> (forall|j: int|
                r.0 <= j < self.items@.len() ==> item.precedes(#[trigger] self.items@[j])),
    {
        proof {
            lemma_order::<Item>();
        }
        let mut lo: usize = 0;
        let mut hi: usize = self.items.len();
        while lo < hi
            invariant
                lo <= hi <= self.items@.len(),
                sorted(self.items@),
                forall|j: int| 0 <= j < lo ==> #[trigger] self.items@[j].precedes(*item),
                forall|j: int| hi <= j < self.items@.len() ==> item.precedes(#[trigger] self.items@[j]),
            decreases hi - lo,
        {
            let mid = lo + (hi - lo) / 2;
            let ord = self.items[mid].compare(item);
            match ord {
                Ordering::Less => {
                    proof {
                        lemma_order::<Item>();
                        assert forall|j: int| 0 <= j <= mid implies #[trigger] self.items@[j].precedes(*item) by {
                            if j < mid {
                                assert(self.items@[j].precedes(self.items@[mid as int]));
                            }
                        }
                    }
                    lo = mid + 1;
                },
                Ordering::Greater => {
                    proof {
                        lemma_order::<Item>();
                        assert forall|j: int| mid <= j < self.items@.len() implies item.precedes(#[trigger] self.items@[j]) by {
                            if j > mid {
                                assert(self.items@[mid as int].precedes(self.items@[j]));
                            }
                        }
                    }
                    hi = mid;
                },
                Ordering::Equal => {
                    return (mid, true);
                },
            }
        }
        (lo, false)
    }

    /// The node holds as many items as its capacity, or more.
    pub fn is_items_filled(&self) -> (r: bool)
        ensures
            r == (self.items@.len() >= self.capacity),
    {
        self.items.len() >= self.capacity
    }

    /// The node has more children than its capacity.
    pub fn is_children_filled(&self) -> (r: bool)
        ensures
            r == (self.children@.len() > self.capacity),
    {
        self.children.len() > self.capacity
    }

    /// An empty item sequence, sized for this node.
    pub fn new_items(&self) -> (r: Vec<Item>)
        ensures
            r@.len() == 0,
    {
        Vec::with_capacity(self.capacity)
    }

    /// An empty leaf with this node's capacity.
    pub fn new_node(&self) -> (r: Node<Item>)
        requires
            1 <= self.capacity < usize::MAX,
        ensures
            r.wf(),
            r.is_empty_leaf(),
            r.capacity == self.capacity,
    {
        Node::new(self.capacity)
    }

    /// Drains the items into a left part, the median at index `n / 2`, and a
    /// right part, which together give back the items in order.
    pub fn split_three_items(&mut self) -> (r: (Vec<Item>, Item, Vec<Item>))
        requires
            old(self).items@.len() >= 1,
        ensures
            r.0@ == old(self).items@.subrange(0, (old(self).items@.len() / 2) as int),
            r.1 == old(self).items@[(old(self).items@.len() / 2) as int],
            r.2@ == old(self).items@.subrange(
                (old(self).items@.len() / 2) as int + 1,
                old(self).items@.len() as int,
            ),
            r.0@ + seq![r.1] + r.2@ == old(self).items@,
            final(self).items@.len() == 0,
            final(self).children == old(self).children,
            final(self).capacity == old(self).capacity,
    {
        let half = self.items.len() / 2;
        let right = self.items.split_off(half + 1);
        let center = self.items.pop().unwrap();
        let mut left = self.new_items();
        left.append(&mut self.items);
        assert(left@ + seq![center] + right@ =~= old(self).items@);
        (left, center, right)
    }
}

} // verus!

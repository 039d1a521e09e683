use core::cmp::Ordering;
use vstd::prelude::*;

use crate::node::find_key;
use crate::node::items_map;
use crate::node::lemma_items_map;
use crate::node::lemma_remove;
use crate::node::Node;
use crate::order_laws;
use crate::Arbiter;
use crate::GetDirection;
use crate::GetDistance;
use crate::GetKey;
use crate::KeyOrder;

verus! {

/// The items that `s` refers to.
pub open spec fn deref_items<Item>(s: Seq<&Item>) -> Seq<Item> {
    Seq::new(s.len(), |i: int| *s[i])
}

/// Some pair of `ranked` is for position `m`.
pub open spec fn has_position<Key>(ranked: Seq<(Key, usize)>, m: int) -> bool {
    exists|p: int| 0 <= p < ranked.len() && (#[trigger] ranked[p]).1 == m
}

/// The distance from `q` to the key of `item`.
pub open spec fn dist_to<Key: GetDistance, Item: GetKey<Key>>(q: Key, item: Item) -> Key {
    q.spec_distance(&item.spec_key())
}

/// In the ranking of `all` by distance to `q`, the item at `a` comes before the
/// item at `b`: it is closer, or as close and earlier.
pub open spec fn ranks_before<Key: GetDistance + KeyOrder, Item: GetKey<Key>>(
    all: Seq<Item>,
    q: Key,
    a: int,
    b: int,
) -> bool {
    let da = dist_to(q, all[a]);
    let db = dist_to(q, all[b]);
    ||| da.spec_cmp(&db) == Ordering::Less
    ||| (da == db && a < b)
}

/// `r` is the first `r.len()` items of `all` in their ranking by distance to
/// `q`, each taken from the position that `idx` gives.
pub open spec fn is_closest<Key: GetDistance + KeyOrder, Item: GetKey<Key>>(
    all: Seq<Item>,
    q: Key,
    idx: Seq<int>,
    r: Seq<Item>,
) -> bool {
    &&& idx.len() == r.len()
    &&& forall|i: int| 0 <= i < idx.len() ==> 0 <= #[trigger] idx[i] < all.len() && r[i] == all[idx[i]]
    &&& forall|i: int, j: int| 0 <= i < j < idx.len() ==> ranks_before(all, q, #[trigger] idx[i], #[trigger] idx[j])
    &&& forall|i: int, m: int|
        0 <= i < idx.len() && 0 <= m < all.len() && !idx.contains(m) ==> #[trigger] ranks_before(all, q, idx[i], m)
}

/// The ranking is a strict order: it is transitive.
proof fn lemma_ranks_transitive<Key: GetDistance + KeyOrder, Item: GetKey<Key>>(all: Seq<Item>, q: Key, a: int, b: int, c: int)
    requires
        order_laws::<Key>(),
        ranks_before(all, q, a, b),
        ranks_before(all, q, b, c),
    ensures
        ranks_before(all, q, a, c),
{
}

/// A distance that is not greater than another is less or the same.
proof fn lemma_not_greater<Key: KeyOrder>(a: Key, b: Key)
    requires
        order_laws::<Key>(),
        a.spec_cmp(&b) != Ordering::Greater,
    ensures
        a.spec_cmp(&b) == Ordering::Less || a == b,
{
}

/// What `closest` returns comes in non-decreasing distance to the query.
pub proof fn lemma_closest_sorted<Key: GetDistance + KeyOrder, Item: GetKey<Key>>(
    all: Seq<Item>,
    q: Key,
    idx: Seq<int>,
    r: Seq<Item>,
)
    requires
        order_laws::<Key>(),
        is_closest(all, q, idx, r),
    ensures
        forall|i: int, j: int|
            #![trigger r[i], r[j]]
            0 <= i < j < r.len() ==> dist_to(q, r[i]).spec_cmp(&dist_to(q, r[j])) != Ordering::Greater,
{
    assert forall|i: int, j: int|
        #![trigger r[i], r[j]]
        0 <= i < j < r.len() implies dist_to(q, r[i]).spec_cmp(&dist_to(q, r[j])) != Ordering::Greater by {
        assert(ranks_before(all, q, idx[i], idx[j]));
    }
}

/// A k-bucket table owned by `key`: a trie of leaves of at most `K` items each,
/// where only the leaf on the path of the owner's key splits as it fills.
pub struct Bucket<Key, Item, const K: usize> {
    key: Key,
    root: Box<Node<Item>>,
}

impl<Key, Item: GetKey<Key>, const K: usize> View for Bucket<Key, Item, K> {
    type V = Map<Key, Item>;

    /// The stored items by their keys.
    closed spec fn view(&self) -> Map<Key, Item> {
        self.root.view_map()
    }
}

/// Key: key struct
/// Item: value struct
/// K: max items in a bucket
impl<Key: GetDirection + KeyOrder, Item: GetKey<Key> + Arbiter, const K: usize> Bucket<Key, Item, K> {
    /// The owner's key.
    pub closed spec fn owner(&self) -> Key {
        self.key
    }

    /// The table's invariant: a well-formed trie of leaves of at most `K` items,
    /// and a total number of items that fits a `usize`.
    pub closed spec fn wf(&self) -> bool {
        &&& K > 0
        &&& (Key::spec_key_bits() + 1) * K <= usize::MAX
        &&& self.root.wf(Seq::empty(), self.key, K as nat)
    }

    /// Whether the table takes an item under the new key `k`: the leaf of `k`
    /// has room, or it is on the owner's path and, once split, the side of `k`
    /// takes it, and so on below.
    pub closed spec fn accepts(&self, k: Key) -> bool {
        self.root.accepts(k, 0, self.key, K as nat)
    }

    /// What `put(value)` makes of the contents: an item under the same key is
    /// replaced when it arbitrates for `value`; a new key is added when the
    /// table accepts it; otherwise the contents stay as they are.
    pub open spec fn put_spec(&self, value: Item) -> Map<Key, Item> {
        let k = value.spec_key();
        if self@.contains_key(k) {
            if self@[k].spec_arbitrate(&value) {
                self@.insert(k, value)
            } else {
                self@
            }
        } else if self.accepts(k) {
            self@.insert(k, value)
        } else {
            self@
        }
    }

    /// The leaf that `k` is routed to is full and may not split.
    pub closed spec fn leaf_full_and_fixed(&self, k: Key) -> bool {
        let leaf = self.root.leaf_of(k, 0);
        &&& leaf->Leaf_items@.len() >= K
        &&& !leaf->Leaf_can_split
    }

    /// The stored items, leaves read from left to right.
    pub closed spec fn items(&self) -> Seq<Item> {
        self.root.items_of()
    }

    /// Each leaf's number of items and whether it may split, left to right.
    pub closed spec fn shape(&self) -> Seq<(nat, bool)> {
        self.root.leaf_shape()
    }

    /// The number of forks of the trie.
    pub closed spec fn forks(&self) -> nat {
        self.root.forks()
    }

    /// The number of items the leaves hold.
    pub closed spec fn size(&self) -> nat {
        self.root.items_of().len()
    }

    proof fn lemma_wf(&self)
        requires
            self.wf(),
        ensures
            self.root.forks_below::<Key>(0),
            self@.dom().finite(),
            self@.len() == self.size(),
            self.size() <= usize::MAX,
            forall|k: Key| #[trigger] self@.contains_key(k) ==> self@[k].spec_key() == k,
    {
        self.root.lemma_wf_view(Seq::empty(), self.key, K as nat);
        self.root.lemma_size_bound(Seq::empty(), self.key, K as nat);
    }

    /// An empty table owned by `key`. `K` must be positive.
    pub fn new(key: Key) -> (r: Self)
        requires
            K > 0,
            (Key::spec_key_bits() + 1) * K <= usize::MAX,
        ensures
            r.wf(),
            r.owner() == key,
            r@ == Map::<Key, Item>::empty(),
    {
        let r = Bucket { key, root: Box::new(Node::new_root()) };
        proof {
            assert(r@ =~= Map::<Key, Item>::empty());
        }
        r
    }

    /// Put `value` into the table. An item under the same key is replaced when
    /// it arbitrates for `value`; a new key is added when the table accepts it,
    /// splitting the leaves on the owner's path as needed; otherwise nothing changes.
    pub fn put(&mut self, value: Item)
        requires
            old(self).wf(),
            order_laws::<Key>(),
        ensures
            final(self).wf(),
            final(self).owner() == old(self).owner(),
            final(self)@ == old(self).put_spec(value),
            !final(self)@.contains_key(value.spec_key()) ==> !final(self).accepts(value.spec_key()),
    {
        let item_key = value.get_key();
        self.root.put_at(value, item_key, 0, &self.key, K, Ghost(Seq::empty()));
    }

    /// The item stored under `key`, if any.
    pub fn get<'a>(&'a self, key: &Key) -> (r: Option<&'a Item>)
        requires
            self.wf(),
            order_laws::<Key>(),
        ensures
            r is Some <==> self@.contains_key(*key),
            r matches Some(item) ==> *item == self@[*key],
    {
        proof {
            self.lemma_wf();
            self.root.lemma_view_leaf(Seq::empty(), self.key, K as nat, *key);
        }
        let (node, _depth) = Node::get_node(&self.root, key);
        match node {
            Node::Leaf { items, .. } => {
                proof {
                    lemma_items_map::<Key, Item>(items@);
                }
                match find_key(items, key) {
                    Some(j) => Some(&items[j]),
                    None => None,
                }
            },
            Node::Fork { .. } => None,
        }
    }

    /// Remove and return the item stored under `key`, if any.
    pub fn del(&mut self, key: &Key) -> (r: Option<Item>)
        requires
            old(self).wf(),
            order_laws::<Key>(),
        ensures
            final(self).wf(),
            final(self).owner() == old(self).owner(),
            final(self)@ == old(self)@.remove(*key),
            r == if old(self)@.contains_key(*key) {
                Some(old(self)@[*key])
            } else {
                None::<Item>
            },
    {
        proof {
            self.lemma_wf();
            self.root.lemma_view_leaf(Seq::empty(), self.key, K as nat, *key);
        }
        let ghost old_root = *self.root;
        let (node, _depth) = Node::get_node_mut(&mut self.root, key);
        let ghost leaf = *node;
        let r = match node {
            Node::Leaf { items, .. } => {
                proof {
                    lemma_items_map::<Key, Item>(items@);
                }
                match find_key(items, key) {
                    Some(j) => {
                        proof {
                            lemma_remove::<Key, Item>(items@, j as int);
                        }
                        Some(items.remove(j))
                    },
                    None => {
                        proof {
                            assert(items_map::<Key, Item>(items@) =~= items_map::<Key, Item>(items@).remove(*key));
                        }
                        None
                    },
                }
            },
            Node::Fork { .. } => None,
        };
        proof {
            old_root.lemma_remove_in_leaf(Seq::empty(), self.key, K as nat, *key, *node);
        }
        r
    }

    /// An item put under a fresh key that the table accepts is then found under
    /// that key.
    pub proof fn lemma_put_get_round_trip(b: Self, item: Item)
        requires
            b.wf(),
            !b@.contains_key(item.spec_key()),
            b.accepts(item.spec_key()),
        ensures
            b.put_spec(item).contains_key(item.spec_key()),
            b.put_spec(item)[item.spec_key()] == item,
            b.put_spec(item)[item.spec_key()].spec_key() == item.spec_key(),
    {
    }

    /// Putting the same item twice in a row changes nothing the second time:
    /// the contents, and so `count` and `get`, stay as the first put left them.
    pub proof fn lemma_put_twice(b0: Self, b1: Self, b2: Self, item: Item)
        requires
            b0.wf(),
            b1@ == b0.put_spec(item),
            !b1@.contains_key(item.spec_key()) ==> !b1.accepts(item.spec_key()),
            b2@ == b1.put_spec(item),
        ensures
            b2@ == b1@,
    {
        let k = item.spec_key();
        if b1@.contains_key(k) {
            if b1@[k].spec_arbitrate(&item) {
                if b0@.contains_key(k) && !b0@[k].spec_arbitrate(&item) {
                    assert(b1@[k] == b0@[k]);
                }
                assert(b1@[k] == item);
                assert(b1@.insert(k, item) =~= b1@);
            }
        }
    }

    /// A leaf that is full and may not split (every full leaf off the owner's
    /// path) takes no new key: putting one leaves the contents, and the count,
    /// as they are.
    pub proof fn lemma_full_leaf_refuses(b: Self, item: Item)
        requires
            b.wf(),
            !b@.contains_key(item.spec_key()),
            b.leaf_full_and_fixed(item.spec_key()),
        ensures
            !b.accepts(item.spec_key()),
            b.put_spec(item) == b@,
    {
    }

    /// A table that holds fewer than `K` items accepts any new key.
    pub proof fn lemma_accepts_below_capacity(b: Self, k: Key)
        requires
            b.wf(),
            b@.len() < K,
        ensures
            b.accepts(k),
    {
        b.lemma_wf();
        b.root.lemma_leaf_within(k, 0);
    }

    /// After deleting a key it is absent; deleting a present key lowers the count
    /// by one, deleting an absent one changes nothing.
    pub proof fn lemma_delete(b0: Self, b1: Self, k: Key)
        requires
            b0.wf(),
            b1@ == b0@.remove(k),
        ensures
            !b1@.contains_key(k),
            b0@.contains_key(k) ==> b1@.len() == b0@.len() - 1,
            !b0@.contains_key(k) ==> b1@ == b0@,
    {
        b0.lemma_wf();
        if !b0@.contains_key(k) {
            assert(b1@ =~= b0@);
        }
    }

    /// Get the n closest items to the given key: all items ranked by their
    /// distance to `key`, ties kept in the order of the leaves, then the first
    /// `n` of them (all of them where there are fewer).
    pub fn closest<'a>(&'a self, key: &Key, n: usize) -> (r: Vec<&'a Item>)
        where Key: GetDistance,
        requires
            self.wf(),
            order_laws::<Key>(),
        ensures
            r@.len() == if n < self@.len() { n as nat } else { self@.len() },
            exists|idx: Seq<int>| #[trigger] is_closest(self.items(), *key, idx, deref_items(r@)),
    {
        proof {
            self.lemma_wf();
        }
        let ghost all = self.items();
        let mut refs: Vec<&'a Item> = Vec::new();
        self.root.collect(&mut refs);
        let total = refs.len();
        // (distance, position) pairs, kept sorted by rank
        let mut ranked: Vec<(Key, usize)> = Vec::new();
        let mut t: usize = 0;
        while t < total
            invariant
                t <= total,
                total == refs@.len(),
                refs@.len() == all.len(),
                forall|i: int| 0 <= i < all.len() ==> *refs@[i] == all[i],
                order_laws::<Key>(),
                ranked@.len() == t,
                forall|p: int| 0 <= p < t ==> (#[trigger] ranked@[p]).1 < t && ranked@[p].0 == dist_to(*key, all[ranked@[p].1 as int]),
                forall|p: int, p2: int| 0 <= p < p2 < t ==> ranks_before(all, *key, (#[trigger] ranked@[p]).1 as int, (#[trigger] ranked@[p2]).1 as int),
                forall|m: int| 0 <= m < t ==> #[trigger] has_position(ranked@, m),
            decreases total - t,
        {
            let d = key.distance(&refs[t].get_key());
            let mut pos: usize = t;
            let mut placed = false;
            while pos > 0 && !placed
                invariant
                    pos <= t,
                    ranked@.len() == t,
                    forall|p: int| pos <= p < t ==> (#[trigger] ranked@[p]).0.spec_cmp(&d) == Ordering::Greater,
                    placed ==> pos > 0 && ranked@[pos - 1].0.spec_cmp(&d) != Ordering::Greater,
                decreases pos, if placed { 0int } else { 1int },
            {
                let o = ranked[pos - 1].0.key_cmp(&d);
                match o {
                    Ordering::Greater => {
                        pos = pos - 1;
                    },
                    _ => {
                        placed = true;
                    },
                }
            }
            let ghost before = ranked@;
            proof {
                assert(d == dist_to(*key, all[t as int]));
                assert forall|p: int| 0 <= p < pos implies ranks_before(all, *key, before[p].1 as int, t as int) by {
                    let last = before[pos - 1].1 as int;
                    assert(before[pos - 1].0.spec_cmp(&d) != Ordering::Greater);
                    lemma_not_greater(before[pos - 1].0, d);
                    assert(ranks_before(all, *key, last, t as int));
                    if p < pos - 1 {
                        lemma_ranks_transitive(all, *key, before[p].1 as int, last, t as int);
                    }
                }
                assert forall|p: int| pos <= p < t implies ranks_before(all, *key, t as int, before[p].1 as int) by {
                    let dp = before[p].0;
                }
            }
            ranked.insert(pos, (d, t));
            proof {
                assert forall|m: int| 0 <= m < t + 1 implies #[trigger] has_position(ranked@, m) by {
                    if m == t {
                        assert(ranked@[pos as int].1 == m);
                    } else {
                        assert(has_position(before, m));
                        let p = choose|p: int| 0 <= p < before.len() && (#[trigger] before[p]).1 == m;
                        if p < pos {
                            assert(ranked@[p].1 == m);
                        } else {
                            assert(ranked@[p + 1].1 == m);
                        }
                    }
                }
                assert forall|p: int, p2: int| 0 <= p < p2 < t + 1 implies ranks_before(all, *key, (#[trigger] ranked@[p]).1 as int, (#[trigger] ranked@[p2]).1 as int) by {
                    if p < pos && p2 > pos {
                        lemma_ranks_transitive(all, *key, before[p].1 as int, t as int, before[p2 - 1].1 as int);
                    }
                }
            }
            t = t + 1;
        }
        let len = if n < total { n } else { total };
        let mut result: Vec<&'a Item> = Vec::new();
        let mut i: usize = 0;
        while i < len
            invariant
                i <= len,
                len <= total,
                total == ranked@.len(),
                refs@.len() == total,
                forall|p: int| 0 <= p < total ==> (#[trigger] ranked@[p]).1 < total,
                result@.len() == i,
                forall|p: int| 0 <= p < i ==> *result@[p] == *refs@[ranked@[p].1 as int],
            decreases len - i,
        {
            result.push(refs[ranked[i].1]);
            i = i + 1;
        }
        proof {
            let idx = Seq::new(len as nat, |p: int| ranked@[p].1 as int);
            let rv = deref_items(result@);
            assert forall|i: int, m: int|
                0 <= i < idx.len() && 0 <= m < all.len() && !idx.contains(m) implies #[trigger] ranks_before(all, *key, idx[i], m) by {
                assert(has_position(ranked@, m));
                let p = choose|p: int| 0 <= p < ranked@.len() && (#[trigger] ranked@[p]).1 == m;
                if p < len {
                    assert(idx[p] == m);
                }
            }
            assert(is_closest(all, *key, idx, rv));
        }
        result
    }

    /// Each leaf's number of items and whether it may split, leaves read from
    /// left to right: one leaf more than the trie has forks.
    pub fn leaves(&self) -> (r: Vec<(usize, bool)>)
        ensures
            r@.len() == self.shape().len(),
            r@.len() == self.forks() + 1,
            forall|i: int| 0 <= i < r@.len() ==> r@[i].0 as nat == self.shape()[i].0 && r@[i].1 == self.shape()[i].1,
    {
        proof {
            self.root.lemma_leaf_count();
        }
        let mut r: Vec<(usize, bool)> = Vec::new();
        self.root.leaves(&mut r);
        r
    }

    /// Count the number of items in the bucket
    pub fn count(&self) -> (r: usize)
        requires
            self.wf(),
        ensures
            r == self@.len(),
    {
        proof {
            self.lemma_wf();
        }
        self.root.count()
    }
}

} // verus!

use vstd::prelude::*;

use core::cmp::Ordering;

use crate::order_laws;
use crate::Arbiter;
use crate::Direction;
use crate::GetDirection;
use crate::GetKey;
use crate::KeyOrder;

verus! {

/// Node is either a bucket (it has items) or a fork
pub enum Node<Item> {
    Leaf { items: Vec<Item>, can_split: bool },
    Fork { left: Box<Node<Item>>, right: Box<Node<Item>> },
}

/// `key` agrees with `path` on each of its bits: it is routed along `path`.
pub open spec fn routed<Key: GetDirection>(key: Key, path: Seq<Direction>) -> bool {
    forall|i: int| 0 <= i < path.len() ==> #[trigger] key.spec_direction(i) == path[i]
}

/// No two items of `s` share a key.
pub open spec fn unique_keys<Key, Item: GetKey<Key>>(s: Seq<Item>) -> bool {
    forall|a: int, b: int|
        0 <= a < s.len() && 0 <= b < s.len() && a != b ==> #[trigger] s[a].spec_key()
            != #[trigger] s[b].spec_key()
}

/// The items of `s` by their keys.
pub open spec fn items_map<Key, Item: GetKey<Key>>(s: Seq<Item>) -> Map<Key, Item>
    decreases s.len(),
{
    if s.len() == 0 {
        Map::empty()
    } else {
        items_map::<Key, Item>(s.drop_last()).insert(s.last().spec_key(), s.last())
    }
}

/// The items of `s` whose key has bit `d` at index `depth`, in their order.
pub open spec fn side_items<Key: GetDirection, Item: GetKey<Key>>(
    s: Seq<Item>,
    depth: nat,
    d: Direction,
) -> Seq<Item> {
    s.filter(|it: Item| it.spec_key().spec_direction(depth as int) == d)
}

/// What `items_map` holds: the keys of `s`, and, where keys are distinct, each
/// item under its own key, as many entries as items.
pub proof fn lemma_items_map<Key, Item: GetKey<Key>>(s: Seq<Item>)
    ensures
        items_map(s).dom().finite(),
        forall|k: Key|
            items_map(s).contains_key(k) <==> exists|j: int| 0 <= j < s.len() && #[trigger] s[j].spec_key() == k,
        unique_keys(s) ==> items_map(s).dom().len() == s.len(),
        unique_keys(s) ==> forall|j: int| 0 <= j < s.len() ==> items_map(s)[#[trigger] s[j].spec_key()] == s[j],
    decreases s.len(),
{
    if s.len() > 0 {
        let t = s.drop_last();
        lemma_items_map::<Key, Item>(t);
        assert forall|k: Key|
            items_map(s).contains_key(k) <==> exists|j: int| 0 <= j < s.len() && #[trigger] s[j].spec_key() == k by {
            if items_map(s).contains_key(k) && k != s.last().spec_key() {
                let j = choose|j: int| 0 <= j < t.len() && #[trigger] t[j].spec_key() == k;
                assert(s[j] == t[j]);
            }
            if exists|j: int| 0 <= j < s.len() && #[trigger] s[j].spec_key() == k {
                let j = choose|j: int| 0 <= j < s.len() && #[trigger] s[j].spec_key() == k;
                if j < t.len() {
                    assert(t[j] == s[j]);
                }
            }
        }
        if unique_keys(s) {
            assert(unique_keys(t)) by {
                assert forall|a: int, b: int|
                    0 <= a < t.len() && 0 <= b < t.len() && a != b implies #[trigger] t[a].spec_key()
                        != #[trigger] t[b].spec_key() by {
                    assert(t[a] == s[a] && t[b] == s[b]);
                }
            }
            assert(!items_map(t).contains_key(s.last().spec_key())) by {
                if items_map(t).contains_key(s.last().spec_key()) {
                    let j = choose|j: int| 0 <= j < t.len() && #[trigger] t[j].spec_key() == s.last().spec_key();
                    assert(s[j] == t[j]);
                }
            }
            assert forall|j: int| 0 <= j < s.len() implies items_map(s)[#[trigger] s[j].spec_key()] == s[j] by {
                if j < t.len() {
                    assert(t[j] == s[j]);
                }
            }
        }
    }
}

/// Splitting a leaf's items by the key bit at `depth` partitions them: the two
/// sides together hold exactly the leaf's items, each side only items whose
/// key bit selects it; distinct keys stay distinct and keep their items.
pub proof fn lemma_side_items<Key: GetDirection, Item: GetKey<Key>>(s: Seq<Item>, depth: nat)
    ensures
        ({
            let l = side_items::<Key, Item>(s, depth, Direction::Left);
            let r = side_items::<Key, Item>(s, depth, Direction::Right);
            &&& l.len() + r.len() == s.len()
            &&& s.to_multiset() =~= l.to_multiset().add(r.to_multiset())
            &&& forall|j: int| 0 <= j < l.len() ==> #[trigger] l[j].spec_key().spec_direction(depth as int) == Direction::Left
            &&& forall|j: int| 0 <= j < r.len() ==> #[trigger] r[j].spec_key().spec_direction(depth as int) == Direction::Right
            &&& forall|j: int| 0 <= j < l.len() ==> s.contains(#[trigger] l[j])
            &&& forall|j: int| 0 <= j < r.len() ==> s.contains(#[trigger] r[j])
            &&& unique_keys(s) ==> {
                &&& unique_keys(l)
                &&& unique_keys(r)
                &&& items_map(s) =~= items_map(l).union_prefer_right(items_map(r))
            }
        }),
    decreases s.len(),
{
    broadcast use vstd::seq_lib::group_to_multiset_ensures, vstd::multiset::group_multiset_axioms;
    reveal(Seq::filter);
    let l = side_items::<Key, Item>(s, depth, Direction::Left);
    let r = side_items::<Key, Item>(s, depth, Direction::Right);
    if s.len() == 0 {
        assert(s.to_multiset() =~= vstd::multiset::Multiset::empty());
    } else {
        let t = s.drop_last();
        let x = s.last();
        lemma_side_items::<Key, Item>(t, depth);
        let lt = side_items::<Key, Item>(t, depth, Direction::Left);
        let rt = side_items::<Key, Item>(t, depth, Direction::Right);
        assert(s =~= t.push(x));
        assert(s.to_multiset() =~= t.to_multiset().insert(x));
        let left_side = x.spec_key().spec_direction(depth as int) == Direction::Left;
        if left_side {
            assert(l == lt.push(x));
            assert(r == rt);
        } else {
            assert(l == lt);
            assert(r == rt.push(x));
        }
        assert forall|j: int| 0 <= j < l.len() implies s.contains(#[trigger] l[j]) by {
            if j < lt.len() {
                let k = choose|k: int| 0 <= k < t.len() && t[k] == lt[j];
                assert(s[k] == t[k]);
            } else {
                assert(s[s.len() - 1] == x);
            }
        }
        assert forall|j: int| 0 <= j < r.len() implies s.contains(#[trigger] r[j]) by {
            if j < rt.len() {
                let k = choose|k: int| 0 <= k < t.len() && t[k] == rt[j];
                assert(s[k] == t[k]);
            } else {
                assert(s[s.len() - 1] == x);
            }
        }
        if unique_keys(s) {
            assert(unique_keys(t)) by {
                assert forall|a: int, b: int|
                    0 <= a < t.len() && 0 <= b < t.len() && a != b implies #[trigger] t[a].spec_key()
                        != #[trigger] t[b].spec_key() by {
                    assert(t[a] == s[a] && t[b] == s[b]);
                }
            }
            lemma_items_map::<Key, Item>(t);
            lemma_items_map::<Key, Item>(lt);
            lemma_items_map::<Key, Item>(rt);
            let kx = x.spec_key();
            assert(!items_map(t).contains_key(kx)) by {
                if items_map(t).contains_key(kx) {
                    let j = choose|j: int| 0 <= j < t.len() && #[trigger] t[j].spec_key() == kx;
                    assert(s[j] == t[j]);
                }
            }
            assert(!items_map(lt).contains_key(kx));
            assert(!items_map(rt).contains_key(kx));
            if left_side {
                assert forall|a: int, b: int|
                    0 <= a < l.len() && 0 <= b < l.len() && a != b implies #[trigger] l[a].spec_key()
                        != #[trigger] l[b].spec_key() by {
                    if a == lt.len() {
                        assert(items_map(lt).contains_key(l[b].spec_key()));
                    } else if b == lt.len() {
                        assert(items_map(lt).contains_key(l[a].spec_key()));
                    }
                }
            } else {
                assert forall|a: int, b: int|
                    0 <= a < r.len() && 0 <= b < r.len() && a != b implies #[trigger] r[a].spec_key()
                        != #[trigger] r[b].spec_key() by {
                    if a == rt.len() {
                        assert(items_map(rt).contains_key(r[b].spec_key()));
                    } else if b == rt.len() {
                        assert(items_map(rt).contains_key(r[a].spec_key()));
                    }
                }
            }
            assert(s.drop_last() =~= t);
            if left_side {
                assert(l.drop_last() =~= lt);
                assert(items_map(l) == items_map(lt).insert(kx, x));
            } else {
                assert(r.drop_last() =~= rt);
                assert(items_map(r) == items_map(rt).insert(kx, x));
            }
            assert(items_map(s) =~= items_map(l).union_prefer_right(items_map(r)));
        }
    }
}

/// Appending an item whose key is not yet held adds that one entry.
pub proof fn lemma_push_fresh<Key, Item: GetKey<Key>>(s: Seq<Item>, x: Item)
    requires
        unique_keys(s),
        !items_map(s).contains_key(x.spec_key()),
    ensures
        unique_keys(s.push(x)),
        items_map(s.push(x)) == items_map(s).insert(x.spec_key(), x),
{
    lemma_items_map::<Key, Item>(s);
    let t = s.push(x);
    assert(t.drop_last() =~= s);
    assert forall|a: int, b: int|
        0 <= a < t.len() && 0 <= b < t.len() && a != b implies #[trigger] t[a].spec_key()
            != #[trigger] t[b].spec_key() by {
        if a == s.len() {
            assert(s[b] == t[b]);
        } else if b == s.len() {
            assert(s[a] == t[a]);
        } else {
            assert(s[a] == t[a] && s[b] == t[b]);
        }
    }
}

/// Removing the item at `j` removes the entry of its key.
pub proof fn lemma_remove<Key, Item: GetKey<Key>>(s: Seq<Item>, j: int)
    requires
        unique_keys(s),
        0 <= j < s.len(),
    ensures
        unique_keys(s.remove(j)),
        items_map(s.remove(j)) == items_map(s).remove(s[j].spec_key()),
{
    let r = s.remove(j);
    let k = s[j].spec_key();
    assert(unique_keys(r)) by {
        assert forall|a: int, b: int|
            0 <= a < r.len() && 0 <= b < r.len() && a != b implies #[trigger] r[a].spec_key()
                != #[trigger] r[b].spec_key() by {
            let a2 = if a < j { a } else { a + 1 };
            let b2 = if b < j { b } else { b + 1 };
            assert(r[a] == s[a2] && r[b] == s[b2]);
        }
    }
    lemma_items_map::<Key, Item>(s);
    lemma_items_map::<Key, Item>(r);
    assert forall|k2: Key| #[trigger] items_map(r).contains_key(k2) <==> (items_map(s).contains_key(k2) && k2 != k) by {
        if items_map(s).contains_key(k2) && k2 != k {
            let i = choose|i: int| 0 <= i < s.len() && #[trigger] s[i].spec_key() == k2;
            let i2 = if i < j { i } else { i - 1 };
            assert(r[i2] == s[i]);
        }
        if items_map(r).contains_key(k2) {
            let i = choose|i: int| 0 <= i < r.len() && #[trigger] r[i].spec_key() == k2;
            let i2 = if i < j { i } else { i + 1 };
            assert(r[i] == s[i2]);
        }
    }
    assert forall|k2: Key| #[trigger] items_map(r).contains_key(k2) implies items_map(r)[k2] == items_map(s)[k2] by {
        let i = choose|i: int| 0 <= i < r.len() && #[trigger] r[i].spec_key() == k2;
        let i2 = if i < j { i } else { i + 1 };
        assert(r[i] == s[i2]);
    }
    assert(items_map(r) =~= items_map(s).remove(k));
}

/// Replacing the item at `j` by one with the same key, moved to the end,
/// replaces that one entry.
pub proof fn lemma_replace<Key, Item: GetKey<Key>>(s: Seq<Item>, j: int, x: Item)
    requires
        unique_keys(s),
        0 <= j < s.len(),
        s[j].spec_key() == x.spec_key(),
    ensures
        unique_keys(s.remove(j).push(x)),
        items_map(s.remove(j).push(x)) == items_map(s).insert(x.spec_key(), x),
{
    lemma_remove::<Key, Item>(s, j);
    lemma_push_fresh::<Key, Item>(s.remove(j), x);
    assert(items_map(s.remove(j).push(x)) =~= items_map(s).insert(x.spec_key(), x));
}

/// Whether a leaf holding `items` at `depth` takes a new item with key `k`:
/// it has room, or it may split and the side that `k` goes to takes it.
pub open spec fn leaf_accepts<Key: GetDirection, Item: GetKey<Key>>(
    items: Seq<Item>,
    can_split: bool,
    depth: nat,
    k: Key,
    owner: Key,
    cap: nat,
) -> bool
    decreases Key::spec_key_bits() - depth,
{
    if items.len() < cap {
        true
    } else if can_split && depth < Key::spec_key_bits() {
        let d = k.spec_direction(depth as int);
        leaf_accepts(
            side_items::<Key, Item>(items, depth, d),
            d == owner.spec_direction(depth as int),
            depth + 1,
            k,
            owner,
            cap,
        )
    } else {
        false
    }
}

/// The position of the item of `items` whose key is `key`, if any.
pub fn find_key<Key: KeyOrder, Item: GetKey<Key>>(items: &Vec<Item>, key: &Key) -> (r: Option<usize>)
    requires
        order_laws::<Key>(),
    ensures
        match r {
            Some(j) => j < items@.len() && items@[j as int].spec_key() == *key,
            None => forall|j: int| 0 <= j < items@.len() ==> #[trigger] items@[j].spec_key() != *key,
        },
{
    let mut i: usize = 0;
    while i < items.len()
        invariant
            i <= items@.len(),
            order_laws::<Key>(),
            forall|j: int| 0 <= j < i ==> #[trigger] items@[j].spec_key() != *key,
        decreases items@.len() - i,
    {
        let k = items[i].get_key();
        if matches!(k.key_cmp(key), Ordering::Equal) {
            return Some(i);
        }
        i = i + 1;
    }
    None
}

impl<Item> Node<Item> {
    /// The child of a fork on side `d`.
    pub open spec fn child(self, d: Direction) -> Node<Item>
        recommends
            self is Fork,
    {
        match d {
            Direction::Left => *self->Fork_left,
            Direction::Right => *self->Fork_right,
        }
    }

    /// All items, leaves read from left to right.
    pub open spec fn items_of(self) -> Seq<Item>
        decreases self,
    {
        match self {
            Node::Leaf { items, .. } => items@,
            Node::Fork { left, right } => left.items_of() + right.items_of(),
        }
    }

    /// Number of forks of the trie.
    pub open spec fn forks(self) -> nat
        decreases self,
    {
        match self {
            Node::Leaf { .. } => 0,
            Node::Fork { left, right } => 1 + left.forks() + right.forks(),
        }
    }

    /// The trie is well formed for a node at `path`: each leaf holds at most `cap`
    /// items with distinct keys, all routed along the leaf's path; only a leaf on
    /// the owner's path may split, so forks stand on that path alone, above the
    /// last key bit.
    pub open spec fn wf<Key: GetDirection>(self, path: Seq<Direction>, owner: Key, cap: nat) -> bool
        where Item: GetKey<Key>,
        decreases self,
    {
        &&& path.len() <= Key::spec_key_bits()
        &&& match self {
            Node::Leaf { items, can_split } => {
                &&& items@.len() <= cap
                &&& unique_keys(items@)
                &&& forall|j: int| 0 <= j < items@.len() ==> routed(#[trigger] items@[j].spec_key(), path)
                &&& can_split ==> routed(owner, path)
            },
            Node::Fork { left, right } => {
                &&& path.len() < Key::spec_key_bits()
                &&& routed(owner, path)
                &&& left.wf(path.push(Direction::Left), owner, cap)
                &&& right.wf(path.push(Direction::Right), owner, cap)
            },
        }
    }

    /// The stored items by their keys.
    pub open spec fn view_map<Key>(self) -> Map<Key, Item>
        where Item: GetKey<Key>,
        decreases self,
    {
        match self {
            Node::Leaf { items, .. } => items_map(items@),
            Node::Fork { left, right } => left.view_map::<Key>().union_prefer_right(right.view_map::<Key>()),
        }
    }

    /// The leaf that `key` is routed to, from a node at depth `depth`.
    pub open spec fn leaf_of<Key: GetDirection>(self, key: Key, depth: nat) -> Node<Item>
        decreases self,
    {
        match self {
            Node::Leaf { .. } => self,
            Node::Fork { left, right } => if key.spec_direction(depth as int) == Direction::Left {
                left.leaf_of(key, depth + 1)
            } else {
                right.leaf_of(key, depth + 1)
            },
        }
    }

    /// The depth of the leaf that `key` is routed to, from a node at depth `depth`.
    pub open spec fn leaf_depth<Key: GetDirection>(self, key: Key, depth: nat) -> nat
        decreases self,
    {
        match self {
            Node::Leaf { .. } => depth,
            Node::Fork { left, right } => if key.spec_direction(depth as int) == Direction::Left {
                left.leaf_depth(key, depth + 1)
            } else {
                right.leaf_depth(key, depth + 1)
            },
        }
    }

    /// Every fork under this node, which stands at `depth`, stands above the last key bit.
    pub open spec fn forks_below<Key: GetDirection>(self, depth: nat) -> bool
        decreases self,
    {
        match self {
            Node::Leaf { .. } => true,
            Node::Fork { left, right } => {
                &&& depth < Key::spec_key_bits()
                &&& left.forks_below::<Key>(depth + 1)
                &&& right.forks_below::<Key>(depth + 1)
            },
        }
    }

    /// A well-formed trie: forks stand above the last key bit, its keys are
    /// routed along `path`, each under its own key, one entry per item.
    pub proof fn lemma_wf_view<Key: GetDirection>(self, path: Seq<Direction>, owner: Key, cap: nat)
        where Item: GetKey<Key>,
        requires
            self.wf(path, owner, cap),
        ensures
            self.forks_below::<Key>(path.len()),
            self.view_map::<Key>().dom().finite(),
            self.view_map::<Key>().dom().len() == self.items_of().len(),
            forall|k: Key| #[trigger]
                self.view_map::<Key>().contains_key(k) ==> routed(k, path) && self.view_map()[k].spec_key() == k,
        decreases self,
    {
        match self {
            Node::Leaf { items, .. } => {
                lemma_items_map::<Key, Item>(items@);
                assert forall|k: Key| #[trigger]
                    self.view_map::<Key>().contains_key(k) implies routed(k, path) && self.view_map()[k].spec_key() == k by {
                    let j = choose|j: int| 0 <= j < items@.len() && #[trigger] items@[j].spec_key() == k;
                }
            },
            Node::Fork { left, right } => {
                let pl = path.push(Direction::Left);
                let pr = path.push(Direction::Right);
                left.lemma_wf_view(pl, owner, cap);
                right.lemma_wf_view(pr, owner, cap);
                let lm = left.view_map::<Key>();
                let rm = right.view_map::<Key>();
                assert forall|k: Key| #[trigger] self.view_map::<Key>().contains_key(k) implies routed(k, path)
                    && self.view_map()[k].spec_key() == k by {
                    if rm.contains_key(k) {
                        assert forall|i: int| 0 <= i < path.len() implies #[trigger] k.spec_direction(i) == path[i] by {
                            assert(pr[i] == path[i]);
                        }
                    } else {
                        assert forall|i: int| 0 <= i < path.len() implies #[trigger] k.spec_direction(i) == path[i] by {
                            assert(pl[i] == path[i]);
                        }
                    }
                }
                assert(lm.dom().disjoint(rm.dom())) by {
                    assert forall|k: Key| lm.dom().contains(k) implies !rm.dom().contains(k) by {
                        assert(k.spec_direction(path.len() as int) == pl[path.len() as int]);
                        if rm.dom().contains(k) {
                            assert(k.spec_direction(path.len() as int) == pr[path.len() as int]);
                        }
                    }
                }
                assert(self.view_map::<Key>().dom() =~= lm.dom() + rm.dom());
                vstd::set_lib::lemma_set_disjoint_lens(lm.dom(), rm.dom());
            },
        }
    }

    /// For a key routed along `path`, the trie holds what the key's leaf holds.
    pub proof fn lemma_view_leaf<Key: GetDirection>(self, path: Seq<Direction>, owner: Key, cap: nat, k: Key)
        where Item: GetKey<Key>,
        requires
            self.wf(path, owner, cap),
            routed(k, path),
        ensures
            self.leaf_of(k, path.len()) is Leaf,
            unique_keys(self.leaf_of(k, path.len())->Leaf_items@),
            self.view_map::<Key>().contains_key(k) == self.leaf_of(k, path.len()).view_map::<Key>().contains_key(k),
            self.view_map::<Key>().contains_key(k) ==> self.view_map()[k] == self.leaf_of(k, path.len()).view_map::<Key>()[k],
        decreases self,
    {
        if let Node::Fork { left, right } = self {
            let pl = path.push(Direction::Left);
            let pr = path.push(Direction::Right);
            left.lemma_wf_view(pl, owner, cap);
            right.lemma_wf_view(pr, owner, cap);
            if k.spec_direction(path.len() as int) == Direction::Left {
                assert(routed(k, pl)) by {
                    assert forall|i: int| 0 <= i < pl.len() implies #[trigger] k.spec_direction(i) == pl[i] by {
                        if i < path.len() {
                            assert(k.spec_direction(i) == path[i]);
                        }
                    }
                }
                left.lemma_view_leaf(pl, owner, cap, k);
                if right.view_map::<Key>().contains_key(k) {
                    assert(k.spec_direction(path.len() as int) == pr[path.len() as int]);
                }
            } else {
                assert(routed(k, pr)) by {
                    assert forall|i: int| 0 <= i < pr.len() implies #[trigger] k.spec_direction(i) == pr[i] by {
                        if i < path.len() {
                            assert(k.spec_direction(i) == path[i]);
                        } else {
                            assert(k.spec_direction(i) != Direction::Left);
                        }
                    }
                }
                right.lemma_view_leaf(pr, owner, cap, k);
            }
        }
    }

    /// Get the node that contains the item with the given key
    pub fn get_node<'a, Key: GetDirection>(node: &'a Box<Node<Item>>, key: &Key) -> (r: (&'a Node<Item>, usize))
        requires
            node.forks_below::<Key>(0),
        ensures
            *r.0 == node.leaf_of(*key, 0),
            r.1 as nat == node.leaf_depth(*key, 0),
    {
        // The bit count is a `usize`, so the depth below it cannot overflow.
        let _key_bits = Key::key_bits();
        let mut bit_index: usize = 0;
        let mut cur: &Node<Item> = &**node;
        loop
            invariant
                cur.forks_below::<Key>(bit_index as nat),
                node.leaf_of(*key, 0) == cur.leaf_of(*key, bit_index as nat),
                node.leaf_depth(*key, 0) == cur.leaf_depth(*key, bit_index as nat),
                Key::spec_key_bits() <= usize::MAX,
            decreases cur.forks(),
        {
            match cur {
                Node::Leaf { .. } => {
                    return (cur, bit_index);
                },
                Node::Fork { left, right } => {
                    cur = match key.direction(bit_index) {
                        Direction::Left => &**left,
                        Direction::Right => &**right,
                    };
                    bit_index = bit_index + 1;
                },
            }
        }
    }

    /// Split a full leaf into a fork of two leaves: the items whose key bit at
    /// `bit_index` is 0 go left, the others right, each side in its former order.
    /// The side named by `split` may split further; the other may not.
    pub fn split<Key: GetDirection>(&mut self, bit_index: usize, split: Direction)
        where Item: GetKey<Key>,
        requires
            *old(self) is Leaf,
            (bit_index as nat) < Key::spec_key_bits(),
        ensures
            *final(self) is Fork,
            final(self).child(Direction::Left) == (Node::Leaf::<Item> {
                items: final(self).child(Direction::Left)->Leaf_items,
                can_split: split == Direction::Left,
            }),
            final(self).child(Direction::Right) == (Node::Leaf::<Item> {
                items: final(self).child(Direction::Right)->Leaf_items,
                can_split: split == Direction::Right,
            }),
            final(self).child(Direction::Left)->Leaf_items@ == side_items::<Key, Item>(
                old(self)->Leaf_items@,
                bit_index as nat,
                Direction::Left,
            ),
            final(self).child(Direction::Right)->Leaf_items@ == side_items::<Key, Item>(
                old(self)->Leaf_items@,
                bit_index as nat,
                Direction::Right,
            ),
    {
        let mut taken: Vec<Item> = Vec::new();
        if let Node::Leaf { items, .. } = self {
            std::mem::swap(items, &mut taken);
        }
        let ghost all = taken@;
        let ghost mut i: int = 0;
        let mut left_items: Vec<Item> = Vec::new();
        let mut right_items: Vec<Item> = Vec::new();
        while taken.len() > 0
            invariant
                0 <= i <= all.len(),
                taken@ == all.subrange(i, all.len() as int),
                left_items@ == side_items::<Key, Item>(all.subrange(0, i), bit_index as nat, Direction::Left),
                right_items@ == side_items::<Key, Item>(all.subrange(0, i), bit_index as nat, Direction::Right),
                (bit_index as nat) < Key::spec_key_bits(),
            decreases taken.len(),
        {
            let item = taken.remove(0);
            let d = item.get_key().direction(bit_index);
            proof {
                reveal(Seq::filter);
                assert(all.subrange(0, i + 1).drop_last() =~= all.subrange(0, i));
                assert(all.subrange(0, i + 1).last() == item);
            }
            match d {
                Direction::Left => left_items.push(item),
                Direction::Right => right_items.push(item),
            }
            proof {
                i = i + 1;
                assert(taken@ =~= all.subrange(i, all.len() as int));
            }
        }
        proof {
            assert(all.subrange(0, i) =~= all);
        }
        *self = Node::Fork {
            left: Box::new(Node::Leaf { items: left_items, can_split: split == Direction::Left }),
            right: Box::new(Node::Leaf { items: right_items, can_split: split == Direction::Right }),
        };
    }

    /// Whether the trie, from a node at `depth`, takes a new item with key `k`.
    pub open spec fn accepts<Key: GetDirection>(self, k: Key, depth: nat, owner: Key, cap: nat) -> bool
        where Item: GetKey<Key>,
    {
        let leaf = self.leaf_of(k, depth);
        leaf_accepts::<Key, Item>(
            leaf->Leaf_items@,
            leaf->Leaf_can_split,
            self.leaf_depth(k, depth),
            k,
            owner,
            cap,
        )
    }

    /// What putting `item` makes of the contents of a trie at `depth`: an item
    /// under the same key is replaced when the arbiter says so; a new key is added
    /// when the trie takes it.
    pub open spec fn put_result<Key: GetDirection>(self, item: Item, depth: nat, owner: Key, cap: nat) -> Map<Key, Item>
        where Item: GetKey<Key> + Arbiter,
    {
        let m = self.view_map::<Key>();
        let k = item.spec_key();
        if m.contains_key(k) {
            if m[k].spec_arbitrate(&item) {
                m.insert(k, item)
            } else {
                m
            }
        } else if self.accepts(k, depth, owner, cap) {
            m.insert(k, item)
        } else {
            m
        }
    }

    /// Put `item`, whose key is `key`, into the trie under this node, which stands
    /// at `path` in a trie owned by `owner` with leaves of at most `cap` items.
    pub fn put_at<Key: GetDirection + KeyOrder>(
        &mut self,
        item: Item,
        key: Key,
        depth: usize,
        owner: &Key,
        cap: usize,
        Ghost(path): Ghost<Seq<Direction>>,
    )
        where Item: GetKey<Key> + Arbiter,
        requires
            old(self).wf(path, *owner, cap as nat),
            routed(key, path),
            key == item.spec_key(),
            depth == path.len(),
            order_laws::<Key>(),
        ensures
            final(self).wf(path, *owner, cap as nat),
            final(self).view_map::<Key>() == old(self).put_result(item, depth as nat, *owner, cap as nat),
            !final(self).view_map::<Key>().contains_key(key) ==> !final(self).accepts(key, depth as nat, *owner, cap as nat),
        decreases Key::spec_key_bits() - depth, if *old(self) is Leaf { 1int } else { 0int },
    {
        let bits = Key::key_bits();
        proof {
            self.lemma_wf_view(path, *owner, cap as nat);
        }
        match self {
            Node::Leaf { items, can_split } => {
                proof {
                    lemma_items_map::<Key, Item>(items@);
                }
                match find_key(items, &key) {
                    Some(j) => {
                        if items[j].arbitrate(&item) {
                            proof {
                                lemma_replace::<Key, Item>(items@, j as int, item);
                            }
                            items.remove(j);
                            items.push(item);
                        }
                        return;
                    },
                    None => {},
                }
                if items.len() < cap {
                    proof {
                        lemma_push_fresh::<Key, Item>(items@, item);
                    }
                    items.push(item);
                    return;
                }
                if !*can_split || depth >= bits {
                    return;
                }
            },
            Node::Fork { left, right } => {
                match key.direction(depth) {
                    Direction::Left => {
                        let ghost pl = path.push(Direction::Left);
                        proof {
                            assert forall|i: int| 0 <= i < pl.len() implies #[trigger] key.spec_direction(i) == pl[i] by {
                                if i < path.len() {
                                    assert(key.spec_direction(i) == path[i]);
                                }
                            }
                            right.lemma_wf_view(path.push(Direction::Right), *owner, cap as nat);
                            if right.view_map::<Key>().contains_key(key) {
                                assert(key.spec_direction(depth as int) == path.push(Direction::Right)[depth as int]);
                            }
                        }
                        left.put_at(item, key, depth + 1, owner, cap, Ghost(pl));
                    },
                    Direction::Right => {
                        let ghost pr = path.push(Direction::Right);
                        proof {
                            assert forall|i: int| 0 <= i < pr.len() implies #[trigger] key.spec_direction(i) == pr[i] by {
                                if i < path.len() {
                                    assert(key.spec_direction(i) == path[i]);
                                }
                            }
                        }
                        proof {
                            left.lemma_wf_view(path.push(Direction::Left), *owner, cap as nat);
                            if left.view_map::<Key>().contains_key(key) {
                                assert(key.spec_direction(depth as int) == path.push(Direction::Left)[depth as int]);
                            }
                        }
                        right.put_at(item, key, depth + 1, owner, cap, Ghost(pr));
                    },
                }
                assert(self.view_map::<Key>() =~= old(self).put_result(item, depth as nat, *owner, cap as nat));
                return;
            },
        }
        // A full leaf that may split: split it, then put into the side of `key`.
        let ghost old_items = self->Leaf_items@;
        let own_dir = owner.direction(depth);
        self.split::<Key>(depth, own_dir);
        proof {
            lemma_side_items::<Key, Item>(old_items, depth as nat);
            let l = side_items::<Key, Item>(old_items, depth as nat, Direction::Left);
            let r = side_items::<Key, Item>(old_items, depth as nat, Direction::Right);
            let pl = path.push(Direction::Left);
            let pr = path.push(Direction::Right);
            assert forall|j: int| 0 <= j < l.len() implies routed(#[trigger] l[j].spec_key(), pl) by {
                let x = l[j];
                let m = choose|m: int| 0 <= m < old_items.len() && old_items[m] == x;
                assert forall|i: int| 0 <= i < pl.len() implies #[trigger] x.spec_key().spec_direction(i) == pl[i] by {
                    if i < path.len() {
                        assert(routed(old_items[m].spec_key(), path));
                    }
                }
            }
            assert forall|j: int| 0 <= j < r.len() implies routed(#[trigger] r[j].spec_key(), pr) by {
                let x = r[j];
                let m = choose|m: int| 0 <= m < old_items.len() && old_items[m] == x;
                assert forall|i: int| 0 <= i < pr.len() implies #[trigger] x.spec_key().spec_direction(i) == pr[i] by {
                    if i < path.len() {
                        assert(routed(old_items[m].spec_key(), path));
                    }
                }
            }
            assert forall|i: int| 0 <= i < pl.len() && own_dir == Direction::Left implies #[trigger] owner.spec_direction(i) == pl[i] by {
                if i < path.len() {
                    assert(owner.spec_direction(i) == path[i]);
                }
            }
            assert forall|i: int| 0 <= i < pr.len() && own_dir == Direction::Right implies #[trigger] owner.spec_direction(i) == pr[i] by {
                if i < path.len() {
                    assert(owner.spec_direction(i) == path[i]);
                }
            }
            assert(unique_keys(old_items));
            assert(routed(*owner, path));
            assert(l.len() <= cap && r.len() <= cap);
            assert(own_dir == Direction::Left ==> routed(*owner, pl));
            assert(own_dir == Direction::Right ==> routed(*owner, pr));
            assert(self.child(Direction::Left).wf(pl, *owner, cap as nat));
            assert(self.child(Direction::Right).wf(pr, *owner, cap as nat));
            assert(self.child(Direction::Left).view_map::<Key>() == items_map::<Key, Item>(l));
            assert(self.child(Direction::Right).view_map::<Key>() == items_map::<Key, Item>(r));
            assert(old(self).view_map::<Key>() == items_map::<Key, Item>(old_items));
            assert(self.view_map::<Key>() =~= old(self).view_map::<Key>());
            assert(old_items.len() >= cap);
            let d = key.spec_direction(depth as int);
            assert(self.child(d).leaf_of(key, depth as nat + 1) == self.child(d));
            assert(self.child(d).leaf_depth(key, depth as nat + 1) == depth + 1);
            assert(self.leaf_of(key, depth as nat) == self.child(d));
            assert(self.leaf_depth(key, depth as nat) == depth + 1);
            assert(old(self).accepts(key, depth as nat, *owner, cap as nat) == leaf_accepts::<Key, Item>(
                side_items::<Key, Item>(old_items, depth as nat, d),
                d == owner.spec_direction(depth as int),
                depth as nat + 1,
                key,
                *owner,
                cap as nat,
            ));
            assert(old(self).accepts(key, depth as nat, *owner, cap as nat) == self.accepts(key, depth as nat, *owner, cap as nat));
        }
        self.put_at(item, key, depth, owner, cap, Ghost(path));
    }

    /// The trie with the leaf that `key` is routed to, from a node at `depth`,
    /// replaced by `leaf`.
    pub open spec fn replace_leaf<Key: GetDirection>(self, key: Key, depth: nat, leaf: Node<Item>) -> Node<Item>
        decreases self,
    {
        match self {
            Node::Leaf { .. } => leaf,
            Node::Fork { left, right } => if key.spec_direction(depth as int) == Direction::Left {
                Node::Fork { left: Box::new(left.replace_leaf(key, depth + 1, leaf)), right }
            } else {
                Node::Fork { left, right: Box::new(right.replace_leaf(key, depth + 1, leaf)) }
            },
        }
    }

    fn leaf_mut_at<'a, Key: GetDirection>(node: &'a mut Node<Item>, key: &Key, depth: usize) -> (r: (&'a mut Node<Item>, usize))
        requires
            old(node).forks_below::<Key>(depth as nat),
            Key::spec_key_bits() <= usize::MAX,
        ensures
            *r.0 == old(node).leaf_of(*key, depth as nat),
            r.1 as nat == old(node).leaf_depth(*key, depth as nat),
            *final(node) == old(node).replace_leaf(*key, depth as nat, *final(r.0)),
        decreases old(node).forks(),
    {
        let is_leaf = match &*node {
            Node::Leaf { .. } => true,
            Node::Fork { .. } => false,
        };
        if is_leaf {
            return (node, depth);
        }
        match node {
            Node::Leaf { .. } => (node, depth),
            Node::Fork { left, right } => match key.direction(depth) {
                Direction::Left => Self::leaf_mut_at(&mut **left, key, depth + 1),
                Direction::Right => Self::leaf_mut_at(&mut **right, key, depth + 1),
            },
        }
    }

    /// Replacing the leaf of `k` by a leaf of the same kind that holds the same
    /// items but the one under `k` keeps the trie well formed and removes `k`.
    pub proof fn lemma_remove_in_leaf<Key: GetDirection>(
        self,
        path: Seq<Direction>,
        owner: Key,
        cap: nat,
        k: Key,
        leaf: Node<Item>,
    )
        where Item: GetKey<Key>,
        requires
            self.wf(path, owner, cap),
            routed(k, path),
            leaf is Leaf,
            leaf->Leaf_can_split == self.leaf_of(k, path.len())->Leaf_can_split,
            unique_keys(leaf->Leaf_items@),
            leaf->Leaf_items@.len() <= self.leaf_of(k, path.len())->Leaf_items@.len(),
            items_map(leaf->Leaf_items@) == items_map(self.leaf_of(k, path.len())->Leaf_items@).remove(k),
        ensures
            self.replace_leaf(k, path.len(), leaf).wf(path, owner, cap),
            self.replace_leaf(k, path.len(), leaf).view_map::<Key>() == self.view_map::<Key>().remove(k),
            self.replace_leaf(k, path.len(), leaf).items_of().len() <= self.items_of().len(),
        decreases self,
    {
        self.lemma_wf_view(path, owner, cap);
        match self {
            Node::Leaf { items, can_split } => {
                let s = leaf->Leaf_items@;
                lemma_items_map::<Key, Item>(s);
                lemma_items_map::<Key, Item>(items@);
                assert forall|j: int| 0 <= j < s.len() implies routed(#[trigger] s[j].spec_key(), path) by {
                    assert(items_map(s).contains_key(s[j].spec_key()));
                    let m = choose|m: int| 0 <= m < items@.len() && #[trigger] items@[m].spec_key() == s[j].spec_key();
                }
            },
            Node::Fork { left, right } => {
                let pl = path.push(Direction::Left);
                let pr = path.push(Direction::Right);
                left.lemma_wf_view(pl, owner, cap);
                right.lemma_wf_view(pr, owner, cap);
                if k.spec_direction(path.len() as int) == Direction::Left {
                    assert forall|i: int| 0 <= i < pl.len() implies #[trigger] k.spec_direction(i) == pl[i] by {
                        if i < path.len() {
                            assert(k.spec_direction(i) == path[i]);
                        }
                    }
                    left.lemma_remove_in_leaf(pl, owner, cap, k, leaf);
                    if right.view_map::<Key>().contains_key(k) {
                        assert(k.spec_direction(path.len() as int) == pr[path.len() as int]);
                    }
                } else {
                    assert forall|i: int| 0 <= i < pr.len() implies #[trigger] k.spec_direction(i) == pr[i] by {
                        if i < path.len() {
                            assert(k.spec_direction(i) == path[i]);
                        }
                    }
                    right.lemma_remove_in_leaf(pr, owner, cap, k, leaf);
                    if left.view_map::<Key>().contains_key(k) {
                        assert(k.spec_direction(path.len() as int) == pl[path.len() as int]);
                    }
                }
                assert(self.replace_leaf(k, path.len(), leaf).view_map::<Key>() =~= self.view_map::<Key>().remove(k));
            },
        }
    }

    /// A well-formed trie at `path` holds at most `cap` items for each key bit
    /// left below `path`, and one more leaf.
    pub proof fn lemma_size_bound<Key: GetDirection>(self, path: Seq<Direction>, owner: Key, cap: nat)
        where Item: GetKey<Key>,
        requires
            self.wf(path, owner, cap),
        ensures
            self.items_of().len() <= (Key::spec_key_bits() - path.len() + 1) * cap,
        decreases self,
    {
        if let Node::Fork { left, right } = self {
            let pl = path.push(Direction::Left);
            let pr = path.push(Direction::Right);
            left.lemma_size_bound(pl, owner, cap);
            right.lemma_size_bound(pr, owner, cap);
            let b = Key::spec_key_bits() - path.len();
            assert(left.wf(pl, owner, cap));
            assert(right.wf(pr, owner, cap));
            if owner.spec_direction(path.len() as int) == Direction::Left {
                // the right side is off the owner's path: a leaf
                if *right is Fork {
                    assert(routed(owner, pr));
                    assert(owner.spec_direction(path.len() as int) == pr[path.len() as int]);
                }
                assert(right.items_of().len() <= cap);
                assert(left.items_of().len() <= (b - 1 + 1) * cap);
            } else {
                if *left is Fork {
                    assert(routed(owner, pl));
                    assert(owner.spec_direction(path.len() as int) == pl[path.len() as int]);
                }
                assert(left.items_of().len() <= cap);
                assert(right.items_of().len() <= (b - 1 + 1) * cap);
            }
            assert((b - 1 + 1) * cap + cap == (b + 1) * cap) by (nonlinear_arith);
        } else {
            let b = Key::spec_key_bits() - path.len();
            assert(cap <= (b + 1) * cap) by (nonlinear_arith)
                requires
                    b >= 0,
            ;
        }
    }

    /// Get the node that contains the item with the given key (mutable)
    pub fn get_node_mut<'a, Key: GetDirection>(node: &'a mut Box<Node<Item>>, key: &Key) -> (r: (&'a mut Node<Item>, usize))
        requires
            old(node).forks_below::<Key>(0),
        ensures
            *r.0 == old(node).leaf_of(*key, 0),
            r.1 as nat == old(node).leaf_depth(*key, 0),
            **final(node) == old(node).replace_leaf(*key, 0, *final(r.0)),
    {
        // The bit count is a `usize`, so the depth below it cannot overflow.
        let _key_bits = Key::key_bits();
        Self::leaf_mut_at(&mut **node, key, 0)
    }

    /// Append references to all items, leaves read from left to right, to `out`.
    pub fn collect<'a>(&'a self, out: &mut Vec<&'a Item>)
        ensures
            final(out)@.len() == old(out)@.len() + self.items_of().len(),
            forall|i: int| 0 <= i < old(out)@.len() ==> *final(out)@[i] == *old(out)@[i],
            forall|i: int| 0 <= i < self.items_of().len() ==> *final(out)@[old(out)@.len() + i] == self.items_of()[i],
        decreases self,
    {
        match self {
            Node::Leaf { items, .. } => {
                let mut i: usize = 0;
                let ghost start = out@.len();
                while i < items.len()
                    invariant
                        i <= items@.len(),
                        out@.len() == start + i,
                        start == old(out)@.len(),
                        forall|j: int| 0 <= j < start ==> *out@[j] == *old(out)@[j],
                        forall|j: int| 0 <= j < i ==> *out@[start + j] == items@[j],
                    decreases items@.len() - i,
                {
                    out.push(&items[i]);
                    i = i + 1;
                }
            },
            Node::Fork { left, right } => {
                left.collect(out);
                right.collect(out);
                assert forall|i: int| 0 <= i < self.items_of().len() implies *out@[old(out)@.len() + i] == self.items_of()[i] by {
                    if i < left.items_of().len() {
                    } else {
                        assert(self.items_of()[i] == right.items_of()[i - left.items_of().len()]);
                    }
                }
            },
        }
    }

    /// Each leaf's number of items and whether it may split, leaves read from
    /// left to right.
    pub open spec fn leaf_shape(self) -> Seq<(nat, bool)>
        decreases self,
    {
        match self {
            Node::Leaf { items, can_split } => seq![(items@.len(), can_split)],
            Node::Fork { left, right } => left.leaf_shape() + right.leaf_shape(),
        }
    }

    /// A trie has one more leaf than it has forks.
    pub proof fn lemma_leaf_count(self)
        ensures
            self.leaf_shape().len() == self.forks() + 1,
        decreases self,
    {
        if let Node::Fork { left, right } = self {
            left.lemma_leaf_count();
            right.lemma_leaf_count();
        }
    }

    /// Append each leaf's number of items and whether it may split to `out`.
    pub fn leaves(&self, out: &mut Vec<(usize, bool)>)
        ensures
            final(out)@.len() == old(out)@.len() + self.leaf_shape().len(),
            forall|i: int| 0 <= i < old(out)@.len() ==> final(out)@[i] == old(out)@[i],
            forall|i: int|
                0 <= i < self.leaf_shape().len() ==> final(out)@[old(out)@.len() + i].0 as nat == self.leaf_shape()[i].0
                    && final(out)@[old(out)@.len() + i].1 == self.leaf_shape()[i].1,
        decreases self,
    {
        match self {
            Node::Leaf { items, can_split } => {
                out.push((items.len(), *can_split));
            },
            Node::Fork { left, right } => {
                left.leaves(out);
                right.leaves(out);
                assert forall|i: int| 0 <= i < self.leaf_shape().len() implies out@[old(out)@.len() + i].0 as nat
                    == self.leaf_shape()[i].0 && out@[old(out)@.len() + i].1 == self.leaf_shape()[i].1 by {
                    if i >= left.leaf_shape().len() {
                        assert(self.leaf_shape()[i] == right.leaf_shape()[i - left.leaf_shape().len()]);
                    }
                }
            },
        }
    }

    /// The leaf of a key holds no more items than the whole trie.
    pub proof fn lemma_leaf_within<Key: GetDirection>(self, k: Key, depth: nat)
        ensures
            self.leaf_of(k, depth) is Leaf,
            self.leaf_of(k, depth)->Leaf_items@.len() <= self.items_of().len(),
        decreases self,
    {
        if let Node::Fork { left, right } = self {
            left.lemma_leaf_within(k, depth + 1);
            right.lemma_leaf_within(k, depth + 1);
        }
    }

    /// A fresh root: an empty leaf that may split.
    pub fn new_root() -> (r: Self)
        ensures
            r == (Node::Leaf::<Item> { items: r->Leaf_items, can_split: true }),
            r->Leaf_items@.len() == 0,
    {
        Node::Leaf { items: Vec::new(), can_split: true }
    }

    /// Number of items held by the leaves under this node.
    pub fn count(&self) -> (r: usize)
        requires
            self.items_of().len() <= usize::MAX,
        ensures
            r == self.items_of().len(),
        decreases self,
    {
        match self {
            Node::Leaf { items, .. } => items.len(),
            Node::Fork { left, right } => {
                let l = left.count();
                let r = right.count();
                l + r
            },
        }
    }
}

} // verus!

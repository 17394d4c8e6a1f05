//! A map from strings to values, stored as a prefix tree.
//!
//! Nodes live in an arena (`Vec<Node<T>>`); node `0` is the root and stands for
//! the empty key. Each node maps the code point of a character to the index of
//! the child that continues the key with that character, and holds the value of
//! the key whose path ends there, if any.
use vstd::prelude::*;

mod model;

verus! {

broadcast use vstd::laws_cmp::group_laws_cmp;

use crate::model::{edge, walk, contents, occupied, tree_shaped, extends};
use crate::model::{
    lemma_walk_path,
    lemma_walk_extends,
    lemma_extends_trans,
    lemma_set_slot,
    lemma_add_child,
    lemma_occupied_le,
    lemma_occupied_push,
    lemma_occupied_update,
};

/// One position in the tree: the outgoing edges, keyed by code point, and the
/// value slot of the key that ends here.
struct Node<T> {
    children: std::collections::BTreeMap<u32, usize>,
    slot: Option<T>,
}

impl<T> Node<T> {
    /// A node with no children and an empty slot.
    fn new() -> (n: Self)
        ensures
            n.children@ == Map::<u32, usize>::empty(),
            n.slot is None,
    {
        Node { children: std::collections::BTreeMap::new(), slot: None }
    }
}

/// A map from string keys to values of type `T`, sharing common prefixes.
pub struct Trie<T> {
    nodes: Vec<Node<T>>,
    len: usize,
    /// The key that leads from the root to each node.
    paths: Ghost<Seq<Seq<char>>>,
}

impl<T> View for Trie<T> {
    type V = Map<Seq<char>, T>;

    /// The key `k` is present when its path exists and ends in an occupied slot.
    closed spec fn view(&self) -> Map<Seq<char>, T> {
        contents(self.nodes@)
    }
}

impl<T> Trie<T> {
    /// The tree is shaped as the paths say, and `len` counts the stored keys.
    pub closed spec fn wf(&self) -> bool {
        &&& tree_shaped(self.nodes@, self.paths@)
        &&& self@.dom().finite()
        &&& self.len as nat == self@.len()
        &&& self.len as nat == occupied(self.nodes@)
    }

    /// The view at `k` is decided by the slot that the walk for `k` reaches.
    proof fn lemma_view_at(&self, k: Seq<char>)
        requires
            tree_shaped(self.nodes@, self.paths@),
        ensures
            self@.contains_key(k) <==> (walk(self.nodes@, k) is Some
                && self.nodes@[walk(self.nodes@, k)->0].slot is Some),
            self@.contains_key(k) ==> self@[k] == self.nodes@[walk(self.nodes@, k)->0].slot->0,
            walk(self.nodes@, k) is Some ==> walk(self.nodes@, k)->0 < self.nodes@.len(),
    {
        lemma_walk_path(self.nodes@, self.paths@, k);
    }

    /// An empty map.
    pub fn new() -> (t: Self)
        ensures
            t.wf(),
            t@ == Map::<Seq<char>, T>::empty(),
    {
        let mut nodes: Vec<Node<T>> = Vec::new();
        nodes.push(Node::new());
        let ghost paths = seq![Seq::<char>::empty()];
        let t = Trie { nodes, len: 0, paths: Ghost(paths) };
        proof {
            assert forall|i: int, c: char| #[trigger] edge(t.nodes@, i, c) is None by {}
            assert forall|k: Seq<char>| !t@.contains_key(k) by {
                if k.len() > 0 {
                    assert(edge(t.nodes@, walk(t.nodes@, k.drop_last())->0, k.last()) is None);
                }
            }
            assert(t@ =~= Map::<Seq<char>, T>::empty());
            assert(t.nodes@.drop_last() =~= Seq::<Node<T>>::empty());
            assert(occupied(t.nodes@.drop_last()) == 0);
        }
        t
    }

    /// Stores `value` under `key`, creating the missing part of its path, and
    /// returns the value that was stored under `key` before, if any.
    pub fn insert(&mut self, key: &str, value: T) -> (r: Option<T>)
        requires
            old(self).wf(),
        ensures
            final(self).wf(),
            final(self)@ == old(self)@.insert(key@, value),
            r == (if old(self)@.contains_key(key@) {
                Some(old(self)@[key@])
            } else {
                None
            }),
    {
        let ghost old_nodes = self.nodes@;
        let ghost old_len = self.len;
        let mut cur: usize = 0;
        for c in it: key.chars()
            invariant
                tree_shaped(self.nodes@, self.paths@),
                extends(old_nodes, self.nodes@),
                forall|i: int|
                    0 <= i < old_nodes.len() ==> #[trigger] self.nodes@[i].slot == old_nodes[i].slot,
                forall|i: int|
                    old_nodes.len() <= i < self.nodes@.len() ==> (#[trigger] self.nodes@[i]).slot is None,
                occupied(self.nodes@) == occupied(old_nodes),
                self.len == old_len,
                it.seq() == key@,
                0 <= it.index() <= key@.len(),
                cur < self.nodes@.len(),
                walk(self.nodes@, key@.take(it.index() as int)) == Some(cur as int),
        {
            let ghost n = it.index() as int;
            let ghost before = self.nodes@;
            proof {
                assert(key@.take(n + 1).drop_last() =~= key@.take(n));
                assert(key@.take(n + 1).last() == c);
                lemma_walk_path(before, self.paths@, key@.take(n));
                assert(key@.take(n).push(c) =~= key@.take(n + 1));
            }
            let found: Option<usize> = match self.nodes[cur].children.get(&(c as u32)) {
                Some(next) => Some(*next),
                None => None,
            };
            match found {
                Some(next) => {
                    proof {
                        assert(edge(before, cur as int, c) == Some(next as int));
                    }
                    cur = next;
                },
                None => {
                    proof {
                        assert(edge(before, cur as int, c) is None);
                    }
                    let fresh = self.nodes.len();
                    self.nodes.push(Node::new());
                    self.nodes[cur].children.insert(c as u32, fresh);
                    proof {
                        let after = self.nodes@;
                        assert forall|j: int| 0 <= j < before.len() && j != cur implies
                            #[trigger] after[j].children@ == before[j].children@ by {}
                        assert(after.len() == self.nodes.len());
                        lemma_add_child(before, after, self.paths@, cur as int, c);
                        lemma_extends_trans(old_nodes, before, after);
                        lemma_walk_extends(before, after, key@.take(n));
                        let grown = before.push(after[fresh as int]);
                        lemma_occupied_push(before, after[fresh as int]);
                        assert(after =~= grown.update(cur as int, after[cur as int]));
                        lemma_occupied_update(grown, cur as int, after[cur as int]);
                    }
                    self.paths = Ghost(self.paths@.push(key@.take(n + 1)));
                    cur = fresh;
                },
            }
        }
        proof {
            assert(key@.take(key@.len() as int) =~= key@);
        }
        let ghost mid = self.nodes@;
        proof {
            lemma_walk_path(mid, self.paths@, key@);
            lemma_walk_extends(old_nodes, mid, key@);
        }
        let prev = self.nodes[cur].slot.take();
        self.nodes[cur].slot = Some(value);
        proof {
            let fin = self.nodes@;
            assert forall|j: int| 0 <= j < mid.len() && j != cur implies #[trigger] fin[j] == mid[j] by {}
            lemma_set_slot(mid, fin, self.paths@, cur as int);
            lemma_occupied_update(mid, cur as int, fin[cur as int]);
            assert(fin =~= mid.update(cur as int, fin[cur as int]));
            lemma_occupied_le(fin);
            assert(prev == mid[cur as int].slot);
            assert(fin.len() == self.nodes.len());
            assert(prev is None ==> occupied(fin) == self.len + 1);
            assert forall|k: Seq<char>|
                #![trigger contents(mid).contains_key(k)]
                #![trigger contents(old_nodes).contains_key(k)]
                (contents(mid).contains_key(k) <==> contents(old_nodes).contains_key(k))
                && (contents(mid).contains_key(k) ==> contents(mid)[k] == contents(old_nodes)[k]) by {
                lemma_walk_extends(old_nodes, mid, k);
                lemma_walk_path(mid, self.paths@, k);
            }
            assert(contents(mid) =~= contents(old_nodes));
        }
        if prev.is_none() {
            self.len = self.len + 1;
        }
        prev
    }

    /// Takes the value stored under `key` out of the map and returns it, or
    /// returns `None` when `key` holds no value. The path of `key` stays in the
    /// tree.
    pub fn remove(&mut self, key: &str) -> (r: Option<T>)
        requires
            old(self).wf(),
        ensures
            final(self).wf(),
            final(self)@ == old(self)@.remove(key@),
            r == (if old(self)@.contains_key(key@) {
                Some(old(self)@[key@])
            } else {
                None
            }),
    {
        proof {
            self.lemma_view_at(key@);
        }
        match self.locate(key) {
            None => {
                proof {
                    assert(self@.remove(key@) =~= self@);
                }
                None
            },
            Some(i) => {
                let ghost mid = self.nodes@;
                proof {
                    lemma_walk_path(mid, self.paths@, key@);
                }
                let prev = self.nodes[i].slot.take();
                proof {
                    let fin = self.nodes@;
                    assert forall|j: int| 0 <= j < mid.len() && j != i implies #[trigger] fin[j]
                        == mid[j] by {}
                    lemma_set_slot(mid, fin, self.paths@, i as int);
                    assert(fin =~= mid.update(i as int, fin[i as int]));
                    lemma_occupied_update(mid, i as int, fin[i as int]);
                    assert(prev == mid[i as int].slot);
                    if prev is None {
                        assert(contents(mid).remove(key@) =~= contents(mid));
                    }
                }
                if prev.is_some() {
                    self.len = self.len - 1;
                }
                prev
            },
        }
    }

    /// The value stored under `key`, if any.
    pub fn get(&self, key: &str) -> (r: Option<&T>)
        requires
            self.wf(),
        ensures
            match r {
                Some(v) => self@.contains_key(key@) && *v == self@[key@],
                None => !self@.contains_key(key@),
            },
    {
        proof {
            self.lemma_view_at(key@);
        }
        match self.locate(key) {
            None => None,
            Some(i) => match &self.nodes[i].slot {
                Some(v) => Some(v),
                None => None,
            },
        }
    }

    /// A mutable reference to the value stored under `key`, if any. What is
    /// written through it becomes the value of `key`; nothing else changes.
    pub fn get_mut(&mut self, key: &str) -> (r: Option<&mut T>)
        requires
            old(self).wf(),
        ensures
            final(self).wf(),
            match r {
                Some(v) => {
                    &&& old(self)@.contains_key(key@)
                    &&& *v == old(self)@[key@]
                    &&& final(self)@ == old(self)@.insert(key@, *final(v))
                },
                None => {
                    &&& !old(self)@.contains_key(key@)
                    &&& final(self)@ == old(self)@
                },
            },
    {
        proof {
            self.lemma_view_at(key@);
        }
        match self.locate(key) {
            None => None,
            Some(i) => {
                let ghost mid = self.nodes@;
                let ghost paths = self.paths@;
                proof {
                    lemma_walk_path(mid, paths, key@);
                }
                match self.value_mut(i) {
                    Some(v) => {
                        proof {
                            let fin = mid.update(
                                i as int,
                                Node { children: mid[i as int].children, slot: Some(*final(v)) },
                            );
                            assert forall|j: int| 0 <= j < mid.len() && j != i implies #[trigger] fin[j]
                                == mid[j] by {}
                            lemma_set_slot(mid, fin, paths, i as int);
                            lemma_occupied_update(mid, i as int, fin[i as int]);
                            assert(contents(mid).insert(key@, *final(v)).dom() =~= contents(mid).dom());
                        }
                        Some(v)
                    },
                    None => None,
                }
            },
        }
    }

    /// Whether a value is stored under `key`.
    pub fn contains_key(&self, key: &str) -> (r: bool)
        requires
            self.wf(),
        ensures
            r == self@.contains_key(key@),
    {
        self.get(key).is_some()
    }

    /// The number of keys that hold a value.
    pub fn len(&self) -> (r: usize)
        requires
            self.wf(),
        ensures
            r == self@.len(),
    {
        self.len
    }

    /// Whether no key holds a value.
    pub fn is_empty(&self) -> (r: bool)
        requires
            self.wf(),
        ensures
            r == (self@.len() == 0),
            r == (self@ == Map::<Seq<char>, T>::empty()),
    {
        proof {
            if self@.len() == 0 {
                assert(self@ =~= Map::<Seq<char>, T>::empty());
            }
        }
        0 == self.len()
    }

    /// The value in the slot of node `i`, lent out so that the caller can
    /// change it; the slot stays occupied.
    fn value_mut(&mut self, i: usize) -> (r: Option<&mut T>)
        requires
            i < old(self).nodes@.len(),
        ensures
            final(self).len == old(self).len,
            final(self).paths == old(self).paths,
            match r {
                Some(v) => {
                    &&& old(self).nodes@[i as int].slot == Some(*v)
                    &&& final(self).nodes@ == old(self).nodes@.update(
                        i as int,
                        Node { children: old(self).nodes@[i as int].children, slot: Some(*final(v)) },
                    )
                },
                None => {
                    &&& old(self).nodes@[i as int].slot is None
                    &&& final(self).nodes@ == old(self).nodes@
                },
            },
    {
        self.nodes[i].slot.as_mut()
    }

    /// Looks up the node whose path spells `key`, without changing anything.
    fn locate(&self, key: &str) -> (r: Option<usize>)
        requires
            self.wf(),
        ensures
            match r {
                Some(i) => walk(self.nodes@, key@) == Some(i as int) && i < self.nodes@.len(),
                None => walk(self.nodes@, key@) is None,
            },
    {
        let mut cur: usize = 0;
        for c in it: key.chars()
            invariant
                self.wf(),
                it.seq() == key@,
                0 <= it.index() <= key@.len(),
                cur < self.nodes@.len(),
                walk(self.nodes@, key@.take(it.index() as int)) == Some(cur as int),
        {
            let ghost n = it.index() as int;
            proof {
                assert(key@.take(n + 1).drop_last() =~= key@.take(n));
                assert(key@.take(n + 1).last() == c);
            }
            match self.nodes[cur].children.get(&(c as u32)) {
                Some(next) => {
                    proof {
                        assert(edge(self.nodes@, cur as int, c) == Some(*next as int));
                        lemma_walk_path(self.nodes@, self.paths@, key@.take(n + 1));
                    }
                    cur = *next;
                },
                None => {
                    proof {
                        assert(edge(self.nodes@, cur as int, c) is None);
                        assert(walk(self.nodes@, key@.take(n + 1)) is None);
                        lemma_walk_prefix_none(self.nodes@, key@, n + 1);
                    }
                    return None;
                },
            }
        }
        proof {
            assert(key@.take(key@.len() as int) =~= key@);
        }
        Some(cur)
    }
}

/// A walk that fails on a prefix of a key fails on the whole key.
proof fn lemma_walk_prefix_none<T>(nodes: Seq<Node<T>>, k: Seq<char>, n: int)
    requires
        0 <= n <= k.len(),
        walk(nodes, k.take(n)) is None,
    ensures
        walk(nodes, k) is None,
    decreases k.len() - n,
{
    if n < k.len() {
        assert(k.take(n + 1).drop_last() =~= k.take(n));
        lemma_walk_prefix_none(nodes, k, n + 1);
    } else {
        assert(k.take(n) =~= k);
    }
}

impl<T> Default for Trie<T> {
    /// An empty map, as `new` makes it.
    fn default() -> (t: Self)
        ensures
            t.wf(),
            t@ == Map::<Seq<char>, T>::empty(),
    {
        Trie::new()
    }
}

/// The map that inserting `vals[i]` under `keys[i]`, for each `i` in order,
/// makes out of an empty one.
pub open spec fn inserted_all<T>(keys: Seq<Seq<char>>, vals: Seq<T>) -> Map<Seq<char>, T>
    recommends
        keys.len() == vals.len(),
    decreases keys.len(),
{
    if keys.len() == 0 || vals.len() == 0 {
        Map::empty()
    } else {
        inserted_all(keys.drop_last(), vals.drop_last()).insert(keys.last(), vals.last())
    }
}

/// Right after `insert(k, v)`, `k` holds `v`: `get(k)` returns `v` and
/// `contains_key(k)` is true.
pub proof fn law_insert_then_get<T>(before: Trie<T>, after: Trie<T>, k: Seq<char>, v: T)
    requires
        after@ == before@.insert(k, v),
    ensures
        after@.contains_key(k),
        after@[k] == v,
{
}

/// After a series of inserts into an empty map, a key that was never inserted
/// holds no value, even where it is a proper prefix of an inserted key or
/// shares a part of its path.
pub proof fn law_only_inserted_keys_present<T>(
    keys: Seq<Seq<char>>,
    vals: Seq<T>,
    k: Seq<char>,
)
    requires
        keys.len() == vals.len(),
        !keys.contains(k),
    ensures
        !inserted_all(keys, vals).contains_key(k),
    decreases keys.len(),
{
    if keys.len() > 0 {
        assert(!keys.drop_last().contains(k)) by {
            if keys.drop_last().contains(k) {
                let j = choose|j: int| 0 <= j < keys.drop_last().len() && keys.drop_last()[j] == k;
                assert(keys[j] == k);
            }
        }
        assert(keys[keys.len() - 1] != k);
        law_only_inserted_keys_present(keys.drop_last(), vals.drop_last(), k);
    }
}

/// Inserting `v1` and then `v2` under the same key: the second insert returns
/// `v1`, the key then holds `v2`, and the number of keys is as after the
/// first insert.
pub proof fn law_insert_twice<T>(
    before: Trie<T>,
    mid: Trie<T>,
    after: Trie<T>,
    k: Seq<char>,
    v1: T,
    v2: T,
)
    requires
        before.wf(),
        mid@ == before@.insert(k, v1),
        after@ == mid@.insert(k, v2),
    ensures
        mid@.contains_key(k),
        mid@[k] == v1,
        after@.contains_key(k),
        after@[k] == v2,
        after@.len() == mid@.len(),
{
    assert(mid@.dom().insert(k) =~= mid@.dom());
}

/// Removing a key that holds no value changes nothing: `remove` returns
/// `None` and `len()` stays the same.
pub proof fn law_remove_absent<T>(before: Trie<T>, after: Trie<T>, k: Seq<char>)
    requires
        !before@.contains_key(k),
        after@ == before@.remove(k),
    ensures
        after@ == before@,
        after@.len() == before@.len(),
{
    assert(before@.remove(k) =~= before@);
}

/// Removing a key that holds a value returns that value; afterwards the key
/// is absent and there is one key fewer.
pub proof fn law_remove_present<T>(before: Trie<T>, after: Trie<T>, k: Seq<char>)
    requires
        before.wf(),
        before@.contains_key(k),
        after@ == before@.remove(k),
    ensures
        !after@.contains_key(k),
        after@.len() + 1 == before@.len(),
{
}

/// Inserting or removing one key leaves every other key as it was.
pub proof fn law_other_keys_unchanged<T>(
    before: Trie<T>,
    after: Trie<T>,
    k: Seq<char>,
    v: T,
    other: Seq<char>,
)
    requires
        after@ == before@.insert(k, v) || after@ == before@.remove(k),
        other != k,
    ensures
        after@.contains_key(other) == before@.contains_key(other),
        after@.contains_key(other) ==> after@[other] == before@[other],
{
}

} // verus!

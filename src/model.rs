//! The mathematical model of the arena: edges, walks along a key, and the
//! count of occupied slots.
use vstd::prelude::*;

use crate::Node;

verus! {

/// The child reached from node `i` by the character `c`, if that edge exists.
pub(crate) open spec fn edge<T>(nodes: Seq<Node<T>>, i: int, c: char) -> Option<int> {
    if 0 <= i < nodes.len() && nodes[i].children@.contains_key(c as u32) {
        Some(nodes[i].children@[c as u32] as int)
    } else {
        None
    }
}

/// The node reached from the root by following the characters of `k` in order.
pub(crate) open spec fn walk<T>(nodes: Seq<Node<T>>, k: Seq<char>) -> Option<int>
    decreases k.len(),
{
    if k.len() == 0 {
        Some(0)
    } else {
        match walk(nodes, k.drop_last()) {
            Some(i) => edge(nodes, i, k.last()),
            None => None,
        }
    }
}

/// The map that the arena stands for: a key is present when its walk reaches
/// an occupied slot, and maps to the value in that slot.
pub(crate) open spec fn contents<T>(nodes: Seq<Node<T>>) -> Map<Seq<char>, T> {
    Map::new(
        |k: Seq<char>| walk(nodes, k) is Some && nodes[walk(nodes, k)->0].slot is Some,
        |k: Seq<char>| nodes[walk(nodes, k)->0].slot->0,
    )
}

/// The number of nodes whose slot holds a value.
pub(crate) open spec fn occupied<T>(nodes: Seq<Node<T>>) -> nat
    decreases nodes.len(),
{
    if nodes.len() == 0 {
        0
    } else {
        occupied(nodes.drop_last()) + if nodes.last().slot is Some {
            1nat
        } else {
            0nat
        }
    }
}

/// There is a root, every edge stays inside the arena, and the node at the end
/// of an edge labelled `c` has the path of its parent followed by `c`.
pub(crate) open spec fn tree_shaped<T>(nodes: Seq<Node<T>>, paths: Seq<Seq<char>>) -> bool {
    &&& nodes.len() >= 1
    &&& paths.len() == nodes.len()
    &&& paths[0] == Seq::<char>::empty()
    &&& forall|i: int, c: char| #[trigger]
        edge(nodes, i, c) is Some ==> {
            let j = edge(nodes, i, c)->0;
            &&& 0 <= j < nodes.len()
            &&& paths[j] == paths[i].push(c)
        }
}

/// `b` keeps every edge of `a`, and every edge of `b` that leads to a node of
/// `a` was already there.
pub(crate) open spec fn extends<T>(a: Seq<Node<T>>, b: Seq<Node<T>>) -> bool {
    &&& a.len() <= b.len()
    &&& forall|i: int, c: char| #[trigger]
        edge(a, i, c) is Some ==> edge(b, i, c) == edge(a, i, c)
    &&& forall|i: int, c: char| #[trigger]
        edge(b, i, c) is Some && edge(b, i, c)->0 < a.len() ==> edge(a, i, c) == edge(b, i, c)
}

/// A walk ends at the node whose path is the key walked.
pub(crate) proof fn lemma_walk_path<T>(nodes: Seq<Node<T>>, paths: Seq<Seq<char>>, k: Seq<char>)
    requires
        tree_shaped(nodes, paths),
    ensures
        walk(nodes, k) is Some ==> {
            let i = walk(nodes, k)->0;
            &&& 0 <= i < nodes.len()
            &&& paths[i] == k
        },
    decreases k.len(),
{
    if k.len() > 0 {
        lemma_walk_path(nodes, paths, k.drop_last());
        if walk(nodes, k) is Some {
            let p = walk(nodes, k.drop_last())->0;
            assert(edge(nodes, p, k.last()) is Some);
            assert(k.drop_last().push(k.last()) =~= k);
        }
    }
}

/// Walks that succeed in `a` succeed in `b` at the same node, and walks in `b`
/// that end at a node of `a` were walks of `a`.
pub(crate) proof fn lemma_walk_extends<T>(a: Seq<Node<T>>, b: Seq<Node<T>>, k: Seq<char>)
    requires
        extends(a, b),
    ensures
        walk(a, k) is Some ==> walk(b, k) == walk(a, k),
        walk(b, k) is Some && walk(b, k)->0 < a.len() ==> walk(a, k) == walk(b, k),
    decreases k.len(),
{
    if k.len() > 0 {
        lemma_walk_extends(a, b, k.drop_last());
        let c = k.last();
        if walk(a, k.drop_last()) is Some {
            let p = walk(a, k.drop_last())->0;
            if edge(a, p, c) is Some {
                assert(edge(b, p, c) == edge(a, p, c));
            }
        }
        if walk(b, k) is Some && walk(b, k)->0 < a.len() {
            let p = walk(b, k.drop_last())->0;
            assert(edge(b, p, c) is Some);
            assert(edge(a, p, c) == edge(b, p, c));
            assert(0 <= p < a.len());
        }
    }
}

/// Extension is transitive.
pub(crate) proof fn lemma_extends_trans<T>(a: Seq<Node<T>>, b: Seq<Node<T>>, c: Seq<Node<T>>)
    requires
        extends(a, b),
        extends(b, c),
    ensures
        extends(a, c),
{
    assert forall|i: int, d: char| #[trigger]
        edge(c, i, d) is Some && edge(c, i, d)->0 < a.len() implies edge(a, i, d) == edge(c, i, d) by {
        assert(edge(b, i, d) == edge(c, i, d));
    }
}

/// Replacing the slot of a reachable node `i`, and nothing else, keeps every edge and the
/// shape of the tree, and changes the map at the key of node `i` alone.
pub(crate) proof fn lemma_set_slot<T>(
    a: Seq<Node<T>>,
    b: Seq<Node<T>>,
    paths: Seq<Seq<char>>,
    i: int,
)
    requires
        tree_shaped(a, paths),
        0 <= i < a.len(),
        walk(a, paths[i]) == Some(i),
        b.len() == a.len(),
        b[i].children@ == a[i].children@,
        forall|j: int| 0 <= j < a.len() && j != i ==> #[trigger] b[j] == a[j],
    ensures
        tree_shaped(b, paths),
        extends(a, b),
        extends(b, a),
        forall|k: Seq<char>| #[trigger] walk(b, k) == walk(a, k),
        contents(b) == (match b[i].slot {
            Some(v) => contents(a).insert(paths[i], v),
            None => contents(a).remove(paths[i]),
        }),
{
    assert forall|j: int, d: char| #[trigger] edge(b, j, d) == edge(a, j, d) by {
        if j != i && 0 <= j < a.len() {
            assert(b[j] == a[j]);
        }
    }
    assert forall|k: Seq<char>| #[trigger] walk(b, k) == walk(a, k) by {
        lemma_walk_extends(a, b, k);
        lemma_walk_extends(b, a, k);
    }
    let m = match b[i].slot {
        Some(v) => contents(a).insert(paths[i], v),
        None => contents(a).remove(paths[i]),
    };
    assert forall|k: Seq<char>|
        #![trigger contents(b).contains_key(k)]
        #![trigger m.contains_key(k)]
        (contents(b).contains_key(k) <==> m.contains_key(k))
        && (contents(b).contains_key(k) ==> contents(b)[k] == m[k]) by {
        lemma_walk_path(a, paths, k);
        assert(walk(b, k) == walk(a, k));
        if walk(a, k) is Some && walk(a, k)->0 != i {
            assert(b[walk(a, k)->0] == a[walk(a, k)->0]);
        }
    }
    assert(contents(b) =~= m);
}

/// Distinct characters have distinct code points.
pub(crate) proof fn lemma_code_point_injective(c: char, d: char)
    requires
        c != d,
    ensures
        c as u32 != d as u32,
{
}

/// Adding a fresh childless node at the end of the arena, with an edge to it
/// labelled `c` from node `cur`, keeps the shape of the tree and every old edge.
pub(crate) proof fn lemma_add_child<T>(
    a: Seq<Node<T>>,
    b: Seq<Node<T>>,
    paths: Seq<Seq<char>>,
    cur: int,
    c: char,
)
    requires
        tree_shaped(a, paths),
        0 <= cur < a.len(),
        edge(a, cur, c) is None,
        b.len() == a.len() + 1,
        b.len() <= usize::MAX,
        b[a.len() as int].children@ == Map::<u32, usize>::empty(),
        b[cur].children@ == a[cur].children@.insert(c as u32, a.len() as usize),
        forall|j: int| 0 <= j < a.len() && j != cur ==> #[trigger] b[j].children@ == a[j].children@,
    ensures
        tree_shaped(b, paths.push(paths[cur].push(c))),
        extends(a, b),
        edge(b, cur, c) == Some(a.len() as int),
{
    let p2 = paths.push(paths[cur].push(c));
    assert forall|j: int, d: char| 0 <= j < a.len() && !(j == cur && d == c) implies
        #[trigger] edge(b, j, d) == edge(a, j, d) by {
        if j == cur {
            lemma_code_point_injective(c, d);
            assert(b[j].children@.contains_key(d as u32) == a[j].children@.contains_key(d as u32));
        } else {
            assert(b[j].children@ == a[j].children@);
        }
    }
    assert forall|j: int, d: char| #[trigger] edge(b, j, d) is Some implies {
        let t = edge(b, j, d)->0;
        &&& 0 <= t < b.len()
        &&& p2[t] == p2[j].push(d)
    } by {
        if j == cur && d == c {
            assert(p2[cur] == paths[cur]);
            assert(p2[a.len() as int] == paths[cur].push(c));
        } else if j == a.len() {
            assert(!b[j].children@.contains_key(d as u32));
        } else {
            assert(edge(b, j, d) == edge(a, j, d));
        }
    }
    assert forall|j: int, d: char| #[trigger] edge(a, j, d) is Some implies edge(b, j, d) == edge(a, j, d) by {
        if j == cur && d == c {
        } else {
            assert(edge(b, j, d) == edge(a, j, d));
        }
    }
    assert forall|j: int, d: char| #[trigger] edge(b, j, d) is Some && edge(b, j, d)->0 < a.len()
        implies edge(a, j, d) == edge(b, j, d) by {
        if j == cur && d == c {
        } else if j == a.len() {
            assert(!b[j].children@.contains_key(d as u32));
        } else {
            assert(edge(b, j, d) == edge(a, j, d));
        }
    }
}

/// No more nodes are occupied than there are nodes.
pub(crate) proof fn lemma_occupied_le<T>(nodes: Seq<Node<T>>)
    ensures
        occupied(nodes) <= nodes.len(),
    decreases nodes.len(),
{
    if nodes.len() > 0 {
        lemma_occupied_le(nodes.drop_last());
    }
}

/// Adding a node with an empty slot leaves the count as it was.
pub(crate) proof fn lemma_occupied_push<T>(nodes: Seq<Node<T>>, n: Node<T>)
    requires
        n.slot is None,
    ensures
        occupied(nodes.push(n)) == occupied(nodes),
{
    assert(nodes.push(n).drop_last() =~= nodes);
}

/// Replacing one node changes the count by the change in that node's slot.
pub(crate) proof fn lemma_occupied_update<T>(nodes: Seq<Node<T>>, i: int, n: Node<T>)
    requires
        0 <= i < nodes.len(),
    ensures
        occupied(nodes.update(i, n)) + (if nodes[i].slot is Some {
            1int
        } else {
            0int
        }) == occupied(nodes) + (if n.slot is Some {
            1int
        } else {
            0int
        }),
    decreases nodes.len(),
{
    let u = nodes.update(i, n);
    if i == nodes.len() - 1 {
        assert(u.drop_last() =~= nodes.drop_last());
    } else {
        assert(u.drop_last() =~= nodes.drop_last().update(i, n));
        lemma_occupied_update(nodes.drop_last(), i, n);
    }
}

} // verus!

//! The node collection: at most one node per identifier. `push` stores a
//! node under the identifier it reports for itself.

use vstd::prelude::*;
use crate::node::{concrete_node, concrete_node_mut, GeometryNode, Node};

verus! {

/// The entries, key and node, are kept in strictly increasing order of key, so that
/// what is derived from a collection does not depend on the order in which
/// its nodes were pushed.
pub struct NodeCollection {
    nodes: Vec<(u128, Node)>,
}

/// Every node of `m` is stored under its own identifier.
pub open spec fn ids_agree(m: Map<u128, Node>) -> bool {
    forall|k: u128| #[trigger] m.contains_key(k) ==> m[k].id() == k
}

proof fn lemma_ids_agree_insert(m: Map<u128, Node>, k: u128, n: Node)
    requires
        ids_agree(m),
        n.id() == k,
    ensures
        ids_agree(m.insert(k, n)),
{
}

proof fn lemma_ids_agree_remove(m: Map<u128, Node>, k: u128)
    requires
        ids_agree(m),
    ensures
        ids_agree(m.remove(k)),
{
}

/// Keys strictly increase along `s`.
pub open spec fn sorted_by_id(s: Seq<(u128, Node)>) -> bool {
    forall|i: int, j: int| 0 <= i < j < s.len() ==> s[i].0 < s[j].0
}

/// The map from key to node that a sorted sequence of entries holds.
pub open spec fn map_of(s: Seq<(u128, Node)>) -> Map<u128, Node> {
    Map::new(
        |k: u128| exists|i: int| 0 <= i < s.len() && s[i].0 == k,
        |k: u128| s[choose|i: int| 0 <= i < s.len() && s[i].0 == k].1,
    )
}

/// An entry of a sorted sequence is in its map.
pub proof fn lemma_map_of_at(s: Seq<(u128, Node)>, i: int)
    requires
        sorted_by_id(s),
        0 <= i < s.len(),
    ensures
        map_of(s).contains_key(s[i].0),
        map_of(s)[s[i].0] == s[i].1,
{
    let k = s[i].0;
    assert(0 <= i < s.len() && s[i].0 == k);
    let j = choose|j: int| 0 <= j < s.len() && s[j].0 == k;
    if j < i {
        assert(s[j].0 < s[i].0);
    } else if i < j {
        assert(s[i].0 < s[j].0);
    }
}

/// Setting the node of an entry keeps the order and sets that key in the map.
pub proof fn lemma_map_of_update(s0: Seq<(u128, Node)>, pos: int, node: Node)
    requires
        sorted_by_id(s0),
        0 <= pos < s0.len(),
    ensures
        sorted_by_id(s0.update(pos, (s0[pos].0, node))),
        map_of(s0.update(pos, (s0[pos].0, node))) == map_of(s0).insert(s0[pos].0, node),
        map_of(s0).contains_key(s0[pos].0),
{
    let key = s0[pos].0;
    let s1 = s0.update(pos, (key, node));
    assert(sorted_by_id(s1));
    assert forall|i: int| 0 <= i < s1.len() implies map_of(s1)[s1[i].0] == s1[i].1 by {
        lemma_map_of_at(s1, i);
    }
    assert forall|i: int| 0 <= i < s0.len() implies map_of(s0)[s0[i].0] == s0[i].1 by {
        lemma_map_of_at(s0, i);
    }
    assert(map_of(s1) =~= map_of(s0).insert(key, node)) by {
        assert forall|k: u128| #[trigger] map_of(s1).contains_key(k) <==> map_of(s0).insert(key, node).contains_key(k) by {
            if map_of(s1).contains_key(k) {
                let i = choose|i: int| 0 <= i < s1.len() && s1[i].0 == k;
                if i != pos {
                    assert(s0[i].0 == k);
                }
            }
            if map_of(s0).contains_key(k) {
                let i = choose|i: int| 0 <= i < s0.len() && s0[i].0 == k;
                assert(s1[i].0 == k);
            }
            if k == key {
                assert(s1[pos].0 == k);
            }
        }
        assert forall|k: u128| #[trigger] map_of(s1).contains_key(k) implies map_of(s1)[k] == map_of(s0).insert(key, node)[k] by {
            let i = choose|i: int| 0 <= i < s1.len() && s1[i].0 == k;
            if i != pos {
                assert(s0[i] == s1[i]);
            }
        }
    }
    lemma_map_of_at(s0, pos);
}

/// Appending an entry with a key above all others adds that key to the map.
pub proof fn lemma_map_of_push(s: Seq<(u128, Node)>, e: (u128, Node))
    requires
        sorted_by_id(s.push(e)),
    ensures
        sorted_by_id(s),
        map_of(s.push(e)) == map_of(s).insert(e.0, e.1),
{
    let s1 = s.push(e);
    assert(sorted_by_id(s)) by {
        assert forall|i: int, j: int| 0 <= i < j < s.len() implies s[i].0 < s[j].0 by {
            assert(s1[i] == s[i] && s1[j] == s[j]);
        }
    }
    assert forall|i: int| 0 <= i < s1.len() implies map_of(s1)[s1[i].0] == s1[i].1 by {
        lemma_map_of_at(s1, i);
    }
    assert forall|i: int| 0 <= i < s.len() implies map_of(s)[s[i].0] == s[i].1 by {
        lemma_map_of_at(s, i);
    }
    assert(map_of(s1) =~= map_of(s).insert(e.0, e.1)) by {
        assert forall|k: u128| #[trigger] map_of(s1).contains_key(k) <==> map_of(s).insert(e.0, e.1).contains_key(k) by {
            if map_of(s1).contains_key(k) {
                let i = choose|i: int| 0 <= i < s1.len() && s1[i].0 == k;
                if i < s.len() {
                    assert(s[i].0 == k);
                }
            }
            if map_of(s).contains_key(k) {
                let i = choose|i: int| 0 <= i < s.len() && s[i].0 == k;
                assert(s1[i].0 == k);
            }
            if k == e.0 {
                assert(s1[s.len() as int].0 == k);
            }
        }
        assert forall|k: u128| #[trigger] map_of(s1).contains_key(k) implies map_of(s1)[k] == map_of(s).insert(e.0, e.1)[k] by {
            let i = choose|i: int| 0 <= i < s1.len() && s1[i].0 == k;
            if i < s.len() {
                assert(s1[i] == s[i]);
                assert(s1[i].0 < s1[s.len() as int].0);
            }
        }
    }
}

proof fn lemma_map_of_drop_first(s: Seq<(u128, Node)>)
    requires
        sorted_by_id(s),
        s.len() > 0,
    ensures
        sorted_by_id(s.drop_first()),
        map_of(s.drop_first()) == map_of(s).remove(s[0].0),
{
    let t = s.drop_first();
    assert(sorted_by_id(t)) by {
        assert forall|i: int, j: int| 0 <= i < j < t.len() implies t[i].0 < t[j].0 by {
            assert(t[i] == s[i + 1] && t[j] == s[j + 1]);
        }
    }
    assert forall|i: int| 0 <= i < t.len() implies map_of(t)[t[i].0] == t[i].1 by {
        lemma_map_of_at(t, i);
    }
    assert forall|i: int| 0 <= i < s.len() implies map_of(s)[s[i].0] == s[i].1 by {
        lemma_map_of_at(s, i);
    }
    assert(map_of(t) =~= map_of(s).remove(s[0].0)) by {
        assert forall|k: u128| #[trigger] map_of(t).contains_key(k) <==> map_of(s).remove(s[0].0).contains_key(k) by {
            if map_of(t).contains_key(k) {
                let i = choose|i: int| 0 <= i < t.len() && t[i].0 == k;
                assert(s[i + 1].0 == k);
                assert(s[0].0 < s[i + 1].0);
            }
            if map_of(s).contains_key(k) && k != s[0].0 {
                let i = choose|i: int| 0 <= i < s.len() && s[i].0 == k;
                assert(i > 0);
                assert(t[i - 1].0 == k);
            }
        }
        assert forall|k: u128| #[trigger] map_of(t).contains_key(k) implies map_of(t)[k] == map_of(s).remove(s[0].0)[k] by {
            let i = choose|i: int| 0 <= i < t.len() && t[i].0 == k;
            assert(t[i] == s[i + 1]);
        }
    }
}

/// A map has one sorted sequence of entries: two sorted sequences that hold
/// the same map are the same sequence.
pub proof fn lemma_sorted_entries_unique(s: Seq<(u128, Node)>, t: Seq<(u128, Node)>)
    requires
        sorted_by_id(s),
        sorted_by_id(t),
        map_of(s) == map_of(t),
    ensures
        s == t,
    decreases s.len(),
{
    if s.len() == 0 {
        if t.len() > 0 {
            lemma_map_of_at(t, 0);
        }
        assert(s =~= t);
    } else if t.len() == 0 {
        lemma_map_of_at(s, 0);
    } else {
        lemma_map_of_at(s, 0);
        lemma_map_of_at(t, 0);
        let js = choose|j: int| 0 <= j < s.len() && s[j].0 == t[0].0;
        let jt = choose|j: int| 0 <= j < t.len() && t[j].0 == s[0].0;
        if js > 0 {
            assert(s[0].0 < s[js].0);
        }
        if jt > 0 {
            assert(t[0].0 < t[jt].0);
        }
        assert(s[0].0 == t[0].0);
        assert(s[0] == t[0]);
        lemma_map_of_drop_first(s);
        lemma_map_of_drop_first(t);
        lemma_sorted_entries_unique(s.drop_first(), t.drop_first());
        assert(s =~= seq![s[0]] + s.drop_first());
        assert(t =~= seq![t[0]] + t.drop_first());
    }
}

impl NodeCollection {
    pub closed spec fn entries(&self) -> Seq<(u128, Node)> {
        self.nodes@
    }

    /// The entries are in order of key, and every node is stored under its
    /// own identifier.
    pub open spec fn wf(&self) -> bool {
        &&& sorted_by_id(self.entries())
        &&& ids_agree(map_of(self.entries()))
    }

    /// What the collection holds: each identifier mapped to its node.
    pub open spec fn view(&self) -> Map<u128, Node> {
        map_of(self.entries())
    }

    /// The number of nodes held.
    pub open spec fn size(&self) -> nat {
        self.entries().len()
    }

    /// An empty collection.
    pub fn new() -> (r: NodeCollection)
        ensures
            r.wf(),
            r@ == Map::<u128, Node>::empty(),
            r.size() == 0,
    {
        let r = NodeCollection { nodes: Vec::new() };
        assert(r@ =~= Map::<u128, Node>::empty());
        r
    }

    /// The number of nodes held.
    pub fn len(&self) -> (r: usize)
        ensures
            r == self.size(),
    {
        self.nodes.len()
    }

    /// The entries, key and node, in increasing order of key.
    pub fn entries_vec(&self) -> (r: &Vec<(u128, Node)>)
        ensures
            r@ == self.entries(),
    {
        &self.nodes
    }

    /// The first position whose identifier is not below `key`.
    fn position_of(&self, key: u128) -> (r: usize)
        requires
            self.wf(),
        ensures
            r <= self.entries().len(),
            forall|i: int| 0 <= i < r ==> self.entries()[i].0 < key,
            r < self.entries().len() ==> key <= self.entries()[r as int].0,
    {
        let mut i: usize = 0;
        while i < self.nodes.len()
            invariant
                i <= self.nodes.len(),
                forall|j: int| 0 <= j < i ==> self.nodes@[j].0 < key,
            decreases self.nodes.len() - i,
        {
            if self.nodes[i].0 >= key {
                return i;
            }
            i = i + 1;
        }
        i
    }

    /// Stores `node` under its own identifier, replacing whatever was stored
    /// under it.
    pub fn push(&mut self, node: Node)
        requires
            old(self).wf(),
        ensures
            final(self).wf(),
            final(self)@ == old(self)@.insert(node.id(), node),
            final(self).size() == if old(self)@.contains_key(node.id()) {
                old(self).size()
            } else {
                old(self).size() + 1
            },
    {
        let key = node.uuid();
        let pos = self.position_of(key);
        let ghost s0 = self.nodes@;
        let ghost g = node;
        proof {
            lemma_ids_agree_insert(map_of(s0), key, g);
        }
        proof {
            assert forall|i: int| 0 <= i < s0.len() implies map_of(s0)[s0[i].0] == s0[i].1 by {
                lemma_map_of_at(s0, i);
            }
        }
        if pos < self.nodes.len() && self.nodes[pos].0 == key {
            self.nodes.set(pos, (key, node));
            proof {
                lemma_map_of_update(s0, pos as int, node);
                assert(self.nodes@ == s0.update(pos as int, (key, node)));
            }
        } else {
            self.nodes.insert(pos, (key, node));
            proof {
                let s1 = self.nodes@;
                assert(s1 == s0.insert(pos as int, (key, node)));
                assert(sorted_by_id(s1)) by {
                    assert forall|i: int, j: int| 0 <= i < j < s1.len() implies s1[i].0 < s1[j].0 by {
                        if i < pos && j > pos {
                            assert(s1[j] == s0[j - 1]);
                        } else if i == pos && j > pos {
                            assert(s1[j] == s0[j - 1]);
                            assert(key <= s0[pos as int].0);
                            assert(pos == j - 1 || s0[pos as int].0 < s0[j - 1].0);
                        } else if i > pos {
                            assert(s1[i] == s0[i - 1] && s1[j] == s0[j - 1]);
                        }
                    }
                }
                assert forall|i: int| 0 <= i < s1.len() implies map_of(s1)[s1[i].0] == s1[i].1 by {
                    lemma_map_of_at(s1, i);
                }
                assert(!map_of(s0).contains_key(key)) by {
                    if map_of(s0).contains_key(key) {
                        let i = choose|i: int| 0 <= i < s0.len() && s0[i].0 == key;
                        if i < pos {
                        } else if i > pos {
                            assert(s0[pos as int].0 < s0[i].0);
                        }
                    }
                }
                assert(map_of(s1) =~= map_of(s0).insert(key, node)) by {
                    assert forall|k: u128| #[trigger] map_of(s1).contains_key(k) <==> map_of(s0).insert(key, node).contains_key(k) by {
                        if map_of(s1).contains_key(k) {
                            let i = choose|i: int| 0 <= i < s1.len() && s1[i].0 == k;
                            if i < pos {
                                assert(s0[i].0 == k);
                            } else if i > pos {
                                assert(s0[i - 1].0 == k);
                            }
                        }
                        if map_of(s0).contains_key(k) {
                            let i = choose|i: int| 0 <= i < s0.len() && s0[i].0 == k;
                            if i < pos {
                                assert(s1[i].0 == k);
                            } else {
                                assert(s1[i + 1].0 == k);
                            }
                        }
                        if k == key {
                            assert(s1[pos as int].0 == k);
                        }
                    }
                    assert forall|k: u128| #[trigger] map_of(s1).contains_key(k) implies map_of(s1)[k] == map_of(s0).insert(key, node)[k] by {
                        let i = choose|i: int| 0 <= i < s1.len() && s1[i].0 == k;
                        if i < pos {
                            assert(s0[i] == s1[i]);
                        } else if i > pos {
                            assert(s0[i - 1] == s1[i]);
                        }
                    }
                }
            }
        }
    }

    /// Where `key` is stored, if it is.
    fn index_of(&self, key: u128) -> (r: Option<usize>)
        requires
            self.wf(),
        ensures
            match r {
                Some(i) => i < self.entries().len() && self.entries()[i as int].0 == key,
                None => !self@.contains_key(key),
            },
    {
        let pos = self.position_of(key);
        if pos < self.nodes.len() && self.nodes[pos].0 == key {
            Some(pos)
        } else {
            proof {
                let s0 = self.entries();
                if self@.contains_key(key) {
                    let i = choose|i: int| 0 <= i < s0.len() && s0[i].0 == key;
                    if i > pos {
                        assert(s0[pos as int].0 < s0[i].0);
                    }
                }
            }
            None
        }
    }

    /// Takes out the node stored under `key`, if there is one.
    pub fn remove(&mut self, key: &u128) -> (r: Option<Node>)
        requires
            old(self).wf(),
        ensures
            final(self).wf(),
            final(self)@ == old(self)@.remove(*key),
            r == (if old(self)@.contains_key(*key) {
                Some(old(self)@[*key])
            } else {
                None::<Node>
            }),
            final(self).size() == if old(self)@.contains_key(*key) {
                (old(self).size() - 1) as nat
            } else {
                old(self).size()
            },
    {
        let ghost s0 = self.nodes@;
        match self.index_of(*key) {
            None => {
                assert(map_of(s0) =~= map_of(s0).remove(*key));
                None
            },
            Some(pos) => {
                let (_, node) = self.nodes.remove(pos);
                proof {
                    lemma_ids_agree_remove(map_of(s0), *key);
                    let k0 = *key;
                    let s1 = self.nodes@;
                    assert(s1 == s0.remove(pos as int));
                    lemma_map_of_at(s0, pos as int);
                    assert(sorted_by_id(s1)) by {
                        assert forall|i: int, j: int| 0 <= i < j < s1.len() implies s1[i].0 < s1[j].0 by {
                            if j < pos {
                            } else if i < pos {
                                assert(s1[j] == s0[j + 1]);
                            } else {
                                assert(s1[i] == s0[i + 1] && s1[j] == s0[j + 1]);
                            }
                        }
                    }
                    assert forall|i: int| 0 <= i < s1.len() implies map_of(s1)[s1[i].0] == s1[i].1 by {
                        lemma_map_of_at(s1, i);
                    }
                    assert forall|i: int| 0 <= i < s0.len() implies map_of(s0)[s0[i].0] == s0[i].1 by {
                        lemma_map_of_at(s0, i);
                    }
                    assert(map_of(s1) =~= map_of(s0).remove(k0)) by {
                        assert forall|k: u128| #[trigger] map_of(s1).contains_key(k) <==> map_of(s0).remove(k0).contains_key(k) by {
                            if map_of(s1).contains_key(k) {
                                let i = choose|i: int| 0 <= i < s1.len() && s1[i].0 == k;
                                if i < pos {
                                    assert(s0[i].0 == k);
                                    assert(s0[i].0 < s0[pos as int].0);
                                } else {
                                    assert(s0[i + 1].0 == k);
                                    assert(s0[pos as int].0 < s0[i + 1].0);
                                }
                            }
                            if map_of(s0).contains_key(k) && k != k0 {
                                let i = choose|i: int| 0 <= i < s0.len() && s0[i].0 == k;
                                if i < pos {
                                    assert(s1[i].0 == k);
                                } else if i > pos {
                                    assert(s1[i - 1].0 == k);
                                }
                            }
                        }
                        assert forall|k: u128| #[trigger] map_of(s1).contains_key(k) implies map_of(s1)[k] == map_of(s0).remove(k0)[k] by {
                            let i = choose|i: int| 0 <= i < s1.len() && s1[i].0 == k;
                            if i < pos {
                                assert(s0[i] == s1[i]);
                            } else {
                                assert(s0[i + 1] == s1[i]);
                            }
                        }
                    }
                }
                Some(node)
            },
        }
    }

    /// The node stored under `key`, if there is one and it is a `T`.
    pub fn try_get_typed<T: GeometryNode>(&self, key: &u128) -> (r: Option<&T>)
        requires
            self.wf(),
        ensures
            match r {
                Some(t) => self@.contains_key(*key) && t.as_node() == self@[*key],
                None => !self@.contains_key(*key) || forall|t: T| #[trigger] t.as_node() != self@[*key],
            },
    {
        match self.index_of(*key) {
            None => None,
            Some(pos) => {
                proof {
                    lemma_map_of_at(self.entries(), pos as int);
                }
                concrete_node::<T>(&self.nodes[pos].1)
            },
        }
    }

    /// As `try_get_typed`, giving a handle on the data of the stored node,
    /// through which it can be changed in place. The handle does not reach
    /// the node's identifier, and nothing else in the collection changes.
    pub fn try_get_typed_mut<T: GeometryNode>(&mut self, key: &u128) -> (r: Option<&mut T::Data>)
        requires
            old(self).wf(),
        ensures
            final(self).wf(),
            match r {
                Some(d) => {
                    &&& old(self)@.contains_key(*key)
                    &&& exists|t: T| #[trigger] t.as_node() == old(self)@[*key]
                    &&& T::with_data(old(self)@[*key], *d) == old(self)@[*key]
                    &&& final(self)@ == old(self)@.insert(*key, T::with_data(old(self)@[*key], *final(d)))
                    &&& final(self).size() == old(self).size()
                },
                None => {
                    &&& !old(self)@.contains_key(*key) || forall|t: T| #[trigger] t.as_node() != old(self)@[*key]
                    &&& final(self).entries() =~= old(self).entries()
                },
            },
    {
        match self.index_of(*key) {
            None => None,
            Some(pos) => {
                proof {
                    lemma_map_of_at(self.entries(), pos as int);
                }
                let ghost s0 = self.nodes@;
                let ghost n0 = s0[pos as int].1;
                let entry = &mut self.nodes[pos];
                let r = concrete_node_mut::<T>(&mut entry.1);
                proof {
                    if r is Some {
                        let n1 = T::with_data(n0, *final(r->0));
                        lemma_map_of_update(s0, pos as int, n1);
                        assert(map_of(s0)[*key] == n0);
                        lemma_ids_agree_insert(map_of(s0), *key, n1);
                    } else {
                        assert(s0.update(pos as int, (*key, n0)) =~= s0);
                    }
                }
                r
            },
        }
    }
}

/// Pushing a node whose identifier is already held replaces that entry
/// whole: the same identifiers are held, and the identifier gives the new
/// node and nothing of the old one.
pub proof fn lemma_push_overwrites(before: Map<u128, Node>, node: Node)
    requires
        before.contains_key(node.id()),
    ensures
        before.insert(node.id(), node).dom() == before.dom(),
        before.insert(node.id(), node)[node.id()] == node,
        forall|k: u128| k != node.id() && #[trigger] before.contains_key(k) ==> before.insert(node.id(), node)[k] == before[k],
{
    assert(before.insert(node.id(), node).dom() =~= before.dom());
}

} // verus!

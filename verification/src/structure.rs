//! A bidirectional mapping between external 64-bit node ids and dense
//! 0-based internal indices, used to address graph nodes.

use std::collections::HashMap;

use vstd::prelude::*;

verus! {

/// No id occurs twice in `ids`.
pub open spec fn distinct_ids(ids: Seq<i64>) -> bool {
    forall|i: int, j: int| 0 <= i < j < ids.len() ==> ids[i] != ids[j]
}

/// A bijection between the ids stored so far and `0 .. len`: an id's
/// index is its position in insertion order, first-seen-wins.
pub struct NodeMap {
    pub(crate) ids: Vec<i64>,
    pub(crate) index: HashMap<i64, usize>,
}

impl NodeMap {
    /// The ids in index order: the id at position `i` has index `i`.
    pub open(crate) spec fn spec_ids(&self) -> Seq<i64> {
        self.ids@
    }

    /// The index maps exactly the stored ids, each to its position.
    pub open(crate) spec fn wf(&self) -> bool {
        &&& forall|i: int|
            0 <= i < self.ids@.len() ==> {
                &&& self.index@.contains_key(#[trigger] self.ids@[i])
                &&& self.index@[self.ids@[i]] == i
            }
        &&& forall|k: i64|
            #[trigger] self.index@.contains_key(k) ==> self.index@[k] < self.ids@.len()
                && self.ids@[self.index@[k] as int] == k
    }

    pub proof fn lemma_wf_distinct(&self)
        requires
            self.wf(),
        ensures
            distinct_ids(self.spec_ids()),
    {
        assert forall|i: int, j: int| 0 <= i < j < self.ids@.len() implies self.ids@[i]
            != self.ids@[j] by {
            assert(self.index@[self.ids@[i]] == i);
            assert(self.index@[self.ids@[j]] == j);
        }
    }

    /// An empty mapping.
    pub fn new() -> (r: NodeMap)
        ensures
            r.wf(),
            r.spec_ids() == Seq::<i64>::empty(),
    {
        NodeMap { ids: Vec::new(), index: HashMap::new() }
    }

    /// How many ids have been assigned indices.
    pub fn len(&self) -> (r: usize)
        ensures
            r == self.spec_ids().len(),
    {
        self.ids.len()
    }

    /// The index of `id`, assigning the next free index when `id` is new.
    pub fn get_or_insert(&mut self, id: i64) -> (r: usize)
        requires
            old(self).wf(),
            old(self).spec_ids().len() < usize::MAX,
        ensures
            final(self).wf(),
            (if old(self).spec_ids().contains(id) {
                final(self).spec_ids() == old(self).spec_ids()
            } else {
                final(self).spec_ids() == old(self).spec_ids().push(id)
            }),
            r < final(self).spec_ids().len(),
            final(self).spec_ids()[r as int] == id,
    {
        broadcast use vstd::std_specs::hash::group_hash_axioms;

        let found: Option<usize> = match self.index.get(&id) {
            Some(p) => Some(*p),
            None => None,
        };
        match found {
            Some(p) => {
                proof {
                    assert(old(self).spec_ids()[self.index@[id] as int] == id);
                }
                p
            },
            None => {
                let p = self.ids.len();
                proof {
                    if old(self).spec_ids().contains(id) {
                        let w = choose|w: int|
                            0 <= w < old(self).spec_ids().len() && old(self).spec_ids()[w] == id;
                        assert(self.index@.contains_key(old(self).ids@[w]));
                        assert(false);
                    }
                }
                self.ids.push(id);
                self.index.insert(id, p);
                p
            },
        }
    }

    /// The index of `id`, if one has been assigned.
    pub fn get(&self, id: i64) -> (r: Option<usize>)
        requires
            self.wf(),
        ensures
            (match r {
                Some(p) => p < self.spec_ids().len() && self.spec_ids()[p as int] == id,
                None => !self.spec_ids().contains(id),
            }),
    {
        broadcast use vstd::std_specs::hash::group_hash_axioms;

        match self.index.get(&id) {
            Some(p) => Some(*p),
            None => {
                proof {
                    if self.spec_ids().contains(id) {
                        let w = choose|w: int|
                            0 <= w < self.spec_ids().len() && self.spec_ids()[w] == id;
                        assert(self.index@.contains_key(self.ids@[w]));
                        assert(false);
                    }
                }
                None
            },
        }
    }

    /// The id assigned to index `i`.
    pub fn id_at(&self, i: usize) -> (r: i64)
        requires
            self.wf(),
            i < self.spec_ids().len(),
        ensures
            r == self.spec_ids()[i as int],
    {
        self.ids[i]
    }

    /// Translates internal indices back to external ids, in order; an
    /// index no id was assigned to makes the whole translation fail.
    pub fn translate(&self, path: &Vec<usize>) -> (r: Option<Vec<i64>>)
        requires
            self.wf(),
        ensures
            (match r {
                Some(v) => (forall|i: int|
                    0 <= i < path@.len() ==> #[trigger] path@[i] < self.spec_ids().len()) && v@
                    == path@.map_values(|p: usize| self.spec_ids()[p as int]),
                None => exists|i: int|
                    0 <= i < path@.len() && #[trigger] path@[i] >= self.spec_ids().len(),
            }),
    {
        let ghost target = path@.map_values(|p: usize| self.spec_ids()[p as int]);
        let mut out: Vec<i64> = Vec::new();
        for i in 0..path.len()
            invariant
                self.wf(),
                target == path@.map_values(|p: usize| self.spec_ids()[p as int]),
                out@ == target.take(i as int),
                forall|j: int| 0 <= j < i ==> #[trigger] path@[j] < self.spec_ids().len(),
        {
            let p = path[i];
            if p >= self.ids.len() {
                return None;
            }
            out.push(self.ids[p]);
            proof {
                assert(target.take(i as int).push(target[i as int]) =~= target.take(i as int + 1));
            }
        }
        proof {
            assert(target.take(path@.len() as int) =~= target);
        }
        Some(out)
    }

    /// Rebuilds a mapping from an id list in index order; fails iff the
    /// list repeats an id.
    pub fn from_ids(ids: Vec<i64>) -> (r: Option<NodeMap>)
        ensures
            (match r {
                Some(m) => m.wf() && m.spec_ids() == ids@ && distinct_ids(ids@),
                None => !distinct_ids(ids@),
            }),
    {
        broadcast use vstd::std_specs::hash::group_hash_axioms;

        let mut index: HashMap<i64, usize> = HashMap::new();
        for n in 0..ids.len()
            invariant
                forall|i: int|
                    0 <= i < n ==> {
                        &&& index@.contains_key(#[trigger] ids@[i])
                        &&& index@[ids@[i]] == i
                    },
                forall|k: i64|
                    #[trigger] index@.contains_key(k) ==> index@[k] < n && ids@[index@[k] as int]
                        == k,
                distinct_ids(ids@.take(n as int)),
        {
            let id = ids[n];
            match index.get(&id) {
                Some(_p) => {
                    proof {
                        let q = index@[id] as int;
                        assert(index@.contains_key(id));
                        assert(0 <= q < n && ids@[q] == id);
                        assert(ids@[q] == ids@[n as int]);
                    }
                    return None;
                },
                None => {
                    index.insert(id, n);
                    proof {
                        assert forall|i: int, j: int|
                            0 <= i < j < n as int + 1 implies #[trigger] ids@.take(n as int + 1)[i]
                            != #[trigger] ids@.take(n as int + 1)[j] by {
                            if j < n as int {
                                assert(ids@.take(n as int)[i] != ids@.take(n as int)[j]);
                            } else {
                                if ids@[i] == ids@[j] {
                                    assert(index@.contains_key(ids@[i]));
                                }
                            }
                        }
                    }
                },
            }
        }
        proof {
            assert(ids@.take(ids@.len() as int) =~= ids@);
        }
        Some(NodeMap { ids, index })
    }
}

} // verus!

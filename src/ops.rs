use vstd::prelude::*;
use crate::lex::{is_prefix, lemma_prefix_push};
use crate::tree::{Children, Listed, Node, Tree};

verus! {

/// Copies `id` with `k` appended.
fn extend_id(id: &Vec<usize>, k: usize) -> (r: Vec<usize>)
    ensures
        r@ == id@.push(k),
{
    let mut r: Vec<usize> = Vec::new();
    let mut i: usize = 0;
    while i < id.len()
        invariant
            i <= id.len(),
            r@ == id@.subrange(0, i as int),
        decreases id.len() - i,
    {
        r.push(id[i]);
        proof {
            assert(id@.subrange(0, i + 1) =~= id@.subrange(0, i as int).push(id[i as int]));
        }
        i = i + 1;
    }
    assert(id@.subrange(0, id.len() as int) =~= id@);
    r.push(k);
    r
}

impl Tree {
    /// The same nodes and structure, and the same open flags.
    pub open spec fn same_but_deleted(&self, other: &Tree) -> bool {
        &&& self.same_shape(other)
        &&& self.open@ == other.open@
    }

    pub proof fn lemma_same_nodes_anc(&self, other: &Tree, a: int, v: int)
        requires
            self.nodes@ == other.nodes@,
        ensures
            self.is_anc(a, v) == other.is_anc(a, v),
        decreases v,
    {
        if v != a && 0 < v < self.len() && 0 <= self.parent(v) < v {
            self.lemma_same_nodes_anc(other, a, self.parent(v));
        }
    }

    pub proof fn lemma_same_shape_wf(&self, other: &Tree)
        requires
            self.wf(),
            other.same_shape(self),
        ensures
            other.wf(),
    {
        assert forall|i: int| 0 < i < other.len() implies #[trigger] other.node_ok(i) by {
            assert(self.node_ok(i));
        }
        assert forall|i: int| 0 <= i < other.len() implies #[trigger] other.kids_ok(i) by {
            assert(self.kids_ok(i));
            if other.loaded(i) {
                assert forall|k: int| 0 <= k < other.count(i) implies #[trigger] other.parent(
                    other.child(i, k),
                ) == i by {
                    assert(self.parent(self.child(i, k)) == i);
                }
            }
        }
    }

    /// `self` is `before` with `listing` cached as the entries of `p`: the
    /// old nodes and their flags are kept, `p` now points at the new nodes,
    /// appended in listing order, closed and not deleted, entry `k` named as
    /// listed and with the id of `p` followed by `k`.
    pub open spec fn listing_added(&self, before: &Tree, p: int, listing: Seq<Listed>) -> bool {
        &&& self.len() == before.len() + listing.len()
        &&& self.nodes@.subrange(0, before.len()) == before.nodes@
        &&& self.open@.subrange(0, before.len()) == before.open@
        &&& self.deleted@.subrange(0, before.len()) == before.deleted@
        &&& self.kids@ == before.kids@.update(
            p,
            Children::Loaded { first: before.nodes.len(), count: listing.len() as usize },
        ) + Seq::new(listing.len() as nat, |k: int| Children::NotLoaded)
        &&& forall|k: int|
            0 <= k < listing.len() ==> {
                let n = #[trigger] self.nodes@[before.len() + k];
                &&& n.name == listing[k].name
                &&& n.is_file == listing[k].is_file
                &&& n.parent == p
                &&& n.id@ == before.id(p).push(k as usize)
                &&& !self.open@[before.len() + k]
                &&& !self.deleted@[before.len() + k]
            }
    }

    /// A tree holding only the root directory, open and not yet listed.
    pub fn with_root(name: String) -> (t: Tree)
        ensures
            t.wf(),
            t.len() == 1,
            t.nodes@[0].name == name,
            t.nodes@[0].parent == 0,
            !t.nodes@[0].is_file,
            !t.loaded(0),
            t.is_open(0),
            !t.is_deleted(0),
    {
        let mut id: Vec<usize> = Vec::new();
        id.push(0);
        let mut nodes: Vec<Node> = Vec::new();
        nodes.push(Node { id, name, is_file: false, parent: 0 });
        let mut kids: Vec<Children> = Vec::new();
        kids.push(Children::NotLoaded);
        let mut open: Vec<bool> = Vec::new();
        open.push(true);
        let mut deleted: Vec<bool> = Vec::new();
        deleted.push(false);
        let t = Tree { nodes, kids, open, deleted };
        assert(t.id(0) =~= seq![0usize]);
        assert(t.kids_ok(0));
        t
    }

    /// Caches a directory's listing as its entries, once: a directory that
    /// was already listed keeps its entries. New entries are closed and not
    /// deleted, and entry `k` gets the id of `p` followed by `k`.
    pub fn load_children(&mut self, p: usize, listing: &Vec<Listed>)
        requires
            old(self).wf(),
            p < old(self).len(),
            old(self).len() + listing.len() <= usize::MAX,
        ensures
            final(self).wf(),
            old(self).loaded(p as int) ==> *final(self) == *old(self),
            !old(self).loaded(p as int) ==> final(self).listing_added(old(self), p as int, listing@),
    {
        if let Children::Loaded { .. } = self.kids[p] {
            return;
        }
        let ghost t0 = *self;
        let n0 = self.nodes.len();
        let count = listing.len();
        let mut k: usize = 0;
        while k < count
            invariant
                t0.wf(),
                p < t0.len(),
                !t0.loaded(p as int),
                n0 == t0.len(),
                count == listing.len(),
                n0 + count <= usize::MAX,
                k <= count,
                self.nodes.len() == n0 + k,
                self.kids.len() == n0 + k,
                self.open.len() == n0 + k,
                self.deleted.len() == n0 + k,
                self.nodes@.subrange(0, n0 as int) == t0.nodes@,
                self.kids@ == t0.kids@ + Seq::new(k as nat, |j: int| Children::NotLoaded),
                self.open@.subrange(0, n0 as int) == t0.open@,
                self.deleted@.subrange(0, n0 as int) == t0.deleted@,
                forall|j: int|
                    0 <= j < k ==> {
                        let n = #[trigger] self.nodes@[n0 + j];
                        &&& n.name == listing@[j].name
                        &&& n.is_file == listing@[j].is_file
                        &&& n.parent == p
                        &&& n.id@ == t0.id(p as int).push(j as usize)
                        &&& !self.open@[n0 + j]
                        &&& !self.deleted@[n0 + j]
                    },
            decreases count - k,
        {
            assert(self.nodes@[p as int] == t0.nodes@[p as int]);
            let id = extend_id(&self.nodes[p].id, k);
            let node = Node {
                id,
                name: listing[k].name.clone(),
                is_file: listing[k].is_file,
                parent: p,
            };
            self.nodes.push(node);
            self.kids.push(Children::NotLoaded);
            self.open.push(false);
            self.deleted.push(false);
            proof {
                assert(self.nodes@.subrange(0, n0 as int) =~= t0.nodes@);
                assert(self.open@.subrange(0, n0 as int) =~= t0.open@);
                assert(self.deleted@.subrange(0, n0 as int) =~= t0.deleted@);
                assert(self.kids@ =~= t0.kids@ + Seq::new((k + 1) as nat, |j: int| Children::NotLoaded));
            }
            k = k + 1;
        }
        self.kids.set(p, Children::Loaded { first: n0, count });
        proof {
            assert(self.kids@ =~= t0.kids@.update(
                p as int,
                Children::Loaded { first: n0, count },
            ) + Seq::new(count as nat, |j: int| Children::NotLoaded));
            assert forall|i: int| 0 <= i < n0 implies self.nodes@[i] == t0.nodes@[i]
                && self.open@[i] == t0.open@[i] && self.deleted@[i] == t0.deleted@[i] by {
                assert(self.nodes@.subrange(0, n0 as int)[i] == self.nodes@[i]);
                assert(self.open@.subrange(0, n0 as int)[i] == self.open@[i]);
                assert(self.deleted@.subrange(0, n0 as int)[i] == self.deleted@[i]);
            }
            assert(self.id(0) == t0.id(0));
            assert forall|i: int| 0 < i < self.len() implies #[trigger] self.node_ok(i) by {
                if i < n0 {
                    assert(t0.node_ok(i));
                    let q = t0.parent(i);
                    assert(q != p);
                    assert(self.kids@[q] == t0.kids@[q]);
                } else {
                    assert(self.nodes@[n0 + (i - n0)] == self.nodes@[i]);
                }
            }
            assert forall|i: int| 0 <= i < self.len() implies #[trigger] self.kids_ok(i) by {
                if i < n0 && i != p {
                    assert(t0.kids_ok(i));
                    assert(self.kids@[i] == t0.kids@[i]);
                    if self.loaded(i) {
                        assert forall|j: int| 0 <= j < self.count(i) implies #[trigger] self.parent(
                            self.child(i, j),
                        ) == i by {
                            assert(t0.parent(t0.child(i, j)) == i);
                        }
                    }
                } else if i == p {
                    assert forall|j: int| 0 <= j < self.count(i) implies #[trigger] self.parent(
                        self.child(i, j),
                    ) == i by {
                        assert(self.nodes@[n0 + j].parent == p);
                    }
                } else {
                    assert(self.kids@[i] == Children::NotLoaded);
                }
            }
        }
    }

    /// Sets the open flag of one node; nothing else changes.
    pub fn set_open(&mut self, i: usize, open: bool)
        requires
            old(self).wf(),
            i < old(self).len(),
        ensures
            final(self).wf(),
            final(self).same_shape(old(self)),
            final(self).deleted@ == old(self).deleted@,
            final(self).open@ == old(self).open@.update(i as int, open),
    {
        let ghost t0 = *self;
        self.open.set(i, open);
        proof {
            t0.lemma_same_shape_wf(self);
        }
    }

    /// Sets the deleted flag on `a` and on every node below it.
    pub fn mark_subtree(&mut self, a: usize, flag: bool)
        requires
            old(self).wf(),
            a < old(self).len(),
        ensures
            final(self).wf(),
            final(self).same_but_deleted(old(self)),
            forall|v: int|
                0 <= v < old(self).len() ==> #[trigger] final(self).deleted@[v] == if old(
                    self,
                ).is_anc(a as int, v) {
                    flag
                } else {
                    old(self).deleted@[v]
                },
        decreases old(self).len() - a,
    {
        let ghost t0 = *self;
        self.deleted.set(a, flag);
        proof {
            t0.lemma_same_shape_wf(self);
        }
        match self.kids[a] {
            Children::NotLoaded => {
                proof {
                    assert forall|v: int| 0 <= v < t0.len() && t0.is_anc(a as int, v) implies v
                        == a by {
                        if v != a {
                            t0.lemma_step_down(a as int, v);
                        }
                    }
                }
            },
            Children::Loaded { first, count } => {
                proof {
                    assert(t0.kids_ok(a as int));
                }
                let ghost ia = t0.id(a as int);
                let mut k: usize = 0;
                while k < count
                    invariant
                        t0.wf(),
                        a < t0.len(),
                        self.wf(),
                        self.same_but_deleted(&t0),
                        t0.kids@[a as int] == (Children::Loaded { first, count }),
                        first + count <= t0.len(),
                        ia == t0.id(a as int),
                        t0.len() == old(self).len(),
                        k <= count,
                        forall|v: int|
                            0 <= v < t0.len() ==> #[trigger] self.deleted@[v] == if t0.is_anc(
                                a as int,
                                v,
                            ) && (v == a || t0.id(v)[ia.len() as int] < k) {
                                flag
                            } else {
                                t0.deleted@[v]
                            },
                    decreases count - k,
                {
                    let ghost t1 = *self;
                    let c = first + k;
                    proof {
                        t0.lemma_child(a as int, k as int);
                        assert(self.nodes@.len() == t0.nodes@.len());
                        assert(c > a);
                    }
                    self.mark_subtree(c, flag);
                    proof {
                        assert forall|v: int| 0 <= v < t0.len() implies #[trigger] self.deleted@[v]
                            == if t0.is_anc(a as int, v) && (v == a || t0.id(v)[ia.len() as int]
                            < k + 1) {
                            flag
                        } else {
                            t0.deleted@[v]
                        } by {
                            t1.lemma_same_nodes_anc(&t0, c as int, v);
                            if t0.is_anc(c as int, v) {
                                t0.lemma_anc_transitive(a as int, c as int, v);
                                t0.lemma_anc_prefix(c as int, v);
                                lemma_prefix_push(ia, k);
                                assert(t0.id(v)[ia.len() as int] == t0.id(c as int)[ia.len() as int]);
                            } else if t0.is_anc(a as int, v) && v != a {
                                t0.lemma_step_down(a as int, v);
                            }
                        }
                    }
                    k = k + 1;
                }
                proof {
                    assert forall|v: int| 0 <= v < t0.len() && t0.is_anc(a as int, v) && v != a implies t0.id(
                        v,
                    )[ia.len() as int] < count by {
                        t0.lemma_step_down(a as int, v);
                    }
                }
            },
        }
    }

    /// Opens every ancestor of `i` below the root, and tells whether one of
    /// them is deleted.
    pub fn open_ancestors(&mut self, i: usize) -> (hit_deleted: bool)
        requires
            old(self).wf(),
            i < old(self).len(),
        ensures
            final(self).wf(),
            final(self).same_shape(old(self)),
            final(self).deleted@ == old(self).deleted@,
            forall|a: int|
                0 <= a < old(self).len() ==> #[trigger] final(self).open@[a] == (old(self).open@[a]
                    || (old(self).is_anc(a, i as int) && a != i && a != 0)),
            hit_deleted == exists|a: int|
                0 < a < old(self).len() && a != i && old(self).is_anc(a, i as int)
                    && #[trigger] old(self).deleted@[a],
    {
        let ghost t0 = *self;
        if i == 0 {
            proof {
                assert forall|a: int| 0 <= a < t0.len() && t0.is_anc(a, i as int) implies a == 0 by {}
            }
            return false;
        }
        let mut cur: usize = self.nodes[i].parent;
        let mut hit = false;
        proof {
            assert(t0.node_ok(i as int));
            assert(t0.is_anc(cur as int, cur as int));
            assert(t0.is_anc(cur as int, i as int));
        }
        while cur != 0
            invariant
                t0.wf(),
                0 < i < t0.len(),
                self.wf(),
                self.same_shape(&t0),
                self.deleted@ == t0.deleted@,
                cur < i,
                t0.is_anc(cur as int, i as int),
                forall|a: int|
                    0 <= a < t0.len() ==> #[trigger] self.open@[a] == (t0.open@[a] || (t0.is_anc(
                        a,
                        i as int,
                    ) && a != i && !t0.is_anc(a, cur as int))),
                hit == exists|a: int|
                    0 < a < t0.len() && a != i && t0.is_anc(a, i as int) && !t0.is_anc(
                        a,
                        cur as int,
                    ) && #[trigger] t0.deleted@[a],
            decreases cur,
        {
            let ghost t1 = *self;
            let ghost hit0 = hit;
            self.open.set(cur, true);
            if self.deleted[cur] {
                hit = true;
            }
            let up = self.nodes[cur].parent;
            proof {
                t1.lemma_same_shape_wf(self);
                assert(t0.node_ok(cur as int));
                assert(t0.is_anc(up as int, up as int));
                assert(t0.is_anc(up as int, cur as int));
                t0.lemma_anc_transitive(up as int, cur as int, i as int);
                assert forall|a: int| 0 <= a < t0.len() && t0.is_anc(a, cur as int) implies (a
                    == cur || t0.is_anc(a, up as int)) && (a == cur ==> !t0.is_anc(a, up as int)) by {
                    if a == cur {
                        if t0.is_anc(a, up as int) {
                            t0.lemma_anc_prefix(a, up as int);
                        }
                    }
                }
                assert forall|a: int| 0 <= a < t0.len() && t0.is_anc(a, up as int) implies t0.is_anc(
                    a,
                    cur as int,
                ) by {
                    t0.lemma_anc_transitive(a, up as int, cur as int);
                }
                if hit && !hit0 {
                    assert(t0.deleted@[cur as int]);
                    t0.lemma_anc_transitive(cur as int, cur as int, i as int);
                }
            }
            cur = up;
        }
        proof {
            assert forall|a: int| 0 <= a < t0.len() implies (t0.is_anc(a, 0) <==> a == 0) by {}
        }
        hit
    }

    /// The node whose id is `id`, if the tree holds one.
    pub fn get(&self, id: &Vec<usize>) -> (r: Option<usize>)
        requires
            self.wf(),
        ensures
            r matches Some(i) ==> i < self.len() && self.id(i as int) == id@,
            r is None ==> forall|i: int| 0 <= i < self.len() ==> self.id(i) != id@,
    {
        if id.len() == 0 || id[0] != 0 {
            proof {
                assert forall|i: int| 0 <= i < self.len() implies self.id(i) != id@ by {
                    self.lemma_id_len(i);
                }
            }
            return None;
        }
        let mut p: usize = 0;
        let mut m: usize = 1;
        proof {
            assert(id@.subrange(0, 1) =~= seq![0usize]);
            assert forall|i: int| 0 <= i < self.len() && self.id(i) == id@ implies self.is_anc(
                0,
                i,
            ) by {
                self.lemma_anc_root(i);
            }
        }
        while m < id.len()
            invariant
                self.wf(),
                p < self.len(),
                1 <= m <= id.len(),
                self.id(p as int) == id@.subrange(0, m as int),
                forall|i: int|
                    0 <= i < self.len() && self.id(i) == id@ ==> self.is_anc(p as int, i),
            decreases id.len() - m,
        {
            let c = id[m];
            match self.kids[p] {
                Children::Loaded { first, count } if c < count => {
                    proof {
                        self.lemma_child(p as int, c as int);
                        assert(id@.subrange(0, m + 1) =~= id@.subrange(0, m as int).push(c));
                        assert forall|i: int| 0 <= i < self.len() && self.id(i) == id@ implies self.is_anc(
                            first + c,
                            i,
                        ) by {
                            self.lemma_step_down(p as int, i);
                        }
                    }
                    p = first + c;
                },
                _ => {
                    proof {
                        assert forall|i: int| 0 <= i < self.len() implies self.id(i) != id@ by {
                            if self.id(i) == id@ {
                                self.lemma_step_down(p as int, i);
                            }
                        }
                    }
                    return None;
                },
            }
            m = m + 1;
        }
        assert(id@.subrange(0, m as int) =~= id@);
        Some(p)
    }
}

} // verus!

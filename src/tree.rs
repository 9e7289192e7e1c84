use vstd::prelude::*;
use crate::lex::{is_prefix, lemma_prefix_push, lemma_prefix_transitive};

verus! {

/// Whether a directory's entries have been read, and if so where they sit in
/// the arena: entry `k` of the directory is node `first + k`.
#[derive(Clone, Copy, Debug, PartialEq, Eq, Structural)]
pub enum Children {
    NotLoaded,
    Loaded { first: usize, count: usize },
}

/// One filesystem object of the browsed tree.
#[derive(Debug)]
pub struct Node {
    /// Sibling indices from the root: the root is `[0]`, the third entry of
    /// the root `[0, 2]`.
    pub id: Vec<usize>,
    pub name: String,
    pub is_file: bool,
    /// Arena index of the parent directory (the root points at itself).
    pub parent: usize,
}

/// One entry of a directory listing, in the order the directory was read.
#[derive(Clone, Debug)]
pub struct Listed {
    pub name: String,
    pub is_file: bool,
}

/// Which nodes `entries` reports.
#[derive(Clone, Copy, Debug, PartialEq, Eq, Structural)]
pub enum Visibility {
    /// What the browser shows: nodes outside deleted subtrees, below open
    /// directories only.
    Visible,
    /// The topmost node of each deleted subtree.
    Deleted,
    /// Every loaded node.
    All,
}

/// The lazily loaded tree: an arena of nodes with their display flags.
/// Node 0 is the root, which is never shown itself.
pub struct Tree {
    pub nodes: Vec<Node>,
    pub kids: Vec<Children>,
    pub open: Vec<bool>,
    pub deleted: Vec<bool>,
}

impl Tree {
    pub open spec fn len(&self) -> int {
        self.nodes.len() as int
    }

    pub open spec fn parent(&self, i: int) -> int {
        self.nodes@[i].parent as int
    }

    pub open spec fn id(&self, i: int) -> Seq<usize> {
        self.nodes@[i].id@
    }

    pub open spec fn loaded(&self, i: int) -> bool {
        self.kids@[i] is Loaded
    }

    pub open spec fn first(&self, i: int) -> int {
        match self.kids@[i] {
            Children::Loaded { first, .. } => first as int,
            Children::NotLoaded => 0,
        }
    }

    pub open spec fn count(&self, i: int) -> int {
        match self.kids@[i] {
            Children::Loaded { count, .. } => count as int,
            Children::NotLoaded => 0,
        }
    }

    /// Arena index of entry `k` of directory `i`.
    pub open spec fn child(&self, i: int, k: int) -> int {
        self.first(i) + k
    }

    pub open spec fn is_open(&self, i: int) -> bool {
        self.open@[i]
    }

    pub open spec fn is_deleted(&self, i: int) -> bool {
        self.deleted@[i]
    }

    pub open spec fn node_ok(&self, i: int) -> bool {
        let p = self.parent(i);
        &&& 0 <= p < i
        &&& self.loaded(p)
        &&& self.first(p) <= i < self.first(p) + self.count(p)
        &&& self.id(i) == self.id(p).push((i - self.first(p)) as usize)
    }

    pub open spec fn kids_ok(&self, i: int) -> bool {
        self.loaded(i) ==> {
            &&& i < self.first(i)
            &&& self.first(i) + self.count(i) <= self.len()
            &&& forall|k: int| 0 <= k < self.count(i) ==> #[trigger] self.parent(self.child(i, k)) == i
        }
    }

    /// The arena describes a tree rooted at node 0 whose ids follow the
    /// directory structure.
    pub open spec fn wf(&self) -> bool {
        &&& self.nodes.len() >= 1
        &&& self.kids.len() == self.nodes.len()
        &&& self.open.len() == self.nodes.len()
        &&& self.deleted.len() == self.nodes.len()
        &&& self.id(0) == seq![0usize]
        &&& forall|i: int| 0 < i < self.len() ==> #[trigger] self.node_ok(i)
        &&& forall|i: int| 0 <= i < self.len() ==> #[trigger] self.kids_ok(i)
    }

    /// `a` is `v` or one of its ancestors.
    pub open spec fn is_anc(&self, a: int, v: int) -> bool
        decreases v,
    {
        if v == a {
            true
        } else if v <= 0 || v >= self.len() {
            false
        } else {
            let p = self.parent(v);
            if 0 <= p < v {
                self.is_anc(a, p)
            } else {
                false
            }
        }
    }

    /// The ancestor of `v` whose id has length `m`.
    pub open spec fn anc_at(&self, v: int, m: int) -> int
        decreases v,
    {
        if self.id(v).len() <= m || v <= 0 || v >= self.len() {
            v
        } else {
            let p = self.parent(v);
            if 0 <= p < v {
                self.anc_at(p, m)
            } else {
                v
            }
        }
    }

    /// Whether `v` itself is reported under the policy.
    pub open spec fn includes(&self, pol: Visibility, v: int) -> bool {
        match pol {
            Visibility::Visible => !self.is_deleted(v),
            Visibility::Deleted => self.is_deleted(v),
            Visibility::All => true,
        }
    }

    /// Whether the entries of `a` are looked at under the policy.
    pub open spec fn descends(&self, pol: Visibility, a: int) -> bool {
        match pol {
            Visibility::Visible => self.is_open(a) && !self.is_deleted(a),
            Visibility::Deleted => !self.is_deleted(a),
            Visibility::All => true,
        }
    }

    /// `a` and all its ancestors let the policy look below them.
    pub open spec fn path_ok(&self, pol: Visibility, a: int) -> bool
        decreases a,
    {
        if !(0 <= a < self.len()) {
            false
        } else if a == 0 {
            self.descends(pol, 0)
        } else {
            let p = self.parent(a);
            self.descends(pol, a) && 0 <= p < a && self.path_ok(pol, p)
        }
    }

    /// `v` belongs to the listing under the policy.
    pub open spec fn listed(&self, pol: Visibility, v: int) -> bool {
        0 < v < self.len() && self.includes(pol, v) && self.path_ok(pol, self.parent(v))
    }

    /// `v` is visible in the browser.
    pub open spec fn shown(&self, v: int) -> bool {
        self.listed(Visibility::Visible, v)
    }

    /// Every ancestor of `v` is open and not deleted; `v` itself may be
    /// deleted.
    pub open spec fn reachable(&self, v: int) -> bool {
        0 < v < self.len() && self.path_ok(Visibility::Visible, self.parent(v))
    }

    /// The same nodes and structure, whatever the flags.
    pub open spec fn same_shape(&self, other: &Tree) -> bool {
        &&& self.nodes@ == other.nodes@
        &&& self.kids@ == other.kids@
        &&& self.open.len() == other.open.len()
        &&& self.deleted.len() == other.deleted.len()
    }

    pub proof fn lemma_child(&self, p: int, k: int)
        requires
            self.wf(),
            0 <= p < self.len(),
            self.loaded(p),
            0 <= k < self.count(p),
        ensures
            p < self.child(p, k) < self.len(),
            self.parent(self.child(p, k)) == p,
            self.id(self.child(p, k)) == self.id(p).push(k as usize),
            self.is_anc(p, self.child(p, k)),
    {
        let c = self.child(p, k);
        assert(self.kids_ok(p));
        assert(self.parent(self.child(p, k)) == p);
        assert(self.node_ok(c));
        assert(self.is_anc(p, p));
    }

    pub proof fn lemma_id_len(&self, v: int)
        requires
            self.wf(),
            0 <= v < self.len(),
        ensures
            self.id(v).len() >= 1,
            v > 0 ==> self.id(v).len() >= 2,
            self.id(v)[0] == 0,
        decreases v,
    {
        if v > 0 {
            assert(self.node_ok(v));
            self.lemma_id_len(self.parent(v));
        }
    }

    pub proof fn lemma_anc_root(&self, v: int)
        requires
            self.wf(),
            0 <= v < self.len(),
        ensures
            self.is_anc(0, v),
        decreases v,
    {
        if v > 0 {
            assert(self.node_ok(v));
            self.lemma_anc_root(self.parent(v));
        }
    }

    pub proof fn lemma_anc_prefix(&self, a: int, v: int)
        requires
            self.wf(),
            0 <= a < self.len(),
            0 <= v < self.len(),
            self.is_anc(a, v),
        ensures
            is_prefix(self.id(a), self.id(v)),
            a != v ==> self.id(a).len() < self.id(v).len(),
            a <= v,
        decreases v,
    {
        if v != a {
            let p = self.parent(v);
            assert(self.node_ok(v));
            self.lemma_anc_prefix(a, p);
            lemma_prefix_push(self.id(p), (v - self.first(p)) as usize);
            lemma_prefix_transitive(self.id(a), self.id(p), self.id(v));
        } else {
            assert(self.id(v).subrange(0, self.id(v).len() as int) =~= self.id(v));
        }
    }

    pub proof fn lemma_anc_transitive(&self, a: int, b: int, c: int)
        requires
            self.wf(),
            self.is_anc(a, b),
            self.is_anc(b, c),
        ensures
            self.is_anc(a, c),
        decreases c,
    {
        if c != b {
            self.lemma_anc_transitive(a, b, self.parent(c));
        }
    }

    pub proof fn lemma_anc_at(&self, v: int, m: int)
        requires
            self.wf(),
            0 <= v < self.len(),
            1 <= m <= self.id(v).len(),
        ensures
            0 <= self.anc_at(v, m) < self.len(),
            self.is_anc(self.anc_at(v, m), v),
            self.id(self.anc_at(v, m)) == self.id(v).subrange(0, m),
        decreases v,
    {
        if self.id(v).len() <= m {
            assert(self.id(v).subrange(0, m) =~= self.id(v));
        } else {
            self.lemma_id_len(v);
            assert(v > 0) by {
                if v == 0 {
                    assert(self.id(0).len() == 1);
                }
            }
            let p = self.parent(v);
            assert(self.node_ok(v));
            self.lemma_anc_at(p, m);
            assert(self.id(p).subrange(0, m) =~= self.id(v).subrange(0, m));
            assert(self.is_anc(p, p));
            assert(self.is_anc(p, v));
            self.lemma_anc_transitive(self.anc_at(v, m), p, v);
        }
    }

    pub proof fn lemma_ids_unique(&self, i: int, j: int)
        requires
            self.wf(),
            0 <= i < self.len(),
            0 <= j < self.len(),
            self.id(i) == self.id(j),
        ensures
            i == j,
        decreases i + j,
    {
        self.lemma_id_len(i);
        self.lemma_id_len(j);
        if i > 0 && j > 0 {
            assert(self.node_ok(i));
            assert(self.node_ok(j));
            let pi = self.parent(i);
            let pj = self.parent(j);
            assert(self.id(pi) =~= self.id(i).drop_last());
            assert(self.id(pj) =~= self.id(j).drop_last());
            self.lemma_ids_unique(pi, pj);
            let li = self.id(i).len() - 1;
            assert(self.id(i)[li] == (i - self.first(pi)) as usize);
            assert(self.id(j)[li] == (j - self.first(pj)) as usize);
        }
    }

    /// A node whose id is a prefix of `v`'s id is an ancestor of `v`.
    pub proof fn lemma_prefix_anc(&self, a: int, v: int)
        requires
            self.wf(),
            0 <= a < self.len(),
            0 <= v < self.len(),
            is_prefix(self.id(a), self.id(v)),
        ensures
            self.is_anc(a, v),
    {
        self.lemma_id_len(a);
        let m = self.id(a).len() as int;
        self.lemma_anc_at(v, m);
        self.lemma_ids_unique(a, self.anc_at(v, m));
    }

    /// Below a proper ancestor `a` of `v`, the path to `v` goes through the
    /// entry of `a` named by `v`'s id.
    pub proof fn lemma_step_down(&self, a: int, v: int)
        requires
            self.wf(),
            0 <= a < self.len(),
            0 <= v < self.len(),
            self.is_anc(a, v),
            a != v,
        ensures
            self.id(a).len() < self.id(v).len(),
            self.loaded(a),
            0 <= self.id(v)[self.id(a).len() as int] < self.count(a),
            self.is_anc(self.child(a, self.id(v)[self.id(a).len() as int] as int), v),
        decreases v,
    {
        let p = self.parent(v);
        assert(self.node_ok(v));
        self.lemma_anc_prefix(a, v);
        if p == a {
            assert(self.id(v)[self.id(a).len() as int] == v - self.first(a));
        } else {
            self.lemma_step_down(a, p);
            self.lemma_anc_prefix(a, p);
            assert(self.id(v)[self.id(a).len() as int] == self.id(p)[self.id(a).len() as int]);
        }
    }

    /// The flags of every ancestor of a node on an admitted path let the
    /// policy through.
    pub proof fn lemma_path_anc(&self, pol: Visibility, q: int, a: int)
        requires
            self.wf(),
            self.path_ok(pol, q),
            self.is_anc(a, q),
        ensures
            self.descends(pol, a),
            self.path_ok(pol, a),
            0 <= a < self.len(),
        decreases q,
    {
        if q != a {
            self.lemma_path_anc(pol, self.parent(q), a);
        }
    }

    /// No node of a listing lies below an ancestor that hides it.
    pub proof fn lemma_listed_anc(&self, pol: Visibility, v: int, a: int)
        requires
            self.wf(),
            self.listed(pol, v),
            self.is_anc(a, v),
            a != v,
        ensures
            self.descends(pol, a),
    {
        assert(self.node_ok(v));
        self.lemma_path_anc(pol, self.parent(v), a);
    }
}

} // verus!

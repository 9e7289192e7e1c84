use vstd::prelude::*;
use crate::lex::{
    id_lt, lemma_lex_asymmetric, lemma_lex_irreflexive, lemma_lex_prefix_lt, lemma_lex_total, lemma_lex_transitive,
    lemma_lex_transitive_or_eq, lex_lt,
};
use crate::navigate::ids_increasing;
use crate::tree::{Children, Listed, Tree, Visibility};

verus! {

/// Where a range selection started: the node, and the cursor row and scroll
/// offset at that moment.
#[derive(Clone, Copy, Debug, PartialEq, Eq, Structural)]
pub struct Mark {
    pub node: usize,
    pub y: u16,
    pub skip: usize,
}

/// The nodes one action soft-deleted, in the order it reached them, and the
/// cursor, row and scroll offset just before the action.
#[derive(Clone, Debug)]
pub struct DeletionGroup {
    pub nodes: Vec<usize>,
    pub cursor: usize,
    pub y: u16,
    pub skip: usize,
}

/// A decoded key press.
#[derive(Clone, Copy, Debug, PartialEq, Eq, Structural)]
pub enum Key {
    Down,
    Up,
    Quit,
    Undo,
    Delete,
    Select,
    Cancel,
    Toggle,
}

#[derive(Clone, Copy, Debug, PartialEq, Eq, Structural)]
pub enum BrowserError {
    /// The browsed directory has no entries.
    EmptyDirectory,
    /// Every entry is deleted: nothing is left to put the cursor on.
    AllDeleted,
    /// Undo was asked with no deletion left to undo.
    NothingToUndo,
    /// Restoring a deletion met a deleted ancestor: the tree's bookkeeping
    /// is inconsistent.
    Inconsistent,
}

/// The interactive browser: the tree, the cursor (a node handle) with its
/// screen row and scroll offset, the pending selection and the undo stack.
pub struct State {
    pub tree: Tree,
    pub cursor: usize,
    pub y: u16,
    pub skip: usize,
    pub quit: bool,
    pub deletions: Vec<DeletionGroup>,
    pub selecting: Option<Mark>,
}

/// Some member of `g` is `v` or an ancestor of `v`.
pub open spec fn covered(t: Tree, g: Seq<usize>, v: int) -> bool {
    exists|j: int| 0 <= j < g.len() && #[trigger] t.is_anc(g[j] as int, v)
}

/// `a` is an ancestor of some member of `g`, strictly, and not the root.
pub open spec fn above_group(t: Tree, g: Seq<usize>, a: int) -> bool {
    exists|j: int| 0 <= j < g.len() && #[trigger] t.is_anc(a, g[j] as int) && a != g[j] && a != 0
}

/// Number of entries that are not set.
pub open spec fn live(s: Seq<bool>) -> nat
    decreases s.len(),
{
    if s.len() == 0 {
        0
    } else {
        live(s.drop_last()) + if s.last() {
            0nat
        } else {
            1nat
        }
    }
}

pub proof fn lemma_live_shrinks(s1: Seq<bool>, s2: Seq<bool>, i: int)
    requires
        s1.len() == s2.len(),
        forall|j: int| 0 <= j < s1.len() && #[trigger] s1[j] ==> s2[j],
        0 <= i < s1.len(),
        !s1[i],
        s2[i],
    ensures
        live(s2) < live(s1),
    decreases s1.len(),
{
    if i < s1.len() - 1 {
        lemma_live_shrinks(s1.drop_last(), s2.drop_last(), i);
    } else {
        lemma_live_mono(s1.drop_last(), s2.drop_last());
    }
}

pub proof fn lemma_live_mono(s1: Seq<bool>, s2: Seq<bool>)
    requires
        s1.len() == s2.len(),
        forall|j: int| 0 <= j < s1.len() && #[trigger] s1[j] ==> s2[j],
    ensures
        live(s2) <= live(s1),
    decreases s1.len(),
{
    if s1.len() > 0 {
        assert forall|j: int| 0 <= j < s1.drop_last().len() && #[trigger] s1.drop_last()[j] implies s2.drop_last()[j] by {
            assert(s1[j]);
        }
        lemma_live_mono(s1.drop_last(), s2.drop_last());
    }
}

impl Tree {
    /// Visibility only grows from `self` to `t`: an ancestor path admitted
    /// here is admitted there.
    pub proof fn lemma_path_mono(&self, t: &Tree, a: int)
        requires
            self.same_shape(t),
            forall|b: int|
                0 <= b < self.len() && #[trigger] self.descends(Visibility::Visible, b)
                    ==> t.descends(Visibility::Visible, b),
            self.path_ok(Visibility::Visible, a),
        ensures
            t.path_ok(Visibility::Visible, a),
        decreases a,
    {
        if a > 0 {
            self.lemma_path_mono(t, self.parent(a));
        }
    }

    /// An admitted path stays admitted when no flag on it changes.
    pub proof fn lemma_path_frame(&self, t: &Tree, a: int)
        requires
            self.wf(),
            self.same_shape(t),
            forall|b: int|
                0 <= b < self.len() && #[trigger] self.is_anc(b, a) ==> t.open@[b]
                    == self.open@[b] && t.deleted@[b] == self.deleted@[b],
            self.path_ok(Visibility::Visible, a),
        ensures
            t.path_ok(Visibility::Visible, a),
        decreases a,
    {
        assert(self.is_anc(a, a));
        if a > 0 {
            let p = self.parent(a);
            assert forall|b: int| 0 <= b < self.len() && #[trigger] self.is_anc(b, p) implies t.open@[b]
                == self.open@[b] && t.deleted@[b] == self.deleted@[b] by {
                assert(self.node_ok(a));
                assert(self.is_anc(b, a));
            }
            self.lemma_path_frame(t, p);
        }
    }

    /// Equal nodes, structure and flags.
    pub open spec fn same_views(&self, t: &Tree) -> bool {
        &&& self.nodes@ == t.nodes@
        &&& self.kids@ == t.kids@
        &&& self.open@ == t.open@
        &&& self.deleted@ == t.deleted@
    }

    pub proof fn lemma_same_views_pre(&self, t: &Tree, pol: Visibility, p: int, k: int)
        requires
            self.same_views(t),
        ensures
            self.pre(pol, p, k) == t.pre(pol, p, k),
        decreases self.len() - p, self.count(p) - k,
    {
        if 0 <= p < self.len() && self.loaded(p) && 0 <= k < self.count(p) {
            let c = self.child(p, k);
            if p < c < self.len() {
                self.lemma_same_views_pre(t, pol, c, 0);
                self.lemma_same_views_pre(t, pol, p, k + 1);
            }
        }
    }

    /// Where `t` only adds deletions to `t0`, a path admitted in `t0` but not
    /// in `t` runs through a node that `t` newly deleted.
    pub proof fn lemma_newly_blocked(t0: &Tree, t: &Tree, a: int) -> (b: int)
        requires
            t0.wf(),
            t.same_but_deleted(t0),
            t0.path_ok(Visibility::Visible, a),
            !t.path_ok(Visibility::Visible, a),
        ensures
            0 <= b < t0.len(),
            t0.is_anc(b, a),
            t.deleted@[b],
            !t0.deleted@[b],
        decreases a,
    {
        assert(t0.is_anc(a, a));
        if !t.descends(Visibility::Visible, a) {
            a
        } else {
            let p = t0.parent(a);
            let b = Tree::lemma_newly_blocked(t0, t, p);
            assert(t0.is_anc(b, a));
            b
        }
    }

    /// Where `t` only adds deletions to `t0`, a node shown in `t0` but not in
    /// `t` lies at or below a node that `t` newly deleted.
    pub proof fn lemma_newly_hidden(t0: &Tree, t: &Tree, w: int) -> (b: int)
        requires
            t0.wf(),
            t.same_but_deleted(t0),
            t0.shown(w),
            !t.shown(w),
        ensures
            0 <= b < t0.len(),
            t0.is_anc(b, w),
            t.deleted@[b],
            !t0.deleted@[b],
    {
        assert(t0.is_anc(w, w));
        if t.deleted@[w] {
            w
        } else {
            assert(t0.node_ok(w));
            let b = Tree::lemma_newly_blocked(t0, t, t0.parent(w));
            assert(t0.is_anc(b, w));
            b
        }
    }

    /// Whether every ancestor of `i` is open and not deleted.
    pub fn is_reachable(&self, i: usize) -> (r: bool)
        requires
            self.wf(),
            i < self.len(),
        ensures
            r == self.reachable(i as int),
    {
        if i == 0 {
            return false;
        }
        proof {
            assert(self.node_ok(i as int));
        }
        let mut a = self.nodes[i].parent;
        while a != 0
            invariant
                self.wf(),
                0 < i < self.len(),
                a < self.len(),
                self.reachable(i as int) == self.path_ok(Visibility::Visible, a as int),
            decreases a,
        {
            if !self.open[a] || self.deleted[a] {
                return false;
            }
            proof {
                assert(self.node_ok(a as int));
            }
            a = self.nodes[a].parent;
        }
        self.open[0] && !self.deleted[0]
    }
}

/// A node that was shown before a deletion and is hidden after it lies
/// below one of the deleted nodes.
pub proof fn lemma_hidden_is_covered(t0: &Tree, t: &Tree, g: Seq<usize>, w: int)
    requires
        t0.wf(),
        t.same_but_deleted(t0),
        forall|v: int|
            0 <= v < t0.len() ==> #[trigger] t.deleted@[v] == (t0.deleted@[v] || covered(*t0, g, v)),
        t0.shown(w),
        !t.shown(w),
    ensures
        covered(*t0, g, w),
{
    let b = Tree::lemma_newly_hidden(t0, t, w);
    assert(t.deleted@[b]);
    let j = choose|j: int| 0 <= j < g.len() && #[trigger] t0.is_anc(g[j] as int, b);
    t0.lemma_anc_transitive(g[j] as int, b, w);
    assert(t0.is_anc(g[j] as int, w));
}

impl State {
    pub open spec fn wf(&self) -> bool {
        &&& self.tree.wf()
        &&& self.tree.reachable(self.cursor as int)
        &&& self.y >= 1
        &&& self.selecting matches Some(m) ==> m.node < self.tree.len() && m.y >= 1
        &&& forall|i: int|
            0 <= i < self.deletions.len() ==> {
                let g = #[trigger] self.deletions@[i];
                &&& g.cursor < self.tree.len()
                &&& g.y >= 1
                &&& forall|j: int| 0 <= j < g.nodes.len() ==> g.nodes@[j] < self.tree.len()
            }
    }

    /// A browser on a directory with the given listing: the root is open and
    /// the cursor is on its first entry, on the first row.
    pub fn new(name: String, listing: &Vec<Listed>) -> (r: Result<State, BrowserError>)
        requires
            listing.len() < usize::MAX,
        ensures
            listing.len() == 0 <==> r == Err::<State, BrowserError>(BrowserError::EmptyDirectory),
            listing.len() > 0 <==> r is Ok,
            r matches Ok(s) ==> {
                &&& s.wf()
                &&& s.tree.len() == listing.len() + 1
                &&& s.tree.nodes@[0].name == name
                &&& s.tree.kids@[0] == (Children::Loaded { first: 1, count: listing.len() })
                &&& forall|k: int|
                    0 <= k < listing.len() ==> {
                        let n = #[trigger] s.tree.nodes@[1 + k];
                        &&& n.name == listing@[k].name
                        &&& n.is_file == listing@[k].is_file
                        &&& n.id@ == seq![0usize, k as usize]
                    }
                &&& s.tree.is_open(0)
                &&& forall|i: int| 0 < i < s.tree.len() ==> !s.tree.is_open(i)
                &&& forall|i: int| 0 <= i < s.tree.len() ==> !s.tree.is_deleted(i)
                &&& s.cursor == 1
                &&& s.y == 1
                &&& s.skip == 0
                &&& !s.quit
                &&& s.deletions.len() == 0
                &&& s.selecting is None
            },
    {
        if listing.len() == 0 {
            return Err(BrowserError::EmptyDirectory);
        }
        let mut tree = Tree::with_root(name);
        tree.load_children(0, listing);
        proof {
            assert(tree.nodes@[0] == tree.nodes@.subrange(0, 1)[0]);
            assert(tree.open@[0] == tree.open@.subrange(0, 1)[0]);
            assert(tree.deleted@[0] == tree.deleted@.subrange(0, 1)[0]);
            assert forall|k: int| 0 <= k < listing.len() implies (#[trigger] tree.nodes@[1 + k]).id@
                == seq![0usize, k as usize] by {
                assert(tree.nodes@[1 + k].id@ =~= seq![0usize].push(k as usize));
            }
            assert forall|i: int| 0 < i < tree.len() implies !tree.is_open(i) && !tree.is_deleted(i) by {
                assert(tree.nodes@[1 + (i - 1)] == tree.nodes@[i]);
            }
            assert(tree.node_ok(1));
        }
        let s = State {
            tree,
            cursor: 1,
            y: 1,
            skip: 0,
            quit: false,
            deletions: Vec::new(),
            selecting: None,
        };
        Ok(s)
    }

    /// The directory under the cursor when it still has to be listed.
    pub fn listing_needed(&self) -> (r: Option<usize>)
        requires
            self.wf(),
        ensures
            r matches Some(i) ==> i == self.cursor && !self.tree.loaded(i as int)
                && !self.tree.nodes@[i as int].is_file,
            r is None ==> self.tree.loaded(self.cursor as int)
                || self.tree.nodes@[self.cursor as int].is_file,
    {
        let c = self.cursor;
        if self.tree.nodes[c].is_file {
            return None;
        }
        match self.tree.kids[c] {
            Children::NotLoaded => Some(c),
            Children::Loaded { .. } => None,
        }
    }

    /// Caches the listing of directory `i` (see `Tree::load_children`).
    pub fn load_listing(&mut self, i: usize, listing: &Vec<Listed>)
        requires
            old(self).wf(),
            i < old(self).tree.len(),
            old(self).tree.len() + listing.len() <= usize::MAX,
        ensures
            final(self).wf(),
            final(self).cursor == old(self).cursor,
            final(self).y == old(self).y,
            final(self).skip == old(self).skip,
            final(self).selecting == old(self).selecting,
            final(self).deletions@ == old(self).deletions@,
            final(self).quit == old(self).quit,
            old(self).tree.loaded(i as int) ==> final(self).tree == old(self).tree,
            !old(self).tree.loaded(i as int) ==> final(self).tree.listing_added(
                &old(self).tree,
                i as int,
                listing@,
            ),
    {
        let ghost t0 = self.tree;
        self.tree.load_children(i, listing);
        proof {
            if !t0.loaded(i as int) {
                self.lemma_reachable_after_load(t0, self.cursor as int);
            }
        }
    }

    proof fn lemma_reachable_after_load(&self, t0: Tree, c: int)
        requires
            t0.wf(),
            self.tree.wf(),
            t0.reachable(c),
            t0.len() <= self.tree.len(),
            self.tree.nodes@.subrange(0, t0.len()) == t0.nodes@,
            self.tree.open@.subrange(0, t0.len()) == t0.open@,
            self.tree.deleted@.subrange(0, t0.len()) == t0.deleted@,
        ensures
            self.tree.reachable(c),
    {
        let t1 = self.tree;
        assert(t0.node_ok(c));
        Self::lemma_prefix_path(t0, t1, t0.parent(c));
        assert(t1.nodes@[c] == t1.nodes@.subrange(0, t0.len())[c]);
    }

    proof fn lemma_prefix_path(t0: Tree, t1: Tree, a: int)
        requires
            t0.wf(),
            t1.wf(),
            t0.len() <= t1.len(),
            t1.nodes@.subrange(0, t0.len()) == t0.nodes@,
            t1.open@.subrange(0, t0.len()) == t0.open@,
            t1.deleted@.subrange(0, t0.len()) == t0.deleted@,
            t0.path_ok(Visibility::Visible, a),
        ensures
            t1.path_ok(Visibility::Visible, a),
        decreases a,
    {
        assert(t1.nodes@[a] == t1.nodes@.subrange(0, t0.len())[a]);
        assert(t1.open@[a] == t1.open@.subrange(0, t0.len())[a]);
        assert(t1.deleted@[a] == t1.deleted@.subrange(0, t0.len())[a]);
        if a > 0 {
            Self::lemma_prefix_path(t0, t1, t0.parent(a));
        }
    }

    /// The ends of the span a deletion covers, in id order: the selection's
    /// anchor (when it is still shown) and the cursor, or the cursor alone.
    pub open spec fn span(&self) -> (int, int) {
        let c = self.cursor as int;
        match self.selecting {
            Some(m) => if self.tree.shown(m.node as int) {
                if lex_lt(self.tree.id(m.node as int), self.tree.id(c)) {
                    (m.node as int, c)
                } else {
                    (c, m.node as int)
                }
            } else {
                (c, c)
            },
            None => (c, c),
        }
    }

    /// `after` is `before` after one deletion: a new undo group records the nodes
    /// it reached (each shown before, within the span) and the cursor, row
    /// and scroll offset from before; exactly the subtrees of those nodes
    /// became deleted; the selection is gone.
    /// The row and scroll offset a deletion starts from: the anchor's when
    /// the anchor comes first, the cursor's otherwise.
    pub open spec fn span_row(&self) -> (u16, usize) {
        match self.selecting {
            Some(m) => if self.tree.shown(m.node as int) && lex_lt(
                self.tree.id(m.node as int),
                self.tree.id(self.cursor as int),
            ) {
                (m.y, m.skip)
            } else {
                (self.y, self.skip)
            },
            None => (self.y, self.skip),
        }
    }

    /// Row `y2` and offset `s2` are one row up from `y` and `s`: the row moves
    /// up, or the list scrolls back when on the first row.
    pub open spec fn row_up(y: u16, s: usize, y2: u16, s2: usize) -> bool {
        &&& y == 1 && s > 0 ==> y2 == 1 && s2 == s - 1
        &&& y == 1 && s == 0 ==> y2 == 1 && s2 == 0
        &&& y > 1 ==> y2 == y - 1 && s2 == s
    }

    pub open spec fn deletion_done(before: &State, after: &State) -> bool {
        let g = after.deletions@.last();
        let (lo, hi) = before.span();
        &&& after.deletions@.len() == before.deletions@.len() + 1
        &&& after.deletions@.drop_last() == before.deletions@
        &&& g.cursor == before.cursor
        &&& g.y == before.y
        &&& g.skip == before.skip
        &&& g.nodes@.len() > 0
        &&& g.nodes@[0] == lo
        &&& ids_increasing(before.tree, g.nodes@)
        &&& forall|i: int, j: int|
            0 <= i < g.nodes@.len() && 0 <= j < g.nodes@.len() && i != j ==> !before.tree.is_anc(
                #[trigger] g.nodes@[i] as int,
                #[trigger] g.nodes@[j] as int,
            )
        &&& after.tree.same_but_deleted(&before.tree)
        &&& forall|v: int|
            0 <= v < before.tree.len() ==> #[trigger] after.tree.deleted@[v] == (before.tree.deleted@[v]
                || covered(before.tree, g.nodes@, v))
        &&& forall|j: int|
            0 <= j < g.nodes@.len() ==> {
                let n = #[trigger] g.nodes@[j] as int;
                &&& before.tree.shown(n)
                &&& !lex_lt(before.tree.id(n), before.tree.id(lo))
                &&& !lex_lt(before.tree.id(hi), before.tree.id(n))
            }
        &&& forall|w: int|
            #![trigger before.tree.shown(w)]
            before.tree.shown(w) && !lex_lt(before.tree.id(w), before.tree.id(lo)) && !lex_lt(
                before.tree.id(hi),
                before.tree.id(w),
            ) ==> covered(before.tree, g.nodes@, w)
        &&& after.selecting is None
        &&& after.quit == before.quit
    }

    /// `after` is `before` after undoing its last group: the group is popped, its
    /// subtrees are restored, the ancestors of its nodes are opened, and the
    /// row and scroll offset come back; the cursor comes back too when that
    /// node can be reached again.
    pub open spec fn undo_done(before: &State, after: &State) -> bool {
        let g = before.deletions@.last();
        &&& after.deletions@ == before.deletions@.drop_last()
        &&& after.tree.same_shape(&before.tree)
        &&& forall|v: int|
            0 <= v < before.tree.len() ==> #[trigger] after.tree.deleted@[v] == (before.tree.deleted@[v]
                && !covered(before.tree, g.nodes@, v))
        &&& forall|a: int|
            0 <= a < before.tree.len() ==> #[trigger] after.tree.open@[a] == (before.tree.open@[a]
                || above_group(before.tree, g.nodes@, a))
        &&& after.y == g.y
        &&& after.skip == g.skip
        &&& after.cursor == if after.tree.reachable(g.cursor as int) {
            g.cursor
        } else {
            before.cursor
        }
        &&& after.selecting == before.selecting
        &&& after.quit == before.quit
    }

    /// What `delete` leaves: nothing changes when the cursor is on a deleted
    /// node; otherwise one deletion (see `deletion_done`), after which the
    /// cursor is on the next shown node after the last deleted one, or else on
    /// the previous one, or the call fails with `AllDeleted` when no shown node
    /// is left.
    pub open spec fn delete_outcome(before: &State, after: &State, r: Result<(), BrowserError>) -> bool {
        &&& !before.tree.shown(before.cursor as int) ==> r == Err::<(), BrowserError>(
            BrowserError::AllDeleted,
        ) && *after == *before
        &&& before.tree.shown(before.cursor as int) ==> {
            &&& Self::deletion_done(before, after)
            &&& r is Ok <==> after.tree.shown(after.cursor as int)
            &&& r is Err ==> r == Err::<(), BrowserError>(BrowserError::AllDeleted) && forall|v: int|
                !(#[trigger] after.tree.shown(v))
            &&& r is Ok ==> {
                let last = after.deletions@.last().nodes@.last() as int;
                let (y1, s1) = before.span_row();
                ||| after.tree.next_of(last, Some(after.cursor)) && after.y == y1 && after.skip == s1
                ||| after.tree.next_of(last, None) && after.tree.prev_of(last, Some(after.cursor))
                    && Self::row_up(y1, s1, after.y, after.skip)
            }
            &&& r is Err ==> after.y == before.span_row().0 && after.skip == before.span_row().1
        }
    }

    /// What `undo` leaves: nothing changes, with `NothingToUndo`, when no
    /// group is left; otherwise the last group is undone (see `undo_done`),
    /// and the call fails with `Inconsistent` exactly when the saved cursor
    /// cannot be reached or an ancestor of a restored node is still deleted.
    pub open spec fn undo_outcome(before: &State, after: &State, r: Result<(), BrowserError>) -> bool {
        &&& before.deletions.len() == 0 ==> r == Err::<(), BrowserError>(BrowserError::NothingToUndo)
            && *after == *before
        &&& before.deletions.len() > 0 ==> {
            let g = before.deletions@.last();
            &&& Self::undo_done(before, after)
            &&& r is Ok <==> (after.tree.reachable(g.cursor as int) && forall|a: int|
                0 <= a < after.tree.len() && above_group(before.tree, g.nodes@, a)
                    ==> !#[trigger] after.tree.deleted@[a])
            &&& r is Err ==> r == Err::<(), BrowserError>(BrowserError::Inconsistent)
        }
    }

    /// Soft-deletes the span from `lo` to `hi` (see `span`): walks the shown
    /// nodes in order from `lo`, deleting each one's subtree, until it has
    /// deleted `hi` or the next shown node lies past `hi`. The cursor then
    /// goes to the next shown node after the last deleted one, or else to
    /// the previous one; when neither exists everything is deleted.
    pub fn delete(&mut self) -> (r: Result<(), BrowserError>)
        requires
            old(self).wf(),
        ensures
            final(self).wf(),
            Self::delete_outcome(old(self), final(self), r),
    {
        if self.tree.deleted[self.cursor] {
            return Err(BrowserError::AllDeleted);
        }
        let c = self.cursor;
        let (y0, skip0) = (self.y, self.skip);
        let mut lo = c;
        let mut hi = c;
        if let Some(m) = self.selecting {
            if self.tree.is_reachable(m.node) && !self.tree.deleted[m.node] {
                if id_lt(&self.tree.nodes[m.node].id, &self.tree.nodes[c].id) {
                    lo = m.node;
                    self.y = m.y;
                    self.skip = m.skip;
                } else {
                    hi = m.node;
                }
            }
        }
        self.selecting = None;
        let ghost s0 = *old(self);
        let ghost t0 = self.tree;
        proof {
            assert(self.tree == s0.tree);
            assert((lo as int, hi as int) == s0.span());
            if lo != hi {
                if lo == c {
                    lemma_lex_total(t0.id(lo as int), t0.id(hi as int));
                    if t0.id(lo as int) == t0.id(hi as int) {
                        t0.lemma_ids_unique(lo as int, hi as int);
                    }
                } else {
                    lemma_lex_asymmetric(t0.id(lo as int), t0.id(hi as int));
                }
            }
            lemma_lex_irreflexive(t0.id(lo as int));
        }
        let mut group: Vec<usize> = Vec::new();
        let mut cur = lo;
        let ghost y1 = self.y;
        let ghost skip1 = self.skip;
        loop
            invariant_except_break
                self.tree.shown(cur as int),
                t0.shown(cur as int),
                forall|w: int|
                    #![trigger t0.shown(w)]
                    t0.shown(w) && !lex_lt(t0.id(w), t0.id(lo as int)) && lex_lt(
                        t0.id(w),
                        t0.id(cur as int),
                    ) ==> covered(t0, group@, w),
                forall|j: int| 0 <= j < group@.len() ==> lex_lt(t0.id(#[trigger] group@[j] as int), t0.id(cur as int)),
            invariant
                ids_increasing(t0, group@),
                forall|i: int, j: int|
                    0 <= i < group@.len() && 0 <= j < group@.len() && i != j ==> !t0.is_anc(
                        #[trigger] group@[i] as int,
                        #[trigger] group@[j] as int,
                    ),
                self.tree.wf(),
                t0.wf(),
                self.tree.same_but_deleted(&t0),
                cur < t0.len(),
                lo < t0.len(),
                hi < t0.len(),
                t0.shown(lo as int),
                !lex_lt(t0.id(cur as int), t0.id(lo as int)),
                !lex_lt(t0.id(hi as int), t0.id(cur as int)),
                group@.len() > 0 ==> group@[0] == lo,
                self.deletions@ == s0.deletions@,
                self.cursor == s0.cursor,
                self.y == y1,
                self.skip == skip1,
                self.selecting is None,
                self.quit == s0.quit,
                group@.len() == 0 ==> cur == lo,
                forall|v: int|
                    0 <= v < t0.len() ==> #[trigger] self.tree.deleted@[v] == (t0.deleted@[v]
                        || covered(t0, group@, v)),
                forall|j: int|
                    0 <= j < group@.len() ==> {
                        let n = #[trigger] group@[j] as int;
                        &&& t0.shown(n)
                        &&& !lex_lt(t0.id(n), t0.id(lo as int))
                        &&& !lex_lt(t0.id(hi as int), t0.id(n))
                    },
            ensures
                group@.len() > 0,
                group@.last() == cur,
                self.tree.reachable(cur as int),
                forall|w: int|
                    #![trigger t0.shown(w)]
                    t0.shown(w) && !lex_lt(t0.id(w), t0.id(lo as int)) && !lex_lt(
                        t0.id(hi as int),
                        t0.id(w),
                    ) ==> covered(t0, group@, w),
            decreases live(self.tree.deleted@),
        {
            let ghost tb = self.tree;
            let ghost gb = group@;
            proof {
                assert forall|i: int| 0 <= i < gb.len() implies !t0.is_anc(#[trigger] gb[i] as int, cur as int)
                    && !t0.is_anc(cur as int, gb[i] as int) by {
                    let g = gb[i] as int;
                    assert(t0.is_anc(g, g));
                    assert(tb.deleted@[g]);
                    tb.lemma_same_nodes_anc(&t0, g, cur as int);
                    lemma_lex_irreflexive(t0.id(g));
                    if t0.is_anc(g, cur as int) {
                        tb.lemma_listed_anc(Visibility::Visible, cur as int, g);
                    }
                    if t0.is_anc(cur as int, g) {
                        t0.lemma_anc_prefix(cur as int, g);
                        if t0.id(cur as int).len() < t0.id(g).len() {
                            lemma_lex_prefix_lt(t0.id(cur as int), t0.id(g));
                        } else {
                            assert(t0.id(g) =~= t0.id(cur as int));
                        }
                        lemma_lex_asymmetric(t0.id(g), t0.id(cur as int));
                    }
                }
            }
            self.tree.mark_subtree(cur, true);
            group.push(cur);
            proof {
                let t = self.tree;
                assert forall|i: int, j: int| 0 <= i < j < group@.len() implies lex_lt(
                    t0.id(#[trigger] group@[i] as int),
                    t0.id(#[trigger] group@[j] as int),
                ) by {
                    assert(group@[i] == gb[i]);
                    if j < gb.len() {
                        assert(group@[j] == gb[j]);
                    }
                }
                assert forall|i: int, j: int|
                    0 <= i < group@.len() && 0 <= j < group@.len() && i != j implies !t0.is_anc(
                    #[trigger] group@[i] as int,
                    #[trigger] group@[j] as int,
                ) by {
                    if i < gb.len() {
                        assert(group@[i] == gb[i]);
                    }
                    if j < gb.len() {
                        assert(group@[j] == gb[j]);
                    }
                }
                assert forall|v: int| 0 <= v < t0.len() implies #[trigger] t.deleted@[v] == (
                t0.deleted@[v] || covered(t0, group@, v)) by {
                    tb.lemma_same_nodes_anc(&t0, cur as int, v);
                    if covered(t0, gb, v) {
                        let j = choose|j: int| 0 <= j < gb.len() && #[trigger] t0.is_anc(gb[j] as int, v);
                        assert(group@[j] == gb[j]);
                    }
                    if t0.is_anc(cur as int, v) {
                        assert(group@[gb.len() as int] == cur);
                    }
                    if covered(t0, group@, v) {
                        let j = choose|j: int| 0 <= j < group@.len() && #[trigger] t0.is_anc(group@[j] as int, v);
                        if j < gb.len() {
                            assert(gb[j] == group@[j]);
                        }
                    }
                }
                assert forall|j: int| 0 <= j < tb.deleted@.len() && #[trigger] tb.deleted@[j] implies t.deleted@[j] by {}
                lemma_live_shrinks(tb.deleted@, t.deleted@, cur as int);
                assert(tb.node_ok(cur as int));
                assert forall|b: int| 0 <= b < tb.len() && #[trigger] tb.is_anc(b, tb.parent(cur as int)) implies t.open@[b]
                    == tb.open@[b] && t.deleted@[b] == tb.deleted@[b] by {
                    tb.lemma_same_nodes_anc(&t0, cur as int, b);
                    tb.lemma_anc_prefix(b, tb.parent(cur as int));
                    if tb.is_anc(cur as int, b) {
                        tb.lemma_anc_prefix(cur as int, b);
                    }
                }
                tb.lemma_path_frame(&t, tb.parent(cur as int));
                assert forall|w: int| #![trigger t0.shown(w)] t0.shown(w) && !lex_lt(t0.id(w), t0.id(lo as int)) && !lex_lt(
                    t0.id(cur as int),
                    t0.id(w),
                ) implies covered(t0, group@, w) by {
                    lemma_lex_total(t0.id(w), t0.id(cur as int));
                    if lex_lt(t0.id(w), t0.id(cur as int)) {
                        let j = choose|j: int| 0 <= j < gb.len() && #[trigger] t0.is_anc(gb[j] as int, w);
                        assert(group@[j] == gb[j]);
                    } else {
                        t0.lemma_ids_unique(w, cur as int);
                        assert(group@[gb.len() as int] == cur);
                        assert(t0.is_anc(cur as int, cur as int));
                    }
                }
            }
            if cur == hi {
                break;
            }
            let nx = self.tree.next(cur);
            match nx {
                Some(n) => {
                    if id_lt(&self.tree.nodes[hi].id, &self.tree.nodes[n].id) {
                        proof {
                            let t = self.tree;
                            assert forall|w: int| #![trigger t0.shown(w)] t0.shown(w) && !lex_lt(t0.id(w), t0.id(lo as int))
                                && !lex_lt(t0.id(hi as int), t0.id(w)) implies covered(t0, group@, w) by {
                                if lex_lt(t0.id(cur as int), t0.id(w)) {
                                    lemma_lex_total(t0.id(w), t0.id(hi as int));
                                    if lex_lt(t0.id(w), t0.id(hi as int)) {
                                        lemma_lex_transitive(t0.id(w), t0.id(hi as int), t0.id(n as int));
                                    }
                                    if t.shown(w) {
                                        lemma_lex_asymmetric(t0.id(w), t0.id(n as int));
                                    }
                                    lemma_hidden_is_covered(&t0, &t, group@, w);
                                }
                            }
                        }
                        break;
                    }
                    proof {
                        let t = self.tree;
                        assert forall|w: int| #![trigger t0.shown(w)] t0.shown(w) && !lex_lt(t0.id(w), t0.id(lo as int))
                            && lex_lt(t0.id(w), t0.id(n as int)) implies covered(t0, group@, w) by {
                            if lex_lt(t0.id(cur as int), t0.id(w)) {
                                if t.shown(w) {
                                    lemma_lex_asymmetric(t0.id(w), t0.id(n as int));
                                }
                                lemma_hidden_is_covered(&t0, &t, group@, w);
                            }
                        }
                        assert forall|b: int| 0 <= b < t.len() && #[trigger] t.descends(Visibility::Visible, b) implies t0.descends(
                            Visibility::Visible,
                            b,
                        ) by {}
                        t.lemma_path_mono(&t0, t.parent(n as int));
                        lemma_lex_transitive_or_eq(t0.id(lo as int), t0.id(cur as int), t0.id(n as int));
                        assert forall|j: int| 0 <= j < group@.len() implies lex_lt(t0.id(#[trigger] group@[j] as int), t0.id(n as int)) by {
                            if j < group@.len() - 1 {
                                lemma_lex_transitive(t0.id(group@[j] as int), t0.id(cur as int), t0.id(n as int));
                            }
                        }
                    }
                    cur = n;
                },
                None => {
                    proof {
                        let t = self.tree;
                        assert forall|w: int| #![trigger t0.shown(w)] t0.shown(w) && !lex_lt(t0.id(w), t0.id(lo as int))
                            && !lex_lt(t0.id(hi as int), t0.id(w)) implies covered(t0, group@, w) by {
                            if lex_lt(t0.id(cur as int), t0.id(w)) {
                                lemma_hidden_is_covered(&t0, &t, group@, w);
                            }
                        }
                    }
                    break;
                },
            }
        }
        let last = cur;
        self.deletions.push(DeletionGroup { nodes: group, cursor: c, y: y0, skip: skip0 });
        let ghost t1 = self.tree;
        let result = match self.tree.next(last) {
            Some(n) => {
                self.cursor = n;
                Ok(())
            },
            None => match self.tree.previous(last) {
                Some(p) => {
                    self.scroll_up();
                    self.cursor = p;
                    Ok(())
                },
                None => {
                    self.cursor = last;
                    Err(BrowserError::AllDeleted)
                },
            },
        };
        proof {
            let t = self.tree;
            assert(self.deletions@.drop_last() =~= s0.deletions@);
            assert forall|i: int| 0 <= i < self.deletions.len() implies {
                let g = #[trigger] self.deletions@[i];
                &&& g.cursor < self.tree.len()
                &&& forall|j: int| 0 <= j < g.nodes.len() ==> g.nodes@[j] < self.tree.len()
            } by {
                if i < s0.deletions.len() {
                    assert(self.deletions@[i] == s0.deletions@[i]);
                }
            }
            if result is Err {
                let gn = self.deletions@.last().nodes@;
                assert(gn[gn.len() - 1] == last);
                assert(t0.is_anc(last as int, last as int));
                assert(covered(t0, gn, last as int));
                assert(t.deleted@[last as int]);
                assert forall|v: int| !(#[trigger] t.shown(v)) by {
                    if t.shown(v) {
                        lemma_lex_total(t.id(v), t.id(last as int));
                        if t.id(v) == t.id(last as int) {
                            t.lemma_ids_unique(v, last as int);
                        }
                    }
                }
            }
        }
        result
    }

    /// Undoes the last deletion group (see `undo_done`). Fails with
    /// `NothingToUndo`, changing nothing, when no group is left; fails with
    /// `Inconsistent` when an ancestor of a restored node, or of the restored
    /// cursor, is still deleted.
    pub fn undo(&mut self) -> (r: Result<(), BrowserError>)
        requires
            old(self).wf(),
        ensures
            final(self).wf(),
            Self::undo_outcome(old(self), final(self), r),
    {
        if self.deletions.len() == 0 {
            return Err(BrowserError::NothingToUndo);
        }
        let ghost s0 = *self;
        let ghost t0 = self.tree;
        let g = match self.deletions.pop() {
            Some(g) => g,
            None => {
                return Err(BrowserError::NothingToUndo);
            },
        };
        proof {
            assert(g == s0.deletions@.last());
            assert(s0.deletions@[s0.deletions.len() - 1] == g);
        }
        let n = g.nodes.len();
        let mut k: usize = 0;
        while k < n
            invariant
                t0.wf(),
                t0 == s0.tree,
                self.tree.wf(),
                self.tree.same_but_deleted(&t0),
                n == g.nodes.len(),
                k <= n,
                forall|j: int| 0 <= j < n ==> g.nodes@[j] < t0.len(),
                forall|v: int|
                    0 <= v < t0.len() ==> #[trigger] self.tree.deleted@[v] == (t0.deleted@[v]
                        && !covered(t0, g.nodes@.subrange(0, k as int), v)),
                self.deletions@ == s0.deletions@.drop_last(),
                self.cursor == s0.cursor,
                self.y == s0.y,
                self.skip == s0.skip,
                self.selecting == s0.selecting,
                self.quit == s0.quit,
            decreases n - k,
        {
            let ghost tb = self.tree;
            let m = g.nodes[k];
            self.tree.mark_subtree(m, false);
            proof {
                let pre = g.nodes@.subrange(0, k as int);
                let post = g.nodes@.subrange(0, k + 1);
                assert forall|v: int| 0 <= v < t0.len() implies #[trigger] self.tree.deleted@[v] == (
                t0.deleted@[v] && !covered(t0, post, v)) by {
                    tb.lemma_same_nodes_anc(&t0, m as int, v);
                    if covered(t0, pre, v) {
                        let j = choose|j: int| 0 <= j < pre.len() && #[trigger] t0.is_anc(pre[j] as int, v);
                        assert(post[j] == pre[j]);
                    }
                    if t0.is_anc(m as int, v) {
                        assert(post[k as int] == m);
                    }
                    if covered(t0, post, v) {
                        let j = choose|j: int| 0 <= j < post.len() && #[trigger] t0.is_anc(post[j] as int, v);
                        if j < k {
                            assert(pre[j] == post[j]);
                        }
                    }
                }
            }
            k = k + 1;
        }
        proof {
            assert(g.nodes@.subrange(0, n as int) =~= g.nodes@);
        }
        let ghost t1 = self.tree;
        let mut hit = false;
        k = 0;
        while k < n
            invariant
                t0.wf(),
                t1.wf(),
                t1.same_but_deleted(&t0),
                self.tree.wf(),
                self.tree.same_shape(&t1),
                self.tree.deleted@ == t1.deleted@,
                n == g.nodes.len(),
                k <= n,
                forall|j: int| 0 <= j < n ==> g.nodes@[j] < t0.len(),
                forall|a: int|
                    0 <= a < t0.len() ==> #[trigger] self.tree.open@[a] == (t1.open@[a]
                        || above_group(t0, g.nodes@.subrange(0, k as int), a)),
                hit == exists|a: int|
                    0 <= a < t0.len() && above_group(t0, g.nodes@.subrange(0, k as int), a)
                        && #[trigger] t1.deleted@[a],
                self.deletions@ == s0.deletions@.drop_last(),
                self.cursor == s0.cursor,
                self.y == s0.y,
                self.skip == s0.skip,
                self.selecting == s0.selecting,
                self.quit == s0.quit,
            decreases n - k,
        {
            let ghost tb = self.tree;
            let ghost hit0 = hit;
            let m = g.nodes[k];
            let h = self.tree.open_ancestors(m);
            hit = hit || h;
            proof {
                let pre = g.nodes@.subrange(0, k as int);
                let post = g.nodes@.subrange(0, k + 1);
                assert forall|a: int| 0 <= a < t0.len() implies (above_group(t0, post, a) <==> (
                above_group(t0, pre, a) || (t0.is_anc(a, m as int) && a != m && a != 0))) by {
                    tb.lemma_same_nodes_anc(&t0, a, m as int);
                    if above_group(t0, pre, a) {
                        let j = choose|j: int| 0 <= j < pre.len() && #[trigger] t0.is_anc(a, pre[j] as int) && a != pre[j] && a != 0;
                        assert(post[j] == pre[j]);
                    }
                    if t0.is_anc(a, m as int) && a != m && a != 0 {
                        assert(post[k as int] == m);
                    }
                    if above_group(t0, post, a) {
                        let j = choose|j: int| 0 <= j < post.len() && #[trigger] t0.is_anc(a, post[j] as int) && a != post[j] && a != 0;
                        if j < k {
                            assert(pre[j] == post[j]);
                        }
                    }
                }
                assert forall|a: int| 0 <= a < t0.len() implies #[trigger] self.tree.open@[a] == (
                t1.open@[a] || above_group(t0, post, a)) by {
                    tb.lemma_same_nodes_anc(&t0, a, m as int);
                }
                if h {
                    let a = choose|a: int| 0 < a < tb.len() && a != m && tb.is_anc(a, m as int) && #[trigger] tb.deleted@[a];
                    tb.lemma_same_nodes_anc(&t0, a, m as int);
                    assert(above_group(t0, post, a));
                }
                if hit0 {
                    let a = choose|a: int| 0 <= a < t0.len() && above_group(t0, pre, a) && #[trigger] t1.deleted@[a];
                    assert(above_group(t0, post, a));
                }
                if hit {
                } else {
                    assert forall|a: int| 0 <= a < t0.len() && above_group(t0, post, a) implies !#[trigger] t1.deleted@[a] by {
                        tb.lemma_same_nodes_anc(&t0, a, m as int);
                    }
                }
            }
            k = k + 1;
        }
        proof {
            assert(g.nodes@.subrange(0, n as int) =~= g.nodes@);
            let t = self.tree;
            assert forall|b: int| 0 <= b < t0.len() && #[trigger] t0.descends(Visibility::Visible, b) implies t.descends(
                Visibility::Visible,
                b,
            ) by {}
            t0.lemma_path_mono(&t, t0.parent(s0.cursor as int));
        }
        self.y = g.y;
        self.skip = g.skip;
        if self.tree.is_reachable(g.cursor) {
            self.cursor = g.cursor;
        } else {
            hit = true;
        }
        proof {
            assert forall|i: int| 0 <= i < self.deletions.len() implies {
                let gg = #[trigger] self.deletions@[i];
                &&& gg.cursor < self.tree.len()
                &&& forall|j: int| 0 <= j < gg.nodes.len() ==> gg.nodes@[j] < self.tree.len()
            } by {
                assert(self.deletions@[i] == s0.deletions@[i]);
            }
        }
        if hit {
            Err(BrowserError::Inconsistent)
        } else {
            Ok(())
        }
    }

    /// `after` is `before` with the directory under the cursor opened or
    /// closed; files, and a pending selection, leave everything as it is.
    pub open spec fn toggle_done(before: &State, after: &State) -> bool {
        &&& after.tree.same_shape(&before.tree)
        &&& after.tree.deleted@ == before.tree.deleted@
        &&& after.tree.open@ == if before.selecting is None
            && !before.tree.nodes@[before.cursor as int].is_file {
            before.tree.open@.update(before.cursor as int, !before.tree.open@[before.cursor as int])
        } else {
            before.tree.open@
        }
        &&& after.cursor == before.cursor
        &&& after.y == before.y
        &&& after.skip == before.skip
        &&& after.deletions@ == before.deletions@
        &&& after.selecting == before.selecting
        &&& after.quit == before.quit
    }

    /// `after` is `before` with a selection anchored at the cursor, unless
    /// the cursor is on an open directory.
    pub open spec fn select_done(before: &State, after: &State) -> bool {
        &&& after.tree == before.tree
        &&& after.cursor == before.cursor
        &&& after.y == before.y
        &&& after.skip == before.skip
        &&& after.deletions@ == before.deletions@
        &&& after.quit == before.quit
        &&& after.selecting == if before.tree.is_open(before.cursor as int) {
            before.selecting
        } else {
            Some(Mark { node: before.cursor, y: before.y, skip: before.skip })
        }
    }

    /// Starts a range selection at the cursor, unless the cursor is on an
    /// open directory.
    pub fn select(&mut self)
        requires
            old(self).wf(),
        ensures
            final(self).wf(),
            Self::select_done(old(self), final(self)),
    {
        if !self.tree.open[self.cursor] {
            self.selecting = Some(Mark { node: self.cursor, y: self.y, skip: self.skip });
        }
    }

    /// Opens or closes the directory under the cursor; files and a pending
    /// selection leave everything as it is.
    pub fn toggle(&mut self)
        requires
            old(self).wf(),
        ensures
            final(self).wf(),
            Self::toggle_done(old(self), final(self)),
    {
        if self.selecting.is_none() && !self.tree.nodes[self.cursor].is_file {
            let c = self.cursor;
            let ghost t0 = self.tree;
            let flag = !self.tree.open[c];
            self.tree.set_open(c, flag);
            proof {
                let t = self.tree;
                assert(t0.node_ok(c as int));
                assert forall|b: int| 0 <= b < t0.len() && #[trigger] t0.is_anc(b, t0.parent(c as int)) implies t.open@[b]
                    == t0.open@[b] && t.deleted@[b] == t0.deleted@[b] by {
                    t0.lemma_anc_prefix(b, t0.parent(c as int));
                }
                t0.lemma_path_frame(&t, t0.parent(c as int));
            }
        }
    }

    /// Moves the cursor up while its row lies below a window of `height`
    /// rows, as long as it can move.
    pub fn fit(&mut self, height: u16)
        requires
            old(self).wf(),
        ensures
            final(self).wf(),
            final(self).tree == old(self).tree,
            final(self).deletions@ == old(self).deletions@,
            final(self).selecting == old(self).selecting,
            final(self).quit == old(self).quit,
            final(self).y <= old(self).y,
            final(self).y > height && final(self).y > 1 ==> exists|r: Option<usize>|
                #![trigger final(self).tree.prev_of(final(self).cursor as int, r)]
                final(self).tree.prev_of(final(self).cursor as int, r) && match r {
                    Some(p) => final(self).tree.is_open(p as int) && final(self).selecting is Some,
                    None => true,
                },
    {
        while self.y > height && self.y > 1
            invariant
                self.wf(),
                self.tree == old(self).tree,
                self.deletions@ == old(self).deletions@,
                self.selecting == old(self).selecting,
                self.quit == old(self).quit,
                self.y <= old(self).y,
            decreases self.y,
        {
            let before = self.cursor;
            let ghost s0 = *self;
            self.go_up();
            if self.cursor == before {
                proof {
                    let r = choose|r: Option<usize>| #![trigger s0.tree.prev_of(s0.cursor as int, r)] s0.tree.prev_of(s0.cursor as int, r) && match r {
                        Some(p) => if s0.tree.is_open(p as int) && s0.selecting is Some {
                            self.cursor == s0.cursor && self.y == s0.y && self.skip == s0.skip
                        } else {
                            self.cursor == p && (s0.y == 1 && s0.skip > 0 ==> self.y == 1 && self.skip == s0.skip - 1)
                                && (s0.y == 1 && s0.skip == 0 ==> self.y == 1 && self.skip == 0)
                                && (s0.y > 1 ==> self.y == s0.y - 1 && self.skip == s0.skip)
                        },
                        None => self.cursor == s0.cursor && self.y == s0.y && self.skip == s0.skip,
                    };
                    if let Some(p) = r {
                        if !(s0.tree.is_open(p as int) && s0.selecting is Some) {
                            lemma_lex_irreflexive(s0.tree.id(p as int));
                        }
                    }
                }
                return;
            }
        }
    }

    /// Applies one key press.
    pub fn handle_key(&mut self, key: Key, height: u16) -> (r: Result<(), BrowserError>)
        requires
            old(self).wf(),
        ensures
            final(self).wf(),
            key == Key::Down ==> r is Ok && Self::down_done(old(self), final(self), height),
            key == Key::Up ==> r is Ok && Self::up_done(old(self), final(self)),
            key == Key::Delete ==> Self::delete_outcome(old(self), final(self), r),
            key == Key::Undo ==> Self::undo_outcome(old(self), final(self), r),
            key == Key::Quit ==> r is Ok && *final(self) == (State { quit: true, ..*old(self) }),
            key == Key::Cancel ==> r is Ok && *final(self) == (State { selecting: None, ..*old(self) }),
            key == Key::Select ==> r is Ok && Self::select_done(old(self), final(self)),
            key == Key::Toggle ==> r is Ok && Self::toggle_done(old(self), final(self)),
    {
        match key {
            Key::Down => {
                self.go_down(height);
                Ok(())
            },
            Key::Up => {
                self.go_up();
                Ok(())
            },
            Key::Quit => {
                self.quit = true;
                Ok(())
            },
            Key::Undo => self.undo(),
            Key::Delete => self.delete(),
            Key::Select => {
                self.select();
                Ok(())
            },
            Key::Cancel => {
                self.selecting = None;
                Ok(())
            },
            Key::Toggle => {
                self.toggle();
                Ok(())
            },
        }
    }

    /// The nodes marked for removal: the topmost node of each deleted
    /// subtree, in pre-order.
    pub fn marked(&self) -> (r: Vec<usize>)
        requires
            self.wf(),
        ensures
            r@ == self.tree.listing(Visibility::Deleted),
    {
        self.tree.entries(Visibility::Deleted)
    }

    /// The rows the browser shows, in order.
    pub fn visible(&self) -> (r: Vec<usize>)
        requires
            self.wf(),
        ensures
            r@ == self.tree.listing(Visibility::Visible),
    {
        self.tree.entries(Visibility::Visible)
    }

    /// One row up on screen: the row moves, or the list scrolls when the
    /// cursor is on the first row.
    fn scroll_up(&mut self)
        ensures
            final(self).tree == old(self).tree,
            final(self).cursor == old(self).cursor,
            final(self).deletions@ == old(self).deletions@,
            final(self).selecting == old(self).selecting,
            final(self).quit == old(self).quit,
            old(self).y == 1 && old(self).skip > 0 ==> final(self).y == 1 && final(self).skip
                == old(self).skip - 1,
            old(self).y == 1 && old(self).skip == 0 ==> final(self).y == 1 && final(self).skip
                == 0,
            old(self).y != 1 ==> final(self).y == (if old(self).y == 0 {
                0
            } else {
                old(self).y - 1
            }) && final(self).skip == old(self).skip,
    {
        if self.y == 1 {
            if self.skip > 0 {
                self.skip = self.skip - 1;
            }
        } else if self.y > 0 {
            self.y = self.y - 1;
        }
    }

    /// `after` is `before` after moving up: onto the previous shown node, with
    /// the row moving up or the list scrolling back; no move when there is no
    /// previous node, or when it is an open directory during a selection.
    pub open spec fn up_done(before: &State, after: &State) -> bool {
        &&& after.tree == before.tree
        &&& after.deletions@ == before.deletions@
        &&& after.selecting == before.selecting
        &&& after.quit == before.quit
        &&& exists|r: Option<usize>|
            #![trigger before.tree.prev_of(before.cursor as int, r)]
            before.tree.prev_of(before.cursor as int, r) && match r {
                Some(p) => if before.tree.is_open(p as int) && before.selecting is Some {
                    after.cursor == before.cursor && after.y == before.y
                        && after.skip == before.skip
                } else {
                    after.cursor == p && (before.y == 1 && before.skip > 0
                        ==> after.y == 1 && after.skip == before.skip - 1)
                        && (before.y == 1 && before.skip == 0 ==> after.y == 1
                        && after.skip == 0) && (before.y > 1 ==> after.y
                        == before.y - 1 && after.skip == before.skip)
                },
                None => after.cursor == before.cursor && after.y == before.y && after.skip == before.skip,
            }
    }

    /// `after` is `before` after moving down: onto the next shown node, with the
    /// row moving down within `height` or the list scrolling; no move when
    /// there is no next node, or when it is an open directory during a
    /// selection.
    pub open spec fn down_done(before: &State, after: &State, height: u16) -> bool {
        &&& after.tree == before.tree
        &&& after.deletions@ == before.deletions@
        &&& after.selecting == before.selecting
        &&& after.quit == before.quit
        &&& exists|r: Option<usize>|
            #![trigger before.tree.next_of(before.cursor as int, r)]
            before.tree.next_of(before.cursor as int, r) && match r {
                Some(n) => if before.tree.is_open(n as int) && before.selecting is Some {
                    after.cursor == before.cursor && after.y == before.y
                        && after.skip == before.skip
                } else {
                    after.cursor == n && if before.y < height {
                        after.y == before.y + 1 && after.skip == before.skip
                    } else {
                        after.y == before.y && (before.skip < usize::MAX
                            ==> after.skip == before.skip + 1)
                    }
                },
                None => after.cursor == before.cursor && after.y == before.y && after.skip == before.skip,
            }
    }

    /// Moves the cursor to the previous shown node, if any. While a range
    /// is being selected the cursor does not move onto an open directory.
    pub fn go_up(&mut self)
        requires
            old(self).wf(),
        ensures
            final(self).wf(),
            Self::up_done(old(self), final(self)),
    {
        let r = self.tree.previous(self.cursor);
        if let Some(p) = r {
            if self.tree.open[p] && self.selecting.is_some() {
                return;
            }
            self.scroll_up();
            self.cursor = p;
        }
    }

    /// Moves the cursor to the next shown node, if any: the row moves down
    /// while it stays within `height`, otherwise the list scrolls. While a
    /// range is being selected the cursor does not move onto an open
    /// directory.
    pub fn go_down(&mut self, height: u16)
        requires
            old(self).wf(),
        ensures
            final(self).wf(),
            Self::down_done(old(self), final(self), height),
    {
        let r = self.tree.next(self.cursor);
        if let Some(n) = r {
            if self.tree.open[n] && self.selecting.is_some() {
                return;
            }
            self.cursor = n;
            if self.y < height {
                self.y = self.y + 1;
            } else if self.skip < usize::MAX {
                self.skip = self.skip + 1;
            }
        }
    }
}

/// Undoing a deletion right after it brings back the visible listing, the
/// cursor, its row and its scroll offset, provided none of the nodes the
/// deletion covered was deleted already.
pub proof fn lemma_undo_restores(s0: &State, s1: &State, s2: &State)
    requires
        s0.wf(),
        State::deletion_done(s0, s1),
        State::undo_done(s1, s2),
        forall|v: int|
            0 <= v < s0.tree.len() && covered(s0.tree, s1.deletions@.last().nodes@, v)
                ==> !#[trigger] s0.tree.deleted@[v],
    ensures
        s2.tree.listing(Visibility::Visible) == s0.tree.listing(Visibility::Visible),
        s2.cursor == s0.cursor,
        s2.y == s0.y,
        s2.skip == s0.skip,
{
    let t0 = s0.tree;
    let t1 = s1.tree;
    let t2 = s2.tree;
    let g = s1.deletions@.last().nodes@;
    assert forall|v: int| 0 <= v < t0.len() implies covered(t1, g, v) == covered(t0, g, v) by {
        if covered(t1, g, v) {
            let j = choose|j: int| 0 <= j < g.len() && #[trigger] t1.is_anc(g[j] as int, v);
            t1.lemma_same_nodes_anc(&t0, g[j] as int, v);
        }
        if covered(t0, g, v) {
            let j = choose|j: int| 0 <= j < g.len() && #[trigger] t0.is_anc(g[j] as int, v);
            t1.lemma_same_nodes_anc(&t0, g[j] as int, v);
        }
    }
    assert forall|v: int| 0 <= v < t0.len() implies t2.deleted@[v] == t0.deleted@[v] by {
        assert(t1.deleted@[v] == (t0.deleted@[v] || covered(t0, g, v)));
    }
    assert forall|a: int| 0 <= a < t0.len() implies t2.open@[a] == t0.open@[a] by {
        assert(t2.open@[a] == (t1.open@[a] || above_group(t1, g, a)));
        if above_group(t1, g, a) {
            let j = choose|j: int| 0 <= j < g.len() && #[trigger] t1.is_anc(a, g[j] as int) && a != g[j] && a != 0;
            t1.lemma_same_nodes_anc(&t0, a, g[j] as int);
            assert(t0.shown(g[j] as int));
            t0.lemma_listed_anc(Visibility::Visible, g[j] as int, a);
        }
    }
    assert(t2.open@ =~= t0.open@);
    assert(t2.deleted@ =~= t0.deleted@);
    t2.lemma_same_views_pre(&t0, Visibility::Visible, 0, 0);
    assert forall|b: int| 0 <= b < t0.len() && #[trigger] t0.descends(Visibility::Visible, b) implies t2.descends(
        Visibility::Visible,
        b,
    ) by {}
    t0.lemma_path_mono(&t2, t0.parent(s0.cursor as int));
}

} // verus!

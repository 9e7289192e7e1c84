use vstd::prelude::*;
use crate::lex::{
    is_prefix, lemma_lex_asymmetric, lemma_lex_before_first_child, lemma_lex_child,
    lemma_lex_irreflexive, lemma_lex_not_prefix, lemma_lex_past_sibling, lemma_lex_prefix_lt,
    lemma_lex_total, lemma_lex_transitive, lemma_prefix_push, lemma_prefix_transitive, lex_lt,
};
use crate::tree::{Children, Tree, Visibility};

verus! {

impl Tree {
    /// `r` is the first shown node after `x` in id order, or `None` when no
    /// shown node comes after `x`.
    pub open spec fn next_of(&self, x: int, r: Option<usize>) -> bool {
        match r {
            Some(y) => {
                &&& self.shown(y as int)
                &&& lex_lt(self.id(x), self.id(y as int))
                &&& forall|v: int|
                    #![trigger self.shown(v)]
                    self.shown(v) && lex_lt(self.id(x), self.id(v)) ==> !lex_lt(
                        self.id(v),
                        self.id(y as int),
                    )
            },
            None => forall|v: int| #[trigger] self.shown(v) ==> !lex_lt(self.id(x), self.id(v)),
        }
    }

    /// `r` is the last shown node before `x` in id order, or `None` when no
    /// shown node comes before `x`.
    pub open spec fn prev_of(&self, x: int, r: Option<usize>) -> bool {
        match r {
            Some(y) => {
                &&& self.shown(y as int)
                &&& lex_lt(self.id(y as int), self.id(x))
                &&& forall|v: int|
                    #![trigger self.shown(v)]
                    self.shown(v) && lex_lt(self.id(v), self.id(x)) ==> !lex_lt(
                        self.id(y as int),
                        self.id(v),
                    )
            },
            None => forall|v: int| #[trigger] self.shown(v) ==> !lex_lt(self.id(v), self.id(x)),
        }
    }

    /// A shown node lies below no deleted entry.
    pub proof fn lemma_hidden_child(&self, a: int, i: int, v: int)
        requires
            self.wf(),
            0 <= a < self.len(),
            self.loaded(a),
            0 <= i < self.count(a),
            self.is_deleted(self.child(a, i)),
            self.shown(v),
        ensures
            !self.is_anc(self.child(a, i), v),
    {
        self.lemma_child(a, i);
        if self.is_anc(self.child(a, i), v) && self.child(a, i) != v {
            self.lemma_listed_anc(Visibility::Visible, v, self.child(a, i));
        }
    }

    /// A shown node whose id extends `a`'s lies below an open, live `a`,
    /// through the entry its id names.
    pub proof fn lemma_below(&self, a: int, v: int)
        requires
            self.wf(),
            0 <= a < self.len(),
            self.shown(v),
            is_prefix(self.id(a), self.id(v)),
            self.id(v).len() > self.id(a).len(),
        ensures
            self.loaded(a),
            self.descends(Visibility::Visible, a),
            0 <= self.id(v)[self.id(a).len() as int] < self.count(a),
            self.is_anc(self.child(a, self.id(v)[self.id(a).len() as int] as int), v),
            self.id(self.child(a, self.id(v)[self.id(a).len() as int] as int)) == self.id(a).push(
                self.id(v)[self.id(a).len() as int],
            ),
    {
        self.lemma_prefix_anc(a, v);
        self.lemma_step_down(a, v);
        self.lemma_listed_anc(Visibility::Visible, v, a);
        self.lemma_child(a, self.id(v)[self.id(a).len() as int] as int);
    }

    /// A deleted entry `k` of `p` holds no shown node, so a shown node at or
    /// after `p.push(k)` is at or after `p.push(k + 1)`.
    pub proof fn lemma_skip_deleted(&self, p: int, k: int, v: int)
        requires
            self.wf(),
            0 <= p < self.len(),
            self.loaded(p),
            0 <= k < self.count(p),
            self.is_deleted(self.child(p, k)),
            self.shown(v),
            !lex_lt(self.id(v), self.id(p).push(k as usize)),
        ensures
            !lex_lt(self.id(v), self.id(p).push((k + 1) as usize)),
    {
        let ip = self.id(p);
        let iv = self.id(v);
        lemma_prefix_push(ip, k as usize);
        self.lemma_child(p, k);
        if is_prefix(ip, iv) && iv.len() > ip.len() {
            self.lemma_below(p, v);
            lemma_lex_child(ip, iv, k as usize);
            lemma_lex_child(ip, iv, (k + 1) as usize);
            if iv[ip.len() as int] == k {
                self.lemma_hidden_child(p, k, v);
            }
        } else if is_prefix(ip, iv) {
            assert(iv =~= ip);
            lemma_lex_prefix_lt(ip, ip.push(k as usize));
        } else {
            assert(ip.push(k as usize) =~= ip + seq![k as usize]);
            assert(ip.push((k + 1) as usize) =~= ip + seq![(k + 1) as usize]);
            lemma_lex_not_prefix(ip, seq![k as usize], iv);
            lemma_lex_not_prefix(ip, seq![(k + 1) as usize], iv);
        }
    }

    /// A deleted entry `k - 1` of `p` holds no shown node, so a shown node
    /// before `p.push(k)` is before `p.push(k - 1)`.
    pub proof fn lemma_skip_deleted_back(&self, p: int, k: int, v: int)
        requires
            self.wf(),
            0 <= p < self.len(),
            self.loaded(p),
            0 < k <= self.count(p),
            self.is_deleted(self.child(p, k - 1)),
            self.shown(v),
            lex_lt(self.id(v), self.id(p).push(k as usize)),
        ensures
            lex_lt(self.id(v), self.id(p).push((k - 1) as usize)),
    {
        let ip = self.id(p);
        let iv = self.id(v);
        lemma_prefix_push(ip, (k - 1) as usize);
        self.lemma_child(p, k - 1);
        if is_prefix(ip, iv) && iv.len() > ip.len() {
            self.lemma_below(p, v);
            lemma_lex_child(ip, iv, k as usize);
            lemma_lex_child(ip, iv, (k - 1) as usize);
            if iv[ip.len() as int] == k - 1 {
                self.lemma_hidden_child(p, k - 1, v);
            }
        } else if is_prefix(ip, iv) {
            assert(iv =~= ip);
            lemma_lex_prefix_lt(ip, ip.push((k - 1) as usize));
        } else {
            assert(ip.push(k as usize) =~= ip + seq![k as usize]);
            assert(ip.push((k - 1) as usize) =~= ip + seq![(k - 1) as usize]);
            lemma_lex_not_prefix(ip, seq![k as usize], iv);
            lemma_lex_not_prefix(ip, seq![(k - 1) as usize], iv);
        }
    }

    /// When no shown node lies strictly below `p`, a shown node at or after
    /// `p`'s last entry (or simply after `p`) is past `p` and outside it.
    pub proof fn lemma_beyond(&self, p: int, v: int)
        requires
            self.wf(),
            0 <= p < self.len(),
            self.shown(v),
            (self.loaded(p) && self.descends(Visibility::Visible, p) && !lex_lt(
                self.id(v),
                self.id(p).push(self.count(p) as usize),
            )) || ((!self.loaded(p) || !self.descends(Visibility::Visible, p)) && lex_lt(
                self.id(p),
                self.id(v),
            )),
        ensures
            lex_lt(self.id(p), self.id(v)),
            !is_prefix(self.id(p), self.id(v)),
    {
        let ip = self.id(p);
        let iv = self.id(v);
        let m = self.count(p);
        if is_prefix(ip, iv) && iv.len() > ip.len() {
            self.lemma_below(p, v);
            lemma_lex_child(ip, iv, m as usize);
        } else if is_prefix(ip, iv) {
            assert(iv =~= ip);
            lemma_lex_irreflexive(ip);
            lemma_prefix_push(ip, m as usize);
            lemma_lex_prefix_lt(ip, ip.push(m as usize));
        } else {
            if ip == iv {
                assert(iv.subrange(0, ip.len() as int) =~= ip);
            }
            if self.loaded(p) && self.descends(Visibility::Visible, p) {
                assert(ip.push(m as usize) =~= ip + seq![m as usize]);
                lemma_lex_not_prefix(ip, seq![m as usize], iv);
                lemma_lex_total(ip, iv);
            }
        }
    }

    fn admits(&self, pol: Visibility, v: usize) -> (r: bool)
        requires
            self.wf(),
            v < self.len(),
        ensures
            r == self.includes(pol, v as int),
    {
        match pol {
            Visibility::Visible => !self.deleted[v],
            Visibility::Deleted => self.deleted[v],
            Visibility::All => true,
        }
    }

    fn enters(&self, pol: Visibility, a: usize) -> (r: bool)
        requires
            self.wf(),
            a < self.len(),
        ensures
            r == self.descends(pol, a as int),
    {
        match pol {
            Visibility::Visible => self.open[a] && !self.deleted[a],
            Visibility::Deleted => !self.deleted[a],
            Visibility::All => true,
        }
    }

    /// The nodes below entries `k..` of `p`, in pre-order, as the policy
    /// reports them.
    pub open spec fn pre(&self, pol: Visibility, p: int, k: int) -> Seq<usize>
        decreases self.len() - p, self.count(p) - k,
    {
        if !(0 <= p < self.len()) || !self.loaded(p) || k < 0 || k >= self.count(p) {
            Seq::empty()
        } else {
            let c = self.child(p, k);
            if !(p < c < self.len()) {
                Seq::empty()
            } else {
                let head = if self.includes(pol, c) {
                    seq![c as usize]
                } else {
                    Seq::empty()
                };
                let below = if self.descends(pol, c) {
                    self.pre(pol, c, 0)
                } else {
                    Seq::empty()
                };
                head + below + self.pre(pol, p, k + 1)
            }
        }
    }

    /// The whole listing under a policy, in pre-order.
    pub open spec fn listing(&self, pol: Visibility) -> Seq<usize> {
        if self.descends(pol, 0) {
            self.pre(pol, 0, 0)
        } else {
            Seq::empty()
        }
    }

    fn collect(&self, pol: Visibility, p: usize, acc: &mut Vec<usize>)
        requires
            self.wf(),
            p < self.len(),
        ensures
            final(acc)@ == old(acc)@ + self.pre(pol, p as int, 0),
        decreases self.len() - p,
    {
        let ghost start = acc@;
        match self.kids[p] {
            Children::NotLoaded => {
                assert(acc@ =~= start + self.pre(pol, p as int, 0));
            },
            Children::Loaded { first, count } => {
                proof {
                    assert(self.kids_ok(p as int));
                }
                let mut k: usize = 0;
                while k < count
                    invariant
                        self.wf(),
                        p < self.len(),
                        self.kids@[p as int] == (Children::Loaded { first, count }),
                        k <= count,
                        first + count <= self.len(),
                        acc@ + self.pre(pol, p as int, k as int) == start + self.pre(
                            pol,
                            p as int,
                            0,
                        ),
                    decreases count - k,
                {
                    proof {
                        self.lemma_child(p as int, k as int);
                    }
                    let c = first + k;
                    let ghost before = acc@;
                    if self.admits(pol, c) {
                        acc.push(c);
                    }
                    if self.enters(pol, c) {
                        self.collect(pol, c, acc);
                    }
                    proof {
                        let head = if self.includes(pol, c as int) {
                            seq![c]
                        } else {
                            Seq::empty()
                        };
                        let below = if self.descends(pol, c as int) {
                            self.pre(pol, c as int, 0)
                        } else {
                            Seq::empty()
                        };
                        assert(acc@ =~= before + head + below);
                        assert(self.pre(pol, p as int, k as int) == head + below + self.pre(
                            pol,
                            p as int,
                            k + 1,
                        ));
                        assert(acc@ + self.pre(pol, p as int, k + 1) =~= before + self.pre(
                            pol,
                            p as int,
                            k as int,
                        ));
                    }
                    k = k + 1;
                }
                assert(acc@ =~= acc@ + self.pre(pol, p as int, k as int));
            },
        }
    }

    /// The nodes the policy reports, in pre-order.
    pub fn entries(&self, pol: Visibility) -> (r: Vec<usize>)
        requires
            self.wf(),
        ensures
            r@ == self.listing(pol),
            ids_increasing(*self, r@),
            forall|v: int| 0 <= v < self.len() ==> (self.listed(pol, v) <==> r@.contains(v as usize)),
    {
        proof {
            lemma_listing_in_id_order(self, pol);
        }
        let mut acc: Vec<usize> = Vec::new();
        if self.enters(pol, 0) {
            self.collect(pol, 0, &mut acc);
        }
        assert(acc@ =~= self.listing(pol));
        acc
    }

    /// Every member of `pre(pol, p, k)` is listed and lies below `p`.
    pub proof fn lemma_pre_listed(&self, pol: Visibility, p: int, k: int, x: usize)
        requires
            self.wf(),
            self.path_ok(pol, p),
            self.pre(pol, p, k).contains(x),
        ensures
            self.listed(pol, x as int),
            self.is_anc(p, x as int),
        decreases self.len() - p, self.count(p) - k,
    {
        let c = self.child(p, k);
        let head = if self.includes(pol, c) {
            seq![c as usize]
        } else {
            Seq::empty()
        };
        let below = if self.descends(pol, c) {
            self.pre(pol, c, 0)
        } else {
            Seq::empty()
        };
        self.lemma_child(p, k);
        let i = choose|i: int| 0 <= i < self.pre(pol, p, k).len() && self.pre(pol, p, k)[i] == x;
        if i < head.len() {
            assert(x == c);
        } else if i < head.len() + below.len() {
            assert(below[i - head.len()] == x);
            self.lemma_pre_listed(pol, c, 0, x);
            self.lemma_anc_transitive(p, c, x as int);
        } else {
            assert(self.pre(pol, p, k + 1)[i - head.len() - below.len()] == x);
            self.lemma_pre_listed(pol, p, k + 1, x);
        }
    }

    /// Finds the first shown node after `x`: the first live entry of `x` when
    /// `x` is open, otherwise the first live later sibling of `x` or of its
    /// nearest ancestor that has one.
    pub fn next(&self, x: usize) -> (r: Option<usize>)
        requires
            self.wf(),
            self.reachable(x as int),
        ensures
            self.next_of(x as int, r),
    {
        let ghost ix = self.id(x as int);
        let mut p: usize = x;
        let mut skip: usize = 0;
        proof {
            assert forall|v: int| self.shown(v) && lex_lt(ix, self.id(v)) implies !lex_lt(
                self.id(v),
                ix.push(0),
            ) by {
                lemma_prefix_push(ix, 0);
                if is_prefix(ix, self.id(v)) && self.id(v).len() > ix.len() {
                    lemma_lex_child(ix, self.id(v), 0);
                } else if is_prefix(ix, self.id(v)) {
                    assert(self.id(v) =~= ix);
                    lemma_lex_irreflexive(ix);
                } else {
                    assert(ix.push(0) =~= ix + seq![0usize]);
                    lemma_lex_not_prefix(ix, seq![0usize], self.id(v));
                    lemma_lex_asymmetric(ix, self.id(v));
                }
            }
        }
        loop
            invariant
                self.wf(),
                self.reachable(x as int),
                ix == self.id(x as int),
                p < self.len(),
                self.is_anc(p as int, x as int),
                p == x ==> skip == 0,
                p != x ==> {
                    &&& self.path_ok(Visibility::Visible, p as int)
                    &&& self.loaded(p as int)
                    &&& skip <= self.count(p as int)
                    &&& is_prefix(self.id(p as int), ix)
                    &&& ix.len() > self.id(p as int).len()
                    &&& ix[self.id(p as int).len() as int] < skip
                },
                forall|v: int|
                    #![trigger self.shown(v)]
                    self.shown(v) && lex_lt(ix, self.id(v)) ==> !lex_lt(
                        self.id(v),
                        self.id(p as int).push(skip),
                    ),
            decreases p,
        {
            let ghost ip = self.id(p as int);
            if self.open[p] && !self.deleted[p] {
                if let Children::Loaded { first, count } = self.kids[p] {
                    proof {
                        assert(self.kids_ok(p as int));
                    }
                    let mut k: usize = skip;
                    while k < count
                        invariant
                            self.wf(),
                            p < self.len(),
                            self.kids@[p as int] == (Children::Loaded { first, count }),
                            first + count <= self.len(),
                            k <= count,
                            forall|v: int|
                                #![trigger self.shown(v)]
                                self.shown(v) && lex_lt(ix, self.id(v)) ==> !lex_lt(
                                    self.id(v),
                                    ip.push(k),
                                ),
                            ip == self.id(p as int),
                            self.reachable(x as int),
                            ix == self.id(x as int),
                            self.is_anc(p as int, x as int),
                            self.open@[p as int] && !self.deleted@[p as int],
                            skip <= k,
                            p != x ==> {
                                &&& self.path_ok(Visibility::Visible, p as int)
                                &&& is_prefix(ip, ix)
                                &&& ix.len() > ip.len()
                                &&& ix[ip.len() as int] < skip
                            },
                        decreases count - k,
                    {
                        if !self.deleted[first + k] {
                            proof {
                                let c = first + k;
                                self.lemma_child(p as int, k as int);
                                lemma_prefix_push(ip, k);
                                if p == x {
                                    lemma_lex_prefix_lt(ix, ip.push(k));
                                    assert(self.node_ok(x as int));
                                    assert(self.path_ok(Visibility::Visible, x as int));
                                } else {
                                    lemma_lex_child(ip, ix, k);
                                }
                                assert(self.shown(c as int));
                            }
                            return Some(first + k);
                        }
                        proof {
                            assert forall|v: int|
                                self.shown(v) && lex_lt(ix, self.id(v)) implies !lex_lt(
                                self.id(v),
                                ip.push((k + 1) as usize),
                            ) by {
                                self.lemma_skip_deleted(p as int, k as int, v);
                            }
                        }
                        k = k + 1;
                    }
                }
            }
            proof {
                assert forall|v: int| self.shown(v) && lex_lt(ix, self.id(v)) implies lex_lt(
                    ip,
                    self.id(v),
                ) && !is_prefix(ip, self.id(v)) by {
                    if p == x {
                        self.lemma_beyond(p as int, v);
                    } else {
                        self.lemma_beyond(p as int, v);
                    }
                }
            }
            if p == 0 {
                proof {
                    assert forall|v: int| #[trigger] self.shown(v) implies !lex_lt(
                        ix,
                        self.id(v),
                    ) by {
                        self.lemma_anc_root(v);
                        self.lemma_anc_prefix(0, v);
                    }
                }
                return None;
            }
            let q = self.nodes[p].parent;
            proof {
                assert(self.node_ok(p as int));
            }
            let fq = match self.kids[q] {
                Children::Loaded { first, .. } => first,
                Children::NotLoaded => 0,
            };
            let idx = p - fq;
            proof {
                assert(self.is_anc(q as int, q as int));
                assert(self.is_anc(q as int, p as int));
                self.lemma_anc_transitive(q as int, p as int, x as int);
                self.lemma_anc_prefix(p as int, x as int);
                self.lemma_anc_prefix(q as int, x as int);
                self.lemma_path_anc(Visibility::Visible, self.parent(x as int), q as int);
                lemma_prefix_push(self.id(q as int), idx);
                assert(ix[self.id(q as int).len() as int] == idx) by {
                    assert(ix.subrange(0, ip.len() as int)[self.id(q as int).len() as int]
                        == ip[self.id(q as int).len() as int]);
                }
                assert forall|v: int| self.shown(v) && lex_lt(ix, self.id(v)) implies !lex_lt(
                    self.id(v),
                    self.id(q as int).push((idx + 1) as usize),
                ) by {
                    lemma_lex_past_sibling(self.id(q as int), idx, self.id(v));
                }
            }
            skip = idx + 1;
            p = q;
        }
    }
    /// Finds the last shown node before `x`: the last shown node inside the
    /// nearest live earlier sibling of `x`, or the parent of `x` when there is
    /// none (unless the parent is the root). There is none before the root.
    pub fn previous(&self, x: usize) -> (r: Option<usize>)
        requires
            self.wf(),
            self.reachable(x as int) || x == 0,
        ensures
            self.prev_of(x as int, r),
            x == 0 ==> r is None,
    {
        if x == 0 {
            proof {
                assert forall|v: int| #[trigger] self.shown(v) implies !lex_lt(
                    self.id(v),
                    self.id(0),
                ) by {
                    self.lemma_anc_root(v);
                    self.lemma_anc_prefix(0, v);
                    lemma_lex_prefix_lt(self.id(0), self.id(v));
                    lemma_lex_asymmetric(self.id(0), self.id(v));
                }
            }
            return None;
        }
        let ghost ix = self.id(x as int);
        let p = self.nodes[x].parent;
        proof {
            assert(self.node_ok(x as int));
            assert(self.kids_ok(p as int));
        }
        let first = match self.kids[p] {
            Children::Loaded { first, .. } => first,
            Children::NotLoaded => 0,
        };
        let ghost ip = self.id(p as int);
        let take = x - first;
        let mut k: usize = take;
        proof {
            assert forall|v: int| self.shown(v) && lex_lt(self.id(v), ix) implies lex_lt(
                self.id(v),
                ip.push(k),
            ) by {}
        }
        while k > 0 && self.deleted[first + k - 1]
            invariant
                self.wf(),
                p < self.len(),
                self.loaded(p as int),
                first == self.first(p as int),
                first + self.count(p as int) <= self.len(),
                k <= take < self.count(p as int),
                ip == self.id(p as int),
                forall|v: int|
                    #![trigger self.shown(v)]
                    self.shown(v) && lex_lt(self.id(v), ix) ==> lex_lt(self.id(v), ip.push(k)),
            decreases k,
        {
            proof {
                assert forall|v: int| self.shown(v) && lex_lt(self.id(v), ix) implies lex_lt(
                    self.id(v),
                    ip.push((k - 1) as usize),
                ) by {
                    self.lemma_skip_deleted_back(p as int, k as int, v);
                }
            }
            k = k - 1;
        }
        proof {
            lemma_prefix_push(ip, take);
        }
        if k == 0 {
            if p == 0 {
                proof {
                    assert forall|v: int| #[trigger] self.shown(v) implies !lex_lt(
                        self.id(v),
                        ix,
                    ) by {
                        if lex_lt(self.id(v), ix) {
                            lemma_lex_before_first_child(ip, self.id(v));
                            self.lemma_anc_root(v);
                            self.lemma_anc_prefix(0, v);
                            lemma_lex_prefix_lt(ip, self.id(v));
                        }
                    }
                }
                return None;
            }
            proof {
                lemma_lex_prefix_lt(ip, ix);
                assert forall|v: int| self.shown(v) && lex_lt(self.id(v), ix) implies !lex_lt(
                    ip,
                    self.id(v),
                ) by {
                    lemma_lex_before_first_child(ip, self.id(v));
                }
                assert(self.node_ok(p as int));
            }
            return Some(p);
        }
        let mut c: usize = first + k - 1;
        proof {
            let ic = ip.push((k - 1) as usize);
            self.lemma_child(p as int, k - 1);
            lemma_prefix_push(ip, (k - 1) as usize);
            lemma_lex_child(ip, ix, (k - 1) as usize);
            assert(!is_prefix(ic, ix)) by {
                if is_prefix(ic, ix) {
                    assert(ix.subrange(0, ic.len() as int)[ip.len() as int] == ic[ip.len() as int]);
                }
            }
            assert forall|v: int| self.shown(v) && lex_lt(self.id(v), ix) implies !lex_lt(
                ic,
                self.id(v),
            ) || is_prefix(ic, self.id(v)) by {
                let iv = self.id(v);
                if is_prefix(ip, iv) && iv.len() > ip.len() {
                    lemma_lex_child(ip, iv, k);
                    lemma_lex_child(ip, iv, (k - 1) as usize);
                    if iv[ip.len() as int] == k - 1 {
                        assert(iv.subrange(0, ic.len() as int) =~= ic);
                    } else {
                        lemma_lex_asymmetric(iv, ic);
                    }
                } else if is_prefix(ip, iv) {
                    assert(iv =~= ip);
                    lemma_lex_prefix_lt(ip, ic);
                    lemma_lex_asymmetric(ip, ic);
                } else {
                    assert(ip.push(k) =~= ip + seq![k]);
                    assert(ic =~= ip + seq![(k - 1) as usize]);
                    lemma_lex_not_prefix(ip, seq![k], iv);
                    lemma_lex_not_prefix(ip, seq![(k - 1) as usize], iv);
                    lemma_lex_asymmetric(iv, ic);
                }
            }
            assert(self.shown(c as int));
        }
        loop
            invariant
                self.wf(),
                x > 0,
                ix == self.id(x as int),
                c < self.len(),
                self.shown(c as int),
                lex_lt(self.id(c as int), ix),
                !is_prefix(self.id(c as int), ix),
                forall|v: int|
                    #![trigger self.shown(v)]
                    self.shown(v) && lex_lt(self.id(v), ix) ==> !lex_lt(
                        self.id(c as int),
                        self.id(v),
                    ) || is_prefix(self.id(c as int), self.id(v)),
            decreases self.len() - c,
        {
            let ghost ic = self.id(c as int);
            if !self.open[c] {
                proof {
                    assert forall|v: int| self.shown(v) && lex_lt(self.id(v), ix) implies !lex_lt(
                        ic,
                        self.id(v),
                    ) by {
                        if is_prefix(ic, self.id(v)) && self.id(v).len() > ic.len() {
                            self.lemma_below(c as int, v);
                        } else if is_prefix(ic, self.id(v)) {
                            assert(self.id(v) =~= ic);
                            lemma_lex_irreflexive(ic);
                        }
                    }
                }
                return Some(c);
            }
            match self.kids[c] {
                Children::NotLoaded => {
                    proof {
                        assert forall|v: int| self.shown(v) && lex_lt(self.id(v), ix) implies !lex_lt(
                            ic,
                            self.id(v),
                        ) by {
                            if is_prefix(ic, self.id(v)) && self.id(v).len() > ic.len() {
                                self.lemma_below(c as int, v);
                            } else if is_prefix(ic, self.id(v)) {
                                assert(self.id(v) =~= ic);
                                lemma_lex_irreflexive(ic);
                            }
                        }
                    }
                    return Some(c);
                },
                Children::Loaded { first: f, count: m } => {
                    proof {
                        assert(self.kids_ok(c as int));
                    }
                    let mut j: usize = m;
                    while j > 0 && self.deleted[f + j - 1]
                        invariant
                            self.wf(),
                            c < self.len(),
                            self.kids@[c as int] == (Children::Loaded { first: f, count: m }),
                            f + m <= self.len(),
                            j <= m,
                            forall|i: int| j <= i < m ==> #[trigger] self.deleted@[f + i],
                        decreases j,
                    {
                        j = j - 1;
                    }
                    if j == 0 {
                        proof {
                            assert forall|v: int| self.shown(v) && lex_lt(self.id(v), ix) implies !lex_lt(
                                ic,
                                self.id(v),
                            ) by {
                                if is_prefix(ic, self.id(v)) && self.id(v).len() > ic.len() {
                                    self.lemma_below(c as int, v);
                                    let i = self.id(v)[ic.len() as int] as int;
                                    assert(self.deleted@[f + i]);
                                    self.lemma_hidden_child(c as int, i, v);
                                } else if is_prefix(ic, self.id(v)) {
                                    assert(self.id(v) =~= ic);
                                    lemma_lex_irreflexive(ic);
                                }
                            }
                        }
                        return Some(c);
                    }
                    let d = f + j - 1;
                    proof {
                        let id_d = ic.push((j - 1) as usize);
                        self.lemma_child(c as int, j - 1);
                        lemma_prefix_push(ic, (j - 1) as usize);
                        lemma_lex_prefix_lt(ic, id_d);
                        assert(id_d =~= ic + seq![(j - 1) as usize]);
                        lemma_lex_not_prefix(ic, seq![(j - 1) as usize], ix);
                        assert(!is_prefix(id_d, ix)) by {
                            if is_prefix(id_d, ix) {
                                lemma_prefix_transitive(ic, id_d, ix);
                            }
                        }
                        assert(self.node_ok(c as int));
                        assert(self.shown(d as int));
                        assert forall|v: int| self.shown(v) && lex_lt(self.id(v), ix) implies !lex_lt(
                            id_d,
                            self.id(v),
                        ) || is_prefix(id_d, self.id(v)) by {
                            let iv = self.id(v);
                            if is_prefix(ic, iv) && iv.len() > ic.len() {
                                self.lemma_below(c as int, v);
                                let i = iv[ic.len() as int] as int;
                                if i >= j {
                                    assert(self.deleted@[f + i]);
                                    self.lemma_hidden_child(c as int, i, v);
                                } else if i == j - 1 {
                                    assert(iv.subrange(0, id_d.len() as int) =~= id_d);
                                } else {
                                    lemma_lex_child(ic, iv, (j - 1) as usize);
                                    lemma_lex_asymmetric(iv, id_d);
                                }
                            } else if is_prefix(ic, iv) {
                                assert(iv =~= ic);
                                lemma_lex_asymmetric(ic, id_d);
                            } else {
                                lemma_lex_total(ic, iv);
                                if ic == iv {
                                    assert(iv.subrange(0, ic.len() as int) =~= ic);
                                }
                                if lex_lt(iv, ic) {
                                    lemma_lex_transitive(iv, ic, id_d);
                                    lemma_lex_asymmetric(iv, id_d);
                                }
                            }
                        }
                    }
                    c = d;
                },
            }
        }
    }
}

/// A node listed as visible has no deleted ancestor, and is not deleted
/// itself, whatever sequence of opening, deleting and restoring led to the
/// tree.
pub proof fn lemma_visible_entries_undeleted(t: &Tree, x: usize, a: int)
    requires
        t.wf(),
        t.listing(Visibility::Visible).contains(x),
        t.is_anc(a, x as int),
    ensures
        !t.is_deleted(a),
{
    t.lemma_pre_listed(Visibility::Visible, 0, 0, x);
    if a == x as int {
    } else {
        t.lemma_listed_anc(Visibility::Visible, x as int, a);
    }
}

/// Stepping back from a shown node and then forward lands on it again.
pub proof fn lemma_next_of_previous(t: &Tree, x: int, back: Option<usize>, forth: Option<usize>)
    requires
        t.wf(),
        t.shown(x),
        t.prev_of(x, back),
        back is Some,
        t.next_of(back->0 as int, forth),
    ensures
        forth == Some(x as usize),
{
    let y = back->0 as int;
    match forth {
        None => {
            assert(t.shown(x));
        },
        Some(z) => {
            let z = z as int;
            assert(t.shown(x));
            assert(t.shown(z));
            lemma_lex_total(t.id(z), t.id(x));
            if lex_lt(t.id(z), t.id(x)) {
                assert(!lex_lt(t.id(y), t.id(z)));
            }
            t.lemma_ids_unique(z, x);
        },
    }
}

/// Stepping forward from a shown node and then back lands on it again.
pub proof fn lemma_previous_of_next(t: &Tree, x: int, forth: Option<usize>, back: Option<usize>)
    requires
        t.wf(),
        t.shown(x),
        t.next_of(x, forth),
        forth is Some,
        t.prev_of(forth->0 as int, back),
    ensures
        back == Some(x as usize),
{
    let y = forth->0 as int;
    match back {
        None => {
            assert(t.shown(x));
        },
        Some(z) => {
            let z = z as int;
            assert(t.shown(x));
            assert(t.shown(z));
            lemma_lex_total(t.id(z), t.id(x));
            if lex_lt(t.id(x), t.id(z)) {
                assert(!lex_lt(t.id(z), t.id(y)));
            }
            t.lemma_ids_unique(z, x);
        },
    }
}

/// The ids of `s` strictly increase.
pub open spec fn ids_increasing(t: Tree, s: Seq<usize>) -> bool {
    forall|i: int, j: int|
        0 <= i < j < s.len() ==> lex_lt(t.id(#[trigger] s[i] as int), t.id(#[trigger] s[j] as int))
}

proof fn lemma_increasing_concat(t: Tree, a: Seq<usize>, b: Seq<usize>)
    requires
        ids_increasing(t, a),
        ids_increasing(t, b),
        forall|i: int, j: int|
            0 <= i < a.len() && 0 <= j < b.len() ==> lex_lt(
                t.id(#[trigger] a[i] as int),
                t.id(#[trigger] b[j] as int),
            ),
    ensures
        ids_increasing(t, a + b),
{
    let c = a + b;
    assert forall|i: int, j: int| 0 <= i < j < c.len() implies lex_lt(
        t.id(#[trigger] c[i] as int),
        t.id(#[trigger] c[j] as int),
    ) by {
        if j < a.len() {
            assert(c[i] == a[i] && c[j] == a[j]);
        } else if i >= a.len() {
            assert(c[i] == b[i - a.len()] && c[j] == b[j - a.len()]);
        } else {
            assert(c[i] == a[i] && c[j] == b[j - a.len()]);
        }
    }
}

impl Tree {
    /// Everything in `pre(pol, p, k)` lies strictly below `p`, under entry
    /// `k` or a later one, and the ids increase along it.
    pub proof fn lemma_pre_sorted(&self, pol: Visibility, p: int, k: int)
        requires
            self.wf(),
            0 <= p < self.len(),
            0 <= k,
        ensures
            ids_increasing(*self, self.pre(pol, p, k)),
            forall|i: int|
                0 <= i < self.pre(pol, p, k).len() ==> {
                    let x = #[trigger] self.pre(pol, p, k)[i] as int;
                    &&& 0 <= x < self.len()
                    &&& self.is_anc(p, x)
                    &&& x != p
                    &&& self.id(p).len() < self.id(x).len()
                    &&& is_prefix(self.id(p), self.id(x))
                    &&& self.id(x)[self.id(p).len() as int] >= k
                },
        decreases self.len() - p, self.count(p) - k,
    {
        if self.loaded(p) && k < self.count(p) {
            let c = self.child(p, k);
            self.lemma_child(p, k);
            let ip = self.id(p);
            let ic = self.id(c);
            lemma_prefix_push(ip, k as usize);
            let head = if self.includes(pol, c) {
                seq![c as usize]
            } else {
                Seq::empty()
            };
            let below = if self.descends(pol, c) {
                self.pre(pol, c, 0)
            } else {
                Seq::empty()
            };
            let rest = self.pre(pol, p, k + 1);
            self.lemma_pre_sorted(pol, c, 0);
            self.lemma_pre_sorted(pol, p, k + 1);
            assert(self.pre(pol, p, k) == head + below + rest);
            assert forall|i: int| 0 <= i < below.len() implies {
                let x = #[trigger] below[i] as int;
                &&& self.is_anc(p, x)
                &&& x != p
                &&& self.id(p).len() < self.id(x).len()
                &&& is_prefix(ip, self.id(x))
                &&& self.id(x)[ip.len() as int] == k
                &&& lex_lt(ic, self.id(x))
            } by {
                let x = below[i] as int;
                assert(self.pre(pol, c, 0)[i] == below[i]);
                self.lemma_anc_transitive(p, c, x);
                lemma_prefix_transitive(ip, ic, self.id(x));
                lemma_lex_prefix_lt(ic, self.id(x));
                assert(self.id(x).subrange(0, ic.len() as int)[ip.len() as int] == ic[ip.len() as int]);
            }
            assert forall|i: int| 0 <= i < rest.len() implies lex_lt(ic, self.id(#[trigger] rest[i] as int)) by {
                lemma_lex_child(ip, self.id(rest[i] as int), k as usize);
            }
            assert forall|i: int, j: int| 0 <= i < below.len() && 0 <= j < rest.len() implies lex_lt(
                self.id(#[trigger] below[i] as int),
                self.id(#[trigger] rest[j] as int),
            ) by {
                let x = self.id(below[i] as int);
                let y = self.id(rest[j] as int);
                lemma_lex_child(ip, y, k as usize);
                assert(!is_prefix(ic, y)) by {
                    if is_prefix(ic, y) {
                        assert(y.subrange(0, ic.len() as int)[ip.len() as int] == ic[ip.len() as int]);
                    }
                }
                assert(x =~= ic + x.subrange(ic.len() as int, x.len() as int));
                lemma_lex_not_prefix(ic, x.subrange(ic.len() as int, x.len() as int), y);
            }
            if self.includes(pol, c) {
                assert forall|i: int| 0 <= i < below.len() implies lex_lt(self.id(#[trigger] head[0] as int), self.id(below[i] as int)) by {}
            }
            lemma_increasing_concat(*self, below, rest);
            assert forall|i: int, j: int| 0 <= i < head.len() && 0 <= j < (below + rest).len() implies lex_lt(
                self.id(#[trigger] head[i] as int),
                self.id(#[trigger] (below + rest)[j] as int),
            ) by {
                if j < below.len() {
                    assert((below + rest)[j] == below[j]);
                } else {
                    assert((below + rest)[j] == rest[j - below.len()]);
                }
            }
            lemma_increasing_concat(*self, head, below + rest);
            assert(head + below + rest =~= head + (below + rest));
            assert forall|i: int| 0 <= i < self.pre(pol, p, k).len() implies {
                let x = #[trigger] self.pre(pol, p, k)[i] as int;
                &&& 0 <= x < self.len()
                &&& self.is_anc(p, x)
                &&& x != p
                &&& self.id(p).len() < self.id(x).len()
                &&& is_prefix(self.id(p), self.id(x))
                &&& self.id(x)[self.id(p).len() as int] >= k
            } by {
                let all = self.pre(pol, p, k);
                if i < head.len() {
                    assert(all[i] == c);
                } else if i < head.len() + below.len() {
                    assert(all[i] == below[i - head.len()]);
                    assert(self.pre(pol, c, 0)[i - head.len()] == below[i - head.len()]);
                } else {
                    assert(all[i] == rest[i - head.len() - below.len()]);
                }
            }
        }
    }

    /// Every listed node below `p`, under entry `k` or a later one, is in
    /// `pre(pol, p, k)`.
    pub proof fn lemma_pre_complete(&self, pol: Visibility, p: int, k: int, v: int)
        requires
            self.wf(),
            0 <= p < self.len(),
            0 <= k,
            self.listed(pol, v),
            self.is_anc(p, v),
            v != p,
            self.id(v)[self.id(p).len() as int] >= k,
        ensures
            self.pre(pol, p, k).contains(v as usize),
        decreases self.len() - p, self.count(p) - k,
    {
        self.lemma_step_down(p, v);
        let idx = self.id(v)[self.id(p).len() as int] as int;
        let c = self.child(p, k);
        self.lemma_child(p, k);
        let head = if self.includes(pol, c) {
            seq![c as usize]
        } else {
            Seq::empty()
        };
        let below = if self.descends(pol, c) {
            self.pre(pol, c, 0)
        } else {
            Seq::empty()
        };
        let rest = self.pre(pol, p, k + 1);
        assert(self.pre(pol, p, k) == head + below + rest);
        if idx == k {
            if v == c {
                assert((head + below + rest)[0] == v as usize);
            } else {
                self.lemma_listed_anc(pol, v, c);
                self.lemma_step_down(c, v);
                self.lemma_pre_complete(pol, c, 0, v);
                let i = choose|i: int| 0 <= i < below.len() && below[i] == v as usize;
                assert((head + below + rest)[head.len() + i] == v as usize);
            }
        } else {
            self.lemma_pre_complete(pol, p, k + 1, v);
            let i = choose|i: int| 0 <= i < rest.len() && rest[i] == v as usize;
            assert((head + below + rest)[head.len() + below.len() + i] == v as usize);
        }
    }
}

/// A listing holds exactly the nodes the policy reports, in increasing id
/// order: pre-order and id order agree.
pub proof fn lemma_listing_in_id_order(t: &Tree, pol: Visibility)
    requires
        t.wf(),
    ensures
        ids_increasing(*t, t.listing(pol)),
        forall|v: int| 0 <= v < t.len() ==> (t.listed(pol, v) <==> t.listing(pol).contains(v as usize)),
{
    if t.descends(pol, 0) {
        t.lemma_pre_sorted(pol, 0, 0);
    }
    assert forall|v: int| 0 <= v < t.len() implies (t.listed(pol, v) <==> t.listing(pol).contains(
        v as usize,
    )) by {
        if t.listed(pol, v) {
            t.lemma_anc_root(v);
            t.lemma_listed_anc(pol, v, 0);
            t.lemma_step_down(0, v);
            t.lemma_pre_complete(pol, 0, 0, v);
        }
        if t.listing(pol).contains(v as usize) {
            t.lemma_pre_listed(pol, 0, 0, v as usize);
        }
    }
}

/// `next` and `previous` step through the visible listing one entry at a
/// time: whatever satisfies their contracts from entry `i` is entry `i + 1`,
/// or entry `i - 1`, and nothing lies past either end.
pub proof fn lemma_steps_follow_listing(t: &Tree, i: int)
    requires
        t.wf(),
        0 <= i < t.listing(Visibility::Visible).len(),
    ensures
        ({
            let l = t.listing(Visibility::Visible);
            &&& forall|r: Option<usize>|
                #[trigger] t.next_of(l[i] as int, r) ==> r == if i + 1 < l.len() {
                    Some(l[i + 1])
                } else {
                    None::<usize>
                }
            &&& forall|r: Option<usize>|
                #[trigger] t.prev_of(l[i] as int, r) ==> r == if i > 0 {
                    Some(l[i - 1])
                } else {
                    None::<usize>
                }
        }),
{
    let l = t.listing(Visibility::Visible);
    lemma_listing_in_id_order(t, Visibility::Visible);
    t.lemma_pre_listed(Visibility::Visible, 0, 0, l[i]);
    assert(t.listing(Visibility::Visible).contains(l[i]));
    let x = l[i] as int;
    assert forall|v: int| t.shown(v) implies exists|m: int| 0 <= m < l.len() && l[m] == v as usize by {
        assert(l.contains(v as usize));
    }
    assert forall|r: Option<usize>| #[trigger] t.next_of(x, r) implies r == if i + 1 < l.len() {
        Some(l[i + 1])
    } else {
        None::<usize>
    } by {
        if i + 1 < l.len() {
            let y = l[i + 1] as int;
            assert(l.contains(l[i + 1]));
            t.lemma_pre_listed(Visibility::Visible, 0, 0, l[i + 1]);
            assert(t.shown(y));
            assert(lex_lt(t.id(x), t.id(y)));
            match r {
                Some(z) => {
                    let z = z as int;
                    let m = choose|m: int| 0 <= m < l.len() && l[m] == z as usize;
                    lemma_lex_total(t.id(z), t.id(y));
                    if lex_lt(t.id(z), t.id(y)) {
                        if m <= i {
                            if m < i {
                                assert(lex_lt(t.id(l[m] as int), t.id(l[i] as int)));
                                lemma_lex_asymmetric(t.id(z), t.id(x));
                            } else {
                                lemma_lex_irreflexive(t.id(x));
                            }
                        } else {
                            assert(lex_lt(t.id(l[i + 1] as int), t.id(l[m] as int)) || m == i + 1);
                            if m == i + 1 {
                                lemma_lex_irreflexive(t.id(y));
                            } else {
                                lemma_lex_asymmetric(t.id(y), t.id(z));
                            }
                        }
                    } else if lex_lt(t.id(y), t.id(z)) {
                    }
                    t.lemma_ids_unique(z, y);
                },
                None => {},
            }
        } else {
            match r {
                Some(z) => {
                    let z = z as int;
                    let m = choose|m: int| 0 <= m < l.len() && l[m] == z as usize;
                    if m < i {
                        assert(lex_lt(t.id(l[m] as int), t.id(l[i] as int)));
                        lemma_lex_asymmetric(t.id(z), t.id(x));
                    } else {
                        lemma_lex_irreflexive(t.id(x));
                    }
                },
                None => {},
            }
        }
    }
    assert forall|r: Option<usize>| #[trigger] t.prev_of(x, r) implies r == if i > 0 {
        Some(l[i - 1])
    } else {
        None::<usize>
    } by {
        if i > 0 {
            let y = l[i - 1] as int;
            assert(l.contains(l[i - 1]));
            t.lemma_pre_listed(Visibility::Visible, 0, 0, l[i - 1]);
            assert(t.shown(y));
            assert(lex_lt(t.id(y), t.id(x)));
            match r {
                Some(z) => {
                    let z = z as int;
                    let m = choose|m: int| 0 <= m < l.len() && l[m] == z as usize;
                    lemma_lex_total(t.id(z), t.id(y));
                    if lex_lt(t.id(y), t.id(z)) {
                        if m >= i {
                            if m > i {
                                assert(lex_lt(t.id(l[i] as int), t.id(l[m] as int)));
                                lemma_lex_asymmetric(t.id(x), t.id(z));
                            } else {
                                lemma_lex_irreflexive(t.id(x));
                            }
                        } else {
                            assert(lex_lt(t.id(l[m] as int), t.id(l[i - 1] as int)) || m == i - 1);
                            if m == i - 1 {
                                lemma_lex_irreflexive(t.id(y));
                            } else {
                                lemma_lex_asymmetric(t.id(z), t.id(y));
                            }
                        }
                    }
                    t.lemma_ids_unique(z, y);
                },
                None => {},
            }
        } else {
            match r {
                Some(z) => {
                    let z = z as int;
                    let m = choose|m: int| 0 <= m < l.len() && l[m] == z as usize;
                    if m > i {
                        assert(lex_lt(t.id(l[i] as int), t.id(l[m] as int)));
                        lemma_lex_asymmetric(t.id(x), t.id(z));
                    } else {
                        lemma_lex_irreflexive(t.id(x));
                    }
                },
                None => {},
            }
        }
    }
}

} // verus!

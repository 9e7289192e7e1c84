use vstd::prelude::*;

verus! {

/// Lexicographic order on node ids: a proper prefix comes first, otherwise the
/// first differing component decides.
pub open spec fn lex_lt(a: Seq<usize>, b: Seq<usize>) -> bool
    decreases a.len(),
{
    if a.len() == 0 {
        b.len() > 0
    } else if b.len() == 0 {
        false
    } else if a[0] != b[0] {
        a[0] < b[0]
    } else {
        lex_lt(a.drop_first(), b.drop_first())
    }
}

/// `p` is a prefix of `v` (possibly `v` itself).
pub open spec fn is_prefix(p: Seq<usize>, v: Seq<usize>) -> bool {
    p.len() <= v.len() && v.subrange(0, p.len() as int) == p
}

pub proof fn lemma_lex_irreflexive(a: Seq<usize>)
    ensures
        !lex_lt(a, a),
    decreases a.len(),
{
    if a.len() > 0 {
        lemma_lex_irreflexive(a.drop_first());
    }
}

pub proof fn lemma_lex_asymmetric(a: Seq<usize>, b: Seq<usize>)
    requires
        lex_lt(a, b),
    ensures
        !lex_lt(b, a),
    decreases a.len(),
{
    if a.len() > 0 && b.len() > 0 && a[0] == b[0] {
        lemma_lex_asymmetric(a.drop_first(), b.drop_first());
    }
}

pub proof fn lemma_lex_transitive(a: Seq<usize>, b: Seq<usize>, c: Seq<usize>)
    requires
        lex_lt(a, b),
        lex_lt(b, c),
    ensures
        lex_lt(a, c),
    decreases a.len(),
{
    if a.len() > 0 && b.len() > 0 && c.len() > 0 && a[0] == b[0] && b[0] == c[0] {
        lemma_lex_transitive(a.drop_first(), b.drop_first(), c.drop_first());
    }
}

pub proof fn lemma_lex_total(a: Seq<usize>, b: Seq<usize>)
    ensures
        a == b || lex_lt(a, b) || lex_lt(b, a),
    decreases a.len(),
{
    if a.len() > 0 && b.len() > 0 && a[0] == b[0] {
        lemma_lex_total(a.drop_first(), b.drop_first());
        if a.drop_first() == b.drop_first() {
            assert(a =~= seq![a[0]] + a.drop_first());
            assert(b =~= seq![b[0]] + b.drop_first());
        }
    } else if a.len() == 0 && b.len() == 0 {
        assert(a =~= b);
    }
}

/// Below an extension of `p`, only the component right after `p` decides
/// against `p.push(k)`.
pub proof fn lemma_lex_child(p: Seq<usize>, v: Seq<usize>, k: usize)
    requires
        is_prefix(p, v),
        v.len() > p.len(),
    ensures
        lex_lt(v, p.push(k)) <==> v[p.len() as int] < k,
        lex_lt(p.push(k), v) <==> (v[p.len() as int] > k || (v[p.len() as int] == k && v.len()
            > p.len() + 1)),
        lex_lt(p, v),
    decreases p.len(),
{
    if p.len() == 0 {
        assert(p.push(k)[0] == k);
        assert(p.push(k).drop_first() =~= Seq::<usize>::empty());
        assert(lex_lt(Seq::<usize>::empty(), v.drop_first()) == (v.len() > 1));
        assert(lex_lt(v.drop_first(), Seq::<usize>::empty()) == false);
    } else {
        assert(v[0] == p[0]);
        assert(p.push(k)[0] == p[0]);
        assert(p.push(k).drop_first() =~= p.drop_first().push(k));
        assert(v.drop_first().subrange(0, p.drop_first().len() as int) =~= p.drop_first());
        assert(v.drop_first()[p.drop_first().len() as int] == v[p.len() as int]);
        lemma_lex_child(p.drop_first(), v.drop_first(), k);
    }
}

/// When `v` does not extend `p`, every extension of `p` compares with `v`
/// as `p` does.
pub proof fn lemma_lex_not_prefix(p: Seq<usize>, s: Seq<usize>, v: Seq<usize>)
    requires
        !is_prefix(p, v),
    ensures
        lex_lt(p + s, v) == lex_lt(p, v),
        lex_lt(v, p + s) == lex_lt(v, p),
    decreases p.len(),
{
    if p.len() == 0 {
        assert(v.subrange(0, 0) =~= p);
    } else if v.len() == 0 {
    } else {
        assert((p + s)[0] == p[0]);
        assert((p + s).drop_first() =~= p.drop_first() + s);
        if p[0] == v[0] {
            if is_prefix(p.drop_first(), v.drop_first()) {
                assert forall|i: int| 0 <= i < p.len() implies v[i] == p[i] by {
                    if i > 0 {
                        assert(v.drop_first().subrange(0, p.drop_first().len() as int)[i - 1]
                            == p.drop_first()[i - 1]);
                    }
                }
                assert(v.subrange(0, p.len() as int) =~= p);
            }
            lemma_lex_not_prefix(p.drop_first(), s, v.drop_first());
        }
    }
}

/// Past `q.push(j)` and outside its extensions means at or past
/// `q.push(j + 1)`.
pub proof fn lemma_lex_past_sibling(q: Seq<usize>, j: usize, v: Seq<usize>)
    requires
        lex_lt(q.push(j), v),
        !is_prefix(q.push(j), v),
        j < usize::MAX,
    ensures
        !lex_lt(v, q.push((j + 1) as usize)),
{
    lemma_prefix_push(q, j);
    if is_prefix(q, v) && v.len() > q.len() {
        lemma_lex_child(q, v, j);
        lemma_lex_child(q, v, (j + 1) as usize);
        if v[q.len() as int] == j {
            assert(v.subrange(0, q.len() as int + 1) =~= q.push(j));
        }
    } else if is_prefix(q, v) {
        assert(v =~= q);
        lemma_lex_child(q, q.push(j), j);
        lemma_lex_asymmetric(q, q.push(j));
    } else {
        assert(q.push(j) =~= q + seq![j]);
        assert(q.push((j + 1) as usize) =~= q + seq![(j + 1) as usize]);
        lemma_lex_not_prefix(q, seq![j], v);
        lemma_lex_not_prefix(q, seq![(j + 1) as usize], v);
        lemma_lex_asymmetric(q, v);
    }
}

/// Before `p.push(0)` means at or before `p`.
pub proof fn lemma_lex_before_first_child(p: Seq<usize>, v: Seq<usize>)
    requires
        lex_lt(v, p.push(0)),
    ensures
        !lex_lt(p, v),
{
    lemma_prefix_push(p, 0);
    if is_prefix(p, v) && v.len() > p.len() {
        lemma_lex_child(p, v, 0);
    } else if is_prefix(p, v) {
        assert(v =~= p);
        lemma_lex_irreflexive(p);
    } else {
        assert(p.push(0) =~= p + seq![0usize]);
        lemma_lex_not_prefix(p, seq![0usize], v);
        lemma_lex_asymmetric(v, p);
    }
}

/// `a <= b < c` gives `a < c`, in the form of a negated `<`.
pub proof fn lemma_lex_transitive_or_eq(a: Seq<usize>, b: Seq<usize>, c: Seq<usize>)
    requires
        !lex_lt(b, a),
        lex_lt(b, c),
    ensures
        !lex_lt(c, a),
{
    lemma_lex_total(a, b);
    if lex_lt(a, b) {
        lemma_lex_transitive(a, b, c);
        lemma_lex_asymmetric(a, c);
    } else {
        lemma_lex_asymmetric(b, c);
    }
}

/// A proper extension comes after the prefix.
pub proof fn lemma_lex_prefix_lt(p: Seq<usize>, v: Seq<usize>)
    requires
        is_prefix(p, v),
        v.len() > p.len(),
    ensures
        lex_lt(p, v),
{
    lemma_lex_child(p, v, 0);
}

pub proof fn lemma_prefix_push(p: Seq<usize>, k: usize)
    ensures
        is_prefix(p, p.push(k)),
        p.push(k).len() == p.len() + 1,
        p.push(k)[p.len() as int] == k,
{
    assert(p.push(k).subrange(0, p.len() as int) =~= p);
}

pub proof fn lemma_prefix_transitive(a: Seq<usize>, b: Seq<usize>, c: Seq<usize>)
    requires
        is_prefix(a, b),
        is_prefix(b, c),
    ensures
        is_prefix(a, c),
{
    assert(c.subrange(0, a.len() as int) =~= b.subrange(0, a.len() as int));
}

/// Compares two ids in lexicographic order.
pub fn id_lt(a: &Vec<usize>, b: &Vec<usize>) -> (r: bool)
    ensures
        r == lex_lt(a@, b@),
{
    let mut i: usize = 0;
    proof {
        assert(a@.subrange(0, a.len() as int) =~= a@);
        assert(b@.subrange(0, b.len() as int) =~= b@);
    }
    while i < a.len() && i < b.len()
        invariant
            i <= a.len(),
            i <= b.len(),
            a@.subrange(0, i as int) == b@.subrange(0, i as int),
            lex_lt(a@, b@) == lex_lt(a@.subrange(i as int, a.len() as int), b@.subrange(
                i as int,
                b.len() as int,
            )),
        decreases a.len() - i,
    {
        if a[i] != b[i] {
            return a[i] < b[i];
        }
        proof {
            let sa = a@.subrange(i as int, a.len() as int);
            let sb = b@.subrange(i as int, b.len() as int);
            assert(sa.drop_first() =~= a@.subrange(i + 1, a.len() as int));
            assert(sb.drop_first() =~= b@.subrange(i + 1, b.len() as int));
            assert(a@.subrange(0, i + 1) =~= a@.subrange(0, i as int).push(a[i as int]));
            assert(b@.subrange(0, i + 1) =~= b@.subrange(0, i as int).push(b[i as int]));
        }
        i = i + 1;
    }
    i < b.len()
}

} // verus!

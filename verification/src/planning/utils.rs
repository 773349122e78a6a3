use vstd::prelude::*;
use crate::planning::symbols::SymId;

verus! {

/// `x` followed by each sequence of `tails`, in order.
pub open spec fn prefix_all(x: SymId, tails: Seq<Seq<SymId>>) -> Seq<Seq<SymId>> {
    tails.map_values(|t: Seq<SymId>| seq![x] + t)
}

/// For each `x` of `heads` in order, `x` followed by each sequence of `tails`.
pub open spec fn prefix_each(heads: Seq<SymId>, tails: Seq<Seq<SymId>>) -> Seq<Seq<SymId>>
    decreases heads.len(),
{
    if heads.len() == 0 {
        Seq::empty()
    } else {
        prefix_each(heads.drop_last(), tails) + prefix_all(heads.last(), tails)
    }
}

/// All tuples that take their `i`-th element in `generators[i]`, in
/// lexicographic order (the last position changes fastest).
pub open spec fn product(generators: Seq<Seq<SymId>>) -> Seq<Seq<SymId>>
    decreases generators.len(),
{
    if generators.len() == 0 {
        seq![Seq::empty()]
    } else {
        prefix_each(generators[0], product(generators.drop_first()))
    }
}

/// The product of the numbers of candidates of all generators.
pub open spec fn product_len(generators: Seq<Seq<SymId>>) -> nat
    decreases generators.len(),
{
    if generators.len() == 0 {
        1
    } else {
        generators[0].len() * product_len(generators.drop_first())
    }
}

/// There are as many combinations as the product of the numbers of candidates.
pub proof fn lemma_product_len(generators: Seq<Seq<SymId>>)
    ensures
        product(generators).len() == product_len(generators),
    decreases generators.len(),
{
    if generators.len() > 0 {
        lemma_product_len(generators.drop_first());
        lemma_prefix_each_len(generators[0], product(generators.drop_first()));
    }
}

proof fn lemma_prefix_each_len(heads: Seq<SymId>, tails: Seq<Seq<SymId>>)
    ensures
        prefix_each(heads, tails).len() == heads.len() * tails.len(),
    decreases heads.len(),
{
    if heads.len() > 0 {
        lemma_prefix_each_len(heads.drop_last(), tails);
        let h = heads.len() as int;
        let t = tails.len() as int;
        assert((h - 1) * t + t == h * t) by (nonlinear_arith);
    }
}

/// Every tuple of `product(generators)` has one element per generator,
/// taken from that generator, and every such tuple is in it.
pub proof fn lemma_product_members(generators: Seq<Seq<SymId>>)
    ensures
        forall|t: Seq<SymId>|
            #[trigger] product(generators).contains(t) <==> (t.len() == generators.len() && forall|
                i: int,
            |
                0 <= i < t.len() ==> generators[i].contains(#[trigger] t[i])),
    decreases generators.len(),
{
    if generators.len() > 0 {
        let rest = generators.drop_first();
        lemma_product_members(rest);
        let tails = product(rest);
        lemma_prefix_each_members(generators[0], tails);
        assert forall|t: Seq<SymId>|
            #[trigger] product(generators).contains(t) <==> (t.len() == generators.len() && forall|
                i: int,
            |
                0 <= i < t.len() ==> generators[i].contains(#[trigger] t[i])) by {
            if t.len() == generators.len() && forall|i: int|
                0 <= i < t.len() ==> generators[i].contains(#[trigger] t[i]) {
                let tl = t.drop_first();
                assert forall|i: int| 0 <= i < tl.len() implies rest[i].contains(#[trigger] tl[i]) by {
                    assert(generators[i + 1].contains(t[i + 1]));
                }
                assert(tails.contains(tl));
                assert(generators[0].contains(t[0]));
                assert(t =~= seq![t[0]] + tl);
            }
            if product(generators).contains(t) {
                let (x, tl) = choose|x: SymId, tl: Seq<SymId>|
                    generators[0].contains(x) && tails.contains(tl) && t == seq![x] + tl;
                assert forall|i: int| 0 <= i < t.len() implies generators[i].contains(#[trigger] t[i]) by {
                    if i > 0 {
                        assert(t[i] == tl[i - 1]);
                        assert(rest[i - 1].contains(tl[i - 1]));
                    }
                }
            }
        }
    } else {
        assert forall|t: Seq<SymId>|
            #[trigger] product(generators).contains(t) <==> (t.len() == generators.len() && forall|
                i: int,
            |
                0 <= i < t.len() ==> generators[i].contains(#[trigger] t[i])) by {
            if t.len() == 0 {
                assert(t =~= Seq::<SymId>::empty());
                assert(product(generators)[0] == t);
            }
        }
    }
}

proof fn lemma_prefix_each_members(heads: Seq<SymId>, tails: Seq<Seq<SymId>>)
    ensures
        forall|t: Seq<SymId>|
            #[trigger] prefix_each(heads, tails).contains(t) <==> exists|x: SymId, tl: Seq<SymId>|
                heads.contains(x) && tails.contains(tl) && t == seq![x] + tl,
    decreases heads.len(),
{
    if heads.len() > 0 {
        let pre = heads.drop_last();
        lemma_prefix_each_members(pre, tails);
        let x0 = heads.last();
        assert forall|t: Seq<SymId>|
            #[trigger] prefix_each(heads, tails).contains(t) <==> exists|x: SymId, tl: Seq<SymId>|
                heads.contains(x) && tails.contains(tl) && t == seq![x] + tl by {
            let a = prefix_each(pre, tails);
            let b = prefix_all(x0, tails);
            if prefix_each(heads, tails).contains(t) {
                let k = choose|k: int| 0 <= k < a.len() + b.len() && (a + b)[k] == t;
                if k < a.len() {
                    assert(a.contains(t));
                    let (x, tl) = choose|x: SymId, tl: Seq<SymId>|
                        pre.contains(x) && tails.contains(tl) && t == seq![x] + tl;
                    let i = choose|i: int| 0 <= i < pre.len() && pre[i] == x;
                    assert(heads[i] == x);
                } else {
                    assert(b[k - a.len()] == t);
                    assert(tails.contains(tails[k - a.len()]));
                    assert(heads[heads.len() - 1] == x0);
                }
            }
            if exists|x: SymId, tl: Seq<SymId>| heads.contains(x) && tails.contains(tl) && t == seq![x]
                + tl {
                let (x, tl) = choose|x: SymId, tl: Seq<SymId>|
                    heads.contains(x) && tails.contains(tl) && t == seq![x] + tl;
                let i = choose|i: int| 0 <= i < heads.len() && heads[i] == x;
                if i < heads.len() - 1 {
                    assert(pre[i] == x);
                    assert(a.contains(t));
                    let k = choose|k: int| 0 <= k < a.len() && a[k] == t;
                    assert((a + b)[k] == t);
                } else {
                    let k = choose|k: int| 0 <= k < tails.len() && tails[k] == tl;
                    assert(b[k] == t);
                    assert((a + b)[a.len() + k] == t);
                }
            }
        }
    }
}

/// `x` followed by the symbols of `tail`.
fn cons(x: SymId, tail: &Vec<SymId>) -> (r: Vec<SymId>)
    ensures
        r@ == seq![x] + tail@,
{
    let mut r: Vec<SymId> = Vec::new();
    r.push(x);
    for i in 0..tail.len()
        invariant
            r@ == seq![x] + tail@.take(i as int),
    {
        r.push(tail[i]);
        assert(r@ =~= seq![x] + tail@.take(i + 1));
    }
    assert(tail@.take(tail@.len() as int) =~= tail@);
    r
}

/// All combinations that take their `i`-th element among `generators[i]`, in
/// lexicographic order: the last position changes fastest.
pub fn enumerate(generators: &Vec<Vec<SymId>>) -> (res: Vec<Vec<SymId>>)
    ensures
        res@.map_values(|v: Vec<SymId>| v@) == product(generators@.map_values(|v: Vec<SymId>| v@)),
{
    let ghost gens = generators@.map_values(|v: Vec<SymId>| v@);
    let mut acc: Vec<Vec<SymId>> = Vec::new();
    acc.push(Vec::new());
    assert(acc@.map_values(|v: Vec<SymId>| v@) =~= seq![Seq::<SymId>::empty()]);
    assert(gens.skip(gens.len() as int) =~= Seq::<Seq<SymId>>::empty());
    let mut k = generators.len();
    while k > 0
        invariant
            k <= generators@.len(),
            gens == generators@.map_values(|v: Vec<SymId>| v@),
            acc@.map_values(|v: Vec<SymId>| v@) == product(gens.skip(k as int)),
        decreases k,
    {
        k = k - 1;
        let g = &generators[k];
        let ghost tails = acc@.map_values(|v: Vec<SymId>| v@);
        let mut next: Vec<Vec<SymId>> = Vec::new();
        for i in 0..g.len()
            invariant
                tails == acc@.map_values(|v: Vec<SymId>| v@),
                next@.map_values(|v: Vec<SymId>| v@) == prefix_each(g@.take(i as int), tails),
        {
            let ghost before = next@.map_values(|v: Vec<SymId>| v@);
            for j in 0..acc.len()
                invariant
                    tails == acc@.map_values(|v: Vec<SymId>| v@),
                    i < g@.len(),
                    next@.map_values(|v: Vec<SymId>| v@) == before + prefix_all(g@[i as int], tails).take(
                        j as int,
                    ),
            {
                let t = cons(g[i], &acc[j]);
                let ghost prev = next@;
                next.push(t);
                assert(tails[j as int] == acc@[j as int]@);
                assert(prefix_all(g@[i as int], tails)[j as int] == seq![g@[i as int]] + tails[j as int]);
                assert(next@.map_values(|v: Vec<SymId>| v@) =~= prev.map_values(|v: Vec<SymId>| v@).push(t@));
                assert(next@.map_values(|v: Vec<SymId>| v@) =~= before + prefix_all(g@[i as int], tails).take(
                    j + 1,
                ));
            }
            assert(prefix_all(g@[i as int], tails).take(acc@.len() as int) =~= prefix_all(g@[i as int], tails));
            assert(g@.take(i + 1).drop_last() =~= g@.take(i as int));
        }
        assert(g@.take(g@.len() as int) =~= g@);
        assert(gens.skip(k as int).drop_first() =~= gens.skip(k + 1));
        acc = next;
    }
    assert(gens.skip(0) =~= gens);
    acc
}

} // verus!

//! The bound on the number of terms a frontier can still produce, and the
//! sums over a frontier that the engine's measures are made of.
use vstd::prelude::*;
use crate::graph::Graph;

verus! {

/// `7^(t / 6) * 2^((t % 6) / 2)`, doubled when `t % 6` is odd: how many
/// terms a diagram with `t` T-vertices can still produce.
pub open spec fn term_bound(t: nat) -> nat {
    pow_nat(7, t / 6) * pow_nat(2, ((t % 6) / 2) as nat) * if (t % 6) % 2 == 1 {
        2nat
    } else {
        1nat
    }
}

/// `b^e`.
pub open spec fn pow_nat(b: nat, e: nat) -> nat
    decreases e,
{
    if e == 0 {
        1
    } else {
        b * pow_nat(b, (e - 1) as nat)
    }
}

/// The sum of `f` of the T-counts of the pending diagrams.
pub open spec fn sum_by(s: Seq<(usize, Graph)>, f: spec_fn(nat) -> nat) -> nat
    decreases s.len(),
{
    if s.len() == 0 {
        0
    } else {
        sum_by(s.drop_last(), f) + f(s.last().1.tcount_spec())
    }
}

/// The term bound as a function of the T-count.
pub open spec fn bound_fn() -> spec_fn(nat) -> nat {
    |t: nat| term_bound(t)
}

/// A measure that every step decreases: `3^t` per pending diagram.
pub open spec fn weight_fn() -> spec_fn(nat) -> nat {
    |t: nat| pow_nat(3, t)
}

/// The sum over two frontiers one after the other is the sum of the two.
pub proof fn lemma_sum_concat(a: Seq<(usize, Graph)>, b: Seq<(usize, Graph)>, f: spec_fn(nat) -> nat)
    ensures
        sum_by(a + b, f) == sum_by(a, f) + sum_by(b, f),
    decreases b.len(),
{
    if b.len() == 0 {
        assert(a + b =~= a);
    } else {
        lemma_sum_concat(a, b.drop_last(), f);
        assert((a + b).drop_last() =~= a + b.drop_last());
    }
}

/// Where all entries have T-count `t`, the sum is the length times `f(t)`.
pub proof fn lemma_sum_uniform(cs: Seq<(usize, Graph)>, f: spec_fn(nat) -> nat, t: nat)
    requires
        forall|i: int| 0 <= i < cs.len() ==> (#[trigger] cs[i]).1.tcount_spec() == t,
    ensures
        sum_by(cs, f) == cs.len() * f(t),
    decreases cs.len(),
{
    if cs.len() > 0 {
        lemma_sum_uniform(cs.drop_last(), f, t);
        assert(cs.last() == cs[cs.len() - 1]);
        assert((cs.len() - 1) * f(t) + f(t) == cs.len() * f(t)) by (nonlinear_arith);
    }
}

/// `b^(k + m) = b^k * b^m`.
pub proof fn lemma_pow_split(b: nat, k: nat, m: nat)
    ensures
        pow_nat(b, k + m) == pow_nat(b, k) * pow_nat(b, m),
    decreases k,
{
    if k == 0 {
        assert(pow_nat(b, 0) == 1);
        assert(k + m == m);
    } else {
        let j = (k - 1) as nat;
        lemma_pow_split(b, j, m);
        assert(k + m == (j + m) + 1);
        assert(pow_nat(b, k + m) == b * pow_nat(b, j + m));
        assert(pow_nat(b, k) == b * pow_nat(b, j));
        let x = pow_nat(b, j);
        let y = pow_nat(b, m);
        assert(b * (x * y) == (b * x) * y) by (nonlinear_arith);
    }
}

/// A power of a positive base is positive.
pub proof fn lemma_pow_pos(b: nat, e: nat)
    requires
        b > 0,
    ensures
        pow_nat(b, e) > 0,
    decreases e,
{
    if e > 0 {
        lemma_pow_pos(b, (e - 1) as nat);
        assert(b * pow_nat(b, (e - 1) as nat) > 0) by (nonlinear_arith)
            requires
                b > 0,
                pow_nat(b, (e - 1) as nat) > 0,
        ;
    }
}

/// The bound for fewer than six T-vertices.
pub proof fn lemma_small_bounds()
    ensures
        term_bound(0) == 1,
        term_bound(1) == 2,
        term_bound(2) == 2,
        term_bound(3) == 4,
        term_bound(4) == 4,
        term_bound(5) == 8,
{
    reveal_with_fuel(pow_nat, 3);
    assert(term_bound(0) == 1) by {
        assert(0nat / 6 == 0 && (0nat % 6) / 2 == 0 && (0nat % 6) % 2 == 0);
        assert(pow_nat(7, 0) == 1 && pow_nat(2, 0) == 1);
        assert(pow_nat(7, 0nat / 6) * pow_nat(2, ((0nat % 6) / 2) as nat) == 1);
    }
    assert(term_bound(1) == 2) by {
        assert(1nat / 6 == 0 && (1nat % 6) / 2 == 0 && (1nat % 6) % 2 == 1);
        assert(pow_nat(7, 0) == 1 && pow_nat(2, 0) == 1);
    }
    assert(term_bound(2) == 2) by {
        assert(2nat / 6 == 0 && (2nat % 6) / 2 == 1 && (2nat % 6) % 2 == 0);
        assert(pow_nat(7, 0) == 1 && pow_nat(2, 1) == 2);
    }
    assert(term_bound(3) == 4) by {
        assert(3nat / 6 == 0 && (3nat % 6) / 2 == 1 && (3nat % 6) % 2 == 1);
        assert(pow_nat(7, 0) == 1 && pow_nat(2, 1) == 2);
    }
    assert(term_bound(4) == 4) by {
        assert(4nat / 6 == 0 && (4nat % 6) / 2 == 2 && (4nat % 6) % 2 == 0);
        assert(pow_nat(7, 0) == 1 && pow_nat(2, 2) == 4);
    }
    assert(term_bound(5) == 8) by {
        assert(5nat / 6 == 0 && (5nat % 6) / 2 == 2 && (5nat % 6) % 2 == 1);
        assert(pow_nat(7, 0) == 1 && pow_nat(2, 2) == 4);
    }
}

/// The sum over a frontier, split at its first entry.
pub proof fn lemma_sum_front(s: Seq<(usize, Graph)>, f: spec_fn(nat) -> nat)
    requires
        s.len() > 0,
    ensures
        sum_by(s, f) == f(s[0].1.tcount_spec()) + sum_by(s.drop_first(), f),
{
    lemma_sum_concat(seq![s[0]], s.drop_first(), f);
    assert(seq![s[0]] + s.drop_first() =~= s);
    assert(seq![s[0]].drop_last() =~= Seq::<(usize, Graph)>::empty());
    assert(seq![s[0]].last() == s[0]);
    assert(sum_by(seq![s[0]], f) == sum_by(Seq::<(usize, Graph)>::empty(), f) + f(s[0].1.tcount_spec()));
}

/// Six more T-vertices multiply the bound by seven.
pub proof fn lemma_bound_step(x: nat)
    ensures
        term_bound(x + 6) == 7 * term_bound(x),
{
    let y = x + 6;
    assert(y / 6 == x / 6 + 1 && y % 6 == x % 6);
    assert(pow_nat(7, y / 6) == 7 * pow_nat(7, x / 6));
    let twos = pow_nat(2, ((x % 6) / 2) as nat);
    let f: nat = if (x % 6) % 2 == 1 { 2nat } else { 1nat };
    let a = pow_nat(7, x / 6);
    assert(term_bound(y) == (7 * a) * twos * f);
    assert(term_bound(x) == a * twos * f);
    assert(7 * (a * twos * f) == (7 * a) * twos * f) by (nonlinear_arith);
}

/// Every diagram can still produce at least one term.
pub proof fn lemma_bound_pos(x: nat)
    ensures
        term_bound(x) >= 1,
    decreases x,
{
    if x >= 6 {
        lemma_bound_step((x - 6) as nat);
        lemma_bound_pos((x - 6) as nat);
    } else {
        lemma_small_bounds();
        assert(x == 0 || x == 1 || x == 2 || x == 3 || x == 4 || x == 5);
    }
}

/// The bound for `t` T-vertices, where it fits in `usize`.
pub fn term_bound_exec(t: usize) -> (r: usize)
    requires
        term_bound(t as nat) <= usize::MAX,
    ensures
        r == term_bound(t as nat),
{
    proof {
        lemma_small_bounds();
    }
    let m = t % 6;
    let mut c: usize = if m == 0 {
        1
    } else if m == 1 {
        2
    } else if m == 2 {
        2
    } else if m == 3 {
        4
    } else if m == 4 {
        4
    } else {
        8
    };
    let mut x: usize = m;
    while x < t
        invariant
            m <= x <= t,
            x % 6 == t % 6,
            c == term_bound(x as nat),
            term_bound(t as nat) <= usize::MAX,
        decreases t - x,
    {
        proof {
            lemma_bound_step(x as nat);
            lemma_bound_mono(x as nat + 6, t as nat);
        }
        c = c * 7;
        x = x + 6;
    }
    c
}

/// Along steps of six the bound does not fall.
pub proof fn lemma_bound_mono(x: nat, y: nat)
    requires
        x <= y,
        x % 6 == y % 6,
    ensures
        term_bound(x) <= term_bound(y),
    decreases y - x,
{
    if x < y {
        lemma_bound_mono(x, (y - 6) as nat);
        lemma_bound_step((y - 6) as nat);
        lemma_bound_pos((y - 6) as nat);
    }
}

/// Powers of a positive base do not fall as the exponent grows.
pub proof fn lemma_pow_mono(b: nat, e: nat, f: nat)
    requires
        b > 0,
        e <= f,
    ensures
        pow_nat(b, e) <= pow_nat(b, f),
{
    lemma_pow_split(b, e, (f - e) as nat);
    lemma_pow_pos(b, (f - e) as nat);
    lemma_pow_pos(b, e);
    let x = pow_nat(b, e);
    let y = pow_nat(b, (f - e) as nat);
    assert(x <= x * y) by (nonlinear_arith)
        requires
            x > 0,
            y >= 1,
    ;
    assert(e + (f - e) as nat == f);
}

/// Where all entries have T-count at most `t`, the weight is at most the
/// length times `3^t`.
pub proof fn lemma_sum_weight_at_most(cs: Seq<(usize, Graph)>, t: nat)
    requires
        forall|i: int| 0 <= i < cs.len() ==> (#[trigger] cs[i]).1.tcount_spec() <= t,
    ensures
        sum_by(cs, weight_fn()) <= cs.len() * pow_nat(3, t),
    decreases cs.len(),
{
    if cs.len() > 0 {
        lemma_sum_weight_at_most(cs.drop_last(), t);
        assert(cs.last() == cs[cs.len() - 1]);
        lemma_pow_mono(3, cs.last().1.tcount_spec(), t);
        assert((cs.len() - 1) * pow_nat(3, t) + pow_nat(3, t) == cs.len() * pow_nat(3, t)) by (nonlinear_arith);
    }
}

} // verus!

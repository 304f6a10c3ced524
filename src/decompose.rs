//! The decomposition engine: a frontier of pending diagrams, each reduced
//! by one rewrite family at a time, with a running scalar and term count.
use vstd::prelude::*;
use std::collections::VecDeque;
use crate::graph::{
    Graph, is_t_phase, is_t_selection, lemma_t_indices_facts, lemma_t_indices_prefix_of, t_indices,
};
use rand::Rng;
use crate::bound::{
    bound_fn, lemma_pow_pos, lemma_pow_split, lemma_small_bounds, lemma_sum_concat, lemma_sum_front,
    lemma_sum_uniform, lemma_sum_weight_at_most, pow_nat, sum_by, term_bound, term_bound_exec, weight_fn,
};
use crate::rewrite::Identity;
use crate::scalar::Scalar;

verus! {

/// Whether each new child diagram goes through the caller's `Simplifier`
/// before it enters the frontier.
#[derive(Clone, Copy, Debug, PartialEq, Eq, Structural)]
pub enum SimpFunc {
    FullSimp,
    NoSimp,
}

/// The simplification pass that runs on each new child diagram when the
/// decomposer is set to `FullSimp`. It may rewrite the diagram freely, but
/// keeps it well formed and adds no T-vertex.
pub trait Simplifier {
    /// What the pass makes of `g`.
    spec fn simplified(&self, g: Graph) -> Graph;

    fn simplify(&self, g: &mut Graph)
        requires
            old(g).wf(),
        ensures
            *final(g) == self.simplified(*old(g)),
            final(g).wf(),
            final(g).tcount_spec() <= old(g).tcount_spec(),
    ;
}

/// The pass of `s` as a function on diagrams.
pub open spec fn simp_fn<S: Simplifier>(s: S) -> spec_fn(Graph) -> Graph {
    |g: Graph| s.simplified(g)
}

/// The pass that leaves every diagram as it is.
pub struct KeepAsIs;

impl Simplifier for KeepAsIs {
    open spec fn simplified(&self, g: Graph) -> Graph {
        g
    }

    fn simplify(&self, g: &mut Graph) {
    }
}

/// A step would leave the range of the machine integers it works with
/// (the scalar's coefficients, the term count, a depth or a vertex index).
#[derive(Clone, Copy, Debug, PartialEq, Eq, Structural)]
pub struct Overflow;

/// The (partial) decomposition of a diagram into stabilizer terms.
#[derive(Clone)]
pub struct Decomposer {
    /// Pending diagrams with the number of rewrite steps that made them.
    pub stack: VecDeque<(usize, Graph)>,
    /// Terminal diagrams, kept only when saving is on.
    pub done: Vec<Graph>,
    /// The sum of the scalars of the terminal diagrams so far.
    pub scalar: Scalar,
    /// The number of terminal diagrams so far.
    pub nterms: usize,
    /// How many of those still had vertices: the simplification they went
    /// through left them incomplete, though their scalars are counted.
    pub unreduced: usize,
    pub simp_func: SimpFunc,
    pub random_t: bool,
    pub save: bool,
}

/// The identities applied to a selection of `n` T-vertices.
pub open spec fn family(n: nat) -> Seq<Identity> {
    if n == 6 {
        seq![
            Identity::B60,
            Identity::B66,
            Identity::E6,
            Identity::O6,
            Identity::K6,
            Identity::Phi1,
            Identity::Phi2,
        ]
    } else if n >= 2 {
        seq![Identity::BellS, Identity::Epr]
    } else if n == 1 {
        seq![Identity::T0, Identity::T1]
    } else {
        seq![]
    }
}

/// The part of the selection that the family uses.
pub open spec fn used(ts: Seq<usize>) -> Seq<usize> {
    if ts.len() == 6 || ts.len() < 2 {
        ts
    } else {
        ts.take(2)
    }
}

/// `h` is what identity `id` makes of `g` on `v`: that term itself, or,
/// where it was simplified, the pass `sf` applied to that term, which is
/// well formed and has no more T-vertices.
pub open spec fn made_by(
    id: Identity,
    g: Graph,
    v: Seq<usize>,
    h: Graph,
    simp: bool,
    sf: spec_fn(Graph) -> Graph,
) -> bool {
    if simp {
        &&& h.wf()
        &&& h.tcount_spec() <= g.tcount_spec() - id.arity()
        &&& exists|c: Graph| #[trigger] id.is_child(&g, v, &c) && h == sf(c)
    } else {
        id.is_child(&g, v, &h)
    }
}

/// `cs` are the children of `g` at depth `depth`, one per identity of the family.
pub open spec fn children_of(g: Graph, depth: int, ts: Seq<usize>, cs: Seq<(usize, Graph)>, simp: bool, sf: spec_fn(Graph) -> Graph) -> bool {
    &&& cs.len() == family(ts.len()).len()
    &&& forall|i: int|
        0 <= i < cs.len() ==> (#[trigger] cs[i]).0 == depth && made_by(family(ts.len())[i], g, used(ts), cs[i].1, simp, sf)
}

/// Where a step on `g` with selection `ts` cannot be carried out in machine integers.
pub open spec fn step_overflows(nterms: usize, acc: Scalar, depth: usize, g: Graph, ts: Seq<usize>) -> bool {
    if ts.len() == 0 {
        nterms == usize::MAX || !acc.add_fits(g.scalar)
    } else {
        depth == usize::MAX || g.vdata@.len() + 5 > usize::MAX || exists|i: int|
            0 <= i < family(ts.len()).len() && !g.scalar.mul_fits(#[trigger] family(ts.len())[i].factor())
    }
}

impl Decomposer {
    pub open spec fn wf(&self) -> bool {
        &&& forall|i: int| 0 <= i < self.stack@.len() ==> (#[trigger] self.stack@[i]).1.wf()
        &&& self.unreduced <= self.nterms
    }

    /// The upper bound on the number of terms still to come.
    pub open spec fn max_terms_spec(&self) -> nat {
        sum_by(self.stack@, bound_fn())
    }

    pub open spec fn weight(&self) -> nat {
        sum_by(self.stack@, weight_fn())
    }

    pub open spec fn same_config(&self, o: &Decomposer) -> bool {
        self.simp_func == o.simp_func && self.random_t == o.random_t && self.save == o.save
    }

    pub open spec fn unchanged(&self, o: &Decomposer) -> bool {
        &&& self.stack@ == o.stack@
        &&& self.done@ == o.done@
        &&& self.scalar == o.scalar
        &&& self.nterms == o.nterms
        &&& self.unreduced == o.unreduced
        &&& self.same_config(o)
    }

    pub open spec fn snap(&self) -> Snapshot {
        Snapshot {
            stack: self.stack@,
            done: self.done@,
            scalar: self.scalar,
            nterms: self.nterms as nat,
            unreduced: self.unreduced as nat,
        }
    }

    /// `post` is `pre` after the step on `g` (at `depth`) with selection `ts`.
    pub open spec fn stepped(pre: &Decomposer, depth: usize, g: Graph, ts: Seq<usize>, post: &Decomposer, sf: spec_fn(Graph) -> Graph) -> bool {
        &&& post.same_config(pre)
        &&& stepped_snap(pre.snap(), pre.save, pre.simp_func == SimpFunc::FullSimp, depth, g, ts, post.snap(), sf)
    }
}

/// The state of a decomposer apart from its configuration.
pub struct Snapshot {
    pub stack: Seq<(usize, Graph)>,
    pub done: Seq<Graph>,
    pub scalar: Scalar,
    pub nterms: nat,
    pub unreduced: nat,
}

/// `post` is `pre` after the step on `g` (at `depth`) with selection `ts`.
pub open spec fn stepped_snap(
    pre: Snapshot,
    save: bool,
    simp: bool,
    depth: usize,
    g: Graph,
    ts: Seq<usize>,
    post: Snapshot,
    sf: spec_fn(Graph) -> Graph,
) -> bool {
        if ts.len() == 0 {
            &&& post.stack == pre.stack
            &&& post.scalar.is_value(pre.scalar.add_spec(g.scalar))
            &&& post.scalar == pre.scalar.plus(g.scalar)
            &&& post.nterms == pre.nterms + 1
            &&& post.unreduced == pre.unreduced + if g.vdata@.len() == 0 {
                0nat
            } else {
                1nat
            }
            &&& post.done == if save {
                pre.done.push(g)
            } else {
                pre.done
            }
        } else {
            &&& post.stack.len() >= pre.stack.len()
            &&& post.stack.take(pre.stack.len() as int) == pre.stack
            &&& children_of(g, depth + 1, ts, post.stack.skip(pre.stack.len() as int), simp, sf)
            &&& post.scalar == pre.scalar
            &&& post.nterms == pre.nterms
            &&& post.unreduced == pre.unreduced
            &&& post.done == pre.done
        }
}

impl Decomposer {

    /// Applies the family that matches the selection `ts` to `g` and pushes
    /// the children at `depth + 1`, each first through `simp` under
    /// `FullSimp`; with no T-vertex selected, `g` is
    /// terminal and its scalar is added to the total. Where that would
    /// overflow, nothing changes and `g` is handed back.
    pub fn decomp_ts<S: Simplifier>(&mut self, depth: usize, g: Graph, ts: &[usize], simp: &S) -> (r: Result<
        (),
        Graph,
    >)
        requires
            old(self).wf(),
            g.wf(),
            ts@.len() <= 6,
            is_t_selection(g.vdata@, ts@),
        ensures
            final(self).wf(),
            r is Err <==> step_overflows(old(self).nterms, old(self).scalar, depth, g, ts@),
            r matches Err(h) ==> h == g && final(self).unchanged(old(self)),
            r is Ok ==> Decomposer::stepped(old(self), depth, g, ts@, final(self), simp_fn(*simp)),
    {
        if ts.len() == 0 {
            if self.nterms == usize::MAX {
                return Err(g);
            }
            match self.scalar.checked_add(&g.scalar) {
                None => Err(g),
                Some(s) => {
                    self.scalar = s;
                    self.nterms = self.nterms + 1;
                    if g.num_vertices() != 0 {
                        self.unreduced = self.unreduced + 1;
                    }
                    if self.save {
                        self.done.push(g);
                    }
                    Ok(())
                },
            }
        } else {
            if depth == usize::MAX || g.num_vertices() > usize::MAX - 5 {
                return Err(g);
            }
            let verts: Vec<usize> = if ts.len() == 6 || ts.len() < 2 {
                slice_to_vec(ts)
            } else {
                vec![ts[0], ts[1]]
            };
            proof {
                if !(ts@.len() == 6 || ts@.len() < 2) {
                    assert(verts@ =~= ts@.take(2));
                    assert(verts@[0] != verts@[1]) by {
                        assert(ts@[0] != ts@[1]);
                    }
                    assert(is_t_selection(g.vdata@, verts@)) by {
                        assert forall|i: int| 0 <= i < 2 implies #[trigger] verts@[i] == ts@[i] by {}
                    }
                }
            }
            let fam = family_exec(ts.len());
            let on = match self.simp_func {
                SimpFunc::FullSimp => true,
                SimpFunc::NoSimp => false,
            };
            match make_children(&g, depth + 1, fam.as_slice(), verts.as_slice(), on, simp) {
                None => Err(g),
                Some(cs) => {
                    let ghost pre = self.stack@;
                    let mut cs = cs;
                    let mut rest: VecDeque<(usize, Graph)> = VecDeque::new();
                    // move the children into the frontier, keeping their order
                    let ghost cs0 = cs@;
                    while cs.len() > 0
                        invariant
                            cs@ == cs0.take(cs@.len() as int),
                            cs@.len() <= cs0.len(),
                            rest@ == cs0.skip(cs@.len() as int),
                        decreases cs@.len(),
                    {
                        let c = cs.pop().unwrap();
                        rest.push_front(c);
                        proof {
                            assert(rest@ =~= cs0.skip(cs@.len() as int));
                            assert(cs@ =~= cs0.take(cs@.len() as int));
                        }
                    }
                    assert(rest@ =~= cs0);
                    self.stack.append(&mut rest);
                    proof {
                        assert(self.stack@.take(pre.len() as int) =~= pre);
                        assert(self.stack@.skip(pre.len() as int) =~= cs0);
                    }
                    Ok(())
                },
            }
        }
    }
}

pub open spec fn min6(n: nat) -> nat {
    if n < 6 {
        n
    } else {
        6
    }
}

/// The first T-vertices of `g` in vertex order, at most six.
pub open spec fn first_ts_spec(g: Graph) -> Seq<usize> {
    t_indices(g.vdata@, g.vdata@.len()).take(min6(g.tcount_spec()) as int)
}

/// A selection that either policy may make: `min(6, t)` distinct T-vertices.
pub open spec fn is_selection(g: Graph, ts: Seq<usize>) -> bool {
    is_t_selection(g.vdata@, ts) && ts.len() == min6(g.tcount_spec())
}

impl Decomposer {
    /// Picks the first (at most six) T-vertices of `g`.
    pub fn first_ts(g: &Graph) -> (r: Vec<usize>)
        ensures
            r@ == first_ts_spec(*g),
            is_selection(*g, r@),
    {
        let ghost vd = g.vdata@;
        let n = g.num_vertices();
        let mut t: Vec<usize> = Vec::new();
        let mut i: usize = 0;
        while i < n && t.len() < 6
            invariant
                vd == g.vdata@,
                n == vd.len(),
                i <= vd.len(),
                t@ == t_indices(vd, i as nat),
                t@.len() <= 6,
            decreases vd.len() - i,
        {
            if g.is_t(i) {
                t.push(i);
            }
            i = i + 1;
        }
        proof {
            lemma_t_indices_prefix_of(vd, i as nat, vd.len());
            lemma_t_indices_facts(vd, vd.len());
            let all = t_indices(vd, vd.len());
            assert(t@ =~= all.take(min6(all.len()) as int));
            assert forall|j: int| 0 <= j < t@.len() implies #[trigger] t@[j] < vd.len() && is_t_phase(
                vd[t@[j] as int].phase,
            ) by {
                assert(t@[j] == all[j]);
            }
            assert forall|a: int, b: int| 0 <= a < t@.len() && 0 <= b < t@.len() && a != b implies t@[a] != t@[b] by {
                assert(t@[a] == all[a] && t@[b] == all[b]);
            }
        }
        t
    }

    /// Picks `min(6, t)` distinct T-vertices of `g` at random.
    pub fn random_ts(g: &Graph) -> (r: Vec<usize>)
        ensures
            is_selection(*g, r@),
    {
        let n = g.tcount();
        let m: usize = if n < 6 {
            n
        } else {
            6
        };
        let mut draws: Vec<usize> = Vec::new();
        let mut i: usize = 0;
        while i < m
            invariant
                i <= m,
                m == min6(n as nat),
                n == g.tcount_spec(),
                draws@.len() == i,
                forall|j: int| 0 <= j < i ==> #[trigger] draws@[j] < n - j,
            decreases m - i,
        {
            draws.push(random_index(n - i));
            i = i + 1;
        }
        Decomposer::pick_ts(g, &draws)
    }

    /// Picks T-vertices of `g` as drawn: from the list of all T-vertices in
    /// order, the `i`-th pick takes the entry at `draws[i]` and moves the
    /// last entry into its place.
    pub fn pick_ts(g: &Graph, draws: &Vec<usize>) -> (r: Vec<usize>)
        requires
            draws@.len() == min6(g.tcount_spec()),
            forall|j: int| 0 <= j < draws@.len() ==> #[trigger] draws@[j] < g.tcount_spec() - j,
        ensures
            r@ == pick_spec(t_indices(g.vdata@, g.vdata@.len()), draws@),
            is_selection(*g, r@),
    {
        let ghost vd = g.vdata@;
        let n = g.num_vertices();
        let mut all_t: Vec<usize> = Vec::new();
        let mut i: usize = 0;
        while i < n
            invariant
                vd == g.vdata@,
                n == vd.len(),
                i <= vd.len(),
                all_t@ == t_indices(vd, i as nat),
            decreases vd.len() - i,
        {
            if g.is_t(i) {
                all_t.push(i);
            }
            i = i + 1;
        }
        proof {
            lemma_t_indices_facts(vd, vd.len());
        }
        let ghost all0 = all_t@;
        let mut t: Vec<usize> = Vec::new();
        let mut i: usize = 0;
        assert(draws@.skip(0) =~= draws@);
        assert(t@ + pick_spec(all_t@, draws@) =~= pick_spec(all0, draws@));
        while i < draws.len()
            invariant
                vd == g.vdata@,
                i <= draws@.len(),
                t@.len() == i,
                draws@.len() == min6(g.tcount_spec()),
                forall|j: int| 0 <= j < draws@.len() ==> #[trigger] draws@[j] < g.tcount_spec() - j,
                all0 == t_indices(vd, vd.len()),
                t@ + pick_spec(all_t@, draws@.skip(i as int)) == pick_spec(all0, draws@),
                t@.len() <= 6,
                t@.len() + all_t@.len() == g.tcount_spec(),
                t@.no_duplicates(),
                all_t@.no_duplicates(),
                forall|j: int| 0 <= j < t@.len() ==> !all_t@.contains(#[trigger] t@[j]),
                forall|j: int| 0 <= j < t@.len() ==> #[trigger] t@[j] < vd.len() && is_t_phase(vd[t@[j] as int].phase),
                forall|j: int|
                    0 <= j < all_t@.len() ==> #[trigger] all_t@[j] < vd.len() && is_t_phase(vd[all_t@[j] as int].phase),
            decreases all_t@.len(),
        {
            let k = draws[i];
            let ghost a = all_t@;
            proof {
                assert(draws@.skip(i as int)[0] == k);
                assert(draws@.skip(i as int).drop_first() =~= draws@.skip(i + 1));
            }
            let ghost t0 = t@;
            let x = all_t.swap_remove(k);
            t.push(x);
            proof {
                assert forall|y: usize| all_t@.contains(y) implies a.contains(y) && y != x by {
                    let m = choose|m: int| 0 <= m < all_t@.len() && #[trigger] all_t@[m] == y;
                    if m == k {
                        assert(y == a[a.len() - 1]);
                        assert(a.len() - 1 != k);
                    } else {
                        assert(y == a[m]);
                    }
                }
                assert forall|p: int, q: int| 0 <= p < all_t@.len() && 0 <= q < all_t@.len() && p != q implies all_t@[p]
                    != all_t@[q] by {
                    let pp = if p == k { a.len() - 1 } else { p };
                    let qq = if q == k { a.len() - 1 } else { q };
                    assert(all_t@[p] == a[pp] && all_t@[q] == a[qq]);
                }
                assert forall|j: int| 0 <= j < all_t@.len() implies #[trigger] all_t@[j] < vd.len() && is_t_phase(
                    vd[all_t@[j] as int].phase,
                ) by {
                    let jj = if j == k { a.len() - 1 } else { j };
                    assert(all_t@[j] == a[jj]);
                }
                assert forall|j: int| 0 <= j < t@.len() implies !all_t@.contains(#[trigger] t@[j]) by {
                    if j < t0.len() {
                        assert(t@[j] == t0[j]);
                        assert(!a.contains(t0[j]));
                    }
                }
                assert(!t0.contains(x)) by {
                    if t0.contains(x) {
                        let m = choose|m: int| 0 <= m < t0.len() && #[trigger] t0[m] == x;
                        assert(a.contains(x));
                    }
                }
                assert forall|p: int, q: int| 0 <= p < t@.len() && 0 <= q < t@.len() && p != q implies t@[p] != t@[q] by {
                    if p < t0.len() && q < t0.len() {
                        assert(t@[p] == t0[p] && t@[q] == t0[q]);
                    } else if p < t0.len() {
                        assert(t0.contains(t@[p]));
                    } else if q < t0.len() {
                        assert(t0.contains(t@[q]));
                    }
                }
                assert(pick_spec(a, draws@.skip(i as int)) == seq![a[k as int]] + pick_spec(
                    all_t@,
                    draws@.skip(i + 1),
                ));
                assert(t@ + pick_spec(all_t@, draws@.skip(i + 1)) =~= t0 + pick_spec(a, draws@.skip(i as int)));
            }
            i = i + 1;
        }
        assert(draws@.skip(draws@.len() as int) =~= Seq::<usize>::empty());
        assert(t@ + Seq::<usize>::empty() =~= t@);
        t
    }
}

/// The picks that the draws make from `all`: the first draw takes the
/// entry at its index and moves the last entry into its place, and so on.
pub open spec fn pick_spec(all: Seq<usize>, draws: Seq<usize>) -> Seq<usize>
    decreases draws.len(),
{
    if draws.len() == 0 || all.len() == 0 {
        Seq::empty()
    } else {
        let k = draws[0] as int;
        seq![all[k]] + pick_spec(all.update(k, all.last()).drop_last(), draws.drop_first())
    }
}

/// Relies on `rand::Rng::gen_range` over the thread-local generator: a value
/// in `0..n`; it panics on an empty range, which `n > 0` rules out.
#[verifier::external_body]
fn random_index(n: usize) -> (r: usize)
    requires
        n > 0,
    ensures
        r < n,
{
    rand::thread_rng().gen_range(0..n)
}

/// `acc` plus the scalars of `terms`, added in order.
pub open spec fn sum_terminals(acc: Scalar, terms: Seq<Graph>) -> Scalar
    decreases terms.len(),
{
    if terms.len() == 0 {
        acc
    } else {
        sum_terminals(acc, terms.drop_last()).plus(terms.last().scalar)
    }
}

/// One step of `decomp_all`: the back entry of `pre` reduced with a
/// selection that the policy (`random` or first-in-order) may make.
pub open spec fn step_back(pre: Snapshot, save: bool, simp: SimpFunc, random: bool, post: Snapshot, sf: spec_fn(Graph) -> Graph) -> bool {
    &&& pre.stack.len() > 0
    &&& exists|ts: Seq<usize>|
        #[trigger] is_selection(pre.stack.last().1, ts) && (!random ==> ts == first_ts_spec(pre.stack.last().1))
            && stepped_snap(popped(pre), save, simp == SimpFunc::FullSimp, pre.stack.last().0, pre.stack.last().1, ts, post, sf)
}

/// Each snapshot of `tr` follows from the one before by a step of `decomp_all`.
pub open spec fn is_back_trace(tr: Seq<Snapshot>, save: bool, simp: SimpFunc, random: bool, sf: spec_fn(Graph) -> Graph) -> bool {
    &&& tr.len() > 0
    &&& forall|i: int| 0 <= i < tr.len() - 1 ==> step_back(#[trigger] tr[i], save, simp, random, tr[i + 1], sf)
}

/// `post` follows from `pre` by steps of `decomp_all`.
pub open spec fn reaches_back(pre: Snapshot, save: bool, simp: SimpFunc, random: bool, post: Snapshot, sf: spec_fn(Graph) -> Graph) -> bool {
    exists|tr: Seq<Snapshot>| #[trigger] is_back_trace(tr, save, simp, random, sf) && tr[0] == pre && tr.last() == post
}

proof fn lemma_reaches_back_start(pre: Snapshot, save: bool, simp: SimpFunc, random: bool, sf: spec_fn(Graph) -> Graph)
    ensures
        reaches_back(pre, save, simp, random, pre, sf),
{
    assert(is_back_trace(seq![pre], save, simp, random, sf));
}

proof fn lemma_reaches_back_extend(
    pre: Snapshot,
    save: bool,
    simp: SimpFunc,
    random: bool,
    mid: Snapshot,
    post: Snapshot,
    sf: spec_fn(Graph) -> Graph,
)
    requires
        reaches_back(pre, save, simp, random, mid, sf),
        step_back(mid, save, simp, random, post, sf),
    ensures
        reaches_back(pre, save, simp, random, post, sf),
{
    let tr = choose|tr: Seq<Snapshot>| #[trigger] is_back_trace(tr, save, simp, random, sf) && tr[0] == pre && tr.last() == mid;
    let t2 = tr.push(post);
    assert forall|i: int| 0 <= i < t2.len() - 1 implies step_back(#[trigger] t2[i], save, simp, random, t2[i + 1], sf) by {
        if i < tr.len() - 1 {
            assert(t2[i] == tr[i] && t2[i + 1] == tr[i + 1]);
        } else {
            assert(t2[i] == mid && t2[i + 1] == post);
        }
    }
    assert(is_back_trace(t2, save, simp, random, sf));
    assert(t2[0] == pre && t2.last() == post);
}

/// One step of `decomp_until_depth(depth)`: the front entry of `pre`, of
/// depth below `depth`, reduced with a selection the policy may make.
pub open spec fn step_front(pre: Snapshot, save: bool, simp: SimpFunc, random: bool, depth: usize, post: Snapshot, sf: spec_fn(Graph) -> Graph) -> bool {
    &&& pre.stack.len() > 0
    &&& pre.stack[0].0 < depth
    &&& exists|ts: Seq<usize>|
        #[trigger] is_selection(pre.stack[0].1, ts) && (!random ==> ts == first_ts_spec(pre.stack[0].1))
            && stepped_snap(
            Snapshot { stack: pre.stack.drop_first(), ..pre },
            save,
            simp == SimpFunc::FullSimp,
            pre.stack[0].0,
            pre.stack[0].1,
            ts,
            post,
            sf,
        )
}

/// Each snapshot of `tr` follows from the one before by a step of
/// `decomp_until_depth(depth)`.
pub open spec fn is_front_trace(tr: Seq<Snapshot>, save: bool, simp: SimpFunc, random: bool, depth: usize, sf: spec_fn(Graph) -> Graph) -> bool {
    &&& tr.len() > 0
    &&& forall|i: int| 0 <= i < tr.len() - 1 ==> step_front(#[trigger] tr[i], save, simp, random, depth, tr[i + 1], sf)
}

/// `post` follows from `pre` by steps of `decomp_until_depth(depth)`.
pub open spec fn reaches_front(
    pre: Snapshot,
    save: bool,
    simp: SimpFunc,
    random: bool,
    depth: usize,
    post: Snapshot,
    sf: spec_fn(Graph) -> Graph,
) -> bool {
    exists|tr: Seq<Snapshot>|
        #[trigger] is_front_trace(tr, save, simp, random, depth, sf) && tr[0] == pre && tr.last() == post
}

proof fn lemma_reaches_front_start(pre: Snapshot, save: bool, simp: SimpFunc, random: bool, depth: usize, sf: spec_fn(Graph) -> Graph)
    ensures
        reaches_front(pre, save, simp, random, depth, pre, sf),
{
    assert(is_front_trace(seq![pre], save, simp, random, depth, sf));
}

proof fn lemma_reaches_front_extend(
    pre: Snapshot,
    save: bool,
    simp: SimpFunc,
    random: bool,
    depth: usize,
    mid: Snapshot,
    post: Snapshot,
    sf: spec_fn(Graph) -> Graph,
)
    requires
        reaches_front(pre, save, simp, random, depth, mid, sf),
        step_front(mid, save, simp, random, depth, post, sf),
    ensures
        reaches_front(pre, save, simp, random, depth, post, sf),
{
    let tr = choose|tr: Seq<Snapshot>|
        #[trigger] is_front_trace(tr, save, simp, random, depth, sf) && tr[0] == pre && tr.last() == mid;
    let t2 = tr.push(post);
    assert forall|i: int| 0 <= i < t2.len() - 1 implies step_front(#[trigger] t2[i], save, simp, random, depth, t2[i + 1], sf) by {
        if i < tr.len() - 1 {
            assert(t2[i] == tr[i] && t2[i + 1] == tr[i + 1]);
        } else {
            assert(t2[i] == mid && t2[i + 1] == post);
        }
    }
    assert(is_front_trace(t2, save, simp, random, depth, sf));
    assert(t2[0] == pre && t2.last() == post);
}

/// The T-count after `k` steps without simplification from a diagram with
/// `t` T-vertices (a terminal diagram has no further steps).
pub open spec fn tc_after(t: nat, k: nat) -> nat
    decreases k,
{
    if k == 0 {
        t
    } else {
        let p = tc_after(t, (k - 1) as nat);
        if p == 0 {
            0
        } else {
            (p - family_arity(min6(p))) as nat
        }
    }
}

/// Every pending entry is at least `d0` deep and has the T-count of `t0`
/// after as many steps as it is deeper than `d0`.
pub open spec fn by_depth(s: Seq<(usize, Graph)>, t0: nat, d0: nat) -> bool {
    forall|i: int|
        0 <= i < s.len() ==> (#[trigger] s[i]).0 >= d0 && s[i].1.tcount_spec() == tc_after(
            t0,
            (s[i].0 - d0) as nat,
        )
}

/// No diagram between depth `d0` and `depth` is terminal.
pub open spec fn no_terminal_before(t0: nat, d0: nat, depth: nat) -> bool {
    forall|k: int| d0 <= k < depth ==> #[trigger] tc_after(t0, (k - d0) as nat) > 0
}

/// Taking the front entry off and appending its children one level deeper
/// (or nothing, where it was terminal) keeps the T-count by depth.
proof fn lemma_by_depth_step(
    s0: Seq<(usize, Graph)>,
    post: Seq<(usize, Graph)>,
    t0: nat,
    d0: nat,
    cut: int,
)
    requires
        s0.len() > 0,
        by_depth(s0, t0, d0),
        cut == s0.len() - 1,
        post.len() >= cut,
        post.take(cut) == s0.drop_first(),
        forall|i: int|
            cut <= i < post.len() ==> (#[trigger] post[i]).0 == s0[0].0 + 1 && post[i].1.tcount_spec()
                == tc_after(t0, (s0[0].0 + 1 - d0) as nat),
    ensures
        by_depth(post, t0, d0),
{
    assert(s0[0].0 >= d0);
    assert forall|i: int| 0 <= i < post.len() implies (#[trigger] post[i]).0 >= d0 && post[i].1.tcount_spec()
        == tc_after(t0, (post[i].0 - d0) as nat) by {
        if i < cut {
            assert(post.take(cut)[i] == s0.drop_first()[i]);
            assert(post[i] == s0[i + 1]);
        }
    }
}

/// The archive and the total since the state `(od, os)`: the archive only
/// grew; with saving on, what it gained are diagrams without T-vertices and
/// the total is `os` plus their scalars in order.
pub open spec fn archived(od: Seq<Graph>, os: Scalar, save: bool, done: Seq<Graph>, scalar: Scalar) -> bool {
    &&& done.len() >= od.len()
    &&& done.take(od.len() as int) == od
    &&& save ==> scalar == sum_terminals(os, done.skip(od.len() as int))
    &&& save ==> forall|i: int| od.len() <= i < done.len() ==> (#[trigger] done[i]).tcount_spec() == 0
}

/// Every pending diagram has depth at most `depth`.
pub open spec fn all_at_most(s: Seq<(usize, Graph)>, depth: usize) -> bool {
    forall|i: int| 0 <= i < s.len() ==> (#[trigger] s[i]).0 <= depth
}

/// The frontier is one level of a breadth-first search: depths do not fall
/// from front to back and none exceeds the first by more than one.
pub open spec fn levelled(s: Seq<(usize, Graph)>) -> bool {
    &&& forall|i: int, j: int| 0 <= i <= j < s.len() ==> (#[trigger] s[i]).0 <= (#[trigger] s[j]).0
    &&& forall|i: int| 0 <= i < s.len() ==> (#[trigger] s[i]).0 <= s[0].0 + 1
}

proof fn lemma_archived_start(done: Seq<Graph>, scalar: Scalar, save: bool)
    ensures
        archived(done, scalar, save, done, scalar),
{
    assert(done.take(done.len() as int) =~= done);
    assert(done.skip(done.len() as int) =~= Seq::<Graph>::empty());
}

/// One step with a policy's selection keeps the archive relation.
proof fn lemma_archived_step(
    od: Seq<Graph>,
    os: Scalar,
    save: bool,
    simp: bool,
    pre: Snapshot,
    depth: usize,
    g: Graph,
    ts: Seq<usize>,
    post: Snapshot,
    sf: spec_fn(Graph) -> Graph,
)
    requires
        archived(od, os, save, pre.done, pre.scalar),
        is_selection(g, ts),
        stepped_snap(pre, save, simp, depth, g, ts, post, sf),
    ensures
        archived(od, os, save, post.done, post.scalar),
{
    let n = od.len() as int;
    if ts.len() == 0 && save {
        assert(post.done == pre.done.push(g));
        assert(post.done.take(n) =~= pre.done.take(n));
        assert(post.done.skip(n).drop_last() =~= pre.done.skip(n));
        assert(post.done.skip(n).last() == g);
        assert(g.tcount_spec() == 0);
        assert forall|i: int| od.len() <= i < post.done.len() implies (#[trigger] post.done[i]).tcount_spec()
            == 0 by {
            if i < pre.done.len() {
                assert(post.done[i] == pre.done[i]);
            }
        }
    } else {
        assert(post.done == pre.done);
    }
}

/// In a levelled frontier every depth is at least the first.
proof fn lemma_levelled_all_from_first(s: Seq<(usize, Graph)>)
    requires
        s.len() > 0,
    ensures
        levelled(s) ==> forall|i: int| 0 <= i < s.len() ==> (#[trigger] s[i]).0 >= s[0].0,
{
    if levelled(s) {
        assert forall|i: int| 0 <= i < s.len() implies (#[trigger] s[i]).0 >= s[0].0 by {
            assert(s[0].0 <= s[i].0);
        }
    }
}

/// Taking the front entry (at depth `d < depth`) off and appending entries
/// at depth `d + 1` keeps a frontier levelled and within `depth`.
proof fn lemma_levelled_step(s0: Seq<(usize, Graph)>, post: Seq<(usize, Graph)>, d: usize, depth: usize)
    requires
        s0.len() > 0,
        s0[0].0 == d,
        d < depth,
        post.len() >= s0.len() - 1,
        post.take(s0.len() - 1) == s0.drop_first(),
        forall|i: int| s0.len() - 1 <= i < post.len() ==> (#[trigger] post[i]).0 == d + 1,
    ensures
        levelled(s0) ==> levelled(post),
        all_at_most(s0, depth) ==> all_at_most(post, depth),
{
    let n = s0.len() - 1;
    assert forall|i: int| 0 <= i < n implies #[trigger] post[i] == s0[i + 1] by {
        assert(post.take(n)[i] == s0.drop_first()[i]);
    }
    if levelled(s0) {
        assert forall|i: int, j: int| 0 <= i <= j < post.len() implies (#[trigger] post[i]).0 <= (
        #[trigger] post[j]).0 by {
            if j < n {
                assert(s0[i + 1].0 <= s0[j + 1].0);
            } else if i < n {
                assert(s0[i + 1].0 <= s0[0].0 + 1);
            }
        }
        assert forall|i: int| 0 <= i < post.len() implies (#[trigger] post[i]).0 <= post[0].0 + 1 by {
            if n > 0 {
                assert(post[0] == s0[1]);
                assert(s0[0].0 <= s0[1].0);
                if i < n {
                    assert(s0[i + 1].0 <= s0[0].0 + 1);
                }
            }
        }
    }
    if all_at_most(s0, depth) {
        assert forall|i: int| 0 <= i < post.len() implies (#[trigger] post[i]).0 <= depth by {
            if i < n {
                assert(s0[i + 1].0 <= depth);
            }
        }
    }
}

/// The state with the top of the frontier removed.
pub open spec fn popped(s: Snapshot) -> Snapshot {
    Snapshot { stack: s.stack.drop_last(), ..s }
}

/// The number of T-vertices that one identity of the family for `k` removes.
pub open spec fn family_arity(k: nat) -> nat {
    if k == 6 {
        6
    } else if k >= 2 {
        2
    } else {
        1
    }
}

proof fn lemma_family_arity(k: nat)
    requires
        1 <= k <= 6,
    ensures
        family(k).len() == if k == 6 { 7nat } else { 2nat },
        forall|i: int| 0 <= i < family(k).len() ==> (#[trigger] family(k)[i]).arity() == family_arity(k),
{
    assert forall|i: int| 0 <= i < family(k).len() implies (#[trigger] family(k)[i]).arity() == family_arity(k) by {
        if k == 6 {
            assert(i == 0 || i == 1 || i == 2 || i == 3 || i == 4 || i == 5 || i == 6);
        } else {
            assert(i == 0 || i == 1);
        }
    }
}

/// One family application keeps the term bound and lowers the weight.
proof fn lemma_family_measures(t: nat)
    requires
        t > 0,
    ensures
        family(min6(t)).len() * term_bound((t - family_arity(min6(t))) as nat) == term_bound(t),
        family(min6(t)).len() * pow_nat(3, (t - family_arity(min6(t))) as nat) < pow_nat(3, t),
{
    let k = min6(t);
    let a = family_arity(k);
    let r = (t - a) as nat;
    lemma_family_arity(k);
    reveal_with_fuel(pow_nat, 7);
    if t >= 6 {
        assert(r / 6 == t / 6 - 1 && r % 6 == t % 6);
        assert(pow_nat(7, t / 6) == 7 * pow_nat(7, r / 6));
        let twos = pow_nat(2, ((t % 6) / 2) as nat);
        let f: nat = if (t % 6) % 2 == 1 { 2nat } else { 1nat };
        assert(term_bound(t) == pow_nat(7, t / 6) * twos * f);
        assert(term_bound(r) == pow_nat(7, r / 6) * twos * f);
        let a = pow_nat(7, r / 6);
        assert(7 * (a * twos * f) == (7 * a) * twos * f) by (nonlinear_arith);
    } else {
        lemma_small_bounds();
    }
    lemma_pow_split(3, a, r);
    lemma_pow_pos(3, r);
    assert(pow_nat(3, a) >= 3);
    assert(family(k).len() < pow_nat(3, a));
    assert(family(k).len() * pow_nat(3, r) < pow_nat(3, a) * pow_nat(3, r)) by (nonlinear_arith)
        requires
            family(k).len() < pow_nat(3, a),
            pow_nat(3, r) > 0,
    ;
}

/// A step with a policy's selection on `g`, taken off the frontier `base`:
/// a terminal diagram takes its one term out of the bound, a split without
/// simplification keeps the bound exactly, and the weight falls either way.
proof fn lemma_step_sums(
    pre: Snapshot,
    save: bool,
    simp: bool,
    depth: usize,
    g: Graph,
    ts: Seq<usize>,
    post: Snapshot,
    sf: spec_fn(Graph) -> Graph,
)
    requires
        is_selection(g, ts),
        stepped_snap(pre, save, simp, depth, g, ts, post, sf),
    ensures
        ts.len() == 0 ==> sum_by(post.stack, bound_fn()) + 1 == sum_by(pre.stack, bound_fn()) + term_bound(
            g.tcount_spec(),
        ),
        ts.len() > 0 && !simp ==> sum_by(post.stack, bound_fn()) == sum_by(pre.stack, bound_fn()) + term_bound(
            g.tcount_spec(),
        ),
        sum_by(post.stack, weight_fn()) < sum_by(pre.stack, weight_fn()) + pow_nat(3, g.tcount_spec()),
        ts.len() == 0 <==> g.tcount_spec() == 0,
{
    let base = pre.stack;
    let t = g.tcount_spec();
    if ts.len() == 0 {
        lemma_pow_pos(3, t);
        lemma_small_bounds();
    } else {
        let cs = post.stack.skip(base.len() as int);
        assert(post.stack =~= base + cs);
        lemma_family_arity(ts.len());
        let r = (t - family_arity(min6(t))) as nat;
        assert forall|i: int| 0 <= i < cs.len() implies (#[trigger] cs[i]).1.tcount_spec() <= r && (!simp
            ==> cs[i].1.tcount_spec() == r) by {
            assert(made_by(family(ts.len())[i], g, used(ts), cs[i].1, simp, sf));
        }
        lemma_sum_concat(base, cs, bound_fn());
        lemma_sum_concat(base, cs, weight_fn());
        if !simp {
            lemma_sum_uniform(cs, bound_fn(), r);
        }
        lemma_sum_weight_at_most(cs, r);
        lemma_family_measures(t);
    }
}

impl Decomposer {
    /// Reduces the diagram on top of the frontier (its back) by one step,
    /// selecting T-vertices by the configured policy and running `simp` on
    /// each child under `FullSimp`.
    pub fn decomp_top<S: Simplifier>(&mut self, simp: &S) -> (r: Result<(), Overflow>)
        requires
            old(self).wf(),
            old(self).stack@.len() > 0,
        ensures
            final(self).wf(),
            final(self).same_config(old(self)),
            r is Err ==> final(self).unchanged(old(self)),
            r is Ok ==> step_back(
                old(self).snap(),
                old(self).save,
                old(self).simp_func,
                old(self).random_t,
                final(self).snap(),
                simp_fn(*simp),
            ),
            r is Err <==> step_overflows(
                old(self).nterms,
                old(self).scalar,
                old(self).stack@.last().0,
                old(self).stack@.last().1,
                first_ts_spec(old(self).stack@.last().1),
            ),
            r is Ok && old(self).simp_func == SimpFunc::NoSimp ==> final(self).max_terms_spec() <= old(self).max_terms_spec(),
            r is Ok && old(self).simp_func == SimpFunc::NoSimp ==> final(self).max_terms_spec() + final(self).nterms == old(self).max_terms_spec() + old(self).nterms,
            r is Ok && old(self).simp_func == SimpFunc::NoSimp ==> final(self).done@.len() + (if old(self).save { final(self).max_terms_spec() } else { 0 })
                == old(self).done@.len() + (if old(self).save { old(self).max_terms_spec() } else { 0 }),
            r is Ok ==> final(self).weight() < old(self).weight(),
    {
        let (depth, g) = self.stack.pop_back().unwrap();
        assert(self.wf()) by {
            assert forall|i: int| 0 <= i < self.stack@.len() implies (#[trigger] self.stack@[i]).1.wf() by {
                assert(self.stack@[i] == old(self).stack@[i]);
            }
        }
        assert(g.wf()) by {
            assert(old(self).stack@[old(self).stack@.len() - 1] == (depth, g));
        }
        let ts = if self.random_t {
            Decomposer::random_ts(&g)
        } else {
            Decomposer::first_ts(&g)
        };
        let ghost mid = *self;
        match self.decomp_ts(depth, g, ts.as_slice(), simp) {
            Ok(()) => {
                proof {
                    assert(mid.snap() == popped(old(self).snap()));
                    lemma_step_sums(
                        mid.snap(),
                        old(self).save,
                        old(self).simp_func == SimpFunc::FullSimp,
                        depth,
                        g,
                        ts@,
                        self.snap(),
                        simp_fn(*simp),
                    );
                    assert(old(self).stack@.drop_last() == mid.stack@);
                    assert(old(self).stack@.last() == (depth, g));
                    assert(is_selection(old(self).stack@.last().1, ts@));
                }
                Ok(())
            },
            Err(g) => {
                self.stack.push_back((depth, g));
                assert(self.stack@ =~= old(self).stack@);
                Err(Overflow)
            },
        }
    }
}

impl Decomposer {
    /// A decomposer with an empty frontier, a zero total and no terms.
    pub fn empty() -> (r: Decomposer)
        ensures
            r.wf(),
            r.stack@.len() == 0,
            r.done@.len() == 0,
            r.scalar.is_zero() && r.scalar.pow == 0,
            r.nterms == 0,
            r.unreduced == 0,
            r.simp_func == SimpFunc::NoSimp,
            !r.random_t,
            !r.save,
    {
        Decomposer {
            stack: VecDeque::new(),
            done: Vec::new(),
            scalar: Scalar::zero(),
            nterms: 0,
            unreduced: 0,
            simp_func: SimpFunc::NoSimp,
            random_t: false,
            save: false,
        }
    }

    /// Whether the decomposer is well formed: every pending diagram is, and
    /// no more diagrams were left incomplete than were counted.
    pub fn is_wf(&self) -> (r: bool)
        ensures
            r == self.wf(),
    {
        if self.unreduced > self.nterms {
            return false;
        }
        let mut i: usize = 0;
        while i < self.stack.len()
            invariant
                i <= self.stack@.len(),
                self.unreduced <= self.nterms,
                forall|j: int| 0 <= j < i ==> (#[trigger] self.stack@[j]).1.wf(),
            decreases self.stack@.len() - i,
        {
            if !self.stack[i].1.is_wf() {
                return false;
            }
            i = i + 1;
        }
        true
    }

    /// A decomposer whose frontier holds a copy of `g` at depth zero.
    pub fn new(g: &Graph) -> (r: Decomposer)
        requires
            g.wf(),
        ensures
            r.wf(),
            r.stack@.len() == 1,
            r.stack@[0].0 == 0,
            r.stack@[0].1.same_as(g),
            r.done@.len() == 0,
            r.scalar.is_zero() && r.scalar.pow == 0,
            r.nterms == 0,
            r.unreduced == 0,
            r.simp_func == SimpFunc::NoSimp,
            !r.random_t,
            !r.save,
    {
        let mut d = Decomposer::empty();
        let h = g.duplicate();
        proof {
            assert(h.wf());
        }
        d.stack.push_back((0, h));
        d
    }

    pub fn with_simp(&mut self, f: SimpFunc)
        ensures
            final(self).simp_func == f,
            final(self).random_t == old(self).random_t,
            final(self).save == old(self).save,
            final(self).snap() == old(self).snap(),
    {
        self.simp_func = f;
    }

    pub fn with_full_simp(&mut self)
        ensures
            final(self).simp_func == SimpFunc::FullSimp,
            final(self).random_t == old(self).random_t,
            final(self).save == old(self).save,
            final(self).snap() == old(self).snap(),
    {
        self.simp_func = SimpFunc::FullSimp;
    }

    /// Chooses the random selection policy (`true`) or the first-in-order one.
    pub fn random_t(&mut self, b: bool)
        ensures
            final(self).random_t == b,
            final(self).simp_func == old(self).simp_func,
            final(self).save == old(self).save,
            final(self).snap() == old(self).snap(),
    {
        self.random_t = b;
    }

    /// Whether terminal diagrams are kept in `done`.
    pub fn save(&mut self, b: bool)
        ensures
            final(self).save == b,
            final(self).simp_func == old(self).simp_func,
            final(self).random_t == old(self).random_t,
            final(self).snap() == old(self).snap(),
    {
        self.save = b;
    }

    /// Removes and returns the diagram on top of the frontier.
    pub fn pop_graph(&mut self) -> (r: Graph)
        requires
            old(self).stack@.len() > 0,
        ensures
            r == old(self).stack@.last().1,
            final(self).stack@ == old(self).stack@.drop_last(),
            final(self).done@ == old(self).done@,
            final(self).scalar == old(self).scalar,
            final(self).nterms == old(self).nterms,
            final(self).unreduced == old(self).unreduced,
            final(self).same_config(old(self)),
    {
        let (_, g) = self.stack.pop_back().unwrap();
        g
    }

    /// Reduces until the frontier is empty, running `simp` on each child
    /// under `FullSimp`. Each terminal diagram adds one term; without
    /// simplification the count grows by exactly the bound the frontier had,
    /// and with it by at least the frontier's length. Every state it passes
    /// through follows from the last by one step; it stops early only at such
    /// a state whose top entry's step would overflow, and leaves that entry
    /// in place.
    pub fn decomp_all<S: Simplifier>(&mut self, simp: &S) -> (r: Result<(), Overflow>)
        requires
            old(self).wf(),
        ensures
            final(self).wf(),
            final(self).same_config(old(self)),
            old(self).simp_func == SimpFunc::NoSimp ==> final(self).max_terms_spec() + final(self).nterms == old(self).max_terms_spec()
                + old(self).nterms,
            old(self).simp_func == SimpFunc::NoSimp ==> final(self).done@.len() + (if old(self).save { final(self).max_terms_spec() } else { 0 })
                == old(self).done@.len() + (if old(self).save { old(self).max_terms_spec() } else { 0 }),
            r is Ok ==> final(self).stack@.len() == 0,
            final(self).nterms + final(self).stack@.len() >= old(self).nterms + old(self).stack@.len(),
            r is Ok && old(self).simp_func == SimpFunc::NoSimp ==> final(self).nterms == old(self).nterms + old(self).max_terms_spec(),
            r is Ok && old(self).save && old(self).simp_func == SimpFunc::NoSimp ==> final(self).done@.len() == old(self).done@.len() + old(self).max_terms_spec(),
            r is Err ==> final(self).stack@.len() > 0 && step_overflows(
                final(self).nterms,
                final(self).scalar,
                final(self).stack@.last().0,
                final(self).stack@.last().1,
                first_ts_spec(final(self).stack@.last().1),
            ),
            archived(old(self).done@, old(self).scalar, old(self).save, final(self).done@, final(self).scalar),
            reaches_back(
                    old(self).snap(),
                    old(self).save,
                    old(self).simp_func,
                    old(self).random_t,
                    final(self).snap(),
                    simp_fn(*simp),
                ),
    {
        proof {
            lemma_archived_start(self.done@, self.scalar, self.save);
            lemma_reaches_back_start(old(self).snap(), old(self).save, old(self).simp_func, old(self).random_t, simp_fn(*simp));
        }
        while self.stack.len() > 0
            invariant
                self.wf(),
                reaches_back(
                        old(self).snap(),
                        old(self).save,
                        old(self).simp_func,
                        old(self).random_t,
                        self.snap(),
                        simp_fn(*simp),
                    ),
                archived(old(self).done@, old(self).scalar, old(self).save, self.done@, self.scalar),
                self.nterms + self.stack@.len() >= old(self).nterms + old(self).stack@.len(),
                self.same_config(old(self)),
                old(self).simp_func == SimpFunc::NoSimp ==> self.max_terms_spec() + self.nterms == old(self).max_terms_spec() + old(
                    self).nterms,
                old(self).simp_func == SimpFunc::NoSimp ==> self.done@.len() + (if old(self).save { self.max_terms_spec() } else { 0 })
                    == old(self).done@.len() + (if old(self).save { old(self).max_terms_spec() } else { 0 }),
            decreases self.weight(),
        {
            let ghost pre = *self;
            match self.decomp_top(simp) {
                Ok(()) => {
                    proof {
                        let on = old(self).simp_func;
                        assert(step_back(pre.snap(), old(self).save, on, old(self).random_t, self.snap(), simp_fn(*simp)));
                        lemma_reaches_back_extend(
                            old(self).snap(),
                            old(self).save,
                            on,
                            old(self).random_t,
                            pre.snap(),
                            self.snap(),
                            simp_fn(*simp),
                        );
                        let top = pre.stack@.last();
                        let ts = choose|ts: Seq<usize>|
                            #[trigger] is_selection(top.1, ts) && (!pre.random_t ==> ts == first_ts_spec(top.1))
                                && stepped_snap(
                                popped(pre.snap()),
                                pre.save,
                                pre.simp_func == SimpFunc::FullSimp,
                                top.0,
                                top.1,
                                ts,
                                self.snap(),
                                simp_fn(*simp),
                            );
                        if ts.len() > 0 {
                            lemma_family_arity(ts.len());
                        }
                        lemma_archived_step(
                            old(self).done@,
                            old(self).scalar,
                            pre.save,
                            pre.simp_func == SimpFunc::FullSimp,
                            popped(pre.snap()),
                            top.0,
                            top.1,
                            ts,
                            self.snap(),
                            simp_fn(*simp),
                        );
                    }
                },
                Err(e) => {
                    proof {
                        assert(self.snap() == pre.snap());
                    }
                    return Err(e);
                },
            }
        }
        Ok(())
    }

    /// Reduces breadth-first, from the front of the frontier, until the
    /// frontier is empty or its front entry has depth at least `depth`.
    /// A frontier of one level (depths non-decreasing, within one of the
    /// first) stays so; from one whose depths are all at most `depth`, every
    /// entry ends at depth exactly `depth`. Without simplification each
    /// entry's T-count is fixed by its depth (`by_depth`). It stops early
    /// only at a reached state whose front step would overflow.
    pub fn decomp_until_depth<S: Simplifier>(&mut self, depth: usize, simp: &S) -> (r: Result<(), Overflow>)
        requires
            old(self).wf(),
        ensures
            final(self).wf(),
            final(self).same_config(old(self)),
            old(self).simp_func == SimpFunc::NoSimp ==> final(self).max_terms_spec() + final(self).nterms == old(self).max_terms_spec()
                + old(self).nterms,
            archived(old(self).done@, old(self).scalar, old(self).save, final(self).done@, final(self).scalar),
            r is Ok ==> final(self).stack@.len() == 0 || final(self).stack@[0].0 >= depth,
            r is Err ==> final(self).stack@.len() > 0 && final(self).stack@[0].0 < depth && step_overflows(
                final(self).nterms,
                final(self).scalar,
                final(self).stack@[0].0,
                final(self).stack@[0].1,
                first_ts_spec(final(self).stack@[0].1),
            ),
            old(self).stack@.len() == 0 || old(self).stack@[0].0 >= depth ==> r is Ok && final(self).unchanged(
                old(self),
            ),
            levelled(old(self).stack@) ==> levelled(final(self).stack@),
            levelled(old(self).stack@) && r is Ok ==> forall|i: int|
                0 <= i < final(self).stack@.len() ==> (#[trigger] final(self).stack@[i]).0 >= depth,
            all_at_most(old(self).stack@, depth) ==> all_at_most(final(self).stack@, depth),
            forall|t0: nat, d0: nat|
                old(self).simp_func == SimpFunc::NoSimp && #[trigger] by_depth(old(self).stack@, t0, d0) ==> by_depth(
                    final(self).stack@,
                    t0,
                    d0,
                ) && (no_terminal_before(t0, d0, depth as nat) ==> final(self).nterms == old(self).nterms),
            reaches_front(
                old(self).snap(),
                old(self).save,
                old(self).simp_func,
                old(self).random_t,
                depth,
                final(self).snap(),
                simp_fn(*simp),
            ),
    {
        proof {
            lemma_archived_start(self.done@, self.scalar, self.save);
            lemma_reaches_front_start(old(self).snap(), old(self).save, old(self).simp_func, old(self).random_t, depth, simp_fn(*simp));
        }
        let mut first = true;
        while self.stack.len() > 0
            invariant
                self.wf(),
                self.same_config(old(self)),
                old(self).simp_func == SimpFunc::NoSimp ==> self.max_terms_spec() + self.nterms == old(self).max_terms_spec() + old(
                    self).nterms,
                archived(old(self).done@, old(self).scalar, old(self).save, self.done@, self.scalar),
                first ==> self.unchanged(old(self)),
                reaches_front(
                    old(self).snap(),
                    old(self).save,
                    old(self).simp_func,
                    old(self).random_t,
                    depth,
                    self.snap(),
                    simp_fn(*simp),
                ),
                !first ==> old(self).stack@.len() > 0 && old(self).stack@[0].0 < depth,
                levelled(old(self).stack@) ==> levelled(self.stack@),
                all_at_most(old(self).stack@, depth) ==> all_at_most(self.stack@, depth),
                forall|t0: nat, d0: nat|
                    old(self).simp_func == SimpFunc::NoSimp && #[trigger] by_depth(old(self).stack@, t0, d0)
                        ==> by_depth(self.stack@, t0, d0) && (no_terminal_before(t0, d0, depth as nat) ==> self.nterms
                        == old(self).nterms),
            decreases self.weight(),
        {
            let ghost s0 = self.stack@;
            let ghost pre = *self;
            let (d, g) = self.stack.pop_front().unwrap();
            assert(s0[0] == (d, g));
            if d >= depth {
                self.stack.push_front((d, g));
                assert(self.stack@ =~= s0);
                assert(self.snap() == pre.snap());
                proof {
                    lemma_levelled_all_from_first(s0);
                }
                return Ok(());
            }
            assert(self.wf() && g.wf()) by {
                assert forall|i: int| 0 <= i < self.stack@.len() implies (#[trigger] self.stack@[i]).1.wf() by {
                    assert(self.stack@[i] == s0[i + 1]);
                }
            }
            let ts = if self.random_t {
                Decomposer::random_ts(&g)
            } else {
                Decomposer::first_ts(&g)
            };
            let ghost mid = *self;
            proof {
                lemma_sum_front(s0, bound_fn());
                lemma_sum_front(s0, weight_fn());
                assert(s0.drop_first() == mid.stack@);
                assert(ts@.len() == first_ts_spec(g).len());
            }
            match self.decomp_ts(d, g, ts.as_slice(), simp) {
                Ok(()) => {
                    proof {
                        let on = mid.simp_func == SimpFunc::FullSimp;
                        lemma_step_sums(mid.snap(), mid.save, on, d, g, ts@, self.snap(), simp_fn(*simp));
                        lemma_archived_step(
                            old(self).done@,
                            old(self).scalar,
                            mid.save,
                            on,
                            mid.snap(),
                            d,
                            g,
                            ts@,
                            self.snap(),
                            simp_fn(*simp),
                        );
                        let n = mid.stack@.len() as int;
                        if ts@.len() == 0 {
                            assert(self.stack@ == mid.stack@);
                        } else {
                            let cs = self.stack@.skip(n);
                            assert forall|i: int| n <= i < self.stack@.len() implies (#[trigger] self.stack@[i]).0
                                == d + 1 by {
                                assert(self.stack@[i] == cs[i - n]);
                            }
                        }
                        assert(self.stack@.take(n) == mid.stack@);
                        lemma_levelled_step(s0, self.stack@, d, depth);
                        let post = self.stack@;
                        assert forall|t0: nat, d0: nat|
                            old(self).simp_func == SimpFunc::NoSimp && #[trigger] by_depth(old(self).stack@, t0, d0)
                                implies by_depth(post, t0, d0) && (no_terminal_before(t0, d0, depth as nat)
                                ==> self.nterms == old(self).nterms) by {
                            assert(by_depth(s0, t0, d0));
                            assert(s0[0].0 >= d0 && g.tcount_spec() == tc_after(t0, (d - d0) as nat));
                            let k = (d + 1 - d0) as nat;
                            assert((k - 1) as nat == (d - d0) as nat);
                            if ts@.len() == 0 {
                                assert(tc_after(t0, ((d as int) - d0) as nat) == 0);
                                assert(!no_terminal_before(t0, d0, depth as nat));
                                lemma_by_depth_step(s0, post, t0, d0, n);
                            } else {
                                lemma_family_arity(ts@.len());
                                assert forall|i: int| n <= i < post.len() implies (#[trigger] post[i]).0 == s0[0].0
                                    + 1 && post[i].1.tcount_spec() == tc_after(t0, (s0[0].0 + 1 - d0) as nat) by {
                                    let cs = post.skip(n);
                                    assert(post[i] == cs[i - n]);
                                    assert(family(ts@.len())[i - n].is_child(&g, used(ts@), &cs[i - n].1));
                                }
                                lemma_by_depth_step(s0, post, t0, d0, n);
                            }
                        }
                        assert(mid.snap() == Snapshot { stack: pre.snap().stack.drop_first(), ..pre.snap() });
                        assert(is_selection(pre.snap().stack[0].1, ts@));
                        assert(step_front(pre.snap(), old(self).save, old(self).simp_func, old(self).random_t, depth, self.snap(), simp_fn(*simp)));
                        lemma_reaches_front_extend(
                            old(self).snap(),
                            old(self).save,
                            old(self).simp_func,
                            old(self).random_t,
                            depth,
                            pre.snap(),
                            self.snap(),
                            simp_fn(*simp),
                        );
                    }
                    first = false;
                },
                Err(g) => {
                    self.stack.push_front((d, g));
                    assert(self.stack@ =~= s0);
                    assert(self.snap() == pre.snap());
                    return Err(Overflow);
                },
            }
        }
        Ok(())
    }

    /// The bound `sum of 7^(t / 6) * 2^((t % 6) / 2) * (2 if t % 6 is odd)`
    /// over the T-counts `t` of the frontier.
    pub fn max_terms(&self) -> (r: usize)
        requires
            self.max_terms_spec() <= usize::MAX,
        ensures
            r == self.max_terms_spec(),
    {
        let mut n: usize = 0;
        let mut i: usize = 0;
        proof {
            lemma_sum_concat(self.stack@.take(0), self.stack@.skip(0), bound_fn());
            assert(self.stack@.take(0) + self.stack@.skip(0) =~= self.stack@);
        }
        while i < self.stack.len()
            invariant
                i <= self.stack@.len(),
                n == sum_by(self.stack@.take(i as int), bound_fn()),
                self.max_terms_spec() <= usize::MAX,
            decreases self.stack@.len() - i,
        {
            let ghost s = self.stack@;
            proof {
                assert(s.take(i + 1).drop_last() =~= s.take(i as int));
                lemma_sum_concat(s.take(i + 1), s.skip(i + 1), bound_fn());
                assert(s.take(i + 1) + s.skip(i + 1) =~= s);
            }
            let t = self.stack[i].1.tcount();
            let b = term_bound_exec(t);
            n = n + b;
            i = i + 1;
        }
        assert(self.stack@.take(i as int) =~= self.stack@);
        n
    }
}

fn slice_to_vec(s: &[usize]) -> (r: Vec<usize>)
    ensures
        r@ == s@,
{
    let mut r: Vec<usize> = Vec::new();
    let mut i: usize = 0;
    while i < s.len()
        invariant
            i <= s@.len(),
            r@ == s@.take(i as int),
        decreases s@.len() - i,
    {
        r.push(s[i]);
        i = i + 1;
        assert(r@ =~= s@.take(i as int));
    }
    assert(s@.take(s@.len() as int) =~= s@);
    r
}

fn family_exec(n: usize) -> (r: Vec<Identity>)
    ensures
        r@ == family(n as nat),
{
    if n == 6 {
        vec![
            Identity::B60,
            Identity::B66,
            Identity::E6,
            Identity::O6,
            Identity::K6,
            Identity::Phi1,
            Identity::Phi2,
        ]
    } else if n >= 2 {
        vec![Identity::BellS, Identity::Epr]
    } else if n == 1 {
        vec![Identity::T0, Identity::T1]
    } else {
        Vec::new()
    }
}

/// One child per identity of `ids`, all at `depth`; `None` where a new
/// scalar does not fit.
fn make_children<S: Simplifier>(
    g: &Graph,
    depth: usize,
    ids: &[Identity],
    verts: &[usize],
    on: bool,
    simp: &S,
) -> (r: Option<Vec<(usize, Graph)>>)
    requires
        forall|i: int| 0 <= i < ids@.len() ==> (#[trigger] ids@[i]).applies(g, verts@),
    ensures
        r is None <==> exists|i: int| 0 <= i < ids@.len() && !g.scalar.mul_fits(#[trigger] ids@[i].factor()),
        r matches Some(cs) ==> cs@.len() == ids@.len() && forall|i: int|
            0 <= i < cs@.len() ==> (#[trigger] cs@[i]).0 == depth && made_by(ids@[i], *g, verts@, cs@[i].1, on, simp_fn(*simp)),
{
    let mut cs: Vec<(usize, Graph)> = Vec::new();
    let mut i: usize = 0;
    while i < ids.len()
        invariant
            i <= ids@.len(),
            forall|j: int| 0 <= j < ids@.len() ==> (#[trigger] ids@[j]).applies(g, verts@),
            forall|j: int| 0 <= j < i ==> g.scalar.mul_fits(#[trigger] ids@[j].factor()),
            cs@.len() == i,
            forall|j: int|
                0 <= j < i ==> (#[trigger] cs@[j]).0 == depth && made_by(ids@[j], *g, verts@, cs@[j].1, on, simp_fn(*simp)),
        decreases ids@.len() - i,
    {
        match ids[i].apply(g, verts) {
            None => {
                return None;
            },
            Some(h) => {
                let ghost raw = h;
                let mut h = h;
                if on {
                    simp.simplify(&mut h);
                    assert(ids@[i as int].is_child(g, verts@, &raw) && h == simp_fn(*simp)(raw));
                }
                cs.push((depth, h));
            },
        }
        i = i + 1;
    }
    Some(cs)
}

} // verus!

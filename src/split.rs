//! Splitting a decomposer into independent single-entry parts and merging
//! parts back into one.
use vstd::prelude::*;
use crate::decompose::{Decomposer, Overflow, SimpFunc};
use crate::graph::Graph;
use crate::scalar::Scalar;

verus! {

/// The frontiers of `parts`, one after another.
pub open spec fn concat_stacks(parts: Seq<Decomposer>) -> Seq<(usize, Graph)>
    decreases parts.len(),
{
    if parts.len() == 0 {
        Seq::empty()
    } else {
        concat_stacks(parts.drop_last()) + parts.last().stack@
    }
}

/// The saved terminal diagrams of `parts`, one after another.
pub open spec fn concat_dones(parts: Seq<Decomposer>) -> Seq<Graph>
    decreases parts.len(),
{
    if parts.len() == 0 {
        Seq::empty()
    } else {
        concat_dones(parts.drop_last()) + parts.last().done@
    }
}

pub open spec fn sum_unreduced(parts: Seq<Decomposer>) -> nat
    decreases parts.len(),
{
    if parts.len() == 0 {
        0
    } else {
        sum_unreduced(parts.drop_last()) + parts.last().unreduced as nat
    }
}

pub open spec fn sum_nterms(parts: Seq<Decomposer>) -> nat
    decreases parts.len(),
{
    if parts.len() == 0 {
        0
    } else {
        sum_nterms(parts.drop_last()) + parts.last().nterms as nat
    }
}

/// The totals of `parts` added from the first to the last.
pub open spec fn sum_scalars(parts: Seq<Decomposer>) -> Scalar
    decreases parts.len(),
{
    if parts.len() <= 1 {
        parts[0].scalar
    } else {
        sum_scalars(parts.drop_last()).plus(parts.last().scalar)
    }
}

/// Every addition that merging `parts` makes fits.
pub open spec fn merge_fits(parts: Seq<Decomposer>) -> bool
    decreases parts.len(),
{
    &&& sum_nterms(parts) <= usize::MAX
    &&& parts.len() > 1 ==> merge_fits(parts.drop_last()) && sum_scalars(parts.drop_last()).add_fits(
        parts.last().scalar,
    )
}

/// `m` is `parts` merged: frontiers and archives concatenated in order,
/// totals and term counts added, and the configuration of the last.
pub open spec fn is_merge_of(parts: Seq<Decomposer>, m: Decomposer) -> bool {
    &&& m.wf()
    &&& m.stack@ == concat_stacks(parts)
    &&& m.done@ == concat_dones(parts)
    &&& m.nterms == sum_nterms(parts)
    &&& m.unreduced == sum_unreduced(parts)
    &&& parts.len() == 0 ==> m.scalar.is_zero() && m.scalar.pow == 0 && m.simp_func == SimpFunc::NoSimp
        && !m.random_t && !m.save
    &&& parts.len() > 0 ==> m.scalar == sum_scalars(parts) && m.same_config(&parts.last())
}

pub open spec fn is_fresh_part(p: Decomposer, d: Decomposer, e: (usize, Graph)) -> bool {
    &&& p.wf()
    &&& p.stack@ == seq![e]
    &&& p.done@.len() == 0
    &&& p.scalar.is_zero() && p.scalar.pow == 0
    &&& p.nterms == 0
    &&& p.unreduced == 0
    &&& p.same_config(&d)
}

/// `parts` is `d` split: one part per frontier entry, each with that entry
/// alone and `d`'s configuration; the last keeps `d`'s totals and archive.
pub open spec fn is_split_of(d: Decomposer, parts: Seq<Decomposer>) -> bool {
    let n = d.stack@.len();
    &&& parts.len() == if n == 0 { 1 } else { n }
    &&& forall|i: int| 0 <= i < parts.len() - 1 ==> is_fresh_part(#[trigger] parts[i], d, d.stack@[i])
    &&& parts.last().wf()
    &&& parts.last().stack@ == d.stack@.skip(parts.len() - 1)
    &&& parts.last().done@ == d.done@
    &&& parts.last().scalar == d.scalar
    &&& parts.last().nterms == d.nterms
    &&& parts.last().unreduced == d.unreduced
    &&& parts.last().same_config(&d)
}

/// Splitting and then merging gives back the same frontier, archive, total,
/// term count and configuration; the merge always succeeds.
pub proof fn lemma_split_merge(d: Decomposer, parts: Seq<Decomposer>)
    requires
        is_split_of(d, parts),
    ensures
        merge_fits(parts),
        concat_stacks(parts) == d.stack@,
        concat_dones(parts) == d.done@,
        sum_nterms(parts) == d.nterms,
        sum_unreduced(parts) == d.unreduced,
        sum_scalars(parts) == d.scalar,
        parts.last().same_config(&d),
{
    let k = parts.len() - 1;
    lemma_split_prefix(d, parts, k as nat);
    let pre = parts.take(k);
    assert(parts.drop_last() =~= pre);
    assert(d.stack@.take(k) + d.stack@.skip(k) =~= d.stack@);
    assert(Seq::<Graph>::empty() + d.done@ =~= d.done@);
    if k > 0 {
        assert(parts[0] == pre[0]);
        assert(sum_scalars(pre).is_zero());
    } else {
        assert(sum_nterms(parts) == sum_nterms(parts.drop_last()) + parts.last().nterms);
        assert(sum_unreduced(parts) == sum_unreduced(parts.drop_last()) + parts.last().unreduced);
    }
}

proof fn lemma_split_prefix(d: Decomposer, parts: Seq<Decomposer>, k: nat)
    requires
        is_split_of(d, parts),
        k < parts.len(),
    ensures
        concat_stacks(parts.take(k as int)) == d.stack@.take(k as int),
        concat_dones(parts.take(k as int)) == Seq::<Graph>::empty(),
        sum_nterms(parts.take(k as int)) == 0,
        sum_unreduced(parts.take(k as int)) == 0,
        merge_fits(parts.take(k as int)),
        k > 0 ==> sum_scalars(parts.take(k as int)) == parts[0].scalar,
        k > 0 ==> parts[0].scalar.is_zero() && parts[0].scalar.pow == 0,
    decreases k,
{
    let pk = parts.take(k as int);
    if k == 0 {
        assert(pk =~= Seq::<Decomposer>::empty());
        assert(d.stack@.take(0) =~= Seq::<(usize, Graph)>::empty());
    } else {
        let j = (k - 1) as nat;
        lemma_split_prefix(d, parts, j);
        assert(pk.drop_last() =~= parts.take(j as int));
        assert(pk.last() == parts[j as int]);
        assert(is_fresh_part(parts[j as int], d, d.stack@[j as int]));
        assert(d.stack@.take(k as int) =~= d.stack@.take(j as int) + seq![d.stack@[j as int]]);
        assert(Seq::<Graph>::empty() + parts[j as int].done@ =~= Seq::<Graph>::empty());
        assert(is_fresh_part(parts[0], d, d.stack@[0]));
        if j > 0 {
            assert(sum_scalars(pk.drop_last()).is_zero());
        } else {
            assert(pk.len() == 1);
        }
    }
}

impl Decomposer {
    /// Splits a decomposer with `n` frontier entries into `n` decomposers
    /// with one entry each, for independent reduction. The last keeps the
    /// totals and the archive.
    pub fn split(self) -> (r: Vec<Decomposer>)
        requires
            self.wf(),
        ensures
            is_split_of(self, r@),
    {
        let ghost d = self;
        let mut this = self;
        let mut ds: Vec<Decomposer> = Vec::new();
        while this.stack.len() > 1
            invariant
                this.wf(),
                this.stack@ == d.stack@.skip(ds@.len() as int),
                ds@.len() < d.stack@.len() || d.stack@.len() == 0 && ds@.len() == 0,
                this.done@ == d.done@,
                this.scalar == d.scalar,
                this.nterms == d.nterms,
                this.unreduced == d.unreduced,
                this.same_config(&d),
                forall|i: int| 0 <= i < ds@.len() ==> is_fresh_part(#[trigger] ds@[i], d, d.stack@[i]),
            decreases this.stack@.len(),
        {
            let ghost s0 = this.stack@;
            let e = this.stack.pop_front().unwrap();
            let mut d1 = Decomposer::empty();
            d1.stack.push_back(e);
            d1.save = this.save;
            d1.random_t = this.random_t;
            d1.simp_func = this.simp_func;
            proof {
                assert(s0[0] == e);
                assert(e == d.stack@[ds@.len() as int]);
                assert(e.1.wf());
                assert(d1.stack@ =~= seq![e]);
                assert(this.stack@ =~= d.stack@.skip(ds@.len() as int + 1));
                assert forall|i: int| 0 <= i < this.stack@.len() implies (#[trigger] this.stack@[i]).1.wf() by {
                    assert(this.stack@[i] == s0[i + 1]);
                }
            }
            ds.push(d1);
        }
        ds.push(this);
        ds
    }

    /// Merges decomposers into one: frontiers and archives concatenated in
    /// order, totals and term counts added. With no decomposer, the result
    /// is empty. `Err` where a sum does not fit.
    pub fn merge(ds: Vec<Decomposer>) -> (r: Result<Decomposer, Overflow>)
        requires
            forall|i: int| 0 <= i < ds@.len() ==> (#[trigger] ds@[i]).wf(),
        ensures
            r is Ok <==> merge_fits(ds@),
            r matches Ok(m) ==> is_merge_of(ds@, m),
    {
        let ghost parts = ds@;
        let mut rest = ds;
        if rest.len() == 0 {
            let m = Decomposer::empty();
            proof {
                assert(parts.len() == 0);
                assert(concat_stacks(parts) =~= m.stack@);
                assert(concat_dones(parts) =~= m.done@);
            }
            return Ok(m);
        }
        let mut m = rest.remove(0);
        proof {
            assert(m == parts[0]);
            assert(parts.take(1).last() == parts[0]);
            assert(parts.take(1)[0] == parts[0]);
            assert(Seq::<(usize, Graph)>::empty() + m.stack@ =~= m.stack@);
            assert(Seq::<Graph>::empty() + m.done@ =~= m.done@);
            assert(parts.take(1).drop_last() =~= Seq::<Decomposer>::empty());
            let head = parts.take(1);
            assert(head.drop_last() =~= Seq::<Decomposer>::empty());
            assert(concat_stacks(head.drop_last()) == Seq::<(usize, Graph)>::empty());
            assert(concat_dones(head.drop_last()) == Seq::<Graph>::empty());
            assert(concat_stacks(head) == concat_stacks(head.drop_last()) + head.last().stack@);
            assert(concat_dones(head) == concat_dones(head.drop_last()) + head.last().done@);
            assert(parts.len() - rest@.len() == 1);
            assert(sum_nterms(head) == sum_nterms(head.drop_last()) + m.nterms);
            assert(sum_unreduced(head) == sum_unreduced(head.drop_last()) + m.unreduced);
            assert(sum_scalars(head) == m.scalar);
            assert(concat_stacks(head) =~= m.stack@);
            assert(concat_dones(head) =~= m.done@);
        }
        while rest.len() > 0
            invariant
                parts == ds@,
                forall|i: int| 0 <= i < parts.len() ==> (#[trigger] parts[i]).wf(),
                1 <= parts.len() - rest@.len() <= parts.len(),
                rest@ == parts.skip(parts.len() - rest@.len()),
                is_merge_of(parts.take(parts.len() - rest@.len()), m),
                merge_fits(parts.take(parts.len() - rest@.len())),
            decreases rest@.len(),
        {
            let ghost k = parts.len() - rest@.len();
            let ghost pre = parts.take(k);
            let ghost next = parts.take(k + 1);
            let mut d1 = rest.remove(0);
            proof {
                assert(d1 == parts[k]);
                assert(rest@ =~= parts.skip(k + 1));
                assert(next.drop_last() =~= pre);
                assert(next.last() == d1);
                assert(next[0] == pre[0]);
            }
            let s = match m.scalar.checked_add(&d1.scalar) {
                None => {
                    proof {
                        assert(!merge_fits(next));
                        lemma_merge_fits_whole(parts, (k + 1) as nat);
                        assert(!merge_fits(parts));
                    }
                    return Err(Overflow);
                },
                Some(s) => s,
            };
            if m.nterms > usize::MAX - d1.nterms {
                proof {
                    assert(sum_nterms(next) == sum_nterms(pre) + d1.nterms);
                    assert(!merge_fits(next));
                    lemma_merge_fits_whole(parts, (k + 1) as nat);
                    assert(!merge_fits(parts));
                }
                return Err(Overflow);
            }
            let ghost ms = m.stack@;
            m.scalar = s;
            m.nterms = m.nterms + d1.nterms;
            m.unreduced = m.unreduced + d1.unreduced;
            m.stack.append(&mut d1.stack);
            m.done.append(&mut d1.done);
            m.simp_func = d1.simp_func;
            m.random_t = d1.random_t;
            m.save = d1.save;
            proof {
                assert forall|i: int| 0 <= i < m.stack@.len() implies (#[trigger] m.stack@[i]).1.wf() by {
                    if i < ms.len() {
                        assert(m.stack@[i] == ms[i]);
                    } else {
                        assert(m.stack@[i] == parts[k].stack@[i - ms.len()]);
                    }
                }
            }
        }
        proof {
            assert(parts.take(parts.len() as int) =~= parts);
        }
        Ok(m)
    }
}

proof fn lemma_merge_fits_whole(parts: Seq<Decomposer>, k: nat)
    requires
        k <= parts.len(),
        !merge_fits(parts.take(k as int)),
    ensures
        !merge_fits(parts),
{
    assert(parts.take(parts.len() as int) =~= parts);
    if merge_fits(parts) {
        lemma_merge_fits_prefix(parts, k, parts.len());
    }
}

/// Where a prefix of `parts` does not fit, no longer prefix does.
proof fn lemma_merge_fits_prefix(parts: Seq<Decomposer>, k: nat, n: nat)
    requires
        k <= n <= parts.len(),
        merge_fits(parts.take(n as int)),
    ensures
        merge_fits(parts.take(k as int)),
    decreases n - k,
{
    if k < n {
        assert(parts.take(n as int).drop_last() =~= parts.take(n - 1));
        lemma_merge_fits_prefix(parts, k, (n - 1) as nat);
    }
}

} // verus!

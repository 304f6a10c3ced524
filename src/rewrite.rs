//! The rewrite identities: each maps a diagram and a selection of its
//! T-vertices to one term of a stabilizer decomposition.
use vstd::prelude::*;
use crate::graph::{
    EType, Edge, Graph, VData, VType, has_edge_in, is_t_phase, is_t_selection, shift_phases, star_edges,
};
use crate::scalar::Scalar;

verus! {

/// One term of a decomposition. `B60` to `Phi2` split six T-vertices into
/// seven terms (the identity of Bravyi, Smith and Smolin, Phys. Rev. X, 2016);
/// `BellS` and `Epr` split two; `T0` and `T1` split one.
#[derive(Clone, Copy, Debug, PartialEq, Eq, Structural)]
pub enum Identity {
    B60,
    B66,
    E6,
    O6,
    K6,
    Phi1,
    Phi2,
    BellS,
    Epr,
    T0,
    T1,
}

/// The order in which `Phi2` hands its vertices to `Phi1`.
pub open spec fn phi2_order(v: Seq<usize>) -> Seq<usize> {
    seq![v[0], v[1], v[3], v[4], v[5], v[2]]
}

/// The edges that `Phi1` adds, where the new vertices are `n .. n + 5`.
pub open spec fn phi_edges(v: Seq<usize>, n: usize) -> Seq<Edge> {
    let h = EType::H;
    seq![
        (v[0], n, h), (n, v[5], h),
        (v[1], (n + 1) as usize, h), ((n + 1) as usize, v[5], h),
        (v[2], (n + 2) as usize, h), ((n + 2) as usize, v[5], h),
        (v[3], (n + 3) as usize, h), ((n + 3) as usize, v[5], h),
        (v[4], (n + 4) as usize, h), ((n + 4) as usize, v[5], h),
        (n, (n + 2) as usize, h), (n, (n + 3) as usize, h),
        ((n + 1) as usize, (n + 3) as usize, h), ((n + 1) as usize, (n + 4) as usize, h),
        ((n + 2) as usize, (n + 4) as usize, h)
    ]
}

/// The vertices after `Phi1`: five selected vertices shifted by `-pi / 4`,
/// the sixth by `3 pi / 4`, and five new Z-vertices of phase zero.
pub open spec fn phi_vdata(vd: Seq<VData>, v: Seq<usize>) -> Seq<VData> {
    shift_phases(shift_phases(vd, v.take(5), 7), seq![v[5]], 3) + seq![zv(0), zv(0), zv(0), zv(0), zv(0)]
}

pub open spec fn zv(phase: u8) -> VData {
    VData { ty: VType::Z, phase }
}

impl Identity {
    /// The number of T-vertices the identity consumes.
    pub open spec fn arity(self) -> nat {
        match self {
            Identity::BellS | Identity::Epr => 2,
            Identity::T0 | Identity::T1 => 1,
            _ => 6,
        }
    }

    /// The factor by which the identity multiplies the diagram's scalar.
    pub open spec fn factor(self) -> Scalar {
        match self {
            Identity::B60 => Scalar { pow: -2i64, c0: -1i32, c1: 0, c2: 1, c3: 1 },
            Identity::B66 => Scalar { pow: -2i64, c0: -1i32, c1: 0, c2: 1, c3: -1i32 },
            Identity::E6 => Scalar { pow: 1, c0: 0, c1: -1i32, c2: 0, c3: 0 },
            Identity::O6 => Scalar { pow: 1, c0: -1i32, c1: 0, c2: -1i32, c3: 0 },
            Identity::K6 => Scalar { pow: 1, c0: 1, c1: 0, c2: 0, c3: 0 },
            Identity::Phi1 | Identity::Phi2 => Scalar { pow: 3, c0: 1, c1: 0, c2: 1, c3: 0 },
            Identity::BellS => Scalar { pow: 0, c0: 1, c1: 0, c2: 0, c3: 0 },
            Identity::Epr => Scalar { pow: 0, c0: 0, c1: 1, c2: 0, c3: 0 },
            Identity::T0 => Scalar { pow: -1i64, c0: 0, c1: 1, c2: 0, c3: -1i32 },
            Identity::T1 => Scalar { pow: -1i64, c0: 1, c1: 0, c2: 1, c3: 0 },
        }
    }

    /// The vertices after the rewrite, where `v` is the selection.
    pub open spec fn vdata_after(self, vd: Seq<VData>, v: Seq<usize>) -> Seq<VData> {
        match self {
            Identity::B60 => shift_phases(vd, v, 7),
            Identity::B66 => shift_phases(vd, v, 3),
            Identity::E6 => shift_phases(vd, v, 1).push(zv(4)),
            Identity::O6 => shift_phases(vd, v, 1).push(zv(0)),
            Identity::K6 => shift_phases(vd, v, 7).push(zv(6)),
            Identity::Phi1 => phi_vdata(vd, v),
            Identity::Phi2 => phi_vdata(vd, phi2_order(v)),
            Identity::BellS => shift_phases(shift_phases(vd, seq![v[0]], 7), seq![v[1]], 1),
            Identity::Epr => shift_phases(vd, v, 7).push(zv(4)),
            Identity::T0 => shift_phases(vd, v, 7).push(zv(0)),
            Identity::T1 => shift_phases(vd, v, 7).push(zv(4)),
        }
    }

    /// The edges after the rewrite, where `n` is the number of vertices before it.
    pub open spec fn edges_after(self, es: Seq<Edge>, n: usize, v: Seq<usize>) -> Seq<Edge> {
        match self {
            Identity::B60 | Identity::B66 => es,
            Identity::E6 | Identity::O6 | Identity::Epr | Identity::T0 | Identity::T1 => es + star_edges(
                v,
                n,
                EType::H,
            ),
            Identity::K6 => es + star_edges(v, n, EType::N),
            Identity::Phi1 => es + phi_edges(v, n),
            Identity::Phi2 => es + phi_edges(phi2_order(v), n),
            Identity::BellS => if has_edge_in(es, v[0], v[1], EType::N) {
                es
            } else {
                es.push((v[0], v[1], EType::N))
            },
        }
    }

    /// `h` is the term that the identity makes of `g` on the selection `v`.
    pub open spec fn is_child(self, g: &Graph, v: Seq<usize>, h: &Graph) -> bool {
        &&& h.wf()
        &&& h.scalar.is_value(g.scalar.mul_spec(self.factor()))
        &&& h.vdata@ == self.vdata_after(g.vdata@, v)
        &&& h.edges@ == self.edges_after(g.edges@, g.vdata@.len() as usize, v)
        &&& h.outputs@ == g.outputs@
        &&& h.tcount_spec() == g.tcount_spec() - self.arity()
    }

    /// The precondition of every identity: a well-formed diagram, room for
    /// the new vertices, and exactly `arity` distinct T-vertices.
    pub open spec fn applies(self, g: &Graph, v: Seq<usize>) -> bool {
        &&& g.wf()
        &&& g.vdata@.len() + 5 <= usize::MAX
        &&& v.len() == self.arity()
        &&& is_t_selection(g.vdata@, v)
    }

    pub fn factor_exec(self) -> (r: Scalar)
        ensures
            r == self.factor(),
    {
        match self {
            Identity::B60 => Scalar::exact(-2, -1, 0, 1, 1),
            Identity::B66 => Scalar::exact(-2, -1, 0, 1, -1),
            Identity::E6 => Scalar::exact(1, 0, -1, 0, 0),
            Identity::O6 => Scalar::exact(1, -1, 0, -1, 0),
            Identity::K6 => Scalar::exact(1, 1, 0, 0, 0),
            Identity::Phi1 | Identity::Phi2 => Scalar::exact(3, 1, 0, 1, 0),
            Identity::BellS => Scalar::one(),
            Identity::Epr => {
                let s = Scalar::from_phase(1);
                proof {
                    reveal_with_fuel(crate::scalar::w_pow, 2);
                }
                s
            },
            Identity::T0 => Scalar::exact(-1, 0, 1, 0, -1),
            Identity::T1 => Scalar::exact(-1, 1, 0, 1, 0),
        }
    }

    /// The term that this identity makes of `g` on `verts`, or `None` where
    /// the new scalar does not fit.
    pub fn apply(self, g: &Graph, verts: &[usize]) -> (r: Option<Graph>)
        requires
            self.applies(g, verts@),
        ensures
            r is Some <==> g.scalar.mul_fits(self.factor()),
            r matches Some(h) ==> self.is_child(g, verts@, &h),
    {
        match self {
            Identity::B60 => replace_b60(g, verts),
            Identity::B66 => replace_b66(g, verts),
            Identity::E6 => replace_e6(g, verts),
            Identity::O6 => replace_o6(g, verts),
            Identity::K6 => replace_k6(g, verts),
            Identity::Phi1 => replace_phi1(g, verts),
            Identity::Phi2 => replace_phi2(g, verts),
            Identity::BellS => replace_bell_s(g, verts),
            Identity::Epr => replace_epr(g, verts),
            Identity::T0 => replace_t0(g, verts),
            Identity::T1 => replace_t1(g, verts),
        }
    }
}

/// A copy of `g` with its scalar multiplied by the identity's factor.
fn scaled(g: &Graph, id: Identity) -> (r: Option<Graph>)
    ensures
        r is Some <==> g.scalar.mul_fits(id.factor()),
        r matches Some(h) ==> h.scalar.is_value(g.scalar.mul_spec(id.factor())) && h.vdata@ == g.vdata@
            && h.edges@ == g.edges@ && h.outputs@ == g.outputs@,
{
    match g.scalar.checked_mul(&id.factor_exec()) {
        None => None,
        Some(s) => {
            let mut h = g.duplicate();
            h.scalar = s;
            Some(h)
        },
    }
}

/// Shifts the selection by `delta` and joins it to a new Z-vertex of phase
/// `phase` by edges of type `et`.
fn shift_and_star(g: &Graph, id: Identity, verts: &[usize], delta: u8, phase: u8, et: EType) -> (r: Option<
    Graph,
>)
    requires
        id.applies(g, verts@),
        delta % 2 == 1,
        phase % 2 == 0,
        phase < 8,
    ensures
        r is Some <==> g.scalar.mul_fits(id.factor()),
        r matches Some(h) ==> {
            &&& h.wf()
            &&& h.scalar.is_value(g.scalar.mul_spec(id.factor()))
            &&& h.vdata@ == shift_phases(g.vdata@, verts@, delta).push(zv(phase))
            &&& h.edges@ == g.edges@ + star_edges(verts@, g.vdata@.len() as usize, et)
            &&& h.outputs@ == g.outputs@
            &&& h.tcount_spec() == g.tcount_spec() - verts@.len()
        },
{
    match scaled(g, id) {
        None => None,
        Some(mut h) => {
            h.add_to_phases(verts, delta);
            let w = h.add_vertex_with_phase(VType::Z, phase);
            h.add_star(verts, w, et);
            Some(h)
        },
    }
}

/// Shifts the selection by `delta` without adding vertices or edges.
fn shift_only(g: &Graph, id: Identity, verts: &[usize], delta: u8) -> (r: Option<Graph>)
    requires
        id.applies(g, verts@),
        delta % 2 == 1,
    ensures
        r is Some <==> g.scalar.mul_fits(id.factor()),
        r matches Some(h) ==> {
            &&& h.wf()
            &&& h.scalar.is_value(g.scalar.mul_spec(id.factor()))
            &&& h.vdata@ == shift_phases(g.vdata@, verts@, delta)
            &&& h.edges@ == g.edges@
            &&& h.outputs@ == g.outputs@
            &&& h.tcount_spec() == g.tcount_spec() - verts@.len()
        },
{
    match scaled(g, id) {
        None => None,
        Some(mut h) => {
            h.add_to_phases(verts, delta);
            Some(h)
        },
    }
}

pub fn replace_b60(g: &Graph, verts: &[usize]) -> (r: Option<Graph>)
    requires
        Identity::B60.applies(g, verts@),
    ensures
        r is Some <==> g.scalar.mul_fits(Identity::B60.factor()),
        r matches Some(h) ==> Identity::B60.is_child(g, verts@, &h),
{
    shift_only(g, Identity::B60, verts, 7)
}

pub fn replace_b66(g: &Graph, verts: &[usize]) -> (r: Option<Graph>)
    requires
        Identity::B66.applies(g, verts@),
    ensures
        r is Some <==> g.scalar.mul_fits(Identity::B66.factor()),
        r matches Some(h) ==> Identity::B66.is_child(g, verts@, &h),
{
    shift_only(g, Identity::B66, verts, 3)
}

pub fn replace_e6(g: &Graph, verts: &[usize]) -> (r: Option<Graph>)
    requires
        Identity::E6.applies(g, verts@),
    ensures
        r is Some <==> g.scalar.mul_fits(Identity::E6.factor()),
        r matches Some(h) ==> Identity::E6.is_child(g, verts@, &h),
{
    shift_and_star(g, Identity::E6, verts, 1, 4, EType::H)
}

pub fn replace_o6(g: &Graph, verts: &[usize]) -> (r: Option<Graph>)
    requires
        Identity::O6.applies(g, verts@),
    ensures
        r is Some <==> g.scalar.mul_fits(Identity::O6.factor()),
        r matches Some(h) ==> Identity::O6.is_child(g, verts@, &h),
{
    shift_and_star(g, Identity::O6, verts, 1, 0, EType::H)
}

pub fn replace_k6(g: &Graph, verts: &[usize]) -> (r: Option<Graph>)
    requires
        Identity::K6.applies(g, verts@),
    ensures
        r is Some <==> g.scalar.mul_fits(Identity::K6.factor()),
        r matches Some(h) ==> Identity::K6.is_child(g, verts@, &h),
{
    shift_and_star(g, Identity::K6, verts, 7, 6, EType::N)
}

pub fn replace_epr(g: &Graph, verts: &[usize]) -> (r: Option<Graph>)
    requires
        Identity::Epr.applies(g, verts@),
    ensures
        r is Some <==> g.scalar.mul_fits(Identity::Epr.factor()),
        r matches Some(h) ==> Identity::Epr.is_child(g, verts@, &h),
{
    shift_and_star(g, Identity::Epr, verts, 7, 4, EType::H)
}

pub fn replace_t0(g: &Graph, verts: &[usize]) -> (r: Option<Graph>)
    requires
        Identity::T0.applies(g, verts@),
    ensures
        r is Some <==> g.scalar.mul_fits(Identity::T0.factor()),
        r matches Some(h) ==> Identity::T0.is_child(g, verts@, &h),
{
    shift_and_star(g, Identity::T0, verts, 7, 0, EType::H)
}

pub fn replace_t1(g: &Graph, verts: &[usize]) -> (r: Option<Graph>)
    requires
        Identity::T1.applies(g, verts@),
    ensures
        r is Some <==> g.scalar.mul_fits(Identity::T1.factor()),
        r matches Some(h) ==> Identity::T1.is_child(g, verts@, &h),
{
    shift_and_star(g, Identity::T1, verts, 7, 4, EType::H)
}

/// `seq![v]` as a selection shifts exactly the vertex `v`.
proof fn lemma_shift_one(vd: Seq<VData>, v: usize, delta: u8)
    requires
        v < vd.len() <= usize::MAX,
    ensures
        shift_phases(vd, seq![v], delta) == vd.update(
            v as int,
            VData { ty: vd[v as int].ty, phase: ((vd[v as int].phase + delta) % 8) as u8 },
        ),
{
    assert forall|j: int| 0 <= j < vd.len() implies #[trigger] seq![v].contains(j as usize) == (j == v) by {
        if j == v {
            assert(seq![v][0] == v);
        }
    }
    assert(shift_phases(vd, seq![v], delta) =~= vd.update(
        v as int,
        VData { ty: vd[v as int].ty, phase: ((vd[v as int].phase + delta) % 8) as u8 },
    ));
}

pub fn replace_phi1(g: &Graph, verts: &[usize]) -> (r: Option<Graph>)
    requires
        Identity::Phi1.applies(g, verts@),
    ensures
        r is Some <==> g.scalar.mul_fits(Identity::Phi1.factor()),
        r matches Some(h) ==> Identity::Phi1.is_child(g, verts@, &h),
{
    let mut h = match scaled(g, Identity::Phi1) {
        None => {
            return None;
        },
        Some(h) => h,
    };
    let ghost vd = g.vdata@;
    let ghost v = verts@;
    let first: Vec<usize> = vec![verts[0], verts[1], verts[2], verts[3], verts[4]];
    assert(first@ =~= v.take(5));
    assert(is_t_selection(vd, first@)) by {
        assert forall|i: int| 0 <= i < 5 implies #[trigger] first@[i] == v[i] by {}
    }
    h.add_to_phases(first.as_slice(), 7);
    let last: Vec<usize> = vec![verts[5]];
    proof {
        assert(!first@.contains(v[5])) by {
            if first@.contains(v[5]) {
                let k = choose|k: int| 0 <= k < 5 && #[trigger] first@[k] == v[5];
                assert(v[k] == v[5]);
            }
        }
        assert(h.vdata@[v[5] as int] == vd[v[5] as int]);
        assert(last@ =~= seq![v[5]]);
        assert(is_t_selection(h.vdata@, last@)) by {
            assert(last@[0] == v[5]);
            assert(is_t_phase(vd[v[5] as int].phase)) by {
                assert(v[5] == verts@[5]);
            }
        }
    }
    h.add_to_phases(last.as_slice(), 3);
    let n = h.num_vertices();
    let w0 = h.add_vertex(VType::Z);
    let w1 = h.add_vertex(VType::Z);
    let w2 = h.add_vertex(VType::Z);
    let w3 = h.add_vertex(VType::Z);
    let w4 = h.add_vertex(VType::Z);
    let ws = [w0, w1, w2, w3, w4];
    let hh = EType::H;
    h.add_edge_with_type(verts[0], w0, hh);
    h.add_edge_with_type(w0, verts[5], hh);
    h.add_edge_with_type(verts[1], w1, hh);
    h.add_edge_with_type(w1, verts[5], hh);
    h.add_edge_with_type(verts[2], w2, hh);
    h.add_edge_with_type(w2, verts[5], hh);
    h.add_edge_with_type(verts[3], w3, hh);
    h.add_edge_with_type(w3, verts[5], hh);
    h.add_edge_with_type(verts[4], w4, hh);
    h.add_edge_with_type(w4, verts[5], hh);
    h.add_edge_with_type(ws[0], ws[2], hh);
    h.add_edge_with_type(ws[0], ws[3], hh);
    h.add_edge_with_type(ws[1], ws[3], hh);
    h.add_edge_with_type(ws[1], ws[4], hh);
    h.add_edge_with_type(ws[2], ws[4], hh);
    assert(h.vdata@ =~= Identity::Phi1.vdata_after(vd, v));
    assert(h.edges@ =~= Identity::Phi1.edges_after(g.edges@, n, v));
    Some(h)
}

/// `Phi1` on the selection reordered by `phi2_order`: the same factor and
/// the same edit, up to which selected vertex plays which part.
pub fn replace_phi2(g: &Graph, verts: &[usize]) -> (r: Option<Graph>)
    requires
        Identity::Phi2.applies(g, verts@),
    ensures
        r is Some <==> g.scalar.mul_fits(Identity::Phi2.factor()),
        r matches Some(h) ==> Identity::Phi2.is_child(g, verts@, &h),
        r matches Some(h) ==> Identity::Phi1.is_child(g, phi2_order(verts@), &h),
        Identity::Phi2.factor() == Identity::Phi1.factor(),
{
    let p: Vec<usize> = vec![verts[0], verts[1], verts[3], verts[4], verts[5], verts[2]];
    proof {
        let v = verts@;
        assert(p@ =~= phi2_order(v));
        assert forall|i: int, j: int| 0 <= i < 6 && 0 <= j < 6 && i != j implies p@[i] != p@[j] by {
            let m = seq![0int, 1, 3, 4, 5, 2];
            assert(p@[i] == v[m[i]] && p@[j] == v[m[j]]);
        }
        assert forall|i: int| 0 <= i < 6 implies #[trigger] p@[i] < g.vdata@.len() && is_t_phase(
            g.vdata@[p@[i] as int].phase,
        ) by {
            let m = seq![0int, 1, 3, 4, 5, 2];
            assert(p@[i] == v[m[i]]);
        }
    }
    replace_phi1(g, p.as_slice())
}

pub fn replace_bell_s(g: &Graph, verts: &[usize]) -> (r: Option<Graph>)
    requires
        Identity::BellS.applies(g, verts@),
    ensures
        r is Some <==> g.scalar.mul_fits(Identity::BellS.factor()),
        r matches Some(h) ==> Identity::BellS.is_child(g, verts@, &h),
{
    let mut h = match scaled(g, Identity::BellS) {
        None => {
            return None;
        },
        Some(h) => h,
    };
    let ghost vd = g.vdata@;
    let v0 = verts[0];
    let v1 = verts[1];
    assert(v0 != v1);
    h.add_edge_smart(v0, v1, EType::N);
    h.add_to_phase(v0, 7);
    let ghost mid = h.vdata@;
    h.add_to_phase(v1, 1);
    proof {
        lemma_shift_one(vd, v0, 7);
        lemma_shift_one(mid, v1, 1);
    }
    Some(h)
}

} // verus!

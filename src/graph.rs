//! A small ZX-diagram: typed vertices with phases in units of `pi / 4`,
//! typed edges, designated outputs and a global exact scalar.
use vstd::prelude::*;
use crate::scalar::Scalar;

verus! {

#[derive(Clone, Copy, Debug, PartialEq, Eq, Structural)]
pub enum VType {
    /// A boundary vertex.
    B,
    Z,
    X,
}

#[derive(Clone, Copy, Debug, PartialEq, Eq, Structural)]
pub enum EType {
    /// A plain wire.
    N,
    /// A wire carrying a Hadamard gate.
    H,
}

/// A vertex: its type and its phase `phase * pi / 4`, with `phase < 8`.
#[derive(Clone, Copy, Debug, PartialEq, Eq, Structural)]
pub struct VData {
    pub ty: VType,
    pub phase: u8,
}

pub type Edge = (usize, usize, EType);

/// Vertices are numbered `0 .. vdata.len()` in the order they were added.
#[derive(Clone, Debug)]
pub struct Graph {
    pub vdata: Vec<VData>,
    pub edges: Vec<Edge>,
    pub scalar: Scalar,
    pub outputs: Vec<usize>,
}

/// A T-vertex has phase an odd multiple of `pi / 4`.
pub open spec fn is_t_phase(p: u8) -> bool {
    p % 2 == 1
}

/// The T-vertices among the first `n` vertices, in increasing order.
pub open spec fn t_indices(vd: Seq<VData>, n: nat) -> Seq<usize>
    decreases n,
{
    if n == 0 {
        Seq::empty()
    } else if is_t_phase(vd[n - 1].phase) {
        t_indices(vd, (n - 1) as nat).push((n - 1) as usize)
    } else {
        t_indices(vd, (n - 1) as nat)
    }
}

/// Adds `delta` (in units of `pi / 4`) to the phase of each vertex in `verts`.
pub open spec fn shift_phases(vd: Seq<VData>, verts: Seq<usize>, delta: u8) -> Seq<VData> {
    Seq::new(
        vd.len(),
        |i: int|
            if verts.contains(i as usize) {
                VData { ty: vd[i].ty, phase: ((vd[i].phase + delta) % 8) as u8 }
            } else {
                vd[i]
            },
    )
}

/// The edges `(v, w, et)` for each `v` in `verts`, in order.
pub open spec fn star_edges(verts: Seq<usize>, w: usize, et: EType) -> Seq<Edge> {
    Seq::new(verts.len(), |i: int| (verts[i], w, et))
}

/// Some edge of type `et` joins `s` and `t`, in either direction.
pub open spec fn has_edge_in(edges: Seq<Edge>, s: usize, t: usize, et: EType) -> bool {
    exists|i: int| 0 <= i < edges.len() && (#[trigger] edges[i] == (s, t, et) || edges[i] == (t, s, et))
}

/// `verts` are distinct T-vertices of the diagram.
pub open spec fn is_t_selection(vd: Seq<VData>, verts: Seq<usize>) -> bool {
    &&& verts.no_duplicates()
    &&& forall|i: int| 0 <= i < verts.len() ==> #[trigger] verts[i] < vd.len() && is_t_phase(vd[verts[i] as int].phase)
}

impl Graph {
    pub open spec fn wf(&self) -> bool {
        &&& forall|i: int| 0 <= i < self.vdata@.len() ==> #[trigger] self.vdata@[i].phase < 8
        &&& forall|i: int|
            0 <= i < self.edges@.len() ==> #[trigger] self.edges@[i].0 < self.vdata@.len()
                && self.edges@[i].1 < self.vdata@.len()
    }

    pub open spec fn tcount_spec(&self) -> nat {
        t_indices(self.vdata@, self.vdata@.len()).len()
    }

    pub open spec fn same_as(&self, o: &Graph) -> bool {
        &&& self.vdata@ == o.vdata@
        &&& self.edges@ == o.edges@
        &&& self.scalar == o.scalar
        &&& self.outputs@ == o.outputs@
    }

    /// The empty diagram, with scalar one.
    pub fn new() -> (r: Graph)
        ensures
            r.wf(),
            r.vdata@.len() == 0,
            r.edges@.len() == 0,
            r.outputs@.len() == 0,
            r.scalar == (Scalar { pow: 0, c0: 1, c1: 0, c2: 0, c3: 0 }),
    {
        Graph { vdata: Vec::new(), edges: Vec::new(), scalar: Scalar::one(), outputs: Vec::new() }
    }

    /// An independent copy with the same contents.
    pub fn duplicate(&self) -> (r: Graph)
        ensures
            r.same_as(self),
    {
        Graph {
            vdata: copy_vec(&self.vdata),
            edges: copy_vec(&self.edges),
            scalar: self.scalar,
            outputs: copy_vec(&self.outputs),
        }
    }

    pub fn num_vertices(&self) -> (r: usize)
        ensures
            r == self.vdata@.len(),
    {
        self.vdata.len()
    }

    pub fn phase(&self, v: usize) -> (r: u8)
        requires
            v < self.vdata@.len(),
        ensures
            r == self.vdata@[v as int].phase,
    {
        self.vdata[v].phase
    }

    pub fn is_t(&self, v: usize) -> (r: bool)
        requires
            v < self.vdata@.len(),
        ensures
            r == is_t_phase(self.vdata@[v as int].phase),
    {
        self.vdata[v].phase % 2 == 1
    }

    /// Adds a vertex of type `ty` with phase `phase * pi / 4` and returns its index.
    pub fn add_vertex_with_phase(&mut self, ty: VType, phase: u8) -> (r: usize)
        requires
            old(self).wf(),
            old(self).vdata@.len() < usize::MAX,
        ensures
            final(self).wf(),
            r == old(self).vdata@.len(),
            final(self).vdata@ == old(self).vdata@.push(VData { ty, phase: phase % 8 }),
            !is_t_phase(phase % 8) ==> final(self).tcount_spec() == old(self).tcount_spec(),
            final(self).edges@ == old(self).edges@,
            final(self).scalar == old(self).scalar,
            final(self).outputs@ == old(self).outputs@,
    {
        let r = self.vdata.len();
        self.vdata.push(VData { ty, phase: phase % 8 });
        proof {
            if !is_t_phase(phase % 8) {
                lemma_push_non_t(old(self).vdata@, VData { ty, phase: phase % 8 });
            }
        }
        r
    }

    /// Adds a vertex of type `ty` with phase zero.
    pub fn add_vertex(&mut self, ty: VType) -> (r: usize)
        requires
            old(self).wf(),
            old(self).vdata@.len() < usize::MAX,
        ensures
            final(self).wf(),
            r == old(self).vdata@.len(),
            final(self).vdata@ == old(self).vdata@.push(VData { ty, phase: 0 }),
            final(self).tcount_spec() == old(self).tcount_spec(),
            final(self).edges@ == old(self).edges@,
            final(self).scalar == old(self).scalar,
            final(self).outputs@ == old(self).outputs@,
    {
        self.add_vertex_with_phase(ty, 0)
    }

    pub fn add_edge_with_type(&mut self, s: usize, t: usize, et: EType)
        requires
            old(self).wf(),
            s < old(self).vdata@.len(),
            t < old(self).vdata@.len(),
        ensures
            final(self).wf(),
            final(self).vdata@ == old(self).vdata@,
            final(self).edges@ == old(self).edges@.push((s, t, et)),
            final(self).scalar == old(self).scalar,
            final(self).outputs@ == old(self).outputs@,
    {
        self.edges.push((s, t, et));
        assert forall|i: int| 0 <= i < self.edges@.len() implies #[trigger] self.edges@[i].0 < self.vdata@.len()
            && self.edges@[i].1 < self.vdata@.len() by {
            if i < old(self).edges@.len() {
                assert(self.edges@[i] == old(self).edges@[i]);
            }
        }
    }

    pub fn add_edge(&mut self, s: usize, t: usize)
        requires
            old(self).wf(),
            s < old(self).vdata@.len(),
            t < old(self).vdata@.len(),
        ensures
            final(self).wf(),
            final(self).vdata@ == old(self).vdata@,
            final(self).edges@ == old(self).edges@.push((s, t, EType::N)),
            final(self).scalar == old(self).scalar,
            final(self).outputs@ == old(self).outputs@,
    {
        self.add_edge_with_type(s, t, EType::N);
    }

    pub open spec fn has_edge_spec(&self, s: usize, t: usize, et: EType) -> bool {
        has_edge_in(self.edges@, s, t, et)
    }

    /// Whether an edge of type `et` joins `s` and `t`, in either direction.
    pub fn has_edge(&self, s: usize, t: usize, et: EType) -> (r: bool)
        ensures
            r == self.has_edge_spec(s, t, et),
    {
        let mut i: usize = 0;
        while i < self.edges.len()
            invariant
                i <= self.edges@.len(),
                forall|j: int|
                    0 <= j < i ==> !(#[trigger] self.edges@[j] == (s, t, et) || self.edges@[j] == (t, s, et)),
            decreases self.edges@.len() - i,
        {
            let e = self.edges[i];
            if (e.0 == s && e.1 == t || e.0 == t && e.1 == s) && e.2 == et {
                return true;
            }
            i = i + 1;
        }
        false
    }

    /// Adds an edge unless one of the same type already joins the two
    /// vertices: parallel wires of one type between spiders fuse into one.
    pub fn add_edge_smart(&mut self, s: usize, t: usize, et: EType)
        requires
            old(self).wf(),
            s < old(self).vdata@.len(),
            t < old(self).vdata@.len(),
        ensures
            final(self).wf(),
            final(self).vdata@ == old(self).vdata@,
            final(self).edges@ == if old(self).has_edge_spec(s, t, et) {
                old(self).edges@
            } else {
                old(self).edges@.push((s, t, et))
            },
            final(self).scalar == old(self).scalar,
            final(self).outputs@ == old(self).outputs@,
    {
        if !self.has_edge(s, t, et) {
            self.add_edge_with_type(s, t, et);
        }
    }

    /// Adds `delta * pi / 4` to the phase of `v`.
    pub fn add_to_phase(&mut self, v: usize, delta: u8)
        requires
            old(self).wf(),
            v < old(self).vdata@.len(),
        ensures
            final(self).wf(),
            final(self).vdata@ == old(self).vdata@.update(
                v as int,
                VData {
                    ty: old(self).vdata@[v as int].ty,
                    phase: ((old(self).vdata@[v as int].phase + delta) % 8) as u8,
                },
            ),
            final(self).edges@ == old(self).edges@,
            final(self).scalar == old(self).scalar,
            final(self).outputs@ == old(self).outputs@,
            is_t_phase(old(self).vdata@[v as int].phase) && delta % 2 == 1 ==> final(self).tcount_spec()
                == old(self).tcount_spec() - 1,
    {
        let d = self.vdata[v];
        let p = ((d.phase as u16 + delta as u16) % 8) as u8;
        self.vdata.set(v, VData { ty: d.ty, phase: p });
        proof {
            lemma_t_indices_update(old(self).vdata@, v as nat, VData { ty: d.ty, phase: p }, old(self).vdata@.len());
        }
    }

    pub fn set_outputs(&mut self, outputs: Vec<usize>)
        ensures
            final(self).vdata@ == old(self).vdata@,
            final(self).edges@ == old(self).edges@,
            final(self).scalar == old(self).scalar,
            final(self).outputs@ == outputs@,
    {
        self.outputs = outputs;
    }

    /// The number of T-vertices.
    pub fn tcount(&self) -> (r: usize)
        ensures
            r == self.tcount_spec(),
    {
        let mut n: usize = 0;
        let mut i: usize = 0;
        while i < self.vdata.len()
            invariant
                i <= self.vdata@.len(),
                n == t_indices(self.vdata@, i as nat).len(),
                n <= i,
            decreases self.vdata@.len() - i,
        {
            if self.vdata[i].phase % 2 == 1 {
                n = n + 1;
            }
            i = i + 1;
        }
        n
    }
}

impl Graph {
    /// Adds `delta * pi / 4` to the phase of every vertex in `verts`.
    pub fn add_to_phases(&mut self, verts: &[usize], delta: u8)
        requires
            old(self).wf(),
            verts@.no_duplicates(),
            forall|i: int| 0 <= i < verts@.len() ==> #[trigger] verts@[i] < old(self).vdata@.len(),
        ensures
            final(self).wf(),
            final(self).vdata@ == shift_phases(old(self).vdata@, verts@, delta),
            final(self).edges@ == old(self).edges@,
            final(self).scalar == old(self).scalar,
            final(self).outputs@ == old(self).outputs@,
            is_t_selection(old(self).vdata@, verts@) && delta % 2 == 1 ==> final(self).tcount_spec()
                == old(self).tcount_spec() - verts@.len(),
    {
        let ghost vd0 = self.vdata@;
        let mut i: usize = 0;
        while i < verts.len()
            invariant
                vd0 == old(self).vdata@,
                verts@.no_duplicates(),
                self.wf(),
                i <= verts@.len(),
                forall|j: int| 0 <= j < verts@.len() ==> #[trigger] verts@[j] < vd0.len(),
                self.vdata@ == shift_phases(vd0, verts@.subrange(0, i as int), delta),
                self.edges@ == old(self).edges@,
                self.scalar == old(self).scalar,
                self.outputs@ == old(self).outputs@,
                is_t_selection(vd0, verts@) && delta % 2 == 1 ==> self.tcount_spec() == t_indices(
                    vd0,
                    vd0.len(),
                ).len() - i,
            decreases verts@.len() - i,
        {
            let v = verts[i];
            let ghost before = self.vdata@;
            proof {
                assert(!verts@.subrange(0, i as int).contains(v)) by {
                    if verts@.subrange(0, i as int).contains(v) {
                        let k = choose|k: int| 0 <= k < i && #[trigger] verts@.subrange(0, i as int)[k] == v;
                        assert(verts@[k] == verts@[i as int]);
                    }
                }
                if is_t_selection(vd0, verts@) {
                    assert(is_t_phase(vd0[verts@[i as int] as int].phase));
                }
            }
            self.add_to_phase(v, delta);
            let len = self.vdata.len();
            proof {
                let x = VData { ty: before[v as int].ty, phase: ((before[v as int].phase + delta) % 8) as u8 };
                lemma_t_indices_update(before, v as nat, x, before.len());
                let pre = verts@.subrange(0, i as int);
                assert(verts@.subrange(0, i + 1) =~= pre.push(v));
                assert forall|y: usize| #[trigger] pre.push(v).contains(y) == (pre.contains(y) || y == v) by {
                    if pre.push(v).contains(y) {
                        let k = choose|k: int| 0 <= k < i + 1 && #[trigger] pre.push(v)[k] == y;
                        if k < i {
                            assert(pre[k] == y);
                        }
                    }
                    if pre.contains(y) {
                        let k = choose|k: int| 0 <= k < i && #[trigger] pre[k] == y;
                        assert(pre.push(v)[k] == y);
                    }
                    if y == v {
                        assert(pre.push(v)[i as int] == v);
                    }
                }
                let goal = shift_phases(vd0, verts@.subrange(0, i + 1), delta);
                assert forall|j: int| 0 <= j < vd0.len() implies #[trigger] self.vdata@[j] == goal[j] by {
                    assert(j < len);
                    assert(pre.push(v).contains(j as usize) == (pre.contains(j as usize) || j as usize == v));
                    if j != v {
                        assert(self.vdata@[j] == before[j]);
                    }
                }
                assert(self.vdata@ =~= goal);
            }
            i = i + 1;
        }
        assert(verts@.subrange(0, verts@.len() as int) =~= verts@);
    }

    /// Adds an edge of type `et` from each vertex of `verts` to `w`.
    pub fn add_star(&mut self, verts: &[usize], w: usize, et: EType)
        requires
            old(self).wf(),
            w < old(self).vdata@.len(),
            forall|i: int| 0 <= i < verts@.len() ==> #[trigger] verts@[i] < old(self).vdata@.len(),
        ensures
            final(self).wf(),
            final(self).vdata@ == old(self).vdata@,
            final(self).edges@ == old(self).edges@ + star_edges(verts@, w, et),
            final(self).scalar == old(self).scalar,
            final(self).outputs@ == old(self).outputs@,
    {
        let mut i: usize = 0;
        while i < verts.len()
            invariant
                self.wf(),
                i <= verts@.len(),
                w < self.vdata@.len(),
                forall|j: int| 0 <= j < verts@.len() ==> #[trigger] verts@[j] < self.vdata@.len(),
                self.vdata@ == old(self).vdata@,
                self.edges@ == old(self).edges@ + star_edges(verts@.subrange(0, i as int), w, et),
                self.scalar == old(self).scalar,
                self.outputs@ == old(self).outputs@,
            decreases verts@.len() - i,
        {
            self.add_edge_with_type(verts[i], w, et);
            assert(star_edges(verts@.subrange(0, i + 1), w, et) =~= star_edges(
                verts@.subrange(0, i as int),
                w,
                et,
            ).push((verts@[i as int], w, et)));
            i = i + 1;
        }
        assert(verts@.subrange(0, verts@.len() as int) =~= verts@);
    }
}

/// Replacing the vertex at `i < n` changes the T-count of the first `n`
/// vertices by what it removes and what it adds.
pub proof fn lemma_t_indices_update(vd: Seq<VData>, i: nat, x: VData, n: nat)
    requires
        i < vd.len(),
        n <= vd.len(),
    ensures
        n <= i ==> t_indices(vd.update(i as int, x), n) == t_indices(vd, n),
        i < n ==> t_indices(vd.update(i as int, x), n).len() + (if is_t_phase(vd[i as int].phase) { 1int } else { 0 })
            == t_indices(vd, n).len() + (if is_t_phase(x.phase) { 1int } else { 0 }),
    decreases n,
{
    if n > 0 {
        lemma_t_indices_update(vd, i, x, (n - 1) as nat);
    }
}

/// The T-count of the first `n` vertices only depends on those vertices.
pub proof fn lemma_t_indices_prefix(a: Seq<VData>, b: Seq<VData>, n: nat)
    requires
        n <= a.len(),
        n <= b.len(),
        forall|j: int| 0 <= j < n ==> a[j] == b[j],
    ensures
        t_indices(a, n) == t_indices(b, n),
    decreases n,
{
    if n > 0 {
        lemma_t_indices_prefix(a, b, (n - 1) as nat);
    }
}

/// The T-vertex list is strictly increasing and lists T-vertices below `n`.
pub proof fn lemma_t_indices_facts(vd: Seq<VData>, n: nat)
    requires
        n <= vd.len() <= usize::MAX,
    ensures
        t_indices(vd, n).len() <= n,
        forall|i: int|
            0 <= i < t_indices(vd, n).len() ==> #[trigger] t_indices(vd, n)[i] < n && is_t_phase(
                vd[t_indices(vd, n)[i] as int].phase,
            ),
        forall|i: int, j: int|
            0 <= i < j < t_indices(vd, n).len() ==> #[trigger] t_indices(vd, n)[i] < #[trigger] t_indices(vd, n)[j],
        t_indices(vd, n).no_duplicates(),
    decreases n,
{
    let t = t_indices(vd, n);
    if n > 0 {
        let m = (n - 1) as nat;
        lemma_t_indices_facts(vd, m);
        let prev = t_indices(vd, m);
        if is_t_phase(vd[m as int].phase) {
            assert(t == prev.push(m as usize));
        } else {
            assert(t == prev);
        }
        assert forall|i: int| 0 <= i < t.len() implies #[trigger] t[i] < n && is_t_phase(vd[t[i] as int].phase) by {
            if i < prev.len() {
                assert(t[i] == prev[i]);
            }
        }
        assert forall|i: int, j: int| 0 <= i < j < t.len() implies #[trigger] t[i] < #[trigger] t[j] by {
            assert(t[i] == prev[i]);
            if j < prev.len() {
                assert(t[j] == prev[j]);
            }
        }
    }
    assert forall|i: int, j: int| 0 <= i < t.len() && 0 <= j < t.len() && i != j implies t[i] != t[j] by {
        if i < j {
            assert(t[i] < t[j]);
        } else {
            assert(t[j] < t[i]);
        }
    }
}

/// The T-vertices below `i` are a prefix of those below `n >= i`.
pub proof fn lemma_t_indices_prefix_of(vd: Seq<VData>, i: nat, n: nat)
    requires
        i <= n <= vd.len(),
    ensures
        t_indices(vd, i).len() <= t_indices(vd, n).len(),
        t_indices(vd, n).take(t_indices(vd, i).len() as int) == t_indices(vd, i),
    decreases n,
{
    if i < n {
        lemma_t_indices_prefix_of(vd, i, (n - 1) as nat);
        let a = t_indices(vd, i);
        let b = t_indices(vd, (n - 1) as nat);
        assert(t_indices(vd, n).take(a.len() as int) =~= b.take(a.len() as int));
    } else {
        assert(t_indices(vd, n).take(t_indices(vd, n).len() as int) =~= t_indices(vd, n));
    }
}

/// Appending a vertex that is not a T-vertex keeps the T-count.
pub proof fn lemma_push_non_t(vd: Seq<VData>, x: VData)
    requires
        !is_t_phase(x.phase),
    ensures
        t_indices(vd.push(x), vd.len() + 1) == t_indices(vd, vd.len()),
{
    lemma_t_indices_prefix(vd.push(x), vd, vd.len());
}

impl Graph {
    /// Whether the diagram is well formed: phases below 8 and edges between
    /// existing vertices.
    pub fn is_wf(&self) -> (r: bool)
        ensures
            r == self.wf(),
    {
        let n = self.vdata.len();
        let mut i: usize = 0;
        while i < n
            invariant
                n == self.vdata@.len(),
                i <= n,
                forall|j: int| 0 <= j < i ==> #[trigger] self.vdata@[j].phase < 8,
            decreases n - i,
        {
            if self.vdata[i].phase >= 8 {
                return false;
            }
            i = i + 1;
        }
        let mut k: usize = 0;
        while k < self.edges.len()
            invariant
                n == self.vdata@.len(),
                k <= self.edges@.len(),
                forall|j: int| 0 <= j < n ==> #[trigger] self.vdata@[j].phase < 8,
                forall|j: int|
                    0 <= j < k ==> #[trigger] self.edges@[j].0 < n && self.edges@[j].1 < n,
            decreases self.edges@.len() - k,
        {
            let e = self.edges[k];
            if e.0 >= n || e.1 >= n {
                return false;
            }
            k = k + 1;
        }
        true
    }
}

fn copy_vec<T: Copy>(v: &Vec<T>) -> (r: Vec<T>)
    ensures
        r@ == v@,
{
    let mut r: Vec<T> = Vec::new();
    let mut i: usize = 0;
    while i < v.len()
        invariant
            i <= v@.len(),
            r@ == v@.subrange(0, i as int),
        decreases v@.len() - i,
    {
        r.push(v[i]);
        i = i + 1;
    }
    assert(r@ =~= v@);
    r
}

} // verus!

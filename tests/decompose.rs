use quizx_decompose::decompose::{Decomposer, KeepAsIs, Overflow, SimpFunc, Simplifier};
use quizx_decompose::graph::{EType, Graph, VType};
use quizx_decompose::rewrite::{replace_phi1, replace_phi2, Identity};
use quizx_decompose::scalar::Scalar;

/// `n` Z-spiders of phase pi/4, each wired to its own output.
fn t_graph(n: usize) -> Graph {
    let mut g = Graph::new();
    let mut outs = vec![];
    for _ in 0..n {
        let v = g.add_vertex_with_phase(VType::Z, 1);
        let w = g.add_vertex(VType::B);
        outs.push(w);
        g.add_edge(v, w);
    }
    g.set_outputs(outs);
    g
}

fn exact(pow: i64, c: [i32; 4]) -> Scalar {
    Scalar::exact(pow, c[0], c[1], c[2], c[3])
}

fn mul(a: &Scalar, b: &Scalar) -> Scalar {
    a.checked_mul(b).unwrap()
}

fn add(a: &Scalar, b: &Scalar) -> Scalar {
    a.checked_add(b).unwrap()
}

#[test]
fn bss_scalars() {
    let one = Scalar::one();
    let om = exact(0, [0, 1, 0, 0]);
    let om2 = mul(&om, &om);
    let om7 = exact(0, [0, 0, 0, -1]);
    assert_eq!(mul(&om, &om7), Scalar::one());

    let minus = exact(0, [-1, 0, 0, 0]);
    let onefourth = exact(-2, [1, 0, 0, 0]);
    let two = add(&one, &one);
    let sqrt2 = Scalar::sqrt2();
    let eight = mul(&mul(&two, &two), &two);

    let k6 = mul(&mul(&om7, &two), &om);
    let phi = mul(&mul(&mul(&om7, &eight), &sqrt2), &om2);
    let b60 = mul(&mul(&mul(&om7, &minus), &onefourth), &add(&one, &sqrt2));
    let b66 = mul(&mul(&om7, &onefourth), &add(&one, &mul(&minus, &sqrt2)));
    let o6 = mul(&mul(&mul(&mul(&om7, &minus), &two), &sqrt2), &om2);
    let e6 = mul(&mul(&mul(&om7, &minus), &two), &om2);

    assert_eq!(b60, exact(-2, [-1, 0, 1, 1]));
    assert_eq!(b66, exact(-2, [-1, 0, 1, -1]));
    assert_eq!(e6, exact(1, [0, -1, 0, 0]));
    assert_eq!(o6, exact(1, [-1, 0, -1, 0]));
    assert_eq!(k6, exact(1, [1, 0, 0, 0]));
    assert_eq!(phi, exact(3, [1, 0, 1, 0]));
}

#[test]
fn single_scalars() {
    let s0 = Scalar::sqrt2_pow(-1);
    let s1 = mul(&Scalar::from_phase(1), &s0);
    println!("s0 = {:?}\ns1 = {:?}", s0, s1);
    assert_eq!(s0, exact(-1, [0, 1, 0, -1]));
    assert_eq!(s1, exact(-1, [1, 0, 1, 0]));
}

#[test]
fn single() {
    let g = t_graph(1);
    let mut d = Decomposer::new(&g);
    d.decomp_top(&KeepAsIs).unwrap();
    assert_eq!(d.stack.len(), 2);
    for (depth, h) in &d.stack {
        assert_eq!(*depth, 1);
        assert_eq!(h.tcount(), 0);
    }
}

#[test]
fn sym() {
    let g = t_graph(2);
    let mut d = Decomposer::new(&g);
    d.decomp_top(&KeepAsIs).unwrap();
    assert_eq!(d.stack.len(), 2);
    for (_, h) in &d.stack {
        assert_eq!(h.tcount(), 0);
    }
}

#[test]
fn bss() {
    let g = t_graph(6);
    let mut d = Decomposer::new(&g);
    d.decomp_top(&KeepAsIs).unwrap();
    assert_eq!(d.stack.len(), 7);
    for (_, h) in &d.stack {
        assert_eq!(h.tcount(), 0);
    }
}

#[test]
fn mixed() {
    let g = t_graph(9);
    let mut d = Decomposer::new(&g);
    d.save(true);
    assert_eq!(d.max_terms(), 7 * 2 * 2);
    while d.stack.len() > 0 {
        d.decomp_top(&KeepAsIs).unwrap();
    }
    assert_eq!(d.done.len(), 7 * 2 * 2);
}

#[test]
fn all_and_depth() {
    let g = t_graph(9);
    let mut d = Decomposer::new(&g);
    d.save(true);
    d.decomp_all(&KeepAsIs).unwrap();
    assert_eq!(d.done.len(), 7 * 2 * 2);
    let mut d = Decomposer::new(&g);
    d.decomp_until_depth(2, &KeepAsIs).unwrap();
    assert_eq!(d.stack.len(), 7 * 2);
}

#[test]
fn full_simp() {
    let g = t_graph(9);
    let mut d = Decomposer::new(&g);
    d.with_full_simp();
    d.save(true);
    d.decomp_all(&KeepAsIs).unwrap();
    assert_eq!(d.done.len(), 7 * 2 * 2);
}

#[test]
fn term_counts_match_bound() {
    for (n, terms) in [(0usize, 1usize), (1, 2), (2, 2), (3, 4), (5, 8), (6, 7), (7, 14), (9, 28), (12, 49)] {
        let g = t_graph(n);
        let mut d = Decomposer::new(&g);
        d.save(true);
        assert_eq!(d.max_terms(), terms);
        d.decomp_all(&KeepAsIs).unwrap();
        assert_eq!(d.nterms, terms);
        assert_eq!(d.done.len(), terms);
        assert_eq!(d.max_terms(), 0);
    }
}

#[test]
fn depth_two_frontier() {
    let g = t_graph(9);
    let mut d = Decomposer::new(&g);
    d.decomp_until_depth(2, &KeepAsIs).unwrap();
    assert_eq!(d.stack.len(), 14);
    for (depth, _) in &d.stack {
        assert_eq!(*depth, 2);
    }
    assert_eq!(d.nterms, 0);
}

#[test]
fn depth_zero_does_nothing() {
    let g = t_graph(3);
    let mut d = Decomposer::new(&g);
    d.decomp_until_depth(0, &KeepAsIs).unwrap();
    assert_eq!(d.stack.len(), 1);
}

#[test]
fn split_merge_round_trip() {
    let g = t_graph(9);
    let mut d = Decomposer::new(&g);
    d.save(true);
    d.decomp_until_depth(1, &KeepAsIs).unwrap();
    d.decomp_top(&KeepAsIs).unwrap();
    d.decomp_top(&KeepAsIs).unwrap();
    let n = d.stack.len();
    let depths: Vec<usize> = d.stack.iter().map(|e| e.0).collect();
    let tcounts: Vec<usize> = d.stack.iter().map(|e| e.1.tcount()).collect();
    let (scalar, nterms, ndone) = (d.scalar, d.nterms, d.done.len());
    let parts = d.split();
    assert_eq!(parts.len(), n);
    for p in &parts {
        assert_eq!(p.stack.len(), 1);
    }
    let m = Decomposer::merge(parts).unwrap();
    assert_eq!(m.stack.iter().map(|e| e.0).collect::<Vec<_>>(), depths);
    assert_eq!(m.stack.iter().map(|e| e.1.tcount()).collect::<Vec<_>>(), tcounts);
    assert_eq!(m.scalar, scalar);
    assert_eq!(m.nterms, nterms);
    assert_eq!(m.done.len(), ndone);
}

#[test]
fn split_merge_then_finish() {
    let g = t_graph(9);
    let mut d = Decomposer::new(&g);
    d.decomp_until_depth(2, &KeepAsIs).unwrap();
    let parts: Vec<Decomposer> = d
        .split()
        .into_iter()
        .map(|mut p| {
            p.decomp_all(&KeepAsIs).unwrap();
            p
        })
        .collect();
    let m = Decomposer::merge(parts).unwrap();
    assert_eq!(m.nterms, 28);
    assert_eq!(m.stack.len(), 0);
}

#[test]
fn merge_of_nothing_is_empty() {
    let m = Decomposer::merge(vec![]).unwrap();
    assert_eq!(m.stack.len(), 0);
    assert_eq!(m.nterms, 0);
    assert_eq!(m.scalar, Scalar::zero());
}

#[test]
fn max_terms_never_grows() {
    let g = t_graph(9);
    let mut d = Decomposer::new(&g);
    let mut last = d.max_terms();
    while d.stack.len() > 0 {
        d.decomp_top(&KeepAsIs).unwrap();
        let now = d.max_terms();
        assert!(now <= last);
        last = now;
    }
    assert_eq!(last, 0);
}

#[test]
fn phi2_is_phi1_on_permuted_vertices() {
    let g = t_graph(6);
    let ts = Decomposer::first_ts(&g);
    let a = replace_phi2(&g, &ts).unwrap();
    let p = vec![ts[0], ts[1], ts[3], ts[4], ts[5], ts[2]];
    let b = replace_phi1(&g, &p).unwrap();
    assert_eq!(a.scalar, b.scalar);
    assert_eq!(a.vdata, b.vdata);
    assert_eq!(a.edges, b.edges);
    let c = replace_phi1(&g, &ts).unwrap();
    assert_ne!(a.edges, c.edges);
    assert_eq!(a.scalar, exact(3, [1, 0, 1, 0]));
}

#[test]
fn single_t_total_scalar() {
    let g = t_graph(1);
    let mut d = Decomposer::new(&g);
    d.decomp_all(&KeepAsIs).unwrap();
    let t0 = exact(-1, [0, 1, 0, -1]);
    let t1 = exact(-1, [1, 0, 1, 0]);
    assert_eq!(d.scalar, add(&t0, &t1));
    assert_eq!(d.scalar, exact(-1, [1, 1, 1, -1]));
    assert_eq!(d.nterms, 2);
    assert_eq!(d.unreduced, 2);
}

#[test]
fn first_ts_takes_first_six() {
    let g = t_graph(9);
    assert_eq!(Decomposer::first_ts(&g), vec![0, 2, 4, 6, 8, 10]);
    let g = t_graph(2);
    assert_eq!(Decomposer::first_ts(&g), vec![0, 2]);
    assert_eq!(Decomposer::first_ts(&Graph::new()), Vec::<usize>::new());
}

#[test]
fn random_ts_picks_distinct_t_vertices() {
    let g = t_graph(9);
    let mut ts = Decomposer::random_ts(&g);
    assert_eq!(ts.len(), 6);
    for &v in &ts {
        assert!(g.is_t(v));
    }
    ts.sort();
    ts.dedup();
    assert_eq!(ts.len(), 6);
    assert_eq!(Decomposer::random_ts(&t_graph(4)).len(), 4);
}

#[test]
fn random_policy_counts() {
    let g = t_graph(9);
    let mut d = Decomposer::new(&g);
    d.random_t(true);
    d.save(true);
    d.decomp_all(&KeepAsIs).unwrap();
    assert_eq!(d.done.len(), 28);
}

#[test]
fn overflowing_scalar_is_reported() {
    let mut g = t_graph(1);
    g.scalar = exact(0, [i32::MAX, 0, i32::MAX, 0]);
    let mut d = Decomposer::new(&g);
    assert_eq!(d.decomp_top(&KeepAsIs), Err(Overflow));
    assert_eq!(d.stack.len(), 1);
    assert_eq!(d.stack[0].1.scalar, g.scalar);
}

#[test]
fn terminal_adds_scalar() {
    let mut g = Graph::new();
    g.scalar = exact(2, [1, 0, 0, 0]);
    let mut d = Decomposer::new(&g);
    d.save(true);
    d.decomp_top(&KeepAsIs).unwrap();
    assert_eq!(d.nterms, 1);
    assert_eq!(d.unreduced, 0);
    assert_eq!(d.scalar, exact(0, [4, 0, 0, 0]));
    assert_eq!(d.done.len(), 1);
}

#[test]
fn scalar_arithmetic() {
    let a = exact(1, [1, 2, 0, 0]);
    let b = exact(-1, [0, 0, 1, 0]);
    let s = add(&a, &b);
    assert_eq!((s.pow, s.c0, s.c1, s.c2, s.c3), (-1, 4, 8, 1, 0));
    let p = mul(&a, &b);
    assert_eq!((p.pow, p.c0, p.c1, p.c2, p.c3), (0, 0, 0, 1, 2));
    let w3 = mul(&exact(0, [0, 0, 0, 1]), &exact(0, [0, 1, 0, 0]));
    assert_eq!(w3, exact(0, [-1, 0, 0, 0]));
    assert!(exact(0, [i32::MAX, 0, 0, 0]).checked_mul(&exact(0, [2, 0, 0, 0])).is_none());
    assert!(exact(0, [1, 0, 0, 0]).checked_add(&exact(40, [1, 0, 0, 0])).is_none());
    assert_ne!(exact(0, [1, 0, 0, 0]), exact(40, [1, 0, 0, 0]));
    assert_eq!(Scalar::from_phase(2), exact(0, [0, 0, 1, 0]));
    assert_eq!(Scalar::from_phase(5), exact(0, [0, -1, 0, 0]));
}

#[test]
fn graph_edits() {
    let mut g = Graph::new();
    let a = g.add_vertex_with_phase(VType::Z, 1);
    let b = g.add_vertex_with_phase(VType::Z, 3);
    assert_eq!(g.tcount(), 2);
    g.add_to_phase(a, 7);
    assert_eq!(g.phase(a), 0);
    assert_eq!(g.tcount(), 1);
    g.add_edge_smart(a, b, EType::N);
    g.add_edge_smart(b, a, EType::N);
    assert_eq!(g.edges.len(), 1);
    g.add_edge_smart(a, b, EType::H);
    assert_eq!(g.edges.len(), 2);
    assert!(g.has_edge(b, a, EType::H));
}

#[test]
fn identity_terms() {
    let g = t_graph(2);
    let ts = Decomposer::first_ts(&g);
    let h = Identity::BellS.apply(&g, &ts).unwrap();
    assert_eq!(h.phase(0), 0);
    assert_eq!(h.phase(2), 2);
    assert!(h.has_edge(0, 2, EType::N));
    let e = Identity::Epr.apply(&g, &ts).unwrap();
    assert_eq!(e.num_vertices(), 5);
    assert_eq!(e.phase(4), 4);
    assert_eq!(e.scalar, Scalar::from_phase(1));
    let g1 = t_graph(1);
    let t0 = Identity::T0.apply(&g1, &[0]).unwrap();
    assert_eq!(t0.scalar, exact(-1, [0, 1, 0, -1]));
    assert_eq!(t0.edges.last(), Some(&(0, 2, EType::H)));
}

#[test]
fn total_is_sum_of_saved_terms() {
    let mut g = t_graph(3);
    g.scalar = exact(0, [0, 1, 0, 0]);
    let mut d = Decomposer::new(&g);
    d.save(true);
    d.decomp_all(&KeepAsIs).unwrap();
    assert_eq!(d.done.len(), 4);
    let mut acc = Scalar::zero();
    for h in &d.done {
        acc = add(&acc, &h.scalar);
    }
    assert_eq!(d.scalar, acc);
    assert_ne!(d.scalar, Scalar::zero());
}

#[test]
fn builders_and_pop() {
    let g = t_graph(2);
    let mut d = Decomposer::new(&g);
    d.with_simp(SimpFunc::FullSimp);
    assert_eq!(d.simp_func, SimpFunc::FullSimp);
    d.with_simp(SimpFunc::NoSimp);
    d.random_t(true);
    d.save(true);
    assert!(d.random_t && d.save);
    let parts = d.split();
    assert!(parts[0].random_t && parts[0].save);
    let mut d = Decomposer::merge(parts).unwrap();
    let h = d.pop_graph();
    assert_eq!(h.tcount(), 2);
    assert_eq!(d.stack.len(), 0);
    assert_eq!(Decomposer::empty().nterms, 0);
}

/// A pass that drops every edge: well formed, and no new T-vertex.
struct DropEdges;

impl Simplifier for DropEdges {
    fn simplified(&self, g: Graph) -> Graph {
        let mut g = g;
        g.edges.clear();
        g
    }

    fn simplify(&self, g: &mut Graph) {
        g.edges.clear();
    }
}

#[test]
fn full_simp_runs_the_pass_on_children() {
    let g = t_graph(6);
    let mut d = Decomposer::new(&g);
    d.with_full_simp();
    d.decomp_top(&DropEdges).unwrap();
    assert_eq!(d.stack.len(), 7);
    for (_, h) in &d.stack {
        assert_eq!(h.edges.len(), 0);
        assert_eq!(h.tcount(), 0);
    }
    let mut d = Decomposer::new(&g);
    d.decomp_top(&DropEdges).unwrap();
    assert!(d.stack.iter().all(|(_, h)| h.edges.len() >= 6));
}

#[test]
fn full_simp_pass_counts() {
    let g = t_graph(9);
    let mut d = Decomposer::new(&g);
    d.with_full_simp();
    d.save(true);
    d.decomp_all(&DropEdges).unwrap();
    assert_eq!(d.done.len(), 28);
    assert!(d.done.iter().all(|h| h.tcount() == 0 && h.edges.is_empty()));
}

#[test]
fn deep_frontier_left_alone() {
    let g = t_graph(9);
    let mut d = Decomposer::new(&g);
    d.decomp_until_depth(1, &KeepAsIs).unwrap();
    assert_eq!(d.stack.len(), 7);
    d.decomp_until_depth(1, &KeepAsIs).unwrap();
    assert_eq!(d.stack.len(), 7);
    let mut e = Decomposer::empty();
    e.decomp_until_depth(3, &KeepAsIs).unwrap();
    assert_eq!(e.stack.len(), 0);
}

#[test]
fn overflow_stops_reductions() {
    let mut g = t_graph(1);
    g.scalar = exact(0, [i32::MAX, 0, i32::MAX, 0]);
    let mut d = Decomposer::new(&g);
    assert_eq!(d.decomp_all(&KeepAsIs), Err(Overflow));
    assert_eq!(d.stack.len(), 1);
    let mut d = Decomposer::new(&g);
    assert_eq!(d.decomp_until_depth(1, &KeepAsIs), Err(Overflow));
    assert_eq!(d.stack.len(), 1);
    assert_eq!(d.stack[0].0, 0);
}

#[test]
fn merge_takes_last_flags() {
    let g = t_graph(1);
    let mut a = Decomposer::new(&g);
    a.save(true);
    let b = Decomposer::new(&g);
    let m = Decomposer::merge(vec![a, b]).unwrap();
    assert!(!m.save);
    assert_eq!(m.stack.len(), 2);
}

#[test]
fn pick_ts_follows_draws() {
    let g = t_graph(9);
    // T-vertices are 0, 2, ..., 16; each draw takes an entry and moves the last into its place
    assert_eq!(Decomposer::pick_ts(&g, &vec![0, 0, 0, 0, 0, 0]), vec![0, 16, 14, 12, 10, 8]);
    assert_eq!(Decomposer::pick_ts(&g, &vec![8, 7, 6, 5, 4, 3]), vec![16, 14, 12, 10, 8, 6]);
    assert_eq!(Decomposer::pick_ts(&t_graph(2), &vec![1, 0]), vec![2, 0]);
}

#[test]
fn wf_checks() {
    let g = t_graph(3);
    assert!(g.is_wf());
    let d = Decomposer::new(&g);
    assert!(d.is_wf());
    let mut bad = g.clone();
    bad.add_edge_with_type(0, 1, EType::H);
    bad.edges.push((0, 99, EType::N));
    assert!(!bad.is_wf());
}

#[test]
fn depth_fixes_tcount() {
    let g = t_graph(9);
    let mut d = Decomposer::new(&g);
    d.decomp_until_depth(1, &KeepAsIs).unwrap();
    assert!(d.stack.iter().all(|(k, h)| *k == 1 && h.tcount() == 3));
    d.decomp_until_depth(2, &KeepAsIs).unwrap();
    assert!(d.stack.iter().all(|(k, h)| *k == 2 && h.tcount() == 1));
    assert_eq!(d.nterms, 0);
    assert_eq!(d.max_terms(), 28);
}

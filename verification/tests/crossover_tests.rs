use neat_ctrnn::crossover::avg_param_diff;
use neat_ctrnn::crossover::crossover;
use neat_ctrnn::crossover::disjoint_excess_count;
use neat_ctrnn::crossover::delta;
use neat_ctrnn::rng::default_rng;
use neat_ctrnn::rng::seeded_rng;
use neat_ctrnn::CTRConnection;
use neat_ctrnn::ProbBinding;
use neat_ctrnn::ProbStatic;

fn conn(inno: usize, weight: f64) -> CTRConnection {
    CTRConnection { inno, from: 0, to: 0, weight: weight.to_bits(), enabled: true }
}

fn conn_from(inno: usize, from: usize) -> CTRConnection {
    CTRConnection { inno, from, to: 0, weight: 1.0f64.to_bits(), enabled: true }
}

fn approx(bits: u64, expect: f64) -> bool {
    (f64::from_bits(bits) - expect).abs() < f64::EPSILON
}

#[test]
fn test_disjoint_excess_count() {
    assert_eq!(
        (4, 2),
        disjoint_excess_count(
            &[conn(1, 0.0), conn(2, 0.0), conn(6, 0.0)],
            &[conn(1, 0.0), conn(3, 0.0), conn(4, 0.0), conn(8, 0.0), conn(10, 0.0)],
        )
    );
}

#[test]
fn test_disjoint_excess_count_symmetrical() {
    let l = vec![conn(1, 0.0), conn(2, 0.0), conn(6, 0.0)];
    let r = vec![conn(1, 0.0), conn(3, 0.0), conn(4, 0.0), conn(8, 0.0), conn(10, 0.0)];
    assert_eq!(disjoint_excess_count(&l, &r), disjoint_excess_count(&r, &l));
}

#[test]
fn test_disjoint_excess_count_empty() {
    let full = vec![conn(1, 0.0), conn(2, 0.0)];
    assert_eq!((0, 2), disjoint_excess_count(&full, &[]));
    assert_eq!((0, 2), disjoint_excess_count(&[], &full));
    assert_eq!((0, 0), disjoint_excess_count(&[], &[]));
}

#[test]
fn test_disjoint_excess_count_hanging_l() {
    assert_eq!(
        (0, 1),
        disjoint_excess_count(
            &[conn(0, 0.0), conn(1, 0.0), conn(2, 0.0)],
            &[conn(0, 0.0), conn(1, 0.0)],
        )
    );
}

#[test]
fn test_disjoint_excess_count_no_overlap() {
    assert_eq!(
        (2, 2),
        disjoint_excess_count(&[conn(1, 0.0), conn(2, 0.0)], &[conn(3, 0.0), conn(4, 0.0)])
    );
}

#[test]
fn test_disjoint_excess_count_short_larger_inno() {
    assert_eq!(
        (3, 1),
        disjoint_excess_count(&[conn(10, 0.0)], &[conn(1, 0.0), conn(2, 0.0), conn(3, 0.0)])
    );
}

#[test]
fn test_avg_param_diff() {
    let diff = avg_param_diff(
        &[conn(1, 0.5), conn(2, -0.5), conn(3, 1.0)],
        &[conn(1, 0.0), conn(2, -1.0), conn(4, 2.0)],
    );
    assert!(approx(diff, 0.5), "diff ne: {}, 0.5", f64::from_bits(diff));
}

#[test]
fn test_avg_param_diff_empty() {
    let full = vec![conn(1, 0.0), conn(2, -1.0), conn(4, 2.0)];
    assert!(approx(avg_param_diff(&full, &[]), 0.0));
    assert!(approx(avg_param_diff(&[], &full), 0.0));
    assert!(approx(avg_param_diff(&[], &[]), 0.0));
}

#[test]
fn test_avg_param_diff_no_overlap() {
    let diff = avg_param_diff(
        &[conn(1, 0.5), conn(2, -0.5), conn(3, 1.0)],
        &[conn(5, 0.5), conn(6, -0.5)],
    );
    assert!(approx(diff, 0.0));
}

#[test]
fn test_avg_param_diff_no_diff() {
    let diff = avg_param_diff(
        &[conn(1, 0.5), conn(2, -0.5), conn(3, 1.0)],
        &[conn(1, 0.5), conn(2, -0.5), conn(3, 1.0)],
    );
    assert!(approx(diff, 0.0));
}

#[test]
fn test_delta_formula() {
    // Below 20 connections the normalizer is 1: delta is
    // disjoint + excess + 0.4 * avg weight difference of matches.
    // One disjoint id (3) and one excess id (4) on three-long lists.
    let l = vec![conn(1, 0.5), conn(2, -0.5), conn(3, 1.0)];
    let r = vec![conn(1, 0.0), conn(2, -1.0), conn(4, 2.0)];
    let d = delta(&l, &r);
    let expect = (1.0 * 1.0 + 1.0 * 1.0) / 1.0 + 0.4 * 0.5;
    assert!(approx(d, expect), "delta ne: {}, {}", f64::from_bits(d), expect);
}

#[test]
fn test_delta_empty_side() {
    let l = vec![conn(1, 0.5), conn(2, -0.5)];
    let d = delta(&l, &[]);
    assert!(approx(d, 2.0));
}

fn innos(conns: &[CTRConnection]) -> Vec<usize> {
    conns.iter().map(|c| c.inno).collect()
}

fn is_sorted_by_inno(conns: &[CTRConnection]) -> bool {
    conns.windows(2).all(|w| w[0].inno < w[1].inno)
}

fn same_modulo_enabled(a: &CTRConnection, b: &CTRConnection) -> bool {
    a.inno == b.inno && a.from == b.from && a.to == b.to && a.weight == b.weight
}

#[test]
fn test_crossover_eq() {
    // Equal fitness: the child's innovation set is the union of the
    // parents' sets, sorted, every gene from a parent carrying its id.
    let l = [conn_from(0, 11), conn_from(1, 12), conn_from(2, 13)];
    let r = [conn_from(0, 21), conn_from(2, 22), conn_from(3, 23)];
    let mut rng = ProbBinding::new(ProbStatic::default(), default_rng());
    for _ in 0..200 {
        let child = crossover(&l, &r, std::cmp::Ordering::Equal, &mut rng);
        assert_eq!(innos(&child), vec![0, 1, 2, 3]);
        assert!(is_sorted_by_inno(&child));
        for c in child.iter() {
            let in_l = l.iter().any(|p| same_modulo_enabled(c, p));
            let in_r = r.iter().any(|p| same_modulo_enabled(c, p));
            assert!(in_l || in_r, "child gene {} from neither parent", c.inno);
        }
        assert!(child.iter().any(|c| same_modulo_enabled(c, &l[1])));
        assert!(child.iter().any(|c| same_modulo_enabled(c, &r[2])));
    }
}

#[test]
fn test_crossover_ne() {
    // Unequal fitness: the child's innovation set is exactly the fitter
    // parent's; matched genes may come from either parent.
    let l = [conn_from(0, 11), conn_from(1, 12), conn_from(2, 13), conn_from(9, 14)];
    let r = [conn_from(0, 21), conn_from(2, 22), conn_from(3, 23), conn_from(4, 24), conn_from(7, 25)];
    let mut rng = ProbBinding::new(ProbStatic::default(), default_rng());
    for _ in 0..200 {
        let child = crossover(&l, &r, std::cmp::Ordering::Greater, &mut rng);
        assert_eq!(innos(&child), innos(&l));
        assert!(is_sorted_by_inno(&child));
        for (c, lc) in child.iter().zip(l.iter()) {
            let from_l = same_modulo_enabled(c, lc);
            let from_r = r.iter().any(|p| p.inno == c.inno && same_modulo_enabled(c, p));
            assert!(from_l || from_r);
        }
    }
}

#[test]
fn test_crossover_lt() {
    // A less-fit left parent mirrors the greater case with sides swapped.
    let l = [conn_from(0, 11), conn_from(1, 12), conn_from(2, 13)];
    let r = [conn_from(0, 21), conn_from(2, 22), conn_from(3, 23), conn_from(4, 24)];
    let mut rng = ProbBinding::new(ProbStatic::default(), seeded_rng(7));
    for _ in 0..200 {
        let child = crossover(&l, &r, std::cmp::Ordering::Less, &mut rng);
        assert_eq!(innos(&child), innos(&r));
    }
}

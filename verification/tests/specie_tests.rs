use neat_ctrnn::crossover::avg_param_diff;
use neat_ctrnn::fp;
use neat_ctrnn::rng::default_rng;
use neat_ctrnn::rng::seeded_rng;
use neat_ctrnn::specie::population_alloc;
use neat_ctrnn::specie::population_init;
use neat_ctrnn::specie::population_reproduce;
use neat_ctrnn::specie::speciate;
use neat_ctrnn::specie::uniq_2;
use neat_ctrnn::CTRConnection;
use neat_ctrnn::CTRGenome;
use neat_ctrnn::CTRNode;
use neat_ctrnn::EvolutionError;
use neat_ctrnn::InnoGen;
use neat_ctrnn::NodeKind;
use neat_ctrnn::NonBNode;
use neat_ctrnn::Prob;
use neat_ctrnn::ProbBinding;
use neat_ctrnn::ProbStatic;
use neat_ctrnn::Specie;
use neat_ctrnn::SpecieRepr;

fn rng() -> ProbBinding {
    ProbBinding::new(ProbStatic::default(), default_rng())
}

fn conn(inno: usize, from: usize, to: usize, weight: f64) -> CTRConnection {
    CTRConnection { inno, from, to, weight: weight.to_bits(), enabled: true }
}

fn genome_with(conns: Vec<CTRConnection>) -> CTRGenome {
    let max_ref = conns.iter().map(|c| c.from.max(c.to)).max().unwrap_or(0);
    let mut nodes = vec![CTRNode::Sensory, CTRNode::Action, CTRNode::Bias(1.0f64.to_bits())];
    while nodes.len() <= max_ref {
        nodes.push(CTRNode::Internal);
    }
    CTRGenome { sensory: 1, action: 1, nodes, connections: conns }
}

#[test]
fn test_inno_gen() {
    let mut inno = InnoGen::new(0);
    assert_eq!(inno.head, 0);
    assert_eq!(inno.path((0, 1)), 0);
    assert_eq!(inno.path((1, 2)), 1);
    assert_eq!(inno.path((0, 1)), 0);
    assert_eq!(inno.head, 2);

    let mut inno2 = InnoGen::new(inno.head);
    assert_eq!(inno2.path((1, 0)), 2);
    assert_eq!(inno2.path((0, 1)), 3);
}

#[test]
fn test_uniq_2() {
    let mut r = rng();
    assert_eq!(uniq_2(0, &mut r), None);
    assert_eq!(uniq_2(1, &mut r), None);

    let mut seen_ab = false;
    let mut seen_ba = false;
    for _ in 0..10_000 {
        let (l, r2) = uniq_2(2, &mut r).unwrap();
        if l == 0 {
            assert_eq!(r2, 1);
            seen_ab = true;
        } else {
            assert_eq!(l, 1);
            assert_eq!(r2, 0);
            seen_ba = true;
        }
    }
    assert!(seen_ab);
    assert!(seen_ba);

    for _ in 0..10_000 {
        let (l, r2) = uniq_2(100, &mut r).unwrap();
        assert_ne!(l, r2);
    }
}

#[test]
fn test_fit_adjusted_mean() {
    let sp = Specie {
        repr: SpecieRepr(vec![conn(0, 0, 1, 1.0)]),
        members: vec![
            (genome_with(vec![conn(0, 0, 1, 1.0)]), 3.0f64.to_bits()),
            (genome_with(vec![conn(0, 0, 1, 1.0)]), 1.0f64.to_bits()),
        ],
    };
    assert_eq!(sp.fit_adjusted(), 2.0f64.to_bits());
}

#[test]
fn test_shrink_top_p() {
    let member = (genome_with(vec![conn(0, 0, 1, 1.0)]), 1.0f64.to_bits());
    let mut sp = Specie {
        repr: SpecieRepr(vec![conn(0, 0, 1, 1.0)]),
        members: vec![member.clone(), member.clone(), member.clone(), member.clone()],
    };
    sp.shrink_top_p(0.5f64.to_bits()).unwrap();
    assert_eq!(sp.members.len(), 2);
}

#[test]
fn test_shrink_top_p_rounds_half_up() {
    // round(0.5 * 3) = 2: ties round away from zero.
    let member = (genome_with(vec![conn(0, 0, 1, 1.0)]), 1.0f64.to_bits());
    let mut sp = Specie {
        repr: SpecieRepr(vec![conn(0, 0, 1, 1.0)]),
        members: vec![member.clone(), member.clone(), member.clone()],
    };
    sp.shrink_top_p(0.5f64.to_bits()).unwrap();
    assert_eq!(sp.members.len(), 2);
}

#[test]
fn test_shrink_top_p_out_of_range() {
    let member = (genome_with(vec![conn(0, 0, 1, 1.0)]), 1.0f64.to_bits());
    let mut sp = Specie {
        repr: SpecieRepr(vec![conn(0, 0, 1, 1.0)]),
        members: vec![member.clone(), member.clone()],
    };
    assert_eq!(sp.shrink_top_p(0.0f64.to_bits()), Err(EvolutionError::OutOfRange));
    assert_eq!(sp.shrink_top_p(1.5f64.to_bits()), Err(EvolutionError::OutOfRange));
    assert_eq!(sp.members.len(), 2);
    assert_eq!(sp.shrink_top_p(1.0f64.to_bits()), Ok(()));
    assert_eq!(sp.members.len(), 2);
}

fn two_species() -> Vec<Specie> {
    // Adjusted fitness 3.0 and 1.0 respectively.
    let g_hi = genome_with(vec![conn(0, 0, 1, 9.0)]);
    let g_lo = genome_with(vec![conn(1, 1, 0, 1.0)]);
    vec![
        Specie {
            repr: SpecieRepr(g_hi.connections.clone()),
            members: vec![(g_hi, 3.0f64.to_bits())],
        },
        Specie {
            repr: SpecieRepr(g_lo.connections.clone()),
            members: vec![(g_lo, 1.0f64.to_bits())],
        },
    ]
}

#[test]
fn test_population_alloc_exact() {
    // scaled = 10 / 1.0; total = 4.0; shares round(7.5) = 8, then the
    // second species absorbs the residual 2.
    let species = two_species();
    let allocs = population_alloc(&species, 10, 1.0f64.to_bits());
    assert_eq!(allocs, vec![8, 2]);
}

#[test]
fn test_population_alloc_cap() {
    let species = two_species();
    for population in [0usize, 1, 5, 10, 33, 100] {
        for top_p in [0.25f64, 0.5, 1.0] {
            let allocs = population_alloc(&species, population, top_p.to_bits());
            let total: usize = allocs.iter().sum();
            assert!(total <= population, "{total} > {population} at p {top_p}");
        }
    }
}

#[test]
fn test_reproduce_elite_preserved() {
    let g_hi = genome_with(vec![conn(0, 0, 1, 9.0)]);
    let g_lo = genome_with(vec![conn(0, 0, 1, 1.0)]);
    let sp = Specie {
        repr: SpecieRepr(g_hi.connections.clone()),
        members: vec![(g_hi.clone(), 5.0f64.to_bits()), (g_lo, 1.0f64.to_bits())],
    };
    let mut innogen = InnoGen::new(10);
    let pop = sp.reproduce(6, &mut innogen, &mut rng()).unwrap();
    assert_eq!(pop.len(), 6);
    assert_eq!(pop[0].connections, g_hi.connections);
    assert_eq!(pop[0].sensory, g_hi.sensory);
    assert_eq!(pop[0].action, g_hi.action);
}

#[test]
fn test_reproduce_too_few_members() {
    let sp = Specie { repr: SpecieRepr(vec![]), members: vec![] };
    let mut innogen = InnoGen::new(0);
    let r = sp.reproduce(3, &mut innogen, &mut rng());
    assert_eq!(r.unwrap_err(), EvolutionError::TooFewMembers);
    assert!(sp.reproduce(0, &mut innogen, &mut rng()).unwrap().is_empty());
}

#[test]
fn test_speciate_partition() {
    let near_a = genome_with(vec![conn(0, 0, 1, 1.0)]);
    let near_b = genome_with(vec![conn(0, 0, 1, 1.0)]);
    let far = genome_with(vec![
        conn(10, 0, 1, 1.0),
        conn(11, 1, 0, 1.0),
        conn(12, 0, 0, 1.0),
        conn(13, 1, 1, 1.0),
        conn(14, 0, 1, 1.0),
    ]);
    let species = speciate(vec![
        (near_a, 3.0f64.to_bits()),
        (near_b, 5.0f64.to_bits()),
        (far, 1.0f64.to_bits()),
    ]);
    assert_eq!(species.len(), 2);
    assert_eq!(species[0].members.len(), 2);
    assert_eq!(species[1].members.len(), 1);
    // Members are sorted by fitness descending.
    assert_eq!(species[0].members[0].1, 5.0f64.to_bits());
    assert_eq!(species[0].members[1].1, 3.0f64.to_bits());
    let total: usize = species.iter().map(|s| s.members.len()).sum();
    assert_eq!(total, 3);
}

#[test]
fn test_next_inno_head() {
    let empty: Vec<CTRGenome> = vec![];
    assert_eq!(neat_ctrnn::specie::next_inno_head(&empty), 0);
    let pop = vec![
        genome_with(vec![conn(0, 0, 1, 1.0), conn(7, 1, 0, 1.0)]),
        genome_with(vec![conn(3, 0, 0, 1.0)]),
    ];
    assert_eq!(neat_ctrnn::specie::next_inno_head(&pop), 8);
}

#[test]
fn test_population_init() {
    let (pop, head) = population_init(2, 1, 10, &mut rng());
    assert_eq!(pop.len(), 10);
    assert!(head <= 10);
    for g in pop.iter() {
        assert_eq!(g.sensory, 2);
        assert_eq!(g.action, 1);
        assert_eq!(g.connections.len(), 1);
        assert_eq!(g.connections[0].weight, 1.0f64.to_bits());
        assert!(g.connections[0].enabled);
    }
}

#[test]
fn test_population_reproduce() {
    let species = two_species();
    let (pop, head) = population_reproduce(&species, 6, 1.0f64.to_bits(), 10, &mut rng()).unwrap();
    assert!(pop.len() <= 6);
    assert!(head >= 10);
    // The fittest member of the leading species survives verbatim.
    let elite = &species[0].members[0].0;
    assert!(pop.iter().any(|g| g.connections == elite.connections
        && g.sensory == elite.sensory
        && g.action == elite.action));
}

#[test]
fn test_specie_cloned_and_last() {
    let g = genome_with(vec![conn(0, 0, 1, 2.0)]);
    let sp = Specie {
        repr: SpecieRepr(g.connections.clone()),
        members: vec![(g.clone(), 4.0f64.to_bits()), (g.clone(), 2.0f64.to_bits())],
    };
    assert_eq!(sp.len(), 2);
    assert!(!sp.is_empty());
    assert_eq!(sp.last().unwrap().1, 2.0f64.to_bits());
    let (repr, members) = sp.cloned();
    assert_eq!(repr, sp.repr.0);
    assert_eq!(members.len(), 2);
    assert_eq!(members[0].0.connections, sp.members[0].0.connections);
}

#[test]
fn test_arithmetic_matches_ieee_through_avg_diff() {
    // One matched pair: the average difference is exactly the IEEE-754
    // double result of |a - b|, bit for bit, also where rounding is
    // inexact.
    let cases = [(0.1f64, 0.3f64), (1.5, -2.25), (1e300, -1e300), (-0.5, 0.5)];
    for (a, b) in cases {
        let l = [conn(1, 0, 1, a)];
        let r = [conn(1, 0, 1, b)];
        let expect = ((a - b).abs() / 1.0f64).to_bits();
        assert_eq!(avg_param_diff(&l, &r), expect);
    }
}

#[test]
fn test_arithmetic_matches_ieee_through_fit_adjusted() {
    // The adjusted fitness accumulates each fitness divided by the member
    // count: exactly the IEEE-754 double fold, bit for bit.
    let m = |fit: f64| (genome_with(vec![conn(0, 0, 1, 1.0)]), fit.to_bits());
    let sp = Specie {
        repr: SpecieRepr(vec![conn(0, 0, 1, 1.0)]),
        members: vec![m(0.1), m(0.2), m(0.7)],
    };
    let expect = ((0.0f64 + 0.1 / 3.0) + 0.2 / 3.0) + 0.7 / 3.0;
    assert_eq!(sp.fit_adjusted(), expect.to_bits());
}

#[test]
fn test_nan_bit_test() {
    assert!(fp::r_is_nan(f64::NAN.to_bits()));
    assert!(!fp::r_is_nan(1.0f64.to_bits()));
    assert!(!fp::r_is_nan(f64::INFINITY.to_bits()));
    assert!(!fp::r_is_nan((-0.0f64).to_bits()));
}

#[test]
fn test_float_key_orders_like_ieee() {
    let mut values = vec![-1e300f64, -2.5, -0.0, 0.0, 1e-300, 0.5, 2.0, 1e300];
    values.sort_by(|a, b| a.partial_cmp(b).unwrap());
    for w in values.windows(2) {
        assert!(fp::float_key(w[0].to_bits()) <= fp::float_key(w[1].to_bits()));
    }
    assert!(fp::float_key((-2.5f64).to_bits()) < fp::float_key(0.5f64.to_bits()));
}

#[test]
fn test_probability_table() {
    let mut r = ProbBinding::new(ProbStatic::default(), seeded_rng(42));
    r.update(neat_ctrnn::EvolutionEvent::MutateWeight, Prob { num: 0, den: 1 });
    for _ in 0..100 {
        assert!(!r.happens(neat_ctrnn::EvolutionEvent::MutateWeight));
    }
    r.update(neat_ctrnn::EvolutionEvent::MutateWeight, Prob { num: 1, den: 1 });
    for _ in 0..100 {
        assert!(r.happens(neat_ctrnn::EvolutionEvent::MutateWeight));
    }
}

#[test]
fn test_standard_normal_samples() {
    let mut r = ProbBinding::new(ProbStatic::default(), seeded_rng(3));
    let mut distinct = false;
    let first = r.standard_normal();
    for _ in 0..10 {
        let s = r.standard_normal();
        assert!(f64::from_bits(s).is_finite());
        if s != first {
            distinct = true;
        }
    }
    assert!(distinct);
}

#[test]
fn test_non_b_node() {
    assert_eq!(NonBNode::new(NodeKind::Sensory).kind(), NodeKind::Sensory);
    assert_eq!(NonBNode::new(NodeKind::Static), NonBNode::Static(1.0f64.to_bits()));
    let a = NonBNode::new(NodeKind::Internal);
    let b = NonBNode::new(NodeKind::Internal);
    assert_eq!(f64::from_bits(a.param_diff(&b)), 0.0);
}

use neat_ctrnn::rng::default_rng;
use neat_ctrnn::CTRConnection;
use neat_ctrnn::CTRGenome;
use neat_ctrnn::CTRNode;
use neat_ctrnn::EvolutionError;
use neat_ctrnn::InnoGen;
use neat_ctrnn::ProbBinding;
use neat_ctrnn::ProbStatic;

fn rng() -> ProbBinding {
    ProbBinding::new(ProbStatic::default(), default_rng())
}

fn conn(inno: usize, from: usize, to: usize, weight: f64, enabled: bool) -> CTRConnection {
    CTRConnection { inno, from, to, weight: weight.to_bits(), enabled }
}

#[test]
fn test_genome_creation() {
    let (genome, inno_head) = CTRGenome::new(3, 2);
    assert_eq!(inno_head, 8);
    assert_eq!(genome.sensory, 3);
    assert_eq!(genome.action, 2);
    assert_eq!(genome.nodes.len(), 6);
    assert!(matches!(genome.nodes[0], CTRNode::Sensory));
    assert!(matches!(genome.nodes[3], CTRNode::Action));
    assert!(matches!(genome.nodes[5], CTRNode::Bias(_)));

    let (genome_empty, inno_head) = CTRGenome::new(0, 0);
    assert_eq!(inno_head, 0);
    assert_eq!(genome_empty.sensory, 0);
    assert_eq!(genome_empty.action, 0);
    assert_eq!(genome_empty.nodes.len(), 1);
    assert!(matches!(genome_empty.nodes[0], CTRNode::Bias(_)));

    let (genome_only_sensory, inno_head) = CTRGenome::new(3, 0);
    assert_eq!(inno_head, 0);
    assert_eq!(genome_only_sensory.sensory, 3);
    assert_eq!(genome_only_sensory.action, 0);
    assert_eq!(genome_only_sensory.nodes.len(), 4);
    assert!(matches!(genome_only_sensory.nodes[0], CTRNode::Sensory));
    assert!(matches!(genome_only_sensory.nodes[2], CTRNode::Sensory));
    assert!(matches!(genome_only_sensory.nodes[3], CTRNode::Bias(_)));

    let (genome_only_action, inno_head) = CTRGenome::new(0, 3);
    assert_eq!(inno_head, 3);
    assert_eq!(genome_only_action.sensory, 0);
    assert_eq!(genome_only_action.action, 3);
    assert_eq!(genome_only_action.nodes.len(), 4);
    assert!(matches!(genome_only_action.nodes[0], CTRNode::Action));
    assert!(matches!(genome_only_action.nodes[2], CTRNode::Action));
    assert!(matches!(genome_only_action.nodes[3], CTRNode::Bias(_)));
}

#[test]
fn test_gen_connection() {
    let genome = CTRGenome {
        sensory: 1,
        action: 1,
        nodes: vec![CTRNode::Sensory, CTRNode::Action],
        connections: vec![conn(0, 0, 0, 0.0, true), conn(1, 1, 1, 0.0, true)],
    };
    let mut r = rng();
    for _ in 0..100 {
        match genome.gen_connection_path(&mut r) {
            Some((0, o)) | Some((o, 0)) => assert_eq!(o, 1),
            Some(p) => unreachable!("invalid pair {p:?} gen'd"),
            None => unreachable!("no path gen'd"),
        }
    }
}

#[test]
fn test_gen_connection_no_dupe() {
    let genome = CTRGenome {
        sensory: 1,
        action: 1,
        nodes: vec![CTRNode::Sensory, CTRNode::Action],
        connections: vec![
            conn(0, 0, 0, 1.0, true),
            conn(1, 0, 1, 1.0, true),
            conn(2, 1, 1, 1.0, true),
        ],
    };
    let mut r = rng();
    for _ in 0..100 {
        assert_eq!(genome.gen_connection_path(&mut r), Some((1, 0)));
    }
}

#[test]
fn test_gen_connection_none_possble() {
    let genome = CTRGenome {
        sensory: 0,
        action: 0,
        nodes: vec![],
        connections: vec![conn(0, 0, 1, 1.0, true)],
    };
    assert_eq!(genome.gen_connection_path(&mut rng()), None);
}

#[test]
fn test_gen_connection_saturated() {
    let mut connections = Vec::new();
    for from in 0..5 {
        for to in 0..5 {
            connections.push(conn(0, from, to, 1.0, true));
        }
    }
    let genome = CTRGenome {
        sensory: 2,
        action: 2,
        nodes: vec![
            CTRNode::Action,
            CTRNode::Action,
            CTRNode::Sensory,
            CTRNode::Sensory,
            CTRNode::Bias(1.0f64.to_bits()),
        ],
        connections,
    };
    assert_eq!(genome.gen_connection_path(&mut rng()), None);
}

#[test]
fn test_mutate_connection() {
    let (mut genome, _) = CTRGenome::new(4, 4);
    let mut inext = InnoGen::new(0);
    genome.connections = vec![
        conn(inext.path((0, 1)), 0, 1, 0.5, true),
        conn(inext.path((1, 2)), 1, 2, 0.5, true),
    ];

    let before = genome.clone();
    genome.mutate_connection(&mut rng(), &mut inext).unwrap();

    assert_eq!(genome.connections.len(), before.connections.len() + 1);

    let tail = genome.connections.last().unwrap();
    assert!(!before.connections.iter().any(|c| c.inno == tail.inno));
    assert!(!before.connections.iter().any(|c| (c.from, c.to) == (tail.from, tail.to)));
    assert_eq!(tail.weight, 1.0f64.to_bits());
}

#[test]
fn test_mutate_bisection() {
    let (mut genome, _) = CTRGenome::new(0, 1);
    genome.connections = vec![conn(0, 0, 1, 0.5, true)];
    let innogen = &mut InnoGen::new(1);
    genome.mutate_bisection(&mut rng(), innogen).unwrap();

    assert!(!genome.connections[0].enabled);

    assert_eq!(genome.connections[1].from, 0);
    assert_eq!(genome.connections[1].to, 2);
    assert_eq!(genome.connections[1].weight, 1.0f64.to_bits());
    assert!(genome.connections[1].enabled);
    assert_eq!(
        genome.connections[1].inno,
        innogen.path((genome.connections[1].from, genome.connections[1].to))
    );

    assert_eq!(genome.connections[2].from, 2);
    assert_eq!(genome.connections[2].to, 1);
    assert_eq!(genome.connections[2].weight, 0.5f64.to_bits());
    assert!(genome.connections[2].enabled);
    assert_eq!(
        genome.connections[2].inno,
        innogen.path((genome.connections[2].from, genome.connections[2].to))
    );

    assert_ne!(genome.connections[0].inno, genome.connections[1].inno);
    assert_ne!(genome.connections[1].inno, genome.connections[2].inno);
    assert_ne!(genome.connections[0].inno, genome.connections[2].inno);
}

#[test]
fn test_mutate_bisection_empty_genome() {
    let (mut genome, _) = CTRGenome::new(0, 0);
    let r = genome.mutate_bisection(&mut rng(), &mut InnoGen::new(0));
    assert_eq!(r, Err(EvolutionError::NoConnections));
}

#[test]
fn test_mutate_bisection_no_connections() {
    let (mut genome, _) = CTRGenome::new(2, 2);
    genome.connections = vec![];
    let r = genome.mutate_bisection(&mut rng(), &mut InnoGen::new(0));
    assert_eq!(r, Err(EvolutionError::NoConnections));
}

#[test]
fn test_mutate_bisection_stale_registry() {
    // A registry that hands back an id the genome already holds cannot be
    // this generation's: the genome is left untouched.
    let (mut genome, _) = CTRGenome::new(0, 1);
    genome.connections = vec![conn(0, 0, 1, 0.5, true)];
    let before = genome.clone();
    let r = genome.mutate_bisection(&mut rng(), &mut InnoGen::new(0));
    assert_eq!(r, Err(EvolutionError::StaleRegistry));
    assert_eq!(genome.connections, before.connections);
    assert_eq!(genome.nodes.len(), before.nodes.len());
}

#[test]
fn test_mutate_bisection_inserts_in_order() {
    // Ids below the genome's top id still land in innovation order.
    let (mut genome, _) = CTRGenome::new(0, 1);
    genome.connections = vec![conn(5, 0, 1, 0.5, true)];
    let before = genome.clone();
    genome.mutate_bisection(&mut rng(), &mut InnoGen::new(0)).unwrap();
    assert_eq!(genome.connections.len(), before.connections.len() + 2);
    assert!(genome.connections.windows(2).all(|w| w[0].inno < w[1].inno));
    assert!(!genome.connections.iter().find(|c| c.inno == 5).unwrap().enabled);
}

#[test]
fn test_mutate_params_preserves_topology() {
    let (mut genome, _) = CTRGenome::new(1, 1);
    genome.connections = vec![conn(0, 0, 1, 0.5, true), conn(1, 1, 0, -0.25, false)];
    let before = genome.clone();
    genome.mutate_params(&mut rng());
    assert_eq!(genome.connections.len(), before.connections.len());
    for (a, b) in genome.connections.iter().zip(before.connections.iter()) {
        assert_eq!(a.inno, b.inno);
        assert_eq!(a.from, b.from);
        assert_eq!(a.to, b.to);
        assert_eq!(a.enabled, b.enabled);
        assert!(f64::from_bits(a.weight).is_finite());
    }
}

#[test]
fn test_state_head() {
    let mut state = vec![0.; 5];
    {
        let size = 3;
        let state: &mut [f64] = &mut state;
        assert!(state.len() >= size);
        &mut state[0..size]
    }
    .clone_from_slice(&[1., 2., 3.]);
    assert_eq!(state, vec![1., 2., 3., 0., 0.])
}

#[test]
fn test_ctrgenome_network() {
    let (mut genome, _) = CTRGenome::new(2, 2);
    genome.connections = vec![
        conn(0, 0, 3, 0.5, true),
        conn(1, 0, 1, -1.0, true),
        conn(2, 0, 1, 1.2, false),
    ];

    let nn = genome.network();
    let n = genome.nodes.len();
    for c in genome.connections.iter().filter(|c| c.enabled) {
        assert_eq!(nn.w[c.from * n + c.to], c.weight);
    }
    // The disabled connection is omitted: the last enabled weight stands.
    assert_eq!(nn.w[0 * n + 1], (-1.0f64).to_bits());
    for (i, node) in genome.nodes.iter().enumerate() {
        let expect = if let CTRNode::Bias(b) = node { *b } else { 0.0f64.to_bits() };
        assert_eq!(nn.theta[i], expect);
    }
    for tau in nn.tau.iter() {
        assert_eq!(*tau, 1.0f64.to_bits());
    }
    for y in nn.y.iter() {
        assert_eq!(*y, 0.0f64.to_bits());
    }
    for i in nn.sensory.0..nn.sensory.1 {
        assert!(matches!(genome.nodes[i], CTRNode::Sensory));
    }
    for i in nn.action.0..nn.action.1 {
        assert!(matches!(genome.nodes[i], CTRNode::Action));
    }
}

#[test]
fn test_reproduce_with_topology() {
    let (mut a, _) = CTRGenome::new(1, 1);
    a.connections = vec![conn(0, 0, 1, 0.5, true), conn(2, 1, 1, 0.25, true)];
    let (mut b, _) = CTRGenome::new(1, 1);
    b.connections = vec![conn(0, 0, 1, -0.5, true), conn(1, 1, 0, 0.75, true)];
    let mut r = rng();
    for _ in 0..50 {
        let child = a.reproduce_with(&b, std::cmp::Ordering::Greater, &mut r);
        let innos: Vec<usize> = child.connections.iter().map(|c| c.inno).collect();
        assert_eq!(innos, vec![0, 2]);
        assert_eq!(child.sensory, 1);
        assert_eq!(child.action, 1);
        for c in child.connections.iter() {
            assert!(c.from < child.nodes.len() && c.to < child.nodes.len());
        }
    }
}

use bit_set::BitSet;
use fba_quorum_analyzer::fbas::{Fbas, Node, QuorumSet};
use fba_quorum_analyzer::simulation::monitors::DummyMonitor;
use fba_quorum_analyzer::simulation::quorum_set_configurators::random::SimpleRandomQsc;
use fba_quorum_analyzer::simulation::quorum_set_configurators::super_safe::SuperSafeQsc;
use fba_quorum_analyzer::simulation::{
    after_pass, ChangeEffect, NextStep, QuorumSetConfigurator, SimulationError, Simulator,
    MAX_PASSES,
};
use std::rc::Rc;

fn node_set(ids: &[usize]) -> BitSet {
    let mut set = BitSet::with_capacity(ids.len());
    for &id in ids {
        set.insert(id);
    }
    set
}

fn unconfigured_nodes(n: usize) -> Fbas {
    let mut fbas = Fbas::new();
    for i in 0..n {
        fbas.add_node(Node {
            public_key: format!("n{}", i),
            quorum_set: QuorumSet::new(),
        });
    }
    fbas
}

#[test]
fn simple_random_qsc_makes_a_quorum() {
    let mut simulator = Simulator::new(
        Fbas::new(),
        Rc::new(SimpleRandomQsc::new(2, 1)),
        Rc::new(DummyMonitor),
    );
    simulator.simulate_growth(3).unwrap();
    assert!(simulator.fbas.is_quorum(&node_set(&[0, 1, 2])));
}

#[test]
fn simple_random_qsc_adapts_until_satisfied() {
    let mut simulator_random = Simulator::new(
        Fbas::new(),
        Rc::new(SimpleRandomQsc::new(5, 3)),
        Rc::new(DummyMonitor),
    );
    let mut simulator_safe = Simulator::new(
        Fbas::new(),
        Rc::new(SuperSafeQsc::new()),
        Rc::new(DummyMonitor),
    );
    simulator_random.simulate_growth(2).unwrap();
    simulator_safe.simulate_growth(2).unwrap();

    assert!(simulator_random.fbas.is_quorum(&node_set(&[0, 1])));

    simulator_random.simulate_growth(10).unwrap();
    simulator_safe.simulate_growth(10).unwrap();

    assert_ne!(simulator_safe.fbas, simulator_random.fbas);
    assert!(!simulator_random.fbas.is_quorum(&node_set(&[0, 1])));
}

#[test]
fn simple_random_qsc_is_random() {
    let mut simulator_random_1 = Simulator::new(
        Fbas::new(),
        Rc::new(SimpleRandomQsc::new(5, 3)),
        Rc::new(DummyMonitor),
    );
    let mut simulator_random_2 = simulator_random_1.clone();
    simulator_random_1.simulate_growth(23).unwrap();
    simulator_random_2.simulate_growth(23).unwrap();

    assert_ne!(simulator_random_1.fbas, simulator_random_2.fbas);
}

#[test]
fn growth_ends_in_a_stable_system() {
    let qsc = Rc::new(SimpleRandomQsc::new(4, 3));
    let mut simulator = Simulator::new(Fbas::new(), qsc.clone(), Rc::new(DummyMonitor));
    assert_eq!(Ok(()), simulator.simulate_growth(9));
    assert_eq!(9, simulator.fbas.nodes.len());
    assert_eq!(0, simulator.reevaluate_all());
    let mut fbas = simulator.finalize();
    let before = fbas.clone();
    for node_id in 0..fbas.nodes.len() {
        assert_eq!(ChangeEffect::NoChange, qsc.configure(node_id, &mut fbas));
    }
    assert_eq!(before, fbas);
}

#[test]
fn growth_by_no_node_changes_nothing() {
    let fbas = unconfigured_nodes(3);
    let mut simulator = Simulator::new(
        fbas.clone(),
        Rc::new(SuperSafeQsc::new()),
        Rc::new(DummyMonitor),
    );
    assert_eq!(Ok(()), simulator.simulate_growth(0));
    assert_eq!(fbas, simulator.fbas);
}

#[test]
fn grown_nodes_have_different_names_and_valid_quorum_sets() {
    let mut simulator = Simulator::new(
        Fbas::new(),
        Rc::new(SimpleRandomQsc::new(3, 2)),
        Rc::new(DummyMonitor),
    );
    simulator.simulate_growth(6).unwrap();
    let fbas = simulator.finalize();
    let n = fbas.nodes.len();
    assert_eq!(6, n);
    for (i, node) in fbas.nodes.iter().enumerate() {
        assert_eq!(format!("n{}", i), node.public_key);
        let qs = &node.quorum_set;
        assert!(qs.threshold <= qs.validators.len());
        assert_eq!(2, qs.threshold);
        assert_eq!(3, qs.validators.len());
        assert!(qs.validators.iter().all(|&v| v < n));
        let distinct: BitSet = qs.validators.iter().copied().collect();
        assert_eq!(qs.validators.len(), distinct.len());
    }
}

#[test]
fn grown_nodes_are_named_by_their_identifiers_in_decimal() {
    let mut simulator = Simulator::new(
        Fbas::new(),
        Rc::new(SuperSafeQsc::new()),
        Rc::new(DummyMonitor),
    );
    simulator.simulate_growth(102).unwrap();
    let names: Vec<&str> = simulator
        .fbas
        .nodes
        .iter()
        .map(|node| node.public_key.as_str())
        .collect();
    assert_eq!("n0", names[0]);
    assert_eq!("n9", names[9]);
    assert_eq!("n10", names[10]);
    assert_eq!("n99", names[99]);
    assert_eq!("n100", names[100]);
    assert_eq!("n101", names[101]);
}

#[test]
fn super_safe_qsc_needs_everyone() {
    let mut simulator = Simulator::new(
        Fbas::new(),
        Rc::new(SuperSafeQsc::new()),
        Rc::new(DummyMonitor),
    );
    simulator.simulate_growth(4).unwrap();
    for node in simulator.fbas.nodes.iter() {
        assert_eq!(4, node.quorum_set.threshold);
        assert_eq!(vec![0, 1, 2, 3], node.quorum_set.validators);
        assert!(node.quorum_set.inner_quorum_sets.is_empty());
    }
    assert!(simulator.fbas.is_quorum(&node_set(&[0, 1, 2, 3])));
    assert!(!simulator.fbas.is_quorum(&node_set(&[0, 1, 2])));
}

#[test]
fn super_safe_qsc_reports_change_only_when_it_changes() {
    let qsc = SuperSafeQsc::new();
    let mut fbas = unconfigured_nodes(2);
    assert_eq!(ChangeEffect::Change, qsc.configure(0, &mut fbas));
    assert_eq!(ChangeEffect::NoChange, qsc.configure(0, &mut fbas));
    assert_eq!(2, fbas.nodes[0].quorum_set.threshold);
    assert!(fbas.nodes[1].quorum_set.is_empty());
    assert!(SuperSafeQsc::is_configured(&fbas.nodes[0].quorum_set, 2));
    assert!(!SuperSafeQsc::is_configured(&fbas.nodes[0].quorum_set, 3));
}

#[test]
fn simple_random_qsc_fills_an_unconfigured_quorum_set() {
    let qsc = SimpleRandomQsc::new(3, 2);
    let mut fbas = unconfigured_nodes(5);
    assert_eq!(ChangeEffect::Change, qsc.configure(1, &mut fbas));
    let qs = &fbas.nodes[1].quorum_set;
    assert_eq!(2, qs.threshold);
    assert_eq!(3, qs.validators.len());
    assert!(qs.validators.iter().all(|&v| v < 5));
    let distinct: BitSet = qs.validators.iter().copied().collect();
    assert_eq!(3, distinct.len());
    assert_eq!(ChangeEffect::NoChange, qsc.configure(1, &mut fbas));
    assert!(fbas.nodes[0].quorum_set.is_empty());
}

#[test]
fn simple_random_qsc_is_bounded_by_the_number_of_nodes() {
    let qsc = SimpleRandomQsc::new(5, 7);
    let mut fbas = unconfigured_nodes(2);
    assert_eq!(ChangeEffect::Change, qsc.configure(0, &mut fbas));
    let mut validators = fbas.nodes[0].quorum_set.validators.clone();
    validators.sort();
    assert_eq!(vec![0, 1], validators);
    assert_eq!(2, fbas.nodes[0].quorum_set.threshold);
    assert_eq!(ChangeEffect::NoChange, qsc.configure(0, &mut fbas));
}

#[test]
fn simple_random_qsc_that_never_adapts_leaves_configured_sets_alone() {
    let qsc = SimpleRandomQsc::new(5, 3).never_adapt();
    let mut fbas = unconfigured_nodes(2);
    assert_eq!(ChangeEffect::Change, qsc.configure(0, &mut fbas));
    assert_eq!(2, fbas.nodes[0].quorum_set.validators.len());
    for i in 2..6 {
        fbas.add_node(Node {
            public_key: format!("n{}", i),
            quorum_set: QuorumSet::new(),
        });
    }
    assert_eq!(ChangeEffect::NoChange, qsc.configure(0, &mut fbas));
    assert_eq!(2, fbas.nodes[0].quorum_set.validators.len());
    let adapting = SimpleRandomQsc::new(5, 3);
    assert_eq!(ChangeEffect::Change, adapting.configure(0, &mut fbas));
    assert_eq!(5, fbas.nodes[0].quorum_set.validators.len());
    assert_eq!(3, fbas.nodes[0].quorum_set.threshold);
    assert_eq!(ChangeEffect::NoChange, adapting.configure(0, &mut fbas));
}

#[test]
fn simple_random_qsc_grows_a_quorum_set_up_to_the_desired_size() {
    let qsc = SimpleRandomQsc::new(5, 3);
    let mut fbas = unconfigured_nodes(6);
    fbas.nodes[2].quorum_set = QuorumSet {
        threshold: 2,
        validators: vec![4, 1],
        inner_quorum_sets: vec![],
    };
    assert_eq!(ChangeEffect::Change, qsc.configure(2, &mut fbas));
    let qs = &fbas.nodes[2].quorum_set;
    assert_eq!(5, qs.validators.len());
    assert_eq!(vec![4, 1], qs.validators[..2].to_vec());
    assert_eq!(3, qs.threshold);
    assert!(qs.validators.iter().all(|&v| v < 6));
    let distinct: BitSet = qs.validators.iter().copied().collect();
    assert_eq!(5, distinct.len());
}

#[test]
fn simple_random_qsc_tells_when_the_threshold_exceeds_the_size() {
    assert!(SimpleRandomQsc::new(2, 3).clamps_threshold());
    assert!(!SimpleRandomQsc::new(3, 3).clamps_threshold());
    assert!(!SimpleRandomQsc::new(5, 3).clamps_threshold());
}

#[test]
fn one_pass_changes_the_first_node_that_is_not_content() {
    let mut fbas = unconfigured_nodes(3);
    let safe = SuperSafeQsc::new();
    assert_eq!(ChangeEffect::Change, safe.configure(0, &mut fbas));
    let before = fbas.clone();
    let mut simulator = Simulator::new(fbas, Rc::new(safe), Rc::new(DummyMonitor));
    assert_eq!(2, simulator.reevaluate_all());
    assert_eq!(before.nodes[0], simulator.fbas.nodes[0]);
    assert_ne!(before.nodes[1], simulator.fbas.nodes[1]);
    assert_ne!(before.nodes[2], simulator.fbas.nodes[2]);
    assert_eq!(0, simulator.reevaluate_all());
}

#[test]
fn available_nodes_are_those_that_are_no_validators() {
    assert_eq!(
        vec![0, 2, 5],
        SimpleRandomQsc::available_nodes(&vec![4, 1, 3], 6)
    );
    assert_eq!(
        vec![0, 1, 2],
        SimpleRandomQsc::available_nodes(&vec![], 3)
    );
    assert!(SimpleRandomQsc::available_nodes(&vec![1, 0], 2).is_empty());
}

#[test]
fn extend_quorum_set_appends_and_sets_the_threshold() {
    let mut fbas = unconfigured_nodes(4);
    assert_eq!(
        ChangeEffect::Change,
        SimpleRandomQsc::extend_quorum_set(&mut fbas, 2, vec![3, 0], 2)
    );
    assert_eq!(vec![3, 0], fbas.nodes[2].quorum_set.validators);
    assert_eq!(2, fbas.nodes[2].quorum_set.threshold);
    assert_eq!(
        ChangeEffect::NoChange,
        SimpleRandomQsc::extend_quorum_set(&mut fbas, 2, vec![], 2)
    );
    assert_eq!(
        ChangeEffect::Change,
        SimpleRandomQsc::extend_quorum_set(&mut fbas, 2, vec![], 1)
    );
    assert_eq!(
        ChangeEffect::Change,
        SimpleRandomQsc::extend_quorum_set(&mut fbas, 2, vec![1], 1)
    );
    assert_eq!(vec![3, 0, 1], fbas.nodes[2].quorum_set.validators);
    assert!(fbas.nodes[0].quorum_set.is_empty());
}

#[test]
fn nonconvergence_is_an_error_of_its_own() {
    assert_eq!(
        SimulationError::Nonconvergence,
        SimulationError::Nonconvergence.clone()
    );
}

/// A configurator that is never content: it raises or lowers the threshold
/// of the first validator list it sees, every time.
struct RestlessQsc;

impl QuorumSetConfigurator for RestlessQsc {
    fn satisfied(&self, _node_id: usize, _fbas: Fbas) -> bool {
        false
    }

    fn shaped(&self, _quorum_set: QuorumSet) -> bool {
        true
    }

    fn lemma_unconfigured_shaped(&self, _quorum_set: QuorumSet) {}

    fn configure(&self, node_id: usize, fbas: &mut Fbas) -> ChangeEffect {
        let quorum_set = &mut fbas.nodes[node_id].quorum_set;
        if quorum_set.validators.is_empty() {
            quorum_set.validators.push(node_id);
        }
        quorum_set.threshold = 1 - quorum_set.threshold;
        ChangeEffect::Change
    }
}

#[test]
fn growth_that_never_settles_ends_in_an_error() {
    let mut simulator = Simulator::new(
        Fbas::new(),
        Rc::new(RestlessQsc),
        Rc::new(DummyMonitor),
    );
    assert_eq!(
        Err(SimulationError::Nonconvergence),
        simulator.simulate_growth(2)
    );
    assert_eq!(1, simulator.fbas.nodes.len());
    assert_eq!(Ok(()), simulator.simulate_growth(0));
}

#[test]
fn validity_of_systems_and_quorum_sets() {
    let mut fbas = unconfigured_nodes(3);
    assert!(fbas.is_valid());
    fbas.nodes[0].quorum_set = QuorumSet {
        threshold: 2,
        validators: vec![0, 2],
        inner_quorum_sets: vec![QuorumSet {
            threshold: 1,
            validators: vec![1],
            inner_quorum_sets: vec![],
        }],
    };
    assert!(fbas.is_valid());
    assert!(fbas.nodes[0].quorum_set.is_valid(3));
    assert!(!fbas.nodes[0].quorum_set.is_valid(2));
    fbas.nodes[0].quorum_set.threshold = 4;
    assert!(!fbas.is_valid());
    fbas.nodes[0].quorum_set.threshold = 3;
    assert!(fbas.is_valid());
    fbas.nodes[0].quorum_set.validators = vec![2, 2];
    assert!(!fbas.is_valid());
    fbas.nodes[0].quorum_set.validators = vec![2, 3];
    assert!(!fbas.is_valid());
    fbas.nodes[0].quorum_set.validators = vec![2, 0];
    fbas.nodes[0].quorum_set.inner_quorum_sets[0].validators = vec![5];
    assert!(!fbas.is_valid());
}

#[test]
fn new_quorum_set_is_unconfigured() {
    let quorum_set = QuorumSet::new();
    assert!(quorum_set.is_empty());
    assert_eq!(0, quorum_set.threshold);
    assert!(quorum_set.validators.is_empty());
    assert!(quorum_set.inner_quorum_sets.is_empty());
    let configured = QuorumSet {
        threshold: 0,
        validators: vec![1],
        inner_quorum_sets: vec![],
    };
    assert!(!configured.is_empty());
}

#[test]
fn add_node_hands_out_the_next_identifier() {
    let mut fbas = Fbas::new();
    assert_eq!(0, fbas.nodes.len());
    let node = Node {
        public_key: String::from("a"),
        quorum_set: QuorumSet::new(),
    };
    assert_eq!(0, fbas.add_node(node.clone()));
    assert_eq!(1, fbas.add_node(node.clone()));
    assert_eq!(vec![node.clone(), node], fbas.nodes);
}

#[test]
fn after_a_pass_the_simulator_settles_repeats_or_gives_up() {
    assert_eq!(NextStep::Settle, after_pass(0, 0));
    assert_eq!(NextStep::Settle, after_pass(0, MAX_PASSES));
    assert_eq!(NextStep::Repeat, after_pass(1, 0));
    assert_eq!(NextStep::Repeat, after_pass(3, MAX_PASSES - 2));
    assert_eq!(NextStep::GiveUp, after_pass(1, MAX_PASSES - 1));
    assert_eq!(NextStep::GiveUp, after_pass(7, usize::MAX));
    assert_eq!(10000, MAX_PASSES);
}

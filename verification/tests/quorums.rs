use bit_set::BitSet;
use fba_quorum_analyzer::fbas::{Fbas, Node, NodeId, QuorumSet};
use fba_quorum_analyzer::identifiers::range_to;
use fba_quorum_analyzer::quorums::{
    all_node_sets_interesect, get_minimal_quorums, has_quorum_intersection,
    remove_non_minimal_node_sets,
};

fn bitset(ids: &[usize]) -> BitSet {
    let mut set = BitSet::with_capacity(ids.len());
    for &id in ids {
        set.insert(id);
    }
    set
}

fn test_node(validators: &[NodeId], threshold: usize) -> Node {
    Node {
        public_key: Default::default(),
        quorum_set: QuorumSet {
            threshold,
            validators: validators.iter().copied().collect(),
            inner_quorum_sets: vec![],
        },
    }
}

fn correct_trivial() -> Fbas {
    Fbas {
        nodes: vec![
            test_node(&[0, 1, 2], 2),
            test_node(&[0, 1, 2], 2),
            test_node(&[0, 1, 2], 2),
        ],
    }
}

fn broken_trivial() -> Fbas {
    Fbas {
        nodes: vec![
            test_node(&[0], 1),
            test_node(&[1, 2], 2),
            test_node(&[1, 2], 2),
        ],
    }
}

/// Reverses the node list and gives every validator the identifier that its
/// node has in the reversed list.
fn reverse_node_ids(network: &mut Fbas) {
    let n = network.nodes.len();
    network.nodes.reverse();
    for node in network.nodes.iter_mut() {
        for validator in node.quorum_set.validators.iter_mut() {
            *validator = n - 1 - *validator;
        }
    }
}

#[test]
fn is_quorum_if_not_quorum() {
    let node = test_node(&[0, 1, 2], 3);
    let node_set = &[1, 2, 3].iter().copied().collect();
    assert!(!node.is_quorum(&node_set));
}

#[test]
fn is_quorum_if_quorum() {
    let node = test_node(&[0, 1, 2], 2);
    let node_set = &[1, 2, 3].iter().copied().collect();
    assert!(node.is_quorum(&node_set));
}

#[test]
fn is_quorum_with_inner_quorum_sets() {
    let mut node = test_node(&[0, 1], 3);
    node.quorum_set.inner_quorum_sets = vec![
        QuorumSet {
            threshold: 2,
            validators: vec![2, 3, 4],
            inner_quorum_sets: vec![],
        },
        QuorumSet {
            threshold: 2,
            validators: vec![4, 5, 6],
            inner_quorum_sets: vec![],
        },
    ];
    let not_quorum = &[1, 2, 3].iter().copied().collect();
    let quorum = &[0, 3, 4, 5].iter().copied().collect();
    assert!(!node.is_quorum(&not_quorum));
    assert!(node.is_quorum(&quorum));
}

#[test]
fn is_quorum_for_network() {
    let network = correct_trivial();

    assert!(network.is_quorum(&vec![0, 1].into_iter().collect()));
    assert!(!network.is_quorum(&vec![0].into_iter().collect()));
}

#[test]
fn empty_set_is_not_quorum() {
    let node = test_node(&[0, 1, 2], 2);
    assert!(!node.is_quorum(&BitSet::new()));

    let network = correct_trivial();
    assert!(!network.is_quorum(&BitSet::new()));
}

#[test]
fn get_minimal_quorums_correct_trivial() {
    let network = correct_trivial();

    let expected = vec![bitset(&[0, 1]), bitset(&[0, 2]), bitset(&[1, 2])];
    let actual = get_minimal_quorums(&network);

    assert_eq!(expected, actual);
}

#[test]
fn get_minimal_quorums_broken_trivial() {
    let network = broken_trivial();

    let expected = vec![bitset(&[0]), bitset(&[1, 2])];
    let actual = get_minimal_quorums(&network);

    assert_eq!(expected, actual);
}

#[test]
fn get_minimal_quorums_broken_trivial_reversed_node_ids() {
    let mut network = broken_trivial();
    reverse_node_ids(&mut network);

    let expected = vec![bitset(&[2]), bitset(&[0, 1])];
    let actual = get_minimal_quorums(&network);

    assert_eq!(expected, actual);
}

#[test]
fn reversed_node_list_alone_is_another_system() {
    let mut network = broken_trivial();
    network.nodes.reverse();

    assert_eq!(vec![bitset(&[0, 1, 2])], get_minimal_quorums(&network));
}

#[test]
fn node_set_interesections() {
    assert!(all_node_sets_interesect(&vec![
        bitset(&[0, 1]),
        bitset(&[0, 2]),
        bitset(&[1, 2])
    ]));
    assert!(!all_node_sets_interesect(&vec![
        bitset(&[0]),
        bitset(&[1, 2])
    ]));
}

#[test]
fn has_quorum_intersection_trivial() {
    let correct = correct_trivial();
    let broken = broken_trivial();

    assert!(has_quorum_intersection(&correct));
    assert!(!has_quorum_intersection(&broken));
}

#[test]
fn unconfigured_quorum_set_is_satisfied_by_the_empty_set_alone() {
    let node = test_node(&[], 0);
    assert!(!node.is_quorum(&bitset(&[0])));
    assert!(!node.is_quorum(&bitset(&[3, 5])));
    assert!(node.is_quorum(&BitSet::new()));
    let mut outer = test_node(&[1], 1);
    outer.quorum_set.inner_quorum_sets = vec![QuorumSet::new()];
    assert!(outer.is_quorum(&BitSet::new()));
    assert!(!outer.is_quorum(&bitset(&[0])));
    assert!(outer.is_quorum(&bitset(&[1])));
}

#[test]
fn threshold_zero_with_members_is_satisfied() {
    let node = test_node(&[4], 0);
    assert!(node.is_quorum(&bitset(&[0])));
}

#[test]
fn threshold_beyond_members_is_never_satisfied() {
    let node = test_node(&[0, 1], 3);
    assert!(!node.is_quorum(&bitset(&[0, 1, 2])));
}

#[test]
fn set_with_unknown_node_is_no_quorum() {
    let network = correct_trivial();
    assert!(!network.is_quorum(&bitset(&[0, 1, 7])));
}

#[test]
fn system_without_quorum_has_no_minimal_quorums() {
    let network = Fbas {
        nodes: vec![test_node(&[], 0), test_node(&[], 0)],
    };
    assert!(get_minimal_quorums(&network).is_empty());
    assert!(has_quorum_intersection(&network));
}

#[test]
fn system_without_nodes_has_no_minimal_quorums() {
    let network = Fbas { nodes: vec![] };
    assert!(get_minimal_quorums(&network).is_empty());
}

#[test]
fn singleton_quorum_is_listed_alone() {
    let network = Fbas {
        nodes: vec![test_node(&[0], 1), test_node(&[0, 1], 2)],
    };
    assert_eq!(vec![bitset(&[0])], get_minimal_quorums(&network));
}

#[test]
fn minimal_quorums_are_not_subsets_of_each_other() {
    let network = Fbas {
        nodes: vec![
            test_node(&[0, 1, 2, 3], 3),
            test_node(&[0, 1, 2, 3], 2),
            test_node(&[1, 2], 2),
            test_node(&[0, 3], 1),
        ],
    };
    let quorums = get_minimal_quorums(&network);
    assert!(!quorums.is_empty());
    for (i, a) in quorums.iter().enumerate() {
        assert!(network.is_quorum(a));
        for (j, b) in quorums.iter().enumerate() {
            if i != j {
                assert!(!a.is_subset(b));
            }
        }
    }
    for pair in quorums.windows(2) {
        assert!(pair[0].len() <= pair[1].len());
    }
}

#[test]
fn every_quorum_holds_a_minimal_quorum() {
    let network = broken_trivial();
    let quorums = get_minimal_quorums(&network);
    for mask in 1usize..8 {
        let ids: Vec<usize> = (0..3).filter(|i| mask & (1 << i) != 0).collect();
        let set = bitset(&ids);
        if network.is_quorum(&set) {
            assert!(quorums.iter().any(|q| q.is_subset(&set)));
        }
    }
}

#[test]
fn remove_non_minimal_keeps_first_of_equal_sets_in_size_order() {
    let sets = vec![
        bitset(&[0, 1, 2]),
        bitset(&[3, 4]),
        bitset(&[1, 2]),
        bitset(&[3, 4]),
        bitset(&[5]),
        bitset(&[1, 2, 5]),
    ];
    let expected = vec![bitset(&[5]), bitset(&[3, 4]), bitset(&[1, 2])];
    assert_eq!(expected, remove_non_minimal_node_sets(sets));
}

#[test]
fn intersection_of_lists_with_at_most_one_set() {
    assert!(all_node_sets_interesect(&vec![]));
    assert!(all_node_sets_interesect(&vec![bitset(&[])]));
    assert!(!all_node_sets_interesect(&vec![bitset(&[]), bitset(&[])]));
}

#[test]
fn intersection_does_not_depend_on_order() {
    let a = vec![bitset(&[0, 1]), bitset(&[1, 2]), bitset(&[3])];
    let b = vec![bitset(&[3]), bitset(&[0, 1]), bitset(&[1, 2])];
    assert_eq!(all_node_sets_interesect(&a), all_node_sets_interesect(&b));
    let c = vec![bitset(&[0, 1]), bitset(&[1, 2]), bitset(&[0, 2])];
    let d = vec![bitset(&[0, 2]), bitset(&[0, 1]), bitset(&[1, 2])];
    assert!(all_node_sets_interesect(&c));
    assert!(all_node_sets_interesect(&d));
}

#[test]
fn quorum_set_clone_is_the_same() {
    let mut node = test_node(&[0, 1], 3);
    node.quorum_set.inner_quorum_sets = vec![QuorumSet {
        threshold: 2,
        validators: vec![2, 3, 4],
        inner_quorum_sets: vec![],
    }];
    assert_eq!(node.quorum_set, node.quorum_set.clone());
}

fn nested_node() -> Node {
    let mut node = test_node(&[0, 1], 3);
    node.quorum_set.inner_quorum_sets = vec![
        QuorumSet {
            threshold: 2,
            validators: vec![2, 3, 4],
            inner_quorum_sets: vec![],
        },
        QuorumSet {
            threshold: 2,
            validators: vec![4, 5, 6],
            inner_quorum_sets: vec![QuorumSet {
                threshold: 1,
                validators: vec![0, 6],
                inner_quorum_sets: vec![],
            }],
        },
    ];
    node
}

#[test]
fn satisfaction_is_monotone() {
    let node = nested_node();
    for small in 0usize..128 {
        let ids: Vec<usize> = (0..7).filter(|i| small & (1 << i) != 0).collect();
        if !node.is_quorum(&bitset(&ids)) {
            continue;
        }
        for extra in 0..7 {
            let mut larger = bitset(&ids);
            larger.insert(extra);
            assert!(node.is_quorum(&larger));
        }
    }
}

#[test]
fn nested_quorum_sets_count_as_members() {
    let node = nested_node();
    assert!(!node.is_quorum(&bitset(&[0, 1])));
    assert!(node.is_quorum(&bitset(&[0, 1, 2, 3])));
    assert!(node.is_quorum(&bitset(&[0, 1, 6])));
    assert!(node.is_quorum(&bitset(&[1, 2, 4, 5])));
    assert!(!node.is_quorum(&bitset(&[2, 3, 4, 5])));
    assert!(node.is_quorum(&bitset(&[0, 2, 3, 4, 5])));
}

/// Moves every node to the position that `permutation` gives for it and
/// renames the validators accordingly.
fn renamed(network: &Fbas, permutation: &[usize]) -> Fbas {
    fn rename(quorum_set: &QuorumSet, permutation: &[usize]) -> QuorumSet {
        QuorumSet {
            threshold: quorum_set.threshold,
            validators: quorum_set
                .validators
                .iter()
                .map(|&v| permutation[v])
                .collect(),
            inner_quorum_sets: quorum_set
                .inner_quorum_sets
                .iter()
                .map(|inner| rename(inner, permutation))
                .collect(),
        }
    }
    let mut nodes: Vec<Option<Node>> = vec![None; network.nodes.len()];
    for (i, node) in network.nodes.iter().enumerate() {
        nodes[permutation[i]] = Some(Node {
            public_key: node.public_key.clone(),
            quorum_set: rename(&node.quorum_set, permutation),
        });
    }
    Fbas {
        nodes: nodes.into_iter().map(|node| node.unwrap()).collect(),
    }
}

#[test]
fn renaming_the_nodes_renames_the_minimal_quorums() {
    let mut network = Fbas {
        nodes: vec![
            test_node(&[0, 1, 2, 3], 3),
            test_node(&[0, 1, 2, 3], 2),
            test_node(&[1, 2, 4], 2),
            test_node(&[0, 3], 1),
            test_node(&[4, 2], 2),
        ],
    };
    network.nodes[4].quorum_set.inner_quorum_sets = vec![QuorumSet {
        threshold: 1,
        validators: vec![0, 1],
        inner_quorum_sets: vec![],
    }];
    network.nodes[4].quorum_set.threshold = 3;
    let permutation = [3, 0, 4, 1, 2];
    let plain = get_minimal_quorums(&network);
    assert!(!plain.is_empty());
    let mut expected: Vec<BitSet> = plain
        .iter()
        .map(|quorum| quorum.iter().map(|id| permutation[id]).collect())
        .collect();
    let mut actual = get_minimal_quorums(&renamed(&network, &permutation));
    expected.sort();
    actual.sort();
    assert_eq!(expected, actual);
}

#[test]
fn minimal_quorums_of_equal_size_come_in_lexicographic_order() {
    let network = Fbas {
        nodes: vec![
            test_node(&[0, 1, 2, 3], 2),
            test_node(&[0, 1, 2, 3], 2),
            test_node(&[0, 1, 2, 3], 2),
            test_node(&[0, 1, 2, 3], 2),
        ],
    };
    let expected = vec![
        bitset(&[0, 1]),
        bitset(&[0, 2]),
        bitset(&[0, 3]),
        bitset(&[1, 2]),
        bitset(&[1, 3]),
        bitset(&[2, 3]),
    ];
    assert_eq!(expected, get_minimal_quorums(&network));
    assert!(has_quorum_intersection(&correct_trivial()));
    assert!(!has_quorum_intersection(&network));
}

#[test]
fn identifiers_below_a_number() {
    assert_eq!(vec![0, 1, 2, 3], range_to(4));
    assert!(range_to(0).is_empty());
}

/// The minimal quorums by trying every set of nodes, smaller sets first and
/// sets of equal size in lexicographic order.
fn minimal_quorums_by_enumeration(network: &Fbas) -> Vec<BitSet> {
    let n = network.nodes.len();
    let mut quorums: Vec<Vec<usize>> = (1usize..(1 << n))
        .map(|mask| (0..n).filter(|i| mask & (1 << i) != 0).collect::<Vec<usize>>())
        .filter(|ids| network.is_quorum(&bitset(ids)))
        .collect();
    quorums.sort_by(|a, b| (a.len(), a).cmp(&(b.len(), b)));
    let sets: Vec<BitSet> = quorums.iter().map(|ids| bitset(ids)).collect();
    sets.iter()
        .filter(|q| !sets.iter().any(|other| other != *q && other.is_subset(q)))
        .cloned()
        .collect()
}

#[test]
fn minimal_quorums_agree_with_enumeration_of_all_sets() {
    let mut state: u64 = 0x2545_F491_4F6C_DD1D;
    let mut next = |bound: usize| {
        state ^= state << 13;
        state ^= state >> 7;
        state ^= state << 17;
        (state % (bound as u64)) as usize
    };
    for round in 0..200 {
        let n = 1 + round % 6;
        let mut nodes = Vec::new();
        for _ in 0..n {
            let mut validators: Vec<usize> = (0..n).filter(|_| next(3) != 0).collect();
            if next(4) == 0 {
                validators.reverse();
            }
            let inner = if next(3) == 0 {
                let members: Vec<usize> = (0..n).filter(|_| next(2) == 0).collect();
                let threshold = next(members.len() + 2);
                vec![QuorumSet {
                    threshold,
                    validators: members,
                    inner_quorum_sets: vec![],
                }]
            } else {
                vec![]
            };
            let threshold = next(validators.len() + inner.len() + 2);
            nodes.push(Node {
                public_key: Default::default(),
                quorum_set: QuorumSet {
                    threshold,
                    validators,
                    inner_quorum_sets: inner,
                },
            });
        }
        let network = Fbas { nodes };
        let expected = minimal_quorums_by_enumeration(&network);
        let actual = get_minimal_quorums(&network);
        assert_eq!(expected, actual);
        assert_eq!(
            all_node_sets_interesect(&actual),
            has_quorum_intersection(&network)
        );
        assert_eq!(actual, remove_non_minimal_node_sets(actual.clone()));
    }
}

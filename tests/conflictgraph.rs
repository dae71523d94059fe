use ssim::components::ComponentSetId;
use ssim::conflictgraph::{ConflictCmp, ConflictGraph, ConflictGraphError};
use ssim::systems::{DependencyType, WorldSystem};

fn node(writes: &[usize], reads: &[usize]) -> WorldSystem<usize> {
    node_tagged(0, writes, reads)
}

fn node_tagged(tag: usize, writes: &[usize], reads: &[usize]) -> WorldSystem<usize> {
    let mut s = WorldSystem::new(tag);
    for w in writes {
        s.declare(DependencyType::Write, ComponentSetId(*w));
    }
    for r in reads {
        s.declare(DependencyType::Read, ComponentSetId(*r));
    }
    s
}

fn do_graph(nodes: &[WorldSystem<usize>]) -> Vec<Vec<&WorldSystem<usize>>> {
    let mut graph = ConflictGraph::new();
    for n in nodes.iter() {
        graph.insert(n).unwrap();
    }
    graph.cliques().unwrap()
}

fn validate_conflict_free(cliques: &Vec<Vec<&WorldSystem<usize>>>) {
    for clique in cliques.iter() {
        for (i, a) in clique.iter().enumerate() {
            for (j, b) in clique.iter().enumerate() {
                if i != j {
                    assert!(!a.conflict_cmp(b), "nodes {} and {} of one clique conflict", i, j);
                }
            }
        }
    }
}

fn total(cliques: &Vec<Vec<&WorldSystem<usize>>>) -> usize {
    cliques.iter().map(|c| c.len()).sum()
}

#[test]
fn test_cliques() {
    let nodes = [
        node(&[0], &[0]),
        node(&[1], &[1]),
        node(&[2], &[2]),
        node(&[4], &[4]),
        node(&[5], &[5]),
        node(&[6], &[6]),
        node(&[7], &[7]),
        node(&[8], &[8]),
    ];
    let cliques = do_graph(&nodes);
    validate_conflict_free(&cliques);
    assert_eq!(cliques.len(), 1);

    let nodes = [
        node(&[0], &[0]),
        node(&[0], &[1]),
        node(&[0], &[0]),
        node(&[0], &[1]),
        node(&[0], &[0]),
        node(&[0], &[1]),
        node(&[0], &[0]),
        node(&[0], &[1]),
    ];
    let cliques = do_graph(&nodes);
    validate_conflict_free(&cliques);
    assert_eq!(cliques.len(), 8);

    let nodes = [
        node(&[0], &[0]),
        node(&[1], &[1]),
        node(&[0], &[0]),
        node(&[1], &[1]),
        node(&[5], &[0]),
        node(&[6], &[1]),
        node(&[7], &[0]),
        node(&[8], &[1]),
    ];
    let cliques = do_graph(&nodes);
    validate_conflict_free(&cliques);
    assert_eq!(cliques.len(), 3);

    let nodes = [
        node(&[0], &[0, 1]),
        node(&[1], &[1, 2]),
        node(&[2], &[0, 1, 2, 3]),
        node(&[4], &[1, 2, 3]),
        node(&[2], &[2, 3]),
        node(&[2], &[3]),
        node(&[3], &[1, 3]),
        node(&[4], &[0, 3]),
    ];
    let cliques = do_graph(&nodes);
    validate_conflict_free(&cliques);
    assert_eq!(cliques.len(), 6);
}

#[test]
fn disjoint_nodes_form_one_batch_of_eight() {
    let nodes: Vec<WorldSystem<usize>> = (0..8).map(|i| node_tagged(i, &[i], &[i])).collect();
    let cliques = do_graph(&nodes);
    assert_eq!(cliques.len(), 1);
    assert_eq!(cliques[0].len(), 8);
}

#[test]
fn shared_write_gives_eight_singletons() {
    let nodes: Vec<WorldSystem<usize>> = (0..8)
        .map(|i| if i % 2 == 0 { node_tagged(i, &[0], &[0]) } else { node_tagged(i, &[0], &[1]) })
        .collect();
    let cliques = do_graph(&nodes);
    assert_eq!(cliques.len(), 8);
    for c in cliques.iter() {
        assert_eq!(c.len(), 1);
    }
}

#[test]
fn groups_hold_every_node_once() {
    let nodes: Vec<WorldSystem<usize>> = vec![
        node_tagged(0, &[0], &[0]),
        node_tagged(1, &[1], &[1]),
        node_tagged(2, &[0], &[0]),
        node_tagged(3, &[1], &[1]),
        node_tagged(4, &[5], &[0]),
        node_tagged(5, &[6], &[1]),
        node_tagged(6, &[7], &[0]),
        node_tagged(7, &[8], &[1]),
    ];
    let cliques = do_graph(&nodes);
    let mut tags: Vec<usize> = cliques.iter().flat_map(|c| c.iter().map(|n| *n.system_fn())).collect();
    tags.sort();
    assert_eq!(tags, (0..8).collect::<Vec<usize>>());
    // one group per color, each listing its nodes in insertion order
    let groups: Vec<Vec<usize>> = cliques
        .iter()
        .map(|c| c.iter().map(|n| *n.system_fn()).collect())
        .collect();
    assert_eq!(groups, vec![vec![0, 1], vec![2, 3], vec![4, 5, 6, 7]]);
}

#[test]
fn coloring_separates_every_conflicting_pair() {
    let mut seed: u64 = 12345;
    let mut next = || {
        seed = (492876863u64.wrapping_mul(seed).wrapping_add(15485867)) % (1u64 << 33);
        seed as usize
    };
    for _ in 0..10 {
        let count = next() % 40;
        let mut nodes = Vec::new();
        for t in 0..count {
            let mut writes = Vec::new();
            for _ in 0..next() % 2 {
                writes.push(next() % 30);
            }
            let mut reads = Vec::new();
            for _ in 0..next() % 3 {
                reads.push(next() % 30);
            }
            nodes.push(node_tagged(t, &writes, &reads));
        }
        let cliques = do_graph(&nodes);
        validate_conflict_free(&cliques);
        assert_eq!(total(&cliques), nodes.len());
        for c in cliques.iter() {
            assert!(!c.is_empty());
        }
    }
}

#[test]
fn empty_graph_has_no_groups() {
    let graph: ConflictGraph<&WorldSystem<usize>> = ConflictGraph::new();
    assert_eq!(graph.cliques().unwrap().len(), 0);
}

#[test]
fn error_messages() {
    assert_eq!(ConflictGraphError::InsertFailed.message(), "failed to insert into internal set");
    assert_eq!(ConflictGraphError::NodeDoesntExist.message(), "node doesn't exist");
    assert_eq!(ConflictGraphError::UnresolvedConflict.message(), "unresolved conflict");
    assert_eq!(ConflictGraphError::UncoloredNode.message(), "uncolored node");
}

#[test]
fn units_carry_a_name() {
    let mut s = node(&[1], &[2]);
    assert_eq!(s.name(), "");
    s.set_name(String::from("physics"));
    assert_eq!(s.name(), "physics");
    assert_eq!(s.reads(), &vec![ComponentSetId(2)]);
    assert_eq!(s.writes(), &vec![ComponentSetId(1)]);
    assert!(s.declares(DependencyType::Read, ComponentSetId(2)));
    assert!(!s.declares(DependencyType::Write, ComponentSetId(2)));
    assert!(!s.declare(DependencyType::Read, ComponentSetId(2)));
}

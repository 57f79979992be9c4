use std::rc::Rc;

use bidown::decimal::Decimal;
use bidown::model::{
    Change, Choice, Condition, Graph, Node, NodeConfig, Variable, VariableConfig, Video,
};
use bidown::solve::path::{Solution, Step, StepData};
use bidown::solve::state::{State, StateSet};
use bidown::solve::table::Variables;
use bidown::solve::Error;

fn choice(id: usize, target: usize) -> Choice {
    choice_with(id, target, "", "")
}

fn choice_with(id: usize, target: usize, conditions: &str, changes: &str) -> Choice {
    Choice {
        id,
        name: format!("choice {id}"),
        target,
        conditions: Condition::from_str(conditions).unwrap(),
        changes: Change::from_str(changes).unwrap(),
    }
}

fn node(id: usize, choices: Vec<Choice>) -> Node {
    Node {
        id,
        name: format!("node {id}"),
        config: NodeConfig::Choice {
            duration: 0,
            default: None,
            choices,
        },
    }
}

fn leaf(id: usize) -> Node {
    Node {
        id,
        name: format!("node {id}"),
        config: NodeConfig::Leaf,
    }
}

fn normal(id: &str, default: &str) -> Variable {
    Variable {
        id: id.to_string(),
        name: id.to_string(),
        config: VariableConfig::Normal {
            default: Decimal::from_str(default).unwrap(),
            show: false,
        },
    }
}

fn random(id: &str) -> Variable {
    Variable {
        id: id.to_string(),
        name: id.to_string(),
        config: VariableConfig::Random,
    }
}

fn video(root: usize, nodes: Vec<Node>, variables: Vec<Variable>) -> Video {
    Video {
        id: "BV".to_string(),
        name: String::new(),
        cover: String::new(),
        description: String::new(),
        author: String::new(),
        variables,
        graph: Graph { root, nodes },
    }
}

fn ends(solution: &Solution) -> Vec<usize> {
    solution.0.iter().map(|step| step.node().id).collect()
}

/// The node ids of a path, from its end back to its start.
fn trail(step: &Rc<Step>) -> Vec<usize> {
    let mut ids = Vec::new();
    let mut walk = step.iter();
    while let Some(step) = walk.next() {
        ids.push(step.node().id);
    }
    ids
}

/// The choice ids of a path, from its end back to its start.
fn taken(step: &Rc<Step>) -> Vec<usize> {
    let mut ids = Vec::new();
    let mut walk = step.iter();
    while let Some(step) = walk.next() {
        if let Some(choice) = step.choice() {
            ids.push(choice.id);
        }
    }
    ids
}

fn depth(step: &Rc<Step>) -> usize {
    trail(step).len() - 1
}

const FAR: usize = usize::MAX;

/// 1 -a-> 2, 1 -b-> 3 (needs $v >= 1), 2 -c-> 1 (adds 1 to $v).
fn detour() -> Video {
    video(
        1,
        vec![
            node(
                1,
                vec![choice(10, 2), choice_with(11, 3, "$v>=1", "")],
            ),
            node(2, vec![choice_with(12, 1, "", "$v=$v+1")]),
            leaf(3),
        ],
        vec![normal("$v", "0")],
    )
}

#[test]
fn a_single_node_is_found() {
    let video = video(7, vec![leaf(7)], vec![]);
    let solution = video.solve(FAR, FAR, |_| true, true).unwrap();
    assert_eq!(ends(&solution), vec![7]);
    assert_eq!(trail(&solution.0[0]), vec![7]);
    assert!(solution.0[0].choice().is_none());
}

#[test]
fn a_chain_is_walked_to_its_end() {
    let video = video(
        1,
        vec![node(1, vec![choice(10, 2)]), node(2, vec![choice(20, 3)]), leaf(3)],
        vec![],
    );
    let solution = video.solve(FAR, FAR, |_| true, true).unwrap();
    assert_eq!(ends(&solution), vec![1, 2, 3]);
    assert_eq!(trail(&solution.0[2]), vec![3, 2, 1]);
    assert_eq!(taken(&solution.0[2]), vec![20, 10]);
    assert_eq!(solution.0[2].choice().unwrap().id, 20);
    assert_eq!(solution.0[2].node().name, "node 3");
}

#[test]
fn nodes_are_found_breadth_first() {
    let video = video(
        1,
        vec![
            node(1, vec![choice(10, 2), choice(11, 3)]),
            node(2, vec![choice(20, 4)]),
            node(3, vec![choice(30, 5), choice(31, 4)]),
            leaf(4),
            leaf(5),
        ],
        vec![],
    );
    let solution = video.solve(FAR, FAR, |_| true, true).unwrap();
    assert_eq!(ends(&solution), vec![1, 2, 3, 4, 5]);
    let depths: Vec<usize> = solution.0.iter().map(depth).collect();
    assert_eq!(depths, vec![0, 1, 1, 2, 2]);
    // The first path to 4 goes through 2.
    assert_eq!(trail(&solution.0[3]), vec![4, 2, 1]);
}

#[test]
fn every_node_is_found_once_in_a_graph_without_cycles() {
    // A diamond and a tail: several ways lead to 4 and to 6.
    let video = video(
        1,
        vec![
            node(1, vec![choice(10, 2), choice(11, 3), choice(12, 4)]),
            node(2, vec![choice(20, 4)]),
            node(3, vec![choice(30, 4), choice(31, 5)]),
            node(4, vec![choice(40, 6)]),
            node(5, vec![choice(50, 6)]),
            leaf(6),
        ],
        vec![normal("$v", "0")],
    );
    let solution = video.solve(FAR, FAR, |_| true, false).unwrap();
    let mut found = ends(&solution);
    let depths: Vec<usize> = solution.0.iter().map(depth).collect();
    assert!(depths.windows(2).all(|pair| pair[0] <= pair[1]));
    found.sort();
    assert_eq!(found, vec![1, 2, 3, 4, 5, 6]);
}

#[test]
fn no_path_is_prolonged_beyond_the_greatest_depth() {
    let video = video(
        1,
        vec![node(1, vec![choice(10, 2)]), node(2, vec![choice(20, 3)]), leaf(3)],
        vec![],
    );
    assert_eq!(ends(&video.solve(0, FAR, |_| true, true).unwrap()), vec![1]);
    assert_eq!(ends(&video.solve(1, FAR, |_| true, true).unwrap()), vec![1, 2]);
    assert_eq!(ends(&video.solve(2, FAR, |_| true, true).unwrap()), vec![1, 2, 3]);
}

#[test]
fn a_condition_is_met_by_a_detour() {
    let video = detour();
    let solution = video.solve(FAR, FAR, |_| true, true).unwrap();
    assert_eq!(ends(&solution), vec![1, 2, 3]);
    assert_eq!(trail(&solution.0[2]), vec![3, 1, 2, 1]);
    assert_eq!(taken(&solution.0[2]), vec![11, 12, 10]);
}

#[test]
fn conditions_do_not_count_where_they_are_not_looked_at() {
    let video = detour();
    let solution = video.solve(FAR, FAR, |_| true, false).unwrap();
    assert_eq!(ends(&solution), vec![1, 2, 3]);
    assert_eq!(trail(&solution.0[2]), vec![3, 1]);
}

#[test]
fn before_the_cut_depth_a_node_may_be_come_back_to_in_another_state() {
    let video = detour();
    // The way back from 2 to 1 is taken at depth 1.
    let solution = video.solve(FAR, 2, |_| true, true).unwrap();
    assert_eq!(ends(&solution), vec![1, 2, 3]);
}

#[test]
fn from_the_cut_depth_on_no_node_is_come_back_to() {
    let video = detour();
    let solution = video.solve(FAR, 1, |_| true, true).unwrap();
    assert_eq!(ends(&solution), vec![1, 2]);
    let solution = video.solve(FAR, 0, |_| true, true).unwrap();
    assert_eq!(ends(&solution), vec![1, 2]);
}

#[test]
fn from_the_cut_depth_on_nodes_not_yet_reached_are_still_gone_to() {
    let video = video(
        1,
        vec![node(1, vec![choice(10, 2)]), node(2, vec![choice(20, 3)]), leaf(3)],
        vec![],
    );
    let solution = video.solve(FAR, 0, |_| true, true).unwrap();
    assert_eq!(ends(&solution), vec![1, 2, 3]);
}

#[test]
fn a_condition_on_a_random_variable_always_holds() {
    let nodes = || vec![node(1, vec![choice_with(10, 2, "$r>=100", "")]), leaf(2)];
    let with_random = video(1, nodes(), vec![random("$r")]);
    let solution = with_random.solve(FAR, FAR, |_| true, true).unwrap();
    assert_eq!(ends(&solution), vec![1, 2]);
    // The same condition on a normal variable keeps the choice shut.
    let with_normal = video(1, nodes(), vec![normal("$r", "0")]);
    let solution = with_normal.solve(FAR, FAR, |_| true, true).unwrap();
    assert_eq!(ends(&solution), vec![1]);
}

#[test]
fn a_change_to_a_random_variable_changes_no_state() {
    // 1 loops to itself and adds to the variable; 2 is behind a condition on
    // another variable that nothing changes.
    let nodes = || {
        vec![
            node(
                1,
                vec![
                    choice_with(10, 1, "", "$r=$r+1"),
                    choice_with(11, 2, "$r>=1", ""),
                ],
            ),
            leaf(2),
        ]
    };
    // As a normal variable, three rounds of the loop open the way to 2.
    let with_normal = video(1, nodes(), vec![normal("$r", "-2")]);
    let solution = with_normal.solve(FAR, FAR, |_| true, true).unwrap();
    assert_eq!(ends(&solution), vec![1, 2]);
    assert_eq!(trail(&solution.0[1]), vec![2, 1, 1, 1, 1]);
    // As a random variable, the loop leads back to the same state and is
    // given up at once; the condition holds from the start.
    let with_random = video(1, nodes(), vec![random("$r")]);
    let solution = with_random.solve(FAR, FAR, |_| true, true).unwrap();
    assert_eq!(ends(&solution), vec![1, 2]);
    assert_eq!(trail(&solution.0[1]), vec![2, 1]);
}

#[test]
fn a_state_seen_before_is_not_gone_on_from() {
    // Without changes, the cycle comes back to a state seen before.
    let video = video(
        1,
        vec![node(1, vec![choice(10, 2)]), node(2, vec![choice(20, 1)])],
        vec![normal("$v", "0")],
    );
    let solution = video.solve(FAR, FAR, |_| true, true).unwrap();
    assert_eq!(ends(&solution), vec![1, 2]);
}

#[test]
fn states_in_one_bucket_are_one_state() {
    // A hundredth more is the same bucket: the loop is given up at once, and
    // the node behind the condition is never reached.
    let small = video(
        1,
        vec![
            node(
                1,
                vec![
                    choice_with(10, 1, "", "$v=$v+0.01"),
                    choice_with(11, 2, "$v>=1", ""),
                ],
            ),
            leaf(2),
        ],
        vec![normal("$v", "0")],
    );
    let solution = small.solve(FAR, FAR, |_| true, true).unwrap();
    assert_eq!(ends(&solution), vec![1]);
    // Five hundredths more is another bucket every time.
    let large = video(
        1,
        vec![
            node(
                1,
                vec![
                    choice_with(10, 1, "", "$v=$v+0.05"),
                    choice_with(11, 2, "$v>=1", ""),
                ],
            ),
            leaf(2),
        ],
        vec![normal("$v", "0")],
    );
    let solution = large.solve(FAR, FAR, |_| true, true).unwrap();
    assert_eq!(ends(&solution), vec![1, 2]);
    assert_eq!(depth(&solution.0[1]), 21);
}

#[test]
fn conditions_compare_whole_parts() {
    let open = |conditions: &str, default: &str| {
        let video = video(
            1,
            vec![node(1, vec![choice_with(10, 2, conditions, "")]), leaf(2)],
            vec![normal("$v", default)],
        );
        ends(&video.solve(FAR, FAR, |_| true, true).unwrap()) == vec![1, 2]
    };
    assert!(open("$v==1.9", "1.2"));
    assert!(!open("$v!=1.9", "1.2"));
    assert!(!open("$v>=1", "0.99"));
    assert!(open("$v>=1", "1"));
    assert!(open("$v<=0.5", "0.9"));
    assert!(!open("$v<1.9", "1.2"));
    assert!(open("$v<2", "1.2"));
    assert!(!open("$v>1.1", "1.9"));
    assert!(open("$v>1.1", "2"));
    assert!(open("$v==0", "-0.5"));
    assert!(open("$v<=-1", "-1.5"));
    assert!(!open("$v<-1", "-1.5"));
}

#[test]
fn all_conditions_of_a_choice_must_hold() {
    let video = video(
        1,
        vec![
            node(
                1,
                vec![
                    choice_with(10, 2, "$a>=1 && $b>=1", ""),
                    choice_with(11, 3, "$a>=1 && $b<1", ""),
                ],
            ),
            leaf(2),
            leaf(3),
        ],
        vec![normal("$a", "1"), normal("$b", "0")],
    );
    let solution = video.solve(FAR, FAR, |_| true, true).unwrap();
    assert_eq!(ends(&solution), vec![1, 3]);
}

#[test]
fn changes_are_applied_in_order() {
    let video = video(
        1,
        vec![
            node(1, vec![choice_with(10, 2, "", "$v=5;$v=$v+1;$w=$w-2")]),
            node(
                2,
                vec![
                    choice_with(20, 3, "$v==6 && $w==-2", ""),
                    choice_with(21, 4, "$v==5", ""),
                ],
            ),
            leaf(3),
            leaf(4),
        ],
        vec![normal("$v", "0"), normal("$w", "0")],
    );
    let solution = video.solve(FAR, FAR, |_| true, true).unwrap();
    assert_eq!(ends(&solution), vec![1, 2, 3]);
}

#[test]
fn only_admitted_choices_are_taken() {
    let video = video(
        1,
        vec![node(1, vec![choice(10, 2), choice(11, 3)]), leaf(2), leaf(3)],
        vec![],
    );
    let solution = video.solve(FAR, FAR, |c| c.id != 10, true).unwrap();
    assert_eq!(ends(&solution), vec![1, 3]);
    let solution = video.solve(FAR, FAR, |_| false, true).unwrap();
    assert_eq!(ends(&solution), vec![1]);
}

#[test]
fn a_search_twice_over_gives_the_same_paths() {
    let video = detour();
    let first = video.solve(FAR, FAR, |_| true, true).unwrap();
    let second = video.solve(FAR, FAR, |_| true, true).unwrap();
    assert_eq!(ends(&first), ends(&second));
    for (a, b) in first.0.iter().zip(second.0.iter()) {
        assert_eq!(trail(a), trail(b));
        assert_eq!(taken(a), taken(b));
    }
}

#[test]
fn a_root_that_the_graph_does_not_hold() {
    let rootless = video(9, vec![leaf(1)], vec![]);
    assert!(matches!(
        rootless.solve(FAR, FAR, |_| true, true),
        Err(Error::NodeNotFound(9))
    ));
    // The root is looked for before the variables are.
    let rootless = video_with_repeat(9);
    assert!(matches!(
        rootless.solve(FAR, FAR, |_| true, true),
        Err(Error::NodeNotFound(9))
    ));
}

fn video_with_repeat(root: usize) -> Video {
    video(
        root,
        vec![leaf(1)],
        vec![normal("$a", "0"), normal("$b", "0"), random("$a"), random("$b")],
    )
}

#[test]
fn a_variable_declared_twice() {
    let repeated = video_with_repeat(1);
    match repeated.solve(FAR, FAR, |_| true, true) {
        Err(Error::RepeatVariable(id)) => assert_eq!(id, "$a"),
        _ => panic!("the search should fail"),
    }
    for variables in [
        vec![normal("$a", "0"), normal("$a", "1")],
        vec![random("$a"), random("$a")],
        vec![random("$a"), normal("$a", "1")],
        vec![normal("$a", "0"), random("$a")],
    ] {
        let video = video(1, vec![leaf(1)], variables);
        match video.solve(FAR, FAR, |_| true, true) {
            Err(Error::RepeatVariable(id)) => assert_eq!(id, "$a"),
            _ => panic!("the search should fail"),
        }
    }
}

#[test]
fn a_choice_that_leads_nowhere() {
    let video = video(
        1,
        vec![node(1, vec![choice(10, 2), choice(11, 42)]), leaf(2), leaf(3)],
        vec![],
    );
    assert!(matches!(
        video.solve(FAR, FAR, |_| true, true),
        Err(Error::NodeNotFound(42))
    ));
    // A choice that is not taken does no harm.
    let solution = video.solve(FAR, FAR, |c| c.id != 11, true).unwrap();
    assert_eq!(ends(&solution), vec![1, 2]);
    let solution = video.solve(0, FAR, |_| true, true).unwrap();
    assert_eq!(ends(&solution), vec![1]);
}

#[test]
fn a_condition_on_a_variable_that_is_not_declared() {
    let video = video(
        1,
        vec![node(1, vec![choice_with(10, 2, "$x>=1", "")]), leaf(2), leaf(3)],
        vec![normal("$v", "0")],
    );
    match video.solve(FAR, FAR, |_| true, true) {
        Err(Error::VariableNotFound(id)) => assert_eq!(id, "$x"),
        _ => panic!("the search should fail"),
    }
    // Where conditions are not looked at, the condition does no harm.
    let solution = video.solve(FAR, FAR, |_| true, false).unwrap();
    assert_eq!(ends(&solution), vec![1, 2]);
}

#[test]
fn conditions_behind_one_that_fails_are_not_looked_at() {
    let video = video(
        1,
        vec![
            node(1, vec![choice_with(10, 2, "$v>=1 && $x>=1", "")]),
            leaf(2),
            leaf(3),
        ],
        vec![normal("$v", "0")],
    );
    let solution = video.solve(FAR, FAR, |_| true, true).unwrap();
    assert_eq!(ends(&solution), vec![1]);
}

#[test]
fn a_change_to_a_variable_that_is_not_declared() {
    let video = video(
        1,
        vec![node(1, vec![choice_with(10, 2, "", "$x=1")]), leaf(2), leaf(3)],
        vec![normal("$v", "0")],
    );
    for variable in [true, false] {
        match video.solve(FAR, FAR, |_| true, variable) {
            Err(Error::VariableNotFound(id)) => assert_eq!(id, "$x"),
            _ => panic!("the search should fail"),
        }
    }
}

#[test]
fn a_search_is_over_once_every_node_has_a_path() {
    // The choice of 2 leads nowhere, but 2 is the last node to be found.
    let video = video(
        1,
        vec![node(1, vec![choice(10, 2)]), node(2, vec![choice(20, 42)])],
        vec![],
    );
    let solution = video.solve(FAR, FAR, |_| true, true).unwrap();
    assert_eq!(ends(&solution), vec![1, 2]);
}

#[test]
fn of_two_nodes_with_one_id_the_later_counts() {
    let video = video(
        1,
        vec![node(1, vec![choice(10, 2)]), leaf(2), node(2, vec![choice(20, 3)]), leaf(3)],
        vec![],
    );
    let solution = video.solve(FAR, FAR, |_| true, true).unwrap();
    assert_eq!(ends(&solution), vec![1, 2, 3]);
    let map = video.graph.nodes_map();
    assert_eq!(map.len(), 3);
    assert!(!map[&2].is_leaf());
}

#[test]
fn the_paths_to_endings() {
    let video = video(
        1,
        vec![
            node(1, vec![choice(10, 2), choice(11, 3)]),
            leaf(2),
            node(3, vec![choice(30, 4)]),
            leaf(4),
        ],
        vec![],
    );
    let solution = video.solve(FAR, FAR, |_| true, true).unwrap();
    let leaves: Vec<usize> = solution
        .iter_leaf()
        .iter()
        .map(|step| step.node().id)
        .collect();
    assert_eq!(leaves, vec![2, 4]);
}

#[test]
fn a_path_is_walked_from_its_end() {
    let video = video(
        1,
        vec![node(1, vec![choice(10, 2)]), node(2, vec![choice(20, 3)]), leaf(3)],
        vec![],
    );
    let solution = video.solve(FAR, FAR, |_| true, true).unwrap();
    let last = solution.0[2].clone();
    let mut walk = last.clone().into_iter();
    let mut ids = Vec::new();
    while let Some(step) = walk.next() {
        ids.push((step.node().id, step.choice().map(|c| c.id)));
    }
    assert_eq!(ids, vec![(3, Some(20)), (2, Some(10)), (1, None)]);
    assert!(walk.next().is_none());
    // Paths that begin alike share their beginning.
    let second = solution.0[1].clone();
    let mut walk = last.iter();
    walk.next();
    assert!(Rc::ptr_eq(&walk.next().unwrap(), &second));
}

#[test]
fn what_is_written_down_of_a_path() {
    let video = video(
        1,
        vec![node(1, vec![choice(10, 2)]), node(2, vec![choice(20, 3)]), leaf(3)],
        vec![],
    );
    let solution = video.solve(FAR, FAR, |_| true, true).unwrap();
    let records = solution[2].records();
    assert_eq!(
        records,
        vec![
            StepData {
                id: 3,
                name: "node 3",
                edge: Some(20),
                choice: Some("choice 20"),
            },
            StepData {
                id: 2,
                name: "node 2",
                edge: Some(10),
                choice: Some("choice 10"),
            },
            StepData {
                id: 1,
                name: "node 1",
                edge: None,
                choice: None,
            },
        ]
    );
    assert_eq!(StepData::from(solution[0].as_ref()), records[2]);
}

#[test]
fn a_solution_is_a_list_of_paths() {
    let video = video(
        1,
        vec![node(1, vec![choice(10, 2)]), leaf(2)],
        vec![],
    );
    let solution = video.solve(FAR, FAR, |_| true, true).unwrap();
    assert_eq!(solution.len(), 2);
    assert_eq!(solution[1].node().id, 2);
    assert_eq!(solution.iter().count(), 2);
    assert!(!solution.is_empty());
}

#[test]
fn nodes_by_id() {
    let graph = Graph {
        root: 1,
        nodes: vec![node(1, vec![]), leaf(2), leaf(3)],
    };
    let map = graph.nodes_map();
    assert_eq!(map.len(), 3);
    assert_eq!(map[&1].name, "node 1");
    let map = graph.nodes_map_filtered(|n| n.is_leaf());
    assert_eq!(map.len(), 2);
    assert!(!map.contains_key(&1));
    assert!(map.contains_key(&2));
    assert!(map.contains_key(&3));
}

#[test]
fn the_table_of_variables() {
    let decls = vec![normal("$a", "1.5"), random("$r"), normal("$b", "-3")];
    let mut table = Variables::new(&decls).unwrap();
    assert_eq!(table.values, vec![1_500_000, 0, -3_000_000]);
    let cond = |text: &str| Condition::from_str(text).unwrap().remove(0);
    let change = |text: &str| Change::from_str(text).unwrap().remove(0);
    assert!(table.check(&cond("$a>=1")).unwrap());
    assert!(!table.check(&cond("$a>=2")).unwrap());
    assert!(table.check(&cond("$r==12345")).unwrap());
    assert!(table.check(&cond("$b<-2")).unwrap());
    match table.check(&cond("$c<1")) {
        Err(Error::VariableNotFound(id)) => assert_eq!(id, "$c"),
        _ => panic!("the condition should be in error"),
    }
    table.change(&change("$a=$a+0.5")).unwrap();
    assert_eq!(table.values, vec![2_000_000, 0, -3_000_000]);
    table.change(&change("$b=7")).unwrap();
    assert_eq!(table.values, vec![2_000_000, 0, 7_000_000]);
    table.change(&change("$r=7")).unwrap();
    table.change(&change("$r=$r+1")).unwrap();
    assert_eq!(table.values, vec![2_000_000, 0, 7_000_000]);
    match table.change(&change("$c=1")) {
        Err(Error::VariableNotFound(id)) => assert_eq!(id, "$c"),
        _ => panic!("the change should fail"),
    }
    assert_eq!(table.values, vec![2_000_000, 0, 7_000_000]);
    let copy = table.branch();
    assert_eq!(copy.values, table.values);
    assert!(table
        .check_all(&Condition::from_str("$a>=2 && $b==7 && $r<0").unwrap())
        .unwrap());
    assert!(!table
        .check_all(&Condition::from_str("$a>=3 && $c==7").unwrap())
        .unwrap());
    assert!(table
        .check_all(&Condition::from_str("$a>=2 && $c==7").unwrap())
        .is_err());
    assert!(table
        .change_all(&Change::from_str("$a=0;$c=1;$b=0").unwrap())
        .is_err());
    assert_eq!(table.values, vec![0, 0, 7_000_000]);
}

#[test]
fn a_sum_out_of_range_stays_at_the_bound() {
    let decls = vec![normal("$a", "9223372036854")];
    let mut table = Variables::new(&decls).unwrap();
    let changes = Change::from_str("$a=$a+1;$a=$a+1").unwrap();
    table.change_all(&changes).unwrap();
    assert_eq!(table.values, vec![i64::MAX]);
}

#[test]
fn states_are_told_apart_by_node_and_buckets() {
    let decls = vec![normal("$a", "1"), random("$r"), normal("$b", "0.05")];
    let table = Variables::new(&decls).unwrap();
    let state = State::new(3, &table);
    assert_eq!(state.node, 3);
    assert_eq!(state.variables, vec![24, 0, 1]);
    let mut set = StateSet::new();
    assert!(!set.contains(&state));
    assert!(set.insert(State::new(3, &table)));
    assert!(set.contains(&state));
    assert!(!set.insert(State::new(3, &table)));
    assert!(set.insert(State::new(4, &table)));
    let mut moved = table.branch();
    moved
        .change_all(&Change::from_str("$a=$a+0.01").unwrap())
        .unwrap();
    // 1.01 * 24.99 = 25.2399: another bucket.
    assert!(set.insert(State::new(3, &moved)));
    let mut same = table.branch();
    same.change_all(&Change::from_str("$b=$b+0.01;$r=5").unwrap())
        .unwrap();
    // 0.06 * 24.99 = 1.4994: the same bucket.
    assert!(!set.insert(State::new(3, &same)));
    assert!(state.same(&State::new(3, &same)));
    assert!(!state.same(&State::new(3, &moved)));
}

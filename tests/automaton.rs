use mao::action::{IdString, MaoInteraction, PlayerAction};
use mao::automaton::{Automaton, MaoInteractionResult, NodeState};
use mao::error::Error;

fn step(action: PlayerAction) -> NodeState {
    NodeState::new(MaoInteraction::new(None, action), None, None)
}

fn leaf(action: PlayerAction, func: usize, rule: Option<&str>) -> NodeState {
    NodeState::new(MaoInteraction::new(None, action), Some(func), rule.map(|r| r.to_string()))
}

fn generate_path_hard() -> Vec<Vec<NodeState>> {
    vec![
        vec![step(PlayerAction::SelectCard), leaf(PlayerAction::SelectPlayableStack, 0, None)],
        vec![leaf(PlayerAction::SelectDrawableStack, 0, None)],
    ]
}

fn actions_to_add() -> Vec<Vec<NodeState>> {
    let rule = Some("rule".to_string());
    vec![
        vec![
            NodeState::new(MaoInteraction::new(None, PlayerAction::SelectCard), None, rule.clone()),
            NodeState::new(MaoInteraction::new(None, PlayerAction::SelectCard), None, rule.clone()),
            NodeState::new(MaoInteraction::new(None, PlayerAction::SelectDiscardableStack), Some(0), rule.clone()),
        ],
        vec![NodeState::new(MaoInteraction::new(None, PlayerAction::SelectPlayableStack), Some(0), rule.clone())],
    ]
}

fn tokens(v: &[MaoInteraction]) -> Vec<PlayerAction> {
    v.iter().map(|i| i.action).collect()
}

#[test]
fn extend_automaton() {
    let initial_actions = generate_path_hard();
    let mut modified_actions = generate_path_hard();
    modified_actions.extend(actions_to_add());

    let mut init_auto = Automaton::from_iter(&initial_actions).unwrap();
    init_auto.extend(&actions_to_add()).unwrap();

    let other = Automaton::from_iter(&modified_actions).unwrap();
    assert!(init_auto.same_structure(&other));
    assert!(other.same_structure(&init_auto));
}

#[test]
fn remove_automaton_path() {
    let initial_actions = generate_path_hard();
    let init_auto = Automaton::from_iter(&initial_actions).unwrap();

    let mut other_act = generate_path_hard();
    other_act.extend(actions_to_add());
    let mut other_auto = Automaton::from_iter(&other_act).unwrap();
    other_auto.remove_paths(&actions_to_add()).unwrap();

    assert!(init_auto.same_structure(&other_auto));
    assert!(other_auto.same_structure(&init_auto));
}

#[test]
fn invert_automaton_path() {
    let initial_actions = actions_to_add();
    let mut inverted_actions = actions_to_add();
    inverted_actions.reverse();

    let init_auto = Automaton::from_iter(&initial_actions).unwrap();
    let inv_auto = Automaton::from_iter(&inverted_actions).unwrap();

    assert!(init_auto.same_structure(&inv_auto));
}

#[test]
fn different_automata_are_not_structurally_equal() {
    let a = Automaton::from_iter(&generate_path_hard()).unwrap();
    let mut paths = generate_path_hard();
    paths.extend(actions_to_add());
    let b = Automaton::from_iter(&paths).unwrap();
    assert!(!a.same_structure(&b));
    let c = Automaton::from_iter(&vec![vec![leaf(PlayerAction::SelectDrawableStack, 1, None)]]).unwrap();
    let d = Automaton::from_iter(&vec![vec![leaf(PlayerAction::SelectDrawableStack, 2, None)]]).unwrap();
    assert!(!c.same_structure(&d));
}

#[test]
fn replaying_disjoint_paths_resolves_each_leaf() {
    let paths = vec![
        vec![step(PlayerAction::SelectCard), leaf(PlayerAction::SelectPlayableStack, 1, None)],
        vec![leaf(PlayerAction::SelectDrawableStack, 2, None)],
        vec![step(PlayerAction::SelectPlayer), step(PlayerAction::SelectRule), leaf(PlayerAction::DoAction, 3, None)],
    ];
    let mut auto = Automaton::from_iter(&paths).unwrap();
    for (n, path) in paths.iter().enumerate() {
        for (i, s) in path.iter().enumerate() {
            let r = auto.on_action(MaoInteraction::new(None, s.action.action));
            if i + 1 < path.len() {
                assert!(matches!(r, MaoInteractionResult::AdvancedNextState));
            } else {
                match r {
                    MaoInteractionResult::Leaf { interactions, func } => {
                        assert_eq!(func, n + 1);
                        let expected: Vec<PlayerAction> = path.iter().map(|p| p.action.action).collect();
                        assert_eq!(tokens(&interactions), expected);
                    }
                    _ => panic!("expected a leaf"),
                }
            }
        }
    }
}

#[test]
fn leaf_sequence_carries_payloads() {
    let paths = vec![vec![step(PlayerAction::SelectCard), leaf(PlayerAction::SelectPlayableStack, 4, None)]];
    let mut auto = Automaton::from_iter(&paths).unwrap();
    let r = auto.on_action(MaoInteraction::new(Some(IdString::Index(3)), PlayerAction::SelectCard));
    assert!(matches!(r, MaoInteractionResult::AdvancedNextState));
    let executed = auto.get_executed_mao_interactions();
    assert_eq!(executed.len(), 1);
    assert!(matches!(executed[0].data, Some(IdString::Index(3))));
    let r = auto.on_action(MaoInteraction::new(Some(IdString::Index(0)), PlayerAction::SelectPlayableStack));
    match r {
        MaoInteractionResult::Leaf { interactions, func } => {
            assert_eq!(func, 4);
            assert!(matches!(interactions[0].data, Some(IdString::Index(3))));
            assert!(matches!(interactions[1].data, Some(IdString::Index(0))));
        }
        _ => panic!("expected a leaf"),
    }
    assert_eq!(auto.previous_interactions().len(), 2);
    assert!(auto.current_state().is_none());
}

#[test]
fn unknown_token_finds_no_interaction() {
    let mut auto = Automaton::from_iter(&generate_path_hard()).unwrap();
    let r = auto.on_action(MaoInteraction::new(None, PlayerAction::SelectRule));
    assert!(matches!(r, MaoInteractionResult::NoInteractionFound));
}

fn ambiguous() -> Automaton {
    // the branch `SelectCard` is inserted before the leaf with the same token
    let paths = vec![
        vec![step(PlayerAction::SelectCard), leaf(PlayerAction::SelectPlayableStack, 1, None)],
        vec![leaf(PlayerAction::SelectCard, 2, Some("quick"))],
    ];
    Automaton::from_iter(&paths).unwrap()
}

#[test]
fn ambiguous_candidates_put_the_branch_last() {
    let mut auto = ambiguous();
    let r = auto.on_action(MaoInteraction::new(None, PlayerAction::SelectCard));
    match r {
        MaoInteractionResult::Nodes(nodes) => {
            assert_eq!(nodes.len(), 2);
            assert_eq!(nodes[0].func, Some(2));
            assert!(nodes[1].func.is_none());
        }
        _ => panic!("expected candidates"),
    }
}

#[test]
fn out_of_range_disambiguation_index_is_an_error() {
    let mut auto = ambiguous();
    let r = auto.on_action_indexed(MaoInteraction::new(None, PlayerAction::SelectCard), 2);
    assert!(matches!(r, Err(Error::InvalidInteractionIndex { index: 2, len: 2 })));
    assert!(auto.current_state().is_none());
}

#[test]
fn disambiguation_picks_leaf_or_enters_branch() {
    let mut auto = ambiguous();
    let r = auto.on_action_indexed(MaoInteraction::new(None, PlayerAction::SelectCard), 0).unwrap();
    match r {
        MaoInteractionResult::Leaf { interactions, func } => {
            assert_eq!(func, 2);
            assert_eq!(tokens(&interactions), vec![PlayerAction::SelectCard]);
        }
        _ => panic!("expected a leaf"),
    }
    let r = auto.on_action_indexed(MaoInteraction::new(None, PlayerAction::SelectCard), 1).unwrap();
    assert!(matches!(r, MaoInteractionResult::AdvancedNextState));
    let cur = auto.current_state().unwrap();
    assert_eq!(cur.action.action, PlayerAction::SelectCard);
    assert!(cur.func.is_none());
}

#[test]
fn index_without_ambiguity_is_an_error() {
    let mut auto = Automaton::from_iter(&generate_path_hard()).unwrap();
    let r = auto.on_action_indexed(MaoInteraction::new(None, PlayerAction::SelectRule), 0);
    assert!(matches!(r, Err(Error::OnMaoInteraction(_))));
}

#[test]
fn cancel_last_goes_back_one_step() {
    let paths = vec![vec![step(PlayerAction::SelectPlayer), step(PlayerAction::SelectRule), leaf(PlayerAction::DoAction, 3, None)]];
    let mut auto = Automaton::from_iter(&paths).unwrap();
    assert!(auto.cancel_last().is_none());
    auto.on_action(MaoInteraction::new(None, PlayerAction::SelectPlayer));
    // the parent is the root: nothing to undo
    assert!(auto.cancel_last().is_none());
    assert_eq!(auto.current_state().unwrap().action.action, PlayerAction::SelectPlayer);
    auto.on_action(MaoInteraction::new(None, PlayerAction::SelectRule));
    let left = auto.cancel_last().unwrap();
    assert_eq!(left.action.action, PlayerAction::SelectRule);
    assert_eq!(auto.current_state().unwrap().action.action, PlayerAction::SelectPlayer);
}

#[test]
fn path_exists_checks_all_but_the_last_token() {
    let auto = Automaton::from_iter(&generate_path_hard()).unwrap();
    assert!(auto.path_exists(&vec![PlayerAction::SelectCard, PlayerAction::SelectPlayableStack]));
    assert!(auto.path_exists(&vec![PlayerAction::SelectCard, PlayerAction::DoAction]));
    assert!(!auto.path_exists(&vec![PlayerAction::SelectPlayer, PlayerAction::DoAction]));
    assert!(auto.path_exists(&vec![]));
}

#[test]
fn duplicate_leaf_is_refused() {
    let mut auto = Automaton::from_iter(&generate_path_hard()).unwrap();
    let r = auto.extend(&vec![vec![leaf(PlayerAction::SelectDrawableStack, 9, None)]]);
    assert!(matches!(r, Err(Error::DuplicateLeaf)));
    let r = auto.extend(&vec![vec![leaf(PlayerAction::SelectDrawableStack, 9, Some("other"))]]);
    assert!(r.is_ok());
}

#[test]
fn malformed_paths_are_refused() {
    let mut auto = Automaton::new();
    assert!(matches!(auto.extend(&vec![vec![]]), Err(Error::InvalidActionPath)));
    assert!(matches!(auto.extend(&vec![vec![step(PlayerAction::SelectCard)]]), Err(Error::InvalidActionPath)));
    let bad = vec![vec![leaf(PlayerAction::SelectCard, 1, None), leaf(PlayerAction::DoAction, 1, None)]];
    assert!(matches!(Automaton::from_iter(&bad), Err(Error::InvalidActionPath)));
    assert!(matches!(auto.remove_paths(&bad), Err(Error::InvalidActionPath)));
}

#[test]
fn removing_keeps_shared_branches() {
    let mut paths = generate_path_hard();
    paths.push(vec![step(PlayerAction::SelectCard), leaf(PlayerAction::SelectDiscardableStack, 5, None)]);
    let mut auto = Automaton::from_iter(&paths).unwrap();
    auto.remove_paths(&vec![vec![step(PlayerAction::SelectCard), leaf(PlayerAction::SelectDiscardableStack, 5, None)]])
        .unwrap();
    let r = auto.on_action(MaoInteraction::new(None, PlayerAction::SelectCard));
    assert!(matches!(r, MaoInteractionResult::AdvancedNextState));
    let r = auto.on_action(MaoInteraction::new(None, PlayerAction::SelectDiscardableStack));
    assert!(matches!(r, MaoInteractionResult::NoInteractionFound));
    let r = auto.on_action(MaoInteraction::new(None, PlayerAction::SelectPlayableStack));
    assert!(matches!(r, MaoInteractionResult::Leaf { func: 0, .. }));
}

#[test]
fn executed_actions_follow_the_cursor() {
    let paths = vec![vec![step(PlayerAction::SelectPlayer), step(PlayerAction::SelectRule), leaf(PlayerAction::DoAction, 3, None)]];
    let mut auto = Automaton::from_iter(&paths).unwrap();
    auto.on_action(MaoInteraction::new(None, PlayerAction::SelectPlayer));
    auto.on_action(MaoInteraction::new(None, PlayerAction::SelectRule));
    let done = auto.get_executed_actions();
    assert_eq!(done.len(), 2);
    assert_eq!(done[0].action.action, PlayerAction::SelectPlayer);
    assert_eq!(done[1].action.action, PlayerAction::SelectRule);
    auto.reset();
    assert!(auto.get_executed_actions().is_empty());
}

#[test]
fn insertion_order_does_not_change_structure() {
    let paths = vec![
        vec![step(PlayerAction::SelectCard), leaf(PlayerAction::SelectPlayableStack, 1, None)],
        vec![step(PlayerAction::SelectCard), step(PlayerAction::SelectCard), leaf(PlayerAction::SelectDiscardableStack, 2, Some("r"))],
        vec![leaf(PlayerAction::SelectCard, 3, Some("quick"))],
        vec![step(PlayerAction::SelectPlayer), leaf(PlayerAction::DoAction, 4, None)],
    ];
    let base = Automaton::from_iter(&paths).unwrap();
    let orders = [[3, 2, 1, 0], [1, 3, 0, 2], [2, 0, 3, 1]];
    for order in orders.iter() {
        let permuted: Vec<Vec<NodeState>> = order.iter().map(|&i| paths[i].clone()).collect();
        let other = Automaton::from_iter(&permuted).unwrap();
        assert!(base.same_structure(&other));
        assert!(other.same_structure(&base));
    }
}

#[test]
fn extend_then_remove_restores_structure() {
    let base_paths = vec![
        vec![step(PlayerAction::SelectCard), leaf(PlayerAction::SelectPlayableStack, 1, None)],
        vec![step(PlayerAction::SelectPlayer), leaf(PlayerAction::DoAction, 4, None)],
    ];
    let added = vec![
        vec![step(PlayerAction::SelectCard), step(PlayerAction::SelectRule), leaf(PlayerAction::DoAction, 5, Some("r"))],
        vec![step(PlayerAction::SelectPlayer), leaf(PlayerAction::DoAction, 6, Some("r"))],
        vec![leaf(PlayerAction::SelectDrawableStack, 7, Some("r"))],
    ];
    let before = Automaton::from_iter(&base_paths).unwrap();
    let mut a = Automaton::from_iter(&base_paths).unwrap();
    a.extend(&added).unwrap();
    assert!(!a.same_structure(&before));
    a.remove_paths(&added).unwrap();
    assert!(a.same_structure(&before));
    assert!(before.same_structure(&a));
}

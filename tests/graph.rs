use tictactoe::game::{Action, GameState, Player, Progress};
use tictactoe::code::state_code;
use tictactoe::graph::{explore, find, ordered_nodes, Registry};
use tictactoe::outcome::GameStateInfo;

fn empty_board() -> GameState {
    GameState { board: [[None; 3]; 3], turn: Player::You }
}

fn parse(rows: [&str; 3], turn: Player) -> GameState {
    let mut board = [[None; 3]; 3];
    for r in 0..3 {
        for (c, ch) in rows[r].chars().enumerate() {
            board[r][c] = match ch {
                'X' => Some(Player::You),
                'O' => Some(Player::Opponent),
                _ => None,
            };
        }
    }
    GameState { board, turn }
}

fn label(reg: &Registry, s: &GameState) -> Option<GameStateInfo> {
    let i = find(reg, s).expect("registered");
    reg.nodes[i].info
}

// The decision table, applied over the whole game tree, gives "never win"
// for the opening position, and for each position one move later.
#[test]
fn empty_board_label() {
    let reg = explore(empty_board());
    assert_eq!(reg.nodes[0].state, empty_board());
    assert_eq!(reg.nodes[0].info, Some(GameStateInfo::DL));
    let first_moves: Vec<_> = reg.nodes[0]
        .actions_from_here
        .iter()
        .map(|(_, c)| reg.nodes[*c].info)
        .collect();
    assert_eq!(first_moves.len(), 9);
    assert!(first_moves.iter().all(|l| *l == Some(GameStateInfo::DL)));
}

#[test]
fn node_and_terminal_counts() {
    let reg = explore(empty_board());
    assert_eq!(reg.nodes.len(), 5478);
    let terminal = reg
        .nodes
        .iter()
        .filter(|n| n.state.progress() != Progress::Ongoing)
        .count();
    assert_eq!(terminal, 958);
}

#[test]
fn every_node_labeled_and_runs_agree() {
    let a = explore(empty_board());
    let b = explore(empty_board());
    assert!(a.nodes.iter().all(|n| n.info.is_some()));
    let oa = ordered_nodes(&a);
    let ob = ordered_nodes(&b);
    assert_eq!(oa.len(), a.nodes.len());
    assert_eq!(oa.len(), ob.len());
    for (i, j) in oa.iter().zip(ob.iter()) {
        assert_eq!(a.nodes[*i].state, b.nodes[*j].state);
        assert_eq!(a.nodes[*i].info, b.nodes[*j].info);
    }
}

#[test]
fn positions_are_distinct_and_ordered() {
    let reg = explore(empty_board());
    let order = ordered_nodes(&reg);
    for w in order.windows(2) {
        assert!(reg.nodes[w[0]].state < reg.nodes[w[1]].state);
        assert!(state_code(&reg.nodes[w[0]].state) < state_code(&reg.nodes[w[1]].state));
    }
}

#[test]
fn children_follow_legal_actions() {
    let reg = explore(empty_board());
    for node in reg.nodes.iter() {
        let acts = node.state.possible_actions();
        assert_eq!(acts.len(), node.actions_from_here.len());
        for (k, (a, c)) in node.actions_from_here.iter().enumerate() {
            assert_eq!(*a, acts[k]);
            assert_eq!(reg.nodes[*c].state, node.state.next(*a));
        }
    }
}

#[test]
fn parents_mirror_children() {
    let reg = explore(empty_board());
    for (p, node) in reg.nodes.iter().enumerate() {
        for (_, c) in node.actions_from_here.iter() {
            assert!(reg.nodes[*c].actions_to_here.contains(&p));
        }
    }
    let shared = parse(["XO.", "...", "..."], Player::You);
    let i = find(&reg, &shared).unwrap();
    assert_eq!(reg.nodes[i].actions_to_here.len(), 1);
    let shared2 = parse(["XOX", "...", "..."], Player::Opponent);
    let j = find(&reg, &shared2).unwrap();
    assert_eq!(reg.nodes[j].actions_to_here.len(), 2);
}

#[test]
fn terminal_labels_follow_progress() {
    let reg = explore(empty_board());
    for node in reg.nodes.iter() {
        match node.state.progress() {
            Progress::Win(Player::You) => assert_eq!(node.info, Some(GameStateInfo::W)),
            Progress::Win(Player::Opponent) => assert_eq!(node.info, Some(GameStateInfo::L)),
            Progress::Draw => assert_eq!(node.info, Some(GameStateInfo::D)),
            Progress::Ongoing => assert!(!node.actions_from_here.is_empty()),
        }
    }
    let won = parse(["XXX", "OO.", "..."], Player::Opponent);
    assert_eq!(label(&reg, &won), Some(GameStateInfo::W));
    let lost = parse(["OOO", "XX.", "X.."], Player::You);
    assert_eq!(label(&reg, &lost), Some(GameStateInfo::L));
}

#[test]
fn labels_do_not_depend_on_the_exploration_root() {
    let full = explore(empty_board());
    let mid = parse(["X..", ".O.", "..."], Player::You);
    let part = explore(mid);
    assert_eq!(part.nodes[0].state, mid);
    for node in part.nodes.iter() {
        assert_eq!(node.info, label(&full, &node.state));
    }
    assert!(part.nodes.len() < full.nodes.len());
}

#[test]
fn explore_from_terminal_position() {
    let won = parse(["XXX", "OO.", "..."], Player::Opponent);
    let reg = explore(won);
    assert_eq!(reg.nodes.len(), 1);
    assert!(reg.nodes[0].actions_from_here.is_empty());
    assert_eq!(reg.nodes[0].info, Some(GameStateInfo::W));
}

#[test]
fn explore_last_move() {
    let s = parse(["XOX", "XOO", "OX."], Player::You);
    let reg = explore(s);
    assert_eq!(reg.nodes.len(), 2);
    assert_eq!(reg.nodes[0].actions_from_here.len(), 1);
    assert_eq!(reg.nodes[0].actions_from_here[0].0, Action { row: 2, col: 2 });
    assert_eq!(reg.nodes[1].info, Some(GameStateInfo::D));
    assert_eq!(reg.nodes[0].info, Some(GameStateInfo::D));
}

#[test]
fn find_reports_missing_position() {
    let s = parse(["XOX", "XOO", "OX."], Player::You);
    let reg = explore(s);
    assert_eq!(find(&reg, &s), Some(0));
    assert_eq!(find(&reg, &empty_board()), None);
}

use dui::cli::handler::{col_from_path, CommandResponse, KeyCode, KeyEvent, KeyModifiers};
use dui::cli::render::ExpandState;
use dui::cli::{CrosstermCli, CursorPos, TreeNode};
use dui::crawl::{DataType, PathSizeRecorder};

fn node(label: &str, size: u64, expanded: bool, children: Vec<TreeNode>) -> TreeNode {
    TreeNode {
        path: label.to_string(),
        data_type: DataType::FileSize,
        size,
        is_expanded: expanded,
        children,
    }
}

fn session(tree: TreeNode) -> CrosstermCli {
    CrosstermCli { tree, current_path: vec![], cursor_pos: CursorPos { col: 1, row: 0 }, top_path: vec![] }
}

/// R -> A(expanded) -> [A1, A2(expanded) -> [A2a]], then B; R expanded.
fn deep_tree() -> TreeNode {
    let a2 = node("A2", 10, true, vec![node("A2a", 10, false, vec![])]);
    let a = node("A", 30, true, vec![node("A1", 20, false, vec![]), a2]);
    node("R", 35, true, vec![a, node("B", 5, false, vec![])])
}

fn key(code: KeyCode) -> KeyEvent {
    KeyEvent { code, modifiers: KeyModifiers::Empty }
}

fn ctrl(c: char) -> KeyEvent {
    KeyEvent { code: KeyCode::Char(c), modifiers: KeyModifiers::Control }
}

const ROWS: u16 = 40;

#[test]
fn end_to_end_two_children() {
    let mut rec = PathSizeRecorder::new("R".to_string(), DataType::FileSize);
    rec.merge_entry(&vec!["B".to_string()], 100);
    rec.merge_entry(&vec!["A".to_string()], 300);
    let mut cli = CrosstermCli::from_recorder(rec);
    assert_eq!(cli.tree.children[0].path, "A");
    assert_eq!(cli.tree.children[1].path, "B");
    assert_eq!(cli.cursor_pos, CursorPos { col: 1, row: 0 });

    let before = cli.render_rows(ROWS);
    assert_eq!(before.len(), 1);
    assert_eq!(before[0].expand_state, ExpandState::Unexpanded);

    assert_eq!(cli.handle_key(key(KeyCode::Enter), ROWS), CommandResponse::RerenderScreen);
    assert!(cli.tree.is_expanded);
    let rows = cli.render_rows(ROWS);
    assert_eq!(rows.len(), 3);
    assert_eq!(rows[0].label, "R");
    assert_eq!(rows[0].parent_size, None);
    assert_eq!(rows[0].expand_state, ExpandState::Expanded);
    assert_eq!(rows[1].label, "A");
    assert_eq!(rows[1].size, 300);
    assert_eq!(rows[1].parent_size, Some(400));
    assert_eq!(rows[1].size * 100 / rows[1].parent_size.unwrap(), 75);
    assert!(!rows[1].is_last_child);
    assert_eq!(rows[2].label, "B");
    assert_eq!(rows[2].size * 100 / rows[2].parent_size.unwrap(), 25);
    assert!(rows[2].is_last_child);
    assert_eq!(rows[2].prefix, vec![true]);
    assert_eq!(rows[2].expand_state, ExpandState::NoChildren);
}

#[test]
fn up_from_b_lands_on_deepest_last_descendant() {
    let mut cli = session(deep_tree());
    cli.current_path = vec![1];
    cli.cursor_pos = CursorPos { col: 3, row: 5 };
    assert_eq!(cli.handle_key(key(KeyCode::Up), ROWS), CommandResponse::RerenderCursor);
    assert_eq!(cli.current_path, vec![0, 1, 0]);
    assert_eq!(cli.cursor_pos, CursorPos { col: 7, row: 4 });
}

#[test]
fn down_visits_every_visible_node_once() {
    let mut cli = session(deep_tree());
    let mut seen = vec![cli.current_path.clone()];
    loop {
        match cli.handle_key(key(KeyCode::Down), ROWS) {
            CommandResponse::NoOp => break,
            _ => seen.push(cli.current_path.clone()),
        }
    }
    let expected: Vec<Vec<usize>> = vec![vec![], vec![0], vec![0, 0], vec![0, 1], vec![0, 1, 0], vec![1]];
    assert_eq!(seen, expected);
}

#[test]
fn down_then_up_returns() {
    let visible: Vec<Vec<usize>> = vec![vec![], vec![0], vec![0, 0], vec![0, 1], vec![0, 1, 0]];
    for p in visible {
        let mut cli = session(deep_tree());
        cli.current_path = p.clone();
        cli.cursor_pos = CursorPos { col: 1, row: 3 };
        assert_ne!(cli.handle_key(key(KeyCode::Down), ROWS), CommandResponse::NoOp);
        assert_ne!(cli.handle_key(ctrl('p'), ROWS), CommandResponse::NoOp);
        assert_eq!(cli.current_path, p);
    }
}

#[test]
fn no_moves_past_the_ends() {
    let mut cli = session(deep_tree());
    assert_eq!(cli.handle_key(key(KeyCode::Up), ROWS), CommandResponse::NoOp);
    assert_eq!(cli.current_path, Vec::<usize>::new());
    cli.current_path = vec![1];
    assert_eq!(cli.handle_key(ctrl('n'), ROWS), CommandResponse::NoOp);
    assert_eq!(cli.current_path, vec![1]);
}

#[test]
fn collapsed_subtree_is_skipped() {
    let mut tree = deep_tree();
    tree.children[0].is_expanded = false;
    let mut cli = session(tree);
    cli.current_path = vec![0];
    assert_eq!(cli.handle_key(key(KeyCode::Down), ROWS), CommandResponse::RerenderCursor);
    assert_eq!(cli.current_path, vec![1]);
    assert_eq!(cli.handle_key(key(KeyCode::Up), ROWS), CommandResponse::RerenderCursor);
    assert_eq!(cli.current_path, vec![0]);
}

#[test]
fn viewport_scrolls_only_at_its_edges() {
    let mut cli = session(deep_tree());
    assert_eq!(cli.handle_key(key(KeyCode::Down), 2), CommandResponse::RerenderCursor);
    assert_eq!(cli.cursor_pos.row, 1);
    assert_eq!(cli.top_path, Vec::<usize>::new());
    assert_eq!(cli.handle_key(key(KeyCode::Down), 2), CommandResponse::RerenderScreen);
    assert_eq!(cli.cursor_pos.row, 1);
    assert_eq!(cli.current_path, vec![0, 0]);
    assert_eq!(cli.top_path, vec![0]);
    assert_eq!(cli.handle_key(key(KeyCode::Up), 2), CommandResponse::RerenderCursor);
    assert_eq!(cli.cursor_pos.row, 0);
    assert_eq!(cli.top_path, vec![0]);
    assert_eq!(cli.handle_key(key(KeyCode::Up), 2), CommandResponse::RerenderScreen);
    assert_eq!(cli.cursor_pos.row, 0);
    assert_eq!(cli.current_path, Vec::<usize>::new());
    assert_eq!(cli.top_path, Vec::<usize>::new());
}

#[test]
fn toggle_on_leaf_is_a_no_op() {
    let mut cli = session(deep_tree());
    cli.current_path = vec![0, 0];
    assert_eq!(cli.handle_key(key(KeyCode::Enter), ROWS), CommandResponse::NoOp);
    assert!(!cli.tree.children[0].children[0].is_expanded);
    cli.current_path = vec![0, 1];
    assert_eq!(cli.handle_key(key(KeyCode::Enter), ROWS), CommandResponse::RerenderScreen);
    assert!(!cli.tree.children[0].children[1].is_expanded);
    assert_eq!(cli.handle_key(key(KeyCode::Enter), ROWS), CommandResponse::RerenderScreen);
    assert!(cli.tree.children[0].children[1].is_expanded);
}

#[test]
fn quit_and_other_keys() {
    let mut cli = session(deep_tree());
    assert_eq!(cli.handle_key(key(KeyCode::Char('q')), ROWS), CommandResponse::Quit);
    assert_eq!(cli.handle_key(ctrl('c'), ROWS), CommandResponse::Quit);
    assert_eq!(cli.handle_key(ctrl('d'), ROWS), CommandResponse::Quit);
    assert_eq!(cli.handle_key(key(KeyCode::Char('x')), ROWS), CommandResponse::NoOp);
    assert_eq!(cli.handle_key(ctrl('q'), ROWS), CommandResponse::NoOp);
    assert_eq!(
        cli.handle_key(KeyEvent { code: KeyCode::Down, modifiers: KeyModifiers::Control }, ROWS),
        CommandResponse::NoOp
    );
    assert_eq!(cli.handle_key(key(KeyCode::Other), ROWS), CommandResponse::NoOp);
    assert_eq!(cli.current_path, Vec::<usize>::new());
}

#[test]
fn column_follows_depth() {
    assert_eq!(col_from_path(&vec![]), 1);
    assert_eq!(col_from_path(&vec![0, 1]), 5);
    assert_eq!(col_from_path(&vec![3, 0, 2, 9]), 9);
}

#[test]
fn render_window_starts_at_top_path_and_stops_at_height() {
    let mut cli = session(deep_tree());
    let all: Vec<String> = cli.render_rows(ROWS).iter().map(|r| r.label.clone()).collect();
    assert_eq!(all, vec!["R", "A", "A1", "A2", "A2a", "B"]);
    cli.top_path = vec![0, 1];
    let window = cli.render_rows(3);
    let labels: Vec<String> = window.iter().map(|r| r.label.clone()).collect();
    assert_eq!(labels, vec!["A2", "A2a", "B"]);
    assert_eq!(window[0].prefix, vec![true, false]);
    assert!(window[0].is_last_child);
    assert_eq!(window[0].parent_size, Some(30));
    assert_eq!(window[1].prefix, vec![true, false, true]);
    let short = cli.render_rows(1);
    assert_eq!(short.len(), 1);
    assert_eq!(short[0].label, "A2");
    assert!(cli.render_rows(0).is_empty());
}

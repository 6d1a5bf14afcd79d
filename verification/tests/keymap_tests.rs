use frog::buffer::Buffer;
use frog::keymap::{KeyCommand, KeyExecutor, KeyExecutorState};
use frog::actions::EditAction;

fn pos(b: &Buffer) -> (usize, usize) {
    (b.cursors[0].line, b.cursors[0].index)
}

#[test]
fn new_executor_has_the_default_mappings() {
    let ke = KeyExecutor::new();
    assert_eq!(ke.state, KeyExecutorState::Normal);
    assert!(ke.keypresses.is_empty());
    assert_eq!(ke.mappings.len(), 6);
    assert_eq!(ke.mappings[0].len(), 7);
    assert_eq!(ke.mappings[0][4].keys, vec!["g", "g"]);
    assert_eq!(ke.mappings[0][4].func, KeyCommand::Action(EditAction::MoveBeginning));
    assert_eq!(ke.mappings[0][6].func, KeyCommand::EnterInsert);
    for i in 1..6 {
        assert!(ke.mappings[i].is_empty());
    }
}

#[test]
fn hjkl_move_the_cursor() {
    let mut ke = KeyExecutor::new();
    let mut b = Buffer::new();
    ke.execute_key("l", &mut b);
    ke.execute_key("l", &mut b);
    assert_eq!(pos(&b), (0, 2));
    ke.execute_key("j", &mut b);
    ke.execute_key("j", &mut b);
    assert_eq!(pos(&b), (2, 2));
    ke.execute_key("h", &mut b);
    assert_eq!(pos(&b), (2, 1));
    ke.execute_key("k", &mut b);
    assert_eq!(pos(&b), (1, 1));
    assert!(ke.keypresses.is_empty());
}

#[test]
fn gg_waits_for_its_second_key() {
    let mut ke = KeyExecutor::new();
    let mut b = Buffer::new();
    ke.execute_key("j", &mut b);
    ke.execute_key("j", &mut b);
    ke.execute_key("l", &mut b);
    ke.execute_key("g", &mut b);
    assert_eq!(ke.keypresses, vec!["g".to_string()]);
    assert_eq!(pos(&b), (2, 1));
    ke.execute_key("g", &mut b);
    assert!(ke.keypresses.is_empty());
    assert_eq!(pos(&b), (0, 0));
}

#[test]
fn unknown_keys_are_dropped() {
    let mut ke = KeyExecutor::new();
    let mut b = Buffer::new();
    ke.execute_key("g", &mut b);
    ke.execute_key("q", &mut b);
    assert!(ke.keypresses.is_empty());
    assert_eq!(pos(&b), (0, 0));
}

#[test]
fn x_deletes_a_character() {
    let mut ke = KeyExecutor::new();
    let mut b = Buffer::new();
    ke.execute_key("x", &mut b);
    assert_eq!(b.lines[0], "cratch buffer");
}

#[test]
fn insert_mode_types_and_escape_leaves_it() {
    let mut ke = KeyExecutor::new();
    let mut b = Buffer::new();
    ke.execute_key("i", &mut b);
    assert_eq!(ke.state, KeyExecutorState::Insert);
    ke.execute_key("a", &mut b);
    ke.execute_key("b", &mut b);
    assert_eq!(b.lines[0], "abScratch buffer");
    assert_eq!(pos(&b), (0, 2));
    ke.execute_key("Shift", &mut b);
    assert_eq!(b.lines[0], "abScratch buffer");
    ke.execute_key("Escape", &mut b);
    assert_eq!(ke.state, KeyExecutorState::Normal);
    assert!(ke.keypresses.is_empty());
    ke.execute_key("h", &mut b);
    assert_eq!(pos(&b), (0, 1));
}

#[test]
fn try_execute_key_runs_like_execute_key() {
    let mut ke = KeyExecutor::new();
    let mut b = Buffer::new();
    assert!(ke.try_execute_key("l", &mut b));
    assert!(ke.try_execute_key("x", &mut b));
    assert_eq!(b.lines[0], "Sratch buffer");
    assert_eq!(pos(&b), (0, 1));
    assert!(ke.keypresses.is_empty());
}

#[test]
fn try_execute_key_refuses_what_cannot_run() {
    let mut ke = KeyExecutor::new();
    let mut b = Buffer::new();
    b.lines[0] = "\u{e9}t\u{e9}".to_string();
    assert!(!ke.try_execute_key("x", &mut b));
    assert_eq!(b.lines[0], "\u{e9}t\u{e9}");
}

#[test]
fn try_execute_key_needs_a_complete_table() {
    let mut ke = KeyExecutor::new();
    let mut b = Buffer::new();
    ke.mappings.pop();
    assert!(!ke.try_execute_key("l", &mut b));
    assert_eq!(pos(&b), (0, 0));
}

#[test]
fn pending_keys_never_match_exactly() {
    let mut ke = KeyExecutor::new();
    let mut b = Buffer::new();
    for key in ["g", "j", "g", "g", "q", "g", "i", "a", "Escape", "g"] {
        ke.execute_key(key, &mut b);
        let pending: Vec<&str> = ke.keypresses.iter().map(|k| k.as_str()).collect();
        assert!(pending.is_empty() || ke.state != KeyExecutorState::Insert);
        assert!(!ke.mappings[0].iter().any(|m| m.keys == pending) || pending.is_empty());
        assert!(pending.is_empty() || ke.mappings[0].iter().any(|m| m.keys.starts_with(&pending)));
    }
    assert_eq!(ke.keypresses, vec!["g".to_string()]);
}

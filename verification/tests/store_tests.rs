use todo_rs::store::StoreError;
use todo_rs::store::TodoStore;

fn store_with(content: &[u8]) -> TodoStore {
    TodoStore::from_content(content.to_vec())
}

#[test]
fn add_on_empty_store() {
    let mut store = TodoStore::new();
    let idx = store.append_to_list(&b"water plants".to_vec());
    assert_eq!(idx, 1);
    assert_eq!(store.get_list_content(), b"1. water plants\n".to_vec());
    assert_eq!(store.parse_list_content(), b"1. water plants\n".to_vec());
}

#[test]
fn add_remove_then_add() {
    let mut store = TodoStore::new();
    assert_eq!(store.append_to_list(&b"a".to_vec()), 1);
    assert_eq!(store.append_to_list(&b"b".to_vec()), 2);
    assert_eq!(store.remove_from_list(1), Ok(()));
    assert_eq!(store.get_list_content(), b"2. b\n".to_vec());
    assert_eq!(store.append_to_list(&b"c".to_vec()), 3);
    assert_eq!(store.get_list_content(), b"2. b\n3. c\n".to_vec());
}

#[test]
fn mark_done_stores_marker() {
    let mut store = TodoStore::new();
    store.append_to_list(&b"read book".to_vec());
    assert_eq!(store.mark_as_done(1, true), Ok(()));
    assert_eq!(store.get_list_content(), b"1. read book -s\n".to_vec());
    assert_eq!(store.parse_list_content(), b"1. \x1b[9mread book\x1b[0m\n".to_vec());
}

#[test]
fn mark_undone_restores_text() {
    let mut store = TodoStore::new();
    store.append_to_list(&b"read book".to_vec());
    assert_eq!(store.mark_as_done(1, true), Ok(()));
    assert_eq!(store.mark_as_done(1, false), Ok(()));
    assert_eq!(store.get_list_content(), b"1. read book\n".to_vec());
}

#[test]
fn remove_missing_reports_not_found() {
    let mut store = TodoStore::new();
    store.append_to_list(&b"only one".to_vec());
    let before = store.get_list_content();
    assert_eq!(store.remove_from_list(99), Err(StoreError::NotFound));
    assert_eq!(store.get_list_content(), before);
}

#[test]
fn mark_missing_reports_not_found() {
    let mut store = store_with(b"1. a\n2. b\n");
    let before = store.get_list_content();
    assert_eq!(store.mark_as_done(7, true), Err(StoreError::NotFound));
    assert_eq!(store.get_list_content(), before);
}

#[test]
fn clear_empties_store() {
    let mut store = TodoStore::new();
    store.append_to_list(&b"a".to_vec());
    store.append_to_list(&b"b".to_vec());
    store.set_list_length(0);
    assert_eq!(store.get_list_content(), Vec::<u8>::new());
    assert_eq!(store.parse_list_content(), Vec::<u8>::new());
    assert_eq!(store.append_to_list(&b"fresh".to_vec()), 1);
}

#[test]
fn index_monotonic_across_removals() {
    let mut store = TodoStore::new();
    assert_eq!(store.append_to_list(&b"a".to_vec()), 1);
    assert_eq!(store.append_to_list(&b"b".to_vec()), 2);
    assert_eq!(store.append_to_list(&b"c".to_vec()), 3);
    assert_eq!(store.remove_from_list(2), Ok(()));
    assert_eq!(store.find_next_index(), 4);
    assert_eq!(store.append_to_list(&b"d".to_vec()), 4);
    assert_eq!(store.max_list_index(), 4);
}

#[test]
fn done_twice_is_idempotent() {
    let mut store = TodoStore::new();
    store.append_to_list(&b"task".to_vec());
    assert_eq!(store.mark_as_done(1, true), Ok(()));
    let once = store.get_list_content();
    assert_eq!(store.mark_as_done(1, true), Ok(()));
    assert_eq!(store.get_list_content(), once);
}

#[test]
fn undone_twice_is_idempotent() {
    let mut store = store_with(b"1. task -s\n");
    assert_eq!(store.mark_as_done(1, false), Ok(()));
    let once = store.get_list_content();
    assert_eq!(store.mark_as_done(1, false), Ok(()));
    assert_eq!(store.get_list_content(), once);
}

#[test]
fn remove_preserves_other_lines() {
    let mut store = store_with(b"1. first\nnot a record\n2. second\n3. third\n");
    assert_eq!(store.remove_from_list(2), Ok(()));
    assert_eq!(store.get_list_content(), b"1. first\nnot a record\n3. third\n".to_vec());
}

#[test]
fn malformed_lines_survive_marking() {
    let mut store = store_with(b"junk.line\n1. a\n");
    assert_eq!(store.mark_as_done(1, true), Ok(()));
    assert_eq!(store.get_list_content(), b"junk.line\n1. a -s\n".to_vec());
}

#[test]
fn render_skips_spaceless_lines() {
    let store = store_with(b"nospace\n1. ok\n");
    assert_eq!(store.parse_list_content(), b"1. ok\n".to_vec());
}

#[test]
fn render_after_add_has_no_strike() {
    let mut store = TodoStore::new();
    store.append_to_list(&b"buy milk".to_vec());
    let rendered = store.parse_list_content();
    assert!(rendered.ends_with(b"buy milk\n"));
    assert!(!rendered.contains(&0x1b));
}

#[test]
fn empty_message_is_accepted() {
    let mut store = TodoStore::new();
    assert_eq!(store.append_to_list(&Vec::new()), 1);
    assert_eq!(store.get_list_content(), b"1. \n".to_vec());
}

#[test]
fn undone_strips_repeated_markers() {
    let mut store = store_with(b"1. a -s -s\n");
    assert_eq!(store.mark_as_done(1, false), Ok(()));
    assert_eq!(store.get_list_content(), b"1. a\n".to_vec());
}

#[test]
fn overflowing_index_is_opaque() {
    let mut store = store_with(b"99999999999999999999999. x\n");
    assert_eq!(store.max_list_index(), 0);
    assert_eq!(store.find_next_index(), 1);
    let before = store.get_list_content();
    assert_eq!(store.remove_from_list(1), Err(StoreError::NotFound));
    assert_eq!(store.get_list_content(), before);
}

#[test]
fn unterminated_last_line_is_marked() {
    let mut store = store_with(b"1. a");
    assert_eq!(store.mark_as_done(1, true), Ok(()));
    assert_eq!(store.get_list_content(), b"1. a -s\n".to_vec());
}

#[test]
fn next_index_follows_gap() {
    let store = store_with(b"5. x\n");
    assert_eq!(store.find_next_index(), 6);
}

#[test]
fn padded_index_token_matches() {
    let mut store = store_with(b"  7  . y\n");
    assert_eq!(store.remove_from_list(7), Ok(()));
    assert_eq!(store.get_list_content(), Vec::<u8>::new());
}

#[test]
fn bare_dash_s_tail_is_not_the_marker() {
    let store = store_with(b"1. a-s\n");
    assert_eq!(store.parse_list_content(), b"1. a-s\n".to_vec());
}

#[test]
fn repeated_markers_render_struck_once() {
    let store = store_with(b"1. a -s -s\n");
    assert_eq!(store.parse_list_content(), b"1. \x1b[9ma\x1b[0m\n".to_vec());
}

#[test]
fn crlf_terminators_are_stripped() {
    let mut store = store_with(b"1. a\r\n2. b\r\n");
    assert_eq!(store.mark_as_done(1, true), Ok(()));
    assert_eq!(store.get_list_content(), b"1. a -s\n2. b\n".to_vec());
}

#[test]
fn crlf_render_drops_carriage_return() {
    let store = store_with(b"1. water\r\n");
    assert_eq!(store.parse_list_content(), b"1. water\n".to_vec());
}

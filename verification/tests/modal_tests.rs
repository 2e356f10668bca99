use catalog_core::catalog::{AppData, DataEntry};
use catalog_core::flow::{confirm_top, handle_window_message, request_delete};
use catalog_core::modal::{
    DeferredAction, WindowContent, WindowManager, WindowMessage, WindowType,
};

fn window(id: u64, window_type: WindowType, title: &str) -> WindowContent {
    WindowContent::new(id, window_type, title.to_string(), String::new(), None, true, true)
}

#[test]
fn push_push_pop_is_lifo() {
    let mut stack = WindowManager::new();
    stack.add_window(window(1, WindowType::Info, "A"));
    stack.add_window(window(2, WindowType::Warning, "B"));
    let popped = stack.remove_window().unwrap();
    assert_eq!(popped.title, "B");
    assert_eq!(stack.get_window().unwrap().title, "A");
    assert_eq!(stack.depth(), 1);
}

#[test]
fn pop_on_empty_stack_is_none() {
    let mut stack = WindowManager::new();
    assert!(stack.remove_window().is_none());
    assert!(stack.get_window().is_none());
    assert_eq!(stack.depth(), 0);
}

#[test]
fn pop_by_id_removes_the_right_window() {
    let mut stack = WindowManager::new();
    stack.add_window(window(1, WindowType::Info, "A"));
    stack.add_window(window(2, WindowType::Error, "B"));
    stack.add_window(window(3, WindowType::Info, "C"));
    let w = stack.remove_window_by_id(2).unwrap();
    assert_eq!(w.title, "B");
    assert_eq!(stack.depth(), 2);
    assert_eq!(stack.get_window().unwrap().title, "C");
}

#[test]
fn pop_by_absent_id_is_a_no_op() {
    let mut stack = WindowManager::new();
    stack.add_window(window(1, WindowType::Info, "A"));
    assert!(stack.remove_window_by_id(42).is_none());
    assert_eq!(stack.depth(), 1);
    assert_eq!(stack.get_window().unwrap().title, "A");
}

#[test]
fn render_window_reports_the_top_type() {
    let mut stack = WindowManager::new();
    assert_eq!(stack.render_window(), None);
    stack.add_window(window(1, WindowType::Info, "A"));
    stack.add_window(window(2, WindowType::AddEntry, "B"));
    assert_eq!(stack.render_window(), Some(WindowType::AddEntry));
}

#[test]
fn unchecked_delete_pushes_a_warning_with_the_checked_action() {
    let mut data = AppData::new();
    let x = data.mint_id();
    data.upsert(DataEntry::new(x, "victim", ""));
    let mut stack = WindowManager::new();

    request_delete(&mut data, &mut stack, 7, x, false);
    assert_eq!(data.len(), 1, "nothing removed before confirmation");
    assert_eq!(stack.depth(), 1);
    let top = stack.get_window().unwrap();
    assert_eq!(top.id, 7);
    assert_eq!(top.window_type, WindowType::Warning);
    assert!(top.show_okay && top.show_cancel);
    assert_eq!(top.on_confirm, Some(DeferredAction::DeleteEntry { entry_id: x, checked: true }));
}

#[test]
fn confirming_the_warning_releases_and_applies_the_delete() {
    let mut data = AppData::new();
    let x = data.mint_id();
    data.upsert(DataEntry::new(x, "victim", ""));
    let keep = data.mint_id();
    data.upsert(DataEntry::new(keep, "keep", ""));
    let mut stack = WindowManager::new();

    request_delete(&mut data, &mut stack, 7, x, false);
    let released = confirm_top(&mut data, &mut stack, 8);
    assert_eq!(released, Some(DeferredAction::DeleteEntry { entry_id: x, checked: true }));
    assert_eq!(stack.depth(), 0);
    assert_eq!(data.len(), 1);
    assert_eq!(data.entries()[0].key, "keep");
}

#[test]
fn cancelling_the_warning_keeps_the_entry() {
    let mut data = AppData::new();
    let x = data.mint_id();
    data.upsert(DataEntry::new(x, "victim", ""));
    let mut stack = WindowManager::new();

    request_delete(&mut data, &mut stack, 7, x, false);
    let released = handle_window_message(&mut data, &mut stack, 8, WindowMessage::Response(false));
    assert_eq!(released, None);
    assert_eq!(stack.depth(), 0);
    assert_eq!(data.len(), 1, "cancel drops the action unreleased");
}

#[test]
fn checked_delete_removes_at_once() {
    let mut data = AppData::new();
    let x = data.mint_id();
    data.upsert(DataEntry::new(x, "victim", ""));
    let mut stack = WindowManager::new();

    request_delete(&mut data, &mut stack, 7, x, true);
    assert_eq!(data.len(), 0);
    assert_eq!(stack.depth(), 0);
}

#[test]
fn confirm_on_empty_stack_does_nothing() {
    let mut data = AppData::new();
    let mut stack = WindowManager::new();
    assert_eq!(confirm_top(&mut data, &mut stack, 1), None);
    assert_eq!(stack.depth(), 0);
}

#[test]
fn close_pops_without_releasing() {
    let mut data = AppData::new();
    let mut stack = WindowManager::new();
    stack.add_window(
        window(1, WindowType::Info, "note")
            .with_confirm(DeferredAction::DeleteEntry { entry_id: 0, checked: true }),
    );
    let released = handle_window_message(&mut data, &mut stack, 2, WindowMessage::Close);
    assert_eq!(released, None);
    assert_eq!(stack.depth(), 0);
}

#[test]
fn confirming_a_window_without_action_only_pops() {
    let mut data = AppData::new();
    let mut stack = WindowManager::new();
    stack.add_window(window(1, WindowType::Info, "note"));
    let released = handle_window_message(&mut data, &mut stack, 2, WindowMessage::Response(true));
    assert_eq!(released, None);
    assert_eq!(stack.depth(), 0);
}

#[test]
fn nested_windows_stack_above_each_other() {
    let mut data = AppData::new();
    let x = data.mint_id();
    data.upsert(DataEntry::new(x, "editing", ""));
    let mut stack = WindowManager::new();
    stack.add_window(window(1, WindowType::AddEntry, "editor"));
    // A confirmation opened from within the editor stacks above it.
    request_delete(&mut data, &mut stack, 2, x, false);
    assert_eq!(stack.depth(), 2);
    assert_eq!(stack.get_window().unwrap().window_type, WindowType::Warning);
    confirm_top(&mut data, &mut stack, 3);
    assert_eq!(stack.get_window().unwrap().title, "editor");
}

use render3d::editor::{shortcut, Key, SceneEditor, Shortcut};
use render3d::scene::{GeometryType, SceneObject};

fn key(s: &str) -> Key {
    Key::Character(s.to_string())
}

fn editor_with(n: usize) -> SceneEditor {
    let mut e = SceneEditor::new();
    for _ in 0..n {
        let id = e.next_id;
        e.objects.push(SceneObject::new(id, format!("o{id}"), [0; 3], GeometryType::Cube));
        e.next_id += 1;
    }
    e
}

fn ids(e: &SceneEditor) -> Vec<usize> {
    e.objects.iter().map(|o| o.id).collect()
}

#[test]
fn shortcuts_need_ctrl_except_new_and_delete() {
    assert_eq!(shortcut(&key("c"), true, false), Some(Shortcut::Copy));
    assert_eq!(shortcut(&key("C"), true, false), Some(Shortcut::Copy));
    assert_eq!(shortcut(&key("c"), false, false), None);
    assert_eq!(shortcut(&key("v"), true, false), Some(Shortcut::Paste));
    assert_eq!(shortcut(&key("D"), true, true), Some(Shortcut::Duplicate));
    assert_eq!(shortcut(&key("z"), true, false), Some(Shortcut::Undo));
    assert_eq!(shortcut(&key("Z"), true, true), Some(Shortcut::Redo));
    assert_eq!(shortcut(&key("y"), true, false), Some(Shortcut::Redo));
    assert_eq!(shortcut(&key("n"), false, false), Some(Shortcut::NewObject));
    assert_eq!(shortcut(&key("n"), true, false), None);
    assert_eq!(shortcut(&Key::Delete, false, false), Some(Shortcut::Delete));
    assert_eq!(shortcut(&key("cv"), true, false), None);
    assert_eq!(shortcut(&Key::Other, true, false), None);
}

#[test]
fn copy_then_paste_adds_selected_copies_under_fresh_ids() {
    let mut e = editor_with(2);
    e.objects[1].selected = true;
    e.copy_selected();
    assert_eq!(e.clipboard.len(), 1);
    assert_eq!(e.clipboard[0].id, 2);
    e.paste();
    assert_eq!(ids(&e), vec![1, 2, 3]);
    assert_eq!(e.next_id, 4);
    assert!(!e.objects[0].selected && !e.objects[1].selected);
    assert!(e.objects[2].selected);
    assert_eq!(e.objects[2].label, "o2");
    assert_eq!(e.history.undo_stack.len(), 1);
}

#[test]
fn undo_after_paste_removes_the_pasted_objects() {
    let mut e = editor_with(2);
    e.objects[0].selected = true;
    e.copy_selected();
    e.paste();
    e.undo();
    assert_eq!(ids(&e), vec![1, 2]);
    assert!(e.objects.iter().all(|o| !o.selected));
    e.redo();
    assert_eq!(ids(&e), vec![1, 2, 3]);
}

#[test]
fn duplicate_keeps_the_originals() {
    let mut e = editor_with(3);
    e.objects[0].selected = true;
    e.objects[2].selected = true;
    e.duplicate_selected();
    assert_eq!(ids(&e), vec![1, 2, 3, 4, 5]);
    assert_eq!(e.objects[3].label, "o1");
    assert_eq!(e.objects[4].label, "o3");
    assert!(e.objects[3].selected && e.objects[0].selected);
    assert_eq!(e.next_id, 6);
}

#[test]
fn delete_then_undo_brings_objects_back_in_reverse() {
    let mut e = editor_with(3);
    e.objects[0].selected = true;
    e.objects[1].selected = true;
    e.delete_selected();
    assert_eq!(ids(&e), vec![3]);
    e.undo();
    assert_eq!(ids(&e), vec![3, 2, 1]);
    e.redo();
    assert_eq!(ids(&e), vec![3]);
}

#[test]
fn delete_with_nothing_selected_records_nothing() {
    let mut e = editor_with(2);
    assert!(e.handle_key(&Key::Delete, false, false));
    assert_eq!(ids(&e), vec![1, 2]);
    assert!(e.history.undo_stack.is_empty());
}

#[test]
fn new_object_opens_one_draft() {
    let mut e = editor_with(3);
    assert!(e.handle_key(&key("N"), false, false));
    let d = e.draft.clone().unwrap();
    assert_eq!(d.id, 4);
    assert_eq!(d.label, "Object 4");
    assert_eq!(d.geometry_type, GeometryType::Cube);
    assert!(e.should_focus_name);
    e.should_focus_name = false;
    e.start_draft();
    assert!(!e.should_focus_name);
    e.draft.as_mut().unwrap().label = "Box".to_string();
    e.commit_draft();
    assert!(e.draft.is_none());
    assert_eq!(ids(&e), vec![1, 2, 3, 4]);
    assert_eq!(e.objects[3].label, "Box");
    assert_eq!(e.next_id, 5);
}

#[test]
fn other_keys_change_nothing() {
    let mut e = editor_with(1);
    e.objects[0].selected = true;
    assert!(!e.handle_key(&Key::Other, true, false));
    assert!(!e.handle_key(&key("c"), false, false));
    assert!(e.clipboard.is_empty());
    assert!(e.handle_key(&key("c"), true, false));
    assert_eq!(e.clipboard.len(), 1);
    assert!(e.handle_key(&key("z"), true, false));
    assert_eq!(ids(&e), vec![1]);
}

#[test]
fn confirming_an_edit_is_undoable_and_an_unchanged_draft_records_nothing() {
    let mut e = editor_with(2);
    let mut draft = e.objects[1].clone();
    draft.label = "renamed".to_string();
    e.confirm_edit(draft.clone());
    assert_eq!(e.objects[1].label, "renamed");
    assert_eq!(e.history.undo_stack.len(), 1);
    let same = e.objects[1].clone();
    e.confirm_edit(same);
    assert_eq!(e.history.undo_stack.len(), 1);
    let mut stray = draft.clone();
    stray.id = 99;
    e.confirm_edit(stray);
    assert_eq!(e.history.undo_stack.len(), 1);
    e.undo();
    assert_eq!(e.objects[1].label, "o2");
}

#[test]
fn deleting_a_row_by_id_is_undoable() {
    let mut e = editor_with(3);
    e.delete_by_id(2);
    assert_eq!(ids(&e), vec![1, 3]);
    e.delete_by_id(42);
    assert_eq!(ids(&e), vec![1, 3]);
    assert_eq!(e.history.undo_stack.len(), 1);
    e.undo();
    assert_eq!(ids(&e), vec![1, 3, 2]);
}

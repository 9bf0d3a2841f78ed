use render3d::scene::{apply_undo_command, GeometryType, SceneObject, UndoCommand, UndoHistory, MAX_UNDO};

fn bits(v: [f32; 3]) -> [u32; 3] {
    [v[0].to_bits(), v[1].to_bits(), v[2].to_bits()]
}

fn obj(id: usize) -> SceneObject {
    SceneObject::new(id, format!("o{id}"), bits([0.0; 3]), GeometryType::Cube)
}

#[test]
fn new_sets_expected_defaults() {
    let o = SceneObject::new(7, "obj".into(), bits([1.0, 2.0, 3.0]), GeometryType::Sphere);
    assert_eq!(o.id, 7);
    assert_eq!(o.label, "obj");
    assert_eq!(o.position.map(f32::from_bits), [1.0, 2.0, 3.0]);
    assert_eq!(o.scale.map(f32::from_bits), [1.0, 1.0, 1.0]);
    assert!(o.visible);
    assert!(!o.selected);
    assert!(o.show_label);
    assert!(!o.show_normal);
    assert_eq!(o.color.map(f32::from_bits), [1.0, 1.0, 1.0]);
    assert_eq!(o.geometry_type, GeometryType::Sphere);
    assert_eq!(f32::from_bits(o.cube_side), 1.0);
    assert_eq!(f32::from_bits(o.sphere_radius), 0.5);
    assert_eq!(f32::from_bits(o.plane_surface), 1.0);
    assert_eq!(o.rotation_euler.map(f32::from_bits), [0.0, 0.0, 0.0]);
    assert_eq!(o.rotation.map(f32::from_bits), [0.0, 0.0, 0.0, 0.0]);
}

#[test]
fn geometry_type_is_copy_and_comparable() {
    let a = GeometryType::Mesh;
    let b = a;
    assert_eq!(a, b);
    assert_ne!(GeometryType::Cube, GeometryType::Plane);
    assert_ne!(GeometryType::Mesh, GeometryType::Line);
}

#[test]
fn equality_tracks_every_field() {
    let base = SceneObject::new(1, "x".into(), bits([0.0; 3]), GeometryType::Cube);
    let mut other = base.clone();
    assert_eq!(base, other);
    other.cube_side = 2.0f32.to_bits();
    assert_ne!(base, other);
}

#[test]
fn undo_redo_add_and_delete_are_symmetric() {
    let mut objects = vec![obj(1)];
    let add = UndoCommand::Add(obj(2));
    apply_undo_command(&mut objects, &add, false);
    assert_eq!(objects.len(), 2);
    apply_undo_command(&mut objects, &add, true);
    assert_eq!(objects.len(), 1);

    let del = UndoCommand::Delete(obj(1));
    apply_undo_command(&mut objects, &del, false);
    assert!(objects.is_empty());
    apply_undo_command(&mut objects, &del, true);
    assert_eq!(objects.len(), 1);
}

#[test]
fn undo_redo_edit_swaps_old_and_new() {
    let old = obj(1);
    let mut new = old.clone();
    new.label = "renamed".into();
    let mut objects = vec![old.clone()];
    let cmd = UndoCommand::Edit {
        old: old.clone(),
        new: new.clone(),
    };
    apply_undo_command(&mut objects, &cmd, false);
    assert_eq!(objects[0].label, "renamed");
    apply_undo_command(&mut objects, &cmd, true);
    assert_eq!(objects[0].label, "o1");
}

#[test]
fn multi_action_applies_and_reverses_every_child() {
    let mut objects = Vec::new();
    let cmd = UndoCommand::MultiAction(vec![UndoCommand::Add(obj(1)), UndoCommand::Add(obj(2))]);
    apply_undo_command(&mut objects, &cmd, false);
    assert_eq!(objects.len(), 2);
    apply_undo_command(&mut objects, &cmd, true);
    assert!(objects.is_empty());
}

#[test]
fn undo_then_redo_restores_the_scene() {
    let mut objects = vec![obj(1)];
    let mut h = UndoHistory::new();
    apply_undo_command(&mut objects, &UndoCommand::Add(obj(2)), false);
    h.push_undo(UndoCommand::Add(obj(2)));
    let after = objects.clone();
    h.undo(&mut objects);
    assert_eq!(objects, vec![obj(1)]);
    assert_eq!(h.redo_stack.len(), 1);
    h.redo(&mut objects);
    assert_eq!(objects, after);
    assert_eq!(h.undo_stack.len(), 1);
    assert!(h.redo_stack.is_empty());
}

#[test]
fn pushing_clears_redo_and_keeps_the_cap() {
    let mut h = UndoHistory::new();
    let mut objects = Vec::new();
    for i in 0..(MAX_UNDO + 5) {
        h.push_undo(UndoCommand::Add(obj(i)));
    }
    assert_eq!(h.undo_stack.len(), MAX_UNDO);
    h.undo(&mut objects);
    assert_eq!(h.redo_stack.len(), 1);
    h.push_undo(UndoCommand::Add(obj(1000)));
    assert!(h.redo_stack.is_empty());
}

#[test]
fn undo_on_empty_history_changes_nothing() {
    let mut h = UndoHistory::new();
    let mut objects = vec![obj(3)];
    h.undo(&mut objects);
    h.redo(&mut objects);
    assert_eq!(objects, vec![obj(3)]);
}

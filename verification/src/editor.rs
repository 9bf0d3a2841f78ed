//! Editing the scene from the keyboard: copy, paste, duplicate and delete
//! of the selected objects, undo and redo, and the draft of a new object,
//! each recorded as a reversible edit.

use vstd::prelude::*;
use crate::scene::{
    applied, find_id, index_of_id, same_content, same_object, redo_step, undo_step, undone_all, GeometryType, SceneObject, UndoCommand, UndoHistory,
    HALF_F32_BITS, MAX_UNDO, ONE_F32_BITS,
};
use crate::text::{chars_of, dec_str, push_decimal};

verus! {

/// The selected objects, in scene order.
pub open spec fn selected_of(objs: Seq<SceneObject>) -> Seq<SceneObject>
    decreases objs.len(),
{
    if objs.len() == 0 {
        Seq::empty()
    } else {
        let prev = selected_of(objs.drop_last());
        if objs.last().selected {
            prev.push(objs.last())
        } else {
            prev
        }
    }
}

/// The objects that are not selected, in scene order.
pub open spec fn unselected_of(objs: Seq<SceneObject>) -> Seq<SceneObject>
    decreases objs.len(),
{
    if objs.len() == 0 {
        Seq::empty()
    } else {
        let prev = unselected_of(objs.drop_last());
        if objs.last().selected {
            prev
        } else {
            prev.push(objs.last())
        }
    }
}

/// The objects, all unselected.
pub open spec fn deselected(objs: Seq<SceneObject>) -> Seq<SceneObject> {
    Seq::new(objs.len(), |k: int| SceneObject { selected: false, ..objs[k] })
}

/// Copies of `objs` numbered from `next_id` on, selected when `select`,
/// otherwise as the originals were.
pub open spec fn renumbered(objs: Seq<SceneObject>, next_id: int, select: bool) -> Seq<SceneObject> {
    Seq::new(
        objs.len(),
        |k: int| SceneObject { id: (next_id + k) as usize, selected: if select { true } else { objs[k].selected }, ..objs[k] },
    )
}

/// One `Add` edit per object.
pub open spec fn adds(objs: Seq<SceneObject>) -> Seq<UndoCommand> {
    Seq::new(objs.len(), |k: int| UndoCommand::Add(objs[k]))
}

/// One `Delete` edit per object.
pub open spec fn deletes(objs: Seq<SceneObject>) -> Seq<UndoCommand> {
    Seq::new(objs.len(), |k: int| UndoCommand::Delete(objs[k]))
}

/// Every object's id is below `next_id`.
pub open spec fn ids_below(objs: Seq<SceneObject>, next_id: int) -> bool {
    forall|k: int| 0 <= k < objs.len() ==> (#[trigger] objs[k]).id < next_id
}

/// No two objects share an id.
pub open spec fn ids_unique(objs: Seq<SceneObject>) -> bool {
    forall|i: int, j: int| 0 <= i < j < objs.len() ==> (#[trigger] objs[i]).id != (#[trigger] objs[j]).id
}

/// The objects' ids are distinct and all below `next_id`, so the next
/// object created gets an id no object has.
pub open spec fn ids_ok(objs: Seq<SceneObject>, next_id: int) -> bool {
    ids_below(objs, next_id) && ids_unique(objs)
}

/// `after` is the undo stack `before` with one new edit on top, the oldest
/// forgotten beyond `MAX_UNDO`.
pub open spec fn one_more_edit(before: Seq<UndoCommand>, after: Seq<UndoCommand>) -> bool {
    &&& after.len() > 0
    &&& after.drop_last() == if before.len() + 1 > MAX_UNDO { before.drop_first() } else { before }
}

/// The newest edit of the undo stack `u` is the compound edit `cmds`.
pub open spec fn newest_is(u: Seq<UndoCommand>, cmds: Seq<UndoCommand>) -> bool {
    &&& u.len() > 0
    &&& u.last() matches UndoCommand::MultiAction(v)
    &&& v@ == cmds
}

/// A key press, as the window reports it.
#[derive(Debug, Clone)]
pub enum Key {
    /// A key producing text.
    Character(String),
    Delete,
    Other,
}

/// An editing action bound to a key.
#[derive(Debug, Clone, Copy, PartialEq, Eq, Structural)]
pub enum Shortcut {
    Copy,
    Paste,
    Duplicate,
    Undo,
    Redo,
    NewObject,
    Delete,
}

/// The action a key press asks for: with Ctrl (or Cmd) held, `C` copies,
/// `V` pastes, `D` duplicates, `Z` undoes (redoes with Shift), `Y` redoes;
/// `N` without Ctrl starts a new object; Delete deletes. Letters count in
/// either case.
pub open spec fn shortcut_of(key: Key, ctrl: bool, shift: bool) -> Option<Shortcut> {
    match key {
        Key::Character(s) => if s@.len() != 1 {
            None
        } else {
            let c = s@[0];
            if ctrl && (c == 'c' || c == 'C') {
                Some(Shortcut::Copy)
            } else if ctrl && (c == 'v' || c == 'V') {
                Some(Shortcut::Paste)
            } else if ctrl && (c == 'd' || c == 'D') {
                Some(Shortcut::Duplicate)
            } else if ctrl && (c == 'z' || c == 'Z') {
                Some(if shift { Shortcut::Redo } else { Shortcut::Undo })
            } else if ctrl && (c == 'y' || c == 'Y') {
                Some(Shortcut::Redo)
            } else if !ctrl && (c == 'n' || c == 'N') {
                Some(Shortcut::NewObject)
            } else {
                None
            }
        },
        Key::Delete => Some(Shortcut::Delete),
        Key::Other => None,
    }
}

/// The action a key press asks for.
pub fn shortcut(key: &Key, ctrl: bool, shift: bool) -> (r: Option<Shortcut>)
    ensures
        r == shortcut_of(*key, ctrl, shift),
{
    match key {
        Key::Character(s) => {
            let cs = chars_of(s.as_str());
            if cs.len() != 1 {
                return None;
            }
            let c = cs[0];
            if ctrl && (c == 'c' || c == 'C') {
                Some(Shortcut::Copy)
            } else if ctrl && (c == 'v' || c == 'V') {
                Some(Shortcut::Paste)
            } else if ctrl && (c == 'd' || c == 'D') {
                Some(Shortcut::Duplicate)
            } else if ctrl && (c == 'z' || c == 'Z') {
                Some(if shift { Shortcut::Redo } else { Shortcut::Undo })
            } else if ctrl && (c == 'y' || c == 'Y') {
                Some(Shortcut::Redo)
            } else if !ctrl && (c == 'n' || c == 'N') {
                Some(Shortcut::NewObject)
            } else {
                None
            }
        },
        Key::Delete => Some(Shortcut::Delete),
        Key::Other => None,
    }
}

/// The selected objects of `objs`.
fn selected_objects(objs: &Vec<SceneObject>) -> (r: Vec<SceneObject>)
    ensures
        r@ == selected_of(objs@),
{
    let mut r: Vec<SceneObject> = Vec::new();
    let mut i: usize = 0;
    while i < objs.len()
        invariant
            i <= objs@.len(),
            r@ == selected_of(objs@.take(i as int)),
        decreases objs@.len() - i,
    {
        proof {
            assert(objs@.take(i + 1).drop_last() =~= objs@.take(i as int));
        }
        if objs[i].selected {
            r.push(objs[i].clone());
        }
        i = i + 1;
    }
    proof {
        assert(objs@.take(objs@.len() as int) =~= objs@);
    }
    r
}

/// The unselected objects of `objs`.
fn unselected_objects(objs: &Vec<SceneObject>) -> (r: Vec<SceneObject>)
    ensures
        r@ == unselected_of(objs@),
{
    let mut r: Vec<SceneObject> = Vec::new();
    let mut i: usize = 0;
    while i < objs.len()
        invariant
            i <= objs@.len(),
            r@ == unselected_of(objs@.take(i as int)),
        decreases objs@.len() - i,
    {
        proof {
            assert(objs@.take(i + 1).drop_last() =~= objs@.take(i as int));
        }
        if !objs[i].selected {
            r.push(objs[i].clone());
        }
        i = i + 1;
    }
    proof {
        assert(objs@.take(objs@.len() as int) =~= objs@);
    }
    r
}

/// Copies of `objs` numbered from `first_id` on, selected when `select`.
fn fresh_copies(objs: &Vec<SceneObject>, first_id: usize, select: bool) -> (r: Vec<SceneObject>)
    requires
        first_id + objs@.len() <= usize::MAX,
    ensures
        r@ == renumbered(objs@, first_id as int, select),
{
    let mut r: Vec<SceneObject> = Vec::new();
    let mut i: usize = 0;
    while i < objs.len()
        invariant
            i <= objs@.len(),
            first_id + objs@.len() <= usize::MAX,
            r@ == renumbered(objs@.take(i as int), first_id as int, select),
        decreases objs@.len() - i,
    {
        let mut obj = objs[i].clone();
        obj.id = first_id + i;
        if select {
            obj.selected = true;
        }
        r.push(obj);
        proof {
            assert(r@ =~= renumbered(objs@.take(i + 1), first_id as int, select));
        }
        i = i + 1;
    }
    proof {
        assert(objs@.take(objs@.len() as int) =~= objs@);
    }
    r
}

/// The scene's objects with their editing state.
pub struct SceneEditor {
    pub objects: Vec<SceneObject>,
    pub clipboard: Vec<SceneObject>,
    /// Id of the next object created.
    pub next_id: usize,
    pub history: UndoHistory,
    /// An object being created, not yet in the scene.
    pub draft: Option<SceneObject>,
    /// The draft's name field should take the keyboard focus.
    pub should_focus_name: bool,
}

/// The clipboard, the draft and the focus request are unchanged.
pub open spec fn same_extras(o: SceneEditor, f: SceneEditor) -> bool {
    &&& f.clipboard@ == o.clipboard@
    &&& f.draft == o.draft
    &&& f.should_focus_name == o.should_focus_name
}

/// `f` is `o` after copying the selected objects to the clipboard.
pub open spec fn copied(o: SceneEditor, f: SceneEditor) -> bool {
    &&& f.clipboard@ == selected_of(o.objects@)
    &&& f.objects@ == o.objects@
    &&& f.next_id == o.next_id
    &&& f.history == o.history
    &&& f.draft == o.draft
    &&& f.should_focus_name == o.should_focus_name
}

/// `f` is `o` after a paste: the clipboard's objects join the scene under
/// fresh ids, selected, while the objects already there are deselected;
/// the addition is recorded as one edit.
pub open spec fn pasted(o: SceneEditor, f: SceneEditor) -> bool {
    let fresh = renumbered(o.clipboard@, o.next_id as int, true);
    &&& f.objects@ == deselected(o.objects@) + fresh
    &&& f.next_id == o.next_id + o.clipboard@.len()
    &&& one_more_edit(o.history.undo_stack@, f.history.undo_stack@)
    &&& newest_is(f.history.undo_stack@, adds(fresh))
    &&& f.history.redo_stack@.len() == 0
    &&& same_extras(o, f)
}

/// `f` is `o` after duplicating the selected objects: the copies, still
/// selected, join the scene under fresh ids, and the addition is recorded
/// as one edit.
pub open spec fn duplicated(o: SceneEditor, f: SceneEditor) -> bool {
    let fresh = renumbered(selected_of(o.objects@), o.next_id as int, false);
    &&& f.objects@ == o.objects@ + fresh
    &&& f.next_id == o.next_id + selected_of(o.objects@).len()
    &&& one_more_edit(o.history.undo_stack@, f.history.undo_stack@)
    &&& newest_is(f.history.undo_stack@, adds(fresh))
    &&& f.history.redo_stack@.len() == 0
    &&& same_extras(o, f)
}

/// `f` is `o` after deleting the selected objects, their deletion recorded
/// as one edit; nothing changes when none is selected.
pub open spec fn deleted(o: SceneEditor, f: SceneEditor) -> bool {
    &&& selected_of(o.objects@).len() == 0 ==> f.objects@ == o.objects@ && f.history == o.history
    &&& selected_of(o.objects@).len() > 0 ==> {
        &&& f.objects@ == unselected_of(o.objects@)
        &&& one_more_edit(o.history.undo_stack@, f.history.undo_stack@)
        &&& newest_is(f.history.undo_stack@, deletes(selected_of(o.objects@)))
        &&& f.history.redo_stack@.len() == 0
    }
    &&& f.next_id == o.next_id
    &&& same_extras(o, f)
}

/// `f` is `o` after an undo.
pub open spec fn undone(o: SceneEditor, f: SceneEditor) -> bool {
    &&& (f.objects@, f.history.undo_stack@, f.history.redo_stack@) == undo_step(
        o.objects@,
        o.history.undo_stack@,
        o.history.redo_stack@,
    )
    &&& f.next_id == o.next_id
    &&& same_extras(o, f)
}

/// `f` is `o` after a redo.
pub open spec fn redone(o: SceneEditor, f: SceneEditor) -> bool {
    &&& (f.objects@, f.history.undo_stack@, f.history.redo_stack@) == redo_step(
        o.objects@,
        o.history.undo_stack@,
        o.history.redo_stack@,
    )
    &&& f.next_id == o.next_id
    &&& same_extras(o, f)
}

/// A new object as a draft starts: a white unit cube at the origin named
/// after its id, visible and unselected.
pub open spec fn is_fresh_draft(obj: SceneObject, id: usize) -> bool {
    &&& obj.id == id
    &&& obj.label@ == "Object "@ + dec_str(id as nat)
    &&& obj.position@ == seq![0u32, 0, 0]
    &&& obj.rotation@ == seq![0u32, 0, 0, 0]
    &&& obj.scale@ == seq![ONE_F32_BITS, ONE_F32_BITS, ONE_F32_BITS]
    &&& obj.rotation_euler@ == seq![0u32, 0, 0]
    &&& obj.visible
    &&& !obj.selected
    &&& obj.geometry_type == GeometryType::Cube
    &&& obj.color@ == seq![ONE_F32_BITS, ONE_F32_BITS, ONE_F32_BITS]
    &&& obj.show_label
    &&& obj.plane_surface == ONE_F32_BITS
    &&& !obj.show_normal
    &&& obj.cube_side == ONE_F32_BITS
    &&& obj.sphere_radius == HALF_F32_BITS
}

/// `f` is `o` after asking for a new object: a fresh draft numbered with
/// the next id opens, with its name field focused, unless a draft is
/// already open.
pub open spec fn drafted(o: SceneEditor, f: SceneEditor) -> bool {
    &&& o.draft is None ==> (f.draft matches Some(d) && is_fresh_draft(d, o.next_id) && f.should_focus_name)
    &&& o.draft is Some ==> f.draft == o.draft && f.should_focus_name == o.should_focus_name
    &&& f.objects@ == o.objects@
    &&& f.clipboard@ == o.clipboard@
    &&& f.next_id == o.next_id
    &&& f.history == o.history
}

impl SceneEditor {
    /// An empty scene; ids start at 1.
    pub fn new() -> (r: Self)
        ensures
            r.objects@.len() == 0,
            r.clipboard@.len() == 0,
            r.next_id == 1,
            r.history.undo_stack@.len() == 0,
            r.history.redo_stack@.len() == 0,
            r.draft is None,
            !r.should_focus_name,
    {
        SceneEditor {
            objects: Vec::new(),
            clipboard: Vec::new(),
            next_id: 1,
            history: UndoHistory::new(),
            draft: None,
            should_focus_name: false,
        }
    }

    /// Put the selected objects on the clipboard.
    pub fn copy_selected(&mut self)
        ensures
            copied(*old(self), *final(self)),
    {
        self.clipboard = selected_objects(&self.objects);
    }

    /// Paste the clipboard: its objects join the scene under fresh ids,
    /// selected, while the objects already there are deselected; the
    /// addition is recorded as one edit.
    pub fn paste(&mut self)
        requires
            old(self).next_id + old(self).clipboard@.len() <= usize::MAX,
        ensures
            pasted(*old(self), *final(self)),
            ids_ok(old(self).objects@, old(self).next_id as int) ==> ids_ok(
                final(self).objects@,
                final(self).next_id as int,
            ),
    {
        let mut fresh = fresh_copies(&self.clipboard, self.next_id, true);
        self.next_id = self.next_id + self.clipboard.len();
        self.deselect_all();
        self.record_additions(&fresh);
        let ghost kept = self.objects@;
        let ghost added = fresh@;
        self.objects.append(&mut fresh);
        proof {
            assert(self.objects@ == kept + added);
            if ids_ok(old(self).objects@, old(self).next_id as int) {
                lemma_renumbered_ids(kept, added, old(self).next_id as int);
            }
        }
    }

    /// Duplicate the selected objects: the copies, still selected, join the
    /// scene under fresh ids, and the addition is recorded as one edit.
    pub fn duplicate_selected(&mut self)
        requires
            old(self).next_id + selected_of(old(self).objects@).len() <= usize::MAX,
        ensures
            duplicated(*old(self), *final(self)),
            ids_ok(old(self).objects@, old(self).next_id as int) ==> ids_ok(
                final(self).objects@,
                final(self).next_id as int,
            ),
    {
        let chosen = selected_objects(&self.objects);
        let mut fresh = fresh_copies(&chosen, self.next_id, false);
        self.next_id = self.next_id + chosen.len();
        self.record_additions(&fresh);
        let ghost kept = self.objects@;
        let ghost added = fresh@;
        self.objects.append(&mut fresh);
        proof {
            assert(self.objects@ == kept + added);
            if ids_ok(old(self).objects@, old(self).next_id as int) {
                lemma_renumbered_ids(kept, added, old(self).next_id as int);
            }
        }
    }

    /// Delete the selected objects, recording their deletion as one edit;
    /// nothing happens when none is selected.
    pub fn delete_selected(&mut self)
        ensures
            deleted(*old(self), *final(self)),
            ids_ok(old(self).objects@, old(self).next_id as int) ==> ids_ok(
                final(self).objects@,
                final(self).next_id as int,
            ),
    {
        let doomed = selected_objects(&self.objects);
        if doomed.len() > 0 {
            let mut cmds: Vec<UndoCommand> = Vec::new();
            let mut k: usize = 0;
            while k < doomed.len()
                invariant
                    k <= doomed@.len(),
                    cmds@ == deletes(doomed@.take(k as int)),
                decreases doomed@.len() - k,
            {
                cmds.push(UndoCommand::Delete(doomed[k].clone()));
                proof {
                    assert(cmds@ =~= deletes(doomed@.take(k + 1)));
                }
                k = k + 1;
            }
            proof {
                assert(doomed@.take(doomed@.len() as int) =~= doomed@);
            }
            let ghost before = self.history.undo_stack@;
            self.history.push_undo(UndoCommand::MultiAction(cmds));
            proof {
                lemma_one_more_edit(before, self.history.undo_stack@, UndoCommand::MultiAction(cmds));
            }
            let ghost before_objs = self.objects@;
            self.objects = unselected_objects(&self.objects);
            proof {
                if ids_ok(before_objs, self.next_id as int) {
                    lemma_unselected_ids(before_objs, self.next_id as int);
                }
            }
        }
    }

    /// Confirm an edit of an object: the object of the scene carrying the
    /// draft's id (the first, if several do) takes the draft's values, and
    /// the change is recorded as an edit from the old values to the new.
    /// Nothing happens when no object carries the id or nothing changed.
    pub fn confirm_edit(&mut self, draft: SceneObject)
        ensures
            match index_of_id(old(self).objects@, draft.id) {
                Some(i) => if same_content(old(self).objects@[i], draft) {
                    final(self).objects@ == old(self).objects@ && final(self).history == old(self).history
                } else {
                    &&& final(self).objects@ == old(self).objects@.update(i, draft)
                    &&& one_more_edit(old(self).history.undo_stack@, final(self).history.undo_stack@)
                    &&& final(self).history.undo_stack@.last() == (UndoCommand::Edit {
                        old: old(self).objects@[i],
                        new: draft,
                    })
                    &&& final(self).history.redo_stack@.len() == 0
                },
                None => final(self).objects@ == old(self).objects@ && final(self).history == old(self).history,
            },
            final(self).next_id == old(self).next_id,
            same_extras(*old(self), *final(self)),
    {
        match find_id(&self.objects, draft.id) {
            None => {},
            Some(i) => {
                if !same_object(&self.objects[i], &draft) {
                    let before = self.objects[i].clone();
                    self.objects.set(i, draft.clone());
                    let ghost stack = self.history.undo_stack@;
                    let cmd = UndoCommand::Edit { old: before, new: draft };
                    self.history.push_undo(cmd);
                    proof {
                        lemma_one_more_edit(stack, self.history.undo_stack@, cmd);
                    }
                }
            },
        }
    }

    /// Delete the object carrying `id` (the first, if several do),
    /// recording its deletion as an edit; nothing happens when none does.
    pub fn delete_by_id(&mut self, id: usize)
        ensures
            match index_of_id(old(self).objects@, id) {
                Some(i) => {
                    &&& final(self).objects@ == old(self).objects@.remove(i)
                    &&& one_more_edit(old(self).history.undo_stack@, final(self).history.undo_stack@)
                    &&& final(self).history.undo_stack@.last() == UndoCommand::Delete(old(self).objects@[i])
                    &&& final(self).history.redo_stack@.len() == 0
                },
                None => final(self).objects@ == old(self).objects@ && final(self).history == old(self).history,
            },
            final(self).next_id == old(self).next_id,
            same_extras(*old(self), *final(self)),
    {
        match find_id(&self.objects, id) {
            None => {},
            Some(i) => {
                let removed = self.objects.remove(i);
                let ghost stack = self.history.undo_stack@;
                let cmd = UndoCommand::Delete(removed);
                self.history.push_undo(cmd);
                proof {
                    lemma_one_more_edit(stack, self.history.undo_stack@, cmd);
                }
            },
        }
    }

    /// Reverse the newest edit, if any.
    pub fn undo(&mut self)
        ensures
            undone(*old(self), *final(self)),
    {
        self.history.undo(&mut self.objects);
    }

    /// Apply the newest undone edit again, if any.
    pub fn redo(&mut self)
        ensures
            redone(*old(self), *final(self)),
    {
        self.history.redo(&mut self.objects);
    }

    /// Open a draft for a new object, unless one is open.
    pub fn start_draft(&mut self)
        ensures
            drafted(*old(self), *final(self)),
    {
        if self.draft.is_none() {
            let id = self.next_id;
            let mut label = String::from_str("Object ");
            push_decimal(&mut label, id as u64);
            let obj = SceneObject::new(id, label, [0, 0, 0], GeometryType::Cube);
            proof {
                assert(obj.position@ =~= seq![0u32, 0, 0]);
            }
            self.draft = Some(obj);
            self.should_focus_name = true;
        }
    }

    /// Add the draft, as edited, to the scene and close it; its id is used
    /// up. Nothing happens when no draft is open.
    pub fn commit_draft(&mut self)
        requires
            old(self).draft is Some ==> old(self).next_id < usize::MAX,
        ensures
            old(self).draft matches Some(d) ==> (final(self).objects@ == old(self).objects@.push(d)
                && final(self).next_id == old(self).next_id + 1),
            old(self).draft is None ==> final(self).objects@ == old(self).objects@ && final(self).next_id == old(
                self,
            ).next_id,
            final(self).draft is None,
            final(self).clipboard@ == old(self).clipboard@,
            final(self).history == old(self).history,
            final(self).should_focus_name == old(self).should_focus_name,
    {
        match self.draft.take() {
            Some(obj) => {
                self.objects.push(obj);
                self.next_id = self.next_id + 1;
            },
            None => {},
        }
    }

    /// Act on a key press; says whether the key was an editing shortcut.
    pub fn handle_key(&mut self, key: &Key, ctrl: bool, shift: bool) -> (handled: bool)
        requires
            shortcut_of(*key, ctrl, shift) == Some(Shortcut::Paste) ==> old(self).next_id + old(self).clipboard@.len()
                <= usize::MAX,
            shortcut_of(*key, ctrl, shift) == Some(Shortcut::Duplicate) ==> old(self).next_id + selected_of(
                old(self).objects@,
            ).len() <= usize::MAX,
        ensures
            handled == shortcut_of(*key, ctrl, shift) is Some,
            match shortcut_of(*key, ctrl, shift) {
                Some(Shortcut::Copy) => copied(*old(self), *final(self)),
                Some(Shortcut::Paste) => pasted(*old(self), *final(self)),
                Some(Shortcut::Duplicate) => duplicated(*old(self), *final(self)),
                Some(Shortcut::Undo) => undone(*old(self), *final(self)),
                Some(Shortcut::Redo) => redone(*old(self), *final(self)),
                Some(Shortcut::NewObject) => drafted(*old(self), *final(self)),
                Some(Shortcut::Delete) => deleted(*old(self), *final(self)),
                None => *final(self) == *old(self),
            },
    {
        match shortcut(key, ctrl, shift) {
            Some(Shortcut::Copy) => self.copy_selected(),
            Some(Shortcut::Paste) => self.paste(),
            Some(Shortcut::Duplicate) => self.duplicate_selected(),
            Some(Shortcut::Undo) => self.undo(),
            Some(Shortcut::Redo) => self.redo(),
            Some(Shortcut::NewObject) => self.start_draft(),
            Some(Shortcut::Delete) => self.delete_selected(),
            None => {
                return false;
            },
        }
        true
    }

    /// Record the addition of `fresh` as one edit.
    fn record_additions(&mut self, fresh: &Vec<SceneObject>)
        ensures
            one_more_edit(old(self).history.undo_stack@, final(self).history.undo_stack@),
            newest_is(final(self).history.undo_stack@, adds(fresh@)),
            final(self).history.redo_stack@.len() == 0,
            final(self).objects@ == old(self).objects@,
            final(self).clipboard@ == old(self).clipboard@,
            final(self).next_id == old(self).next_id,
            final(self).draft == old(self).draft,
            final(self).should_focus_name == old(self).should_focus_name,
    {
        let mut cmds: Vec<UndoCommand> = Vec::new();
        let mut k: usize = 0;
        while k < fresh.len()
            invariant
                k <= fresh@.len(),
                cmds@ == adds(fresh@.take(k as int)),
            decreases fresh@.len() - k,
        {
            cmds.push(UndoCommand::Add(fresh[k].clone()));
            proof {
                assert(cmds@ =~= adds(fresh@.take(k + 1)));
            }
            k = k + 1;
        }
        proof {
            assert(fresh@.take(fresh@.len() as int) =~= fresh@);
        }
        let ghost before = self.history.undo_stack@;
        self.history.push_undo(UndoCommand::MultiAction(cmds));
        proof {
            lemma_one_more_edit(before, self.history.undo_stack@, UndoCommand::MultiAction(cmds));
        }
    }

    /// Deselect every object.
    fn deselect_all(&mut self)
        ensures
            final(self).objects@ == deselected(old(self).objects@),
            final(self).clipboard@ == old(self).clipboard@,
            final(self).next_id == old(self).next_id,
            final(self).history == old(self).history,
            final(self).draft == old(self).draft,
            final(self).should_focus_name == old(self).should_focus_name,
    {
        let ghost start = self.objects@;
        let mut j: usize = 0;
        while j < self.objects.len()
            invariant
                j <= self.objects@.len(),
                self.objects@.len() == start.len(),
                forall|k: int| 0 <= k < j ==> #[trigger] self.objects@[k] == (SceneObject { selected: false, ..start[k] }),
                forall|k: int| j <= k < start.len() ==> #[trigger] self.objects@[k] == start[k],
                self.clipboard@ == old(self).clipboard@,
                self.next_id == old(self).next_id,
                self.history == old(self).history,
                self.draft == old(self).draft,
                self.should_focus_name == old(self).should_focus_name,
            decreases start.len() - j,
        {
            let mut o = self.objects[j].clone();
            o.selected = false;
            self.objects.set(j, o);
            j = j + 1;
        }
        proof {
            assert(self.objects@ =~= deselected(start));
        }
    }
}

proof fn lemma_one_more_edit(before: Seq<UndoCommand>, after: Seq<UndoCommand>, cmd: UndoCommand)
    requires
        before.len() + 1 > MAX_UNDO ==> after == before.push(cmd).drop_first(),
        before.len() + 1 <= MAX_UNDO ==> after == before.push(cmd),
    ensures
        one_more_edit(before, after),
        after.len() > 0 && after.last() == cmd,
{
    if before.len() + 1 > MAX_UNDO {
        assert(after.drop_last() =~= before.drop_first());
    } else {
        assert(after.drop_last() =~= before);
    }
}

/// Appending objects numbered on from `next_id` to objects whose ids are
/// distinct and below `next_id` keeps the ids distinct, all below the new
/// next id.
proof fn lemma_renumbered_ids(kept: Seq<SceneObject>, added: Seq<SceneObject>, next_id: int)
    requires
        ids_ok(kept, next_id),
        0 <= next_id,
        next_id + added.len() <= usize::MAX,
        forall|k: int| 0 <= k < added.len() ==> (#[trigger] added[k]).id == next_id + k,
    ensures
        ids_ok(kept + added, next_id + added.len()),
{
    let all = kept + added;
    assert forall|k: int| 0 <= k < all.len() implies (#[trigger] all[k]).id < next_id + added.len() by {
        if k < kept.len() {
            assert(all[k] == kept[k]);
        } else {
            assert(all[k] == added[k - kept.len()]);
        }
    }
    assert forall|i: int, j: int| 0 <= i < j < all.len() implies (#[trigger] all[i]).id != (#[trigger] all[j]).id by {
        if j < kept.len() {
            assert(all[i] == kept[i] && all[j] == kept[j]);
        } else if i < kept.len() {
            assert(all[i] == kept[i] && all[j] == added[j - kept.len()]);
        } else {
            assert(all[i] == added[i - kept.len()] && all[j] == added[j - kept.len()]);
        }
    }
}

/// An id that no object carries is carried by no unselected object.
proof fn lemma_unselected_lacks(objs: Seq<SceneObject>, id: usize)
    requires
        forall|k: int| 0 <= k < objs.len() ==> (#[trigger] objs[k]).id != id,
    ensures
        forall|k: int| 0 <= k < unselected_of(objs).len() ==> (#[trigger] unselected_of(objs)[k]).id != id,
    decreases objs.len(),
{
    if objs.len() > 0 {
        lemma_unselected_lacks(objs.drop_last(), id);
    }
}

/// Keeping the unselected objects keeps the ids distinct and below
/// `next_id`.
proof fn lemma_unselected_ids(objs: Seq<SceneObject>, next_id: int)
    requires
        ids_ok(objs, next_id),
    ensures
        ids_ok(unselected_of(objs), next_id),
    decreases objs.len(),
{
    if objs.len() > 0 {
        let init = objs.drop_last();
        let o = objs.last();
        assert(ids_ok(init, next_id)) by {
            assert forall|i: int, j: int| 0 <= i < j < init.len() implies (#[trigger] init[i]).id != (
            #[trigger] init[j]).id by {
                assert(init[i] == objs[i] && init[j] == objs[j]);
            }
        }
        lemma_unselected_ids(init, next_id);
        if !o.selected {
            assert forall|k: int| 0 <= k < init.len() implies (#[trigger] init[k]).id != o.id by {
                assert(init[k] == objs[k]);
                assert(objs[k].id != objs[objs.len() - 1].id);
            }
            lemma_unselected_lacks(init, o.id);
            let prev = unselected_of(init);
            let now = prev.push(o);
            assert(unselected_of(objs) == now);
            assert forall|i: int, j: int| 0 <= i < j < now.len() implies (#[trigger] now[i]).id != (
            #[trigger] now[j]).id by {
                if j == prev.len() {
                    assert(now[i] == prev[i]);
                } else {
                    assert(now[i] == prev[i] && now[j] == prev[j]);
                }
            }
            assert forall|k: int| 0 <= k < now.len() implies (#[trigger] now[k]).id < next_id by {
                if k < prev.len() {
                    assert(now[k] == prev[k]);
                }
            }
        }
    }
}

proof fn lemma_id_absent(objs: Seq<SceneObject>, id: usize)
    requires
        forall|k: int| 0 <= k < objs.len() ==> (#[trigger] objs[k]).id != id,
    ensures
        index_of_id(objs, id) is None,
    decreases objs.len(),
{
    if objs.len() > 0 {
        lemma_id_absent(objs.drop_last(), id);
    }
}

/// Undoing the additions of `added`, newest first, takes them off the end
/// of `kept + added` when their ids are distinct and none is used in `kept`.
proof fn lemma_undo_adds(kept: Seq<SceneObject>, added: Seq<SceneObject>)
    requires
        forall|i: int, j: int| 0 <= i < j < added.len() ==> (#[trigger] added[i]).id != (#[trigger] added[j]).id,
        forall|i: int, j: int| 0 <= i < kept.len() && 0 <= j < added.len() ==> (#[trigger] kept[i]).id != (#[trigger] added[j]).id,
    ensures
        undone_all(kept + added, adds(added)) == kept,
    decreases added.len(),
{
    if added.len() > 0 {
        let o = added.last();
        let init = added.drop_last();
        let cmds = adds(added);
        assert(cmds.last() == UndoCommand::Add(o));
        assert(cmds.drop_last() =~= adds(init));
        assert((kept + added).drop_last() =~= kept + init);
        assert((kept + added).last() == o);
        assert forall|k: int| 0 <= k < (kept + init).len() implies (#[trigger] (kept + init)[k]).id != o.id by {
            if k < kept.len() {
                assert((kept + init)[k] == kept[k]);
            } else {
                assert((kept + init)[k] == added[k - kept.len()]);
            }
        }
        lemma_id_absent(kept + init, o.id);
        crate::scene::lemma_without_absent(kept + init, o.id);
        assert(applied(kept + added, cmds.last(), true) == kept + init);
        lemma_undo_adds(kept, init);
    } else {
        assert(kept + added =~= kept);
    }
}

/// Undo right after a paste takes the pasted objects out again and leaves
/// the earlier objects as the paste left them, deselected, when their ids
/// were all below the first id given to a pasted object.
pub proof fn lemma_undo_paste(
    objects: Seq<SceneObject>,
    clipboard: Seq<SceneObject>,
    next_id: int,
    undo_stack: Seq<UndoCommand>,
    redo_stack: Seq<UndoCommand>,
)
    requires
        ids_below(objects, next_id),
        0 <= next_id,
        next_id + clipboard.len() <= usize::MAX,
        newest_is(undo_stack, adds(renumbered(clipboard, next_id, true))),
    ensures
        undo_step(deselected(objects) + renumbered(clipboard, next_id, true), undo_stack, redo_stack).0 == deselected(
            objects,
        ),
{
    let kept = deselected(objects);
    let added = renumbered(clipboard, next_id, true);
    assert forall|i: int, j: int| 0 <= i < j < added.len() implies (#[trigger] added[i]).id != (
    #[trigger] added[j]).id by {}
    assert forall|i: int, j: int| 0 <= i < kept.len() && 0 <= j < added.len() implies (#[trigger] kept[i]).id != (
    #[trigger] added[j]).id by {
        assert(objects[i].id < next_id);
    }
    lemma_undo_adds(kept, added);
}

/// Undoing the deletions of `gone`, newest first, puts them back after
/// `kept`, newest first.
proof fn lemma_undo_deletes(kept: Seq<SceneObject>, gone: Seq<SceneObject>)
    ensures
        undone_all(kept, deletes(gone)) == kept + gone.reverse(),
    decreases gone.len(),
{
    if gone.len() > 0 {
        let o = gone.last();
        let init = gone.drop_last();
        let cmds = deletes(gone);
        assert(cmds.last() == UndoCommand::Delete(o));
        assert(cmds.drop_last() =~= deletes(init));
        assert(applied(kept, cmds.last(), true) == kept.push(o));
        assert(undone_all(kept, cmds) == undone_all(kept.push(o), cmds.drop_last()));
        lemma_undo_deletes(kept.push(o), init);
        assert(undone_all(kept, cmds) == kept.push(o) + init.reverse());
        assert(gone.reverse() =~= seq![o] + init.reverse());
        assert(kept.push(o) + init.reverse() =~= kept + gone.reverse());
    } else {
        assert(kept + gone.reverse() =~= kept);
    }
}

/// Undo right after deleting the selected objects brings them back after
/// the objects that stayed, in reverse order.
pub proof fn lemma_undo_delete(
    objects: Seq<SceneObject>,
    undo_stack: Seq<UndoCommand>,
    redo_stack: Seq<UndoCommand>,
)
    requires
        newest_is(undo_stack, deletes(selected_of(objects))),
    ensures
        undo_step(unselected_of(objects), undo_stack, redo_stack).0 == unselected_of(objects) + selected_of(
            objects,
        ).reverse(),
{
    lemma_undo_deletes(unselected_of(objects), selected_of(objects));
}

} // verus!

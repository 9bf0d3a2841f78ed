//! Scene objects and reversible scene edits (undo / redo).
//!
//! Geometric values (position, rotation, scale, colors, primitive sizes)
//! are carried as the bit patterns of their `f32` values: the edits only
//! copy and compare objects by id, they never compute with those values.

use vstd::prelude::*;

verus! {

#[derive(Debug, Clone, Copy, PartialEq, Eq, Structural)]
pub enum GeometryType {
    Cube,
    Sphere,
    Plane,
    Line,
    /// An imported solid model; its mesh lives with the renderer, keyed by
    /// the object id.
    Mesh,
}

/// Bit pattern of `1.0f32`.
pub const ONE_F32_BITS: u32 = 0x3f80_0000;

/// Bit pattern of `0.5f32`.
pub const HALF_F32_BITS: u32 = 0x3f00_0000;

/// One object of the scene.
#[derive(Debug, PartialEq)]
pub struct SceneObject {
    pub id: usize,
    pub label: String,
    pub position: [u32; 3],
    /// Rotation quaternion `(x, y, z, w)`.
    pub rotation: [u32; 4],
    pub scale: [u32; 3],
    pub rotation_euler: [u32; 3],
    pub visible: bool,
    pub selected: bool,
    pub geometry_type: GeometryType,
    pub color: [u32; 3],
    pub show_label: bool,
    pub plane_surface: u32,
    pub show_normal: bool,
    pub cube_side: u32,
    pub sphere_radius: u32,
}

impl Clone for SceneObject {
    fn clone(&self) -> (r: Self)
        ensures
            r == *self,
    {
        SceneObject {
            id: self.id,
            label: self.label.clone(),
            position: self.position,
            rotation: self.rotation,
            scale: self.scale,
            rotation_euler: self.rotation_euler,
            visible: self.visible,
            selected: self.selected,
            geometry_type: self.geometry_type,
            color: self.color,
            show_label: self.show_label,
            plane_surface: self.plane_surface,
            show_normal: self.show_normal,
            cube_side: self.cube_side,
            sphere_radius: self.sphere_radius,
        }
    }
}

impl SceneObject {
    /// A visible, unselected, white object at `position` with identity
    /// rotation, unit scale and default primitive sizes (plane 1, cube 1,
    /// sphere radius 0.5).
    pub fn new(id: usize, label: String, position: [u32; 3], geometry_type: GeometryType) -> (r: Self)
        ensures
            r.id == id,
            r.label == label,
            r.position == position,
            r.rotation@ == seq![0u32, 0, 0, 0],
            r.scale@ == seq![ONE_F32_BITS, ONE_F32_BITS, ONE_F32_BITS],
            r.rotation_euler@ == seq![0u32, 0, 0],
            r.visible,
            !r.selected,
            r.geometry_type == geometry_type,
            r.color@ == seq![ONE_F32_BITS, ONE_F32_BITS, ONE_F32_BITS],
            r.show_label,
            r.plane_surface == ONE_F32_BITS,
            !r.show_normal,
            r.cube_side == ONE_F32_BITS,
            r.sphere_radius == HALF_F32_BITS,
    {
        let r = SceneObject {
            id,
            label,
            position,
            rotation: [0, 0, 0, 0],
            scale: [ONE_F32_BITS, ONE_F32_BITS, ONE_F32_BITS],
            rotation_euler: [0, 0, 0],
            visible: true,
            selected: false,
            geometry_type,
            color: [ONE_F32_BITS, ONE_F32_BITS, ONE_F32_BITS],
            show_label: true,
            plane_surface: ONE_F32_BITS,
            show_normal: false,
            cube_side: ONE_F32_BITS,
            sphere_radius: HALF_F32_BITS,
        };
        proof {
            assert(r.rotation@ =~= seq![0u32, 0, 0, 0]);
            assert(r.scale@ =~= seq![ONE_F32_BITS, ONE_F32_BITS, ONE_F32_BITS]);
            assert(r.rotation_euler@ =~= seq![0u32, 0, 0]);
            assert(r.color@ =~= seq![ONE_F32_BITS, ONE_F32_BITS, ONE_F32_BITS]);
        }
        r
    }
}

/// A reversible scene edit.
#[derive(Debug)]
pub enum UndoCommand {
    Add(SceneObject),
    Delete(SceneObject),
    Edit { old: SceneObject, new: SceneObject },
    MultiAction(Vec<UndoCommand>),
}

/// The objects without those carrying `id`.
pub open spec fn without_id(objs: Seq<SceneObject>, id: usize) -> Seq<SceneObject>
    decreases objs.len(),
{
    if objs.len() == 0 {
        Seq::empty()
    } else {
        let prev = without_id(objs.drop_last(), id);
        if objs.last().id == id {
            prev
        } else {
            prev.push(objs.last())
        }
    }
}

/// The position of the first object carrying `id`.
pub open spec fn index_of_id(objs: Seq<SceneObject>, id: usize) -> Option<int>
    decreases objs.len(),
{
    if objs.len() == 0 {
        None
    } else {
        match index_of_id(objs.drop_last(), id) {
            Some(i) => Some(i),
            None => if objs.last().id == id {
                Some(objs.len() - 1)
            } else {
                None
            },
        }
    }
}

/// The objects after applying (or, with `undo`, reversing) a command.
pub open spec fn applied(objs: Seq<SceneObject>, cmd: UndoCommand, undo: bool) -> Seq<SceneObject>
    decreases cmd, 1nat,
{
    match cmd {
        UndoCommand::Add(o) => if undo {
            without_id(objs, o.id)
        } else {
            objs.push(o)
        },
        UndoCommand::Delete(o) => if undo {
            objs.push(o)
        } else {
            without_id(objs, o.id)
        },
        UndoCommand::Edit { old, new } => {
            let t = if undo { old } else { new };
            match index_of_id(objs, t.id) {
                Some(i) => objs.update(i, t),
                None => objs,
            }
        },
        UndoCommand::MultiAction(cmds) => if undo {
            undone_all(objs, cmds@)
        } else {
            applied_all(objs, cmds@)
        },
    }
}

/// Applying every command in order.
pub open spec fn applied_all(objs: Seq<SceneObject>, cmds: Seq<UndoCommand>) -> Seq<SceneObject>
    decreases cmds, 0nat,
{
    if cmds.len() == 0 {
        objs
    } else {
        applied(applied_all(objs, cmds.drop_last()), cmds.last(), false)
    }
}

/// Reversing every command, last first.
pub open spec fn undone_all(objs: Seq<SceneObject>, cmds: Seq<UndoCommand>) -> Seq<SceneObject>
    decreases cmds, 0nat,
{
    if cmds.len() == 0 {
        objs
    } else {
        undone_all(applied(objs, cmds.last(), true), cmds.drop_last())
    }
}

fn remove_id(objects: &mut Vec<SceneObject>, id: usize)
    ensures
        final(objects)@ == without_id(old(objects)@, id),
{
    let mut kept: Vec<SceneObject> = Vec::new();
    let mut i: usize = 0;
    while i < objects.len()
        invariant
            i <= objects@.len(),
            kept@ == without_id(objects@.take(i as int), id),
            objects@ == old(objects)@,
        decreases objects@.len() - i,
    {
        proof {
            assert(objects@.take(i + 1).drop_last() =~= objects@.take(i as int));
        }
        if objects[i].id != id {
            kept.push(objects[i].clone());
        }
        i = i + 1;
    }
    proof {
        assert(objects@.take(objects@.len() as int) =~= objects@);
    }
    *objects = kept;
}

/// Apply (or reverse, when `is_undo`) a command to the scene's objects.
pub fn apply_undo_command(objects: &mut Vec<SceneObject>, cmd: &UndoCommand, is_undo: bool)
    ensures
        final(objects)@ == applied(old(objects)@, *cmd, is_undo),
    decreases cmd,
{
    match cmd {
        UndoCommand::Add(obj) => {
            if is_undo {
                remove_id(objects, obj.id);
            } else {
                objects.push(obj.clone());
            }
        },
        UndoCommand::Delete(obj) => {
            if is_undo {
                objects.push(obj.clone());
            } else {
                remove_id(objects, obj.id);
            }
        },
        UndoCommand::Edit { old: before, new: after } => {
            let target = if is_undo { before } else { after };
            let mut i: usize = 0;
            while i < objects.len()
                invariant
                    i <= objects@.len(),
                    objects@ == old(objects)@,
                    index_of_id(objects@.take(i as int), target.id) is None,
                    applied(old(objects)@, *cmd, is_undo) == match index_of_id(old(objects)@, target.id) {
                        Some(j) => old(objects)@.update(j, *target),
                        None => old(objects)@,
                    },
                decreases objects@.len() - i,
            {
                proof {
                    assert(objects@.take(i + 1).drop_last() =~= objects@.take(i as int));
                }
                if objects[i].id == target.id {
                    proof {
                        lemma_index_of_id_prefix(objects@, target.id, i + 1);
                    }
                    objects.set(i, target.clone());
                    return;
                }
                i = i + 1;
            }
            proof {
                assert(objects@.take(objects@.len() as int) =~= objects@);
            }
        },
        UndoCommand::MultiAction(cmds) => {
            if is_undo {
                let mut k = cmds.len();
                let ghost start = objects@;
                proof {
                    assert(cmds@.take(k as int) =~= cmds@);
                }
                while k > 0
                    invariant
                        k <= cmds@.len(),
                        *cmd == UndoCommand::MultiAction(*cmds),
                        undone_all(old(objects)@, cmds@) == undone_all(objects@, cmds@.take(k as int)),
                    decreases k,
                {
                    proof {
                        assert(cmds@.take(k as int).drop_last() =~= cmds@.take(k - 1));
                        assert(cmds@.take(k as int).last() == cmds@[k - 1]);
                    }
                    proof {
                        assert((*cmd)->MultiAction_0 == *cmds);
                        assert(decreases_to!(*cmd => (*cmd)->MultiAction_0));
                        assert(decreases_to!(*cmds => cmds@));
                        assert(decreases_to!(cmds@ => cmds@[k - 1]));
                        assert(decreases_to!(*cmd => cmds@[k - 1]));
                    }
                    apply_undo_command(objects, &cmds[k - 1], true);
                    k = k - 1;
                }
            } else {
                let mut k: usize = 0;
                while k < cmds.len()
                    invariant
                        k <= cmds@.len(),
                        *cmd == UndoCommand::MultiAction(*cmds),
                        objects@ == applied_all(old(objects)@, cmds@.take(k as int)),
                    decreases cmds@.len() - k,
                {
                    proof {
                        assert(cmds@.take(k + 1).drop_last() =~= cmds@.take(k as int));
                        assert(cmds@.take(k + 1).last() == cmds@[k as int]);
                    }
                    proof {
                        assert((*cmd)->MultiAction_0 == *cmds);
                        assert(decreases_to!(*cmd => (*cmd)->MultiAction_0));
                        assert(decreases_to!(*cmds => cmds@));
                        assert(decreases_to!(cmds@ => cmds@[k as int]));
                        assert(decreases_to!(*cmd => cmds@[k as int]));
                    }
                    apply_undo_command(objects, &cmds[k], false);
                    k = k + 1;
                }
                proof {
                    assert(cmds@.take(cmds@.len() as int) =~= cmds@);
                }
            }
        },
    }
}

/// Whether undoing `cmd` right after applying it to `objs` is meant to
/// restore `objs`: an added object's id is new, a deleted object is the
/// last one and the only one with its id, an edit keeps the id and starts
/// from the object as it is, and a compound edit is made of such steps.
pub open spec fn reversible(objs: Seq<SceneObject>, cmd: UndoCommand) -> bool
    decreases cmd, 1nat,
{
    match cmd {
        UndoCommand::Add(o) => index_of_id(objs, o.id) is None,
        UndoCommand::Delete(o) => objs.len() > 0 && objs.last() == o && index_of_id(objs.drop_last(), o.id) is None,
        UndoCommand::Edit { old, new } => old.id == new.id && match index_of_id(objs, old.id) {
            Some(i) => objs[i] == old,
            None => true,
        },
        UndoCommand::MultiAction(cmds) => reversible_all(objs, cmds@),
    }
}

/// Every step of a command list is reversible where it applies.
pub open spec fn reversible_all(objs: Seq<SceneObject>, cmds: Seq<UndoCommand>) -> bool
    decreases cmds, 0nat,
{
    if cmds.len() == 0 {
        true
    } else {
        reversible_all(objs, cmds.drop_last()) && reversible(applied_all(objs, cmds.drop_last()), cmds.last())
    }
}

pub(crate) proof fn lemma_without_absent(objs: Seq<SceneObject>, id: usize)
    requires
        index_of_id(objs, id) is None,
    ensures
        without_id(objs, id) == objs,
    decreases objs.len(),
{
    if objs.len() > 0 {
        lemma_without_absent(objs.drop_last(), id);
        assert(objs.drop_last().push(objs.last()) =~= objs);
    }
}

proof fn lemma_index_of_id_range(objs: Seq<SceneObject>, id: usize)
    ensures
        index_of_id(objs, id) matches Some(i) ==> 0 <= i < objs.len() && objs[i].id == id,
    decreases objs.len(),
{
    if objs.len() > 0 {
        lemma_index_of_id_range(objs.drop_last(), id);
    }
}

proof fn lemma_index_after_update(objs: Seq<SceneObject>, id: usize, j: int, t: SceneObject)
    requires
        index_of_id(objs, id) == Some(j),
        t.id == id,
    ensures
        index_of_id(objs.update(j, t), id) == Some(j),
        0 <= j < objs.len(),
    decreases objs.len(),
{
    lemma_index_of_id_range(objs, id);
    lemma_index_of_id_range(objs.drop_last(), id);
    let u = objs.update(j, t);
    if index_of_id(objs.drop_last(), id) is Some {
        assert(u.drop_last() =~= objs.drop_last().update(j, t));
        lemma_index_after_update(objs.drop_last(), id, j, t);
    } else {
        assert(u.drop_last() =~= objs.drop_last());
    }
}

/// Undoing a reversible command right after applying it restores the
/// objects exactly.
pub proof fn lemma_undo_reverses_apply(objs: Seq<SceneObject>, cmd: UndoCommand)
    requires
        reversible(objs, cmd),
    ensures
        applied(applied(objs, cmd, false), cmd, true) == objs,
    decreases cmd, 1nat,
{
    match cmd {
        UndoCommand::Add(o) => {
            lemma_without_absent(objs, o.id);
            assert(objs.push(o).drop_last() =~= objs);
        },
        UndoCommand::Delete(o) => {
            let init = objs.drop_last();
            lemma_without_absent(init, o.id);
            assert(init.push(o) =~= objs);
        },
        UndoCommand::Edit { old, new } => {
            match index_of_id(objs, new.id) {
                Some(j) => {
                    lemma_index_after_update(objs, new.id, j, new);
                    assert(objs.update(j, new).update(j, old) =~= objs);
                },
                None => {},
            }
        },
        UndoCommand::MultiAction(cmds) => {
            lemma_undo_reverses_apply_all(objs, cmds@);
        },
    }
}

proof fn lemma_undo_reverses_apply_all(objs: Seq<SceneObject>, cmds: Seq<UndoCommand>)
    requires
        reversible_all(objs, cmds),
    ensures
        undone_all(applied_all(objs, cmds), cmds) == objs,
    decreases cmds, 0nat,
{
    if cmds.len() > 0 {
        let init = cmds.drop_last();
        let a = applied_all(objs, init);
        lemma_undo_reverses_apply(a, cmds.last());
        lemma_undo_reverses_apply_all(objs, init);
    }
}

/// Most edits kept for undo; older ones are forgotten.
pub const MAX_UNDO: usize = 100;

/// Undo and redo stacks of scene edits.
#[derive(Debug)]
pub struct UndoHistory {
    pub undo_stack: Vec<UndoCommand>,
    pub redo_stack: Vec<UndoCommand>,
}

/// The state `(objects, undo stack, redo stack)` after an undo: the newest
/// edit is reversed and moves to the redo stack; nothing happens when there
/// is nothing to undo.
pub open spec fn undo_step(objs: Seq<SceneObject>, u: Seq<UndoCommand>, r: Seq<UndoCommand>) -> (Seq<SceneObject>, Seq<UndoCommand>, Seq<UndoCommand>) {
    if u.len() == 0 {
        (objs, u, r)
    } else {
        (applied(objs, u.last(), true), u.drop_last(), r.push(u.last()))
    }
}

/// The state after a redo: the newest undone edit is applied again and
/// moves back to the undo stack; nothing happens when there is nothing to
/// redo.
pub open spec fn redo_step(objs: Seq<SceneObject>, u: Seq<UndoCommand>, r: Seq<UndoCommand>) -> (Seq<SceneObject>, Seq<UndoCommand>, Seq<UndoCommand>) {
    if r.len() == 0 {
        (objs, u, r)
    } else {
        (applied(objs, r.last(), false), u.push(r.last()), r.drop_last())
    }
}

impl UndoHistory {
    pub fn new() -> (r: Self)
        ensures
            r.undo_stack@.len() == 0,
            r.redo_stack@.len() == 0,
    {
        UndoHistory { undo_stack: Vec::new(), redo_stack: Vec::new() }
    }

    /// Record a new edit: it goes on top of the undo stack (the oldest is
    /// forgotten beyond `MAX_UNDO`), and the redo stack is cleared.
    pub fn push_undo(&mut self, cmd: UndoCommand)
        ensures
            final(self).redo_stack@.len() == 0,
            old(self).undo_stack@.len() + 1 > MAX_UNDO ==> final(self).undo_stack@ == old(self).undo_stack@.push(cmd).drop_first(),
            old(self).undo_stack@.len() + 1 <= MAX_UNDO ==> final(self).undo_stack@ == old(self).undo_stack@.push(cmd),
    {
        self.undo_stack.push(cmd);
        self.redo_stack = Vec::new();
        if self.undo_stack.len() > MAX_UNDO {
            let _ = self.undo_stack.remove(0);
            proof {
                assert(self.undo_stack@ =~= old(self).undo_stack@.push(cmd).drop_first());
            }
        }
    }

    /// Reverse the newest edit, if any.
    pub fn undo(&mut self, objects: &mut Vec<SceneObject>)
        ensures
            (final(objects)@, final(self).undo_stack@, final(self).redo_stack@) == undo_step(
                old(objects)@,
                old(self).undo_stack@,
                old(self).redo_stack@,
            ),
    {
        match self.undo_stack.pop() {
            Some(cmd) => {
                apply_undo_command(objects, &cmd, true);
                self.redo_stack.push(cmd);
            },
            None => {},
        }
    }

    /// Apply the newest undone edit again, if any.
    pub fn redo(&mut self, objects: &mut Vec<SceneObject>)
        ensures
            (final(objects)@, final(self).undo_stack@, final(self).redo_stack@) == redo_step(
                old(objects)@,
                old(self).undo_stack@,
                old(self).redo_stack@,
            ),
    {
        match self.redo_stack.pop() {
            Some(cmd) => {
                apply_undo_command(objects, &cmd, false);
                self.undo_stack.push(cmd);
            },
            None => {},
        }
    }
}

/// A new edit never lets the undo stack grow beyond `MAX_UNDO`.
pub proof fn lemma_push_keeps_cap(u: Seq<UndoCommand>, cmd: UndoCommand)
    requires
        u.len() <= MAX_UNDO,
    ensures
        (if u.len() + 1 > MAX_UNDO { u.push(cmd).drop_first() } else { u.push(cmd) }).len() <= MAX_UNDO,
{
}

/// Undo right after redo gives back the objects and both stacks, when the
/// redone edit is reversible where it applies.
pub proof fn lemma_undo_after_redo(objs: Seq<SceneObject>, u: Seq<UndoCommand>, r: Seq<UndoCommand>)
    requires
        r.len() > 0,
        reversible(objs, r.last()),
    ensures
        ({
            let (o1, u1, r1) = redo_step(objs, u, r);
            undo_step(o1, u1, r1) == (objs, u, r)
        }),
{
    lemma_undo_reverses_apply(objs, r.last());
    assert(u.push(r.last()).drop_last() =~= u);
    assert(r.drop_last().push(r.last()) =~= r);
}

proof fn lemma_index_of_id_prefix(objs: Seq<SceneObject>, id: usize, k: int)
    requires
        0 < k <= objs.len(),
        index_of_id(objs.take(k - 1), id) is None,
        objs[k - 1].id == id,
    ensures
        index_of_id(objs, id) == Some(k - 1),
    decreases objs.len() - k,
{
    assert(objs.take(k).drop_last() =~= objs.take(k - 1));
    if k < objs.len() {
        lemma_index_of_id_extend(objs, id, k);
    } else {
        assert(objs.take(k) =~= objs);
    }
}

proof fn lemma_index_of_id_extend(objs: Seq<SceneObject>, id: usize, k: int)
    requires
        0 < k <= objs.len(),
        index_of_id(objs.take(k), id) is Some,
    ensures
        index_of_id(objs, id) == index_of_id(objs.take(k), id),
    decreases objs.len() - k,
{
    if k < objs.len() {
        assert(objs.take(k + 1).drop_last() =~= objs.take(k));
        lemma_index_of_id_extend(objs, id, k + 1);
    } else {
        assert(objs.take(k) =~= objs);
    }
}

/// The position of the first object carrying `id`, by a scan.
pub fn find_id(objects: &Vec<SceneObject>, id: usize) -> (r: Option<usize>)
    ensures
        r matches Some(i) ==> index_of_id(objects@, id) == Some(i as int) && i < objects@.len() && objects@[i as int].id
            == id,
        r is None ==> index_of_id(objects@, id) is None,
{
    let mut i: usize = 0;
    while i < objects.len()
        invariant
            i <= objects@.len(),
            index_of_id(objects@.take(i as int), id) is None,
        decreases objects@.len() - i,
    {
        proof {
            assert(objects@.take(i + 1).drop_last() =~= objects@.take(i as int));
        }
        if objects[i].id == id {
            proof {
                lemma_index_of_id_prefix(objects@, id, i + 1);
            }
            return Some(i);
        }
        i = i + 1;
    }
    proof {
        assert(objects@.take(objects@.len() as int) =~= objects@);
    }
    None
}

/// Whether two objects hold the same values in every field.
pub open spec fn same_content(a: SceneObject, b: SceneObject) -> bool {
    &&& a.id == b.id
    &&& a.label@ == b.label@
    &&& a.position@ == b.position@
    &&& a.rotation@ == b.rotation@
    &&& a.scale@ == b.scale@
    &&& a.rotation_euler@ == b.rotation_euler@
    &&& a.visible == b.visible
    &&& a.selected == b.selected
    &&& a.geometry_type == b.geometry_type
    &&& a.color@ == b.color@
    &&& a.show_label == b.show_label
    &&& a.plane_surface == b.plane_surface
    &&& a.show_normal == b.show_normal
    &&& a.cube_side == b.cube_side
    &&& a.sphere_radius == b.sphere_radius
}

fn same_words<const N: usize>(a: &[u32; N], b: &[u32; N]) -> (r: bool)
    ensures
        r == (a@ == b@),
{
    let mut i: usize = 0;
    while i < N
        invariant
            i <= N,
            a@.len() == N,
            b@.len() == N,
            forall|k: int| 0 <= k < i ==> a@[k] == b@[k],
        decreases N - i,
    {
        if a[i] != b[i] {
            return false;
        }
        i = i + 1;
    }
    proof {
        assert(a@ =~= b@);
    }
    true
}

/// Field-by-field comparison of two objects (see `same_content`).
pub fn same_object(a: &SceneObject, b: &SceneObject) -> (r: bool)
    ensures
        r == same_content(*a, *b),
{
    a.id == b.id && crate::text::str_eq(a.label.as_str(), b.label.as_str()) && same_words(&a.position, &b.position)
        && same_words(&a.rotation, &b.rotation) && same_words(&a.scale, &b.scale) && same_words(
        &a.rotation_euler,
        &b.rotation_euler,
    ) && a.visible == b.visible && a.selected == b.selected && a.geometry_type == b.geometry_type && same_words(
        &a.color,
        &b.color,
    ) && a.show_label == b.show_label && a.plane_surface == b.plane_surface && a.show_normal == b.show_normal
        && a.cube_side == b.cube_side && a.sphere_radius == b.sphere_radius
}

} // verus!

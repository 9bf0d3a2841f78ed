//! The measuring tool: while it is on, clicks on surfaces record points,
//! keeping the last segment's two ends. Points are the bit patterns of
//! their `f32` coordinates; the distance is computed by the caller.

use vstd::prelude::*;

verus! {

/// The state of the measuring tool.
pub struct MeasureTool {
    pub active: bool,
    /// At most two recorded points, oldest first.
    pub points: Vec<[u32; 3]>,
}

/// What the tool shows: a prompt for the first or the second point, or the
/// distance between the two recorded ones.
#[derive(Debug, Clone, Copy, PartialEq, Eq, Structural)]
pub enum MeasureStage {
    FirstPoint,
    SecondPoint,
    Distance,
}

impl MeasureTool {
    /// The tool, off and empty.
    pub fn new() -> (r: Self)
        ensures
            !r.active,
            r.points@.len() == 0,
    {
        MeasureTool { active: false, points: Vec::new() }
    }

    /// Switch the tool on or off; either way its points are forgotten.
    pub fn toggle(&mut self)
        ensures
            final(self).active == !old(self).active,
            final(self).points@.len() == 0,
    {
        self.active = !self.active;
        self.points = Vec::new();
    }

    /// A click on the surface point `p`: while the tool is on, `p` is
    /// recorded, starting a new segment when two points are already there;
    /// while it is off, nothing changes.
    pub fn click(&mut self, p: [u32; 3])
        ensures
            final(self).active == old(self).active,
            !old(self).active ==> final(self).points@ == old(self).points@,
            old(self).active && old(self).points@.len() >= 2 ==> final(self).points@ == seq![p],
            old(self).active && old(self).points@.len() < 2 ==> final(self).points@ == old(self).points@.push(p),
            old(self).points@.len() <= 2 ==> final(self).points@.len() <= 2,
    {
        if self.active {
            if self.points.len() >= 2 {
                self.points = Vec::new();
            }
            self.points.push(p);
        }
    }

    /// What the tool shows for its recorded points.
    pub fn stage(&self) -> (r: MeasureStage)
        ensures
            r == (if self.points@.len() == 0 {
                MeasureStage::FirstPoint
            } else if self.points@.len() == 1 {
                MeasureStage::SecondPoint
            } else {
                MeasureStage::Distance
            }),
    {
        if self.points.len() == 0 {
            MeasureStage::FirstPoint
        } else if self.points.len() == 1 {
            MeasureStage::SecondPoint
        } else {
            MeasureStage::Distance
        }
    }
}

} // verus!

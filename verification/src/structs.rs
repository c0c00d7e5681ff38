use vstd::prelude::*;

verus! {

/// The two kinds of hit object the decoder distinguishes. Other subtype bits
/// of the format are ignored.
#[derive(Debug, Clone, Copy, PartialEq, Eq, Structural)]
pub enum HitObjectType {
    /// An instantaneous hit.
    Circle,
    /// A hit held until a release time.
    Hold,
}

/// One decoded note event.
#[derive(Debug, Clone, Copy, PartialEq, Eq)]
pub struct HitObject {
    pub x: i32,
    pub y: i32,
    /// Milliseconds from the start of the beatmap.
    pub time: i32,
    pub object_type: HitObjectType,
    /// Release timestamp in milliseconds; present exactly for holds.
    pub end_time: Option<i32>,
}

impl HitObject {
    /// A release time is present exactly when the object is a hold.
    pub open spec fn wf(&self) -> bool {
        self.end_time is Some <==> self.object_type == HitObjectType::Hold
    }
}

/// Parser state: the captured mode and the hit objects in input order.
#[derive(Debug, Clone)]
pub struct OsuParser {
    pub mode: u8,
    pub hit_objects: Vec<HitObject>,
}

impl OsuParser {
    /// Every stored hit object is well formed.
    pub open spec fn wf(&self) -> bool {
        all_wf(self.hit_objects@)
    }
}

/// Every element of `objs` is well formed.
pub open spec fn all_wf(objs: Seq<HitObject>) -> bool {
    forall|i: int| 0 <= i < objs.len() ==> (#[trigger] objs[i]).wf()
}

/// No element of `objs` is a hold.
pub open spec fn no_holds(objs: Seq<HitObject>) -> bool {
    forall|i: int| 0 <= i < objs.len() ==> (#[trigger] objs[i]).object_type == HitObjectType::Circle
}

} // verus!

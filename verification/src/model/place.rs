//! Places of a concurrency verification net: control points, resources and
//! wait points.
use vstd::prelude::*;

verus! {

/// The name of a place.
#[derive(Clone, Debug, PartialEq, Eq, Hash)]
pub struct PlaceId(pub String);

impl PlaceId {
    /// The place named `id`.
    pub fn new(id: &str) -> (r: Self)
        ensures
            r.0@ == id@,
    {
        PlaceId(id.to_owned())
    }
}

/// What a resource place stands for.
#[derive(Clone, Debug, PartialEq, Eq, Hash)]
pub enum ResourceType {
    /// A mutual-exclusion lock (one initial token).
    Mutex,
    /// A reader-writer lock (as many initial tokens as concurrent readers).
    RwLock { max_readers: u32 },
    /// A counting semaphore (as many initial tokens as permits).
    Semaphore { count: u32 },
    /// A channel (no initial token).
    Channel,
    /// A condition variable (used by wait places).
    Condvar,
}

/// The role of a place: control, resource or wait point.
#[derive(Clone, Debug, PartialEq, Eq, Hash)]
pub enum PlaceKind {
    /// A token here means a thread is at this statement of the function.
    Control { fn_name: String, sid: String },
    /// The tokens here are the available units of the resource.
    Resource { res_name: String, resource_type: ResourceType },
    /// A token here means a thread waits on the condition variable.
    Wait { cv_name: String, fn_name: String, sid: String },
}

/// A place: its name, its role, and whether threads reaching it have
/// completed.
#[derive(Clone, Debug, PartialEq, Eq)]
pub struct Place {
    pub id: PlaceId,
    pub kind: PlaceKind,
    pub is_return: bool,
}

impl Place {
    /// A place that is not a return place.
    pub fn new(id: PlaceId, kind: PlaceKind) -> (r: Self)
        ensures
            r == (Place { id, kind, is_return: false }),
    {
        Place { id, kind, is_return: false }
    }

    /// This place, marked a return place or not.
    pub fn with_return(self, is_return: bool) -> (r: Self)
        ensures
            r == (Place { is_return, ..self }),
    {
        let mut p = self;
        p.is_return = is_return;
        p
    }

    /// Whether this is a control place.
    pub fn is_control(&self) -> (r: bool)
        ensures
            r == self.kind is Control,
    {
        matches!(self.kind, PlaceKind::Control { .. })
    }

    /// Whether this is a resource place.
    pub fn is_resource(&self) -> (r: bool)
        ensures
            r == self.kind is Resource,
    {
        matches!(self.kind, PlaceKind::Resource { .. })
    }

    /// Whether this is a wait place.
    pub fn is_wait(&self) -> (r: bool)
        ensures
            r == self.kind is Wait,
    {
        matches!(self.kind, PlaceKind::Wait { .. })
    }

    /// Whether this is a control or wait place.
    pub fn is_control_flow(&self) -> (r: bool)
        ensures
            r == (self.kind is Control || self.kind is Wait),
    {
        self.is_control() || self.is_wait()
    }
}

} // verus!

use vstd::prelude::*;

verus! {

/// An object that marks where the camera stands.
#[derive(Debug)]
pub struct CameraPosition {
    name: String,
    id: u128,
}

impl CameraPosition {
    pub closed spec fn name_view(&self) -> Seq<char> {
        self.name@
    }

    pub closed spec fn id_view(&self) -> u128 {
        self.id
    }

    /// A camera position named `name`, under the object id `id`.
    pub fn new(name: &str, id: u128) -> (r: CameraPosition)
        ensures
            r.name_view() == name@,
            r.id_view() == id,
    {
        CameraPosition { name: name.to_string(), id }
    }

    pub fn get_name(&self) -> (r: &str)
        ensures
            r@ == self.name_view(),
    {
        self.name.as_str()
    }

    pub fn set_name(&mut self, name: &str)
        ensures
            final(self).name_view() == name@,
            final(self).id_view() == old(self).id_view(),
    {
        self.name = name.to_string();
    }

    pub fn get_object_id(&self) -> (r: u128)
        ensures
            r == self.id_view(),
    {
        self.id
    }
}

/// Failures of navigation mesh generation.
#[derive(Debug, Clone, Copy, PartialEq, Eq, Structural)]
pub enum NavMeshError {
    HeightmapError,
    RasterizeError,
    PolyMeshError,
}

} // verus!

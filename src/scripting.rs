use vstd::prelude::*;

verus! {

/// A system driven by a script, known by its id.
#[derive(Debug)]
pub struct LuaSystem {
    pub is_destroyed: bool,
    pub id: String,
}

impl LuaSystem {
    /// A live system under `id`, once its script has been loaded.
    pub fn with_id(id: &str) -> (r: LuaSystem)
        ensures
            r.id@ == id@,
            !r.is_destroyed,
    {
        LuaSystem { is_destroyed: false, id: id.to_string() }
    }

    pub fn system_id(&self) -> (r: &str)
        ensures
            r@ == self.id@,
    {
        self.id.as_str()
    }

    pub fn is_destroyed(&self) -> (r: bool)
        ensures
            r == self.is_destroyed,
    {
        self.is_destroyed
    }

    pub fn set_destroyed(&mut self, is_destroyed: bool)
        ensures
            final(self).is_destroyed == is_destroyed,
            final(self).id == old(self).id,
    {
        self.is_destroyed = is_destroyed;
    }
}

/// Why a scripted system could not be set up or run.
#[derive(Debug, Clone, Copy, PartialEq, Eq, Structural)]
pub enum LuaSystemError {
    ScriptLoadingError,
    LuaExecutingError,
    LuaCreationError,
}

/// How a script names an object: the system that owns it and its name.
#[derive(Debug, Clone)]
pub struct ObjectHandle {
    pub system_id: String,
    pub name: String,
}

} // verus!

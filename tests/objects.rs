use navgrid::objects::{CameraPosition, NavMeshError};
use navgrid::scripting::{LuaSystem, LuaSystemError, ObjectHandle};

#[test]
fn camera_position_keeps_name_and_id() {
    let mut c = CameraPosition::new("main camera", 42);
    assert_eq!(c.get_name(), "main camera");
    assert_eq!(c.get_object_id(), 42);
    c.set_name("other");
    assert_eq!(c.get_name(), "other");
    assert_eq!(c.get_object_id(), 42);
}

#[test]
fn lua_system_lifecycle() {
    let mut s = LuaSystem::with_id("enemies");
    assert_eq!(s.system_id(), "enemies");
    assert!(!s.is_destroyed());
    s.set_destroyed(true);
    assert!(s.is_destroyed());
    assert_eq!(s.system_id(), "enemies");
}

#[test]
fn plain_error_and_handle_values() {
    assert_ne!(LuaSystemError::ScriptLoadingError, LuaSystemError::LuaCreationError);
    assert_eq!(NavMeshError::PolyMeshError, NavMeshError::PolyMeshError);
    let h = ObjectHandle { system_id: "s".to_string(), name: "n".to_string() };
    assert_eq!(h.clone().name, "n");
}

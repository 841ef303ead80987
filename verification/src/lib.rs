pub mod key_order;
pub mod string_map;
pub mod actions;
pub mod components;
pub mod ecs;
pub mod goals;
pub mod goap;
pub mod goap_system;
pub mod systems;

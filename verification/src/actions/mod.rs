pub mod actions_declaration;
pub mod build_firepit;
pub mod gathering;
pub mod godot_action_resource;

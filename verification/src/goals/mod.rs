pub mod default_goal;
pub mod goals_declaration;
pub mod godot_goal_resource;

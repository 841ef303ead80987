pub mod action;
pub mod ecs_thinker;
pub mod goal;
pub mod goap_system;

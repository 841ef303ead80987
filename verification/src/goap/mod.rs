pub mod example_sensors;
pub mod goap_planner;

pub mod agent_components;

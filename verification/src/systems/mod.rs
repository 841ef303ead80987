pub mod inventory_system;

pub mod memory;
pub mod play_snake;
pub mod snake_rules;

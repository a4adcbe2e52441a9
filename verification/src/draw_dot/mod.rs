pub mod rank;
pub mod columns;
pub mod place;
pub mod settle;
pub mod layout;
pub mod trace;

pub mod action_handler;
pub mod auction;
pub mod bid;

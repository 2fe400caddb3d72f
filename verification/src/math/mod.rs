pub mod base5;
pub mod bb_id;

//! What the operations are for, stated over what goes in and what comes out.

pub mod audit;
pub mod chunks;
pub mod citing;
pub mod code;
pub mod coverage;
pub mod dividing;
pub mod drafts;
pub mod exchanges;
pub mod indexing;
pub mod linking;
pub mod lists;
pub mod memory;
pub mod nearby;
pub mod ordering;
pub mod owing;
pub mod planning;
pub mod reading;
pub mod rendering;
pub mod requests;
pub mod telling;
pub mod wording;

//! A classifier for binary events that goes by the words just before them.
pub mod event_counter;
pub mod model;
pub mod training;

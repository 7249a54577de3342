//! What holds of results as a whole: where centroids come from, what is kept and
//! what is dropped, and how results of related images relate.

pub mod background;
pub mod calls;
pub mod fast;
pub mod labelled;
pub mod shape;

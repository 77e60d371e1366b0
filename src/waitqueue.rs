//! Registration of the tasks that wait for an event.
pub mod multi_waker;

pub use multi_waker::{MultiWaker, MultiWakerStore, WakeHandle};

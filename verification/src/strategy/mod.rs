//! Instruments that sit inside the load and store strategies.

pub mod test_ctl;
pub mod test_hooks;

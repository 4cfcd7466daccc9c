//! What holds of the instruments whatever the threads do with them.

pub mod arrivals;
pub mod debts;
pub mod helpers;
pub mod hooks;
pub mod interleaving;
pub mod loads;
pub mod probes;
pub mod resumes;
pub mod seam;
pub mod sessions;
pub mod settlements;

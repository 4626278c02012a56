//! Background traffic: what may run, in which order, and what happens after.
//! All decisions are functions of the state and the event; the clock, the
//! sleeping and the requests themselves are the caller's.
pub mod budget_laws;
pub mod jobs;
pub mod key_laws;
pub mod laws;
pub mod limits;
pub mod log_laws;
pub mod outcome_laws;
pub mod run_laws;
pub mod worker;

pub use jobs::Job;
pub use jobs::LinkCandidate;
pub use jobs::LogEntry;
pub use jobs::LogStatus;
pub use jobs::MorelikeSeed;
pub use jobs::PrefetchLog;
pub use jobs::Queue;
pub use limits::Backoff;
pub use limits::Budget;
pub use limits::BudgetSnapshot;
pub use limits::CircuitBreaker;
pub use limits::Delay;
pub use limits::Jitter;
pub use limits::Metered;
pub use limits::SubstrateConfig;
pub use limits::DAY_SECS;
pub use limits::HOUR_SECS;
pub use worker::ExecResult;
pub use worker::Next;
pub use worker::Outcome;
pub use worker::Pause;
pub use worker::Substrate;
pub use worker::Ticket;

//! Accounting engine of an intellectual-property staking subsystem.
//!
//! Token holders lock balances in support of registered IP sets; at every
//! era boundary the system mints new tokens according to a yearly inflation
//! schedule and distributes them to IP sets and stakers in proportion to
//! their share of the total active stake during the completed era.
//!
//! The ledger, the deferred-stake state machine, the era-boundary settlement
//! and the inflation schedule are verified here.  The host block runtime,
//! the balance module and the IP-set registry are external collaborators;
//! their state that the engine reads and writes (free balances, the staking
//! lock, the registry of IP sets) is modelled as plain ledger fields so that
//! the whole block pipeline is a closed, deterministic state machine.

pub mod laws;
pub mod ledger;
pub mod math;
pub mod settlement;
pub mod state;
pub mod sums;
pub mod table;
pub mod transitions;
pub mod types;

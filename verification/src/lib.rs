//! Decision logic of a chaos monkey for a container cluster.
//!
//! The monkey lists the pods of a cluster, forms groups of those that may be
//! attacked, deletes some pods of each of the first groups, waits, and starts
//! over. This library holds what it decides; the calls into the cluster and
//! the waiting are left to the program around it.
//!
//! - `names`: the namespaces to target, from the configured lists and what
//!   the cluster holds.
//! - `pod`, `grouping`: pods and labels, which pods may be attacked, and
//!   their groups.
//! - `selection`: how many pods of a group are deleted, and which.
//! - `cycle`: the groups attacked in one cycle and the run of its deletions.
//! - `schedule`: the time between two cycles and the phases of the loop.
//! - `random`: the random source and what is drawn from it.
//! - `text`, `error`: helpers on texts, and the faults of the configuration.

pub mod cycle;
pub mod error;
pub mod grouping;
pub mod names;
pub mod pod;
pub mod random;
pub mod schedule;
pub mod selection;
pub mod text;

//! Evidence-first Linux pressure triage: parsers and interval logic.

pub mod analysis;
pub mod attribution;
pub mod cgroup;
pub mod cgroup_analysis;
pub mod cgroup_collect;
pub mod host_analysis;
pub mod cli;
pub mod finding_rows;
pub mod color;
pub mod io;
pub mod memory;
pub mod observe;
pub mod presentation;
pub mod process;
pub mod psi;
pub mod ranking;
pub mod record;
pub mod read_error;
pub mod text;

//! Reconciliation and persistence core of a root-management daemon: the
//! package privilege table, the kernel-patch-module registry, and the small
//! pieces of the privileged-call protocol that are pure computation.

pub mod text;
pub mod su_profile;
pub mod supercall;
pub mod retry;
pub mod package;
pub mod package_laws;
pub mod table;
pub mod privilege;
pub mod kpm;
pub mod kpm_laws;

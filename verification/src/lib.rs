//! Computes merge plans for stacking module content onto a live root
//! filesystem via union mounts, and analyzes the resulting plans for
//! file conflicts and dangerous symlinks.
//!
//! All planning and analysis is pure computation over an immutable
//! [`Snapshot`](fs_model::Snapshot) of the relevant filesystem state;
//! nothing here performs I/O or mutates anything. A front end reads
//! the real filesystem into a snapshot, and an executor performs the
//! privileged mounts that a [`MountPlan`](planner::MountPlan) calls
//! for; neither is part of this crate's verified core.

pub mod analyzer;
pub mod fs_model;
pub mod laws;
pub mod order;
pub mod planner;

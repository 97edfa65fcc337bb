//! Platform-independent policy, planning and recovery logic for a
//! temporary, user-approved game-session optimizer.
pub mod model;
pub mod text;
pub mod policy;
pub mod applications;
pub mod integrity;
pub mod journal;
pub mod engine;
pub mod reopen;
pub mod update;
pub mod gpu;
pub mod manual;
pub mod sorting;
pub mod profiles;
pub mod report;
pub mod windows;
pub mod advice;

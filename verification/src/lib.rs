//! The logic of ChromeTester, a program that downloads, keeps and launches
//! several versions of Chrome and Chromium side by side.
//!
//! Nothing here touches the disk, the network or another process: functions
//! take what was read and give what is to be written, asked or done.

pub mod catalog;
pub mod config;
pub mod download;
pub mod json;
pub mod launch;
pub mod milestones;
pub mod names;
pub mod order;
pub mod platform;
pub mod profiles;
pub mod proxy;
pub mod snapshots;
pub mod text;
pub mod update;
pub mod versions;

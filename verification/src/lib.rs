//! Scanners for the escape sequences a terminal engine leaves unread.
pub mod bytes;
pub mod csi;
pub mod dcs;
pub mod lines;
pub mod osc;
pub mod notify;
pub mod osc133;
pub mod pen;
pub mod rect;
pub mod scanned;
pub mod text;
pub mod pointer;
pub mod progress;
pub mod modkeys;
pub mod mouse;
pub mod presentation;
pub mod protect;
pub mod query;

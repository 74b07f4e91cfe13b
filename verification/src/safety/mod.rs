//! Why the protocol is safe.
//!
//! The nodes of a cluster are looked at together with the history of what
//! they did: every message sent, every vote cast, every leader's reign, and
//! how far each follower acknowledged each leader's log. [`world`] states
//! what always holds of the two; [`frame`] shows what a step of one node
//! leaves untouched for all others; [`actions`] takes the steps one by one;
//! [`inputs`] puts them together for a tick, a message and a proposal;
//! [`theorems`] draws the conclusions: at most one leader per term, and
//! committed entries that agree everywhere and are never lost.

pub mod actions;
pub mod frame;
pub mod inputs;
pub mod theorems;
pub mod world;

//! Verified core of the Acumen group-chat bot: divination, persona models,
//! sample selection, link recognition and the small state machines behind
//! the plugins.

pub mod text;
pub mod divine;
pub mod models;
pub mod persona;
pub mod collect;
pub mod style;
pub mod state;
pub mod link;
pub mod bilibili;
pub mod webshot;
pub mod recall;
pub mod card;
pub mod chart;
pub mod cloud;
pub mod settings;
pub mod commands;

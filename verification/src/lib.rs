//! A Texas hold'em table for a chat bot: the deck, hand evaluation, the
//! betting rules and the command interpreter, with their contracts.

pub mod text;
pub mod cards;
pub mod hand;
pub mod game;
pub mod command;
pub mod laws;

//! The typed commands of the log, and their mathematical model.

use vstd::prelude::*;

verus! {

/// One parsed instruction of the command log.
///
/// `Put` stores a value under a key, `Get` reads one, `Del` removes one,
/// `Incr` increments a numeric value, and `Flush` empties the store.
#[derive(Debug)]
pub enum Command {
    Put(String, String),
    Get(String),
    Del(String),
    Incr(String),
    Flush,
}

/// The mathematical shape of a [`Command`]: the same five variants, with each
/// text field abstracted to its sequence of characters.
pub enum CommandModel {
    Put(Seq<char>, Seq<char>),
    Get(Seq<char>),
    Del(Seq<char>),
    Incr(Seq<char>),
    Flush,
}

impl View for Command {
    type V = CommandModel;

    open spec fn view(&self) -> CommandModel {
        match self {
            Command::Put(k, v) => CommandModel::Put(k@, v@),
            Command::Get(k) => CommandModel::Get(k@),
            Command::Del(k) => CommandModel::Del(k@),
            Command::Incr(k) => CommandModel::Incr(k@),
            Command::Flush => CommandModel::Flush,
        }
    }
}

} // verus!

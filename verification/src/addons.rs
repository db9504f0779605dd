//! Extension points of the chat: commands that a user can type, and packets
//! that the two sides can exchange. Users of the library implement them.
use crate::serialization::Serializable;
use vstd::prelude::*;

verus! {

/// A command of the chat server or client.
pub trait Command<AT> {
    /// The primary name of this command.
    fn name(&self) -> &'static str;

    /// Alternative names of this command.
    fn alias(&self) -> Vec<&'static str>;

    /// The action performed when the command is called.
    fn run(&self, chat_line: String) -> Option<String>;

    /// The help message shown when help lists all commands.
    fn help_all(&self, chat_line: Option<String>) -> Vec<String>;

    /// The help message shown when help is asked for this command.
    fn help_explicit(&self, chat_line: Option<String>) -> Vec<String>;

    /// The syntax of this command, for completion.
    fn syntax(&self);
}

/// One side of a connection, with the type of the other side. `OTHER` carries
/// no bound of its own: implementors name a type that is a side in turn.
pub trait SidePair {
    type OTHER;
}

/// Makes packets for a side.
pub trait PacketFactory<AT: SidePair> {
    /// The packets that this factory makes.
    type Product: Packet<AT>;

    fn summon(&self) -> &Self::Product;
}

/// A packet that a side can handle.
pub trait Packet<AT: SidePair>: Serializable {
    fn handle(&self, side: AT);
}

/// The commands of a side.
pub type Commands<AT> = Vec<std::rc::Rc<dyn Command<AT>>>;

} // verus!

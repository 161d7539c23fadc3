//! What the server reads of a parsed script.

use vstd::prelude::*;

verus! {

/// A function of a script.
#[derive(Debug, PartialEq, Eq)]
pub struct Function {
    pub name: String,
}

/// A signal of a class.
#[derive(Debug, PartialEq, Eq)]
pub struct Signal {
    pub name: String,
}

/// A field of a class, with the names of its attributes.
#[derive(Debug, PartialEq, Eq)]
pub struct Field {
    pub name: String,
    pub attributes: Vec<String>,
}

/// What a class declares.
#[derive(Debug, PartialEq, Eq)]
pub enum Member {
    Field(Field),
    Function(Function),
    Signal(Signal),
    /// A class within the class, which is not looked into.
    Class,
}

/// A class of a script.
#[derive(Debug, PartialEq, Eq)]
pub struct Class {
    pub members: Vec<Member>,
}

/// What a script declares.
#[derive(Debug, PartialEq, Eq)]
pub enum Item {
    Class(Class),
    Function(Function),
    /// A declaration that is not offered.
    Other,
}

/// The declarations of a script.
#[derive(Debug, PartialEq, Eq)]
pub struct Module {
    pub items: Vec<Item>,
}

/// What a token of a script is.
#[derive(Debug, PartialEq, Eq)]
pub enum TokenKind {
    Class,
    Fn,
    Signal,
    Var,
    Ident(String),
    /// A token that declares and names nothing.
    Other,
}

/// A token of a script, with the byte offsets at which it starts and ends.
#[derive(Debug, PartialEq, Eq)]
pub struct Token {
    pub kind: TokenKind,
    pub start: usize,
    pub end: usize,
}

} // verus!

//! The payload of a node on the graph canvas, and the error of importing a
//! graph description.

use vstd::prelude::*;
use vstd::string::*;

verus! {

/// A node of the canvas, shown under its name.
#[derive(Clone, Debug)]
pub struct Node {
    name: String,
}

impl View for Node {
    type V = Seq<char>;

    closed spec fn view(&self) -> Seq<char> {
        self.name@
    }
}

impl Node {
    pub fn new(name: &str) -> (r: Node)
        ensures
            r@ == name@,
    {
        Node { name: name.to_owned() }
    }

    pub fn name(&self) -> (r: &str)
        ensures
            r@ == self@,
    {
        self.name.as_str()
    }
}

/// Failure to import a graph description.
#[derive(Clone, Debug, PartialEq, Eq)]
pub enum Error {
    /// The description did not parse; the parser's message.
    DotParserError(String),
}

pub open spec fn error_text(detail: Seq<char>) -> Seq<char> {
    "Error parsing DOT graph: ["@ + detail + "]"@
}

impl Error {
    /// The message shown for this error.
    pub fn message(&self) -> (r: String)
        ensures
            match self {
                Error::DotParserError(d) => r@ == error_text(d@),
            },
    {
        match self {
            Error::DotParserError(d) => {
                let mut r = "Error parsing DOT graph: [".to_owned();
                r.append(d.as_str());
                r.append("]");
                r
            },
        }
    }
}

} // verus!

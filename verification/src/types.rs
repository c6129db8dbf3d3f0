//! The vocabulary shared by every stage: node payload contracts, edge kinds,
//! port identities and the failures a layout pass can report.

use vstd::prelude::*;

verus! {

/// What a node of the diagram must offer: a title, its body text, and whether
/// control enters or leaves the diagram through it: neither, where it says no more.
pub trait BlockLike {
    fn title(&self) -> &str;

    fn body_lines(&self) -> &[String];

    fn is_entry(&self) -> (flag: bool) default_ensures !flag, {
        false
    }

    fn is_exit(&self) -> (flag: bool) default_ensures !flag, {
        false
    }
}

/// How control reaches the target of an edge.
#[derive(Clone, Copy, Debug, PartialEq, Eq, Structural)]
pub enum EdgeKind {
    Taken,
    FallThrough,
    Unconditional,
}

/// What an edge payload must offer: its kind.
pub trait EdgeLike {
    fn kind(&self) -> EdgeKind;
}

impl EdgeLike for EdgeKind {
    fn kind(&self) -> (kind: EdgeKind) ensures kind == *self, {
        *self
    }
}

/// Which way an edge meets a node at a port: it comes in or it goes out.
#[derive(Clone, Copy, Debug, PartialEq, Eq, Hash, Structural)]
pub enum PortKind {
    Input,
    Output,
}

/// The identity of a port: the node it sits on, its number among the ports
/// of that node and kind, and its kind.
#[derive(Clone, Copy, Debug, PartialEq, Eq, Hash, Structural)]
pub struct PortSlot {
    pub node: usize,
    pub slot: usize,
    pub kind: PortKind,
}

impl PortSlot {
    pub fn new(node: usize, slot: usize, kind: PortKind) -> (p: Self)
        ensures
            p == (PortSlot { node, slot, kind }),
    {
        Self { node, slot, kind }
    }
}

/// A line from an output port to the input port it was paired with.
#[derive(Clone, Copy, Debug, PartialEq, Eq, Hash, Structural)]
pub struct PortLine {
    pub from: PortSlot,
    pub to: PortSlot,
}

/// Why a layout pass could not be made.
#[derive(Clone, Copy, Debug, PartialEq, Eq, Structural)]
pub enum GraphLayoutError {
    /// No node of the graph is flagged as its entry.
    NoEntryPoint,
    /// An edge names a node that the graph does not hold.
    NoEdgeFound,
}

impl GraphLayoutError {
    /// The failure in words.
    pub fn message(&self) -> (m: &'static str)
        ensures
            m@ == (match *self {
                GraphLayoutError::NoEntryPoint => "Could not find entry point node in graph."@,
                GraphLayoutError::NoEdgeFound => "Could not find edge in graph."@,
            }),
    {
        match self {
            GraphLayoutError::NoEntryPoint => "Could not find entry point node in graph.",
            GraphLayoutError::NoEdgeFound => "Could not find edge in graph.",
        }
    }
}

} // verus!

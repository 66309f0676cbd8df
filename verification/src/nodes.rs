//! Node kinds and per-node registry records.

use vstd::prelude::*;
use crate::bloom::BLOOM_FILTER_SIZE;

verus! {

/// Kind of a node, derived from the first character of its name and
/// immutable thereafter.
#[derive(PartialEq, Eq, Structural, Clone, Copy, Debug)]
pub enum NodeKind {
    Unknown,
    User,
    Beacon,
    Comment,
}

impl Default for NodeKind {
    fn default() -> (r: Self)
        ensures
            r == NodeKind::Unknown,
    {
        NodeKind::Unknown
    }
}

/// The kind a name maps to: `U` is a user, `B` a beacon, `C` a comment,
/// anything else (including the empty name) is unknown.
pub open spec fn spec_kind_from_name(name: Seq<char>) -> NodeKind {
    if name.len() == 0 {
        NodeKind::Unknown
    } else if name[0] == 'U' {
        NodeKind::User
    } else if name[0] == 'B' {
        NodeKind::Beacon
    } else if name[0] == 'C' {
        NodeKind::Comment
    } else {
        NodeKind::Unknown
    }
}

/// Derive a node's kind from the first character of its name.
pub fn kind_from_name(name: &str) -> (k: NodeKind)
    ensures
        k == spec_kind_from_name(name@),
{
    if name.is_empty() {
        return NodeKind::Unknown;
    }
    let c = name.get_char(0);
    if c == 'U' {
        NodeKind::User
    } else if c == 'B' {
        NodeKind::Beacon
    } else if c == 'C' {
        NodeKind::Comment
    } else {
        NodeKind::Unknown
    }
}

/// Registry record of one node: kind, unique name, and the beacon mark set.
#[derive(Clone, Debug)]
pub struct NodeInfo {
    pub kind: NodeKind,
    pub name: String,
    pub marks: [u64; BLOOM_FILTER_SIZE],
}

impl NodeInfo {
    /// A fresh record for the given name: kind derived from the name,
    /// empty mark set.
    pub fn for_name(name: &str) -> (r: NodeInfo)
        ensures
            r.kind == spec_kind_from_name(name@),
            r.name@ == name@,
            r.marks@ == Seq::<u64>::new(BLOOM_FILTER_SIZE as nat, |i: int| 0u64),
    {
        NodeInfo {
            kind: kind_from_name(name),
            name: name.to_owned(),
            marks: crate::bloom::bloom_filter_empty(),
        }
    }
}

} // verus!

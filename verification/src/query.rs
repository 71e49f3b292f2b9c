//! The vocabulary of topology queries: reference points, node predicates
//! and the errors a query reports.
use vstd::prelude::*;
use vstd::string::*;
use crate::ir::{Entity, EntityKind, EntityView, Id};
use crate::leonardo::{contains_chars, contains_text};
use crate::order::chars_eq_str;
use crate::summary::format_u64;
use crate::text::{chars_of, dec_digits, extend_chars, string_of};

verus! {

/// Reference point for distance-based constraints.
pub enum ReferencePoint {
    /// The first node the query selected (the anchor).
    First,
    /// A specific node.
    NodeId(Id),
    /// Any node matching a predicate (the first match).
    AnyMatching(NodePredicate),
}

/// A predicate on nodes.
pub enum NodePredicate {
    /// Nodes of a kind (e.g. "compute", "switch").
    NodeKind(String),
    /// Nodes with a property value.
    HasProperty(String, String),
    /// Nodes whose id matches a pattern.
    IdPattern(String),
    /// A custom predicate.
    Custom(String),
}

/// What can go wrong in a query.
pub enum QueryError {
    /// Not enough nodes available to satisfy a constraint.
    InsufficientNodes { required: usize, available: usize },
    /// No valid reference node could be found.
    NoValidReference,
    /// The anchor is not a compute node.
    InvalidAnchor(Id),
    /// Constraints conflict with each other.
    ConstraintConflict(String),
    /// A distance could not be computed.
    DistanceCalculationFailed { from: Id, to: Id },
}

/// The text of an error.
pub open spec fn query_error_text(e: QueryError) -> Seq<char> {
    match e {
        QueryError::InsufficientNodes { required, available } => "Insufficient nodes: required "@ + dec_digits(required as nat) + ", only "@
            + dec_digits(available as nat) + " available"@,
        QueryError::NoValidReference => "No valid reference node found"@,
        QueryError::InvalidAnchor(id) => "Invalid anchor node: "@ + id@,
        QueryError::ConstraintConflict(msg) => "Constraint conflict: "@ + msg@,
        QueryError::DistanceCalculationFailed { from, to } => "Failed to calculate distance from "@ + from@ + " to "@ + to@,
    }
}

impl QueryError {
    /// The text `Display` shows.
    pub fn to_message(&self) -> (s: String)
        ensures
            s@ == query_error_text(*self),
    {
        let mut out: Vec<char> = Vec::new();
        match self {
            QueryError::InsufficientNodes { required, available } => {
                extend_chars(&mut out, chars_of("Insufficient nodes: required ").as_slice());
                extend_chars(&mut out, format_u64(*required as u64, 0).as_slice());
                extend_chars(&mut out, chars_of(", only ").as_slice());
                extend_chars(&mut out, format_u64(*available as u64, 0).as_slice());
                extend_chars(&mut out, chars_of(" available").as_slice());
            },
            QueryError::NoValidReference => {
                extend_chars(&mut out, chars_of("No valid reference node found").as_slice());
            },
            QueryError::InvalidAnchor(id) => {
                extend_chars(&mut out, chars_of("Invalid anchor node: ").as_slice());
                extend_chars(&mut out, chars_of(id.0.as_str()).as_slice());
            },
            QueryError::ConstraintConflict(msg) => {
                extend_chars(&mut out, chars_of("Constraint conflict: ").as_slice());
                extend_chars(&mut out, chars_of(msg.as_str()).as_slice());
            },
            QueryError::DistanceCalculationFailed { from, to } => {
                extend_chars(&mut out, chars_of("Failed to calculate distance from ").as_slice());
                extend_chars(&mut out, chars_of(from.0.as_str()).as_slice());
                extend_chars(&mut out, chars_of(" to ").as_slice());
                extend_chars(&mut out, chars_of(to.0.as_str()).as_slice());
            },
        }
        assert(out@ =~= query_error_text(*self));
        string_of(out.as_slice())
    }
}

/// Whether an entity satisfies a predicate: its kind is named (`compute`,
/// `switch`, `group`, first letter either case); it has the property with
/// that value; its id contains the pattern.  Custom predicates match
/// nothing.
pub open spec fn satisfies(e: EntityView, p: NodePredicate) -> bool {
    match p {
        NodePredicate::NodeKind(k) => match e.1 {
            EntityKind::Compute => k@ == "compute"@ || k@ == "Compute"@,
            EntityKind::Switch { .. } => k@ == "switch"@ || k@ == "Switch"@,
            EntityKind::Group => k@ == "group"@ || k@ == "Group"@,
        },
        NodePredicate::HasProperty(key, value) => e.2.contains_key(key@) && e.2[key@] == value@,
        NodePredicate::IdPattern(pat) => contains_text(e.0, pat@),
        NodePredicate::Custom(_) => false,
    }
}

/// Whether `entity` satisfies `predicate`.
pub fn matches_predicate(entity: &Entity, predicate: &NodePredicate) -> (b: bool)
    ensures
        b == satisfies(entity@, *predicate),
{
    match predicate {
        NodePredicate::NodeKind(kind) => {
            let k = kind.as_str();
            assert(k@ == kind@);
            let r = match entity.kind {
                EntityKind::Compute => chars_eq_str(k, "compute") || chars_eq_str(k, "Compute"),
                EntityKind::Switch { .. } => chars_eq_str(k, "switch") || chars_eq_str(k, "Switch"),
                EntityKind::Group => chars_eq_str(k, "group") || chars_eq_str(k, "Group"),
            };
            assert(r == satisfies(entity@, *predicate));
            r
        },
        NodePredicate::HasProperty(key, value) => {
            let r = match entity.meta.get(key.as_str()) {
                Some(v) => *v == *value,
                None => false,
            };
            assert(r == satisfies(entity@, *predicate));
            r
        },
        NodePredicate::IdPattern(pattern) => {
            let p = chars_of(pattern.as_str());
            if p.len() == 0 {
                assert(entity.id@.subrange(0, 0 + p@.len() as int) =~= p@);
                assert(contains_text(entity.id@, pattern@));
                true
            } else {
                let r = contains_chars(chars_of(entity.id.0.as_str()).as_slice(), p.as_slice());
                assert(r == satisfies(entity@, *predicate));
                r
            }
        },
        NodePredicate::Custom(_) => false,
    }
}

} // verus!

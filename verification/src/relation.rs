use vstd::prelude::*;
use crate::symbol::SymbolId;

verus! {

/// Kinds of relationships between code symbols.
#[derive(Debug, Clone, Copy, PartialEq, Eq, Hash, Structural)]
pub enum RelationKind {
    Calls,
    Imports,
    Inherits,
    Implements,
    Uses,
    Contains,
}

pub open spec fn spec_relation_kind_ordinal(k: RelationKind) -> u8 {
    match k {
        RelationKind::Calls => 0,
        RelationKind::Imports => 1,
        RelationKind::Inherits => 2,
        RelationKind::Implements => 3,
        RelationKind::Uses => 4,
        RelationKind::Contains => 5,
    }
}

pub open spec fn spec_relation_kind_from_ordinal(n: u8) -> Option<RelationKind> {
    if n == 0 { Some(RelationKind::Calls) }
    else if n == 1 { Some(RelationKind::Imports) }
    else if n == 2 { Some(RelationKind::Inherits) }
    else if n == 3 { Some(RelationKind::Implements) }
    else if n == 4 { Some(RelationKind::Uses) }
    else if n == 5 { Some(RelationKind::Contains) }
    else { None }
}

impl RelationKind {
    pub fn from_ordinal(n: u8) -> (r: Option<RelationKind>)
        ensures
            r == spec_relation_kind_from_ordinal(n),
    {
        match n {
            0 => Some(RelationKind::Calls),
            1 => Some(RelationKind::Imports),
            2 => Some(RelationKind::Inherits),
            3 => Some(RelationKind::Implements),
            4 => Some(RelationKind::Uses),
            5 => Some(RelationKind::Contains),
            _ => None,
        }
    }

    pub fn ordinal(self) -> (r: u8)
        ensures
            r == spec_relation_kind_ordinal(self),
    {
        match self {
            RelationKind::Calls => 0,
            RelationKind::Imports => 1,
            RelationKind::Inherits => 2,
            RelationKind::Implements => 3,
            RelationKind::Uses => 4,
            RelationKind::Contains => 5,
        }
    }
}

/// A relation kind survives the round trip through its ordinal.
pub proof fn lemma_relation_kind_ordinal_round_trip(k: RelationKind)
    ensures
        spec_relation_kind_from_ordinal(spec_relation_kind_ordinal(k)) == Some(k),
{
}

/// Exactly the ordinals below six decode, each to the kind with that ordinal.
pub proof fn lemma_relation_kind_from_ordinal_inverse(n: u8)
    ensures
        spec_relation_kind_from_ordinal(n) is Some <==> n < 6,
        spec_relation_kind_from_ordinal(n) matches Some(k) ==> spec_relation_kind_ordinal(k) == n,
{
}

/// A relationship between two code symbols, as the resolver and the graph
/// store read it. The extraction confidence (a fraction) travels beside it.
#[derive(Debug, Clone)]
pub struct CodeRelation {
    pub source_id: SymbolId,
    pub target_id: SymbolId,
    pub kind: RelationKind,
    /// File where the relation was observed.
    pub file_path: String,
    /// 0-indexed line number.
    pub line: u32,
}

impl CodeRelation {
    /// A field-for-field copy of the relation.
    pub fn duplicate(&self) -> (r: CodeRelation)
        ensures
            r == *self,
    {
        CodeRelation {
            source_id: self.source_id,
            target_id: self.target_id,
            kind: self.kind,
            file_path: self.file_path.clone(),
            line: self.line,
        }
    }
}

} // verus!

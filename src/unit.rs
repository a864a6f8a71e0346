//! References to column cells and their total order.
use vstd::prelude::*;

verus! {

/// One column cell, relative to the current row: the column's kind and index,
/// and the signed row offset at which it is read.
#[derive(Clone, Copy, Debug, PartialEq, Eq, Structural, PartialOrd, Ord, Hash)]
pub enum ProveExpressionUnit {
    /// A fixed column read at a relative row.
    Fixed { column_index: usize, rotation: i32 },
    /// An advice (witness) column read at a relative row.
    Advice { column_index: usize, rotation: i32 },
    /// An instance (public input) column read at a relative row.
    Instance { column_index: usize, rotation: i32 },
}

impl ProveExpressionUnit {
    /// Rank of the column kind: fixed before advice before instance.
    pub open spec fn kind(&self) -> int {
        match self {
            ProveExpressionUnit::Fixed { .. } => 0,
            ProveExpressionUnit::Advice { .. } => 1,
            ProveExpressionUnit::Instance { .. } => 2,
        }
    }

    pub open spec fn col(&self) -> usize {
        match self {
            ProveExpressionUnit::Fixed { column_index, .. } => *column_index,
            ProveExpressionUnit::Advice { column_index, .. } => *column_index,
            ProveExpressionUnit::Instance { column_index, .. } => *column_index,
        }
    }

    pub open spec fn rot(&self) -> i32 {
        match self {
            ProveExpressionUnit::Fixed { rotation, .. } => *rotation,
            ProveExpressionUnit::Advice { rotation, .. } => *rotation,
            ProveExpressionUnit::Instance { rotation, .. } => *rotation,
        }
    }

    /// The column index of the cell.
    pub fn column_index(&self) -> (r: usize)
        ensures
            r == self.col(),
    {
        match self {
            ProveExpressionUnit::Fixed { column_index, .. } => *column_index,
            ProveExpressionUnit::Advice { column_index, .. } => *column_index,
            ProveExpressionUnit::Instance { column_index, .. } => *column_index,
        }
    }

    /// The row offset of the cell.
    pub fn rotation(&self) -> (r: i32)
        ensures
            r == self.rot(),
    {
        match self {
            ProveExpressionUnit::Fixed { rotation, .. } => *rotation,
            ProveExpressionUnit::Advice { rotation, .. } => *rotation,
            ProveExpressionUnit::Instance { rotation, .. } => *rotation,
        }
    }

    fn kind_rank(&self) -> (r: u8)
        ensures
            r as int == self.kind(),
    {
        match self {
            ProveExpressionUnit::Fixed { .. } => 0,
            ProveExpressionUnit::Advice { .. } => 1,
            ProveExpressionUnit::Instance { .. } => 2,
        }
    }

    /// Whether `self` comes strictly before `other` in the order by
    /// (kind, column index, rotation).
    pub fn less_than(&self, other: &ProveExpressionUnit) -> (r: bool)
        ensures
            r == unit_lt(*self, *other),
    {
        let (ka, kb) = (self.kind_rank(), other.kind_rank());
        let (ca, cb) = (self.column_index(), other.column_index());
        let (ra, rb) = (self.rotation(), other.rotation());
        ka < kb || (ka == kb && (ca < cb || (ca == cb && ra < rb)))
    }
}

/// Strict lexicographic order on (kind, column index, rotation).
pub open spec fn unit_lt(a: ProveExpressionUnit, b: ProveExpressionUnit) -> bool {
    a.kind() < b.kind() || (a.kind() == b.kind() && (a.col() < b.col() || (a.col() == b.col()
        && a.rot() < b.rot())))
}

/// Non-strict form of [`unit_lt`].
pub open spec fn unit_le(a: ProveExpressionUnit, b: ProveExpressionUnit) -> bool {
    unit_lt(a, b) || a == b
}

/// Two cells agree on kind, index and rotation exactly when they are equal.
pub proof fn lemma_unit_fields_eq(a: ProveExpressionUnit, b: ProveExpressionUnit)
    ensures
        (a.kind() == b.kind() && a.col() == b.col() && a.rot() == b.rot()) <==> a == b,
{
}

/// The order on cells is total and strict.
pub proof fn lemma_unit_order_total(a: ProveExpressionUnit, b: ProveExpressionUnit)
    ensures
        unit_lt(a, b) || unit_lt(b, a) || a == b,
        !(unit_lt(a, b) && unit_lt(b, a)),
        !unit_lt(a, a),
{
    lemma_unit_fields_eq(a, b);
}

/// The non-strict order on cells is transitive.
pub proof fn lemma_unit_le_trans(a: ProveExpressionUnit, b: ProveExpressionUnit, c: ProveExpressionUnit)
    requires
        unit_le(a, b),
        unit_le(b, c),
    ensures
        unit_le(a, c),
{
}

/// Whether a sequence of cells is sorted in non-decreasing order.
pub open spec fn sorted_units(s: Seq<ProveExpressionUnit>) -> bool {
    forall|i: int, j: int| 0 <= i < j < s.len() ==> unit_le(#[trigger] s[i], #[trigger] s[j])
}

} // verus!

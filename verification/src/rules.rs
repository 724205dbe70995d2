//! The rules by which tables are generated.
use crate::model::Rate;
use crate::text;
use crate::value::Value;
use vstd::prelude::*;

verus! {

/// How parent rows are chosen for foreign keys.
#[derive(Debug, Clone, Copy, PartialEq, Eq, Structural)]
pub enum TableStrategy {
    Uniform,
    Zipf,
    Weighted,
}

/// How a pinned column enters the draw.
#[derive(Debug, Clone, Copy, PartialEq, Eq, Structural)]
pub enum ColumnMode {
    Rejection,
    CopulaConditional,
}

/// What a rule says of personal data in a column.
#[derive(Debug, Clone, Copy, PartialEq, Eq, Structural)]
pub enum SdType {
    Auto,
    Keep,
    Pii,
}

/// The values a column is drawn from. The weights of a weighted pool stay with
/// the drawing side; here its values stand in the order of their texts, and it is
/// known whether the weights add up to more than nothing.
#[derive(Debug)]
pub enum ValuePool {
    Weighted { values: Vec<String>, weighs: bool },
    Uniform(Vec<String>),
}

/// Where the values of a foreign key come from.
#[derive(Debug)]
pub enum PoolStrategy {
    Projection { unique: bool },
    Generated { unique: bool },
    Fixed { values: Vec<String> },
}

/// A foreign key: the column and what it refers to, as `table.column`.
#[derive(Debug)]
pub struct Relationship {
    pub pk: String,
    pub references: Vec<String>,
    pub pool_strategy: PoolStrategy,
}

/// What a rule says of a column.
#[derive(Debug)]
pub struct ColumnRule {
    pub fixed: Option<String>,
    pub values: Option<ValuePool>,
    pub fixed_range: Option<(Value, Value)>,
    pub mode: ColumnMode,
    pub null_rate: Option<Rate>,
    /// The family that training fits, whatever fits best.
    pub marginal: Option<String>,
    pub sdtype: SdType,
    pub pii_provider: Option<String>,
}

/// A column computed from others.
#[derive(Debug)]
pub struct DeriveRule {
    pub column: String,
    pub expr: String,
}

/// A predicate that a share of the rows is to satisfy, and what to write into
/// rows to make it so.
#[derive(Debug)]
pub struct BranchRule {
    pub id: String,
    pub predicate: String,
    pub set: Vec<(String, String)>,
}

/// The rules of a table.
#[derive(Debug)]
pub struct TableRule {
    pub name: String,
    pub rows: Option<usize>,
    pub strategy: TableStrategy,
    pub columns: Vec<(String, ColumnRule)>,
    pub relationships: Vec<Relationship>,
    pub derive: Vec<DeriveRule>,
    pub branches: Vec<BranchRule>,
}

/// The rules of all tables.
#[derive(Debug)]
pub struct SynthRules {
    pub version: String,
    pub tables: Vec<TableRule>,
}

impl ColumnRule {
    /// Whether the rule replaces the column's drawn values.
    pub open spec fn overrides(&self) -> bool {
        self.fixed is Some || self.values is Some || self.fixed_range is Some
    }

    pub fn has_column_override(&self) -> (r: bool)
        ensures
            r == self.overrides(),
    {
        self.fixed.is_some() || self.values.is_some() || self.fixed_range.is_some()
    }
}

/// The rule of a column.
pub open spec fn column_rule(columns: Seq<(String, ColumnRule)>, name: Seq<char>) -> Option<
    ColumnRule,
>
    decreases columns.len(),
{
    if columns.len() == 0 {
        None
    } else if columns[0].0@ == name {
        Some(columns[0].1)
    } else {
        column_rule(columns.skip(1), name)
    }
}

impl TableRule {
    /// The rule of a column, where there is one.
    pub fn column(&self, name: &str) -> (r: Option<&ColumnRule>)
        ensures
            match r {
                Some(c) => column_rule(self.columns@, name@) == Some(*c),
                None => column_rule(self.columns@, name@) is None,
            },
    {
        let mut i: usize = 0;
        proof {
            assert(self.columns@.skip(0) =~= self.columns@);
        }
        while i < self.columns.len()
            invariant
                i <= self.columns@.len(),
                column_rule(self.columns@, name@) == column_rule(
                    self.columns@.skip(i as int),
                    name@,
                ),
            decreases self.columns@.len() - i,
        {
            proof {
                assert(self.columns@.skip(i as int).skip(1) =~= self.columns@.skip(i + 1));
            }
            if text::same(self.columns[i].0.as_str(), name) {
                return Some(&self.columns[i].1);
            }
            i = i + 1;
        }
        None
    }

    /// Whether a column is one of the table's foreign keys.
    pub open spec fn is_foreign_key(&self, name: Seq<char>) -> bool {
        exists|i: int|
            0 <= i < self.relationships@.len() && (#[trigger] self.relationships@[i]).pk@ == name
    }

    pub fn has_foreign_key(&self, name: &str) -> (r: bool)
        ensures
            r == self.is_foreign_key(name@),
    {
        let mut i: usize = 0;
        while i < self.relationships.len()
            invariant
                i <= self.relationships@.len(),
                forall|j: int| 0 <= j < i ==> (#[trigger] self.relationships@[j]).pk@ != name@,
            decreases self.relationships@.len() - i,
        {
            if text::same(self.relationships[i].pk.as_str(), name) {
                return true;
            }
            i = i + 1;
        }
        false
    }

    /// Whether a column is computed from others.
    pub open spec fn is_derived(&self, name: Seq<char>) -> bool {
        exists|i: int| 0 <= i < self.derive@.len() && (#[trigger] self.derive@[i]).column@ == name
    }

    pub fn has_derived(&self, name: &str) -> (r: bool)
        ensures
            r == self.is_derived(name@),
    {
        let mut i: usize = 0;
        while i < self.derive.len()
            invariant
                i <= self.derive@.len(),
                forall|j: int| 0 <= j < i ==> (#[trigger] self.derive@[j]).column@ != name@,
            decreases self.derive@.len() - i,
        {
            if text::same(self.derive[i].column.as_str(), name) {
                return true;
            }
            i = i + 1;
        }
        false
    }
}

/// Whether a pool has no values.
pub fn value_pool_is_empty(pool: &ValuePool) -> (r: bool)
    ensures
        r == (pool_literals(*pool).len() == 0),
{
    match pool {
        ValuePool::Weighted { values, .. } => values.len() == 0,
        ValuePool::Uniform(values) => values.len() == 0,
    }
}

/// The values of a pool.
pub open spec fn pool_literals(pool: ValuePool) -> Seq<String> {
    match pool {
        ValuePool::Weighted { values, .. } => values@,
        ValuePool::Uniform(values) => values@,
    }
}

/// Some value of a pool can be expected: it has values, and weights that add up to
/// more than nothing where it has weights.
pub open spec fn pool_weighs(pool: ValuePool) -> bool {
    pool_literals(pool).len() > 0 && match pool {
        ValuePool::Weighted { weighs, .. } => weighs,
        ValuePool::Uniform(_) => true,
    }
}

/// Whether some value of a pool can be expected.
pub fn value_pool_weighs(pool: &ValuePool) -> (r: bool)
    ensures
        r == pool_weighs(*pool),
{
    match pool {
        ValuePool::Weighted { values, weighs } => values.len() > 0 && *weighs,
        ValuePool::Uniform(values) => values.len() > 0,
    }
}

} // verus!

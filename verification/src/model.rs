//! What is known of a table from training.
use crate::cardinality::CardinalityDist;
use crate::domain::Point;
use crate::text;
use vstd::prelude::*;

verus! {

/// The newest version of the model format.
pub const CURRENT_VERSION: u32 = 1;

/// What a column's values are.
#[derive(Debug, Clone, Copy, PartialEq, Eq, Structural)]
pub enum LogicalType {
    Numerical,
    Categorical,
    Datetime,
}

/// A rate between nothing and one: how it is written, and whether it is above
/// zero.
#[derive(Debug)]
pub struct Rate {
    pub text: String,
    pub positive: bool,
}

impl Rate {
    /// A copy of the rate.
    pub fn copy(&self) -> (r: Rate)
        ensures
            r.text@ == self.text@,
            r.positive == self.positive,
    {
        Rate { text: self.text.clone(), positive: self.positive }
    }
}

/// Where a model came from.
#[derive(Debug)]
pub struct Provenance {
    pub source: String,
    pub converter_version: Option<String>,
    pub sdv_version: Option<String>,
    /// The sample may have been cut off by the driver.
    pub truncated: bool,
    pub trained_rows: Option<usize>,
}

/// What the generator reads of a trained column.
#[derive(Debug)]
pub struct ColumnModel {
    pub logical_type: LogicalType,
    /// Digits after the point to which values are rounded.
    pub rounding: Option<u32>,
    pub decimal_scale: Option<u8>,
    pub datetime_format: Option<String>,
    /// The smallest value that was seen.
    pub min: Option<Point>,
    /// The largest value that was seen.
    pub max: Option<Point>,
    /// The levels of a categorical marginal; `None` for other marginals.
    pub levels: Option<Vec<String>>,
    pub null_rate: Option<Rate>,
}

impl ColumnModel {
    /// Values are whole numbers.
    pub open spec fn whole(&self) -> bool {
        self.rounding == Some(0u32)
    }

    pub fn is_integer(&self) -> (r: bool)
        ensures
            r == self.whole(),
    {
        match self.rounding {
            Some(n) => n == 0,
            None => false,
        }
    }
}

/// What the generator reads of a trained table.
#[derive(Debug)]
pub struct TableModel {
    pub version: u32,
    pub table: String,
    pub dialect: String,
    pub schema: Option<String>,
    pub provenance: Provenance,
    pub pk: Vec<String>,
    pub columns: Vec<(String, ColumnModel)>,
    pub column_order: Vec<String>,
    /// How many children a parent has, for each foreign key that was learned.
    pub fk_cardinality: Vec<(String, CardinalityDist)>,
}

/// The model of a column.
pub open spec fn column_model(columns: Seq<(String, ColumnModel)>, name: Seq<char>) -> Option<
    ColumnModel,
>
    decreases columns.len(),
{
    if columns.len() == 0 {
        None
    } else if columns[0].0@ == name {
        Some(columns[0].1)
    } else {
        column_model(columns.skip(1), name)
    }
}

impl TableModel {
    /// The model of a column, where there is one.
    pub fn column(&self, name: &str) -> (r: Option<&ColumnModel>)
        ensures
            match r {
                Some(c) => column_model(self.columns@, name@) == Some(*c),
                None => column_model(self.columns@, name@) is None,
            },
    {
        let mut i: usize = 0;
        proof {
            assert(self.columns@.skip(0) =~= self.columns@);
        }
        while i < self.columns.len()
            invariant
                i <= self.columns@.len(),
                column_model(self.columns@, name@) == column_model(
                    self.columns@.skip(i as int),
                    name@,
                ),
            decreases self.columns@.len() - i,
        {
            proof {
                assert(self.columns@.skip(i as int).skip(1) =~= self.columns@.skip(i + 1));
            }
            if text::same(self.columns[i].0.as_str(), name) {
                return Some(&self.columns[i].1);
            }
            i = i + 1;
        }
        None
    }

    /// Whether a column holds numbers, as far as it is known.
    pub open spec fn numerical(&self, name: Seq<char>) -> bool {
        match column_model(self.columns@, name) {
            Some(c) => c.logical_type == LogicalType::Numerical,
            None => false,
        }
    }

    pub fn is_numerical(&self, name: &str) -> (r: bool)
        ensures
            r == self.numerical(name@),
    {
        match self.column(name) {
            Some(c) => match c.logical_type {
                LogicalType::Numerical => true,
                _ => false,
            },
            None => false,
        }
    }

    /// A model of a newer format is refused.
    pub fn check_version(version: u32) -> (r: Result<(), String>)
        ensures
            match r {
                Ok(_) => version <= CURRENT_VERSION,
                Err(e) => version > CURRENT_VERSION && e@ == "model version "@ + text::digits(
                    version as nat,
                ) + " not supported (max "@ + text::digits(CURRENT_VERSION as nat) + ")"@,
            },
    {
        if version > CURRENT_VERSION {
            let given = text::unsigned_text(version as u64);
            let newest = text::unsigned_text(CURRENT_VERSION as u64);
            let mut e = text::around("model version ", given.as_str(), " not supported (max ");
            text::push_text(&mut e, newest.as_str());
            text::push_text(&mut e, ")");
            return Err(e);
        }
        Ok(())
    }
}

} // verus!

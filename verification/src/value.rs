//! Cell values.
use crate::text;
use vstd::prelude::*;

verus! {

/// A JSON value. A number is kept as its exact literal text, an array or an
/// object as its JSON text.
#[derive(Debug, PartialEq, Eq)]
pub enum Value {
    Null,
    Bool(bool),
    Number(String),
    Text(String),
    Array(String),
    Object(String),
}

/// What a value is.
pub enum Cell {
    Null,
    Bool(bool),
    Number(Seq<char>),
    Text(Seq<char>),
    Array(Seq<char>),
    Object(Seq<char>),
}

impl View for Value {
    type V = Cell;

    open spec fn view(&self) -> Cell {
        match self {
            Value::Null => Cell::Null,
            Value::Bool(b) => Cell::Bool(*b),
            Value::Number(s) => Cell::Number(s@),
            Value::Text(s) => Cell::Text(s@),
            Value::Array(s) => Cell::Array(s@),
            Value::Object(s) => Cell::Object(s@),
        }
    }
}

impl DeepView for Value {
    type V = Cell;

    open spec fn deep_view(&self) -> Cell {
        self@
    }
}

/// Whether two texts write the same JSON number; nothing where one of them writes none.
pub uninterp spec fn same_number(a: Seq<char>, b: Seq<char>) -> Option<bool>;

/// `serde_json::from_str` of two texts as `serde_json::Number`, and `==` of the two: the
/// result depends on the texts alone.
#[verifier::external_body]
fn equal_numbers(a: &str, b: &str) -> (r: Option<bool>)
    ensures
        r == same_number(a@, b@),
{
    let x = serde_json::from_str::<serde_json::Number>(a).ok()?;
    let y = serde_json::from_str::<serde_json::Number>(b).ok()?;
    Some(x == y)
}

/// Two cells are equal as JSON values: numbers by what they are, not by how they are
/// written.
pub open spec fn equal_cells(a: Cell, b: Cell) -> bool {
    match (a, b) {
        (Cell::Number(x), Cell::Number(y)) => match same_number(x, y) {
            Some(same) => same,
            None => x == y,
        },
        _ => a == b,
    }
}

impl Value {
    /// Whether two values are equal as JSON values.
    pub fn equals(&self, other: &Value) -> (r: bool)
        ensures
            r == equal_cells(self@, other@),
    {
        match (self, other) {
            (Value::Number(a), Value::Number(b)) => match equal_numbers(a.as_str(), b.as_str()) {
                Some(same) => same,
                None => text::same(a.as_str(), b.as_str()),
            },
            _ => self.same(other),
        }
    }

    /// Whether two values are the same.
    pub fn same(&self, other: &Value) -> (r: bool)
        ensures
            r == (self@ == other@),
    {
        match (self, other) {
            (Value::Null, Value::Null) => true,
            (Value::Bool(a), Value::Bool(b)) => *a == *b,
            (Value::Number(a), Value::Number(b)) => text::same(a.as_str(), b.as_str()),
            (Value::Text(a), Value::Text(b)) => text::same(a.as_str(), b.as_str()),
            (Value::Array(a), Value::Array(b)) => text::same(a.as_str(), b.as_str()),
            (Value::Object(a), Value::Object(b)) => text::same(a.as_str(), b.as_str()),
            _ => false,
        }
    }

    /// A copy of the value.
    pub fn copy(&self) -> (r: Value)
        ensures
            r@ == self@,
    {
        match self {
            Value::Null => Value::Null,
            Value::Bool(b) => Value::Bool(*b),
            Value::Number(s) => Value::Number(s.clone()),
            Value::Text(s) => Value::Text(s.clone()),
            Value::Array(s) => Value::Array(s.clone()),
            Value::Object(s) => Value::Object(s.clone()),
        }
    }

    pub fn is_null(&self) -> (r: bool)
        ensures
            r == (self@ is Null),
    {
        match self {
            Value::Null => true,
            _ => false,
        }
    }
}

/// The cells of a row by the names of their columns; of columns with one name
/// the first counts.
pub open spec fn row_cells(columns: Seq<Seq<char>>, row: Seq<Cell>) -> Map<Seq<char>, Cell> {
    Map::new(|n: Seq<char>| columns.contains(n), |n: Seq<char>| row[first_place(columns, n)])
}

/// The first place at which a name stands, or the length where it does not.
pub open spec fn first_place(names: Seq<Seq<char>>, n: Seq<char>) -> int
    decreases names.len(),
{
    if names.len() == 0 {
        0
    } else if names[0] == n {
        0
    } else {
        1 + first_place(names.skip(1), n)
    }
}

pub proof fn lemma_first_place(names: Seq<Seq<char>>, n: Seq<char>)
    ensures
        0 <= first_place(names, n) <= names.len(),
        names.contains(n) <==> first_place(names, n) < names.len(),
        first_place(names, n) < names.len() ==> names[first_place(names, n)] == n,
        forall|i: int| 0 <= i < first_place(names, n) ==> #[trigger] names[i] != n,
    decreases names.len(),
{
    if names.len() > 0 && names[0] != n {
        let rest = names.skip(1);
        lemma_first_place(rest, n);
        assert forall|i: int| 0 <= i < first_place(names, n) implies #[trigger] names[i] != n by {
            if i > 0 {
                assert(names[i] == rest[i - 1]);
            }
        }
        if names.contains(n) {
            let i = names.index_of(n);
            assert(rest[i - 1] == n);
        }
        if rest.contains(n) {
            let i = rest.index_of(n);
            assert(names[i + 1] == n);
        }
    } else if names.len() > 0 {
        assert(names[0] == n);
    }
}

/// The place where a name is found is its first place.
pub proof fn lemma_place_found(names: Seq<Seq<char>>, n: Seq<char>, i: int)
    requires
        0 <= i < names.len(),
        names[i] == n,
        forall|j: int| 0 <= j < i ==> #[trigger] names[j] != n,
    ensures
        first_place(names, n) == i,
{
    lemma_first_place(names, n);
}

/// The first place at which a name stands.
pub fn find_name(names: &[String], n: &str) -> (r: Option<usize>)
    ensures
        match r {
            Some(i) => i < names@.len() && i == first_place(names.deep_view(), n@)
                && names.deep_view().contains(n@) && names@[i as int]@ == n@,
            None => !names.deep_view().contains(n@),
        },
{
    let ghost all = names.deep_view();
    let mut i: usize = 0;
    while i < names.len()
        invariant
            i <= names@.len(),
            all == names.deep_view(),
            forall|j: int| 0 <= j < i ==> #[trigger] all[j] != n@,
        decreases names@.len() - i,
    {
        if text::same(names[i].as_str(), n) {
            proof {
                assert(all[i as int] == n@);
                lemma_place_found(all, n@, i as int);
            }
            return Some(i);
        }
        i = i + 1;
    }
    None
}

/// The last place at which a name stands, or -1 where it does not.
pub open spec fn last_place(names: Seq<Seq<char>>, n: Seq<char>) -> int
    decreases names.len(),
{
    if names.len() == 0 {
        -1
    } else if names.last() == n {
        names.len() - 1
    } else {
        last_place(names.drop_last(), n)
    }
}

pub proof fn lemma_last_place(names: Seq<Seq<char>>, n: Seq<char>)
    ensures
        -1 <= last_place(names, n) < names.len(),
        names.contains(n) <==> last_place(names, n) >= 0,
        last_place(names, n) >= 0 ==> names[last_place(names, n)] == n,
        forall|i: int| last_place(names, n) < i < names.len() ==> #[trigger] names[i] != n,
    decreases names.len(),
{
    if names.len() > 0 && names.last() != n {
        let rest = names.drop_last();
        lemma_last_place(rest, n);
        if names.contains(n) {
            let i = names.index_of(n);
            assert(rest[i] == n);
        }
        if rest.contains(n) {
            let i = rest.index_of(n);
            assert(names[i] == n);
        }
        assert forall|i: int| last_place(names, n) < i < names.len() implies #[trigger] names[i]
            != n by {
            if i < rest.len() {
                assert(rest[i] == names[i]);
            }
        }
    } else if names.len() > 0 {
        assert(names[names.len() - 1] == n);
    }
}

/// The last place at which a name stands.
pub fn find_last_name(names: &[String], n: &str) -> (r: Option<usize>)
    ensures
        match r {
            Some(i) => i < names@.len() && i == last_place(names.deep_view(), n@)
                && names.deep_view().contains(n@),
            None => !names.deep_view().contains(n@) && last_place(names.deep_view(), n@) == -1,
        },
{
    let ghost all = names.deep_view();
    let mut i: usize = names.len();
    proof {
        lemma_last_place(all, n@);
    }
    while i > 0
        invariant
            i <= names@.len(),
            all == names.deep_view(),
            forall|j: int| i <= j < all.len() ==> #[trigger] all[j] != n@,
            all.contains(n@) <==> last_place(all, n@) >= 0,
            last_place(all, n@) >= 0 ==> all[last_place(all, n@)] == n@,
            -1 <= last_place(all, n@) < all.len(),
            forall|j: int| last_place(all, n@) < j < all.len() ==> #[trigger] all[j] != n@,
        decreases i,
    {
        i = i - 1;
        if text::same(names[i].as_str(), n) {
            proof {
                assert(all[i as int] == n@);
            }
            return Some(i);
        }
    }
    None
}

/// The cells of a table's row by the names of its columns; of columns with one
/// name the last counts.
pub open spec fn table_cells(columns: Seq<Seq<char>>, row: Seq<Cell>) -> Map<Seq<char>, Cell> {
    Map::new(
        |n: Seq<char>| 0 <= last_place(columns, n) < row.len(),
        |n: Seq<char>| row[last_place(columns, n)],
    )
}

/// A row of a table.
pub struct TableRow<'a> {
    pub columns: &'a [String],
    pub row: &'a [Value],
}

impl<'a> Columns for TableRow<'a> {
    open spec fn cells(&self) -> Map<Seq<char>, Cell> {
        table_cells(self.columns.deep_view(), self.row.deep_view())
    }

    fn get(&self, name: &str) -> (r: Option<Value>) {
        match find_last_name(self.columns, name) {
            Some(i) => if i < self.row.len() {
                Some(self.row[i].copy())
            } else {
                None
            },
            None => None,
        }
    }
}

/// A row by the names of its columns.
pub trait Columns {
    spec fn cells(&self) -> Map<Seq<char>, Cell>;

    fn get(&self, name: &str) -> (r: Option<Value>)
        ensures
            match r {
                Some(v) => self.cells().contains_key(name@) && self.cells()[name@] == v@,
                None => !self.cells().contains_key(name@),
            },
    ;
}

/// The names of pairs.
pub open spec fn pair_names(pairs: Seq<(String, Value)>) -> Seq<Seq<char>> {
    Seq::new(pairs.len(), |i: int| pairs[i].0@)
}

/// The values of pairs.
pub open spec fn pair_cells(pairs: Seq<(String, Value)>) -> Seq<Cell> {
    Seq::new(pairs.len(), |i: int| pairs[i].1@)
}

impl Columns for Vec<(String, Value)> {
    open spec fn cells(&self) -> Map<Seq<char>, Cell> {
        row_cells(pair_names(self@), pair_cells(self@))
    }

    fn get(&self, name: &str) -> (r: Option<Value>) {
        let ghost names = pair_names(self@);
        let mut i: usize = 0;
        while i < self.len()
            invariant
                i <= self@.len(),
                names == pair_names(self@),
                forall|j: int| 0 <= j < i ==> #[trigger] names[j] != name@,
            decreases self@.len() - i,
        {
            if text::same(self[i].0.as_str(), name) {
                proof {
                    assert(names[i as int] == name@);
                    lemma_place_found(names, name@, i as int);
                }
                return Some(self[i].1.copy());
            }
            i = i + 1;
        }
        None
    }
}

} // verus!

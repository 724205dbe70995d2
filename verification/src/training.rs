//! Training: what is read from a sample, and which columns are modelled how.
use crate::cardinality;
use crate::cardinality::CardinalityDist;
use crate::decimal;
use crate::model::Rate;
use crate::names;
use crate::rules::{SdType, SynthRules};
use crate::text;
use crate::value;
use crate::value::{Cell, Value};
use crate::CategoricalTopK;
use vstd::prelude::*;

verus! {

/// The text behind a plus sign.
pub open spec fn unsigned(s: Seq<char>) -> Seq<char> {
    if s.len() > 0 && s[0] == '+' {
        s.skip(1)
    } else {
        s
    }
}

/// The number that a text writes: an optional plus sign and one or more digits.
pub open spec fn count_of(s: Seq<char>) -> Option<nat> {
    let d = unsigned(s);
    if d.len() > 0 && (forall|i: int| 0 <= i < d.len() ==> decimal::is_digit(#[trigger] d[i])) {
        Some(decimal::numeral(d))
    } else {
        None
    }
}

/// The number that a text writes, where it can be counted to.
pub open spec fn fitting_count(s: Seq<char>) -> Option<nat> {
    match count_of(s) {
        Some(n) => if n <= usize::MAX {
            Some(n)
        } else {
            None
        },
        None => None,
    }
}

fn parse_count(s: &str) -> (r: Option<usize>)
    ensures
        match r {
            Some(n) => fitting_count(s@) == Some(n as nat),
            None => fitting_count(s@) is None,
        },
{
    let chars = text::to_chars(s);
    let start: usize = if chars.len() > 0 && chars[0] == '+' {
        1
    } else {
        0
    };
    let ghost d = unsigned(s@);
    proof {
        assert(d =~= chars@.skip(start as int));
    }
    if start == chars.len() {
        return None;
    }
    let mut n: usize = 0;
    let mut large = false;
    let mut i: usize = start;
    proof {
        assert(d.take(0) =~= Seq::empty());
    }
    while i < chars.len()
        invariant
            start <= i <= chars@.len(),
            chars@ == s@,
            d == unsigned(s@),
            d == chars@.skip(start as int),
            start < chars@.len(),
            forall|k: int| 0 <= k < i - start ==> decimal::is_digit(#[trigger] d[k]),
            large ==> decimal::numeral(d.take(i - start)) > usize::MAX,
            !large ==> decimal::numeral(d.take(i - start)) == n,
        decreases chars@.len() - i,
    {
        let c: char = chars[i];
        proof {
            assert(d[i - start] == c);
            assert(d.take(i + 1 - start).drop_last() =~= d.take(i - start));
        }
        if !('0' <= c && c <= '9') {
            proof {
                assert(!decimal::is_digit(d[i - start]));
            }
            return None;
        }
        if !large {
            let digit: usize = (text::code(c) - 48) as usize;
            match n.checked_mul(10) {
                Some(m) => match m.checked_add(digit) {
                    Some(k) => {
                        n = k;
                    },
                    None => {
                        large = true;
                    },
                },
                None => {
                    large = true;
                },
            }
        }
        i = i + 1;
    }
    proof {
        assert(d.take(d.len() as int) =~= d);
    }
    if large {
        None
    } else {
        Some(n)
    }
}

/// Reads how many levels of a categorical column are kept: a positive number, or
/// `full`.
pub fn parse_categorical_top_k(s: &str) -> (r: Result<CategoricalTopK, String>)
    ensures
        match r {
            Ok(CategoricalTopK::Full) => text::alike(s@, "full"@),
            Ok(CategoricalTopK::Limit(n)) => !text::alike(s@, "full"@) && n > 0
                && fitting_count(s@) == Some(n as nat),
            Err(m) => {
                &&& !text::alike(s@, "full"@)
                &&& match fitting_count(s@) {
                    None => m@ == "invalid --categorical-top-k '"@ + s@
                        + "': expected a positive integer or 'full'"@,
                    Some(n) => n == 0 && m@
                        == "--categorical-top-k must be a positive integer or 'full'"@,
                }
            },
        },
{
    if text::same_fold(s, "full") {
        return Ok(CategoricalTopK::Full);
    }
    match parse_count(s) {
        Some(n) => if n == 0 {
            Err("--categorical-top-k must be a positive integer or 'full'".to_owned())
        } else {
            Ok(CategoricalTopK::Limit(n))
        },
        None => Err(
            text::around(
                "invalid --categorical-top-k '",
                s,
                "': expected a positive integer or 'full'",
            ),
        ),
    }
}

/// The first column whose name differs from a key at most in capitals.
pub open spec fn column_alike(columns: Seq<Seq<char>>, key: Seq<char>) -> Option<Seq<char>>
    decreases columns.len(),
{
    if columns.len() == 0 {
        None
    } else if text::alike(columns[0], key) {
        Some(columns[0])
    } else {
        column_alike(columns.skip(1), key)
    }
}

/// Keys as the columns are written; keys without a column are left out.
pub open spec fn reconciled(pk: Seq<Seq<char>>, columns: Seq<Seq<char>>) -> Seq<Seq<char>>
    decreases pk.len(),
{
    if pk.len() == 0 {
        Seq::empty()
    } else {
        let before = reconciled(pk.drop_last(), columns);
        match column_alike(columns, pk.last()) {
            Some(c) => before.push(c),
            None => before,
        }
    }
}

/// The place of the first column whose name differs from a wanted one at most in
/// capitals.
fn find_alike(columns: &[String], key: &str) -> (r: Option<usize>)
    ensures
        match r {
            Some(i) => i < columns@.len() && column_alike(columns.deep_view(), key@) == Some(
                columns@[i as int]@,
            ) && is_first_alike(columns.deep_view(), key@, i as int),
            None => column_alike(columns.deep_view(), key@) is None && forall|k: int|
                0 <= k < columns@.len() ==> !text::alike(#[trigger] columns.deep_view()[k], key@),
        },
{
    let ghost all = columns.deep_view();
    let mut i: usize = 0;
    proof {
        assert(all.skip(0) =~= all);
    }
    while i < columns.len()
        invariant
            i <= columns@.len(),
            all == columns.deep_view(),
            column_alike(all, key@) == column_alike(all.skip(i as int), key@),
            forall|k: int| 0 <= k < i ==> !text::alike(#[trigger] all[k], key@),
        decreases columns@.len() - i,
    {
        proof {
            assert(all.skip(i as int).skip(1) =~= all.skip(i + 1));
            assert(all.skip(i as int)[0] == columns@[i as int]@);
        }
        if text::same_fold(columns[i].as_str(), key) {
            return Some(i);
        }
        i = i + 1;
    }
    None
}

pub open spec fn is_first_alike(columns: Seq<Seq<char>>, key: Seq<char>, i: int) -> bool {
    &&& 0 <= i < columns.len()
    &&& text::alike(columns[i], key)
    &&& forall|k: int| 0 <= k < i ==> !text::alike(#[trigger] columns[k], key)
}

/// Writes keys as the columns are written, and leaves out keys without a column.
pub fn reconcile_primary_key(pk: Vec<String>, columns: &[String]) -> (r: Vec<String>)
    ensures
        r.deep_view() == reconciled(pk.deep_view(), columns.deep_view()),
{
    let ghost all = pk.deep_view();
    let mut out: Vec<String> = Vec::new();
    let mut i: usize = 0;
    proof {
        assert(all.take(0) =~= Seq::empty());
        assert(out.deep_view() =~= Seq::empty());
    }
    while i < pk.len()
        invariant
            i <= pk@.len(),
            all == pk.deep_view(),
            out.deep_view() == reconciled(all.take(i as int), columns.deep_view()),
        decreases pk@.len() - i,
    {
        let ghost before = out.deep_view();
        proof {
            assert(all.take(i + 1).drop_last() =~= all.take(i as int));
            assert(all.take(i + 1).last() == pk@[i as int]@);
        }
        match find_alike(columns, pk[i].as_str()) {
            Some(k) => {
                out.push(columns[k].clone());
                proof {
                    assert(out.deep_view() =~= before.push(columns@[k as int]@));
                }
            },
            None => {},
        }
        i = i + 1;
    }
    proof {
        assert(all.take(all.len() as int) =~= all);
    }
    out
}

proof fn lemma_alike_found(columns: Seq<Seq<char>>, key: Seq<char>)
    ensures
        match column_alike(columns, key) {
            Some(c) => columns.contains(c) && text::alike(c, key),
            None => true,
        },
    decreases columns.len(),
{
    if columns.len() > 0 {
        if text::alike(columns[0], key) {
            assert(columns.contains(columns[0]));
        } else {
            let rest = columns.skip(1);
            lemma_alike_found(rest, key);
            if let Some(c) = column_alike(rest, key) {
                assert(columns[rest.index_of(c) + 1] == c);
            }
        }
    }
}

/// Every recorded key column is a column of the sample.
pub proof fn lemma_keys_are_columns(pk: Seq<Seq<char>>, columns: Seq<Seq<char>>, i: int)
    requires
        0 <= i < reconciled(pk, columns).len(),
    ensures
        columns.contains(reconciled(pk, columns)[i]),
    decreases pk.len(),
{
    let before = reconciled(pk.drop_last(), columns);
    if i < before.len() {
        lemma_keys_are_columns(pk.drop_last(), columns, i);
        assert(reconciled(pk, columns)[i] == before[i]);
    } else {
        lemma_alike_found(columns, pk.last());
    }
}

/// The rows that a query gave.
#[derive(Debug)]
pub struct QueryResult {
    pub columns: Vec<String>,
    pub rows: Vec<Vec<Value>>,
}

/// A foreign key of the database.
#[derive(Debug, PartialEq, Eq)]
pub struct ForeignKeyInfo {
    pub from_table: String,
    pub from_column: String,
    pub to_table: String,
    pub to_column: String,
}

/// What a foreign key is.
pub struct Link {
    pub from_table: Seq<char>,
    pub from_column: Seq<char>,
    pub to_table: Seq<char>,
    pub to_column: Seq<char>,
}

impl View for ForeignKeyInfo {
    type V = Link;

    open spec fn view(&self) -> Link {
        Link {
            from_table: self.from_table@,
            from_column: self.from_column@,
            to_table: self.to_table@,
            to_column: self.to_column@,
        }
    }
}

impl DeepView for ForeignKeyInfo {
    type V = Link;

    open spec fn deep_view(&self) -> Link {
        self@
    }
}

/// The place of a wanted column.
pub open spec fn place_alike(columns: Seq<Seq<char>>, key: Seq<char>) -> int {
    choose|i: int| is_first_alike(columns, key, i)
}

/// A wanted column is missing.
pub open spec fn lacks(columns: Seq<Seq<char>>, key: Seq<char>) -> bool {
    column_alike(columns, key) is None
}

/// The text of a cell, where it is one.
pub open spec fn text_at(row: Seq<Cell>, i: int) -> Option<Seq<char>> {
    if 0 <= i < row.len() {
        match row[i] {
            Cell::Text(s) => Some(s),
            _ => None,
        }
    } else {
        None
    }
}

/// The foreign key of a row, where all its parts are texts.
pub open spec fn link_of(row: Seq<Cell>, t: int, c: int, rt: int, rc: int) -> Option<Link> {
    if text_at(row, t) is Some && text_at(row, c) is Some && text_at(row, rt) is Some && text_at(
        row,
        rc,
    ) is Some {
        Some(
            Link {
                from_table: text_at(row, t)->0,
                from_column: text_at(row, c)->0,
                to_table: text_at(row, rt)->0,
                to_column: text_at(row, rc)->0,
            },
        )
    } else {
        None
    }
}

/// The foreign keys of rows; rows without all four texts are left out.
pub open spec fn links_of(rows: Seq<Vec<Value>>, t: int, c: int, rt: int, rc: int) -> Seq<Link>
    decreases rows.len(),
{
    if rows.len() == 0 {
        Seq::empty()
    } else {
        let before = links_of(rows.drop_last(), t, c, rt, rc);
        match link_of(rows.last().deep_view(), t, c, rt, rc) {
            Some(l) => before.push(l),
            None => before,
        }
    }
}

/// The message for a column that the query did not give.
pub open spec fn missing_column(key: Seq<char>) -> Seq<char> {
    "FK query result missing column '"@ + key + "'"@
}

fn wanted_column(columns: &[String], key: &str) -> (r: Result<usize, String>)
    ensures
        match r {
            Ok(i) => !lacks(columns.deep_view(), key@) && i == place_alike(
                columns.deep_view(),
                key@,
            ),
            Err(m) => lacks(columns.deep_view(), key@) && m@ == missing_column(key@),
        },
{
    match find_alike(columns, key) {
        Some(i) => {
            proof {
                let all = columns.deep_view();
                let j = place_alike(all, key@);
                assert(is_first_alike(all, key@, i as int));
                assert(is_first_alike(all, key@, j));
                if j < i {
                    assert(!text::alike(all[j], key@));
                } else if i < j {
                    assert(!text::alike(all[i as int], key@));
                }
            }
            Ok(i)
        },
        None => Err(text::around("FK query result missing column '", key, "'")),
    }
}

fn read_text(row: &Vec<Value>, i: usize) -> (r: Option<String>)
    ensures
        r.deep_view() == text_at(row.deep_view(), i as int),
{
    if i < row.len() {
        proof {
            assert(row.deep_view()[i as int] == row@[i as int]@);
        }
        match &row[i] {
            Value::Text(s) => Some(s.clone()),
            _ => None,
        }
    } else {
        None
    }
}

/// The first of four names that a query's columns lack.
pub open spec fn first_lacking(columns: Seq<Seq<char>>) -> Option<Seq<char>> {
    if lacks(columns, "table_name"@) {
        Some("table_name"@)
    } else if lacks(columns, "column_name"@) {
        Some("column_name"@)
    } else if lacks(columns, "referenced_table"@) {
        Some("referenced_table"@)
    } else if lacks(columns, "referenced_column"@) {
        Some("referenced_column"@)
    } else {
        None
    }
}

/// Reads foreign keys from what a query gave. Without rows there are none,
/// whatever the columns are.
pub fn parse_foreign_keys(result: &QueryResult) -> (r: Result<Vec<ForeignKeyInfo>, String>)
    ensures
        ({
            let columns = result.columns.deep_view();
            match r {
                Ok(keys) => {
                    &&& result.rows@.len() == 0 ==> keys@.len() == 0
                    &&& result.rows@.len() > 0 ==> first_lacking(columns) is None
                        && keys.deep_view() == links_of(
                        result.rows@,
                        place_alike(columns, "table_name"@),
                        place_alike(columns, "column_name"@),
                        place_alike(columns, "referenced_table"@),
                        place_alike(columns, "referenced_column"@),
                    )
                },
                Err(m) => result.rows@.len() > 0 && first_lacking(columns) is Some && m@
                    == missing_column(first_lacking(columns)->0),
            }
        }),
{
    let mut out: Vec<ForeignKeyInfo> = Vec::new();
    if result.rows.len() == 0 {
        return Ok(out);
    }
    let columns = result.columns.as_slice();
    proof {
        assert(columns.deep_view() =~= result.columns.deep_view());
    }
    let t: usize = match wanted_column(columns, "table_name") {
        Ok(i) => i,
        Err(m) => {
            return Err(m);
        },
    };
    let c: usize = match wanted_column(columns, "column_name") {
        Ok(i) => i,
        Err(m) => {
            return Err(m);
        },
    };
    let rt: usize = match wanted_column(columns, "referenced_table") {
        Ok(i) => i,
        Err(m) => {
            return Err(m);
        },
    };
    let rc: usize = match wanted_column(columns, "referenced_column") {
        Ok(i) => i,
        Err(m) => {
            return Err(m);
        },
    };
    let mut i: usize = 0;
    proof {
        assert(result.rows@.take(0) =~= Seq::empty());
        assert(out.deep_view() =~= Seq::empty());
    }
    while i < result.rows.len()
        invariant
            i <= result.rows@.len(),
            out.deep_view() == links_of(
                result.rows@.take(i as int),
                t as int,
                c as int,
                rt as int,
                rc as int,
            ),
        decreases result.rows@.len() - i,
    {
        let ghost before = out.deep_view();
        proof {
            assert(result.rows@.take(i + 1).drop_last() =~= result.rows@.take(i as int));
            assert(result.rows@.take(i + 1).last() == result.rows@[i as int]);
        }
        let row = &result.rows[i];
        match (read_text(row, t), read_text(row, c), read_text(row, rt), read_text(row, rc)) {
            (Some(from_table), Some(from_column), Some(to_table), Some(to_column)) => {
                let key = ForeignKeyInfo { from_table, from_column, to_table, to_column };
                let ghost l = key@;
                out.push(key);
                proof {
                    assert(out.deep_view() =~= before.push(l));
                }
            },
            _ => {},
        }
        i = i + 1;
    }
    proof {
        assert(result.rows@.take(result.rows@.len() as int) =~= result.rows@);
    }
    Ok(out)
}

/// The rows of every table: what the command asks for, else its rule, else one
/// hundred.
pub fn rows_map_for_rules(rules: &SynthRules, cli_rows: Option<usize>) -> (r: Vec<(String, usize)>)
    ensures
        r@.len() == rules.tables@.len(),
        forall|i: int|
            0 <= i < r@.len() ==> (#[trigger] r@[i]).0@ == rules.tables@[i].name@ && r@[i].1 == (
            match cli_rows {
                Some(n) => n,
                None => match rules.tables@[i].rows {
                    Some(n) => n,
                    None => 100,
                },
            }),
{
    let mut out: Vec<(String, usize)> = Vec::new();
    let mut i: usize = 0;
    while i < rules.tables.len()
        invariant
            i <= rules.tables@.len(),
            out@.len() == i,
            forall|k: int|
                0 <= k < i ==> (#[trigger] out@[k]).0@ == rules.tables@[k].name@ && out@[k].1 == (
                match cli_rows {
                    Some(n) => n,
                    None => match rules.tables@[k].rows {
                        Some(n) => n,
                        None => 100,
                    },
                }),
        decreases rules.tables@.len() - i,
    {
        let rows: usize = match cli_rows {
            Some(n) => n,
            None => match rules.tables[i].rows {
                Some(n) => n,
                None => 100,
            },
        };
        out.push((rules.tables[i].name.clone(), rows));
        i = i + 1;
    }
    out
}

/// A column that a table refers to others with.
pub open spec fn is_reserved(keys: Seq<Link>, table: Seq<char>, column: Seq<char>) -> bool {
    exists|i: int|
        0 <= i < keys.len() && (#[trigger] keys[i]).from_table == table && keys[i].from_column
            == column
}

/// The columns that are not made anonymous: foreign keys, which are filled from
/// their parents. Primary keys are not among them.
pub fn pii_reserved_columns(foreign_keys: &Vec<ForeignKeyInfo>, table: &str) -> (r: Vec<String>)
    ensures
        names::ascending(r.deep_view()),
        forall|c: Seq<char>| #[trigger]
            r.deep_view().contains(c) <==> is_reserved(foreign_keys.deep_view(), table@, c),
{
    let ghost all = foreign_keys.deep_view();
    let mut out: Vec<String> = Vec::new();
    let mut i: usize = 0;
    while i < foreign_keys.len()
        invariant
            i <= foreign_keys@.len(),
            all == foreign_keys.deep_view(),
            names::ascending(out.deep_view()),
            forall|c: Seq<char>| #[trigger]
                out.deep_view().contains(c) <==> is_reserved(all.take(i as int), table@, c),
        decreases foreign_keys@.len() - i,
    {
        let ghost before = out.deep_view();
        let key = &foreign_keys[i];
        let ours = text::same(key.from_table.as_str(), table);
        if ours {
            names::insert(&mut out, key.from_column.as_str());
        }
        proof {
            let was = all.take(i as int);
            let now = all.take(i + 1);
            assert(all[i as int] == key@);
            assert forall|c: Seq<char>| #[trigger]
                out.deep_view().contains(c) <==> is_reserved(now, table@, c) by {
                assert(out.deep_view().contains(c) <==> before.contains(c) || (ours && c
                    == key.from_column@));
                if is_reserved(was, table@, c) {
                    let k = choose|k: int|
                        0 <= k < was.len() && (#[trigger] was[k]).from_table == table@
                            && was[k].from_column == c;
                    assert(now[k].from_column == c);
                }
                if ours && c == key.from_column@ {
                    assert(now[i as int].from_column == c);
                }
                if is_reserved(now, table@, c) {
                    let k = choose|k: int|
                        0 <= k < now.len() && (#[trigger] now[k]).from_table == table@
                            && now[k].from_column == c;
                    if k < i {
                        assert(was[k].from_column == c);
                    }
                }
            }
        }
        i = i + 1;
    }
    proof {
        assert(all.take(all.len() as int) =~= all);
    }
    out
}

/// What training reads of a column's profile.
#[derive(Debug)]
pub struct ProfileColumn {
    pub name: String,
    pub logical_type: String,
    pub datetime_format: Option<String>,
    /// The levels of the value dictionary, where there is one.
    pub levels: Option<Vec<String>>,
    /// A mean was observed.
    pub has_mean: bool,
    /// No value was observed.
    pub all_null: bool,
    pub is_integer: bool,
    pub decimal_scale: Option<u8>,
    /// The smallest number that was observed.
    pub min: Option<String>,
    /// The largest number that was observed.
    pub max: Option<String>,
    pub null_rate: Rate,
}

/// The profile of a column.
pub open spec fn profile_at(columns: Seq<ProfileColumn>, name: Seq<char>) -> Option<ProfileColumn>
    decreases columns.len(),
{
    if columns.len() == 0 {
        None
    } else if columns[0].name@ == name {
        Some(columns[0])
    } else {
        profile_at(columns.skip(1), name)
    }
}

fn find_profile<'a>(columns: &'a [ProfileColumn], name: &str) -> (r: Option<&'a ProfileColumn>)
    ensures
        match r {
            Some(c) => profile_at(columns@, name@) == Some(*c),
            None => profile_at(columns@, name@) is None,
        },
{
    let mut i: usize = 0;
    proof {
        assert(columns@.skip(0) =~= columns@);
    }
    while i < columns.len()
        invariant
            i <= columns@.len(),
            profile_at(columns@, name@) == profile_at(columns@.skip(i as int), name@),
        decreases columns@.len() - i,
    {
        proof {
            assert(columns@.skip(i as int).skip(1) =~= columns@.skip(i + 1));
        }
        if text::same(columns[i].name.as_str(), name) {
            return Some(&columns[i]);
        }
        i = i + 1;
    }
    None
}

/// A datetime with a known format: it is modelled by its instants.
pub open spec fn on_epoch_axis(c: ProfileColumn) -> bool {
    c.logical_type@ == "datetime"@ && c.datetime_format is Some
}

fn is_on_epoch_axis(c: &ProfileColumn) -> (r: bool)
    ensures
        r == on_epoch_axis(*c),
{
    text::same(c.logical_type.as_str(), "datetime") && c.datetime_format.is_some()
}

/// Why a marginal cannot be forced on a column.
pub open spec fn forced_fault(
    table: Seq<char>,
    columns: Seq<ProfileColumn>,
    families: Seq<Seq<char>>,
    allowed: Seq<Seq<char>>,
    column: Seq<char>,
    name: Seq<char>,
) -> Option<Seq<char>> {
    let heading = "table '"@ + table + "' column '"@ + column + "': "@;
    match profile_at(columns, column) {
        None => Some(
            "table '"@ + table + "': rules force a marginal for unknown column '"@ + column + "'"@,
        ),
        Some(c) => if name == "categorical"@ {
            if on_epoch_axis(c) {
                Some(
                    heading
                        + "a timestamp column trains on its epoch axis; marginal 'categorical' is not supported there"@,
                )
            } else if c.levels is None {
                Some(
                    heading
                        + "marginal 'categorical' needs a value dictionary, but the column has none"@,
                )
            } else {
                None
            }
        } else if !families.contains(name) && name != "ecdf"@ {
            Some(
                heading + "unknown marginal '"@ + name + "' (expected one of "@ + text::joined(
                    allowed,
                    ", "@,
                ) + ")"@,
            )
        } else if !on_epoch_axis(c) && c.levels is Some {
            Some(
                heading + "marginal '"@ + name + "' conflicts with the "@ + text::digits(
                    c.levels->0@.len(),
                )
                    + "-level value dictionary; keep 'categorical' for low-cardinality columns"@,
            )
        } else {
            None
        },
    }
}

fn check_forced(
    table: &str,
    columns: &[ProfileColumn],
    families: &[String],
    allowed: &[String],
    column: &str,
    name: &str,
) -> (r: Option<String>)
    ensures
        r.deep_view() == forced_fault(
            table@,
            columns@,
            families.deep_view(),
            allowed.deep_view(),
            column@,
            name@,
        ),
{
    let mut m = crate::domain::write_column_heading(table, column);
    let c: &ProfileColumn = match find_profile(columns, column) {
        Some(c) => c,
        None => {
            let mut u = text::around(
                "table '",
                table,
                "': rules force a marginal for unknown column '",
            );
            text::push_text(&mut u, column);
            text::push_text(&mut u, "'");
            return Some(u);
        },
    };
    let epoch = is_on_epoch_axis(c);
    if text::same(name, "categorical") {
        if epoch {
            text::push_text(
                &mut m,
                "a timestamp column trains on its epoch axis; marginal 'categorical' is not supported there",
            );
            return Some(m);
        }
        if c.levels.is_none() {
            text::push_text(
                &mut m,
                "marginal 'categorical' needs a value dictionary, but the column has none",
            );
            return Some(m);
        }
        return None;
    }
    if !names::has(families, name) && !text::same(name, "ecdf") {
        let list = text::join(allowed, ", ");
        text::push_text(&mut m, "unknown marginal '");
        text::push_text(&mut m, name);
        text::push_text(&mut m, "' (expected one of ");
        text::push_text(&mut m, list.as_str());
        text::push_text(&mut m, ")");
        return Some(m);
    }
    match &c.levels {
        Some(levels) => {
            if !epoch {
                text::push_text(&mut m, "marginal '");
                text::push_text(&mut m, name);
                text::push_text(&mut m, "' conflicts with the ");
                text::push_text(&mut m, text::number_text(levels.len()).as_str());
                text::push_text(
                    &mut m,
                    "-level value dictionary; keep 'categorical' for low-cardinality columns",
                );
                return Some(m);
            }
        },
        None => {},
    }
    None
}

/// The first forced marginal that does not apply.
pub open spec fn misforced(
    table: Seq<char>,
    columns: Seq<ProfileColumn>,
    families: Seq<Seq<char>>,
    allowed: Seq<Seq<char>>,
    forced: Seq<(String, String)>,
    m: Seq<char>,
    i: int,
) -> bool {
    &&& 0 <= i < forced.len()
    &&& forall|k: int|
        0 <= k < i ==> forced_fault(
            table,
            columns,
            families,
            allowed,
            (#[trigger] forced[k]).0@,
            forced[k].1@,
        ) is None
    &&& forced_fault(table, columns, families, allowed, forced[i].0@, forced[i].1@) == Some(m)
}

pub open spec fn some_misforced(
    table: Seq<char>,
    columns: Seq<ProfileColumn>,
    families: Seq<Seq<char>>,
    allowed: Seq<Seq<char>>,
    forced: Seq<(String, String)>,
    m: Seq<char>,
) -> bool {
    exists|i: int| #[trigger] misforced(table, columns, families, allowed, forced, m, i)
}

/// Refuses forced marginals that do not apply to their columns.
pub fn validate_forced_marginals(
    table: &str,
    columns: &[ProfileColumn],
    forced: &Vec<(String, String)>,
    families: &[String],
    allowed: &[String],
) -> (r: Result<(), String>)
    ensures
        match r {
            Ok(_) => forall|i: int|
                0 <= i < forced@.len() ==> forced_fault(
                    table@,
                    columns@,
                    families.deep_view(),
                    allowed.deep_view(),
                    (#[trigger] forced@[i]).0@,
                    forced@[i].1@,
                ) is None,
            Err(m) => some_misforced(
                table@,
                columns@,
                families.deep_view(),
                allowed.deep_view(),
                forced@,
                m@,
            ),
        },
{
    let mut i: usize = 0;
    while i < forced.len()
        invariant
            i <= forced@.len(),
            forall|k: int|
                0 <= k < i ==> forced_fault(
                    table@,
                    columns@,
                    families.deep_view(),
                    allowed.deep_view(),
                    (#[trigger] forced@[k]).0@,
                    forced@[k].1@,
                ) is None,
        decreases forced@.len() - i,
    {
        match check_forced(
            table,
            columns,
            families,
            allowed,
            forced[i].0.as_str(),
            forced[i].1.as_str(),
        ) {
            Some(m) => {
                proof {
                    assert(misforced(
                        table@,
                        columns@,
                        families.deep_view(),
                        allowed.deep_view(),
                        forced@,
                        m@,
                        i as int,
                    ));
                }
                return Err(m);
            },
            None => {},
        }
        i = i + 1;
    }
    Ok(())
}

/// How a column is modelled.
#[derive(Debug)]
pub enum FitPlan {
    /// By its instants, with the family that a rule forces.
    Epoch(Option<String>),
    /// By the family that a rule forces.
    Forced(String),
    /// By its value dictionary.
    Dictionary,
    /// By the family that fits best.
    Auto,
    /// By a single point: nothing was observed.
    Point,
    /// Not at all, and why.
    Unsupported(String),
}

/// What a plan is.
pub enum Plan {
    Epoch(Option<Seq<char>>),
    Forced(Seq<char>),
    Dictionary,
    Auto,
    Point,
    Unsupported(Seq<char>),
}

impl View for FitPlan {
    type V = Plan;

    open spec fn view(&self) -> Plan {
        match self {
            FitPlan::Epoch(forced) => Plan::Epoch(forced.deep_view()),
            FitPlan::Forced(s) => Plan::Forced(s@),
            FitPlan::Dictionary => Plan::Dictionary,
            FitPlan::Auto => Plan::Auto,
            FitPlan::Point => Plan::Point,
            FitPlan::Unsupported(s) => Plan::Unsupported(s@),
        }
    }
}

/// How a column is modelled. A datetime with a format goes by its instants; a
/// forced family comes before what the column suggests; a column with few values
/// keeps them.
pub open spec fn plan_of(c: ProfileColumn, forced: Option<Seq<char>>) -> Plan {
    let kind = c.logical_type@;
    if on_epoch_axis(c) {
        Plan::Epoch(forced)
    } else if forced is Some {
        if forced->0 == "categorical"@ {
            if c.levels is Some {
                Plan::Dictionary
            } else {
                Plan::Unsupported(
                    "column '"@ + c.name@
                        + "': marginal 'categorical' needs a value dictionary"@,
                )
            }
        } else {
            Plan::Forced(forced->0)
        }
    } else if kind == "numerical"@ {
        if c.levels is Some {
            Plan::Dictionary
        } else {
            Plan::Auto
        }
    } else if kind == "datetime"@ && c.has_mean {
        Plan::Auto
    } else if kind == "datetime"@ && c.levels is None {
        Plan::Point
    } else if kind == "categorical"@ || kind == "datetime"@ {
        if c.levels is Some {
            Plan::Dictionary
        } else {
            Plan::Unsupported(
                "column '"@ + c.name@ + "' is "@ + kind
                    + " but profile has no value frequencies; retrain"@,
            )
        }
    } else {
        Plan::Unsupported(
            "column '"@ + c.name@ + "' has logical type '"@ + kind
                + "'; training supports numerical, datetime, and categorical"@,
        )
    }
}

/// Decides how a column is modelled.
pub fn plan_fit(c: &ProfileColumn, forced: Option<&str>) -> (r: FitPlan)
    ensures
        r@ == plan_of(*c, forced.deep_view()),
{
    if is_on_epoch_axis(c) {
        return FitPlan::Epoch(
            match forced {
                Some(name) => Some(name.to_owned()),
                None => None,
            },
        );
    }
    match forced {
        Some(name) => {
            if text::same(name, "categorical") {
                if c.levels.is_some() {
                    return FitPlan::Dictionary;
                }
                return FitPlan::Unsupported(
                    text::around(
                        "column '",
                        c.name.as_str(),
                        "': marginal 'categorical' needs a value dictionary",
                    ),
                );
            }
            return FitPlan::Forced(name.to_owned());
        },
        None => {},
    }
    let kind = c.logical_type.as_str();
    if text::same(kind, "numerical") {
        return if c.levels.is_some() {
            FitPlan::Dictionary
        } else {
            FitPlan::Auto
        };
    }
    let datetime = text::same(kind, "datetime");
    if datetime && c.has_mean {
        return FitPlan::Auto;
    }
    if datetime && c.levels.is_none() {
        return FitPlan::Point;
    }
    if datetime || text::same(kind, "categorical") {
        if c.levels.is_some() {
            return FitPlan::Dictionary;
        }
        let mut m = text::around("column '", c.name.as_str(), "' is ");
        text::push_text(&mut m, kind);
        text::push_text(&mut m, " but profile has no value frequencies; retrain");
        return FitPlan::Unsupported(m);
    }
    let mut m = text::around("column '", c.name.as_str(), "' has logical type '");
    text::push_text(&mut m, kind);
    text::push_text(&mut m, "'; training supports numerical, datetime, and categorical");
    FitPlan::Unsupported(m)
}

/// What is said of a datetime whose format is not known.
pub open spec fn formatless(c: ProfileColumn) -> Option<Seq<char>> {
    if c.logical_type@ == "datetime"@ && c.datetime_format is None && !c.all_null && !c.has_mean {
        Some(
            "warning: column '"@ + c.name@
                + "': datetime format could not be inferred; falling back to legacy modelling"@,
        )
    } else {
        None
    }
}

/// The warning about a datetime whose format is not known.
pub fn format_warning(c: &ProfileColumn) -> (r: Option<String>)
    ensures
        r.deep_view() == formatless(*c),
{
    if text::same(c.logical_type.as_str(), "datetime") && c.datetime_format.is_none()
        && !c.all_null && !c.has_mean {
        Some(
            text::around(
                "warning: column '",
                c.name.as_str(),
                "': datetime format could not be inferred; falling back to legacy modelling",
            ),
        )
    } else {
        None
    }
}

/// The names that are in a list.
pub open spec fn kept(all: Seq<Seq<char>>, list: Seq<Seq<char>>) -> Seq<Seq<char>>
    decreases all.len(),
{
    if all.len() == 0 {
        Seq::empty()
    } else {
        let before = kept(all.drop_last(), list);
        if list.contains(all.last()) {
            before.push(all.last())
        } else {
            before
        }
    }
}

fn keep(all: &[String], list: &[String]) -> (r: Vec<String>)
    ensures
        r.deep_view() == kept(all.deep_view(), list.deep_view()),
{
    let ghost names_all = all.deep_view();
    let mut out: Vec<String> = Vec::new();
    let mut i: usize = 0;
    proof {
        assert(names_all.take(0) =~= Seq::empty());
        assert(out.deep_view() =~= Seq::empty());
    }
    while i < all.len()
        invariant
            i <= all@.len(),
            names_all == all.deep_view(),
            out.deep_view() == kept(names_all.take(i as int), list.deep_view()),
        decreases all@.len() - i,
    {
        let ghost before = out.deep_view();
        proof {
            assert(names_all.take(i + 1).drop_last() =~= names_all.take(i as int));
            assert(names_all.take(i + 1).last() == all@[i as int]@);
        }
        if names::has(list, all[i].as_str()) {
            out.push(all[i].clone());
            proof {
                assert(out.deep_view() =~= before.push(all@[i as int]@));
            }
        }
        i = i + 1;
    }
    proof {
        assert(names_all.take(names_all.len() as int) =~= names_all);
    }
    out
}

/// What a trained table consists of.
#[derive(Debug)]
pub struct Assembly {
    pub pk: Vec<String>,
    pub column_order: Vec<String>,
}

/// The key and the columns of a trained table, from the columns that could be
/// modelled: key columns that could not are dropped, the others keep their order.
pub fn assemble(
    table: &str,
    profiled: usize,
    pk: &[String],
    order: &[String],
    fitted: &[String],
) -> (r: Result<Assembly, String>)
    ensures
        match r {
            Ok(a) => {
                &&& profiled > 0
                &&& fitted@.len() > 0
                &&& a.pk.deep_view() == kept(pk.deep_view(), fitted.deep_view())
                &&& a.column_order.deep_view() == (if kept(
                    order.deep_view(),
                    fitted.deep_view(),
                ).len() == 0 {
                    fitted.deep_view()
                } else {
                    kept(order.deep_view(), fitted.deep_view())
                })
            },
            Err(m) => {
                ||| profiled == 0 && m@ == "table '"@ + table@ + "' has no columns to model"@
                ||| profiled > 0 && fitted@.len() == 0 && m@ == "table '"@ + table@
                    + "' has no trainable columns (all unsupported)"@
            },
        },
{
    if profiled == 0 {
        return Err(text::around("table '", table, "' has no columns to model"));
    }
    if fitted.len() == 0 {
        return Err(
            text::around("table '", table, "' has no trainable columns (all unsupported)"),
        );
    }
    let mut column_order = keep(order, fitted);
    proof {
        assert(column_order.deep_view().len() == column_order@.len());
    }
    if column_order.len() == 0 {
        column_order = crate::derivation::copy_names(fitted);
    }
    Ok(Assembly { pk: keep(pk, fitted), column_order })
}

/// The cells of a row that stand at the columns' last places in the order; places
/// that the row lacks are left out.
pub open spec fn projected(
    row: Seq<Cell>,
    order: Seq<Seq<char>>,
    columns: Seq<Seq<char>>,
) -> Seq<Cell>
    decreases columns.len(),
{
    if columns.len() == 0 {
        Seq::empty()
    } else {
        let before = projected(row, order, columns.drop_last());
        let i = value::last_place(order, columns.last());
        if 0 <= i < row.len() {
            before.push(row[i])
        } else {
            before
        }
    }
}

fn project_row(row: &Vec<Value>, order: &[String], columns: &[String]) -> (r: Vec<Value>)
    ensures
        r.deep_view() == projected(
            row.deep_view(),
            order.deep_view(),
            columns.deep_view(),
        ),
{
    let ghost all = columns.deep_view();
    let mut out: Vec<Value> = Vec::new();
    let mut i: usize = 0;
    proof {
        assert(all.take(0) =~= Seq::empty());
        assert(out.deep_view() =~= Seq::empty());
    }
    while i < columns.len()
        invariant
            i <= columns@.len(),
            all == columns.deep_view(),
            out.deep_view() == projected(
                row.deep_view(),
                order.deep_view(),
                all.take(i as int),
            ),
        decreases columns@.len() - i,
    {
        let ghost before = out.deep_view();
        proof {
            assert(all.take(i + 1).drop_last() =~= all.take(i as int));
            assert(all.take(i + 1).last() == columns@[i as int]@);
        }
        match value::find_last_name(order, columns[i].as_str()) {
            Some(k) => {
                if k < row.len() {
                    out.push(row[k].copy());
                    proof {
                        assert(row.deep_view()[k as int] == row@[k as int]@);
                        assert(out.deep_view() =~= before.push(row@[k as int]@));
                    }
                }
            },
            None => {},
        }
        i = i + 1;
    }
    proof {
        assert(all.take(all.len() as int) =~= all);
    }
    out
}

/// Rows with only the given columns, in their order.
pub fn project_rows(rows: &Vec<Vec<Value>>, order: &[String], columns: &[String]) -> (r: Vec<
    Vec<Value>,
>)
    ensures
        r@.len() == rows@.len(),
        forall|i: int|
            0 <= i < r@.len() ==> (#[trigger] r@[i]).deep_view() == projected(
                rows@[i].deep_view(),
                order.deep_view(),
                columns.deep_view(),
            ),
{
    let mut out: Vec<Vec<Value>> = Vec::new();
    let mut i: usize = 0;
    while i < rows.len()
        invariant
            i <= rows@.len(),
            out@.len() == i,
            forall|k: int|
                0 <= k < i ==> (#[trigger] out@[k]).deep_view() == projected(
                    rows@[k].deep_view(),
                    order.deep_view(),
                    columns.deep_view(),
                ),
        decreases rows@.len() - i,
    {
        out.push(project_row(&rows[i], order, columns));
        i = i + 1;
    }
    out
}

/// A matrix in which a row and a column are those of the identity.
pub open spec fn uncorrelated<T>(
    before: Seq<Vec<T>>,
    after: Seq<Vec<T>>,
    at: int,
    one: T,
    zero: T,
) -> bool {
    &&& after.len() == before.len()
    &&& forall|i: int| 0 <= i < after.len() ==> (#[trigger] after[i])@.len() == before[i]@.len()
    &&& forall|i: int, j: int|
        0 <= i < after.len() && 0 <= j < after[i]@.len() ==> #[trigger] after[i]@[j] == if i == at
            && j == at {
            one
        } else if (i == at && j < after.len()) || j == at {
            zero
        } else {
            before[i]@[j]
        }
}

/// Takes a column out of a correlation matrix: it is drawn independently of the
/// others.
pub fn zero_correlation<T: Copy>(
    columns: &[String],
    correlation: &mut Vec<Vec<T>>,
    column: &str,
    one: T,
    zero: T,
)
    ensures
        match index_of(columns.deep_view(), column@) {
            Some(at) => uncorrelated(old(correlation)@, final(correlation)@, at, one, zero),
            None => final(correlation)@ == old(correlation)@,
        },
{
    let at: usize = match value::find_name(columns, column) {
        Some(i) => i,
        None => {
            return ;
        },
    };
    let ghost before = correlation@;
    let size: usize = correlation.len();
    let mut i: usize = 0;
    while i < size
        invariant
            i <= size,
            size == correlation@.len(),
            correlation@.len() == before.len(),
            before == old(correlation)@,
            forall|r: int|
                0 <= r < size ==> (#[trigger] correlation@[r])@.len() == before[r]@.len(),
            forall|r: int, j: int|
                0 <= r < size && 0 <= j < correlation@[r]@.len() ==> #[trigger] correlation@[r]@[j]
                    == if r == at && j == at && at < i {
                    one
                } else if (r == at && j < i) || (j == at && r < i) {
                    zero
                } else {
                    before[r]@[j]
                },
        decreases size - i,
    {
        if at < correlation.len() {
            if i < correlation[at].len() {
                let v = if i == at {
                    one
                } else {
                    zero
                };
                correlation[at][i] = v;
            }
        }
        if i != at {
            if at < correlation[i].len() {
                correlation[i][at] = zero;
            }
        }
        i = i + 1;
    }
}

/// The first place of a name, where it has one.
pub open spec fn index_of(names_all: Seq<Seq<char>>, name: Seq<char>) -> Option<int> {
    if names_all.contains(name) {
        Some(value::first_place(names_all, name))
    } else {
        None
    }
}

/// The provider that makes a column anonymous, where one does: `keep` switches it
/// off, `pii` forces one, otherwise the one that was recognized is taken.
pub fn choose_provider<P>(sdtype: SdType, named: Option<P>, guess: Option<P>, fallback: P) -> (r:
    Option<P>)
    ensures
        r == match sdtype {
            SdType::Keep => None,
            SdType::Pii => if named is Some {
                named
            } else if guess is Some {
                guess
            } else {
                Some(fallback)
            },
            SdType::Auto => guess,
        },
{
    match sdtype {
        SdType::Keep => None,
        SdType::Pii => match named {
            Some(p) => Some(p),
            None => match guess {
                Some(p) => Some(p),
                None => Some(fallback),
            },
        },
        SdType::Auto => guess,
    }
}

/// The cells of a column; rows that are too short are left out.
pub open spec fn sampled(rows: Seq<Vec<Value>>, c: int) -> Seq<Cell>
    decreases rows.len(),
{
    if rows.len() == 0 {
        Seq::empty()
    } else {
        let before = sampled(rows.drop_last(), c);
        if 0 <= c < rows.last()@.len() {
            before.push(rows.last()@[c]@)
        } else {
            before
        }
    }
}

/// The values of a column; rows that are too short are left out.
pub fn sampled_values(rows: &Vec<Vec<Value>>, c: usize) -> (r: Vec<Value>)
    ensures
        r.deep_view() == sampled(rows@, c as int),
{
    let mut out: Vec<Value> = Vec::new();
    let mut i: usize = 0;
    proof {
        assert(rows@.take(0) =~= Seq::empty());
        assert(out.deep_view() =~= Seq::empty());
    }
    while i < rows.len()
        invariant
            i <= rows@.len(),
            out.deep_view() == sampled(rows@.take(i as int), c as int),
        decreases rows@.len() - i,
    {
        let ghost before = out.deep_view();
        proof {
            assert(rows@.take(i + 1).drop_last() =~= rows@.take(i as int));
            assert(rows@.take(i + 1).last() == rows@[i as int]);
        }
        if c < rows[i].len() {
            out.push(rows[i][c].copy());
            proof {
                assert(out.deep_view() =~= before.push(rows@[i as int]@[c as int]@));
            }
        }
        i = i + 1;
    }
    proof {
        assert(rows@.take(rows@.len() as int) =~= rows@);
    }
    out
}

/// The number of different values of a column besides NULL.
pub fn count_distinct(rows: &Vec<Vec<Value>>, c: usize) -> (r: usize)
    ensures
        r == cardinality::referenced(sampled(rows@, c as int)).len(),
{
    let values = sampled_values(rows, c);
    cardinality::distinct_non_null(values.as_slice())
}

/// What a sample gives for learning how many children a parent has.
#[derive(Debug)]
pub struct TableSample {
    pub table: String,
    /// The first column of the key, and how many different values it has.
    pub key: Option<(String, usize)>,
    /// The values of each foreign key.
    pub links: Vec<(String, Vec<Value>)>,
}

/// A sample's key is a column.
pub open spec fn key_is(s: TableSample, column: Seq<char>) -> bool {
    match s.key {
        Some(k) => k.0@ == column,
        None => false,
    }
}

/// How many different values a sample's key has.
pub open spec fn key_count(s: TableSample) -> usize {
    match s.key {
        Some(k) => k.1,
        None => 0,
    }
}

/// How many different keys of a column were sampled.
pub open spec fn distinct_keys(samples: Seq<TableSample>, table: Seq<char>, column: Seq<char>) -> Option<
    usize,
>
    decreases samples.len(),
{
    if samples.len() == 0 {
        None
    } else if samples.last().table@ == table && key_is(samples.last(), column) {
        Some(key_count(samples.last()))
    } else {
        distinct_keys(samples.drop_last(), table, column)
    }
}

fn find_distinct(samples: &Vec<TableSample>, table: &str, column: &str) -> (r: Option<usize>)
    ensures
        r == distinct_keys(samples@, table@, column@),
{
    let mut i: usize = samples.len();
    proof {
        assert(samples@.take(samples@.len() as int) =~= samples@);
    }
    while i > 0
        invariant
            i <= samples@.len(),
            distinct_keys(samples@, table@, column@) == distinct_keys(
                samples@.take(i as int),
                table@,
                column@,
            ),
        decreases i,
    {
        proof {
            assert(samples@.take(i as int).drop_last() =~= samples@.take(i - 1));
            assert(samples@.take(i as int).last() == samples@[i - 1]);
        }
        i = i - 1;
        if text::same(samples[i].table.as_str(), table) {
            match &samples[i].key {
                Some(k) => {
                    if text::same(k.0.as_str(), column) {
                        return Some(k.1);
                    }
                },
                None => {},
            }
        }
    }
    None
}

/// The values of a foreign key in one sample.
pub open spec fn link_values(links: Seq<(String, Vec<Value>)>, column: Seq<char>) -> Option<
    Seq<Cell>,
>
    decreases links.len(),
{
    if links.len() == 0 {
        None
    } else if links.last().0@ == column {
        Some(links.last().1.deep_view())
    } else {
        link_values(links.drop_last(), column)
    }
}

/// The values of a foreign key in the samples.
pub open spec fn key_values(
    samples: Seq<TableSample>,
    table: Seq<char>,
    column: Seq<char>,
) -> Option<Seq<Cell>>
    decreases samples.len(),
{
    if samples.len() == 0 {
        None
    } else if samples.last().table@ == table && link_values(
        samples.last().links@,
        column,
    ) is Some {
        link_values(samples.last().links@, column)
    } else {
        key_values(samples.drop_last(), table, column)
    }
}

fn find_link<'a>(links: &'a Vec<(String, Vec<Value>)>, column: &str) -> (r: Option<&'a Vec<Value>>)
    ensures
        match r {
            Some(v) => link_values(links@, column@) == Some(v.deep_view()),
            None => link_values(links@, column@) is None,
        },
{
    let mut i: usize = links.len();
    proof {
        assert(links@.take(links@.len() as int) =~= links@);
    }
    while i > 0
        invariant
            i <= links@.len(),
            link_values(links@, column@) == link_values(links@.take(i as int), column@),
        decreases i,
    {
        proof {
            assert(links@.take(i as int).drop_last() =~= links@.take(i - 1));
            assert(links@.take(i as int).last() == links@[i - 1]);
        }
        i = i - 1;
        if text::same(links[i].0.as_str(), column) {
            return Some(&links[i].1);
        }
    }
    None
}

fn find_key_values<'a>(samples: &'a Vec<TableSample>, table: &str, column: &str) -> (r: Option<
    &'a Vec<Value>,
>)
    ensures
        match r {
            Some(v) => key_values(samples@, table@, column@) == Some(v.deep_view()),
            None => key_values(samples@, table@, column@) is None,
        },
{
    let mut i: usize = samples.len();
    proof {
        assert(samples@.take(samples@.len() as int) =~= samples@);
    }
    while i > 0
        invariant
            i <= samples@.len(),
            key_values(samples@, table@, column@) == key_values(
                samples@.take(i as int),
                table@,
                column@,
            ),
        decreases i,
    {
        proof {
            assert(samples@.take(i as int).drop_last() =~= samples@.take(i - 1));
            assert(samples@.take(i as int).last() == samples@[i - 1]);
        }
        i = i - 1;
        if text::same(samples[i].table.as_str(), table) {
            match find_link(&samples[i].links, column) {
                Some(v) => {
                    return Some(v);
                },
                None => {},
            }
        }
    }
    None
}

/// What was learned of a foreign key.
#[derive(Debug)]
pub struct LearnedKey {
    pub table: String,
    pub column: String,
    pub cardinality: CardinalityDist,
}

/// A foreign key was sampled and refers to some parent.
pub open spec fn is_learned(samples: Seq<TableSample>, key: Link) -> bool {
    match key_values(samples, key.from_table, key.from_column) {
        Some(cells) => cardinality::referenced(cells).len() > 0,
        None => false,
    }
}

/// What is learned of a foreign key.
pub open spec fn learned_as(samples: Seq<TableSample>, key: Link, l: LearnedKey) -> bool {
    let cells = key_values(samples, key.from_table, key.from_column)->0;
    let distinct = distinct_keys(samples, key.to_table, key.to_column);
    &&& l.table@ == key.from_table
    &&& l.column@ == key.from_column
    &&& cardinality::count_pairs(l.cardinality.counts@) == cardinality::buckets_below(
        cells,
        distinct,
        (cardinality::MAX_COUNT_BUCKET + 1) as nat,
    )
    &&& l.cardinality.parents == cardinality::referenced(cells).len() + cardinality::childless(
        cells,
        distinct,
    )
    &&& l.cardinality.null_rows == cardinality::occurrences(cells, Cell::Null)
    &&& l.cardinality.rows == cells.len()
}

/// The foreign keys that are learned, in order.
pub open spec fn learned_keys(samples: Seq<TableSample>, keys: Seq<Link>) -> Seq<Link>
    decreases keys.len(),
{
    if keys.len() == 0 {
        Seq::empty()
    } else {
        let before = learned_keys(samples, keys.drop_last());
        if is_learned(samples, keys.last()) {
            before.push(keys.last())
        } else {
            before
        }
    }
}

/// Learns, for each foreign key that was sampled, how many children a parent has.
pub fn learn_cardinalities(foreign_keys: &Vec<ForeignKeyInfo>, samples: &Vec<TableSample>) -> (r:
    Vec<LearnedKey>)
    ensures
        ({
            let keys = learned_keys(samples@, foreign_keys.deep_view());
            &&& r@.len() == keys.len()
            &&& forall|i: int|
                0 <= i < keys.len() ==> learned_as(samples@, keys[i], #[trigger] r@[i])
        }),
{
    let ghost all = foreign_keys.deep_view();
    let mut out: Vec<LearnedKey> = Vec::new();
    let mut i: usize = 0;
    proof {
        assert(all.take(0) =~= Seq::empty());
    }
    while i < foreign_keys.len()
        invariant
            i <= foreign_keys@.len(),
            all == foreign_keys.deep_view(),
            ({
                let keys = learned_keys(samples@, all.take(i as int));
                &&& out@.len() == keys.len()
                &&& forall|k: int|
                    0 <= k < keys.len() ==> learned_as(samples@, keys[k], #[trigger] out@[k])
            }),
        decreases foreign_keys@.len() - i,
    {
        let key = &foreign_keys[i];
        proof {
            assert(all.take(i + 1).drop_last() =~= all.take(i as int));
            assert(all.take(i + 1).last() == key@);
        }
        match find_key_values(samples, key.from_table.as_str(), key.from_column.as_str()) {
            Some(values) => {
                let distinct = find_distinct(
                    samples,
                    key.to_table.as_str(),
                    key.to_column.as_str(),
                );
                match cardinality::learn_cardinality(values.as_slice(), distinct) {
                    Some(cardinality) => {
                        out.push(
                            LearnedKey {
                                table: key.from_table.clone(),
                                column: key.from_column.clone(),
                                cardinality,
                            },
                        );
                    },
                    None => {},
                }
            },
            None => {},
        }
        i = i + 1;
    }
    proof {
        assert(all.take(all.len() as int) =~= all);
    }
    out
}

/// What is said of a table that was trained.
pub open spec fn trained_text(
    table: Seq<char>,
    columns: nat,
    rows: nat,
    pk: Seq<Seq<char>>,
    path: Seq<char>,
) -> Seq<char> {
    "trained "@ + table + ": "@ + text::digits(columns) + " columns, "@ + text::digits(rows)
        + " rows sampled"@ + (if pk.len() == 0 {
        ""@
    } else {
        ", pk ["@ + text::joined(pk, ", "@) + "]"@
    }) + " -> "@ + path
}

/// Says what was trained.
pub fn write_trained(table: &str, columns: usize, rows: usize, pk: &[String], path: &str) -> (r:
    String)
    ensures
        r@ == trained_text(table@, columns as nat, rows as nat, pk.deep_view(), path@),
{
    let mut r = text::around("trained ", table, ": ");
    text::push_text(&mut r, text::number_text(columns).as_str());
    text::push_text(&mut r, " columns, ");
    text::push_text(&mut r, text::number_text(rows).as_str());
    text::push_text(&mut r, " rows sampled");
    if pk.len() == 0 {
        text::push_text(&mut r, "");
    } else {
        let list = text::join(pk, ", ");
        let note = text::around(", pk [", list.as_str(), "]");
        text::push_text(&mut r, note.as_str());
    }
    text::push_text(&mut r, " -> ");
    text::push_text(&mut r, path);
    r
}

} // verus!

//! Generated tables as files: CSV, JSON lines, JSON, and SQL.
use crate::fk_pool;
use crate::text;
use crate::value::{Cell, Value};
use vstd::prelude::*;

verus! {

/// How tables are written.
#[derive(Debug, Clone, Copy, PartialEq, Eq, Structural)]
pub enum ExportFormat {
    Csv,
    Jsonl,
    Json,
    Sql,
}

impl ExportFormat {
    /// The name of a format, which is also the ending of its files.
    pub open spec fn ending(self) -> Seq<char> {
        match self {
            ExportFormat::Csv => "csv"@,
            ExportFormat::Jsonl => "jsonl"@,
            ExportFormat::Json => "json"@,
            ExportFormat::Sql => "sql"@,
        }
    }

    /// Reads the name of a format.
    pub fn parse(name: &str) -> (r: Result<ExportFormat, String>)
        ensures
            match r {
                Ok(f) => name@ == f.ending(),
                Err(m) => {
                    &&& name@ != "csv"@ && name@ != "jsonl"@ && name@ != "json"@ && name@
                        != "sql"@
                    &&& m@ == "unsupported format: "@ + name@
                },
            },
    {
        if text::same(name, "csv") {
            Ok(ExportFormat::Csv)
        } else if text::same(name, "jsonl") {
            Ok(ExportFormat::Jsonl)
        } else if text::same(name, "json") {
            Ok(ExportFormat::Json)
        } else if text::same(name, "sql") {
            Ok(ExportFormat::Sql)
        } else {
            let mut m = "unsupported format: ".to_owned();
            text::push_text(&mut m, name);
            Err(m)
        }
    }

    /// The name of a table's file.
    pub fn file_name(self, table: &str) -> (r: String)
        ensures
            r@ == table@ + "."@ + self.ending(),
    {
        match self {
            ExportFormat::Csv => text::around(table, ".", "csv"),
            ExportFormat::Jsonl => text::around(table, ".", "jsonl"),
            ExportFormat::Json => text::around(table, ".", "json"),
            ExportFormat::Sql => text::around(table, ".", "sql"),
        }
    }
}

/// A table to be written.
pub struct ExportTable<'a> {
    pub name: &'a str,
    pub columns: &'a [String],
    pub rows: &'a Vec<Vec<Value>>,
    pub schema: Option<&'a str>,
}

/// Names for columns that have none.
pub open spec fn numbered_names(n: nat) -> Seq<Seq<char>> {
    Seq::new(n, |i: int| "col_"@ + text::digits(i as nat))
}

/// The names of a row's cells: those of the table, where there are as many.
pub open spec fn names_for(columns: Seq<Seq<char>>, width: nat) -> Seq<Seq<char>> {
    if columns.len() == width {
        columns
    } else {
        numbered_names(width)
    }
}

/// The names of a row's cells.
pub fn columns_for(columns: &[String], width: usize) -> (r: Vec<String>)
    ensures
        r.deep_view() == names_for(columns.deep_view(), width as nat),
{
    if columns.len() == width {
        return crate::derivation::copy_names(columns);
    }
    let mut out: Vec<String> = Vec::new();
    let ghost want = numbered_names(width as nat);
    let mut i: usize = 0;
    while i < width
        invariant
            i <= width,
            want == numbered_names(width as nat),
            out.deep_view() == want.take(i as int),
        decreases width - i,
    {
        let ghost before = out.deep_view();
        let mut name = "col_".to_owned();
        text::push_text(&mut name, text::number_text(i).as_str());
        out.push(name);
        proof {
            assert(out.deep_view() =~= before.push(want[i as int]));
            assert(want.take(i + 1) =~= want.take(i as int).push(want[i as int]));
        }
        i = i + 1;
    }
    proof {
        assert(want.take(want.len() as int) =~= want);
    }
    out
}

/// A text in which a character stands twice wherever it stood.
pub open spec fn doubled(s: Seq<char>, c: char) -> Seq<char>
    decreases s.len(),
{
    if s.len() == 0 {
        Seq::empty()
    } else if s.last() == c {
        doubled(s.drop_last(), c).push(c).push(c)
    } else {
        doubled(s.drop_last(), c).push(s.last())
    }
}

/// Doubles a character.
fn double(s: &str, c: char) -> (r: String)
    ensures
        r@ == doubled(s@, c),
{
    let chars = text::to_chars(s);
    let mut r = String::new();
    let mut i: usize = 0;
    proof {
        assert(chars@.take(0) =~= Seq::empty());
        assert(r@ =~= Seq::empty());
    }
    while i < chars.len()
        invariant
            i <= chars@.len(),
            chars@ == s@,
            r@ == doubled(chars@.take(i as int), c),
        decreases chars@.len() - i,
    {
        proof {
            assert(chars@.take(i + 1).drop_last() =~= chars@.take(i as int));
            assert(chars@.take(i + 1).last() == chars@[i as int]);
        }
        if chars[i] == c {
            r.push(c);
        }
        r.push(chars[i]);
        i = i + 1;
    }
    proof {
        assert(chars@.take(chars@.len() as int) =~= chars@);
    }
    r
}

/// A text between two characters.
pub open spec fn quoted(s: Seq<char>, c: char) -> Seq<char> {
    seq![c] + doubled(s, c) + seq![c]
}

fn quote(s: &str, c: char) -> (r: String)
    ensures
        r@ == quoted(s@, c),
{
    let inner = double(s, c);
    let mut r = String::new();
    r.push(c);
    text::push_text(&mut r, inner.as_str());
    r.push(c);
    proof {
        assert(r@ =~= quoted(s@, c));
    }
    r
}

/// A field of CSV: in quotes where it holds a comma, a quote, or a line break.
pub open spec fn field(s: Seq<char>) -> Seq<char> {
    if s.contains(',') || s.contains('"') || s.contains('\n') {
        quoted(s, '"')
    } else {
        s
    }
}

/// Writes a field of CSV.
pub fn csv_field(s: &str) -> (r: String)
    ensures
        r@ == field(s@),
{
    let chars = text::to_chars(s);
    let mut special = false;
    let mut i: usize = 0;
    while i < chars.len()
        invariant
            i <= chars@.len(),
            chars@ == s@,
            special <==> exists|k: int|
                0 <= k < i && (#[trigger] chars@[k] == ',' || chars@[k] == '"' || chars@[k]
                    == '\n'),
        decreases chars@.len() - i,
    {
        if chars[i] == ',' || chars[i] == '"' || chars[i] == '\n' {
            proof {
                assert(chars@[i as int] == chars@[i as int]);
            }
            special = true;
        }
        i = i + 1;
    }
    proof {
        if special {
            let k = choose|k: int|
                0 <= k < chars@.len() && (#[trigger] chars@[k] == ',' || chars@[k] == '"'
                    || chars@[k] == '\n');
            assert(s@[k] == chars@[k]);
        }
        if s@.contains(',') {
            assert(chars@[s@.index_of(',')] == ',');
        }
        if s@.contains('"') {
            assert(chars@[s@.index_of('"')] == '"');
        }
        if s@.contains('\n') {
            assert(chars@[s@.index_of('\n')] == '\n');
        }
    }
    if special {
        quote(s, '"')
    } else {
        s.to_owned()
    }
}

/// The field of a cell: a text as it is, anything else as JSON.
pub open spec fn cell_field(c: Cell) -> Seq<char> {
    match c {
        Cell::Null => "null"@,
        _ => field(fk_pool::cell_key(c)),
    }
}

fn csv_cell(v: &Value) -> (r: String)
    ensures
        r@ == cell_field(v@),
{
    match v {
        Value::Null => "null".to_owned(),
        _ => csv_field(fk_pool::value_key(v).as_str()),
    }
}

/// Fields of names.
pub open spec fn name_fields(names: Seq<Seq<char>>) -> Seq<Seq<char>> {
    Seq::new(names.len(), |i: int| field(names[i]))
}

/// Fields of cells.
pub open spec fn cell_fields(row: Seq<Cell>) -> Seq<Seq<char>> {
    Seq::new(row.len(), |i: int| cell_field(row[i]))
}

/// A line of CSV.
pub open spec fn csv_line(fields: Seq<Seq<char>>) -> Seq<char> {
    text::joined(fields, ","@) + "\n"@
}

/// The lines of rows.
pub open spec fn csv_rows(rows: Seq<Vec<Value>>) -> Seq<char>
    decreases rows.len(),
{
    if rows.len() == 0 {
        Seq::empty()
    } else {
        csv_rows(rows.drop_last()) + csv_line(cell_fields(rows.last().deep_view()))
    }
}

/// A table as CSV: the names of the first row's cells, then a line for each row;
/// nothing where there are no rows.
pub open spec fn csv_of(columns: Seq<Seq<char>>, rows: Seq<Vec<Value>>) -> Seq<char> {
    if rows.len() == 0 {
        Seq::empty()
    } else {
        csv_line(name_fields(names_for(columns, rows[0]@.len()))) + csv_rows(rows)
    }
}

fn header_fields(names: &Vec<String>) -> (r: Vec<String>)
    ensures
        r.deep_view() == name_fields(names.deep_view()),
{
    let mut out: Vec<String> = Vec::new();
    let ghost want = name_fields(names.deep_view());
    let mut i: usize = 0;
    while i < names.len()
        invariant
            i <= names@.len(),
            want == name_fields(names.deep_view()),
            out.deep_view() == want.take(i as int),
        decreases names@.len() - i,
    {
        let ghost before = out.deep_view();
        out.push(csv_field(names[i].as_str()));
        proof {
            assert(out.deep_view() =~= before.push(want[i as int]));
            assert(want.take(i + 1) =~= want.take(i as int).push(want[i as int]));
        }
        i = i + 1;
    }
    proof {
        assert(want.take(want.len() as int) =~= want);
    }
    out
}

fn row_fields(row: &Vec<Value>) -> (r: Vec<String>)
    ensures
        r.deep_view() == cell_fields(row.deep_view()),
{
    let mut out: Vec<String> = Vec::new();
    let ghost want = cell_fields(row.deep_view());
    let mut i: usize = 0;
    while i < row.len()
        invariant
            i <= row@.len(),
            want == cell_fields(row.deep_view()),
            out.deep_view() == want.take(i as int),
        decreases row@.len() - i,
    {
        let ghost before = out.deep_view();
        out.push(csv_cell(&row[i]));
        proof {
            assert(row.deep_view()[i as int] == row@[i as int]@);
            assert(out.deep_view() =~= before.push(want[i as int]));
            assert(want.take(i + 1) =~= want.take(i as int).push(want[i as int]));
        }
        i = i + 1;
    }
    proof {
        assert(want.take(want.len() as int) =~= want);
    }
    out
}

/// Writes a table as CSV.
pub fn export_csv(table: &ExportTable<'_>) -> (r: String)
    ensures
        r@ == csv_of(table.columns.deep_view(), table.rows@),
{
    let mut out = String::new();
    let rows = table.rows;
    if rows.len() == 0 {
        proof {
            assert(out@ =~= Seq::empty());
        }
        return out;
    }
    let names = columns_for(table.columns, rows[0].len());
    let header = header_fields(&names);
    let line = text::join(header.as_slice(), ",");
    text::push_text(&mut out, line.as_str());
    text::push_text(&mut out, "\n");
    let ghost top = csv_line(name_fields(names_for(table.columns.deep_view(), rows@[0]@.len())));
    let mut i: usize = 0;
    proof {
        assert(out@ =~= top);
        assert(rows@.take(0) =~= Seq::empty());
        assert(top + Seq::<char>::empty() =~= top);
    }
    while i < rows.len()
        invariant
            i <= rows@.len(),
            out@ == top + csv_rows(rows@.take(i as int)),
        decreases rows@.len() - i,
    {
        let ghost done = csv_rows(rows@.take(i as int));
        proof {
            assert(rows@.take(i + 1).drop_last() =~= rows@.take(i as int));
            assert(rows@.take(i + 1).last() == rows@[i as int]);
        }
        let fields = row_fields(&rows[i]);
        let line = text::join(fields.as_slice(), ",");
        text::push_text(&mut out, line.as_str());
        text::push_text(&mut out, "\n");
        proof {
            assert(((top + done) + line@) + "\n"@ =~= top + (done + (line@ + "\n"@)));
        }
        i = i + 1;
    }
    proof {
        assert(rows@.take(rows@.len() as int) =~= rows@);
    }
    out
}

/// Names and cells of a row.
pub open spec fn pairs_of(names: Seq<Seq<char>>, row: Seq<Cell>) -> Seq<(Seq<char>, Cell)> {
    Seq::new(row.len(), |i: int| (names[i], row[i]))
}

/// The names and cells of pairs.
pub open spec fn pair_cells(pairs: Seq<(String, Value)>) -> Seq<(Seq<char>, Cell)> {
    Seq::new(pairs.len(), |i: int| (pairs[i].0@, pairs[i].1@))
}

/// The text that `serde_json::to_string` gives for an object of names and
/// values.
pub uninterp spec fn object_json(pairs: Seq<(Seq<char>, Cell)>) -> Option<Seq<char>>;

/// The text that `serde_json::to_string_pretty` gives for an array of documents.
pub uninterp spec fn array_json(documents: Seq<Seq<char>>) -> Option<Seq<char>>;

/// `serde_json::to_string` of an object. A number, array or object is read from
/// its JSON text first; `None` where that is none. How the text is laid out is
/// not said here.
#[verifier::external_body]
fn write_object(pairs: &Vec<(String, Value)>) -> (r: Option<String>)
    ensures
        r.deep_view() == object_json(pair_cells(pairs@)),
{
    let mut map = serde_json::Map::new();
    for (name, v) in pairs {
        let json = match v {
            Value::Null => serde_json::Value::Null,
            Value::Bool(b) => serde_json::Value::Bool(*b),
            Value::Text(s) => serde_json::Value::String(s.clone()),
            Value::Number(s) | Value::Array(s) | Value::Object(s) => serde_json::from_str(s).ok()?,
        };
        map.insert(name.clone(), json);
    }
    serde_json::to_string(&map).ok()
}

/// `serde_json::to_string_pretty` of an array of documents, each read from its
/// JSON text first; `None` where one is none. How the text is laid out is not
/// said here.
#[verifier::external_body]
fn write_array(documents: &Vec<String>) -> (r: Option<String>)
    ensures
        r.deep_view() == array_json(documents.deep_view()),
{
    let mut array: Vec<serde_json::Value> = Vec::new();
    for document in documents {
        array.push(serde_json::from_str(document).ok()?);
    }
    serde_json::to_string_pretty(&array).ok()
}

/// The JSON of each row: an object by the names of its cells.
pub open spec fn row_json(columns: Seq<Seq<char>>, row: Seq<Cell>) -> Option<Seq<char>> {
    object_json(pairs_of(names_for(columns, row.len()), row))
}

/// The documents of rows, or nothing where one of them has none.
pub open spec fn documents_of(columns: Seq<Seq<char>>, rows: Seq<Vec<Value>>) -> Option<
    Seq<Seq<char>>,
>
    decreases rows.len(),
{
    if rows.len() == 0 {
        Some(Seq::empty())
    } else {
        match documents_of(columns, rows.drop_last()) {
            Some(before) => match row_json(columns, rows.last().deep_view()) {
                Some(document) => Some(before.push(document)),
                None => None,
            },
            None => None,
        }
    }
}

fn write_row(columns: &[String], row: &Vec<Value>) -> (r: Option<String>)
    ensures
        r.deep_view() == row_json(columns.deep_view(), row.deep_view()),
{
    let names = columns_for(columns, row.len());
    let ghost want = pairs_of(names.deep_view(), row.deep_view());
    let mut pairs: Vec<(String, Value)> = Vec::new();
    let mut i: usize = 0;
    proof {
        assert(names.deep_view().len() == names@.len());
        assert(pair_cells(pairs@) =~= want.take(0));
    }
    while i < row.len()
        invariant
            i <= row@.len(),
            names@.len() == row@.len(),
            want == pairs_of(names.deep_view(), row.deep_view()),
            pair_cells(pairs@) == want.take(i as int),
        decreases row@.len() - i,
    {
        let ghost before = pair_cells(pairs@);
        pairs.push((names[i].clone(), row[i].copy()));
        proof {
            assert(want[i as int] == (names@[i as int]@, row@[i as int]@));
            assert(pair_cells(pairs@) =~= before.push(want[i as int]));
            assert(want.take(i + 1) =~= want.take(i as int).push(want[i as int]));
        }
        i = i + 1;
    }
    proof {
        assert(want.take(want.len() as int) =~= want);
    }
    write_object(&pairs)
}

fn write_documents(columns: &[String], rows: &Vec<Vec<Value>>) -> (r: Option<Vec<String>>)
    ensures
        match r {
            Some(d) => documents_of(columns.deep_view(), rows@) == Some(d.deep_view()),
            None => documents_of(columns.deep_view(), rows@) is None,
        },
{
    let mut out: Vec<String> = Vec::new();
    let mut i: usize = 0;
    proof {
        assert(rows@.take(0) =~= Seq::empty());
        assert(out.deep_view() =~= Seq::empty());
    }
    while i < rows.len()
        invariant
            i <= rows@.len(),
            documents_of(columns.deep_view(), rows@.take(i as int)) == Some(out.deep_view()),
        decreases rows@.len() - i,
    {
        let ghost before = out.deep_view();
        proof {
            assert(rows@.take(i + 1).drop_last() =~= rows@.take(i as int));
            assert(rows@.take(i + 1).last() == rows@[i as int]);
        }
        match write_row(columns, &rows[i]) {
            Some(document) => {
                let ghost d = document@;
                out.push(document);
                proof {
                    assert(out.deep_view() =~= before.push(d));
                }
            },
            None => {
                proof {
                    lemma_documents_missing(columns.deep_view(), rows@, i + 1);
                }
                return None;
            },
        }
        i = i + 1;
    }
    proof {
        assert(rows@.take(rows@.len() as int) =~= rows@);
    }
    Some(out)
}

proof fn lemma_documents_missing(columns: Seq<Seq<char>>, rows: Seq<Vec<Value>>, n: int)
    requires
        0 <= n <= rows.len(),
        documents_of(columns, rows.take(n)) is None,
    ensures
        documents_of(columns, rows) is None,
    decreases rows.len() - n,
{
    if n == rows.len() {
        assert(rows.take(n) =~= rows);
    } else {
        assert(rows.take(n + 1).drop_last() =~= rows.take(n));
        lemma_documents_missing(columns, rows, n + 1);
    }
}

/// Lines, each ended.
pub open spec fn ended(lines: Seq<Seq<char>>) -> Seq<char>
    decreases lines.len(),
{
    if lines.len() == 0 {
        Seq::empty()
    } else {
        ended(lines.drop_last()) + lines.last() + "\n"@
    }
}

fn end_lines(lines: &Vec<String>) -> (r: String)
    ensures
        r@ == ended(lines.deep_view()),
{
    let ghost all = lines.deep_view();
    let mut out = String::new();
    let mut i: usize = 0;
    proof {
        assert(all.take(0) =~= Seq::empty());
        assert(out@ =~= Seq::empty());
    }
    while i < lines.len()
        invariant
            i <= lines@.len(),
            all == lines.deep_view(),
            out@ == ended(all.take(i as int)),
        decreases lines@.len() - i,
    {
        proof {
            assert(all.take(i + 1).drop_last() =~= all.take(i as int));
            assert(all.take(i + 1).last() == lines@[i as int]@);
        }
        text::push_text(&mut out, lines[i].as_str());
        text::push_text(&mut out, "\n");
        i = i + 1;
    }
    proof {
        assert(all.take(all.len() as int) =~= all);
    }
    out
}

/// Writes a table as JSON lines.
pub fn export_jsonl(table: &ExportTable<'_>) -> (r: Result<String, String>)
    ensures
        match r {
            Ok(s) => documents_of(table.columns.deep_view(), table.rows@) is Some && s@ == ended(
                documents_of(table.columns.deep_view(), table.rows@)->0,
            ),
            Err(m) => documents_of(table.columns.deep_view(), table.rows@) is None && m@
                == "serialize JSONL row"@,
        },
{
    match write_documents(table.columns, table.rows) {
        Some(documents) => Ok(end_lines(&documents)),
        None => Err("serialize JSONL row".to_owned()),
    }
}

/// Writes a table as one JSON array.
pub fn export_json(table: &ExportTable<'_>) -> (r: Result<String, String>)
    ensures
        ({
            let documents = documents_of(table.columns.deep_view(), table.rows@);
            match r {
                Ok(s) => documents is Some && array_json(documents->0) == Some(s@),
                Err(m) => (documents is None || array_json(documents->0) is None) && m@
                    == "serialize JSON"@,
            }
        }),
{
    match write_documents(table.columns, table.rows) {
        Some(documents) => match write_array(&documents) {
            Some(s) => Ok(s),
            None => Err("serialize JSON".to_owned()),
        },
        None => Err("serialize JSON".to_owned()),
    }
}

/// A character with small letters from a to z made capital.
pub open spec fn capital(c: char) -> char {
    if 'a' <= c <= 'z' {
        (c as u32 - 32) as char
    } else {
        c
    }
}

/// A text with small letters from a to z made capital.
pub open spec fn capitals(s: Seq<char>) -> Seq<char> {
    Seq::new(s.len(), |i: int| capital(s[i]))
}

fn capital_letter(c: char) -> (r: char)
    ensures
        r == capital(c),
{
    if 'a' <= c && c <= 'z' {
        ((c as u8) - 32) as char
    } else {
        c
    }
}

fn to_capitals(s: &str) -> (r: String)
    ensures
        r@ == capitals(s@),
{
    let chars = text::to_chars(s);
    let ghost want = capitals(s@);
    let mut r = String::new();
    let mut i: usize = 0;
    proof {
        assert(r@ =~= want.take(0));
    }
    while i < chars.len()
        invariant
            i <= chars@.len(),
            chars@ == s@,
            want == capitals(s@),
            r@ == want.take(i as int),
        decreases chars@.len() - i,
    {
        r.push(capital_letter(chars[i]));
        proof {
            assert(want.take(i + 1) =~= want.take(i as int).push(want[i as int]));
        }
        i = i + 1;
    }
    proof {
        assert(want.take(want.len() as int) =~= want);
    }
    r
}

/// A text begins with another.
pub open spec fn begins(s: Seq<char>, start: Seq<char>) -> bool {
    s.len() >= start.len() && s.take(start.len() as int) == start
}

fn begins_with(s: &str, start: &str) -> (r: bool)
    ensures
        r == begins(s@, start@),
{
    let a = text::to_chars(s);
    let b = text::to_chars(start);
    if a.len() < b.len() {
        return false;
    }
    let mut i: usize = 0;
    while i < b.len()
        invariant
            i <= b@.len() <= a@.len(),
            a@ == s@,
            b@ == start@,
            forall|k: int| 0 <= k < i ==> #[trigger] s@[k] == start@[k],
        decreases b@.len() - i,
    {
        if a[i] != b[i] {
            proof {
                assert(s@.take(start@.len() as int)[i as int] != start@[i as int]);
            }
            return false;
        }
        i = i + 1;
    }
    proof {
        assert(s@.take(start@.len() as int) =~= start@);
    }
    true
}

/// A name as the dialect quotes it. Oracle keeps unquoted names in capitals, so
/// they are written so.
pub open spec fn ident(dialect: Seq<char>, name: Seq<char>) -> Seq<char> {
    if dialect == "mysql"@ {
        quoted(name, '`')
    } else if begins(dialect, "oracle"@) {
        quoted(capitals(name), '"')
    } else {
        quoted(name, '"')
    }
}

/// Writes a name as the dialect quotes it.
pub fn export_ident(dialect: &str, name: &str) -> (r: String)
    ensures
        r@ == ident(dialect@, name@),
{
    if text::same(dialect, "mysql") {
        quote(name, '`')
    } else if begins_with(dialect, "oracle") {
        quote(to_capitals(name).as_str(), '"')
    } else {
        quote(name, '"')
    }
}

/// A cell as a literal of SQL.
pub open spec fn sql_literal(c: Cell) -> Seq<char> {
    match c {
        Cell::Text(s) => quoted(s, '\''),
        Cell::Null => "NULL"@,
        Cell::Array(s) => "'"@ + s + "'"@,
        Cell::Object(s) => "'"@ + s + "'"@,
        _ => fk_pool::cell_key(c),
    }
}

fn write_literal(v: &Value) -> (r: String)
    ensures
        r@ == sql_literal(v@),
{
    match v {
        Value::Text(s) => quote(s.as_str(), '\''),
        Value::Null => "NULL".to_owned(),
        Value::Array(s) => text::around("'", s.as_str(), "'"),
        Value::Object(s) => text::around("'", s.as_str(), "'"),
        _ => fk_pool::value_key(v),
    }
}

pub open spec fn idents(dialect: Seq<char>, names: Seq<Seq<char>>) -> Seq<Seq<char>> {
    Seq::new(names.len(), |i: int| ident(dialect, names[i]))
}

pub open spec fn literals(row: Seq<Cell>) -> Seq<Seq<char>> {
    Seq::new(row.len(), |i: int| sql_literal(row[i]))
}

/// The name of a table, with its schema where it has one.
pub open spec fn table_ident(
    dialect: Seq<char>,
    schema: Option<Seq<char>>,
    name: Seq<char>,
) -> Seq<char> {
    match schema {
        Some(s) => ident(dialect, s) + "."@ + ident(dialect, name),
        None => ident(dialect, name),
    }
}

/// An insert of one row.
pub open spec fn insert_line(table: Seq<char>, names: Seq<char>, row: Seq<Cell>) -> Seq<char> {
    "INSERT INTO "@ + table + " ("@ + names + ") VALUES ("@ + text::joined(literals(row), ", "@)
        + ");\n"@
}

/// The inserts of rows.
pub open spec fn insert_lines(table: Seq<char>, names: Seq<char>, rows: Seq<Vec<Value>>) -> Seq<
    char,
>
    decreases rows.len(),
{
    if rows.len() == 0 {
        Seq::empty()
    } else {
        insert_lines(table, names, rows.drop_last()) + insert_line(
            table,
            names,
            rows.last().deep_view(),
        )
    }
}

/// A table as inserts, each with the names of the first row's cells.
pub open spec fn sql_of(
    dialect: Seq<char>,
    schema: Option<Seq<char>>,
    name: Seq<char>,
    columns: Seq<Seq<char>>,
    rows: Seq<Vec<Value>>,
) -> Seq<char> {
    if rows.len() == 0 {
        Seq::empty()
    } else {
        insert_lines(
            table_ident(dialect, schema, name),
            text::joined(idents(dialect, names_for(columns, rows[0]@.len())), ", "@),
            rows,
        )
    }
}

fn write_idents(dialect: &str, names: &Vec<String>) -> (r: Vec<String>)
    ensures
        r.deep_view() == idents(dialect@, names.deep_view()),
{
    let mut out: Vec<String> = Vec::new();
    let ghost want = idents(dialect@, names.deep_view());
    let mut i: usize = 0;
    while i < names.len()
        invariant
            i <= names@.len(),
            want == idents(dialect@, names.deep_view()),
            out.deep_view() == want.take(i as int),
        decreases names@.len() - i,
    {
        let ghost before = out.deep_view();
        out.push(export_ident(dialect, names[i].as_str()));
        proof {
            assert(out.deep_view() =~= before.push(want[i as int]));
            assert(want.take(i + 1) =~= want.take(i as int).push(want[i as int]));
        }
        i = i + 1;
    }
    proof {
        assert(want.take(want.len() as int) =~= want);
    }
    out
}

fn write_literals(row: &Vec<Value>) -> (r: Vec<String>)
    ensures
        r.deep_view() == literals(row.deep_view()),
{
    let mut out: Vec<String> = Vec::new();
    let ghost want = literals(row.deep_view());
    let mut i: usize = 0;
    while i < row.len()
        invariant
            i <= row@.len(),
            want == literals(row.deep_view()),
            out.deep_view() == want.take(i as int),
        decreases row@.len() - i,
    {
        let ghost before = out.deep_view();
        out.push(write_literal(&row[i]));
        proof {
            assert(row.deep_view()[i as int] == row@[i as int]@);
            assert(out.deep_view() =~= before.push(want[i as int]));
            assert(want.take(i + 1) =~= want.take(i as int).push(want[i as int]));
        }
        i = i + 1;
    }
    proof {
        assert(want.take(want.len() as int) =~= want);
    }
    out
}

/// Writes a table as inserts.
pub fn export_sql(table: &ExportTable<'_>, dialect: &str) -> (r: String)
    ensures
        r@ == sql_of(
            dialect@,
            table.schema.deep_view(),
            table.name@,
            table.columns.deep_view(),
            table.rows@,
        ),
{
    let mut out = String::new();
    let rows = table.rows;
    if rows.len() == 0 {
        proof {
            assert(out@ =~= Seq::empty());
        }
        return out;
    }
    let own = export_ident(dialect, table.name);
    let target = match table.schema {
        Some(s) => {
            let mut t = export_ident(dialect, s);
            text::push_text(&mut t, ".");
            text::push_text(&mut t, own.as_str());
            t
        },
        None => own,
    };
    let names = columns_for(table.columns, rows[0].len());
    let columns = text::join(write_idents(dialect, &names).as_slice(), ", ");
    let mut i: usize = 0;
    proof {
        assert(rows@.take(0) =~= Seq::empty());
        assert(out@ =~= Seq::empty());
    }
    while i < rows.len()
        invariant
            i <= rows@.len(),
            out@ == insert_lines(target@, columns@, rows@.take(i as int)),
        decreases rows@.len() - i,
    {
        let ghost done = out@;
        proof {
            assert(rows@.take(i + 1).drop_last() =~= rows@.take(i as int));
            assert(rows@.take(i + 1).last() == rows@[i as int]);
        }
        let values = text::join(write_literals(&rows[i]).as_slice(), ", ");
        let mut line = text::around("INSERT INTO ", target.as_str(), " (");
        text::push_text(&mut line, columns.as_str());
        text::push_text(&mut line, ") VALUES (");
        text::push_text(&mut line, values.as_str());
        text::push_text(&mut line, ");\n");
        text::push_text(&mut out, line.as_str());
        i = i + 1;
    }
    proof {
        assert(rows@.take(rows@.len() as int) =~= rows@);
    }
    out
}

/// A table as it is written in a format; `None` where a cell cannot be.
pub open spec fn written(
    format: ExportFormat,
    dialect: Seq<char>,
    schema: Option<Seq<char>>,
    name: Seq<char>,
    columns: Seq<Seq<char>>,
    rows: Seq<Vec<Value>>,
) -> Option<Seq<char>> {
    match format {
        ExportFormat::Csv => Some(csv_of(columns, rows)),
        ExportFormat::Jsonl => match documents_of(columns, rows) {
            Some(documents) => Some(ended(documents)),
            None => None,
        },
        ExportFormat::Json => match documents_of(columns, rows) {
            Some(documents) => array_json(documents),
            None => None,
        },
        ExportFormat::Sql => Some(sql_of(dialect, schema, name, columns, rows)),
    }
}

/// The message where a table cannot be written in a format.
pub open spec fn unwritten(format: ExportFormat) -> Seq<char> {
    match format {
        ExportFormat::Jsonl => "serialize JSONL row"@,
        _ => "serialize JSON"@,
    }
}

/// Writes a table in a format.
pub fn export(table: &ExportTable<'_>, format: ExportFormat, dialect: &str) -> (r: Result<
    String,
    String,
>)
    ensures
        ({
            let want = written(
                format,
                dialect@,
                table.schema.deep_view(),
                table.name@,
                table.columns.deep_view(),
                table.rows@,
            );
            match r {
                Ok(s) => want == Some(s@),
                Err(m) => want is None && m@ == unwritten(format),
            }
        }),
{
    match format {
        ExportFormat::Csv => Ok(export_csv(table)),
        ExportFormat::Jsonl => export_jsonl(table),
        ExportFormat::Json => export_json(table),
        ExportFormat::Sql => Ok(export_sql(table, dialect)),
    }
}

/// A text in which every pair of a character is one again.
pub open spec fn halved(s: Seq<char>, c: char) -> Seq<char>
    decreases s.len(),
{
    if s.len() == 0 {
        Seq::empty()
    } else if s.len() >= 2 && s.last() == c && s[s.len() - 2] == c {
        halved(s.take(s.len() - 2), c).push(c)
    } else {
        halved(s.drop_last(), c).push(s.last())
    }
}

proof fn lemma_halved(s: Seq<char>, c: char)
    ensures
        halved(doubled(s, c), c) == s,
    decreases s.len(),
{
    let d = doubled(s, c);
    if s.len() == 0 {
        assert(d =~= Seq::empty());
        assert(halved(d, c) =~= s);
    } else {
        let rest = s.drop_last();
        lemma_halved(rest, c);
        assert(rest.push(s.last()) =~= s);
        if s.last() == c {
            assert(d.take(d.len() - 2) =~= doubled(rest, c));
        } else {
            assert(d.drop_last() =~= doubled(rest, c));
        }
    }
}

/// What stands between quotes reads as the text that was quoted: a literal of SQL
/// or a quoted name loses nothing.
pub proof fn lemma_quoted_reads_back(s: Seq<char>, c: char)
    ensures
        ({
            let q = quoted(s, c);
            q.len() >= 2 && halved(q.subrange(1, q.len() - 1), c) == s
        }),
{
    let q = quoted(s, c);
    assert(q.subrange(1, q.len() - 1) =~= doubled(s, c));
    lemma_halved(s, c);
}

/// The text of a field of CSV.
pub open spec fn field_text(f: Seq<char>) -> Seq<char> {
    if f.len() >= 2 && f[0] == '"' {
        halved(f.subrange(1, f.len() - 1), '"')
    } else {
        f
    }
}

/// A field of CSV reads as the text that was written.
pub proof fn lemma_field_reads_back(s: Seq<char>)
    ensures
        field_text(field(s)) == s,
{
    if s.contains(',') || s.contains('"') || s.contains('\n') {
        lemma_quoted_reads_back(s, '"');
    } else if s.len() > 0 {
        assert(s.contains(s[0]));
    }
}

} // verus!

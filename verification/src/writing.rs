//! What is read from texts and written to them.
use crate::evaluation;
use crate::export;
use crate::export::{ExportFormat, ExportTable};
use crate::generate_run;
use crate::generate_run::GenerateFlags;
use crate::generator::GeneratedData;
use crate::literal;
use crate::names;
use crate::pools;
use crate::rules::{Relationship, TableRule};
use crate::seed;
use crate::session;
use crate::text;
use crate::training;
use crate::value::{Cell, Value};
use crate::values;
use vstd::prelude::*;

verus! {

proof fn lemma_joined_push(parts: Seq<Seq<char>>, sep: Seq<char>, last: Seq<char>)
    ensures
        text::joined(parts.push(last), sep) == (if parts.len() == 0 {
            last
        } else {
            text::joined(parts, sep) + sep + last
        }),
{
    assert(parts.push(last).drop_last() =~= parts);
}

/// The pieces of a text hold no separator, and are the text again once they are joined by
/// it.
pub proof fn lemma_pieces_join_again(s: Seq<char>, sep: char)
    ensures
        text::pieces(s, sep).len() > 0,
        text::joined(text::pieces(s, sep), seq![sep]) == s,
        forall|i: int|
            0 <= i < text::pieces(s, sep).len() ==> !(#[trigger] text::pieces(s, sep)[i]).contains(
                sep,
            ),
    decreases s.len(),
{
    let all = text::pieces(s, sep);
    if s.len() == 0 {
        assert(all == seq![Seq::<char>::empty()]);
        assert(text::joined(all, seq![sep]) =~= s);
    } else {
        let rest = s.drop_last();
        lemma_pieces_join_again(rest, sep);
        let before = text::pieces(rest, sep);
        if s.last() == sep {
            lemma_joined_push(before, seq![sep], Seq::empty());
            assert(rest + seq![sep] + Seq::<char>::empty() =~= s);
            assert forall|i: int| 0 <= i < all.len() implies !(#[trigger] all[i]).contains(sep) by {
                if i < before.len() {
                    assert(all[i] == before[i]);
                }
            }
        } else {
            let front = before.drop_last();
            let last = before.last();
            lemma_joined_push(front, seq![sep], last);
            lemma_joined_push(front, seq![sep], last.push(s.last()));
            assert(front.push(last) =~= before);
            if front.len() == 0 {
                assert(last.push(s.last()) =~= s);
            } else {
                assert(text::joined(front, seq![sep]) + seq![sep] + last.push(s.last()) =~= (
                text::joined(front, seq![sep]) + seq![sep] + last).push(s.last()));
                assert(rest.push(s.last()) =~= s);
            }
            assert forall|i: int| 0 <= i < all.len() implies !(#[trigger] all[i]).contains(sep) by {
                assert(before[before.len() - 1] == last);
                if i < front.len() {
                    assert(all[i] == before[i]);
                } else {
                    assert(all[i] == last.push(s.last()));
                    if all[i].contains(sep) {
                        let k = all[i].index_of(sep);
                        assert(last[k] == sep);
                    }
                }
            }
        }
    }
}

/// Blanks and line breaks count as white space, and no printable character of ASCII does.
pub proof fn lemma_white_space(c: char)
    ensures
        c == ' ' || c == '\n' || c == '\r' || c == '\t' ==> text::is_space(c),
        '!' <= c <= '~' ==> !text::is_space(c),
{
}

/// A trimmed text begins and ends in no white space, and only white space was around it.
pub proof fn lemma_trimmed(s: Seq<char>) -> (r: (int, int))
    ensures
        0 <= r.0 <= r.1 <= s.len(),
        text::trimmed(s) == s.subrange(r.0, r.1),
        text::trimmed(s).len() > 0 ==> !text::is_space(text::trimmed(s)[0]) && !text::is_space(
            text::trimmed(s).last(),
        ),
        forall|k: int|
            0 <= k < s.len() && (k < r.0 || r.1 <= k) ==> text::is_space(#[trigger] s[k]),
{
    let i = lemma_trimmed_start(s);
    let t = text::trimmed_start(s);
    let j = lemma_trimmed_end(t);
    assert(text::trimmed(s) =~= s.subrange(i, i + j));
    assert forall|k: int| 0 <= k < s.len() && (k < i || i + j <= k) implies text::is_space(
        #[trigger] s[k],
    ) by {
        if k >= i {
            assert(t[k - i] == s[k]);
        }
    }
    if text::trimmed(s).len() > 0 {
        assert(text::trimmed(s)[0] == t[0]);
    }
    (i, i + j)
}

proof fn lemma_trimmed_start(s: Seq<char>) -> (i: int)
    ensures
        0 <= i <= s.len(),
        text::trimmed_start(s) == s.skip(i),
        i < s.len() ==> !text::is_space(s[i]),
        forall|k: int| 0 <= k < i ==> text::is_space(#[trigger] s[k]),
    decreases s.len(),
{
    if s.len() > 0 && text::is_space(s[0]) {
        let rest = s.skip(1);
        let i = lemma_trimmed_start(rest);
        assert(rest.skip(i) =~= s.skip(i + 1));
        assert forall|k: int| 0 <= k < i + 1 implies text::is_space(#[trigger] s[k]) by {
            if k > 0 {
                assert(rest[k - 1] == s[k]);
            }
        }
        i + 1
    } else {
        assert(s.skip(0) =~= s);
        0
    }
}

proof fn lemma_trimmed_end(s: Seq<char>) -> (j: int)
    ensures
        0 <= j <= s.len(),
        text::trimmed_end(s) == s.take(j),
        j > 0 ==> !text::is_space(s[j - 1]),
        forall|k: int| j <= k < s.len() ==> text::is_space(#[trigger] s[k]),
    decreases s.len(),
{
    if s.len() > 0 && text::is_space(s.last()) {
        let rest = s.drop_last();
        let j = lemma_trimmed_end(rest);
        assert(rest.take(j) =~= s.take(j));
        assert forall|k: int| j <= k < s.len() implies text::is_space(#[trigger] s[k]) by {
            if k < rest.len() {
                assert(rest[k] == s[k]);
            }
        }
        j
    } else {
        assert(s.take(s.len() as int) =~= s);
        s.len() as int
    }
}

/// The tables of a list are what stands between its commas, without white space around it,
/// unless nothing does.
pub proof fn lemma_tables_of_a_list(tables: &str, r: Vec<String>, name: Seq<char>)
    requires
        call_ensures(session::split_tables, (tables,), r),
    ensures
        r.deep_view().contains(name) <==> name.len() > 0 && exists|i: int|
            0 <= i < text::pieces(tables@, ',').len() && text::trimmed(
                #[trigger] text::pieces(tables@, ',')[i],
            ) == name,
{
    lemma_kept_pieces(text::pieces(tables@, ','), name);
}

proof fn lemma_kept_pieces(pieces: Seq<Seq<char>>, name: Seq<char>)
    ensures
        session::kept_pieces(pieces).contains(name) <==> name.len() > 0 && exists|i: int|
            0 <= i < pieces.len() && text::trimmed(#[trigger] pieces[i]) == name,
    decreases pieces.len(),
{
    if pieces.len() > 0 {
        let rest = pieces.drop_last();
        lemma_kept_pieces(rest, name);
        let before = session::kept_pieces(rest);
        let after = session::kept_pieces(pieces);
        assert(pieces[pieces.len() - 1] == pieces.last());
        if before.contains(name) {
            let i = before.index_of(name);
            assert(after[i] == name);
            let k = choose|k: int| 0 <= k < rest.len() && text::trimmed(#[trigger] rest[k]) == name;
            assert(pieces[k] == rest[k]);
        }
        if after.contains(name) && !before.contains(name) {
            let i = after.index_of(name);
            if i < before.len() {
                assert(before[i] == name);
            }
        }
        if name.len() > 0 && exists|i: int|
            0 <= i < pieces.len() && text::trimmed(#[trigger] pieces[i]) == name {
            let i = choose|i: int|
                0 <= i < pieces.len() && text::trimmed(#[trigger] pieces[i]) == name;
            if i < rest.len() {
                assert(rest[i] == pieces[i]);
            } else {
                assert(after[after.len() - 1] == name);
            }
        }
    }
}

/// Tables are asked for by a list that names at least one, and none of them with a schema.
pub proof fn lemma_tables_that_are_asked_for(
    tables: &str,
    r: Result<Vec<String>, String>,
    list: Vec<String>,
)
    requires
        call_ensures(session::requested_tables, (tables,), r),
        call_ensures(session::split_tables, (tables,), list),
    ensures
        r is Ok <==> list@.len() > 0 && forall|i: int|
            0 <= i < list@.len() ==> !(#[trigger] list@[i])@.contains('.'),
        r is Ok ==> r->Ok_0.deep_view() == list.deep_view(),
{
    let all = list.deep_view();
    assert(all.len() == list@.len());
    if r is Ok {
        assert(r->Ok_0.deep_view().len() == r->Ok_0@.len());
        assert forall|i: int| 0 <= i < list@.len() implies !(#[trigger] list@[i])@.contains('.') by {
            assert(all[i] == list@[i]@);
            assert(!r->Ok_0.deep_view()[i].contains('.'));
        }
    } else {
        let m = r->Err_0@;
        if session::some_dotted(all, m) {
            let i = choose|i: int| #[trigger]
                session::first_dotted(all, i) && m == session::dotted_text(all[i]);
            assert(all[i] == list@[i]@);
        }
    }
}

/// A seed of a label differs from the base by the hash of the label, whatever the base is;
/// there is none without a base. A hash is 33 times the one of the text without its last
/// byte, and that byte, within 64 bits.
pub proof fn lemma_seeds(base: u64, other: u64, label: Seq<char>, bytes: Seq<u8>, b: u8)
    ensures
        seed::seed_of(None, label) is None,
        seed::seed_of(Some(base), label) is Some,
        seed::seed_of(Some(base), label)->0 ^ base == seed::seed_of(Some(other), label)->0 ^ other,
        seed::seed_of(Some(0), label) == Some(seed::label_hash(vstd::utf8::encode_utf8(label))),
        seed::label_hash(Seq::empty()) == 5381,
        (33 * seed::label_hash(bytes) + b - seed::label_hash(bytes.push(b)))
            % 0x1_0000_0000_0000_0000 == 0,
{
    let h = seed::label_hash(vstd::utf8::encode_utf8(label));
    assert((base ^ h) ^ base == (other ^ h) ^ other) by (bit_vector);
    assert(0u64 ^ h == h) by (bit_vector);
    assert(bytes.push(b).drop_last() =~= bytes);
    let x = seed::label_hash(bytes) * 33 + b;
    let m = 0x1_0000_0000_0000_0000int;
    vstd::arithmetic::div_mod::lemma_fundamental_div_mod(x, m);
    vstd::arithmetic::div_mod::lemma_mod_multiples_basic(x / m, m);
    assert(seed::label_hash(bytes.push(b)) == x % m);
    assert((x / m) * m == m * (x / m)) by (nonlinear_arith);
}

/// The streams of a column are told apart by the table, the column and what they are for.
pub proof fn lemma_streams_have_their_own_seeds(
    base: Option<u64>,
    table: &str,
    column: &str,
    purpose: &str,
    r: Option<u64>,
    t: Option<u64>,
)
    requires
        call_ensures(seed::column_seed, (base, table, column, purpose), r),
        call_ensures(seed::table_seed, (base, table), t),
    ensures
        r == seed::seed_of(base, table@ + ":"@ + column@ + ":"@ + purpose@),
        t == seed::seed_of(base, table@),
{
}

/// A format is the one of its name, and its files end in it.
pub proof fn lemma_formats_by_name(name: &str, r: Result<ExportFormat, String>)
    requires
        call_ensures(ExportFormat::parse, (name,), r),
    ensures
        name@ == "csv"@ ==> r == Ok::<ExportFormat, String>(ExportFormat::Csv),
        name@ == "jsonl"@ ==> r == Ok::<ExportFormat, String>(ExportFormat::Jsonl),
        name@ == "json"@ ==> r == Ok::<ExportFormat, String>(ExportFormat::Json),
        name@ == "sql"@ ==> r == Ok::<ExportFormat, String>(ExportFormat::Sql),
        name@ != "csv"@ && name@ != "jsonl"@ && name@ != "json"@ && name@ != "sql"@ ==> r is Err,
{
    reveal_strlit("csv");
    reveal_strlit("jsonl");
    reveal_strlit("json");
    reveal_strlit("sql");
    assert("csv"@.len() == 3 && "jsonl"@.len() == 5 && "json"@.len() == 4 && "sql"@.len() == 3);
    assert("csv"@[0] == 'c' && "sql"@[0] == 's');
}

/// A field of CSV is the text itself unless it holds a comma, a quote or a line break; NULL
/// is `null`, and numbers and truth values stand as they are.
pub proof fn lemma_fields(s: Seq<char>)
    ensures
        !s.contains(',') && !s.contains('"') && !s.contains('\n') ==> export::field(s) == s
            && export::cell_field(Cell::Text(s)) == s && export::cell_field(Cell::Number(s)) == s,
        s.contains(',') || s.contains('"') || s.contains('\n') ==> export::field(s)[0] == '"'
            && export::field(s).last() == '"' && export::field(s).len() >= s.len() + 2,
        export::cell_field(Cell::Null) == "null"@,
        export::cell_field(Cell::Bool(true)) == export::field("true"@),
        export::cell_field(Cell::Bool(false)) == export::field("false"@),
{
    lemma_doubled_len(s, '"');
}

proof fn lemma_doubled_len(s: Seq<char>, c: char)
    ensures
        export::doubled(s, c).len() >= s.len(),
    decreases s.len(),
{
    if s.len() > 0 {
        lemma_doubled_len(s.drop_last(), c);
    }
}

/// A table as CSV has a line of names, then one for each row, its fields between commas.
pub proof fn lemma_rows_of_csv(columns: Seq<Seq<char>>, rows: Seq<Vec<Value>>, row: Vec<Value>)
    ensures
        export::csv_of(columns, Seq::empty()) == Seq::<char>::empty(),
        rows.len() > 0 ==> export::csv_of(columns, rows.push(row)) == export::csv_of(columns, rows)
            + (text::joined(
            Seq::new(row@.len(), |i: int| export::cell_field(row@[i]@)),
            ","@,
        ) + "\n"@),
        columns.len() == row@.len() ==> export::csv_of(columns, seq![row]) == (text::joined(
            Seq::new(columns.len(), |i: int| export::field(columns[i])),
            ","@,
        ) + "\n"@) + (text::joined(
            Seq::new(row@.len(), |i: int| export::cell_field(row@[i]@)),
            ","@,
        ) + "\n"@),
{
    let fields = Seq::new(row@.len(), |i: int| export::cell_field(row@[i]@));
    assert(export::cell_fields(row.deep_view()) =~= fields);
    assert(rows.push(row).drop_last() =~= rows);
    if rows.len() > 0 {
        assert(rows.push(row)[0] == rows[0]);
        let head = export::csv_line(
            export::name_fields(export::names_for(columns, rows[0]@.len())),
        );
        assert(head + (export::csv_rows(rows) + export::csv_line(fields)) =~= (head
            + export::csv_rows(rows)) + export::csv_line(fields));
    }
    let one = seq![row];
    assert(one.drop_last() =~= Seq::empty());
    assert(export::csv_rows(one.drop_last()) =~= Seq::empty());
    assert(export::csv_rows(one) =~= export::csv_line(fields));
    assert(export::name_fields(columns) =~= Seq::new(
        columns.len(),
        |i: int| export::field(columns[i]),
    ));
}

/// Names are quoted as the dialect does it: between backticks for MySQL, between quotes for
/// the others, and in capitals for Oracle.
pub proof fn lemma_names_are_quoted(dialect: &str, name: &str, r: String)
    requires
        call_ensures(export::export_ident, (dialect, name), r),
    ensures
        dialect@ == "mysql"@ ==> r@ == export::quoted(name@, '`'),
        dialect@ == "postgres"@ || dialect@ == "sqlite"@ ==> r@ == export::quoted(name@, '"'),
        dialect@ == "oracle"@ ==> exists|s: Seq<char>|
            #![trigger export::quoted(s, '"')]
            r@ == export::quoted(s, '"') && s.len() == name@.len() && forall|i: int|
                0 <= i < s.len() ==> #[trigger] s[i] == (if 'a' <= name@[i] <= 'z' {
                    (name@[i] as u32 - 32) as char
                } else {
                    name@[i]
                }),
{
    reveal_strlit("mysql");
    reveal_strlit("oracle");
    reveal_strlit("postgres");
    reveal_strlit("sqlite");
    assert("mysql"@[0] == 'm' && "oracle"@[0] == 'o' && "postgres"@[0] == 'p' && "sqlite"@[0]
        == 's');
    if dialect@ == "postgres"@ || dialect@ == "sqlite"@ {
        assert(!export::begins(dialect@, "oracle"@)) by {
            if export::begins(dialect@, "oracle"@) {
                assert(dialect@.take("oracle"@.len() as int)[0] == dialect@[0]);
            }
        }
    }
    if dialect@ == "oracle"@ {
        assert(dialect@.take(dialect@.len() as int) =~= dialect@);
        assert(r@ == export::quoted(export::capitals(name@), '"'));
    }
}

/// A table as SQL has an insert for each row, which names the columns and gives a literal
/// for each cell: a text between quotes, a number as it stands, and NULL.
pub proof fn lemma_rows_of_sql(
    dialect: Seq<char>,
    schema: Option<Seq<char>>,
    name: Seq<char>,
    columns: Seq<Seq<char>>,
    rows: Seq<Vec<Value>>,
    row: Vec<Value>,
    s: Seq<char>,
)
    requires
        columns.len() == row@.len(),
        rows.len() > 0 ==> rows[0]@.len() == columns.len(),
    ensures
        export::sql_of(dialect, schema, name, columns, Seq::empty()) == Seq::<char>::empty(),
        ({
            let table = match schema {
                Some(x) => export::ident(dialect, x) + "."@ + export::ident(dialect, name),
                None => export::ident(dialect, name),
            };
            let names = text::joined(
                Seq::new(columns.len(), |i: int| export::ident(dialect, columns[i])),
                ", "@,
            );
            let cells = text::joined(
                Seq::new(row@.len(), |i: int| export::sql_literal(row@[i]@)),
                ", "@,
            );
            export::sql_of(dialect, schema, name, columns, rows.push(row)) == export::sql_of(
                dialect,
                schema,
                name,
                columns,
                rows,
            ) + ("INSERT INTO "@ + table + " ("@ + names + ") VALUES ("@ + cells + ");\n"@)
        }),
        export::sql_literal(Cell::Text(s)) == export::quoted(s, '\''),
        export::sql_literal(Cell::Null) == "NULL"@,
        export::sql_literal(Cell::Number(s)) == s,
        export::sql_literal(Cell::Bool(true)) == "true"@,
        export::sql_literal(Cell::Bool(false)) == "false"@,
{
    let names = text::joined(
        Seq::new(columns.len(), |i: int| export::ident(dialect, columns[i])),
        ", "@,
    );
    let table = export::table_ident(dialect, schema, name);
    assert(export::idents(dialect, columns) =~= Seq::new(
        columns.len(),
        |i: int| export::ident(dialect, columns[i]),
    ));
    assert(export::literals(row.deep_view()) =~= Seq::new(
        row@.len(),
        |i: int| export::sql_literal(row@[i]@),
    ));
    let more = rows.push(row);
    assert(more.drop_last() =~= rows);
    assert(export::insert_lines(table, names, more) == export::insert_lines(table, names, rows)
        + export::insert_line(table, names, row.deep_view()));
    if rows.len() > 0 {
        assert(more[0] == rows[0]);
    } else {
        assert(more[0] == row);
        assert(export::insert_lines(table, names, rows) =~= Seq::empty());
    }
}

/// A text between quotes is the text with every quote in it written twice.
pub proof fn lemma_quotes_are_doubled(a: Seq<char>, x: char, c: char)
    ensures
        export::quoted(Seq::empty(), c) == seq![c, c],
        x == c ==> export::quoted(a.push(x), c) == export::quoted(a, c).drop_last().push(c).push(
            c,
        ).push(c),
        x != c ==> export::quoted(a.push(x), c) == export::quoted(a, c).drop_last().push(x).push(c),
{
    assert(export::quoted(Seq::empty(), c) =~= seq![c, c]);
    assert(a.push(x).drop_last() =~= a);
    assert(export::quoted(a, c).drop_last() =~= seq![c] + export::doubled(a, c));
    if x == c {
        assert(export::quoted(a.push(x), c) =~= export::quoted(a, c).drop_last().push(c).push(
            c,
        ).push(c));
    } else {
        assert(export::quoted(a.push(x), c) =~= export::quoted(a, c).drop_last().push(x).push(c));
    }
}

/// Every row has a document, its cells under the names of the columns, and in the lines of
/// JSON each stands on its own.
pub proof fn lemma_rows_of_json(columns: Seq<Seq<char>>, rows: Seq<Vec<Value>>, r: int)
    requires
        0 <= r < rows.len(),
        rows[r]@.len() == columns.len(),
        export::documents_of(columns, rows) is Some,
    ensures
        export::documents_of(columns, rows)->0.len() == rows.len(),
        export::object_json(
            Seq::new(columns.len(), |i: int| (columns[i], rows[r]@[i]@)),
        ) == Some(export::documents_of(columns, rows)->0[r]),
    decreases rows.len(),
{
    let rest = rows.drop_last();
    lemma_documents_len(columns, rest);
    let before = export::documents_of(columns, rest)->0;
    if r < rest.len() {
        assert(rest[r] == rows[r]);
        lemma_rows_of_json(columns, rest, r);
        assert(export::documents_of(columns, rows)->0[r] == before[r]);
    } else {
        assert(rows.last() == rows[r]);
        assert(export::pairs_of(columns, rows[r].deep_view()) =~= Seq::new(
            columns.len(),
            |i: int| (columns[i], rows[r]@[i]@),
        ));
    }
}

proof fn lemma_documents_len(columns: Seq<Seq<char>>, rows: Seq<Vec<Value>>)
    ensures
        export::documents_of(columns, rows) is Some ==> export::documents_of(
            columns,
            rows,
        )->0.len() == rows.len(),
    decreases rows.len(),
{
    if rows.len() > 0 {
        lemma_documents_len(columns, rows.drop_last());
    }
}

/// What is exported is what the format asks for.
pub proof fn lemma_exports(
    table: &ExportTable<'_>,
    dialect: &str,
    csv: Result<String, String>,
    sql: Result<String, String>,
    jsonl: Result<String, String>,
    json: Result<String, String>,
)
    requires
        call_ensures(export::export, (table, ExportFormat::Json, dialect), json),
        call_ensures(export::export, (table, ExportFormat::Csv, dialect), csv),
        call_ensures(export::export, (table, ExportFormat::Sql, dialect), sql),
        call_ensures(export::export, (table, ExportFormat::Jsonl, dialect), jsonl),
    ensures
        csv is Ok,
        csv->Ok_0@ == export::csv_of(table.columns.deep_view(), table.rows@),
        sql is Ok,
        sql->Ok_0@ == export::sql_of(
            dialect@,
            table.schema.deep_view(),
            table.name@,
            table.columns.deep_view(),
            table.rows@,
        ),
        json is Ok ==> export::documents_of(table.columns.deep_view(), table.rows@) is Some
            && export::array_json(
            export::documents_of(table.columns.deep_view(), table.rows@)->0,
        ) == Some(json->Ok_0@),
        jsonl is Ok <==> export::documents_of(table.columns.deep_view(), table.rows@) is Some,
        jsonl is Ok ==> jsonl->Ok_0@ == export::ended(
            export::documents_of(table.columns.deep_view(), table.rows@)->0,
        ),
{
}

/// Every generated table has a file of its name, which is written without a schema where
/// that is asked for.
pub proof fn lemma_files_of_tables(
    data: &GeneratedData,
    flags: GenerateFlags,
    r: Result<Vec<(String, String)>, String>,
    i: int,
)
    requires
        call_ensures(generate_run::data_files, (data, ExportFormat::Sql, flags), r),
        0 <= i < data.tables@.len(),
    ensures
        r is Ok,
        r->Ok_0@.len() == data.tables@.len(),
        r->Ok_0@[i].0@ == data.tables@[i].name@ + "."@ + "sql"@,
        r->Ok_0@[i].1@ == export::sql_of(
            data.dialect@,
            if flags.no_schema_qualifier {
                None
            } else {
                data.tables@[i].schema.deep_view()
            },
            data.tables@[i].name@,
            data.tables@[i].columns.deep_view(),
            data.tables@[i].rows@,
        ),
{
    if r is Err {
        let k = choose|k: int| #[trigger]
            generate_run::first_unwritten(*data, ExportFormat::Sql, flags, k);
        assert(generate_run::table_written(*data, ExportFormat::Sql, flags, k) is Some);
    } else {
        let f = r->Ok_0@[i];
        assert(generate_run::table_written(*data, ExportFormat::Sql, flags, i) == Some(f.1@));
    }
}

pub(crate) proof fn lemma_first_dot(p: Seq<char>, rest: Seq<char>)
    requires
        !p.contains('.'),
    ensures
        pools::first_dot(p + seq!['.'] + rest) == p.len(),
        pools::first_dot(p) == p.len(),
    decreases p.len(),
{
    let s = p + seq!['.'] + rest;
    if p.len() == 0 {
        assert(s[0] == '.');
    } else {
        assert(p[0] != '.');
        assert(s[0] == p[0]);
        let q = p.skip(1);
        assert(!q.contains('.')) by {
            if q.contains('.') {
                let i = q.index_of('.');
                assert(p[i + 1] == '.');
            }
        }
        lemma_first_dot(q, rest);
        assert(s.skip(1) =~= q + seq!['.'] + rest);
    }
}

proof fn lemma_dot_at(s: Seq<char>)
    ensures
        0 <= pools::first_dot(s) <= s.len(),
        pools::first_dot(s) < s.len() ==> s[pools::first_dot(s)] == '.',
    decreases s.len(),
{
    if s.len() > 0 && s[0] != '.' {
        lemma_dot_at(s.skip(1));
    }
}

/// A table is generated after those that its relationships refer to: each reference of the
/// form `table.column` to a table that there is puts that table before it, and nothing else
/// puts one table before another.
pub proof fn lemma_references_order_the_tables(
    tables: Seq<TableRule>,
    t: int,
    r: int,
    k: int,
    p: Seq<char>,
    c: Seq<char>,
)
    requires
        0 <= t < tables.len(),
        0 <= r < tables[t].relationships@.len(),
        0 <= k < tables[t].relationships@[r].references@.len(),
        tables[t].relationships@[r].references@[k]@ == p + seq!['.'] + c,
        !p.contains('.'),
        !c.contains('.'),
        pools::table_names(tables).contains(p),
    ensures
        pools::table_edges(tables, pools::table_names(tables), true).contains(
            (p, tables[t].name@),
        ),
{
    lemma_edge_found(tables, pools::table_names(tables), t, r, k, p, c);
}

proof fn lemma_edge_found(
    tables: Seq<TableRule>,
    known: Seq<Seq<char>>,
    t: int,
    r: int,
    k: int,
    p: Seq<char>,
    c: Seq<char>,
)
    requires
        0 <= t < tables.len(),
        0 <= r < tables[t].relationships@.len(),
        0 <= k < tables[t].relationships@[r].references@.len(),
        tables[t].relationships@[r].references@[k]@ == p + seq!['.'] + c,
        !p.contains('.'),
        !c.contains('.'),
        known.contains(p),
    ensures
        pools::table_edges(tables, known, true).contains((p, tables[t].name@)),
    decreases tables.len(),
{
    let edge = (p, tables[t].name@);
    let rest = tables.drop_last();
    let before = pools::table_edges(rest, known, true);
    let own = pools::relationship_edges(
        tables.last().relationships@,
        tables.last().name@,
        known,
        true,
    );
    if t < rest.len() {
        assert(rest[t] == tables[t]);
        lemma_edge_found(rest, known, t, r, k, p, c);
        let i = before.index_of(edge);
        assert((before + own)[i] == edge);
    } else {
        lemma_edge_in_relationships(tables[t].relationships@, tables[t].name@, known, r, k, p, c);
        let i = own.index_of(edge);
        assert((before + own)[before.len() + i] == edge);
    }
}

proof fn lemma_edge_in_relationships(
    rels: Seq<Relationship>,
    child: Seq<char>,
    known: Seq<Seq<char>>,
    r: int,
    k: int,
    p: Seq<char>,
    c: Seq<char>,
)
    requires
        0 <= r < rels.len(),
        0 <= k < rels[r].references@.len(),
        rels[r].references@[k]@ == p + seq!['.'] + c,
        !p.contains('.'),
        !c.contains('.'),
        known.contains(p),
    ensures
        pools::relationship_edges(rels, child, known, true).contains((p, child)),
    decreases rels.len(),
{
    let edge = (p, child);
    let rest = rels.drop_last();
    let before = pools::relationship_edges(rest, child, known, true);
    let own = pools::reference_edges(
        rels.last().references.deep_view(),
        child,
        known,
        true,
    );
    if r < rest.len() {
        assert(rest[r] == rels[r]);
        lemma_edge_in_relationships(rest, child, known, r, k, p, c);
        let i = before.index_of(edge);
        assert((before + own)[i] == edge);
    } else {
        let references = rels[r].references.deep_view();
        assert(references[k] == rels[r].references@[k]@);
        lemma_edge_in_references(references, child, known, k, p, c);
        let i = own.index_of(edge);
        assert((before + own)[before.len() + i] == edge);
    }
}

proof fn lemma_edge_in_references(
    references: Seq<Seq<char>>,
    child: Seq<char>,
    known: Seq<Seq<char>>,
    k: int,
    p: Seq<char>,
    c: Seq<char>,
)
    requires
        0 <= k < references.len(),
        references[k] == p + seq!['.'] + c,
        !p.contains('.'),
        !c.contains('.'),
        known.contains(p),
    ensures
        pools::reference_edges(references, child, known, true).contains((p, child)),
    decreases references.len(),
{
    let edge = (p, child);
    let rest = references.drop_last();
    let before = pools::reference_edges(rest, child, known, true);
    let after = pools::reference_edges(references, child, known, true);
    if k < rest.len() {
        assert(rest[k] == references[k]);
        lemma_edge_in_references(rest, child, known, k, p, c);
        let i = before.index_of(edge);
        assert(after[i] == edge);
    } else {
        let s = references[k];
        lemma_first_dot(p, c);
        lemma_first_dot(c, c);
        assert(s.skip(p.len() as int + 1) =~= c);
        assert(s.take(p.len() as int) =~= p);
        assert(after[after.len() - 1] == edge);
    }
}

/// Where one table comes before another, some relationship of the latter refers to a column
/// of the former.
pub proof fn lemma_order_comes_from_references(
    tables: Seq<TableRule>,
    known: Seq<Seq<char>>,
    p: Seq<char>,
    child: Seq<char>,
) -> (at: (int, int, int))
    requires
        pools::table_edges(tables, known, true).contains((p, child)),
    ensures
        0 <= at.0 < tables.len(),
        tables[at.0].name@ == child,
        0 <= at.1 < tables[at.0].relationships@.len(),
        0 <= at.2 < tables[at.0].relationships@[at.1].references@.len(),
        refers_to(tables[at.0].relationships@[at.1].references@[at.2]@, p),
        known.contains(p),
    decreases tables.len(),
{
    let edge = (p, child);
    let rest = tables.drop_last();
    let before = pools::table_edges(rest, known, true);
    let own = pools::relationship_edges(
        tables.last().relationships@,
        tables.last().name@,
        known,
        true,
    );
    let i = (before + own).index_of(edge);
    if i < before.len() {
        assert(before[i] == edge);
        let at = lemma_order_comes_from_references(rest, known, p, child);
        assert(rest[at.0] == tables[at.0]);
        at
    } else {
        assert(own[i - before.len()] == edge);
        let at = lemma_relationship_of_edge(
            tables.last().relationships@,
            tables.last().name@,
            known,
            p,
            child,
        );
        (tables.len() - 1, at.0, at.1)
    }
}

/// A reference is to a column of a table: the table's name, a dot, and what stands behind
/// it.
pub open spec fn refers_to(reference: Seq<char>, table: Seq<char>) -> bool {
    &&& reference.len() > table.len()
    &&& reference.take(table.len() as int) == table
    &&& reference[table.len() as int] == '.'
}

proof fn lemma_relationship_of_edge(
    rels: Seq<Relationship>,
    name: Seq<char>,
    known: Seq<Seq<char>>,
    p: Seq<char>,
    child: Seq<char>,
) -> (at: (int, int))
    requires
        pools::relationship_edges(rels, name, known, true).contains((p, child)),
    ensures
        name == child,
        0 <= at.0 < rels.len(),
        0 <= at.1 < rels[at.0].references@.len(),
        refers_to(rels[at.0].references@[at.1]@, p),
        known.contains(p),
    decreases rels.len(),
{
    let edge = (p, child);
    let rest = rels.drop_last();
    let before = pools::relationship_edges(rest, name, known, true);
    let references = rels.last().references.deep_view();
    let own = pools::reference_edges(references, name, known, true);
    let i = (before + own).index_of(edge);
    if i < before.len() {
        assert(before[i] == edge);
        let at = lemma_relationship_of_edge(rest, name, known, p, child);
        assert(rest[at.0] == rels[at.0]);
        at
    } else {
        assert(own[i - before.len()] == edge);
        let k = lemma_reference_of_edge(references, name, known, p, child);
        assert(references[k] == rels.last().references@[k]@);
        (rels.len() - 1, k)
    }
}

proof fn lemma_reference_of_edge(
    references: Seq<Seq<char>>,
    name: Seq<char>,
    known: Seq<Seq<char>>,
    p: Seq<char>,
    child: Seq<char>,
) -> (k: int)
    requires
        pools::reference_edges(references, name, known, true).contains((p, child)),
    ensures
        name == child,
        0 <= k < references.len(),
        refers_to(references[k], p),
        known.contains(p),
    decreases references.len(),
{
    let edge = (p, child);
    let rest = references.drop_last();
    let before = pools::reference_edges(rest, name, known, true);
    let after = pools::reference_edges(references, name, known, true);
    let i = after.index_of(edge);
    if i < before.len() {
        assert(before[i] == edge);
        let k = lemma_reference_of_edge(rest, name, known, p, child);
        assert(rest[k] == references[k]);
        k
    } else {
        lemma_dot_at(references.last());
        assert(references.last() == references[references.len() - 1]);
        references.len() - 1
    }
}

/// Names in order are the same names, each as often as before, and none stands before one
/// that comes before it in a dictionary.
pub proof fn lemma_names_in_order(list: Seq<Seq<char>>, i: int, j: int)
    ensures
        names::sorted(list).to_multiset() == list.to_multiset(),
        names::sorted(list).len() == list.len(),
        0 <= i < j < names::sorted(list).len() ==> names::sorted(list)[i] == names::sorted(list)[j]
            || evaluation::lexical(names::sorted(list)[i], names::sorted(list)[j]),
{
    names::lemma_in_order_total();
    list.lemma_sort_by_ensures(names::in_order());
    let done = names::sorted(list);
    vstd::seq_lib::to_multiset_len(done);
    vstd::seq_lib::to_multiset_len(list);
    if 0 <= i < j < done.len() {
        assert(names::in_order()(done[i], done[j]));
        evaluation::lemma_before_is_lexical(done[i], done[j]);
    }
}

/// Columns that do not fit a row are numbered instead.
pub proof fn lemma_names_of_columns(columns: &[String], width: usize, r: Vec<String>, i: int)
    requires
        call_ensures(export::columns_for, (columns, width), r),
        0 <= i < width,
    ensures
        r@.len() == width,
        columns@.len() == width ==> r@[i]@ == columns@[i]@,
        columns@.len() != width ==> r@[i]@ == "col_"@ + text::digits(i as nat),
{
    let all = columns.deep_view();
    assert(all.len() == columns@.len());
    assert(r.deep_view().len() == r@.len());
    assert(r.deep_view()[i] == r@[i]@);
    if columns@.len() == width {
        assert(all[i] == columns@[i]@);
    }
}

/// Every line is ended.
pub proof fn lemma_lines_are_ended(lines: Seq<Seq<char>>, line: Seq<char>)
    ensures
        export::ended(Seq::empty()) == Seq::<char>::empty(),
        export::ended(lines.push(line)) == export::ended(lines) + line + "\n"@,
{
    assert(lines.push(line).drop_last() =~= lines);
}

/// A plus sign before a whole number changes nothing, and a minus sign turns it round.
pub proof fn lemma_signs_of_literals(n: nat)
    ensures
        literal::integer_of(seq!['+'] + text::digits(n)) == Some(n as int),
        literal::integer_of(seq!['-'] + text::digits(n)) == Some(-(n as int)),
        literal::integer_of(text::digits(n)) == Some(n as int),
        literal::integer_of(Seq::empty()) is None,
        training::count_of(text::digits(n)) == Some(n),
        training::count_of(seq!['+'] + text::digits(n)) == Some(n),
        training::count_of(seq!['-'] + text::digits(n)) is None,
{
    values::lemma_digits(n);
    let d = text::digits(n);
    assert('0' <= d[0] <= '9');
    assert((seq!['+'] + d).skip(1) =~= d);
    assert((seq!['-'] + d).skip(1) =~= d);
    assert(training::unsigned(seq!['-'] + d)[0] == '-');
}

} // verus!

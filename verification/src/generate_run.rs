//! What a generation run writes and says.
use crate::branch::{BranchOutcome, CoverageStatus};
use crate::export;
use crate::export::{ExportFormat, ExportTable};
use crate::generator::GeneratedData;
use crate::model::TableModel;
use crate::text;
use vstd::prelude::*;

verus! {

/// Switches of a generation run.
#[derive(Debug, Clone, Copy)]
pub struct GenerateFlags {
    pub enforce_min_max_values: bool,
    pub no_schema_qualifier: bool,
}

/// The schema that a table is written with: none where the flag leaves it out.
pub open spec fn schema_written(schema: Option<String>, flags: GenerateFlags) -> Option<Seq<char>> {
    if flags.no_schema_qualifier {
        None
    } else {
        schema.deep_view()
    }
}

/// What is written of the table at an index.
pub open spec fn table_written(
    data: GeneratedData,
    format: ExportFormat,
    flags: GenerateFlags,
    i: int,
) -> Option<Seq<char>> {
    let t = data.tables@[i];
    export::written(
        format,
        data.dialect@,
        schema_written(t.schema, flags),
        t.name@,
        t.columns.deep_view(),
        t.rows@,
    )
}

/// The first table that cannot be written.
pub open spec fn first_unwritten(
    data: GeneratedData,
    format: ExportFormat,
    flags: GenerateFlags,
    i: int,
) -> bool {
    &&& 0 <= i < data.tables@.len()
    &&& forall|k: int| 0 <= k < i ==> #[trigger] table_written(data, format, flags, k) is Some
    &&& table_written(data, format, flags, i) is None
}

pub open spec fn some_unwritten(
    data: GeneratedData,
    format: ExportFormat,
    flags: GenerateFlags,
) -> bool {
    exists|i: int| #[trigger] first_unwritten(data, format, flags, i)
}

/// The files of a run: the name and the text of each table's file. It fails where
/// a table cannot be written.
pub fn data_files(data: &GeneratedData, format: ExportFormat, flags: GenerateFlags) -> (r: Result<
    Vec<(String, String)>,
    String,
>)
    ensures
        match r {
            Ok(files) => {
                &&& files@.len() == data.tables@.len()
                &&& forall|i: int|
                    0 <= i < files@.len() ==> (#[trigger] files@[i]).0@ == data.tables@[i].name@
                        + "."@ + format.ending()
                &&& forall|i: int|
                    0 <= i < files@.len() ==> table_written(*data, format, flags, i) == Some(
                        (#[trigger] files@[i]).1@,
                    )
            },
            Err(m) => some_unwritten(*data, format, flags) && m@ == export::unwritten(format),
        },
{
    let mut files: Vec<(String, String)> = Vec::new();
    let mut i: usize = 0;
    while i < data.tables.len()
        invariant
            i <= data.tables@.len(),
            files@.len() == i,
            forall|k: int|
                0 <= k < i ==> (#[trigger] files@[k]).0@ == data.tables@[k].name@ + "."@
                    + format.ending(),
            forall|k: int|
                0 <= k < i ==> table_written(*data, format, flags, k) == Some(
                    (#[trigger] files@[k]).1@,
                ),
        decreases data.tables@.len() - i,
    {
        let t = &data.tables[i];
        let schema: Option<&str> = if flags.no_schema_qualifier {
            None
        } else {
            match &t.schema {
                Some(s) => Some(s.as_str()),
                None => None,
            }
        };
        let table = ExportTable {
            name: t.name.as_str(),
            columns: t.columns.as_slice(),
            rows: &t.rows,
            schema,
        };
        match export::export(&table, format, data.dialect.as_str()) {
            Ok(s) => {
                files.push((format.file_name(t.name.as_str()), s));
            },
            Err(m) => {
                proof {
                    assert forall|k: int| 0 <= k < i implies #[trigger] table_written(
                        *data,
                        format,
                        flags,
                        k,
                    ) is Some by {
                        assert(table_written(*data, format, flags, k) == Some(files@[k].1@));
                    }
                    assert(first_unwritten(*data, format, flags, i as int));
                }
                return Err(m);
            },
        }
        i = i + 1;
    }
    Ok(files)
}

/// The name of a coverage status.
pub open spec fn status_name(s: CoverageStatus) -> Seq<char> {
    match s {
        CoverageStatus::Pass => "Pass"@,
        CoverageStatus::Warn => "Warn"@,
        CoverageStatus::Fail => "Fail"@,
    }
}

/// What is said of the coverage of a branch.
pub open spec fn branch_text(o: BranchOutcome, target: Seq<char>, actual: Seq<char>) -> Seq<char> {
    "branch '"@ + o.id@ + "': target "@ + target + ", actual "@ + actual + " ("@ + status_name(
        o.status,
    ) + ", "@ + text::digits(o.rounds as nat) + " round(s), "@ + text::digits(o.flips as nat)
        + " row(s) rewritten, "@ + text::digits(o.failed_evaluations as nat)
        + " evaluation failure(s))"@
}

/// Says what the coverage of a branch is, and whether that is a warning: a target
/// that was missed does not fail a run.
pub fn branch_line(o: &BranchOutcome, target: &str, actual: &str) -> (r: (bool, String))
    ensures
        r.0 == (o.status != CoverageStatus::Pass),
        r.1@ == (if o.status == CoverageStatus::Pass {
            branch_text(*o, target@, actual@)
        } else {
            "warning: "@ + branch_text(*o, target@, actual@)
        }),
{
    let name = match o.status {
        CoverageStatus::Pass => "Pass",
        CoverageStatus::Warn => "Warn",
        CoverageStatus::Fail => "Fail",
    };
    let mut line = text::around("branch '", o.id.as_str(), "': target ");
    text::push_text(&mut line, target);
    text::push_text(&mut line, ", actual ");
    text::push_text(&mut line, actual);
    text::push_text(&mut line, " (");
    text::push_text(&mut line, name);
    text::push_text(&mut line, ", ");
    text::push_text(&mut line, text::number_text(o.rounds).as_str());
    text::push_text(&mut line, " round(s), ");
    text::push_text(&mut line, text::wide_text(o.flips).as_str());
    text::push_text(&mut line, " row(s) rewritten, ");
    text::push_text(&mut line, text::number_text(o.failed_evaluations).as_str());
    text::push_text(&mut line, " evaluation failure(s))");
    match o.status {
        CoverageStatus::Pass => (false, line),
        _ => {
            let mut w = "warning: ".to_owned();
            text::push_text(&mut w, line.as_str());
            (true, w)
        },
    }
}

/// Values with their shares, as they are listed.
pub open spec fn share_texts(shares: Seq<(String, String)>) -> Seq<Seq<char>> {
    Seq::new(shares.len(), |i: int| shares[i].0@ + "="@ + shares[i].1@)
}

fn write_shares(shares: &Vec<(String, String)>) -> (r: String)
    ensures
        r@ == text::joined(share_texts(shares@), ", "@),
{
    let ghost want = share_texts(shares@);
    let mut parts: Vec<String> = Vec::new();
    let mut i: usize = 0;
    while i < shares.len()
        invariant
            i <= shares@.len(),
            want == share_texts(shares@),
            parts.deep_view() == want.take(i as int),
        decreases shares@.len() - i,
    {
        let ghost before = parts.deep_view();
        parts.push(text::around(shares[i].0.as_str(), "=", shares[i].1.as_str()));
        proof {
            assert(parts.deep_view() =~= before.push(want[i as int]));
            assert(want.take(i + 1) =~= want.take(i as int).push(want[i as int]));
        }
        i = i + 1;
    }
    proof {
        assert(want.take(want.len() as int) =~= want);
    }
    text::join(parts.as_slice(), ", ")
}

/// Warns that the shares of a pool's values are not what was declared.
pub fn pool_warning(
    table: &str,
    column: &str,
    deviation: &str,
    tolerance: &str,
    declared: &Vec<(String, String)>,
    actual: &Vec<(String, String)>,
) -> (r: String)
    ensures
        r@ == "warning: table '"@ + table@ + "' column '"@ + column@
            + "': generated shares deviate from the declared weights by "@ + deviation@
            + " (tolerance "@ + tolerance@ + "); declared ["@ + text::joined(
            share_texts(declared@),
            ", "@,
        ) + "] actual ["@ + text::joined(share_texts(actual@), ", "@) + "]"@,
{
    let wanted = write_shares(declared);
    let found = write_shares(actual);
    let mut w = text::around("warning: table '", table, "' column '");
    text::push_text(&mut w, column);
    text::push_text(&mut w, "': generated shares deviate from the declared weights by ");
    text::push_text(&mut w, deviation);
    text::push_text(&mut w, " (tolerance ");
    text::push_text(&mut w, tolerance);
    text::push_text(&mut w, "); declared [");
    text::push_text(&mut w, wanted.as_str());
    text::push_text(&mut w, "] actual [");
    text::push_text(&mut w, found.as_str());
    text::push_text(&mut w, "]");
    w
}

/// What is said of a model that could be read.
pub open spec fn validation_of(m: TableModel, dimensions: nat) -> Seq<Seq<char>> {
    seq![
        "Model validation passed:"@,
        "  Table: "@ + m.table@,
        "  Columns: "@ + text::digits(m.columns@.len()),
        "  Copula dimension: "@ + text::digits(dimensions),
        "  Dialect: "@ + m.dialect@,
        if m.pk@.len() == 0 {
            "  Primary key: (none)"@
        } else {
            "  Primary key: "@ + text::joined(m.pk.deep_view(), ", "@)
        },
    ]
}

fn labelled(label: &str, v: &str) -> (r: String)
    ensures
        r@ == label@ + v@,
{
    let mut r = label.to_owned();
    text::push_text(&mut r, v);
    r
}

/// The lines that are said of a model that could be read.
pub fn validation_lines(m: &TableModel, dimensions: usize) -> (r: Vec<String>)
    ensures
        r.deep_view() == validation_of(*m, dimensions as nat),
{
    let mut lines: Vec<String> = Vec::new();
    lines.push("Model validation passed:".to_owned());
    lines.push(labelled("  Table: ", m.table.as_str()));
    lines.push(labelled("  Columns: ", text::number_text(m.columns.len()).as_str()));
    lines.push(labelled("  Copula dimension: ", text::number_text(dimensions).as_str()));
    lines.push(labelled("  Dialect: ", m.dialect.as_str()));
    if m.pk.len() == 0 {
        lines.push("  Primary key: (none)".to_owned());
    } else {
        let list = text::join(m.pk.as_slice(), ", ");
        lines.push(labelled("  Primary key: ", list.as_str()));
    }
    proof {
        assert(lines.deep_view() =~= validation_of(*m, dimensions as nat));
    }
    lines
}

} // verus!

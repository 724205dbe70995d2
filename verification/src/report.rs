//! The quality report: what is missing, what is skipped, and when it fails.
use crate::cardinality;
use crate::fk_pool;
use crate::model::TableModel;
use crate::names;
use crate::text;
use crate::train_run;
use crate::training::LearnedKey;
use crate::value::Value;
use vstd::prelude::*;

verus! {

/// A part of a table's report.
#[derive(Debug)]
pub enum Section {
    Skipped { reason: String },
    Scored,
}

/// A section that was skipped for a reason.
pub open spec fn is_skipped(s: Section, reason: Seq<char>) -> bool {
    match s {
        Section::Skipped { reason: r } => r@ == reason,
        Section::Scored => false,
    }
}

/// What is reported of a table.
#[derive(Debug)]
pub struct TableQuality {
    pub table: String,
    pub rows: usize,
    pub shapes: Section,
    pub pairs: Section,
    pub fk: Section,
    pub scored: bool,
}

/// A section that is skipped.
pub fn skipped_section(reason: &str) -> (r: Section)
    ensures
        is_skipped(r, reason@),
{
    Section::Skipped { reason: reason.to_owned() }
}

/// The report of a table without data: every section is skipped for the same
/// reason.
pub fn missing_data_quality(table: &str, reason: &str) -> (r: TableQuality)
    ensures
        r.table@ == table@,
        r.rows == 0,
        is_skipped(r.shapes, reason@),
        is_skipped(r.pairs, reason@),
        is_skipped(r.fk, reason@),
        !r.scored,
{
    TableQuality {
        table: table.to_owned(),
        rows: 0,
        shapes: skipped_section(reason),
        pairs: skipped_section(reason),
        fk: skipped_section(reason),
        scored: false,
    }
}

/// Why a table has no data.
pub fn missing_reason(table: &str, dir: Option<&str>) -> (r: String)
    ensures
        r@ == reason_of(table@, dir),
{
    let mut r = "no generated data for table '".to_owned();
    text::push_text(&mut r, table);
    match dir {
        Some(d) => {
            let ghost so_far = r@;
            text::push_text(&mut r, "' in ");
            text::push_text(&mut r, d);
            proof {
                assert(r@ =~= so_far + ("' in "@ + d@));
            }
        },
        None => {
            text::push_text(&mut r, "'");
        },
    }
    r
}

/// Names as they are written in a list for debugging.
pub open spec fn debug_forms(list: Seq<Seq<char>>) -> Seq<Seq<char>> {
    Seq::new(list.len(), |i: int| text::debug_form(list[i]))
}

pub open spec fn debug_list(list: Seq<Seq<char>>) -> Seq<char> {
    "["@ + text::joined(debug_forms(list), ", "@) + "]"@
}

pub(crate) fn write_debug_list(list: &[String]) -> (r: String)
    ensures
        r@ == debug_list(list.deep_view()),
{
    let mut forms: Vec<String> = Vec::new();
    let ghost want = debug_forms(list.deep_view());
    let mut i: usize = 0;
    while i < list.len()
        invariant
            i <= list@.len(),
            want == debug_forms(list.deep_view()),
            forms.deep_view() == want.take(i as int),
        decreases list@.len() - i,
    {
        let ghost before = forms.deep_view();
        forms.push(text::debug_text(list[i].as_str()));
        proof {
            assert(list.deep_view()[i as int] == list@[i as int]@);
            assert(forms.deep_view() =~= before.push(want[i as int]));
            assert(want.take(i + 1) =~= want.take(i as int).push(want[i as int]));
        }
        i = i + 1;
    }
    proof {
        assert(want.take(want.len() as int) =~= want);
    }
    let inner = text::join(forms.as_slice(), ", ");
    text::around("[", inner.as_str(), "]")
}

/// The warning about a table without a baseline.
pub open spec fn baseline_warning(table: Seq<char>) -> Seq<char> {
    "warning: table '"@ + table + "': no report baseline; shapes and pairs will be skipped"@
}

/// Tables without a baseline fail a strict report, and are warned about otherwise.
pub fn check_baselines(strict: bool, missing: &[String]) -> (r: Result<Vec<String>, String>)
    ensures
        match r {
            Ok(warnings) => {
                &&& !strict || missing@.len() == 0
                &&& warnings@.len() == missing@.len()
                &&& forall|i: int|
                    0 <= i < warnings@.len() ==> (#[trigger] warnings@[i])@ == baseline_warning(
                        missing@[i]@,
                    )
            },
            Err(m) => strict && missing@.len() > 0 && m@ == "--strict: no report baseline for "@
                + debug_list(missing.deep_view())
                + " (retrain with --holdout-ratio > 0)"@,
        },
{
    if strict && missing.len() > 0 {
        let list = write_debug_list(missing);
        return Err(
            text::around(
                "--strict: no report baseline for ",
                list.as_str(),
                " (retrain with --holdout-ratio > 0)",
            ),
        );
    }
    let mut warnings: Vec<String> = Vec::new();
    let mut i: usize = 0;
    while i < missing.len()
        invariant
            i <= missing@.len(),
            warnings@.len() == i,
            forall|k: int|
                0 <= k < i ==> (#[trigger] warnings@[k])@ == baseline_warning(missing@[k]@),
        decreases missing@.len() - i,
    {
        warnings.push(
            text::around(
                "warning: table '",
                missing[i].as_str(),
                "': no report baseline; shapes and pairs will be skipped",
            ),
        );
        i = i + 1;
    }
    Ok(warnings)
}

/// The names that are not in a list.
pub open spec fn absent(all: Seq<Seq<char>>, list: Seq<Seq<char>>) -> Seq<Seq<char>>
    decreases all.len(),
{
    if all.len() == 0 {
        Seq::empty()
    } else {
        let before = absent(all.drop_last(), list);
        if list.contains(all.last()) {
            before
        } else {
            before.push(all.last())
        }
    }
}

fn find_absent(all: &[String], list: &[String]) -> (r: Vec<String>)
    ensures
        r.deep_view() == absent(all.deep_view(), list.deep_view()),
{
    let ghost everything = all.deep_view();
    let mut out: Vec<String> = Vec::new();
    let mut i: usize = 0;
    proof {
        assert(everything.take(0) =~= Seq::empty());
        assert(out.deep_view() =~= Seq::empty());
    }
    while i < all.len()
        invariant
            i <= all@.len(),
            everything == all.deep_view(),
            out.deep_view() == absent(everything.take(i as int), list.deep_view()),
        decreases all@.len() - i,
    {
        let ghost before = out.deep_view();
        proof {
            assert(everything.take(i + 1).drop_last() =~= everything.take(i as int));
            assert(everything.take(i + 1).last() == all@[i as int]@);
        }
        if !names::has(list, all[i].as_str()) {
            out.push(all[i].clone());
            proof {
                assert(out.deep_view() =~= before.push(all@[i as int]@));
            }
        }
        i = i + 1;
    }
    proof {
        assert(everything.take(everything.len() as int) =~= everything);
    }
    out
}

/// Models without generated data fail a strict report.
pub fn check_data(strict: bool, models: &[String], generated: &[String]) -> (r: Result<(), String>)
    ensures
        ({
            let missing = absent(models.deep_view(), generated.deep_view());
            match r {
                Ok(_) => !strict || missing.len() == 0,
                Err(m) => strict && missing.len() > 0 && m@
                    == "--strict: no generated data for "@ + debug_list(names::sorted(missing))
                    + " (pass --data including those tables, or narrow --models)"@,
            }
        }),
{
    if !strict {
        return Ok(());
    }
    let missing = find_absent(models, generated);
    proof {
        assert(missing.deep_view().len() == missing@.len());
    }
    if missing.len() == 0 {
        return Ok(());
    }
    let ordered = names::sort(missing.as_slice());
    let list = write_debug_list(ordered.as_slice());
    Err(
        text::around(
            "--strict: no generated data for ",
            list.as_str(),
            " (pass --data including those tables, or narrow --models)",
        ),
    )
}

/// A table that has no score, with the reason that its first section gives.
pub open spec fn unscored_text(t: TableQuality) -> Seq<char> {
    t.table@ + " ("@ + (match t.shapes {
        Section::Skipped { reason } => reason@,
        Section::Scored => "no scored section"@,
    }) + ")"@
}

/// The tables that have no score.
pub open spec fn unscored(tables: Seq<TableQuality>) -> Seq<Seq<char>>
    decreases tables.len(),
{
    if tables.len() == 0 {
        Seq::empty()
    } else {
        let before = unscored(tables.drop_last());
        if tables.last().scored {
            before
        } else {
            before.push(unscored_text(tables.last()))
        }
    }
}

fn list_unscored(tables: &[TableQuality]) -> (r: Vec<String>)
    ensures
        r.deep_view() == unscored(tables@),
{
    let mut out: Vec<String> = Vec::new();
    let mut i: usize = 0;
    proof {
        assert(tables@.take(0) =~= Seq::empty());
        assert(out.deep_view() =~= Seq::empty());
    }
    while i < tables.len()
        invariant
            i <= tables@.len(),
            out.deep_view() == unscored(tables@.take(i as int)),
        decreases tables@.len() - i,
    {
        let ghost before = out.deep_view();
        proof {
            assert(tables@.take(i + 1).drop_last() =~= tables@.take(i as int));
            assert(tables@.take(i + 1).last() == tables@[i as int]);
        }
        if !tables[i].scored {
            let mut line = text::around(tables[i].table.as_str(), " (", "");
            match &tables[i].shapes {
                Section::Skipped { reason } => {
                    text::push_text(&mut line, reason.as_str());
                },
                Section::Scored => {
                    text::push_text(&mut line, "no scored section");
                },
            }
            text::push_text(&mut line, ")");
            let ghost l = line@;
            proof {
                reveal_strlit("");
                assert(tables@[i as int].table@ + " ("@ + ""@ =~= tables@[i as int].table@
                    + " ("@);
            }
            out.push(line);
            proof {
                assert(out.deep_view() =~= before.push(l));
            }
        }
        i = i + 1;
    }
    proof {
        assert(tables@.take(tables@.len() as int) =~= tables@);
    }
    out
}

/// Whether a report may be held against a score: every table must have one.
pub fn check_scored(tables: &[TableQuality], min_score: &str, overall: bool) -> (r: Result<
    (),
    String,
>)
    ensures
        ({
            let missing = unscored(tables@);
            match r {
                Ok(_) => missing.len() == 0 && overall,
                Err(m) => {
                    ||| missing.len() > 0 && m@ == "--min-score "@ + min_score@
                        + " requires every table to be scored, but "@ + text::digits(
                        missing.len(),
                    ) + " could not be: "@ + text::joined(names::sorted(missing), "; "@)
                    ||| missing.len() == 0 && !overall && m@ == "--min-score "@ + min_score@
                        + " cannot be checked: no section was scored"@
                },
            }
        }),
{
    let missing = list_unscored(tables);
    proof {
        assert(missing.deep_view().len() == missing@.len());
    }
    if missing.len() > 0 {
        let ordered = names::sort(missing.as_slice());
        let list = text::join(ordered.as_slice(), "; ");
        let mut m = text::around(
            "--min-score ",
            min_score,
            " requires every table to be scored, but ",
        );
        text::push_text(&mut m, text::number_text(missing.len()).as_str());
        text::push_text(&mut m, " could not be: ");
        text::push_text(&mut m, list.as_str());
        return Err(m);
    }
    if !overall {
        return Err(
            text::around("--min-score ", min_score, " cannot be checked: no section was scored"),
        );
    }
    Ok(())
}

/// A report needs models.
pub fn check_models(dir: &str, models: usize) -> (r: Result<(), String>)
    ensures
        match r {
            Ok(_) => models > 0,
            Err(m) => models == 0 && m@ == "no trained models found in "@ + dir@
                + " (expected <table>.model.json)"@,
        },
{
    if models == 0 {
        return Err(
            text::around("no trained models found in ", dir, " (expected <table>.model.json)"),
        );
    }
    Ok(())
}

/// Two sections say the same.
pub open spec fn same_section(a: Section, b: Section) -> bool {
    match (a, b) {
        (Section::Skipped { reason: x }, Section::Skipped { reason: y }) => x@ == y@,
        (Section::Scored, Section::Scored) => true,
        _ => false,
    }
}

/// The same is reported of a table.
pub open spec fn same_quality(a: TableQuality, b: TableQuality) -> bool {
    &&& a.table@ == b.table@
    &&& a.rows == b.rows
    &&& same_section(a.shapes, b.shapes)
    &&& same_section(a.pairs, b.pairs)
    &&& same_section(a.fk, b.fk)
    &&& a.scored == b.scored
}

fn copy_section(s: &Section) -> (r: Section)
    ensures
        same_section(r, *s),
{
    match s {
        Section::Skipped { reason } => Section::Skipped { reason: reason.clone() },
        Section::Scored => Section::Scored,
    }
}

fn copy_quality(q: &TableQuality) -> (r: TableQuality)
    ensures
        same_quality(r, *q),
{
    TableQuality {
        table: q.table.clone(),
        rows: q.rows,
        shapes: copy_section(&q.shapes),
        pairs: copy_section(&q.pairs),
        fk: copy_section(&q.fk),
        scored: q.scored,
    }
}

/// What was evaluated of a table.
pub open spec fn evaluation(evaluated: Seq<TableQuality>, table: Seq<char>) -> Option<TableQuality>
    decreases evaluated.len(),
{
    if evaluated.len() == 0 {
        None
    } else if evaluated[0].table@ == table {
        Some(evaluated[0])
    } else {
        evaluation(evaluated.skip(1), table)
    }
}

fn find_evaluation<'a>(evaluated: &'a [TableQuality], table: &str) -> (r: Option<&'a TableQuality>)
    ensures
        match r {
            Some(q) => evaluation(evaluated@, table@) == Some(*q) && q.table@ == table@,
            None => evaluation(evaluated@, table@) is None,
        },
{
    let mut i: usize = 0;
    proof {
        assert(evaluated@.skip(0) =~= evaluated@);
    }
    while i < evaluated.len()
        invariant
            i <= evaluated@.len(),
            evaluation(evaluated@, table@) == evaluation(evaluated@.skip(i as int), table@),
        decreases evaluated@.len() - i,
    {
        proof {
            assert(evaluated@.skip(i as int).skip(1) =~= evaluated@.skip(i + 1));
        }
        if text::same(evaluated[i].table.as_str(), table) {
            return Some(&evaluated[i]);
        }
        i = i + 1;
    }
    None
}

/// Why a table is skipped that has no data.
pub open spec fn reason_of(table: Seq<char>, dir: Option<&str>) -> Seq<char> {
    "no generated data for table '"@ + table + (match dir {
        Some(d) => "' in "@ + d@,
        None => "'"@,
    })
}

/// What is reported of a table: what was evaluated, or that it has no data.
pub open spec fn reported_as(
    evaluated: Seq<TableQuality>,
    dir: Option<&str>,
    table: Seq<char>,
    q: TableQuality,
) -> bool {
    match evaluation(evaluated, table) {
        Some(e) => same_quality(q, e),
        None => {
            &&& q.table@ == table
            &&& q.rows == 0
            &&& is_skipped(q.shapes, reason_of(table, dir))
            &&& is_skipped(q.pairs, reason_of(table, dir))
            &&& is_skipped(q.fk, reason_of(table, dir))
            &&& !q.scored
        },
    }
}

/// The rows of a report, one for each model, in the order of their names.
pub fn report_tables(models: &[String], dir: Option<&str>, evaluated: &[TableQuality]) -> (r: Vec<
    TableQuality,
>)
    ensures
        r@.len() == models@.len(),
        forall|i: int|
            0 <= i < r@.len() ==> reported_as(
                evaluated@,
                dir,
                names::sorted(models.deep_view())[i],
                #[trigger] r@[i],
            ),
        forall|i: int|
            0 <= i < r@.len() ==> (#[trigger] r@[i]).table@ == names::sorted(
                models.deep_view(),
            )[i],
{
    let ordered = names::sort(models);
    let ghost all = ordered.deep_view();
    let mut out: Vec<TableQuality> = Vec::new();
    let mut i: usize = 0;
    proof {
        assert(all.len() == ordered@.len());
        assert(models.deep_view().len() == models@.len());
    }
    while i < ordered.len()
        invariant
            i <= ordered@.len(),
            all == ordered.deep_view(),
            out@.len() == i,
            forall|k: int|
                0 <= k < i ==> reported_as(evaluated@, dir, all[k], #[trigger] out@[k]),
            forall|k: int| 0 <= k < i ==> (#[trigger] out@[k]).table@ == all[k],
        decreases ordered@.len() - i,
    {
        proof {
            assert(all[i as int] == ordered@[i as int]@);
        }
        match find_evaluation(evaluated, ordered[i].as_str()) {
            Some(q) => {
                out.push(copy_quality(q));
            },
            None => {
                let reason = missing_reason(ordered[i].as_str(), dir);
                out.push(missing_data_quality(ordered[i].as_str(), reason.as_str()));
            },
        }
        i = i + 1;
    }
    out
}

/// A table without a score is named when the score is asked for, so that a report
/// is never accepted for the tables that it leaves out.
pub proof fn lemma_unscored_is_named(tables: Seq<TableQuality>, i: int)
    requires
        0 <= i < tables.len(),
        !tables[i].scored,
    ensures
        unscored(tables).len() > 0,
        unscored(tables).contains(unscored_text(tables[i])),
    decreases tables.len(),
{
    let all = unscored(tables);
    let before = unscored(tables.drop_last());
    if i < tables.len() - 1 {
        lemma_unscored_is_named(tables.drop_last(), i);
        let k = choose|k: int|
            0 <= k < before.len() && before[k] == unscored_text(tables.drop_last()[i]);
        assert(all[k] == unscored_text(tables[i]));
    } else {
        assert(all[all.len() - 1] == unscored_text(tables[i]));
    }
}

/// A pair of names stands before another.
pub open spec fn pair_before(a: (Seq<char>, Seq<char>), b: (Seq<char>, Seq<char>)) -> bool {
    text::before(a.0, b.0) || (a.0 == b.0 && text::before(a.1, b.1))
}

/// Pairs in order, each once.
pub open spec fn pairs_ascending(list: Seq<(Seq<char>, Seq<char>)>) -> bool {
    forall|i: int, j: int|
        0 <= i < j < list.len() ==> pair_before(#[trigger] list[i], #[trigger] list[j])
}

proof fn lemma_pair_before(
    a: (Seq<char>, Seq<char>),
    b: (Seq<char>, Seq<char>),
    c: (Seq<char>, Seq<char>),
)
    requires
        pair_before(a, b),
        pair_before(b, c),
    ensures
        pair_before(a, c),
{
    if text::before(a.0, b.0) && text::before(b.0, c.0) {
        text::lemma_before_trans(a.0, b.0, c.0);
    }
    if text::before(a.1, b.1) && text::before(b.1, c.1) {
        text::lemma_before_trans(a.1, b.1, c.1);
    }
}

fn insert_pair(list: &mut Vec<(String, String)>, a: &str, b: &str)
    requires
        pairs_ascending(train_run::pairs_of(old(list)@)),
    ensures
        pairs_ascending(train_run::pairs_of(final(list)@)),
        forall|q: (Seq<char>, Seq<char>)| #[trigger]
            train_run::pairs_of(final(list)@).contains(q) <==> q == (a@, b@)
                || train_run::pairs_of(old(list)@).contains(q),
{
    let ghost all = train_run::pairs_of(list@);
    let ghost p = (a@, b@);
    let mut i: usize = 0;
    while i < list.len() && (text::is_before(list[i].0.as_str(), a) || (text::same(
        list[i].0.as_str(),
        a,
    ) && text::is_before(list[i].1.as_str(), b)))
        invariant
            i <= list@.len(),
            all == train_run::pairs_of(list@),
            p == (a@, b@),
            forall|k: int| 0 <= k < i ==> pair_before(#[trigger] all[k], p),
        decreases list@.len() - i,
    {
        proof {
            assert(all[i as int] == (list@[i as int].0@, list@[i as int].1@));
        }
        i = i + 1;
    }
    if i < list.len() && text::same(list[i].0.as_str(), a) && text::same(list[i].1.as_str(), b) {
        proof {
            assert(all[i as int] == p);
        }
        return ;
    }
    proof {
        if i < list@.len() {
            assert(all[i as int] == (list@[i as int].0@, list@[i as int].1@));
            text::lemma_before_total(a@, all[i as int].0);
            text::lemma_before_total(b@, all[i as int].1);
            assert(pair_before(p, all[i as int]));
        }
    }
    list.insert(i, (a.to_owned(), b.to_owned()));
    proof {
        let now = train_run::pairs_of(list@);
        assert(now =~= all.insert(i as int, p));
        assert forall|x: int, y: int| 0 <= x < y < now.len() implies pair_before(
            #[trigger] now[x],
            #[trigger] now[y],
        ) by {
            let k: int = i as int;
            let vx = if x < k {
                all[x]
            } else if x == k {
                p
            } else {
                all[x - 1]
            };
            let vy = if y < k {
                all[y]
            } else if y == k {
                p
            } else {
                all[y - 1]
            };
            assert(now[x] == vx && now[y] == vy);
            if x == k && y > k + 1 {
                lemma_pair_before(p, all[k], all[y - 1]);
            }
        }
        assert forall|q: (Seq<char>, Seq<char>)| #[trigger]
            now.contains(q) <==> q == p || all.contains(q) by {
            assert(now[i as int] == p);
            if all.contains(q) {
                let k = choose|k: int| 0 <= k < all.len() && all[k] == q;
                if k < i {
                    assert(now[k] == q);
                } else {
                    assert(now[k + 1] == q);
                }
            }
            if now.contains(q) {
                let k = choose|k: int| 0 <= k < now.len() && now[k] == q;
                if k < i {
                    assert(all[k] == q);
                } else if k > i {
                    assert(all[k - 1] == q);
                }
            }
        }
    }
}

/// The parent keys that foreign keys refer to, in order, each once.
pub fn wanted_keys(relations: &Vec<(String, String)>) -> (r: Vec<(String, String)>)
    ensures
        pairs_ascending(train_run::pairs_of(r@)),
        forall|q: (Seq<char>, Seq<char>)| #[trigger]
            train_run::pairs_of(r@).contains(q) <==> train_run::pairs_of(relations@).contains(q),
{
    let ghost all = train_run::pairs_of(relations@);
    let mut out: Vec<(String, String)> = Vec::new();
    let mut i: usize = 0;
    while i < relations.len()
        invariant
            i <= relations@.len(),
            all == train_run::pairs_of(relations@),
            pairs_ascending(train_run::pairs_of(out@)),
            forall|q: (Seq<char>, Seq<char>)| #[trigger]
                train_run::pairs_of(out@).contains(q) <==> all.take(i as int).contains(q),
        decreases relations@.len() - i,
    {
        let ghost before = train_run::pairs_of(out@);
        insert_pair(&mut out, relations[i].0.as_str(), relations[i].1.as_str());
        proof {
            let was = all.take(i as int);
            let now = all.take(i + 1);
            assert(now =~= was.push(all[i as int]));
            assert forall|q: (Seq<char>, Seq<char>)| #[trigger]
                train_run::pairs_of(out@).contains(q) <==> now.contains(q) by {
                assert(now[i as int] == all[i as int]);
                assert(before.contains(q) <==> was.contains(q));
                if was.contains(q) {
                    let k = choose|k: int| 0 <= k < was.len() && was[k] == q;
                    assert(now[k] == q);
                }
                if now.contains(q) {
                    let k = choose|k: int| 0 <= k < now.len() && now[k] == q;
                    if k < i {
                        assert(was[k] == q);
                    }
                }
            }
        }
        i = i + 1;
    }
    proof {
        assert(all.take(all.len() as int) =~= all);
    }
    out
}

/// What is said of a score that is held against a limit.
pub fn judge_score(below: bool, score: &str, min_score: &str) -> (r: Result<String, String>)
    ensures
        match r {
            Ok(s) => !below && s@ == "quality score "@ + score@ + " >= --min-score "@ + min_score@,
            Err(m) => below && m@ == "quality score "@ + score@ + " is below --min-score "@
                + min_score@,
        },
{
    if below {
        let mut m = text::around("quality score ", score, " is below --min-score ");
        text::push_text(&mut m, min_score);
        Err(m)
    } else {
        let mut s = text::around("quality score ", score, " >= --min-score ");
        text::push_text(&mut s, min_score);
        Ok(s)
    }
}

/// The connection that is asked for: the default one where the name is empty.
pub fn connection_name(given: &str) -> (r: Option<String>)
    ensures
        r.deep_view() == (if given@.len() == 0 {
            None
        } else {
            Some(given@)
        }),
{
    proof {
        reveal_strlit("");
        if given@.len() == 0 {
            assert(given@ =~= ""@);
        }
    }
    if text::same(given, "") {
        None
    } else {
        Some(given.to_owned())
    }
}

/// How many keys are read from a database at most.
pub const KEY_POOL_LIMIT: usize = 100_000;

/// The keys of rows: the first cell of each, unless it is NULL.
pub open spec fn first_keys(rows: Seq<Vec<Value>>) -> Seq<Seq<char>>
    decreases rows.len(),
{
    if rows.len() == 0 {
        Seq::empty()
    } else {
        let before = first_keys(rows.drop_last());
        if rows.last()@.len() > 0 && !(rows.last()@[0]@ is Null) {
            before.push(fk_pool::cell_key(rows.last()@[0]@))
        } else {
            before
        }
    }
}

/// The keys of a pool that was read, and the warning where it hit the limit.
pub fn read_key_pool(table: &str, column: &str, rows: &Vec<Vec<Value>>) -> (r: (
    Vec<String>,
    Option<String>,
))
    ensures
        r.0.deep_view() == first_keys(rows@),
        match r.1 {
            Some(w) => first_keys(rows@).len() >= KEY_POOL_LIMIT && w@ == "warning: key pool "@
                + table@ + "."@ + column@ + " hit the "@ + text::digits(KEY_POOL_LIMIT as nat)
                + " key cap; join rates are computed against a truncated pool"@,
            None => first_keys(rows@).len() < KEY_POOL_LIMIT,
        },
{
    let mut out: Vec<String> = Vec::new();
    let mut i: usize = 0;
    proof {
        assert(rows@.take(0) =~= Seq::empty());
        assert(out.deep_view() =~= Seq::empty());
    }
    while i < rows.len()
        invariant
            i <= rows@.len(),
            out.deep_view() == first_keys(rows@.take(i as int)),
        decreases rows@.len() - i,
    {
        let ghost before = out.deep_view();
        proof {
            assert(rows@.take(i + 1).drop_last() =~= rows@.take(i as int));
            assert(rows@.take(i + 1).last() == rows@[i as int]);
        }
        if rows[i].len() > 0 && !rows[i][0].is_null() {
            out.push(fk_pool::value_key(&rows[i][0]));
            proof {
                assert(out.deep_view() =~= before.push(
                    fk_pool::cell_key(rows@[i as int]@[0]@),
                ));
            }
        }
        i = i + 1;
    }
    proof {
        assert(rows@.take(rows@.len() as int) =~= rows@);
        assert(out.deep_view().len() == out@.len());
    }
    if out.len() >= KEY_POOL_LIMIT {
        let mut w = text::around("warning: key pool ", table, ".");
        text::push_text(&mut w, column);
        text::push_text(&mut w, " hit the ");
        text::push_text(&mut w, text::number_text(KEY_POOL_LIMIT).as_str());
        text::push_text(&mut w, " key cap; join rates are computed against a truncated pool");
        (out, Some(w))
    } else {
        (out, None)
    }
}

/// What was learned of foreign keys, by table and column.
pub type Learned = (Seq<char>, Seq<char>, (Seq<(u64, usize)>, usize, usize, usize));

/// What the models have learned of their foreign keys.
pub open spec fn learned_of(models: Seq<TableModel>) -> Seq<Learned>
    decreases models.len(),
{
    if models.len() == 0 {
        Seq::empty()
    } else {
        let m = models.last();
        learned_of(models.drop_last()) + Seq::new(
            m.fk_cardinality@.len(),
            |i: int|
                (m.table@, m.fk_cardinality@[i].0@, cardinality::numbers_of(m.fk_cardinality@[i].1)),
        )
    }
}

pub open spec fn learned_views(list: Seq<LearnedKey>) -> Seq<Learned> {
    Seq::new(
        list.len(),
        |i: int| (list[i].table@, list[i].column@, cardinality::numbers_of(list[i].cardinality)),
    )
}

/// What the models have learned of their foreign keys.
pub fn learned_cardinality(models: &[TableModel]) -> (r: Vec<LearnedKey>)
    ensures
        learned_views(r@) == learned_of(models@),
{
    let mut out: Vec<LearnedKey> = Vec::new();
    let mut i: usize = 0;
    proof {
        assert(models@.take(0) =~= Seq::empty());
        assert(learned_views(out@) =~= Seq::empty());
    }
    while i < models.len()
        invariant
            i <= models@.len(),
            learned_views(out@) == learned_of(models@.take(i as int)),
        decreases models@.len() - i,
    {
        let ghost start = learned_views(out@);
        let m = &models[i];
        let ghost more = Seq::new(
            m.fk_cardinality@.len(),
            |k: int|
                (m.table@, m.fk_cardinality@[k].0@, cardinality::numbers_of(m.fk_cardinality@[k].1)),
        );
        proof {
            assert(models@.take(i + 1).drop_last() =~= models@.take(i as int));
            assert(models@.take(i + 1).last() == *m);
            assert(start + more.take(0) =~= start);
        }
        let mut k: usize = 0;
        while k < m.fk_cardinality.len()
            invariant
                k <= m.fk_cardinality@.len(),
                more == Seq::new(
                    m.fk_cardinality@.len(),
                    |k: int|
                        (m.table@, m.fk_cardinality@[k].0@, cardinality::numbers_of(m.fk_cardinality@[k].1)),
                ),
                learned_views(out@) == start + more.take(k as int),
            decreases m.fk_cardinality@.len() - k,
        {
            let ghost before = learned_views(out@);
            out.push(
                LearnedKey {
                    table: m.table.clone(),
                    column: m.fk_cardinality[k].0.clone(),
                    cardinality: cardinality::copy_cardinality(&m.fk_cardinality[k].1),
                },
            );
            proof {
                assert(learned_views(out@) =~= before.push(more[k as int]));
                assert(start + more.take(k + 1) =~= (start + more.take(k as int)).push(
                    more[k as int],
                ));
            }
            k = k + 1;
        }
        proof {
            assert(more.take(more.len() as int) =~= more);
        }
        i = i + 1;
    }
    proof {
        assert(models@.take(models@.len() as int) =~= models@);
    }
    out
}

} // verus!

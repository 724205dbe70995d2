//! Drafting rules from foreign keys: warnings before a draft is used.
use crate::graph;
use crate::mine::{MineReport, TableCandidates};
use crate::model::TableModel;
use crate::names;
use crate::pools;
use crate::rules::{SynthRules, TableRule, TableStrategy};
use crate::text;
use vstd::prelude::*;

verus! {

/// The warning about references that form a cycle.
pub open spec fn cycle_warning(m: Seq<char>) -> Seq<char> {
    "draft references form a "@ + m
        + " \u{2014} `synth generate` would fail. Review the relationships in this draft (same-name timestamp columns and self-references like employee.manager_id \u{2192} employee.id are common false positives) and delete the ones that are not real foreign keys."@
}

/// Warns where the references of drafted rules form a cycle, so that the tables
/// could not be generated.
pub fn draft_cycle_warning(rules: &SynthRules) -> (r: Option<String>)
    ensures
        ({
            let nodes = pools::table_names(rules.tables@);
            let edges = pools::table_edges(rules.tables@, nodes, false);
            match r {
                None => exists|order: Seq<Seq<char>>| #[trigger]
                    graph::settles(nodes, edges, order) && order.len() == nodes.len(),
                Some(w) => {
                    &&& exists|order: Seq<Seq<char>>| #[trigger]
                        graph::settles(nodes, edges, order) && order.len() != nodes.len()
                    &&& w@ == cycle_warning(
                        "cycle detected: "@ + graph::cycle_text(graph::first_cycle(nodes, edges)),
                    )
                },
            }
        }),
{
    let nodes = pools::name_tables(&rules.tables);
    let edges = pools::reference_edges_of(rules, false);
    proof {
        assert(graph::labels(nodes@) =~= nodes.deep_view());
        assert(graph::label_arcs(edges@) =~= pools::edge_texts(edges@));
        assert(nodes.deep_view().len() == nodes@.len());
    }
    match graph::topological_sort(nodes.as_slice(), edges.as_slice()) {
        Ok(order) => {
            proof {
                assert(graph::labels(order@).len() == order@.len());
            }
            None
        },
        Err(m) => Some(
            text::around(
                "draft references form a ",
                m.as_str(),
                " \u{2014} `synth generate` would fail. Review the relationships in this draft (same-name timestamp columns and self-references like employee.manager_id \u{2192} employee.id are common false positives) and delete the ones that are not real foreign keys.",
            ),
        ),
    }
}

/// Warns where profiles were trained but no keys are known: references could be
/// made up.
pub fn implicit_fk_warning(keys: usize, profiles: usize, models_dir: &str) -> (r: Option<String>)
    ensures
        match r {
            Some(w) => keys == 0 && profiles > 0 && w@ == "trained profiles in "@ + models_dir@
                + " carry no primary keys; implicit relationship detection cannot skip a child key and may invent references (retrain with `synth train` to restore it)"@,
            None => keys > 0 || profiles == 0,
        },
{
    if keys == 0 && profiles > 0 {
        Some(
            text::around(
                "trained profiles in ",
                models_dir,
                " carry no primary keys; implicit relationship detection cannot skip a child key and may invent references (retrain with `synth train` to restore it)",
            ),
        )
    } else {
        None
    }
}

/// The tables that have a key, each with the first column of its key.
pub open spec fn keys_of(models: Seq<TableModel>) -> Seq<(Seq<char>, Seq<char>)>
    decreases models.len(),
{
    if models.len() == 0 {
        Seq::empty()
    } else {
        let before = keys_of(models.drop_last());
        let last = models.last();
        if last.pk@.len() == 0 {
            before
        } else {
            before.push((last.table@, last.pk@[0]@))
        }
    }
}

/// The first key column of each table that has one.
pub fn load_primary_keys(models: &[TableModel]) -> (r: Vec<(String, String)>)
    ensures
        pools::edge_texts(r@) == keys_of(models@),
{
    let mut out: Vec<(String, String)> = Vec::new();
    let mut i: usize = 0;
    proof {
        assert(models@.take(0) =~= Seq::empty());
        assert(pools::edge_texts(out@) =~= Seq::empty());
    }
    while i < models.len()
        invariant
            i <= models@.len(),
            pools::edge_texts(out@) == keys_of(models@.take(i as int)),
        decreases models@.len() - i,
    {
        let ghost before = pools::edge_texts(out@);
        proof {
            assert(models@.take(i + 1).drop_last() =~= models@.take(i as int));
            assert(models@.take(i + 1).last() == models@[i as int]);
        }
        if models[i].pk.len() > 0 {
            out.push((models[i].table.clone(), models[i].pk[0].clone()));
            proof {
                assert(pools::edge_texts(out@) =~= before.push(
                    (models@[i as int].table@, models@[i as int].pk@[0]@),
                ));
            }
        }
        i = i + 1;
    }
    proof {
        assert(models@.take(models@.len() as int) =~= models@);
    }
    out
}

/// The names of models.
pub open spec fn model_names(models: Seq<TableModel>) -> Seq<Seq<char>> {
    Seq::new(models.len(), |i: int| models[i].table@)
}

/// A rule with a number of rows and nothing else.
pub open spec fn is_bare(t: TableRule, name: Seq<char>, rows: usize) -> bool {
    &&& t.name@ == name
    &&& t.rows == Some(rows)
    &&& t.strategy == TableStrategy::Uniform
    &&& t.columns@.len() == 0
    &&& t.relationships@.len() == 0
    &&& t.derive@.len() == 0
    &&& t.branches@.len() == 0
}

/// Rules that ask for a number of rows of every model, in the order of their
/// names, without relationships.
pub fn rules_from_models(models: &[TableModel], rows: usize) -> (r: SynthRules)
    ensures
        r.version@ == "1"@,
        r.tables@.len() == models@.len(),
        forall|i: int|
            0 <= i < r.tables@.len() ==> is_bare(
                #[trigger] r.tables@[i],
                names::sorted(model_names(models@))[i],
                rows,
            ),
{
    let mut list: Vec<String> = Vec::new();
    let ghost want = model_names(models@);
    let mut i: usize = 0;
    proof {
        assert(list.deep_view() =~= want.take(0));
    }
    while i < models.len()
        invariant
            i <= models@.len(),
            want == model_names(models@),
            list.deep_view() == want.take(i as int),
        decreases models@.len() - i,
    {
        let ghost before = list.deep_view();
        list.push(models[i].table.clone());
        proof {
            assert(list.deep_view() =~= before.push(want[i as int]));
            assert(want.take(i + 1) =~= want.take(i as int).push(want[i as int]));
        }
        i = i + 1;
    }
    proof {
        assert(want.take(want.len() as int) =~= want);
    }
    let ordered = names::sort(list.as_slice());
    let mut tables: Vec<TableRule> = Vec::new();
    let mut k: usize = 0;
    proof {
        assert(ordered.deep_view().len() == ordered@.len());
        assert(list.deep_view().len() == list@.len());
    }
    while k < ordered.len()
        invariant
            k <= ordered@.len(),
            tables@.len() == k,
            forall|j: int|
                0 <= j < k ==> is_bare(#[trigger] tables@[j], ordered.deep_view()[j], rows),
        decreases ordered@.len() - k,
    {
        tables.push(
            TableRule {
                name: ordered[k].clone(),
                rows: Some(rows),
                strategy: TableStrategy::Uniform,
                columns: Vec::new(),
                relationships: Vec::new(),
                derive: Vec::new(),
                branches: Vec::new(),
            },
        );
        k = k + 1;
    }
    SynthRules { version: "1".to_owned(), tables }
}

/// What is said of the mining of a table.
pub fn mining_line(table: &str, rows: usize, limit: usize, report: &MineReport) -> (r: String)
    ensures
        r@ == "mining table '"@ + table@ + "': sampled "@ + text::digits(rows as nat)
            + " row(s) (cap "@ + text::digits(limit as nat) + "), scanned "@ + text::digits(
            report.pairs_considered as nat,
        ) + " of "@ + text::digits(report.pairs_total as nat) + " column pair(s), "@
            + text::digits(report.candidates@.len()) + " candidate(s)"@ + (
        if report.pairs_considered < report.pairs_total {
            " - pair cap hit"@
        } else {
            ""@
        }),
{
    let mut r = text::around("mining table '", table, "': sampled ");
    text::push_text(&mut r, text::number_text(rows).as_str());
    text::push_text(&mut r, " row(s) (cap ");
    text::push_text(&mut r, text::number_text(limit).as_str());
    text::push_text(&mut r, "), scanned ");
    text::push_text(&mut r, text::number_text(report.pairs_considered).as_str());
    text::push_text(&mut r, " of ");
    text::push_text(&mut r, text::number_text(report.pairs_total).as_str());
    text::push_text(&mut r, " column pair(s), ");
    text::push_text(&mut r, text::number_text(report.candidates.len()).as_str());
    text::push_text(&mut r, " candidate(s)");
    if report.pairs_truncated() {
        text::push_text(&mut r, " - pair cap hit");
    } else {
        text::push_text(&mut r, "");
    }
    r
}

/// How many rows of a table are sampled for mining.
pub const MINE_SAMPLE_ROWS: usize = 50_000;

/// How many candidates were mined in all tables.
pub open spec fn mined_count(mined: Seq<TableCandidates>) -> nat
    decreases mined.len(),
{
    if mined.len() == 0 {
        0
    } else {
        mined_count(mined.drop_last()) + mined.last().candidates@.len()
    }
}

/// What is said of the candidates that were mined, where there are any.
pub fn mined_line(mined: &[TableCandidates]) -> (r: Option<String>)
    ensures
        match r {
            Some(s) => mined_count(mined@) > 0 && s@ == "mined "@ + text::digits(
                mined_count(mined@),
            ) + " conditional rule candidate(s); they are comments only (never enabled)"@,
            None => mined_count(mined@) == 0,
        },
{
    let mut total: u128 = 0;
    let mut i: usize = 0;
    proof {
        assert(mined@.take(0) =~= Seq::empty());
    }
    while i < mined.len()
        invariant
            i <= mined@.len(),
            total == mined_count(mined@.take(i as int)),
            total <= i * usize::MAX,
        decreases mined@.len() - i,
    {
        proof {
            assert(mined@.take(i + 1).drop_last() =~= mined@.take(i as int));
            assert(mined@.take(i + 1).last() == mined@[i as int]);
            assert(i * usize::MAX + usize::MAX == (i + 1) * usize::MAX) by (nonlinear_arith);
            assert((i + 1) * usize::MAX <= 0xffff_ffff_ffff_ffff * 0xffff_ffff_ffff_ffff)
                by (nonlinear_arith)
                requires
                    i + 1 <= usize::MAX,
                    usize::MAX <= 0xffff_ffff_ffff_ffff,
            ;
        }
        total = total + mined[i].candidates.len() as u128;
        i = i + 1;
    }
    proof {
        assert(mined@.take(mined@.len() as int) =~= mined@);
    }
    if total > 0 {
        Some(
            text::around(
                "mined ",
                text::wide_text(total).as_str(),
                " conditional rule candidate(s); they are comments only (never enabled)",
            ),
        )
    } else {
        None
    }
}

} // verus!

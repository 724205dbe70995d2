//! The parent keys that each relationship of a table draws from.
use crate::branch;
use crate::fk_pool;
use crate::fk_pool::{FkPool, SelectionStrategy, Weight};
use crate::model;
use crate::model::TableModel;
use crate::rules::{PoolStrategy, Relationship, SynthRules, TableRule, TableStrategy};
use crate::text;
use crate::value::{Cell, Value};
use vstd::prelude::*;

verus! {

/// The generated values of columns, by `table.column`.
pub struct ColumnPool {
    pub key: String,
    pub values: Vec<Value>,
}

/// What a column pool is.
pub type Pool = (Seq<char>, Seq<Cell>);

impl View for ColumnPool {
    type V = Pool;

    open spec fn view(&self) -> Pool {
        (self.key@, self.values.deep_view())
    }
}

impl DeepView for ColumnPool {
    type V = Pool;

    open spec fn deep_view(&self) -> Pool {
        self@
    }
}

/// The values of a column; of pools with one key the last counts.
pub open spec fn pool_at(pools: Seq<Pool>, key: Seq<char>) -> Option<Seq<Cell>>
    decreases pools.len(),
{
    if pools.len() == 0 {
        None
    } else if pools.last().0 == key {
        Some(pools.last().1)
    } else {
        pool_at(pools.drop_last(), key)
    }
}

/// A pool that is found is one of the pools.
pub proof fn lemma_pool_at(pools: Seq<Pool>, key: Seq<char>)
    ensures
        pool_at(pools, key) matches Some(cells) ==> exists|i: int|
            0 <= i < pools.len() && #[trigger] pools[i] == (key, cells),
    decreases pools.len(),
{
    if pools.len() > 0 {
        if pools.last().0 == key {
            assert(pools[pools.len() - 1] == (key, pools.last().1));
        } else {
            lemma_pool_at(pools.drop_last(), key);
            if let Some(cells) = pool_at(pools, key) {
                let rest = pools.drop_last();
                let i = choose|i: int| 0 <= i < rest.len() && #[trigger] rest[i] == (key, cells);
                assert(pools[i] == (key, cells));
            }
        }
    }
}

fn find_pool<'a>(pools: &'a Vec<ColumnPool>, key: &str) -> (r: Option<&'a Vec<Value>>)
    ensures
        match r {
            Some(v) => pool_at(pools.deep_view(), key@) == Some(v.deep_view()),
            None => pool_at(pools.deep_view(), key@) is None,
        },
{
    let ghost all = pools.deep_view();
    let mut i: usize = pools.len();
    proof {
        assert(all.take(all.len() as int) =~= all);
    }
    while i > 0
        invariant
            i <= pools@.len(),
            all == pools.deep_view(),
            pool_at(all, key@) == pool_at(all.take(i as int), key@),
        decreases i,
    {
        proof {
            assert(all.take(i as int).drop_last() =~= all.take(i - 1));
            assert(all.take(i as int).last() == all[i - 1]);
        }
        i = i - 1;
        if text::same(pools[i].key.as_str(), key) {
            return Some(&pools[i].values);
        }
    }
    None
}

/// A relationship and the pool it draws from.
pub struct RelPool {
    pub column: String,
    pub reference: String,
    pub pool: FkPool,
    pub strategy: SelectionStrategy,
    pub unique: bool,
    pub pool_size: usize,
}

/// What a relationship draws from.
pub struct Keys {
    pub column: Seq<char>,
    pub reference: Seq<char>,
    pub entries: Seq<Cell>,
    pub weights: Seq<Weight>,
    pub prepared: bool,
    pub strategy: SelectionStrategy,
    pub unique: bool,
    pub size: usize,
}

impl View for RelPool {
    type V = Keys;

    open spec fn view(&self) -> Keys {
        Keys {
            column: self.column@,
            reference: self.reference@,
            entries: self.pool.entries(),
            weights: self.pool.weight_list(),
            prepared: self.pool.is_prepared(),
            strategy: self.strategy,
            unique: self.unique,
            size: self.pool_size,
        }
    }
}

/// What relationships draw from.
pub open spec fn all_keys(rels: Seq<RelPool>) -> Seq<Keys> {
    Seq::new(rels.len(), |j: int| rels[j]@)
}

/// The strategy of a table's rule.
pub fn selection(strategy: TableStrategy) -> (r: SelectionStrategy)
    ensures
        r == chosen(strategy),
{
    match strategy {
        TableStrategy::Uniform => SelectionStrategy::Uniform,
        TableStrategy::Zipf => SelectionStrategy::Zipf,
        TableStrategy::Weighted => SelectionStrategy::Weighted,
    }
}

pub open spec fn chosen(strategy: TableStrategy) -> SelectionStrategy {
    match strategy {
        TableStrategy::Uniform => SelectionStrategy::Uniform,
        TableStrategy::Zipf => SelectionStrategy::Zipf,
        TableStrategy::Weighted => SelectionStrategy::Weighted,
    }
}

/// Texts as cells.
pub open spec fn text_cells(values: Seq<Seq<char>>) -> Seq<Cell> {
    Seq::new(values.len(), |i: int| Cell::Text(values[i]))
}

/// The values that a relationship draws from: the fixed ones, or those of the
/// column it refers to. Weighted drawing takes each of them once.
pub open spec fn source_of(rel: Relationship, pools: Seq<Pool>) -> Option<Seq<Cell>> {
    match rel.pool_strategy {
        PoolStrategy::Fixed { values } => Some(text_cells(values.deep_view())),
        _ => pool_at(pools, rel.references@[0]@),
    }
}

/// The entries of a relationship's pool.
pub open spec fn entries_of(source: Seq<Cell>, strategy: SelectionStrategy) -> Seq<Cell> {
    if strategy == SelectionStrategy::Weighted {
        fk_pool::firsts(source)
    } else {
        source
    }
}

/// The weights of a relationship's pool: one for each entry where it draws by
/// weight, none otherwise. Fixed values have no levels to weigh by.
pub open spec fn weights_of(
    rel: Relationship,
    source: Seq<Cell>,
    models: Seq<TableModel>,
    strategy: SelectionStrategy,
) -> Seq<Weight> {
    if strategy == SelectionStrategy::Weighted {
        let levels = match rel.pool_strategy {
            PoolStrategy::Fixed { .. } => None,
            _ => parent_levels(models, rel.references@[0]@),
        };
        let entries = fk_pool::firsts(source);
        Seq::new(entries.len(), |i: int| fk_pool::weight_of(source, levels, entries[i]))
    } else {
        Seq::empty()
    }
}

/// Whether a relationship uses each parent at most once.
pub open spec fn is_unique(rel: Relationship) -> bool {
    match rel.pool_strategy {
        PoolStrategy::Fixed { .. } => false,
        PoolStrategy::Projection { unique } => unique,
        PoolStrategy::Generated { unique } => unique,
    }
}

/// A relationship that has a pool.
pub open spec fn has_source(rel: Relationship, pools: Seq<Pool>) -> bool {
    rel.references@.len() > 0 && source_of(rel, pools) is Some
}

/// Why a relationship has no pool.
pub open spec fn source_fault(table: Seq<char>, rel: Relationship) -> Seq<char> {
    if rel.references@.len() == 0 {
        "relationship '"@ + rel.pk@ + "' has no references"@
    } else {
        "table '"@ + table + "' references '"@ + rel.references@[0]@
            + "' but that table.column was not generated first; add a rule and model for it"@
    }
}

/// A pool made for a relationship.
pub open spec fn pool_of(
    p: RelPool,
    rel: Relationship,
    pools: Seq<Pool>,
    models: Seq<TableModel>,
    strategy: SelectionStrategy,
) -> bool {
    &&& p.column@ == rel.pk@
    &&& p.reference@ == rel.references@[0]@
    &&& p.strategy == strategy
    &&& p.unique == is_unique(rel)
    &&& source_of(rel, pools) is Some
    &&& p.pool.entries() == entries_of(source_of(rel, pools)->0, strategy)
    &&& p.pool.weight_list() == weights_of(rel, source_of(rel, pools)->0, models, strategy)
    &&& p.pool_size == p.pool.entries().len()
    &&& !p.pool.is_prepared()
}

/// The model of a table.
pub open spec fn model_at(models: Seq<TableModel>, name: Seq<char>) -> Option<TableModel>
    decreases models.len(),
{
    if models.len() == 0 {
        None
    } else if models[0].table@ == name {
        Some(models[0])
    } else {
        model_at(models.skip(1), name)
    }
}

pub fn find_model<'a>(models: &'a [TableModel], name: &str) -> (r: Option<&'a TableModel>)
    ensures
        match r {
            Some(m) => model_at(models@, name@) == Some(*m),
            None => model_at(models@, name@) is None,
        },
{
    let mut i: usize = 0;
    proof {
        assert(models@.skip(0) =~= models@);
    }
    while i < models.len()
        invariant
            i <= models@.len(),
            model_at(models@, name@) == model_at(models@.skip(i as int), name@),
        decreases models@.len() - i,
    {
        proof {
            assert(models@.skip(i as int).skip(1) =~= models@.skip(i + 1));
        }
        if text::same(models[i].table.as_str(), name) {
            return Some(&models[i]);
        }
        i = i + 1;
    }
    None
}

/// The first dot of a text.
pub open spec fn first_dot(s: Seq<char>) -> int
    decreases s.len(),
{
    if s.len() == 0 || s[0] == '.' {
        0
    } else {
        1 + first_dot(s.skip(1))
    }
}

/// The levels of the column that a reference names, where it is categorical.
fn parent_categorical<'a>(models: &'a [TableModel], reference: &str) -> (r: Option<&'a Vec<String>>)
    ensures
        match r {
            Some(l) => parent_levels(models@, reference@) == Some(l.deep_view()),
            None => parent_levels(models@, reference@) is None,
        },
{
    let chars = text::to_chars(reference);
    proof {
        assert(chars@.skip(0) =~= chars@);
    }
    let i: usize = find_dot(&chars, 0);
    if i >= chars.len() {
        return None;
    }
    let table = text::from_chars(vstd::slice::slice_subrange(chars.as_slice(), 0, i));
    let column = text::from_chars(
        vstd::slice::slice_subrange(chars.as_slice(), i + 1, chars.len()),
    );
    match find_model(models, table.as_str()) {
        Some(m) => match m.column(column.as_str()) {
            Some(c) => match &c.levels {
                Some(l) => Some(l),
                None => None,
            },
            None => None,
        },
        None => None,
    }
}

/// The levels of the column that a reference names: the table before its first
/// dot, the column behind it.
pub open spec fn parent_levels(models: Seq<TableModel>, reference: Seq<char>) -> Option<
    Seq<Seq<char>>,
> {
    let i = first_dot(reference);
    if i >= reference.len() {
        None
    } else {
        match model_at(models, reference.take(i)) {
            Some(m) => match model::column_model(m.columns@, reference.skip(i + 1)) {
                Some(c) => match c.levels {
                    Some(l) => Some(l.deep_view()),
                    None => None,
                },
                None => None,
            },
            None => None,
        }
    }
}

fn fixed_values(values: &Vec<String>) -> (r: Vec<Value>)
    ensures
        r.deep_view() == text_cells(values.deep_view()),
{
    let mut out: Vec<Value> = Vec::new();
    let mut i: usize = 0;
    let ghost want = text_cells(values.deep_view());
    while i < values.len()
        invariant
            i <= values@.len(),
            want == text_cells(values.deep_view()),
            out.deep_view() == want.take(i as int),
        decreases values@.len() - i,
    {
        let ghost before = out.deep_view();
        out.push(Value::Text(values[i].clone()));
        proof {
            assert(out.deep_view() =~= before.push(want[i as int]));
            assert(want.take(i + 1) =~= want.take(i as int).push(want[i as int]));
        }
        i = i + 1;
    }
    proof {
        assert(want.take(want.len() as int) =~= want);
    }
    out
}

fn make_pool(values: Vec<Value>, strategy: SelectionStrategy, levels: Option<&Vec<String>>) -> (r:
    FkPool)
    ensures
        r.entries() == entries_of(values.deep_view(), strategy),
        strategy != SelectionStrategy::Weighted ==> r.weight_list().len() == 0,
        strategy == SelectionStrategy::Weighted ==> r.weight_list().len() == r.entries().len(),
        strategy == SelectionStrategy::Weighted ==> forall|i: int|
            0 <= i < r.entries().len() ==> #[trigger] r.weight_list()[i] == fk_pool::weight_of(
                values.deep_view(),
                match levels {
                    Some(l) => Some(l.deep_view()),
                    None => None,
                },
                r.entries()[i],
            ),
        !r.is_prepared(),
{
    match strategy {
        SelectionStrategy::Weighted => FkPool::from_observed_weights(values.as_slice(), levels),
        _ => FkPool::new(values),
    }
}

/// The pools of a table's relationships.
pub fn build_rel_pools(
    table: &str,
    rule: &TableRule,
    pools: &Vec<ColumnPool>,
    models: &[TableModel],
    strategy: SelectionStrategy,
) -> (r: Result<Vec<RelPool>, String>)
    ensures
        match r {
            Ok(made) => {
                &&& made@.len() == rule.relationships@.len()
                &&& forall|i: int|
                    0 <= i < made@.len() ==> has_source(
                        #[trigger] rule.relationships@[i],
                        pools.deep_view(),
                    )
                &&& forall|i: int|
                    0 <= i < made@.len() ==> pool_of(
                        #[trigger] made@[i],
                        rule.relationships@[i],
                        pools.deep_view(),
                        models@,
                        strategy,
                    )
            },
            Err(m) => sourceless(table@, rule.relationships@, pools.deep_view(), m@),
        },
{
    let mut made: Vec<RelPool> = Vec::new();
    let ghost all = pools.deep_view();
    let mut i: usize = 0;
    while i < rule.relationships.len()
        invariant
            i <= rule.relationships@.len(),
            all == pools.deep_view(),
            made@.len() == i,
            forall|k: int|
                0 <= k < i ==> has_source(#[trigger] rule.relationships@[k], all),
            forall|k: int|
                0 <= k < i ==> pool_of(
                    #[trigger] made@[k],
                    rule.relationships@[k],
                    all,
                    models@,
                    strategy,
                ),
        decreases rule.relationships@.len() - i,
    {
        let rel = &rule.relationships[i];
        if rel.references.len() == 0 {
            let m = text::around("relationship '", rel.pk.as_str(), "' has no references");
            proof {
                assert(sourceless_at(table@, rule.relationships@, all, i as int, m@));
            }
            return Err(m);
        }
        let pool = match &rel.pool_strategy {
            PoolStrategy::Fixed { values } => make_pool(fixed_values(values), strategy, None),
            _ => {
                match find_pool(pools, rel.references[0].as_str()) {
                    Some(values) => make_pool(
                        branch::copy_row(values.as_slice()),
                        strategy,
                        parent_categorical(models, rel.references[0].as_str()),
                    ),
                    None => {
                        let mut m = text::around("table '", table, "' references '");
                        text::push_text(&mut m, rel.references[0].as_str());
                        text::push_text(
                            &mut m,
                            "' but that table.column was not generated first; add a rule and model for it",
                        );
                        proof {
                            assert(sourceless_at(
                                table@,
                                rule.relationships@,
                                all,
                                i as int,
                                m@,
                            ));
                        }
                        return Err(m);
                    },
                }
            },
        };
        let unique = match &rel.pool_strategy {
            PoolStrategy::Fixed { .. } => false,
            PoolStrategy::Projection { unique } => *unique,
            PoolStrategy::Generated { unique } => *unique,
        };
        let pool_size = pool.len();
        proof {
            assert(pool.weight_list() =~= weights_of(
                *rel,
                source_of(*rel, all)->0,
                models@,
                strategy,
            ));
        }
        made.push(
            RelPool {
                column: rel.pk.clone(),
                reference: rel.references[0].clone(),
                pool,
                strategy,
                unique,
                pool_size,
            },
        );
        i = i + 1;
    }
    Ok(made)
}

/// The message for the first relationship that has no pool.
pub open spec fn sourceless_at(
    table: Seq<char>,
    rels: Seq<Relationship>,
    pools: Seq<Pool>,
    i: int,
    m: Seq<char>,
) -> bool {
    &&& 0 <= i < rels.len()
    &&& forall|k: int| 0 <= k < i ==> has_source(#[trigger] rels[k], pools)
    &&& !has_source(rels[i], pools)
    &&& m == source_fault(table, rels[i])
}

pub open spec fn sourceless(
    table: Seq<char>,
    rels: Seq<Relationship>,
    pools: Seq<Pool>,
    m: Seq<char>,
) -> bool {
    exists|i: int| #[trigger] sourceless_at(table, rels, pools, i, m)
}

/// The names of the tables.
pub open spec fn table_names(tables: Seq<TableRule>) -> Seq<Seq<char>> {
    Seq::new(tables.len(), |i: int| tables[i].name@)
}

/// The table that a reference names, where it is a known one: what stands before
/// the first dot. A strict reading takes only `table.column`, with one dot.
pub open spec fn parent_of(reference: Seq<char>, known: Seq<Seq<char>>, strict: bool) -> Option<
    Seq<char>,
> {
    let i = first_dot(reference);
    if i < reference.len() && (strict ==> first_dot(reference.skip(i + 1)) == reference.skip(
        i + 1,
    ).len()) && known.contains(reference.take(i)) {
        Some(reference.take(i))
    } else {
        None
    }
}

/// The edges of references: from the parent, which is generated first, to the
/// child.
pub open spec fn reference_edges(
    references: Seq<Seq<char>>,
    child: Seq<char>,
    known: Seq<Seq<char>>,
    strict: bool,
) -> Seq<(Seq<char>, Seq<char>)>
    decreases references.len(),
{
    if references.len() == 0 {
        Seq::empty()
    } else {
        let rest = reference_edges(references.drop_last(), child, known, strict);
        match parent_of(references.last(), known, strict) {
            Some(p) => rest.push((p, child)),
            None => rest,
        }
    }
}

pub open spec fn relationship_edges(
    rels: Seq<Relationship>,
    child: Seq<char>,
    known: Seq<Seq<char>>,
    strict: bool,
) -> Seq<(Seq<char>, Seq<char>)>
    decreases rels.len(),
{
    if rels.len() == 0 {
        Seq::empty()
    } else {
        relationship_edges(rels.drop_last(), child, known, strict) + reference_edges(
            rels.last().references.deep_view(),
            child,
            known,
            strict,
        )
    }
}

pub open spec fn table_edges(
    tables: Seq<TableRule>,
    known: Seq<Seq<char>>,
    strict: bool,
) -> Seq<(Seq<char>, Seq<char>)>
    decreases tables.len(),
{
    if tables.len() == 0 {
        Seq::empty()
    } else {
        table_edges(tables.drop_last(), known, strict) + relationship_edges(
            tables.last().relationships@,
            tables.last().name@,
            known,
            strict,
        )
    }
}

/// Where the first dot at or behind a place stands.
pub(crate) fn find_dot(chars: &Vec<char>, from: usize) -> (r: usize)
    requires
        from <= chars@.len(),
    ensures
        from <= r <= chars@.len(),
        r == from + first_dot(chars@.skip(from as int)),
{
    let mut i: usize = from;
    while i < chars.len() && chars[i] != '.'
        invariant
            from <= i <= chars@.len(),
            first_dot(chars@.skip(from as int)) == i - from + first_dot(chars@.skip(i as int)),
        decreases chars@.len() - i,
    {
        proof {
            assert(chars@.skip(i as int).skip(1) =~= chars@.skip(i + 1));
        }
        i = i + 1;
    }
    i
}

fn find_parent(reference: &str, known: &[String], strict: bool) -> (r: Option<String>)
    ensures
        match r {
            Some(p) => parent_of(reference@, known.deep_view(), strict) == Some(p@),
            None => parent_of(reference@, known.deep_view(), strict) is None,
        },
{
    let chars = text::to_chars(reference);
    proof {
        assert(chars@.skip(0) =~= chars@);
    }
    let i: usize = find_dot(&chars, 0);
    if i >= chars.len() {
        return None;
    }
    let j: usize = find_dot(&chars, i + 1);
    if strict && j != chars.len() {
        return None;
    }
    let parent = text::from_chars(vstd::slice::slice_subrange(chars.as_slice(), 0, i));
    if crate::names::has(known, parent.as_str()) {
        Some(parent)
    } else {
        None
    }
}

/// The names of the tables.
pub(crate) fn name_tables(tables: &Vec<TableRule>) -> (r: Vec<String>)
    ensures
        r.deep_view() == table_names(tables@),
{
    let mut out: Vec<String> = Vec::new();
    let ghost want = table_names(tables@);
    let mut i: usize = 0;
    while i < tables.len()
        invariant
            i <= tables@.len(),
            want == table_names(tables@),
            out.deep_view() == want.take(i as int),
        decreases tables@.len() - i,
    {
        let ghost before = out.deep_view();
        out.push(tables[i].name.clone());
        proof {
            assert(out.deep_view() =~= before.push(want[i as int]));
            assert(want.take(i + 1) =~= want.take(i as int).push(want[i as int]));
        }
        i = i + 1;
    }
    proof {
        assert(want.take(want.len() as int) =~= want);
    }
    out
}

/// Texts of edges.
pub open spec fn edge_texts(edges: Seq<(String, String)>) -> Seq<(Seq<char>, Seq<char>)> {
    Seq::new(edges.len(), |i: int| (edges[i].0@, edges[i].1@))
}

fn push_reference_edges(
    edges: &mut Vec<(String, String)>,
    rel: &Relationship,
    child: &String,
    known: &[String],
    strict: bool,
)
    ensures
        edge_texts(final(edges)@) == edge_texts(old(edges)@) + reference_edges(
            rel.references.deep_view(),
            child@,
            known.deep_view(),
            strict,
        ),
{
    let ghost start = edge_texts(edges@);
    let ghost refs = rel.references.deep_view();
    let mut i: usize = 0;
    proof {
        assert(refs.take(0) =~= Seq::empty());
        assert(start + reference_edges(refs.take(0), child@, known.deep_view(), strict) =~= start);
    }
    while i < rel.references.len()
        invariant
            i <= rel.references@.len(),
            start == edge_texts(old(edges)@),
            refs == rel.references.deep_view(),
            edge_texts(edges@) == start + reference_edges(
                refs.take(i as int),
                child@,
                known.deep_view(),
                strict,
            ),
        decreases rel.references@.len() - i,
    {
        let ghost before = edge_texts(edges@);
        proof {
            assert(refs.take(i + 1).drop_last() =~= refs.take(i as int));
            assert(refs.take(i + 1).last() == refs[i as int]);
        }
        match find_parent(rel.references[i].as_str(), known, strict) {
            Some(p) => {
                let ghost pair = (p@, child@);
                edges.push((p, child.clone()));
                proof {
                    assert(edge_texts(edges@) =~= before.push(pair));
                    let rest = reference_edges(
                        refs.take(i as int),
                        child@,
                        known.deep_view(),
                        strict,
                    );
                    assert(start + rest.push(pair) =~= (start + rest).push(pair));
                }
            },
            None => {},
        }
        i = i + 1;
    }
    proof {
        assert(refs.take(refs.len() as int) =~= refs);
    }
}

/// The edges between tables: each parent before its children.
pub fn fk_edges(rules: &SynthRules) -> (r: Vec<(String, String)>)
    ensures
        edge_texts(r@) == table_edges(rules.tables@, table_names(rules.tables@), true),
{
    reference_edges_of(rules, true)
}

/// The edges between tables, by a strict reading of the references or not.
pub(crate) fn reference_edges_of(rules: &SynthRules, strict: bool) -> (r: Vec<(String, String)>)
    ensures
        edge_texts(r@) == table_edges(rules.tables@, table_names(rules.tables@), strict),
{
    let known = name_tables(&rules.tables);
    let ghost names = table_names(rules.tables@);
    let mut edges: Vec<(String, String)> = Vec::new();
    let mut i: usize = 0;
    proof {
        assert(rules.tables@.take(0) =~= Seq::empty());
        assert(edge_texts(edges@) =~= Seq::empty());
    }
    while i < rules.tables.len()
        invariant
            i <= rules.tables@.len(),
            names == table_names(rules.tables@),
            known.deep_view() == names,
            edge_texts(edges@) == table_edges(rules.tables@.take(i as int), names, strict),
        decreases rules.tables@.len() - i,
    {
        let rels = &rules.tables[i].relationships;
        let ghost start = edge_texts(edges@);
        let ghost child = rules.tables@[i as int].name@;
        let mut j: usize = 0;
        proof {
            assert(rels@.take(0) =~= Seq::empty());
            assert(start + relationship_edges(rels@.take(0), child, names, strict) =~= start);
        }
        while j < rels.len()
            invariant
                i < rules.tables@.len(),
                rels@ == rules.tables@[i as int].relationships@,
                child == rules.tables@[i as int].name@,
                j <= rels@.len(),
                names == table_names(rules.tables@),
                known.deep_view() == names,
                edge_texts(edges@) == start + relationship_edges(
                    rels@.take(j as int),
                    child,
                    names,
                    strict,
                ),
            decreases rels@.len() - j,
        {
            proof {
                assert(rels@.take(j + 1).drop_last() =~= rels@.take(j as int));
                assert(rels@.take(j + 1).last() == rels@[j as int]);
            }
            push_reference_edges(
                &mut edges,
                &rels[j],
                &rules.tables[i].name,
                known.as_slice(),
                strict,
            );
            proof {
                let a = relationship_edges(rels@.take(j as int), child, names, strict);
                let b = reference_edges(
                    rels@[j as int].references.deep_view(),
                    child,
                    names,
                    strict,
                );
                assert((start + a) + b =~= start + (a + b));
            }
            j = j + 1;
        }
        proof {
            assert(rels@.take(rels@.len() as int) =~= rels@);
            assert(rules.tables@.take(i + 1).drop_last() =~= rules.tables@.take(i as int));
            assert(rules.tables@.take(i + 1).last() == rules.tables@[i as int]);
        }
        i = i + 1;
    }
    proof {
        assert(rules.tables@.take(rules.tables@.len() as int) =~= rules.tables@);
    }
    edges
}

/// A relationship of some table refers to a key.
pub open spec fn is_referenced(tables: Seq<TableRule>, key: Seq<char>) -> bool {
    exists|t: int, r: int, k: int|
        0 <= t < tables.len() && 0 <= r < tables[t].relationships@.len() && 0 <= k
            < tables[t].relationships@[r].references@.len()
            && #[trigger] tables[t].relationships@[r].references@[k]@ == key
}

/// The keys that relationships refer to.
pub fn referenced_targets(rules: &SynthRules) -> (r: Vec<String>)
    ensures
        crate::names::ascending(r.deep_view()),
        forall|key: Seq<char>| #[trigger]
            r.deep_view().contains(key) <==> is_referenced(rules.tables@, key),
{
    let mut out: Vec<String> = Vec::new();
    let mut t: usize = 0;
    while t < rules.tables.len()
        invariant
            t <= rules.tables@.len(),
            crate::names::ascending(out.deep_view()),
            forall|key: Seq<char>| #[trigger]
                out.deep_view().contains(key) <==> referenced_before(
                    rules.tables@,
                    t as int,
                    0,
                    0,
                    key,
                ),
        decreases rules.tables@.len() - t,
    {
        let rels = &rules.tables[t].relationships;
        let mut r: usize = 0;
        while r < rels.len()
            invariant
                t < rules.tables@.len(),
                rels@ == rules.tables@[t as int].relationships@,
                r <= rels@.len(),
                crate::names::ascending(out.deep_view()),
                forall|key: Seq<char>| #[trigger]
                    out.deep_view().contains(key) <==> referenced_before(
                        rules.tables@,
                        t as int,
                        r as int,
                        0,
                        key,
                    ),
            decreases rels@.len() - r,
        {
            let mut k: usize = 0;
            while k < rels[r].references.len()
                invariant
                    t < rules.tables@.len(),
                    rels@ == rules.tables@[t as int].relationships@,
                    r < rels@.len(),
                    k <= rels@[r as int].references@.len(),
                    crate::names::ascending(out.deep_view()),
                    forall|key: Seq<char>| #[trigger]
                        out.deep_view().contains(key) <==> referenced_before(
                            rules.tables@,
                            t as int,
                            r as int,
                            k as int,
                            key,
                        ),
                decreases rels@[r as int].references@.len() - k,
            {
                let ghost before = out.deep_view();
                crate::names::insert(&mut out, rels[r].references[k].as_str());
                proof {
                    let here = rules.tables@[t as int].relationships@[r as int].references@[k as int]@;
                    assert forall|key: Seq<char>| #[trigger]
                        out.deep_view().contains(key) <==> referenced_before(
                            rules.tables@,
                            t as int,
                            r as int,
                            k + 1,
                            key,
                        ) by {
                        assert(out.deep_view().contains(key) <==> before.contains(key) || key
                            == here);
                        lemma_referenced_step(rules.tables@, t as int, r as int, k as int, key);
                    }
                }
                k = k + 1;
            }
            proof {
                assert forall|key: Seq<char>| #[trigger]
                    out.deep_view().contains(key) <==> referenced_before(
                        rules.tables@,
                        t as int,
                        r + 1,
                        0,
                        key,
                    ) by {
                    lemma_referenced_next(rules.tables@, t as int, r as int, key);
                }
            }
            r = r + 1;
        }
        proof {
            assert forall|key: Seq<char>| #[trigger]
                out.deep_view().contains(key) <==> referenced_before(
                    rules.tables@,
                    t + 1,
                    0,
                    0,
                    key,
                ) by {
                lemma_referenced_over(rules.tables@, t as int, key);
            }
        }
        t = t + 1;
    }
    proof {
        assert forall|key: Seq<char>| #[trigger]
            out.deep_view().contains(key) <==> is_referenced(rules.tables@, key) by {
            lemma_referenced_all(rules.tables@, key);
        }
    }
    out
}

/// A reference before a place has the key.
spec fn referenced_before(tables: Seq<TableRule>, t: int, r: int, k: int, key: Seq<char>) -> bool {
    exists|a: int, b: int, c: int|
        0 <= a < tables.len() && 0 <= b < tables[a].relationships@.len() && 0 <= c
            < tables[a].relationships@[b].references@.len() && (a < t || (a == t && (b < r || (b
            == r && c < k)))) && #[trigger] tables[a].relationships@[b].references@[c]@ == key
}

proof fn lemma_referenced_step(tables: Seq<TableRule>, t: int, r: int, k: int, key: Seq<char>)
    requires
        0 <= t < tables.len(),
        0 <= r < tables[t].relationships@.len(),
        0 <= k < tables[t].relationships@[r].references@.len(),
    ensures
        referenced_before(tables, t, r, k + 1, key) <==> referenced_before(tables, t, r, k, key)
            || tables[t].relationships@[r].references@[k]@ == key,
{
    if tables[t].relationships@[r].references@[k]@ == key {
        assert(referenced_before(tables, t, r, k + 1, key));
    }
    if referenced_before(tables, t, r, k, key) {
        let (a, b, c) = choose|a: int, b: int, c: int|
            0 <= a < tables.len() && 0 <= b < tables[a].relationships@.len() && 0 <= c
                < tables[a].relationships@[b].references@.len() && (a < t || (a == t && (b < r || (b
                == r && c < k)))) && #[trigger] tables[a].relationships@[b].references@[c]@ == key;
        assert(tables[a].relationships@[b].references@[c]@ == key);
        assert(referenced_before(tables, t, r, k + 1, key));
    }
}

proof fn lemma_referenced_next(tables: Seq<TableRule>, t: int, r: int, key: Seq<char>)
    requires
        0 <= t < tables.len(),
        0 <= r < tables[t].relationships@.len(),
    ensures
        referenced_before(
            tables,
            t,
            r,
            tables[t].relationships@[r].references@.len() as int,
            key,
        ) <==> referenced_before(tables, t, r + 1, 0, key),
{
    let n = tables[t].relationships@[r].references@.len() as int;
    if referenced_before(tables, t, r, n, key) {
        let (a, b, c) = choose|a: int, b: int, c: int|
            0 <= a < tables.len() && 0 <= b < tables[a].relationships@.len() && 0 <= c
                < tables[a].relationships@[b].references@.len() && (a < t || (a == t && (b < r || (b
                == r && c < n)))) && #[trigger] tables[a].relationships@[b].references@[c]@ == key;
        assert(tables[a].relationships@[b].references@[c]@ == key);
    }
    if referenced_before(tables, t, r + 1, 0, key) {
        let (a, b, c) = choose|a: int, b: int, c: int|
            0 <= a < tables.len() && 0 <= b < tables[a].relationships@.len() && 0 <= c
                < tables[a].relationships@[b].references@.len() && (a < t || (a == t && (b < r + 1
                || (b == r + 1 && c < 0))))
                && #[trigger] tables[a].relationships@[b].references@[c]@ == key;
        assert(tables[a].relationships@[b].references@[c]@ == key);
    }
}

proof fn lemma_referenced_over(tables: Seq<TableRule>, t: int, key: Seq<char>)
    requires
        0 <= t < tables.len(),
    ensures
        referenced_before(tables, t, tables[t].relationships@.len() as int, 0, key)
            <==> referenced_before(tables, t + 1, 0, 0, key),
{
    let n = tables[t].relationships@.len() as int;
    if referenced_before(tables, t, n, 0, key) {
        let (a, b, c) = choose|a: int, b: int, c: int|
            0 <= a < tables.len() && 0 <= b < tables[a].relationships@.len() && 0 <= c
                < tables[a].relationships@[b].references@.len() && (a < t || (a == t && (b < n || (b
                == n && c < 0)))) && #[trigger] tables[a].relationships@[b].references@[c]@ == key;
        assert(tables[a].relationships@[b].references@[c]@ == key);
    }
    if referenced_before(tables, t + 1, 0, 0, key) {
        let (a, b, c) = choose|a: int, b: int, c: int|
            0 <= a < tables.len() && 0 <= b < tables[a].relationships@.len() && 0 <= c
                < tables[a].relationships@[b].references@.len() && (a < t + 1 || (a == t + 1 && (b
                < 0 || (b == 0 && c < 0))))
                && #[trigger] tables[a].relationships@[b].references@[c]@ == key;
        assert(tables[a].relationships@[b].references@[c]@ == key);
    }
}

proof fn lemma_referenced_all(tables: Seq<TableRule>, key: Seq<char>)
    ensures
        referenced_before(tables, tables.len() as int, 0, 0, key) <==> is_referenced(tables, key),
{
    if is_referenced(tables, key) {
        let (t, r, k) = choose|t: int, r: int, k: int|
            0 <= t < tables.len() && 0 <= r < tables[t].relationships@.len() && 0 <= k
                < tables[t].relationships@[r].references@.len()
                && #[trigger] tables[t].relationships@[r].references@[k]@ == key;
        assert(tables[t].relationships@[r].references@[k]@ == key);
    }
}

} // verus!

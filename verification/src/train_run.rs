//! What a training run decides between its queries.
use crate::cardinality;
use crate::cardinality::CardinalityDist;
use crate::datetime;
use crate::model;
use crate::model::TableModel;
use crate::names;
use crate::rules;
use crate::rules::{ColumnRule, SdType, SynthRules};
use crate::text;
use crate::training;
use crate::training::{ForeignKeyInfo, LearnedKey, Link, ProfileColumn, TableSample};
use crate::value;
use crate::value::{Cell, Value};
use crate::CategoricalTopK;
use vstd::prelude::*;

verus! {

/// The keys of a list of pairs.
pub open spec fn keys_of<V>(list: Seq<(Seq<char>, V)>) -> Seq<Seq<char>> {
    Seq::new(list.len(), |i: int| list[i].0)
}

/// A list of pairs in which a key has a value: where the key stood, or at the
/// end.
pub open spec fn put<V>(list: Seq<(Seq<char>, V)>, key: Seq<char>, v: V) -> Seq<(Seq<char>, V)> {
    if keys_of(list).contains(key) {
        list.update(value::first_place(keys_of(list), key), (key, v))
    } else {
        list.push((key, v))
    }
}

pub open spec fn names_of<T>(list: Seq<(String, T)>) -> Seq<Seq<char>> {
    Seq::new(list.len(), |i: int| list[i].0@)
}

fn find_key<T>(list: &Vec<(String, T)>, key: &str) -> (r: Option<usize>)
    ensures
        match r {
            Some(i) => i < list@.len() && names_of(list@).contains(key@) && i
                == value::first_place(names_of(list@), key@),
            None => !names_of(list@).contains(key@),
        },
{
    let ghost all = names_of(list@);
    let mut i: usize = 0;
    proof {
        assert(all.skip(0) =~= all);
    }
    while i < list.len()
        invariant
            i <= list@.len(),
            all == names_of(list@),
            forall|k: int| 0 <= k < i ==> #[trigger] all[k] != key@,
            value::first_place(all, key@) == i + value::first_place(all.skip(i as int), key@),
        decreases list@.len() - i,
    {
        proof {
            assert(all.skip(i as int).skip(1) =~= all.skip(i + 1));
            assert(all.skip(i as int)[0] == all[i as int]);
        }
        if text::same(list[i].0.as_str(), key) {
            proof {
                assert(all[i as int] == key@);
            }
            return Some(i);
        }
        i = i + 1;
    }
    None
}

pub open spec fn pairs_of(list: Seq<(String, String)>) -> Seq<(Seq<char>, Seq<char>)> {
    Seq::new(list.len(), |i: int| (list[i].0@, list[i].1@))
}

fn put_text(list: &mut Vec<(String, String)>, key: &str, v: &str)
    ensures
        pairs_of(final(list)@) == put(pairs_of(old(list)@), key@, v@),
{
    let ghost before = pairs_of(list@);
    proof {
        assert(keys_of(before) =~= names_of(list@));
    }
    match find_key(list, key) {
        Some(i) => {
            list[i] = (key.to_owned(), v.to_owned());
            proof {
                assert(pairs_of(list@) =~= before.update(i as int, (key@, v@)));
            }
        },
        None => {
            list.push((key.to_owned(), v.to_owned()));
            proof {
                assert(pairs_of(list@) =~= before.push((key@, v@)));
            }
        },
    }
}

/// The families that the rules of columns force, on top of others.
pub open spec fn forced_in(
    list: Seq<(Seq<char>, Seq<char>)>,
    columns: Seq<(String, ColumnRule)>,
) -> Seq<(Seq<char>, Seq<char>)>
    decreases columns.len(),
{
    if columns.len() == 0 {
        list
    } else {
        let before = forced_in(list, columns.drop_last());
        match columns.last().1.marginal {
            Some(m) => put(before, columns.last().0@, m@),
            None => before,
        }
    }
}

/// The families that rules force for the columns of a table.
pub open spec fn forced_of(tables: Seq<rules::TableRule>, table: Seq<char>) -> Seq<
    (Seq<char>, Seq<char>),
>
    decreases tables.len(),
{
    if tables.len() == 0 {
        Seq::empty()
    } else {
        let before = forced_of(tables.drop_last(), table);
        if tables.last().name@ == table {
            forced_in(before, tables.last().columns@)
        } else {
            before
        }
    }
}

fn add_forced(list: &mut Vec<(String, String)>, columns: &Vec<(String, ColumnRule)>)
    ensures
        pairs_of(final(list)@) == forced_in(pairs_of(old(list)@), columns@),
{
    let ghost start = pairs_of(list@);
    let mut i: usize = 0;
    proof {
        assert(columns@.take(0) =~= Seq::empty());
    }
    while i < columns.len()
        invariant
            i <= columns@.len(),
            pairs_of(list@) == forced_in(start, columns@.take(i as int)),
        decreases columns@.len() - i,
    {
        proof {
            assert(columns@.take(i + 1).drop_last() =~= columns@.take(i as int));
            assert(columns@.take(i + 1).last() == columns@[i as int]);
        }
        match &columns[i].1.marginal {
            Some(m) => {
                put_text(list, columns[i].0.as_str(), m.as_str());
            },
            None => {},
        }
        i = i + 1;
    }
    proof {
        assert(columns@.take(columns@.len() as int) =~= columns@);
    }
}

/// The families that the rules force for the columns of a table.
pub fn forced_marginals(rules: &SynthRules, table: &str) -> (r: Vec<(String, String)>)
    ensures
        pairs_of(r@) == forced_of(rules.tables@, table@),
{
    let mut out: Vec<(String, String)> = Vec::new();
    let mut i: usize = 0;
    proof {
        assert(rules.tables@.take(0) =~= Seq::empty());
        assert(pairs_of(out@) =~= Seq::empty());
    }
    while i < rules.tables.len()
        invariant
            i <= rules.tables@.len(),
            pairs_of(out@) == forced_of(rules.tables@.take(i as int), table@),
        decreases rules.tables@.len() - i,
    {
        proof {
            assert(rules.tables@.take(i + 1).drop_last() =~= rules.tables@.take(i as int));
            assert(rules.tables@.take(i + 1).last() == rules.tables@[i as int]);
        }
        if text::same(rules.tables[i].name.as_str(), table) {
            add_forced(&mut out, &rules.tables[i].columns);
        }
        i = i + 1;
    }
    proof {
        assert(rules.tables@.take(rules.tables@.len() as int) =~= rules.tables@);
    }
    out
}

/// What the rules say of personal data in a column: the last rule that says
/// anything, with the provider that it names.
pub open spec fn sd_rule(tables: Seq<rules::TableRule>, table: Seq<char>, column: Seq<char>) -> (
    SdType,
    Option<Seq<char>>,
)
    decreases tables.len(),
{
    if tables.len() == 0 {
        (SdType::Auto, None)
    } else {
        let before = sd_rule(tables.drop_last(), table, column);
        if tables.last().name@ == table {
            match rules::column_rule(tables.last().columns@, column) {
                Some(rule) => if rule.sdtype != SdType::Auto {
                    (rule.sdtype, rule.pii_provider.deep_view())
                } else {
                    before
                },
                None => before,
            }
        } else {
            before
        }
    }
}

/// What the rules say of personal data in a column.
pub fn sdtype_of(rules: &SynthRules, table: &str, column: &str) -> (r: (SdType, Option<String>))
    ensures
        (r.0, r.1.deep_view()) == sd_rule(rules.tables@, table@, column@),
{
    let mut i: usize = rules.tables.len();
    proof {
        assert(rules.tables@.take(rules.tables@.len() as int) =~= rules.tables@);
    }
    while i > 0
        invariant
            i <= rules.tables@.len(),
            sd_rule(rules.tables@, table@, column@) == sd_rule(
                rules.tables@.take(i as int),
                table@,
                column@,
            ),
        decreases i,
    {
        proof {
            assert(rules.tables@.take(i as int).drop_last() =~= rules.tables@.take(i - 1));
            assert(rules.tables@.take(i as int).last() == rules.tables@[i - 1]);
        }
        i = i - 1;
        if text::same(rules.tables[i].name.as_str(), table) {
            match rules.tables[i].column(column) {
                Some(rule) => {
                    if rule.sdtype != SdType::Auto {
                        let provider: Option<String> = match &rule.pii_provider {
                            Some(p) => Some(p.clone()),
                            None => None,
                        };
                        return (rule.sdtype, provider);
                    }
                },
                None => {},
            }
        }
    }
    (SdType::Auto, None)
}

/// What is known of a column when it is searched for personal data: what the
/// rules say, the provider that they name, and the one that was recognized.
#[derive(Debug)]
pub struct Clue<P> {
    pub sdtype: SdType,
    pub named: Option<P>,
    pub guess: Option<P>,
}

/// The provider that makes a column anonymous.
pub open spec fn provider_of<P>(clue: Clue<P>, fallback: P) -> Option<P> {
    match clue.sdtype {
        SdType::Keep => None,
        SdType::Pii => if clue.named is Some {
            clue.named
        } else if clue.guess is Some {
            clue.guess
        } else {
            Some(fallback)
        },
        SdType::Auto => clue.guess,
    }
}

/// The columns with personal data, each with its provider.
pub open spec fn detected<P>(
    columns: Seq<Seq<char>>,
    clues: Seq<Clue<P>>,
    fallback: P,
) -> Seq<(Seq<char>, P)>
    decreases columns.len(),
{
    if columns.len() == 0 {
        Seq::empty()
    } else {
        let before = detected(columns.drop_last(), clues, fallback);
        match provider_of(clues[columns.len() - 1], fallback) {
            Some(p) => before.push((columns.last(), p)),
            None => before,
        }
    }
}

pub open spec fn providers_of<P>(list: Seq<(String, P)>) -> Seq<(Seq<char>, P)> {
    Seq::new(list.len(), |i: int| (list[i].0@, list[i].1))
}

/// Finds the columns with personal data: `keep` switches a column off, `pii`
/// forces it, otherwise what was recognized counts.
pub fn detect_pii_columns<P: Copy>(columns: &[String], clues: &[Clue<P>], fallback: P) -> (r: Vec<
    (String, P),
>)
    requires
        clues@.len() == columns@.len(),
    ensures
        providers_of(r@) == detected(columns.deep_view(), clues@, fallback),
{
    let ghost all = columns.deep_view();
    let mut out: Vec<(String, P)> = Vec::new();
    let mut i: usize = 0;
    proof {
        assert(all.take(0) =~= Seq::empty());
        assert(providers_of(out@) =~= Seq::empty());
    }
    while i < columns.len()
        invariant
            i <= columns@.len(),
            clues@.len() == columns@.len(),
            all == columns.deep_view(),
            providers_of(out@) == detected(all.take(i as int), clues@, fallback),
        decreases columns@.len() - i,
    {
        let ghost before = providers_of(out@);
        proof {
            assert(all.take(i + 1).drop_last() =~= all.take(i as int));
            assert(all.take(i + 1).last() == columns@[i as int]@);
        }
        let clue = &clues[i];
        match training::choose_provider(clue.sdtype, clue.named, clue.guess, fallback) {
            Some(p) => {
                out.push((columns[i].clone(), p));
                proof {
                    assert(providers_of(out@) =~= before.push((columns@[i as int]@, p)));
                }
            },
            None => {},
        }
        i = i + 1;
    }
    proof {
        assert(all.take(all.len() as int) =~= all);
    }
    out
}

/// The columns that are made anonymous: those that are not reserved.
pub open spec fn unreserved<P>(list: Seq<(Seq<char>, P)>, reserved: Seq<Seq<char>>) -> Seq<
    (Seq<char>, P),
>
    decreases list.len(),
{
    if list.len() == 0 {
        Seq::empty()
    } else {
        let before = unreserved(list.drop_last(), reserved);
        if reserved.contains(list.last().0) {
            before
        } else {
            before.push(list.last())
        }
    }
}

/// What is said of a column that is not made anonymous because it is a foreign
/// key.
pub open spec fn reserved_warning(table: Seq<char>, column: Seq<char>) -> Seq<char> {
    "warning: table '"@ + table + "': column '"@ + column
        + "' is a foreign key; PII anonymization skipped (generation fills it from the parent pool)"@
}

pub open spec fn reserved_warnings<P>(
    table: Seq<char>,
    list: Seq<(Seq<char>, P)>,
    reserved: Seq<Seq<char>>,
) -> Seq<Seq<char>>
    decreases list.len(),
{
    if list.len() == 0 {
        Seq::empty()
    } else {
        let before = reserved_warnings(table, list.drop_last(), reserved);
        if reserved.contains(list.last().0) {
            before.push(reserved_warning(table, list.last().0))
        } else {
            before
        }
    }
}

/// The profile of a column without the levels of its dictionary.
pub open spec fn without_levels(c: ProfileColumn) -> ProfileColumn {
    ProfileColumn { levels: None, ..c }
}

/// Takes the value dictionaries of detected columns out of a profile, so that none of
/// their values is written. Everything else stays.
pub fn forget_levels(columns: &mut Vec<ProfileColumn>, detected: &[String])
    ensures
        final(columns)@.len() == old(columns)@.len(),
        forall|i: int|
            0 <= i < final(columns)@.len() ==> #[trigger] final(columns)@[i] == (
            if detected.deep_view().contains(old(columns)@[i].name@) {
                without_levels(old(columns)@[i])
            } else {
                old(columns)@[i]
            }),
{
    let mut i: usize = 0;
    while i < columns.len()
        invariant
            i <= columns@.len(),
            columns@.len() == old(columns)@.len(),
            forall|k: int|
                0 <= k < i ==> #[trigger] columns@[k] == (if detected.deep_view().contains(
                    old(columns)@[k].name@,
                ) {
                    without_levels(old(columns)@[k])
                } else {
                    old(columns)@[k]
                }),
            forall|k: int| i <= k < columns@.len() ==> #[trigger] columns@[k] == old(columns)@[k],
        decreases columns@.len() - i,
    {
        if names::has(detected, columns[i].name.as_str()) {
            columns[i].levels = None;
        }
        i = i + 1;
    }
}

/// Leaves reserved columns out of those that are made anonymous, with a warning
/// for each.
pub fn leave_reserved<P: Copy>(
    table: &str,
    list: &Vec<(String, P)>,
    reserved: &[String],
) -> (r: (Vec<(String, P)>, Vec<String>))
    ensures
        providers_of(r.0@) == unreserved(providers_of(list@), reserved.deep_view()),
        r.1.deep_view() == reserved_warnings(table@, providers_of(list@), reserved.deep_view()),
{
    let ghost all = providers_of(list@);
    let mut kept: Vec<(String, P)> = Vec::new();
    let mut warnings: Vec<String> = Vec::new();
    let mut i: usize = 0;
    proof {
        assert(all.take(0) =~= Seq::empty());
        assert(providers_of(kept@) =~= Seq::empty());
        assert(warnings.deep_view() =~= Seq::empty());
    }
    while i < list.len()
        invariant
            i <= list@.len(),
            all == providers_of(list@),
            providers_of(kept@) == unreserved(all.take(i as int), reserved.deep_view()),
            warnings.deep_view() == reserved_warnings(
                table@,
                all.take(i as int),
                reserved.deep_view(),
            ),
        decreases list@.len() - i,
    {
        let ghost kept_before = providers_of(kept@);
        let ghost said = warnings.deep_view();
        proof {
            assert(all.take(i + 1).drop_last() =~= all.take(i as int));
            assert(all.take(i + 1).last() == (list@[i as int].0@, list@[i as int].1));
        }
        if names::has(reserved, list[i].0.as_str()) {
            let mut w = text::around("warning: table '", table, "': column '");
            text::push_text(&mut w, list[i].0.as_str());
            text::push_text(
                &mut w,
                "' is a foreign key; PII anonymization skipped (generation fills it from the parent pool)",
            );
            let ghost line = w@;
            warnings.push(w);
            proof {
                assert(warnings.deep_view() =~= said.push(line));
            }
        } else {
            kept.push((list[i].0.clone(), list[i].1));
            proof {
                assert(providers_of(kept@) =~= kept_before.push(all[i as int]));
            }
        }
        i = i + 1;
    }
    proof {
        assert(all.take(all.len() as int) =~= all);
    }
    (kept, warnings)
}

/// A foreign key is never made anonymous.
pub proof fn lemma_foreign_keys_stay<P>(
    list: Seq<(Seq<char>, P)>,
    reserved: Seq<Seq<char>>,
    i: int,
)
    requires
        0 <= i < unreserved(list, reserved).len(),
    ensures
        !reserved.contains(unreserved(list, reserved)[i].0),
        list.contains(unreserved(list, reserved)[i]),
    decreases list.len(),
{
    if list.len() > 0 {
        let before = unreserved(list.drop_last(), reserved);
        if i < before.len() {
            lemma_foreign_keys_stay(list.drop_last(), reserved, i);
            let k = choose|k: int|
                0 <= k < list.drop_last().len() && list.drop_last()[k] == before[i];
            assert(list[k] == before[i]);
        } else {
            assert(list[list.len() - 1] == list.last());
        }
    }
}

/// The foreign keys of a table that were sampled, each with its cells.
pub open spec fn sampled_links(
    keys: Seq<Link>,
    table: Seq<char>,
    columns: Seq<Seq<char>>,
    rows: Seq<Vec<Value>>,
) -> Seq<(Seq<char>, Seq<Cell>)>
    decreases keys.len(),
{
    if keys.len() == 0 {
        Seq::empty()
    } else {
        let before = sampled_links(keys.drop_last(), table, columns, rows);
        let key = keys.last();
        if key.from_table == table && columns.contains(key.from_column) {
            before.push(
                (
                    key.from_column,
                    training::sampled(rows, value::first_place(columns, key.from_column)),
                ),
            )
        } else {
            before
        }
    }
}

pub open spec fn link_views(links: Seq<(String, Vec<Value>)>) -> Seq<(Seq<char>, Seq<Cell>)> {
    Seq::new(links.len(), |i: int| (links[i].0@, links[i].1.deep_view()))
}

/// What a sample gives for learning how many children a parent has: the first
/// column of the key with its different values, and the cells of the foreign keys.
pub fn sample_of(
    table: &str,
    columns: &[String],
    rows: &Vec<Vec<Value>>,
    pk: &[String],
    foreign_keys: &Vec<ForeignKeyInfo>,
) -> (r: TableSample)
    ensures
        r.table@ == table@,
        match r.key {
            Some(k) => pk@.len() > 0 && columns.deep_view().contains(pk@[0]@) && k.0@ == pk@[0]@
                && k.1 == cardinality::referenced(
                training::sampled(rows@, value::first_place(columns.deep_view(), pk@[0]@)),
            ).len(),
            None => pk@.len() == 0 || !columns.deep_view().contains(pk@[0]@),
        },
        link_views(r.links@) == sampled_links(
            foreign_keys.deep_view(),
            table@,
            columns.deep_view(),
            rows@,
        ),
{
    let mut key: Option<(String, usize)> = None;
    if pk.len() > 0 {
        match value::find_name(columns, pk[0].as_str()) {
            Some(i) => {
                key = Some((pk[0].clone(), training::count_distinct(rows, i)));
            },
            None => {},
        }
    }
    let ghost all = foreign_keys.deep_view();
    let mut links: Vec<(String, Vec<Value>)> = Vec::new();
    let mut i: usize = 0;
    proof {
        assert(all.take(0) =~= Seq::empty());
        assert(link_views(links@) =~= Seq::empty());
    }
    while i < foreign_keys.len()
        invariant
            i <= foreign_keys@.len(),
            all == foreign_keys.deep_view(),
            link_views(links@) == sampled_links(
                all.take(i as int),
                table@,
                columns.deep_view(),
                rows@,
            ),
        decreases foreign_keys@.len() - i,
    {
        let ghost before = link_views(links@);
        proof {
            assert(all.take(i + 1).drop_last() =~= all.take(i as int));
            assert(all.take(i + 1).last() == foreign_keys@[i as int]@);
        }
        if text::same(foreign_keys[i].from_table.as_str(), table) {
            match value::find_name(columns, foreign_keys[i].from_column.as_str()) {
                Some(c) => {
                    let values = training::sampled_values(rows, c);
                    let ghost cells = values.deep_view();
                    links.push((foreign_keys[i].from_column.clone(), values));
                    proof {
                        assert(link_views(links@) =~= before.push(
                            (foreign_keys@[i as int].from_column@, cells),
                        ));
                    }
                },
                None => {},
            }
        }
        i = i + 1;
    }
    proof {
        assert(all.take(all.len() as int) =~= all);
    }
    TableSample { table: table.to_owned(), key, links }
}

/// The numbers of a distribution of children.
pub type Numbers = (Seq<(u64, usize)>, usize, usize, usize);

pub open spec fn cards_of(list: Seq<(String, CardinalityDist)>) -> Seq<(Seq<char>, Numbers)> {
    Seq::new(list.len(), |i: int| (list[i].0@, cardinality::numbers_of(list[i].1)))
}

/// A learned key belongs to a model: it is of its table and one of its columns.
pub open spec fn belongs(m: TableModel, l: LearnedKey) -> bool {
    l.table@ == m.table@ && model::column_model(m.columns@, l.column@) is Some
}

/// What a model knows of its foreign keys when what was learned is added.
pub open spec fn attached(m: TableModel, learned: Seq<LearnedKey>) -> Seq<(Seq<char>, Numbers)>
    decreases learned.len(),
{
    if learned.len() == 0 {
        cards_of(m.fk_cardinality@)
    } else {
        let before = attached(m, learned.drop_last());
        if belongs(m, learned.last()) {
            put(before, learned.last().column@, cardinality::numbers_of(learned.last().cardinality))
        } else {
            before
        }
    }
}

/// Some learned key belongs to a model.
pub open spec fn some_belongs(m: TableModel, learned: Seq<LearnedKey>) -> bool {
    exists|i: int| 0 <= i < learned.len() && belongs(m, #[trigger] learned[i])
}

fn put_card(list: &mut Vec<(String, CardinalityDist)>, key: &str, d: CardinalityDist)
    ensures
        cards_of(final(list)@) == put(cards_of(old(list)@), key@, cardinality::numbers_of(d)),
{
    let ghost before = cards_of(list@);
    let ghost numbers = cardinality::numbers_of(d);
    proof {
        assert(keys_of(before) =~= names_of(list@));
    }
    match find_key(list, key) {
        Some(i) => {
            list[i] = (key.to_owned(), d);
            proof {
                assert(cards_of(list@) =~= before.update(i as int, (key@, numbers)));
            }
        },
        None => {
            list.push((key.to_owned(), d));
            proof {
                assert(cards_of(list@) =~= before.push((key@, numbers)));
            }
        },
    }
}

/// Adds what was learned of its foreign keys to a model, and says whether anything
/// was. Nothing else of the model changes.
pub fn attach_fk_cardinality(m: &mut TableModel, learned: &Vec<LearnedKey>) -> (r: bool)
    ensures
        cards_of(final(m).fk_cardinality@) == attached(*old(m), learned@),
        r == some_belongs(*old(m), learned@),
        *final(m) == (TableModel { fk_cardinality: final(m).fk_cardinality, ..*old(m) }),
{
    let ghost start = *m;
    let mut changed = false;
    let mut i: usize = 0;
    proof {
        assert(learned@.take(0) =~= Seq::empty());
    }
    while i < learned.len()
        invariant
            i <= learned@.len(),
            start == *old(m),
            cards_of(m.fk_cardinality@) == attached(start, learned@.take(i as int)),
            changed == some_belongs(start, learned@.take(i as int)),
            *m == (TableModel { fk_cardinality: m.fk_cardinality, ..start }),
        decreases learned@.len() - i,
    {
        let ghost was = learned@.take(i as int);
        let ghost now = learned@.take(i + 1);
        proof {
            assert(now.drop_last() =~= was);
            assert(now.last() == learned@[i as int]);
            assert(forall|k: int| 0 <= k < i ==> was[k] == #[trigger] now[k]);
            assert(forall|k: int| 0 <= k < i ==> #[trigger] was[k] == now[k]);
        }
        let ours = text::same(learned[i].table.as_str(), m.table.as_str()) && m.column(
            learned[i].column.as_str(),
        ).is_some();
        if ours {
            put_card(
                &mut m.fk_cardinality,
                learned[i].column.as_str(),
                cardinality::copy_cardinality(&learned[i].cardinality),
            );
            changed = true;
            proof {
                assert(belongs(start, now[i as int]));
            }
        } else {
            proof {
                if some_belongs(start, now) {
                    let k = choose|k: int| 0 <= k < now.len() && belongs(start, #[trigger] now[k]);
                    assert(belongs(start, was[k]));
                }
            }
        }
        i = i + 1;
    }
    proof {
        assert(learned@.take(learned@.len() as int) =~= learned@);
    }
    changed
}

/// How many bytes a marginal may take when it is written.
pub const COLUMN_MARGINAL_BUDGET_BYTES: usize = 16_384;

/// The columns over the budget.
pub open spec fn oversized(sizes: Seq<(String, usize)>) -> Seq<(Seq<char>, usize)>
    decreases sizes.len(),
{
    if sizes.len() == 0 {
        Seq::empty()
    } else {
        let before = oversized(sizes.drop_last());
        if sizes.last().1 > COLUMN_MARGINAL_BUDGET_BYTES {
            placed(before, (sizes.last().0@, sizes.last().1))
        } else {
            before
        }
    }
}

/// A pair stands before another.
pub open spec fn ahead(a: (Seq<char>, usize), b: (Seq<char>, usize)) -> bool {
    text::before(a.0, b.0) || (a.0 == b.0 && a.1 <= b.1)
}

/// A list with a pair before the first one that does not stand before it.
pub open spec fn placed(list: Seq<(Seq<char>, usize)>, p: (Seq<char>, usize)) -> Seq<
    (Seq<char>, usize),
>
    decreases list.len(),
{
    if list.len() == 0 {
        seq![p]
    } else if ahead(p, list[0]) {
        seq![p] + list
    } else {
        seq![list[0]] + placed(list.skip(1), p)
    }
}

pub open spec fn sizes_of(list: Seq<(String, usize)>) -> Seq<(Seq<char>, usize)> {
    Seq::new(list.len(), |i: int| (list[i].0@, list[i].1))
}

fn place(list: &mut Vec<(String, usize)>, name: &str, size: usize)
    ensures
        sizes_of(final(list)@) == placed(sizes_of(old(list)@), (name@, size)),
{
    let ghost all = sizes_of(list@);
    let ghost p = (name@, size);
    let mut i: usize = 0;
    proof {
        assert(all.skip(0) =~= all);
        assert(all.take(0) + placed(all.skip(0), p) =~= placed(all, p));
    }
    while i < list.len() && !(text::is_before(name, list[i].0.as_str()) || (text::same(
        name,
        list[i].0.as_str(),
    ) && size <= list[i].1))
        invariant
            i <= list@.len(),
            all == sizes_of(list@),
            p == (name@, size),
            placed(all, p) == all.take(i as int) + placed(all.skip(i as int), p),
        decreases list@.len() - i,
    {
        proof {
            let rest = all.skip(i as int);
            assert(rest[0] == all[i as int]);
            assert(rest.skip(1) =~= all.skip(i + 1));
            assert(all.take(i as int) + (seq![rest[0]] + placed(rest.skip(1), p)) =~= all.take(
                i + 1,
            ) + placed(all.skip(i + 1), p));
        }
        i = i + 1;
    }
    proof {
        let rest = all.skip(i as int);
        if i < list@.len() {
            assert(rest[0] == all[i as int]);
            assert(ahead(p, rest[0]));
        }
        assert(placed(rest, p) =~= seq![p] + rest);
    }
    list.insert(i, (name.to_owned(), size));
    proof {
        assert(sizes_of(list@) =~= all.insert(i as int, p));
        assert(all.insert(i as int, p) =~= all.take(i as int) + (seq![p] + all.skip(i as int)));
    }
}

/// Pairs in order.
pub open spec fn in_line(list: Seq<(Seq<char>, usize)>) -> bool {
    forall|i: int, j: int|
        0 <= i < j < list.len() ==> ahead(#[trigger] list[i], #[trigger] list[j])
}

proof fn lemma_placed(list: Seq<(Seq<char>, usize)>, p: (Seq<char>, usize))
    requires
        in_line(list),
    ensures
        in_line(placed(list, p)),
        forall|q: (Seq<char>, usize)| #[trigger]
            placed(list, p).contains(q) <==> q == p || list.contains(q),
    decreases list.len(),
{
    let r = placed(list, p);
    if list.len() == 0 {
        assert(r[0] == p);
    } else if ahead(p, list[0]) {
        assert forall|i: int, j: int| 0 <= i < j < r.len() implies ahead(
            #[trigger] r[i],
            #[trigger] r[j],
        ) by {
            assert(r[j] == list[j - 1]);
            if i == 0 {
                if j > 1 {
                    assert(ahead(list[0], list[j - 1]));
                    lemma_ahead(p, list[0], list[j - 1]);
                }
            } else {
                assert(r[i] == list[i - 1]);
            }
        }
        assert forall|q: (Seq<char>, usize)| #[trigger]
            r.contains(q) <==> q == p || list.contains(q) by {
            assert(r[0] == p);
            if list.contains(q) {
                let k = choose|k: int| 0 <= k < list.len() && list[k] == q;
                assert(r[k + 1] == q);
            }
            if r.contains(q) {
                let k = choose|k: int| 0 <= k < r.len() && r[k] == q;
                if k > 0 {
                    assert(list[k - 1] == q);
                }
            }
        }
    } else {
        let tail = list.skip(1);
        let rest = placed(tail, p);
        lemma_placed(tail, p);
        lemma_ahead_total(p, list[0]);
        assert(r =~= seq![list[0]] + rest);
        assert forall|i: int, j: int| 0 <= i < j < r.len() implies ahead(
            #[trigger] r[i],
            #[trigger] r[j],
        ) by {
            assert(r[j] == rest[j - 1]);
            if i == 0 {
                assert(rest.contains(rest[j - 1]));
                if rest[j - 1] != p {
                    let k = choose|k: int| 0 <= k < tail.len() && tail[k] == rest[j - 1];
                    assert(ahead(list[0], list[k + 1]));
                }
            } else {
                assert(r[i] == rest[i - 1]);
            }
        }
        assert forall|q: (Seq<char>, usize)| #[trigger]
            r.contains(q) <==> q == p || list.contains(q) by {
            assert(r[0] == list[0]);
            if rest.contains(q) {
                let k = choose|k: int| 0 <= k < rest.len() && rest[k] == q;
                assert(r[k + 1] == q);
            }
            if tail.contains(q) {
                let k = choose|k: int| 0 <= k < tail.len() && tail[k] == q;
                assert(list[k + 1] == q);
            }
            if list.contains(q) && q != list[0] {
                let k = choose|k: int| 0 <= k < list.len() && list[k] == q;
                assert(tail[k - 1] == q);
            }
            if r.contains(q) {
                let k = choose|k: int| 0 <= k < r.len() && r[k] == q;
                if k > 0 {
                    assert(rest[k - 1] == q);
                }
            }
        }
    }
}

proof fn lemma_ahead_total(a: (Seq<char>, usize), b: (Seq<char>, usize))
    ensures
        ahead(a, b) || ahead(b, a),
{
    text::lemma_before_total(a.0, b.0);
}

proof fn lemma_ahead(a: (Seq<char>, usize), b: (Seq<char>, usize), c: (Seq<char>, usize))
    requires
        ahead(a, b),
        ahead(b, c),
    ensures
        ahead(a, c),
{
    if text::before(a.0, b.0) && text::before(b.0, c.0) {
        text::lemma_before_trans(a.0, b.0, c.0);
    }
}

/// The columns over the budget are named in order, and no others are.
pub proof fn lemma_oversized_in_order(sizes: Seq<(String, usize)>)
    ensures
        in_line(oversized(sizes)),
        forall|q: (Seq<char>, usize)| #[trigger]
            oversized(sizes).contains(q) <==> q.1 > COLUMN_MARGINAL_BUDGET_BYTES && sizes_of(
                sizes,
            ).contains(q),
    decreases sizes.len(),
{
    let views = sizes_of(sizes);
    if sizes.len() > 0 {
        let tail = sizes_of(sizes.drop_last());
        let last = (sizes.last().0@, sizes.last().1);
        lemma_oversized_in_order(sizes.drop_last());
        if last.1 > COLUMN_MARGINAL_BUDGET_BYTES {
            lemma_placed(oversized(sizes.drop_last()), last);
        }
        assert(views =~= tail.push(last));
        assert forall|q: (Seq<char>, usize)| #[trigger]
            oversized(sizes).contains(q) <==> q.1 > COLUMN_MARGINAL_BUDGET_BYTES
                && views.contains(q) by {
            assert(views[views.len() - 1] == last);
            if tail.contains(q) {
                let k = choose|k: int| 0 <= k < tail.len() && tail[k] == q;
                assert(views[k] == q);
            }
            if views.contains(q) && q != last {
                let k = choose|k: int| 0 <= k < views.len() && views[k] == q;
                assert(tail[k] == q);
            }
        }
    }
}

/// The columns whose marginals are over the budget when they are written, in
/// order.
pub fn oversized_marginal_columns(sizes: &Vec<(String, usize)>) -> (r: Vec<(String, usize)>)
    ensures
        sizes_of(r@) == oversized(sizes@),
{
    let mut out: Vec<(String, usize)> = Vec::new();
    let mut i: usize = 0;
    proof {
        assert(sizes@.take(0) =~= Seq::empty());
        assert(sizes_of(out@) =~= Seq::empty());
    }
    while i < sizes.len()
        invariant
            i <= sizes@.len(),
            sizes_of(out@) == oversized(sizes@.take(i as int)),
        decreases sizes@.len() - i,
    {
        proof {
            assert(sizes@.take(i + 1).drop_last() =~= sizes@.take(i as int));
            assert(sizes@.take(i + 1).last() == sizes@[i as int]);
        }
        if sizes[i].1 > COLUMN_MARGINAL_BUDGET_BYTES {
            place(&mut out, sizes[i].0.as_str(), sizes[i].1);
        }
        i = i + 1;
    }
    proof {
        assert(sizes@.take(sizes@.len() as int) =~= sizes@);
    }
    out
}

/// The first column that stands nowhere in an order.
pub open spec fn misplaced(
    order: Seq<Seq<char>>,
    columns: Seq<Seq<char>>,
    table: Seq<char>,
    m: Seq<char>,
    i: int,
) -> bool {
    &&& 0 <= i < columns.len()
    &&& forall|k: int| 0 <= k < i ==> order.contains(#[trigger] columns[k])
    &&& !order.contains(columns[i])
    &&& m == "table '"@ + table + "': column '"@ + columns[i]
        + "' is in the model but not in the sampled order"@
}

pub open spec fn some_misplaced(
    order: Seq<Seq<char>>,
    columns: Seq<Seq<char>>,
    table: Seq<char>,
    m: Seq<char>,
) -> bool {
    exists|i: int| #[trigger] misplaced(order, columns, table, m, i)
}

/// Where the columns of a model stand in the rows that were sampled.
pub fn baseline_columns(table: &str, order: &[String], columns: &[String]) -> (r: Result<
    Vec<usize>,
    String,
>)
    ensures
        match r {
            Ok(v) => {
                &&& v@.len() == columns@.len()
                &&& forall|i: int|
                    0 <= i < columns@.len() ==> order.deep_view().contains(
                        (#[trigger] columns@[i])@,
                    )
                &&& forall|i: int|
                    0 <= i < columns@.len() ==> #[trigger] v@[i] == value::last_place(
                        order.deep_view(),
                        columns@[i]@,
                    )
            },
            Err(m) => some_misplaced(order.deep_view(), columns.deep_view(), table@, m@),
        },
{
    let mut out: Vec<usize> = Vec::new();
    let mut i: usize = 0;
    while i < columns.len()
        invariant
            i <= columns@.len(),
            out@.len() == i,
            forall|k: int|
                0 <= k < i ==> order.deep_view().contains((#[trigger] columns@[k])@),
            forall|k: int|
                0 <= k < i ==> #[trigger] out@[k] == value::last_place(
                    order.deep_view(),
                    columns@[k]@,
                ),
        decreases columns@.len() - i,
    {
        match value::find_last_name(order, columns[i].as_str()) {
            Some(at) => {
                out.push(at);
            },
            None => {
                let mut m = text::around("table '", table, "': column '");
                text::push_text(&mut m, columns[i].as_str());
                text::push_text(&mut m, "' is in the model but not in the sampled order");
                proof {
                    let all = columns.deep_view();
                    assert forall|k: int| 0 <= k < i implies order.deep_view().contains(
                        #[trigger] all[k],
                    ) by {
                        assert(all[k] == columns@[k]@);
                    }
                    assert(misplaced(order.deep_view(), all, table@, m@, i as int));
                }
                return Err(m);
            },
        }
        i = i + 1;
    }
    Ok(out)
}

/// The instants of a column's cells; rows without one are left out.
pub open spec fn instants(rows: Seq<Vec<Value>>, c: int, format: Seq<char>) -> Seq<i64>
    decreases rows.len(),
{
    if rows.len() == 0 {
        Seq::empty()
    } else {
        let before = instants(rows.drop_last(), c, format);
        if 0 <= c < rows.last()@.len() {
            match datetime::cell_instant(rows.last()@[c]@, Some(format)) {
                Some(n) => before.push(n),
                None => before,
            }
        } else {
            before
        }
    }
}

/// The instants of a datetime column, in microseconds since 1970.
pub fn column_instants(rows: &Vec<Vec<Value>>, c: usize, format: &str) -> (r: Vec<i64>)
    ensures
        r@ == instants(rows@, c as int, format@),
{
    let mut out: Vec<i64> = Vec::new();
    let mut i: usize = 0;
    proof {
        assert(rows@.take(0) =~= Seq::empty());
    }
    while i < rows.len()
        invariant
            i <= rows@.len(),
            out@ == instants(rows@.take(i as int), c as int, format@),
        decreases rows@.len() - i,
    {
        proof {
            assert(rows@.take(i + 1).drop_last() =~= rows@.take(i as int));
            assert(rows@.take(i + 1).last() == rows@[i as int]);
        }
        if c < rows[i].len() {
            match datetime::parse_to_epoch(&rows[i][c], Some(format)) {
                Some(n) => {
                    out.push(n);
                },
                None => {},
            }
        }
        i = i + 1;
    }
    proof {
        assert(rows@.take(rows@.len() as int) =~= rows@);
    }
    out
}

/// What is said of a forced family whose parameters cannot be used.
pub open spec fn unusable(column: Seq<char>, family: Seq<char>, on_epoch_axis: bool) -> Seq<char> {
    "warning: column '"@ + column + "': forced marginal '"@ + family + (if on_epoch_axis {
        "' produced unusable parameters on the epoch axis; keeping the Normal marginal"@
    } else {
        "' produced unusable parameters; falling back to auto-selection"@
    })
}

/// What is said of a forced family whose parameters cannot be used.
pub fn unusable_warning(column: &str, family: &str, on_epoch_axis: bool) -> (r: String)
    ensures
        r@ == unusable(column@, family@, on_epoch_axis),
{
    let mut w = text::around("warning: column '", column, "': forced marginal '");
    text::push_text(&mut w, family);
    if on_epoch_axis {
        text::push_text(
            &mut w,
            "' produced unusable parameters on the epoch axis; keeping the Normal marginal",
        );
    } else {
        text::push_text(&mut w, "' produced unusable parameters; falling back to auto-selection");
    }
    w
}

/// What is said of a column that could not be modelled.
pub fn skipped_warning(table: &str, column: &str) -> (r: String)
    ensures
        r@ == "warning: table '"@ + table@ + "': column '"@ + column@
            + "' skipped (unsupported or untrainable type)"@,
{
    let mut w = text::around("warning: table '", table, "': column '");
    text::push_text(&mut w, column);
    text::push_text(&mut w, "' skipped (unsupported or untrainable type)");
    w
}

/// From this size on, a model that keeps every level is remarked upon.
pub const FULL_MODEL_SIZE: u64 = 0xA0_0000;

/// What is said of the file of a model that keeps every level, given its size and
/// that size in mebibytes: nothing, unless it is a large one.
pub fn large_model_warning(path: &str, size: u64, mebibytes: &str, kept: CategoricalTopK) -> (r:
    Option<String>)
    ensures
        r.deep_view() == (if kept == CategoricalTopK::Full && size > FULL_MODEL_SIZE {
            Some(
                "warning: "@ + path@ + " is "@ + mebibytes@
                    + " MiB; --categorical-top-k full stored every dictionary level and the file exceeds 10 MiB"@,
            )
        } else {
            None
        }),
{
    if kept == CategoricalTopK::Full && size > FULL_MODEL_SIZE {
        let mut w = text::around("warning: ", path, " is ");
        text::push_text(&mut w, mebibytes);
        text::push_text(
            &mut w,
            " MiB; --categorical-top-k full stored every dictionary level and the file exceeds 10 MiB",
        );
        Some(w)
    } else {
        None
    }
}

/// What is said of a sample that the driver cut off.
pub fn truncated_warning(table: &str, rows: usize) -> (r: String)
    ensures
        r@ == "warning: Oracle driver truncated the sample of table '"@ + table@ + "' at "@
            + text::digits(rows as nat) + " rows; fitted distributions may be distorted"@,
{
    let mut w = text::around(
        "warning: Oracle driver truncated the sample of table '",
        table,
        "' at ",
    );
    text::push_text(&mut w, text::number_text(rows).as_str());
    text::push_text(&mut w, " rows; fitted distributions may be distorted");
    w
}

/// What is said of a column over the budget.
pub fn oversized_warning(table: &str, column: &str, size: usize) -> (r: String)
    ensures
        r@ == "warning: table '"@ + table@ + "': column '"@ + column@
            + "' marginal serializes to "@ + text::digits(size as nat) + " bytes, over the "@
            + text::digits(COLUMN_MARGINAL_BUDGET_BYTES as nat) + " byte budget"@,
{
    let mut w = text::around("warning: table '", table, "': column '");
    text::push_text(&mut w, column);
    text::push_text(&mut w, "' marginal serializes to ");
    text::push_text(&mut w, text::number_text(size).as_str());
    text::push_text(&mut w, " bytes, over the ");
    text::push_text(&mut w, text::number_text(COLUMN_MARGINAL_BUDGET_BYTES).as_str());
    text::push_text(&mut w, " byte budget");
    w
}

} // verus!

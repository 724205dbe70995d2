//! Building the model of a table from a sample.
use crate::derivation;
use crate::domain;
use crate::domain::{Draw, Mark, Point};
use crate::model;
use crate::model::{ColumnModel, LogicalType, Provenance, TableModel};
use crate::text;
use crate::train_run;
use crate::training;
use crate::training::{FitPlan, Plan, ProfileColumn};
use crate::value;
use crate::value::{Cell, Value};
use vstd::prelude::*;

verus! {

/// What a column is kept as where no family is fitted to it.
#[derive(Debug, Clone, Copy, PartialEq, Eq, Structural)]
pub enum Kept {
    /// Its value dictionary.
    Levels,
    /// The plain distribution of its instants.
    Instants,
    /// A single point.
    Point,
}

/// Fits the distributions of columns. It keeps what it has fitted last; how well
/// anything fits is its own matter, a function of the fitter and of what it is asked.
/// The names have bodies only so that an implementation in ordinary Rust need not give
/// them: nothing is known of what a fitter's names stand for.
pub trait Fitter: Sized {
    open spec fn forced(self, column: ProfileColumn, family: Seq<char>, on_epoch_axis: bool) -> (
        Trial,
        Self,
    ) {
        arbitrary()
    }

    /// Fits a family that a rule forces: whether its parameters can be used, or why
    /// it cannot be fitted at all.
    fn force(&mut self, column: &ProfileColumn, family: &str, on_epoch_axis: bool) -> (r: Result<
        bool,
        String,
    >)
        ensures
            (trial_of(r), *final(self)) == old(self).forced(*column, family@, on_epoch_axis),
    ;

    open spec fn selected(self, column: ProfileColumn) -> (bool, Self) {
        arbitrary()
    }

    /// Fits the family that describes a column best, or says why none does.
    fn select(&mut self, column: &ProfileColumn) -> (r: Result<(), String>)
        ensures
            (r is Ok, *final(self)) == old(self).selected(*column),
    ;

    open spec fn keeping(self, column: ProfileColumn, kept: Kept) -> Self {
        arbitrary()
    }

    /// Keeps a column without fitting a family.
    fn keep(&mut self, column: &ProfileColumn, kept: Kept)
        ensures
            *final(self) == old(self).keeping(*column, kept),
    ;
}

/// What came of a family that a rule forces.
pub enum Trial {
    Usable,
    Unusable,
    Failed(Seq<char>),
}

/// What a fitter gave for a column, as far as it was asked.
pub struct Fit {
    pub forced: Trial,
    /// Some family describes the column.
    pub selected: bool,
}

/// The family that is forced for a column.
pub open spec fn forced_for(forced: Seq<(String, String)>, column: Seq<char>) -> Option<Seq<char>>
    decreases forced.len(),
{
    if forced.len() == 0 {
        None
    } else if forced[0].0@ == column {
        Some(forced[0].1@)
    } else {
        forced_for(forced.skip(1), column)
    }
}

fn find_forced<'a>(forced: &'a Vec<(String, String)>, column: &str) -> (r: Option<&'a str>)
    ensures
        r.deep_view() == forced_for(forced@, column@),
{
    let mut i: usize = 0;
    proof {
        assert(forced@.skip(0) =~= forced@);
    }
    while i < forced.len()
        invariant
            i <= forced@.len(),
            forced_for(forced@, column@) == forced_for(forced@.skip(i as int), column@),
        decreases forced@.len() - i,
    {
        proof {
            assert(forced@.skip(i as int).skip(1) =~= forced@.skip(i + 1));
        }
        if text::same(forced[i].0.as_str(), column) {
            return Some(forced[i].1.as_str());
        }
        i = i + 1;
    }
    None
}

/// How a column is modelled, given the families that are forced.
pub open spec fn plan_for(c: ProfileColumn, forced: Seq<(String, String)>) -> Plan {
    training::plan_of(c, forced_for(forced, c.name@))
}

/// Whether a column is modelled: one without a plan is not, and neither is one that
/// no family describes. A forced family whose parameters cannot be used gives way to
/// the one that fits best.
pub open spec fn is_modelled(plan: Plan, fit: Fit) -> bool {
    match plan {
        Plan::Unsupported(_) => false,
        Plan::Auto => fit.selected,
        Plan::Forced(_) => match next_of(fit.forced, false) {
            Next::Select => fit.selected,
            Next::LeftOut => false,
            _ => true,
        },
        _ => true,
    }
}

/// What is done once a family that a rule forces was tried.
#[derive(Debug, Clone, Copy, PartialEq, Eq, Structural)]
pub enum Next {
    /// The family is kept.
    Done,
    /// The family that fits best is looked for.
    Select,
    /// The plain distribution of the instants is kept.
    Instants,
    /// The column is not modelled.
    LeftOut,
}

/// What a fitter said of a family that a rule forces.
pub open spec fn trial_of(tried: Result<bool, String>) -> Trial {
    match tried {
        Ok(usable) => if usable {
            Trial::Usable
        } else {
            Trial::Unusable
        },
        Err(e) => Trial::Failed(e@),
    }
}

/// What is done once a family was tried. On the axis of instants it gives way to
/// their plain distribution.
pub open spec fn next_of(trial: Trial, on_epoch_axis: bool) -> Next {
    match trial {
        Trial::Usable => Next::Done,
        Trial::Unusable => if on_epoch_axis {
            Next::Instants
        } else {
            Next::Select
        },
        Trial::Failed(_) => if on_epoch_axis {
            Next::Instants
        } else {
            Next::LeftOut
        },
    }
}

/// What is said once a family was tried.
pub open spec fn trial_warning(
    column: Seq<char>,
    family: Seq<char>,
    trial: Trial,
    on_epoch_axis: bool,
) -> Option<Seq<char>> {
    match trial {
        Trial::Usable => None,
        Trial::Unusable => Some(train_run::unusable(column, family, on_epoch_axis)),
        Trial::Failed(e) => if on_epoch_axis {
            Some(
                "warning: column '"@ + column + "': forced marginal error ("@ + e
                    + "); keeping the Normal marginal"@,
            )
        } else {
            None
        },
    }
}

/// Decides what is done, and what is said, once a family that a rule forces was
/// tried.
pub fn after_trial(
    column: &str,
    family: &str,
    tried: Result<bool, String>,
    on_epoch_axis: bool,
) -> (r: (Next, Option<String>))
    ensures
        r.0 == next_of(trial_of(tried), on_epoch_axis),
        r.1.deep_view() == trial_warning(column@, family@, trial_of(tried), on_epoch_axis),
{
    match tried {
        Ok(usable) => {
            if usable {
                return (Next::Done, None);
            }
            let said = train_run::unusable_warning(column, family, on_epoch_axis);
            if on_epoch_axis {
                (Next::Instants, Some(said))
            } else {
                (Next::Select, Some(said))
            }
        },
        Err(e) => {
            if !on_epoch_axis {
                return (Next::LeftOut, None);
            }
            let mut said = text::around("warning: column '", column, "': forced marginal error (");
            text::push_text(&mut said, e.as_str());
            text::push_text(&mut said, "); keeping the Normal marginal");
            (Next::Instants, Some(said))
        },
    }
}

/// What a fitter gives for a column, and the fitter after it.
pub open spec fn fit_from<F: Fitter>(f: F, c: ProfileColumn, plan: Plan) -> (Fit, F) {
    let plain = Fit { forced: Trial::Usable, selected: true };
    match plan {
        Plan::Unsupported(_) => (plain, f),
        Plan::Dictionary => (plain, f.keeping(c, Kept::Levels)),
        Plan::Point => (plain, f.keeping(c, Kept::Point)),
        Plan::Auto => {
            let d = f.selected(c);
            (Fit { selected: d.0, ..plain }, d.1)
        },
        Plan::Forced(family) => {
            let t = f.forced(c, family, false);
            if next_of(t.0, false) == Next::Select {
                let d = t.1.selected(c);
                (Fit { forced: t.0, selected: d.0 }, d.1)
            } else {
                (Fit { forced: t.0, ..plain }, t.1)
            }
        },
        Plan::Epoch(None) => (plain, f.keeping(c, Kept::Instants)),
        Plan::Epoch(Some(family)) => {
            let t = f.forced(c, family, true);
            if next_of(t.0, true) == Next::Instants {
                (Fit { forced: t.0, ..plain }, t.1.keeping(c, Kept::Instants))
            } else {
                (Fit { forced: t.0, ..plain }, t.1)
            }
        },
    }
}

/// What a fitter gives for columns, one after the other, and the fitter after them.
pub open spec fn fits_from<F: Fitter>(
    f: F,
    profile: Seq<ProfileColumn>,
    forced: Seq<(String, String)>,
) -> (Seq<Fit>, F)
    decreases profile.len(),
{
    if profile.len() == 0 {
        (Seq::empty(), f)
    } else {
        let before = fits_from(f, profile.drop_last(), forced);
        let d = fit_from(before.1, profile.last(), plan_for(profile.last(), forced));
        (before.0.push(d.0), d.1)
    }
}

/// What is said of a column while it is fitted.
pub open spec fn fit_warning(column: Seq<char>, plan: Plan, fit: Fit) -> Option<Seq<char>> {
    match plan {
        Plan::Epoch(Some(family)) => trial_warning(column, family, fit.forced, true),
        Plan::Forced(family) => trial_warning(column, family, fit.forced, false),
        _ => None,
    }
}

/// A list with one more text, where there is one.
pub open spec fn with_text(list: Seq<Seq<char>>, more: Option<Seq<char>>) -> Seq<Seq<char>> {
    match more {
        Some(s) => list.push(s),
        None => list,
    }
}

/// What is said while columns are fitted.
pub open spec fn fit_warnings(
    profile: Seq<ProfileColumn>,
    forced: Seq<(String, String)>,
    fits: Seq<Fit>,
) -> Seq<Seq<char>>
    decreases profile.len(),
{
    if profile.len() == 0 {
        Seq::empty()
    } else {
        let c = profile.last();
        with_text(
            with_text(
                fit_warnings(profile.drop_last(), forced, fits),
                training::formatless(c),
            ),
            fit_warning(c.name@, plan_for(c, forced), fits[profile.len() - 1]),
        )
    }
}

/// The type of a column by its name.
pub open spec fn type_named(kind: Seq<char>) -> LogicalType {
    if kind == "categorical"@ {
        LogicalType::Categorical
    } else if kind == "datetime"@ {
        LogicalType::Datetime
    } else {
        LogicalType::Numerical
    }
}

/// The earliest of some instants.
pub open spec fn earliest(s: Seq<i64>) -> i64
    decreases s.len(),
{
    if s.len() <= 1 || s.last() <= earliest(s.drop_last()) {
        s.last()
    } else {
        earliest(s.drop_last())
    }
}

/// The latest of some instants.
pub open spec fn latest(s: Seq<i64>) -> i64
    decreases s.len(),
{
    if s.len() <= 1 || s.last() >= latest(s.drop_last()) {
        s.last()
    } else {
        latest(s.drop_last())
    }
}

/// The instants of a column in a sample.
pub open spec fn sampled_instants(
    order: Seq<Seq<char>>,
    rows: Seq<Vec<Value>>,
    c: ProfileColumn,
) -> Seq<i64> {
    let at = value::first_place(order, c.name@);
    match c.datetime_format {
        Some(f) => if at < order.len() {
            train_run::instants(rows, at, f@)
        } else {
            Seq::empty()
        },
        None => Seq::empty(),
    }
}

/// A number that was observed.
pub open spec fn observed(n: Option<String>) -> Option<Mark> {
    match n {
        Some(s) => Some(Mark::Number(s@)),
        None => None,
    }
}

/// The smallest and the largest value of a column: of its instants, where it is
/// modelled by them and has any, else of its profile.
pub open spec fn bounds_of(c: ProfileColumn, plan: Plan, instants: Seq<i64>) -> (
    Option<Mark>,
    Option<Mark>,
) {
    if plan is Epoch && instants.len() > 0 {
        (Some(Mark::Instant(earliest(instants))), Some(Mark::Instant(latest(instants))))
    } else {
        (observed(c.min), observed(c.max))
    }
}

/// The model of a column. One on the axis of instants has a format and is not
/// rounded.
pub open spec fn column_built(
    c: ProfileColumn,
    plan: Plan,
    instants: Seq<i64>,
    m: ColumnModel,
) -> bool {
    &&& m.min.deep_view() == bounds_of(c, plan, instants).0
    &&& m.max.deep_view() == bounds_of(c, plan, instants).1
    &&& m.levels.deep_view() == (if plan is Dictionary {
        c.levels.deep_view()
    } else {
        None
    })
    &&& match m.null_rate {
        Some(rate) => rate.text@ == c.null_rate.text@ && rate.positive == c.null_rate.positive,
        None => false,
    }
    &&& if plan is Epoch {
        &&& m.logical_type == LogicalType::Datetime
        &&& m.rounding is None
        &&& m.decimal_scale is None
        &&& m.datetime_format.deep_view() == c.datetime_format.deep_view()
    } else {
        &&& m.logical_type == type_named(c.logical_type@)
        &&& m.rounding == (if c.is_integer {
            Some(0u32)
        } else {
            None
        })
        &&& m.decimal_scale == c.decimal_scale
        &&& m.datetime_format is None
    }
}

/// The places of the columns that are modelled.
pub open spec fn modelled(
    profile: Seq<ProfileColumn>,
    forced: Seq<(String, String)>,
    fits: Seq<Fit>,
) -> Seq<int>
    decreases profile.len(),
{
    if profile.len() == 0 {
        Seq::empty()
    } else {
        let before = modelled(profile.drop_last(), forced, fits);
        let i = profile.len() - 1;
        if is_modelled(plan_for(profile[i], forced), fits[i]) {
            before.push(i)
        } else {
            before
        }
    }
}

/// The names of the columns that are not modelled.
pub open spec fn left_out(
    profile: Seq<ProfileColumn>,
    forced: Seq<(String, String)>,
    fits: Seq<Fit>,
) -> Seq<Seq<char>>
    decreases profile.len(),
{
    if profile.len() == 0 {
        Seq::empty()
    } else {
        let before = left_out(profile.drop_last(), forced, fits);
        let i = profile.len() - 1;
        if is_modelled(plan_for(profile[i], forced), fits[i]) {
            before
        } else {
            before.push(profile[i].name@)
        }
    }
}

proof fn lemma_modelled(
    profile: Seq<ProfileColumn>,
    forced: Seq<(String, String)>,
    fits: Seq<Fit>,
    more: Seq<Fit>,
)
    requires
        profile.len() <= fits.len() <= more.len(),
        forall|i: int| 0 <= i < fits.len() ==> #[trigger] fits[i] == more[i],
    ensures
        modelled(profile, forced, fits) == modelled(profile, forced, more),
        left_out(profile, forced, fits) == left_out(profile, forced, more),
        fit_warnings(profile, forced, fits) == fit_warnings(profile, forced, more),
        forall|k: int|
            0 <= k < modelled(profile, forced, fits).len() ==> 0 <= #[trigger] modelled(
                profile,
                forced,
                fits,
            )[k] < profile.len(),
    decreases profile.len(),
{
    if profile.len() > 0 {
        lemma_modelled(profile.drop_last(), forced, fits, more);
        assert(fits[profile.len() - 1] == more[profile.len() - 1]);
    }
}

/// The names of modelled columns.
pub open spec fn names_at(profile: Seq<ProfileColumn>, places: Seq<int>) -> Seq<Seq<char>> {
    Seq::new(places.len(), |k: int| profile[places[k]].name@)
}

/// The columns of a model are those that could be modelled.
pub open spec fn columns_built(
    profile: Seq<ProfileColumn>,
    forced: Seq<(String, String)>,
    fits: Seq<Fit>,
    order: Seq<Seq<char>>,
    rows: Seq<Vec<Value>>,
    columns: Seq<(String, ColumnModel)>,
) -> bool {
    let places = modelled(profile, forced, fits);
    &&& columns.len() == places.len()
    &&& forall|k: int|
        0 <= k < columns.len() ==> (#[trigger] columns[k]).0@ == profile[places[k]].name@
    &&& forall|k: int|
        0 <= k < columns.len() ==> column_built(
            profile[places[k]],
            plan_for(profile[places[k]], forced),
            sampled_instants(order, rows, profile[places[k]]),
            (#[trigger] columns[k]).1,
        )
}

/// What training a table gives.
#[derive(Debug)]
pub struct BuiltModel {
    pub model: TableModel,
    /// Columns that could not be modelled.
    pub skipped: Vec<String>,
    /// What was said while columns were fitted.
    pub warnings: Vec<String>,
    /// The sample in the order of the model's columns, where there are rows enough
    /// to correlate them.
    pub samples: Option<Vec<Vec<Value>>>,
}

/// What a table is trained from.
pub struct Sample {
    pub table: Seq<char>,
    pub dialect: Seq<char>,
    pub schema: Option<Seq<char>>,
    pub profile: Seq<ProfileColumn>,
    pub order: Seq<Seq<char>>,
    pub rows: Seq<Vec<Value>>,
    pub pk: Seq<Seq<char>>,
    pub forced: Seq<(String, String)>,
}

/// The columns of a model in order: as they were sampled.
pub open spec fn order_built(order: Seq<Seq<char>>, fitted: Seq<Seq<char>>) -> Seq<Seq<char>> {
    if training::kept(order, fitted).len() == 0 {
        fitted
    } else {
        training::kept(order, fitted)
    }
}

/// A model was built from a sample, with what the fitter gave.
pub open spec fn built(s: Sample, fits: Seq<Fit>, b: BuiltModel) -> bool {
    let places = modelled(s.profile, s.forced, fits);
    let fitted = names_at(s.profile, places);
    &&& fits.len() == s.profile.len()
    &&& places.len() > 0
    &&& columns_built(s.profile, s.forced, fits, s.order, s.rows, b.model.columns@)
    &&& b.skipped.deep_view() == left_out(s.profile, s.forced, fits)
    &&& b.warnings.deep_view() == fit_warnings(s.profile, s.forced, fits)
    &&& b.model.version == model::CURRENT_VERSION
    &&& b.model.table@ == s.table
    &&& b.model.dialect@ == s.dialect
    &&& b.model.schema.deep_view() == s.schema
    &&& b.model.provenance.source@ == "native"@
    &&& b.model.provenance.converter_version is None
    &&& b.model.provenance.sdv_version is None
    &&& !b.model.provenance.truncated
    &&& b.model.provenance.trained_rows == Some(s.rows.len() as usize)
    &&& b.model.pk.deep_view() == training::kept(s.pk, fitted)
    &&& b.model.column_order.deep_view() == order_built(s.order, fitted)
    &&& b.model.fk_cardinality@.len() == 0
    &&& match b.samples {
        Some(rows) => {
            &&& s.rows.len() >= 2
            &&& rows@.len() == s.rows.len()
            &&& forall|i: int|
                0 <= i < rows@.len() ==> (#[trigger] rows@[i]).deep_view() == training::projected(
                    s.rows[i].deep_view(),
                    s.order,
                    order_built(s.order, fitted),
                )
        },
        None => s.rows.len() < 2,
    }
}

/// No column could be modelled.
pub open spec fn untrainable(s: Sample, fits: Seq<Fit>) -> bool {
    fits.len() == s.profile.len() && modelled(s.profile, s.forced, fits).len() == 0
}

fn named_type(kind: &str) -> (r: LogicalType)
    ensures
        r == type_named(kind@),
{
    if text::same(kind, "categorical") {
        LogicalType::Categorical
    } else if text::same(kind, "datetime") {
        LogicalType::Datetime
    } else {
        LogicalType::Numerical
    }
}

fn number_point(n: &Option<String>) -> (r: Option<Point>)
    ensures
        r.deep_view() == observed(*n),
{
    match n {
        Some(s) => Some(Point::Number(s.clone())),
        None => None,
    }
}

fn find_instants(order: &[String], rows: &Vec<Vec<Value>>, c: &ProfileColumn) -> (r: Vec<i64>)
    ensures
        r@ == sampled_instants(order.deep_view(), rows@, *c),
{
    proof {
        value::lemma_first_place(order.deep_view(), c.name@);
    }
    match &c.datetime_format {
        Some(f) => match value::find_name(order, c.name.as_str()) {
            Some(at) => train_run::column_instants(rows, at, f.as_str()),
            None => Vec::new(),
        },
        None => Vec::new(),
    }
}

fn instant_bounds(s: &Vec<i64>) -> (r: Option<(i64, i64)>)
    ensures
        r == (if s@.len() > 0 {
            Some((earliest(s@), latest(s@)))
        } else {
            None
        }),
{
    if s.len() == 0 {
        return None;
    }
    let mut low: i64 = s[0];
    let mut high: i64 = s[0];
    let mut i: usize = 1;
    while i < s.len()
        invariant
            1 <= i <= s@.len(),
            low == earliest(s@.take(i as int)),
            high == latest(s@.take(i as int)),
        decreases s@.len() - i,
    {
        proof {
            assert(s@.take(i + 1).drop_last() =~= s@.take(i as int));
        }
        if s[i] <= low {
            low = s[i];
        }
        if s[i] >= high {
            high = s[i];
        }
        i = i + 1;
    }
    proof {
        assert(s@.take(s@.len() as int) =~= s@);
    }
    Some((low, high))
}

fn build_column(
    c: &ProfileColumn,
    plan: &FitPlan,
    order: &[String],
    rows: &Vec<Vec<Value>>,
) -> (r: ColumnModel)
    ensures
        column_built(
            *c,
            plan@,
            sampled_instants(order.deep_view(), rows@, *c),
            r,
        ),
{
    let null_rate = Some(c.null_rate.copy());
    let mut levels: Option<Vec<String>> = None;
    if matches!(plan, FitPlan::Dictionary) {
        levels = match &c.levels {
            Some(l) => Some(derivation::copy_names(l.as_slice())),
            None => None,
        };
    }
    if matches!(plan, FitPlan::Epoch(_)) {
        let datetime_format: Option<String> = match &c.datetime_format {
            Some(f) => Some(f.clone()),
            None => None,
        };
        let instants = find_instants(order, rows, c);
        let (min, max) = match instant_bounds(&instants) {
            Some((a, b)) => (Some(Point::Instant(a)), Some(Point::Instant(b))),
            None => (number_point(&c.min), number_point(&c.max)),
        };
        ColumnModel {
            logical_type: LogicalType::Datetime,
            rounding: None,
            decimal_scale: None,
            datetime_format,
            min,
            max,
            levels,
            null_rate,
        }
    } else {
        let rounding: Option<u32> = if c.is_integer {
            Some(0)
        } else {
            None
        };
        ColumnModel {
            logical_type: named_type(c.logical_type.as_str()),
            rounding,
            decimal_scale: c.decimal_scale,
            datetime_format: None,
            min: number_point(&c.min),
            max: number_point(&c.max),
            levels,
            null_rate,
        }
    }
}

fn fitted_names(columns: &Vec<(String, ColumnModel)>) -> (r: Vec<String>)
    ensures
        r@.len() == columns@.len(),
        forall|k: int| 0 <= k < columns@.len() ==> (#[trigger] r@[k])@ == columns@[k].0@,
{
    let mut out: Vec<String> = Vec::new();
    let mut i: usize = 0;
    while i < columns.len()
        invariant
            i <= columns@.len(),
            out@.len() == i,
            forall|k: int| 0 <= k < i ==> (#[trigger] out@[k])@ == columns@[k].0@,
        decreases columns@.len() - i,
    {
        out.push(columns[i].0.clone());
        i = i + 1;
    }
    out
}

/// Fits a column by its plan: whether it is modelled, and what is said of it.
fn fit_column<F: Fitter>(c: &ProfileColumn, plan: &FitPlan, fitter: &mut F) -> (r: (
    bool,
    Option<String>,
    Ghost<Fit>,
))
    ensures
        (r.2@, *final(fitter)) == fit_from(*old(fitter), *c, plan@),
        r.0 == is_modelled(plan@, r.2@),
        r.1.deep_view() == fit_warning(c.name@, plan@, r.2@),
{
    let ghost mut fit = Fit { forced: Trial::Usable, selected: true };
    let name = c.name.as_str();
    let mut said: Option<String> = None;
    let modelled = match plan {
        FitPlan::Unsupported(_) => false,
        FitPlan::Dictionary => {
            fitter.keep(c, Kept::Levels);
            true
        },
        FitPlan::Point => {
            fitter.keep(c, Kept::Point);
            true
        },
        FitPlan::Auto => {
            let selected = fitter.select(c).is_ok();
            proof {
                fit = Fit { selected, ..fit };
            }
            selected
        },
        FitPlan::Forced(family) => {
            let tried = fitter.force(c, family.as_str(), false);
            proof {
                fit = Fit { forced: trial_of(tried), ..fit };
            }
            let (next, warning) = after_trial(name, family.as_str(), tried, false);
            said = warning;
            match next {
                Next::Select => {
                    let selected = fitter.select(c).is_ok();
                    proof {
                        fit = Fit { selected, ..fit };
                    }
                    selected
                },
                Next::LeftOut => false,
                _ => true,
            }
        },
        FitPlan::Epoch(None) => {
            fitter.keep(c, Kept::Instants);
            true
        },
        FitPlan::Epoch(Some(family)) => {
            let tried = fitter.force(c, family.as_str(), true);
            proof {
                fit = Fit { forced: trial_of(tried), ..fit };
            }
            let (next, warning) = after_trial(name, family.as_str(), tried, true);
            said = warning;
            if matches!(next, Next::Instants) {
                fitter.keep(c, Kept::Instants);
            }
            true
        },
    };
    (modelled, said, Ghost(fit))
}

fn push_said(list: &mut Vec<String>, said: Option<String>)
    ensures
        final(list).deep_view() == with_text(old(list).deep_view(), said.deep_view()),
{
    let ghost before = list.deep_view();
    match said {
        Some(s) => {
            let ghost more = s@;
            list.push(s);
            proof {
                assert(list.deep_view() =~= before.push(more));
            }
        },
        None => {},
    }
}

/// What fitting the columns of a table gives.
struct Fitted {
    columns: Vec<(String, ColumnModel)>,
    skipped: Vec<String>,
    warnings: Vec<String>,
}

/// The columns that could be modelled, the others, and what the fitter gave.
fn fit_columns<F: Fitter>(
    profile: &[ProfileColumn],
    forced: &Vec<(String, String)>,
    order: &[String],
    rows: &Vec<Vec<Value>>,
    fitter: &mut F,
) -> (r: (Fitted, Ghost<Seq<Fit>>))
    ensures
        (r.1@, *final(fitter)) == fits_from(*old(fitter), profile@, forced@),
        r.1@.len() == profile@.len(),
        columns_built(profile@, forced@, r.1@, order.deep_view(), rows@, r.0.columns@),
        r.0.skipped.deep_view() == left_out(profile@, forced@, r.1@),
        r.0.warnings.deep_view() == fit_warnings(profile@, forced@, r.1@),
{
    let mut columns: Vec<(String, ColumnModel)> = Vec::new();
    let mut skipped: Vec<String> = Vec::new();
    let mut warnings: Vec<String> = Vec::new();
    let ghost mut fits: Seq<Fit> = Seq::empty();
    let mut i: usize = 0;
    proof {
        assert(profile@.take(0) =~= Seq::empty());
        assert(skipped.deep_view() =~= Seq::empty());
        assert(warnings.deep_view() =~= Seq::empty());
    }
    while i < profile.len()
        invariant
            i <= profile@.len(),
            fits.len() == i,
            (fits, *fitter) == fits_from(*old(fitter), profile@.take(i as int), forced@),
            columns_built(
                profile@.take(i as int),
                forced@,
                fits,
                order.deep_view(),
                rows@,
                columns@,
            ),
            skipped.deep_view() == left_out(profile@.take(i as int), forced@, fits),
            warnings.deep_view() == fit_warnings(profile@.take(i as int), forced@, fits),
        decreases profile@.len() - i,
    {
        let ghost was = profile@.take(i as int);
        let ghost now = profile@.take(i + 1);
        let ghost fits_before = fits;
        let ghost columns_before = columns@;
        let ghost skipped_before = skipped.deep_view();
        let c = &profile[i];
        push_said(&mut warnings, training::format_warning(c));
        let plan = training::plan_fit(c, find_forced(forced, c.name.as_str()));
        let (modelled, said, Ghost(fit)) = fit_column(c, &plan, fitter);
        push_said(&mut warnings, said);
        proof {
            fits = fits.push(fit);
            assert(now.drop_last() =~= was);
            assert(now[i as int] == *c);
            assert(fits[i as int] == fit);
            lemma_modelled(was, forced@, fits_before, fits);
            assert(plan@ == plan_for(*c, forced@));
        }
        let ghost places = self::modelled(was, forced@, fits);
        if modelled {
            let built = build_column(c, &plan, order, rows);
            columns.push((c.name.clone(), built));
            proof {
                let more = places.push(i as int);
                assert(self::modelled(now, forced@, fits) == more);
                assert forall|k: int| 0 <= k < columns@.len() implies (#[trigger] columns@[k]).0@
                    == now[more[k]].name@ by {
                    if k < places.len() {
                        assert(columns@[k] == columns_before[k]);
                        assert(was[places[k]] == now[places[k]]);
                    }
                }
                assert forall|k: int| 0 <= k < columns@.len() implies column_built(
                    now[more[k]],
                    plan_for(now[more[k]], forced@),
                    sampled_instants(order.deep_view(), rows@, now[more[k]]),
                    (#[trigger] columns@[k]).1,
                ) by {
                    if k < places.len() {
                        assert(columns@[k] == columns_before[k]);
                        assert(was[places[k]] == now[places[k]]);
                    }
                }
            }
        } else {
            skipped.push(c.name.clone());
            proof {
                assert(skipped.deep_view() =~= skipped_before.push(c.name@));
                assert forall|k: int| 0 <= k < columns@.len() implies (#[trigger] columns@[k]).0@
                    == now[places[k]].name@ by {
                    assert(was[places[k]] == now[places[k]]);
                }
                assert forall|k: int| 0 <= k < columns@.len() implies column_built(
                    now[places[k]],
                    plan_for(now[places[k]], forced@),
                    sampled_instants(order.deep_view(), rows@, now[places[k]]),
                    (#[trigger] columns@[k]).1,
                ) by {
                    assert(was[places[k]] == now[places[k]]);
                }
            }
        }
        i = i + 1;
    }
    proof {
        assert(profile@.take(profile@.len() as int) =~= profile@);
    }
    (Fitted { columns, skipped, warnings }, Ghost(fits))
}

/// Builds the model of a table from a sample. Families may be forced for columns;
/// one that does not apply to its column fails the table. Columns that cannot be
/// modelled are left out, also of the key.
pub fn build_model_with_overrides<F: Fitter>(
    table: &str,
    dialect: &str,
    profile: &[ProfileColumn],
    order: &[String],
    rows: &Vec<Vec<Value>>,
    pk: &[String],
    schema: Option<&str>,
    forced: &Vec<(String, String)>,
    families: &[String],
    allowed: &[String],
    fitter: &mut F,
) -> (r: Result<BuiltModel, String>)
    ensures
        ({
            let s = Sample {
                table: table@,
                dialect: dialect@,
                schema: schema.deep_view(),
                profile: profile@,
                order: order.deep_view(),
                rows: rows@,
                pk: pk.deep_view(),
                forced: forced@,
            };
            let (fits, after) = fits_from(*old(fitter), profile@, forced@);
            match r {
                Ok(b) => {
                    &&& built(s, fits, b)
                    &&& *final(fitter) == after
                    &&& profile@.len() > 0
                    &&& forall|i: int|
                        0 <= i < forced@.len() ==> training::forced_fault(
                            table@,
                            profile@,
                            families.deep_view(),
                            allowed.deep_view(),
                            (#[trigger] forced@[i]).0@,
                            forced@[i].1@,
                        ) is None
                },
                Err(m) => {
                    ||| profile@.len() == 0 && *final(fitter) == *old(fitter) && m@ == "table '"@
                        + table@ + "' has no columns to model"@
                    ||| profile@.len() > 0 && *final(fitter) == *old(fitter)
                        && training::some_misforced(
                        table@,
                        profile@,
                        families.deep_view(),
                        allowed.deep_view(),
                        forced@,
                        m@,
                    )
                    ||| {
                        &&& profile@.len() > 0
                        &&& untrainable(s, fits)
                        &&& *final(fitter) == after
                        &&& m@ == "table '"@ + table@
                            + "' has no trainable columns (all unsupported)"@
                        &&& forall|i: int|
                            0 <= i < forced@.len() ==> training::forced_fault(
                                table@,
                                profile@,
                                families.deep_view(),
                                allowed.deep_view(),
                                (#[trigger] forced@[i]).0@,
                                forced@[i].1@,
                            ) is None
                    }
                },
            }
        }),
{
    if profile.len() == 0 {
        return Err(text::around("table '", table, "' has no columns to model"));
    }
    match training::validate_forced_marginals(table, profile, forced, families, allowed) {
        Ok(_) => {},
        Err(m) => {
            return Err(m);
        },
    }
    let (fits_made, Ghost(fits)) = fit_columns(profile, forced, order, rows, fitter);
    let Fitted { columns, skipped, warnings } = fits_made;
    let fitted = fitted_names(&columns);
    let ghost places = modelled(profile@, forced@, fits);
    proof {
        assert(fitted.deep_view() =~= names_at(profile@, places));
    }
    let assembly = match training::assemble(table, profile.len(), pk, order, fitted.as_slice()) {
        Ok(a) => a,
        Err(m) => {
            return Err(m);
        },
    };
    let samples: Option<Vec<Vec<Value>>> = if rows.len() >= 2 {
        Some(training::project_rows(rows, order, assembly.column_order.as_slice()))
    } else {
        None
    };
    let schema: Option<String> = match schema {
        Some(n) => Some(n.to_owned()),
        None => None,
    };
    let model = TableModel {
        version: model::CURRENT_VERSION,
        table: table.to_owned(),
        dialect: dialect.to_owned(),
        schema,
        provenance: Provenance {
            source: "native".to_owned(),
            converter_version: None,
            sdv_version: None,
            truncated: false,
            trained_rows: Some(rows.len()),
        },
        pk: assembly.pk,
        columns,
        column_order: assembly.column_order,
        fk_cardinality: Vec::new(),
    };
    Ok(BuiltModel { model, skipped, warnings, samples })
}

/// Every column of a sample is either in the model or left out.
pub proof fn lemma_columns_are_accounted_for(
    profile: Seq<ProfileColumn>,
    forced: Seq<(String, String)>,
    fits: Seq<Fit>,
)
    ensures
        modelled(profile, forced, fits).len() + left_out(profile, forced, fits).len()
            == profile.len(),
    decreases profile.len(),
{
    if profile.len() > 0 {
        lemma_columns_are_accounted_for(profile.drop_last(), forced, fits);
    }
}

proof fn lemma_extremes(s: Seq<i64>)
    requires
        s.len() > 0,
    ensures
        s.contains(earliest(s)),
        s.contains(latest(s)),
        forall|i: int| 0 <= i < s.len() ==> earliest(s) <= #[trigger] s[i] <= latest(s),
    decreases s.len(),
{
    assert(s[s.len() - 1] == s.last());
    if s.len() > 1 {
        let rest = s.drop_last();
        lemma_extremes(rest);
        let i = rest.index_of(earliest(rest));
        let j = rest.index_of(latest(rest));
        assert(s[i] == earliest(rest) && s[j] == latest(rest));
        assert forall|k: int| 0 <= k < s.len() implies earliest(s) <= #[trigger] s[k]
            <= latest(s) by {
            if k < rest.len() {
                assert(rest[k] == s[k]);
            }
        }
    }
}

proof fn lemma_modelled_places(
    profile: Seq<ProfileColumn>,
    forced: Seq<(String, String)>,
    fits: Seq<Fit>,
)
    requires
        profile.len() <= fits.len(),
    ensures
        ({
            let at = modelled(profile, forced, fits);
            &&& forall|k: int| 0 <= k < at.len() ==> 0 <= #[trigger] at[k] < profile.len()
            &&& forall|k: int, j: int|
                0 <= k < j < at.len() ==> #[trigger] at[k] < #[trigger] at[j]
            &&& forall|k: int|
                0 <= k < at.len() ==> is_modelled(
                    plan_for(profile[#[trigger] at[k]], forced),
                    fits[at[k]],
                )
            &&& forall|i: int|
                0 <= i < profile.len() && is_modelled(plan_for(profile[i], forced), fits[i])
                    ==> #[trigger] at.contains(i)
        }),
    decreases profile.len(),
{
    if profile.len() > 0 {
        let rest = profile.drop_last();
        lemma_modelled_places(rest, forced, fits);
        let before = modelled(rest, forced, fits);
        let at = modelled(profile, forced, fits);
        assert forall|k: int| 0 <= k < at.len() implies is_modelled(
            plan_for(profile[#[trigger] at[k]], forced),
            fits[at[k]],
        ) by {
            if k < before.len() {
                assert(rest[before[k]] == profile[before[k]]);
            }
        }
        assert forall|i: int| 0 <= i < profile.len() && is_modelled(
            plan_for(profile[i], forced),
            fits[i],
        ) implies #[trigger] at.contains(i) by {
            if i < rest.len() {
                assert(rest[i] == profile[i]);
                assert(before.contains(i));
                let k = before.index_of(i);
                assert(at[k] == i);
            } else {
                assert(at[at.len() - 1] == i);
            }
        }
    }
}

/// What a column's model says follows from its profile: its type is the one that is named
/// there, whole numbers stay whole and digits are kept, its dictionary is the one that was
/// profiled, and NULLs come at the rate that was seen.
pub open spec fn models_profile(c: ProfileColumn, m: ColumnModel) -> bool {
    let kind = c.logical_type@;
    let instants = kind == "datetime"@ && c.datetime_format is Some;
    &&& kind == "categorical"@ ==> m.logical_type == LogicalType::Categorical
    &&& kind == "datetime"@ ==> m.logical_type == LogicalType::Datetime
    &&& kind == "numerical"@ ==> m.logical_type == LogicalType::Numerical
    &&& instants ==> m.datetime_format.deep_view() == c.datetime_format.deep_view()
    &&& !instants ==> m.datetime_format is None
    &&& !instants && c.is_integer ==> m.rounding == Some(0u32)
    &&& !instants && !c.is_integer ==> m.rounding is None
    &&& !instants ==> m.decimal_scale == c.decimal_scale
    &&& !instants ==> (m.min.deep_view() == match c.min {
        Some(s) => Some(Mark::Number(s@)),
        None => None,
    })
    &&& !instants ==> (m.max.deep_view() == match c.max {
        Some(s) => Some(Mark::Number(s@)),
        None => None,
    })
    &&& m.levels is Some ==> m.levels.deep_view() == c.levels.deep_view()
    &&& m.null_rate is Some
    &&& m.null_rate->0.text@ == c.null_rate.text@
    &&& m.null_rate->0.positive == c.null_rate.positive
}

/// The columns of a built model are profiled columns, in their order, each modelled as its
/// profile says.
pub proof fn lemma_models_follow_the_profile(s: Sample, fits: Seq<Fit>, b: BuiltModel, k: int)
    requires
        built(s, fits, b),
        0 <= k < b.model.columns@.len(),
    ensures
        exists|i: int|
            #![trigger s.profile[i]]
            0 <= i < s.profile.len() && b.model.columns@[k].0@ == s.profile[i].name@
                && models_profile(s.profile[i], b.model.columns@[k].1),
{
    let at = modelled(s.profile, s.forced, fits);
    lemma_modelled_places(s.profile, s.forced, fits);
    let i = at[k];
    let c = s.profile[i];
    let m = b.model.columns@[k].1;
    assert(b.model.columns@[k].0@ == c.name@);
    assert(column_built(c, plan_for(c, s.forced), sampled_instants(s.order, s.rows, c), m));
    reveal_strlit("categorical");
    reveal_strlit("datetime");
    reveal_strlit("numerical");
    assert("categorical"@.len() != "datetime"@.len());
    assert("categorical"@.len() != "numerical"@.len());
    assert("datetime"@.len() != "numerical"@.len());
    assert(models_profile(c, m));
}

/// A column that is profiled as categorical, with a dictionary and no forced family, is
/// modelled, and keeps its dictionary; what is drawn for it is the text of a level as it
/// stands, not a number.
pub proof fn lemma_categorical_levels_stay_texts(
    s: Sample,
    fits: Seq<Fit>,
    b: BuiltModel,
    i: int,
    level: Seq<char>,
    enforce: bool,
)
    requires
        built(s, fits, b),
        0 <= i < s.profile.len(),
        s.profile[i].logical_type@ == "categorical"@,
        s.profile[i].levels is Some,
        forced_for(s.forced, s.profile[i].name@) is None,
    ensures
        exists|k: int|
            #![trigger b.model.columns@[k]]
            0 <= k < b.model.columns@.len() && b.model.columns@[k].0@ == s.profile[i].name@
                && b.model.columns@[k].1.levels.deep_view() == s.profile[i].levels.deep_view()
                && (!domain::never_filled(b.model.columns@[k].1) ==> domain::drawn_cell(
                Some(b.model.columns@[k].1),
                Draw::Level(level),
                enforce,
            ) == Cell::Text(level)),
{
    let at = modelled(s.profile, s.forced, fits);
    let c = s.profile[i];
    lemma_modelled_places(s.profile, s.forced, fits);
    reveal_strlit("categorical");
    reveal_strlit("datetime");
    reveal_strlit("numerical");
    assert("categorical"@.len() != "datetime"@.len());
    assert("categorical"@.len() != "numerical"@.len());
    assert(plan_for(c, s.forced) is Dictionary);
    assert(at.contains(i));
    let k = at.index_of(i);
    let m = b.model.columns@[k].1;
    assert(b.model.columns@[k].0@ == c.name@);
    assert(column_built(c, plan_for(c, s.forced), sampled_instants(s.order, s.rows, c), m));
    assert(m.logical_type == LogicalType::Categorical);
}

/// The bounds of a column that is modelled by its instants are instants of the sample, and
/// all of them lie between.
pub proof fn lemma_instants_lie_between_the_bounds(
    s: Sample,
    fits: Seq<Fit>,
    b: BuiltModel,
    k: int,
    i: int,
)
    requires
        built(s, fits, b),
        0 <= k < b.model.columns@.len(),
        0 <= i < s.profile.len(),
        i == modelled(s.profile, s.forced, fits)[k],
        s.profile[i].logical_type@ == "datetime"@,
        s.profile[i].datetime_format is Some,
        sampled_instants(s.order, s.rows, s.profile[i]).len() > 0,
    ensures
        ({
            let all = sampled_instants(s.order, s.rows, s.profile[i]);
            let m = b.model.columns@[k].1;
            &&& m.min.deep_view() matches Some(Mark::Instant(low))
            &&& m.max.deep_view() matches Some(Mark::Instant(high))
            &&& all.contains(low)
            &&& all.contains(high)
            &&& forall|j: int| 0 <= j < all.len() ==> low <= #[trigger] all[j] <= high
        }),
{
    let c = s.profile[i];
    let all = sampled_instants(s.order, s.rows, c);
    lemma_extremes(all);
    assert(column_built(c, plan_for(c, s.forced), all, b.model.columns@[k].1));
}

} // verus!

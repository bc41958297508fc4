//! Running a translated plan on DuckDB.
//!
//! An [`Execution`] decides what to ask of the database, one action at a time; the caller carries the
//! action out and reports what came of it. A run opens a connection, applies the configuration,
//! registers the Arrow batches of every source as a view, and then runs the query. The first failure
//! ends it.
use std::sync::Arc;
use vstd::prelude::*;

use crate::error::{DaftError, ErrorView};
use crate::local_plan::{LocalPhysicalPlan, SourceId};
use crate::plan_sql::{
    plan_in_schema, plan_sources, plan_sql, plan_to_sql, source_view_name, sql_plan,
    sql_plan_result, view_name, SqlPlan,
};
use crate::rebatch::{all_ranges, rebatch, RowRange, TARGET_ROWS_PER_BATCH};
use crate::text::{debug_string, debug_text, decimal, push_decimal};

verus! {

/// Tuning for an execution. `None` leaves the default of the database (all cores, most of the memory);
/// a worker that runs many tasks at once caps both per task.
#[derive(Debug, Clone)]
pub struct DuckDbConfig {
    pub threads: Option<u64>,
    pub memory_limit: Option<String>,
}

impl Default for DuckDbConfig {
    fn default() -> (r: Self)
        ensures
            r == (DuckDbConfig { threads: None, memory_limit: None }),
    {
        DuckDbConfig { threads: None, memory_limit: None }
    }
}

/// What the execution asks for next.
#[derive(Debug)]
pub enum Action {
    /// Open a connection to a new database in memory.
    Open,
    /// Run a statement.
    Execute(String),
    /// Convert the partitions of a source to Arrow batches, and count their rows.
    Fetch(SourceId),
    /// Register the batches of the source, cut into the row ranges that [`Execution::ranges`] gives, as a
    /// view of that name.
    Register(SourceId, String),
    /// Run the query and collect its result.
    Query(String),
    /// Nothing more to do.
    Finish(Result<(), DaftError>),
}

/// An [`Action`] with its texts as sequences of characters.
pub enum ActionView {
    Open,
    Execute(Seq<char>),
    Fetch(SourceId),
    Register(SourceId, Seq<char>),
    Query(Seq<char>),
    Finish(Result<(), ErrorView>),
}

impl View for Action {
    type V = ActionView;

    open spec fn view(&self) -> ActionView {
        match *self {
            Action::Open => ActionView::Open,
            Action::Execute(s) => ActionView::Execute(s@),
            Action::Fetch(id) => ActionView::Fetch(id),
            Action::Register(id, name) => ActionView::Register(id, name@),
            Action::Query(s) => ActionView::Query(s@),
            Action::Finish(Ok(_)) => ActionView::Finish(Ok(())),
            Action::Finish(Err(e)) => ActionView::Finish(Err(e@)),
        }
    }
}

/// What came of an action.
#[derive(Debug)]
pub enum Event {
    /// It succeeded.
    Done,
    /// It failed.
    Failed(DaftError),
    /// A fetch found no partitions for the source.
    NoPartitions,
    /// A fetch succeeded with batches of this many rows each.
    Batches(Vec<usize>),
}

/// The error for a source without partitions.
pub open spec fn no_partitions_view(id: SourceId) -> ErrorView {
    ErrorView::ValueError("duckdb POC: no input partitions for source "@ + decimal(id as nat))
}

/// The error for a source without batches.
pub open spec fn no_batches_view(id: SourceId) -> ErrorView {
    ErrorView::ValueError(
        "duckdb POC: source "@ + decimal(id as nat) + " has no record batches"@,
    )
}

/// The error for a memory limit with a quote in it, which could leave the literal it is put in.
pub open spec fn invalid_limit_view(limit: Seq<char>) -> ErrorView {
    ErrorView::ValueError("duckdb POC: invalid memory_limit "@ + debug_text(limit))
}

/// The event can come of the action: a fetch that does not fail reports its batches, or that there are no
/// partitions, and any other action that does not fail is done.
pub open spec fn answers(action: ActionView, event: Event) -> bool {
    match event {
        Event::Failed(_) => true,
        Event::Done => !(action is Fetch),
        Event::NoPartitions => action is Fetch,
        Event::Batches(_) => action is Fetch,
    }
}

/// The error that the event means for the action, if any.
pub open spec fn failure(action: ActionView, event: Event) -> Option<ErrorView> {
    match (event, action) {
        (Event::Failed(e), _) => Some(e@),
        (Event::NoPartitions, ActionView::Fetch(id)) => Some(no_partitions_view(id)),
        (Event::Batches(rows), ActionView::Fetch(id)) => if rows@.len() == 0 {
            Some(no_batches_view(id))
        } else {
            None
        },
        _ => None,
    }
}

/// The actions that apply the configuration: the thread cap first, then the memory limit, which is
/// refused if there is a quote in it.
pub open spec fn setup_script(config: DuckDbConfig) -> Seq<ActionView> {
    let threads = match config.threads {
        Some(n) => seq![ActionView::Execute("SET threads="@ + decimal(n as nat) + ";"@)],
        None => Seq::empty(),
    };
    let memory = match config.memory_limit {
        Some(limit) => if limit@.contains('\'') {
            seq![ActionView::Finish(Err(invalid_limit_view(limit@)))]
        } else {
            seq![ActionView::Execute("SET memory_limit='"@ + limit@ + "';"@)]
        },
        None => Seq::empty(),
    };
    threads + memory
}

/// The actions that register the sources, in order.
pub open spec fn source_script(bindings: Seq<SourceId>) -> Seq<ActionView>
    decreases bindings.len(),
{
    if bindings.len() == 0 {
        Seq::empty()
    } else {
        let id = bindings.last();
        source_script(bindings.drop_last()) + seq![
            ActionView::Fetch(id),
            ActionView::Register(id, view_name(id)),
        ]
    }
}

/// The actions of a run that does not fail.
pub open spec fn run_script(
    opening: Seq<ActionView>,
    bindings: Seq<SourceId>,
    sql: Seq<char>,
    repeat: nat,
) -> Seq<ActionView> {
    opening + source_script(bindings) + Seq::new(repeat, |i: int| ActionView::Query(sql))
        + seq![ActionView::Finish(Ok(()))]
}

/// The actions that open a connection and apply the configuration.
pub open spec fn open_script(config: DuckDbConfig) -> Seq<ActionView> {
    seq![ActionView::Open] + setup_script(config)
}

fn contains_quote(s: &str) -> (r: bool)
    ensures
        r == s@.contains('\''),
{
    let mut found = false;
    for c in it: s.chars()
        invariant
            it.seq() == s@,
            found == exists|k: int| 0 <= k < it.index() && #[trigger] s@[k] == '\'',
    {
        if c == '\'' {
            assert(s@[it.index() as int] == '\'');
            found = true;
        }
    }
    found
}

/// The actions of a list, seen as views.
pub open spec fn action_views(actions: Seq<Action>) -> Seq<ActionView> {
    actions.map_values(|a: Action| a@)
}

/// The actions that open a connection and apply the configuration.
fn open_conn(config: &DuckDbConfig) -> (r: Vec<Action>)
    ensures
        action_views(r@) == open_script(*config),
{
    let mut actions: Vec<Action> = Vec::new();
    actions.push(Action::Open);
    assert(action_views(actions@) =~= seq![ActionView::Open]);
    match config.threads {
        Some(threads) => {
            let mut s = "SET threads=".to_owned();
            push_decimal(&mut s, threads as u128);
            s.append(";");
            let ghost before = actions@;
            actions.push(Action::Execute(s));
            assert(action_views(actions@) =~= action_views(before).push(ActionView::Execute(s@)));
        },
        None => {},
    }
    match &config.memory_limit {
        Some(limit) => {
            let ghost before = actions@;
            if contains_quote(limit.as_str()) {
                let mut m = "duckdb POC: invalid memory_limit ".to_owned();
                m.append(debug_string(limit.as_str()).as_str());
                actions.push(Action::Finish(Err(DaftError::ValueError(m))));
            } else {
                let mut s = "SET memory_limit='".to_owned();
                s.append(limit.as_str());
                s.append("';");
                actions.push(Action::Execute(s));
            }
            assert(action_views(actions@) =~= action_views(before).push(actions@.last()@));
        },
        None => {},
    }
    assert(action_views(actions@) =~= open_script(*config));
    actions
}

/// No source is fetched or registered.
spec fn touches_no_source(actions: Seq<ActionView>) -> bool {
    forall|k: int|
        0 <= k < actions.len() ==> !((#[trigger] actions[k]) is Fetch) && !(actions[k] is Register)
}

/// Where a run is.
#[derive(Debug, Clone, Copy, PartialEq, Eq, Structural)]
enum Phase {
    Opening(usize),
    Fetch(usize),
    Register(usize),
    Query(usize),
    Done,
    Failed,
}

/// A run, between two actions.
#[derive(Debug)]
pub struct Execution {
    opening: Vec<Action>,
    bindings: Vec<SourceId>,
    sql: String,
    repeat: usize,
    phase: Phase,
    /// The rows of the batches that were fetched last.
    fetched: Vec<usize>,
}

impl Execution {
    /// The actions of the run, if nothing fails.
    pub closed spec fn script(&self) -> Seq<ActionView> {
        run_script(
            action_views(self.opening@),
            self.bindings@,
            self.sql@,
            self.repeat as nat,
        )
    }

    /// The position of the current action in the script.
    pub closed spec fn position(&self) -> int {
        let o = self.opening@.len() as int;
        let b = self.bindings@.len() as int;
        match self.phase {
            Phase::Opening(i) => i as int,
            Phase::Fetch(i) => o + 2 * i,
            Phase::Register(i) => o + 2 * i + 1,
            Phase::Query(i) => o + 2 * b + i,
            Phase::Done => o + 2 * b + self.repeat,
            Phase::Failed => -1,
        }
    }

    /// The rows of each of the batches that were fetched last.
    pub closed spec fn fetched_rows(&self) -> Seq<usize> {
        self.fetched@
    }

    /// An action has failed, and the run with it.
    pub closed spec fn failed(&self) -> bool {
        self.phase is Failed
    }

    /// The position is one of the script's, and opening the connection touches no source.
    pub closed spec fn wf(&self) -> bool {
        &&& touches_no_source(action_views(self.opening@))
        &&& match self.phase {
            Phase::Opening(i) => i < self.opening@.len(),
            Phase::Fetch(i) => i < self.bindings@.len(),
            Phase::Register(i) => i < self.bindings@.len(),
            Phase::Query(i) => i < self.repeat,
            Phase::Done => true,
            Phase::Failed => true,
        }
    }

    /// The run has nothing more to do.
    pub open spec fn finished(&self) -> bool {
        self.failed() || self.script()[self.position()] is Finish
    }

    /// A run at its first action.
    fn start(opening: Vec<Action>, bindings: Vec<SourceId>, sql: String, repeat: usize) -> (r: Self)
        requires
            touches_no_source(action_views(opening@)),
        ensures
            r.wf(),
            !r.failed(),
            r.position() == 0,
            r.script() == run_script(action_views(opening@), bindings@, sql@, repeat as nat),
    {
        let phase = if opening.len() > 0 {
            Phase::Opening(0)
        } else if bindings.len() > 0 {
            Phase::Fetch(0)
        } else if repeat > 0 {
            Phase::Query(0)
        } else {
            Phase::Done
        };
        Execution { opening, bindings, sql, repeat, phase, fetched: Vec::new() }
    }

    /// The action to carry out now.
    pub fn action(&self) -> (r: Action)
        requires
            self.wf(),
            !self.failed(),
        ensures
            0 <= self.position() < self.script().len(),
            r@ == self.script()[self.position()],
    {
        proof {
            script_at(
                action_views(self.opening@),
                self.bindings@,
                self.sql@,
                self.repeat as nat,
                self.position(),
            );
        }
        match self.phase {
            Phase::Opening(i) => copy_action(&self.opening[i]),
            Phase::Fetch(i) => Action::Fetch(self.bindings[i]),
            Phase::Register(i) => Action::Register(
                self.bindings[i],
                source_view_name(self.bindings[i]),
            ),
            Phase::Query(_) => Action::Query(self.sql.clone()),
            _ => Action::Finish(Ok(())),
        }
    }

    /// The row ranges in which the batches that were fetched last are registered: none has more rows than
    /// the database scans at a time.
    pub fn ranges(&self) -> (r: Vec<RowRange>)
        ensures
            r@ == all_ranges(self.fetched_rows(), TARGET_ROWS_PER_BATCH as nat),
    {
        rebatch(&self.fetched, TARGET_ROWS_PER_BATCH)
    }

    /// Reports what came of the current action, and gives the next one. A failure ends the run with its
    /// error; else the run goes on with the next action of its script. A source is registered only with
    /// the batches that its own fetch has just reported.
    pub fn next(&mut self, event: Event) -> (r: Action)
        requires
            old(self).wf(),
            !old(self).finished(),
            answers(old(self).script()[old(self).position()], event),
        ensures
            final(self).wf(),
            final(self).script() == old(self).script(),
            final(self).fetched_rows() == match (old(self).script()[old(self).position()], event) {
                (ActionView::Fetch(_), Event::Batches(rows)) => rows@,
                _ => old(self).fetched_rows(),
            },
            match failure(old(self).script()[old(self).position()], event) {
                Some(e) => final(self).failed() && r@ == ActionView::Finish(Err(e)),
                None => {
                    &&& !final(self).failed()
                    &&& final(self).position() == old(self).position() + 1
                    &&& r@ == final(self).script()[final(self).position()]
                },
            },
            r@ matches ActionView::Register(id, _) ==> {
                &&& old(self).script()[old(self).position()] == ActionView::Fetch(id)
                &&& event matches Event::Batches(rows)
                &&& final(self).fetched_rows() == rows@
            },
    {
        proof {
            script_at(
                action_views(self.opening@),
                self.bindings@,
                self.sql@,
                self.repeat as nat,
                self.position(),
            );
        }
        assert(self.opening@.len() == self.opening.len());
        assert(self.bindings@.len() == self.bindings.len());
        let fetched = match self.phase {
            Phase::Fetch(i) => Some(self.bindings[i]),
            _ => None,
        };
        match (event, fetched) {
            (Event::Failed(e), _) => {
                self.phase = Phase::Failed;
                return Action::Finish(Err(e));
            },
            (Event::NoPartitions, Some(id)) => {
                self.phase = Phase::Failed;
                let mut m = "duckdb POC: no input partitions for source ".to_owned();
                push_decimal(&mut m, id as u128);
                return Action::Finish(Err(DaftError::ValueError(m)));
            },
            (Event::Batches(rows), Some(id)) => {
                let count: usize = rows.len();
                self.fetched = rows;
                if count == 0 {
                    self.phase = Phase::Failed;
                    let mut m = "duckdb POC: source ".to_owned();
                    push_decimal(&mut m, id as u128);
                    m.append(" has no record batches");
                    return Action::Finish(Err(DaftError::ValueError(m)));
                }
            },
            _ => {},
        }
        self.phase = match self.phase {
            Phase::Opening(i) => if i + 1 < self.opening.len() {
                Phase::Opening(i + 1)
            } else {
                self.first_fetch()
            },
            Phase::Fetch(i) => Phase::Register(i),
            Phase::Register(i) => if i + 1 < self.bindings.len() {
                Phase::Fetch(i + 1)
            } else {
                self.first_query()
            },
            Phase::Query(i) => if i + 1 < self.repeat {
                Phase::Query(i + 1)
            } else {
                Phase::Done
            },
            _ => Phase::Done,
        };
        proof {
            script_at(
                action_views(self.opening@),
                self.bindings@,
                self.sql@,
                self.repeat as nat,
                self.position(),
            );
        }
        self.action()
    }

    fn first_query(&self) -> (r: Phase)
        ensures
            r == if self.repeat > 0 {
                Phase::Query(0)
            } else {
                Phase::Done
            },
    {
        if self.repeat > 0 {
            Phase::Query(0)
        } else {
            Phase::Done
        }
    }

    fn first_fetch(&self) -> (r: Phase)
        ensures
            r == if self.bindings@.len() > 0 {
                Phase::Fetch(0)
            } else if self.repeat > 0 {
                Phase::Query(0)
            } else {
                Phase::Done
            },
    {
        if self.bindings.len() > 0 {
            Phase::Fetch(0)
        } else {
            self.first_query()
        }
    }
}

fn copy_error(e: &DaftError) -> (r: DaftError)
    ensures
        r@ == e@,
{
    match e {
        DaftError::NotImplemented(m) => DaftError::NotImplemented(m.clone()),
        DaftError::ValueError(m) => DaftError::ValueError(m.clone()),
        DaftError::FieldNotFound(m) => DaftError::FieldNotFound(m.clone()),
        DaftError::External(m) => DaftError::External(m.clone()),
    }
}

fn copy_action(a: &Action) -> (r: Action)
    ensures
        r@ == a@,
{
    match a {
        Action::Open => Action::Open,
        Action::Execute(s) => Action::Execute(s.clone()),
        Action::Fetch(id) => Action::Fetch(*id),
        Action::Register(id, name) => Action::Register(*id, name.clone()),
        Action::Query(s) => Action::Query(s.clone()),
        Action::Finish(Ok(_)) => Action::Finish(Ok(())),
        Action::Finish(Err(e)) => Action::Finish(Err(copy_error(e))),
    }
}

/// Each source takes two actions.
proof fn source_script_at(bindings: Seq<SourceId>)
    ensures
        source_script(bindings).len() == 2 * bindings.len(),
        forall|i: int|
            #![trigger bindings[i]]
            0 <= i < bindings.len() ==> source_script(bindings)[2 * i] == ActionView::Fetch(
                bindings[i],
            ) && source_script(bindings)[2 * i + 1] == ActionView::Register(
                bindings[i],
                view_name(bindings[i]),
            ),
    decreases bindings.len(),
{
    if bindings.len() > 0 {
        let init = bindings.drop_last();
        source_script_at(init);
        assert forall|i: int|
            #![trigger bindings[i]]
            0 <= i < bindings.len() implies source_script(bindings)[2 * i] == ActionView::Fetch(
            bindings[i],
        ) && source_script(bindings)[2 * i + 1] == ActionView::Register(
            bindings[i],
            view_name(bindings[i]),
        ) by {
            if i < init.len() {
                assert(init[i] == bindings[i]);
            }
        }
    }
}

/// What the script holds at a position.
proof fn script_at(
    opening: Seq<ActionView>,
    bindings: Seq<SourceId>,
    sql: Seq<char>,
    repeat: nat,
    at: int,
)
    ensures
        run_script(opening, bindings, sql, repeat).len() == opening.len() + 2 * bindings.len()
            + repeat + 1,
        ({
            let script = run_script(opening, bindings, sql, repeat);
            let o = opening.len() as int;
            let b = bindings.len() as int;
            &&& 0 <= at < o ==> script[at] == opening[at]
            &&& o <= at < o + 2 * b && (at - o) % 2 == 0 ==> script[at] == ActionView::Fetch(
                bindings[(at - o) / 2],
            )
            &&& o <= at < o + 2 * b && (at - o) % 2 == 1 ==> script[at] == ActionView::Register(
                bindings[(at - o) / 2],
                view_name(bindings[(at - o) / 2]),
            )
            &&& o + 2 * b <= at < o + 2 * b + repeat ==> script[at] == ActionView::Query(sql)
            &&& at == o + 2 * b + repeat ==> script[at] == ActionView::Finish(Ok(()))
        }),
{
    source_script_at(bindings);
    let o = opening.len() as int;
    let b = bindings.len() as int;
    if o <= at < o + 2 * b {
        let i = (at - o) / 2;
        assert(0 <= i < b);
        assert(run_script(opening, bindings, sql, repeat)[at] == source_script(bindings)[at - o]);
        if (at - o) % 2 == 0 {
            assert(at - o == 2 * i);
        } else {
            assert(at - o == 2 * i + 1);
        }
    }
}

/// Every source of a run is registered before the query first runs, under the view name that the query
/// reads; and the query runs as often as it was asked for.
pub proof fn views_are_registered_before_queries(
    opening: Seq<ActionView>,
    bindings: Seq<SourceId>,
    sql: Seq<char>,
    repeat: nat,
    at: int,
    i: int,
)
    requires
        forall|k: int| 0 <= k < opening.len() ==> !((#[trigger] opening[k]) is Query),
        0 <= at < run_script(opening, bindings, sql, repeat).len(),
        0 <= i < bindings.len(),
    ensures
        run_script(opening, bindings, sql, repeat)[at] is Query <==> opening.len() + 2
            * bindings.len() <= at < opening.len() + 2 * bindings.len() + repeat,
        run_script(opening, bindings, sql, repeat)[opening.len() + 2 * i + 1]
            == ActionView::Register(bindings[i], view_name(bindings[i])),
        run_script(opening, bindings, sql, repeat)[at] is Query ==> opening.len() + 2 * i + 1 < at,
{
    script_at(opening, bindings, sql, repeat, at);
    script_at(opening, bindings, sql, repeat, opening.len() + 2 * i + 1);
}

/// A memory limit that could leave its literal is never executed: the run fails before it gets there.
pub proof fn quoted_limit_is_refused(config: DuckDbConfig, k: int)
    requires
        config.memory_limit matches Some(limit) && limit@.contains('\''),
        0 <= k < open_script(config).len(),
    ensures
        open_script(config).last() is Finish,
        open_script(config)[k] matches ActionView::Execute(s) ==> (config.threads matches Some(n)
            && s == "SET threads="@ + decimal(n as nat) + ";"@),
{
}

/// Runs plans, each on a connection of its own.
#[derive(Debug)]
pub struct DuckDbExecutor;

/// The outcome of preparing a run: the run at its first action, or the error of the translation.
pub open spec fn prepared(
    r: Result<Execution, DaftError>,
    plan: LocalPhysicalPlan,
    opening: Seq<ActionView>,
    repeat: nat,
) -> bool {
    match (r, plan_sql(plan)) {
        (Ok(run), Ok(sql)) => {
            &&& run.wf()
            &&& !run.failed()
            &&& run.position() == 0
            &&& run.script() == run_script(opening, plan_sources(plan), sql, repeat)
        },
        (Err(e), Err(f)) => e@ == f,
        _ => false,
    }
}

impl DuckDbExecutor {
    /// Prepares a run of the plan with default tuning.
    pub fn run(plan: &Arc<LocalPhysicalPlan>) -> (r: Result<Execution, DaftError>)
        requires
            plan_in_schema(**plan),
        ensures
            prepared(
                r,
                **plan,
                open_script(DuckDbConfig { threads: None, memory_limit: None }),
                1,
            ),
    {
        Self::run_with_config(plan, &DuckDbConfig::default())
    }

    /// Prepares a run of the plan with the given tuning. A plan that cannot be translated fails before
    /// a connection is opened.
    pub fn run_with_config(plan: &Arc<LocalPhysicalPlan>, config: &DuckDbConfig) -> (r: Result<
        Execution,
        DaftError,
    >)
        requires
            plan_in_schema(**plan),
        ensures
            prepared(r, **plan, open_script(*config), 1),
    {
        Self::bench_runs(plan, config, 1)
    }

    /// Prepares a run that registers the sources once and then runs the query `repeat` times, so that
    /// the cost of registering can be told from that of the query.
    pub fn bench_runs(
        plan: &Arc<LocalPhysicalPlan>,
        config: &DuckDbConfig,
        repeat: usize,
    ) -> (r: Result<Execution, DaftError>)
        requires
            plan_in_schema(**plan),
        ensures
            prepared(r, **plan, open_script(*config), repeat as nat),
    {
        let translated = plan_to_sql(plan)?;
        Ok(Execution::start(open_conn(config), translated.bindings, translated.sql, repeat))
    }
}

/// `Arc::ptr_eq`: two shared plans that lie at the same address are the same plan. Nothing is said of
/// plans at different addresses, which may be equal all the same.
#[verifier::external_body]
fn is_same_plan(a: &Arc<LocalPhysicalPlan>, b: &Arc<LocalPhysicalPlan>) -> (r: bool)
    ensures
        r ==> *a == *b,
{
    Arc::ptr_eq(a, b)
}

/// Runs many plans on one connection. The connection is opened and configured once, and the translation
/// of the last plan is kept, together with the plan, while the same plan is run again.
#[derive(Debug)]
pub struct DuckDbSession {
    cached: Option<(Arc<LocalPhysicalPlan>, SqlPlan)>,
}

impl DuckDbSession {
    /// The plan whose translation is kept.
    pub closed spec fn kept(&self) -> Option<Arc<LocalPhysicalPlan>> {
        match self.cached {
            Some((plan, _)) => Some(plan),
            None => None,
        }
    }

    /// The translation that is kept is that of the plan it is kept with.
    pub closed spec fn wf(&self) -> bool {
        self.cached matches Some((plan, translated)) ==> sql_plan(*plan) == Ok::<
            (Seq<char>, Seq<SourceId>),
            ErrorView,
        >(translated.parts())
    }

    /// A session without a translation, and the run that opens and configures its connection.
    pub fn new(config: &DuckDbConfig) -> (r: (DuckDbSession, Execution))
        ensures
            r.0.wf(),
            r.0.kept() is None,
            r.1.wf(),
            !r.1.failed(),
            r.1.position() == 0,
            r.1.script() == open_script(*config) + seq![ActionView::Finish(Ok(()))],
    {
        let sql = "".to_owned();
        let bindings: Vec<SourceId> = Vec::new();
        let setup = Execution::start(open_conn(config), bindings, sql, 0);
        assert(setup.script() =~= open_script(*config) + seq![ActionView::Finish(Ok(()))]);
        (DuckDbSession { cached: None }, setup)
    }

    /// The translation of the plan: the one that is kept if it is that of the same plan, else a new one,
    /// which is kept from now on. A plan that cannot be translated changes nothing.
    fn translated(&mut self, plan: &Arc<LocalPhysicalPlan>) -> (r: Result<SqlPlan, DaftError>)
        requires
            old(self).wf(),
            plan_in_schema(**plan),
        ensures
            final(self).wf(),
            sql_plan_result(r) == sql_plan(**plan),
            final(self).kept() == match sql_plan(**plan) {
                Ok(_) => Some(*plan),
                Err(_) => old(self).kept(),
            },
    {
        match &self.cached {
            Some((kept, translated)) => {
                if is_same_plan(kept, plan) {
                    return Ok(translated.clone());
                }
            },
            None => {},
        }
        let fresh = plan_to_sql(plan)?;
        self.cached = Some((plan.clone(), fresh.clone()));
        Ok(fresh)
    }

    /// Prepares a run of the plan on the session's connection: the sources are registered anew, and the
    /// query is run once. Whatever was run before, the run is that of this plan.
    pub fn run(&mut self, plan: &Arc<LocalPhysicalPlan>) -> (r: Result<Execution, DaftError>)
        requires
            old(self).wf(),
            plan_in_schema(**plan),
        ensures
            final(self).wf(),
            prepared(r, **plan, Seq::empty(), 1),
            final(self).kept() == match sql_plan(**plan) {
                Ok(_) => Some(*plan),
                Err(_) => old(self).kept(),
            },
    {
        let translated = self.translated(plan)?;
        let opening: Vec<Action> = Vec::new();
        assert(action_views(opening@) =~= Seq::empty());
        Ok(Execution::start(opening, translated.bindings, translated.sql, 1))
    }
}

} // verus!

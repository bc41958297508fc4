//! What the actions of a run do to the database they are carried out on.
//!
//! The database is modelled by what it has been told: the settings, the views and the queries. A statement
//! that it cannot make sense of, and an action that comes too early, have no outcome.
use std::sync::Arc;
use vstd::prelude::*;

use crate::error::{DaftError, ErrorView};
use crate::executor::{
    answers, failure, open_script, prepared, run_script, setup_script, source_script, ActionView,
    DuckDbConfig, Event, Execution,
};
use crate::expr_laws::decimal_has_digits;
use crate::local_plan::{LocalPhysicalPlan, SourceId};
use crate::plan_laws::{is_sound, translated_plans_keep_their_meaning, views_hold};
use crate::plan_meaning::plan_table;
use crate::plan_sql::{
    all_scans, every_scan_is_bound, plan_sources, plan_sql, view_name, view_names_are_distinct,
};
use crate::sql_read::{begins, behind, query_table, read_query, SqlQuery, Table};
use crate::sql_value::Value;
use crate::text::{decimal, decimal_is_injective, decimal_reads_back, decimal_value};

verus! {

/// A database and what is asked of it.
#[verifier::ext_equal]
pub struct Database {
    pub is_open: bool,
    /// The number of threads that it was told to use.
    pub threads: Option<nat>,
    /// The memory that it was told to use at most.
    pub memory_limit: Option<Seq<char>>,
    /// The source behind each view.
    pub views: Map<Seq<char>, SourceId>,
    /// The source whose batches are at hand.
    pub fetched: Option<SourceId>,
    /// The queries that were run, in order.
    pub queries: Seq<Seq<char>>,
    /// How the run ended, if it did.
    pub outcome: Option<Result<(), ErrorView>>,
}

/// Before a run.
pub open spec fn no_database() -> Database {
    Database {
        is_open: false,
        threads: None,
        memory_limit: None,
        views: Map::empty(),
        fetched: None,
        queries: Seq::empty(),
        outcome: None,
    }
}

/// Reads `SET name=value;`.
pub open spec fn read_setting(text: Seq<char>) -> Option<(Seq<char>, Seq<char>)> {
    let rest = behind(text, "SET "@);
    match rest.index_of_first('=') {
        Some(p) => if begins(text, "SET "@) && rest.len() > p + 1 && rest.last() == ';' {
            Some((rest.take(p), rest.subrange(p + 1, rest.len() - 1)))
        } else {
            None
        },
        None => None,
    }
}

/// The value is a number.
pub open spec fn is_number(value: Seq<char>) -> bool {
    value.len() > 0 && forall|i: int| 0 <= i < value.len() ==> '0' <= #[trigger] value[i] <= '9'
}

/// The value is one text in quotes.
pub open spec fn is_quoted_text(value: Seq<char>) -> bool {
    &&& value.len() >= 2
    &&& value[0] == '\''
    &&& value.last() == '\''
    &&& !value.subrange(1, value.len() - 1).contains('\'')
}

/// The database after a statement: only settings are known.
pub open spec fn after_statement(db: Database, text: Seq<char>) -> Option<Database> {
    match read_setting(text) {
        Some((name, value)) => if name == "threads"@ && is_number(value) {
            Some(Database { threads: Some(decimal_value(value)), ..db })
        } else if name == "memory_limit"@ && is_quoted_text(value) {
            Some(Database { memory_limit: Some(value.subrange(1, value.len() - 1)), ..db })
        } else {
            None
        },
        None => None,
    }
}

/// The database after an action.
pub open spec fn after(db: Database, action: ActionView) -> Option<Database> {
    match action {
        ActionView::Open => if db.is_open {
            None
        } else {
            Some(Database { is_open: true, ..db })
        },
        ActionView::Execute(text) => if db.is_open {
            after_statement(db, text)
        } else {
            None
        },
        ActionView::Fetch(id) => Some(Database { fetched: Some(id), ..db }),
        ActionView::Register(id, name) => if db.is_open && db.fetched == Some(id) {
            Some(Database { views: db.views.insert(name, id), ..db })
        } else {
            None
        },
        ActionView::Query(sql) => if db.is_open {
            Some(Database { queries: db.queries.push(sql), ..db })
        } else {
            None
        },
        ActionView::Finish(r) => Some(Database { outcome: Some(r), ..db }),
    }
}

/// The database after a list of actions: the first that finishes the run is the last to be carried out.
pub open spec fn after_all(db: Database, script: Seq<ActionView>) -> Option<Database>
    decreases script.len(),
{
    if script.len() == 0 {
        Some(db)
    } else {
        match after_all(db, script.drop_last()) {
            None => None,
            Some(d) => if d.outcome is Some {
                Some(d)
            } else {
                after(d, script.last())
            },
        }
    }
}

/// The views after the sources were registered, each under its own name.
pub open spec fn registered(
    views: Map<Seq<char>, SourceId>,
    sources: Seq<SourceId>,
) -> Map<Seq<char>, SourceId> {
    Map::new(
        |name: Seq<char>|
            views.contains_key(name) || exists|i: int|
                0 <= i < sources.len() && name == view_name(#[trigger] sources[i]),
        |name: Seq<char>|
            if exists|i: int| 0 <= i < sources.len() && name == view_name(#[trigger] sources[i]) {
                sources[choose|i: int|
                    0 <= i < sources.len() && name == view_name(#[trigger] sources[i])]
            } else {
                views[name]
            },
    )
}

proof fn after_concatenation(db: Database, a: Seq<ActionView>, b: Seq<ActionView>)
    ensures
        after_all(db, a + b) == match after_all(db, a) {
            None => None,
            Some(d) => if d.outcome is Some {
                Some(d)
            } else {
                after_all(d, b)
            },
        },
    decreases b.len(),
{
    if b.len() == 0 {
        assert(a + b =~= a);
    } else {
        after_concatenation(db, a, b.drop_last());
        assert((a + b).drop_last() =~= a + b.drop_last());
        assert((a + b).last() == b.last());
    }
}

proof fn after_one(db: Database, action: ActionView)
    requires
        db.outcome is None,
    ensures
        after_all(db, seq![action]) == after(db, action),
{
    let one = seq![action];
    assert(one.drop_last() =~= Seq::empty());
    assert(after_all(db, one.drop_last()) == Some(db));
    assert(one.last() == action);
}

proof fn threads_are_set(db: Database, n: nat)
    requires
        db.outcome is None,
    ensures
        after_statement(db, "SET threads="@ + decimal(n) + ";"@) == Some(
            Database { threads: Some(n), ..db },
        ),
{
    reveal_strlit("SET ");
    reveal_strlit("SET threads=");
    reveal_strlit("threads");
    reveal_strlit("memory_limit");
    reveal_strlit(";");
    let text = "SET threads="@ + decimal(n) + ";"@;
    let rest = behind(text, "SET "@);
    decimal_has_digits(n);
    decimal_reads_back(n);
    assert(begins(text, "SET "@)) by {
        assert(text.take(4) =~= "SET "@);
    }
    rest.index_of_first_ensures('=');
    assert(rest[7] == '=');
    assert(rest.contains('='));
    let p = rest.index_of_first('=')->0;
    assert(p == 7) by {
        assert(forall|j: int| 0 <= j < 7 ==> rest[j] != '=');
    }
    assert(rest.take(7) =~= "threads"@);
    assert(rest.subrange(8, rest.len() - 1) =~= decimal(n));
}

proof fn memory_limit_is_set(db: Database, limit: Seq<char>)
    requires
        db.outcome is None,
        !limit.contains('\''),
    ensures
        after_statement(db, "SET memory_limit='"@ + limit + "';"@) == Some(
            Database { memory_limit: Some(limit), ..db },
        ),
{
    reveal_strlit("SET ");
    reveal_strlit("SET memory_limit='");
    reveal_strlit("threads");
    reveal_strlit("memory_limit");
    reveal_strlit("';");
    let text = "SET memory_limit='"@ + limit + "';"@;
    let rest = behind(text, "SET "@);
    assert(begins(text, "SET "@)) by {
        assert(text.take(4) =~= "SET "@);
    }
    rest.index_of_first_ensures('=');
    assert(rest[12] == '=');
    assert(rest.contains('='));
    let p = rest.index_of_first('=')->0;
    assert(p == 12) by {
        assert(forall|j: int| 0 <= j < 12 ==> rest[j] != '=');
    }
    assert(rest.take(12) =~= "memory_limit"@);
    let value = rest.subrange(13, rest.len() - 1);
    assert(value =~= seq!['\''] + limit + seq!['\'']);
    assert(value.subrange(1, value.len() - 1) =~= limit);
    assert("memory_limit"@.len() != "threads"@.len());
}

/// The settings that a configuration asks for.
pub open spec fn configured(db: Database, config: DuckDbConfig) -> Database {
    Database {
        threads: match config.threads {
            Some(n) => Some(n as nat),
            None => db.threads,
        },
        memory_limit: match config.memory_limit {
            Some(limit) => Some(limit@),
            None => db.memory_limit,
        },
        ..db
    }
}

/// The configuration has a memory limit with a quote in it.
pub open spec fn has_quoted_limit(config: DuckDbConfig) -> bool {
    config.memory_limit matches Some(limit) && limit@.contains('\'')
}

proof fn setup_configures(db: Database, config: DuckDbConfig)
    requires
        db.is_open,
        db.outcome is None,
    ensures
        !has_quoted_limit(config) ==> after_all(db, setup_script(config)) == Some(
            configured(db, config),
        ),
        has_quoted_limit(config) ==> (after_all(db, setup_script(config)) matches Some(end)
            && end.outcome matches Some(Err(ErrorView::ValueError(_))) && end.memory_limit
            == db.memory_limit && end.views == db.views && end.queries == db.queries),
{
    let set_threads = match config.threads {
        Some(n) => seq![ActionView::Execute("SET threads="@ + decimal(n as nat) + ";"@)],
        None => Seq::empty(),
    };
    let set_memory = match config.memory_limit {
        Some(limit) => if limit@.contains('\'') {
            seq![ActionView::Finish(Err(crate::executor::invalid_limit_view(limit@)))]
        } else {
            seq![ActionView::Execute("SET memory_limit='"@ + limit@ + "';"@)]
        },
        None => Seq::empty(),
    };
    assert(setup_script(config) =~= set_threads + set_memory);
    after_concatenation(db, set_threads, set_memory);
    let mid = Database {
        threads: match config.threads {
            Some(n) => Some(n as nat),
            None => db.threads,
        },
        ..db
    };
    match config.threads {
        Some(n) => {
            after_one(db, set_threads[0]);
            assert(set_threads =~= seq![set_threads[0]]);
            threads_are_set(db, n as nat);
        },
        None => {},
    }
    assert(after_all(db, set_threads) == Some(mid));
    match config.memory_limit {
        Some(limit) => {
            after_one(mid, set_memory[0]);
            assert(set_memory =~= seq![set_memory[0]]);
            if !limit@.contains('\'') {
                memory_limit_is_set(mid, limit@);
            }
        },
        None => {},
    }
}

proof fn registering_one_more(
    views: Map<Seq<char>, SourceId>,
    sources: Seq<SourceId>,
)
    requires
        sources.len() > 0,
    ensures
        registered(views, sources) == registered(views, sources.drop_last()).insert(
            view_name(sources.last()),
            sources.last(),
        ),
{
    let init = sources.drop_last();
    let last = sources.last();
    let x = registered(views, sources);
    let y = registered(views, init).insert(view_name(last), last);
    assert(sources[sources.len() - 1] == last);
    assert forall|name: Seq<char>| x.contains_key(name) == y.contains_key(name) by {
        if x.contains_key(name) && !views.contains_key(name) {
            let i = choose|i: int|
                0 <= i < sources.len() && name == view_name(#[trigger] sources[i]);
            if i < init.len() {
                assert(init[i] == sources[i]);
            }
        }
        if y.contains_key(name) && !views.contains_key(name) && name != view_name(last) {
            let i = choose|i: int| 0 <= i < init.len() && name == view_name(#[trigger] init[i]);
            assert(sources[i] == init[i]);
        }
    }
    assert forall|name: Seq<char>| x.contains_key(name) implies x[name] == y[name] by {
        if exists|i: int| 0 <= i < sources.len() && name == view_name(#[trigger] sources[i]) {
            let i = choose|i: int|
                0 <= i < sources.len() && name == view_name(#[trigger] sources[i]);
            if name == view_name(last) {
                view_names_are_distinct(sources[i], last);
            } else {
                assert(init[i] == sources[i]);
                let k = choose|k: int|
                    0 <= k < init.len() && name == view_name(#[trigger] init[k]);
                view_names_are_distinct(sources[i], init[k]);
            }
        } else {
            if exists|i: int| 0 <= i < init.len() && name == view_name(#[trigger] init[i]) {
                let i = choose|i: int|
                    0 <= i < init.len() && name == view_name(#[trigger] init[i]);
                assert(sources[i] == init[i]);
            }
        }
    }
    assert(x =~= y);
}

proof fn sources_are_registered(db: Database, sources: Seq<SourceId>)
    requires
        db.is_open,
        db.outcome is None,
    ensures
        after_all(db, source_script(sources)) == Some(
            Database {
                views: registered(db.views, sources),
                fetched: if sources.len() > 0 {
                    Some(sources.last())
                } else {
                    db.fetched
                },
                ..db
            },
        ),
    decreases sources.len(),
{
    if sources.len() == 0 {
        assert(registered(db.views, sources) =~= db.views);
    } else {
        let init = sources.drop_last();
        let id = sources.last();
        sources_are_registered(db, init);
        registering_one_more(db.views, sources);
        let first = source_script(init);
        let fetch = ActionView::Fetch(id);
        let register = ActionView::Register(id, view_name(id));
        assert(source_script(sources) =~= first + (seq![fetch] + seq![register]));
        after_concatenation(db, first, seq![fetch] + seq![register]);
        let mid = after_all(db, first)->0;
        after_concatenation(mid, seq![fetch], seq![register]);
        after_one(mid, fetch);
        after_one(Database { fetched: Some(id), ..mid }, register);
    }
}

proof fn queries_are_run(db: Database, sql: Seq<char>, repeat: nat)
    requires
        db.is_open,
        db.outcome is None,
    ensures
        after_all(db, Seq::new(repeat, |i: int| ActionView::Query(sql))) == Some(
            Database { queries: db.queries + Seq::new(repeat, |i: int| sql), ..db },
        ),
    decreases repeat,
{
    let script = Seq::new(repeat, |i: int| ActionView::Query(sql));
    let run = Seq::new(repeat, |i: int| sql);
    if repeat == 0 {
        assert(db.queries + run =~= db.queries);
    } else {
        let before = (repeat - 1) as nat;
        queries_are_run(db, sql, before);
        assert(script.drop_last() =~= Seq::new(before, |i: int| ActionView::Query(sql)));
        assert((db.queries + Seq::new(before, |i: int| sql)).push(sql) =~= db.queries + run);
    }
}

/// A run on a connection leaves its settings as they are, registers its sources beside the views that are
/// there, and runs its query as often as it was asked for.
pub proof fn runs_register_and_query(
    db: Database,
    sources: Seq<SourceId>,
    sql: Seq<char>,
    repeat: nat,
)
    requires
        db.is_open,
        db.outcome is None,
    ensures
        after_all(db, run_script(Seq::empty(), sources, sql, repeat)) matches Some(end) && {
            &&& end.outcome == Some(Ok::<(), ErrorView>(()))
            &&& end.threads == db.threads
            &&& end.memory_limit == db.memory_limit
            &&& end.views == registered(db.views, sources)
            &&& end.queries == db.queries + Seq::new(repeat, |i: int| sql)
        },
{
    let queries = Seq::new(repeat, |i: int| ActionView::Query(sql));
    let finish = seq![ActionView::Finish(Ok(()))];
    let script = run_script(Seq::empty(), sources, sql, repeat);
    assert(script =~= (source_script(sources) + queries) + finish);
    after_concatenation(db, source_script(sources) + queries, finish);
    after_concatenation(db, source_script(sources), queries);
    sources_are_registered(db, sources);
    let mid = after_all(db, source_script(sources))->0;
    queries_are_run(mid, sql, repeat);
    let done = after_all(mid, queries)->0;
    after_one(done, finish[0]);
    assert(finish =~= seq![finish[0]]);
}

/// A run on a new database opens it, applies the settings that were asked for and no others, registers its
/// sources, each under the name of its view, and runs its query as often as it was asked for; then it ends
/// well.
pub proof fn runs_configure_register_and_query(
    config: DuckDbConfig,
    sources: Seq<SourceId>,
    sql: Seq<char>,
    repeat: nat,
)
    requires
        !has_quoted_limit(config),
    ensures
        after_all(no_database(), run_script(open_script(config), sources, sql, repeat)) matches Some(
            end,
        ) && {
            &&& end.outcome == Some(Ok::<(), ErrorView>(()))
            &&& end.threads == match config.threads {
                Some(n) => Some(n as nat),
                None => None,
            }
            &&& end.memory_limit == match config.memory_limit {
                Some(limit) => Some(limit@),
                None => None,
            }
            &&& end.views == registered(Map::empty(), sources)
            &&& end.queries == Seq::new(repeat, |i: int| sql)
        },
{
    let db = no_database();
    let open = Database { is_open: true, ..db };
    let opening = open_script(config);
    let rest = run_script(Seq::empty(), sources, sql, repeat);
    assert(run_script(opening, sources, sql, repeat) =~= opening + rest);
    after_concatenation(db, opening, rest);
    after_concatenation(db, seq![ActionView::Open], setup_script(config));
    after_one(db, ActionView::Open);
    setup_configures(open, config);
    let ready = configured(open, config);
    runs_register_and_query(ready, sources, sql, repeat);
    assert(Seq::<Seq<char>>::empty() + Seq::new(repeat, |i: int| sql) =~= Seq::new(
        repeat,
        |i: int| sql,
    ));
}

/// A run with a quote in its memory limit ends with an error before anything is registered or queried, and
/// the limit is never set.
pub proof fn runs_with_a_quoted_limit_do_nothing(
    config: DuckDbConfig,
    sources: Seq<SourceId>,
    sql: Seq<char>,
    repeat: nat,
)
    requires
        has_quoted_limit(config),
    ensures
        after_all(no_database(), run_script(open_script(config), sources, sql, repeat)) matches Some(
            end,
        ) && {
            &&& end.outcome matches Some(Err(ErrorView::ValueError(_)))
            &&& end.memory_limit is None
            &&& end.views == Map::<Seq<char>, SourceId>::empty()
            &&& end.queries == Seq::<Seq<char>>::empty()
        },
{
    let db = no_database();
    let open = Database { is_open: true, ..db };
    let opening = open_script(config);
    let rest = run_script(Seq::empty(), sources, sql, repeat);
    assert(run_script(opening, sources, sql, repeat) =~= opening + rest);
    after_concatenation(db, opening, rest);
    after_concatenation(db, seq![ActionView::Open], setup_script(config));
    after_one(db, ActionView::Open);
    setup_configures(open, config);
}

/// The table behind a view.
pub open spec fn viewed_table(
    views: Map<Seq<char>, SourceId>,
    tables: spec_fn(SourceId) -> Table,
    name: Seq<char>,
) -> Table {
    if views.contains_key(name) {
        tables(views[name])
    } else {
        Table { names: Seq::empty(), rows: Seq::empty() }
    }
}

/// The tables behind the views.
pub open spec fn viewed_tables(
    views: Map<Seq<char>, SourceId>,
    tables: spec_fn(SourceId) -> Table,
) -> spec_fn(Seq<char>) -> Table {
    |name: Seq<char>| viewed_table(views, tables, name)
}

/// The rows of the sources.
pub open spec fn source_rows(tables: spec_fn(SourceId) -> Table) -> spec_fn(SourceId) -> Seq<
    Seq<Value>,
> {
    |id: SourceId| tables(id).rows
}

/// Every scan of the plan reads a source with the columns of the scan.
pub open spec fn tables_fit(
    plan: LocalPhysicalPlan,
    tables: spec_fn(SourceId) -> Table,
) -> bool
    decreases plan,
{
    match plan {
        LocalPhysicalPlan::InMemoryScan(scan) => {
            &&& tables(scan.source_id).names == scan.schema.names()
            &&& forall|i: int|
                0 <= i < tables(scan.source_id).rows.len() ==> (#[trigger] tables(
                    scan.source_id,
                ).rows[i]).len() == scan.schema.width()
        },
        LocalPhysicalPlan::Filter(f) => tables_fit(*f.input, tables),
        LocalPhysicalPlan::Project(p) => tables_fit(*p.input, tables),
        LocalPhysicalPlan::HashJoin(j) => tables_fit(*j.left, tables) && tables_fit(
            *j.right,
            tables,
        ),
        LocalPhysicalPlan::HashAggregate(a) => tables_fit(*a.input, tables),
        LocalPhysicalPlan::UnGroupedAggregate(a) => tables_fit(*a.input, tables),
        LocalPhysicalPlan::Other(_) => true,
    }
}

/// The first list has only items of the second.
spec fn are_among(scans: Seq<SourceId>, sources: Seq<SourceId>) -> bool {
    forall|i: int| 0 <= i < scans.len() ==> sources.contains(#[trigger] scans[i])
}

spec fn scans_in(plan: Arc<LocalPhysicalPlan>) -> Seq<SourceId> {
    all_scans(*plan)
}

spec fn sources_in(plan: Arc<LocalPhysicalPlan>) -> Seq<SourceId> {
    plan_sources(*plan)
}

spec fn query_in(plan: Arc<LocalPhysicalPlan>) -> Seq<char> {
    plan_sql(*plan)->Ok_0
}

proof fn registered_views_hold(
    plan: Arc<LocalPhysicalPlan>,
    sources: Seq<SourceId>,
    tables: spec_fn(SourceId) -> Table,
)
    requires
        tables_fit(*plan, tables),
        are_among(all_scans(*plan), sources),
    ensures
        views_hold(
            *plan,
            viewed_tables(registered(Map::empty(), sources), tables),
            source_rows(tables),
        ),
    decreases *plan,
{
    match *plan {
        LocalPhysicalPlan::InMemoryScan(scan) => {
            let id = scan.source_id;
            assert(all_scans(*plan)[0] == id);
            let k = choose|k: int| 0 <= k < sources.len() && sources[k] == id;
            let name = view_name(id);
            assert(name == view_name(sources[k]));
            let i = choose|i: int|
                0 <= i < sources.len() && name == view_name(#[trigger] sources[i]);
            view_names_are_distinct(sources[i], id);
            assert(viewed_tables(registered(Map::empty(), sources), tables)(name) == tables(id));
        },
        LocalPhysicalPlan::Filter(f) => registered_views_hold(f.input, sources, tables),
        LocalPhysicalPlan::Project(p) => registered_views_hold(p.input, sources, tables),
        LocalPhysicalPlan::HashJoin(j) => {
            let l = scans_in(j.left);
            let r = scans_in(j.right);
            assert forall|i: int| 0 <= i < l.len() implies sources.contains(#[trigger] l[i]) by {
                assert(all_scans(*plan)[i] == l[i]);
            }
            assert forall|i: int| 0 <= i < r.len() implies sources.contains(#[trigger] r[i]) by {
                assert(all_scans(*plan)[l.len() + i] == r[i]);
            }
            registered_views_hold(j.left, sources, tables);
            registered_views_hold(j.right, sources, tables);
        },
        LocalPhysicalPlan::HashAggregate(a) => registered_views_hold(a.input, sources, tables),
        LocalPhysicalPlan::UnGroupedAggregate(a) => registered_views_hold(
            a.input,
            sources,
            tables,
        ),
        LocalPhysicalPlan::Other(_) => {},
    }
}

/// A run answers its plan: each query that it puts to the database gives, read as SQL over the views that it
/// has registered, the table of the plan.
pub proof fn runs_answer_their_plan(
    plan: Arc<LocalPhysicalPlan>,
    config: DuckDbConfig,
    repeat: nat,
    tables: spec_fn(SourceId) -> Table,
) -> (q: SqlQuery)
    requires
        plan_sql(*plan) is Ok,
        is_sound(*plan),
        tables_fit(*plan, tables),
        !has_quoted_limit(config),
    ensures
        after_all(
            no_database(),
            run_script(open_script(config), plan_sources(*plan), plan_sql(*plan)->Ok_0, repeat),
        ) matches Some(end) && {
            &&& end.outcome == Some(Ok::<(), ErrorView>(()))
            &&& end.queries.len() == repeat
            &&& forall|i: int|
                0 <= i < repeat ==> read_query(#[trigger] end.queries[i]) == Some(
                    (q, Seq::<char>::empty()),
                )
            &&& query_table(q, viewed_tables(end.views, tables)) == plan_table(
                *plan,
                source_rows(tables),
            )
        },
{
    let sources = sources_in(plan);
    every_scan_is_bound(plan);
    runs_configure_register_and_query(config, sources, query_in(plan), repeat);
    assert(are_among(all_scans(*plan), sources));
    registered_views_hold(plan, sources, tables);
    translated_plans_keep_their_meaning(
        plan,
        viewed_tables(registered(Map::empty(), sources), tables),
        source_rows(tables),
    )
}

/// A run that was prepared for a plan starts at its first action and answers the plan; for a plan that cannot
/// be translated none is prepared, and its error is given instead.
pub proof fn prepared_runs_answer_their_plan(
    r: Result<Execution, DaftError>,
    plan: Arc<LocalPhysicalPlan>,
    config: DuckDbConfig,
    repeat: nat,
    tables: spec_fn(SourceId) -> Table,
)
    requires
        prepared(r, *plan, open_script(config), repeat),
        is_sound(*plan),
        tables_fit(*plan, tables),
        !has_quoted_limit(config),
    ensures
        match (r, plan_sql(*plan)) {
            (Ok(run), Ok(_)) => {
                &&& run.position() == 0
                &&& !run.failed()
                &&& after_all(no_database(), run.script()) matches Some(end) && {
                    &&& end.outcome == Some(Ok::<(), ErrorView>(()))
                    &&& end.queries.len() == repeat
                    &&& forall|i: int|
                        0 <= i < repeat ==> answers_plan(
                            #[trigger] end.queries[i],
                            end.views,
                            plan,
                            tables,
                        )
                }
            },
            (Err(e), Err(f)) => e@ == f,
            _ => false,
        },
{
    if r is Ok {
        let q = runs_answer_their_plan(plan, config, repeat, tables);
        let end = after_all(no_database(), r->Ok_0.script())->0;
        assert forall|i: int| 0 <= i < repeat implies answers_plan(
            #[trigger] end.queries[i],
            end.views,
            plan,
            tables,
        ) by {
            assert(read_query(end.queries[i]) == Some((q, Seq::<char>::empty())));
        }
    }
}

/// The query, read as SQL over the views, gives the table of the plan.
pub open spec fn answers_plan(
    sql: Seq<char>,
    views: Map<Seq<char>, SourceId>,
    plan: Arc<LocalPhysicalPlan>,
    tables: spec_fn(SourceId) -> Table,
) -> bool {
    read_query(sql) matches Some((q, rest)) && rest.len() == 0 && query_table(
        q,
        viewed_tables(views, tables),
    ) == plan_table(*plan, source_rows(tables))
}

/// A run goes on exactly where its action succeeded: it was done, or a fetch has found batches. A failure
/// that is reported is passed on as it is.
pub proof fn runs_go_on_after_success(action: ActionView, event: Event)
    requires
        answers(action, event),
    ensures
        failure(action, event) is None <==> (event is Done || (event matches Event::Batches(rows)
            && rows@.len() > 0)),
        event matches Event::Failed(e) ==> failure(action, event) == Some(e@),
{
}

/// What is said of a source without data tells which source it is, and whether it has no partitions or no
/// batches.
pub proof fn errors_tell_sources_apart(a: SourceId, b: SourceId, none: Vec<usize>)
    requires
        none@.len() == 0,
    ensures
        failure(ActionView::Fetch(a), Event::NoPartitions) == failure(
            ActionView::Fetch(b),
            Event::NoPartitions,
        ) ==> a == b,
        failure(ActionView::Fetch(a), Event::Batches(none)) == failure(
            ActionView::Fetch(b),
            Event::Batches(none),
        ) ==> a == b,
        failure(ActionView::Fetch(a), Event::NoPartitions) != failure(
            ActionView::Fetch(b),
            Event::Batches(none),
        ),
{
    let p = "duckdb POC: no input partitions for source "@;
    let q = "duckdb POC: source "@;
    let r = " has no record batches"@;
    let (x, y) = (decimal(a as nat), decimal(b as nat));
    reveal_strlit("duckdb POC: no input partitions for source ");
    reveal_strlit("duckdb POC: source ");
    reveal_strlit(" has no record batches");
    if p + x == p + y {
        assert((p + x).skip(p.len() as int) =~= x);
        assert((p + y).skip(p.len() as int) =~= y);
        decimal_is_injective(a as nat, b as nat);
    }
    if q + x + r == q + y + r {
        assert((q + x + r).len() == (q + y + r).len());
        assert((q + x + r).subrange(q.len() as int, (q.len() + x.len()) as int) =~= x);
        assert((q + y + r).subrange(q.len() as int, (q.len() + y.len()) as int) =~= y);
        decimal_is_injective(a as nat, b as nat);
    }
    assert((p + x)[12] == 'n');
    assert((q + y + r)[12] == 's');
}

} // verus!

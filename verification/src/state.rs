//! The registry of forwarding rules and of the tasks that run them, and every
//! change that the application makes to it.
use vstd::prelude::*;
use std::path::PathBuf;
use crate::counters::{reads_counters, RuleCounters, RunningTask};
use crate::rule::{
    fresh_rule, is_uuid_v4_text, new_v4_text, CreateRuleRequest, ForwardRule, ForwardRuleView, Protocol,
    RuleStats, RuleStatus, RuleStatusView, UpdateRuleRequest, zero_stats,
};
use crate::keyed::{keyed_map, keys_distinct, lemma_keyed_at, lemma_keyed_push, lemma_keyed_remove, lemma_keyed_update, Keyed};
use crate::rulemap::{
    has_id, ids_distinct, lemma_lists_own_map, lemma_permutation_lists, lists_exactly, seq_to_map, sort_by_order,
    sorted_by_order, views_of,
};

verus! {

broadcast use {vstd::seq_lib::group_seq_properties, crate::rulemap::lemma_rule_key};

#[verifier::external_type_specification]
#[verifier::external_body]
pub struct ExPathBuf(PathBuf);

/// The name of the log file, kept beside the rules file.
pub const LOG_FILE_NAME: &'static str = "portopener.log";

/// The directory that holds `p` (`Path::parent`): `None` for a root, a
/// prefix or the empty path. It depends on `p` alone.
pub uninterp spec fn path_parent(p: PathBuf) -> Option<PathBuf>;

/// `dir` with `name` appended (`Path::join`). It depends on its arguments
/// alone.
pub uninterp spec fn path_join(dir: PathBuf, name: Seq<char>) -> PathBuf;

/// `p` as text (`Path::to_string_lossy`), each part that is not valid Unicode
/// shown as the replacement character. It depends on `p` alone.
pub uninterp spec fn path_lossy_text(p: PathBuf) -> Seq<char>;

/// The directory that holds `path` (`Path::parent`), as an owned path: the
/// contract names the result `path_parent(path)`.
#[verifier::external_body]
fn parent_dir(path: &PathBuf) -> (r: Option<PathBuf>)
    ensures
        r == path_parent(*path),
{
    match path.parent() {
        Some(p) => Some(p.to_path_buf()),
        None => None,
    }
}

/// `dir` with `name` appended (`Path::join`): the contract names the result
/// `path_join(dir, name)`.
#[verifier::external_body]
fn join_path(dir: &PathBuf, name: &str) -> (r: PathBuf)
    ensures
        r == path_join(*dir, name@),
{
    dir.join(name)
}

/// `path` as text (`Path::to_string_lossy`): the contract names the text
/// `path_lossy_text(path)`.
#[verifier::external_body]
fn path_text(path: &PathBuf) -> (s: String)
    ensures
        s@ == path_lossy_text(*path),
{
    path.to_string_lossy().to_string()
}

/// A running task, filed under the identifier of its rule with the number of
/// the run that started it.
struct TaskEntry {
    id: String,
    run: u64,
    task: RunningTask,
}

impl Keyed for TaskEntry {
    type Key = Seq<char>;

    closed spec fn key(&self) -> Seq<char> {
        self.id@
    }
}

/// No two filed tasks share a rule identifier.
spec fn task_ids_distinct(t: Seq<TaskEntry>) -> bool {
    keys_distinct(t)
}

/// The rule identifiers of the filed tasks.
spec fn task_ids(t: Seq<TaskEntry>) -> Set<Seq<char>> {
    keyed_map(t).dom()
}

/// The filed tasks keyed by rule identifier: run number and handle.
spec fn tasks_as_map(t: Seq<TaskEntry>) -> Map<Seq<char>, (u64, RunningTask)> {
    keyed_map(t).map_values(|e: TaskEntry| (e.run, e.task))
}

/// With distinct identifiers, each filed task is what the map holds for its
/// rule.
proof fn lemma_task_entry_at(t: Seq<TaskEntry>, i: int)
    requires
        task_ids_distinct(t),
        0 <= i < t.len(),
    ensures
        tasks_as_map(t).contains_key(t[i].id@),
        tasks_as_map(t)[t[i].id@] == (t[i].run, t[i].task),
{
    lemma_keyed_at(t, i);
}

/// Replacing a filed task by one for the same rule, or appending one for a
/// rule without a task, files it; every task afterwards is it or was there.
proof fn lemma_tasks_file(t: Seq<TaskEntry>, u: Seq<TaskEntry>, e: TaskEntry)
    requires
        task_ids_distinct(t),
        (exists|i: int| 0 <= i < t.len() && t[i].id@ == e.id@ && u == t.update(i, e)) || (!task_ids(
            t,
        ).contains(e.id@) && u == t.push(e)),
    ensures
        task_ids_distinct(u),
        task_ids(u) == task_ids(t).insert(e.id@),
        tasks_as_map(u) == tasks_as_map(t).insert(e.id@, (e.run, e.task)),
        forall|j: int| 0 <= j < u.len() ==> #[trigger] u[j] == e || t.contains(u[j]),
{
    let pushed = !task_ids(t).contains(e.id@) && u == t.push(e);
    if pushed {
        lemma_keyed_push(t, e);
        assert forall|j: int| 0 <= j < u.len() implies #[trigger] u[j] == e || t.contains(u[j]) by {
            if j < t.len() {
                assert(u[j] == t[j]);
            }
        }
    } else {
        let i = choose|i: int| 0 <= i < t.len() && t[i].id@ == e.id@ && u == t.update(i, e);
        lemma_keyed_update(t, i, e);
        assert forall|j: int| 0 <= j < u.len() implies #[trigger] u[j] == e || t.contains(u[j]) by {
            if j != i {
                assert(u[j] == t[j]);
            }
        }
    }
    assert(task_ids(u) =~= task_ids(t).insert(e.id@));
    assert(tasks_as_map(u) =~= tasks_as_map(t).insert(e.id@, (e.run, e.task)));
}

/// Removing a filed task removes its rule from the map; every task
/// afterwards was there before.
proof fn lemma_tasks_remove(t: Seq<TaskEntry>, i: int)
    requires
        task_ids_distinct(t),
        0 <= i < t.len(),
    ensures
        task_ids_distinct(t.remove(i)),
        task_ids(t.remove(i)) == task_ids(t).remove(t[i].id@),
        tasks_as_map(t.remove(i)) == tasks_as_map(t).remove(t[i].id@),
        forall|j: int| 0 <= j < t.remove(i).len() ==> t.contains(#[trigger] t.remove(i)[j]),
{
    let u = t.remove(i);
    lemma_keyed_remove(t, i);
    assert forall|k: int| 0 <= k < u.len() implies t.contains(#[trigger] u[k]) by {
        if k < i {
            assert(u[k] == t[k]);
        } else {
            assert(u[k] == t[k + 1]);
        }
    }
    assert(task_ids(u) =~= task_ids(t).remove(t[i].id@));
    assert(tasks_as_map(u) =~= tasks_as_map(t).remove(t[i].id@));
}

/// The rules, keyed by identifier, the tasks of the running ones, where the
/// rules and the log are kept, and the next display order and run number to
/// hand out.
pub struct ForwarderState {
    rules: Vec<ForwardRule>,
    tasks: Vec<TaskEntry>,
    config_path: Option<PathBuf>,
    log_path: Option<PathBuf>,
    next_order: u64,
    next_run: u64,
}

/// What every rule of a well-formed registry satisfies: its order was handed
/// out before `next`, it is enabled exactly while it runs, and a running rule
/// has a task.
pub open spec fn rule_ok(r: ForwardRuleView, next: u64, running: Set<Seq<char>>) -> bool {
    &&& r.order < next
    &&& r.enabled == (r.status is Running)
    &&& r.status is Running ==> running.contains(r.id)
}

/// Every rule with a filed task exists and is running.
pub open spec fn tasks_have_running_rules(
    running: Set<Seq<char>>,
    rules: Map<Seq<char>, ForwardRuleView>,
) -> bool {
    forall|id: Seq<char>| #[trigger]
        running.contains(id) ==> rules.contains_key(id) && rules[id].status == RuleStatusView::Running
}

/// `r` stopped with status `status`.
pub open spec fn stopped_rule(r: ForwardRuleView, status: RuleStatusView) -> ForwardRuleView {
    ForwardRuleView { enabled: false, status, ..r }
}

/// `r` running.
pub open spec fn started_rule(r: ForwardRuleView) -> ForwardRuleView {
    ForwardRuleView { enabled: true, status: RuleStatusView::Running, ..r }
}

/// `r` as it is loaded from the rules file: stopped, disabled, counters at zero.
pub open spec fn loaded_rule(r: ForwardRuleView) -> ForwardRuleView {
    ForwardRuleView { enabled: false, status: RuleStatusView::Stopped, stats: zero_stats(), ..r }
}

/// `r` as it is written to the rules file: counters at zero.
pub open spec fn saved_rule(r: ForwardRuleView) -> ForwardRuleView {
    ForwardRuleView { stats: zero_stats(), ..r }
}

/// `r` as it is imported: a new identifier and order, stopped, disabled,
/// counters at zero.
pub open spec fn imported_rule(r: ForwardRuleView, id: Seq<char>, order: u64) -> ForwardRuleView {
    ForwardRuleView { id, order, ..loaded_rule(r) }
}

/// `r` edited to the given name, protocol and addresses.
pub open spec fn edited_rule(
    r: ForwardRuleView,
    name: Seq<char>,
    protocol: Protocol,
    listen_addr: Seq<char>,
    target_addr: Seq<char>,
) -> ForwardRuleView {
    ForwardRuleView { name, protocol, listen_addr, target_addr, ..r }
}

/// The status a rule ends in when its task ends with `outcome`.
pub open spec fn finished_status(outcome: Result<(), String>) -> RuleStatusView {
    match outcome {
        Ok(_) => RuleStatusView::Stopped,
        Err(e) => RuleStatusView::Error(e@),
    }
}

/// The rules that loading `rs` leaves, later rules replacing earlier ones of
/// the same identifier.
pub open spec fn loaded_map(rs: Seq<ForwardRuleView>) -> Map<Seq<char>, ForwardRuleView>
    decreases rs.len(),
{
    if rs.len() == 0 {
        Map::empty()
    } else {
        loaded_map(rs.drop_last()).insert(rs.last().id, loaded_rule(rs.last()))
    }
}

/// The next order after loading `rs`: one past the largest order, or 0.
pub open spec fn order_after(rs: Seq<ForwardRuleView>) -> u64
    decreases rs.len(),
{
    if rs.len() == 0 {
        0
    } else {
        let before = order_after(rs.drop_last());
        if rs.last().order >= before {
            (rs.last().order + 1) as u64
        } else {
            before
        }
    }
}

/// `m` after importing `rs` under identifiers `ids`, the i-th rule getting
/// order `first + i`; a later rule replaces one of the same identifier.
pub open spec fn imported_map(
    m: Map<Seq<char>, ForwardRuleView>,
    rs: Seq<ForwardRuleView>,
    ids: Seq<Seq<char>>,
    first: u64,
) -> Map<Seq<char>, ForwardRuleView>
    decreases rs.len(),
{
    if rs.len() == 0 {
        m
    } else {
        let k = rs.len() - 1;
        imported_map(m, rs.drop_last(), ids.drop_last(), first).insert(
            ids[k],
            imported_rule(rs[k], ids[k], (first + k) as u64),
        )
    }
}

/// Both states keep their files at the same places.
pub open spec fn same_paths(a: ForwarderState, b: ForwarderState) -> bool {
    a.config_path_value() == b.config_path_value() && a.log_path_value() == b.log_path_value()
}

/// `r` is an error with message `msg`.
pub open spec fn fails_with<T>(r: Result<T, String>, msg: Seq<char>) -> bool {
    r matches Err(e) && e@ == msg
}

/// The error given when no log file is set.
pub open spec fn msg_log_path_not_set() -> Seq<char> {
    "Log path not set"@
}

/// Where the log of a registry whose rules are kept at `config` is kept:
/// `portopener.log` in the same directory, if there is one.
pub open spec fn log_path_for(config: PathBuf) -> Option<PathBuf> {
    match path_parent(config) {
        Some(dir) => Some(path_join(dir, LOG_FILE_NAME@)),
        None => None,
    }
}

/// `r` is `Ok` with the text of `p`.
pub open spec fn gives_path_text(r: Result<String, String>, p: PathBuf) -> bool {
    r matches Ok(t) && t@ == path_lossy_text(p)
}

/// `r` is `Ok` with exactly `t`.
pub open spec fn hands_back(r: Result<RunningTask, String>, t: RunningTask) -> bool {
    r matches Ok(x) && x == t
}

/// `m` files run `run` under `id`.
pub open spec fn files_run(m: Map<Seq<char>, (u64, RunningTask)>, id: Seq<char>, run: u64) -> bool {
    m.contains_key(id) && m[id].0 == run
}

/// The error given for an unknown rule.
pub open spec fn msg_rule_not_found() -> Seq<char> {
    "Rule not found"@
}

/// The error given for starting a running rule.
pub open spec fn msg_already_running() -> Seq<char> {
    "Already running"@
}

/// The error given for stopping a rule that is not running.
pub open spec fn msg_not_running() -> Seq<char> {
    "Not running"@
}

/// The error given for removing a running rule.
pub open spec fn msg_stop_before_removing() -> Seq<char> {
    "Stop the rule before removing it"@
}

/// The error given for editing a running rule.
pub open spec fn msg_stop_before_editing() -> Seq<char> {
    "Stop the rule before editing it"@
}

/// What the forwarding task of a rule needs to start: the rule's protocol
/// and addresses.
pub struct StartPlan {
    pub protocol: Protocol,
    pub listen_addr: String,
    pub target_addr: String,
}

/// `r` is the plan to start `rule`: its protocol and addresses.
pub open spec fn plans_start_of(r: Result<StartPlan, String>, rule: ForwardRuleView) -> bool {
    r matches Ok(p) && p.protocol == rule.protocol && p.listen_addr@ == rule.listen_addr && p.target_addr@
        == rule.target_addr
}

impl ForwarderState {
    /// The rules in the order they are kept.
    closed spec fn rule_seq(&self) -> Seq<ForwardRuleView> {
        views_of(self.rules@)
    }

    /// The rules, keyed by identifier.
    pub closed spec fn rule_map(&self) -> Map<Seq<char>, ForwardRuleView> {
        seq_to_map(self.rule_seq())
    }

    /// The identifiers of the rules whose tasks run.
    pub closed spec fn running_ids(&self) -> Set<Seq<char>> {
        task_ids(self.tasks@)
    }

    /// The filed tasks, keyed by rule identifier: the number of the run that
    /// started each, and its handle.
    pub closed spec fn task_map(&self) -> Map<Seq<char>, (u64, RunningTask)> {
        tasks_as_map(self.tasks@)
    }

    /// The number that the next started run gets.
    pub closed spec fn next_run_value(&self) -> u64 {
        self.next_run
    }

    /// With distinct identifiers, each filed task is what the task map holds
    /// for its rule.
    proof fn lemma_task_at(&self, i: int)
        requires
            self.tasks_distinct(),
            0 <= i < self.tasks@.len(),
        ensures
            self.task_map().contains_key(self.tasks@[i].id@),
            self.task_map()[self.tasks@[i].id@] == (self.tasks@[i].run, self.tasks@[i].task),
    {
        lemma_task_entry_at(self.tasks@, i);
    }

    /// Where the rules are kept.
    pub closed spec fn config_path_value(&self) -> Option<PathBuf> {
        self.config_path
    }

    /// Where the log is kept.
    pub closed spec fn log_path_value(&self) -> Option<PathBuf> {
        self.log_path
    }

    /// The display order that the next new rule gets.
    pub closed spec fn next_order_value(&self) -> u64 {
        self.next_order
    }

    spec fn tasks_distinct(&self) -> bool {
        task_ids_distinct(self.tasks@)
    }

    /// The registry's invariant: identifiers are distinct, and every rule
    /// satisfies `rule_ok`.
    pub closed spec fn wf(&self) -> bool {
        &&& ids_distinct(self.rule_seq())
        &&& self.tasks_distinct()
        &&& forall|i: int| 0 <= i < self.tasks@.len() ==> (#[trigger] self.tasks@[i]).run < self.next_run
        &&& forall|i: int|
            0 <= i < self.rule_seq().len() ==> rule_ok(
                #[trigger] self.rule_seq()[i],
                self.next_order,
                self.running_ids(),
            )
    }

    /// Every filed task belongs to a rule that exists and runs.
    pub open spec fn tasks_on_running_rules(&self) -> bool {
        tasks_have_running_rules(self.running_ids(), self.rule_map())
    }

    /// In a well-formed registry whose filed tasks all belong to running
    /// rules, a rule has a task exactly when it exists, is enabled and is
    /// running.
    pub proof fn law_running_exactly_when_rule_runs(&self)
        requires
            self.wf(),
            self.tasks_on_running_rules(),
        ensures
            forall|id: Seq<char>| #[trigger]
                self.running_ids().contains(id) <==> (self.rule_map().contains_key(id) && self.rule_map()[id].enabled
                    && self.rule_map()[id].status == RuleStatusView::Running),
    {
        self.law_rules_ok();
        assert forall|id: Seq<char>| #[trigger]
            self.running_ids().contains(id) <==> (self.rule_map().contains_key(id) && self.rule_map()[id].enabled
                && self.rule_map()[id].status == RuleStatusView::Running) by {
            if self.rule_map().contains_key(id) {
                assert(rule_ok(self.rule_map()[id], self.next_order_value(), self.running_ids()));
            }
        }
    }

    /// Every filed run has a number below the next run's: a run started later
    /// never has the number of one filed now.
    pub proof fn law_filed_runs_below_next(&self)
        requires
            self.wf(),
        ensures
            forall|id: Seq<char>| #[trigger] self.task_map().contains_key(id) ==> self.task_map()[id].0
                < self.next_run_value(),
    {
        assert forall|id: Seq<char>| #[trigger] self.task_map().contains_key(id) implies self.task_map()[id].0
            < self.next_run_value() by {
            let i = choose|i: int| 0 <= i < self.tasks@.len() && #[trigger] self.tasks@[i].id@ == id;
            self.lemma_task_at(i);
        }
    }

    /// Every rule of a well-formed registry satisfies `rule_ok`.
    pub proof fn law_rules_ok(&self)
        requires
            self.wf(),
        ensures
            forall|id: Seq<char>| #[trigger] self.rule_map().contains_key(id) ==> rule_ok(
                self.rule_map()[id],
                self.next_order_value(),
                self.running_ids(),
            ),
    {
        assert forall|id: Seq<char>| #[trigger] self.rule_map().contains_key(id) implies rule_ok(
            self.rule_map()[id],
            self.next_order_value(),
            self.running_ids(),
        ) by {
            let i = choose|i: int| 0 <= i < self.rule_seq().len() && #[trigger] self.rule_seq()[i].id == id;
            lemma_keyed_at(self.rule_seq(), i);
        }
    }

    /// An empty registry whose rules are kept at `config_path` and whose log
    /// is kept beside it, in `portopener.log`.
    pub fn with_config_path(config_path: PathBuf) -> (s: Self)
        ensures
            s.wf(),
            s.rule_map() == Map::<Seq<char>, ForwardRuleView>::empty(),
            s.running_ids() == Set::<Seq<char>>::empty(),
            s.task_map() == Map::<Seq<char>, (u64, RunningTask)>::empty(),
            s.next_run_value() == 0,
            s.next_order_value() == 0,
            s.config_path_value() == Some(config_path),
            s.log_path_value() == log_path_for(config_path),
            s.tasks_on_running_rules(),
    {
        let log_path = match parent_dir(&config_path) {
            Some(dir) => Some(join_path(&dir, LOG_FILE_NAME)),
            None => None,
        };
        let s = ForwarderState {
            rules: Vec::new(),
            tasks: Vec::new(),
            config_path: Some(config_path),
            log_path,
            next_order: 0,
            next_run: 0,
        };
        assert(s.rule_map() =~= Map::<Seq<char>, ForwardRuleView>::empty());
        assert(s.running_ids() =~= Set::<Seq<char>>::empty());
        assert(s.task_map() =~= Map::<Seq<char>, (u64, RunningTask)>::empty());
        s
    }

    /// Hands out the next display order and advances it by one.
    pub fn next_order(&mut self) -> (o: u64)
        requires
            old(self).wf(),
            old(self).next_order_value() < u64::MAX,
        ensures
            final(self).wf(),
            o == old(self).next_order_value(),
            final(self).next_order_value() == o + 1,
            final(self).rule_map() == old(self).rule_map(),
            final(self).running_ids() == old(self).running_ids(),
            final(self).task_map() == old(self).task_map(),
            final(self).next_run_value() == old(self).next_run_value(),
            same_paths(*final(self), *old(self)),
    {
        let o = self.next_order;
        self.next_order = o + 1;
        proof {
            assert forall|i: int| 0 <= i < self.rule_seq().len() implies rule_ok(
                #[trigger] self.rule_seq()[i],
                self.next_order,
                self.running_ids(),
            ) by {
                assert(rule_ok(old(self).rule_seq()[i], old(self).next_order, old(self).running_ids()));
            }
        }
        o
    }

    /// Where the log is kept, as text; an error when no log file is set.
    pub fn log_path_text(&self) -> (r: Result<String, String>)
        ensures
            r is Ok <==> self.log_path_value() is Some,
            self.log_path_value() is None ==> fails_with(r, msg_log_path_not_set()),
            self.log_path_value() matches Some(p) ==> gives_path_text(r, p),
    {
        match &self.log_path {
            Some(p) => Ok(path_text(p)),
            None => Err("Log path not set".to_owned()),
        }
    }

    /// Where the rules are kept, if anywhere.
    pub fn config_path(&self) -> (p: &Option<PathBuf>)
        ensures
            *p == self.config_path_value(),
    {
        &self.config_path
    }

    /// Where the log is kept, if anywhere.
    pub fn log_path(&self) -> (p: &Option<PathBuf>)
        ensures
            *p == self.log_path_value(),
    {
        &self.log_path
    }

    /// The display order that the next new rule would get.
    pub fn upcoming_order(&self) -> (o: u64)
        ensures
            o == self.next_order_value(),
    {
        self.next_order
    }

    /// The number that the next started run would get.
    pub fn upcoming_run(&self) -> (r: u64)
        ensures
            r == self.next_run_value(),
    {
        self.next_run
    }

    /// The index of the task filed under `id`, if any.
    fn find_task(&self, id: &String) -> (r: Option<usize>)
        ensures
            match r {
                Some(i) => i < self.tasks@.len() && self.tasks@[i as int].id@ == id@ && self.running_ids().contains(
                    id@,
                ),
                None => !self.running_ids().contains(id@),
            },
    {
        let mut i: usize = 0;
        while i < self.tasks.len()
            invariant
                i <= self.tasks@.len(),
                forall|j: int| 0 <= j < i ==> #[trigger] self.tasks@[j].key() != id@,
            decreases self.tasks@.len() - i,
        {
            if self.tasks[i].id == *id {
                assert(self.tasks@[i as int].key() == id@);
                return Some(i);
            }
            i = i + 1;
        }
        None
    }

    /// The index of the rule with identifier `id`, if any.
    fn find_rule(&self, id: &String) -> (r: Option<usize>)
        ensures
            match r {
                Some(i) => i < self.rules@.len() && self.rule_seq()[i as int].id == id@,
                None => !self.rule_map().contains_key(id@),
            },
    {
        let mut i: usize = 0;
        while i < self.rules.len()
            invariant
                i <= self.rules@.len(),
                forall|j: int| 0 <= j < i ==> #[trigger] self.rule_seq()[j].id != id@,
            decreases self.rules@.len() - i,
        {
            if self.rules[i].id == *id {
                return Some(i);
            }
            i = i + 1;
        }
        None
    }

    /// Whether the rule `id` has a running task.
    pub fn is_running(&self, id: &str) -> (b: bool)
        ensures
            b == self.running_ids().contains(id@),
    {
        let key = id.to_owned();
        self.find_task(&key).is_some()
    }

    /// The live counters of the rule `id`, if it runs; a negative connection
    /// count reads as zero.
    pub fn get_live_stats(&self, id: &str) -> (r: Option<RuleStats>)
        requires
            self.wf(),
        ensures
            r is Some <==> self.running_ids().contains(id@),
            r matches Some(s) ==> s.connections >= 0,
            r matches Some(s) ==> reads_counters(*self.task_map()[id@].1.counters, s),
    {
        match self.live_counters(id) {
            Some(c) => Some(c.snapshot()),
            None => None,
        }
    }

    /// The counters of the task filed under the rule `id`, if it runs.
    pub fn live_counters(&self, id: &str) -> (r: Option<&RuleCounters>)
        requires
            self.wf(),
        ensures
            r is Some <==> self.running_ids().contains(id@),
            r matches Some(c) ==> *c == *self.task_map()[id@].1.counters,
    {
        let key = id.to_owned();
        self.filed_counters(&key)
    }

    /// The counters of the task filed under `key`, if there is one.
    fn filed_counters(&self, key: &String) -> (r: Option<&RuleCounters>)
        requires
            self.tasks_distinct(),
        ensures
            r is Some <==> self.running_ids().contains(key@),
            r matches Some(c) ==> *c == *self.task_map()[key@].1.counters,
    {
        match self.find_task(key) {
            Some(i) => {
                proof {
                    self.lemma_task_at(i as int);
                }
                Some(&*self.tasks[i].task.counters)
            },
            None => None,
        }
    }

    /// Files `rule` under its identifier, replacing a rule of that identifier.
    /// Every rule afterwards is `rule` or was there before.
    fn put_rule(&mut self, rule: ForwardRule)
        requires
            ids_distinct(old(self).rule_seq()),
        ensures
            ids_distinct(final(self).rule_seq()),
            final(self).rule_map() == old(self).rule_map().insert(rule@.id, rule@),
            forall|j: int|
                0 <= j < final(self).rule_seq().len() ==> #[trigger] final(self).rule_seq()[j] == rule@
                    || old(self).rule_seq().contains(final(self).rule_seq()[j]),
            final(self).tasks == old(self).tasks,
            final(self).next_order == old(self).next_order,
            final(self).next_run == old(self).next_run,
            final(self).config_path == old(self).config_path,
            final(self).log_path == old(self).log_path,
    {
        let ghost s0 = self.rule_seq();
        match self.find_rule(&rule.id) {
            Some(i) => {
                proof {
                    lemma_keyed_update(s0, i as int, rule@);
                }
                self.rules.set(i, rule);
                assert(self.rule_seq() =~= s0.update(i as int, rule@));
                assert forall|j: int| 0 <= j < self.rule_seq().len() implies #[trigger] self.rule_seq()[j]
                    == rule@ || s0.contains(self.rule_seq()[j]) by {
                    if j != i {
                        assert(self.rule_seq()[j] == s0[j]);
                    }
                }
            },
            None => {
                proof {
                    lemma_keyed_push(s0, rule@);
                }
                self.rules.push(rule);
                assert(self.rule_seq() =~= s0.push(rule@));
                assert forall|j: int| 0 <= j < self.rule_seq().len() implies #[trigger] self.rule_seq()[j]
                    == rule@ || s0.contains(self.rule_seq()[j]) by {
                    if j < s0.len() {
                        assert(self.rule_seq()[j] == s0[j]);
                    }
                }
            },
        }
    }

    /// Files `rule`, which satisfies `rule_ok`, under its identifier.
    fn insert_rule(&mut self, rule: ForwardRule)
        requires
            old(self).wf(),
            rule_ok(rule@, old(self).next_order, old(self).running_ids()),
        ensures
            final(self).wf(),
            final(self).rule_map() == old(self).rule_map().insert(rule@.id, rule@),
            final(self).tasks == old(self).tasks,
            final(self).next_order == old(self).next_order,
            final(self).next_run == old(self).next_run,
            final(self).config_path == old(self).config_path,
            final(self).log_path == old(self).log_path,
    {
        let ghost s0 = self.rule_seq();
        let ghost r = rule@;
        self.put_rule(rule);
        assert forall|j: int| 0 <= j < self.rule_seq().len() implies rule_ok(
            #[trigger] self.rule_seq()[j],
            self.next_order,
            self.running_ids(),
        ) by {
            if self.rule_seq()[j] != r {
                let k = choose|k: int| 0 <= k < s0.len() && s0[k] == self.rule_seq()[j];
                assert(rule_ok(s0[k], self.next_order, self.running_ids()));
            }
        }
    }

    /// Sets whether the rule `key` is enabled and its status, if it exists.
    fn set_rule_state(&mut self, key: &String, enabled: bool, status: RuleStatus)
        requires
            ids_distinct(old(self).rule_seq()),
        ensures
            ids_distinct(final(self).rule_seq()),
            final(self).rule_seq().len() == old(self).rule_seq().len(),
            forall|j: int|
                0 <= j < old(self).rule_seq().len() ==> #[trigger] final(self).rule_seq()[j] == if old(
                    self,
                ).rule_seq()[j].id == key@ {
                    ForwardRuleView { enabled, status: status@, ..old(self).rule_seq()[j] }
                } else {
                    old(self).rule_seq()[j]
                },
            final(self).rule_map() == if old(self).rule_map().contains_key(key@) {
                old(self).rule_map().insert(
                    key@,
                    ForwardRuleView { enabled, status: status@, ..old(self).rule_map()[key@] },
                )
            } else {
                old(self).rule_map()
            },
            final(self).tasks == old(self).tasks,
            final(self).next_order == old(self).next_order,
            final(self).next_run == old(self).next_run,
            final(self).config_path == old(self).config_path,
            final(self).log_path == old(self).log_path,
    {
        let ghost s0 = self.rule_seq();
        match self.find_rule(key) {
            Some(i) => {
                let mut r = self.rules[i].clone();
                r.enabled = enabled;
                r.status = status;
                proof {
                    lemma_keyed_at(s0, i as int);
                    lemma_keyed_update(s0, i as int, r@);
                }
                self.rules.set(i, r);
                assert(self.rule_seq() =~= s0.update(i as int, r@));
                assert forall|j: int| 0 <= j < s0.len() implies #[trigger] self.rule_seq()[j] == if s0[j].id
                    == key@ {
                    ForwardRuleView { enabled, status: status@, ..s0[j] }
                } else {
                    s0[j]
                } by {
                    if j != i {
                        assert(s0[j].id != s0[i as int].id);
                    }
                }
            },
            None => {
                assert forall|j: int| 0 <= j < s0.len() implies #[trigger] s0[j].id != key@ by {
                    if s0[j].id == key@ {
                        lemma_keyed_at(s0, j);
                    }
                }
            },
        }
    }

    /// Adds a new rule made from `req`: it gets a fresh random identifier and
    /// the next display order, and starts disabled and stopped.
    pub fn add_rule(&mut self, req: CreateRuleRequest) -> (rule: ForwardRule)
        requires
            old(self).wf(),
            old(self).next_order_value() < u64::MAX,
        ensures
            final(self).wf(),
            is_uuid_v4_text(rule.id@),
            rule@ == fresh_rule(
                rule.id@,
                old(self).next_order_value(),
                req.name@,
                req.protocol,
                req.listen_addr@,
                req.target_addr@,
            ),
            final(self).rule_map() == old(self).rule_map().insert(rule.id@, rule@),
            old(self).tasks_on_running_rules() && !old(self).running_ids().contains(rule.id@)
                ==> final(self).tasks_on_running_rules(),
            final(self).next_order_value() == old(self).next_order_value() + 1,
            final(self).running_ids() == old(self).running_ids(),
            final(self).task_map() == old(self).task_map(),
            final(self).next_run_value() == old(self).next_run_value(),
            same_paths(*final(self), *old(self)),
    {
        let order = self.next_order();
        let rule = ForwardRule::new(order, req.name, req.protocol, req.listen_addr, req.target_addr);
        self.insert_rule(rule.clone());
        rule
    }

    /// Removes the rule `id`. A running rule must be stopped first.
    pub fn remove_rule(&mut self, id: &str) -> (r: Result<(), String>)
        requires
            old(self).wf(),
        ensures
            final(self).wf(),
            old(self).running_ids().contains(id@) ==> fails_with(r, msg_stop_before_removing())
                && *final(self) == *old(self),
            !old(self).running_ids().contains(id@) && !old(self).rule_map().contains_key(id@) ==> fails_with(r, msg_rule_not_found()) && *final(self) == *old(self),
            !old(self).running_ids().contains(id@) && old(self).rule_map().contains_key(id@) ==> r is Ok
                && final(self).rule_map() == old(self).rule_map().remove(id@) && final(self).next_order_value()
                == old(self).next_order_value() && final(self).running_ids() == old(self).running_ids()
                && final(self).task_map() == old(self).task_map() && final(self).next_run_value()
                == old(self).next_run_value() && same_paths(*final(self), *old(self)),
            old(self).tasks_on_running_rules() ==> final(self).tasks_on_running_rules(),
    {
        if self.is_running(id) {
            return Err("Stop the rule before removing it".to_owned());
        }
        let key = id.to_owned();
        match self.find_rule(&key) {
            None => Err("Rule not found".to_owned()),
            Some(i) => {
                let ghost s0 = self.rule_seq();
                proof {
                    lemma_keyed_remove(s0, i as int);
                }
                self.rules.remove(i);
                assert(self.rule_seq() =~= s0.remove(i as int));
                assert forall|j: int| 0 <= j < self.rule_seq().len() implies rule_ok(
                    #[trigger] self.rule_seq()[j],
                    self.next_order,
                    self.running_ids(),
                ) by {
                    if j < i {
                        assert(self.rule_seq()[j] == s0[j]);
                    } else {
                        assert(self.rule_seq()[j] == s0[j + 1]);
                    }
                }
                Ok(())
            },
        }
    }

    /// Edits the name, protocol and addresses of the rule `req.id`. A running
    /// rule must be stopped first.
    pub fn update_rule(&mut self, req: UpdateRuleRequest) -> (r: Result<(), String>)
        requires
            old(self).wf(),
        ensures
            final(self).wf(),
            old(self).running_ids().contains(req.id@) ==> fails_with(r, msg_stop_before_editing())
                && *final(self) == *old(self),
            !old(self).running_ids().contains(req.id@) && !old(self).rule_map().contains_key(req.id@) ==> fails_with(r, msg_rule_not_found()) && *final(self) == *old(self),
            !old(self).running_ids().contains(req.id@) && old(self).rule_map().contains_key(req.id@) ==> r is Ok
                && final(self).rule_map() == old(self).rule_map().insert(
                req.id@,
                edited_rule(
                    old(self).rule_map()[req.id@],
                    req.name@,
                    req.protocol,
                    req.listen_addr@,
                    req.target_addr@,
                ),
            ) && final(self).next_order_value() == old(self).next_order_value() && final(self).running_ids()
                == old(self).running_ids() && final(self).task_map() == old(self).task_map()
                && final(self).next_run_value() == old(self).next_run_value() && same_paths(*final(self), *old(self)),
            old(self).tasks_on_running_rules() ==> final(self).tasks_on_running_rules(),
            !old(self).running_ids().contains(req.id@) && old(self).rule_map().contains_key(req.id@) ==> {
                let before = old(self).rule_map()[req.id@];
                let after = final(self).rule_map()[req.id@];
                &&& after.id == before.id
                &&& after.order == before.order
                &&& after.enabled == before.enabled
                &&& after.status == before.status
                &&& after.stats == before.stats
                &&& after.name == req.name@
                &&& after.protocol == req.protocol
                &&& after.listen_addr == req.listen_addr@
                &&& after.target_addr == req.target_addr@
            },
    {
        if self.is_running(req.id.as_str()) {
            return Err("Stop the rule before editing it".to_owned());
        }
        match self.find_rule(&req.id) {
            None => Err("Rule not found".to_owned()),
            Some(i) => {
                let ghost s0 = self.rule_seq();
                let mut rule = self.rules[i].clone();
                rule.name = req.name;
                rule.protocol = req.protocol;
                rule.listen_addr = req.listen_addr;
                rule.target_addr = req.target_addr;
                proof {
                    lemma_keyed_at(s0, i as int);
                    assert(rule_ok(s0[i as int], self.next_order, self.running_ids()));
                }
                self.insert_rule(rule);
                Ok(())
            },
        }
    }

    /// A copy of the rules in the order they are kept.
    fn copy_rules(&self) -> (v: Vec<ForwardRule>)
        ensures
            views_of(v@) == self.rule_seq(),
    {
        let mut v: Vec<ForwardRule> = Vec::new();
        let mut i: usize = 0;
        while i < self.rules.len()
            invariant
                i <= self.rules@.len(),
                views_of(v@) == self.rule_seq().take(i as int),
            decreases self.rules@.len() - i,
        {
            let ghost prev = v@;
            let r = self.rules[i].clone();
            assert(r@ == self.rule_seq()[i as int]);
            v.push(r);
            assert(v@ =~= prev.push(r));
            assert(views_of(v@) =~= views_of(prev).push(r@));
            assert(self.rule_seq().take(i + 1) =~= self.rule_seq().take(i as int).push(r@));
            i = i + 1;
        }
        assert(self.rule_seq().take(i as int) =~= self.rule_seq());
        v
    }

    /// All rules, each once, in no particular order.
    pub fn all_rules(&self) -> (v: Vec<ForwardRule>)
        requires
            self.wf(),
        ensures
            lists_exactly(views_of(v@), self.rule_map()),
    {
        let v = self.copy_rules();
        proof {
            lemma_lists_own_map(self.rule_seq());
        }
        v
    }

    /// All rules as they are written to the rules file: each once, in no
    /// particular order, with the counters at zero.
    pub fn persistent_rules(&self) -> (v: Vec<ForwardRule>)
        requires
            self.wf(),
        ensures
            lists_exactly(views_of(v@), self.rule_map().map_values(|r: ForwardRuleView| saved_rule(r))),
    {
        let ghost s0 = self.rule_seq();
        let ghost m = self.rule_map().map_values(|r: ForwardRuleView| saved_rule(r));
        let mut v: Vec<ForwardRule> = Vec::new();
        let mut i: usize = 0;
        while i < self.rules.len()
            invariant
                i <= self.rules@.len(),
                s0 == self.rule_seq(),
                views_of(v@) == s0.take(i as int).map_values(|r: ForwardRuleView| saved_rule(r)),
            decreases self.rules@.len() - i,
        {
            let ghost prev = v@;
            let mut r = self.rules[i].clone();
            assert(r@ == s0[i as int]);
            r.stats = RuleStats::default();
            v.push(r);
            assert(v@ =~= prev.push(r));
            assert(views_of(v@) =~= views_of(prev).push(r@));
            assert(s0.take(i + 1).map_values(|r: ForwardRuleView| saved_rule(r)) =~= s0.take(i as int).map_values(
                |r: ForwardRuleView| saved_rule(r),
            ).push(saved_rule(s0[i as int])));
            i = i + 1;
        }
        assert(s0.take(i as int) =~= s0);
        let ghost w = views_of(v@);
        assert forall|a: int, b: int| 0 <= a < w.len() && 0 <= b < w.len() && a != b implies #[trigger] w[a].id
            != #[trigger] w[b].id by {
            assert(w[a].id == s0[a].id && w[b].id == s0[b].id);
        }
        assert forall|a: int| 0 <= a < w.len() implies m.contains_key(#[trigger] w[a].id) && m[w[a].id] == w[a] by {
            lemma_keyed_at(s0, a);
        }
        assert forall|id: Seq<char>| #[trigger] m.contains_key(id) implies has_id(w, id) by {
            let k = choose|k: int| 0 <= k < s0.len() && #[trigger] s0[k].id == id;
            assert(w[k].id == id);
        }
        v
    }

    /// Reads the live counters of every running rule into the rule.
    fn refresh_live_stats(&mut self)
        requires
            old(self).wf(),
        ensures
            final(self).wf(),
            final(self).rule_seq().len() == old(self).rule_seq().len(),
            forall|j: int|
                0 <= j < old(self).rule_seq().len() ==> if old(self).running_ids().contains(
                    old(self).rule_seq()[j].id,
                ) {
                    #[trigger] final(self).rule_seq()[j] == ForwardRuleView {
                        stats: final(self).rule_seq()[j].stats,
                        ..old(self).rule_seq()[j]
                    } && final(self).rule_seq()[j].stats.connections >= 0 && reads_counters(
                        *old(self).task_map()[old(self).rule_seq()[j].id].1.counters,
                        final(self).rule_seq()[j].stats,
                    )
                } else {
                    final(self).rule_seq()[j] == old(self).rule_seq()[j]
                },
            final(self).tasks == old(self).tasks,
            final(self).next_order == old(self).next_order,
            final(self).next_run == old(self).next_run,
            final(self).config_path == old(self).config_path,
            final(self).log_path == old(self).log_path,
    {
        let ghost s0 = self.rule_seq();
        let ghost t0 = self.tasks;
        let mut i: usize = 0;
        while i < self.rules.len()
            invariant
                i <= self.rules@.len(),
                self.rule_seq().len() == s0.len(),
                self.tasks == t0,
                t0 == old(self).tasks,
                task_ids_distinct(t0@),
                self.next_order == old(self).next_order,
                self.next_run == old(self).next_run,
                self.config_path == old(self).config_path,
                self.log_path == old(self).log_path,
                s0 == old(self).rule_seq(),
                forall|j: int|
                    0 <= j < s0.len() ==> if j < i && self.running_ids().contains(s0[j].id) {
                        #[trigger] self.rule_seq()[j] == ForwardRuleView { stats: self.rule_seq()[j].stats, ..s0[j] }
                            && self.rule_seq()[j].stats.connections >= 0 && reads_counters(
                            *self.task_map()[s0[j].id].1.counters,
                            self.rule_seq()[j].stats,
                        )
                    } else {
                        self.rule_seq()[j] == s0[j]
                    },
            decreases self.rules@.len() - i,
        {
            let ghost before = self.rule_seq();
            assert(before[i as int] == s0[i as int]);
            let live = match self.filed_counters(&self.rules[i].id) {
                Some(c) => Some(c.snapshot()),
                None => None,
            };
            if let Some(stats) = live {
                let mut r = self.rules[i].clone();
                r.stats = stats;
                self.rules.set(i, r);
                assert(self.rule_seq() =~= before.update(i as int, r@));
            }
            assert(self.running_ids() == old(self).running_ids());
            assert forall|j: int| 0 <= j < s0.len() implies if j < i + 1 && self.running_ids().contains(s0[j].id) {
                #[trigger] self.rule_seq()[j] == ForwardRuleView { stats: self.rule_seq()[j].stats, ..s0[j] }
                    && self.rule_seq()[j].stats.connections >= 0 && reads_counters(
                    *self.task_map()[s0[j].id].1.counters,
                    self.rule_seq()[j].stats,
                )
            } else {
                self.rule_seq()[j] == s0[j]
            } by {
                if j != i {
                    assert(self.rule_seq()[j] == before[j]);
                }
            }
            i = i + 1;
        }
        let ghost s1 = self.rule_seq();
        assert forall|a: int, b: int| 0 <= a < s1.len() && 0 <= b < s1.len() && a != b implies #[trigger] s1[a].id
            != #[trigger] s1[b].id by {
            assert(s1[a].id == s0[a].id && s1[b].id == s0[b].id);
        }
        assert forall|j: int| 0 <= j < s1.len() implies rule_ok(
            #[trigger] s1[j],
            self.next_order,
            self.running_ids(),
        ) by {
            assert(rule_ok(s0[j], self.next_order, self.running_ids()));
        }
    }

    /// Reads the live counters of the running rules into them, then lists all
    /// rules, each once, by non-decreasing display order.
    pub fn list_rules(&mut self) -> (v: Vec<ForwardRule>)
        requires
            old(self).wf(),
        ensures
            final(self).wf(),
            final(self).rule_map().dom() == old(self).rule_map().dom(),
            forall|id: Seq<char>| #[trigger]
                old(self).rule_map().contains_key(id) ==> if old(self).running_ids().contains(id) {
                    final(self).rule_map()[id] == ForwardRuleView {
                        stats: final(self).rule_map()[id].stats,
                        ..old(self).rule_map()[id]
                    } && final(self).rule_map()[id].stats.connections >= 0 && reads_counters(
                        *old(self).task_map()[id].1.counters,
                        final(self).rule_map()[id].stats,
                    )
                } else {
                    final(self).rule_map()[id] == old(self).rule_map()[id]
                },
            final(self).next_order_value() == old(self).next_order_value(),
            final(self).running_ids() == old(self).running_ids(),
            final(self).task_map() == old(self).task_map(),
            final(self).next_run_value() == old(self).next_run_value(),
            same_paths(*final(self), *old(self)),
            lists_exactly(views_of(v@), final(self).rule_map()),
            sorted_by_order(views_of(v@)),
            old(self).tasks_on_running_rules() ==> final(self).tasks_on_running_rules(),
    {
        let ghost s0 = self.rule_seq();
        self.refresh_live_stats();
        let ghost s1 = self.rule_seq();
        assert forall|id: Seq<char>| #[trigger] self.rule_map().contains_key(id) == old(self).rule_map().contains_key(
            id,
        ) by {
            if has_id(s0, id) {
                let k = choose|k: int| 0 <= k < s0.len() && #[trigger] s0[k].id == id;
                assert(s1[k].id == id);
            }
            if has_id(s1, id) {
                let k = choose|k: int| 0 <= k < s1.len() && #[trigger] s1[k].id == id;
                assert(s0[k].id == id);
            }
        }
        assert(self.rule_map().dom() =~= old(self).rule_map().dom());
        assert forall|id: Seq<char>| #[trigger] old(self).rule_map().contains_key(id) implies (if old(
            self,
        ).running_ids().contains(id) {
            self.rule_map()[id] == ForwardRuleView { stats: self.rule_map()[id].stats, ..old(self).rule_map()[id] }
                && self.rule_map()[id].stats.connections >= 0 && reads_counters(
                *old(self).task_map()[id].1.counters,
                self.rule_map()[id].stats,
            )
        } else {
            self.rule_map()[id] == old(self).rule_map()[id]
        }) by {
            let k = choose|k: int| 0 <= k < s0.len() && #[trigger] s0[k].id == id;
            lemma_keyed_at(s0, k);
            lemma_keyed_at(s1, k);
        }
        let all = self.copy_rules();
        let sorted = sort_by_order(all);
        proof {
            lemma_lists_own_map(s1);
            lemma_permutation_lists(views_of(sorted@), s1, self.rule_map());
        }
        sorted
    }

    /// Replaces the rules by `loaded`, as the rules file gives them: each
    /// stopped and disabled with zero counters, a later rule replacing an
    /// earlier one of the same identifier. The next display order becomes one
    /// past the largest loaded order (0 when nothing is loaded).
    pub fn restore_rules(&mut self, loaded: Vec<ForwardRule>)
        requires
            old(self).wf(),
            forall|i: int| 0 <= i < loaded@.len() ==> #[trigger] loaded@[i].order < u64::MAX,
        ensures
            final(self).wf(),
            final(self).rule_map() == loaded_map(views_of(loaded@)),
            final(self).next_order_value() == order_after(views_of(loaded@)),
            final(self).running_ids() == old(self).running_ids(),
            final(self).task_map() == old(self).task_map(),
            final(self).next_run_value() == old(self).next_run_value(),
            same_paths(*final(self), *old(self)),
            old(self).running_ids() == Set::<Seq<char>>::empty() ==> final(self).tasks_on_running_rules(),
    {
        let ghost lv = views_of(loaded@);
        self.rules.clear();
        assert(self.rule_seq() =~= Seq::<ForwardRuleView>::empty());
        assert(seq_to_map(self.rule_seq()) =~= Map::<Seq<char>, ForwardRuleView>::empty());
        let mut max_order: u64 = 0;
        let n = loaded.len();
        let mut i: usize = 0;
        while i < n
            invariant
                n == loaded@.len(),
                lv == views_of(loaded@),
                i <= n,
                forall|k: int| 0 <= k < n ==> #[trigger] loaded@[k].order < u64::MAX,
                ids_distinct(self.rule_seq()),
                self.rule_map() == loaded_map(lv.take(i as int)),
                max_order == order_after(lv.take(i as int)),
                forall|j: int|
                    0 <= j < self.rule_seq().len() ==> (#[trigger] self.rule_seq()[j]).order < max_order
                        && !self.rule_seq()[j].enabled && self.rule_seq()[j].status is Stopped,
                self.tasks == old(self).tasks,
                self.next_run == old(self).next_run,
                self.config_path == old(self).config_path,
                self.log_path == old(self).log_path,
            decreases n - i,
        {
            let mut rule = loaded[i].clone();
            rule.enabled = false;
            rule.status = RuleStatus::Stopped;
            rule.stats = RuleStats::default();
            assert(rule@ == loaded_rule(lv[i as int]));
            assert(lv.take(i + 1).drop_last() =~= lv.take(i as int));
            if rule.order >= max_order {
                max_order = rule.order + 1;
            }
            let ghost s0 = self.rule_seq();
            let ghost r = rule@;
            self.put_rule(rule);
            assert forall|j: int| 0 <= j < self.rule_seq().len() implies (#[trigger] self.rule_seq()[j]).order
                < max_order && !self.rule_seq()[j].enabled && self.rule_seq()[j].status is Stopped by {
                if self.rule_seq()[j] != r {
                    let k = choose|k: int| 0 <= k < s0.len() && s0[k] == self.rule_seq()[j];
                    assert(s0[k].order < max_order);
                }
            }
            i = i + 1;
        }
        assert(lv.take(n as int) =~= lv);
        self.next_order = max_order;
        assert forall|j: int| 0 <= j < self.rule_seq().len() implies rule_ok(
            #[trigger] self.rule_seq()[j],
            self.next_order,
            self.running_ids(),
        ) by {}
    }

    /// Adds copies of `incoming` as new rules: each gets a fresh random
    /// identifier and the next display order, and starts stopped and disabled
    /// with zero counters. Returns how many rules came in.
    pub fn import_rules(&mut self, incoming: Vec<ForwardRule>) -> (n: usize)
        requires
            old(self).wf(),
            old(self).next_order_value() + incoming@.len() <= u64::MAX,
        ensures
            final(self).wf(),
            n == incoming@.len(),
            final(self).next_order_value() == old(self).next_order_value() + n,
            final(self).running_ids() == old(self).running_ids(),
            final(self).task_map() == old(self).task_map(),
            final(self).next_run_value() == old(self).next_run_value(),
            same_paths(*final(self), *old(self)),
            exists|ids: Seq<Seq<char>>|
                {
                    &&& ids.len() == n
                    &&& forall|i: int| 0 <= i < n ==> is_uuid_v4_text(#[trigger] ids[i])
                    &&& final(self).rule_map() == imported_map(
                        old(self).rule_map(),
                        views_of(incoming@),
                        ids,
                        old(self).next_order_value(),
                    )
                    &&& old(self).tasks_on_running_rules() && (forall|i: int|
                        0 <= i < n ==> !old(self).running_ids().contains(#[trigger] ids[i]))
                        ==> final(self).tasks_on_running_rules()
                },
    {
        let ghost iv = views_of(incoming@);
        let ghost first = self.next_order;
        let ghost m0 = self.rule_map();
        let ghost mut ids: Seq<Seq<char>> = Seq::empty();
        let count = incoming.len();
        let mut i: usize = 0;
        while i < count
            invariant
                count == incoming@.len(),
                iv == views_of(incoming@),
                i <= count,
                self.wf(),
                first + count <= u64::MAX,
                self.next_order == first + i,
                ids.len() == i,
                forall|k: int| 0 <= k < i ==> is_uuid_v4_text(#[trigger] ids[k]),
                self.rule_map() == imported_map(m0, iv.take(i as int), ids, first),
                old(self).tasks_on_running_rules() && (forall|k: int|
                    0 <= k < i ==> !old(self).running_ids().contains(#[trigger] ids[k]))
                    ==> self.tasks_on_running_rules(),
                self.running_ids() == old(self).running_ids(),
                self.task_map() == old(self).task_map(),
                self.next_run == old(self).next_run,
                self.config_path == old(self).config_path,
                self.log_path == old(self).log_path,
            decreases count - i,
        {
            let mut rule = incoming[i].clone();
            rule.id = new_v4_text();
            rule.order = self.next_order();
            rule.enabled = false;
            rule.status = RuleStatus::Stopped;
            rule.stats = RuleStats::default();
            let ghost prev_ids = ids;
            proof {
                ids = ids.push(rule.id@);
                assert(ids.drop_last() =~= prev_ids);
                assert(rule@ == imported_rule(iv[i as int], ids[i as int], (first + i) as u64));
                assert(iv.take(i + 1).drop_last() =~= iv.take(i as int));
                assert(iv.take(i + 1)[i as int] == iv[i as int]);
            }
            let ghost r = rule@;
            let ghost m1 = self.rule_map();
            self.insert_rule(rule);
            proof {
                if old(self).tasks_on_running_rules() && (forall|k: int|
                    0 <= k < i + 1 ==> !old(self).running_ids().contains(#[trigger] ids[k])) {
                    assert forall|k: int| 0 <= k < i implies !old(self).running_ids().contains(
                        #[trigger] prev_ids[k],
                    ) by {
                        assert(prev_ids[k] == ids[k]);
                    }
                    assert(tasks_have_running_rules(self.running_ids(), m1));
                    assert(!self.running_ids().contains(r.id)) by {
                        assert(ids[i as int] == r.id);
                    }
                    assert forall|x: Seq<char>| #[trigger] self.running_ids().contains(x) implies self.rule_map().contains_key(x)
                        && self.rule_map()[x].status == RuleStatusView::Running by {
                        assert(m1.contains_key(x));
                    }
                }
            }
            i = i + 1;
        }
        assert(iv.take(count as int) =~= iv);
        count
    }

    /// What starting the rule `id` needs, or why it cannot start: the rule
    /// must exist and must not be running.
    pub fn prepare_start(&self, id: &str) -> (r: Result<StartPlan, String>)
        requires
            self.wf(),
        ensures
            !self.rule_map().contains_key(id@) ==> fails_with(r, msg_rule_not_found()),
            self.rule_map().contains_key(id@) && self.running_ids().contains(id@) ==> fails_with(
                r,
                msg_already_running(),
            ),
            self.rule_map().contains_key(id@) && !self.running_ids().contains(id@) ==> plans_start_of(
                r,
                self.rule_map()[id@],
            ),
    {
        let key = id.to_owned();
        match self.find_rule(&key) {
            None => Err("Rule not found".to_owned()),
            Some(i) => {
                if self.find_task(&key).is_some() {
                    return Err("Already running".to_owned());
                }
                let rule = &self.rules[i];
                let plan = StartPlan {
                    protocol: rule.protocol,
                    listen_addr: rule.listen_addr.clone(),
                    target_addr: rule.target_addr.clone(),
                };
                proof {
                    assert(has_id(self.rule_seq(), id@));
                    let k = choose|k: int| 0 <= k < self.rule_seq().len() && #[trigger] self.rule_seq()[k].id == id@;
                    lemma_keyed_at(self.rule_seq(), k);
                    if k != i {
                        assert(self.rule_seq()[k].id != self.rule_seq()[i as int].id);
                    }
                }
                Ok(plan)
            },
        }
    }

    /// Files `task` as the running task of the rule `id`, which `prepare_start`
    /// has just accepted, under the next run number, which it returns, and
    /// marks the rule enabled and running.
    pub fn record_started(&mut self, id: &str, task: RunningTask) -> (run: u64)
        requires
            old(self).wf(),
            old(self).rule_map().contains_key(id@),
            !old(self).running_ids().contains(id@),
            old(self).next_run_value() < u64::MAX,
        ensures
            final(self).wf(),
            run == old(self).next_run_value(),
            final(self).next_run_value() == run + 1,
            final(self).task_map() == old(self).task_map().insert(id@, (run, task)),
            final(self).running_ids() == old(self).running_ids().insert(id@),
            final(self).rule_map() == old(self).rule_map().insert(id@, started_rule(old(self).rule_map()[id@])),
            final(self).next_order_value() == old(self).next_order_value(),
            same_paths(*final(self), *old(self)),
            old(self).tasks_on_running_rules() ==> final(self).tasks_on_running_rules(),
    {
        let key = id.to_owned();
        let run = self.next_run;
        let ghost t0 = self.tasks@;
        let entry = TaskEntry { id: key.clone(), run, task };
        let ghost e = entry;
        match self.find_task(&key) {
            Some(i) => {
                self.tasks.set(i, entry);
                assert(self.tasks@ == t0.update(i as int, e));
            },
            None => {
                self.tasks.push(entry);
                assert(self.tasks@ == t0.push(e));
            },
        }
        proof {
            lemma_tasks_file(t0, self.tasks@, e);
        }
        assert(self.running_ids() =~= old(self).running_ids().insert(id@));
        self.next_run = run + 1;
        assert forall|j: int| 0 <= j < self.tasks@.len() implies (#[trigger] self.tasks@[j]).run < self.next_run by {
            if self.tasks@[j] != e {
                let k = choose|k: int| 0 <= k < t0.len() && t0[k] == self.tasks@[j];
                assert(t0[k].run < old(self).next_run);
            }
        }
        let ghost s0 = self.rule_seq();
        self.set_rule_state(&key, true, RuleStatus::Running);
        assert forall|j: int| 0 <= j < self.rule_seq().len() implies rule_ok(
            #[trigger] self.rule_seq()[j],
            self.next_order,
            self.running_ids(),
        ) by {
            assert(rule_ok(s0[j], self.next_order, old(self).running_ids()));
        }
        run
    }

    /// Drops the task filed under `key`, if any.
    fn drop_task(&mut self, key: &String) -> (found: Option<RunningTask>)
        requires
            old(self).tasks_distinct(),
        ensures
            final(self).tasks_distinct(),
            found is Some == old(self).running_ids().contains(key@),
            found matches Some(t) ==> t == old(self).task_map()[key@].1,
            final(self).running_ids() == old(self).running_ids().remove(key@),
            final(self).task_map() == old(self).task_map().remove(key@),
            forall|i: int|
                0 <= i < final(self).tasks@.len() ==> old(self).tasks@.contains(#[trigger] final(self).tasks@[i]),
            final(self).rules == old(self).rules,
            final(self).next_order == old(self).next_order,
            final(self).next_run == old(self).next_run,
            final(self).config_path == old(self).config_path,
            final(self).log_path == old(self).log_path,
    {
        let ghost t0 = self.tasks@;
        match self.find_task(key) {
            None => {
                assert(self.running_ids() =~= old(self).running_ids().remove(key@));
                assert(self.task_map() =~= old(self).task_map().remove(key@));
                None
            },
            Some(i) => {
                proof {
                    lemma_tasks_remove(t0, i as int);
                    lemma_task_entry_at(t0, i as int);
                }
                let entry = self.tasks.remove(i);
                Some(entry.task)
            },
        }
    }

    /// Records that the run `run` of the rule `id` ended with `outcome`. If
    /// that run is the one filed under the rule, its task is dropped and the
    /// rule, if it exists, is disabled and stopped, or marked with the error
    /// that ended it; otherwise (the rule was stopped, or stopped and started
    /// again) nothing changes.
    pub fn record_finished(&mut self, id: &str, run: u64, outcome: Result<(), String>)
        requires
            old(self).wf(),
        ensures
            final(self).wf(),
            !files_run(old(self).task_map(), id@, run) ==> *final(self) == *old(self),
            files_run(old(self).task_map(), id@, run) ==> {
                &&& final(self).running_ids() == old(self).running_ids().remove(id@)
                &&& final(self).task_map() == old(self).task_map().remove(id@)
                &&& final(self).rule_map() == if old(self).rule_map().contains_key(id@) {
                    old(self).rule_map().insert(
                        id@,
                        stopped_rule(old(self).rule_map()[id@], finished_status(outcome)),
                    )
                } else {
                    old(self).rule_map()
                }
                &&& final(self).next_order_value() == old(self).next_order_value()
                &&& final(self).next_run_value() == old(self).next_run_value()
                &&& same_paths(*final(self), *old(self))
            },
            old(self).tasks_on_running_rules() ==> final(self).tasks_on_running_rules(),
            files_run(old(self).task_map(), id@, run) && old(self).rule_map().contains_key(id@) ==> {
                &&& !final(self).rule_map()[id@].enabled
                &&& outcome is Ok ==> final(self).rule_map()[id@].status == RuleStatusView::Stopped
                &&& outcome matches Err(e) ==> final(self).rule_map()[id@].status == RuleStatusView::Error(e@)
            },
    {
        let key = id.to_owned();
        match self.find_task(&key) {
            None => {
                return;
            },
            Some(i) => {
                proof {
                    self.lemma_task_at(i as int);
                }
                if self.tasks[i].run != run {
                    return;
                }
            },
        }
        let _ = self.finish_filed(&key, outcome);
    }

    /// Drops the task filed under `key`, handing it back, and marks the rule,
    /// if it exists, disabled and stopped, or marked with the error in
    /// `outcome`.
    fn finish_filed(&mut self, key: &String, outcome: Result<(), String>) -> (found: Option<RunningTask>)
        requires
            old(self).wf(),
        ensures
            final(self).wf(),
            found is Some == old(self).running_ids().contains(key@),
            found matches Some(t) ==> t == old(self).task_map()[key@].1,
            final(self).running_ids() == old(self).running_ids().remove(key@),
            final(self).task_map() == old(self).task_map().remove(key@),
            final(self).rule_map() == if old(self).rule_map().contains_key(key@) {
                old(self).rule_map().insert(key@, stopped_rule(old(self).rule_map()[key@], finished_status(outcome)))
            } else {
                old(self).rule_map()
            },
            final(self).next_order == old(self).next_order,
            final(self).next_run == old(self).next_run,
            final(self).config_path == old(self).config_path,
            final(self).log_path == old(self).log_path,
    {
        let found = self.drop_task(key);
        let status = match outcome {
            Ok(_) => RuleStatus::Stopped,
            Err(e) => RuleStatus::Error(e),
        };
        let ghost s0 = self.rule_seq();
        let ghost t1 = self.tasks@;
        self.set_rule_state(key, false, status);
        assert forall|j: int| 0 <= j < self.rule_seq().len() implies rule_ok(
            #[trigger] self.rule_seq()[j],
            self.next_order,
            self.running_ids(),
        ) by {
            assert(rule_ok(s0[j], self.next_order, old(self).running_ids()));
        }
        assert forall|j: int| 0 <= j < self.tasks@.len() implies (#[trigger] self.tasks@[j]).run < self.next_run by {
            let k = choose|k: int| 0 <= k < old(self).tasks@.len() && old(self).tasks@[k] == self.tasks@[j];
            assert(old(self).tasks@[k].run < old(self).next_run);
        }
        found
    }

    /// Stops the rule `id`: its filed task is dropped and handed back, for
    /// the caller to cancel, and the rule, if it exists, is disabled and
    /// stopped. A rule without a task is refused.
    pub fn stop(&mut self, id: &str) -> (r: Result<RunningTask, String>)
        requires
            old(self).wf(),
        ensures
            final(self).wf(),
            !old(self).running_ids().contains(id@) ==> fails_with(r, msg_not_running()) && *final(self)
                == *old(self),
            old(self).running_ids().contains(id@) ==> {
                &&& hands_back(r, old(self).task_map()[id@].1)
                &&& final(self).running_ids() == old(self).running_ids().remove(id@)
                &&& final(self).task_map() == old(self).task_map().remove(id@)
                &&& final(self).rule_map() == if old(self).rule_map().contains_key(id@) {
                    old(self).rule_map().insert(
                        id@,
                        stopped_rule(old(self).rule_map()[id@], RuleStatusView::Stopped),
                    )
                } else {
                    old(self).rule_map()
                }
                &&& final(self).next_order_value() == old(self).next_order_value()
                &&& final(self).next_run_value() == old(self).next_run_value()
                &&& same_paths(*final(self), *old(self))
            },
            old(self).tasks_on_running_rules() ==> final(self).tasks_on_running_rules(),
    {
        let key = id.to_owned();
        if self.find_task(&key).is_none() {
            return Err("Not running".to_owned());
        }
        match self.finish_filed(&key, Ok(())) {
            Some(task) => Ok(task),
            None => Err("Not running".to_owned()),
        }
    }
}

} // verus!

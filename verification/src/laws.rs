//! Properties of the registry that span several operations.
use vstd::prelude::*;
use crate::rule::{ForwardRuleView, Protocol, RuleStatusView, zero_stats};
use crate::keyed::{lemma_keyed_at, lemma_keyed_push};
use crate::rulemap::{has_id, ids_distinct, lists_exactly, seq_to_map};
use crate::state::{
    edited_rule, files_run, finished_status, imported_map, imported_rule, loaded_map, loaded_rule, order_after, saved_rule, started_rule,
    stopped_rule, ForwarderState,
};

verus! {

broadcast use {vstd::seq_lib::group_seq_properties, crate::rulemap::lemma_rule_key};

/// Removing a rule that was just added gives back the rules as they were
/// before the addition (`add_rule` inserts, `remove_rule` removes).
pub proof fn law_remove_undoes_add(m: Map<Seq<char>, ForwardRuleView>, r: ForwardRuleView)
    requires
        !m.contains_key(r.id),
    ensures
        m.insert(r.id, r).remove(r.id) == m,
{
    assert(m.insert(r.id, r).remove(r.id) =~= m);
}

/// Stopping a rule that was just started gives back the running set as it
/// was, and the rule as it was if it had been stopped without error
/// (`record_started`, then `stop`).
pub proof fn law_stop_undoes_start(running: Set<Seq<char>>, r: ForwardRuleView)
    requires
        !running.contains(r.id),
        !r.enabled,
        r.status == RuleStatusView::Stopped,
    ensures
        running.insert(r.id).remove(r.id) == running,
        stopped_rule(started_rule(r), RuleStatusView::Stopped) == r,
{
    assert(running.insert(r.id).remove(r.id) =~= running);
}

/// Every loaded rule is stopped and disabled with zero counters, and the next
/// display order lies beyond every loaded order.
pub proof fn law_loaded_rules_are_stopped(rs: Seq<ForwardRuleView>)
    requires
        forall|i: int| 0 <= i < rs.len() ==> #[trigger] rs[i].order < u64::MAX,
    ensures
        forall|i: int| 0 <= i < rs.len() ==> #[trigger] rs[i].order < order_after(rs),
        forall|id: Seq<char>| #[trigger]
            loaded_map(rs).contains_key(id) ==> {
                let r = loaded_map(rs)[id];
                &&& !r.enabled
                &&& r.status == RuleStatusView::Stopped
                &&& r.stats == zero_stats()
                &&& r.order < order_after(rs)
            },
    decreases rs.len(),
{
    if rs.len() > 0 {
        let init = rs.drop_last();
        law_loaded_rules_are_stopped(init);
        assert forall|i: int| 0 <= i < rs.len() implies #[trigger] rs[i].order < order_after(rs) by {
            if i < init.len() {
                assert(init[i] == rs[i]);
            }
        }
    }
}

/// Distinct identifiers make loading a sequence the same as loading each rule
/// of the map it forms.
proof fn lemma_loaded_map_of_distinct(v: Seq<ForwardRuleView>)
    requires
        ids_distinct(v),
    ensures
        loaded_map(v) == seq_to_map(v).map_values(|r: ForwardRuleView| loaded_rule(r)),
    decreases v.len(),
{
    if v.len() == 0 {
        assert(seq_to_map(v) =~= Map::<Seq<char>, ForwardRuleView>::empty());
        assert(loaded_map(v) =~= seq_to_map(v).map_values(|r: ForwardRuleView| loaded_rule(r)));
    } else {
        let w = v.drop_last();
        let x = v.last();
        assert(w.push(x) =~= v);
        assert(ids_distinct(w)) by {
            assert forall|a: int, b: int| 0 <= a < w.len() && 0 <= b < w.len() && a != b implies #[trigger] w[a].id
                != #[trigger] w[b].id by {
                assert(w[a] == v[a] && w[b] == v[b]);
            }
        }
        lemma_loaded_map_of_distinct(w);
        if seq_to_map(w).contains_key(x.id) {
            let k = choose|k: int| 0 <= k < w.len() && #[trigger] w[k].id == x.id;
            assert(v[k].id == v[v.len() - 1].id);
        }
        lemma_keyed_push(w, x);
        assert(loaded_map(v) =~= seq_to_map(v).map_values(|r: ForwardRuleView| loaded_rule(r)));
    }
}

/// A list of a map's rules, each once, forms that map.
proof fn lemma_list_forms_map(v: Seq<ForwardRuleView>, m: Map<Seq<char>, ForwardRuleView>)
    requires
        lists_exactly(v, m),
    ensures
        seq_to_map(v) == m,
{
    assert forall|id: Seq<char>| #[trigger] seq_to_map(v).contains_key(id) == m.contains_key(id) by {
        if has_id(v, id) {
            let k = choose|k: int| 0 <= k < v.len() && #[trigger] v[k].id == id;
            assert(m.contains_key(v[k].id));
        }
    }
    assert forall|id: Seq<char>| #[trigger] seq_to_map(v).contains_key(id) implies seq_to_map(v)[id] == m[id] by {
        let k = choose|k: int| 0 <= k < v.len() && #[trigger] v[k].id == id;
        lemma_keyed_at(v, k);
    }
    assert(seq_to_map(v) =~= m);
}

/// Loading what was saved gives back every rule, stopped and disabled with
/// zero counters (`persistent_rules`, then `restore_rules`), and the next
/// display order does not move past the saved registry's.
pub proof fn law_load_after_save(
    m: Map<Seq<char>, ForwardRuleView>,
    v: Seq<ForwardRuleView>,
    next: u64,
)
    requires
        lists_exactly(v, m.map_values(|r: ForwardRuleView| saved_rule(r))),
        forall|id: Seq<char>| #[trigger] m.contains_key(id) ==> m[id].order < next,
    ensures
        loaded_map(v) == m.map_values(|r: ForwardRuleView| loaded_rule(r)),
        order_after(v) <= next,
{
    let saved = m.map_values(|r: ForwardRuleView| saved_rule(r));
    lemma_list_forms_map(v, saved);
    lemma_loaded_map_of_distinct(v);
    assert(loaded_map(v) =~= m.map_values(|r: ForwardRuleView| loaded_rule(r)));
    assert forall|i: int| 0 <= i < v.len() implies #[trigger] v[i].order < next by {
        assert(saved.contains_key(v[i].id) && saved[v[i].id] == v[i]);
        assert(m.contains_key(v[i].id));
    }
    lemma_order_after_bounded(v, next);
}

/// One past every order below `next` stays at most `next`.
proof fn lemma_order_after_bounded(v: Seq<ForwardRuleView>, next: u64)
    requires
        forall|i: int| 0 <= i < v.len() ==> #[trigger] v[i].order < next,
    ensures
        order_after(v) <= next,
    decreases v.len(),
{
    if v.len() > 0 {
        let w = v.drop_last();
        assert forall|i: int| 0 <= i < w.len() implies #[trigger] w[i].order < next by {
            assert(w[i] == v[i]);
        }
        lemma_order_after_bounded(w, next);
    }
}

/// Importing gives each incoming rule its fresh identifier and the orders
/// `first`, `first + 1`, ... in turn, stopped and disabled with zero
/// counters, and leaves every other rule as it was, provided the fresh
/// identifiers differ from one another.
pub proof fn law_import_assigns_consecutive_orders(
    m: Map<Seq<char>, ForwardRuleView>,
    rs: Seq<ForwardRuleView>,
    ids: Seq<Seq<char>>,
    first: u64,
)
    requires
        ids.len() == rs.len(),
        ids.no_duplicates(),
        first + rs.len() <= u64::MAX,
    ensures
        forall|i: int| 0 <= i < rs.len() ==> #[trigger] imported_map(m, rs, ids, first).contains_key(ids[i])
            && imported_map(m, rs, ids, first)[ids[i]] == imported_rule(rs[i], ids[i], (first + i) as u64),
        forall|id: Seq<char>| !ids.contains(id) ==> #[trigger] imported_map(m, rs, ids, first).contains_key(id)
            == m.contains_key(id) && (m.contains_key(id) ==> imported_map(m, rs, ids, first)[id] == m[id]),
    decreases rs.len(),
{
    if rs.len() > 0 {
        let k = rs.len() - 1;
        let rs0 = rs.drop_last();
        let ids0 = ids.drop_last();
        assert(ids0.no_duplicates());
        law_import_assigns_consecutive_orders(m, rs0, ids0, first);
        assert forall|i: int| 0 <= i < rs.len() implies #[trigger] imported_map(m, rs, ids, first).contains_key(ids[i])
            && imported_map(m, rs, ids, first)[ids[i]] == imported_rule(rs[i], ids[i], (first + i) as u64) by {
            if i < k {
                assert(ids0[i] == ids[i] && rs0[i] == rs[i]);
                assert(ids[i] != ids[k]);
            }
        }
        assert forall|id: Seq<char>| !ids.contains(id) implies #[trigger] imported_map(m, rs, ids, first).contains_key(id)
            == m.contains_key(id) && (m.contains_key(id) ==> imported_map(m, rs, ids, first)[id] == m[id]) by {
            assert(ids[k] != id);
            if ids0.contains(id) {
                let j = choose|j: int| 0 <= j < ids0.len() && ids0[j] == id;
                assert(ids[j] == id);
            }
        }
    }
}

/// Before the `i`-th of successive `next_order` calls, the next order is
/// `i` past where it started.
proof fn lemma_next_order_after(states: Seq<ForwarderState>, orders: Seq<u64>, i: int)
    requires
        states.len() == orders.len() + 1,
        forall|j: int|
            0 <= j < orders.len() ==> #[trigger] orders[j] == states[j].next_order_value() && states[j
                + 1].next_order_value() == orders[j] + 1,
        0 <= i <= orders.len(),
    ensures
        states[i].next_order_value() == states[0].next_order_value() + i,
    decreases i,
{
    if i > 0 {
        lemma_next_order_after(states, orders, i - 1);
        assert(orders[i - 1] == states[i - 1].next_order_value());
    }
}

/// Successive calls of `next_order` hand out `n`, `n + 1`, `n + 2`, ...
/// (`n` the next order before the first call): strictly increasing, never
/// repeated. `states[i]` is the registry before the `i`-th call, and
/// `orders[i]` what that call returned; each call's contract relates them.
pub proof fn law_successive_orders(states: Seq<ForwarderState>, orders: Seq<u64>)
    requires
        states.len() == orders.len() + 1,
        forall|j: int|
            0 <= j < orders.len() ==> #[trigger] orders[j] == states[j].next_order_value() && states[j
                + 1].next_order_value() == orders[j] + 1,
    ensures
        forall|i: int| 0 <= i < orders.len() ==> #[trigger] orders[i] == states[0].next_order_value() + i,
        forall|i: int, j: int| 0 <= i < j < orders.len() ==> #[trigger] orders[i] < #[trigger] orders[j],
{
    assert forall|i: int| 0 <= i < orders.len() implies #[trigger] orders[i] == states[0].next_order_value() + i by {
        lemma_next_order_after(states, orders, i);
    }
}

/// `a` and `b` have the same name, protocol and addresses.
pub open spec fn same_endpoints(a: ForwardRuleView, b: ForwardRuleView) -> bool {
    &&& a.name == b.name
    &&& a.protocol == b.protocol
    &&& a.listen_addr == b.listen_addr
    &&& a.target_addr == b.target_addr
}

/// Importing what was exported (`all_rules` lists the rules `m` as `v`;
/// `import_rules` then files them under fresh identifiers `ids` that differ
/// from one another and from every existing one) keeps every old rule as it
/// was and adds, for the `i`-th exported rule, a stopped, disabled copy with
/// its name, protocol and addresses under `ids[i]`: twice as many rules.
pub proof fn law_import_after_export(
    m: Map<Seq<char>, ForwardRuleView>,
    v: Seq<ForwardRuleView>,
    ids: Seq<Seq<char>>,
    first: u64,
)
    requires
        lists_exactly(v, m),
        ids.len() == v.len(),
        ids.no_duplicates(),
        forall|i: int| 0 <= i < ids.len() ==> !m.contains_key(#[trigger] ids[i]),
        first + v.len() <= u64::MAX,
    ensures
        forall|id: Seq<char>| #[trigger]
            m.contains_key(id) ==> imported_map(m, v, ids, first).contains_key(id) && imported_map(
                m,
                v,
                ids,
                first,
            )[id] == m[id],
        forall|i: int|
            0 <= i < v.len() ==> {
                let copy = #[trigger] imported_map(m, v, ids, first)[ids[i]];
                &&& imported_map(m, v, ids, first).contains_key(ids[i])
                &&& m.contains_key(v[i].id)
                &&& same_endpoints(copy, m[v[i].id])
                &&& !copy.enabled
                &&& copy.status == RuleStatusView::Stopped
                &&& copy.stats == zero_stats()
            },
        imported_map(m, v, ids, first).dom() == m.dom() + ids.to_set(),
        imported_map(m, v, ids, first).dom().len() == 2 * m.dom().len(),
{
    let m2 = imported_map(m, v, ids, first);
    law_import_assigns_consecutive_orders(m, v, ids, first);
    assert forall|id: Seq<char>| #[trigger] m.contains_key(id) implies m2.contains_key(id) && m2[id] == m[id] by {
        if ids.contains(id) {
            let j = choose|j: int| 0 <= j < ids.len() && ids[j] == id;
            assert(!m.contains_key(ids[j]));
        }
    }
    assert forall|i: int| 0 <= i < v.len() implies {
        let copy = #[trigger] m2[ids[i]];
        &&& m2.contains_key(ids[i])
        &&& m.contains_key(v[i].id)
        &&& same_endpoints(copy, m[v[i].id])
        &&& !copy.enabled
        &&& copy.status == RuleStatusView::Stopped
        &&& copy.stats == zero_stats()
    } by {
        assert(m2.contains_key(ids[i]));
        assert(m2[ids[i]] == imported_rule(v[i], ids[i], (first + i) as u64));
        assert(m.contains_key(v[i].id) && m[v[i].id] == v[i]);
    }
    assert forall|id: Seq<char>| #[trigger] m2.dom().contains(id) == (m.dom() + ids.to_set()).contains(id) by {
        if ids.contains(id) {
            let j = choose|j: int| 0 <= j < ids.len() && ids[j] == id;
            assert(m2.contains_key(ids[j]));
        }
    }
    assert(m2.dom() =~= m.dom() + ids.to_set());
    // The exported identifiers are the old rules' and are distinct.
    let vid = v.map_values(|r: ForwardRuleView| r.id);
    assert(vid.no_duplicates()) by {
        assert forall|a: int, b: int| 0 <= a < vid.len() && 0 <= b < vid.len() && a != b implies vid[a] != vid[b] by {
            assert(v[a].id != v[b].id);
        }
    }
    vid.unique_seq_to_set();
    assert forall|id: Seq<char>| #[trigger] vid.to_set().contains(id) == m.dom().contains(id) by {
        if m.contains_key(id) {
            let j = choose|j: int| 0 <= j < v.len() && #[trigger] v[j].id == id;
            assert(vid[j] == id);
        }
        if vid.contains(id) {
            let j = choose|j: int| 0 <= j < vid.len() && vid[j] == id;
            assert(m.contains_key(v[j].id));
        }
    }
    assert(vid.to_set() =~= m.dom());
    ids.unique_seq_to_set();
    assert(m.dom().disjoint(ids.to_set())) by {
        assert forall|id: Seq<char>| m.dom().contains(id) implies !ids.to_set().contains(id) by {
            if ids.contains(id) {
                let j = choose|j: int| 0 <= j < ids.len() && ids[j] == id;
                assert(!m.contains_key(ids[j]));
            }
        }
    }
    vstd::set_lib::lemma_set_disjoint_lens(m.dom(), ids.to_set());
}

/// A run filed before a later run of the same rule was started never has
/// the later run's number, so when the earlier run's forward ends,
/// `record_finished` leaves the later run filed. `before` is the registry
/// while the earlier run `stale` is filed; `now` files a run of the same rule
/// that was handed out no earlier than `before`'s next run number
/// (`record_started` hands out the next run number, and no operation lowers
/// it).
pub proof fn law_stale_end_leaves_later_run(
    before: ForwarderState,
    now: ForwarderState,
    id: Seq<char>,
    stale: u64,
)
    requires
        before.wf(),
        files_run(before.task_map(), id, stale),
        now.task_map().contains_key(id),
        now.task_map()[id].0 >= before.next_run_value(),
    ensures
        !files_run(now.task_map(), id, stale),
{
    before.law_filed_runs_below_next();
}

/// Editing a rule changes exactly its name, protocol and addresses, to the
/// ones given: its identifier, display order, enabled flag, status and
/// counters stay as they were.
pub proof fn law_edit_changes_only_endpoints(
    r: ForwardRuleView,
    name: Seq<char>,
    protocol: Protocol,
    listen_addr: Seq<char>,
    target_addr: Seq<char>,
)
    ensures
        ({
            let e = edited_rule(r, name, protocol, listen_addr, target_addr);
            &&& e.id == r.id
            &&& e.order == r.order
            &&& e.enabled == r.enabled
            &&& e.status == r.status
            &&& e.stats == r.stats
            &&& e.name == name
            &&& e.protocol == protocol
            &&& e.listen_addr == listen_addr
            &&& e.target_addr == target_addr
        }),
{
}

/// A run that ends cleanly leaves its rule stopped, and one that ends with
/// an error leaves it marked with that very error, whatever its text.
pub proof fn law_finished_status_keeps_every_error(outcome: Result<(), String>)
    ensures
        outcome is Ok ==> finished_status(outcome) == RuleStatusView::Stopped,
        outcome matches Err(e) ==> finished_status(outcome) == RuleStatusView::Error(e@),
{
}

} // verus!

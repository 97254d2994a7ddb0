//! A sequence of rules with distinct identifiers, read as a map from
//! identifier to rule, and the ordering of rules by their `order`.
use vstd::prelude::*;
use crate::keyed::{has_key, keyed_map, keys_distinct, lemma_keyed_at, Keyed};
use crate::rule::{ForwardRule, ForwardRuleView};

verus! {

broadcast use vstd::seq_lib::group_seq_properties;

/// The views of a sequence of rules.
pub open spec fn views_of(rules: Seq<ForwardRule>) -> Seq<ForwardRuleView> {
    rules.map_values(|r: ForwardRule| r@)
}

impl Keyed for ForwardRuleView {
    type Key = Seq<char>;

    open spec fn key(&self) -> Seq<char> {
        self.id
    }
}

/// A rule's key is its identifier.
pub broadcast proof fn lemma_rule_key(r: ForwardRuleView)
    ensures
        #[trigger] r.id == r.key(),
{
}

/// No two rules of `s` share an identifier.
pub open spec fn ids_distinct(s: Seq<ForwardRuleView>) -> bool {
    keys_distinct(s)
}

/// Whether some rule of `s` has identifier `id`.
pub open spec fn has_id(s: Seq<ForwardRuleView>, id: Seq<char>) -> bool {
    has_key(s, id)
}

/// The rules of `s` keyed by identifier.
pub open spec fn seq_to_map(s: Seq<ForwardRuleView>) -> Map<Seq<char>, ForwardRuleView> {
    keyed_map(s)
}

/// `v` lists the rules of `m`, each once.
pub open spec fn lists_exactly(v: Seq<ForwardRuleView>, m: Map<Seq<char>, ForwardRuleView>) -> bool {
    &&& ids_distinct(v)
    &&& forall|i: int| 0 <= i < v.len() ==> m.contains_key(#[trigger] v[i].id) && m[v[i].id] == v[i]
    &&& forall|id: Seq<char>| #[trigger] m.contains_key(id) ==> has_id(v, id)
}

/// The rules of `v` come by non-decreasing `order`.
pub open spec fn sorted_by_order(v: Seq<ForwardRuleView>) -> bool {
    forall|i: int, j: int| 0 <= i <= j < v.len() ==> #[trigger] v[i].order <= #[trigger] v[j].order
}

/// A sequence with distinct identifiers lists its own map exactly.
pub proof fn lemma_lists_own_map(s: Seq<ForwardRuleView>)
    requires
        ids_distinct(s),
    ensures
        lists_exactly(s, seq_to_map(s)),
{
    assert forall|i: int| 0 <= i < s.len() implies seq_to_map(s).contains_key(#[trigger] s[i].id)
        && seq_to_map(s)[s[i].id] == s[i] by {
        lemma_keyed_at(s, i);
    }
}

/// A permutation of a list of a map's rules lists them too.
pub proof fn lemma_permutation_lists(
    a: Seq<ForwardRuleView>,
    b: Seq<ForwardRuleView>,
    m: Map<Seq<char>, ForwardRuleView>,
)
    requires
        a.to_multiset() == b.to_multiset(),
        lists_exactly(b, m),
    ensures
        lists_exactly(a, m),
{
    broadcast use vstd::multiset::group_multiset_axioms;

    assert forall|i: int| 0 <= i < a.len() implies m.contains_key(#[trigger] a[i].id) && m[a[i].id]
        == a[i] by {
        assert(a.contains(a[i]));
        assert(a.to_multiset().count(a[i]) > 0);
        assert(b.contains(a[i]));
        let j = choose|j: int| 0 <= j < b.len() && b[j] == a[i];
        assert(m.contains_key(b[j].id));
    }
    assert forall|id: Seq<char>| #[trigger] m.contains_key(id) implies has_id(a, id) by {
        let j = choose|j: int| 0 <= j < b.len() && #[trigger] b[j].id == id;
        assert(b.contains(b[j]));
        assert(b.to_multiset().count(b[j]) > 0);
        assert(a.contains(b[j]));
        let i = choose|i: int| 0 <= i < a.len() && a[i] == b[j];
        assert(a[i].id == id);
    }
    assert(b.no_duplicates()) by {
        assert forall|i: int, j: int| 0 <= i < b.len() && 0 <= j < b.len() && i != j implies b[i] != b[j] by {
            assert(b[i].id != b[j].id);
        }
    }
    b.lemma_multiset_has_no_duplicates();
    a.lemma_multiset_has_no_duplicates_conv();
    assert forall|i: int, j: int| 0 <= i < a.len() && 0 <= j < a.len() && i != j implies #[trigger] a[i].id
        != #[trigger] a[j].id by {
        if a[i].id == a[j].id {
            assert(m[a[i].id] == a[i]);
            assert(m[a[j].id] == a[j]);
        }
    }
}

/// The rules of `v` by non-decreasing `order` (an insertion sort).
pub fn sort_by_order(v: Vec<ForwardRule>) -> (out: Vec<ForwardRule>)
    ensures
        sorted_by_order(views_of(out@)),
        views_of(out@).to_multiset() == views_of(v@).to_multiset(),
{
    broadcast use vstd::multiset::group_multiset_axioms;

    let mut out: Vec<ForwardRule> = Vec::new();
    let n = v.len();
    let mut i: usize = 0;
    while i < n
        invariant
            n == v@.len(),
            i <= n,
            sorted_by_order(views_of(out@)),
            views_of(out@).to_multiset() == views_of(v@.take(i as int)).to_multiset(),
        decreases n - i,
    {
        let x = v[i].clone();
        let key = x.order;
        let mut p: usize = 0;
        while p < out.len() && out[p].order <= key
            invariant
                p <= out@.len(),
                forall|j: int| 0 <= j < p ==> #[trigger] out@[j].order <= key,
            decreases out@.len() - p,
        {
            p = p + 1;
        }
        let ghost before = views_of(out@);
        out.insert(p, x);
        proof {
            assert(views_of(out@) =~= before.insert(p as int, x@));
            vstd::seq_lib::to_multiset_insert(before, p as int, x@);
            assert(views_of(v@.take(i + 1)) =~= views_of(v@.take(i as int)).push(x@));
            vstd::seq_lib::to_multiset_build(views_of(v@.take(i as int)), x@);
            let w = views_of(out@);
            assert forall|a: int, b: int| 0 <= a <= b < w.len() implies #[trigger] w[a].order
                <= #[trigger] w[b].order by {
                if a < p && b < p {
                    assert(w[a] == before[a] && w[b] == before[b]);
                } else if a < p && b == p {
                    assert(w[a] == before[a]);
                } else if a < p {
                    assert(w[a] == before[a] && w[b] == before[b - 1]);
                } else if a == p && b > p {
                    assert(w[b] == before[b - 1]);
                    assert(p < before.len());
                    assert(before[p as int].order > key);
                    assert(before[p as int].order <= before[b - 1].order);
                } else if a > p {
                    assert(w[a] == before[a - 1] && w[b] == before[b - 1]);
                }
            }
        }
        i = i + 1;
    }
    assert(v@.take(n as int) =~= v@);
    out
}

} // verus!

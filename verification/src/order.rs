//! The order in which a registry is walked: ascending by id.

use vstd::prelude::*;
use vstd::std_specs::btree::increasing_seq;
use vstd::std_specs::cmp::OrdSpec;

verus! {

/// One more than the largest id there is: 2^64.
pub open spec fn id_limit() -> nat {
    0x1_0000_0000_0000_0000
}

/// Whether every entry of `ids` is smaller than each entry after it.
pub open spec fn strictly_ascending(ids: Seq<u64>) -> bool {
    forall|i: int, j: int| 0 <= i < j < ids.len() ==> ids[i] < ids[j]
}

/// The members of `domain` that are smaller than `bound`, smallest first.
pub open spec fn ids_below(domain: Set<u64>, bound: nat) -> Seq<u64>
    decreases bound,
{
    if bound == 0 {
        Seq::empty()
    } else {
        let rest = ids_below(domain, (bound - 1) as nat);
        if bound <= id_limit() && domain.contains((bound - 1) as u64) {
            rest.push((bound - 1) as u64)
        } else {
            rest
        }
    }
}

/// All members of `domain`, smallest first.
pub open spec fn ascending(domain: Set<u64>) -> Seq<u64> {
    ids_below(domain, id_limit())
}

/// `ids_below` lists exactly the members under the bound, each once, in
/// ascending order.
pub proof fn lemma_ids_below(domain: Set<u64>, bound: nat)
    ensures
        strictly_ascending(ids_below(domain, bound)),
        forall|i: int|
            0 <= i < ids_below(domain, bound).len() ==> {
                &&& domain.contains(#[trigger] ids_below(domain, bound)[i])
                &&& ids_below(domain, bound)[i] < bound
            },
        forall|id: u64|
            domain.contains(id) && id < bound ==> ids_below(domain, bound).contains(id),
    decreases bound,
{
    if bound > 0 {
        let rest = ids_below(domain, (bound - 1) as nat);
        lemma_ids_below(domain, (bound - 1) as nat);
        let all = ids_below(domain, bound);
        assert forall|id: u64| domain.contains(id) && id < bound implies all.contains(id) by {
            if id < bound - 1 {
                let i = choose|i: int| 0 <= i < rest.len() && rest[i] == id;
                assert(all[i] == id);
            } else {
                assert(all[all.len() - 1] == id);
            }
        }
    }
}

/// The ascending list holds exactly the members of the domain, each once.
pub proof fn lemma_ascending(domain: Set<u64>)
    ensures
        strictly_ascending(ascending(domain)),
        forall|i: int|
            0 <= i < ascending(domain).len() ==> domain.contains(#[trigger] ascending(domain)[i]),
        forall|id: u64| domain.contains(id) <==> ascending(domain).contains(id),
{
    lemma_ids_below(domain, id_limit());
}

/// The ascending list is as long as the domain is large.
pub proof fn lemma_ascending_len(domain: Set<u64>)
    ensures
        ascending(domain).len() == domain.len(),
        ascending(domain).no_duplicates(),
{
    lemma_ascending(domain);
    let ids = ascending(domain);
    assert(ids.no_duplicates());
    ids.unique_seq_to_set();
    assert(ids.to_set() =~= domain);
}

/// Ids are ordered as the standard library's ordered collections need their
/// keys to be.
pub proof fn lemma_ids_are_ordered()
    ensures
        vstd::std_specs::btree::key_obeys_cmp_spec::<u64>(),
{
    broadcast use vstd::std_specs::btree::group_btree_axioms;
    broadcast use vstd::laws_cmp::group_laws_cmp;

    assert(vstd::laws_cmp::obeys_cmp::<u64>());
}

/// What the standard library calls an increasing sequence of ids is a
/// strictly ascending one.
pub proof fn lemma_increasing_is_ascending(ids: Seq<u64>)
    requires
        increasing_seq(ids),
    ensures
        strictly_ascending(ids),
{
    broadcast use vstd::std_specs::btree::group_btree_axioms;
    broadcast use vstd::laws_cmp::group_laws_cmp;

    assert(vstd::laws_cmp::obeys_cmp::<u64>());
    assert forall|i: int, j: int| 0 <= i < j < ids.len() implies ids[i] < ids[j] by {
        assert(ids[i].cmp_spec(&ids[j]) is Less);
    }
}

/// The position of an id in an ascending list is at most the id itself.
pub proof fn lemma_position_bound(ids: Seq<u64>, i: int)
    requires
        strictly_ascending(ids),
        0 <= i < ids.len(),
    ensures
        i <= ids[i],
    decreases i,
{
    if i > 0 {
        lemma_position_bound(ids, i - 1);
    }
}

/// A list that is strictly ascending and holds exactly the members of a
/// domain is the ascending list of that domain.
pub proof fn lemma_ascending_unique(ids: Seq<u64>, domain: Set<u64>)
    requires
        strictly_ascending(ids),
        forall|i: int| 0 <= i < ids.len() ==> domain.contains(#[trigger] ids[i]),
        forall|id: u64| domain.contains(id) ==> ids.contains(id),
    ensures
        ids == ascending(domain),
{
    let n = lemma_prefix_below(ids, domain, id_limit());
    assert(n == ids.len()) by {
        if n < ids.len() {
            assert(ids[n] >= id_limit());
        }
    }
    assert(ids.take(n) =~= ids);
}

proof fn lemma_prefix_below(ids: Seq<u64>, domain: Set<u64>, bound: nat) -> (n: int)
    requires
        strictly_ascending(ids),
        forall|i: int| 0 <= i < ids.len() ==> domain.contains(#[trigger] ids[i]),
        forall|id: u64| domain.contains(id) ==> ids.contains(id),
        bound <= id_limit(),
    ensures
        0 <= n <= ids.len(),
        ids_below(domain, bound) == ids.take(n),
        forall|i: int| 0 <= i < n ==> ids[i] < bound,
        forall|i: int| n <= i < ids.len() ==> ids[i] >= bound,
    decreases bound,
{
    if bound == 0 {
        assert(ids.take(0) =~= Seq::<u64>::empty());
        0
    } else {
        let m = lemma_prefix_below(ids, domain, (bound - 1) as nat);
        let id = (bound - 1) as u64;
        if domain.contains(id) {
            let j = choose|j: int| 0 <= j < ids.len() && ids[j] == id;
            assert(j == m) by {
                if j > m {
                    assert(ids[m] < ids[j]);
                }
            }
            assert(ids.take(m + 1) =~= ids.take(m).push(id));
            m + 1
        } else {
            assert forall|i: int| m <= i < ids.len() implies ids[i] >= bound by {
                assert(domain.contains(ids[i]));
            }
            m
        }
    }
}

} // verus!

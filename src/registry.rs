//! The results registry and the one-shot batch that fills it.
use std::collections::HashMap;
use vstd::prelude::*;
use crate::table::{lemma_slots_distinct, slot_offsets, slots, stride, Region};

verus! {

broadcast use vstd::std_specs::hash::group_hash_axioms;

/// Why a handle could not hand out its value.
#[derive(Clone, Copy, Debug, PartialEq, Eq, Structural)]
pub enum LazyError {
    /// No result is published for the handle: the batch has not completed,
    /// or the result was already claimed.
    NotInitialized,
    /// The published result is not of the type the handle expects.
    TypeMismatch,
    /// The handle's cache was already filled when it tried to fill it.
    AlreadySet,
}

/// Where the batch stands.
#[derive(Clone, Copy, Debug, PartialEq, Eq, Structural)]
pub enum Phase {
    /// The batch has not been started.
    Unstarted,
    /// The batch was started; its results are not published yet.
    Running,
    /// The results are published and may be claimed.
    Completed,
}

/// The map that a batch publishes: each identity to the result of its entry.
/// Where an identity occurs twice, its first occurrence wins.
pub open spec fn table_map<V>(ids: Seq<usize>, values: Seq<V>) -> Map<usize, V>
    decreases ids.len(),
{
    if ids.len() == 0 || values.len() == 0 {
        Map::empty()
    } else {
        table_map(ids.drop_first(), values.drop_first()).insert(ids[0], values[0])
    }
}

/// Every identity of a batch without repeated identities maps to its own
/// result, and to nothing else.
pub proof fn lemma_table_map_entries<V>(ids: Seq<usize>, values: Seq<V>)
    requires
        ids.no_duplicates(),
        ids.len() == values.len(),
    ensures
        table_map(ids, values).dom() == ids.to_set(),
        forall|i: int| 0 <= i < ids.len() ==> #[trigger] table_map(ids, values)[ids[i]] == values[i],
    decreases ids.len(),
{
    if ids.len() > 0 {
        let rest = ids.drop_first();
        assert(rest.no_duplicates());
        lemma_table_map_entries(rest, values.drop_first());
        assert(table_map(ids, values).dom() =~= ids.to_set()) by {
            assert forall|k: usize| ids.to_set().contains(k) implies table_map(
                ids,
                values,
            ).dom().contains(k) by {
                let i = choose|i: int| 0 <= i < ids.len() && ids[i] == k;
                if i > 0 {
                    assert(rest[i - 1] == k);
                }
            }
            assert forall|k: usize| table_map(ids, values).dom().contains(k) implies ids.to_set().contains(k) by {
                if k != ids[0] {
                    assert(rest.to_set().contains(k));
                    let i = choose|i: int| 0 <= i < rest.len() && rest[i] == k;
                    assert(ids[i + 1] == k);
                }
            }
        }
        assert forall|i: int| 0 <= i < ids.len() implies #[trigger] table_map(ids, values)[ids[i]]
            == values[i] by {
            if i > 0 {
                assert(rest[i - 1] == ids[i]);
                assert(ids[i] != ids[0]);
            }
        }
    }
}

/// After a batch publishes one result per slot of a table, every slot's
/// identity is published with the result of its own entry: each declared
/// value can be retrieved.
pub proof fn lemma_batch_covers_every_slot<V>(
    table: Region,
    width: nat,
    ids: Seq<usize>,
    values: Seq<V>,
)
    requires
        width > 0,
        ids.len() == slots(table, width).len(),
        forall|i: int| 0 <= i < ids.len() ==> ids[i] == #[trigger] slots(table, width)[i],
        values.len() == ids.len(),
    ensures
        forall|i: int|
            0 <= i < ids.len() ==> #[trigger] table_map(ids, values).contains_key(ids[i])
                && table_map(ids, values)[ids[i]] == values[i],
{
    lemma_slots_distinct(table, width);
    assert forall|i: int, j: int| 0 <= i < ids.len() && 0 <= j < ids.len() && i != j implies ids[i]
        != ids[j] by {
        assert(slots(table, width)[i] != slots(table, width)[j]);
    }
    lemma_table_map_entries(ids, values);
    assert forall|i: int| 0 <= i < ids.len() implies #[trigger] table_map(ids, values).contains_key(
        ids[i],
    ) by {
        assert(ids.to_set().contains(ids[i]));
    }
}

/// Claiming the result of one identity leaves the result of every other
/// identity in place and unchanged: handles never receive each other's values.
pub proof fn lemma_claims_are_independent<V>(ids: Seq<usize>, values: Seq<V>, i: int, j: int)
    requires
        ids.no_duplicates(),
        ids.len() == values.len(),
        0 <= i < ids.len(),
        0 <= j < ids.len(),
        i != j,
    ensures
        table_map(ids, values).remove(ids[i]).contains_key(ids[j]),
        table_map(ids, values).remove(ids[i])[ids[j]] == values[j],
{
    lemma_table_map_entries(ids, values);
    assert(ids.to_set().contains(ids[j]));
}

/// Before a batch has completed, no result can be claimed.
pub proof fn lemma_nothing_claimable_before_completion<V>(registry: Registry<V>, id: usize)
    requires
        registry.phase() != Phase::Completed,
    ensures
        !registry.claimable(id),
{
}

/// The results of one batch, keyed by the identity of the entry that made each,
/// with the lifecycle of that batch.
pub struct Registry<V> {
    phase: Phase,
    results: HashMap<usize, V>,
}

impl<V> Registry<V> {
    /// Where the batch stands.
    pub closed spec fn phase(&self) -> Phase {
        self.phase
    }

    /// The results that are published and not yet claimed.
    pub closed spec fn results(&self) -> Map<usize, V> {
        self.results@
    }

    /// Whether a result for `id` is published and not yet claimed.
    pub open spec fn claimable(&self, id: usize) -> bool {
        self.phase() == Phase::Completed && self.results().contains_key(id)
    }

    /// A registry whose batch has not started.
    pub fn new() -> (r: Self)
        ensures
            r.phase() == Phase::Unstarted,
            r.results() == Map::<usize, V>::empty(),
    {
        Registry { phase: Phase::Unstarted, results: HashMap::new() }
    }

    /// Where the batch stands.
    pub fn current_phase(&self) -> (r: Phase)
        ensures
            r == self.phase(),
    {
        self.phase
    }

    /// The one-time flag of the batch: true, and the batch marked as running,
    /// on the first call only; every later call returns false and changes nothing.
    pub fn begin(&mut self) -> (r: bool)
        ensures
            r == (old(self).phase() == Phase::Unstarted),
            r ==> final(self).phase() == Phase::Running,
            !r ==> final(self).phase() == old(self).phase(),
            final(self).results() == old(self).results(),
    {
        if self.phase == Phase::Unstarted {
            self.phase = Phase::Running;
            true
        } else {
            false
        }
    }

    /// Starts the batch: on the first call, marks it as running and returns the
    /// addresses of the entries in `table`, walked at the stride that `reference`
    /// measures (none where that stride is zero). Every later call returns `None`
    /// and changes nothing.
    pub fn start_batch(&mut self, table: Region, reference: Region) -> (r: Option<Vec<usize>>)
        requires
            table.wf(),
            reference.wf(),
        ensures
            r is Some <==> old(self).phase() == Phase::Unstarted,
            r is Some ==> final(self).phase() == Phase::Running,
            r is None ==> final(self).phase() == old(self).phase(),
            final(self).results() == old(self).results(),
            r matches Some(v) ==> {
                &&& reference.len() == 0 ==> v@.len() == 0
                &&& reference.len() > 0 ==> v@.len() == slots(table, reference.len() as nat).len()
                &&& reference.len() > 0 ==> forall|i: int|
                    0 <= i < v@.len() ==> v@[i] == #[trigger] slots(table, reference.len() as nat)[i]
            },
    {
        if !self.begin() {
            return None;
        }
        let width = stride(reference);
        if width == 0 {
            Some(Vec::new())
        } else {
            Some(slot_offsets(table, width))
        }
    }

    /// Publishes the results of the running batch, `values[i]` under `ids[i]`,
    /// and marks the batch as completed. Where the batch is not running, or the
    /// two lists differ in length, returns false and changes nothing.
    pub fn publish(&mut self, ids: Vec<usize>, values: Vec<V>) -> (r: bool)
        ensures
            r == (old(self).phase() == Phase::Running && ids@.len() == values@.len()),
            r ==> final(self).phase() == Phase::Completed,
            r ==> final(self).results() == table_map(ids@, values@),
            !r ==> final(self).phase() == old(self).phase(),
            !r ==> final(self).results() == old(self).results(),
    {
        if self.phase != Phase::Running || ids.len() != values.len() {
            return false;
        }
        let ghost ids0 = ids@;
        let ghost values0 = values@;
        let ghost n = ids@.len();
        let mut ids = ids;
        let mut values = values;
        let mut map: HashMap<usize, V> = HashMap::new();
        while ids.len() > 0
            invariant
                ids@.len() == values@.len(),
                ids@.len() <= n,
                n == ids0.len(),
                n == values0.len(),
                ids@ == ids0.subrange(0, ids@.len() as int),
                values@ == values0.subrange(0, values@.len() as int),
                map@ == table_map(
                    ids0.subrange(ids@.len() as int, n as int),
                    values0.subrange(values@.len() as int, n as int),
                ),
            decreases ids@.len(),
        {
            let ghost k = ids@.len() as int;
            let id = ids.pop().unwrap();
            let value = values.pop().unwrap();
            proof {
                let rest_ids = ids0.subrange(k - 1, n as int);
                let rest_values = values0.subrange(k - 1, n as int);
                assert(rest_ids.drop_first() =~= ids0.subrange(k, n as int));
                assert(rest_values.drop_first() =~= values0.subrange(k, n as int));
                assert(rest_ids[0] == id);
                assert(rest_values[0] == value);
            }
            map.insert(id, value);
            proof {
                assert(ids@ =~= ids0.subrange(0, ids@.len() as int));
                assert(values@ =~= values0.subrange(0, values@.len() as int));
            }
        }
        proof {
            assert(ids0.subrange(0, n as int) =~= ids0);
            assert(values0.subrange(0, n as int) =~= values0);
        }
        self.results = map;
        self.phase = Phase::Completed;
        true
    }

    /// Removes and returns the result published for `id`; `None`, with nothing
    /// changed, where the batch has not completed or no such result is left.
    pub fn claim(&mut self, id: usize) -> (r: Option<V>)
        ensures
            final(self).phase() == old(self).phase(),
            old(self).claimable(id) ==> r == Some(old(self).results()[id]),
            old(self).claimable(id) ==> final(self).results() == old(self).results().remove(id),
            !old(self).claimable(id) ==> r is None && final(self).results() == old(self).results(),
    {
        if self.phase != Phase::Completed {
            return None;
        }
        self.results.remove(&id)
    }

    /// Claims the result published for `id` and recovers it as a value of the
    /// type its handle expects: `NotInitialized` where no such result is left
    /// (nothing changes then), `TypeMismatch` where `recover` refuses it.
    pub fn claim_as<M, F: Fn(V) -> Option<M>>(&mut self, id: usize, recover: F) -> (r: Result<
        M,
        LazyError,
    >)
        requires
            forall|v: V| recover.requires((v,)),
        ensures
            final(self).phase() == old(self).phase(),
            old(self).claimable(id) ==> final(self).results() == old(self).results().remove(id),
            !old(self).claimable(id) ==> final(self).results() == old(self).results(),
            r matches Err(LazyError::NotInitialized) <==> !old(self).claimable(id),
            r matches Err(LazyError::AlreadySet) ==> false,
            old(self).claimable(id) ==> match r {
                Ok(m) => recover.ensures((old(self).results()[id],), Some(m)),
                Err(_) => recover.ensures((old(self).results()[id],), None),
            },
    {
        match self.claim(id) {
            None => Err(LazyError::NotInitialized),
            Some(v) => match recover(v) {
                Some(m) => Ok(m),
                None => Err(LazyError::TypeMismatch),
            },
        }
    }
}

} // verus!

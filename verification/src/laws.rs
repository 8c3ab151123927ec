//! The laws that hold across the service operations, each proved from the
//! models the other modules state.
use vstd::prelude::*;

use crate::entry::{visited_entry, EntryModel};
use crate::registry::{as_map, code_index, lemma_as_map_at, unique_codes};

verus! {

/// A created entry is found afterwards under its code with identical field
/// values, and every other code still maps to what it did before: `create`
/// ensures the new mapping is `insert`, and this is what `insert` does.
pub proof fn lemma_created_entry_found(m: Map<Seq<char>, EntryModel>, e: EntryModel)
    ensures
        m.insert(e.short_code, e).contains_key(e.short_code),
        m.insert(e.short_code, e)[e.short_code] == e,
        forall|k: Seq<char>|
            k != e.short_code ==> (#[trigger] m.insert(e.short_code, e).contains_key(k)
                <==> m.contains_key(k)),
        forall|k: Seq<char>|
            k != e.short_code && m.contains_key(k) ==> #[trigger] m.insert(e.short_code, e)[k]
                == m[k],
{
}

/// Every code the mapping holds is carried by exactly the entry a listing
/// snapshot shows for it: some listed entry is the mapping's value for that
/// code.
pub proof fn lemma_stored_entry_listed(s: Seq<EntryModel>, k: Seq<char>)
    requires
        unique_codes(s),
        as_map(s).contains_key(k),
    ensures
        exists|i: int|
            0 <= i < s.len() && (#[trigger] s[i]) == as_map(s)[k] && s[i].short_code == k,
{
    let i = code_index(s, k);
    assert(0 <= i < s.len() && s[i].short_code == k);
    lemma_as_map_at(s, i);
}

/// One entry after a run of recorded visits, in call order.
pub open spec fn apply_visits(e: EntryModel, ts: Seq<i64>) -> EntryModel
    decreases ts.len(),
{
    if ts.len() == 0 {
        e
    } else {
        apply_visits(visited_entry(e, ts[0]), ts.drop_first())
    }
}

/// Recording a run of visits on one entry raises its counter by exactly the
/// number of visits, sets its visit time to the last visit's, and touches
/// no other field. The counter bound is the machine limit at which the
/// counter saturates.
pub proof fn lemma_repeated_visits(e: EntryModel, ts: Seq<i64>)
    requires
        e.visit_count + ts.len() <= u32::MAX,
    ensures
        apply_visits(e, ts).visit_count == e.visit_count + ts.len(),
        ts.len() > 0 ==> apply_visits(e, ts).last_visit == Option::Some(ts.last()),
        ts.len() == 0 ==> apply_visits(e, ts) == e,
        apply_visits(e, ts).short_code == e.short_code,
        apply_visits(e, ts).long_url == e.long_url,
        apply_visits(e, ts).note == e.note,
    decreases ts.len(),
{
    if ts.len() > 0 {
        let e1 = visited_entry(e, ts[0]);
        lemma_repeated_visits(e1, ts.drop_first());
        if ts.len() > 1 {
            assert(ts.drop_first().last() == ts.last());
        }
    }
}

/// The mapping after a run of recorded visits on one code, in call order:
/// each step is exactly what one `record_visit` call's contract states.
pub open spec fn visits_applied(
    m: Map<Seq<char>, EntryModel>,
    k: Seq<char>,
    ts: Seq<i64>,
) -> Map<Seq<char>, EntryModel>
    decreases ts.len(),
{
    if ts.len() == 0 {
        m
    } else {
        visits_applied(m.insert(k, visited_entry(m[k], ts[0])), k, ts.drop_first())
    }
}

/// Recording a run of visits on one stored code leaves the mapping's keys
/// unchanged, changes no other entry, and leaves under that code exactly
/// the entry with the visits applied; no entry is ever created for the
/// visited code's neighbours.
pub proof fn lemma_visits_applied(m: Map<Seq<char>, EntryModel>, k: Seq<char>, ts: Seq<i64>)
    requires
        m.contains_key(k),
    ensures
        visits_applied(m, k, ts).dom() == m.dom(),
        visits_applied(m, k, ts)[k] == apply_visits(m[k], ts),
        forall|k2: Seq<char>|
            k2 != k && m.contains_key(k2) ==> #[trigger] visits_applied(m, k, ts)[k2] == m[k2],
    decreases ts.len(),
{
    if ts.len() == 0 {
    } else {
        let m1 = m.insert(k, visited_entry(m[k], ts[0]));
        lemma_visits_applied(m1, k, ts.drop_first());
        assert(m1.dom() =~= m.dom());
        assert(apply_visits(m[k], ts) == apply_visits(visited_entry(m[k], ts[0]), ts.drop_first()));
    }
}

/// After a delete, a lookup of that code finds nothing, and every other
/// code still maps to what it did before: `delete` ensures the new mapping
/// is `remove`, and this is what `remove` does.
pub proof fn lemma_deleted_entry_gone(m: Map<Seq<char>, EntryModel>, k: Seq<char>)
    ensures
        !m.remove(k).contains_key(k),
        forall|k2: Seq<char>|
            k2 != k ==> (#[trigger] m.remove(k).contains_key(k2) <==> m.contains_key(k2)),
        forall|k2: Seq<char>|
            k2 != k && m.contains_key(k2) ==> #[trigger] m.remove(k)[k2] == m[k2],
{
}

} // verus!

//! What planning is for: a request leads to a search that may do as much as was
//! asked for.

use vstd::prelude::*;
use crate::plan::{
    FilteredPlan,
    KnnError,
    KnnParams,
    approximate_count,
    asks_for_native_queue,
    plan_filtered_search,
};

verus! {

/// The effort of a two-queue search is enough for what was asked, and no more: it
/// is at least `ef` and at least `max_effort`, and one of them.
pub open spec fn is_effort(effort: usize, ef: usize, max_effort: usize) -> bool {
    &&& effort >= max_effort
    &&& effort >= ef
    &&& effort == max_effort || effort == ef
}

/// A request without a limit leads to pages; any other to a two-queue search, with
/// the queue that was asked for, whose effort is what was asked for.
pub proof fn law_plan_filtered_search(
    ef: usize,
    max_effort: usize,
    native: bool,
    r: FilteredPlan,
)
    requires
        call_ensures(plan_filtered_search, (ef, max_effort, native), r),
    ensures
        r is Paged <==> max_effort == 0,
        r is Native <==> max_effort > 0 && native,
        r is Heap <==> max_effort > 0 && !native,
        r matches FilteredPlan::Paged { l_value, batch_size } ==> l_value == ef && batch_size
            == 10,
        r matches FilteredPlan::Native { ef: l, batch_size, max_candidates } ==> l == ef
            && batch_size == 10 && is_effort(max_candidates, ef, max_effort),
        r matches FilteredPlan::Heap { ef: l, batch_size, max_candidates } ==> l == ef
            && batch_size == 10 && is_effort(max_candidates, ef, max_effort),
{
}

/// What parameters come to.
pub open spec fn checked_as(
    k: usize,
    l: usize,
    beam: Option<usize>,
    r: Result<KnnParams, KnnError>,
) -> bool {
    &&& r is Ok <==> 0 < k <= l && beam != Some(0usize)
    &&& r matches Ok(p) ==> p.k_value == k && p.l_value == l && match beam {
        Some(b) => p.beam_width == b,
        None => p.beam_width == 1,
    }
    &&& (r is Err && r->Err_0 is KZero) <==> k == 0
    &&& (r is Err && r->Err_0 is LZero) <==> k != 0 && l == 0
    &&& (r is Err && r->Err_0 is LLessThanK) <==> 0 < l < k
    &&& r matches Err(KnnError::LLessThanK { l_value, k_value }) ==> l_value == l && k_value == k
    &&& (r is Err && r->Err_0 is BeamWidthZero) <==> 0 < k <= l && beam == Some(0usize)
}

/// Parameters are accepted unless one is zero or the list is too short, and then
/// hold what was given.
pub proof fn law_new_params(
    k: usize,
    l: usize,
    beam: Option<usize>,
    r: Result<KnnParams, KnnError>,
)
    requires
        call_ensures(KnnParams::new, (k, l, beam), r),
    ensures
        checked_as(k, l, beam, r),
{
}

/// Scaled parameters are the same but for the list, which is as long as the effort
/// where there is a limit to it.
pub proof fn law_scaled(p: KnnParams, max_effort: usize, r: Result<KnnParams, KnnError>)
    requires
        call_ensures(KnnParams::scaled, (&p, max_effort), r),
    ensures
        max_effort == 0 ==> checked_as(p.k_value, p.l_value, Some(p.beam_width), r),
        max_effort > 0 ==> checked_as(p.k_value, max_effort, Some(p.beam_width), r),
{
}

/// The beam is as wide as the list is long, up to two thousand.
pub proof fn law_decoupled_beam(p: KnnParams, r: usize)
    requires
        call_ensures(KnnParams::decoupled_beam, (&p,), r),
    ensures
        r <= p.l_value,
        r <= 2000,
        r == p.l_value || r == 2000,
{
}

/// A setting asks for the index's own queue exactly if it is the digit one.
pub proof fn law_asks_for_native_queue(setting: Option<String>, r: bool)
    requires
        call_ensures(asks_for_native_queue, (&setting,), r),
    ensures
        r <==> setting is Some && setting->0@.len() == 1 && setting->0@[0] == '1',
{
    if setting is Some && setting->0@.len() == 1 && setting->0@[0] == '1' {
        assert(setting->0@ =~= seq!['1']);
    }
}

/// The count of vectors is the largest id.
pub proof fn law_approximate_count(max_id: u32, r: u64)
    requires
        call_ensures(approximate_count, (max_id,), r),
    ensures
        r == max_id,
{
}

} // verus!

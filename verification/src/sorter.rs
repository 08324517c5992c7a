//! The whole sort on content held in memory: runs are produced, then merged
//! by driving the engine against the scratch content.

use vstd::prelude::*;
use crate::layout::{budget_admits, plan, run_count, Plan, SortError};
use crate::engine::{Action, MergeEngine};
use crate::runs::{produce_runs, read_slice, sort_run};
use crate::tracking::{
    lemma_drained_complete, lemma_emit_tracks, lemma_flush_tracks, lemma_fresh_tracks,
    lemma_init_tracks, lemma_load_tracks, lemma_output_bounded, lemma_sorted_is_unique,
    runs_sorted, sorted,
};

verus! {

/// Merges the sorted runs of `scratch` into one sorted sequence, reading the
/// scratch content only through the slices that the engine asks for.
pub fn merge_runs(scratch: &Vec<u8>, cache_size: u64) -> (r: Result<Vec<u8>, SortError>)
    requires
        runs_sorted(scratch@, cache_size as nat),
    ensures
        r is Ok <==> cache_size >= 1 && run_count(scratch@.len(), cache_size as nat) + 1
            <= cache_size,
        r matches Err(e) ==> e == SortError::BudgetTooSmall,
        r matches Ok(out) ==> sorted(out@) && out@.to_multiset() == scratch@.to_multiset(),
{
    let total: usize = scratch.len();
    let file_len: u64 = total as u64;
    let mut engine = match MergeEngine::new(cache_size, file_len) {
        Ok(engine) => engine,
        Err(e) => {
            return Err(e);
        },
    };
    let mut output: Vec<u8> = Vec::new();
    proof {
        lemma_fresh_tracks(scratch@, cache_size as nat);
    }
    let reqs = engine.init_requests();
    let mut slices: Vec<Vec<u8>> = Vec::new();
    let mut i: usize = 0;
    while i < reqs.len()
        invariant
            i <= reqs@.len(),
            slices@.len() == i,
            scratch@.len() == total,
            forall|k: int|
                0 <= k < reqs@.len() ==> (#[trigger] reqs@[k]).offset + reqs@[k].len
                    <= scratch@.len(),
            forall|k: int|
                0 <= k < i ==> (#[trigger] slices@[k])@ == scratch@.subrange(
                    reqs@[k].offset as int,
                    reqs@[k].offset + reqs@[k].len,
                ),
        decreases reqs@.len() - i,
    {
        let req = reqs[i];
        let bytes = read_slice(scratch, req.offset as usize, req.len as usize);
        slices.push(bytes);
        i = i + 1;
    }
    proof {
        let parts = Seq::new(slices@.len(), |k: int| slices@[k]@);
        assert forall|k: int| 0 <= k < engine@.runs() implies #[trigger] parts[k]
            == scratch@.subrange(
            engine@.next_request(k).offset as int,
            engine@.next_request(k).offset + engine@.next_request(k).len,
        ) by {
            assert(reqs@[k] == engine@.next_request(k));
            assert(parts[k] == slices@[k]@);
        }
        lemma_init_tracks(engine@, scratch@, output@, parts);
    }
    engine.init_buffers(slices);
    loop
        invariant
            engine.wf(),
            engine@.tracks(scratch@, output@),
            engine@.ready(),
            scratch@.len() == total,
            cache_size >= 1,
            run_count(scratch@.len(), cache_size as nat) + 1 <= cache_size,
        decreases 2 * scratch@.len() - 2 * output@.len() - engine@.out.len(),
    {
        let ghost pre = engine@;
        let ghost done = output@;
        match engine.merge_step() {
            Action::Flush(bytes) => {
                let mut bytes = bytes;
                proof {
                    lemma_flush_tracks(pre, scratch@, done);
                    engine.lemma_wf_inv();
                }
                output.append(&mut bytes);
                proof {
                    lemma_output_bounded(engine@, scratch@, output@);
                }
            },
            Action::Finish(bytes) => {
                let mut bytes = bytes;
                proof {
                    lemma_drained_complete(pre, scratch@, done);
                }
                output.append(&mut bytes);
                return Ok(output);
            },
            Action::Emitted { run, refill } => {
                proof {
                    lemma_emit_tracks(pre, scratch@, done, run as int);
                }
                let ghost mid = engine@;
                match refill {
                    Some(req) => {
                        let bytes = read_slice(scratch, req.offset as usize, req.len as usize);
                        proof {
                            lemma_load_tracks(mid, scratch@, done, run as int, bytes@);
                        }
                        engine.load_next_buffer(run, bytes);
                    },
                    None => {},
                }
                proof {
                    lemma_output_bounded(engine@, scratch@, output@);
                }
            },
        }
    }
}

/// Sorts `input` within a budget of `cache_size` bytes per buffering structure.
///
/// At most one byte is returned as it is. Input that fits the budget is sorted
/// as one run. Longer input is cut into runs that are merged, which the budget
/// must admit.
pub fn sort_bytes(input: &Vec<u8>, cache_size: u64) -> (r: Result<Vec<u8>, SortError>)
    ensures
        r is Ok <==> budget_admits(input@.len(), cache_size as nat),
        r matches Err(e) ==> e == SortError::BudgetTooSmall,
        r matches Ok(out) ==> {
            &&& sorted(out@)
            &&& out@.to_multiset() == input@.to_multiset()
            &&& sorted(input@) ==> out@ == input@
        },
{
    let len: usize = input.len();
    let out = match plan(len as u64, cache_size) {
        Err(e) => {
            return Err(e);
        },
        Ok(Plan::AlreadySorted) => {
            let copy = read_slice(input, 0, len);
            assert(copy@ =~= input@);
            copy
        },
        Ok(Plan::SingleRun) => {
            let copy = read_slice(input, 0, len);
            assert(copy@ =~= input@);
            sort_run(copy)
        },
        Ok(Plan::Merge { .. }) => {
            let scratch = produce_runs(input, cache_size);
            match merge_runs(&scratch, cache_size) {
                Ok(out) => out,
                Err(e) => {
                    return Err(e);
                },
            }
        },
    };
    proof {
        if sorted(input@) {
            lemma_sorted_is_unique(out@, input@);
        }
    }
    Ok(out)
}

} // verus!

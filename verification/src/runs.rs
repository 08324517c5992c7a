//! The run producer: chunks of the input become sorted runs, laid out back
//! to back, and are counted on the way.

use vstd::prelude::*;
use vstd::seq_lib::lemma_multiset_commutative;
use crate::layout::{lemma_pieces, plan, run_count, run_len, Plan, SortError};
use crate::tracking::{lemma_sorted_is_unique, run_of, runs_sorted, sorted};

verus! {

/// `sort_unstable` of std on a byte slice: afterwards the bytes stand in
/// non-decreasing order, and they are the bytes that were there before.
#[verifier::external_body]
fn sort_unstable_bytes(chunk: &mut Vec<u8>)
    ensures
        sorted(final(chunk)@),
        final(chunk)@.to_multiset() == old(chunk)@.to_multiset(),
{
    chunk.sort_unstable();
}

/// Turns a chunk of the input into a run.
pub fn sort_run(chunk: Vec<u8>) -> (run: Vec<u8>)
    ensures
        sorted(run@),
        run@.to_multiset() == chunk@.to_multiset(),
        run@.len() == chunk@.len(),
        sorted(chunk@) ==> run@ == chunk@,
{
    let mut run = chunk;
    sort_unstable_bytes(&mut run);
    proof {
        run@.to_multiset_ensures();
        chunk@.to_multiset_ensures();
        if sorted(chunk@) {
            lemma_sorted_is_unique(run@, chunk@);
        }
    }
    run
}

/// Copies `len` bytes of `content` from `offset` on.
pub fn read_slice(content: &Vec<u8>, offset: usize, len: usize) -> (bytes: Vec<u8>)
    requires
        offset + len <= content@.len(),
    ensures
        bytes@ == content@.subrange(offset as int, offset + len),
{
    let total: usize = content.len();
    let mut bytes: Vec<u8> = Vec::new();
    let mut k: usize = 0;
    while k < len
        invariant
            k <= len,
            total == content@.len(),
            offset + len <= content@.len(),
            bytes@ == content@.subrange(offset as int, offset + k),
        decreases len - k,
    {
        bytes.push(content[offset + k]);
        k = k + 1;
        assert(bytes@ =~= content@.subrange(offset as int, offset + k));
    }
    bytes
}

/// What the run producer has written so far.
#[derive(Debug, Clone, Copy, PartialEq, Eq, Structural)]
pub struct RunProducer {
    /// The budget: no run is longer.
    pub cache_size: u64,
    /// Bytes written.
    pub file_len: u64,
    /// Runs written.
    pub caches_num: u64,
}

impl RunProducer {
    /// The count of runs is the one that the length implies.
    pub open spec fn wf(&self) -> bool {
        &&& self.cache_size >= 1
        &&& self.caches_num == run_count(self.file_len as nat, self.cache_size as nat)
    }

    /// A chunk of `len` bytes can follow: it is not empty, it fits the budget
    /// and the length still fits, and every run before it is full.
    pub open spec fn admits(&self, len: nat) -> bool {
        &&& 1 <= len <= self.cache_size
        &&& self.file_len + len <= u64::MAX
        &&& self.file_len % self.cache_size == 0
    }

    /// Starts with nothing written.
    pub fn new(cache_size: u64) -> (producer: RunProducer)
        requires
            cache_size >= 1,
        ensures
            producer.wf(),
            producer == (RunProducer { cache_size, file_len: 0, caches_num: 0 }),
    {
        RunProducer { cache_size, file_len: 0, caches_num: 0 }
    }

    /// Whether a chunk of `len` bytes can follow.
    pub fn accepts(&self, len: usize) -> (r: bool)
        requires
            self.cache_size >= 1,
        ensures
            r == self.admits(len as nat),
    {
        1 <= len && len as u64 <= self.cache_size && len as u64 <= u64::MAX - self.file_len
            && self.file_len % self.cache_size == 0
    }

    /// Sorts the chunk into the next run and counts it.
    pub fn push_chunk(&mut self, chunk: Vec<u8>) -> (run: Vec<u8>)
        requires
            old(self).wf(),
            old(self).admits(chunk@.len()),
        ensures
            final(self).wf(),
            final(self).cache_size == old(self).cache_size,
            final(self).file_len == old(self).file_len + chunk@.len(),
            final(self).caches_num == old(self).caches_num + 1,
            run_len(
                final(self).file_len as nat,
                final(self).cache_size as nat,
                old(self).caches_num as nat,
            ) == chunk@.len(),
            sorted(run@),
            run@.to_multiset() == chunk@.to_multiset(),
            run@.len() == chunk@.len(),
    {
        let len: usize = chunk.len();
        proof {
            let cs = self.cache_size as nat;
            let before = self.file_len as nat;
            let after = (self.file_len + len) as nat;
            let k = self.caches_num as nat;
            lemma_pieces(before, cs, k);
            assert(before == k * cs) by {
                assert(before == (before / cs) * cs + before % cs) by (nonlinear_arith)
                    requires
                        cs >= 1,
                ;
            }
            assert((k + 1) * cs == k * cs + cs) by (nonlinear_arith);
            lemma_pieces(after, cs, k);
            lemma_pieces(after, cs, k + 1);
        }
        self.file_len = self.file_len + len as u64;
        self.caches_num = self.caches_num + 1;
        sort_run(chunk)
    }

    /// Decides what follows once the input has ended.
    pub fn finish(&self) -> (r: Result<Plan, SortError>)
        requires
            self.wf(),
        ensures
            r == crate::layout::plan_spec(self.file_len as nat, self.cache_size as nat),
    {
        plan(self.file_len, self.cache_size)
    }
}

/// Run `i` of `out` is sorted and holds the bytes of run `i` of `input`.
pub open spec fn run_produced(out: Seq<u8>, input: Seq<u8>, cache_size: nat, i: int) -> bool {
    let lo = i * cache_size;
    let hi = lo + run_len(input.len(), cache_size, i as nat);
    &&& 0 <= lo <= hi <= out.len()
    &&& hi <= input.len()
    &&& sorted(out.subrange(lo, hi))
    &&& out.subrange(lo, hi).to_multiset() == input.subrange(lo, hi).to_multiset()
}

/// Cuts the input into chunks of `cache_size` bytes, sorts each, and lays the
/// runs out back to back.
pub fn produce_runs(input: &Vec<u8>, cache_size: u64) -> (scratch: Vec<u8>)
    requires
        cache_size >= 1,
    ensures
        scratch@.len() == input@.len(),
        runs_sorted(scratch@, cache_size as nat),
        scratch@.to_multiset() == input@.to_multiset(),
        forall|i: int|
            0 <= i < run_count(input@.len(), cache_size as nat) ==> #[trigger] run_produced(
                scratch@,
                input@,
                cache_size as nat,
                i,
            ),
{
    let len: usize = input.len();
    let ghost cs = cache_size as nat;
    let ghost total = input@.len();
    let mut scratch: Vec<u8> = Vec::new();
    let mut pos: usize = 0;
    let mut producer = RunProducer::new(cache_size);
    proof {
        assert(0 * cs == 0) by (nonlinear_arith);
        assert(input@.subrange(0, 0) =~= scratch@);
    }
    while pos < len
        invariant
            producer.wf(),
            producer.cache_size == cache_size,
            producer.file_len == pos,
            len == input@.len(),
            total == input@.len(),
            cs == cache_size,
            cs >= 1,
            pos <= len,
            scratch@.len() == pos,
            pos == len || pos == producer.caches_num * cs,
            pos == len ==> producer.caches_num >= run_count(total, cs),
            scratch@.to_multiset() == input@.subrange(0, pos as int).to_multiset(),
            forall|i: int|
                0 <= i < producer.caches_num ==> #[trigger] run_produced(scratch@, input@, cs, i),
        decreases len - pos,
    {
        let left: usize = len - pos;
        let chunk_len: usize = if left as u64 <= cache_size {
            left
        } else {
            cache_size as usize
        };
        let chunk = read_slice(input, pos, chunk_len);
        let ghost k = producer.caches_num as nat;
        proof {
            assert((k * cs) % cs == 0) by (nonlinear_arith)
                requires
                    cs >= 1,
            ;
        }
        let mut run = producer.push_chunk(chunk);
        let ghost before = scratch@;
        let ghost sorted_run = run@;
        scratch.append(&mut run);
        proof {
            lemma_pieces(total, cs, k);
            lemma_pieces(total, cs, k + 1);
            assert((k + 1) * cs == k * cs + cs) by (nonlinear_arith);
            assert(chunk_len == run_len(total, cs, k));
            let lo = pos as int;
            let hi = pos + chunk_len;
            assert(scratch@.subrange(lo, hi) =~= sorted_run);
            assert(input@.subrange(0, hi) =~= input@.subrange(0, lo) + input@.subrange(lo, hi));
            lemma_multiset_commutative(input@.subrange(0, lo), input@.subrange(lo, hi));
            lemma_multiset_commutative(before, sorted_run);
            assert forall|i: int| 0 <= i < k + 1 implies #[trigger] run_produced(
                scratch@,
                input@,
                cs,
                i,
            ) by {
                if i < k {
                    assert(run_produced(before, input@, cs, i));
                    let l = i * cs;
                    let h = l + run_len(total, cs, i as nat);
                    assert(scratch@.subrange(l, h) =~= before.subrange(l, h));
                }
            }
        }
        pos = pos + chunk_len;
    }
    proof {
        assert(input@.subrange(0, pos as int) =~= input@);
        assert forall|i: int| 0 <= i < run_count(total, cs) implies sorted(
            #[trigger] run_of(scratch@, cs, i),
        ) by {
            assert(run_produced(scratch@, input@, cs, i));
        }
    }
    scratch
}

} // verus!

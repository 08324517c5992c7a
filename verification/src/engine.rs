//! The merge engine as a state machine.
//!
//! The engine never touches storage. It says which bytes of the scratch
//! content it needs next and which bytes are ready to be written; its caller
//! performs the reads and writes and hands the bytes over.

use vstd::prelude::*;
use crate::layout::{buffer_size, ceil_div, ceil_div_u64, lemma_pieces, piece_len, run_count, run_len, SortError};

verus! {

/// A read that the caller has to perform on the scratch content.
#[derive(Debug, Clone, Copy, PartialEq, Eq, Structural)]
pub struct ReadRequest {
    /// The run whose window is to be refilled.
    pub run: usize,
    /// Absolute position of the first byte to read.
    pub offset: u64,
    /// Number of bytes to read.
    pub len: u64,
}

/// What one step of the merge did, and what the caller owes in return.
#[derive(Debug)]
pub enum Action {
    /// The smallest head, found in run `run`, moved to the output window.
    /// Where `refill` is set, that window is used up and its next slice has
    /// to be loaded before the next step.
    Emitted { run: usize, refill: Option<ReadRequest> },
    /// The output window was full: these bytes go to the output.
    Flush(Vec<u8>),
    /// Every run is consumed: these last bytes go to the output.
    Finish(Vec<u8>),
}

/// The mathematical state of the engine.
pub struct EngineView {
    pub cache_size: nat,
    pub file_len: nat,
    /// The window of each run.
    pub buffers: Seq<Seq<u8>>,
    /// How many bytes of each window have been consumed.
    pub cursors: Seq<nat>,
    /// How many slices of each run have been loaded.
    pub slices: Seq<nat>,
    /// The output window.
    pub out: Seq<u8>,
}

impl EngineView {
    pub open spec fn runs(self) -> nat {
        run_count(self.file_len, self.cache_size)
    }

    pub open spec fn window(self) -> nat {
        buffer_size(self.file_len, self.cache_size)
    }

    pub open spec fn run_len(self, i: int) -> nat {
        run_len(self.file_len, self.cache_size, i as nat)
    }

    pub open spec fn slice_count(self, i: int) -> nat {
        ceil_div(self.run_len(i), self.window())
    }

    pub open spec fn slice_len(self, i: int, k: int) -> nat {
        piece_len(self.run_len(i), self.window(), k as nat)
    }

    /// The state before any slice is loaded.
    pub open spec fn fresh(cache_size: nat, file_len: nat) -> EngineView {
        let n = run_count(file_len, cache_size);
        EngineView {
            cache_size,
            file_len,
            buffers: Seq::new(n, |i: int| Seq::<u8>::empty()),
            cursors: Seq::new(n, |i: int| 0nat),
            slices: Seq::new(n, |i: int| 0nat),
            out: Seq::<u8>::empty(),
        }
    }

    pub open spec fn run_inv(self, i: int) -> bool {
        &&& self.slices[i] <= self.slice_count(i)
        &&& self.cursors[i] <= self.buffers[i].len()
        &&& self.buffers[i].len() == if self.slices[i] == 0 {
            0
        } else {
            self.slice_len(i, self.slices[i] - 1)
        }
    }

    pub open spec fn inv(self) -> bool {
        &&& self.cache_size >= self.runs() + 1
        &&& self.file_len <= u64::MAX
        &&& self.cache_size <= u64::MAX
        &&& self.buffers.len() == self.runs()
        &&& self.cursors.len() == self.runs()
        &&& self.slices.len() == self.runs()
        &&& self.out.len() <= self.window()
        &&& forall|i: int| 0 <= i < self.runs() ==> #[trigger] self.run_inv(i)
    }

    /// Run `i` has a byte at its cursor.
    pub open spec fn has_head(self, i: int) -> bool {
        self.cursors[i] < self.buffers[i].len()
    }

    pub open spec fn head(self, i: int) -> u8 {
        self.buffers[i][self.cursors[i] as int]
    }

    /// The window of run `i` is used up and the run has a further slice.
    pub open spec fn needs_slice(self, i: int) -> bool {
        self.cursors[i] == self.buffers[i].len() && self.slices[i] < self.slice_count(i)
    }

    /// No run waits for a slice.
    pub open spec fn ready(self) -> bool {
        forall|i: int| 0 <= i < self.runs() ==> !#[trigger] self.needs_slice(i)
    }

    /// No run other than `j` waits for a slice.
    pub open spec fn ready_but(self, j: int) -> bool {
        forall|i: int| 0 <= i < self.runs() && i != j ==> !#[trigger] self.needs_slice(i)
    }

    /// No run has a byte at its cursor.
    pub open spec fn drained(self) -> bool {
        forall|i: int| 0 <= i < self.runs() ==> !#[trigger] self.has_head(i)
    }

    /// The read that brings the next slice of run `i`.
    pub open spec fn next_request(self, i: int) -> ReadRequest {
        ReadRequest {
            run: i as usize,
            offset: (i * self.cache_size + self.slices[i] * self.window()) as u64,
            len: self.slice_len(i, self.slices[i] as int) as u64,
        }
    }

    /// Run `j` holds the smallest head, and no run before it holds an equal one.
    pub open spec fn is_winner(self, j: int) -> bool {
        &&& 0 <= j < self.runs()
        &&& self.has_head(j)
        &&& forall|i: int|
            0 <= i < self.runs() && #[trigger] self.has_head(i) ==> self.head(j) <= self.head(i)
        &&& forall|i: int| 0 <= i < j && #[trigger] self.has_head(i) ==> self.head(j) < self.head(i)
    }

    /// No slice of any run has been loaded.
    pub open spec fn unloaded(self) -> bool {
        forall|i: int| 0 <= i < self.runs() ==> #[trigger] self.slices[i] == 0
    }

    /// The state after `parts` became the first windows of the runs.
    pub open spec fn init(self, parts: Seq<Seq<u8>>) -> EngineView {
        EngineView {
            buffers: parts,
            cursors: Seq::new(self.runs(), |i: int| 0nat),
            slices: Seq::new(self.runs(), |i: int| 1nat),
            out: Seq::<u8>::empty(),
            ..self
        }
    }

    /// The state after `bytes` became the window of run `i`.
    pub open spec fn load(self, i: int, bytes: Seq<u8>) -> EngineView {
        EngineView {
            buffers: self.buffers.update(i, bytes),
            cursors: self.cursors.update(i, 0),
            slices: self.slices.update(i, self.slices[i] + 1),
            ..self
        }
    }

    /// The state after the head of run `j` moved to the output window.
    pub open spec fn emit(self, j: int) -> EngineView {
        EngineView {
            cursors: self.cursors.update(j, self.cursors[j] + 1),
            out: self.out.push(self.head(j)),
            ..self
        }
    }

    /// The state after the output window was handed out.
    pub open spec fn flush(self) -> EngineView {
        EngineView { out: Seq::<u8>::empty(), ..self }
    }
}

/// Merges the sorted runs of a scratch content through one window per run.
#[derive(Debug)]
pub struct MergeEngine {
    cache_size: u64,
    caches_num: u64,
    file_len: u64,
    buffer_size: u64,
    in_buffers: Vec<Vec<u8>>,
    in_buffers_pos: Vec<usize>,
    in_buffers_index: Vec<u64>,
    out_buffer: Vec<u8>,
    slices_per_cache: u64,
    slices_per_last_cache: u64,
    last_slice_size: u64,
    last_slice_in_last_cache_size: u64,
}

impl View for MergeEngine {
    type V = EngineView;

    closed spec fn view(&self) -> EngineView {
        EngineView {
            cache_size: self.cache_size as nat,
            file_len: self.file_len as nat,
            buffers: Seq::new(self.in_buffers@.len(), |i: int| self.in_buffers@[i]@),
            cursors: Seq::new(self.in_buffers_pos@.len(), |i: int| self.in_buffers_pos@[i] as nat),
            slices: Seq::new(
                self.in_buffers_index@.len(),
                |i: int| self.in_buffers_index@[i] as nat,
            ),
            out: self.out_buffer@,
        }
    }
}

impl MergeEngine {
    /// The stored sizes are the ones that the budget and the length imply.
    pub closed spec fn wf(&self) -> bool {
        let v = self@;
        let n = v.runs();
        &&& v.inv()
        &&& self.caches_num == n
        &&& self.buffer_size == v.window()
        &&& self.buffer_size >= 1
        &&& self.in_buffers@.len() == n
        &&& self.in_buffers_pos@.len() == n
        &&& self.in_buffers_index@.len() == n
        &&& n >= 1 ==> {
            &&& self.slices_per_cache == ceil_div(v.cache_size, v.window())
            &&& self.slices_per_cache >= 1
            &&& self.last_slice_size == piece_len(
                v.cache_size,
                v.window(),
                (self.slices_per_cache - 1) as nat,
            )
            &&& self.slices_per_last_cache == v.slice_count(n - 1)
            &&& self.slices_per_last_cache >= 1
            &&& self.last_slice_in_last_cache_size == v.slice_len(
                n - 1,
                self.slices_per_last_cache - 1,
            )
        }
    }

    /// A well-formed engine has a valid state.
    pub proof fn lemma_wf_inv(&self)
        requires
            self.wf(),
        ensures
            self@.inv(),
            self@.window() >= 1,
    {
    }

    /// Sets the engine up for a scratch content of `file_len` bytes that was
    /// written in runs of `cache_size`. No slice is loaded yet.
    pub fn new(cache_size: u64, file_len: u64) -> (r: Result<MergeEngine, SortError>)
        ensures
            r is Ok <==> cache_size >= 1 && run_count(file_len as nat, cache_size as nat) + 1
                <= cache_size,
            r matches Err(e) ==> e == SortError::BudgetTooSmall,
            r matches Ok(engine) ==> engine.wf() && engine@ == EngineView::fresh(
                cache_size as nat,
                file_len as nat,
            ),
    {
        if cache_size == 0 {
            return Err(SortError::BudgetTooSmall);
        }
        let caches_num: u64 = ceil_div_u64(file_len, cache_size);
        if caches_num >= cache_size {
            return Err(SortError::BudgetTooSmall);
        }
        let buffer_size: u64 = cache_size / (caches_num + 1);
        assert(buffer_size >= 1 && buffer_size <= cache_size) by (nonlinear_arith)
            requires
                buffer_size == cache_size / ((caches_num + 1) as u64),
                1 <= caches_num + 1 <= cache_size,
        ;
        let slices_per_cache: u64 = ceil_div_u64(cache_size, buffer_size);
        let mut slices_per_last_cache: u64 = 0;
        let mut last_slice_size: u64 = 0;
        let mut last_slice_in_last_cache_size: u64 = 0;
        if caches_num >= 1 {
            proof {
                lemma_pieces(file_len as nat, cache_size as nat, (caches_num - 1) as nat);
                lemma_pieces(cache_size as nat, buffer_size as nat, 0);
                lemma_pieces(
                    cache_size as nat,
                    buffer_size as nat,
                    (slices_per_cache - 1) as nat,
                );
            }
            let last_cache_size: u64 = file_len - (caches_num - 1) * cache_size;
            slices_per_last_cache = ceil_div_u64(last_cache_size, buffer_size);
            proof {
                lemma_pieces(last_cache_size as nat, buffer_size as nat, 0);
                lemma_pieces(
                    last_cache_size as nat,
                    buffer_size as nat,
                    (slices_per_last_cache - 1) as nat,
                );
            }
            last_slice_size = cache_size - (slices_per_cache - 1) * buffer_size;
            last_slice_in_last_cache_size = last_cache_size - (slices_per_last_cache - 1)
                * buffer_size;
        }
        let mut in_buffers: Vec<Vec<u8>> = Vec::new();
        let mut in_buffers_pos: Vec<usize> = Vec::new();
        let mut in_buffers_index: Vec<u64> = Vec::new();
        let mut k: u64 = 0;
        while k < caches_num
            invariant
                k <= caches_num,
                in_buffers@.len() == k,
                in_buffers_pos@.len() == k,
                in_buffers_index@.len() == k,
                forall|i: int| 0 <= i < k ==> (#[trigger] in_buffers@[i])@ == Seq::<u8>::empty(),
                forall|i: int| 0 <= i < k ==> #[trigger] in_buffers_pos@[i] == 0,
                forall|i: int| 0 <= i < k ==> #[trigger] in_buffers_index@[i] == 0,
            decreases caches_num - k,
        {
            in_buffers.push(Vec::new());
            in_buffers_pos.push(0);
            in_buffers_index.push(0);
            k = k + 1;
        }
        let engine = MergeEngine {
            cache_size,
            caches_num,
            file_len,
            buffer_size,
            in_buffers,
            in_buffers_pos,
            in_buffers_index,
            out_buffer: Vec::new(),
            slices_per_cache,
            slices_per_last_cache,
            last_slice_size,
            last_slice_in_last_cache_size,
        };
        proof {
            let fresh = EngineView::fresh(cache_size as nat, file_len as nat);
            assert(engine@.buffers =~= fresh.buffers);
            assert(engine@.cursors =~= fresh.cursors);
            assert(engine@.slices =~= fresh.slices);
            assert(engine@ == fresh);
            assert forall|i: int| 0 <= i < fresh.runs() implies #[trigger] fresh.run_inv(i) by {}
        }
        Ok(engine)
    }

    /// The number of runs that the engine merges.
    pub fn caches_num(&self) -> (n: u64)
        requires
            self.wf(),
        ensures
            n == self@.runs(),
    {
        self.caches_num
    }

    /// The size of each window.
    pub fn buffer_size(&self) -> (n: u64)
        requires
            self.wf(),
        ensures
            n == self@.window(),
            n >= 1,
    {
        self.buffer_size
    }

    /// Says which slice of run `i` has to be loaded now, if any: its window
    /// must be used up and the run must have a slice left.
    pub fn next_slice(&self, i: usize) -> (r: Option<ReadRequest>)
        requires
            self.wf(),
            i < self@.runs(),
        ensures
            r == if self@.needs_slice(i as int) {
                Some(self@.next_request(i as int))
            } else {
                None
            },
            r matches Some(req) ==> req.offset + req.len <= self@.file_len && 1 <= req.len
                <= self@.window(),
    {
        let ghost v = self@;
        assert(v.run_inv(i as int));
        if self.in_buffers_pos[i] != self.in_buffers[i].len() {
            return None;
        }
        let is_last_buffer = i as u64 == self.caches_num - 1;
        let slice_ind: u64 = self.in_buffers_index[i];
        proof {
            lemma_pieces(v.file_len, v.cache_size, i as nat);
            lemma_pieces(v.run_len(i as int), v.window(), slice_ind as nat);
        }
        let slices: u64 = if !is_last_buffer {
            self.slices_per_cache
        } else {
            self.slices_per_last_cache
        };
        if slice_ind == slices {
            return None;
        }
        let is_last_slice = slice_ind == slices - 1;
        let read_len: u64 = if !is_last_slice {
            self.buffer_size
        } else if !is_last_buffer {
            self.last_slice_size
        } else {
            self.last_slice_in_last_cache_size
        };
        assert(i * self.cache_size + slice_ind * self.buffer_size + read_len <= self.file_len);
        let offset: u64 = i as u64 * self.cache_size + slice_ind * self.buffer_size;
        Some(ReadRequest { run: i, offset, len: read_len })
    }

    /// Takes `bytes`, the slice that `next_slice` asked for, as the new window
    /// of run `i` and puts its cursor at the start.
    pub fn load_next_buffer(&mut self, i: usize, bytes: Vec<u8>)
        requires
            old(self).wf(),
            i < old(self)@.runs(),
            old(self)@.needs_slice(i as int),
            bytes@.len() == old(self)@.next_request(i as int).len,
        ensures
            final(self).wf(),
            final(self)@ == old(self)@.load(i as int, bytes@),
            old(self)@.ready_but(i as int) ==> final(self)@.ready(),
    {
        let ghost v = self@;
        let ghost b = bytes@;
        let r = self.next_slice(i);
        assert(v.run_inv(i as int));
        let slice_ind: u64 = self.in_buffers_index[i];
        proof {
            lemma_pieces(v.file_len, v.cache_size, i as nat);
            lemma_pieces(v.run_len(i as int), v.window(), slice_ind as nat);
        }
        self.in_buffers.set(i, bytes);
        self.in_buffers_pos.set(i, 0);
        self.in_buffers_index.set(i, slice_ind + 1);
        proof {
            let w = v.load(i as int, b);
            assert(self@.buffers =~= w.buffers);
            assert(self@.cursors =~= w.cursors);
            assert(self@.slices =~= w.slices);
            assert(self@ == w);
            assert forall|k: int| 0 <= k < w.runs() implies #[trigger] w.run_inv(k) by {
                assert(v.run_inv(k));
            }
            if v.ready_but(i as int) {
                assert forall|k: int| 0 <= k < w.runs() implies !#[trigger] w.needs_slice(k) by {
                    if k != i {
                        assert(!v.needs_slice(k));
                    }
                }
            }
        }
    }

    /// The reads that bring the first slice of every run, in the order of the
    /// runs: each starts where its run starts.
    pub fn init_requests(&self) -> (reqs: Vec<ReadRequest>)
        requires
            self.wf(),
            self@.unloaded(),
        ensures
            reqs@.len() == self@.runs(),
            forall|i: int|
                0 <= i < self@.runs() ==> {
                    &&& #[trigger] reqs@[i] == self@.next_request(i)
                    &&& reqs@[i].run == i
                    &&& reqs@[i].offset == i * self@.cache_size
                    &&& reqs@[i].offset + reqs@[i].len <= self@.file_len
                    &&& 1 <= reqs@[i].len <= self@.window()
                },
    {
        let ghost v = self@;
        let mut reqs: Vec<ReadRequest> = Vec::new();
        let mut i: usize = 0;
        while i < self.in_buffers.len()
            invariant
                self.wf(),
                self@ == v,
                v.unloaded(),
                i <= v.runs(),
                self.in_buffers@.len() == v.runs(),
                reqs@.len() == i,
                forall|k: int|
                    0 <= k < i ==> {
                        &&& #[trigger] reqs@[k] == v.next_request(k)
                        &&& reqs@[k].run == k
                        &&& reqs@[k].offset == k * v.cache_size
                        &&& reqs@[k].offset + reqs@[k].len <= v.file_len
                        &&& 1 <= reqs@[k].len <= v.window()
                    },
            decreases self.in_buffers@.len() - i,
        {
            proof {
                assert(v.run_inv(i as int));
                assert(v.slices[i as int] == 0);
                lemma_pieces(v.file_len, v.cache_size, i as nat);
                lemma_pieces(v.run_len(i as int), v.window(), 0);
                assert(v.needs_slice(i as int));
                assert(0 * v.window() == 0) by (nonlinear_arith);
            }
            match self.next_slice(i) {
                Some(req) => {
                    reqs.push(req);
                },
                None => {},
            }
            i = i + 1;
        }
        reqs
    }

    /// Takes the first slice of every run as its window, with the cursor at
    /// the start, and empties the output window.
    pub fn init_buffers(&mut self, slices: Vec<Vec<u8>>)
        requires
            old(self).wf(),
            old(self)@.unloaded(),
            slices@.len() == old(self)@.runs(),
            forall|i: int|
                0 <= i < slices@.len() ==> (#[trigger] slices@[i])@.len() == old(
                    self,
                )@.next_request(i).len,
        ensures
            final(self).wf(),
            final(self)@ == old(self)@.init(Seq::new(slices@.len(), |i: int| slices@[i]@)),
            final(self)@.ready(),
    {
        let ghost v = self@;
        let ghost parts = Seq::new(slices@.len(), |i: int| slices@[i]@);
        let mut slices = slices;
        self.out_buffer.clear();
        proof {
            let w = v.flush();
            assert(self@.buffers =~= w.buffers);
            assert(self@.cursors =~= w.cursors);
            assert(self@.slices =~= w.slices);
            assert(self@ == w);
            assert forall|k: int| 0 <= k < w.runs() implies #[trigger] w.run_inv(k) by {
                assert(v.run_inv(k));
            }
        }
        let mut i: usize = slices.len();
        while i > 0
            invariant
                self.wf(),
                i <= v.runs(),
                slices@.len() == i,
                parts.len() == v.runs(),
                self@.cache_size == v.cache_size,
                self@.file_len == v.file_len,
                self@.out == Seq::<u8>::empty(),
                forall|k: int| 0 <= k < i ==> (#[trigger] slices@[k])@ == parts[k],
                forall|k: int|
                    0 <= k < v.runs() ==> (#[trigger] parts[k]).len() == v.next_request(k).len,
                v.inv(),
                v.unloaded(),
                forall|k: int| 0 <= k < i ==> #[trigger] self@.slices[k] == 0,
                forall|k: int| i <= k < v.runs() ==> #[trigger] self@.buffers[k] == parts[k],
                forall|k: int| i <= k < v.runs() ==> #[trigger] self@.cursors[k] == 0,
                forall|k: int| i <= k < v.runs() ==> #[trigger] self@.slices[k] == 1,
            decreases i,
        {
            i = i - 1;
            let ghost pre = self@;
            let bytes = slices.pop().unwrap();
            proof {
                assert(pre.run_inv(i as int));
                assert(pre.slices[i as int] == 0);
                lemma_pieces(pre.file_len, pre.cache_size, i as nat);
                lemma_pieces(pre.run_len(i as int), pre.window(), 0);
                assert(pre.needs_slice(i as int));
                assert(bytes@ == parts[i as int]);
                assert(pre.next_request(i as int).len == v.next_request(i as int).len);
            }
            self.load_next_buffer(i, bytes);
        }
        proof {
            let w = v.init(parts);
            assert(self@.buffers =~= w.buffers);
            assert(self@.cursors =~= w.cursors);
            assert(self@.slices =~= w.slices);
            assert(self@ == w);
            assert forall|k: int| 0 <= k < w.runs() implies !#[trigger] w.needs_slice(k) by {
                assert(v.run_inv(k));
                lemma_pieces(v.file_len, v.cache_size, k as nat);
                lemma_pieces(v.run_len(k), v.window(), 0);
                assert(parts[k].len() == v.next_request(k).len);
            }
        }
    }

    /// Whether a step can be taken: no run waits for a slice.
    pub fn is_ready(&self) -> (r: bool)
        requires
            self.wf(),
        ensures
            r == self@.ready(),
    {
        let mut i: usize = 0;
        while i < self.in_buffers.len()
            invariant
                self.wf(),
                i <= self@.runs(),
                self.in_buffers@.len() == self@.runs(),
                forall|k: int| 0 <= k < i ==> !#[trigger] self@.needs_slice(k),
            decreases self.in_buffers@.len() - i,
        {
            if self.next_slice(i).is_some() {
                return false;
            }
            i = i + 1;
        }
        true
    }

    /// Takes one step of the merge.
    ///
    /// A full output window is handed out first. Otherwise the smallest byte
    /// under the cursors, of the first run that holds it, moves to the output
    /// window. When no run has a byte left, the rest of the output window is
    /// handed out.
    pub fn merge_step(&mut self) -> (action: Action)
        requires
            old(self).wf(),
            old(self)@.ready(),
        ensures
            final(self).wf(),
            match action {
                Action::Flush(bytes) => {
                    &&& old(self)@.out.len() == old(self)@.window()
                    &&& bytes@ == old(self)@.out
                    &&& final(self)@ == old(self)@.flush()
                    &&& final(self)@.ready()
                },
                Action::Finish(bytes) => {
                    &&& old(self)@.out.len() < old(self)@.window()
                    &&& old(self)@.drained()
                    &&& bytes@ == old(self)@.out
                    &&& final(self)@ == old(self)@.flush()
                },
                Action::Emitted { run, refill } => {
                    &&& old(self)@.out.len() < old(self)@.window()
                    &&& old(self)@.is_winner(run as int)
                    &&& final(self)@ == old(self)@.emit(run as int)
                    &&& refill == if final(self)@.needs_slice(run as int) {
                        Some(final(self)@.next_request(run as int))
                    } else {
                        None
                    }
                    &&& refill matches Some(req) ==> req.offset + req.len <= old(self)@.file_len
                        && req.len >= 1
                    &&& final(self)@.ready_but(run as int)
                    &&& refill is None ==> final(self)@.ready()
                },
            },
    {
        let ghost v = self@;
        if self.out_buffer.len() as u64 == self.buffer_size {
            let mut bytes: Vec<u8> = Vec::new();
            std::mem::swap(&mut bytes, &mut self.out_buffer);
            proof {
                let w = v.flush();
                assert(self@.buffers =~= w.buffers);
                assert(self@.cursors =~= w.cursors);
                assert(self@.slices =~= w.slices);
                assert(self@ == w);
                assert forall|k: int| 0 <= k < w.runs() implies #[trigger] w.run_inv(k) by {
                    assert(v.run_inv(k));
                }
                assert forall|k: int| 0 <= k < w.runs() implies !#[trigger] w.needs_slice(k) by {
                    assert(!v.needs_slice(k));
                }
            }
            return Action::Flush(bytes);
        }
        let mut found = false;
        let mut min: u8 = 0;
        let mut min_ind: usize = 0;
        let mut i: usize = 0;
        while i < self.in_buffers.len()
            invariant
                self.wf(),
                self@ == v,
                i <= v.runs(),
                self.in_buffers@.len() == v.runs(),
                self.in_buffers_pos@.len() == v.runs(),
                !found ==> forall|k: int| 0 <= k < i ==> !#[trigger] v.has_head(k),
                found ==> {
                    &&& min_ind < i
                    &&& v.has_head(min_ind as int)
                    &&& min == v.head(min_ind as int)
                    &&& forall|k: int| 0 <= k < i && #[trigger] v.has_head(k) ==> min <= v.head(k)
                    &&& forall|k: int|
                        0 <= k < min_ind && #[trigger] v.has_head(k) ==> min < v.head(k)
                },
            decreases self.in_buffers@.len() - i,
        {
            let pos: usize = self.in_buffers_pos[i];
            if pos < self.in_buffers[i].len() {
                let m: u8 = self.in_buffers[i][pos];
                if !found || m < min {
                    min = m;
                    min_ind = i;
                    found = true;
                }
            }
            i = i + 1;
        }
        if !found {
            let mut bytes: Vec<u8> = Vec::new();
            std::mem::swap(&mut bytes, &mut self.out_buffer);
            proof {
                let w = v.flush();
                assert(self@.buffers =~= w.buffers);
                assert(self@.cursors =~= w.cursors);
                assert(self@.slices =~= w.slices);
                assert(self@ == w);
                assert forall|k: int| 0 <= k < w.runs() implies #[trigger] w.run_inv(k) by {
                    assert(v.run_inv(k));
                }
            }
            return Action::Finish(bytes);
        }
        assert(v.run_inv(min_ind as int));
        let pos: usize = self.in_buffers_pos[min_ind];
        assert(v.cursors[min_ind as int] == pos);
        let window_len: usize = self.in_buffers[min_ind].len();
        assert(v.buffers[min_ind as int].len() == window_len);
        self.out_buffer.push(min);
        self.in_buffers_pos.set(min_ind, pos + 1);
        proof {
            let w = v.emit(min_ind as int);
            assert(self@.buffers =~= w.buffers);
            assert(self@.cursors =~= w.cursors);
            assert(self@.slices =~= w.slices);
            assert(self@ == w);
            assert forall|k: int| 0 <= k < w.runs() implies #[trigger] w.run_inv(k) by {
                assert(v.run_inv(k));
            }
            assert forall|k: int| 0 <= k < w.runs() && k != min_ind implies !#[trigger] w.needs_slice(
                k,
            ) by {
                assert(!v.needs_slice(k));
            }
        }
        let refill = self.next_slice(min_ind);
        Action::Emitted { run: min_ind, refill }
    }
}

} // verus!

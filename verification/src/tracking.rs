//! What the engine's state means for a given scratch content, and the proof
//! that every operation keeps that meaning: nothing is lost, nothing is made
//! up, and the bytes come out in order.

use vstd::prelude::*;
use vstd::multiset::Multiset;
use vstd::relations::{sorted_by, total_ordering};
use vstd::seq_lib::{lemma_multiset_commutative, lemma_sorted_unique, to_multiset_remove};
use crate::layout::{lemma_pieces, run_count, run_len};
use crate::engine::EngineView;

verus! {

/// Non-decreasing order.
pub open spec fn sorted(s: Seq<u8>) -> bool {
    forall|a: int, b: int| 0 <= a <= b < s.len() ==> s[a] <= s[b]
}

/// No byte of `low` is greater than a byte of `high`.
pub open spec fn below(low: Seq<u8>, high: Seq<u8>) -> bool {
    forall|a: int, b: int| 0 <= a < low.len() && 0 <= b < high.len() ==> low[a] <= high[b]
}

/// Run `i` of a scratch content written in runs of `cache_size`.
pub open spec fn run_of(s: Seq<u8>, cache_size: nat, i: int) -> Seq<u8> {
    s.subrange(i * cache_size, i * cache_size + run_len(s.len(), cache_size, i as nat))
}

/// Every run of the scratch content is sorted.
pub open spec fn runs_sorted(s: Seq<u8>, cache_size: nat) -> bool {
    forall|i: int| 0 <= i < run_count(s.len(), cache_size) ==> sorted(#[trigger] run_of(s, cache_size, i))
}

/// The bytes of all parts together.
pub open spec fn union_of(parts: Seq<Seq<u8>>) -> Multiset<u8>
    decreases parts.len(),
{
    if parts.len() == 0 {
        Multiset::empty()
    } else {
        union_of(parts.drop_last()).add(parts.last().to_multiset())
    }
}

impl EngineView {
    /// How many bytes of run `i` have left its windows.
    pub open spec fn consumed(self, i: int) -> nat {
        if self.slices[i] == 0 {
            0
        } else {
            ((self.slices[i] - 1) * self.window() + self.cursors[i]) as nat
        }
    }

    /// The bytes of run `i` that have not reached the output window.
    pub open spec fn remaining(self, s: Seq<u8>, i: int) -> Seq<u8> {
        run_of(s, self.cache_size, i).skip(self.consumed(i) as int)
    }

    pub open spec fn remainders(self, s: Seq<u8>) -> Seq<Seq<u8>> {
        Seq::new(self.runs(), |i: int| self.remaining(s, i))
    }

    /// The window of run `i` holds the slice of the scratch content that was
    /// loaded last.
    pub open spec fn agrees(self, s: Seq<u8>, i: int) -> bool {
        self.slices[i] >= 1 ==> self.buffers[i] == run_of(s, self.cache_size, i).subrange(
            (self.slices[i] - 1) * self.window(),
            (self.slices[i] - 1) * self.window() + self.buffers[i].len(),
        )
    }

    /// The engine works on scratch content `s` and `flushed` is what it has
    /// handed out so far: the output is sorted, no byte of it exceeds a byte
    /// still to come, and output and remainders together are the bytes of `s`.
    pub open spec fn tracks(self, s: Seq<u8>, flushed: Seq<u8>) -> bool {
        &&& self.inv()
        &&& s.len() == self.file_len
        &&& runs_sorted(s, self.cache_size)
        &&& forall|i: int| 0 <= i < self.runs() ==> #[trigger] self.agrees(s, i)
        &&& sorted(flushed + self.out)
        &&& forall|i: int|
            0 <= i < self.runs() ==> below(flushed + self.out, #[trigger] self.remaining(s, i))
        &&& (flushed + self.out).to_multiset().add(union_of(self.remainders(s)))
            == s.to_multiset()
    }
}

proof fn lemma_union_empty(parts: Seq<Seq<u8>>)
    requires
        forall|i: int| 0 <= i < parts.len() ==> (#[trigger] parts[i]).len() == 0,
    ensures
        union_of(parts) == Multiset::<u8>::empty(),
    decreases parts.len(),
{
    broadcast use vstd::multiset::group_multiset_axioms;
    if parts.len() > 0 {
        lemma_union_empty(parts.drop_last());
        assert(parts.last().len() == 0);
        parts.last().to_multiset_ensures();
        assert(parts.last().to_multiset().len() == 0);
        assert(union_of(parts) =~= Multiset::<u8>::empty());
    }
}

proof fn lemma_union_drop_head(parts: Seq<Seq<u8>>, j: int)
    requires
        0 <= j < parts.len(),
        parts[j].len() > 0,
    ensures
        union_of(parts) == union_of(parts.update(j, parts[j].drop_first())).insert(parts[j][0]),
    decreases parts.len(),
{
    broadcast use vstd::multiset::group_multiset_axioms;
    let tail = parts[j].drop_first();
    let after = parts.update(j, tail);
    if j == parts.len() - 1 {
        assert(after.drop_last() =~= parts.drop_last());
        assert(parts[j].remove(0) =~= tail);
        to_multiset_remove(parts[j], 0);
        parts[j].to_multiset_ensures();
        assert(parts[j].to_multiset().count(parts[j][0]) > 0);
        assert(parts[j].to_multiset() =~= tail.to_multiset().insert(parts[j][0]));
        assert(union_of(parts) =~= union_of(after).insert(parts[j][0]));
    } else {
        lemma_union_drop_head(parts.drop_last(), j);
        assert(after.drop_last() =~= parts.drop_last().update(j, tail));
        assert(after.last() == parts.last());
        assert(union_of(parts) =~= union_of(after).insert(parts[j][0]));
    }
}

/// The first `k` runs together are the bytes before the end of run `k - 1`.
proof fn lemma_union_runs(s: Seq<u8>, cache_size: nat, k: nat)
    requires
        cache_size >= 1,
        k <= run_count(s.len(), cache_size),
    ensures
        k * cache_size <= s.len() || k == run_count(s.len(), cache_size),
        union_of(Seq::new(k, |i: int| run_of(s, cache_size, i))) == s.subrange(
            0,
            if k * cache_size <= s.len() {
                (k * cache_size) as int
            } else {
                s.len() as int
            },
        ).to_multiset(),
    decreases k,
{
    broadcast use vstd::multiset::group_multiset_axioms;
    let parts = Seq::new(k, |i: int| run_of(s, cache_size, i));
    if k == 0 {
        assert(0 * cache_size == 0) by (nonlinear_arith);
        assert(s.subrange(0, 0) =~= Seq::<u8>::empty());
        s.subrange(0, 0).to_multiset_ensures();
        assert(s.subrange(0, 0).to_multiset() =~= Multiset::<u8>::empty());
    } else {
        let p = (k - 1) as nat;
        lemma_union_runs(s, cache_size, p);
        lemma_pieces(s.len(), cache_size, p);
        lemma_pieces(s.len(), cache_size, k);
        assert((p + 1) * cache_size == p * cache_size + cache_size) by (nonlinear_arith);
        let start = (p * cache_size) as int;
        let end = start + run_len(s.len(), cache_size, p);
        assert(parts.drop_last() =~= Seq::new(p, |i: int| run_of(s, cache_size, i)));
        assert(parts.last() == s.subrange(start, end));
        assert(s.subrange(0, end) =~= s.subrange(0, start) + s.subrange(start, end));
        lemma_multiset_commutative(s.subrange(0, start), s.subrange(start, end));
    }
}

/// A fresh engine tracks every scratch content of its length whose runs are
/// sorted, with nothing handed out.
pub proof fn lemma_fresh_tracks(s: Seq<u8>, cache_size: nat)
    requires
        1 <= cache_size <= u64::MAX,
        s.len() <= u64::MAX,
        run_count(s.len(), cache_size) + 1 <= cache_size,
        runs_sorted(s, cache_size),
    ensures
        EngineView::fresh(cache_size, s.len()).tracks(s, Seq::<u8>::empty()),
{
    broadcast use vstd::multiset::group_multiset_axioms;
    let v = EngineView::fresh(cache_size, s.len());
    let n = v.runs();
    let none = Seq::<u8>::empty();
    assert(none + v.out =~= none);
    none.to_multiset_ensures();
    assert(none.to_multiset() =~= Multiset::<u8>::empty());
    assert forall|i: int| 0 <= i < n implies #[trigger] v.run_inv(i) by {}
    assert(v.remainders(s) =~= Seq::new(n, |i: int| run_of(s, cache_size, i))) by {
        assert forall|i: int| 0 <= i < n implies v.remaining(s, i) == run_of(s, cache_size, i) by {
            assert(run_of(s, cache_size, i).skip(0) =~= run_of(s, cache_size, i));
        }
    }
    lemma_union_runs(s, cache_size, n);
    lemma_pieces(s.len(), cache_size, n);
    assert(s.subrange(0, s.len() as int) =~= s);
    if n * cache_size <= s.len() {
        assert(n * cache_size == s.len());
    }
    assert(union_of(v.remainders(s)) == s.to_multiset());
    assert(none.to_multiset().add(s.to_multiset()) =~= s.to_multiset());
}

/// Where run `i` lies in the scratch content, and that its cursor state stays
/// inside it.
pub proof fn lemma_run_bounds(v: EngineView, s: Seq<u8>, i: int)
    requires
        v.inv(),
        s.len() == v.file_len,
        0 <= i < v.runs(),
    ensures
        v.window() >= 1,
        v.run_len(i) >= 1,
        i * v.cache_size + v.run_len(i) <= s.len(),
        run_of(s, v.cache_size, i).len() == v.run_len(i),
        v.slice_count(i) >= 1,
        v.consumed(i) <= v.run_len(i),
        v.remaining(s, i).len() == v.run_len(i) - v.consumed(i),
{
    let n = v.runs();
    let cs = v.cache_size;
    let w = v.window();
    assert(w >= 1) by (nonlinear_arith)
        requires
            w == cs / (n + 1),
            cs >= n + 1,
    ;
    lemma_pieces(s.len(), cs, i as nat);
    assert(i * cs >= 0) by (nonlinear_arith)
        requires
            i >= 0,
            cs >= 0,
    ;
    let rl = v.run_len(i);
    lemma_pieces(rl, w, 0);
    assert(v.run_inv(i));
    if v.slices[i] > 0 {
        lemma_pieces(rl, w, (v.slices[i] - 1) as nat);
    }
}

/// The windows of all runs and the output window together stay within the
/// budget.
pub proof fn lemma_windows_fit_budget(v: EngineView)
    requires
        v.inv(),
    ensures
        (v.runs() + 1) * v.window() <= v.cache_size,
        v.out.len() <= v.window(),
        forall|i: int| 0 <= i < v.runs() ==> (#[trigger] v.buffers[i]).len() <= v.window(),
{
    let n = v.runs();
    let cs = v.cache_size;
    let w = v.window();
    assert((n + 1) * w <= cs && w >= 1) by (nonlinear_arith)
        requires
            w == cs / (n + 1),
            cs >= n + 1,
    ;
    assert forall|i: int| 0 <= i < v.runs() implies (#[trigger] v.buffers[i]).len() <= w by {
        assert(v.run_inv(i));
        if v.slices[i] > 0 {
            lemma_pieces(v.run_len(i), w, (v.slices[i] - 1) as nat);
        }
    }
}

/// The byte under the cursor of run `i` is the first that remains of it.
pub proof fn lemma_head(v: EngineView, s: Seq<u8>, i: int)
    requires
        v.inv(),
        s.len() == v.file_len,
        0 <= i < v.runs(),
        v.agrees(s, i),
        v.has_head(i),
    ensures
        v.remaining(s, i).len() > 0,
        v.remaining(s, i)[0] == v.head(i),
        v.consumed(i) < v.run_len(i),
{
    lemma_run_bounds(v, s, i);
    assert(v.run_inv(i));
    let k = (v.slices[i] - 1) as nat;
    lemma_pieces(v.run_len(i), v.window(), k);
    assert(k * v.window() >= 0) by (nonlinear_arith)
        requires
            k >= 0,
            v.window() >= 0,
    ;
}

/// A run without a byte under its cursor that waits for no slice is used up.
pub proof fn lemma_exhausted(v: EngineView, s: Seq<u8>, i: int)
    requires
        v.inv(),
        s.len() == v.file_len,
        0 <= i < v.runs(),
        !v.has_head(i),
        !v.needs_slice(i),
    ensures
        v.remaining(s, i).len() == 0,
{
    lemma_run_bounds(v, s, i);
    assert(v.run_inv(i));
    lemma_pieces(v.run_len(i), v.window(), (v.slices[i] - 1) as nat);
}

/// Loading the slice that was asked for changes nothing of what the engine
/// has handed out or has still to hand out.
pub proof fn lemma_load_tracks(
    v: EngineView,
    s: Seq<u8>,
    flushed: Seq<u8>,
    i: int,
    bytes: Seq<u8>,
)
    requires
        v.tracks(s, flushed),
        0 <= i < v.runs(),
        v.needs_slice(i),
        bytes == s.subrange(
            v.next_request(i).offset as int,
            v.next_request(i).offset + v.next_request(i).len,
        ),
    ensures
        v.load(i, bytes).tracks(s, flushed),
{
    let after = v.load(i, bytes);
    let k = v.slices[i];
    let w = v.window();
    let cs = v.cache_size;
    let rl = v.run_len(i);
    lemma_run_bounds(v, s, i);
    assert(v.run_inv(i));
    lemma_pieces(rl, w, k);
    lemma_pieces(s.len(), cs, i as nat);
    assert(i * cs >= 0 && k * w >= 0) by (nonlinear_arith)
        requires
            i >= 0,
            cs >= 0,
            k >= 0,
            w >= 0,
    ;
    let len = v.slice_len(i, k as int);
    assert(v.next_request(i).offset == i * cs + k * w);
    assert(v.next_request(i).len == len);
    assert(bytes.len() == len);
    assert forall|r: int| 0 <= r < after.runs() implies #[trigger] after.run_inv(r) by {
        assert(v.run_inv(r));
    }
    assert(after.consumed(i) == v.consumed(i)) by {
        assert(after.slices[i] == k + 1);
        assert(after.cursors[i] == 0);
        assert(after.consumed(i) == k * w);
        if k > 0 {
            lemma_pieces(rl, w, (k - 1) as nat);
            assert(v.cursors[i] == w);
            assert((k - 1) * w + w == k * w) by (nonlinear_arith);
        } else {
            assert(k * w == 0) by (nonlinear_arith)
                requires
                    k == 0,
            ;
        }
    }
    assert(after.remainders(s) =~= v.remainders(s));
    assert forall|r: int| 0 <= r < after.runs() implies #[trigger] after.agrees(s, r) by {
        assert(v.agrees(s, r));
        if r == i {
            assert(bytes =~= run_of(s, cs, i).subrange((k * w) as int, (k * w + len) as int));
        }
    }
    assert forall|r: int| 0 <= r < after.runs() implies below(
        flushed + after.out,
        #[trigger] after.remaining(s, r),
    ) by {
        assert(after.remaining(s, r) == v.remaining(s, r));
    }
}

/// Loading the first slice of every run, read where the requests say, makes
/// the engine ready without changing what it has to hand out.
pub proof fn lemma_init_tracks(
    v: EngineView,
    s: Seq<u8>,
    flushed: Seq<u8>,
    parts: Seq<Seq<u8>>,
)
    requires
        v.tracks(s, flushed),
        v.unloaded(),
        v.out.len() == 0,
        parts.len() == v.runs(),
        forall|i: int|
            0 <= i < v.runs() ==> #[trigger] parts[i] == s.subrange(
                v.next_request(i).offset as int,
                v.next_request(i).offset + v.next_request(i).len,
            ),
    ensures
        v.init(parts).tracks(s, flushed),
        v.init(parts).ready(),
{
    let after = v.init(parts);
    let w = v.window();
    let cs = v.cache_size;
    assert(after.out =~= v.out);
    assert(0 * w == 0) by (nonlinear_arith);
    assert forall|i: int| 0 <= i < v.runs() implies {
        &&& #[trigger] after.run_inv(i)
        &&& after.agrees(s, i)
        &&& after.remaining(s, i) == v.remaining(s, i)
        &&& !after.needs_slice(i)
    } by {
        let rl = v.run_len(i);
        lemma_run_bounds(v, s, i);
        assert(v.run_inv(i));
        assert(v.slices[i] == 0);
        lemma_pieces(rl, w, 0);
        lemma_pieces(s.len(), cs, i as nat);
        assert(i * cs >= 0) by (nonlinear_arith)
            requires
                i >= 0,
                cs >= 0,
        ;
        let len = v.slice_len(i, 0);
        assert(v.next_request(i).offset == i * cs);
        assert(v.next_request(i).len == len);
        assert(parts[i] =~= run_of(s, cs, i).subrange(0, len as int));
    }
    assert(after.remainders(s) =~= v.remainders(s));
    assert forall|i: int| 0 <= i < after.runs() implies #[trigger] after.agrees(s, i) by {
        assert(after.run_inv(i));
    }
    assert forall|i: int| 0 <= i < after.runs() implies below(
        flushed + after.out,
        #[trigger] after.remaining(s, i),
    ) by {
        assert(after.run_inv(i));
        assert(below(flushed + v.out, v.remaining(s, i)));
    }
    assert forall|i: int| 0 <= i < after.runs() implies !#[trigger] after.needs_slice(i) by {
        assert(after.run_inv(i));
    }
}

/// Moving the smallest head to the output window keeps the output sorted and
/// below what remains, and takes exactly that byte from the remainders.
pub proof fn lemma_emit_tracks(v: EngineView, s: Seq<u8>, flushed: Seq<u8>, j: int)
    requires
        v.tracks(s, flushed),
        v.ready(),
        v.is_winner(j),
        v.out.len() < v.window(),
    ensures
        v.emit(j).tracks(s, flushed),
{
    broadcast use vstd::multiset::group_multiset_axioms;
    let after = v.emit(j);
    let h = v.head(j);
    let done = flushed + v.out;
    let cs = v.cache_size;
    assert(v.agrees(s, j));
    lemma_head(v, s, j);
    lemma_run_bounds(v, s, j);
    assert forall|r: int| 0 <= r < after.runs() implies #[trigger] after.run_inv(r) by {
        assert(v.run_inv(r));
    }
    assert forall|r: int| 0 <= r < after.runs() implies #[trigger] after.agrees(s, r) by {
        assert(v.agrees(s, r));
    }
    assert(v.run_inv(j));
    assert(after.consumed(j) == v.consumed(j) + 1);
    assert(after.remaining(s, j) =~= v.remaining(s, j).drop_first());
    assert(after.remainders(s) =~= v.remainders(s).update(j, v.remaining(s, j).drop_first()));
    lemma_union_drop_head(v.remainders(s), j);
    assert(flushed + after.out =~= done.push(h));
    vstd::seq_lib::to_multiset_build(done, h);
    assert(done.push(h).to_multiset().add(union_of(after.remainders(s))) =~= done.to_multiset().add(
        union_of(v.remainders(s)),
    ));
    assert(below(done, v.remaining(s, j)));
    assert(sorted(done.push(h))) by {
        assert forall|a: int, b: int| 0 <= a <= b < done.push(h).len() implies done.push(h)[a]
            <= done.push(h)[b] by {
            if b == done.len() && a < done.len() {
                assert(done[a] <= v.remaining(s, j)[0]);
            }
        }
    }
    assert forall|r: int| 0 <= r < after.runs() implies below(
        done.push(h),
        #[trigger] after.remaining(s, r),
    ) by {
        let before = v.remaining(s, r);
        let now = after.remaining(s, r);
        let shift: int = if r == j {
            1
        } else {
            0
        };
        lemma_run_bounds(v, s, r);
        assert(below(done, before));
        assert(sorted(run_of(s, cs, r)));
        assert forall|a: int, b: int| 0 <= a < done.push(h).len() && 0 <= b < now.len() implies
            done.push(h)[a] <= now[b] by {
            assert(now[b] == before[b + shift]);
            if a < done.len() {
                assert(done[a] <= before[b + shift]);
            } else {
                assert(v.agrees(s, r));
                if v.has_head(r) {
                    lemma_head(v, s, r);
                    assert(before[0] == run_of(s, cs, r)[v.consumed(r) as int]);
                    assert(before[b + shift] == run_of(s, cs, r)[v.consumed(r) + b + shift]);
                    assert(h <= v.head(r));
                } else {
                    assert(!v.needs_slice(r));
                    lemma_exhausted(v, s, r);
                }
            }
        }
    }
}

/// Handing out the output window moves its bytes to what has been handed out.
pub proof fn lemma_flush_tracks(v: EngineView, s: Seq<u8>, flushed: Seq<u8>)
    requires
        v.tracks(s, flushed),
    ensures
        v.flush().tracks(s, flushed + v.out),
{
    let after = v.flush();
    assert((flushed + v.out) + after.out =~= flushed + v.out);
    assert forall|r: int| 0 <= r < after.runs() implies #[trigger] after.run_inv(r) by {
        assert(v.run_inv(r));
    }
    assert forall|r: int| 0 <= r < after.runs() implies #[trigger] after.agrees(s, r) by {
        assert(v.agrees(s, r));
    }
    assert(after.remainders(s) =~= v.remainders(s));
    assert forall|r: int| 0 <= r < after.runs() implies below(
        (flushed + v.out) + after.out,
        #[trigger] after.remaining(s, r),
    ) by {
        assert(after.remaining(s, r) == v.remaining(s, r));
    }
}

/// The engine never hands out more bytes than the scratch content holds.
pub proof fn lemma_output_bounded(v: EngineView, s: Seq<u8>, flushed: Seq<u8>)
    requires
        v.tracks(s, flushed),
    ensures
        flushed.len() + v.out.len() <= s.len(),
{
    broadcast use vstd::multiset::group_multiset_axioms;
    (flushed + v.out).to_multiset_ensures();
    s.to_multiset_ensures();
}

/// When no run has a byte left, the output is the scratch content in order.
pub proof fn lemma_drained_complete(v: EngineView, s: Seq<u8>, flushed: Seq<u8>)
    requires
        v.tracks(s, flushed),
        v.ready(),
        v.drained(),
    ensures
        sorted(flushed + v.out),
        (flushed + v.out).to_multiset() == s.to_multiset(),
{
    broadcast use vstd::multiset::group_multiset_axioms;
    let parts = v.remainders(s);
    assert forall|i: int| 0 <= i < parts.len() implies (#[trigger] parts[i]).len() == 0 by {
        assert(!v.has_head(i));
        assert(!v.needs_slice(i));
        lemma_exhausted(v, s, i);
    }
    lemma_union_empty(parts);
    assert((flushed + v.out).to_multiset().add(Multiset::<u8>::empty()) =~= (flushed
        + v.out).to_multiset());
}

/// Two sorted byte sequences with the same bytes are the same sequence.
pub proof fn lemma_sorted_is_unique(a: Seq<u8>, b: Seq<u8>)
    requires
        sorted(a),
        sorted(b),
        a.to_multiset() == b.to_multiset(),
    ensures
        a == b,
{
    let leq = |x: u8, y: u8| x <= y;
    assert(sorted_by(a, leq));
    assert(sorted_by(b, leq));
    assert(total_ordering(leq));
    lemma_sorted_unique(a, b, leq);
}

} // verus!

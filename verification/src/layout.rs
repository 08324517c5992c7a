//! Arithmetic of runs and slices: how a length is cut into pieces of a fixed
//! size, and what the caller's budget admits.

use vstd::prelude::*;

verus! {

/// Why a sort cannot be carried out.
#[derive(Debug, Clone, Copy, PartialEq, Eq, Structural)]
pub enum SortError {
    /// The budget does not leave one byte for each run's window and one for
    /// the output window.
    BudgetTooSmall,
}

/// What has to be done once the runs have been written.
#[derive(Debug, Clone, Copy, PartialEq, Eq, Structural)]
pub enum Plan {
    /// At most one byte: the input is its own sorted form.
    AlreadySorted,
    /// One run: the scratch content is the sorted output.
    SingleRun,
    /// Two or more runs, which the merge engine has to merge.
    Merge { caches_num: u64 },
}

/// Number of non-empty pieces when `total` is cut into pieces of `piece`.
pub open spec fn ceil_div(total: nat, piece: nat) -> nat {
    if piece == 0 {
        0
    } else if total % piece == 0 {
        total / piece
    } else {
        total / piece + 1
    }
}

/// Length of piece `k` when `total` is cut into pieces of `piece`; only the
/// last non-empty piece may be shorter.
pub open spec fn piece_len(total: nat, piece: nat, k: nat) -> nat {
    if (k + 1) * piece <= total {
        piece
    } else if k * piece < total {
        (total - k * piece) as nat
    } else {
        0
    }
}

/// Number of runs of a file of `len` bytes under a budget of `cache_size`.
pub open spec fn run_count(len: nat, cache_size: nat) -> nat {
    ceil_div(len, cache_size)
}

/// Length of run `i`.
pub open spec fn run_len(len: nat, cache_size: nat, i: nat) -> nat {
    piece_len(len, cache_size, i)
}

/// Size of each run's window and of the output window.
pub open spec fn buffer_size(len: nat, cache_size: nat) -> nat {
    cache_size / (run_count(len, cache_size) + 1)
}

/// Whether the budget admits sorting `len` bytes: trivially for at most one
/// byte, otherwise when every run and the output get a window of one byte or
/// more.
pub open spec fn budget_admits(len: nat, cache_size: nat) -> bool {
    len <= 1 || (cache_size >= 1 && run_count(len, cache_size) + 1 <= cache_size)
}

/// The pieces before the last are full, the last holds the rest, and there
/// are exactly `ceil_div` non-empty ones.
pub proof fn lemma_pieces(total: nat, piece: nat, k: nat)
    requires
        piece >= 1,
    ensures
        k < ceil_div(total, piece) <==> k * piece < total,
        k + 1 < ceil_div(total, piece) ==> piece_len(total, piece, k) == piece,
        k + 1 == ceil_div(total, piece) ==> piece_len(total, piece, k) == total - k * piece && 1
            <= piece_len(total, piece, k) <= piece,
        k >= ceil_div(total, piece) ==> piece_len(total, piece, k) == 0,
        piece_len(total, piece, k) <= piece,
        k * piece + piece_len(total, piece, k) <= total || piece_len(total, piece, k) == 0,
        ceil_div(total, piece) <= total,
{
    let q = total / piece;
    let r = total % piece;
    assert(total == q * piece + r && 0 <= r < piece) by (nonlinear_arith)
        requires
            piece >= 1,
            q == total / piece,
            r == total % piece,
    ;
    assert(q <= q * piece) by (nonlinear_arith)
        requires
            piece >= 1,
            q >= 0,
    ;
    assert((k + 1) * piece == k * piece + piece) by (nonlinear_arith);
    if k < q {
        assert((k + 1) * piece <= q * piece) by (nonlinear_arith)
            requires
                k + 1 <= q,
                piece >= 1,
        ;
    } else {
        assert(q * piece <= k * piece) by (nonlinear_arith)
            requires
                q <= k,
                piece >= 1,
        ;
        if k > q {
            assert((q + 1) * piece <= k * piece) by (nonlinear_arith)
                requires
                    q + 1 <= k,
                    piece >= 1,
            ;
            assert((q + 1) * piece == q * piece + piece) by (nonlinear_arith);
        }
    }
}

/// A length one above a multiple of the budget ends in a run of one byte.
pub proof fn lemma_single_byte_last_run(k: nat, cache_size: nat)
    requires
        cache_size >= 1,
    ensures
        run_count(k * cache_size + 1, cache_size) == k + 1,
        run_len(k * cache_size + 1, cache_size, k) == 1,
        forall|i: nat| i < k ==> #[trigger] run_len(k * cache_size + 1, cache_size, i) == cache_size,
{
    let len = k * cache_size + 1;
    lemma_pieces(len, cache_size, k);
    lemma_pieces(len, cache_size, k + 1);
    assert((k + 1) * cache_size == k * cache_size + cache_size) by (nonlinear_arith);
    assert forall|i: nat| i < k implies #[trigger] run_len(len, cache_size, i) == cache_size by {
        assert((i + 1) * cache_size <= k * cache_size) by (nonlinear_arith)
            requires
                i + 1 <= k,
        ;
    }
}

/// Input that fits the budget is one run and is always admitted.
pub proof fn lemma_single_run(len: nat, cache_size: nat)
    requires
        1 <= len <= cache_size,
    ensures
        run_count(len, cache_size) == 1,
        run_len(len, cache_size, 0) == len,
        budget_admits(len, cache_size),
{
    lemma_pieces(len, cache_size, 0);
    lemma_pieces(len, cache_size, 1);
    assert(0 * cache_size == 0 && 1 * cache_size == cache_size) by (nonlinear_arith);
}

/// A budget admits at most `cache_size - 1` runs of `cache_size` bytes.
pub proof fn lemma_capacity(len: nat, cache_size: nat)
    requires
        budget_admits(len, cache_size),
        len > 1,
    ensures
        len <= (cache_size - 1) * cache_size,
{
    let n = run_count(len, cache_size);
    lemma_pieces(len, cache_size, n);
    assert(n * cache_size <= (cache_size - 1) * cache_size) by (nonlinear_arith)
        requires
            n <= cache_size - 1,
            cache_size >= 1,
    ;
}

/// Exact quotient rounded up, computed without overflow.
pub fn ceil_div_u64(total: u64, piece: u64) -> (n: u64)
    requires
        piece >= 1,
    ensures
        n == ceil_div(total as nat, piece as nat),
{
    if total % piece == 0 {
        total / piece
    } else {
        assert(total / piece < u64::MAX) by (nonlinear_arith)
            requires
                piece >= 2,
                total <= u64::MAX,
        ;
        total / piece + 1
    }
}

/// What follows the production of the runs: nothing for at most one byte,
/// whatever the budget; otherwise the budget has to admit the run count that
/// the length implies, and one run needs no merge.
pub open spec fn plan_spec(len: nat, cache_size: nat) -> Result<Plan, SortError> {
    if len <= 1 {
        Ok(Plan::AlreadySorted)
    } else if !budget_admits(len, cache_size) {
        Err(SortError::BudgetTooSmall)
    } else if len <= cache_size {
        Ok(Plan::SingleRun)
    } else {
        Ok((Plan::Merge { caches_num: run_count(len, cache_size) as u64 }))
    }
}

/// Decides what follows the production of the runs.
pub fn plan(file_len: u64, cache_size: u64) -> (r: Result<Plan, SortError>)
    ensures
        r == plan_spec(file_len as nat, cache_size as nat),
        r is Ok <==> budget_admits(file_len as nat, cache_size as nat),
        r matches Ok(Plan::Merge { caches_num }) ==> 2 <= caches_num < cache_size,
{
    if file_len <= 1 {
        return Ok(Plan::AlreadySorted);
    }
    if cache_size == 0 {
        return Err(SortError::BudgetTooSmall);
    }
    let caches_num: u64 = ceil_div_u64(file_len, cache_size);
    proof {
        lemma_pieces(file_len as nat, cache_size as nat, 0);
        lemma_pieces(file_len as nat, cache_size as nat, 1);
        assert(0 * cache_size == 0 && 1 * cache_size == cache_size) by (nonlinear_arith);
    }
    if caches_num >= cache_size {
        return Err(SortError::BudgetTooSmall);
    }
    if caches_num == 1 {
        Ok(Plan::SingleRun)
    } else {
        Ok(Plan::Merge { caches_num })
    }
}

} // verus!

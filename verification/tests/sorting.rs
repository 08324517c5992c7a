use big_file_sort::layout::{ceil_div_u64, plan, Plan, SortError};
use big_file_sort::runs::{produce_runs, read_slice, sort_run, RunProducer};
use big_file_sort::sorter::{merge_runs, sort_bytes};

/// Size of available memory. Used by caches.
const MEM_SIZE_BYTES: u64 = 64;

fn sample(len: usize, seed: u64) -> Vec<u8> {
    let mut state = seed;
    let mut bytes = Vec::with_capacity(len);
    for _ in 0..len {
        state = state.wrapping_mul(6364136223846793005).wrapping_add(1442695040888963407);
        bytes.push((state >> 33) as u8);
    }
    bytes
}

#[test]
fn should_sort() {
    let input = sample(1000, 7);
    let mut v0 = input.clone();
    v0.sort();
    let v1 = sort_bytes(&input, MEM_SIZE_BYTES).unwrap();
    assert_eq!(v0, v1);
}

#[test]
fn output_is_permutation_of_input() {
    let input = sample(500, 11);
    let out = sort_bytes(&input, 40).unwrap();
    let mut counts_in = [0usize; 256];
    let mut counts_out = [0usize; 256];
    for b in &input {
        counts_in[*b as usize] += 1;
    }
    for b in &out {
        counts_out[*b as usize] += 1;
    }
    assert_eq!(counts_in.to_vec(), counts_out.to_vec());
}

#[test]
fn output_is_ordered() {
    let input = sample(777, 3);
    let out = sort_bytes(&input, 50).unwrap();
    assert_eq!(out.len(), 777);
    for i in 1..out.len() {
        assert!(out[i - 1] <= out[i]);
    }
}

#[test]
fn sorted_input_comes_back_unchanged() {
    let mut input = sample(300, 5);
    input.sort();
    let out = sort_bytes(&input, 32).unwrap();
    assert_eq!(out, input);
    let again = sort_bytes(&out, 32).unwrap();
    assert_eq!(again, input);
}

#[test]
fn empty_input_is_already_sorted() {
    assert_eq!(plan(0, 8), Ok(Plan::AlreadySorted));
    assert_eq!(plan(0, 0), Ok(Plan::AlreadySorted));
    assert_eq!(sort_bytes(&Vec::new(), 8), Ok(Vec::new()));
}

#[test]
fn single_byte_is_already_sorted() {
    assert_eq!(plan(1, 8), Ok(Plan::AlreadySorted));
    assert_eq!(plan(1, 1), Ok(Plan::AlreadySorted));
    assert_eq!(sort_bytes(&vec![42], 1), Ok(vec![42]));
}

#[test]
fn length_equal_to_budget_is_one_run() {
    assert_eq!(plan(4, 4), Ok(Plan::SingleRun));
    assert_eq!(plan(2, 4), Ok(Plan::SingleRun));
    assert_eq!(sort_bytes(&vec![9, 1, 8, 2], 4), Ok(vec![1, 2, 8, 9]));
}

#[test]
fn longer_input_is_merged() {
    assert_eq!(plan(5, 4), Ok(Plan::Merge { caches_num: 2 }));
    assert_eq!(plan(9, 4), Ok(Plan::Merge { caches_num: 3 }));
    assert_eq!(plan(1000, 64), Ok(Plan::Merge { caches_num: 16 }));
}

#[test]
fn budget_too_small_is_an_error() {
    assert_eq!(plan(2, 0), Err(SortError::BudgetTooSmall));
    assert_eq!(plan(2, 1), Err(SortError::BudgetTooSmall));
    assert_eq!(plan(13, 4), Err(SortError::BudgetTooSmall));
    assert_eq!(plan(12, 4), Ok(Plan::Merge { caches_num: 3 }));
    assert_eq!(sort_bytes(&sample(13, 1), 4), Err(SortError::BudgetTooSmall));
    assert_eq!(plan(u64::MAX, 1), Err(SortError::BudgetTooSmall));
    assert_eq!(plan(u64::MAX, u64::MAX), Ok(Plan::SingleRun));
}

#[test]
fn single_byte_last_run() {
    // Two full runs of four bytes and a last run of one byte.
    let input = vec![8, 7, 6, 5, 4, 3, 2, 1, 0];
    assert_eq!(plan(9, 4), Ok(Plan::Merge { caches_num: 3 }));
    let scratch = produce_runs(&input, 4);
    assert_eq!(scratch, vec![5, 6, 7, 8, 1, 2, 3, 4, 0]);
    assert_eq!(merge_runs(&scratch, 4), Ok(vec![0, 1, 2, 3, 4, 5, 6, 7, 8]));
    assert_eq!(sort_bytes(&input, 4), Ok(vec![0, 1, 2, 3, 4, 5, 6, 7, 8]));
}

#[test]
fn six_bytes_in_chunks_of_two() {
    let input = vec![5, 3, 3, 1, 9, 2];
    // The chunks [5,3], [3,1], [9,2] become the runs [3,5], [1,3], [2,9].
    assert_eq!(produce_runs(&input, 2), vec![3, 5, 1, 3, 2, 9]);
    // Three runs need a budget of four bytes or more.
    assert_eq!(sort_bytes(&input, 2), Err(SortError::BudgetTooSmall));
    assert_eq!(sort_bytes(&input, 4), Ok(vec![1, 2, 3, 3, 5, 9]));
    assert_eq!(sort_bytes(&input, 5), Ok(vec![1, 2, 3, 3, 5, 9]));
}

#[test]
fn greatest_byte_value_is_kept() {
    let input = vec![255, 0, 255, 255, 7, 255, 255, 255, 1, 255];
    let out = sort_bytes(&input, 4).unwrap();
    assert_eq!(out, vec![0, 1, 7, 255, 255, 255, 255, 255, 255, 255]);
    let all = vec![255u8; 20];
    assert_eq!(sort_bytes(&all, 6), Ok(all.clone()));
}

#[test]
fn sort_run_orders_a_chunk() {
    assert_eq!(sort_run(vec![3, 1, 2]), vec![1, 2, 3]);
    assert_eq!(sort_run(vec![2, 2, 1, 255, 0]), vec![0, 1, 2, 2, 255]);
    assert_eq!(sort_run(Vec::new()), Vec::<u8>::new());
}

#[test]
fn read_slice_copies_a_range() {
    let content = vec![10, 11, 12, 13, 14];
    assert_eq!(read_slice(&content, 1, 3), vec![11, 12, 13]);
    assert_eq!(read_slice(&content, 5, 0), Vec::<u8>::new());
    assert_eq!(read_slice(&content, 0, 5), content);
}

#[test]
fn ceil_div_rounds_up() {
    assert_eq!(ceil_div_u64(0, 4), 0);
    assert_eq!(ceil_div_u64(8, 4), 2);
    assert_eq!(ceil_div_u64(9, 4), 3);
    assert_eq!(ceil_div_u64(u64::MAX, 1), u64::MAX);
    assert_eq!(ceil_div_u64(u64::MAX, 2), 1 << 63);
}

#[test]
fn produce_runs_sorts_each_chunk_on_its_own() {
    let input = vec![4, 3, 2, 1, 8, 7, 6, 5, 9, 0];
    assert_eq!(produce_runs(&input, 4), vec![1, 2, 3, 4, 5, 6, 7, 8, 0, 9]);
    assert_eq!(produce_runs(&input, 10), vec![0, 1, 2, 3, 4, 5, 6, 7, 8, 9]);
    assert_eq!(produce_runs(&input, 1), input);
    assert_eq!(produce_runs(&Vec::new(), 3), Vec::<u8>::new());
}

#[test]
fn merge_runs_rejects_a_small_budget() {
    assert_eq!(merge_runs(&vec![1, 2, 3], 0), Err(SortError::BudgetTooSmall));
    assert_eq!(merge_runs(&vec![1, 1, 1], 1), Err(SortError::BudgetTooSmall));
    assert_eq!(merge_runs(&vec![1, 2, 0], 2), Err(SortError::BudgetTooSmall));
    assert_eq!(merge_runs(&vec![1, 2, 9, 0, 3], 3), Ok(vec![0, 1, 2, 3, 9]));
    assert_eq!(merge_runs(&Vec::new(), 1), Ok(Vec::new()));
}

#[test]
fn many_sizes_and_budgets() {
    for len in 0..60usize {
        let input = sample(len, len as u64 + 1);
        let mut expected = input.clone();
        expected.sort();
        for cache_size in 0..24u64 {
            let runs = if cache_size == 0 {
                0
            } else {
                (len as u64 + cache_size - 1) / cache_size
            };
            let admitted = len <= 1 || (cache_size >= 1 && runs + 1 <= cache_size);
            let result = sort_bytes(&input, cache_size);
            if admitted {
                assert_eq!(result, Ok(expected.clone()));
            } else {
                assert_eq!(result, Err(SortError::BudgetTooSmall));
            }
        }
    }
}

#[test]
fn producer_counts_bytes_and_runs() {
    let mut producer = RunProducer::new(4);
    assert_eq!(producer, RunProducer { cache_size: 4, file_len: 0, caches_num: 0 });
    assert_eq!(producer.finish(), Ok(Plan::AlreadySorted));
    assert!(producer.accepts(4));
    assert!(!producer.accepts(0));
    assert!(!producer.accepts(5));
    assert_eq!(producer.push_chunk(vec![8, 7, 6, 5]), vec![5, 6, 7, 8]);
    assert_eq!(producer, RunProducer { cache_size: 4, file_len: 4, caches_num: 1 });
    assert_eq!(producer.finish(), Ok(Plan::SingleRun));
    assert_eq!(producer.push_chunk(vec![4, 3, 2, 1]), vec![1, 2, 3, 4]);
    assert_eq!(producer.push_chunk(vec![0]), vec![0]);
    assert_eq!(producer, RunProducer { cache_size: 4, file_len: 9, caches_num: 3 });
    assert_eq!(producer.finish(), Ok(Plan::Merge { caches_num: 3 }));
    // A short run is the last one.
    assert!(!producer.accepts(1));
}

#[test]
fn producer_reports_a_small_budget() {
    let mut producer = RunProducer::new(2);
    assert_eq!(producer.push_chunk(vec![5, 3]), vec![3, 5]);
    assert_eq!(producer.push_chunk(vec![3, 1]), vec![1, 3]);
    assert_eq!(producer.push_chunk(vec![9, 2]), vec![2, 9]);
    assert_eq!(producer.caches_num, 3);
    assert_eq!(producer.file_len, 6);
    assert_eq!(producer.finish(), Err(SortError::BudgetTooSmall));
    let full = RunProducer { cache_size: 2, file_len: u64::MAX - 1, caches_num: 1 << 63 };
    assert!(!full.accepts(2));
}

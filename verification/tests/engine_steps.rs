use big_file_sort::engine::{Action, MergeEngine, ReadRequest};
use big_file_sort::layout::SortError;

fn slice_of(scratch: &[u8], req: &ReadRequest) -> Vec<u8> {
    scratch[req.offset as usize..(req.offset + req.len) as usize].to_vec()
}

/// Drives the engine over `scratch` and returns the output with the chunks in
/// which it was handed out.
fn drive(scratch: &[u8], cache_size: u64) -> (Vec<u8>, Vec<Vec<u8>>) {
    let mut engine = match MergeEngine::new(cache_size, scratch.len() as u64) {
        Ok(engine) => engine,
        Err(e) => panic!("{:?}", e),
    };
    for i in 0..engine.caches_num() as usize {
        let req = engine.next_slice(i).unwrap();
        assert_eq!(req.run, i);
        engine.load_next_buffer(i, slice_of(scratch, &req));
    }
    let mut out = Vec::new();
    let mut chunks = Vec::new();
    loop {
        assert!(engine.is_ready());
        match engine.merge_step() {
            Action::Emitted { run, refill } => {
                if let Some(req) = refill {
                    assert_eq!(req.run, run);
                    engine.load_next_buffer(run, slice_of(scratch, &req));
                }
            }
            Action::Flush(bytes) => {
                assert_eq!(bytes.len() as u64, engine.buffer_size());
                out.extend_from_slice(&bytes);
                chunks.push(bytes);
            }
            Action::Finish(bytes) => {
                out.extend_from_slice(&bytes);
                chunks.push(bytes);
                return (out, chunks);
            }
        }
    }
}

#[test]
fn new_rejects_a_small_budget() {
    assert!(matches!(MergeEngine::new(0, 10), Err(SortError::BudgetTooSmall)));
    assert!(matches!(MergeEngine::new(1, 1), Err(SortError::BudgetTooSmall)));
    assert!(matches!(MergeEngine::new(4, 13), Err(SortError::BudgetTooSmall)));
    assert!(matches!(MergeEngine::new(1, u64::MAX), Err(SortError::BudgetTooSmall)));
    assert!(MergeEngine::new(4, 12).is_ok());
    assert!(MergeEngine::new(1, 0).is_ok());
}

#[test]
fn sizes_are_derived_from_budget_and_length() {
    let engine = MergeEngine::new(64, 1000).unwrap();
    assert_eq!(engine.caches_num(), 16);
    assert_eq!(engine.buffer_size(), 3);
    let engine = MergeEngine::new(6, 10).unwrap();
    assert_eq!(engine.caches_num(), 2);
    assert_eq!(engine.buffer_size(), 2);
    let engine = MergeEngine::new(4, 9).unwrap();
    assert_eq!(engine.caches_num(), 3);
    assert_eq!(engine.buffer_size(), 1);
}

#[test]
fn first_slices_start_at_each_run() {
    let engine = MergeEngine::new(7, 10).unwrap();
    assert!(!engine.is_ready());
    assert_eq!(engine.next_slice(0), Some(ReadRequest { run: 0, offset: 0, len: 2 }));
    assert_eq!(engine.next_slice(1), Some(ReadRequest { run: 1, offset: 7, len: 2 }));
}

#[test]
fn first_slice_of_a_short_last_run() {
    let engine = MergeEngine::new(4, 9).unwrap();
    assert_eq!(engine.next_slice(0), Some(ReadRequest { run: 0, offset: 0, len: 1 }));
    assert_eq!(engine.next_slice(1), Some(ReadRequest { run: 1, offset: 4, len: 1 }));
    assert_eq!(engine.next_slice(2), Some(ReadRequest { run: 2, offset: 8, len: 1 }));
    let engine = MergeEngine::new(9, 10).unwrap();
    assert_eq!(engine.buffer_size(), 3);
    assert_eq!(engine.next_slice(1), Some(ReadRequest { run: 1, offset: 9, len: 1 }));
}

#[test]
fn steps_follow_the_smallest_head() {
    // Runs [1,3,5,7,9,11,13] and [2,4,6], with windows of two bytes.
    let scratch = vec![1, 3, 5, 7, 9, 11, 13, 2, 4, 6];
    let mut engine = MergeEngine::new(7, 10).unwrap();
    engine.load_next_buffer(0, vec![1, 3]);
    assert_eq!(engine.next_slice(0), None);
    assert!(!engine.is_ready());
    engine.load_next_buffer(1, vec![2, 4]);
    assert!(engine.is_ready());

    assert!(matches!(engine.merge_step(), Action::Emitted { run: 0, refill: None }));
    assert!(matches!(engine.merge_step(), Action::Emitted { run: 1, refill: None }));
    match engine.merge_step() {
        Action::Flush(bytes) => assert_eq!(bytes, vec![1, 2]),
        other => panic!("{:?}", other),
    }
    match engine.merge_step() {
        Action::Emitted { run, refill } => {
            assert_eq!(run, 0);
            assert_eq!(refill, Some(ReadRequest { run: 0, offset: 2, len: 2 }));
            assert!(!engine.is_ready());
            engine.load_next_buffer(0, slice_of(&scratch, &refill.unwrap()));
        }
        other => panic!("{:?}", other),
    }
    match engine.merge_step() {
        Action::Emitted { run, refill } => {
            assert_eq!(run, 1);
            // The last slice of the last run holds one byte.
            assert_eq!(refill, Some(ReadRequest { run: 1, offset: 9, len: 1 }));
            engine.load_next_buffer(1, vec![6]);
        }
        other => panic!("{:?}", other),
    }
    match engine.merge_step() {
        Action::Flush(bytes) => assert_eq!(bytes, vec![3, 4]),
        other => panic!("{:?}", other),
    }
    assert!(matches!(engine.merge_step(), Action::Emitted { run: 0, refill: None }));
    // Run 1 is used up: nothing is asked for.
    assert!(matches!(engine.merge_step(), Action::Emitted { run: 1, refill: None }));
    assert_eq!(engine.next_slice(1), None);
    match engine.merge_step() {
        Action::Flush(bytes) => assert_eq!(bytes, vec![5, 6]),
        other => panic!("{:?}", other),
    }
    match engine.merge_step() {
        Action::Emitted { run, refill } => {
            assert_eq!(run, 0);
            assert_eq!(refill, Some(ReadRequest { run: 0, offset: 4, len: 2 }));
            engine.load_next_buffer(0, vec![9, 11]);
        }
        other => panic!("{:?}", other),
    }
    assert!(matches!(engine.merge_step(), Action::Emitted { run: 0, refill: None }));
    match engine.merge_step() {
        Action::Flush(bytes) => assert_eq!(bytes, vec![7, 9]),
        other => panic!("{:?}", other),
    }
    match engine.merge_step() {
        Action::Emitted { run, refill } => {
            assert_eq!(run, 0);
            // The last slice of a full run holds what the windows leave over.
            assert_eq!(refill, Some(ReadRequest { run: 0, offset: 6, len: 1 }));
            engine.load_next_buffer(0, vec![13]);
        }
        other => panic!("{:?}", other),
    }
    assert!(matches!(engine.merge_step(), Action::Emitted { run: 0, refill: None }));
    match engine.merge_step() {
        Action::Flush(bytes) => assert_eq!(bytes, vec![11, 13]),
        other => panic!("{:?}", other),
    }
    match engine.merge_step() {
        Action::Finish(bytes) => assert_eq!(bytes, Vec::<u8>::new()),
        other => panic!("{:?}", other),
    }
}

#[test]
fn init_requests_name_the_start_of_each_run() {
    let engine = MergeEngine::new(64, 1000).unwrap();
    let reqs = engine.init_requests();
    assert_eq!(reqs.len(), 16);
    for (i, req) in reqs.iter().enumerate() {
        assert_eq!(*req, ReadRequest { run: i, offset: 64 * i as u64, len: 3 });
    }
    let engine = MergeEngine::new(9, 10).unwrap();
    assert_eq!(
        engine.init_requests(),
        vec![
            ReadRequest { run: 0, offset: 0, len: 3 },
            ReadRequest { run: 1, offset: 9, len: 1 }
        ]
    );
    assert_eq!(MergeEngine::new(3, 0).unwrap().init_requests(), vec![]);
}

#[test]
fn init_buffers_makes_the_engine_ready() {
    let scratch = vec![1, 3, 5, 7, 9, 11, 13, 2, 4, 6];
    let mut engine = MergeEngine::new(7, 10).unwrap();
    let slices: Vec<Vec<u8>> =
        engine.init_requests().iter().map(|req| slice_of(&scratch, req)).collect();
    assert_eq!(slices, vec![vec![1, 3], vec![2, 4]]);
    engine.init_buffers(slices);
    assert!(engine.is_ready());
    assert_eq!(engine.next_slice(0), None);
    assert_eq!(engine.next_slice(1), None);
    let mut out = Vec::new();
    loop {
        match engine.merge_step() {
            Action::Emitted { run, refill } => {
                if let Some(req) = refill {
                    engine.load_next_buffer(run, slice_of(&scratch, &req));
                }
            }
            Action::Flush(bytes) => out.extend_from_slice(&bytes),
            Action::Finish(bytes) => {
                out.extend_from_slice(&bytes);
                break;
            }
        }
    }
    assert_eq!(out, vec![1, 2, 3, 4, 5, 6, 7, 9, 11, 13]);
}

#[test]
fn equal_heads_go_to_the_first_run() {
    let mut engine = MergeEngine::new(3, 4).unwrap();
    assert_eq!(engine.buffer_size(), 1);
    engine.load_next_buffer(0, vec![5]);
    engine.load_next_buffer(1, vec![5]);
    match engine.merge_step() {
        Action::Emitted { run, refill } => {
            assert_eq!(run, 0);
            assert_eq!(refill, Some(ReadRequest { run: 0, offset: 1, len: 1 }));
        }
        other => panic!("{:?}", other),
    }
}

#[test]
fn output_comes_in_windows() {
    let scratch = vec![1, 3, 5, 7, 9, 11, 13, 2, 4, 6];
    let (out, chunks) = drive(&scratch, 7);
    assert_eq!(out, vec![1, 2, 3, 4, 5, 6, 7, 9, 11, 13]);
    assert_eq!(
        chunks,
        vec![vec![1, 2], vec![3, 4], vec![5, 6], vec![7, 9], vec![11, 13], vec![]]
    );
    let (out, chunks) = drive(&[2, 4, 6, 8, 1, 3, 5], 4);
    assert_eq!(out, vec![1, 2, 3, 4, 5, 6, 8]);
    assert_eq!(chunks.len(), 8);
}

#[test]
fn merge_with_a_single_byte_last_run() {
    let (out, _) = drive(&[5, 6, 7, 8, 1, 2, 3, 4, 0], 4);
    assert_eq!(out, vec![0, 1, 2, 3, 4, 5, 6, 7, 8]);
}

#[test]
fn merge_keeps_the_greatest_byte_value() {
    let (out, _) = drive(&[0, 255, 255, 255, 1, 255, 255, 255], 4);
    assert_eq!(out, vec![0, 1, 255, 255, 255, 255, 255, 255]);
}

#[test]
fn no_runs_finish_at_once() {
    let mut engine = MergeEngine::new(1, 0).unwrap();
    assert_eq!(engine.caches_num(), 0);
    assert!(engine.is_ready());
    match engine.merge_step() {
        Action::Finish(bytes) => assert_eq!(bytes, Vec::<u8>::new()),
        other => panic!("{:?}", other),
    }
}

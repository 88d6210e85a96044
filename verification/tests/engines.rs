//! The three attack engines, end to end and in their parts.

use std::time::{Duration, Instant};

use hashattacks::birthdays::Birthdays;
use hashattacks::bruteforce::{get_thread_iter_bounds, BruteForce};
use hashattacks::hellman::table::TableNumber;
use hashattacks::hellman::Hellman;
use hashattacks::messagehash::{HashValue, MessageHash};
use hashattacks::messagetransform::MessageTransform;
use hashattacks::{AttackResult, AttackState, CancelFlag};

fn preimage_budget(hash_size_in_bytes: u32, probability: f64) -> u128 {
    let hash_count = (1u128 << (8 * hash_size_in_bytes)) as f64;
    (hash_count * (1.0 / (1.0 - probability)).ln()).ceil() as u128
}

fn birthday_budget(hash_size_in_bytes: u32, probability: f64) -> u128 {
    let hash_count = (1u128 << (8 * hash_size_in_bytes)) as f64;
    (2.0 * hash_count * (1.0 / (1.0 - probability)).ln()).sqrt().ceil() as u128
}

fn suffix_equal(a: &MessageHash, b: &MessageHash, s: usize) -> bool {
    a.hash_value().equal_to(b.hash_value(), s)
}

#[test]
fn preimage_search_succeeds_on_one_byte_suffix() {
    let state = AttackState::new(
        "Some huge message",
        MessageTransform::AppendNumberInSequence(1),
    );
    let budget = 2 * preimage_budget(1, 0.99);
    let mut engine = BruteForce::build(1, state, 1, budget, 30).expect("valid configuration");
    let target = engine.initial_state().messagehash();
    let running = CancelFlag::new();

    match engine.attack(&running) {
        AttackResult::PreimageSuccess(found) => {
            assert!(suffix_equal(&found, &target, 1));
            assert_ne!(found.message(), target.message());
        },
        _ => panic!("expected a preimage within twice the expected budget"),
    }
}

#[test]
fn bruteforce_rejects_bad_configuration() {
    let state = AttackState::new("m", MessageTransform::Mutate);
    assert!(matches!(
        BruteForce::build(0, state.clone(), 1, 10, 1),
        Err("Number of threads can not be zero")
    ));
    assert!(matches!(
        BruteForce::build(1, state, 21, 10, 1),
        Err("Provided hash size is too large")
    ));
}

#[test]
fn parallel_preimage_first_success() {
    let state = AttackState::new(
        "Some huge message",
        MessageTransform::AppendNumberInSequence(1),
    );
    let thread_count: u64 = 8;
    let budget = 2 * preimage_budget(1, 0.99);
    let engine =
        BruteForce::build(thread_count, state, 1, budget, 0).expect("valid configuration");
    let target = engine.initial_state().messagehash();
    let running = CancelFlag::new();

    let (sender, receiver) = crossbeam::channel::bounded(thread_count as usize);
    crossbeam::scope(|scope| {
        for t in 1..=thread_count {
            let mut worker = engine.clone();
            let worker_target = target.clone();
            let worker_running = running.handle();
            let worker_sender = sender.clone();
            scope.spawn(move |_| {
                let (start, end) = get_thread_iter_bounds(thread_count, t, 1, budget);
                let _ = worker.config_transform(start);
                let (result, iteration) =
                    worker.try_find_preimage(start, end, &worker_target, &worker_running);
                if result.is_success() {
                    worker_running.cancel();
                }
                let _ = worker_sender.send((t, result, iteration, start, end));
            });
        }
        drop(sender);

        let mut successes = 0;
        for (_, result, iteration, start, end) in receiver.iter() {
            if let AttackResult::PreimageSuccess(found) = result {
                successes += 1;
                assert!(suffix_equal(&found, &target, 1));
                assert!(start <= iteration && iteration <= end);
            }
        }
        assert!(successes >= 1, "some worker must find a one-byte preimage");
    })
    .unwrap();
}

#[test]
fn worker_ranges_tile_the_budget() {
    let budget: u128 = 1000;
    let mut previous_end = 1;
    for t in 1..=8u64 {
        let (start, end) = get_thread_iter_bounds(8, t, 1, budget);
        assert_eq!(start, previous_end);
        assert_eq!(end - start, (budget - 1) / 8);
        previous_end = end;
    }
}

#[test]
fn birthday_search_succeeds_on_two_byte_suffix() {
    let state = AttackState::new(
        "Another big message",
        MessageTransform::AppendNumberInSequence(1),
    );
    let budget = 2 * birthday_budget(2, 0.95);
    let mut engine =
        Birthdays::build(1, state, 2, budget, 5, 0).expect("valid configuration");
    let running = CancelFlag::new();

    match engine.attack(&running) {
        AttackResult::CollisionSuccess(a, b) => {
            assert_ne!(a.message(), b.message());
            assert!(suffix_equal(&a, &b, 2));
        },
        _ => panic!("expected a collision within twice the expected budget"),
    }
}

#[test]
fn birthday_detects_injected_collision() {
    let state = AttackState::new("m", MessageTransform::Mutate);
    let engine = Birthdays::build(4, state, 3, 10, 0, 0).expect("valid configuration");
    let running = CancelFlag::new();

    let mut suffix_bytes = vec![0u8; 20];
    suffix_bytes[17] = 1;
    suffix_bytes[18] = 2;
    suffix_bytes[19] = 3;
    let mut other_bytes = vec![9u8; 20];
    other_bytes[17] = 1;
    other_bytes[18] = 2;
    other_bytes[19] = 3;

    let hashes = vec![
        MessageHash::new("first", HashValue::new(vec![7u8; 20])),
        MessageHash::new("planted", HashValue::new(suffix_bytes)),
        MessageHash::new("newest", HashValue::new(other_bytes)),
    ];
    match engine.search_collision(&hashes, &running) {
        AttackResult::CollisionSuccess(a, b) => {
            assert_eq!(a.message().as_str(), "newest");
            assert_eq!(b.message().as_str(), "planted");
        },
        _ => panic!("the planted suffix collision must be found"),
    }

    // Identical-message duplicates are not reported as collisions.
    let duplicate = vec![
        MessageHash::new("same", HashValue::new(vec![7u8; 20])),
        MessageHash::new("same", HashValue::new(vec![7u8; 20])),
    ];
    assert!(!engine.search_collision(&duplicate, &running).is_success());
}

#[test]
fn birthday_effective_thread_count_scales_down() {
    let state = AttackState::new("m", MessageTransform::Mutate);
    let engine = Birthdays::build(8, state, 2, 10, 0, 0).unwrap();
    assert_eq!(engine.effective_thread_count(100), 1);
    assert_eq!(engine.effective_thread_count(25_000), 2);
    assert_eq!(engine.effective_thread_count(100_000_000), 8);
}

#[test]
fn cancelled_engines_return_terminated() {
    let state = AttackState::new("m", MessageTransform::AppendNumberInSequence(1));
    let running = CancelFlag::new();
    running.cancel();

    let mut bruteforce = BruteForce::build(1, state.clone(), 5, 1_000_000_000, 30).unwrap();
    assert!(matches!(
        bruteforce.attack(&running),
        AttackResult::GeneralFailure("Attack terminated")
    ));

    let mut birthdays = Birthdays::build(1, state, 5, 1_000_000_000, 30, 0).unwrap();
    assert!(matches!(
        birthdays.attack(&running),
        AttackResult::GeneralFailure("Attack terminated")
    ));
}

#[test]
fn cancellation_stops_a_running_search() {
    let state = AttackState::new("m", MessageTransform::AppendNumberInSequence(1));
    // A five-byte suffix: the budget is in the millions of millions; only
    // cancellation can end this search.
    let mut engine = BruteForce::build(1, state, 5, 1_000_000_000_000, 0).unwrap();
    let running = CancelFlag::new();

    crossbeam::scope(|scope| {
        let canceller = running.handle();
        scope.spawn(move |_| {
            let started = Instant::now();
            while started.elapsed() < Duration::from_millis(200) {}
            canceller.cancel();
        });

        let result = engine.attack(&running);
        assert!(matches!(
            result,
            AttackResult::GeneralFailure("Attack terminated")
        ));
    })
    .unwrap();
}

fn build_hellman(
    message: &str,
    tables_number: TableNumber,
    chain_number: u64,
    chain_length: u64,
) -> Hellman {
    let state = AttackState::new(message, MessageTransform::AppendNumberInSequence(1));
    Hellman::build(
        state,
        2,
        16,
        tables_number,
        chain_number,
        chain_length,
        "tables",
        "bin",
    )
    .expect("valid configuration")
}

#[test]
fn hellman_rejects_bad_configuration() {
    let state = AttackState::new("m", MessageTransform::Mutate);
    assert!(matches!(
        Hellman::build(state.clone(), 21, 22, TableNumber::Generate(1), 4, 4, "t", "bin"),
        Err("Provided hash size is too large")
    ));
    assert!(matches!(
        Hellman::build(state.clone(), 2, 2, TableNumber::Generate(1), 4, 4, "t", "bin"),
        Err("Reduction function output can not be smaller than hash value")
    ));
    assert!(matches!(
        Hellman::build(state.clone(), 2, 16, TableNumber::Generate(0), 4, 4, "t", "bin"),
        Err("Number of tables on disk can not be zero")
    ));
    assert!(matches!(
        Hellman::build(state, 2, 16, TableNumber::Generate(1), 4, 4, "t", "xml"),
        Err("Invalid table file format")
    ));
}

#[test]
fn chain_walk_stride_independence() {
    let engine = build_hellman("m", TableNumber::Generate(1), 4, 16);
    let running = CancelFlag::new();
    let table = engine.create_preprocessing_table(&running);
    assert_eq!(table.prefix().len(), 14);
    assert_eq!(table.chain_count(), 4);

    let start = table.chain_at(0).0.clone();
    let end_in_one_call = engine.calculate_end_point(16, &start, table.prefix());
    assert_eq!(&end_in_one_call, &table.chain_at(0).1);

    let mut stepped = start;
    for _ in 0..16 {
        stepped = engine.calculate_end_point(1, &stepped, table.prefix());
    }
    assert_eq!(stepped, end_in_one_call);
}

#[test]
fn prefix_independence() {
    let state = AttackState::new("m", MessageTransform::Mutate);
    let engine = Hellman::build(state, 8, 16, TableNumber::Generate(1), 1, 1, "t", "bin")
        .expect("valid configuration");
    let prefix1 = hashattacks::hellman::generate_random_byte_vector(8);
    let mut prefix2 = hashattacks::hellman::generate_random_byte_vector(8);
    if prefix1 == prefix2 {
        prefix2[0] = prefix2[0].wrapping_add(1);
    }
    let point = hashattacks::hellman::generate_random_byte_vector(8);
    let step1 = engine.calculate_end_point(1, &point, &prefix1);
    let step2 = engine.calculate_end_point(1, &point, &prefix2);
    assert_ne!(step1, step2);
}

#[test]
fn hellman_attack_finds_embedded_preimage() {
    let chain_length: u64 = 16;
    // Embed a chain whose end point is the attack target: the very first
    // online iteration then finds it and rewalks the chain to the
    // penultimate point, whose prefixed hash is the target by construction.
    let probe = build_hellman("seed", TableNumber::Execute(2, 2), 64, chain_length);
    let running = CancelFlag::new();
    let mut crafted = probe.create_preprocessing_table(&running);
    let start_point = vec![17u8, 42u8];
    let end_point = probe.calculate_end_point(chain_length, &start_point, crafted.prefix());

    // Search a message whose truncated digest is that end point.
    let mut message = String::new();
    let mut found = false;
    let prober_state = AttackState::new("", MessageTransform::Mutate);
    for i in 0..4_000_000u64 {
        let candidate = format!("candidate{}", i);
        let digest = prober_state.hash_message(candidate.as_bytes());
        if digest.hash[18..20] == end_point[..] {
            message = candidate;
            found = true;
            break;
        }
    }
    assert!(found, "a two-byte suffix preimage exists within the scan");

    crafted.push(hashattacks::hellman::table::Chain::new(start_point, end_point));
    crafted.sort();

    let mut other = probe.create_preprocessing_table(&running);
    other.sort();

    let engine = build_hellman(&message, TableNumber::Execute(2, 2), 64, chain_length);
    let target = engine.initial_state().messagehash();
    let tables = vec![crafted, other];
    let (result, _) = engine.attack_in_memory(&tables, &running);
    match result {
        AttackResult::PreimageSuccess(preimage) => {
            assert_eq!(
                &preimage.hash_value().hash[18..20],
                &target.hash_value().hash[18..20]
            );
        },
        _ => panic!("the embedded chain must yield a preimage"),
    }
}

#[test]
fn hellman_attack_misses_unrelated_target() {
    let engine = build_hellman(
        "a target no tiny table covers 8237428347",
        TableNumber::Execute(1, 1),
        2,
        2,
    );
    let running = CancelFlag::new();
    let mut table = engine.create_preprocessing_table(&running);
    table.sort();
    let tables = vec![table];
    let (result, _) = engine.attack_in_memory(&tables, &running);
    assert!(matches!(
        result,
        AttackResult::GeneralFailure("Failed to find preimage")
    ));
}

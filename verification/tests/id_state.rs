use sqs::id_state::{
    encode_generated_id, id_space_size, next_sequence_value, parse_u128, stable_path_hash, GeneratorState,
    MAX_GENERATED_ID_WIDTH, MIN_GENERATED_ID_WIDTH,
};

#[test]
fn allocator_advances_to_wider_ids_after_exhaustion() {
    let mut state = GeneratorState {
        width: 3,
        next_value: 0,
        issued_count: 32u128.pow(3),
    };

    state
        .advance_width_if_exhausted()
        .expect("state should advance");

    assert_eq!(state.width, 4);
    assert_eq!(state.next_value, 0);
    assert_eq!(state.issued_count, 0);
}

#[test]
fn state_below_the_id_space_stays() {
    let mut state = GeneratorState { width: 3, next_value: 7, issued_count: 5 };
    state.advance_width_if_exhausted().expect("nothing to advance");
    assert_eq!(state, GeneratorState { width: 3, next_value: 7, issued_count: 5 });
}

#[test]
fn widest_width_cannot_advance() {
    let mut state = GeneratorState {
        width: MAX_GENERATED_ID_WIDTH,
        next_value: 0,
        issued_count: 32u128.pow(MAX_GENERATED_ID_WIDTH as u32),
    };
    assert!(state.advance_width_if_exhausted().is_err());
    assert_eq!(state.width, MAX_GENERATED_ID_WIDTH + 1);
}

#[test]
fn id_space_grows_by_thirty_two() {
    assert_eq!(id_space_size(3).ok(), Some(32768));
    assert_eq!(id_space_size(0).ok(), Some(1));
    assert!(id_space_size(MAX_GENERATED_ID_WIDTH).is_ok());
    assert!(id_space_size(MAX_GENERATED_ID_WIDTH + 1).is_err());
}

#[test]
fn ids_are_zero_padded_base_32() {
    assert_eq!(encode_generated_id(0, 3).unwrap(), "000");
    assert_eq!(encode_generated_id(31, 3).unwrap(), "00z");
    assert_eq!(encode_generated_id(32, 3).unwrap(), "010");
    assert_eq!(encode_generated_id(32767, 3).unwrap(), "zzz");
    assert_eq!(encode_generated_id(18, 2).unwrap(), "0j");
    assert!(encode_generated_id(0, MAX_GENERATED_ID_WIDTH + 1).is_err());
}

#[test]
fn sequence_wraps_around_the_id_space() {
    assert_eq!(next_sequence_value(0, 3).unwrap(), 1);
    assert_eq!(next_sequence_value(32767, 3).unwrap(), 0);
    assert_eq!(next_sequence_value(u128::MAX, 1).unwrap(), 0);
}

#[test]
fn parsing_follows_str_parse() {
    assert_eq!(parse_u128("42"), Some(42));
    assert_eq!(parse_u128("+7"), Some(7));
    assert_eq!(parse_u128(""), None);
    assert_eq!(parse_u128("+"), None);
    assert_eq!(parse_u128("-1"), None);
    assert_eq!(parse_u128("1 2"), None);
    assert_eq!(parse_u128("340282366920938463463374607431768211455"), Some(u128::MAX));
    assert_eq!(parse_u128("340282366920938463463374607431768211456"), None);
    for text in ["0", "9", "123456789", "+00", "x1", "1x", "٣"] {
        assert_eq!(parse_u128(text), text.parse::<u128>().ok(), "{text}");
    }
}

#[test]
fn allocator_recovers_from_corrupt_state_file() {
    let state = GeneratorState::from_persisted(0, "garbage", "").expect("state should load");
    assert_eq!(state, GeneratorState { width: MIN_GENERATED_ID_WIDTH, next_value: 0, issued_count: 0 });
    let mut state = state;
    let id = sqs::id_state::allocate_id(&mut state, &Vec::new()).expect("an id");
    assert_eq!(id, "000");
    assert_eq!(state.next_value, 1);
    assert_eq!(state.issued_count, 1);
}

#[test]
fn persisted_state_advances_when_exhausted() {
    let state = GeneratorState::from_persisted(3, "5", "32768").expect("state should load");
    assert_eq!(state, GeneratorState { width: 4, next_value: 0, issued_count: 0 });
}

#[test]
fn allocator_skips_existing_ids_when_state_is_missing() {
    let mut state = GeneratorState::default();
    let existing = vec!["000".to_string(), "001".to_string()];
    let id = sqs::id_state::allocate_id(&mut state, &existing).expect("an id");
    assert_ne!(id, "000");
    assert_eq!(id, "002");
    assert_eq!(id.len(), 3);
    assert_eq!(state.next_value, 3);
}

#[test]
fn allocator_widens_when_every_id_is_taken() {
    let mut state = GeneratorState { width: 1, next_value: 5, issued_count: 0 };
    let existing: Vec<String> = (0..32u128).map(|v| encode_generated_id(v, 1).unwrap()).collect();
    let id = sqs::id_state::allocate_id(&mut state, &existing).expect("an id");
    assert_eq!(id, "00");
    assert_eq!(state.width, 2);
}

#[test]
fn path_hash_is_fnv1a_in_hex() {
    assert_eq!(stable_path_hash(""), "cbf29ce484222325");
    assert_eq!(stable_path_hash("a"), "af63dc4c8601ec8c");
    assert_ne!(stable_path_hash("/tmp/tasks-a"), stable_path_hash("/tmp/tasks-b"));
    assert_eq!(stable_path_hash("/tmp/tasks").len(), 16);
}

#[test]
fn state_path_is_keyed_by_task_root() {
    let config_a = sqs::config::resolve(
        Some(std::path::PathBuf::from("/tmp/tasks-a")),
        None,
        Ok(None),
        None,
        &None,
    )
    .expect("config");
    let first = sqs::id_state::SharedIdAllocator::new(&config_a, "/tmp/tasks-a");
    let second = sqs::id_state::SharedIdAllocator::new(&config_a, "/tmp/tasks-b");
    assert_ne!(first.state_path(), second.state_path());
    assert!(first.state_path().display().to_string().contains(&stable_path_hash("/tmp/tasks-a")));
    assert!(first.state_path().starts_with("/tmp/tasks-a/.sqs/id-generator"));
    assert_eq!(first.lock_path().extension().and_then(|e| e.to_str()), Some("lock"));
}

#[test]
fn allocator_walks_cyclically_from_where_it_stopped() {
    let mut state = GeneratorState { width: 1, next_value: 31, issued_count: 4 };
    let existing = vec!["z".to_string(), "0".to_string()];
    let id = sqs::id_state::allocate_id(&mut state, &existing).expect("an id");
    assert_eq!(id, "1");
    assert_eq!(state, GeneratorState { width: 1, next_value: 2, issued_count: 5 });
}

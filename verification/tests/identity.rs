use sqs::identity::{fresh_id, id_from_draws, random_fresh_id, random_id};

fn new_id(existing: &Vec<String>) -> String {
    loop {
        if let Some(id) = random_fresh_id(existing) {
            return id;
        }
    }
}

#[test]
fn generates_correct_format() {
    let id = random_id();
    assert_eq!(id.len(), 4);
    assert!(id.chars().all(|c| c.is_ascii_digit() || c.is_ascii_lowercase()));
    let fresh = new_id(&Vec::new());
    assert_eq!(fresh.len(), 4);
    assert!(fresh.chars().all(|c| c.is_ascii_alphanumeric()));
}

#[test]
fn avoids_collisions() {
    let existing = vec!["x3km".to_string()];
    let id = new_id(&existing);
    assert_ne!(id, "x3km");
    assert_eq!(id.len(), 4);
}

#[test]
fn generates_unique_ids() {
    let existing: Vec<String> = Vec::new();
    let mut generated = std::collections::HashSet::new();
    for _ in 0..100 {
        let id = new_id(&existing);
        assert!(generated.insert(id.clone()), "duplicate id generated: {id}");
    }
}

#[test]
fn draws_vary() {
    let mut seen = std::collections::HashSet::new();
    for _ in 0..50 {
        seen.insert(random_id());
    }
    assert!(seen.len() > 1);
}

#[test]
fn id_spelled_by_draws() {
    assert_eq!(id_from_draws(&vec![33, 3, 20, 22]), "x3km");
    assert_eq!(id_from_draws(&vec![0, 9, 10, 35]), "09az");
}

#[test]
fn fresh_id_refuses_taken_ids() {
    let existing = vec!["x3km".to_string(), "0000".to_string()];
    assert_eq!(fresh_id(&vec![33, 3, 20, 22], &existing), None);
    assert_eq!(fresh_id(&vec![0, 0, 0, 0], &existing), None);
    assert_eq!(fresh_id(&vec![0, 0, 0, 1], &existing), Some("0001".to_string()));
}

use ruggers::ruggers::{RuggedGeneration, RuggedRecord};

/// Repeatedly storing stuff: each `store` call derives a new generation,
/// and in the end all data is there, each record with the correct birth_gen.
#[test]
fn test_store() {
    let gen = RuggedGeneration::new_root(1)
        .store(&String::from("Hallo1"), &String::from("omfg1"))
        .store(&String::from("Hallo2"), &String::from("omfg2"))
        .store(&String::from("Hallo3"), &String::from("omfg3"))
        .store(&String::from("Hallo4"), &String::from("omfg4"));
    assert_eq!(
        gen.get(&String::from("Hallo1")).unwrap(),
        RuggedRecord::new(1 + (16 * 1), String::from("Hallo1"), String::from("omfg1"))
    );
    assert_eq!(
        gen.get(&String::from("Hallo2")).unwrap(),
        RuggedRecord::new(1 + (16 * 2), String::from("Hallo2"), String::from("omfg2"))
    );
    assert_eq!(
        gen.get(&String::from("Hallo3")).unwrap(),
        RuggedRecord::new(1 + (16 * 3), String::from("Hallo3"), String::from("omfg3"))
    );
    assert_eq!(
        gen.get(&String::from("Hallo4")).unwrap(),
        RuggedRecord::new(1 + (16 * 4), String::from("Hallo4"), String::from("omfg4"))
    );
    assert_eq!(gen.this_gen(), 1 + (16 * 4));
    assert!(gen.get(&String::from("Hallo4")).unwrap().as_ref().birth_gen <= gen.this_gen());
}

/// A merge where the keys we receive don't exist locally.
#[test]
fn test_merge_success_new_key() {
    let rec3 = RuggedRecord::new(2 + (16 * 2), String::from("Hallo3"), String::from("yolo3"));
    let rec4 = RuggedRecord::new(2 + (16 * 3), String::from("Hallo4"), String::from("yolo4"));
    let gen = RuggedGeneration::new_root(1)
        .store(&String::from("Hallo1"), &String::from("omfg1"))
        .store(&String::from("Hallo2"), &String::from("omfg2"))
        .merge(rec3)
        .unwrap()
        .merge(rec4)
        .unwrap();
    assert_eq!(
        gen.get(&String::from("Hallo1")).unwrap(),
        RuggedRecord::new(1 + (16 * 1), String::from("Hallo1"), String::from("omfg1"))
    );
    assert_eq!(
        gen.get(&String::from("Hallo2")).unwrap(),
        RuggedRecord::new(1 + (16 * 2), String::from("Hallo2"), String::from("omfg2"))
    );
    assert_eq!(
        gen.get(&String::from("Hallo3")).unwrap(),
        RuggedRecord::new(2 + (16 * 2), String::from("Hallo3"), String::from("yolo3"))
    );
    assert_eq!(
        gen.get(&String::from("Hallo4")).unwrap(),
        RuggedRecord::new(2 + (16 * 3), String::from("Hallo4"), String::from("yolo4"))
    );
    assert_eq!(gen.this_gen(), 1 + (16 * 4));
    assert!(gen.get(&String::from("Hallo4")).unwrap().as_ref().birth_gen <= gen.this_gen());
}

/// A merge where the keys do exist locally, but do not cause a collision:
/// the remote records are newer than our own.
#[test]
fn test_merge_success_existing_key() {
    let rec3 = RuggedRecord::new(2 + (16 * 3), String::from("Hallo3"), String::from("yolo3"));
    let rec4 = RuggedRecord::new(2 + (16 * 4), String::from("Hallo4"), String::from("yolo4"));
    let gen = RuggedGeneration::new_root(1)
        .store(&String::from("Hallo1"), &String::from("omfg1"))
        .store(&String::from("Hallo2"), &String::from("omfg2"))
        .store(&String::from("Hallo3"), &String::from("omfg3"))
        .store(&String::from("Hallo4"), &String::from("omfg4"))
        .merge(rec3)
        .unwrap()
        .merge(rec4)
        .unwrap();
    assert_eq!(
        gen.get(&String::from("Hallo1")).unwrap(),
        RuggedRecord::new(1 + (16 * 1), String::from("Hallo1"), String::from("omfg1"))
    );
    assert_eq!(
        gen.get(&String::from("Hallo2")).unwrap(),
        RuggedRecord::new(1 + (16 * 2), String::from("Hallo2"), String::from("omfg2"))
    );
    assert_eq!(
        gen.get(&String::from("Hallo3")).unwrap(),
        RuggedRecord::new(2 + (16 * 3), String::from("Hallo3"), String::from("yolo3"))
    );
    assert_eq!(
        gen.get(&String::from("Hallo4")).unwrap(),
        RuggedRecord::new(2 + (16 * 4), String::from("Hallo4"), String::from("yolo4"))
    );
    assert_eq!(gen.this_gen(), 1 + (16 * 6));
    assert!(gen.get(&String::from("Hallo4")).unwrap().as_ref().birth_gen <= gen.this_gen());
}

/// A merge where the keys exist locally and do cause a collision:
/// the remote records are older than our own, so nothing changes.
#[test]
fn test_merge_failed_existing_key() {
    let rec3 = RuggedRecord::new(2 + (16 * 1), String::from("Hallo3"), String::from("yolo3"));
    let rec4 = RuggedRecord::new(2 + (16 * 3), String::from("Hallo4"), String::from("yolo4"));
    let gen = RuggedGeneration::new_root(1)
        .store(&String::from("Hallo1"), &String::from("omfg1"))
        .store(&String::from("Hallo2"), &String::from("omfg2"))
        .store(&String::from("Hallo3"), &String::from("omfg3"))
        .store(&String::from("Hallo4"), &String::from("omfg4"));
    assert_eq!(gen.merge(rec3), None);
    assert_eq!(gen.merge(rec4), None);
    assert_eq!(
        gen.get(&String::from("Hallo1")).unwrap(),
        RuggedRecord::new(1 + (16 * 1), String::from("Hallo1"), String::from("omfg1"))
    );
    assert_eq!(
        gen.get(&String::from("Hallo2")).unwrap(),
        RuggedRecord::new(1 + (16 * 2), String::from("Hallo2"), String::from("omfg2"))
    );
    assert_eq!(
        gen.get(&String::from("Hallo3")).unwrap(),
        RuggedRecord::new(1 + (16 * 3), String::from("Hallo3"), String::from("omfg3"))
    );
    assert_eq!(
        gen.get(&String::from("Hallo4")).unwrap(),
        RuggedRecord::new(1 + (16 * 4), String::from("Hallo4"), String::from("omfg4"))
    );
    assert_eq!(gen.this_gen(), 1 + (16 * 4));
    assert!(gen.get(&String::from("Hallo4")).unwrap().as_ref().birth_gen <= gen.this_gen());
}

/// A merge of newer records for existing keys, where the peer's records
/// come out of another generation tree instead of being crafted by hand.
#[test]
fn test_merge_two_gen_trees() {
    let gen_b = RuggedGeneration::new_root(2)
        .store(&String::from("Hallo1"), &String::from("omfg1"))
        .store(&String::from("Hallo2"), &String::from("omfg2"))
        .store(&String::from("Hallo3"), &String::from("omfg3"))
        .store(&String::from("Hallo4"), &String::from("omfg4"))
        .store(&String::from("Hallo3"), &String::from("yolo3"))
        .store(&String::from("Hallo4"), &String::from("yolo4"));
    let gen_a = RuggedGeneration::new_root(1)
        .store(&String::from("Hallo1"), &String::from("omfg1"))
        .store(&String::from("Hallo2"), &String::from("omfg2"))
        .store(&String::from("Hallo3"), &String::from("omfg3"))
        .store(&String::from("Hallo4"), &String::from("omfg4"))
        .merge(gen_b.get(&String::from("Hallo3")).unwrap())
        .unwrap()
        .merge(gen_b.get(&String::from("Hallo4")).unwrap())
        .unwrap()
        .store(&String::from("Hallo5"), &String::from("omfg5"));
    assert_eq!(
        gen_a.get(&String::from("Hallo1")).unwrap(),
        RuggedRecord::new(1 + (16 * 1), String::from("Hallo1"), String::from("omfg1"))
    );
    assert_eq!(
        gen_a.get(&String::from("Hallo2")).unwrap(),
        RuggedRecord::new(1 + (16 * 2), String::from("Hallo2"), String::from("omfg2"))
    );
    assert_eq!(
        gen_a.get(&String::from("Hallo3")).unwrap(),
        RuggedRecord::new(2 + (16 * 5), String::from("Hallo3"), String::from("yolo3"))
    );
    assert_eq!(
        gen_a.get(&String::from("Hallo4")).unwrap(),
        RuggedRecord::new(2 + (16 * 6), String::from("Hallo4"), String::from("yolo4"))
    );
    assert_eq!(
        gen_a.get(&String::from("Hallo5")).unwrap(),
        RuggedRecord::new(1 + (16 * 7), String::from("Hallo5"), String::from("omfg5"))
    );
    assert_eq!(gen_a.this_gen(), 1 + (16 * 7));
    assert!(gen_a.get(&String::from("Hallo4")).unwrap().as_ref().birth_gen <= gen_a.this_gen());
}

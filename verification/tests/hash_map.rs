use algorithms::hash_map::HashMap;

#[test]
fn test_hash_map_without_collisions() {
    let mut hash_map: HashMap<u32> = HashMap::new();

    // If no value, get should return None
    assert_eq!(hash_map.get("Apple".to_string()), None);

    // If there is a value, get should return it
    hash_map.set("Apples".to_string(), 3);
    assert_eq!(hash_map.get("Apples".to_string()), Some(&3));

    // If setting on an existing value, it should update it
    hash_map.set("Apples".to_string(), 10);
    assert_eq!(hash_map.get("Apples".to_string()), Some(&10));

    // Delete an existing value should remove it and return it
    assert_eq!(hash_map.delete("Apples".to_string()), Some(10));
    assert_eq!(hash_map.get("Apples".to_string()), None);
}

#[test]
fn test_hash_map_with_collisions() {
    let mut hash_map: HashMap<u32> = HashMap::new();

    // Everything should work if there is several values in
    // one bucket (when there is collisions)
    assert_eq!(HashMap::<u32>::hash(&"Apples".to_string()), 1);
    assert_eq!(HashMap::<u32>::hash(&"Melons".to_string()), 1);
    hash_map.set("Melons".to_string(), 3);

    // If no value, get should return None
    assert_eq!(hash_map.get("Apple".to_string()), None);

    // If there is a value, get should return it
    hash_map.set("Apples".to_string(), 3);
    assert_eq!(hash_map.get("Apples".to_string()), Some(&3));

    // If setting on an existing value, it should update it
    hash_map.set("Apples".to_string(), 10);
    assert_eq!(hash_map.get("Apples".to_string()), Some(&10));

    // Delete an existing value should remove it and return it
    assert_eq!(hash_map.delete("Apples".to_string()), Some(10));
    assert_eq!(hash_map.get("Apples".to_string()), None);
}

#[test]
fn hash_map_hashes_the_first_hundred_characters_only() {
    assert_eq!(HashMap::<u32>::hash(&"".to_string()), 0);
    assert_eq!(HashMap::<u32>::hash(&"a".to_string()), 1);
    assert_eq!(HashMap::<u32>::hash(&"b".to_string()), 2);
    assert_eq!(HashMap::<u32>::hash(&"ab".to_string()), 0);
    let long = "b".repeat(100);
    assert_eq!(
        HashMap::<u32>::hash(&(long.clone() + "a")),
        HashMap::<u32>::hash(&(long.clone() + "zzz"))
    );
    assert_eq!(HashMap::<u32>::hash(&(long.clone() + "a")), HashMap::<u32>::hash(&long));
}

#[test]
fn hash_map_keeps_the_other_keys() {
    let mut hash_map: HashMap<String> = HashMap::new();
    assert_eq!(hash_map.key_map.len(), 3);
    hash_map.set("Melons".to_string(), "m".to_string());
    hash_map.set("Apples".to_string(), "a".to_string());
    hash_map.set("b".to_string(), "b".to_string());
    assert_eq!(hash_map.key_map[1].len(), 2);
    assert_eq!(hash_map.key_map[2].len(), 1);
    assert_eq!(hash_map.delete("Pears".to_string()), None);
    assert_eq!(hash_map.delete("Melons".to_string()), Some("m".to_string()));
    assert_eq!(hash_map.get("Apples".to_string()), Some(&"a".to_string()));
    assert_eq!(hash_map.get("b".to_string()), Some(&"b".to_string()));
    assert_eq!(hash_map.get("Melons".to_string()), None);
    assert_eq!(hash_map.key_map[1].len(), 1);
}

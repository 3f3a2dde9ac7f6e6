use bfvm::enigma::{
    _standardize_ascii_text, coincidence_counts, convert_plugboard_to_string, decrypt, get_all_rotor_orderings,
    EnigmaEncryptionKey,
};

fn sample_key() -> EnigmaEncryptionKey {
    EnigmaEncryptionKey {
        reflector: 'B',
        rotors: (1, 2, 3),
        ring_positions: (5, 22, 3),
        ring_settings: (10, 12, 14),
        plugboard: String::from("BY EW FZ GI QM RV UX"),
    }
}

#[test]
fn decrypt_known_message() {
    let key = sample_key();
    assert!(key.is_usable());
    assert_eq!(decrypt(&key, "KDZVKMNTYQJPHFXI"), "TOPSECRETMESSAGE");
}

#[test]
fn decrypt_is_its_own_inverse() {
    let key = sample_key();
    let once = decrypt(&key, "HELLOWORLD");
    assert_ne!(once, "HELLOWORLD");
    assert_eq!(decrypt(&key, &once), "HELLOWORLD");
}

#[test]
fn usable_keys_are_recognised() {
    let mut key = sample_key();
    assert!(key.is_usable());
    key.ring_settings = (0, 1, 1);
    assert!(!key.is_usable());
    let mut key = sample_key();
    key.rotors = (1, 9, 3);
    assert!(!key.is_usable());
    let mut key = sample_key();
    key.reflector = 'D';
    assert!(!key.is_usable());
    let mut key = sample_key();
    key.plugboard = String::from("AA");
    assert!(!key.is_usable());
    key.plugboard = String::from("AB  CD");
    assert!(!key.is_usable());
    key.plugboard = String::new();
    assert!(key.is_usable());
}

#[test]
fn plugboard_pairs_are_joined_with_spaces() {
    assert_eq!(convert_plugboard_to_string(&vec![]), "");
    assert_eq!(convert_plugboard_to_string(&vec![('A', 'B')]), "AB");
    assert_eq!(convert_plugboard_to_string(&vec![('A', 'B'), ('C', 'D'), ('E', 'F')]), "AB CD EF");
}

#[test]
fn standardize_keeps_letters_upper_case() {
    assert_eq!(_standardize_ascii_text("Hello, World! 42"), "HELLOWORLD");
    assert_eq!(_standardize_ascii_text(""), "");
    assert_eq!(_standardize_ascii_text("é z"), "Z");
}

#[test]
fn rotor_orderings_are_all_distinct_triples() {
    let keys = get_all_rotor_orderings();
    assert_eq!(keys.len(), 24);
    assert_eq!(keys[0].rotors, (1, 2, 3));
    assert_eq!(keys[1].rotors, (1, 2, 4));
    assert_eq!(keys[23].rotors, (4, 3, 2));
    for k in &keys {
        assert_eq!(k.reflector, 'B');
        assert_eq!(k.ring_positions, (1, 1, 1));
        assert_eq!(k.ring_settings, (1, 1, 1));
        assert!(k.plugboard.is_empty());
    }
}

#[test]
fn coincidence_counts_pairs_of_equal_letters() {
    assert_eq!(coincidence_counts("AABBC"), (4, 20));
    assert_eq!(coincidence_counts("aA b!"), (2, 6));
    assert_eq!(coincidence_counts("x"), (0, 0));
    assert_eq!(coincidence_counts(""), (0, 0));
    assert_eq!(coincidence_counts("ZZZ"), (6, 6));
}

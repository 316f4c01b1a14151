use merkle_tree::{
    convert_to_felt, felt_to_b16, hash, leaf_value, string_to_hex, Attribute, Felt, MerkleTree,
    Token,
};

fn felt(x: u128) -> Felt {
    Felt::from_u128(x)
}

fn text(s: &str) -> Felt {
    convert_to_felt(s).expect("short text fits in a field element")
}

fn token(id: u128, name: &str, attrs: &[(&str, &str)]) -> Token {
    let attributes = attrs
        .iter()
        .map(|(k, v)| Attribute { trait_type: text(k), value: text(v) })
        .collect();
    Token { token_id: felt(id), name: text(name), attributes }
}

fn sample(n: u128) -> Vec<Token> {
    (1..=n)
        .map(|i| {
            token(
                i,
                &format!("token{}", i),
                &[("birthplace", &format!("city{}", i)), ("occupation", "smith")],
            )
        })
        .collect()
}

fn fold(leaf: Felt, proof: &[Felt]) -> Felt {
    let mut acc = leaf;
    for p in proof {
        acc = hash(&acc, p);
    }
    acc
}

fn assert_round_trip(tokens: &[Token]) {
    let tree = MerkleTree::new(tokens.to_vec());
    let root = tree.root_value();
    for t in tokens {
        let proof = tree.proof_for(&t.token_id).expect("every token has a proof");
        assert_eq!(fold(leaf_value(t), &proof).bytes, root.bytes);
    }
}

#[test]
fn three_records() {
    let tokens = vec![
        token(1, "alice", &[("birthplace", "rome")]),
        token(2, "bob", &[("birthplace", "oslo"), ("ethnicity", "none")]),
        token(3, "carol", &[("occupation", "baker")]),
    ];
    let tree = MerkleTree::new(tokens.clone());
    let proof = tree.proof_for(&felt(2)).unwrap();
    assert_eq!(proof.len(), 2);
    let leaf = leaf_value(&tokens[1]);
    assert_eq!(fold(leaf, &proof).bytes, tree.root_value().bytes);
}

#[test]
fn three_records_shape() {
    let tokens = sample(3);
    let l: Vec<Felt> = tokens.iter().map(leaf_value).collect();
    let a = hash(&l[2], &l[2]);
    let b = hash(&l[1], &l[0]);
    let root = hash(&a, &b);
    let tree = MerkleTree::new(tokens);
    assert_eq!(tree.root_value().bytes, root.bytes);
}

#[test]
fn singleton_root_is_leaf_paired_with_itself() {
    let tokens = sample(1);
    let leaf = leaf_value(&tokens[0]);
    let tree = MerkleTree::new(tokens);
    assert_eq!(tree.root_value().bytes, hash(&leaf, &leaf).bytes);
    assert_ne!(tree.root_value().bytes, leaf.bytes);
    let proof = tree.proof_for(&felt(1)).unwrap();
    assert_eq!(proof.len(), 1);
    assert_eq!(proof[0].bytes, leaf.bytes);
}

#[test]
fn round_trip_for_several_sizes() {
    for n in [1u128, 2, 3, 4, 5, 7, 8, 9] {
        assert_round_trip(&sample(n));
    }
}

#[test]
fn completeness_every_id_has_a_proof() {
    for n in [1u128, 2, 3, 5] {
        let tree = MerkleTree::new(sample(n));
        for i in 1..=n {
            assert!(tree.proof_for(&felt(i)).is_some());
            assert!(tree.token_calldata(i).is_ok());
        }
        assert!(tree.proof_for(&felt(n + 1)).is_none());
        assert!(tree.proof_for(&felt(0)).is_none());
    }
}

#[test]
fn determinism() {
    let t1 = MerkleTree::new(sample(5));
    let t2 = MerkleTree::new(sample(5));
    assert_eq!(t1.root_value().bytes, t2.root_value().bytes);
    for i in 1..=5u128 {
        assert_eq!(t1.token_calldata(i).unwrap().proof, t2.token_calldata(i).unwrap().proof);
    }
}

#[test]
fn missing_id_is_an_error() {
    let tree = MerkleTree::new(sample(3));
    match tree.token_calldata(42) {
        Err(e) => assert_eq!(e, "Token ID not found in tree"),
        Ok(_) => panic!("an absent id has no proof"),
    }
}

#[test]
fn calldata_is_hex_of_proof() {
    let tree = MerkleTree::new(sample(4));
    let proof = tree.proof_for(&felt(3)).unwrap();
    let calldata = tree.token_calldata(3).unwrap();
    assert_eq!(calldata.proof.len(), proof.len());
    for (s, p) in calldata.proof.iter().zip(proof.iter()) {
        assert_eq!(s, &felt_to_b16(p));
        assert!(s.starts_with("0x"));
    }
}

#[test]
fn attribute_order_changes_leaf() {
    let a = token(7, "dana", &[("birthplace", "lima"), ("occupation", "smith")]);
    let b = token(7, "dana", &[("occupation", "smith"), ("birthplace", "lima")]);
    assert_ne!(leaf_value(&a).bytes, leaf_value(&b).bytes);
}

#[test]
fn hash_is_symmetric_and_not_an_argument() {
    let a = felt(1);
    let b = felt(2);
    let h = hash(&a, &b);
    assert_eq!(h.bytes, hash(&b, &a).bytes);
    assert_ne!(h.bytes, a.bytes);
    assert_ne!(h.bytes, b.bytes);
}

#[test]
fn hex_rendering() {
    assert_eq!(felt_to_b16(&felt(0)), "0x0");
    assert_eq!(felt_to_b16(&felt(255)), "0xff");
    assert_eq!(felt_to_b16(&felt(4096)), "0x1000");
    assert_eq!(felt_to_b16(&felt(u128::MAX)), "0xffffffffffffffffffffffffffffffff");
}

#[test]
fn text_encoding() {
    assert_eq!(string_to_hex("ab"), "0x6162");
    assert_eq!(string_to_hex(""), "0x");
    assert_eq!(felt_to_b16(&text("A")), "0x41");
    assert_eq!(felt_to_b16(&text("")), "0x0");
    assert_eq!(text("ab").bytes, felt(0x6162).bytes);
}

#[test]
fn text_too_large_for_the_field() {
    assert!(convert_to_felt(&"z".repeat(33)).is_none());
    assert!(convert_to_felt(&"z".repeat(32)).is_none());
    assert!(convert_to_felt(&"z".repeat(31)).is_some());
    assert!(convert_to_felt("\u{7}zzzzzzzzzzzzzzzzzzzzzzzzzzzzzzz").is_some());
}

#[test]
fn felt_order() {
    assert!(felt(1).lt(&felt(2)));
    assert!(!felt(2).lt(&felt(1)));
    assert!(!felt(3).lt(&felt(3)));
    assert!(felt(255).lt(&felt(256)));
    assert!(felt(3).same(&felt(3)));
    assert!(!felt(3).same(&felt(4)));
}

use client_core::encrypted_value::{
    EncodedModularNumber, EncryptedNadaType, EncryptedNadaValue, EncryptedValue,
    PrivateKeyShare,
};
use client_core::modular::{decode_i64, decode_u64_field, EncodedModulo};
use client_core::programs::extract_program_metadata;
use client_core::values::{Array, EddsaSignature, NadaType, NadaValue};
use client_core::{PartyId, SecretMasker, ValueError};

/// The compressed encoding of the secp256k1 base point.
fn secp_base_point() -> Vec<u8> {
    vec![
        0x02, 0x79, 0xBE, 0x66, 0x7E, 0xF9, 0xDC, 0xBB, 0xAC, 0x55, 0xA0, 0x62, 0x95, 0xCE,
        0x87, 0x0B, 0x07, 0x02, 0x9B, 0xFC, 0xDB, 0x2D, 0xCE, 0x28, 0xD9, 0x59, 0xF2, 0x81,
        0x5B, 0x16, 0xF8, 0x17, 0x98,
    ]
}

/// The encoding of the ed25519 base point.
fn ed_base_point() -> Vec<u8> {
    let mut p = vec![0x58u8];
    p.extend(vec![0x66u8; 31]);
    p
}

fn parties(n: usize) -> Vec<PartyId> {
    let mut out = Vec::new();
    let mut i = 0u8;
    while (i as usize) < n {
        out.push(PartyId::from_bytes(vec![i + 1]));
        i += 1;
    }
    out
}

#[test]
fn round_trip_share_integer() {
    let m = EncodedModulo::U64SafePrime;
    let num = EncodedModularNumber::new_checked(vec![9, 0, 0, 0, 0, 0, 0, 0], m).unwrap();
    let value = EncryptedValue::ShamirShareInteger(num);
    let wire = EncryptedNadaValue::new(&value).unwrap();
    let back = wire.into_nada_value(&m).unwrap();
    assert_eq!(back, value);
}

#[test]
fn round_trip_public_number_and_blob() {
    let m = EncodedModulo::U128SafePrime;
    let num = EncodedModularNumber::new_checked(vec![7u8; 16], m).unwrap();
    let chunk = EncodedModularNumber::new_checked(
        vec![1, 2, 3, 4, 5, 6, 7, 8, 9, 10, 11, 12, 13, 14, 15, 0],
        m,
    )
    .unwrap();
    let blob = EncryptedValue::SecretBlob { values: vec![chunk], unencoded_size: 15 };
    for value in [EncryptedValue::UnsignedInteger(num), blob] {
        let wire = EncryptedNadaValue::new(&value).unwrap();
        let back = wire.into_nada_value(&m).unwrap();
        assert_eq!(back, value);
    }
}

#[test]
fn round_trip_composites_and_curve_values() {
    let m = EncodedModulo::U64SafePrime;
    let num = EncodedModularNumber::new_checked(vec![3, 1, 0, 0, 0, 0, 0, 0], m).unwrap();
    let share = PrivateKeyShare::validate_ecdsa(
        1,
        vec![7u8; 32],
        secp_base_point(),
        vec![secp_base_point()],
    )
    .unwrap();
    let ed_share = PrivateKeyShare::validate_eddsa(
        1,
        vec![5u8; 31].into_iter().chain(vec![0u8]).collect(),
        ed_base_point(),
        vec![ed_base_point()],
    )
    .unwrap();
    let values = vec![
        EncryptedValue::Array {
            inner_type: NadaType::ShamirShareInteger,
            values: vec![
                EncryptedValue::ShamirShareInteger(num.duplicate()),
                EncryptedValue::ShamirShareInteger(num.duplicate()),
            ],
        },
        EncryptedValue::Tuple {
            left: Box::new(EncryptedValue::Integer(num.duplicate())),
            right: Box::new(EncryptedValue::EddsaMessage(vec![1, 2, 3])),
        },
        EncryptedValue::EcdsaDigestMessage(vec![8u8; 32]),
        EncryptedValue::EcdsaPublicKey(vec![2u8; 33]),
        EncryptedValue::StoreId(vec![4u8; 16]),
        EncryptedValue::EddsaPublicKey(vec![9u8; 32]),
        EncryptedValue::EcdsaSignature { r: vec![1u8; 32], sigma: vec![2u8; 32] },
        EncryptedValue::EddsaSignature { r: ed_base_point(), z: vec![3u8; 32] },
        EncryptedValue::EcdsaPrivateKey(share),
        EncryptedValue::EddsaPrivateKey(ed_share),
    ];
    for value in values {
        let wire = EncryptedNadaValue::new(&value).unwrap();
        let back = wire.into_nada_value(&m).unwrap();
        assert_eq!(back, value);
    }
}

#[test]
fn fixed_width_rejection_digest() {
    let m = EncodedModulo::U64SafePrime;
    for bad in [31usize, 33] {
        let wire = EncryptedNadaValue::EcdsaMessageDigest { value: vec![1u8; bad] };
        assert_eq!(wire.into_nada_value(&m), Err(ValueError::FormatError));
    }
    let wire = EncryptedNadaValue::EcdsaMessageDigest { value: vec![1u8; 32] };
    assert!(wire.into_nada_value(&m).is_ok());
}

#[test]
fn key_share_validation() {
    // A zero secret scalar is turned away.
    let r = PrivateKeyShare::validate_ecdsa(
        1,
        vec![0u8; 32],
        secp_base_point(),
        vec![secp_base_point()],
    );
    assert_eq!(r.err(), Some(ValueError::KeyShareInvalid));
    // A byte string that is no curve point is turned away.
    let r = PrivateKeyShare::validate_ecdsa(1, vec![7u8; 32], vec![0xffu8; 33], vec![]);
    assert_eq!(r.err(), Some(ValueError::KeyShareInvalid));
    // A non-zero scalar with valid non-zero points passes.
    let r = PrivateKeyShare::validate_ecdsa(
        1,
        vec![7u8; 32],
        secp_base_point(),
        vec![secp_base_point(), secp_base_point()],
    );
    assert!(r.is_ok());
    // The same rules over the other curve.
    assert_eq!(
        PrivateKeyShare::validate_eddsa(1, vec![0u8; 32], ed_base_point(), vec![])
            .err(),
        Some(ValueError::KeyShareInvalid)
    );
    assert!(
        PrivateKeyShare::validate_eddsa(
            1,
            vec![5u8; 31].into_iter().chain(vec![0u8]).collect(),
            ed_base_point(),
            vec![ed_base_point()]
        )
        .is_ok()
    );
}

#[test]
fn invalid_point_rejected_in_wire_decode() {
    let m = EncodedModulo::U64SafePrime;
    let wire = EncryptedNadaValue::EcdsaPrivateKey {
        i: 1,
        x: vec![7u8; 32],
        shared_public_key: vec![0xffu8; 33],
        public_shares: vec![],
    };
    assert_eq!(wire.into_nada_value(&m), Err(ValueError::KeyShareInvalid));
}

#[test]
fn jar_completeness() {
    let masker =
        SecretMasker::new_64_bit_safe_prime(1, parties(2)).unwrap();
    let mut jar = masker.build_jar();
    assert!(!jar.is_full());
    assert!(jar.add_element(PartyId::from_bytes(vec![1]), Vec::new()).is_ok());
    assert!(!jar.is_full());
    // A party that already contributed is turned away, and nothing changes.
    assert_eq!(
        jar.add_element(PartyId::from_bytes(vec![1]), Vec::new()),
        Err(ValueError::DuplicateParty)
    );
    assert!(!jar.is_full());
    assert!(jar.add_element(PartyId::from_bytes(vec![2]), Vec::new()).is_ok());
    assert!(jar.is_full());
}

#[test]
fn mask_replicates_public_and_classifies() {
    let masker = SecretMasker::new_64_bit_safe_prime(1, parties(3)).unwrap();
    let values = vec![
        ("x".to_string(), NadaValue::SecretInteger(22)),
        ("y".to_string(), NadaValue::Integer(5)),
    ];
    let classification = masker.classify_values(&values);
    assert_eq!(classification.shares, 1);
    assert_eq!(classification.public, 1);
    assert_eq!(classification.ecdsa_private_key_shares, 0);
    assert_eq!(classification.ecdsa_signature_shares, 0);
    let masked = masker.mask(&values).unwrap();
    assert_eq!(masked.len(), 3);
    for (_, named) in &masked {
        assert_eq!(named.len(), 2);
        assert_eq!(named[1].0, "y");
        match &named[1].1 {
            EncryptedValue::Integer(num) => {
                // Every party's public value decodes to the same integer.
                assert_eq!(decode_i64(num.as_bytes(), &EncodedModulo::U64SafePrime), Some(5));
            }
            other => panic!("expected a public integer, got {:?}", other),
        }
    }
}

#[test]
fn mask_unmask_identity_scalars() {
    let masker = SecretMasker::new_64_bit_safe_prime(1, parties(3)).unwrap();
    let values = vec![("x".to_string(), NadaValue::SecretInteger(22))];
    let masked = masker.mask(&values).unwrap();
    let mut jar = masker.build_jar();
    for (party, named) in masked {
        jar.add_element(party, named).unwrap();
    }
    let clear = masker.unmask(jar).unwrap();
    assert_eq!(clear.len(), 1);
    assert_eq!(clear[0].0, "x");
    assert_eq!(clear[0].1, NadaValue::SecretInteger(22));
}

#[test]
fn mask_unmask_identity_rich_values() {
    let masker = SecretMasker::new_128_bit_safe_prime(1, parties(2)).unwrap();
    let values = vec![
        ("a".to_string(), NadaValue::SecretUnsignedInteger(77)),
        ("b".to_string(), NadaValue::SecretBoolean(true)),
        ("c".to_string(), NadaValue::SecretBlob(vec![1, 2, 3, 4, 5])),
        (
            "d".to_string(),
            NadaValue::Array {
                inner_type: NadaType::SecretInteger,
                values: vec![NadaValue::SecretInteger(-9), NadaValue::SecretInteger(40)],
            },
        ),
        (
            "e".to_string(),
            NadaValue::Tuple {
                left: Box::new(NadaValue::Integer(-3)),
                right: Box::new(NadaValue::UnsignedInteger(12)),
            },
        ),
        ("f".to_string(), NadaValue::EcdsaPrivateKey(vec![7u8; 32])),
        (
            "g".to_string(),
            NadaValue::EddsaPrivateKey(vec![5u8; 31].into_iter().chain(vec![0u8]).collect()),
        ),
        (
            "h".to_string(),
            NadaValue::EcdsaSignature { r: vec![1u8; 32], s: vec![2u8; 32] },
        ),
        (
            "i".to_string(),
            NadaValue::EddsaSignature { r: ed_base_point(), z: vec![3u8; 32] },
        ),
        ("j".to_string(), NadaValue::EcdsaDigestMessage(vec![8u8; 32])),
        ("k".to_string(), NadaValue::StoreId(vec![4u8; 16])),
        ("l".to_string(), NadaValue::EddsaPublicKey(vec![6u8; 32])),
        ("m".to_string(), NadaValue::EddsaMessage(vec![1u8; 45])),
        ("n".to_string(), NadaValue::EcdsaPublicKey(vec![2u8; 33])),
        ("o".to_string(), NadaValue::Boolean(false)),
    ];
    let masked = masker.mask(&values).unwrap();
    let mut jar = masker.build_jar();
    for (party, named) in masked {
        jar.add_element(party, named).unwrap();
    }
    let clear = masker.unmask(jar).unwrap();
    assert_eq!(clear.len(), values.len());
    for (k, (name, value)) in values.iter().enumerate() {
        assert_eq!(&clear[k].0, name);
        assert_eq!(&clear[k].1, value);
    }
}

#[test]
fn unmask_incomplete_jar_fails() {
    let masker = SecretMasker::new_64_bit_safe_prime(1, parties(2)).unwrap();
    let jar = masker.build_jar();
    assert_eq!(masker.unmask(jar), Err(ValueError::IncompleteJar));
}

#[test]
fn masker_rejects_bad_rosters() {
    // An empty roster.
    assert_eq!(
        SecretMasker::new_64_bit_safe_prime(0, Vec::new()).err(),
        Some(ValueError::MaskingError)
    );
    // A duplicate party.
    let dup = vec![PartyId::from_bytes(vec![1]), PartyId::from_bytes(vec![1])];
    assert_eq!(
        SecretMasker::new_64_bit_safe_prime(1, dup).err(),
        Some(ValueError::MaskingError)
    );
    // A degree at or above the roster size.
    assert_eq!(
        SecretMasker::new_64_bit_safe_prime(3, parties(3)).err(),
        Some(ValueError::MaskingError)
    );
}

#[test]
fn mask_rejects_oversized_numeric() {
    // The largest unsigned word does not fit below the 64-bit prime.
    let masker = SecretMasker::new_64_bit_safe_prime(1, parties(2)).unwrap();
    let values = vec![("x".to_string(), NadaValue::SecretUnsignedInteger(u64::MAX))];
    assert_eq!(masker.mask(&values).err(), Some(ValueError::MaskingError));
    // Under a wider prime the same value masks fine.
    let masker = SecretMasker::new_256_bit_safe_prime(1, parties(2)).unwrap();
    assert!(masker.mask(&values).is_ok());
}

#[test]
fn array_consistency() {
    // Mixed element types are turned away.
    let mixed = Array::new(vec![NadaValue::Integer(1), NadaValue::Boolean(true)]);
    assert!(mixed.is_err());
    // No elements at all is turned away.
    let empty = Array::new(Vec::new());
    assert!(empty.is_err());
    // Same-typed elements pass, and the declared size is the element count.
    let ok = Array::new(vec![NadaValue::Integer(1), NadaValue::Integer(2)]).unwrap();
    assert_eq!(ok.__len__(), 2);
    assert_eq!(ok.__str__(), "[Integer, Integer]");
    assert_eq!(ok.__repr__(), "Array[Integer, Integer]");
}

#[test]
fn wire_type_round_trip() {
    let t = NadaType::Array {
        inner_type: Box::new(NadaType::ShamirShareInteger),
        size: 4,
    };
    let wire = EncryptedNadaType::new(&t).unwrap();
    assert_eq!(wire.into_nada_type(), Ok(t));
    assert_eq!(wire.__str__(), "Array");
    // A purely clear secret type has no byte-facing form.
    assert_eq!(
        EncryptedNadaType::new(&NadaType::SecretInteger),
        Err(ValueError::UnsupportedVariant)
    );
}

#[test]
fn invalid_signature_point_rejected() {
    // All-ones bytes are no ed25519 point encoding.
    let r = EddsaSignature::new(vec![0xffu8; 32], vec![1u8; 32]);
    assert_eq!(r.err(), Some(ValueError::FormatError));
}

#[test]
fn unsigned_round_trip_through_wire() {
    let m = EncodedModulo::U64SafePrime;
    let num = EncodedModularNumber::new_checked(vec![44, 1, 0, 0, 0, 0, 0, 0], m).unwrap();
    let wire = EncryptedNadaValue::new(&EncryptedValue::UnsignedInteger(num)).unwrap();
    match wire.into_nada_value(&m).unwrap() {
        EncryptedValue::UnsignedInteger(n) => {
            assert_eq!(decode_u64_field(n.as_bytes(), &m), Some(300));
        }
        other => panic!("expected an unsigned integer, got {:?}", other),
    }
}

#[test]
fn program_metadata_extraction() {
    // An eight-byte memory size, then four instructions.
    let mut program = vec![7u8, 0, 0, 0, 0, 0, 0, 0];
    program.extend(vec![0u8, 3, 3, 4]);
    let md = extract_program_metadata(&program).unwrap();
    assert_eq!(md.memory_size, 7);
    assert_eq!(md.total_instructions, 4);
    assert_eq!(md.instructions[0], ("load".to_string(), 1));
    assert_eq!(md.instructions[3], ("multiplication".to_string(), 2));
    assert_eq!(md.instructions[4], ("comparison".to_string(), 1));
    assert_eq!(
        md.preprocessing_requirements.runtime_elements[0],
        ("multiplication-triples".to_string(), 2)
    );
    assert_eq!(
        md.preprocessing_requirements.runtime_elements[1],
        ("comparison-pairs".to_string(), 1)
    );
    // A truncated header cannot be parsed.
    assert_eq!(extract_program_metadata(&vec![1, 2, 3]), Err(ValueError::ParseError));
    // An unknown opcode cannot be parsed.
    let mut bad = vec![7u8, 0, 0, 0, 0, 0, 0, 0];
    bad.push(200);
    assert_eq!(extract_program_metadata(&bad), Err(ValueError::ParseError));
}

#[test]
fn host_boundary_rejects_pairs() {
    // A pair has no host wrapper class; the boundary turns it away instead
    // of coercing it.
    let v = NadaValue::Tuple {
        left: Box::new(NadaValue::Integer(1)),
        right: Box::new(NadaValue::Boolean(true)),
    };
    assert_eq!(
        client_core::values::nada_value_clear_to_host(v).err(),
        Some(ValueError::UnsupportedVariant)
    );
    // A supported value crosses and comes back unchanged.
    let v = NadaValue::SecretInteger(9);
    let host = client_core::values::nada_value_clear_to_host(v).unwrap();
    assert_eq!(
        client_core::values::host_value_to_nada_value_clear(host),
        NadaValue::SecretInteger(9)
    );
}

#[test]
fn mask_unmask_identity_long_blob() {
    // A blob longer than one chunk of the narrow field.
    let masker = SecretMasker::new_64_bit_safe_prime(2, parties(4)).unwrap();
    let data: Vec<u8> = (0u8..40).collect();
    let values = vec![("blob".to_string(), NadaValue::SecretBlob(data.clone()))];
    let masked = masker.mask(&values).unwrap();
    let mut jar = masker.build_jar();
    for (party, named) in masked {
        jar.add_element(party, named).unwrap();
    }
    let clear = masker.unmask(jar).unwrap();
    assert_eq!(clear[0].1, NadaValue::SecretBlob(data));
}

#[test]
fn unmask_rejects_wrong_roster_order() {
    let masker = SecretMasker::new_64_bit_safe_prime(1, parties(2)).unwrap();
    let values = vec![("x".to_string(), NadaValue::SecretInteger(1))];
    let mut masked = masker.mask(&values).unwrap();
    // Contributions out of roster order do not reconstruct.
    masked.reverse();
    let mut jar = masker.build_jar();
    for (party, named) in masked {
        jar.add_element(party, named).unwrap();
    }
    assert_eq!(masker.unmask(jar), Err(ValueError::ReconstructionError));
}

#[test]
fn masked_keys_decode_back_from_wire() {
    // A masked signing key must survive the byte codec: its share scalars
    // and derived public points pass the decoder's validation again.
    let masker = SecretMasker::new_64_bit_safe_prime(1, parties(2)).unwrap();
    let values = vec![
        ("p".to_string(), NadaValue::EcdsaPrivateKey(vec![7u8; 32])),
        (
            "q".to_string(),
            NadaValue::EddsaPrivateKey(vec![5u8; 31].into_iter().chain(vec![0u8]).collect()),
        ),
    ];
    let masked = masker.mask(&values).unwrap();
    for (_, named) in &masked {
        for (_, value) in named {
            let wire = EncryptedNadaValue::new(value).unwrap();
            let back = wire.into_nada_value(&EncodedModulo::U64SafePrime).unwrap();
            assert_eq!(&back, value);
        }
    }
}

use sofer::id::Uuid;

#[test]
fn nil_is_zero() {
    assert_eq!(Uuid::nil(), Uuid { value: 0 });
    assert!(Uuid::nil().is_nil());
    assert_eq!(Uuid::nil().to_hyphenated_string(), "00000000-0000-0000-0000-000000000000");
}

#[test]
fn fresh_identifiers_are_random_and_never_nil() {
    for _ in 0..50 {
        let id = Uuid::new_v4();
        assert!(!id.is_nil());
        assert_eq!(
            id.value & 0x0000_0000_0000_f000_c000_0000_0000_0000,
            0x0000_0000_0000_4000_8000_0000_0000_0000
        );
    }
    assert_ne!(Uuid::new_v4(), Uuid::new_v4());
}

#[test]
fn text_forms() {
    let id = Uuid { value: 0x0123_4567_89ab_cdef_fedc_ba98_7654_3210 };
    assert_eq!(id.to_hyphenated_string(), "01234567-89ab-cdef-fedc-ba9876543210");
    assert_eq!(id.to_simple_string(), "0123456789abcdeffedcba9876543210");
    assert_eq!(Uuid::parse_str("01234567-89ab-cdef-fedc-ba9876543210"), Some(id));
    assert_eq!(Uuid::parse_str("01234567-89AB-CDEF-FEDC-BA9876543210"), Some(id));
    assert_eq!(Uuid::parse_str("0123456789abcdeffedcba9876543210"), Some(id));
    assert_eq!(Uuid::parse_str("{01234567-89ab-cdef-fedc-ba9876543210}"), Some(id));
    assert_eq!(Uuid::parse_str("urn:uuid:01234567-89ab-cdef-fedc-ba9876543210"), Some(id));
    assert_eq!(Uuid::parse_str("URN:UUID:01234567-89ab-cdef-fedc-ba9876543210"), Some(id));
    assert_eq!(Uuid::parse_str("00000000-0000-0000-0000-000000000010"), Some(Uuid { value: 16 }));
}

#[test]
fn texts_that_are_no_identifiers() {
    for wrong in [
        "",
        "0123456789abcdeffedcba987654321",
        "0123456789abcdeffedcba98765432100",
        "01234567-89ab-cdef-fedc-ba987654321g",
        "01234567 89ab-cdef-fedc-ba9876543210",
        "0123456-789ab-cdef-fedc-ba9876543210",
        "{0123456789abcdeffedcba9876543210}",
        "(01234567-89ab-cdef-fedc-ba9876543210)",
        "urn:uuid:0123456789abcdeffedcba9876543210",
        "urn-uuid:01234567-89ab-cdef-fedc-ba9876543210",
        "ñ1234567-89ab-cdef-fedc-ba987654321",
    ] {
        assert_eq!(Uuid::parse_str(wrong), None, "{}", wrong);
    }
}

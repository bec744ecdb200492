use generational_graph::compact::IndexDecodeError;
use generational_graph::gen_vec::Index;

fn handle(index: usize, generation: u32) -> Index {
    Index { index, generation }
}

#[test]
fn compact_form_is_slot_dot_generation() {
    assert_eq!(handle(0, 0).to_compact_string(), "0.0");
    assert_eq!(handle(12, 3).to_compact_string(), "12.3");
    assert_eq!(handle(1000, 4294967295).to_compact_string(), "1000.4294967295");
    assert_eq!(handle(9, 10).to_compact_string(), "9.10");
}

#[test]
fn compact_form_reads_back() {
    assert_eq!(Index::from_compact_str("0.0"), Ok(handle(0, 0)));
    assert_eq!(Index::from_compact_str("12.3"), Ok(handle(12, 3)));
    assert_eq!(Index::from_compact_str("007.010"), Ok(handle(7, 10)));
    assert_eq!(Index::from_compact_str("+4.+5"), Ok(handle(4, 5)));
    assert_eq!(
        Index::from_compact_str("1000.4294967295"),
        Ok(handle(1000, u32::MAX))
    );
}

#[test]
fn compact_round_trip_on_many_handles() {
    let slots = [0usize, 1, 9, 10, 99, 100, 65535, usize::MAX];
    let generations = [0u32, 1, 9, 10, 255, 4096, u32::MAX];
    for slot in slots {
        for generation in generations {
            let index = handle(slot, generation);
            assert_eq!(Index::from_compact_str(&index.to_compact_string()), Ok(index));
        }
    }
}

#[test]
fn text_without_a_dot_is_rejected() {
    assert_eq!(
        Index::from_compact_str("12"),
        Err(IndexDecodeError::MissingSeparator)
    );
    assert_eq!(
        Index::from_compact_str(""),
        Err(IndexDecodeError::MissingSeparator)
    );
    assert_eq!(
        Index::from_compact_str("1,2"),
        Err(IndexDecodeError::MissingSeparator)
    );
}

#[test]
fn bad_slot_is_rejected() {
    assert_eq!(
        Index::from_compact_str(".1"),
        Err(IndexDecodeError::InvalidIndex)
    );
    assert_eq!(
        Index::from_compact_str("a.1"),
        Err(IndexDecodeError::InvalidIndex)
    );
    assert_eq!(
        Index::from_compact_str("-1.1"),
        Err(IndexDecodeError::InvalidIndex)
    );
    assert_eq!(
        Index::from_compact_str("+.1"),
        Err(IndexDecodeError::InvalidIndex)
    );
    assert_eq!(
        Index::from_compact_str("1 .1"),
        Err(IndexDecodeError::InvalidIndex)
    );
    assert_eq!(
        Index::from_compact_str("99999999999999999999999999.1"),
        Err(IndexDecodeError::InvalidIndex)
    );
    assert_eq!(
        Index::from_compact_str("\u{0661}.1"),
        Err(IndexDecodeError::InvalidIndex)
    );
}

#[test]
fn bad_generation_is_rejected() {
    assert_eq!(
        Index::from_compact_str("1."),
        Err(IndexDecodeError::InvalidGeneration)
    );
    assert_eq!(
        Index::from_compact_str("1.x"),
        Err(IndexDecodeError::InvalidGeneration)
    );
    assert_eq!(
        Index::from_compact_str("1.2.3"),
        Err(IndexDecodeError::InvalidGeneration)
    );
    assert_eq!(
        Index::from_compact_str("1.4294967296"),
        Err(IndexDecodeError::InvalidGeneration)
    );
    assert_eq!(
        Index::from_compact_str("1.-2"),
        Err(IndexDecodeError::InvalidGeneration)
    );
}

#[test]
fn agrees_with_the_standard_number_parser() {
    let texts = [
        "0", "1", "+1", "-1", "", "+", "00", "4294967295", "4294967296", "12a", " 1", "1 ",
        "18446744073709551615", "18446744073709551616",
    ];
    for slot in texts {
        for generation in texts {
            let text = format!("{}.{}", slot, generation);
            let expected = match (slot.parse::<usize>(), generation.parse::<u32>()) {
                (Err(_), _) => Err(IndexDecodeError::InvalidIndex),
                (Ok(_), Err(_)) => Err(IndexDecodeError::InvalidGeneration),
                (Ok(index), Ok(generation)) => Ok(handle(index, generation)),
            };
            assert_eq!(Index::from_compact_str(&text), expected);
        }
    }
}

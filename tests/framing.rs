use pals::{
    decode, deserialize_be, deserialize_le, encode, serialize_be, serialize_le, FrameError, Policy,
    Width,
};

fn slices(data: &[Vec<u8>]) -> Vec<&[u8]> {
    data.iter().map(|v| v.as_slice()).collect::<Vec<_>>()
}

#[test]
fn test_serialize_deserialize_be() {
    let data = vec![
        vec![1, 2, 3],
        vec![4, 5, 6, 7],
        vec![],
        vec![8, 9],
        vec![10, 11, 12, 13, 14],
    ];

    let serialized = serialize_be(&data.iter().map(|v| v.as_slice()).collect::<Vec<_>>()).unwrap();
    let deserialized = deserialize_be(&serialized).unwrap();

    assert_eq!(data, deserialized);
}

#[test]
fn test_serialize_be_empty_input() {
    let data = Vec::<Vec<u8>>::new();

    let result = serialize_be(&data.iter().map(|v| v.as_slice()).collect::<Vec<_>>());

    assert!(result.is_err());
    assert_eq!(result.unwrap_err().message(), "Input data is empty.");
}

#[test]
fn test_deserialize_be_incomplete_input() {
    // One field holding 3, then only three bytes where the next field
    // (the terminator) should stand: the table is cut short.
    let data = vec![0, 0, 0, 0, 0, 0, 0, 3, 1, 2, 3];

    let result = deserialize_be(&data);

    assert!(result.is_err());
    assert_eq!(result.unwrap_err(), FrameError::TruncatedTable);
}

#[test]
fn test_serialize_deserialize_le() {
    let data = vec![
        vec![1, 2, 3],
        vec![4, 5, 6, 7],
        vec![8, 9],
        vec![],
        vec![10, 11, 12, 13, 14],
    ];

    let serialized = serialize_le(&data.iter().map(|v| v.as_slice()).collect::<Vec<_>>()).unwrap();
    let deserialized = deserialize_le(&serialized).unwrap();

    assert_eq!(data, deserialized);
}

#[test]
fn test_serialize_le_empty_input() {
    let data = Vec::<Vec<u8>>::new();

    let result = serialize_le(&data.iter().map(|v| v.as_slice()).collect::<Vec<_>>());

    assert!(result.is_err());
    assert_eq!(result.unwrap_err().message(), "Input data is empty.");
}

#[test]
fn test_serialize_le_large_input() {
    let data = vec![vec![0; 1_000_000_000]];

    let result = serialize_le(&data.iter().map(|v| v.as_slice()).collect::<Vec<_>>());

    assert!(result.is_err());
    assert_eq!(
        result.unwrap_err().message(),
        "Input data contains a slice that is too large to be serialized."
    );
}

#[test]
fn test_deserialize_le_incomplete_input() {
    let data = vec![
        vec![1, 2, 3],
        vec![4, 5, 6, 7],
        vec![8, 9],
        vec![],
        vec![10, 11, 12, 13, 14],
    ];

    let serialized = serialize_le(&data.iter().map(|v| v.as_slice()).collect::<Vec<_>>()).unwrap();

    let result = deserialize_le(&serialized[0..(serialized.len() - 1)]);

    assert!(result.is_err());
    assert_eq!(result.unwrap_err().message(), "Input data is incomplete.");
}

#[test]
fn narrow_scenario_bytes_and_back() {
    let data = vec![vec![1, 2, 3], vec![], vec![9, 9]];
    let buf = serialize_le(&slices(&data)).unwrap();
    assert_eq!(buf, vec![4, 1, 3, 0, 1, 2, 3, 9, 9]);
    assert_eq!(deserialize_le(&buf).unwrap(), data);
}

#[test]
fn wide_scenario_bytes_and_back() {
    let data = vec![vec![10, 20]];
    let buf = serialize_be(&slices(&data)).unwrap();
    assert_eq!(
        buf,
        vec![0, 0, 0, 0, 0, 0, 0, 3, 0, 0, 0, 0, 0, 0, 0, 0, 10, 20]
    );
    assert_eq!(deserialize_be(&buf).unwrap(), data);
}

#[test]
fn wide_field_is_big_endian() {
    let data = vec![vec![7; 300]];
    let buf = serialize_be(&slices(&data)).unwrap();
    // 301 = 0x012d
    assert_eq!(&buf[0..8], &[0, 0, 0, 0, 0, 0, 0x01, 0x2d]);
    assert_eq!(&buf[8..16], &[0; 8]);
    assert_eq!(buf.len(), 16 + 300);
    assert_eq!(deserialize_be(&buf).unwrap(), data);
}

#[test]
fn round_trip_many_segments_both_widths() {
    let data: Vec<Vec<u8>> = (0..40u8).map(|i| (0..i).map(|j| j ^ i).collect()).collect();
    for w in [Width::Narrow, Width::Wide] {
        let buf = encode(&slices(&data), w, Policy::default()).unwrap();
        assert_eq!(decode(&buf, w, Policy::default()).unwrap(), data);
    }
}

#[test]
fn round_trip_only_empty_segments() {
    let data = vec![vec![], vec![], vec![]];
    assert_eq!(serialize_le(&slices(&data)).unwrap(), vec![1, 1, 1, 0]);
    let buf = serialize_be(&slices(&data)).unwrap();
    assert_eq!(buf.len(), 32);
    assert_eq!(deserialize_be(&buf).unwrap(), data);
}

#[test]
fn empty_input_rejected_for_every_width_and_policy() {
    let data: Vec<&[u8]> = Vec::new();
    let strict = Policy { permit_empty_segments: false, reject_trailing_data: true };
    for w in [Width::Narrow, Width::Wide] {
        for p in [Policy::default(), strict] {
            assert_eq!(encode(&data, w, p), Err(FrameError::EmptyInput));
        }
    }
}

#[test]
fn narrow_capacity_boundary() {
    let longest = vec![vec![5u8; 254]];
    let buf = serialize_le(&slices(&longest)).unwrap();
    assert_eq!(buf[0], 255);
    assert_eq!(buf[1], 0);
    assert_eq!(buf.len(), 2 + 254);
    assert_eq!(deserialize_le(&buf).unwrap(), longest);

    let too_long = vec![vec![], vec![5u8; 255]];
    assert_eq!(serialize_le(&slices(&too_long)), Err(FrameError::SegmentTooLarge));
}

#[test]
fn wide_accepts_segments_past_narrow_limit() {
    let data = vec![vec![1u8; 255], vec![2u8; 1000]];
    let buf = serialize_be(&slices(&data)).unwrap();
    assert_eq!(deserialize_be(&buf).unwrap(), data);
}

#[test]
fn truncated_payload_is_incomplete() {
    let data = vec![vec![1, 2], vec![3]];
    for w in [Width::Narrow, Width::Wide] {
        let buf = encode(&slices(&data), w, Policy::default()).unwrap();
        let cut = &buf[0..buf.len() - 1];
        assert_eq!(decode(cut, w, Policy::default()), Err(FrameError::IncompleteData));
    }
}

#[test]
fn truncated_terminator_is_reported() {
    let data = vec![vec![], vec![]];
    let narrow = serialize_le(&slices(&data)).unwrap();
    assert_eq!(
        deserialize_le(&narrow[0..narrow.len() - 1]),
        Err(FrameError::MissingTerminator)
    );
    let wide = serialize_be(&slices(&data)).unwrap();
    assert_eq!(
        deserialize_be(&wide[0..wide.len() - 1]),
        Err(FrameError::TruncatedTable)
    );
}

#[test]
fn fields_without_terminator_fail() {
    assert_eq!(deserialize_le(&[3, 5, 1]), Err(FrameError::MissingTerminator));
    assert_eq!(deserialize_le(&[]), Err(FrameError::MissingTerminator));
    let wide = [0, 0, 0, 0, 0, 0, 0, 2, 0, 0, 0, 0, 0, 0, 1, 0];
    assert_eq!(deserialize_be(&wide), Err(FrameError::MissingTerminator));
    assert_eq!(deserialize_be(&[]), Err(FrameError::MissingTerminator));
}

#[test]
fn failure_repeats_identically() {
    let bad = [4u8, 0, 1];
    let first = deserialize_le(&bad);
    let second = deserialize_le(&bad);
    assert_eq!(first, Err(FrameError::IncompleteData));
    assert_eq!(first, second);
}

#[test]
fn trailing_bytes_ignored_by_default() {
    let buf = [3u8, 0, 7, 8, 99, 100];
    assert_eq!(deserialize_le(&buf).unwrap(), vec![vec![7, 8]]);
}

#[test]
fn trailing_bytes_rejected_when_strict() {
    let strict = Policy { permit_empty_segments: true, reject_trailing_data: true };
    let buf = [3u8, 0, 7, 8, 99];
    assert_eq!(decode(&buf, Width::Narrow, strict), Err(FrameError::TrailingData));
    assert_eq!(decode(&buf[0..4], Width::Narrow, strict).unwrap(), vec![vec![7, 8]]);
}

#[test]
fn empty_segments_rejected_when_forbidden() {
    let forbid = Policy { permit_empty_segments: false, reject_trailing_data: false };
    let data = vec![vec![1], vec![]];
    assert_eq!(encode(&slices(&data), Width::Wide, forbid), Err(FrameError::EmptySegment));
    assert_eq!(decode(&[2, 1, 0, 9], Width::Narrow, forbid), Err(FrameError::EmptySegment));
    let ok = vec![vec![1], vec![2, 3]];
    let buf = encode(&slices(&ok), Width::Narrow, forbid).unwrap();
    assert_eq!(decode(&buf, Width::Narrow, forbid).unwrap(), ok);
}

#[test]
fn oversized_reported_before_empty_segment() {
    let forbid = Policy { permit_empty_segments: false, reject_trailing_data: false };
    let data = vec![vec![], vec![0u8; 300]];
    assert_eq!(encode(&slices(&data), Width::Narrow, forbid), Err(FrameError::SegmentTooLarge));
}

#[test]
fn default_policy_is_tolerant() {
    let p = Policy::default();
    assert!(p.permit_empty_segments);
    assert!(!p.reject_trailing_data);
}

#[test]
fn every_error_has_a_message() {
    assert_eq!(FrameError::EmptyInput.message(), "Input data is empty.");
    assert_eq!(
        FrameError::MissingTerminator.message(),
        "Input data is missing the terminating null byte."
    );
    assert_eq!(FrameError::IncompleteData.message(), "Input data is incomplete.");
    for e in [
        FrameError::SegmentTooLarge,
        FrameError::EmptySegment,
        FrameError::TruncatedTable,
        FrameError::TrailingData,
    ] {
        assert!(!e.message().is_empty());
    }
}

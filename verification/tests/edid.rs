use waybright::edid::{base_edid, bytes_eq, ddc_edid, is_valid_base_edid, unique_edids, EdidError};

/// A valid base EDID block told apart by `id`.
fn edid(id: u8) -> Vec<u8> {
    let mut bytes = vec![0x00, 0xff, 0xff, 0xff, 0xff, 0xff, 0xff, 0x00];
    bytes.resize(128, 0);
    bytes[8] = id;
    let sum = bytes.iter().fold(0u8, |s, b| s.wrapping_add(*b));
    bytes[127] = 0u8.wrapping_sub(sum);
    bytes
}

#[test]
fn accepts_a_valid_base_block() {
    assert!(is_valid_base_edid(&edid(0)));
    assert!(is_valid_base_edid(&edid(42)));
}

#[test]
fn refuses_wrong_length_header_or_checksum() {
    let mut short = edid(1);
    short.truncate(127);
    assert!(!is_valid_base_edid(&short));

    let mut long = edid(1);
    long.push(0);
    assert!(!is_valid_base_edid(&long));

    let mut header = edid(1);
    header[0] = 0x01;
    header[127] = header[127].wrapping_sub(1);
    assert!(!is_valid_base_edid(&header));

    let mut checksum = edid(1);
    checksum[127] = checksum[127].wrapping_add(1);
    assert!(!is_valid_base_edid(&checksum));

    assert!(!is_valid_base_edid(&[]));
}

#[test]
fn base_edid_of_file_bytes() {
    assert_eq!(base_edid(Vec::new()), Err(EdidError::Empty));
    assert_eq!(base_edid(vec![1, 2, 3]), Err(EdidError::Invalid));
    assert_eq!(base_edid(edid(7)), Ok(edid(7)));

    let mut extended = edid(7);
    extended.extend(std::iter::repeat(0xab).take(128));
    assert_eq!(base_edid(extended), Ok(edid(7)));
}

#[test]
fn edid_error_messages() {
    assert_eq!(EdidError::Empty.message(), "empty file");
    assert_eq!(EdidError::Invalid.message(), "invalid edid");
}

#[test]
fn ddc_edid_takes_the_bytes_read() {
    assert_eq!(ddc_edid(edid(3), 128), Ok(edid(3)));
    assert_eq!(ddc_edid(edid(3), 200), Ok(edid(3)));
    assert_eq!(ddc_edid(edid(3), 64), Err(EdidError::Invalid));
    assert_eq!(ddc_edid(vec![0; 128], 128), Err(EdidError::Invalid));
}

#[test]
fn compares_byte_vectors() {
    assert!(bytes_eq(&edid(1), &edid(1)));
    assert!(!bytes_eq(&edid(1), &edid(2)));
    assert!(!bytes_eq(&vec![1, 2], &vec![1, 2, 3]));
}

#[test]
fn unique_edids_drops_shared_ones() {
    let mut table = unique_edids(vec![
        (edid(1), "card0-eDP-1".to_owned()),
        (edid(2), "card0-HDMI-A-1".to_owned()),
        (edid(1), "card0-DP-1".to_owned()),
        (edid(3), "card0-DP-2".to_owned()),
    ]);

    assert_eq!(table.remove(&edid(1)), None);
    assert_eq!(table.remove(&edid(2)), Some("card0-HDMI-A-1".to_owned()));
    assert_eq!(table.remove(&edid(2)), None);
    assert_eq!(table.remove(&edid(3)), Some("card0-DP-2".to_owned()));
    assert_eq!(table.remove(&edid(4)), None);
}

#[test]
fn an_edid_seen_three_times_stays_out() {
    let mut table = unique_edids(vec![
        (edid(5), "a".to_owned()),
        (edid(5), "b".to_owned()),
        (edid(5), "c".to_owned()),
    ]);
    assert_eq!(table.remove(&edid(5)), None);
}

#[test]
fn unique_edids_ignore_item_order() {
    let items = vec![
        (edid(1), "a".to_owned()),
        (edid(2), "b".to_owned()),
        (edid(1), "c".to_owned()),
        (edid(3), "d".to_owned()),
    ];
    let mut reordered = items.clone();
    reordered.reverse();
    reordered.swap(0, 2);
    for id in 0..5u8 {
        let mut first = unique_edids(items.clone());
        let mut second = unique_edids(reordered.clone());
        assert_eq!(first.remove(&edid(id)), second.remove(&edid(id)));
    }
}

use mini_lsm::manifest::{
    frame_record, has_frame, has_record, is_intact, next_frame, record_at, recover_step, RecoverStep,
};

#[test]
fn a_frame_is_length_record_and_checksum() {
    let frame = frame_record(b"{}");
    assert_eq!(&frame[..8], &[0, 0, 0, 0, 0, 0, 0, 2]);
    assert_eq!(&frame[8..10], b"{}");
    assert_eq!(&frame[10..], &crc32fast::hash(b"{}").to_be_bytes()[..]);
}

#[test]
fn records_are_read_back_in_order() {
    let records: [&[u8]; 3] = [b"first", b"", b"{\"Flush\":3}"];
    let mut data = Vec::new();
    for record in records {
        data.extend(frame_record(record));
    }
    let mut pos = 0;
    let mut read: Vec<Vec<u8>> = Vec::new();
    while pos < data.len() {
        assert!(has_record(&data, pos));
        assert!(has_frame(&data, pos));
        assert!(is_intact(&data, pos));
        read.push(record_at(&data, pos).to_vec());
        pos = next_frame(&data, pos);
    }
    assert_eq!(pos, data.len());
    assert_eq!(read, records.map(|r| r.to_vec()).to_vec());
}

#[test]
fn a_changed_record_is_not_intact() {
    let mut data = frame_record(b"record");
    data[9] ^= 0x10;
    assert!(has_frame(&data, 0));
    assert!(!is_intact(&data, 0));
}

#[test]
fn a_cut_frame_is_noticed() {
    let data = frame_record(b"record");
    assert!(!has_record(&data[..7], 0));
    assert!(!has_record(&data[..13], 0));
    assert!(has_record(&data[..14], 0));
    assert!(!has_frame(&data[..14], 0));
    assert!(!has_frame(&data[..17], 0));
    assert!(has_frame(&data, 0));
    assert!(!has_record(&data, data.len()));
}

#[test]
fn a_length_beyond_the_data_is_noticed() {
    let mut data = vec![0xffu8; 8];
    data.extend_from_slice(b"short");
    assert!(!has_record(&data, 0));
    assert!(!has_frame(&data, 0));
}

#[test]
fn the_steps_of_recovery_come_in_order() {
    let mut data = frame_record(b"one");
    let second = data.len();
    data.extend(frame_record(b"two"));
    assert_eq!(recover_step(&data, 0, false), RecoverStep::Parse);
    assert_eq!(recover_step(&data, 0, true), RecoverStep::Keep(second));
    assert_eq!(recover_step(&data, second, true), RecoverStep::Keep(data.len()));
    assert_eq!(recover_step(&data, data.len(), false), RecoverStep::Done);
    // A record is parsed before its checksum is looked at.
    let cut = data.len() - 1;
    assert_eq!(recover_step(&data[..cut], second, false), RecoverStep::Parse);
    assert_eq!(recover_step(&data[..cut], second, true), RecoverStep::CutOff);
    assert_eq!(recover_step(&data[..second + 9], second, false), RecoverStep::CutOff);
    let last = data.len() - 1;
    data[last] ^= 1;
    assert_eq!(recover_step(&data, second, false), RecoverStep::Parse);
    assert_eq!(recover_step(&data, second, true), RecoverStep::Mismatched);
}

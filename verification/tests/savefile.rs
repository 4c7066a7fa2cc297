use dm_savefile::directories::Directories;
use dm_savefile::error::{Corruption, IoFault};
use dm_savefile::records::{
    parse_entry, parse_entry_data, read_bytes, read_entry_data, read_frame, read_next_entry,
    ByteReader, EntryData, ParsedEntry,
};
use dm_savefile::{extract_savefile, Error, ListEntry, Savefile, SavefileEntryValue};

fn obscure(plain: &[u8], key: u8) -> Vec<u8> {
    let mut key = key;
    let mut hidden = Vec::new();
    for byte in plain {
        hidden.push(byte ^ key);
        key = key.wrapping_add(9);
    }
    hidden
}

fn record(marker: u8, payload: &[u8]) -> Vec<u8> {
    let mut bytes = (payload.len() as u32).to_le_bytes().to_vec();
    bytes.push(marker);
    bytes.extend_from_slice(payload);
    bytes
}

fn payload(index: u32, directory: u32, key: &[u8], plain: &[u8]) -> Vec<u8> {
    let mut bytes = index.to_le_bytes().to_vec();
    bytes.extend_from_slice(&directory.to_le_bytes());
    bytes.push(key.len() as u8);
    bytes.extend_from_slice(&obscure(key, 0x53));
    bytes.extend_from_slice(&(plain.len() as u32).to_le_bytes());
    bytes.extend_from_slice(&obscure(plain, 0x3A));
    bytes
}

fn header() -> Vec<u8> {
    record(0, b"BYOND save")
}

fn naming(index: u32, name: &str) -> Vec<u8> {
    record(1, &payload(index, 0, name.as_bytes(), &[]))
}

fn entry(index: u32, directory: u32, key: &str, plain: &[u8]) -> Vec<u8> {
    record(1, &payload(index, directory, key.as_bytes(), plain))
}

fn number(value: f32) -> Vec<u8> {
    let mut bytes = vec![0x04];
    bytes.extend_from_slice(&value.to_le_bytes());
    bytes
}

fn string(text: &str) -> Vec<u8> {
    let mut bytes = vec![0x01];
    bytes.extend_from_slice(&(text.len() as u16).to_le_bytes());
    bytes.extend_from_slice(text.as_bytes());
    bytes
}

fn file(records: &[Vec<u8>]) -> Vec<u8> {
    let mut bytes = header();
    for record in records {
        bytes.extend_from_slice(record);
    }
    bytes
}

fn names(savefile: &Savefile) -> Vec<String> {
    (0..savefile.directories.len()).map(|i| savefile.directories.key(i).clone()).collect()
}

fn keys(savefile: &Savefile, directory: &str) -> Vec<String> {
    let entries = savefile.directories.get(directory).unwrap();
    (0..entries.len()).map(|i| entries.key(i).clone()).collect()
}

fn value<'a>(savefile: &'a Savefile, directory: &str, key: &str) -> Option<&'a SavefileEntryValue> {
    savefile.directories.get(directory).and_then(|entries| entries.get(key))
}

#[test]
fn players_score_example() {
    let bytes = file(&[naming(1, "players"), entry(2, 1, "score", &number(42.0))]);
    let savefile = extract_savefile(&bytes).unwrap();
    assert_eq!(names(&savefile), vec!["".to_string(), "players".to_string()]);
    assert_eq!(keys(&savefile, ""), Vec::<String>::new());
    assert_eq!(keys(&savefile, "players"), vec!["score".to_string()]);
    match value(&savefile, "players", "score") {
        Some(SavefileEntryValue::Number(bits)) => assert_eq!(f32::from_bits(*bits), 42.0),
        other => panic!("unexpected {:?}", other),
    }
}

#[test]
fn the_same_bytes_decode_to_the_same_savefile() {
    let bytes = file(&[
        naming(1, "players"),
        entry(2, 1, "score", &number(42.0)),
        entry(3, 0, "version", &string("512")),
    ]);
    assert_eq!(extract_savefile(&bytes), extract_savefile(&bytes));
    let broken = file(&[entry(2, 5, "score", &number(42.0))]);
    assert_eq!(extract_savefile(&broken), extract_savefile(&broken));
    assert!(extract_savefile(&broken).is_err());
}

#[test]
fn nothing_at_all_is_the_root_alone() {
    let savefile = extract_savefile(&[]).unwrap();
    assert_eq!(names(&savefile), vec!["".to_string()]);
    assert_eq!(keys(&savefile, ""), Vec::<String>::new());
}

#[test]
fn a_header_alone_is_the_root_alone() {
    let savefile = extract_savefile(&header()).unwrap();
    assert_eq!(names(&savefile), vec!["".to_string()]);
}

#[test]
fn the_header_is_skipped_unread() {
    let mut bytes = record(1, &[0xFF, 0xFF]);
    bytes.extend_from_slice(&entry(1, 0, "k", &[0x00]));
    let savefile = extract_savefile(&bytes).unwrap();
    assert_eq!(value(&savefile, "", "k"), Some(&SavefileEntryValue::Null));
}

#[test]
fn entries_lie_in_key_order_not_in_arrival_order() {
    let bytes = file(&[
        entry(1, 0, "pear", &[0x00]),
        entry(2, 0, "apple", &[0x00]),
        entry(3, 0, "Zebra", &[0x00]),
        entry(4, 0, "mango", &[0x00]),
    ]);
    let savefile = extract_savefile(&bytes).unwrap();
    assert_eq!(keys(&savefile, ""), vec!["Zebra", "apple", "mango", "pear"]);
}

#[test]
fn directories_lie_in_name_order() {
    let bytes = file(&[naming(1, "zoo"), naming(2, "bar"), naming(3, "foo")]);
    let savefile = extract_savefile(&bytes).unwrap();
    assert_eq!(names(&savefile), vec!["", "bar", "foo", "zoo"]);
}

#[test]
fn a_later_entry_replaces_an_earlier_one_of_the_same_key() {
    let bytes = file(&[entry(1, 0, "k", &string("old")), entry(2, 0, "k", &string("new"))]);
    let savefile = extract_savefile(&bytes).unwrap();
    assert_eq!(keys(&savefile, ""), vec!["k"]);
    assert_eq!(value(&savefile, "", "k"), Some(&SavefileEntryValue::String("new".to_string())));
}

#[test]
fn a_name_may_come_after_the_entries() {
    let bytes = file(&[entry(1, 7, "k", &[0x00]), naming(7, "late")]);
    let savefile = extract_savefile(&bytes).unwrap();
    assert_eq!(names(&savefile), vec!["", "late"]);
    assert_eq!(value(&savefile, "late", "k"), Some(&SavefileEntryValue::Null));
}

#[test]
fn a_later_name_replaces_an_earlier_one() {
    let bytes = file(&[naming(1, "first"), entry(2, 1, "k", &[0x00]), naming(1, "second")]);
    let savefile = extract_savefile(&bytes).unwrap();
    assert_eq!(names(&savefile), vec!["", "second"]);
    assert_eq!(value(&savefile, "second", "k"), Some(&SavefileEntryValue::Null));
}

#[test]
fn the_root_can_be_renamed() {
    let bytes = file(&[entry(1, 0, "k", &[0x00]), naming(0, "top")]);
    let savefile = extract_savefile(&bytes).unwrap();
    assert_eq!(names(&savefile), vec!["top"]);
    assert_eq!(value(&savefile, "top", "k"), Some(&SavefileEntryValue::Null));
}

#[test]
fn of_two_directories_with_one_name_the_later_stands() {
    let bytes = file(&[
        naming(1, "same"),
        entry(2, 1, "from", &string("one")),
        naming(3, "same"),
        entry(4, 3, "from", &string("three")),
        entry(5, 1, "more", &[0x00]),
    ]);
    let savefile = extract_savefile(&bytes).unwrap();
    assert_eq!(names(&savefile), vec!["", "same"]);
    assert_eq!(keys(&savefile, "same"), vec!["from"]);
    assert_eq!(
        value(&savefile, "same", "from"),
        Some(&SavefileEntryValue::String("three".to_string()))
    );
}

#[test]
fn a_directory_with_a_name_and_no_entry_appears() {
    let bytes = file(&[naming(4, "empty")]);
    let savefile = extract_savefile(&bytes).unwrap();
    assert_eq!(names(&savefile), vec!["", "empty"]);
    assert_eq!(keys(&savefile, "empty"), Vec::<String>::new());
}

#[test]
fn a_directory_without_a_name_fails_with_its_number() {
    let bytes = file(&[entry(1, 9, "k", &[0x00])]);
    assert_eq!(extract_savefile(&bytes), Err(Error::DirectoryCreatedWithoutName(9)));
}

#[test]
fn the_first_directory_without_a_name_is_the_one_reported() {
    let bytes = file(&[
        entry(1, 9, "k", &[0x00]),
        entry(2, 4, "k", &[0x00]),
        naming(5, "fine"),
        entry(3, 9, "j", &[0x00]),
    ]);
    assert_eq!(extract_savefile(&bytes), Err(Error::DirectoryCreatedWithoutName(9)));
    let bytes = file(&[entry(1, 9, "k", &[0x00]), entry(2, 4, "k", &[0x00]), naming(9, "nine")]);
    assert_eq!(extract_savefile(&bytes), Err(Error::DirectoryCreatedWithoutName(4)));
}

#[test]
fn a_record_without_a_key_changes_nothing() {
    let with = file(&[
        naming(1, "d"),
        record(1, &payload(1, 1, b"", &[0x00])),
        entry(2, 1, "k", &[0x00]),
        record(1, &payload(9, 9, b"", &number(1.0))),
    ]);
    let without = file(&[naming(1, "d"), entry(2, 1, "k", &[0x00])]);
    assert_eq!(extract_savefile(&with), extract_savefile(&without));
    assert!(extract_savefile(&with).is_ok());
}

#[test]
fn a_record_without_a_key_needs_no_value_section() {
    let mut short = 1u32.to_le_bytes().to_vec();
    short.extend_from_slice(&1u32.to_le_bytes());
    short.push(0);
    let bytes = file(&[record(1, &short)]);
    assert_eq!(names(&extract_savefile(&bytes).unwrap()), vec![""]);
}

#[test]
fn a_record_under_a_strange_marker_is_passed_over() {
    let bytes = file(&[
        record(2, b"whatever this is"),
        entry(1, 0, "k", &[0x00]),
        record(0, &[]),
        record(0xFF, &[1, 2, 3]),
    ]);
    let savefile = extract_savefile(&bytes).unwrap();
    assert_eq!(names(&savefile), vec![""]);
    assert_eq!(keys(&savefile, ""), vec!["k"]);
}

#[test]
fn the_short_empty_list_is_told_from_the_general_list() {
    let short = [0x0D, 0xAA, 0xBB, 0xCC, 0xDD, 0xEE];
    let bytes = file(&[entry(1, 0, "list", &short)]);
    let savefile = extract_savefile(&bytes).unwrap();
    assert_eq!(value(&savefile, "", "list"), Some(&SavefileEntryValue::FlatList(vec![])));

    let longer = [0x0D, 0xAA, 0xBB, 0xCC, 0xDD, 0xEE, 0x00];
    let bytes = file(&[entry(1, 0, "list", &longer)]);
    assert_eq!(extract_savefile(&bytes), Err(Error::Corrupt(Corruption::AssocFlag(0xEE))));

    let shorter = [0x0D, 0xAA, 0xBB, 0xCC, 0xDD];
    let bytes = file(&[entry(1, 0, "list", &shorter)]);
    assert_eq!(
        extract_savefile(&bytes),
        Err(Error::ListEntryMissingIsAssocBit { key: "list".to_string(), length: 0xDDCCBBAA })
    );
}

#[test]
fn a_value_section_of_six_bytes_that_is_no_list_is_read_as_usual() {
    let bytes = file(&[entry(1, 0, "s", &[0x01, 0x03, 0x00, b'a', b'b', b'c'])]);
    let savefile = extract_savefile(&bytes).unwrap();
    assert_eq!(value(&savefile, "", "s"), Some(&SavefileEntryValue::String("abc".to_string())));
}

#[test]
fn bytes_behind_the_value_are_passed_over() {
    let mut plain = number(1.0);
    plain.extend_from_slice(&[0xFF, 0xFF]);
    let bytes = file(&[entry(1, 0, "n", &plain), entry(2, 0, "m", &[0x00])]);
    let savefile = extract_savefile(&bytes).unwrap();
    assert_eq!(
        value(&savefile, "", "n"),
        Some(&SavefileEntryValue::Number(1.0f32.to_bits()))
    );
    assert_eq!(value(&savefile, "", "m"), Some(&SavefileEntryValue::Null));
}

#[test]
fn bytes_behind_the_declared_value_length_are_passed_over() {
    let mut bytes = 1u32.to_le_bytes().to_vec();
    bytes.extend_from_slice(&0u32.to_le_bytes());
    bytes.push(1);
    bytes.extend_from_slice(&obscure(b"k", 0x53));
    bytes.extend_from_slice(&1u32.to_le_bytes());
    bytes.extend_from_slice(&obscure(&[0x00], 0x3A));
    bytes.extend_from_slice(&[0xEE, 0xEE, 0xEE]);
    let savefile = extract_savefile(&file(&[record(1, &bytes)])).unwrap();
    assert_eq!(value(&savefile, "", "k"), Some(&SavefileEntryValue::Null));
}

#[test]
fn keys_with_invalid_utf8_are_patched() {
    let bytes = file(&[record(1, &payload(1, 0, &[b'a', 0xFF], &[0x00]))]);
    let savefile = extract_savefile(&bytes).unwrap();
    assert_eq!(keys(&savefile, ""), vec!["a\u{FFFD}"]);
}

#[test]
fn faults_name_the_entry_by_its_key() {
    let bytes = file(&[entry(1, 0, "broken", &[0x0D, 2, 0, 0, 0, 0, 0x00, 0x77])]);
    assert_eq!(
        extract_savefile(&bytes),
        Err(Error::UnknownValueType { key: "broken - list entry 1".to_string(), value_type: 0x77 })
    );
}

#[test]
fn a_source_that_ends_inside_a_header_is_an_io_fault() {
    for cut in 1..5 {
        let mut bytes = file(&[entry(1, 0, "k", &[0x00])]);
        bytes.extend_from_slice(&record(1, &[])[..cut]);
        assert_eq!(extract_savefile(&bytes), Err(Error::Io(IoFault::UnexpectedEof)));
    }
    assert_eq!(extract_savefile(&[0x00]), Err(Error::Io(IoFault::UnexpectedEof)));
    assert_eq!(extract_savefile(&[0, 0, 0, 0]), Err(Error::Io(IoFault::UnexpectedEof)));
}

#[test]
fn a_source_that_ends_inside_a_payload_is_an_io_fault() {
    let mut bytes = file(&[entry(1, 0, "k", &[0x00])]);
    bytes.pop();
    assert_eq!(extract_savefile(&bytes), Err(Error::Io(IoFault::UnexpectedEof)));
    assert_eq!(extract_savefile(&[5, 0, 0, 0, 0, 1, 2]), Err(Error::Io(IoFault::UnexpectedEof)));
    assert_eq!(
        extract_savefile(&[0xFF, 0xFF, 0xFF, 0xFF, 2]),
        Err(Error::Io(IoFault::UnexpectedEof))
    );
}

#[test]
fn a_payload_too_short_for_its_fields_is_corrupt() {
    for length in 0..9 {
        let bytes = file(&[record(1, &vec![0u8; length])]);
        assert_eq!(extract_savefile(&bytes), Err(Error::Corrupt(Corruption::TruncatedRecord)));
    }
    let mut short = vec![0u8; 8];
    short.push(3);
    short.extend_from_slice(b"ab");
    let bytes = file(&[record(1, &short)]);
    assert_eq!(extract_savefile(&bytes), Err(Error::Corrupt(Corruption::TruncatedRecord)));
}

#[test]
fn a_value_section_too_short_is_corrupt() {
    let mut fields = vec![0u8; 8];
    fields.push(1);
    fields.extend_from_slice(&obscure(b"k", 0x53));
    for extra in [&[][..], &[1][..], &[1, 0, 0][..], &[1, 0, 0, 0][..], &[9, 0, 0, 0, 1, 2][..]] {
        let mut bytes = fields.clone();
        bytes.extend_from_slice(extra);
        assert_eq!(
            extract_savefile(&file(&[record(1, &bytes)])),
            Err(Error::Corrupt(Corruption::TruncatedValueSection))
        );
    }
}

#[test]
fn every_cut_of_a_file_gives_a_savefile_or_a_fault() {
    let list = [
        0x0Du8, 2, 0, 0, 0, 1, 0x00, 0x01, 1, 0, b'k', 2, 0, 0, 0, 0, 0x04, 0, 0, 0x28, 0x42,
        0x03, 1, 0, b't', 0x00,
    ];
    let bytes = file(&[
        naming(1, "players"),
        entry(2, 1, "score", &number(42.0)),
        entry(3, 1, "list", &list),
        entry(4, 0, "name", &string("someone")),
        record(1, &payload(5, 0, b"", &[])),
        entry(6, 2, "late", &[0x0D, 0, 0, 0, 0, 0]),
        naming(2, "later"),
    ]);
    let whole = extract_savefile(&bytes).unwrap();
    assert_eq!(names(&whole), vec!["", "later", "players"]);
    assert_eq!(
        value(&whole, "players", "list"),
        Some(&SavefileEntryValue::AssocList(vec![
            ListEntry::Value(SavefileEntryValue::Null),
            ListEntry::WithKey {
                key: SavefileEntryValue::String("k".to_string()),
                value: SavefileEntryValue::Number(42.0f32.to_bits()),
            },
            ListEntry::WithKey {
                key: SavefileEntryValue::Typepath("t".to_string()),
                value: SavefileEntryValue::Null,
            },
        ]))
    );
    let mut faults = 0;
    for cut in 0..bytes.len() {
        match extract_savefile(&bytes[..cut]) {
            Ok(savefile) => assert!(savefile.directories.len() >= 1),
            Err(_) => faults += 1,
        }
    }
    assert!(faults > 0);
}

#[test]
fn every_changed_byte_of_a_file_gives_a_savefile_or_a_fault() {
    let bytes = file(&[
        naming(1, "players"),
        entry(2, 1, "score", &number(42.0)),
        entry(3, 1, "list", &[0x0D, 1, 0, 0, 0, 0, 0x01, 1, 0, b'x']),
    ]);
    for at in 0..bytes.len() {
        for flip in [0x01u8, 0x80, 0xFF] {
            let mut changed = bytes.clone();
            changed[at] ^= flip;
            let result = extract_savefile(&changed);
            assert!(matches!(result, Ok(_) | Err(_)));
        }
    }
}

#[test]
fn read_bytes_takes_exactly_what_is_asked_for() {
    let source = [1u8, 2, 3, 4, 5];
    let mut reader = ByteReader::new(&source);
    assert_eq!(reader.remaining(), 5);
    assert_eq!(read_bytes(&mut reader, 0), Ok(vec![]));
    assert_eq!(read_bytes(&mut reader, 2), Ok(vec![1, 2]));
    assert_eq!(reader.remaining(), 3);
    assert_eq!(read_bytes(&mut reader, 3), Ok(vec![3, 4, 5]));
    assert_eq!(reader.remaining(), 0);
    assert_eq!(read_bytes(&mut reader, 0), Ok(vec![]));
    assert_eq!(read_bytes(&mut reader, 1), Err(Error::Io(IoFault::UnexpectedEof)));
}

#[test]
fn read_bytes_that_fails_exhausts_the_reader() {
    let source = [1u8, 2, 3];
    let mut reader = ByteReader::new(&source);
    assert_eq!(read_bytes(&mut reader, 4), Err(Error::Io(IoFault::UnexpectedEof)));
    assert_eq!(reader.remaining(), 0);
    assert_eq!(read_bytes(&mut reader, usize::MAX), Err(Error::Io(IoFault::UnexpectedEof)));
}

#[test]
fn read_frame_splits_marker_and_payload() {
    let mut source = record(7, b"abc");
    source.extend_from_slice(&record(1, b""));
    let mut reader = ByteReader::new(&source);
    assert_eq!(read_frame(&mut reader), Ok(Some((7, b"abc".to_vec()))));
    assert_eq!(read_frame(&mut reader), Ok(Some((1, vec![]))));
    assert_eq!(read_frame(&mut reader), Ok(None));
    assert_eq!(read_frame(&mut reader), Ok(None));
}

#[test]
fn read_entry_data_reads_the_five_fields() {
    let mut fields = 0x01020304u32.to_le_bytes().to_vec();
    fields.extend_from_slice(&0x0A0B0C0Du32.to_le_bytes());
    fields.push(2);
    fields.extend_from_slice(&[0x11, 0x22, 0x33, 0x44, 0x55]);
    let source = record(1, &fields);
    let mut reader = ByteReader::new(&source);
    assert_eq!(
        read_entry_data(&mut reader),
        Ok(Some(EntryData {
            index: 0x01020304,
            directory_index: 0x0A0B0C0D,
            key_length: 2,
            key: vec![0x11, 0x22],
            data: vec![0x33, 0x44, 0x55],
        }))
    );
    assert_eq!(read_entry_data(&mut reader), Ok(None));
}

#[test]
fn parse_entry_data_under_a_strange_marker_is_blank() {
    assert_eq!(
        parse_entry_data(0, &[1, 2, 3]),
        Ok(EntryData { index: 0, directory_index: 0, key_length: 0, key: vec![], data: vec![] })
    );
    assert_eq!(
        parse_entry_data(1, &[1, 2, 3]),
        Err(Error::Corrupt(Corruption::TruncatedRecord))
    );
}

#[test]
fn parse_entry_says_what_a_record_says() {
    let keyless = EntryData { index: 3, directory_index: 4, key_length: 0, key: vec![], data: vec![] };
    assert_eq!(parse_entry(&keyless), Ok(ParsedEntry::NoKey));

    let naming = EntryData {
        index: 3,
        directory_index: 4,
        key_length: 3,
        key: obscure(b"dir", 0x53),
        data: vec![0, 0, 0, 0],
    };
    assert_eq!(
        parse_entry(&naming),
        Ok(ParsedEntry::NewDirectory { directory: "dir".to_string(), index: 3 })
    );

    let mut data = 1u32.to_le_bytes().to_vec();
    data.extend_from_slice(&obscure(&[0x00], 0x3A));
    let valued = EntryData { index: 3, directory_index: 4, key_length: 1, key: obscure(b"k", 0x53), data };
    assert_eq!(
        parse_entry(&valued),
        Ok(ParsedEntry::Parsed {
            key: "k".to_string(),
            value: SavefileEntryValue::Null,
            directory: 4
        })
    );
}

#[test]
fn read_next_entry_walks_the_records() {
    let mut source = naming(1, "d");
    source.extend_from_slice(&record(1, &payload(2, 1, b"", &[])));
    source.extend_from_slice(&entry(3, 1, "k", &string("v")));
    let mut reader = ByteReader::new(&source);
    assert_eq!(
        read_next_entry(&mut reader),
        Ok(ParsedEntry::NewDirectory { directory: "d".to_string(), index: 1 })
    );
    assert_eq!(read_next_entry(&mut reader), Ok(ParsedEntry::NoKey));
    assert_eq!(
        read_next_entry(&mut reader),
        Ok(ParsedEntry::Parsed {
            key: "k".to_string(),
            value: SavefileEntryValue::String("v".to_string()),
            directory: 1
        })
    );
    assert_eq!(read_next_entry(&mut reader), Ok(ParsedEntry::Finished));
}

#[test]
fn directories_can_be_filled_by_hand() {
    let mut directories = Directories::new();
    directories.apply(ParsedEntry::Parsed {
        key: "k".to_string(),
        value: SavefileEntryValue::Null,
        directory: 2,
    });
    directories.apply(ParsedEntry::NoKey);
    directories.apply(ParsedEntry::Finished);
    directories.apply(ParsedEntry::NewDirectory { directory: "two".to_string(), index: 2 });
    let savefile = directories.finish().unwrap();
    assert_eq!(names(&savefile), vec!["", "two"]);
    assert_eq!(value(&savefile, "two", "k"), Some(&SavefileEntryValue::Null));

    let mut directories = Directories::new();
    directories.apply(ParsedEntry::Parsed {
        key: "k".to_string(),
        value: SavefileEntryValue::Null,
        directory: 2,
    });
    assert_eq!(directories.finish(), Err(Error::DirectoryCreatedWithoutName(2)));
}

#[test]
fn an_empty_savefile_has_no_directory() {
    assert_eq!(Savefile::new().directories.len(), 0);
    assert_eq!(Savefile::default(), Savefile::new());
}

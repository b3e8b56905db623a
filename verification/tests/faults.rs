use device_tree::dtb_format::{read_entry, ReservedMemEntry};
use device_tree::dtb_reader::{DtbReader, DtbStructIterator};
use device_tree::error::Error;
use device_tree::struct_item::StructItem;

const TOTAL_SIZE: usize = 1;
const STRUCT_OFFSET: usize = 2;
const STRINGS_OFFSET: usize = 3;
const RESERVED_MEM_OFFSET: usize = 4;
const VERSION: usize = 5;
const LAST_COMP_VERSION: usize = 6;
const STRINGS_SIZE: usize = 8;
const STRUCT_SIZE: usize = 9;

/// A blob with the given blocks, one behind the other.
fn blob(reserved_mem: &[u8], items: &[u8], strings: &[u8]) -> Vec<u8> {
    let struct_offset = 40 + reserved_mem.len();
    let strings_offset = struct_offset + items.len();
    let fields = [
        0xd00dfeedusize,
        strings_offset + strings.len(),
        struct_offset,
        strings_offset,
        40,
        17,
        16,
        0,
        strings.len(),
        items.len(),
    ];
    let mut bytes = Vec::new();
    for field in fields.iter() {
        bytes.extend_from_slice(&(*field as u32).to_be_bytes());
    }
    bytes.extend_from_slice(reserved_mem);
    bytes.extend_from_slice(items);
    bytes.extend_from_slice(strings);
    bytes
}

/// A blob without a fault, with an empty tree.
fn plain() -> Vec<u8> {
    blob(&[0; 16], &[0, 0, 0, 9], b"a\0")
}

fn field(blob: &[u8], index: usize) -> u32 {
    let at = 4 * index;
    u32::from_be_bytes([blob[at], blob[at + 1], blob[at + 2], blob[at + 3]])
}

fn set_field(blob: &mut [u8], index: usize, value: u32) {
    blob[4 * index..4 * index + 4].copy_from_slice(&value.to_be_bytes());
}

/// A blob without a fault but for one field of its header.
fn with_field(index: usize, value: u32) -> Vec<u8> {
    let mut bytes = plain();
    set_field(&mut bytes, index, value);
    bytes
}

fn assert_fault(bytes: &[u8], error: Error) {
    assert_eq!(DtbReader::new(bytes).unwrap_err(), error);
    assert_eq!(DtbReader::try_new(bytes).unwrap().unwrap_err(), error);
}

fn assert_out_of_range(bytes: &[u8]) {
    assert!(DtbReader::try_new(bytes).is_none());
}

#[test]
fn plain_blob_opens() {
    let bytes = plain();
    let mut iter = DtbReader::new(&bytes).unwrap().struct_iter();
    assert_eq!(iter.next(), Err(Error::NoMoreStructItems));
    assert!(DtbReader::try_new(&bytes).unwrap().is_ok());
}

#[test]
fn test_bad_magic() {
    assert_fault(&with_field(0, 0xd00dfeee), Error::BadMagic);
    assert_fault(&[], Error::BadMagic);
    assert_fault(&[0xd0, 0x0d, 0xfe], Error::BadMagic);
    assert_fault(&[0xed, 0xfe, 0x0d, 0xd0], Error::BadMagic);
}

#[test]
fn test_unexpected_end_of_blob() {
    assert_fault(&[0xd0, 0x0d, 0xfe, 0xed], Error::UnexpectedEndOfBlob);
    assert_fault(&plain()[..39], Error::UnexpectedEndOfBlob);
}

#[test]
fn test_bad_version() {
    assert_fault(&with_field(VERSION, 15), Error::BadVersion);
    // The version is looked at before the compatible version.
    assert_fault(&with_field(LAST_COMP_VERSION, 18), Error::BadVersion);
}

#[test]
fn test_unsupported_comp_version() {
    assert_fault(&with_field(LAST_COMP_VERSION, 17), Error::UnsupportedCompVersion);
    assert_fault(&with_field(LAST_COMP_VERSION, 2), Error::UnsupportedCompVersion);
}

#[test]
fn test_bad_total_size() {
    let size = plain().len() as u32;
    assert_fault(&with_field(TOTAL_SIZE, size + 1), Error::BadTotalSize);
    assert_fault(&with_field(TOTAL_SIZE, size - 1), Error::BadTotalSize);
    assert_fault(&plain()[..40], Error::BadTotalSize);
}

#[test]
fn test_unaligned_reserved_mem() {
    assert_fault(&with_field(RESERVED_MEM_OFFSET, 36), Error::UnalignedReservedMem);
}

#[test]
fn test_overlapping_reserved_mem() {
    assert_fault(&with_field(RESERVED_MEM_OFFSET, 41), Error::OverlappingReservedMem);
    assert_fault(&with_field(RESERVED_MEM_OFFSET, 64), Error::OverlappingReservedMem);
}

#[test]
fn test_no_zero_reserved_mem_entry() {
    let mut entries = [0u8; 16];
    entries[15] = 1;
    assert_fault(&blob(&entries, &[0, 0, 0, 9], b""), Error::NoZeroReservedMemEntry);
    // A zero entry that does not start where an entry starts does not count, nor does the room
    // left in front of the structure block.
    let mut entries = [0u8; 40];
    entries[7] = 1;
    entries[31] = 1;
    assert_fault(&blob(&entries, &[0, 0, 0, 9], b""), Error::NoZeroReservedMemEntry);
}

/// The text of the memory reservations that a reader of the given blob shows.
fn shown_reserved_mem(bytes: &[u8]) -> String {
    let shown = format!("{:?}", DtbReader::new(bytes).unwrap());
    let start = shown.find("reserved_mem: ").unwrap();
    let end = shown.find(", struct_block").unwrap();
    shown[start..end].to_string()
}

#[test]
fn reserved_mem_ends_at_the_first_zero_entry() {
    let mut entries = [0u8; 64];
    entries[..8].copy_from_slice(&[1, 2, 3, 4, 5, 6, 7, 8]);
    entries[15] = 9;
    entries[24] = 3;
    let expected = [
        ReservedMemEntry {
            address: u64::from_ne_bytes([1, 2, 3, 4, 5, 6, 7, 8]),
            size: u64::from_ne_bytes([0, 0, 0, 0, 0, 0, 0, 9]),
        },
        ReservedMemEntry { address: 0, size: u64::from_ne_bytes([3, 0, 0, 0, 0, 0, 0, 0]) },
    ];
    let shown = shown_reserved_mem(&blob(&entries, &[0, 0, 0, 9], b""));
    assert_eq!(shown, format!("reserved_mem: {:?}", expected));
    assert_eq!(shown_reserved_mem(&plain()), "reserved_mem: []");
}

#[test]
fn entries_are_in_the_byte_order_of_the_machine() {
    let bytes: Vec<u8> = (1..=20).collect();
    let entry = read_entry(&bytes, 3);
    assert_eq!(entry.address, u64::from_ne_bytes([4, 5, 6, 7, 8, 9, 10, 11]));
    assert_eq!(entry.size, u64::from_ne_bytes([12, 13, 14, 15, 16, 17, 18, 19]));
    if is_little_endian() {
        assert_eq!(entry.address, 0x0b0a_0908_0706_0504);
    } else {
        assert_eq!(entry.address, 0x0405_0607_0809_0a0b);
    }
}

fn is_little_endian() -> bool {
    1u16.to_ne_bytes()[0] == 1
}

#[test]
fn header_fixes_the_size() {
    let bytes = plain();
    for len in 0..bytes.len() {
        let error = if len < 4 {
            Error::BadMagic
        } else if len < 40 {
            Error::UnexpectedEndOfBlob
        } else {
            Error::BadTotalSize
        };
        assert_fault(&bytes[..len], error);
    }
    let mut longer = bytes.clone();
    for _ in 0..9 {
        longer.push(0);
        assert_fault(&longer, Error::BadTotalSize);
    }
}

#[test]
fn test_unaligned_struct() {
    let mut bytes = plain();
    set_field(&mut bytes, STRUCT_OFFSET, 57);
    assert_fault(&bytes, Error::UnalignedStruct);
}

#[test]
fn test_unaligned_struct2() {
    assert_fault(&with_field(STRUCT_SIZE, 3), Error::UnalignedStruct);
}

#[test]
fn test_overlapping_struct() {
    assert_fault(&with_field(STRUCT_SIZE, 8), Error::OverlappingStruct);
    assert_fault(&with_field(STRINGS_OFFSET, 59), Error::OverlappingStruct);
}

#[test]
fn test_overlapping_strings() {
    assert_fault(&with_field(STRINGS_SIZE, 3), Error::OverlappingStrings);
    assert_fault(&with_field(STRINGS_OFFSET, 61), Error::OverlappingStrings);
}

#[test]
fn reserved_mem_out_of_range() {
    assert_out_of_range(&with_field(RESERVED_MEM_OFFSET, u32::MAX - 15));
    assert_out_of_range(&with_field(STRUCT_OFFSET, 1000));
    assert_fault(&with_field(RESERVED_MEM_OFFSET, u32::MAX - 16), Error::OverlappingReservedMem);
}

#[test]
fn struct_block_out_of_range() {
    assert_out_of_range(&with_field(STRUCT_SIZE, u32::MAX - 3));
    let mut bytes = plain();
    set_field(&mut bytes, STRUCT_SIZE, 8);
    set_field(&mut bytes, STRINGS_OFFSET, 64);
    assert_out_of_range(&bytes);
}

#[test]
fn strings_block_out_of_range() {
    assert_out_of_range(&with_field(STRINGS_SIZE, u32::MAX));
}

#[test]
fn header_fields_are_big_endian() {
    let bytes = plain();
    assert_eq!(field(&bytes, STRUCT_OFFSET), 56);
    assert_eq!(field(&bytes, STRINGS_OFFSET), 60);
    assert_eq!(field(&bytes, TOTAL_SIZE), 62);
    let mut little = bytes.clone();
    little[4..8].copy_from_slice(&62u32.to_le_bytes());
    assert_fault(&little, Error::BadTotalSize);
}

fn be(words: &[u32]) -> Vec<u8> {
    let mut bytes = Vec::new();
    for word in words {
        bytes.extend_from_slice(&word.to_be_bytes());
    }
    bytes
}

fn last_error(iter: &mut DtbStructIterator) -> Error {
    loop {
        match iter.next() {
            Ok(_) => continue,
            Err(err) => return err,
        }
    }
}

/// The error at the end of the given structure block, which stays the same when read again.
fn struct_error(items: &[u8], strings: &[u8]) -> Error {
    let bytes = blob(&[0; 16], items, strings);
    let mut iter = DtbReader::new(&bytes).unwrap().struct_iter();
    let err = last_error(&mut iter);
    assert_eq!(iter.next(), Err(err));
    err
}

#[test]
fn test_unexpected_end_of_struct() {
    assert_eq!(struct_error(&[], b""), Error::UnexpectedEndOfStruct);
    assert_eq!(struct_error(&be(&[1, 0, 2]), b""), Error::UnexpectedEndOfStruct);
}

#[test]
fn test_bad_struct_token() {
    assert_eq!(struct_error(&be(&[1, 0, 5, 9]), b""), Error::BadStructToken);
    assert_eq!(struct_error(&be(&[0x0100_0000]), b""), Error::BadStructToken);
}

#[test]
fn test_bad_node_name() {
    assert_eq!(struct_error(&be(&[1, 0x6161_6161]), b""), Error::BadNodeName);
    assert_eq!(struct_error(&be(&[1]), b""), Error::BadNodeName);
}

#[test]
fn test_unexpected_end_of_struct2() {
    assert_eq!(struct_error(&be(&[1, 0, 3, 0]), b"a\0"), Error::UnexpectedEndOfStruct);
}

#[test]
fn test_unexpected_end_of_struct3() {
    assert_eq!(struct_error(&be(&[1, 0, 3, 5, 0, 0]), b"a\0"), Error::UnexpectedEndOfStruct);
    assert_eq!(struct_error(&be(&[3, u32::MAX, 0, 0]), b"a\0"), Error::UnexpectedEndOfStruct);
}

#[test]
fn test_bad_property_name() {
    assert_eq!(struct_error(&be(&[3, 0, 0, 9]), b"abc"), Error::BadPropertyName);
    assert_eq!(struct_error(&be(&[3, 0, 2, 9]), b"a\0"), Error::BadPropertyName);
}

#[test]
fn test_bad_str_encoding() {
    match struct_error(&be(&[1, 0x61ff_0000, 9]), b"") {
        Error::BadStrEncoding(err) => {
            assert_eq!(err.valid_up_to(), 1);
            assert_eq!(err.error_len(), Some(1));
        }
        other => panic!("unexpected error: {:?}", other),
    }
}

#[test]
fn test_bad_str_encoding2() {
    match struct_error(&be(&[3, 0, 1, 9]), b"aab\xc3\0") {
        Error::BadStrEncoding(err) => {
            assert_eq!(err.valid_up_to(), 2);
            assert_eq!(err.error_len(), None);
        }
        other => panic!("unexpected error: {:?}", other),
    }
}

#[test]
fn nops_are_invisible() {
    let items = be(&[4, 4, 1, 0x6100_0000, 4, 3, 1, 0, 0x0700_0000, 4, 2, 4, 9]);
    let bytes = blob(&[0; 16], &items, b"p\0");
    let mut iter = DtbReader::new(&bytes).unwrap().struct_iter();
    assert_eq!(iter.next(), Ok(StructItem::BeginNode { name: "a" }));
    assert_eq!(iter.next(), Ok(StructItem::Property { name: "p", value: &[7] }));
    assert_eq!(iter.next(), Ok(StructItem::EndNode));
    assert_eq!(iter.next(), Err(Error::NoMoreStructItems));
    assert_eq!(iter.next(), Err(Error::NoMoreStructItems));
}

#[test]
fn values_are_padded_to_tokens() {
    for size in 0..9usize {
        let value: Vec<u8> = (1..=size as u8).collect();
        let mut items = be(&[3, size as u32, 0]);
        items.extend_from_slice(&value);
        while items.len() % 4 != 0 {
            items.push(0xee);
        }
        items.extend_from_slice(&be(&[2, 9]));
        let bytes = blob(&[0; 16], &items, b"p\0");
        let mut iter = DtbReader::new(&bytes).unwrap().struct_iter();
        assert_eq!(iter.next(), Ok(StructItem::Property { name: "p", value: &value }));
        assert_eq!(iter.next(), Ok(StructItem::EndNode));
        assert_eq!(iter.next(), Err(Error::NoMoreStructItems));
    }
}

#[test]
fn property_names_share_the_strings_block() {
    let items = be(&[3, 0, 0, 3, 0, 2, 3, 0, 5, 9]);
    let bytes = blob(&[0; 16], &items, b"name\0\0");
    let mut iter = DtbReader::new(&bytes).unwrap().struct_iter();
    assert_eq!(iter.next(), Ok(StructItem::Property { name: "name", value: &[] }));
    assert_eq!(iter.next(), Ok(StructItem::Property { name: "me", value: &[] }));
    assert_eq!(iter.next(), Ok(StructItem::Property { name: "", value: &[] }));
}

#[test]
fn names_out_of_range() {
    let items = be(&[1, 0, 4, 3, 0, 3, 2, 9]);
    let bytes = blob(&[0; 16], &items, b"a\0");
    let mut iter = DtbReader::new(&bytes).unwrap().struct_iter();
    assert!(iter.name_in_range());
    assert_eq!(iter.try_next(), Some(Ok(StructItem::BeginNode { name: "" })));
    assert!(!iter.name_in_range());
    assert_eq!(iter.try_next(), None);
    assert_eq!(iter.try_next(), None);

    let root = DtbReader::new(&bytes).unwrap().struct_iter();
    assert_eq!(root.try_find("/").unwrap().unwrap().0, StructItem::BeginNode { name: "" });
    assert!(root.try_find("/a").is_none());
}

#[test]
fn items_run_out() {
    let items = be(&[2; 100]);
    let bytes = blob(&[0; 16], &items, b"");
    let mut iter = DtbReader::new(&bytes).unwrap().struct_iter();
    for _ in 0..100 {
        assert_eq!(iter.next(), Ok(StructItem::EndNode));
    }
    assert_eq!(iter.next(), Err(Error::UnexpectedEndOfStruct));
}

#[test]
fn find_reports_what_stopped_it() {
    let items = be(&[1, 0, 2, 7]);
    let bytes = blob(&[0; 16], &items, b"");
    let root = DtbReader::new(&bytes).unwrap().struct_iter();
    assert!(root.find("").is_ok());
    assert_eq!(root.find("/x").unwrap_err(), Error::BadStructToken);
    assert_eq!(root.try_find("/x").unwrap().unwrap_err(), Error::BadStructToken);
}

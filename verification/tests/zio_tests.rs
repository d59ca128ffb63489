use zfs::block_ptr::BlockPtr;
use zfs::dsl_pool::DslPool;
use zfs::dvaddr::DVAddr;
use zfs::from_bytes::{u64_at, FromBytes};
use zfs::lzjb::encode;
use zfs::uberblock::Uberblock;
use zfs::zfs::Error;
use zfs::zio::{block_extent, dva_extent, read_block, read_type_array, uber, uberblock_extent, Extent};

fn record(magic: u64, txg: u64) -> Vec<u8> {
    let words: [u64; 13] = [magic, 28, txg, 0xfeed, 1_700_000_000, 11, 12, 21, 22, 31, 32, 3, 8];
    let mut out: Vec<u8> = Vec::new();
    for w in words.iter() {
        out.extend_from_slice(&w.to_le_bytes());
    }
    out.resize(1024, 0);
    out
}

fn pointer(compression: u64, lsize: u64) -> BlockPtr {
    BlockPtr {
        dvas: [DVAddr::new(100, 4), DVAddr::new(200, 4), DVAddr::new(300, 4)],
        compression,
        lsize,
    }
}

#[test]
fn magic_numbers_are_each_other_swapped() {
    assert_eq!(Uberblock::magic_big(), 0x00bab10c);
    assert_eq!(Uberblock::magic_little(), 0x00bab10cu64.swap_bytes());
}

#[test]
fn words_are_read_lowest_byte_first() {
    let bytes: Vec<u8> = vec![0xff, 0x01, 0x02, 0x03, 0x04, 0x05, 0x06, 0x07, 0x08];
    assert_eq!(u64_at(&bytes, 1), 0x0807060504030201);
    assert_eq!(u64::from_bytes(&bytes), Ok(0x07060504030201ff));
    assert_eq!(u64::from_bytes(&[0xffu8; 8]), Ok(u64::MAX));
    assert_eq!(u64::from_bytes(&bytes[..7]), Err(Error::NotEnoughBytes));
}

#[test]
fn uberblock_fields_are_decoded_in_order() {
    let u = Uberblock::from_bytes(&record(0x00bab10c, 77)).unwrap();
    assert_eq!(u.magic, 0x00bab10c);
    assert_eq!(u.version, 28);
    assert_eq!(u.txg, 77);
    assert_eq!(u.guid_sum, 0xfeed);
    assert_eq!(u.timestamp, 1_700_000_000);
    assert_eq!(u.rootbp.dvas[0], DVAddr::new(11, 12));
    assert_eq!(u.rootbp.dvas[1], DVAddr::new(21, 22));
    assert_eq!(u.rootbp.dvas[2], DVAddr::new(31, 32));
    assert_eq!(u.rootbp.compression(), 3);
    assert_eq!(u.rootbp.lsize(), 8);
}

#[test]
fn uberblock_of_exactly_its_width_is_decoded() {
    let bytes: Vec<u8> = record(0x00bab10c, 4);
    assert!(Uberblock::from_bytes(&bytes[..104]).is_ok());
    assert_eq!(Uberblock::from_bytes(&bytes[..103]).err(), Some(Error::NotEnoughBytes));
    assert_eq!(Uberblock::from_bytes(&[]).err(), Some(Error::NotEnoughBytes));
}

#[test]
fn magic_is_accepted_in_either_byte_order() {
    assert!(Uberblock::from_bytes(&record(0x00bab10c, 1)).is_ok());
    let swapped = Uberblock::from_bytes(&record(0x00bab10cu64.swap_bytes(), 1)).unwrap();
    assert_eq!(swapped.magic, Uberblock::magic_little());
    assert_eq!(Uberblock::from_bytes(&record(0x00bab10d, 1)).err(), Some(Error::InvalidMagic));
    assert_eq!(Uberblock::from_bytes(&record(0, 1)).err(), Some(Error::InvalidMagic));
}

#[test]
fn newest_valid_uberblock_is_selected() {
    let slots: Vec<Vec<u8>> = vec![record(0x00bab10c, 5), record(0xdeadbeef, 9), record(0x00bab10c, 7)];
    let u = uber(&slots).unwrap();
    assert_eq!(u.txg, 7);
}

#[test]
fn first_of_equal_uberblocks_is_kept() {
    let mut first: Vec<u8> = record(0x00bab10c, 7);
    first[8] = 1;
    let mut second: Vec<u8> = record(0x00bab10c, 7);
    second[8] = 2;
    let slots: Vec<Vec<u8>> = vec![record(0x00bab10c, 3), first, second, vec![1u8, 2, 3]];
    let u = uber(&slots).unwrap();
    assert_eq!(u.txg, 7);
    assert_eq!(u.version, 1);
}

#[test]
fn ring_without_a_valid_slot_has_no_uberblock() {
    let mut slots: Vec<Vec<u8>> = Vec::new();
    assert_eq!(uber(&slots).err(), Some(Error::NoValidUberblock));
    for _ in 0..128 {
        slots.push(vec![0u8; 1024]);
    }
    slots[5] = Vec::new();
    slots[6] = record(0x0cb1ba00, 9);
    assert_eq!(uber(&slots).err(), Some(Error::NoValidUberblock));
    slots[127] = record(0x00bab10c, 0);
    assert_eq!(uber(&slots).unwrap().txg, 0);
}

#[test]
fn ring_slots_lie_two_sectors_apart() {
    assert_eq!(uberblock_extent(0), Extent { start: 256, sectors: 2 });
    assert_eq!(uberblock_extent(1), Extent { start: 258, sectors: 2 });
    assert_eq!(uberblock_extent(127), Extent { start: 510, sectors: 2 });
}

#[test]
fn block_lies_at_its_first_address() {
    assert_eq!(dva_extent(&DVAddr::new(9, 3)), Extent { start: 9, sectors: 3 });
    assert_eq!(block_extent(&pointer(2, 1)), Extent { start: 100, sectors: 4 });
    assert_eq!(DVAddr::new(9, 3).sector(), 9);
    assert_eq!(DVAddr::new(9, 3).asize(), 3);
}

#[test]
fn uncompressed_block_comes_back_unchanged() {
    let data: Vec<u8> = vec![1, 2, 3, 4, 5];
    assert_eq!(read_block(&pointer(2, 1), data.clone()), Ok(data));
}

#[test]
fn both_lzjb_modes_decode() {
    let mut logical: Vec<u8> = Vec::new();
    for i in 0..1024usize {
        logical.push((i % 7) as u8);
    }
    let mut stored: Vec<u8> = encode(&logical);
    assert!(stored.len() < 512);
    stored.resize(512, 0);
    assert_eq!(read_block(&pointer(1, 2), stored.clone()), Ok(logical.clone()));
    assert_eq!(read_block(&pointer(3, 2), stored.clone()), Ok(logical.clone()));
    assert_eq!(read_block(&pointer(3, 1), stored), Ok(logical[..512].to_vec()));
}

#[test]
fn corrupt_block_is_reported() {
    let stored: Vec<u8> = vec![0x01, 0x00, 0x05];
    assert_eq!(read_block(&pointer(1, 1), stored), Err(Error::CorruptStream));
}

#[test]
fn unknown_compression_is_unsupported() {
    let stored: Vec<u8> = vec![0x01, 0x00, 0x05];
    assert_eq!(read_block(&pointer(0, 1), stored.clone()), Err(Error::UnsupportedCompression));
    assert_eq!(read_block(&pointer(4, 1), stored.clone()), Err(Error::UnsupportedCompression));
    assert_eq!(read_block(&pointer(u64::MAX, 1), stored), Err(Error::UnsupportedCompression));
}

#[test]
fn records_are_read_by_index() {
    let mut data: Vec<u8> = Vec::new();
    for w in [5u64, 6, 7] {
        data.extend_from_slice(&w.to_le_bytes());
    }
    data.push(0xaa);
    assert_eq!(read_type_array::<u64>(&data, 0), Ok(5));
    assert_eq!(read_type_array::<u64>(&data, 2), Ok(7));
    assert_eq!(read_type_array::<u64>(&data, 3), Err(Error::NotEnoughBytes));
    assert_eq!(read_type_array::<u64>(&data, 4), Err(Error::NotEnoughBytes));
    assert_eq!(read_type_array::<u64>(&data, usize::MAX), Err(Error::NotEnoughBytes));
    assert_eq!(<u64 as FromBytes>::record_width(), 8);
    assert_eq!(<Uberblock as FromBytes>::record_width(), 104);
}

#[test]
fn pool_opens_clean() {
    let pool = DslPool::new();
    assert_eq!(pool.dp_dirty_total, 0);
    let opened = DslPool::init(12).ok().unwrap();
    assert_eq!(opened.dp_dirty_total, 0);
}

#[test]
fn unknown_compression_is_unsupported_whatever_the_logical_size() {
    for stored in [Vec::new(), vec![0x01u8, 0x00, 0x05], encode(b"some bytes, some bytes")] {
        assert_eq!(read_block(&pointer(9, u64::MAX), stored.clone()), Err(Error::UnsupportedCompression));
        assert_eq!(read_block(&pointer(0, 0), stored), Err(Error::UnsupportedCompression));
    }
}

#[test]
fn uncompressed_block_ignores_the_logical_size() {
    let data: Vec<u8> = vec![9, 8, 7];
    assert_eq!(read_block(&pointer(2, u64::MAX), data.clone()), Ok(data.clone()));
    assert_eq!(read_block(&pointer(2, 0), data.clone()), Ok(data));
}

#[test]
fn only_the_first_address_counts() {
    let data: Vec<u8> = vec![1, 2, 3];
    let mut other = pointer(2, 1);
    other.dvas[1] = DVAddr::new(7, 7);
    other.dvas[2] = DVAddr::new(8, 8);
    assert_eq!(block_extent(&other), block_extent(&pointer(2, 1)));
    assert_eq!(read_block(&other, data.clone()), read_block(&pointer(2, 1), data));
}

#[test]
fn pool_has_no_root_directory_yet() {
    assert_eq!(DslPool::new().root_dir_obj, 0);
    assert_eq!(DslPool::init(3).ok().unwrap().root_dir_obj, 0);
}

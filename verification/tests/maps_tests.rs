use lib::emu32::console::Console;
use lib::emu32::maps::{Maps, SearchError};

fn maps_with(regions: &[(&str, u32, u32)]) -> Maps {
    let mut maps = Maps::new();
    for (name, base, size) in regions {
        let m = maps.create_map(name);
        m.set_base(*base);
        m.set_size(*size);
    }
    maps
}

#[test]
fn new_maps_is_empty() {
    let maps = Maps::new();
    assert_eq!(maps.len(), 0);
    assert!(!maps.is_mapped(0));
    assert_eq!(maps.read_byte(0x1000), None);
    assert_eq!(maps.size(), 0);
}

#[test]
fn create_map_starts_empty_at_zero() {
    let mut maps = Maps::new();
    let m = maps.create_map("stack");
    assert_eq!(m.get_base(), 0);
    assert_eq!(m.get_bottom(), 0);
    assert_eq!(m.size(), 0);
    assert_eq!(maps.len(), 1);
}

#[test]
fn create_map_replaces_same_name() {
    let mut maps = maps_with(&[("code", 0x400000, 0x100), ("data", 0x500000, 0x10)]);
    assert!(maps.write_byte(0x400010, 7));
    let m = maps.create_map("code");
    assert_eq!(m.size(), 0);
    assert_eq!(maps.len(), 2);
    assert!(!maps.is_mapped(0x400010));
    assert!(maps.is_mapped(0x500000));
}

#[test]
fn region_bounds_are_half_open() {
    let maps = maps_with(&[("code", 0x400000, 0x100)]);
    assert!(!maps.is_mapped(0x3fffff));
    assert!(maps.is_mapped(0x400000));
    assert!(maps.is_mapped(0x4000ff));
    assert!(!maps.is_mapped(0x400100));
}

#[test]
fn new_region_reads_zero() {
    let maps = maps_with(&[("code", 0x400000, 0x100)]);
    assert_eq!(maps.read_byte(0x400000), Some(0));
    assert_eq!(maps.read_dword(0x4000fc), Some(0));
}

#[test]
fn byte_read_after_write() {
    let mut maps = maps_with(&[("code", 0x400000, 0x100)]);
    assert!(maps.write_byte(0x400010, 0xab));
    assert_eq!(maps.read_byte(0x400010), Some(0xab));
    assert_eq!(maps.read_byte(0x400011), Some(0));
    assert_eq!(maps.read_byte(0x40000f), Some(0));
}

#[test]
fn word_read_after_write_is_little_endian() {
    let mut maps = maps_with(&[("code", 0x400000, 0x100)]);
    assert!(maps.write_word(0x400020, 0xbeef));
    assert_eq!(maps.read_word(0x400020), Some(0xbeef));
    assert_eq!(maps.read_byte(0x400020), Some(0xef));
    assert_eq!(maps.read_byte(0x400021), Some(0xbe));
}

#[test]
fn dword_read_after_write_is_little_endian() {
    let mut maps = maps_with(&[("code", 0x400000, 0x100)]);
    assert!(maps.write_dword(0x400040, 0x11223344));
    assert_eq!(maps.read_dword(0x400040), Some(0x11223344));
    assert_eq!(maps.read_byte(0x400040), Some(0x44));
    assert_eq!(maps.read_byte(0x400041), Some(0x33));
    assert_eq!(maps.read_byte(0x400042), Some(0x22));
    assert_eq!(maps.read_byte(0x400043), Some(0x11));
    assert_eq!(maps.read_word(0x400042), Some(0x1122));
}

#[test]
fn writes_to_unmapped_addresses_fail() {
    let mut maps = maps_with(&[("code", 0x400000, 0x100)]);
    assert!(!maps.write_byte(0x10, 1));
    assert!(!maps.write_word(0x10, 1));
    assert!(!maps.write_dword(0x10, 1));
    assert_eq!(maps.read_byte(0x10), None);
    assert_eq!(maps.read_word(0x10), None);
    assert_eq!(maps.read_dword(0x10), None);
}

#[test]
fn first_created_region_wins_where_regions_overlap() {
    let mut maps = maps_with(&[("a", 0x1000, 0x100), ("b", 0x1080, 0x100)]);
    assert!(maps.write_byte(0x1090, 5));
    assert_eq!(maps.get_addr_name(0x1090), Some("a".to_string()));
    assert_eq!(maps.get_addr_name(0x1100), Some("b".to_string()));
    assert_eq!(maps.read_byte(0x1090), Some(5));
    assert_eq!(maps.get_mem("b").read_byte(0x1090), 0);
}

#[test]
fn get_addr_name_and_get_mem_by_addr() {
    let maps = maps_with(&[("code", 0x400000, 0x100), ("stack", 0x22000, 0x1000)]);
    assert_eq!(maps.get_addr_name(0x22800), Some("stack".to_string()));
    assert_eq!(maps.get_addr_name(0x10), None);
    let m = maps.get_mem_by_addr(0x400001).unwrap();
    assert_eq!(m.get_base(), 0x400000);
    assert_eq!(m.get_bottom(), 0x400100);
    assert!(maps.get_mem_by_addr(0x500000).is_none());
}

#[test]
fn get_mem_gives_the_named_region() {
    let mut maps = maps_with(&[("code", 0x400000, 0x100), ("stack", 0x22000, 0x1000)]);
    let m = maps.get_mem("stack");
    assert_eq!(m.get_base(), 0x22000);
    m.write_byte(0x22004, 9);
    assert_eq!(maps.read_byte(0x22004), Some(9));
}

#[test]
fn memcpy_copies_between_regions() {
    let mut maps = maps_with(&[("src", 0x1000, 0x10), ("dst", 0x2000, 0x10)]);
    for i in 0..4u32 {
        maps.write_byte(0x1000 + i, (i + 1) as u8);
    }
    assert!(maps.memcpy(0x2004, 0x1000, 4));
    assert_eq!(maps.read_dword(0x2004), Some(0x04030201));
    assert_eq!(maps.read_byte(0x2003), Some(0));
    assert_eq!(maps.read_byte(0x2008), Some(0));
}

#[test]
fn memcpy_fails_on_unmapped_source_after_copying_prefix() {
    let mut maps = maps_with(&[("src", 0x1000, 0x2), ("dst", 0x2000, 0x10)]);
    maps.write_byte(0x1000, 0xaa);
    maps.write_byte(0x1001, 0xbb);
    assert!(!maps.memcpy(0x2000, 0x1000, 4));
    assert_eq!(maps.read_byte(0x2000), Some(0xaa));
    assert_eq!(maps.read_byte(0x2001), Some(0xbb));
    assert_eq!(maps.read_byte(0x2002), Some(0));
}

#[test]
fn memcpy_fails_on_unmapped_destination() {
    let mut maps = maps_with(&[("src", 0x1000, 0x10), ("dst", 0x2000, 0x2)]);
    maps.write_byte(0x1002, 0xcc);
    assert!(!maps.memcpy(0x2000, 0x1000, 3));
    assert_eq!(maps.read_byte(0x2000), Some(0));
}

#[test]
fn memcpy_forward_overlap_repeats_first_byte() {
    let mut maps = maps_with(&[("buf", 0x1000, 0x10)]);
    for i in 0..4u32 {
        maps.write_byte(0x1000 + i, (i + 1) as u8);
    }
    assert!(maps.memcpy(0x1001, 0x1000, 3));
    assert_eq!(maps.read_dword(0x1000), Some(0x01010101));
}

#[test]
fn memcpy_of_zero_bytes_succeeds_anywhere() {
    let mut maps = Maps::new();
    assert!(maps.memcpy(0x10, 0x20, 0));
}

#[test]
fn size_sums_region_sizes() {
    let maps = maps_with(&[("a", 0x1000, 0x100), ("b", 0x5000, 0x20), ("c", 0x9000, 0)]);
    assert_eq!(maps.size(), 0x120);
}

#[test]
fn read_bytes_in_and_out_of_range() {
    let mut maps = maps_with(&[("a", 0x1000, 0x8)]);
    maps.write_dword(0x1004, 0x04030201);
    assert_eq!(maps.read_bytes(0x1004, 4), &[1, 2, 3, 4]);
    assert_eq!(maps.read_bytes(0x1004, 5), &[] as &[u8]);
    assert_eq!(maps.read_bytes(0x2000, 1), &[] as &[u8]);
    assert_eq!(maps.read_bytes(0x1000, 0), &[] as &[u8]);
}

#[test]
fn read_string_of_bytes_is_hex_listing() {
    let mut maps = maps_with(&[("a", 0x1000, 0x8)]);
    maps.write_byte(0x1000, 0x0a);
    maps.write_byte(0x1001, 0xff);
    maps.write_byte(0x1002, 0x10);
    assert_eq!(maps.read_string_of_bytes(0x1000, 3), "0a ff 10 ");
    assert_eq!(maps.read_string_of_bytes(0x1000, 9), "");
    assert_eq!(maps.read_string_of_bytes(0x9000, 1), "");
}

fn put_bytes(maps: &mut Maps, addr: u32, bytes: &[u8]) {
    for (i, b) in bytes.iter().enumerate() {
        assert!(maps.write_byte(addr + i as u32, *b));
    }
}

#[test]
fn read_string_stops_at_zero() {
    let mut maps = maps_with(&[("a", 0x1000, 0x10)]);
    put_bytes(&mut maps, 0x1000, b"hello\0world");
    assert_eq!(maps.read_string(0x1000), "hello");
    assert_eq!(maps.read_string(0x1006), "world");
    assert_eq!(maps.read_string(0x1005), "");
}

#[test]
fn read_string_stops_at_region_end() {
    let mut maps = maps_with(&[("a", 0x1000, 0x3)]);
    put_bytes(&mut maps, 0x1000, b"abc");
    assert_eq!(maps.read_string(0x1000), "abc");
    assert_eq!(maps.read_string(0x7000), "");
}

#[test]
fn read_string_maps_high_bytes_to_latin1() {
    let mut maps = maps_with(&[("a", 0x1000, 0x3)]);
    put_bytes(&mut maps, 0x1000, &[0xe9, 0x41, 0]);
    assert_eq!(maps.read_string(0x1000), "\u{e9}A");
}

#[test]
fn read_wide_string_takes_low_bytes() {
    let mut maps = maps_with(&[("a", 0x1000, 0x10)]);
    put_bytes(&mut maps, 0x1000, &[b'n', 0, b't', 0, b'd', 0, 0, 0, b'x', 0]);
    assert_eq!(maps.read_wide_string(0x1000), "ntd");
    assert_eq!(maps.read_wide_string(0x1008), "x");
}

#[test]
fn dump_reads_up_to_thirty_two_dwords() {
    let mut maps = maps_with(&[("a", 0x1000, 0x200)]);
    maps.write_dword(0x1000, 0x64636261);
    let bytes = maps.dump(0x1000);
    assert_eq!(bytes.len(), 128);
    assert_eq!(&bytes[0..4], b"abcd");
    assert!(bytes[4..].iter().all(|b| *b == 0));
}

#[test]
fn dump_stops_at_unmapped_dword() {
    let mut maps = maps_with(&[("a", 0x1000, 0x8)]);
    maps.write_dword(0x1004, 0x01020304);
    let bytes = maps.dump(0x1000);
    assert_eq!(bytes, vec![0, 0, 0, 0, 4, 3, 2, 1]);
    assert_eq!(maps.dump(0x5000), Vec::<u8>::new());
}

#[test]
fn allocate_skips_mapped_multiples() {
    let maps = maps_with(&[("a", 0x1000, 0x2000)]);
    assert_eq!(maps.allocate(0x1000), Some(0x3000));
    assert_eq!(maps.allocate(0x800), Some(0x800));
}

#[test]
fn allocate_of_zero_gives_zero_when_unmapped() {
    let maps = Maps::new();
    assert_eq!(maps.allocate(0), Some(0));
}

#[test]
fn allocate_fails_past_limit() {
    let maps = Maps::new();
    assert_eq!(maps.allocate(0x70000000), None);
    assert_eq!(maps.allocate(0x80000000), None);
    let full = maps_with(&[
        ("a", 0x10000000, 1),
        ("b", 0x20000000, 1),
        ("c", 0x30000000, 1),
        ("d", 0x40000000, 1),
        ("e", 0x50000000, 1),
        ("f", 0x60000000, 1),
    ]);
    assert_eq!(full.allocate(0x10000000), None);
    assert_eq!(full.allocate(0x08000000), Some(0x08000000));
}

#[test]
fn search_bytes_lists_every_match() {
    let mut maps = maps_with(&[("a", 0x1000, 0x10)]);
    put_bytes(&mut maps, 0x1000, &[1, 2, 3, 1, 2, 3, 1, 2, 9]);
    let found = maps.search_bytes(vec![1, 2, 3], &"a".to_string());
    assert_eq!(found, Ok(vec![0x1000, 0x1003]));
    let none = maps.search_bytes(vec![7, 7], &"a".to_string());
    assert_eq!(none, Ok(vec![]));
}

#[test]
fn search_bytes_in_missing_map() {
    let maps = maps_with(&[("a", 0x1000, 0x10)]);
    assert_eq!(maps.search_bytes(vec![1], &"b".to_string()), Err(SearchError::MapNotFound));
}

#[test]
fn search_empty_pattern_matches_everywhere() {
    let maps = maps_with(&[("a", 0x1000, 0x3)]);
    assert_eq!(maps.search_bytes(vec![], &"a".to_string()), Ok(vec![0x1000, 0x1001, 0x1002]));
}

#[test]
fn search_string_finds_utf8_bytes() {
    let mut maps = maps_with(&[("a", 0x1000, 0x10)]);
    put_bytes(&mut maps, 0x1000, b"xxcmd.exexx");
    let found = maps.search_string(&"cmd.exe".to_string(), &"a".to_string());
    assert_eq!(found, Ok(vec![0x1002]));
    assert_eq!(
        maps.search_string(&"cmd".to_string(), &"z".to_string()),
        Err(SearchError::MapNotFound)
    );
}

#[test]
fn search_spaced_bytes_parses_hex() {
    let mut maps = maps_with(&[("a", 0x1000, 0x10)]);
    put_bytes(&mut maps, 0x1004, &[0x90, 0xcc, 0xff]);
    let found = maps.search_spaced_bytes(&"90 CC +ff".to_string(), &"a".to_string());
    assert_eq!(found, Ok(vec![0x1004]));
}

#[test]
fn search_spaced_bytes_rejects_bad_hex() {
    let maps = maps_with(&[("a", 0x1000, 0x10)]);
    assert_eq!(
        maps.search_spaced_bytes(&"90 zz".to_string(), &"a".to_string()),
        Err(SearchError::BadHex)
    );
    assert_eq!(
        maps.search_spaced_bytes(&"90  cc".to_string(), &"a".to_string()),
        Err(SearchError::BadHex)
    );
    assert_eq!(
        maps.search_spaced_bytes(&"100".to_string(), &"a".to_string()),
        Err(SearchError::BadHex)
    );
    assert_eq!(
        maps.search_spaced_bytes(&"90".to_string(), &"b".to_string()),
        Err(SearchError::MapNotFound)
    );
}

#[test]
fn search_space_bytes_in_all_reports_each_region() {
    let mut maps = maps_with(&[("a", 0x1000, 0x10), ("b", 0x2000, 0x10)]);
    put_bytes(&mut maps, 0x1001, &[0xde, 0xad]);
    put_bytes(&mut maps, 0x2008, &[0xde, 0xad]);
    let found = maps.search_space_bytes_in_all("de ad".to_string());
    assert_eq!(found, Ok(vec![vec![0x1001], vec![0x2008]]));
    assert_eq!(maps.search_space_bytes_in_all("de xx".to_string()), Err(SearchError::BadHex));
    assert_eq!(Maps::new().search_space_bytes_in_all("xx".to_string()), Ok(vec![]));
}

#[test]
fn search_string_in_all_reports_each_region() {
    let mut maps = maps_with(&[("a", 0x1000, 0x10), ("b", 0x2000, 0x10)]);
    put_bytes(&mut maps, 0x2003, b"key");
    assert_eq!(maps.search_string_in_all("key".to_string()), vec![vec![], vec![0x2003]]);
}

#[test]
fn write_spaced_bytes_keeps_last_byte_at_address() {
    let mut maps = maps_with(&[("a", 0x1000, 0x10)]);
    assert!(maps.write_spaced_bytes(0x1000, "41 42 43".to_string()));
    assert_eq!(maps.read_byte(0x1000), Some(0x43));
    assert_eq!(maps.read_byte(0x1001), Some(0));
}

#[test]
fn write_spaced_bytes_to_unmapped_address() {
    let mut maps = maps_with(&[("a", 0x1000, 0x10)]);
    assert!(!maps.write_spaced_bytes(0x5000, "41 zz".to_string()));
}

#[test]
fn console_new() {
    let _c = Console::new();
}

#[test]
fn maps_summary_lists_regions_in_order() {
    let maps = maps_with(&[("code", 0x400000, 0x100), ("stack", 0x22000, 0x1000)]);
    assert_eq!(
        maps.maps_summary(),
        vec![("code".to_string(), 0x400000, 0x400100), ("stack".to_string(), 0x22000, 0x23000)]
    );
}

#[test]
fn has_room_checks_region_end() {
    let maps = maps_with(&[("a", 0x1000, 0x8)]);
    assert!(maps.has_room(0x1004, 4));
    assert!(maps.has_room(0x1006, 2));
    assert!(!maps.has_room(0x1007, 2));
    assert!(!maps.has_room(0x1005, 4));
    assert!(maps.has_room(0x5000, 4));
}

#[test]
fn scan_checks_tail_prefixes() {
    let mut maps = maps_with(&[("a", 0x1000, 0x8), ("b", 0x2000, 0x4)]);
    put_bytes(&mut maps, 0x1006, b"ab");
    let a = "a".to_string();
    assert!(!maps.scan_stays_in_map(b"abc", &a));
    assert!(maps.scan_stays_in_map(b"xyz", &a));
    assert!(maps.scan_stays_in_map(b"ab", &a));
    assert!(maps.scan_stays_in_map(b"abc", &"zz".to_string()));
    assert!(!maps.scan_stays_in_all(b"abc"));
    assert!(maps.scan_stays_in_all(b"xyz"));
    assert!(maps.scan_stays_in_all(b""));
}

#[test]
fn dump_check_finds_split_dword() {
    let whole = maps_with(&[("a", 0x1000, 0x8)]);
    assert!(whole.dump_stays_inside(0x1000));
    let split = maps_with(&[("a", 0x1000, 0x6)]);
    assert!(!split.dump_stays_inside(0x1000));
    assert!(split.dump_stays_inside(0x9000));
}

#[test]
fn search_in_all_equals_search_by_each_name() {
    let mut maps = maps_with(&[("a", 0x1000, 0x10), ("b", 0x2000, 0x10)]);
    put_bytes(&mut maps, 0x1003, &[0x41, 0x42]);
    put_bytes(&mut maps, 0x200a, &[0x41, 0x42]);
    let all = maps.search_space_bytes_in_all("41 42".to_string()).unwrap();
    let all_str = maps.search_string_in_all("AB".to_string());
    for (i, (name, _, _)) in maps.maps_summary().iter().enumerate() {
        assert_eq!(Ok(all[i].clone()), maps.search_spaced_bytes(&"41 42".to_string(), name));
        assert_eq!(Ok(all_str[i].clone()), maps.search_string(&"AB".to_string(), name));
    }
}

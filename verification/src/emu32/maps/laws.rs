use vstd::prelude::*;
use crate::emu32::maps::mem32::{
    MemRegion, word_bytes, dword_bytes, lemma_word_roundtrip, lemma_dword_roundtrip,
};
use crate::emu32::maps::hex::{
    all_bytes, spaced_hex, hex_byte, cased_digit, law_hex_two_digits,
};
use crate::emu32::maps::{
    SearchError, bytes_search, string_search, spaced_search, matches_at, match_list, matches_in, MapsView, maps_wf, region_index, name_index, is_mapped_spec, byte_at, word_at, dword_at,
    room_at, store_at, copy_run, lemma_region_index, lemma_name_index, lemma_store_keeps_layout,
    hex_digit, hex_listing, total_size, bytes_at, string_from, wide_from, multiple, dump_from,
    dump_fits,
};

verus! {

/// A byte stored at a mapped address is read back from it.
pub proof fn law_read_byte_after_write(s: MapsView, a: int, v: u8)
    requires
        is_mapped_spec(s, a),
    ensures
        byte_at(store_at(s, a, seq![v]), a) == Some(v),
{
    lemma_region_index(s, a);
    lemma_store_keeps_layout(s, a, seq![v]);
}

/// Storing a byte at one address leaves every other address as it was.
pub proof fn law_write_byte_elsewhere(s: MapsView, a: int, b: int, v: u8)
    requires
        a != b,
    ensures
        byte_at(store_at(s, a, seq![v]), b) == byte_at(s, b),
{
    lemma_region_index(s, a);
    lemma_region_index(s, b);
    lemma_store_keeps_layout(s, a, seq![v]);
}

/// A word stored at a mapped address with room for it is read back from it.
pub proof fn law_read_word_after_write(s: MapsView, a: int, v: u16)
    requires
        is_mapped_spec(s, a),
        room_at(s, a, 2),
    ensures
        word_at(store_at(s, a, word_bytes(v)), a) == Some(v),
{
    lemma_region_index(s, a);
    lemma_store_keeps_layout(s, a, word_bytes(v));
    lemma_word_roundtrip(v);
}

/// A double word stored at a mapped address with room for it is read back from it.
pub proof fn law_read_dword_after_write(s: MapsView, a: int, v: u32)
    requires
        is_mapped_spec(s, a),
        room_at(s, a, 4),
    ensures
        dword_at(store_at(s, a, dword_bytes(v)), a) == Some(v),
{
    lemma_region_index(s, a);
    lemma_store_keeps_layout(s, a, dword_bytes(v));
    lemma_dword_roundtrip(v);
}

/// Storing at an address no region holds changes nothing.
pub proof fn law_write_unmapped_changes_nothing(s: MapsView, a: int, data: Seq<u8>)
    requires
        !is_mapped_spec(s, a),
    ensures
        store_at(s, a, data) == s,
{
}

/// Storing never maps or unmaps an address.
pub proof fn law_write_keeps_mapping(s: MapsView, a: int, data: Seq<u8>, b: int)
    ensures
        is_mapped_spec(store_at(s, a, data), b) == is_mapped_spec(s, b),
{
    lemma_store_keeps_layout(s, a, data);
}

/// Once a region is created under a name, looking the name up finds it: in place of
/// the region that had the name, or after all the others.
pub proof fn law_create_then_lookup(s: MapsView, name: Seq<char>, r: MemRegion)
    requires
        maps_wf(s),
    ensures
        match name_index(s, name) {
            Some(i) => name_index(s.update(i, (name, r)), name) == Some(i),
            None => name_index(s.push((name, r)), name) == Some(s.len() as int),
        },
{
    lemma_name_index(s, name);
    match name_index(s, name) {
        Some(i) => {
            let t = s.update(i, (name, r));
            lemma_name_index(t, name);
            match name_index(t, name) {
                Some(j) => {
                    if j != i {
                        assert(t[j].0 == s[j].0);
                    }
                },
                None => {
                    assert(t[i].0 == name);
                },
            }
        },
        None => {
            let t = s.push((name, r));
            lemma_name_index(t, name);
            match name_index(t, name) {
                Some(j) => {
                    if j < s.len() {
                        assert(t[j].0 == s[j].0);
                    }
                },
                None => {
                    assert(t[s.len() as int].0 == name);
                },
            }
        },
    }
}

/// Both the `k`-th source and the `k`-th destination address of a copy are mapped.
pub open spec fn copy_pair_mapped(s: MapsView, to: int, from: int, k: int) -> bool {
    is_mapped_spec(s, from + k) && is_mapped_spec(s, to + k)
}

/// A byte-by-byte copy of `n` bytes succeeds exactly when every source and every
/// destination address is mapped; copying never changes which addresses are mapped.
pub proof fn law_copy_succeeds_iff_mapped(s: MapsView, to: int, from: int, n: nat)
    ensures
        copy_run(s, to, from, n).1 <==> forall|k: int|
            0 <= k < n ==> #[trigger] copy_pair_mapped(s, to, from, k),
        forall|x: int| is_mapped_spec(#[trigger] copy_run(s, to, from, n).0, x) == is_mapped_spec(s, x),
    decreases n,
{
    if n > 0 {
        let m = (n - 1) as nat;
        law_copy_succeeds_iff_mapped(s, to, from, m);
        let prev = copy_run(s, to, from, m);
        assert(byte_at(prev.0, from + m) is Some <==> is_mapped_spec(prev.0, from + m));
        if prev.1 {
            assert(is_mapped_spec(prev.0, from + m) == is_mapped_spec(s, from + m));
            assert(is_mapped_spec(prev.0, to + m) == is_mapped_spec(s, to + m));
            match byte_at(prev.0, from + m) {
                Some(b) => {
                    if is_mapped_spec(prev.0, to + m) {
                        lemma_store_keeps_layout(prev.0, to + m, seq![b]);
                    }
                },
                None => {},
            }
            if copy_run(s, to, from, n).1 {
                assert forall|k: int| 0 <= k < n implies #[trigger] copy_pair_mapped(s, to, from, k) by {
                    if k < m {
                        assert(copy_pair_mapped(s, to, from, k));
                    }
                }
            } else {
                assert(!copy_pair_mapped(s, to, from, m as int));
            }
        } else {
            let k0 = choose|k: int| 0 <= k < m && !#[trigger] copy_pair_mapped(s, to, from, k);
            assert(0 <= k0 < n && !copy_pair_mapped(s, to, from, k0));
        }
    }
}

/// Copying between ranges that do not overlap leaves, after `n` successful steps,
/// the source bytes at the destination and every address outside the destination
/// as it was.
pub proof fn law_copy_moves_bytes(s: MapsView, to: int, from: int, n: nat)
    requires
        to + n <= from || from + n <= to,
        copy_run(s, to, from, n).1,
    ensures
        forall|k: int| 0 <= k < n ==> #[trigger] byte_at(copy_run(s, to, from, n).0, to + k) == byte_at(s, from + k),
        forall|x: int|
            !(to <= x < to + n) ==> #[trigger] byte_at(copy_run(s, to, from, n).0, x) == byte_at(s, x),
    decreases n,
{
    if n > 0 {
        let m = (n - 1) as nat;
        law_copy_moves_bytes(s, to, from, m);
        let prev = copy_run(s, to, from, m);
        let b = byte_at(prev.0, from + m)->0;
        assert(byte_at(prev.0, from + m) == byte_at(s, from + m));
        let t = store_at(prev.0, to + m, seq![b]);
        law_read_byte_after_write(prev.0, to + m, b);
        assert forall|x: int| x != to + m implies #[trigger] byte_at(t, x) == byte_at(prev.0, x) by {
            law_write_byte_elsewhere(prev.0, to + m, x, b);
        }
    }
}

/// The search lists, in increasing order, exactly the addresses among the region's
/// first `n` at which the pattern lies.
pub proof fn law_match_list_exact(r: MemRegion, pat: Seq<u8>, n: nat)
    requires
        r.base + n <= u32::MAX + 1,
    ensures
        forall|k: int|
            0 <= k < match_list(r, pat, n).len() ==> r.base <= #[trigger] match_list(r, pat, n)[k]
                < r.base + n && matches_at(r, match_list(r, pat, n)[k] as int, pat),
        forall|a: int|
            r.base <= a < r.base + n && matches_at(r, a, pat) ==> match_list(r, pat, n).contains(
                a as u32,
            ),
        forall|k: int, l: int|
            0 <= k < l < match_list(r, pat, n).len() ==> #[trigger] match_list(r, pat, n)[k]
                < #[trigger] match_list(r, pat, n)[l],
    decreases n,
{
    if n > 0 {
        let m = (n - 1) as nat;
        law_match_list_exact(r, pat, m);
        let prev = match_list(r, pat, m);
        let cur = match_list(r, pat, n);
        let a0 = r.base + m;
        assert forall|a: int|
            r.base <= a < r.base + n && matches_at(r, a, pat) implies cur.contains(a as u32) by {
            if a < a0 {
                let k = choose|k: int| 0 <= k < prev.len() && prev[k] == a as u32;
                assert(cur[k] == prev[k]);
            } else {
                assert(cur[prev.len() as int] == a as u32);
            }
        }
    }
}

/// A region is searched at every one of its addresses.
pub proof fn law_matches_in_exact(r: MemRegion, pat: Seq<u8>, a: int)
    requires
        r.bottom() <= u32::MAX,
    ensures
        matches_in(r, pat).contains(a as u32) && r.holds(a) <==> r.holds(a) && matches_at(r, a, pat),
{
    law_match_list_exact(r, pat, r.bytes.len());
    if matches_in(r, pat).contains(a as u32) && r.holds(a) {
        let k = choose|k: int| 0 <= k < matches_in(r, pat).len() && matches_in(r, pat)[k] == a as u32;
        assert(r.base <= matches_in(r, pat)[k] < r.bottom());
    }
}

/// In well-formed maps each region is the one its name looks up.
pub proof fn law_each_map_found_by_its_name(s: MapsView, i: int)
    requires
        maps_wf(s),
        0 <= i < s.len(),
    ensures
        name_index(s, s[i].0) == Some(i),
{
    lemma_name_index(s, s[i].0);
    match name_index(s, s[i].0) {
        Some(j) => {
            if j != i {
                assert(s[j].0 == s[i].0);
            }
        },
        None => {},
    }
}

/// Searching every region for space-separated bytes gives, for each region, what a
/// search of that region by its name gives.
pub proof fn law_spaced_search_of_each_map(s: MapsView, sbs: Seq<char>, i: int)
    requires
        maps_wf(s),
        0 <= i < s.len(),
    ensures
        spaced_search(s, sbs, s[i].0) == match all_bytes(spaced_hex(sbs)) {
            None => Err(SearchError::BadHex),
            Some(p) => Ok(matches_in(s[i].1, p)),
        },
{
    law_each_map_found_by_its_name(s, i);
}

/// Searching every region for a string gives, for each region, what a search of that
/// region by its name gives; no region's search fails for want of a map.
pub proof fn law_string_search_of_each_map(s: MapsView, kw: Seq<char>, i: int)
    requires
        maps_wf(s),
        0 <= i < s.len(),
    ensures
        string_search(s, kw, s[i].0) == Ok::<Seq<u32>, SearchError>(
            matches_in(s[i].1, vstd::utf8::encode_utf8(kw)),
        ),
{
    law_each_map_found_by_its_name(s, i);
}

/// `c` is a lower-case hexadecimal digit.
pub open spec fn is_lower_hex(c: char) -> bool {
    ('0' <= c && c <= '9') || ('a' <= c && c <= 'f')
}

/// The listing of `read_string_of_bytes` is `format!("{:02x} ", b)` for each byte in
/// turn: three characters per byte, of which the first two are lower-case
/// hexadecimal digits that read back as the byte and the third is a space.
pub proof fn law_hex_listing_reads_back(bs: Seq<u8>)
    ensures
        hex_listing(bs).len() == 3 * bs.len(),
        forall|k: int|
            0 <= k < bs.len() ==> {
                let l = hex_listing(bs);
                &&& hex_byte(l.subrange(3 * k, 3 * k + 2)) == Some(#[trigger] bs[k])
                &&& is_lower_hex(l[3 * k])
                &&& is_lower_hex(l[3 * k + 1])
                &&& l[3 * k + 2] == ' '
            },
    decreases bs.len(),
{
    if bs.len() > 0 {
        let p = bs.drop_last();
        law_hex_listing_reads_back(p);
        let b = bs.last();
        let hi = b as int / 16;
        let lo = b as int % 16;
        let lp = hex_listing(p);
        let l = hex_listing(bs);
        assert(hex_digit(hi) == cased_digit(hi, false));
        assert(hex_digit(lo) == cased_digit(lo, false));
        law_hex_two_digits(hi, lo, false, false);
        assert(16 * hi + lo == b);
        assert forall|k: int| 0 <= k < bs.len() implies {
            &&& hex_byte(l.subrange(3 * k, 3 * k + 2)) == Some(#[trigger] bs[k])
            &&& is_lower_hex(l[3 * k])
            &&& is_lower_hex(l[3 * k + 1])
            &&& l[3 * k + 2] == ' '
        } by {
            if k < p.len() {
                assert(p[k] == bs[k]);
                assert(l.subrange(3 * k, 3 * k + 2) =~= lp.subrange(3 * k, 3 * k + 2));
            } else {
                assert(l.subrange(3 * k, 3 * k + 2) =~= seq![hex_digit(hi), hex_digit(lo)]);
            }
        }
    }
}

/// The size of the maps adds up the byte counts of the regions: no regions hold
/// nothing, and adding a region adds its byte count.
pub proof fn law_total_size_push(s: MapsView, r: (Seq<char>, MemRegion))
    ensures
        total_size(Seq::<(Seq<char>, MemRegion)>::empty()) == 0,
        total_size(s.push(r)) == total_size(s) + r.1.bytes.len(),
{
    assert(s.push(r).drop_last() =~= s);
}

/// The size of two lists of regions put together is the sum of their sizes.
pub proof fn law_total_size_concat(s: MapsView, t: MapsView)
    ensures
        total_size(s + t) == total_size(s) + total_size(t),
    decreases t.len(),
{
    if t.len() == 0 {
        assert(s + t =~= s);
    } else {
        law_total_size_concat(s, t.drop_last());
        assert((s + t).drop_last() =~= s + t.drop_last());
    }
}

/// Replacing region `i` changes the size by the difference of the two byte counts.
pub proof fn law_total_size_update(s: MapsView, i: int, r: (Seq<char>, MemRegion))
    requires
        0 <= i < s.len(),
    ensures
        total_size(s.update(i, r)) == total_size(s) - s[i].1.bytes.len() + r.1.bytes.len(),
{
    let a = s.take(i);
    let c = s.skip(i + 1);
    assert(s =~= a + seq![s[i]] + c);
    assert(s.update(i, r) =~= a + seq![r] + c);
    law_total_size_concat(a + seq![s[i]], c);
    law_total_size_concat(a + seq![r], c);
    law_total_size_push(a, s[i]);
    law_total_size_push(a, r);
    assert(a.push(s[i]) =~= a + seq![s[i]]);
    assert(a.push(r) =~= a + seq![r]);
}

/// Words are stored least significant byte first: after a word is written at a
/// mapped address with room for it, the two bytes read from there are its low byte
/// and then its high byte.
pub proof fn law_word_write_is_little_endian(s: MapsView, a: int, v: u16)
    requires
        is_mapped_spec(s, a),
        room_at(s, a, 2),
    ensures
        bytes_at(store_at(s, a, word_bytes(v)), a, 2) == seq![(v % 256) as u8, (v / 256) as u8],
{
    lemma_region_index(s, a);
    lemma_store_keeps_layout(s, a, word_bytes(v));
    let i = region_index(s, a)->0;
    let r = store_at(s, a, word_bytes(v))[i].1;
    assert(r.bytes.subrange(a - r.base, a - r.base + 2) =~= word_bytes(v));
}

/// Double words are stored least significant byte first.
pub proof fn law_dword_write_is_little_endian(s: MapsView, a: int, v: u32)
    requires
        is_mapped_spec(s, a),
        room_at(s, a, 4),
    ensures
        bytes_at(store_at(s, a, dword_bytes(v)), a, 4) == seq![
            (v % 256) as u8,
            ((v / 256) % 256) as u8,
            ((v / 65536) % 256) as u8,
            (v / 16777216) as u8,
        ],
{
    lemma_region_index(s, a);
    lemma_store_keeps_layout(s, a, dword_bytes(v));
    let i = region_index(s, a)->0;
    let r = store_at(s, a, dword_bytes(v))[i].1;
    assert(r.bytes.subrange(a - r.base, a - r.base + 4) =~= dword_bytes(v));
}

/// A word is read least significant byte first: the word at a mapped address with
/// room for it is the first of the two bytes there plus 256 times the second.
pub proof fn law_word_read_is_little_endian(s: MapsView, a: int)
    requires
        is_mapped_spec(s, a),
        room_at(s, a, 2),
    ensures
        ({
            let b = bytes_at(s, a, 2);
            &&& b.len() == 2
            &&& word_at(s, a) == Some((b[0] + 256 * b[1]) as u16)
        }),
{
    lemma_region_index(s, a);
}

/// A double word is read least significant byte first.
pub proof fn law_dword_read_is_little_endian(s: MapsView, a: int)
    requires
        is_mapped_spec(s, a),
        room_at(s, a, 4),
    ensures
        ({
            let b = bytes_at(s, a, 4);
            &&& b.len() == 4
            &&& dword_at(s, a) == Some((b[0] + 256 * b[1] + 65536 * b[2] + 16777216 * b[3]) as u32)
        }),
{
    lemma_region_index(s, a);
}

/// The character a text byte at `x` stands for: the byte there, when a region holds
/// `x` and the byte is not zero.
pub open spec fn text_char(s: MapsView, x: int) -> Option<char> {
    match byte_at(s, x) {
        Some(b) => if b != 0 {
            Some(b as char)
        } else {
            None
        },
        None => None,
    }
}

/// Character `k` of the C string read from `a` is the nonzero byte at `a + k`.
proof fn lemma_string_char(s: MapsView, a: int, k: int)
    requires
        0 <= a,
        0 <= k < string_from(s, a).len(),
    ensures
        byte_at(s, a + k) is Some,
        byte_at(s, a + k)->0 != 0,
        string_from(s, a)[k] == byte_at(s, a + k)->0 as char,
    decreases k,
{
    let b = byte_at(s, a)->0;
    assert(string_from(s, a) == seq![b as char] + string_from(s, a + 1));
    if k > 0 {
        lemma_string_char(s, a + 1, k - 1);
        assert(a + 1 + (k - 1) == a + k);
    }
}

/// A C string is read one byte per address from `a` on: each character is the
/// nonzero byte at its address, and the string ends at a zero byte, at an address
/// no region holds, or at the top of the address space.
pub proof fn law_string_from_reads_bytes(s: MapsView, a: int)
    requires
        0 <= a,
    ensures
        forall|k: int|
            0 <= k < string_from(s, a).len() ==> text_char(s, a + k) == Some(
                #[trigger] string_from(s, a)[k],
            ),
        a + string_from(s, a).len() >= u32::MAX || byte_at(s, a + string_from(s, a).len()) is None
            || byte_at(s, a + string_from(s, a).len()) == Some(0u8),
    decreases u32::MAX - a,
{
    assert forall|k: int| 0 <= k < string_from(s, a).len() implies text_char(s, a + k) == Some(
        #[trigger] string_from(s, a)[k],
    ) by {
        lemma_string_char(s, a, k);
    }
    if a < u32::MAX {
        match byte_at(s, a) {
            Some(b) => if b != 0 {
                law_string_from_reads_bytes(s, a + 1);
                assert(string_from(s, a) == seq![b as char] + string_from(s, a + 1));
            },
            None => {},
        }
    }
}

/// Character `k` of the wide string read from `a` is the nonzero byte at `a + 2 * k`.
proof fn lemma_wide_char(s: MapsView, a: int, k: int)
    requires
        0 <= a,
        0 <= k < wide_from(s, a).len(),
    ensures
        byte_at(s, a + 2 * k) is Some,
        byte_at(s, a + 2 * k)->0 != 0,
        wide_from(s, a)[k] == byte_at(s, a + 2 * k)->0 as char,
    decreases k,
{
    let b = byte_at(s, a)->0;
    if a + 2 <= u32::MAX {
        assert(wide_from(s, a) == seq![b as char] + wide_from(s, a + 2));
        if k > 0 {
            lemma_wide_char(s, a + 2, k - 1);
            assert(a + 2 + 2 * (k - 1) == a + 2 * k);
        }
    } else {
        assert(wide_from(s, a) == seq![b as char]);
    }
}

/// A wide string is read one 16-bit unit per two addresses from `a` on: character
/// `k` is the nonzero low byte at `a + 2 * k`, and the string ends at a zero byte,
/// at an address no region holds, or where the next unit would pass the top of the
/// address space.
pub proof fn law_wide_from_reads_units(s: MapsView, a: int)
    requires
        0 <= a,
    ensures
        forall|k: int|
            0 <= k < wide_from(s, a).len() ==> text_char(s, a + 2 * k) == Some(
                #[trigger] wide_from(s, a)[k],
            ),
        a + 2 * wide_from(s, a).len() > u32::MAX || byte_at(s, a + 2 * wide_from(s, a).len()) is None
            || byte_at(s, a + 2 * wide_from(s, a).len()) == Some(0u8),
    decreases u32::MAX - a,
{
    assert forall|k: int| 0 <= k < wide_from(s, a).len() implies text_char(s, a + 2 * k) == Some(
        #[trigger] wide_from(s, a)[k],
    ) by {
        lemma_wide_char(s, a, k);
    }
    if a <= u32::MAX {
        match byte_at(s, a) {
            Some(b) => if b != 0 {
                if a + 2 <= u32::MAX {
                    law_wide_from_reads_units(s, a + 2);
                    assert(wide_from(s, a) == seq![b as char] + wide_from(s, a + 2));
                } else {
                    assert(wide_from(s, a) == seq![b as char]);
                }
            },
            None => {},
        }
    }
}

/// The addresses `allocate` tries are `sz`, `2 * sz`, `3 * sz` and so on: the first
/// is `sz` itself and each next one is `sz` further on.
pub proof fn law_allocate_steps_by_size(sz: u32, k: int)
    requires
        k >= 1,
    ensures
        multiple(sz, 1) == sz,
        multiple(sz, k + 1) == multiple(sz, k) + sz,
{
    assert((k + 1) * sz == k * sz + sz) by (nonlinear_arith);
}

/// The four bytes of a double word read from memory, split again least significant
/// first, are the four bytes it was read from.
proof fn lemma_dword_bytes_of_value(b0: u8, b1: u8, b2: u8, b3: u8)
    ensures
        dword_bytes(crate::emu32::maps::mem32::dword_value(b0, b1, b2, b3) as u32) == seq![
            b0,
            b1,
            b2,
            b3,
        ],
{
    let v = crate::emu32::maps::mem32::dword_value(b0, b1, b2, b3) as u32;
    assert(v == b0 as u32 + 256 * (b1 as u32) + 65536 * (b2 as u32) + 16777216 * (b3 as u32));
    assert(v % 256 == b0 as u32 && (v / 256) % 256 == b1 as u32 && (v / 65536) % 256 == b2 as u32
        && v / 16777216 == b3 as u32) by (bit_vector)
        requires
            v == b0 as u32 + 256 * (b1 as u32) + 65536 * (b2 as u32) + 16777216 * (b3 as u32),
    ;
    assert(dword_bytes(crate::emu32::maps::mem32::dword_value(b0, b1, b2, b3) as u32) =~= seq![
        b0,
        b1,
        b2,
        b3,
    ]);
}

/// `dump` lists memory in address order: its output is whole double words, each
/// group of four bytes is the four bytes from `a + 4 * j` on as `read_bytes` gives
/// them, and where it stops short the next double word's address is unmapped.
pub proof fn law_dump_lists_memory(s: MapsView, a: int, n: nat)
    requires
        0 <= a,
        dump_fits(s, a, n),
    ensures
        dump_from(s, a, n).len() % 4 == 0,
        dump_from(s, a, n).len() <= 4 * n,
        forall|j: int|
            0 <= j < dump_from(s, a, n).len() / 4 ==> #[trigger] dump_from(s, a, n).subrange(
                4 * j,
                4 * j + 4,
            ) == bytes_at(s, a + 4 * j, 4),
        dump_from(s, a, n).len() < 4 * n ==> !is_mapped_spec(s, a + dump_from(s, a, n).len()),
    decreases n,
{
    if n > 0 {
        lemma_region_index(s, a);
        match dword_at(s, a) {
            None => {},
            Some(d) => {
                law_dump_lists_memory(s, a + 4, (n - 1) as nat);
                let i = region_index(s, a)->0;
                let r = s[i].1;
                let head = bytes_at(s, a, 4);
                assert(head =~= seq![
                    r.byte_at(a),
                    r.byte_at(a + 1),
                    r.byte_at(a + 2),
                    r.byte_at(a + 3),
                ]);
                lemma_dword_bytes_of_value(r.byte_at(a), r.byte_at(a + 1), r.byte_at(a + 2), r.byte_at(a + 3));
                let rest = dump_from(s, a + 4, (n - 1) as nat);
                let all = dump_from(s, a, n);
                assert(all == dword_bytes(d) + rest);
                assert(dword_bytes(d) == head);
                assert forall|j: int| 0 <= j < all.len() / 4 implies #[trigger] all.subrange(
                    4 * j,
                    4 * j + 4,
                ) == bytes_at(s, a + 4 * j, 4) by {
                    if j == 0 {
                        assert(all.subrange(0, 4) =~= head);
                    } else {
                        assert(all.subrange(4 * j, 4 * j + 4) =~= rest.subrange(
                            4 * (j - 1),
                            4 * (j - 1) + 4,
                        ));
                        assert(a + 4 + 4 * (j - 1) == a + 4 * j);
                    }
                }
                assert(a + 4 + rest.len() == a + all.len());
            },
        }
    }
}

} // verus!

use vstd::prelude::*;
use crate::emu::maps::mem64::{qword_bytes, lemma_qword_roundtrip};
use crate::emu::maps::{
    MapsView, maps_wf, is_mapped_spec, byte_at, qword_at, room_at, store_at, store_prefix,
    string_from, lemma_region_index, lemma_store_keeps_layout, lemma_mapped_below_top,
    region_index, wide_from,
};

verus! {

/// A quad word stored at a mapped address with room for it is read back from it.
pub proof fn law_read_qword_after_write(s: MapsView, a: int, v: u64)
    requires
        is_mapped_spec(s, a),
        room_at(s, a, 8),
    ensures
        qword_at(store_at(s, a, qword_bytes(v)), a) == Some(v),
{
    lemma_region_index(s, a);
    lemma_store_keeps_layout(s, a, qword_bytes(v));
    lemma_qword_roundtrip(v);
    let i = region_index_of(s, a);
    let r = s[i].1.store(a, qword_bytes(v));
    assert(r.bytes.subrange(a - r.base, a - r.base + 8) =~= qword_bytes(v));
}

/// Index of the region that holds a mapped address.
spec fn region_index_of(s: MapsView, a: int) -> int {
    crate::emu::maps::region_index(s, a)->0
}

/// Storing a byte at one address leaves every other address as it was.
pub proof fn law_write_byte_elsewhere(s: MapsView, a: int, b: int, v: u8)
    requires
        a != b,
    ensures
        byte_at(store_at(s, a, seq![v]), b) == byte_at(s, b),
{
    lemma_region_index(s, a);
    lemma_region_index(s, b);
    lemma_store_keeps_layout(s, a, seq![v]);
}

/// A byte stored at a mapped address is read back from it.
pub proof fn law_read_byte_after_write(s: MapsView, a: int, v: u8)
    requires
        is_mapped_spec(s, a),
    ensures
        byte_at(store_at(s, a, seq![v]), a) == Some(v),
{
    lemma_region_index(s, a);
    lemma_store_keeps_layout(s, a, seq![v]);
}

/// Storing the first `n` bytes of `d` one at a time from `a` on leaves each mapped
/// address in that range holding its byte, every other address as it was, and every
/// address mapped or not as before.
pub proof fn law_store_prefix_effect(s: MapsView, a: int, d: Seq<u8>, n: nat)
    requires
        n <= d.len(),
    ensures
        forall|x: int|
            #[trigger] byte_at(store_prefix(s, a, d, n), x) == if a <= x < a + n && is_mapped_spec(
                s,
                x,
            ) {
                Some(d[x - a])
            } else {
                byte_at(s, x)
            },
        forall|x: int| #[trigger] is_mapped_spec(store_prefix(s, a, d, n), x) == is_mapped_spec(s, x),
    decreases n,
{
    if n > 0 {
        let m = (n - 1) as nat;
        law_store_prefix_effect(s, a, d, m);
        let prev = store_prefix(s, a, d, m);
        lemma_store_keeps_layout(prev, a + m, seq![d[m as int]]);
        assert forall|x: int| #[trigger] is_mapped_spec(store_prefix(s, a, d, n), x) == is_mapped_spec(s, x) by {
            assert(is_mapped_spec(prev, x) == is_mapped_spec(s, x));
        }
        assert forall|x: int|
            #[trigger] byte_at(store_prefix(s, a, d, n), x) == if a <= x < a + n && is_mapped_spec(
                s,
                x,
            ) {
                Some(d[x - a])
            } else {
                byte_at(s, x)
            } by {
            if x == a + m {
                if is_mapped_spec(prev, x) {
                    law_read_byte_after_write(prev, x, d[m as int]);
                }
            } else {
                law_write_byte_elsewhere(prev, a + m, x, d[m as int]);
            }
        }
    }
}

/// The characters a string of bytes reads as.
pub open spec fn byte_chars(d: Seq<u8>) -> Seq<char> {
    d.map_values(|b: u8| b as char)
}

/// Nonzero bytes stored one at a time on mapped addresses from `a` on, followed by
/// an address that ends a string, read back from `a` as a string of those bytes.
pub proof fn law_string_read_after_write(s: MapsView, a: int, d: Seq<u8>)
    requires
        maps_wf(s),
        0 <= a,
        forall|k: int| #![trigger d[k]] 0 <= k < d.len() ==> d[k] != 0 && is_mapped_spec(s, a + k),
        match byte_at(s, a + d.len()) {
            Some(b) => b == 0,
            None => true,
        },
    ensures
        string_from(store_prefix(s, a, d, d.len()), a) == byte_chars(d),
{
    law_store_prefix_effect(s, a, d, d.len());
    lemma_string_tail(s, a, d, d.len() as int);
}

/// The string read from `a + k` after such a store is the bytes from `k` on.
proof fn lemma_string_tail(s: MapsView, a: int, d: Seq<u8>, k: int)
    requires
        maps_wf(s),
        0 <= a,
        0 <= k <= d.len(),
        forall|j: int| #![trigger d[j]] 0 <= j < d.len() ==> d[j] != 0 && is_mapped_spec(s, a + j),
        match byte_at(s, a + d.len()) {
            Some(b) => b == 0,
            None => true,
        },
        forall|x: int|
            #[trigger] byte_at(store_prefix(s, a, d, d.len()), x) == if a <= x < a + d.len()
                && is_mapped_spec(s, x) {
                Some(d[x - a])
            } else {
                byte_at(s, x)
            },
    ensures
        string_from(store_prefix(s, a, d, d.len()), a) == byte_chars(d),
    decreases k,
{
    let t = store_prefix(s, a, d, d.len());
    assert forall|j: int| 0 <= j <= d.len() implies #[trigger] string_from(t, a + j) == byte_chars(
        d.subrange(j, d.len() as int),
    ) by {
        lemma_string_from_suffix(s, a, d, j);
    }
    assert(d.subrange(0, d.len() as int) =~= d);
    assert(string_from(t, a + 0) == string_from(t, a));
}

/// The string read from `a + j` after such a store.
proof fn lemma_string_from_suffix(s: MapsView, a: int, d: Seq<u8>, j: int)
    requires
        maps_wf(s),
        0 <= a,
        0 <= j <= d.len(),
        forall|k: int| #![trigger d[k]] 0 <= k < d.len() ==> d[k] != 0 && is_mapped_spec(s, a + k),
        match byte_at(s, a + d.len()) {
            Some(b) => b == 0,
            None => true,
        },
        forall|x: int|
            #[trigger] byte_at(store_prefix(s, a, d, d.len()), x) == if a <= x < a + d.len()
                && is_mapped_spec(s, x) {
                Some(d[x - a])
            } else {
                byte_at(s, x)
            },
    ensures
        string_from(store_prefix(s, a, d, d.len()), a + j) == byte_chars(d.subrange(j, d.len() as int)),
    decreases d.len() - j,
{
    let t = store_prefix(s, a, d, d.len());
    if j == d.len() {
        assert(byte_chars(d.subrange(j, d.len() as int)) =~= Seq::<char>::empty());
        assert(byte_at(t, a + j) == byte_at(s, a + j));
    } else {
        lemma_string_from_suffix(s, a, d, j + 1);
        assert(d[j] != 0 && is_mapped_spec(s, a + j));
        lemma_mapped_below_top(s, a + j);
        assert(byte_at(t, a + j) == Some(d[j]));
        assert(byte_chars(d.subrange(j, d.len() as int)) =~= seq![d[j] as char] + byte_chars(
            d.subrange(j + 1, d.len() as int),
        ));
    }
}

/// Quad words are stored least significant byte first: after a quad word is written
/// at a mapped address with room for it, the eight bytes from there on in the region
/// that holds it are its bytes from the lowest to the highest.
pub proof fn law_qword_write_is_little_endian(s: MapsView, a: int, v: u64)
    requires
        is_mapped_spec(s, a),
        room_at(s, a, 8),
    ensures
        ({
            let r = store_at(s, a, qword_bytes(v))[region_index(s, a)->0].1;
            r.bytes.subrange(a - r.base, a - r.base + 8) == seq![
                (v % 0x100) as u8,
                ((v / 0x100) % 0x100) as u8,
                ((v / 0x1_0000) % 0x100) as u8,
                ((v / 0x100_0000) % 0x100) as u8,
                ((v / 0x1_0000_0000) % 0x100) as u8,
                ((v / 0x100_0000_0000) % 0x100) as u8,
                ((v / 0x1_0000_0000_0000) % 0x100) as u8,
                (v / 0x100_0000_0000_0000) as u8,
            ]
        }),
{
    lemma_region_index(s, a);
    lemma_store_keeps_layout(s, a, qword_bytes(v));
    let i = region_index(s, a)->0;
    let r = store_at(s, a, qword_bytes(v))[i].1;
    assert(r.bytes.subrange(a - r.base, a - r.base + 8) =~= qword_bytes(v));
    assert(((v % 0x1_0000_0000) / 0x100) % 0x100 == (v / 0x100) % 0x100) by (bit_vector);
    assert(((v % 0x1_0000_0000) / 0x1_0000) % 0x100 == (v / 0x1_0000) % 0x100) by (bit_vector);
    assert((v % 0x1_0000_0000) / 0x100_0000 == (v / 0x100_0000) % 0x100) by (bit_vector);
    assert((v % 0x1_0000_0000) % 0x100 == v % 0x100) by (bit_vector);
    assert(((v / 0x1_0000_0000) / 0x100) % 0x100 == (v / 0x100_0000_0000) % 0x100)
        by (bit_vector);
    assert(((v / 0x1_0000_0000) / 0x1_0000) % 0x100 == (v / 0x1_0000_0000_0000) % 0x100)
        by (bit_vector);
    assert((v / 0x1_0000_0000) / 0x100_0000 == v / 0x100_0000_0000_0000) by (bit_vector);
}

/// The character a text byte at `x` stands for: the byte there, when a region holds
/// `x` and the byte is not zero.
pub open spec fn text_char(s: MapsView, x: int) -> Option<char> {
    match byte_at(s, x) {
        Some(b) => if b != 0 {
            Some(b as char)
        } else {
            None
        },
        None => None,
    }
}

/// Character `k` of the wide string read from `a` is the nonzero byte at `a + 2 * k`.
proof fn lemma_wide_char(s: MapsView, a: int, k: int)
    requires
        0 <= a,
        0 <= k < wide_from(s, a).len(),
    ensures
        byte_at(s, a + 2 * k) is Some,
        byte_at(s, a + 2 * k)->0 != 0,
        wide_from(s, a)[k] == byte_at(s, a + 2 * k)->0 as char,
    decreases k,
{
    let b = byte_at(s, a)->0;
    if a + 2 <= u64::MAX {
        assert(wide_from(s, a) == seq![b as char] + wide_from(s, a + 2));
        if k > 0 {
            lemma_wide_char(s, a + 2, k - 1);
            assert(a + 2 + 2 * (k - 1) == a + 2 * k);
        }
    } else {
        assert(wide_from(s, a) == seq![b as char]);
    }
}

/// A wide string is read one 16-bit unit per two addresses from `a` on: character
/// `k` is the nonzero low byte at `a + 2 * k`, and the string ends at a zero byte,
/// at an address no region holds, or where the next unit would pass the top of the
/// address space.
pub proof fn law_wide_from_reads_units(s: MapsView, a: int)
    requires
        0 <= a,
    ensures
        forall|k: int|
            0 <= k < wide_from(s, a).len() ==> text_char(s, a + 2 * k) == Some(
                #[trigger] wide_from(s, a)[k],
            ),
        a + 2 * wide_from(s, a).len() > u64::MAX || byte_at(s, a + 2 * wide_from(s, a).len()) is None
            || byte_at(s, a + 2 * wide_from(s, a).len()) == Some(0u8),
    decreases u64::MAX - a,
{
    assert forall|k: int| 0 <= k < wide_from(s, a).len() implies text_char(s, a + 2 * k) == Some(
        #[trigger] wide_from(s, a)[k],
    ) by {
        lemma_wide_char(s, a, k);
    }
    if a <= u64::MAX {
        match byte_at(s, a) {
            Some(b) => if b != 0 {
                if a + 2 <= u64::MAX {
                    law_wide_from_reads_units(s, a + 2);
                    assert(wide_from(s, a) == seq![b as char] + wide_from(s, a + 2));
                } else {
                    assert(wide_from(s, a) == seq![b as char]);
                }
            },
            None => {},
        }
    }
}

} // verus!

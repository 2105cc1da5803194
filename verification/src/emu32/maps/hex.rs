use vstd::prelude::*;

verus! {

use crate::strings::string_chars;

/// The pieces of `s` between single spaces, as `str::split(" ")` gives them:
/// consecutive, leading and trailing spaces give empty pieces, and the empty string
/// is one empty piece.
pub open spec fn split_spaces(s: Seq<char>) -> Seq<Seq<char>>
    decreases s.len(),
{
    if s.len() == 0 {
        seq![Seq::empty()]
    } else {
        let t = split_spaces(s.drop_last());
        if s.last() == ' ' {
            t.push(Seq::empty())
        } else {
            t.update(t.len() - 1, t.last().push(s.last()))
        }
    }
}

/// `c` is a hexadecimal digit of either case.
pub open spec fn is_hex_digit(c: char) -> bool {
    ('0' <= c && c <= '9') || ('a' <= c && c <= 'f') || ('A' <= c && c <= 'F')
}

/// The value of the hexadecimal digit `c`.
pub open spec fn hex_digit_value(c: char) -> int {
    if c <= '9' {
        c as int - 48
    } else if c <= 'F' {
        c as int - 55
    } else {
        c as int - 87
    }
}

/// The number the hexadecimal digits `d` stand for, most significant first.
pub open spec fn hex_number(d: Seq<char>) -> int
    decreases d.len(),
{
    if d.len() == 0 {
        0
    } else {
        16 * hex_number(d.drop_last()) + hex_digit_value(d.last())
    }
}

/// The digits of `tok`, without one leading `+`.
pub open spec fn unsigned_digits(tok: Seq<char>) -> Seq<char> {
    if tok.len() > 0 && tok[0] == '+' {
        tok.drop_first()
    } else {
        tok
    }
}

/// The byte `tok` stands for, read as `u8::from_str_radix(tok, 16)` reads it: an
/// optional `+`, then at least one hexadecimal digit, with a value below 256.
pub open spec fn hex_byte(tok: Seq<char>) -> Option<u8> {
    let d = unsigned_digits(tok);
    if d.len() > 0 && (forall|i: int| 0 <= i < d.len() ==> is_hex_digit(#[trigger] d[i]))
        && hex_number(d) <= 255 {
        Some(hex_number(d) as u8)
    } else {
        None
    }
}

/// The bytes each space-separated piece of `s` stands for.
pub open spec fn spaced_hex(s: Seq<char>) -> Seq<Option<u8>> {
    split_spaces(s).map_values(|t: Seq<char>| hex_byte(t))
}

/// Every piece stands for a byte: the bytes, in order.
pub open spec fn all_bytes(toks: Seq<Option<u8>>) -> Option<Seq<u8>> {
    if forall|i: int| 0 <= i < toks.len() ==> #[trigger] toks[i] is Some {
        Some(toks.map_values(|t: Option<u8>| t->0))
    } else {
        None
    }
}

/// There is always at least one piece.
pub proof fn lemma_split_spaces_nonempty(s: Seq<char>)
    ensures
        split_spaces(s).len() >= 1,
    decreases s.len(),
{
    if s.len() > 0 {
        lemma_split_spaces_nonempty(s.drop_last());
    }
}

/// The hexadecimal digit for `d`, below 16: `0` to `9`, then `a` to `f`, or `A` to
/// `F` when `upper`.
pub open spec fn cased_digit(d: int, upper: bool) -> char {
    if d < 10 {
        ('0' as int + d) as char
    } else if upper {
        ('A' as int + d - 10) as char
    } else {
        ('a' as int + d - 10) as char
    }
}

/// A single character reads as a byte exactly when it is a hexadecimal digit of
/// either case, and then as that digit's value, as `u8::from_str_radix(c, 16)` does.
pub proof fn law_hex_single_digit(c: char)
    ensures
        '0' <= c <= '9' ==> hex_byte(seq![c]) == Some((c as int - '0' as int) as u8),
        'a' <= c <= 'f' ==> hex_byte(seq![c]) == Some((c as int - 'a' as int + 10) as u8),
        'A' <= c <= 'F' ==> hex_byte(seq![c]) == Some((c as int - 'A' as int + 10) as u8),
        !('0' <= c <= '9' || 'a' <= c <= 'f' || 'A' <= c <= 'F') ==> hex_byte(seq![c]) is None,
{
    let t = seq![c];
    assert(t.drop_last() =~= Seq::<char>::empty());
    assert(hex_number(Seq::<char>::empty()) == 0);
    assert(t.last() == c);
    assert(hex_number(t) == hex_digit_value(c));
    assert('0' as int == 48 && 'a' as int == 97 && 'A' as int == 65);
    if c == '+' {
        assert(unsigned_digits(t) =~= Seq::<char>::empty());
    } else {
        assert(unsigned_digits(t) == t);
        if !is_hex_digit(c) {
            assert(!is_hex_digit(t[0]));
        }
    }
}

/// Two digits, each in either case, read as the byte `16 * hi + lo`, as
/// `u8::from_str_radix` reads them.
pub proof fn law_hex_two_digits(hi: int, lo: int, upper_hi: bool, upper_lo: bool)
    requires
        0 <= hi < 16,
        0 <= lo < 16,
    ensures
        hex_byte(seq![cased_digit(hi, upper_hi), cased_digit(lo, upper_lo)]) == Some(
            (16 * hi + lo) as u8,
        ),
{
    let a = cased_digit(hi, upper_hi);
    let b = cased_digit(lo, upper_lo);
    let t = seq![a, b];
    assert(t.drop_last() =~= seq![a]);
    assert(seq![a].drop_last() =~= Seq::<char>::empty());
    assert(hex_number(Seq::<char>::empty()) == 0);
    assert(seq![a].last() == a);
    assert(t.last() == b);
    assert(unsigned_digits(t) == t);
    assert(hex_digit_value(a) == hi);
    assert(hex_digit_value(b) == lo);
    assert(hex_number(seq![a]) == hi);
    assert(hex_number(t) == 16 * hi + lo);
    assert(forall|i: int| 0 <= i < t.len() ==> is_hex_digit(#[trigger] t[i]));
}

/// A leading zero digit does not change a number.
proof fn lemma_hex_number_leading_zero(d: Seq<char>)
    ensures
        hex_number(seq!['0'] + d) == hex_number(d),
    decreases d.len(),
{
    if d.len() == 0 {
        assert((seq!['0'] + d).drop_last() =~= Seq::<char>::empty());
        assert(seq!['0'] + d =~= seq!['0']);
        assert(hex_number(Seq::<char>::empty()) == 0);
        assert(seq!['0'].last() == '0');
        assert(hex_digit_value('0') == 0);
        assert(hex_number(seq!['0']) == 0);
    } else {
        lemma_hex_number_leading_zero(d.drop_last());
        assert((seq!['0'] + d).drop_last() =~= seq!['0'] + d.drop_last());
        assert((seq!['0'] + d).last() == d.last());
    }
}

/// Leading zeros are allowed and change nothing: `0` before a token of digits reads
/// as the token does.
pub proof fn law_hex_leading_zero(t: Seq<char>)
    requires
        t.len() > 0,
        t[0] != '+',
    ensures
        hex_byte(seq!['0'] + t) == hex_byte(t),
{
    let z = seq!['0'] + t;
    lemma_hex_number_leading_zero(t);
    assert(z[0] == '0');
    assert(unsigned_digits(z) == z);
    assert(unsigned_digits(t) == t);
    if forall|i: int| 0 <= i < t.len() ==> is_hex_digit(#[trigger] t[i]) {
        assert forall|i: int| 0 <= i < z.len() implies is_hex_digit(#[trigger] z[i]) by {
            if i > 0 {
                assert(z[i] == t[i - 1]);
            }
        }
    } else {
        let i = choose|i: int| 0 <= i < t.len() && !is_hex_digit(#[trigger] t[i]);
        assert(z[i + 1] == t[i]);
        assert(!is_hex_digit(z[i + 1]));
    }
}

/// One leading `+` is allowed and changes nothing; a token that is only `+`, or
/// that has a second sign, reads as nothing.
pub proof fn law_hex_plus_sign(t: Seq<char>)
    ensures
        t.len() > 0 && t[0] != '+' ==> hex_byte(seq!['+'] + t) == hex_byte(t),
        hex_byte(seq!['+']) is None,
        hex_byte(seq!['+', '+'] + t) is None,
{
    let p = seq!['+'] + t;
    assert(p.drop_first() =~= t);
    assert(seq!['+'].drop_first() =~= Seq::<char>::empty());
    let q = seq!['+', '+'] + t;
    assert(q.drop_first() =~= seq!['+'] + t);
    assert((q.drop_first())[0] == '+');
    assert(!is_hex_digit('+'));
}

/// Three digits whose first is not zero stand for at least 256, which no byte holds:
/// they read as nothing.
pub proof fn law_hex_three_digits_too_big(
    h: int,
    m: int,
    l: int,
    upper_h: bool,
    upper_m: bool,
    upper_l: bool,
)
    requires
        1 <= h < 16,
        0 <= m < 16,
        0 <= l < 16,
    ensures
        hex_byte(seq![cased_digit(h, upper_h), cased_digit(m, upper_m), cased_digit(l, upper_l)])
            is None,
{
    let a = cased_digit(h, upper_h);
    let b = cased_digit(m, upper_m);
    let c = cased_digit(l, upper_l);
    let t = seq![a, b, c];
    assert(t.drop_last() =~= seq![a, b]);
    assert(seq![a, b].drop_last() =~= seq![a]);
    assert(seq![a].drop_last() =~= Seq::<char>::empty());
    assert(hex_number(Seq::<char>::empty()) == 0);
    assert(seq![a].last() == a);
    assert(seq![a, b].last() == b);
    assert(t.last() == c);
    assert(hex_digit_value(a) == h);
    assert(hex_digit_value(b) == m);
    assert(hex_digit_value(c) == l);
    assert(unsigned_digits(t) == t);
    assert(hex_number(seq![a]) == h);
    assert(hex_number(seq![a, b]) == 16 * h + m);
    assert(hex_number(t) == 256 * h + 16 * m + l);
}

/// The pieces put back together with a single space between each two.
pub open spec fn join_spaces(t: Seq<Seq<char>>) -> Seq<char>
    decreases t.len(),
{
    if t.len() == 0 {
        Seq::empty()
    } else if t.len() == 1 {
        t[0]
    } else {
        join_spaces(t.drop_last()) + seq![' '] + t.last()
    }
}

/// `w` holds no space.
pub open spec fn space_free(w: Seq<char>) -> bool {
    forall|j: int| 0 <= j < w.len() ==> #[trigger] w[j] != ' '
}

/// Adding a character to the last piece adds it to the end of the joined text.
proof fn lemma_join_extend_last(t: Seq<Seq<char>>, c: char)
    requires
        t.len() >= 1,
    ensures
        join_spaces(t.update(t.len() - 1, t.last().push(c))) == join_spaces(t).push(c),
{
    let u = t.update(t.len() - 1, t.last().push(c));
    if t.len() > 1 {
        assert(u.drop_last() =~= t.drop_last());
        assert(join_spaces(u) =~= join_spaces(t).push(c));
    }
}

/// Splitting at spaces loses nothing and keeps no space: the pieces, joined again
/// with single spaces, give back `s`, and no piece holds a space, as with
/// `str::split(" ")`.
pub proof fn law_split_spaces_rejoins(s: Seq<char>)
    ensures
        join_spaces(split_spaces(s)) == s,
        forall|i: int| 0 <= i < split_spaces(s).len() ==> space_free(#[trigger] split_spaces(s)[i]),
    decreases s.len(),
{
    if s.len() > 0 {
        let p = s.drop_last();
        let c = s.last();
        law_split_spaces_rejoins(p);
        lemma_split_spaces_nonempty(p);
        let t = split_spaces(p);
        if c == ' ' {
            let u = t.push(Seq::empty());
            assert(u.drop_last() =~= t);
            assert(join_spaces(u) =~= s);
            assert forall|i: int| 0 <= i < u.len() implies space_free(#[trigger] u[i]) by {
                if i < t.len() {
                    assert(u[i] == t[i]);
                }
            }
        } else {
            let u = t.update(t.len() - 1, t.last().push(c));
            lemma_join_extend_last(t, c);
            assert(p.push(c) =~= s);
            assert forall|i: int| 0 <= i < u.len() implies space_free(#[trigger] u[i]) by {
                if i < t.len() - 1 {
                    assert(u[i] == t[i]);
                } else {
                    assert(space_free(t[i]));
                    assert forall|j: int| 0 <= j < u[i].len() implies #[trigger] u[i][j] != ' ' by {
                        if j < t[i].len() {
                            assert(u[i][j] == t[i][j]);
                        }
                    }
                }
            }
        }
    }
}

/// Appending space-free text to `p` extends the last piece of `p`.
proof fn lemma_split_append_word(p: Seq<char>, w: Seq<char>)
    requires
        space_free(w),
    ensures
        split_spaces(p + w) == split_spaces(p).update(
            split_spaces(p).len() - 1,
            split_spaces(p).last() + w,
        ),
    decreases w.len(),
{
    lemma_split_spaces_nonempty(p);
    let t = split_spaces(p);
    if w.len() == 0 {
        assert(p + w =~= p);
        assert(t.last() + w =~= t.last());
        assert(t.update(t.len() - 1, t.last() + w) =~= t);
    } else {
        let v = w.drop_last();
        let c = w.last();
        assert(space_free(v)) by {
            assert forall|j: int| 0 <= j < v.len() implies #[trigger] v[j] != ' ' by {
                assert(v[j] == w[j]);
            }
        }
        lemma_split_append_word(p, v);
        assert(c == w[w.len() - 1]);
        assert((p + w).drop_last() =~= p + v);
        assert((p + w).last() == c);
        let tv = t.update(t.len() - 1, t.last() + v);
        assert(tv.len() == t.len());
        assert(tv.last() == t.last() + v);
        assert((t.last() + v).push(c) =~= t.last() + w);
        assert(tv.update(tv.len() - 1, tv.last().push(c)) =~= t.update(t.len() - 1, t.last() + w));
    }
}

/// Splitting space-free pieces joined with single spaces gives the pieces back.
proof fn lemma_split_join(toks: Seq<Seq<char>>)
    requires
        toks.len() >= 1,
        forall|i: int| 0 <= i < toks.len() ==> space_free(#[trigger] toks[i]),
    ensures
        split_spaces(join_spaces(toks)) == toks,
    decreases toks.len(),
{
    let w = toks.last();
    assert(space_free(toks[toks.len() - 1]));
    if toks.len() == 1 {
        lemma_split_append_word(Seq::empty(), w);
        assert(Seq::<char>::empty() + w =~= w);
        assert(split_spaces(Seq::<char>::empty()) == seq![Seq::<char>::empty()]);
        assert(Seq::<char>::empty() + w =~= toks[0]);
        assert(seq![Seq::<char>::empty()].update(0, Seq::<char>::empty() + w) =~= toks);
    } else {
        let d = toks.drop_last();
        assert forall|i: int| 0 <= i < d.len() implies space_free(#[trigger] d[i]) by {
            assert(d[i] == toks[i]);
        }
        lemma_split_join(d);
        let q = join_spaces(d) + seq![' '];
        assert(q.drop_last() =~= join_spaces(d));
        assert(split_spaces(q) == d.push(Seq::empty()));
        lemma_split_append_word(q, w);
        assert(join_spaces(toks) == q + w);
        assert(Seq::<char>::empty() + w =~= w);
        assert(d.push(Seq::empty()).update(d.len() as int, Seq::<char>::empty() + w) =~= toks);
    }
}

/// Space-free tokens joined with single spaces are read one by one: the space-
/// separated search pattern stands for the bytes its tokens stand for, in order.
pub proof fn law_spaced_hex_tokens(toks: Seq<Seq<char>>)
    requires
        toks.len() >= 1,
        forall|i: int| 0 <= i < toks.len() ==> space_free(#[trigger] toks[i]),
    ensures
        spaced_hex(join_spaces(toks)) == toks.map_values(|t: Seq<char>| hex_byte(t)),
{
    lemma_split_join(toks);
}

/// Reads `tok` as `u8::from_str_radix(tok, 16)` does.
pub fn parse_hex_byte(tok: &Vec<char>) -> (r: Option<u8>)
    ensures
        r == hex_byte(tok@),
{
    let n = tok.len();
    let start: usize = if n > 0 && tok[0] == '+' {
        1
    } else {
        0
    };
    let ghost d = unsigned_digits(tok@);
    assert(d =~= tok@.subrange(start as int, n as int));
    if start == n {
        return None;
    }
    let mut acc: u32 = 0;
    let mut i: usize = start;
    while i < n
        invariant
            start <= i <= n,
            n == tok@.len(),
            d == tok@.subrange(start as int, n as int),
            d == unsigned_digits(tok@),
            forall|j: int| 0 <= j < i - start ==> is_hex_digit(#[trigger] d[j]),
            hex_number(d.take(i - start)) <= 255 ==> acc == hex_number(d.take(i - start)),
            hex_number(d.take(i - start)) > 255 ==> acc > 255,
            acc <= 4095,
        decreases n - i,
    {
        let c = tok[i];
        let v: u32 = if '0' <= c && c <= '9' {
            (c as u32) - 48
        } else if 'a' <= c && c <= 'f' {
            (c as u32) - 87
        } else if 'A' <= c && c <= 'F' {
            (c as u32) - 55
        } else {
            assert(!is_hex_digit(d[i - start]));
            assert(!(forall|j: int| 0 <= j < d.len() ==> is_hex_digit(#[trigger] d[j])));
            return None;
        };
        proof {
            let k = i - start;
            assert(d.take(k + 1).drop_last() =~= d.take(k));
            assert(d.take(k + 1).last() == c);
        }
        if acc <= 255 {
            acc = acc * 16 + v;
        }
        i = i + 1;
    }
    assert(d.take(n - start) =~= d);
    if acc > 255 {
        None
    } else {
        Some(acc as u8)
    }
}

/// Cuts `s` at every space and reads each piece as a hexadecimal byte.
pub fn parse_spaced(s: &str) -> (r: Vec<Option<u8>>)
    ensures
        r@ == spaced_hex(s@),
{
    let chars = string_chars(s);
    let mut out: Vec<Option<u8>> = Vec::new();
    let mut cur: Vec<char> = Vec::new();
    let ghost mut done: Seq<Seq<char>> = Seq::empty();
    let mut i: usize = 0;
    while i < chars.len()
        invariant
            i <= chars@.len(),
            chars@ == s@,
            split_spaces(chars@.take(i as int)) == done.push(cur@),
            out@ == done.map_values(|t: Seq<char>| hex_byte(t)),
        decreases chars@.len() - i,
    {
        let c = chars[i];
        proof {
            assert(chars@.take(i + 1).drop_last() =~= chars@.take(i as int));
        }
        if c == ' ' {
            let b = parse_hex_byte(&cur);
            out.push(b);
            proof {
                done = done.push(cur@);
            }
            cur = Vec::new();
            assert(split_spaces(chars@.take(i + 1)) =~= done.push(cur@));
        } else {
            let ghost before = cur@;
            cur.push(c);
            assert(split_spaces(chars@.take(i + 1)) =~= done.push(cur@));
        }
        assert(out@ =~= done.map_values(|t: Seq<char>| hex_byte(t)));
        i = i + 1;
    }
    let b = parse_hex_byte(&cur);
    out.push(b);
    proof {
        assert(chars@.take(i as int) =~= s@);
        assert(out@ =~= done.push(cur@).map_values(|t: Seq<char>| hex_byte(t)));
    }
    out
}

/// The bytes, when every piece stands for one.
pub fn collect_bytes(toks: &Vec<Option<u8>>) -> (r: Option<Vec<u8>>)
    ensures
        match all_bytes(toks@) {
            Some(b) => r matches Some(v) && v@ == b,
            None => r is None,
        },
{
    let mut out: Vec<u8> = Vec::new();
    let mut i: usize = 0;
    while i < toks.len()
        invariant
            i <= toks@.len(),
            out@.len() == i,
            forall|j: int| 0 <= j < i ==> #[trigger] toks@[j] is Some && out@[j] == toks@[j]->0,
        decreases toks@.len() - i,
    {
        match toks[i] {
            Some(b) => out.push(b),
            None => return None,
        }
        i = i + 1;
    }
    assert(out@ =~= toks@.map_values(|t: Option<u8>| t->0));
    Some(out)
}

} // verus!

use vstd::prelude::*;

verus! {

broadcast use vstd::string::group_string_axioms;

/// `String::push`: appends `c` to `s`.
#[verifier::external_body]
pub fn push_char(s: &mut String, c: char)
    ensures
        final(s)@ == old(s)@.push(c),
{
    s.push(c);
}

/// The characters of `s`.
pub fn string_chars(s: &str) -> (v: Vec<char>)
    ensures
        v@ == s@,
{
    let mut v: Vec<char> = Vec::new();
    for c in iter: s.chars()
        invariant
            v@ == iter.seq().take(iter.index() as int),
            iter.seq() == s@,
    {
        v.push(c);
    }
    v
}

/// Every character is at most U+00FF, as those a byte turns into are.
pub open spec fn is_latin1(s: Seq<char>) -> bool {
    forall|i: int| 0 <= i < s.len() ==> (#[trigger] s[i]) as u32 <= 0xff
}

/// `c` in lower case, as `char::to_lowercase` maps characters up to U+00FF: `A`-`Z`
/// and U+00C0-U+00DE, except U+00D7, move up by 0x20; the rest stay.
pub open spec fn lower_char(c: char) -> char {
    if ('A' <= c && c <= 'Z') || ('\u{c0}' <= c && c <= '\u{de}' && c != '\u{d7}') {
        ((c as u32) + 32) as char
    } else {
        c
    }
}

/// `s` in lower case, character by character.
pub open spec fn lower(s: Seq<char>) -> Seq<char> {
    s.map_values(|c: char| lower_char(c))
}

/// `s.to_lowercase()` for a string whose characters are all at most U+00FF.
pub fn to_lowercase(s: &String) -> (r: String)
    requires
        is_latin1(s@),
    ensures
        r@ == lower(s@),
{
    let chars = string_chars(s.as_str());
    let mut out = String::new();
    let mut i: usize = 0;
    while i < chars.len()
        invariant
            i <= chars@.len(),
            chars@ == s@,
            is_latin1(s@),
            out@ == lower(s@.take(i as int)),
        decreases chars@.len() - i,
    {
        let c = chars[i];
        assert(c as u32 <= 0xff);
        let l = if ('A' <= c && c <= 'Z') || ('\u{c0}' <= c && c <= '\u{de}' && c != '\u{d7}') {
            ((c as u8) + 32) as char
        } else {
            c
        };
        push_char(&mut out, l);
        assert(lower(s@.take(i + 1)) =~= lower(s@.take(i as int)).push(lower_char(c)));
        i = i + 1;
    }
    assert(s@.take(i as int) =~= s@);
    out
}

/// Lower-casing keeps the length, turns each ASCII capital into its small letter
/// (`'A' + k` into `'a' + k`), leaves every other ASCII character as it is, leaves no
/// capital behind, and changes nothing the second time.
pub proof fn law_lower_ascii(s: Seq<char>)
    ensures
        lower(s).len() == s.len(),
        forall|i: int|
            0 <= i < s.len() && 'A' <= #[trigger] s[i] <= 'Z' ==> lower(s)[i] == ((s[i] as int
                - 'A' as int) + 'a' as int) as char,
        forall|i: int|
            0 <= i < s.len() && (#[trigger] s[i] as int) < 0x80 && !('A' <= s[i] <= 'Z')
                ==> lower(s)[i] == s[i],
        forall|i: int| 0 <= i < s.len() ==> !('A' <= #[trigger] lower(s)[i] <= 'Z'),
        lower(lower(s)) == lower(s),
{
    assert('A' as int == 65 && 'Z' as int == 90 && 'a' as int == 97);
    assert(lower(lower(s)) =~= lower(s));
}

} // verus!

//! Java's modified UTF-8, the string encoding of NBT: supplementary
//! characters as surrogate pairs of three bytes each, and U+0000 as the two
//! bytes `C0 80`, so an encoded string never holds a zero byte.
use vstd::prelude::*;
use crate::nbt::NbtError;
use crate::text::push_char;

verus! {

/// The UTF-16 code units of one character.
pub open spec fn utf16_units(c: char) -> Seq<u16> {
    let v = c as u32;
    if v < 0x10000 {
        seq![v as u16]
    } else {
        let w = (v - 0x10000) as u32;
        seq![(0xd800 + (w >> 10)) as u16, (0xdc00 + (w & 0x3ff)) as u16]
    }
}

/// The UTF-16 code units of a whole string.
pub open spec fn utf16_of(s: Seq<char>) -> Seq<u16>
    decreases s.len(),
{
    if s.len() == 0 {
        seq![]
    } else {
        utf16_units(s[0]) + utf16_of(s.drop_first())
    }
}

/// The modified UTF-8 bytes of one code unit.
pub open spec fn unit_bytes(u: u16) -> Seq<u8> {
    if 1 <= u && u <= 0x7f {
        seq![u as u8]
    } else if u <= 0x7ff {
        seq![(0xc0u16 | (u >> 6u16)) as u8, (0x80u16 | (u & 0x3fu16)) as u8]
    } else {
        seq![
            (0xe0u16 | (u >> 12u16)) as u8,
            (0x80u16 | ((u >> 6u16) & 0x3fu16)) as u8,
            (0x80u16 | (u & 0x3fu16)) as u8,
        ]
    }
}

/// The modified UTF-8 bytes of a sequence of code units.
pub open spec fn units_bytes(us: Seq<u16>) -> Seq<u8>
    decreases us.len(),
{
    if us.len() == 0 {
        seq![]
    } else {
        unit_bytes(us[0]) + units_bytes(us.drop_first())
    }
}

/// The modified UTF-8 encoding of a string.
pub open spec fn modified_utf8_of(s: Seq<char>) -> Seq<u8> {
    units_bytes(utf16_of(s))
}

pub open spec fn is_continuation(b: u8) -> bool {
    b & 0xc0u8 == 0x80u8
}

/// Code units read back from modified UTF-8 bytes: one, two or three bytes
/// per unit, `None` on a malformed sequence.
pub open spec fn decode_units(b: Seq<u8>) -> Option<Seq<u16>>
    decreases b.len(),
{
    if b.len() == 0 {
        Some(seq![])
    } else {
        let b0 = b[0];
        if b0 < 0x80 {
            match decode_units(b.drop_first()) {
                Some(r) => Some(seq![b0 as u16] + r),
                None => None,
            }
        } else if b0 & 0xe0u8 == 0xc0u8 {
            if b.len() >= 2 && is_continuation(b[1]) {
                match decode_units(b.subrange(2, b.len() as int)) {
                    Some(r) => Some(
                        seq![(((b0 as u16) & 0x1fu16) << 6u16) | ((b[1] as u16) & 0x3fu16)] + r,
                    ),
                    None => None,
                }
            } else {
                None
            }
        } else if b0 & 0xf0u8 == 0xe0u8 {
            if b.len() >= 3 && is_continuation(b[1]) && is_continuation(b[2]) {
                match decode_units(b.subrange(3, b.len() as int)) {
                    Some(r) => Some(
                        seq![
                            (((b0 as u16) & 0x0fu16) << 12u16) | (((b[1] as u16) & 0x3fu16) << 6u16)
                                | ((b[2] as u16) & 0x3fu16),
                        ] + r,
                    ),
                    None => None,
                }
            } else {
                None
            }
        } else {
            None
        }
    }
}

pub open spec fn is_high_surrogate(u: u16) -> bool {
    0xd800 <= u && u < 0xdc00
}

pub open spec fn is_low_surrogate(u: u16) -> bool {
    0xdc00 <= u && u < 0xe000
}

/// UTF-16 decoding: `None` where a surrogate is unpaired.
pub open spec fn utf16_decode(u: Seq<u16>) -> Option<Seq<char>>
    decreases u.len(),
{
    if u.len() == 0 {
        Some(seq![])
    } else if !is_high_surrogate(u[0]) && !is_low_surrogate(u[0]) {
        match utf16_decode(u.drop_first()) {
            Some(r) => Some(seq![u[0] as char] + r),
            None => None,
        }
    } else if is_high_surrogate(u[0]) && u.len() >= 2 && is_low_surrogate(u[1]) {
        match utf16_decode(u.subrange(2, u.len() as int)) {
            Some(r) => Some(
                seq![
                    ((((u[0] - 0xd800) as u32) << 10u32 | ((u[1] - 0xdc00) as u32)) + 0x10000)
                        as char,
                ] + r,
            ),
            None => None,
        }
    } else {
        None
    }
}

/// What decoding modified UTF-8 gives: the string, or `None` for bytes that
/// are not modified UTF-8 of any string.
pub open spec fn decoded(b: Seq<u8>) -> Option<Seq<char>> {
    match decode_units(b) {
        Some(us) => utf16_decode(us),
        None => None,
    }
}

// ── Lemmas ───────────────────────────────────────────────────────────────

/// A character takes at most two UTF-16 units.
pub proof fn lemma_utf16_len(s: Seq<char>)
    ensures
        utf16_of(s).len() <= 2 * s.len(),
    decreases s.len(),
{
    if s.len() > 0 {
        lemma_utf16_len(s.drop_first());
    }
}

/// A UTF-16 unit takes at most three bytes.
pub proof fn lemma_units_bytes_len(us: Seq<u16>)
    ensures
        units_bytes(us).len() <= 3 * us.len(),
    decreases us.len(),
{
    if us.len() > 0 {
        lemma_units_bytes_len(us.drop_first());
    }
}

/// A string's modified UTF-8 is at most six bytes per character.
pub proof fn lemma_encoded_len(s: Seq<char>)
    ensures
        modified_utf8_of(s).len() <= 6 * s.len(),
{
    lemma_utf16_len(s);
    lemma_units_bytes_len(utf16_of(s));
}

/// Characters with the same scalar value are the same character.
pub proof fn lemma_char_eq(c: char, d: char)
    ensures
        (c as u32 == d as u32) ==> c == d,
{
}

/// A character's scalar value: at most U+10FFFF and never a surrogate.
pub proof fn lemma_char_range(c: char)
    ensures
        (c as u32) <= 0x10FFFF,
        !(0xD800 <= (c as u32) && (c as u32) < 0xE000),
{
}

pub proof fn lemma_utf16_of_push(s: Seq<char>, c: char)
    ensures
        utf16_of(s.push(c)) == utf16_of(s) + utf16_units(c),
    decreases s.len(),
{
    if s.len() == 0 {
        assert(s.push(c).drop_first() == s);
        assert(utf16_of(s.push(c).drop_first()) == Seq::<u16>::empty());
    } else {
        assert(s.push(c).drop_first() == s.drop_first().push(c));
        lemma_utf16_of_push(s.drop_first(), c);
        assert(utf16_of(s) + utf16_units(c) == utf16_units(s[0]) + (utf16_of(s.drop_first())
            + utf16_units(c)));
    }
}

pub proof fn lemma_units_bytes_append(a: Seq<u16>, b: Seq<u16>)
    ensures
        units_bytes(a + b) == units_bytes(a) + units_bytes(b),
    decreases a.len(),
{
    if a.len() == 0 {
        assert(a + b == b);
    } else {
        assert((a + b).drop_first() == a.drop_first() + b);
        lemma_units_bytes_append(a.drop_first(), b);
        assert(units_bytes(a) + units_bytes(b) == unit_bytes(a[0]) + (units_bytes(a.drop_first())
            + units_bytes(b)));
    }
}

pub proof fn lemma_unit_bytes_no_zero(u: u16)
    ensures
        forall|i: int| 0 <= i < unit_bytes(u).len() ==> #[trigger] unit_bytes(u)[i] != 0,
        1 <= unit_bytes(u).len() <= 3,
{
    if 1 <= u && u <= 0x7f {
        assert((u as u8) != 0) by (bit_vector)
            requires
                1 <= u && u <= 0x7f,
        ;
    } else if u <= 0x7ff {
        assert((0xc0u16 | (u >> 6u16)) as u8 != 0 && (0x80u16 | (u & 0x3fu16)) as u8 != 0)
            by (bit_vector);
    } else {
        assert((0xe0u16 | (u >> 12u16)) as u8 != 0 && (0x80u16 | ((u >> 6u16) & 0x3fu16)) as u8
            != 0 && (0x80u16 | (u & 0x3fu16)) as u8 != 0) by (bit_vector);
    }
}

proof fn lemma_units_bytes_no_zero(us: Seq<u16>)
    ensures
        forall|i: int| 0 <= i < units_bytes(us).len() ==> #[trigger] units_bytes(us)[i] != 0,
    decreases us.len(),
{
    if us.len() > 0 {
        lemma_unit_bytes_no_zero(us[0]);
        lemma_units_bytes_no_zero(us.drop_first());
        let a = unit_bytes(us[0]);
        let b = units_bytes(us.drop_first());
        assert forall|i: int| 0 <= i < (a + b).len() implies #[trigger] (a + b)[i] != 0 by {
            if i < a.len() {
                assert((a + b)[i] == a[i]);
            } else {
                assert((a + b)[i] == b[i - a.len()]);
            }
        }
    }
}

proof fn lemma_decode_unit(u: u16, rest: Seq<u8>)
    ensures
        decode_units(unit_bytes(u) + rest) == match decode_units(rest) {
            Some(r) => Some(seq![u] + r),
            None => None::<Seq<u16>>,
        },
{
    let b = unit_bytes(u) + rest;
    if 1 <= u && u <= 0x7f {
        assert(b.drop_first() == rest);
        let b0 = u as u8;
        assert(b0 < 0x80 && b0 as u16 == u) by (bit_vector)
            requires
                1 <= u && u <= 0x7f,
                b0 == u as u8,
        ;
    } else if u <= 0x7ff {
        let b0 = (0xc0u16 | (u >> 6u16)) as u8;
        let b1 = (0x80u16 | (u & 0x3fu16)) as u8;
        assert(b[0] == b0 && b[1] == b1);
        assert(b.subrange(2, b.len() as int) == rest);
        assert(!(b0 < 0x80) && b0 & 0xe0u8 == 0xc0u8 && b1 & 0xc0u8 == 0x80u8 && (((b0 as u16)
            & 0x1fu16) << 6u16) | ((b1 as u16) & 0x3fu16) == u) by (bit_vector)
            requires
                !(1 <= u && u <= 0x7f),
                u <= 0x7ff,
                b0 == (0xc0u16 | (u >> 6u16)) as u8,
                b1 == (0x80u16 | (u & 0x3fu16)) as u8,
        ;
    } else {
        let b0 = (0xe0u16 | (u >> 12u16)) as u8;
        let b1 = (0x80u16 | ((u >> 6u16) & 0x3fu16)) as u8;
        let b2 = (0x80u16 | (u & 0x3fu16)) as u8;
        assert(b[0] == b0 && b[1] == b1 && b[2] == b2);
        assert(b.subrange(3, b.len() as int) == rest);
        assert(!(b0 < 0x80) && !(b0 & 0xe0u8 == 0xc0u8) && b0 & 0xf0u8 == 0xe0u8 && b1 & 0xc0u8
            == 0x80u8 && b2 & 0xc0u8 == 0x80u8 && (((b0 as u16) & 0x0fu16) << 12u16) | (((
        b1 as u16) & 0x3fu16) << 6u16) | ((b2 as u16) & 0x3fu16) == u) by (bit_vector)
            requires
                u > 0x7ff,
                b0 == (0xe0u16 | (u >> 12u16)) as u8,
                b1 == (0x80u16 | ((u >> 6u16) & 0x3fu16)) as u8,
                b2 == (0x80u16 | (u & 0x3fu16)) as u8,
        ;
    }
}

proof fn lemma_decode_units_bytes(us: Seq<u16>)
    ensures
        decode_units(units_bytes(us)) == Some(us),
    decreases us.len(),
{
    if us.len() == 0 {
    } else {
        lemma_decode_units_bytes(us.drop_first());
        lemma_decode_unit(us[0], units_bytes(us.drop_first()));
        assert(seq![us[0]] + us.drop_first() == us);
    }
}

proof fn lemma_utf16_decode_char(c: char, rest: Seq<u16>)
    ensures
        utf16_decode(utf16_units(c) + rest) == match utf16_decode(rest) {
            Some(r) => Some(seq![c] + r),
            None => None::<Seq<char>>,
        },
{
    let v = c as u32;
    lemma_char_range(c);
    let u = utf16_units(c) + rest;
    if v < 0x10000 {
        assert(u.drop_first() == rest);
        assert((v as u16) as u32 == v);
        assert(((v as u16) as char) == c);
    } else {
        let w = (v - 0x10000) as u32;
        let hi = (0xd800 + (w >> 10)) as u16;
        let lo = (0xdc00 + (w & 0x3ff)) as u16;
        assert(u.subrange(2, u.len() as int) == rest);
        assert(0xd800 <= hi && hi < 0xdc00 && 0xdc00 <= lo && lo < 0xe000 && ((((hi - 0xd800)
            as u32) << 10u32 | ((lo - 0xdc00) as u32)) + 0x10000) == v) by (bit_vector)
            requires
                0x10000 <= v && v <= 0x10FFFF,
                w == (v - 0x10000) as u32,
                hi == (0xd800 + (w >> 10)) as u16,
                lo == (0xdc00 + (w & 0x3ff)) as u16,
        ;
    }
}

proof fn lemma_utf16_decode_of(s: Seq<char>)
    ensures
        utf16_decode(utf16_of(s)) == Some(s),
    decreases s.len(),
{
    if s.len() > 0 {
        lemma_utf16_decode_of(s.drop_first());
        lemma_utf16_decode_char(s[0], utf16_of(s.drop_first()));
        assert(seq![s[0]] + s.drop_first() == s);
    }
}

/// Decoding the modified UTF-8 of any string gives that string back, and
/// the encoding never contains a zero byte.
pub proof fn lemma_modified_utf8_round_trip(s: Seq<char>)
    ensures
        decoded(modified_utf8_of(s)) == Some(s),
        forall|i: int|
            0 <= i < modified_utf8_of(s).len() ==> #[trigger] modified_utf8_of(s)[i] != 0,
{
    lemma_decode_units_bytes(utf16_of(s));
    lemma_utf16_decode_of(s);
    lemma_units_bytes_no_zero(utf16_of(s));
}

// ── Executable ────────────────────────────────────────────────────────────

fn push_unit(out: &mut Vec<u8>, u: u16)
    ensures
        final(out)@ == old(out)@ + unit_bytes(u),
{
    if 1 <= u && u <= 0x7f {
        out.push(u as u8);
    } else if u <= 0x7ff {
        out.push((0xc0u16 | (u >> 6u16)) as u8);
        out.push((0x80u16 | (u & 0x3fu16)) as u8);
    } else {
        out.push((0xe0u16 | (u >> 12u16)) as u8);
        out.push((0x80u16 | ((u >> 6u16) & 0x3fu16)) as u8);
        out.push((0x80u16 | (u & 0x3fu16)) as u8);
    }
    assert(final(out)@ == old(out)@ + unit_bytes(u));
}

/// Java's modified UTF-8 encoding of `s`.
pub fn modified_utf8(s: &str) -> (res: Vec<u8>)
    ensures
        res@ == modified_utf8_of(s@),
{
    let mut out: Vec<u8> = Vec::new();
    let ghost mut units: Seq<u16> = seq![];
    for c in it: s.chars()
        invariant
            it.seq() == s@,
            units == utf16_of(it.seq().take(it.index())),
            out@ == units_bytes(units),
    {
        let ghost before = it.seq().take(it.index());
        let v = c as u32;
        proof {
            lemma_char_range(c);
            lemma_utf16_of_push(before, c);
            lemma_units_bytes_append(units, utf16_units(c));
        }
        if v < 0x10000 {
            push_unit(&mut out, v as u16);
            proof {
                assert(units_bytes(seq![v as u16]) == unit_bytes(v as u16) + units_bytes(
                    seq![v as u16].drop_first(),
                ));
                assert(units_bytes(seq![v as u16]) == unit_bytes(v as u16));
            }
        } else {
            let w = v - 0x10000;
            assert(w >> 10 <= 0x3ff && w & 0x3ff <= 0x3ff) by (bit_vector)
                requires
                    w <= 0xfffff,
            ;
            let hi = (0xd800 + (w >> 10)) as u16;
            let lo = (0xdc00 + (w & 0x3ff)) as u16;
            push_unit(&mut out, hi);
            push_unit(&mut out, lo);
            proof {
                let p = seq![hi, lo];
                assert(p.drop_first() == seq![lo]);
                assert(units_bytes(seq![lo]) == unit_bytes(lo) + units_bytes(
                    seq![lo].drop_first(),
                ));
                assert(units_bytes(p) == unit_bytes(hi) + unit_bytes(lo));
            }
        }
        proof {
            units = units + utf16_units(c);
            assert(it.seq().take(it.index() + 1) == before.push(c));
        }
    }
    proof {
        assert(s@.take(s@.len() as int) == s@);
    }
    out
}

/// `char::from_u32`: the character with scalar value `v`, or `None` where `v`
/// is a surrogate or above U+10FFFF.
#[verifier::external_body]
fn char_from_u32(v: u32) -> (res: Option<char>)
    ensures
        res is Some <==> (v < 0xD800 || (0xE000 <= v && v <= 0x10FFFF)),
        res matches Some(c) ==> c as u32 == v,
{
    char::from_u32(v)
}

/// The string that the UTF-16 code units encode, or `None` where a surrogate
/// is unpaired.
fn string_from_utf16(units: &[u16]) -> (res: Option<String>)
    ensures
        match res {
            Some(s) => utf16_decode(units@) == Some(s@),
            None => utf16_decode(units@) is None,
        },
{
    let n = units.len();
    let mut out = String::new();
    let mut i: usize = 0;
    proof {
        assert(units@.subrange(0, n as int) == units@);
        match utf16_decode(units@) {
            Some(r) => assert(out@ + r == r),
            None => {},
        }
    }
    while i < n
        invariant
            n == units@.len(),
            i <= n,
            utf16_decode(units@) == match utf16_decode(units@.subrange(i as int, n as int)) {
                Some(r) => Some(out@ + r),
                None => None::<Seq<char>>,
            },
        decreases n - i,
    {
        let ghost rest = units@.subrange(i as int, n as int);
        let ghost before = out@;
        let u = units[i];
        assert(rest[0] == u);
        if u < 0xd800 || u >= 0xe000 {
            let c = match char_from_u32(u as u32) {
                Some(c) => c,
                None => { return None; },
            };
            proof {
                let d = rest[0] as char;
                assert(d as u32 == u as u32);
                lemma_char_eq(c, d);
                assert(rest.drop_first() == units@.subrange(i + 1, n as int));
            }
            push_char(&mut out, c);
            i += 1;
            proof {
                match utf16_decode(units@.subrange(i as int, n as int)) {
                    Some(r) => assert(before + (seq![c] + r) == out@ + r),
                    None => {},
                }
            }
        } else if u < 0xdc00 && i + 1 < n && units[i + 1] >= 0xdc00 && units[i + 1] < 0xe000 {
            let lo = units[i + 1];
            assert(rest[1] == lo);
            let w: u32 = (((u - 0xd800) as u32) << 10u32) | ((lo - 0xdc00) as u32);
            assert(w < 0x100000) by (bit_vector)
                requires
                    0xd800 <= u && u < 0xdc00,
                    0xdc00 <= lo && lo < 0xe000,
                    w == (((u - 0xd800) as u32) << 10u32) | ((lo - 0xdc00) as u32),
            ;
            let v: u32 = w + 0x10000;
            let c = match char_from_u32(v) {
                Some(c) => c,
                None => { return None; },
            };
            proof {
                let d = (((((rest[0] - 0xd800) as u32) << 10u32 | ((rest[1] - 0xdc00) as u32))
                    + 0x10000) as char);
                assert(d as u32 == v);
                lemma_char_eq(c, d);
                assert(rest.subrange(2, rest.len() as int) == units@.subrange(i + 2, n as int));
            }
            push_char(&mut out, c);
            i += 2;
            proof {
                match utf16_decode(units@.subrange(i as int, n as int)) {
                    Some(r) => assert(before + (seq![c] + r) == out@ + r),
                    None => {},
                }
            }
        } else {
            return None;
        }
    }
    proof {
        assert(units@.subrange(n as int, n as int) == Seq::<u16>::empty());
        assert(out@ + Seq::<char>::empty() == out@);
    }
    Some(out)
}

/// The string whose modified UTF-8 encoding `bytes` is.
pub fn decode_modified_utf8(bytes: &[u8]) -> (res: Result<String, NbtError>)
    ensures
        match res {
            Ok(s) => decoded(bytes@) == Some(s@),
            Err(e) => decoded(bytes@) is None && e == NbtError::InvalidUtf8,
        },
{
    let n = bytes.len();
    let mut units: Vec<u16> = Vec::new();
    let mut i: usize = 0;
    assert(bytes@.subrange(0, n as int) == bytes@);
    proof {
        match decode_units(bytes@) {
            Some(r) => assert(units@ + r == r),
            None => {},
        }
    }
    while i < n
        invariant
            n == bytes@.len(),
            i <= n,
            decode_units(bytes@) == match decode_units(bytes@.subrange(i as int, n as int)) {
                Some(r) => Some(units@ + r),
                None => None::<Seq<u16>>,
            },
        decreases n - i,
    {
        let ghost rest = bytes@.subrange(i as int, n as int);
        let ghost before = units@;
        let b = bytes[i];
        assert(rest[0] == b);
        if b < 0x80 {
            units.push(b as u16);
            assert(rest.drop_first() == bytes@.subrange(i + 1, n as int));
            i += 1;
            proof {
                match decode_units(bytes@.subrange(i as int, n as int)) {
                    Some(r) => {
                        assert(before + (seq![b as u16] + r) == units@ + r);
                    },
                    None => {},
                }
            }
        } else if b & 0xe0 == 0xc0 {
            if i + 1 < n && bytes[i + 1] & 0xc0 == 0x80 {
                let c1 = bytes[i + 1];
                assert(rest[1] == c1);
                units.push((((b as u16) & 0x1f) << 6) | ((c1 as u16) & 0x3f));
                assert(rest.subrange(2, rest.len() as int) == bytes@.subrange(i + 2, n as int));
                i += 2;
                proof {
                    match decode_units(bytes@.subrange(i as int, n as int)) {
                        Some(r) => {
                            assert(before + (seq![units@.last()] + r) == units@ + r);
                        },
                        None => {},
                    }
                }
            } else {
                return Err(NbtError::InvalidUtf8);
            }
        } else if b & 0xf0 == 0xe0 {
            if n - i > 2 && bytes[i + 1] & 0xc0 == 0x80 && bytes[i + 2] & 0xc0 == 0x80 {
                let c1 = bytes[i + 1];
                let c2 = bytes[i + 2];
                assert(rest[1] == c1 && rest[2] == c2);
                units.push(
                    (((b as u16) & 0x0f) << 12) | (((c1 as u16) & 0x3f) << 6) | ((c2 as u16)
                        & 0x3f),
                );
                assert(rest.subrange(3, rest.len() as int) == bytes@.subrange(i + 3, n as int));
                i += 3;
                proof {
                    match decode_units(bytes@.subrange(i as int, n as int)) {
                        Some(r) => {
                            assert(before + (seq![units@.last()] + r) == units@ + r);
                        },
                        None => {},
                    }
                }
            } else {
                return Err(NbtError::InvalidUtf8);
            }
        } else {
            return Err(NbtError::InvalidUtf8);
        }
    }
    assert(bytes@.subrange(n as int, n as int) == Seq::<u8>::empty());
    assert(units@ + Seq::<u16>::empty() == units@);
    match string_from_utf16(units.as_slice()) {
        Some(s) => Ok(s),
        None => Err(NbtError::InvalidUtf8),
    }
}

} // verus!

use vstd::prelude::*;

verus! {

/// A continuation byte of UTF-8: `10xxxxxx`.
pub open spec fn is_trail(b: u8) -> bool {
    0x80 <= b <= 0xbf
}

/// The second byte allowed after a three-byte lead `0xe0 + c`: no overlong
/// forms after `0xe0`, no surrogates after `0xed`.
pub open spec fn lead3_allows(c: int, t: u8) -> bool {
    if c == 0 {
        0xa0 <= t <= 0xbf
    } else if c == 13 {
        0x80 <= t <= 0x9f
    } else {
        is_trail(t)
    }
}

/// The second byte allowed after a four-byte lead `0xf0 + c` (`c <= 4`): no
/// overlong forms after `0xf0`, nothing past U+10FFFF after `0xf4`.
pub open spec fn lead4_allows(c: int, t: u8) -> bool {
    if c == 0 {
        0x90 <= t <= 0xbf
    } else if c == 4 {
        0x80 <= t <= 0x8f
    } else {
        is_trail(t)
    }
}

/// Decodes the code point at the start of `s`, reading no byte at or past
/// `length` but the first: the number of bytes read and the code point, or
/// -1 for an ill-formed sequence (the bytes read are then those that were
/// checked before the error showed).
pub open spec fn spec_decode_utf8(s: Seq<u8>, length: u32) -> (u32, i32) {
    let c0 = s[0];
    if c0 < 0x80 {
        (1, c0 as i32)
    } else if length == 1 {
        (1, -1i32)
    } else if c0 >= 0xe0 {
        if c0 < 0xf0 {
            let c = c0 - 0xe0;
            if !lead3_allows(c, s[1]) {
                (1, -1i32)
            } else if length == 2 {
                (2, -1i32)
            } else if !is_trail(s[2]) {
                (2, -1i32)
            } else {
                (3, ((c * 64 + (s[1] - 0x80)) * 64 + (s[2] - 0x80)) as i32)
            }
        } else {
            let c = c0 - 0xf0;
            if c > 4 || !lead4_allows(c, s[1]) {
                (1, -1i32)
            } else if length == 2 {
                (2, -1i32)
            } else if !is_trail(s[2]) {
                (2, -1i32)
            } else if length == 3 {
                (3, -1i32)
            } else if !is_trail(s[3]) {
                (3, -1i32)
            } else {
                (
                    4,
                    (((c * 64 + (s[1] - 0x80)) * 64 + (s[2] - 0x80)) * 64 + (s[3] - 0x80)) as i32,
                )
            }
        }
    } else if c0 < 0xc2 || !is_trail(s[1]) {
        (1, -1i32)
    } else {
        (2, ((c0 - 0xc0) * 64 + (s[1] - 0x80)) as i32)
    }
}

/// A decoding reads at least one byte and at most four, never past `length`.
pub proof fn lemma_decode_size(s: Seq<u8>, length: u32)
    requires
        length >= 1,
    ensures
        1 <= spec_decode_utf8(s, length).0 <= 4,
        spec_decode_utf8(s, length).0 <= length,
{
}

/// Decodes one UTF-8 code point from the start of `string` (see
/// `spec_decode_utf8`) into `code_point`, and returns the number of bytes read.
pub fn ts_decode_utf8(string: &[u8], length: u32, code_point: &mut i32) -> (n: u32)
    requires
        length >= 1,
        string@.len() >= length,
    ensures
        (n, *final(code_point)) == spec_decode_utf8(string@, length),
        1 <= n <= 4,
        n <= length,
{
    let c0 = string[0];
    if c0 < 0x80 {
        *code_point = c0 as i32;
        return 1;
    }
    if length == 1 {
        *code_point = -1;
        return 1;
    }
    let t1 = string[1];
    if c0 >= 0xe0 {
        if c0 < 0xf0 {
            let c: i32 = (c0 - 0xe0) as i32;
            let allowed = if c == 0 {
                0xa0 <= t1 && t1 <= 0xbf
            } else if c == 13 {
                0x80 <= t1 && t1 <= 0x9f
            } else {
                0x80 <= t1 && t1 <= 0xbf
            };
            if !allowed {
                *code_point = -1;
                return 1;
            }
            if length == 2 {
                *code_point = -1;
                return 2;
            }
            let t2 = string[2];
            if !(0x80 <= t2 && t2 <= 0xbf) {
                *code_point = -1;
                return 2;
            }
            *code_point = (c * 64 + (t1 - 0x80) as i32) * 64 + (t2 - 0x80) as i32;
            3
        } else {
            let c: i32 = (c0 - 0xf0) as i32;
            let allowed = c <= 4 && if c == 0 {
                0x90 <= t1 && t1 <= 0xbf
            } else if c == 4 {
                0x80 <= t1 && t1 <= 0x8f
            } else {
                0x80 <= t1 && t1 <= 0xbf
            };
            if !allowed {
                *code_point = -1;
                return 1;
            }
            if length == 2 {
                *code_point = -1;
                return 2;
            }
            let t2 = string[2];
            if !(0x80 <= t2 && t2 <= 0xbf) {
                *code_point = -1;
                return 2;
            }
            if length == 3 {
                *code_point = -1;
                return 3;
            }
            let t3 = string[3];
            if !(0x80 <= t3 && t3 <= 0xbf) {
                *code_point = -1;
                return 3;
            }
            *code_point = ((c * 64 + (t1 - 0x80) as i32) * 64 + (t2 - 0x80) as i32) * 64 + (t3
                - 0x80) as i32;
            4
        }
    } else if c0 < 0xc2 || !(0x80 <= t1 && t1 <= 0xbf) {
        *code_point = -1;
        1
    } else {
        *code_point = ((c0 - 0xc0) as i32) * 64 + (t1 - 0x80) as i32;
        2
    }
}

/// The UTF-8 encoding of a Unicode scalar value.
pub open spec fn spec_encode_utf8(cp: int) -> Seq<u8> {
    if cp < 0x80 {
        seq![cp as u8]
    } else if cp < 0x800 {
        seq![(0xc0 + cp / 64) as u8, (0x80 + cp % 64) as u8]
    } else if cp < 0x10000 {
        seq![(0xe0 + cp / 4096) as u8, (0x80 + (cp / 64) % 64) as u8, (0x80 + cp % 64) as u8]
    } else {
        seq![
            (0xf0 + cp / 262144) as u8,
            (0x80 + (cp / 4096) % 64) as u8,
            (0x80 + (cp / 64) % 64) as u8,
            (0x80 + cp % 64) as u8,
        ]
    }
}

/// A Unicode scalar value: a code point that is not a surrogate.
pub open spec fn is_scalar_value(cp: int) -> bool {
    0 <= cp <= 0x10ffff && !(0xd800 <= cp <= 0xdfff)
}

/// Every code point that decoding finds is a Unicode scalar value, and its
/// UTF-8 encoding is exactly the bytes that were read.
pub proof fn lemma_decoded_is_encoding(s: Seq<u8>, length: u32)
    requires
        length >= 1,
        s.len() >= length,
        spec_decode_utf8(s, length).1 != -1,
    ensures
        is_scalar_value(spec_decode_utf8(s, length).1 as int),
        spec_encode_utf8(spec_decode_utf8(s, length).1 as int) == s.subrange(
            0,
            spec_decode_utf8(s, length).0 as int,
        ),
{
    let (n, c) = spec_decode_utf8(s, length);
    let cp = c as int;
    let b0 = s[0] as int;
    if b0 < 0x80 {
        assert(spec_encode_utf8(cp) =~= s.subrange(0, 1));
    } else if b0 >= 0xe0 && b0 < 0xf0 {
        let x = b0 - 0xe0;
        let y = s[1] as int - 0x80;
        let z = s[2] as int - 0x80;
        assert(cp == (x * 64 + y) * 64 + z);
        assert(0 <= y < 64 && 0 <= z < 64 && 0 <= x < 16);
        assert(cp / 4096 == x && (cp / 64) % 64 == y && cp % 64 == z) by (nonlinear_arith)
            requires
                cp == (x * 64 + y) * 64 + z,
                0 <= y < 64,
                0 <= z < 64,
                0 <= x < 16,
        ;
        assert(0x800 <= cp < 0x10000 && !(0xd800 <= cp <= 0xdfff)) by (nonlinear_arith)
            requires
                cp == (x * 64 + y) * 64 + z,
                0 <= y < 64,
                0 <= z < 64,
                0 <= x < 16,
                x == 0 ==> y >= 32,
                x == 13 ==> y < 32,
        ;
        assert(spec_encode_utf8(cp) =~= s.subrange(0, 3));
    } else if b0 >= 0xf0 {
        let x = b0 - 0xf0;
        let y = s[1] as int - 0x80;
        let z = s[2] as int - 0x80;
        let w = s[3] as int - 0x80;
        assert(cp == ((x * 64 + y) * 64 + z) * 64 + w);
        assert(0 <= y < 64 && 0 <= z < 64 && 0 <= w < 64 && 0 <= x <= 4);
        assert(cp / 262144 == x && (cp / 4096) % 64 == y && (cp / 64) % 64 == z && cp % 64 == w)
            by (nonlinear_arith)
            requires
                cp == ((x * 64 + y) * 64 + z) * 64 + w,
                0 <= y < 64,
                0 <= z < 64,
                0 <= w < 64,
                0 <= x <= 4,
        ;
        assert(0x10000 <= cp <= 0x10ffff) by (nonlinear_arith)
            requires
                cp == ((x * 64 + y) * 64 + z) * 64 + w,
                0 <= y < 64,
                0 <= z < 64,
                0 <= w < 64,
                0 <= x <= 4,
                x == 0 ==> y >= 16,
                x == 4 ==> y < 16,
        ;
        assert(spec_encode_utf8(cp) =~= s.subrange(0, 4));
    } else {
        let x = b0 - 0xc0;
        let y = s[1] as int - 0x80;
        assert(cp == x * 64 + y);
        assert(cp / 64 == x && cp % 64 == y) by (nonlinear_arith)
            requires
                cp == x * 64 + y,
                0 <= y < 64,
                0 <= x,
        ;
        assert(spec_encode_utf8(cp) =~= s.subrange(0, 2));
    }
}

/// Decoding reads back every well-formed encoding: the encoded bytes, followed
/// by anything, decode to the code point, and all of them are read.
pub proof fn lemma_decode_utf8_encoded(cp: int, rest: Seq<u8>, length: u32)
    requires
        is_scalar_value(cp),
        length >= spec_encode_utf8(cp).len(),
    ensures
        spec_decode_utf8(spec_encode_utf8(cp) + rest, length) == (
            spec_encode_utf8(cp).len() as u32,
            cp as i32,
        ),
{
    let e = spec_encode_utf8(cp);
    let s = e + rest;
    assert(s[0] == e[0]);
    if e.len() >= 2 {
        assert(s[1] == e[1]);
    }
    if e.len() >= 3 {
        assert(s[2] == e[2]);
    }
    if e.len() >= 4 {
        assert(s[3] == e[3]);
    }
    if cp < 0x80 {
    } else if cp < 0x800 {
        assert(cp == (cp / 64) * 64 + cp % 64);
    } else if cp < 0x10000 {
        let a = cp / 4096;
        let b = (cp / 64) % 64;
        let d = cp % 64;
        assert(cp == (a * 64 + b) * 64 + d) by (nonlinear_arith)
            requires
                a == cp / 4096,
                b == (cp / 64) % 64,
                d == cp % 64,
                0 <= cp,
        ;
        assert(0xd800 <= cp <= 0xdfff <==> (a == 13 && b >= 32)) by (nonlinear_arith)
            requires
                a == cp / 4096,
                b == (cp / 64) % 64,
                0 <= cp < 0x10000,
        ;
        assert(cp >= 0x800 ==> (a > 0 || b >= 32)) by (nonlinear_arith)
            requires
                a == cp / 4096,
                b == (cp / 64) % 64,
                0 <= cp < 0x10000,
        ;
    } else {
        let a = cp / 262144;
        let b = (cp / 4096) % 64;
        let c = (cp / 64) % 64;
        let d = cp % 64;
        assert(cp == ((a * 64 + b) * 64 + c) * 64 + d) by (nonlinear_arith)
            requires
                a == cp / 262144,
                b == (cp / 4096) % 64,
                c == (cp / 64) % 64,
                d == cp % 64,
                0 <= cp,
        ;
        assert(a <= 4 && (a == 0 ==> b >= 16) && (a == 4 ==> b < 16)) by (nonlinear_arith)
            requires
                a == cp / 262144,
                b == (cp / 4096) % 64,
                0x10000 <= cp <= 0x10ffff,
        ;
    }
}

/// Decodes one UTF-16 code point from the start of `string`: a surrogate
/// pair makes one code point when the trailing unit is within `length`;
/// any other unit stands for itself. Returns the number of bytes read.
pub open spec fn spec_decode_utf16(s: Seq<u16>, length: u32) -> (u32, i32) {
    let c0 = s[0];
    if 0xd800 <= c0 <= 0xdbff && length != 1 && 0xdc00 <= s[1] <= 0xdfff {
        (4, ((c0 - 0xd800) * 1024 + (s[1] - 0xdc00) + 0x10000) as i32)
    } else {
        (2, c0 as i32)
    }
}

/// Decodes one UTF-16 code point from the start of `string` (see
/// `spec_decode_utf16`) into `code_point`, and returns the number of bytes read.
pub fn ts_decode_utf16(string: &[u16], length: u32, code_point: &mut i32) -> (n: u32)
    requires
        string@.len() >= 1,
        length != 1 ==> string@.len() >= 2,
    ensures
        (n, *final(code_point)) == spec_decode_utf16(string@, length),
{
    let c0 = string[0];
    if 0xd800 <= c0 && c0 <= 0xdbff && length != 1 {
        let c1 = string[1];
        if 0xdc00 <= c1 && c1 <= 0xdfff {
            *code_point = ((c0 - 0xd800) as i32) * 1024 + (c1 - 0xdc00) as i32 + 0x10000;
            return 4;
        }
    }
    *code_point = c0 as i32;
    2
}

} // verus!

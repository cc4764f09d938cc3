//! Base64 as RFC 4648 defines it, with padding.

use vstd::prelude::*;

verus! {

/// The character for six bits.
pub open spec fn symbol(v: int) -> char {
    if v < 26 {
        (v + 'A' as int) as char
    } else if v < 52 {
        (v - 26 + 'a' as int) as char
    } else if v < 62 {
        (v - 52 + '0' as int) as char
    } else if v == 62 {
        '+'
    } else {
        '/'
    }
}

/// The four characters for the first bytes of `b`, which holds at least one: three bytes are four
/// groups of six bits, and missing bytes are zero bits followed by padding.
pub open spec fn group(b: Seq<u8>) -> Seq<char> {
    let x = b[0] as int;
    let y = if b.len() > 1 {
        b[1] as int
    } else {
        0
    };
    let z = if b.len() > 2 {
        b[2] as int
    } else {
        0
    };
    seq![
        symbol(x / 4),
        symbol((x % 4) * 16 + y / 16),
        if b.len() > 1 {
            symbol((y % 16) * 4 + z / 64)
        } else {
            '='
        },
        if b.len() > 2 {
            symbol(z % 64)
        } else {
            '='
        },
    ]
}

/// The encoding of `b`: its groups of three bytes, one after another.
pub open spec fn encoded(b: Seq<u8>) -> Seq<char>
    decreases b.len(),
{
    if b.len() == 0 {
        Seq::empty()
    } else if b.len() <= 3 {
        group(b)
    } else {
        group(b) + encoded(b.skip(3))
    }
}

fn symbol_of(v: u8) -> (c: char)
    requires
        v < 64,
    ensures
        c == symbol(v as int),
{
    if v < 26 {
        (v + 65) as char
    } else if v < 52 {
        (v - 26 + 97) as char
    } else if v < 62 {
        (v - 52 + 48) as char
    } else if v == 62 {
        '+'
    } else {
        '/'
    }
}

/// Encodes bytes in base64 with padding.
pub fn base64_encode(bytes: &[u8]) -> (out: String)
    ensures
        out@ == encoded(bytes@),
{
    let n: usize = bytes.len();
    let mut out = String::new();
    let mut i: usize = 0;
    assert(bytes@.skip(0) =~= bytes@);
    assert(out@ + encoded(bytes@) =~= encoded(bytes@));
    while i < n
        invariant
            n == bytes@.len(),
            i <= n,
            out@ + encoded(bytes@.skip(i as int)) == encoded(bytes@),
        decreases n - i,
    {
        let ghost rest = bytes@.skip(i as int);
        let ghost before = out@;
        let x: u8 = bytes[i];
        let y: u8 = if n - i > 1 {
            bytes[i + 1]
        } else {
            0
        };
        let z: u8 = if n - i > 2 {
            bytes[i + 2]
        } else {
            0
        };
        out.push(symbol_of(x / 4));
        out.push(symbol_of((x % 4) * 16 + y / 16));
        if n - i > 1 {
            out.push(symbol_of((y % 16) * 4 + z / 64));
        } else {
            out.push('=');
        }
        if n - i > 2 {
            out.push(symbol_of(z % 64));
        } else {
            out.push('=');
        }
        assert(out@ =~= before + group(rest));
        if n - i > 3 {
            proof {
                assert(rest.skip(3) =~= bytes@.skip(i + 3));
                assert(out@ + encoded(bytes@.skip(i + 3)) =~= before + encoded(rest));
            }
            i = i + 3;
        } else {
            proof {
                assert(bytes@.skip(n as int) =~= Seq::<u8>::empty());
                assert(out@ + encoded(bytes@.skip(n as int)) =~= before + encoded(rest));
            }
            i = n;
        }
    }
    assert(bytes@.skip(n as int) =~= Seq::<u8>::empty());
    assert(out@ + Seq::<char>::empty() =~= out@);
    out
}

/// The six bits that a character stands for.
pub open spec fn value(c: char) -> int {
    if 'A' <= c <= 'Z' {
        c as int - 'A' as int
    } else if 'a' <= c <= 'z' {
        c as int - 'a' as int + 26
    } else if '0' <= c <= '9' {
        c as int - '0' as int + 52
    } else if c == '+' {
        62
    } else {
        63
    }
}

/// The bytes that four characters stand for.
pub open spec fn ungroup(s: Seq<char>) -> Seq<u8> {
    let first = (value(s[0]) * 4 + value(s[1]) / 16) as u8;
    let second = ((value(s[1]) % 16) * 16 + value(s[2]) / 4) as u8;
    let third = ((value(s[2]) % 4) * 64 + value(s[3])) as u8;
    if s[2] == '=' {
        seq![first]
    } else if s[3] == '=' {
        seq![first, second]
    } else {
        seq![first, second, third]
    }
}

/// The bytes that a base64 text stands for.
pub open spec fn decoded(s: Seq<char>) -> Seq<u8>
    decreases s.len(),
{
    if s.len() < 4 {
        Seq::empty()
    } else {
        ungroup(s.take(4)) + decoded(s.skip(4))
    }
}

proof fn group_round_trip(b: Seq<u8>)
    requires
        b.len() > 0,
    ensures
        ungroup(group(b)) == b.take(
            if b.len() < 3 {
                b.len() as int
            } else {
                3
            },
        ),
{
    let x = b[0] as int;
    let y = if b.len() > 1 {
        b[1] as int
    } else {
        0
    };
    let z = if b.len() > 2 {
        b[2] as int
    } else {
        0
    };
    let g = group(b);
    assert(value(g[0]) == x / 4);
    assert(value(g[1]) == (x % 4) * 16 + y / 16);
    if b.len() > 1 {
        assert(value(g[2]) == (y % 16) * 4 + z / 64);
    }
    if b.len() > 2 {
        assert(value(g[3]) == z % 64);
    }
    assert(ungroup(g) =~= b.take(
        if b.len() < 3 {
            b.len() as int
        } else {
            3
        },
    ));
}

/// Decoding gives back what was encoded.
pub proof fn decoding_inverts_encoding(b: Seq<u8>)
    ensures
        decoded(encoded(b)) == b,
    decreases b.len(),
{
    if b.len() > 0 {
        group_round_trip(b);
        let g = group(b);
        let s = encoded(b);
        assert(s.take(4) =~= g);
        if b.len() <= 3 {
            assert(s.skip(4) =~= Seq::<char>::empty());
            assert(decoded(s.skip(4)) =~= Seq::<u8>::empty());
            assert(decoded(s) =~= b);
        } else {
            decoding_inverts_encoding(b.skip(3));
            assert(s.skip(4) =~= encoded(b.skip(3)));
            assert(b =~= b.take(3) + b.skip(3));
        }
    }
}

/// Every three bytes, or what is left of them, take four characters.
pub proof fn encoded_length(b: Seq<u8>)
    ensures
        encoded(b).len() == 4 * ((b.len() + 2) / 3),
    decreases b.len(),
{
    if b.len() > 3 {
        encoded_length(b.skip(3));
    }
}

/// Three bytes become four letters: the six bits of each, from the highest down, as a place in the
/// alphabet. One or two bytes at the end are filled up with zero bits, and the letters without any
/// bit of theirs are equal signs.
pub proof fn letters_are_six_bits_each(bytes: &[u8], out: String, g: int)
    requires
        call_ensures(base64_encode, (bytes,), out),
        0 <= g,
        3 * g < bytes@.len(),
    ensures
        out@.len() == 4 * ((bytes@.len() + 2) / 3),
        ({
            let n = bytes@.len();
            let letters = "ABCDEFGHIJKLMNOPQRSTUVWXYZabcdefghijklmnopqrstuvwxyz0123456789+/"@;
            let x = bytes@[3 * g] as int;
            let y = if 3 * g + 1 < n {
                bytes@[3 * g + 1] as int
            } else {
                0
            };
            let z = if 3 * g + 2 < n {
                bytes@[3 * g + 2] as int
            } else {
                0
            };
            let v = 0x1_0000 * x + 0x100 * y + z;
            &&& out@[4 * g] == letters[v / 0x4_0000]
            &&& out@[4 * g + 1] == letters[v / 0x1000 % 64]
            &&& out@[4 * g + 2] == if 3 * g + 1 < n {
                letters[v / 64 % 64]
            } else {
                '='
            }
            &&& out@[4 * g + 3] == if 3 * g + 2 < n {
                letters[v % 64]
            } else {
                '='
            }
        }),
{
    encoded_length(bytes@);
    a_group_stands_in_its_place(bytes@, g);
    let n = bytes@.len();
    let part = bytes@.skip(3 * g);
    let x = part[0] as int;
    let y = if part.len() > 1 {
        part[1] as int
    } else {
        0
    };
    let z = if part.len() > 2 {
        part[2] as int
    } else {
        0
    };
    six_bits_each(x, y, z);
    a_symbol_is_its_letter(x / 4);
    a_symbol_is_its_letter((x % 4) * 16 + y / 16);
    a_symbol_is_its_letter((y % 16) * 4 + z / 64);
    a_symbol_is_its_letter(z % 64);
}

proof fn six_bits_each(x: int, y: int, z: int)
    requires
        0 <= x < 256,
        0 <= y < 256,
        0 <= z < 256,
    ensures
        ({
            let v = 0x1_0000 * x + 0x100 * y + z;
            &&& v / 0x4_0000 == x / 4
            &&& v / 0x1000 % 64 == (x % 4) * 16 + y / 16
            &&& v / 64 % 64 == (y % 16) * 4 + z / 64
            &&& v % 64 == z % 64
        }),
{
    let v = 0x1_0000 * x + 0x100 * y + z;
    assert(v / 0x1000 == 16 * x + y / 16);
    assert(v / 64 == 1024 * x + 4 * y + z / 64);
}

proof fn a_symbol_is_its_letter(v: int)
    requires
        0 <= v < 64,
    ensures
        symbol(v) == "ABCDEFGHIJKLMNOPQRSTUVWXYZabcdefghijklmnopqrstuvwxyz0123456789+/"@[v],
{
    reveal_strlit("ABCDEFGHIJKLMNOPQRSTUVWXYZabcdefghijklmnopqrstuvwxyz0123456789+/");
}

proof fn a_group_stands_in_its_place(b: Seq<u8>, g: int)
    requires
        0 <= g,
        3 * g < b.len(),
    ensures
        4 * g + 4 <= encoded(b).len(),
        encoded(b)[4 * g] == group(b.skip(3 * g))[0],
        encoded(b)[4 * g + 1] == group(b.skip(3 * g))[1],
        encoded(b)[4 * g + 2] == group(b.skip(3 * g))[2],
        encoded(b)[4 * g + 3] == group(b.skip(3 * g))[3],
    decreases g,
{
    if g == 0 {
        assert(b.skip(0) =~= b);
    } else {
        let rest = b.skip(3);
        a_group_stands_in_its_place(rest, g - 1);
        assert(rest.skip(3 * (g - 1)) =~= b.skip(3 * g));
        assert(encoded(b) == group(b) + encoded(rest));
        assert(group(b).len() == 4);
    }
}

} // verus!

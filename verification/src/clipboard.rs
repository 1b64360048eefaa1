//! Copying by an OSC 52 escape sequence, which the terminal itself carries
//! out, and the base64 encoding that it needs.
use crate::text;
use vstd::prelude::*;
use vstd::string::StringSliceAdditionalSpecFns;

verus! {

/// The base64 letter for a number below 64.
pub open spec fn letter(n: int) -> char {
    if n < 26 {
        (65 + n) as char
    } else if n < 52 {
        (71 + n) as char
    } else if n < 62 {
        (n - 4) as char
    } else if n == 62 {
        '+'
    } else {
        '/'
    }
}

/// Three bytes as one number.
pub open spec fn triple(a: int, b: int, c: int) -> int {
    a * 65536 + b * 256 + c
}

/// The base64 encoding: every three bytes as four letters of six bits, with
/// `=` for what is missing at the end.
pub open spec fn encoded(d: Seq<u8>) -> Seq<char>
    decreases d.len(),
{
    if d.len() == 0 {
        Seq::empty()
    } else if d.len() == 1 {
        let v = triple(d[0] as int, 0, 0);
        seq![letter(v / 262144), letter(v / 4096 % 64), '=', '=']
    } else if d.len() == 2 {
        let v = triple(d[0] as int, d[1] as int, 0);
        seq![letter(v / 262144), letter(v / 4096 % 64), letter(v / 64 % 64), '=']
    } else {
        let v = triple(d[0] as int, d[1] as int, d[2] as int);
        seq![letter(v / 262144), letter(v / 4096 % 64), letter(v / 64 % 64), letter(v % 64)]
            + encoded(d.skip(3))
    }
}

/// The base64 letter for a number below 64.
fn pick(n: u8) -> (r: char)
    requires
        n < 64,
    ensures
        r == letter(n as int),
{
    if n < 26 {
        (65 + n) as char
    } else if n < 52 {
        (71 + n) as char
    } else if n < 62 {
        (n - 4) as char
    } else if n == 62 {
        '+'
    } else {
        '/'
    }
}

/// The four groups of six bits in three bytes.
proof fn lemma_groups(a: int, b: int, c: int)
    requires
        0 <= a < 256,
        0 <= b < 256,
        0 <= c < 256,
    ensures
        triple(a, b, c) / 262144 == a / 4,
        triple(a, b, c) / 4096 % 64 == a % 4 * 16 + b / 16,
        triple(a, b, c) / 64 % 64 == b % 16 * 4 + c / 64,
        triple(a, b, c) % 64 == c % 64,
{
    use_division(triple(a, b, c), 262144, a / 4, a % 4 * 65536 + b * 256 + c);
    use_division(triple(a, b, c), 4096, a * 16 + b / 16, b % 16 * 256 + c);
    use_division(a * 16 + b / 16, 64, a / 4, a % 4 * 16 + b / 16);
    use_division(triple(a, b, c), 64, a * 1024 + b * 4 + c / 64, c % 64);
    use_division(a * 1024 + b * 4 + c / 64, 64, a * 16 + b / 16, b % 16 * 4 + c / 64);
}

/// A number taken apart by a divisor.
proof fn use_division(x: int, d: int, q: int, r: int)
    requires
        d > 0,
        0 <= r < d,
        x == d * q + r,
    ensures
        x / d == q,
        x % d == r,
{
    assert(d * q == q * d) by (nonlinear_arith);
    vstd::arithmetic::div_mod::lemma_fundamental_div_mod_converse(x, d, q, r);
}

/// The groups of six bits by shifting and masking.
proof fn lemma_bits(a: u8, b: u8, c: u8)
    ensures
        a >> 2 == a / 4,
        ((a & 0x03) << 4) | (b >> 4) == a % 4 * 16 + b / 16,
        ((b & 0x0F) << 2) | (c >> 6) == b % 16 * 4 + c / 64,
        c & 0x3F == c % 64,
{
    assert(a >> 2 == a / 4) by (bit_vector);
    assert(((a & 0x03) << 4) | (b >> 4) == (a % 4) * 16 + b / 16) by (bit_vector);
    assert(((b & 0x0F) << 2) | (c >> 6) == (b % 16) * 4 + c / 64) by (bit_vector);
    assert(c & 0x3F == c % 64) by (bit_vector);
}

/// Encodes bytes in base64.
pub fn b64_encode(data: &[u8]) -> (r: String)
    ensures
        r@ == encoded(data@),
{
    let mut out = String::new();
    let mut i: usize = 0;
    assert(data@.skip(0) =~= data@);
    while i < data.len()
        invariant
            i <= data@.len(),
            encoded(data@) == out@ + encoded(data@.skip(i as int)),
        decreases data@.len() - i,
    {
        let n = data.len() - i;
        let ghost start = out@;
        let ghost rest = data@.skip(i as int);
        let b0 = data[i];
        let b1 = if n > 1 {
            data[i + 1]
        } else {
            0
        };
        let b2 = if n > 2 {
            data[i + 2]
        } else {
            0
        };
        proof {
            lemma_groups(b0 as int, b1 as int, b2 as int);
            lemma_bits(b0, b1, b2);
        }
        out.push(pick(b0 >> 2));
        out.push(pick(((b0 & 0x03) << 4) | (b1 >> 4)));
        if n > 1 {
            out.push(pick(((b1 & 0x0F) << 2) | (b2 >> 6)));
        } else {
            out.push('=');
        }
        if n > 2 {
            out.push(pick(b2 & 0x3F));
        } else {
            out.push('=');
        }
        if n > 3 {
            i += 3;
            assert(rest.skip(3) =~= data@.skip(i as int));
        } else {
            i = data.len();
            assert(rest.skip(3) =~= data@.skip(i as int) || n < 3);
            assert(data@.skip(i as int) =~= Seq::empty());
            assert(encoded(data@.skip(i as int)) =~= Seq::empty());
        }
        assert(encoded(rest) =~= out@.skip(start.len() as int) + encoded(data@.skip(i as int)));
        assert(start + encoded(rest) =~= out@ + encoded(data@.skip(i as int)));
    }
    assert(out@ + encoded(data@.skip(i as int)) =~= out@);
    out
}

/// The escape sequence that copies a text to the clipboard: its UTF-8 bytes
/// in base64, between the opening of the sequence and a bell.
pub open spec fn copy_sequence(s: &str) -> Seq<char> {
    "\x1b]52;c;"@ + encoded(s.spec_bytes()) + "\x07"@
}

/// The escape sequence that copies `s` to the clipboard.
pub fn copy(s: &str) -> (r: String)
    ensures
        r@ == copy_sequence(s),
{
    let payload = b64_encode(s.as_bytes());
    "\x1b]52;c;".to_owned().concat(payload.as_str()).concat("\x07")
}

/// The number that a base64 letter stands for.
pub open spec fn digit(c: char) -> int {
    let n = c as int;
    if 65 <= n <= 90 {
        n - 65
    } else if 97 <= n <= 122 {
        n - 71
    } else if 48 <= n <= 57 {
        n + 4
    } else if c == '+' {
        62
    } else {
        63
    }
}

/// The bytes that a base64 text stands for.
pub open spec fn decoded(s: Seq<char>) -> Seq<u8>
    decreases s.len(),
{
    if s.len() < 4 {
        Seq::empty()
    } else {
        let v = digit(s[0]) * 262144 + digit(s[1]) * 4096 + digit(s[2]) * 64 + digit(s[3]);
        let w = digit(s[0]) * 262144 + digit(s[1]) * 4096 + digit(s[2]) * 64;
        let u = digit(s[0]) * 262144 + digit(s[1]) * 4096;
        if s[2] == '=' {
            seq![(u / 65536) as u8]
        } else if s[3] == '=' {
            seq![(w / 65536) as u8, (w / 256 % 256) as u8]
        } else {
            seq![(v / 65536) as u8, (v / 256 % 256) as u8, (v % 256) as u8] + decoded(s.skip(4))
        }
    }
}

/// A letter is no padding, and stands for its number.
proof fn lemma_letter(n: int)
    requires
        0 <= n < 64,
    ensures
        digit(letter(n)) == n,
        letter(n) != '=',
{
}

/// Base64 loses nothing: the encoded text stands for the bytes it was made of.
pub proof fn law_encoding_reads_back(d: Seq<u8>)
    ensures
        decoded(encoded(d)) == d,
    decreases d.len(),
{
    let s = encoded(d);
    if d.len() == 0 {
        assert(decoded(s) =~= d);
    } else {
        let b1 = if d.len() > 1 {
            d[1]
        } else {
            0
        };
        let b2 = if d.len() > 2 {
            d[2]
        } else {
            0
        };
        let a = d[0] as int;
        let b = b1 as int;
        let c = b2 as int;
        let v = triple(a, b, c);
        lemma_groups(a, b, c);
        lemma_letter(a / 4);
        lemma_letter(a % 4 * 16 + b / 16);
        lemma_letter(b % 16 * 4 + c / 64);
        lemma_letter(c % 64);
        use_division(v, 65536, a, b * 256 + c);
        use_division(v, 256, a * 256 + b, c);
        use_division(a * 256 + b, 256, a, b);
        assert(a / 4 * 262144 + (a % 4 * 16 + b / 16) * 4096 + (b % 16 * 4 + c / 64) * 64 + c % 64
            == v);
        if d.len() >= 3 {
            law_encoding_reads_back(d.skip(3));
            assert(s.skip(4) =~= encoded(d.skip(3)));
        }
        assert(decoded(s) =~= d);
    }
}

/// Base64 makes four characters of every three bytes or part of three.
pub proof fn law_encoding_length(d: Seq<u8>)
    ensures
        encoded(d).len() == (d.len() + 2) / 3 * 4,
    decreases d.len(),
{
    if d.len() >= 3 {
        law_encoding_length(d.skip(3));
    }
}

/// The letters are the capital ones, the small ones, the ten digits, plus and
/// slash, in this order.
pub proof fn law_letters_of_the_alphabet(n: int)
    ensures
        0 <= n < 26 ==> letter(n) as int == 'A' as int + n,
        26 <= n < 52 ==> letter(n) as int == 'a' as int + (n - 26),
        52 <= n < 62 ==> letter(n) as int == '0' as int + (n - 52),
        n == 62 ==> letter(n) == '+',
        n == 63 ==> letter(n) == '/',
{
}

/// Three bytes make four letters of six bits each, the high bits first. Where
/// one or two bytes are left at the end, the missing bits are 0, and a `=` stands
/// for each missing byte.
pub proof fn law_three_bytes_make_four_letters(a: u8, b: u8, c: u8, rest: Seq<u8>)
    ensures
        encoded(seq![a, b, c] + rest) == seq![
            letter(a as int / 4),
            letter(a as int % 4 * 16 + b as int / 16),
            letter(b as int % 16 * 4 + c as int / 64),
            letter(c as int % 64),
        ] + encoded(rest),
        encoded(seq![a, b]) == seq![
            letter(a as int / 4),
            letter(a as int % 4 * 16 + b as int / 16),
            letter(b as int % 16 * 4),
            '=',
        ],
        encoded(seq![a]) == seq![letter(a as int / 4), letter(a as int % 4 * 16), '=', '='],
        encoded(Seq::empty()).len() == 0,
{
    let d = seq![a, b, c] + rest;
    assert(d[0] == a && d[1] == b && d[2] == c);
    assert(d.skip(3) =~= rest);
    lemma_groups(a as int, b as int, c as int);
    lemma_groups(a as int, b as int, 0);
    lemma_groups(a as int, 0, 0);
    let one = seq![a];
    let two = seq![a, b];
    assert(one[0] == a && one.len() == 1);
    assert(two[0] == a && two[1] == b && two.len() == 2);
}

/// The sequence opens with the code for the clipboard and ends with a bell; what
/// stands between are the letters of the bytes of the text.
pub proof fn law_sequence_carries_the_text(s: &str)
    ensures
        copy_sequence(s) == "\x1b]52;c;"@ + encoded(s.spec_bytes()) + seq!['\u{7}'],
        decoded(encoded(s.spec_bytes())) == s.spec_bytes(),
{
    reveal_strlit("\x07");
    assert("\x07"@ =~= seq!['\u{7}']);
    law_encoding_reads_back(s.spec_bytes());
}

} // verus!

//! Standard base64 (RFC 4648 alphabet, `=` padding, no line wrapping).
use vstd::prelude::*;

verus! {

pub const PADDING: char = '=';

/// The character of the standard alphabet for a six-bit value.
pub open spec fn sixbit_char(v: u8) -> char {
    if v < 26 {
        (v + 65) as char
    } else if v < 52 {
        (v + 71) as char
    } else if v < 62 {
        (v - 4) as char
    } else if v == 62 {
        '+'
    } else {
        '/'
    }
}

/// The six-bit value of a character of the standard alphabet (0 for any other).
pub open spec fn char_sixbit(c: char) -> u8 {
    let n = c as u32;
    if 65 <= n <= 90 {
        (n - 65) as u8
    } else if 97 <= n <= 122 {
        (n - 71) as u8
    } else if 48 <= n <= 57 {
        (n + 4) as u8
    } else if c == '+' {
        62
    } else {
        63
    }
}

/// The four symbols of a complete group of three bytes.
pub open spec fn group3(b0: u8, b1: u8, b2: u8) -> Seq<char> {
    seq![
        sixbit_char(b0 >> 2),
        sixbit_char(((b0 & 3) << 4) | (b1 >> 4)),
        sixbit_char(((b1 & 15) << 2) | (b2 >> 6)),
        sixbit_char(b2 & 63),
    ]
}

/// The base64 text of a byte sequence: one group of four symbols for every
/// three bytes, the last group padded with `=` when fewer than three remain.
pub open spec fn encoded(b: Seq<u8>) -> Seq<char>
    decreases b.len(),
{
    if b.len() == 0 {
        seq![]
    } else if b.len() == 1 {
        seq![sixbit_char(b[0] >> 2), sixbit_char((b[0] & 3) << 4), PADDING, PADDING]
    } else if b.len() == 2 {
        seq![
            sixbit_char(b[0] >> 2),
            sixbit_char(((b[0] & 3) << 4) | (b[1] >> 4)),
            sixbit_char((b[1] & 15) << 2),
            PADDING,
        ]
    } else {
        group3(b[0], b[1], b[2]) + encoded(b.subrange(3, b.len() as int))
    }
}

/// Standard base64 decoding of padded text, four symbols at a time.
pub open spec fn decoded(s: Seq<char>) -> Seq<u8>
    decreases s.len(),
{
    if s.len() < 4 {
        seq![]
    } else {
        let a = char_sixbit(s[0]);
        let b = char_sixbit(s[1]);
        let c = char_sixbit(s[2]);
        let d = char_sixbit(s[3]);
        let x0 = (a << 2) | (b >> 4);
        let x1 = ((b & 15) << 4) | (c >> 2);
        let x2 = ((c & 3) << 6) | d;
        let group = if s[2] == PADDING {
            seq![x0]
        } else if s[3] == PADDING {
            seq![x0, x1]
        } else {
            seq![x0, x1, x2]
        };
        group + decoded(s.subrange(4, s.len() as int))
    }
}

/// Number of `=` characters at the end of the encoding of `n` bytes.
pub open spec fn padding_len(n: nat) -> nat {
    if n % 3 == 0 {
        0
    } else if n % 3 == 2 {
        1
    } else {
        2
    }
}

proof fn lemma_sixbit_roundtrip(v: u8)
    requires
        v < 64,
    ensures
        char_sixbit(sixbit_char(v)) == v,
        sixbit_char(v) != PADDING,
{
}

proof fn lemma_bits3(b0: u8, b1: u8, b2: u8)
    ensures
        b0 >> 2 < 64,
        ((b0 & 3) << 4) | (b1 >> 4) < 64,
        ((b1 & 15) << 2) | (b2 >> 6) < 64,
        b2 & 63 < 64,
        (((b0 >> 2) as u8) << 2) | ((((b0 & 3) << 4) | (b1 >> 4)) >> 4) == b0,
        ((((((b0 & 3) << 4) | (b1 >> 4)) as u8) & 15) << 4) | ((((b1 & 15) << 2) | (b2 >> 6)) >> 2)
            == b1,
        ((((((b1 & 15) << 2) | (b2 >> 6)) as u8) & 3) << 6) | (b2 & 63) == b2,
{
    assert(b0 >> 2 < 64) by (bit_vector);
    assert(((b0 & 3) << 4) | (b1 >> 4) < 64) by (bit_vector);
    assert(((b1 & 15) << 2) | (b2 >> 6) < 64) by (bit_vector);
    assert(b2 & 63 < 64) by (bit_vector);
    assert((((b0 >> 2) as u8) << 2) | ((((b0 & 3) << 4) | (b1 >> 4)) >> 4) == b0) by (bit_vector);
    assert(((((((b0 & 3) << 4) | (b1 >> 4)) as u8) & 15) << 4) | ((((b1 & 15) << 2) | (b2
        >> 6)) >> 2) == b1) by (bit_vector);
    assert(((((((b1 & 15) << 2) | (b2 >> 6)) as u8) & 3) << 6) | (b2 & 63) == b2)
        by (bit_vector);
}

/// The encoding of `p + q` is that of `p` followed by that of `q` when `p`
/// is made of whole groups of three bytes.
pub proof fn lemma_encoded_append(p: Seq<u8>, q: Seq<u8>)
    requires
        p.len() % 3 == 0,
    ensures
        encoded(p + q) == encoded(p) + encoded(q),
    decreases p.len(),
{
    if p.len() == 0 {
        assert(p + q =~= q);
    } else {
        let r = p.subrange(3, p.len() as int);
        lemma_encoded_append(r, q);
        assert((p + q).subrange(3, (p + q).len() as int) =~= r + q);
    }
}

/// Decoding the encoding of any byte sequence gives the sequence back.
pub proof fn lemma_round_trip(b: Seq<u8>)
    ensures
        decoded(encoded(b)) == b,
    decreases b.len(),
{
    let e = encoded(b);
    if b.len() == 0 {
    } else if b.len() < 3 {
        let b0 = b[0];
        let b1 = if b.len() == 2 { b[1] } else { 0u8 };
        lemma_bits3(b0, b1, 0);
        lemma_sixbit_roundtrip(b0 >> 2);
        lemma_sixbit_roundtrip(((b0 & 3) << 4) | (b1 >> 4));
        lemma_sixbit_roundtrip(((b1 & 15) << 2) | (0u8 >> 6));
        assert((b0 & 3) << 4 == ((b0 & 3) << 4) | (0u8 >> 4)) by (bit_vector);
        assert((b1 & 15) << 2 == ((b1 & 15) << 2) | (0u8 >> 6)) by (bit_vector);
        assert(e.subrange(4, e.len() as int) =~= seq![]);
        assert(decoded(seq![]) == Seq::<u8>::empty());
        assert((b0 & 3) << 4 < 64) by (bit_vector);
        assert((b1 & 15) << 2 < 64) by (bit_vector);
        lemma_sixbit_roundtrip((b0 & 3) << 4);
        lemma_sixbit_roundtrip((b1 & 15) << 2);
        if b.len() == 1 {
            assert(decoded(e) =~= seq![b0]);
        } else {
            assert(decoded(e) =~= seq![b0, b1]);
        }
        assert(decoded(e) =~= b);
    } else {
        let r = b.subrange(3, b.len() as int);
        lemma_round_trip(r);
        lemma_bits3(b[0], b[1], b[2]);
        lemma_sixbit_roundtrip(b[0] >> 2);
        lemma_sixbit_roundtrip(((b[0] & 3) << 4) | (b[1] >> 4));
        lemma_sixbit_roundtrip(((b[1] & 15) << 2) | (b[2] >> 6));
        lemma_sixbit_roundtrip(b[2] & 63);
        assert(e.subrange(4, e.len() as int) =~= encoded(r));
        assert(decoded(e) =~= b);
    }
}

/// The encoding of `n` bytes has `ceil(n / 3) * 4` characters, of which the
/// last `padding_len(n)` are `=` and no other is.
pub proof fn lemma_encoded_len(b: Seq<u8>)
    ensures
        encoded(b).len() == (b.len() / 3 + if b.len() % 3 > 0 { 1int } else { 0 }) * 4,
        forall|i: int|
            0 <= i < encoded(b).len() ==> (encoded(b)[i] == PADDING <==> i >= encoded(b).len()
                - padding_len(b.len())),
    decreases b.len(),
{
    if b.len() >= 3 {
        let r = b.subrange(3, b.len() as int);
        lemma_encoded_len(r);
        lemma_bits3(b[0], b[1], b[2]);
        lemma_sixbit_roundtrip(b[0] >> 2);
        lemma_sixbit_roundtrip(((b[0] & 3) << 4) | (b[1] >> 4));
        lemma_sixbit_roundtrip(((b[1] & 15) << 2) | (b[2] >> 6));
        lemma_sixbit_roundtrip(b[2] & 63);
    } else if b.len() > 0 {
        let b0 = b[0];
        let b1 = if b.len() == 2 { b[1] } else { 0u8 };
        lemma_bits3(b0, b1, 0);
        lemma_sixbit_roundtrip(b0 >> 2);
        lemma_sixbit_roundtrip(((b0 & 3) << 4) | (b1 >> 4));
        lemma_sixbit_roundtrip(((b1 & 15) << 2) | (0u8 >> 6));
        assert((b0 & 3) << 4 == ((b0 & 3) << 4) | (0u8 >> 4)) by (bit_vector);
        assert((b1 & 15) << 2 == ((b1 & 15) << 2) | (0u8 >> 6)) by (bit_vector);
    }
}

/// How many bits of the previous byte are still waiting to be written.
enum RemainderBits {
    Zero,
    Two,
    Four,
}

/// The symbols written so far for an incomplete trailing group.
spec fn partial(g: Seq<u8>) -> Seq<char> {
    if g.len() == 0 {
        seq![]
    } else if g.len() == 1 {
        seq![sixbit_char(g[0] >> 2)]
    } else {
        seq![sixbit_char(g[0] >> 2), sixbit_char(((g[0] & 3) << 4) | (g[1] >> 4))]
    }
}

fn sixbit2char(v: u8) -> (c: char)
    requires
        v < 64,
    ensures
        c == sixbit_char(v),
{
    if v < 26 {
        (v + 65) as char
    } else if v < 52 {
        (v + 71) as char
    } else if v < 62 {
        (v - 4) as char
    } else if v == 62 {
        '+'
    } else {
        '/'
    }
}

/// Relies on `FromIterator<char> for String` (via `collect`): the string
/// holds the characters in order.
#[verifier::external_body]
pub(crate) fn string_from_chars(chars: &Vec<char>) -> (s: String)
    ensures
        s@ == chars@,
{
    chars.iter().collect()
}

/// Encodes bytes as padded standard base64.
pub fn encode(bytes: &[u8]) -> (r: String)
    ensures
        r@ == encoded(bytes@),
{
    let mut out: Vec<char> = Vec::new();
    let mut remainder: u8 = 0;
    let mut num_bits = RemainderBits::Zero;
    let ghost b = bytes@;
    let ghost mut g: int = 0;
    let mut i: usize = 0;
    while i < bytes.len()
        invariant
            b == bytes@,
            0 <= g <= i <= b.len(),
            g % 3 == 0,
            out@ == encoded(b.subrange(0, g)) + partial(b.subrange(g, i as int)),
            match num_bits {
                RemainderBits::Zero => i == g && remainder == 0,
                RemainderBits::Two => i == g + 1 && remainder == (b[g] & 3) << 4 && remainder
                    < 64 && remainder & 15 == 0,
                RemainderBits::Four => i == g + 2 && remainder == (b[g + 1] & 15) << 2
                    && remainder < 64 && remainder & 3 == 0,
            },
        decreases b.len() - i,
    {
        let x = bytes[i];
        match num_bits {
            RemainderBits::Zero => {
                assert(x >> 2 < 64) by (bit_vector);
                out.push(sixbit2char(x >> 2));
                assert((x & 3) << 4 < 64 && ((x & 3) << 4) & 15 == 0) by (bit_vector);
                remainder = (x & 3) << 4;
                num_bits = RemainderBits::Two;
                assert(b.subrange(g, i + 1) =~= seq![x]);
            },
            RemainderBits::Two => {
                let r0 = remainder;
                assert(r0 | (x >> 4) < 64) by (bit_vector)
                    requires r0 < 64 && r0 & 15 == 0;
                out.push(sixbit2char(remainder | (x >> 4)));
                assert((x & 15) << 2 < 64 && ((x & 15) << 2) & 3 == 0) by (bit_vector);
                remainder = (x & 15) << 2;
                num_bits = RemainderBits::Four;
                assert(b.subrange(g, i + 1) =~= seq![b[g], x]);
            },
            RemainderBits::Four => {
                let r0 = remainder;
                assert(r0 | (x >> 6) < 64) by (bit_vector)
                    requires r0 < 64 && r0 & 3 == 0;
                out.push(sixbit2char(remainder | (x >> 6)));
                assert(x & 63 < 64) by (bit_vector);
                out.push(sixbit2char(x & 63));
                remainder = 0;
                num_bits = RemainderBits::Zero;
                proof {
                    let grp = b.subrange(g, g + 3);
                    assert(encoded(grp) == group3(grp[0], grp[1], grp[2]) + encoded(
                        grp.subrange(3, 3),
                    ));
                    assert(encoded(grp.subrange(3, 3)) == Seq::<char>::empty());
                    lemma_encoded_append(b.subrange(0, g), grp);
                    assert(b.subrange(0, g) + grp =~= b.subrange(0, g + 3));
                    g = g + 3;
                    assert(b.subrange(g, i + 1) =~= seq![]);
                }
            },
        }
        i = i + 1;
    }
    proof {
        lemma_encoded_append(b.subrange(0, g), b.subrange(g, b.len() as int));
        assert(b.subrange(0, g) + b.subrange(g, b.len() as int) =~= b);
    }
    match num_bits {
        RemainderBits::Zero => {
            assert(b.subrange(g, b.len() as int) =~= seq![]);
        },
        RemainderBits::Two => {
            out.push(sixbit2char(remainder));
            out.push(PADDING);
            out.push(PADDING);
            assert(out@ =~= encoded(b.subrange(0, g)) + encoded(b.subrange(g, b.len() as int)));
        },
        RemainderBits::Four => {
            out.push(sixbit2char(remainder));
            out.push(PADDING);
            assert(out@ =~= encoded(b.subrange(0, g)) + encoded(b.subrange(g, b.len() as int)));
        },
    }
    string_from_chars(&out)
}

} // verus!

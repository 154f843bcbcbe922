//! Byte-level primitives for the snapshot format: fixed-width lowercase
//! hexadecimal numbers and length-prefixed character strings, with proofs
//! that parsing inverts encoding.

use vstd::prelude::*;

verus! {

/// The ASCII byte for one lowercase hex digit.
pub open spec fn hex_char(d: nat) -> u8 {
    if d < 10 {
        (48 + d) as u8
    } else {
        (87 + d) as u8
    }
}

pub open spec fn is_hex_byte(b: u8) -> bool {
    (48 <= b && b <= 57) || (97 <= b && b <= 102)
}

/// The value of one hex digit byte.
pub open spec fn hex_val(b: u8) -> nat {
    if 48 <= b && b <= 57 {
        (b - 48) as nat
    } else {
        (b - 87) as nat
    }
}

pub open spec fn pow16(w: nat) -> nat
    decreases w,
{
    if w == 0 {
        1
    } else {
        16 * pow16((w - 1) as nat)
    }
}

/// A number as `width` hex digit bytes, most significant digit first.
pub open spec fn enc_hex(n: nat, width: nat) -> Seq<u8>
    decreases width,
{
    if width == 0 {
        Seq::empty()
    } else {
        enc_hex(n / 16, (width - 1) as nat) + seq![hex_char(n % 16)]
    }
}

pub open spec fn all_hex(s: Seq<u8>) -> bool {
    forall|i: int| 0 <= i < s.len() ==> is_hex_byte(#[trigger] s[i])
}

/// The value of a sequence of hex digit bytes.
pub open spec fn dec_hex(s: Seq<u8>) -> nat
    decreases s.len(),
{
    if s.len() == 0 {
        0
    } else {
        dec_hex(s.drop_last()) * 16 + hex_val(s.last())
    }
}

pub proof fn lemma_hex_round_trip(n: nat, width: nat)
    requires
        n < pow16(width),
    ensures
        enc_hex(n, width).len() == width,
        all_hex(enc_hex(n, width)),
        dec_hex(enc_hex(n, width)) == n,
    decreases width,
{
    if width > 0 {
        assert(pow16(width) == 16 * pow16((width - 1) as nat));
        lemma_hex_round_trip(n / 16, (width - 1) as nat);
        let e = enc_hex(n, width);
        assert(e.drop_last() =~= enc_hex(n / 16, (width - 1) as nat));
        assert(e.last() == hex_char(n % 16));
    }
}

pub proof fn lemma_pow16_mono(a: nat, b: nat)
    requires
        a <= b,
    ensures
        pow16(a) <= pow16(b),
    decreases b,
{
    if a < b {
        lemma_pow16_mono(a, (b - 1) as nat);
    }
}

/// Parsing `width` hex digit bytes off the front of `s`.
pub open spec fn parse_hex(s: Seq<u8>, width: nat) -> Option<(nat, Seq<u8>)> {
    if s.len() >= width && all_hex(s.take(width as int)) {
        Some((dec_hex(s.take(width as int)), s.skip(width as int)))
    } else {
        None
    }
}

pub proof fn lemma_parse_enc_hex(n: nat, width: nat, rest: Seq<u8>)
    requires
        n < pow16(width),
    ensures
        parse_hex(enc_hex(n, width) + rest, width) == Some((n, rest)),
{
    lemma_hex_round_trip(n, width);
    let s = enc_hex(n, width) + rest;
    assert(s.take(width as int) =~= enc_hex(n, width));
    assert(s.skip(width as int) =~= rest);
}

pub open spec fn is_scalar_value(v: nat) -> bool {
    v < 0xD800 || (0xE000 <= v && v <= 0x10FFFF)
}

/// One character as six hex digit bytes of its code point.
pub open spec fn enc_char(c: char) -> Seq<u8> {
    enc_hex((c as u32) as nat, 6)
}

pub open spec fn enc_chars(t: Seq<char>) -> Seq<u8>
    decreases t.len(),
{
    if t.len() == 0 {
        Seq::empty()
    } else {
        enc_char(t[0]) + enc_chars(t.skip(1))
    }
}

/// A string as a 16-digit character count followed by its characters.
pub open spec fn enc_str(t: Seq<char>) -> Seq<u8> {
    enc_hex(t.len(), 16) + enc_chars(t)
}

pub open spec fn parse_char(s: Seq<u8>) -> Option<(char, Seq<u8>)> {
    match parse_hex(s, 6) {
        Some((v, rest)) => if is_scalar_value(v) {
            Some(((v as char), rest))
        } else {
            None
        },
        None => None,
    }
}

pub open spec fn parse_chars(s: Seq<u8>, n: nat) -> Option<(Seq<char>, Seq<u8>)>
    decreases n,
{
    if n == 0 {
        Some((Seq::empty(), s))
    } else {
        match parse_char(s) {
            Some((c, r)) => match parse_chars(r, (n - 1) as nat) {
                Some((t, r2)) => Some((seq![c] + t, r2)),
                None => None,
            },
            None => None,
        }
    }
}

pub open spec fn parse_str(s: Seq<u8>) -> Option<(Seq<char>, Seq<u8>)> {
    match parse_hex(s, 16) {
        Some((n, r)) => parse_chars(r, n),
        None => None,
    }
}

pub proof fn lemma_enc_chars_append(a: Seq<char>, b: Seq<char>)
    ensures
        enc_chars(a + b) == enc_chars(a) + enc_chars(b),
    decreases a.len(),
{
    if a.len() == 0 {
        assert(a + b =~= b);
        assert(enc_chars(a) + enc_chars(b) =~= enc_chars(b));
    } else {
        assert((a + b)[0] == a[0]);
        assert((a + b).skip(1) =~= a.skip(1) + b);
        lemma_enc_chars_append(a.skip(1), b);
        assert(enc_char(a[0]) + (enc_chars(a.skip(1)) + enc_chars(b)) =~= (enc_char(a[0])
            + enc_chars(a.skip(1))) + enc_chars(b));
    }
}

pub proof fn lemma_parse_enc_char(c: char, rest: Seq<u8>)
    ensures
        parse_char(enc_char(c) + rest) == Some((c, rest)),
{
    assert(pow16(6) == 0x1000000) by {
        reveal_with_fuel(pow16, 7);
    }
    lemma_parse_enc_hex((c as u32) as nat, 6, rest);
    assert((((c as u32) as nat) as char) == c);
}

pub proof fn lemma_parse_enc_chars(t: Seq<char>, rest: Seq<u8>)
    ensures
        parse_chars(enc_chars(t) + rest, t.len()) == Some((t, rest)),
    decreases t.len(),
{
    if t.len() == 0 {
        assert(enc_chars(t) + rest =~= rest);
    } else {
        lemma_parse_enc_chars(t.skip(1), rest);
        assert(enc_chars(t) + rest =~= enc_char(t[0]) + (enc_chars(t.skip(1)) + rest));
        lemma_parse_enc_char(t[0], enc_chars(t.skip(1)) + rest);
        assert(seq![t[0]] + t.skip(1) =~= t);
    }
}

pub proof fn lemma_parse_enc_str(t: Seq<char>, rest: Seq<u8>)
    requires
        t.len() < pow16(16),
    ensures
        parse_str(enc_str(t) + rest) == Some((t, rest)),
{
    lemma_parse_enc_hex(t.len(), 16, enc_chars(t) + rest);
    assert(enc_str(t) + rest =~= enc_hex(t.len(), 16) + (enc_chars(t) + rest));
    lemma_parse_enc_chars(t, rest);
}

/// Two lowercase hex digit characters for one byte.
pub open spec fn hex_pair(b: u8) -> Seq<char> {
    seq![hex_char((b as nat) / 16) as char, hex_char((b as nat) % 16) as char]
}

/// A byte sequence rendered as lowercase hex characters.
pub open spec fn hex_of_bytes(bs: Seq<u8>) -> Seq<char>
    decreases bs.len(),
{
    if bs.len() == 0 {
        Seq::empty()
    } else {
        hex_pair(bs[0]) + hex_of_bytes(bs.skip(1))
    }
}

pub proof fn lemma_hex_of_bytes_append(a: Seq<u8>, b: Seq<u8>)
    ensures
        hex_of_bytes(a + b) == hex_of_bytes(a) + hex_of_bytes(b),
    decreases a.len(),
{
    if a.len() == 0 {
        assert(a + b =~= b);
        assert(hex_of_bytes(a) + hex_of_bytes(b) =~= hex_of_bytes(b));
    } else {
        assert((a + b)[0] == a[0]);
        assert((a + b).skip(1) =~= a.skip(1) + b);
        lemma_hex_of_bytes_append(a.skip(1), b);
        assert(hex_pair(a[0]) + (hex_of_bytes(a.skip(1)) + hex_of_bytes(b)) =~= (hex_pair(a[0])
            + hex_of_bytes(a.skip(1))) + hex_of_bytes(b));
    }
}

/// Relies on char::from_u32: returns `Some` exactly on Unicode scalar
/// values (not a surrogate, at most 0x10FFFF), and the returned character
/// has the given code point.
pub assume_specification[ char::from_u32 ](v: u32) -> (r: Option<char>)
    ensures
        r is Some <==> is_scalar_value(v as nat),
        r matches Some(c) ==> c as u32 == v && c == ((v as nat) as char),
;

/// Relies on String::push: appends exactly the given character.
pub assume_specification[ String::push ](s: &mut String, c: char)
    ensures
        final(s)@ == old(s)@.push(c),
;

fn hex_char_x(d: u8) -> (r: u8)
    requires
        d < 16,
    ensures
        r == hex_char(d as nat),
{
    if d < 10 {
        48 + d
    } else {
        87 + d
    }
}

/// Appends `width` hex digits of `n`, most significant first.
pub fn push_hex(out: &mut Vec<u8>, n: u64, width: usize)
    ensures
        final(out)@ == old(out)@ + enc_hex(n as nat, width as nat),
    decreases width,
{
    if width == 0 {
        assert(out@ =~= old(out)@ + enc_hex(n as nat, 0));
    } else {
        push_hex(out, n / 16, width - 1);
        out.push(hex_char_x((n % 16) as u8));
        assert(out@ =~= old(out)@ + enc_hex(n as nat, width as nat));
    }
}

/// Reads `width` hex digits at `pos`, with the position after them.
pub fn read_hex(s: &Vec<u8>, pos: usize, width: usize) -> (r: Option<(u64, usize)>)
    requires
        pos <= s@.len(),
        width <= 16,
    ensures
        match r {
            Some(vp) => {
                &&& parse_hex(s@.skip(pos as int), width as nat) == Some(
                    ((vp.0 as nat), s@.skip(vp.1 as int)),
                )
                &&& vp.1 == pos + width
                &&& vp.1 <= s@.len()
                &&& (vp.0 as nat) < pow16(width as nat)
            },
            None => parse_hex(s@.skip(pos as int), width as nat) is None,
        },
{
    if s.len() - pos < width {
        return None;
    }
    let ghost tail = s@.skip(pos as int);
    let mut acc: u64 = 0;
    let mut i: usize = 0;
    while i < width
        invariant
            0 <= i <= width <= 16,
            pos + width <= s.len(),
            tail == s@.skip(pos as int),
            all_hex(tail.take(i as int)),
            acc as nat == dec_hex(tail.take(i as int)),
            (acc as nat) < pow16(i as nat),
        decreases width - i,
    {
        let b = s[pos + i];
        assert(b == tail[i as int]);
        if !((48 <= b && b <= 57) || (97 <= b && b <= 102)) {
            assert(!is_hex_byte(tail.take(width as int)[i as int]));
            return None;
        }
        let v: u8 = if b <= 57 {
            b - 48
        } else {
            b - 87
        };
        proof {
            lemma_pow16_mono((i + 1) as nat, 16);
            assert(pow16(16) == 0x10000000000000000) by {
                reveal_with_fuel(pow16, 17);
            }
            assert(tail.take(i + 1).drop_last() =~= tail.take(i as int));
            assert(tail.take(i + 1).last() == tail[i as int]);
        }
        acc = acc * 16 + (v as u64);
        i = i + 1;
    }
    assert(tail.len() >= width);
    Some((acc, pos + width))
}

/// Reads one length-prefixed character encoded at `pos`.
fn read_char(s: &Vec<u8>, pos: usize) -> (r: Option<(char, usize)>)
    requires
        pos <= s@.len(),
    ensures
        match r {
            Some(cp) => {
                &&& parse_char(s@.skip(pos as int)) == Some((cp.0, s@.skip(cp.1 as int)))
                &&& pos < cp.1 <= s@.len()
            },
            None => parse_char(s@.skip(pos as int)) is None,
        },
{
    match read_hex(s, pos, 6) {
        None => None,
        Some((v, p2)) => {
            assert(pow16(6) == 0x1000000) by {
                reveal_with_fuel(pow16, 7);
            }
            match char::from_u32(v as u32) {
                None => None,
                Some(c) => {
                    assert(((v as u32) as nat) == v as nat);
                    Some((c, p2))
                },
            }
        },
    }
}

/// Appends the encoding of a string: character count, then each character.
pub fn push_str_enc(out: &mut Vec<u8>, s: &str)
    ensures
        final(out)@ == old(out)@ + enc_str(s@),
        s@.len() < pow16(16),
{
    proof {
        assert(pow16(16) == 0x10000000000000000) by {
            reveal_with_fuel(pow16, 17);
        }
    }
    let n = s.unicode_len();
    push_hex(out, n as u64, 16);
    let ghost t = s@;
    let mut i: usize = 0;
    while i < n
        invariant
            0 <= i <= n,
            n == t.len(),
            t == s@,
            out@ == old(out)@ + enc_hex(n as nat, 16) + enc_chars(t.take(i as int)),
        decreases n - i,
    {
        let c = s.get_char(i);
        push_hex(out, c as u64, 6);
        proof {
            assert(t.take(i + 1) =~= t.take(i as int) + seq![t[i as int]]);
            lemma_enc_chars_append(t.take(i as int), seq![t[i as int]]);
            assert(seq![t[i as int]].skip(1) =~= Seq::<char>::empty());
            assert(enc_chars(Seq::<char>::empty()) =~= Seq::<u8>::empty());
            assert(enc_char(t[i as int]) + Seq::<u8>::empty() =~= enc_char(t[i as int]));
            assert(enc_chars(seq![t[i as int]]) =~= enc_char(t[i as int]));
            assert((c as u32) as nat == (t[i as int] as u32) as nat);
        }
        i = i + 1;
    }
    assert(t.take(n as int) =~= t);
    assert(out@ =~= old(out)@ + enc_str(t));
}

/// Reads one length-prefixed string at `pos`.
pub fn read_str(s: &Vec<u8>, pos: usize) -> (r: Option<(String, usize)>)
    requires
        pos <= s@.len(),
    ensures
        match r {
            Some(vp) => {
                &&& parse_str(s@.skip(pos as int)) == Some((vp.0@, s@.skip(vp.1 as int)))
                &&& pos <= vp.1 <= s@.len()
            },
            None => parse_str(s@.skip(pos as int)) is None,
        },
{
    let (n, start) = match read_hex(s, pos, 16) {
        None => {
            return None;
        },
        Some(vp) => vp,
    };
    let mut acc = String::new();
    let mut cur: usize = start;
    let mut i: u64 = 0;
    while i < n
        invariant
            0 <= i <= n,
            pos <= cur <= s@.len(),
            parse_hex(s@.skip(pos as int), 16) == Some(((n as nat), s@.skip(start as int))),
            match parse_chars(s@.skip(cur as int), (n - i) as nat) {
                Some(tr) => parse_chars(s@.skip(start as int), n as nat) == Some(
                    (acc@ + tr.0, tr.1),
                ),
                None => parse_chars(s@.skip(start as int), n as nat) is None,
            },
        decreases n - i,
    {
        match read_char(s, cur) {
            None => {
                return None;
            },
            Some((c, c2)) => {
                proof {
                    let rem = s@.skip(cur as int);
                    assert(parse_chars(rem, (n - i) as nat) == match parse_chars(
                        s@.skip(c2 as int),
                        (n - i - 1) as nat,
                    ) {
                        Some(tr) => Some((seq![c] + tr.0, tr.1)),
                        None => None,
                    });
                    if parse_chars(s@.skip(c2 as int), (n - i - 1) as nat) is Some {
                        let tr = parse_chars(s@.skip(c2 as int), (n - i - 1) as nat)->Some_0;
                        assert(acc@ + (seq![c] + tr.0) =~= acc@.push(c) + tr.0);
                    }
                }
                acc.push(c);
                cur = c2;
                i = i + 1;
            },
        }
    }
    proof {
        assert(parse_chars(s@.skip(cur as int), 0) == Some(
            (Seq::<char>::empty(), s@.skip(cur as int)),
        ));
        assert(acc@ + Seq::<char>::empty() =~= acc@);
    }
    Some((acc, cur))
}

/// Renders bytes as a lowercase hex string.
pub fn hex_string_of_bytes(bs: &Vec<u8>) -> (r: String)
    ensures
        r@ == hex_of_bytes(bs@),
{
    let mut r = String::new();
    let mut i: usize = 0;
    while i < bs.len()
        invariant
            0 <= i <= bs@.len(),
            r@ == hex_of_bytes(bs@.take(i as int)),
        decreases bs@.len() - i,
    {
        let b = bs[i];
        r.push(hex_char_x(b / 16) as char);
        r.push(hex_char_x(b % 16) as char);
        proof {
            let t = bs@;
            assert(t.take(i + 1) =~= t.take(i as int) + seq![t[i as int]]);
            lemma_hex_of_bytes_append(t.take(i as int), seq![t[i as int]]);
            assert(seq![t[i as int]].skip(1) =~= Seq::<u8>::empty());
            assert(hex_of_bytes(Seq::<u8>::empty()) =~= Seq::<char>::empty());
            assert(hex_pair(t[i as int]) + Seq::<char>::empty() =~= hex_pair(t[i as int]));
            assert(hex_of_bytes(seq![t[i as int]]) =~= hex_pair(t[i as int]));
            assert(r@ =~= hex_of_bytes(t.take(i as int)) + hex_pair(t[i as int]));
        }
        i = i + 1;
    }
    assert(bs@.take(bs@.len() as int) =~= bs@);
    r
}

} // verus!


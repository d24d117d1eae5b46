//! Identifiers: 128-bit values with a canonical hexadecimal text encoding
//! (32 hex digits, optionally hyphenated in 8-4-4-4-12 groups), and the
//! leading-digit truncation mask used for approximate matching.

use vstd::prelude::*;

verus! {

/// The value of one hex digit byte, if it is one (`0-9`, `a-f`, `A-F`).
pub open spec fn spec_hex_val(b: u8) -> Option<u8> {
    if 48 <= b <= 57 {
        Some((b - 48) as u8)
    } else if 97 <= b <= 102 {
        Some((b - 97 + 10) as u8)
    } else if 65 <= b <= 70 {
        Some((b - 65 + 10) as u8)
    } else {
        None
    }
}

/// The lower-case hex digit byte for a value below 16.
pub open spec fn spec_hex_digit(v: u8) -> u8
    recommends
        v < 16,
{
    if v < 10 {
        (48 + v) as u8
    } else {
        (87 + v) as u8
    }
}

/// The integer denoted by a sequence of hex digit bytes, most significant
/// first; `None` if any byte is not a hex digit.
pub open spec fn spec_parse_hex(s: Seq<u8>) -> Option<int>
    decreases s.len(),
{
    if s.len() == 0 {
        Some(0int)
    } else {
        match (spec_parse_hex(s.drop_last()), spec_hex_val(s.last())) {
            (Some(acc), Some(v)) => Some(acc * 16 + v),
            _ => None,
        }
    }
}

/// 16 to the power `n`.
pub open spec fn pow16(n: nat) -> int
    decreases n,
{
    if n == 0 {
        1
    } else {
        16 * pow16((n - 1) as nat)
    }
}

proof fn lemma_pow16_32()
    ensures
        pow16(32) == 0x100000000000000000000000000000000,
{
    reveal_with_fuel(pow16, 33);
}

proof fn lemma_parse_hex_bound(s: Seq<u8>)
    ensures
        spec_parse_hex(s) matches Some(v) ==> 0 <= v < pow16(s.len()),
    decreases s.len(),
{
    if s.len() > 0 {
        lemma_parse_hex_bound(s.drop_last());
    }
}

proof fn lemma_parse_hex_bad(s: Seq<u8>, i: int)
    requires
        0 <= i < s.len(),
        spec_hex_val(s[i]) is None,
    ensures
        spec_parse_hex(s) is None,
    decreases s.len(),
{
    if i < s.len() - 1 {
        lemma_parse_hex_bad(s.drop_last(), i);
    }
}

/// Exec mirror of [`spec_hex_val`].
fn hex_val(b: u8) -> (r: Option<u8>)
    ensures
        r == spec_hex_val(b),
{
    if 48 <= b && b <= 57 {
        Some(b - 48)
    } else if 97 <= b && b <= 102 {
        Some(b - 97 + 10)
    } else if 65 <= b && b <= 70 {
        Some(b - 65 + 10)
    } else {
        None
    }
}

/// Parse exactly 32 hex digit bytes into an identifier value.
fn parse_digits(s: &Vec<u8>) -> (r: Option<u128>)
    requires
        s@.len() == 32,
    ensures
        r matches Some(v) ==> spec_parse_hex(s@) == Some(v as int),
        r is None ==> spec_parse_hex(s@) is None,
{
    let mut acc: u128 = 0;
    let mut i: usize = 0;
    proof {
        assert(s@.take(0) =~= Seq::<u8>::empty());
    }
    while i < 32
        invariant
            0 <= i <= 32,
            s@.len() == 32,
            spec_parse_hex(s@.take(i as int)) == Some(acc as int),
            acc < pow16(i as nat),
        decreases 32 - i,
    {
        let b = s[i];
        match hex_val(b) {
            Some(v) => {
                proof {
                    assert(s@.take(i + 1).drop_last() =~= s@.take(i as int));
                    assert(s@.take(i + 1).last() == s@[i as int]);
                    assert(pow16((i + 1) as nat) == 16 * pow16(i as nat));
                    assert(acc * 16 + v < pow16((i + 1) as nat)) by {
                        assert(acc * 16 <= (pow16(i as nat) - 1) * 16) by (nonlinear_arith)
                            requires
                                acc < pow16(i as nat),
                                0 <= acc,
                        ;
                    }
                    lemma_pow16_32();
                    lemma_pow16_mono(i as nat, 31);
                }
                acc = acc * 16 + (v as u128);
                i = i + 1;
            },
            None => {
                proof {
                    lemma_parse_hex_bad(s@, i as int);
                }
                return None;
            },
        }
    }
    proof {
        assert(s@.take(32) =~= s@);
    }
    Some(acc)
}

proof fn lemma_pow16_pos(n: nat)
    ensures
        pow16(n) >= 1,
    decreases n,
{
    if n > 0 {
        lemma_pow16_pos((n - 1) as nat);
    }
}

proof fn lemma_pow16_mono(a: nat, b: nat)
    requires
        a <= b,
    ensures
        pow16(a) <= pow16(b),
    decreases b,
{
    if a < b {
        lemma_pow16_mono(a, (b - 1) as nat);
        lemma_pow16_pos((b - 1) as nat);
        assert(pow16(b) == 16 * pow16((b - 1) as nat));
    }
}

/// The 32 hex digits of a hyphenated 36-byte encoding, hyphens removed.
pub open spec fn spec_strip(line: Seq<u8>) -> Seq<u8>
    recommends
        line.len() == 36,
{
    line.subrange(0, 8) + line.subrange(9, 13) + line.subrange(14, 18) + line.subrange(19, 23)
        + line.subrange(24, 36)
}

/// The identifier denoted by one line of canonical identifier text:
/// either 32 bare hex digits or the hyphenated 8-4-4-4-12 form.
pub open spec fn spec_parse_id(line: Seq<u8>) -> Option<u128> {
    if line.len() == 32 {
        match spec_parse_hex(line) {
            Some(v) => Some(v as u128),
            None => None,
        }
    } else if line.len() == 36 && line[8] == 45 && line[13] == 45 && line[18] == 45 && line[23]
        == 45 {
        match spec_parse_hex(spec_strip(line)) {
            Some(v) => Some(v as u128),
            None => None,
        }
    } else {
        None
    }
}

/// Append `src[a..b]` to `out`.
fn push_range(out: &mut Vec<u8>, src: &Vec<u8>, a: usize, b: usize)
    requires
        a <= b <= src@.len(),
    ensures
        final(out)@ == old(out)@ + src@.subrange(a as int, b as int),
{
    let mut j: usize = a;
    proof {
        assert(old(out)@ + src@.subrange(a as int, a as int) =~= old(out)@);
    }
    while j < b
        invariant
            a <= j <= b <= src@.len(),
            out@ == old(out)@ + src@.subrange(a as int, j as int),
        decreases b - j,
    {
        out.push(src[j]);
        proof {
            assert(old(out)@ + src@.subrange(a as int, j + 1) =~= (old(out)@ + src@.subrange(
                a as int,
                j as int,
            )).push(src@[j as int]));
        }
        j = j + 1;
    }
}

/// Parse one line of canonical identifier text.
pub fn parse_id(line: &Vec<u8>) -> (r: Option<u128>)
    ensures
        r matches Some(v) ==> spec_parse_id(line@) == Some(v),
        r is None ==> spec_parse_id(line@) is None,
{
    proof {
        lemma_parse_hex_bound(line@);
        lemma_parse_hex_bound(spec_strip(line@));
        lemma_pow16_32();
    }
    if line.len() == 32 {
        parse_digits(line)
    } else if line.len() == 36 {
        if line[8] == 45 && line[13] == 45 && line[18] == 45 && line[23] == 45 {
            let mut digits: Vec<u8> = Vec::new();
            push_range(&mut digits, line, 0, 8);
            push_range(&mut digits, line, 9, 13);
            push_range(&mut digits, line, 14, 18);
            push_range(&mut digits, line, 19, 23);
            push_range(&mut digits, line, 24, 36);
            proof {
                assert(digits@ =~= spec_strip(line@));
            }
            parse_digits(&digits)
        } else {
            None
        }
    } else {
        None
    }
}

/// Hex digit `i` (most significant first) of an identifier.
pub open spec fn spec_nibble(id: u128, i: int) -> u8
    recommends
        0 <= i < 32,
{
    ((id >> ((124 - 4 * i) as u128)) & 0xf) as u8
}

/// The 32 lower-case hex digits of an identifier, most significant first.
pub open spec fn spec_hex_seq(id: u128) -> Seq<u8> {
    Seq::new(32, |i: int| spec_hex_digit(spec_nibble(id, i)))
}

/// The canonical hyphenated 36-byte encoding of an identifier.
pub open spec fn spec_format_id(id: u128) -> Seq<u8> {
    spec_hex_seq(id).subrange(0, 8) + seq![45u8] + spec_hex_seq(id).subrange(8, 12) + seq![45u8]
        + spec_hex_seq(id).subrange(12, 16) + seq![45u8] + spec_hex_seq(id).subrange(16, 20)
        + seq![45u8] + spec_hex_seq(id).subrange(20, 32)
}

/// Append hex digits `a..b` of `id` to `out`.
fn push_digits(out: &mut Vec<u8>, id: u128, a: usize, b: usize)
    requires
        a <= b <= 32,
    ensures
        final(out)@ == old(out)@ + spec_hex_seq(id).subrange(a as int, b as int),
{
    let mut j: usize = a;
    proof {
        assert(old(out)@ + spec_hex_seq(id).subrange(a as int, a as int) =~= old(out)@);
    }
    while j < b
        invariant
            a <= j <= b <= 32,
            out@ == old(out)@ + spec_hex_seq(id).subrange(a as int, j as int),
        decreases b - j,
    {
        let sh: u128 = 124 - 4 * (j as u128);
        let nib_wide: u128 = (id >> sh) & 0xf;
        proof {
            assert((id >> sh) & 0xf <= 0xf) by (bit_vector);
        }
        let nib: u8 = nib_wide as u8;
        let d: u8 = if nib < 10 {
            48 + nib
        } else {
            87 + nib
        };
        proof {
            assert(d == spec_hex_digit(spec_nibble(id, j as int)));
        }
        out.push(d);
        proof {
            assert(old(out)@ + spec_hex_seq(id).subrange(a as int, j + 1) =~= (old(out)@
                + spec_hex_seq(id).subrange(a as int, j as int)).push(
                spec_hex_digit(spec_nibble(id, j as int)),
            ));
        }
        j = j + 1;
    }
}

/// Render an identifier in its canonical hyphenated encoding.
pub fn format_id(id: u128) -> (r: Vec<u8>)
    ensures
        r@ == spec_format_id(id),
        r@.len() == 36,
{
    let mut r: Vec<u8> = Vec::new();
    push_digits(&mut r, id, 0, 8);
    r.push(45);
    push_digits(&mut r, id, 8, 12);
    r.push(45);
    push_digits(&mut r, id, 12, 16);
    r.push(45);
    push_digits(&mut r, id, 16, 20);
    r.push(45);
    push_digits(&mut r, id, 20, 32);
    proof {
        assert(r@ =~= spec_format_id(id));
    }
    r
}

proof fn lemma_hex_seq_parses(id: u128, k: int)
    requires
        0 <= k <= 32,
    ensures
        spec_parse_hex(spec_hex_seq(id).take(k)) == Some(
            if k == 0 {
                0int
            } else {
                (id >> ((128 - 4 * k) as u128)) as int
            },
        ),
    decreases k,
{
    if k == 0 {
        assert(spec_hex_seq(id).take(0) =~= Seq::<u8>::empty());
    } else {
        lemma_hex_seq_parses(id, k - 1);
        let sv: u128 = (128 - 4 * k) as u128;
        assert(spec_hex_seq(id).take(k).drop_last() =~= spec_hex_seq(id).take(k - 1));
        assert(spec_hex_seq(id).take(k).last() == spec_hex_digit(spec_nibble(id, k - 1)));
        assert((124 - 4 * (k - 1)) as u128 == sv);
        let nib = spec_nibble(id, k - 1);
        assert((id >> sv) & 0xf <= 0xf) by (bit_vector);
        assert(nib < 16);
        assert(spec_hex_val(spec_hex_digit(nib)) == Some(nib));
        if k == 1 {
            assert((id >> 124u128) & 0xf == id >> 124u128) by (bit_vector);
            assert(nib as int == (id >> sv) as int);
        } else {
            let sp: u128 = (128 - 4 * (k - 1)) as u128;
            assert(sp == sv + 4);
            assert((sv <= 120 && sp == sv + 4) ==> ((id >> sv) == (id >> sp) * 16 + ((id >> sv)
                & 0xf))) by (bit_vector);
        }
    }
}

/// Parsing inverts formatting: the canonical hyphenated encoding of an
/// identifier denotes that identifier and nothing else.
pub proof fn lemma_format_parse_round_trip(id: u128)
    ensures
        spec_parse_id(spec_format_id(id)) == Some(id),
{
    let f = spec_format_id(id);
    assert(f.len() == 36);
    assert(f[8] == 45 && f[13] == 45 && f[18] == 45 && f[23] == 45);
    assert(spec_strip(f) =~= spec_hex_seq(id));
    lemma_hex_seq_parses(id, 32);
    assert(spec_hex_seq(id).take(32) =~= spec_hex_seq(id));
    assert(id >> 0u128 == id) by (bit_vector);
}

/// Distinct identifiers have distinct encodings.
pub proof fn lemma_format_injective(a: u128, b: u128)
    requires
        spec_format_id(a) == spec_format_id(b),
    ensures
        a == b,
{
    lemma_format_parse_round_trip(a);
    lemma_format_parse_round_trip(b);
}

/// The truncation mask that keeps the leading `w` hex digits of an
/// identifier: the top `4 * w` bits set, every lower bit clear.
pub open spec fn spec_mask(w: int) -> u128
    recommends
        1 <= w <= 32,
{
    0xffffffffffffffffffffffffffffffffu128 << ((128 - 4 * w) as u128)
}

/// The leading `w` hex digits of an identifier, as a value.
pub open spec fn spec_leading(id: u128, w: int) -> u128
    recommends
        1 <= w <= 32,
{
    id >> ((128 - 4 * w) as u128)
}

/// Reduce an identifier to its leading `w` hex digits, keeping magnitude:
/// the kept digits stay in place and the rest are cleared.
pub fn mask_id(id: u128, w: usize) -> (r: u128)
    requires
        1 <= w <= 32,
    ensures
        r == (id & spec_mask(w as int)),
{
    let sh: u128 = 128 - 4 * (w as u128);
    id & (0xffffffffffffffffffffffffffffffffu128 << sh)
}

/// Masking to the leading digits is idempotent.
pub proof fn lemma_mask_idempotent(id: u128, w: int)
    requires
        1 <= w <= 32,
    ensures
        (id & spec_mask(w)) & spec_mask(w) == id & spec_mask(w),
{
    let s = (128 - 4 * w) as u128;
    assert((id & (0xffffffffffffffffffffffffffffffffu128 << s)) & (
    0xffffffffffffffffffffffffffffffffu128 << s) == id & (0xffffffffffffffffffffffffffffffffu128
        << s)) by (bit_vector);
}

/// Two identifiers agree on their masked value exactly when they share
/// their leading `w` hex digits.
#[verifier::rlimit(100)]
pub proof fn lemma_mask_eq_iff_leading_eq(a: u128, b: u128, w: int)
    requires
        1 <= w <= 32,
    ensures
        (a & spec_mask(w)) == (b & spec_mask(w)) <==> spec_leading(a, w) == spec_leading(b, w),
{
    let s = (128 - 4 * w) as u128;
    assert(s <= 124);
    assert((s <= 124) ==> (((a & (0xffffffffffffffffffffffffffffffffu128 << s)) == (b & (
    0xffffffffffffffffffffffffffffffffu128 << s))) <==> ((a >> s) == (b >> s)))) by (bit_vector);
}

} // verus!

//! Rendering: the continuously-overwritten status line showing the three
//! counters, and the per-pair report line, in normal or muted style.

use vstd::prelude::*;
use crate::aggregate::Counters;
use crate::ident::spec_format_id;
use crate::ident::format_id;

verus! {

/// The decimal digits of a non-negative number, most significant first.
pub open spec fn spec_dec(n: int) -> Seq<u8>
    decreases n,
    when n >= 0
{
    if n < 10 {
        seq![(48 + n) as u8]
    } else {
        spec_dec(n / 10).push((48 + n % 10) as u8)
    }
}

/// Append the decimal digits of `n` to `out`.
pub fn push_dec(out: &mut Vec<u8>, n: u128)
    ensures
        final(out)@ == old(out)@ + spec_dec(n as int),
    decreases n,
{
    if n >= 10 {
        proof {
            assert(n / 10 < n) by (nonlinear_arith)
                requires
                    n >= 10,
            ;
        }
        push_dec(out, n / 10);
    }
    let d: u8 = (n % 10) as u8 + 48;
    out.push(d);
    proof {
        if n < 10 {
            assert(old(out)@ + spec_dec(n as int) =~= old(out)@.push(d));
        } else {
            assert(old(out)@ + spec_dec(n as int) =~= (old(out)@ + spec_dec((n / 10) as int)).push(
                d,
            ));
        }
    }
}

/// Append a copy of `src` to `out`.
fn append_bytes(out: &mut Vec<u8>, src: &Vec<u8>)
    ensures
        final(out)@ == old(out)@ + src@,
{
    let mut i: usize = 0;
    proof {
        assert(old(out)@ + src@.take(0) =~= old(out)@);
    }
    while i < src.len()
        invariant
            0 <= i <= src@.len(),
            out@ == old(out)@ + src@.take(i as int),
        decreases src@.len() - i,
    {
        out.push(src[i]);
        proof {
            assert(old(out)@ + src@.take(i + 1) =~= (old(out)@ + src@.take(i as int)).push(
                src@[i as int],
            ));
        }
        i = i + 1;
    }
    proof {
        assert(src@.take(src@.len() as int) =~= src@);
    }
}

/// The control bytes that clear the terminal line and return the cursor.
pub open spec fn spec_clear_line() -> Seq<u8> {
    seq![27u8, 91, 50, 75, 13]
}

/// The status line: clear the line, then
/// `reqs: <calls> | found: <accepted> (<raw> total)`.
pub open spec fn spec_status_line(calls: int, found: int, total: int) -> Seq<u8> {
    spec_clear_line() + seq![114u8, 101, 113, 115, 58, 32] + spec_dec(calls) + seq![
        32u8,
        124,
        32,
        102,
        111,
        117,
        110,
        100,
        58,
        32,
    ] + spec_dec(found) + seq![32u8, 40] + spec_dec(total) + seq![32u8, 116, 111, 116, 97, 108, 41]
}

/// Render the current counter snapshot as the status line.
pub fn render_status(c: &Counters) -> (r: Vec<u8>)
    ensures
        r@ == spec_status_line(c.calls as int, c.accepted as int, c.raw as int),
{
    let mut r: Vec<u8> = Vec::new();
    r.push(27);
    r.push(91);
    r.push(50);
    r.push(75);
    r.push(13);
    r.push(114);
    r.push(101);
    r.push(113);
    r.push(115);
    r.push(58);
    r.push(32);
    let ghost head = r@;
    proof {
        assert(head =~= spec_clear_line() + seq![114u8, 101, 113, 115, 58, 32]);
    }
    push_dec(&mut r, c.calls);
    r.push(32);
    r.push(124);
    r.push(32);
    r.push(102);
    r.push(111);
    r.push(117);
    r.push(110);
    r.push(100);
    r.push(58);
    r.push(32);
    let ghost mid = r@;
    proof {
        assert(mid =~= head + spec_dec(c.calls as int) + seq![
            32u8,
            124,
            32,
            102,
            111,
            117,
            110,
            100,
            58,
            32,
        ]);
    }
    push_dec(&mut r, c.accepted);
    r.push(32);
    r.push(40);
    let ghost mid2 = r@;
    proof {
        assert(mid2 =~= mid + spec_dec(c.accepted as int) + seq![32u8, 40]);
    }
    push_dec(&mut r, c.raw);
    r.push(32);
    r.push(116);
    r.push(111);
    r.push(116);
    r.push(97);
    r.push(108);
    r.push(41);
    proof {
        assert(r@ =~= spec_status_line(c.calls as int, c.accepted as int, c.raw as int));
    }
    r
}

/// The muted-style escape prefix and reset suffix.
pub open spec fn spec_mute_on() -> Seq<u8> {
    seq![27u8, 91, 51, 56, 59, 53, 59, 50, 52, 49, 109]
}

pub open spec fn spec_mute_off() -> Seq<u8> {
    seq![27u8, 91, 48, 109]
}

/// One reported pair: clear the line, then `<identifier>:<name>`, wrapped
/// in the muted style when requested.
pub open spec fn spec_pair_line(id: u128, name: Seq<u8>, muted: bool) -> Seq<u8> {
    if muted {
        spec_clear_line() + spec_mute_on() + spec_format_id(id) + seq![58u8] + name
            + spec_mute_off()
    } else {
        spec_clear_line() + spec_format_id(id) + seq![58u8] + name
    }
}

/// Render one resolved pair for the terminal.
pub fn render_pair(id: u128, name: &Vec<u8>, muted: bool) -> (r: Vec<u8>)
    ensures
        r@ == spec_pair_line(id, name@, muted),
{
    let mut r: Vec<u8> = Vec::new();
    r.push(27);
    r.push(91);
    r.push(50);
    r.push(75);
    r.push(13);
    if muted {
        r.push(27);
        r.push(91);
        r.push(51);
        r.push(56);
        r.push(59);
        r.push(53);
        r.push(59);
        r.push(50);
        r.push(52);
        r.push(49);
        r.push(109);
    }
    let ghost head = r@;
    proof {
        if muted {
            assert(head =~= spec_clear_line() + spec_mute_on());
        } else {
            assert(head =~= spec_clear_line());
        }
    }
    let f = format_id(id);
    append_bytes(&mut r, &f);
    r.push(58);
    append_bytes(&mut r, name);
    let ghost body = r@;
    proof {
        assert(body =~= head + spec_format_id(id) + seq![58u8] + name@);
    }
    if muted {
        r.push(27);
        r.push(91);
        r.push(48);
        r.push(109);
    }
    proof {
        assert(r@ =~= spec_pair_line(id, name@, muted));
    }
    r
}

} // verus!

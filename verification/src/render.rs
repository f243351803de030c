use vstd::prelude::*;

verus! {

/// The ASCII digit for a value below 16, upper case for the hex letters.
pub open spec fn digit_ascii(d: nat) -> u8 {
    if d < 10 {
        (48 + d) as u8
    } else {
        (55 + d) as u8
    }
}

/// The digit string of `v` in the given base, most significant digit first,
/// with no leading zeros (a single zero digit for `v == 0`).
pub open spec fn digits(v: nat, base: nat) -> Seq<u8>
    recommends
        2 <= base <= 16,
    decreases v,
    via digits_decreases
{
    if base < 2 {
        Seq::empty()
    } else if v < base {
        seq![digit_ascii(v)]
    } else {
        digits(v / base, base).push(digit_ascii(v % base))
    }
}

#[via_fn]
proof fn digits_decreases(v: nat, base: nat) {
    if 2 <= base && base <= v {
        assert(v / base < v) by (nonlinear_arith)
            requires
                2 <= base <= v,
        ;
    }
}

/// A run of ASCII spaces.
pub open spec fn spaces(n: nat) -> Seq<u8>
    decreases n,
{
    if n == 0 {
        Seq::empty()
    } else {
        spaces((n - 1) as nat).push(32u8)
    }
}

/// Right-aligns `s` in a field of `width` bytes; a longer string is kept whole.
pub open spec fn pad_left(s: Seq<u8>, width: nat) -> Seq<u8> {
    if s.len() >= width {
        s
    } else {
        spaces((width - s.len()) as nat) + s
    }
}

/// Appends `v`, written in `base`, right-aligned to `width` bytes, to `out`.
pub fn push_padded_number(out: &mut Vec<u8>, v: u64, base: u64, width: usize)
    requires
        base == 10 || base == 16,
    ensures
        final(out)@ == old(out)@ + pad_left(digits(v as nat, base as nat), width as nat),
{
    let mut temp: Vec<u8> = Vec::new();
    let mut x = v;
    loop
        invariant_except_break
            digits(v as nat, base as nat) == digits(x as nat, base as nat) + temp@.reverse(),
        invariant
            base == 10 || base == 16,
        ensures
            digits(v as nat, base as nat) == temp@.reverse(),
            temp@.len() > 0,
        decreases x,
    {
        let d = (x % base) as u8;
        let ch = if d < 10 {
            48 + d
        } else {
            55 + d
        };
        proof {
            assert((temp@.push(ch)).reverse() =~= seq![ch] + temp@.reverse());
            if x >= base {
                assert(digits(x as nat, base as nat) + temp@.reverse() =~= digits(
                    (x as nat) / (base as nat),
                    base as nat,
                ) + (seq![ch] + temp@.reverse()));
            } else {
                assert(digits(x as nat, base as nat) + temp@.reverse() =~= seq![ch]
                    + temp@.reverse());
            }
        }
        temp.push(ch);
        if x < base {
            break ;
        }
        x = x / base;
    }
    let ghost base_out = out@;
    if temp.len() < width {
        let pad = width - temp.len();
        let mut p: usize = 0;
        while p < pad
            invariant
                p <= pad,
                out@ == base_out + spaces(p as nat),
            decreases pad - p,
        {
            out.push(32);
            p = p + 1;
        }
    }
    let ghost padded = out@;
    let mut k: usize = 0;
    while k < temp.len()
        invariant
            k <= temp@.len(),
            out@ == padded + temp@.reverse().take(k as int),
        decreases temp@.len() - k,
    {
        proof {
            assert(temp@.reverse().take(k + 1) =~= temp@.reverse().take(k as int).push(
                temp@.reverse()[k as int],
            ));
        }
        out.push(temp[temp.len() - 1 - k]);
        k = k + 1;
    }
    proof {
        assert(temp@.reverse().take(temp@.len() as int) =~= temp@.reverse());
        assert(out@ =~= old(out)@ + pad_left(digits(v as nat, base as nat), width as nat));
    }
}

/// One report line: the region key in 16 hex digits, the access count and the
/// access span in 10 decimal digits each, tab-separated, newline-terminated.
pub open spec fn line_bytes(region: u64, count: nat, span: nat) -> Seq<u8> {
    pad_left(digits(region as nat, 16), 16) + seq![9u8] + pad_left(digits(count, 10), 10)
        + seq![9u8] + pad_left(digits(span, 10), 10) + seq![10u8]
}

/// Appends one report line to `out`.
pub fn push_line(out: &mut Vec<u8>, region: u64, count: usize, span: usize)
    ensures
        final(out)@ == old(out)@ + line_bytes(region, count as nat, span as nat),
{
    push_padded_number(out, region, 16, 16);
    out.push(9);
    push_padded_number(out, count as u64, 10, 10);
    out.push(9);
    push_padded_number(out, span as u64, 10, 10);
    out.push(10);
    proof {
        assert(out@ =~= old(out)@ + line_bytes(region, count as nat, span as nat));
    }
}

} // verus!

//! Human-readable byte sizes, elapsed times and shortened paths.

use std::time::Duration;
use vstd::arithmetic::power2::{lemma_pow2_adds, pow2};
use vstd::prelude::*;

use crate::text::{decimal, push_char, push_decimal};

verus! {

/// What `Duration::as_secs` gives: the whole seconds of a duration.
pub uninterp spec fn whole_secs(d: Duration) -> u64;

/// `Duration::as_secs`: the whole seconds of a duration, its result named.
#[verifier::external_body]
fn whole_seconds(d: Duration) -> (secs: u64)
    ensures
        secs == whole_secs(d),
{
    d.as_secs()
}

/// `n` with at least two digits, zero-padded.
pub open spec fn two_digits(n: nat) -> Seq<char> {
    if n < 10 {
        seq!['0'] + decimal(n)
    } else {
        decimal(n)
    }
}

/// `Nm SSs` once past a minute, `Ns` below it.
pub open spec fn duration_text(total_secs: nat) -> Seq<char> {
    let mins = total_secs / 60;
    let secs = total_secs % 60;
    if mins > 0 {
        decimal(mins) + seq!['m', ' '] + two_digits(secs) + seq!['s']
    } else {
        decimal(secs) + seq!['s']
    }
}

/// Renders a whole number of seconds as `Nm SSs` once past a minute, or
/// `Ns` below it.
pub fn format_duration_secs(total_secs: u64) -> (text: String)
    ensures
        text@ == duration_text(total_secs as nat),
{
    let mins = total_secs / 60;
    let secs = total_secs % 60;
    let mut out = String::new();
    if mins > 0 {
        push_decimal(&mut out, mins as u128);
        push_char(&mut out, 'm');
        push_char(&mut out, ' ');
        if secs < 10 {
            push_char(&mut out, '0');
        }
        push_decimal(&mut out, secs as u128);
        push_char(&mut out, 's');
        proof {
            assert(out@ =~= duration_text(total_secs as nat));
        }
    } else {
        push_decimal(&mut out, secs as u128);
        push_char(&mut out, 's');
        proof {
            assert(out@ =~= duration_text(total_secs as nat));
        }
    }
    out
}

/// Formats an elapsed duration as `Nm SSs` once past a minute, or just `Ns`
/// below it, at whole-second precision.
pub fn format_duration(d: Duration) -> (text: String)
    ensures
        text@ == duration_text(whole_secs(d) as nat),
{
    let secs = whole_seconds(d);
    format_duration_secs(secs)
}

/// How many times `b` is halved before fewer than 53 bits remain: the
/// number of low bits a double cannot hold.
pub open spec fn dropped_bits(b: nat) -> nat
    decreases b,
{
    if b < 0x20_0000_0000_0000 {
        0
    } else {
        1 + dropped_bits(b / 2)
    }
}

/// The multiple of `m` nearest to `b`, the even multiple on a tie.
pub open spec fn round_to_multiple(b: nat, m: nat) -> nat {
    let q = b / m;
    let r = b % m;
    if 2 * r > m || (2 * r == m && q % 2 == 1) {
        (q + 1) * m
    } else {
        q * m
    }
}

/// The value a double takes for the integer `b`: `b` rounded to 53
/// significant bits, ties to even.
pub open spec fn as_double(b: nat) -> nat {
    round_to_multiple(b, pow2(dropped_bits(b)))
}

/// The largest unit index `u <= 5` (from `from` up) with `1024^u <= r`.
pub open spec fn unit_from(r: nat, from: nat) -> nat
    decreases 5 - from,
{
    if from < 5 && r >= pow2(10 * (from + 1)) {
        unit_from(r, from + 1)
    } else {
        from
    }
}

/// `n / d` rounded to the nearest integer, ties to even.
pub open spec fn div_round_even(n: nat, d: nat) -> nat {
    let q = n / d;
    let r = n % d;
    if 2 * r > d || (2 * r == d && q % 2 == 1) {
        q + 1
    } else {
        q
    }
}

/// The name of unit `u`: B, KB, MB, GB, TB, PB.
pub open spec fn unit_name(u: nat) -> Seq<char> {
    if u == 0 {
        seq!['B']
    } else if u == 1 {
        seq!['K', 'B']
    } else if u == 2 {
        seq!['M', 'B']
    } else if u == 3 {
        seq!['G', 'B']
    } else if u == 4 {
        seq!['T', 'B']
    } else {
        seq!['P', 'B']
    }
}

/// `10^places` for the supported one or two decimal places.
pub open spec fn place_scale(places: nat) -> nat {
    if places == 1 {
        10
    } else {
        100
    }
}

/// The fractional digits `f`, padded to `places` digits.
pub open spec fn fraction_digits(f: nat, places: nat) -> Seq<char> {
    if places == 2 && f < 10 {
        seq!['0'] + decimal(f)
    } else {
        decimal(f)
    }
}

/// A byte count in the largest unit (up to PB) that keeps the value at least
/// one, with `places` decimals; plain bytes are shown whole. The value is
/// that of the count as a double, scaled by powers of 1024 and rounded to
/// `places` decimals half to even, as decimal formatting of that double does.
pub open spec fn size_text(bytes: u64, places: nat) -> Seq<char> {
    let r = as_double(bytes as nat);
    let u = unit_from(r, 0);
    if u == 0 {
        decimal(bytes as nat) + seq![' ', 'B']
    } else {
        let scale = place_scale(places);
        let q = div_round_even(r * scale, pow2(10 * u));
        decimal(q / scale) + seq!['.'] + fraction_digits(q % scale, places) + seq![' ']
            + unit_name(u)
    }
}

/// The value `bytes as f64` holds, as an integer.
fn double_value(bytes: u64) -> (r: u128)
    ensures
        r == as_double(bytes as nat),
        r <= bytes + 4096,
{
    let mut t: u64 = bytes;
    let mut m: u64 = 1;
    let ghost mut s: nat = 0;
    proof {
        vstd::arithmetic::power2::lemma2_to64();
    }
    while t >= 0x20_0000_0000_0000
        invariant
            m == pow2(s),
            1 <= m <= 4096,
            t == bytes / m,
            dropped_bits(bytes as nat) == s + dropped_bits(t as nat),
        decreases t,
    {
        proof {
            vstd::arithmetic::div_mod::lemma_fundamental_div_mod(bytes as int, m as int);
            assert(m * t <= bytes) by (nonlinear_arith)
                requires
                    t == bytes / m,
                    bytes == m * (bytes / m) + bytes % m,
                    bytes % m >= 0,
            ;
            assert(m < 0x800) by (nonlinear_arith)
                requires
                    m * t <= bytes,
                    t >= 0x20_0000_0000_0000,
                    bytes <= 0xffff_ffff_ffff_ffff,
            ;
            vstd::arithmetic::div_mod::lemma_div_denominator(bytes as int, m as int, 2);
            vstd::arithmetic::power2::lemma_pow2_unfold(s + 1);
        }
        t = t / 2;
        m = m * 2;
        proof {
            s = s + 1;
        }
    }
    let q = bytes / m;
    let rem = bytes % m;
    let up: u64 = if 2 * (rem as u128) > m as u128 || (2 * (rem as u128) == m as u128 && q % 2
        == 1) {
        1
    } else {
        0
    };
    proof {
        vstd::arithmetic::div_mod::lemma_fundamental_div_mod(bytes as int, m as int);
        assert((q + up) * m <= bytes + m) by (nonlinear_arith)
            requires
                bytes == m * q + rem,
                0 <= rem,
                up <= 1,
        ;
    }
    (q as u128 + up as u128) * m as u128
}

/// The unit index for a value of `r` bytes, with `1024^u`.
fn unit_index(r: u128) -> (res: (usize, u128))
    ensures
        res.0 as nat == unit_from(r as nat, 0),
        res.0 <= 5,
        res.1 == pow2(10 * res.0 as nat),
        1 <= res.1 <= 0x4_0000_0000_0000,
{
    let mut u: usize = 0;
    let mut below: u128 = 1;
    let mut above: u128 = 1024;
    proof {
        vstd::arithmetic::power2::lemma2_to64();
        vstd::arithmetic::power2::lemma2_to64_rest();
    }
    while u < 5 && r >= above
        invariant
            u <= 5,
            below == pow2(10 * u as nat),
            above == pow2(10 * (u + 1) as nat),
            unit_from(r as nat, 0) == unit_from(r as nat, u as nat),
            1 <= below <= 0x4_0000_0000_0000,
            above <= 0x10_0000_0000_0000_0000,
            pow2(50) == 0x4_0000_0000_0000,
            pow2(60) == 0x1000_0000_0000_0000,
        decreases 5 - u,
    {
        proof {
            lemma_pow2_adds(10 * (u + 1) as nat, 10);
            vstd::arithmetic::power2::lemma2_to64();
            if u < 4 {
                vstd::arithmetic::power2::lemma_pow2_strictly_increases(10 * (u + 1) as nat, 50);
            }
            if u < 5 {
                if 10 * (u + 2) < 60 {
                    vstd::arithmetic::power2::lemma_pow2_strictly_increases(
                        10 * (u + 2) as nat,
                        60,
                    );
                }
            }
        }
        u += 1;
        below = above;
        above = above * 1024;
    }
    (u, below)
}

/// `r * scale / d`, rounded half to even.
fn scaled_round_even(r: u128, scale: u128, d: u128) -> (q: u128)
    requires
        r <= 0x1_0000_0000_0000_1000,
        scale == 10 || scale == 100,
        1 <= d <= 0x4_0000_0000_0000,
    ensures
        q == div_round_even(r as nat * scale as nat, d as nat),
{
    let n = r * scale;
    let q0 = n / d;
    let rem = n % d;
    if 2 * rem > d || (2 * rem == d && q0 % 2 == 1) {
        q0 + 1
    } else {
        q0
    }
}

/// Appends the name of unit `u` (1 to 5).
fn push_unit_name(out: &mut String, u: usize)
    requires
        1 <= u <= 5,
    ensures
        final(out)@ == old(out)@ + unit_name(u as nat),
{
    if u == 1 {
        push_char(out, 'K');
    } else if u == 2 {
        push_char(out, 'M');
    } else if u == 3 {
        push_char(out, 'G');
    } else if u == 4 {
        push_char(out, 'T');
    } else {
        push_char(out, 'P');
    }
    push_char(out, 'B');
    proof {
        assert(final(out)@ =~= old(out)@ + unit_name(u as nat));
    }
}

/// Renders `bytes` per [`size_text`] with one or two decimals.
fn render_size(bytes: u64, places: usize) -> (text: String)
    requires
        places == 1 || places == 2,
    ensures
        text@ == size_text(bytes, places as nat),
{
    let r = double_value(bytes);
    let (u, d) = unit_index(r);
    let mut out = String::new();
    if u == 0 {
        push_decimal(&mut out, bytes as u128);
        push_char(&mut out, ' ');
        push_char(&mut out, 'B');
        proof {
            assert(out@ =~= size_text(bytes, places as nat));
        }
        return out;
    }
    let scale: u128 = if places == 1 {
        10
    } else {
        100
    };
    let q = scaled_round_even(r, scale, d);
    let whole = q / scale;
    let frac = q % scale;
    push_decimal(&mut out, whole);
    push_char(&mut out, '.');
    if places == 2 && frac < 10 {
        push_char(&mut out, '0');
    }
    push_decimal(&mut out, frac);
    push_char(&mut out, ' ');
    push_unit_name(&mut out, u);
    proof {
        assert(scale as nat == place_scale(places as nat));
        assert(out@ =~= size_text(bytes, places as nat));
    }
    out
}

/// Formats a byte count with the largest unit that keeps the value at least
/// one and one decimal (`1.5 KB`); plain bytes are whole (`999 B`).
pub fn format_size(bytes: u64) -> (text: String)
    ensures
        text@ == size_text(bytes, 1),
{
    render_size(bytes, 1)
}

/// [`format_size`] with two decimals (`1.50 KB`).
pub fn format_size_precise(bytes: u64) -> (text: String)
    ensures
        text@ == size_text(bytes, 2),
{
    render_size(bytes, 2)
}

/// `s` shortened to `max_chars` characters by replacing its middle with `…`,
/// the tail getting the odd character; `s` itself when it fits, and `…`
/// alone when the budget leaves no room around it.
pub open spec fn elided(s: Seq<char>, max_chars: nat) -> Seq<char> {
    if s.len() <= max_chars {
        s
    } else if max_chars <= 1 {
        seq!['…']
    } else {
        let budget = (max_chars - 1) as nat;
        let tail = budget / 2 + budget % 2;
        let head = budget - tail;
        s.take(head) + seq!['…'] + s.skip(s.len() - tail)
    }
}

/// Shortens `s` to at most `max_chars` characters by eliding its middle with
/// a `…`, keeping the leading context and the trailing name. Counts
/// characters, never splitting one.
pub fn elide_middle(s: &str, max_chars: usize) -> (short: String)
    ensures
        short@ == elided(s@, max_chars as nat),
{
    let len = s.unicode_len();
    if len <= max_chars {
        return String::from_str(s);
    }
    if max_chars <= 1 {
        let mut out = String::new();
        push_char(&mut out, '…');
        proof {
            assert(out@ =~= seq!['…']);
        }
        return out;
    }
    let budget = max_chars - 1;
    let tail = budget / 2 + budget % 2;
    let head = budget - tail;
    let mut out = String::from_str(s.substring_char(0, head));
    push_char(&mut out, '…');
    out.append(s.substring_char(len - tail, len));
    proof {
        assert(out@ =~= elided(s@, max_chars as nat));
    }
    out
}

/// The unit a byte count is shown in.
pub open spec fn size_unit(bytes: u64) -> Seq<char> {
    unit_name(unit_from(as_double(bytes as nat), 0))
}

/// The one- and two-decimal renderings of a size pick the same unit and
/// differ only in precision: both end in that unit, and plain byte counts
/// read the same.
pub proof fn law_size_precision_only(bytes: u64)
    ensures
        size_text(bytes, 1).len() >= size_unit(bytes).len(),
        size_text(bytes, 2).len() >= size_unit(bytes).len(),
        size_text(bytes, 1).skip(size_text(bytes, 1).len() - size_unit(bytes).len()) == size_unit(
            bytes,
        ),
        size_text(bytes, 2).skip(size_text(bytes, 2).len() - size_unit(bytes).len()) == size_unit(
            bytes,
        ),
        unit_from(as_double(bytes as nat), 0) == 0 ==> size_text(bytes, 1) == size_text(bytes, 2),
{
    let u = unit_from(as_double(bytes as nat), 0);
    let unit = size_unit(bytes);
    assert forall|places: nat| places == 1 || places == 2 implies size_text(bytes, places).skip(
        size_text(bytes, places).len() - unit.len(),
    ) == unit by {
        let t = size_text(bytes, places);
        if u == 0 {
            assert(t == decimal(bytes as nat) + seq![' ', 'B']);
            assert(t.skip(t.len() - unit.len()) =~= unit);
        } else {
            let scale = place_scale(places);
            let q = div_round_even(as_double(bytes as nat) * scale, pow2(10 * u));
            let front = decimal(q / scale) + seq!['.'] + fraction_digits(q % scale, places) + seq![
                ' ',
            ];
            assert(t == front + unit);
            assert(t.skip(t.len() - unit.len()) =~= unit);
        }
    }
}

/// The rendering of `bytes` with `places` decimals is a whole number, a
/// point, exactly `places` fraction digits, a space and the unit.
pub open spec fn in_unit_with_decimals(bytes: u64, places: nat) -> bool {
    exists|whole: nat, frac: nat|
        #![trigger fraction_digits(frac, places), decimal(whole)]
        frac < place_scale(places) && fraction_digits(frac, places).len() == places && size_text(
            bytes,
            places,
        ) == decimal(whole) + seq!['.'] + fraction_digits(frac, places) + seq![' '] + unit_name(
            unit_from(bytes as nat, 0),
        )
}

proof fn lemma_dropped_bits_bound(b: nat, k: nat)
    requires
        b < pow2(53 + k),
    ensures
        dropped_bits(b) <= k,
    decreases b,
{
    vstd::arithmetic::power2::lemma2_to64();
    vstd::arithmetic::power2::lemma2_to64_rest();
    if b >= 0x20_0000_0000_0000 {
        if k == 0 {
            assert(pow2(53 + k) == pow2(53));
            assert(false);
        }
        vstd::arithmetic::power2::lemma_pow2_unfold(53 + k);
        assert(pow2(53 + k) == 2 * pow2((53 + (k - 1)) as nat));
        lemma_dropped_bits_bound(b / 2, (k - 1) as nat);
    }
}

/// A count as a double: unchanged below `2^53`, and at least `2^50` above.
proof fn lemma_double_value_range(b: nat)
    requires
        b < 0x1_0000_0000_0000_0000,
    ensures
        b < 0x20_0000_0000_0000 ==> as_double(b) == b,
        b >= 0x20_0000_0000_0000 ==> as_double(b) >= 0x4_0000_0000_0000,
{
    vstd::arithmetic::power2::lemma2_to64();
    if b >= 0x20_0000_0000_0000 {
        vstd::arithmetic::power2::lemma2_to64_rest();
        lemma_dropped_bits_bound(b, 11);
        let d = dropped_bits(b);
        let m = pow2(d);
        if d < 11 {
            vstd::arithmetic::power2::lemma_pow2_strictly_increases(d, 11);
        }
        assert(m <= 2048);
        assert(m > 0) by {
            vstd::arithmetic::power2::lemma_pow2_pos(d);
        }
        vstd::arithmetic::div_mod::lemma_fundamental_div_mod(b as int, m as int);
        let q = b / m;
        assert(q * m >= b - m + 1) by (nonlinear_arith)
            requires
                b == m * q + b % m,
                b % m < m,
                m > 0,
        ;
        assert((q + 1) * m >= q * m) by (nonlinear_arith)
            requires
                m > 0,
        ;
    } else {
        assert(dropped_bits(b) == 0);
        assert(pow2(0) == 1);
        assert(b / 1 == b && b % 1 == 0) by (nonlinear_arith);
    }
}

proof fn lemma_unit_from_range(r: nat, from: nat)
    requires
        from <= 5,
        from == 0 || r >= pow2(10 * from),
    ensures
        from <= unit_from(r, from) <= 5,
        unit_from(r, from) == 0 || r >= pow2(10 * unit_from(r, from)),
        unit_from(r, from) < 5 ==> r < pow2(10 * (unit_from(r, from) + 1)),
    decreases 5 - from,
{
    if from < 5 && r >= pow2(10 * (from + 1)) {
        lemma_unit_from_range(r, from + 1);
    }
}

/// The unit a size is shown in is the largest of B, KB, MB, GB, TB, PB
/// whose 1024-power the count reaches. Plain byte counts read as the count
/// and `B` in both renderings; otherwise `format_size` shows exactly one
/// decimal and `format_size_precise` exactly two, before that unit.
pub proof fn law_size_units(bytes: u64)
    ensures
        unit_from(bytes as nat, 0) <= 5,
        unit_from(bytes as nat, 0) == 0 || bytes >= pow2(10 * unit_from(bytes as nat, 0)),
        unit_from(bytes as nat, 0) < 5 ==> bytes < pow2(10 * (unit_from(bytes as nat, 0) + 1)),
        size_unit(bytes) == unit_name(unit_from(bytes as nat, 0)),
        unit_from(bytes as nat, 0) == 0 ==> size_text(bytes, 1) == decimal(bytes as nat) + seq![
            ' ',
            'B',
        ] && size_text(bytes, 2) == size_text(bytes, 1),
        unit_from(bytes as nat, 0) > 0 ==> in_unit_with_decimals(bytes, 1) && in_unit_with_decimals(
            bytes,
            2,
        ),
{
    let b = bytes as nat;
    vstd::arithmetic::power2::lemma2_to64();
    vstd::arithmetic::power2::lemma2_to64_rest();
    lemma_unit_from_range(b, 0);
    lemma_double_value_range(b);
    let r = as_double(b);
    if b >= 0x20_0000_0000_0000 {
        lemma_unit_from_range(r, 0);
        assert(unit_from(r, 0) == 5) by {
            assert(unit_from(r, 5) == 5);
            assert(unit_from(r, 4) == 5);
            assert(unit_from(r, 3) == 5);
            assert(unit_from(r, 2) == 5);
            assert(unit_from(r, 1) == 5);
        }
        assert(unit_from(b, 0) == 5) by {
            assert(unit_from(b, 5) == 5);
            assert(unit_from(b, 4) == 5);
            assert(unit_from(b, 3) == 5);
            assert(unit_from(b, 2) == 5);
            assert(unit_from(b, 1) == 5);
        }
    }
    let u = unit_from(r, 0);
    assert(u == unit_from(b, 0));
    if u > 0 {
        assert forall|places: nat| places == 1 || places == 2 implies #[trigger]
            in_unit_with_decimals(bytes, places) by {
            let scale = place_scale(places);
            let q = div_round_even(r * scale, pow2(10 * u));
            let whole = q / scale;
            let frac = q % scale;
            assert(frac < scale);
            if frac < 10 {
                assert(decimal(frac).len() == 1);
            } else {
                assert(decimal(frac / 10).len() == 1);
                assert(decimal(frac).len() == 2);
            }
            assert(fraction_digits(frac, places).len() == places);
            assert(size_text(bytes, places) == decimal(whole) + seq!['.'] + fraction_digits(
                frac,
                places,
            ) + seq![' '] + unit_name(u));
        }
    }
}

/// A shortened text never exceeds its budget (one character at least),
/// and is the text itself when it fits.
pub proof fn law_elide_within_budget(s: Seq<char>, max_chars: nat)
    ensures
        s.len() <= max_chars ==> elided(s, max_chars) == s,
        s.len() > max_chars && max_chars >= 1 ==> elided(s, max_chars).len() == max_chars,
        s.len() > max_chars && max_chars == 0 ==> elided(s, max_chars).len() == 1,
{
}

} // verus!

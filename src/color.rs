use vstd::prelude::*;
use crate::ray::{clamp_spec, Interval};
use crate::vec3::{isqrt, lemma_square_monotone, sqrt_floor, Color, ONE};

verus! {

/// Largest encoded channel value, `0.999` in fixed point.
pub const GAMMA_CEILING: i64 = 65470;

/// Gamma 2 encoding: `sqrt(linear)` for a positive value, else zero.
pub open spec fn gamma_spec(c: int) -> int {
    if c > 0 { sqrt_floor(c * ONE) } else { 0 }
}

pub open spec fn intensity() -> Interval {
    Interval { min: 0, max: GAMMA_CEILING }
}

/// The byte for a linear channel: the encoded value clamped to
/// `[0, 0.999]`, times 256, rounded down.
pub open spec fn byte_spec(c: int) -> int {
    (clamp_spec(intensity(), gamma_spec(c)) * 256) / (ONE as int)
}

/// The decimal digits of `n`.
pub open spec fn decimal(n: nat) -> Seq<u8>
    decreases n,
{
    if n < 10 {
        seq![(48 + n) as u8]
    } else {
        decimal(n / 10) + seq![(48 + n % 10) as u8]
    }
}

/// One output line: the three bytes in decimal, separated by spaces.
pub open spec fn pixel_line(c: Color) -> Seq<u8> {
    decimal(byte_spec(c.x as int) as nat) + seq![32u8] + decimal(byte_spec(c.y as int) as nat)
        + seq![32u8] + decimal(byte_spec(c.z as int) as nat) + seq![10u8]
}

pub fn linear_to_gamma(linear_component: i64) -> (r: i64)
    ensures
        r == gamma_spec(linear_component as int),
        r >= 0,
{
    if linear_component > 0 {
        let c: u128 = linear_component as u128;
        let one: u128 = ONE as u128;
        assert(c * one < 0x1_0000_0000_0000_0000_0000) by (nonlinear_arith)
            requires
                c < 0x8000_0000_0000_0000u128,
                one == 65536,
        ;
        let n: u128 = c * one;
        let r: u128 = isqrt(n);
        assert(r < 0x100_0000_0000) by (nonlinear_arith)
            requires
                r * r <= n,
                n < 0x1_0000_0000_0000_0000_0000,
        ;
        r as i64
    } else {
        0
    }
}

/// The byte for one linear channel.
pub fn channel_byte(c: i64) -> (r: i64)
    ensures
        r == byte_spec(c as int),
        0 <= r <= 255,
{
    let g: i64 = linear_to_gamma(c);
    let clamped: i64 = Interval::new(0, GAMMA_CEILING).clamp(g);
    clamped * 256 / ONE
}

fn push_decimal(out: &mut Vec<u8>, n: i64)
    requires
        0 <= n <= 255,
    ensures
        final(out)@ == old(out)@ + decimal(n as nat),
{
    proof {
        reveal_with_fuel(decimal, 3);
    }
    if n >= 100 {
        out.push((48 + n / 100) as u8);
        out.push((48 + (n / 10) % 10) as u8);
        out.push((48 + n % 10) as u8);
        proof {
            assert(decimal(n as nat) == seq![(48 + n / 100) as u8, (48 + (n / 10) % 10) as u8, (48 + n % 10) as u8]);
        }
    } else if n >= 10 {
        out.push((48 + n / 10) as u8);
        out.push((48 + n % 10) as u8);
        proof {
            assert(decimal(n as nat) == seq![(48 + n / 10) as u8, (48 + n % 10) as u8]);
        }
    } else {
        out.push((48 + n) as u8);
    }
}

/// Append the gamma-encoded, quantized color as one text line.
pub fn write_color(out: &mut Vec<u8>, pixel_color: Color)
    ensures
        final(out)@ == old(out)@ + pixel_line(pixel_color),
{
    let rbyte: i64 = channel_byte(pixel_color.x);
    let gbyte: i64 = channel_byte(pixel_color.y);
    let bbyte: i64 = channel_byte(pixel_color.z);
    push_decimal(out, rbyte);
    out.push(32u8);
    push_decimal(out, gbyte);
    out.push(32u8);
    push_decimal(out, bbyte);
    out.push(10u8);
    assert(out@ == old(out)@ + pixel_line(pixel_color));
}

/// Quantization never exceeds 255: black gives 0, and every linear value
/// of one or more gives 255, the clamp ceiling `0.999` times 256.
pub proof fn lemma_quantize_range(c: int)
    ensures
        0 <= byte_spec(c) <= 255,
        c <= 0 ==> byte_spec(c) == 0,
        c >= ONE ==> byte_spec(c) == 255,
{
    if c > 0 {
        vstd::arithmetic::mul::lemma_mul_strictly_positive(c, ONE as int);
        let n = c * ONE;
        crate::vec3::lemma_sqrt_floor_exists(n);
        let r = sqrt_floor(n);
        if c >= ONE {
            assert(n >= ONE * ONE) by (nonlinear_arith)
                requires
                    n == c * ONE,
                    c >= ONE,
            ;
            if r < ONE {
                lemma_square_monotone(r + 1, ONE as int);
            }
        }
    }
}

} // verus!

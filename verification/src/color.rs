use vstd::arithmetic::div_mod::{
    lemma_div_is_ordered, lemma_div_pos_is_pos, lemma_fundamental_div_mod_converse_div,
};
use vstd::prelude::*;

verus! {

/// An RGB color with 8-bit channels.
#[derive(Clone, Copy, Debug, PartialEq, Eq, Structural)]
pub struct Color {
    pub r: u8,
    pub g: u8,
    pub b: u8,
}

/// Segment that table index `i` falls in when the 256 table entries are
/// spread over `nseg` equal segments of the normalized position `i / 255`:
/// the smallest `k >= 1` with `i / 255 <= k / nseg`, written over integers.
/// The scan leaves segment `k` only when the position strictly exceeds
/// `k / nseg`, so index 0 always resolves to segment 1.
pub open spec fn seg_of(i: int, nseg: int) -> int {
    if i * nseg <= 255 {
        1
    } else {
        (i * nseg + 254) / 255
    }
}

/// Numerator (out of 255) of the local interpolation fraction of table
/// index `i` inside its segment: `i / 255 * nseg` minus the segment's
/// lower boundary `(seg_of - 1) / nseg`, scaled by 255.
pub open spec fn frac_num(i: int, nseg: int) -> int {
    i * nseg - (seg_of(i, nseg) - 1) * 255
}

/// One channel of a blend of `a` toward `b` by the fraction `num / 255`,
/// truncated to an integer.
pub open spec fn chan_val(a: u8, b: u8, num: int) -> int {
    (a * (255 - num) + b * num) / 255
}

/// Blend of `a` toward `b` by the fraction `num / 255`, per channel.
pub open spec fn mix_spec(a: Color, b: Color, num: int) -> Color {
    Color {
        r: chan_val(a.r, b.r, num) as u8,
        g: chan_val(a.g, b.g, num) as u8,
        b: chan_val(a.b, b.b, num) as u8,
    }
}

/// Entry `i` of the lookup table built from the control colors `stops`:
/// opaque black for an empty stop list, the single stop for a one-entry
/// list, and otherwise the piecewise-linear blend of the two stops that
/// bound the segment index `i` falls in.
pub open spec fn grad_spec(stops: Seq<Color>, i: int) -> Color {
    if stops.len() == 0 {
        Color { r: 0, g: 0, b: 0 }
    } else if stops.len() == 1 {
        stops[0]
    } else {
        let nseg = stops.len() - 1;
        let k = seg_of(i, nseg as int);
        mix_spec(stops[k - 1], stops[k], frac_num(i, nseg as int))
    }
}

proof fn lemma_chan_num_bounds(a: u8, b: u8, num: int)
    by (nonlinear_arith)
    requires
        0 <= num <= 255,
    ensures
        0 <= a * (255 - num) + b * num <= 65025,
{
}

/// A blended channel value stays inside the 8-bit range.
pub proof fn lemma_chan_val_bounds(a: u8, b: u8, num: int)
    requires
        0 <= num <= 255,
    ensures
        0 <= chan_val(a, b, num) <= 255,
{
    lemma_chan_num_bounds(a, b, num);
    lemma_div_pos_is_pos(a * (255 - num) + b * num, 255);
    lemma_div_is_ordered(a * (255 - num) + b * num, 65025, 255);
    assert(65025int / 255 == 255);
}

/// The segment index is within range, the local fraction stays in
/// `[0, 255]`, and the segment is the smallest one whose upper boundary
/// the position does not exceed.
proof fn lemma_seg_bounds(i: int, nseg: int)
    requires
        0 <= i <= 255,
        1 <= nseg <= 255,
    ensures
        1 <= seg_of(i, nseg) <= nseg,
        0 <= frac_num(i, nseg) <= 255,
        i * nseg <= 255 * seg_of(i, nseg),
        seg_of(i, nseg) > 1 ==> i * nseg > 255 * (seg_of(i, nseg) - 1),
{
    let m = i * nseg;
    assert(0 <= m && m <= 255 * nseg) by (nonlinear_arith)
        requires
            m == i * nseg,
            0 <= i <= 255,
            1 <= nseg <= 255,
    ;
    if m <= 255 {
        assert(seg_of(i, nseg) == 1);
        assert(frac_num(i, nseg) == m);
    } else {
        let q = (m + 254) / 255;
        let r = (m + 254) % 255;
        assert(m + 254 == 255 * q + r && 0 <= r < 255);
        assert(q * 255 == 255 * q) by (nonlinear_arith);
        assert(seg_of(i, nseg) == q);
        assert(frac_num(i, nseg) == m - (q - 1) * 255);
        assert((q - 1) * 255 == 255 * q - 255) by (nonlinear_arith);
        assert(frac_num(i, nseg) == r + 1);
        // q <= nseg, since m + 254 <= 255 * nseg + 254 < 255 * (nseg + 1)
        assert(m + 254 < 255 * (nseg + 1)) by (nonlinear_arith)
            requires
                m <= 255 * nseg,
        ;
        assert(q < nseg + 1) by {
            if q >= nseg + 1 {
                assert(255 * q >= 255 * (nseg + 1)) by (nonlinear_arith)
                    requires
                        q >= nseg + 1,
                ;
            }
        };
        // q >= 2, since m + 254 >= 510
        assert(q >= 2) by {
            if q <= 1 {
                assert(255 * q <= 255) by (nonlinear_arith)
                    requires
                        q <= 1,
                ;
            }
        };
    }
}

/// The segment index is determined by its characteristic inequalities.
proof fn lemma_seg_unique(i: int, nseg: int, k: int)
    requires
        0 <= i <= 255,
        1 <= nseg <= 255,
        1 <= k,
        i * nseg <= 255 * k,
        k == 1 || i * nseg > 255 * (k - 1),
    ensures
        seg_of(i, nseg) == k,
{
    let m = i * nseg;
    assert(0 <= m) by (nonlinear_arith)
        requires
            m == i * nseg,
            0 <= i,
            1 <= nseg,
    ;
    if m <= 255 {
        if k >= 2 {
            assert(255 * (k - 1) >= 255) by (nonlinear_arith)
                requires
                    k >= 2,
            ;
        }
        assert(k == 1);
    } else {
        assert(k >= 2) by {
            if k == 1 {
                assert(m <= 255 * 1);
            }
        };
        // 255 * (k - 1) < m <= 255 * k, so (m + 254) / 255 == k.
        let r = m + 254 - 255 * k;
        assert(255 * (k - 1) == 255 * k - 255) by (nonlinear_arith);
        assert(0 <= r < 255);
        assert(m + 254 == k * 255 + r) by (nonlinear_arith)
            requires
                r == m + 254 - 255 * k,
        ;
        lemma_fundamental_div_mod_converse_div(m + 254, 255, k, r);
    }
}

/// Advancing the position by one table index moves the segment forward by
/// at most one: the new segment is the old one, bumped exactly when the
/// new position strictly exceeds the old segment's upper boundary.
proof fn lemma_seg_step(i: int, nseg: int)
    requires
        1 <= i <= 255,
        1 <= nseg <= 255,
    ensures
        i * nseg > 255 * seg_of(i - 1, nseg) ==> seg_of(i, nseg) == seg_of(i - 1, nseg) + 1,
        i * nseg <= 255 * seg_of(i - 1, nseg) ==> seg_of(i, nseg) == seg_of(i - 1, nseg),
{
    lemma_seg_bounds(i - 1, nseg);
    let s = seg_of(i - 1, nseg);
    assert(i * nseg == (i - 1) * nseg + nseg) by (nonlinear_arith);
    if i * nseg > 255 * s {
        assert(i * nseg <= 255 * s + 255);
        assert(255 * (s + 1) == 255 * s + 255) by (nonlinear_arith);
        lemma_seg_unique(i, nseg, s + 1);
    } else {
        assert((i - 1) * nseg <= i * nseg) by (nonlinear_arith)
            requires
                nseg >= 0,
        ;
        lemma_seg_unique(i, nseg, s);
    }
}

/// Blend of two colors: the result channel is `a * (1 - x) + b * x`,
/// truncated, for the fraction `x = num / 255`.
pub fn mix(a: Color, b: Color, num: u32) -> (c: Color)
    requires
        num <= 255,
    ensures
        c == mix_spec(a, b, num as int),
{
    proof {
        lemma_chan_num_bounds(a.r, b.r, num as int);
        lemma_chan_num_bounds(a.g, b.g, num as int);
        lemma_chan_num_bounds(a.b, b.b, num as int);
        lemma_chan_val_bounds(a.r, b.r, num as int);
        lemma_chan_val_bounds(a.g, b.g, num as int);
        lemma_chan_val_bounds(a.b, b.b, num as int);
    }
    let r: u32 = (a.r as u32 * (255 - num) + b.r as u32 * num) / 255;
    let g: u32 = (a.g as u32 * (255 - num) + b.g as u32 * num) / 255;
    let bl: u32 = (a.b as u32 * (255 - num) + b.b as u32 * num) / 255;
    Color { r: r as u8, g: g as u8, b: bl as u8 }
}

/// Build the 256-entry color lookup table from the ordered control colors
/// `stops` by piecewise-linear interpolation: an empty list yields all
/// black, a single stop fills the whole table, and otherwise the 256
/// indices are spread over `stops.len() - 1` equal segments, blending the
/// two stops that bound each index's segment.
pub fn gradient(colors: Vec<Color>) -> (out: Vec<Color>)
    requires
        colors@.len() <= 256,
    ensures
        out@.len() == 256,
        forall|i: int| 0 <= i < 256 ==> out@[i] == grad_spec(colors@, i),
{
    let mut out: Vec<Color> = Vec::new();
    if colors.len() == 0 {
        let mut i: usize = 0;
        while i < 256
            invariant
                out@.len() == i,
                i <= 256,
                colors@.len() == 0,
                forall|j: int| 0 <= j < i ==> out@[j] == grad_spec(colors@, j),
            decreases 256 - i,
        {
            out.push(Color { r: 0, g: 0, b: 0 });
            i = i + 1;
        }
        return out;
    }
    if colors.len() == 1 {
        let first = colors[0];
        let mut i: usize = 0;
        while i < 256
            invariant
                out@.len() == i,
                i <= 256,
                colors@.len() == 1,
                first == colors@[0],
                forall|j: int| 0 <= j < i ==> out@[j] == grad_spec(colors@, j),
            decreases 256 - i,
        {
            out.push(first);
            i = i + 1;
        }
        return out;
    }
    let nseg: usize = colors.len() - 1;
    let mut a = colors[0];
    let mut b = colors[1];
    let mut i_segment: usize = 1;
    let mut i: usize = 0;
    while i < 256
        invariant
            2 <= colors@.len() <= 256,
            nseg == colors@.len() - 1,
            out@.len() == i,
            i <= 256,
            1 <= i_segment <= nseg,
            i == 0 ==> i_segment == 1,
            i >= 1 ==> i_segment == seg_of(i - 1, nseg as int),
            a == colors@[i_segment - 1],
            b == colors@[i_segment as int],
            forall|j: int| 0 <= j < i ==> out@[j] == grad_spec(colors@, j),
        decreases 256 - i,
    {
        proof {
            if i == 0 {
                assert(0 * (nseg as int) == 0) by (nonlinear_arith);
                assert(seg_of(0, nseg as int) == 1);
                assert(1 * 255 >= 255 * 1) by (nonlinear_arith);
            } else {
                lemma_seg_step(i as int, nseg as int);
            }
            lemma_seg_bounds(i as int, nseg as int);
            assert(i * nseg <= 255 * 255) by (nonlinear_arith)
                requires
                    0 <= i < 256,
                    0 <= nseg <= 255,
            ;
            assert(i_segment * 255 == 255 * i_segment) by (nonlinear_arith);
        }
        if i * nseg > i_segment * 255 {
            i_segment = i_segment + 1;
            a = b;
            b = colors[i_segment];
        }
        proof {
            assert(i_segment == seg_of(i as int, nseg as int));
            assert((i_segment - 1) * 255 == (seg_of(i as int, nseg as int) - 1) * 255);
        }
        let num: usize = i * nseg - (i_segment - 1) * 255;
        let c = mix(a, b, num as u32);
        out.push(c);
        i = i + 1;
    }
    out
}

/// For a two-stop ramp whose second stop dominates the first in every
/// channel, the table's channel values never decrease as the index grows.
pub proof fn lemma_two_stop_monotone(a: Color, b: Color, i: int, j: int)
    requires
        a.r <= b.r,
        a.g <= b.g,
        a.b <= b.b,
        0 <= i <= j <= 255,
    ensures
        grad_spec(seq![a, b], i).r <= grad_spec(seq![a, b], j).r,
        grad_spec(seq![a, b], i).g <= grad_spec(seq![a, b], j).g,
        grad_spec(seq![a, b], i).b <= grad_spec(seq![a, b], j).b,
{
    let stops = seq![a, b];
    assert(stops.len() == 2);
    assert(i * 1 == i && j * 1 == j) by (nonlinear_arith);
    assert(seg_of(i, 1) == 1 && seg_of(j, 1) == 1);
    assert(frac_num(i, 1) == i && frac_num(j, 1) == j);
    lemma_chan_mono(a.r, b.r, i, j);
    lemma_chan_mono(a.g, b.g, i, j);
    lemma_chan_mono(a.b, b.b, i, j);
}

/// The first table entry of a multi-stop ramp is exactly the first stop:
/// index 0 resolves to segment 1 with a zero local fraction.
pub proof fn lemma_gradient_first_entry(stops: Seq<Color>)
    requires
        2 <= stops.len() <= 256,
    ensures
        grad_spec(stops, 0) == stops[0],
{
    let nseg = stops.len() - 1;
    assert(0 * nseg == 0) by (nonlinear_arith);
    assert(seg_of(0, nseg as int) == 1);
    assert(frac_num(0, nseg as int) == 0);
    lemma_chan_exact(stops[0].r, stops[1].r, 0);
    lemma_chan_exact(stops[0].g, stops[1].g, 0);
    lemma_chan_exact(stops[0].b, stops[1].b, 0);
}

/// The last table entry of a multi-stop ramp is exactly the last stop:
/// index 255 resolves to the final segment with a full local fraction.
pub proof fn lemma_gradient_last_entry(stops: Seq<Color>)
    requires
        2 <= stops.len() <= 256,
    ensures
        grad_spec(stops, 255) == stops[stops.len() - 1],
{
    let nseg = (stops.len() - 1) as int;
    lemma_seg_unique(255, nseg, nseg);
    assert(255 * nseg <= 255 * nseg && (nseg == 1 || 255 * nseg > 255 * (nseg - 1)))
        by (nonlinear_arith)
        requires
            1 <= nseg,
    ;
    assert(seg_of(255, nseg) == nseg);
    assert(frac_num(255, nseg) == 255 * nseg - (nseg - 1) * 255);
    assert(255 * nseg - (nseg - 1) * 255 == 255) by (nonlinear_arith);
    let a = stops[nseg - 1];
    let b = stops[nseg];
    lemma_chan_exact(a.r, b.r, 255);
    lemma_chan_exact(a.g, b.g, 255);
    lemma_chan_exact(a.b, b.b, 255);
}

/// At the fraction endpoints the blend returns a stop unchanged.
proof fn lemma_chan_exact(a: u8, b: u8, num: int)
    requires
        num == 0 || num == 255,
    ensures
        num == 0 ==> chan_val(a, b, num) == a,
        num == 255 ==> chan_val(a, b, num) == b,
{
    if num == 0 {
        assert(a * (255 - 0) + b * 0 == 255 * a) by (nonlinear_arith);
        lemma_fundamental_div_mod_converse_div(255 * a, 255, a as int, 0);
    } else {
        assert(a * (255 - 255) + b * 255 == 255 * b) by (nonlinear_arith);
        lemma_fundamental_div_mod_converse_div(255 * b, 255, b as int, 0);
    }
}

/// A single blended channel is monotone in the fraction when `lo <= hi`.
proof fn lemma_chan_mono(lo: u8, hi: u8, i: int, j: int)
    requires
        lo <= hi,
        0 <= i <= j <= 255,
    ensures
        chan_val(lo, hi, i) <= chan_val(lo, hi, j),
        chan_val(lo, hi, i) as u8 as int <= chan_val(lo, hi, j) as u8 as int,
{
    assert(lo * (255 - i) + hi * i <= lo * (255 - j) + hi * j) by (nonlinear_arith)
        requires
            lo <= hi,
            i <= j,
    ;
    lemma_div_is_ordered(lo * (255 - i) + hi * i, lo * (255 - j) + hi * j, 255);
    lemma_chan_val_bounds(lo, hi, i);
    lemma_chan_val_bounds(lo, hi, j);
}

} // verus!

use vstd::prelude::*;
use crate::scanner::{Fraction, HIT_DEN_LIMIT};

verus! {

/// Angle units in one degree: angles are counted in tenths of a degree.
pub const DEGREE: i32 = 10;

/// Brightest shade of a wall column.
pub const FULL_SHADE: i32 = 255;

/// One screen column of a wall.
#[derive(Clone, Copy, Debug, PartialEq, Eq, Structural)]
pub struct Column {
    /// Screen x of the column.
    pub x: i32,
    /// Half the column's height, drawn around the screen's middle row.
    pub half_height: i32,
    /// Brightness of the column, darker with distance.
    pub shade: u8,
}

/// `n / d` rounded up, for `n >= 0` and `d > 0`.
pub open spec fn ceil_div(n: int, d: int) -> int {
    (n + d - 1) / d
}

/// Screen x for the ray at `offset` in a view from `-half_fov` to
/// `half_fov`: `width - (offset + half_fov) / (2 * half_fov + 1 degree) * width`,
/// truncated.
pub open spec fn column_x(offset: int, half_fov: int, width: int) -> int {
    width - ceil_div((offset + half_fov) * width, 2 * half_fov + DEGREE)
}

/// Half-height of a column whose wall stands `num / den` of the way along
/// the ray: `(1 - num / den) * max_height`, truncated.
pub open spec fn column_half_height(num: int, den: int, max_height: int) -> int {
    (den - num) * max_height / den
}

/// `255 - round((num / den) * 255)`, halves rounded up.
pub open spec fn column_shade(num: int, den: int) -> int {
    FULL_SHADE - (2 * num * FULL_SHADE + den) / (2 * den)
}

proof fn lemma_rounded_share(num: int, den: int)
    requires
        0 <= num <= den,
        0 < den,
    ensures
        0 <= (2 * num * FULL_SHADE + den) / (2 * den) <= FULL_SHADE,
{
    assert(0 <= 2 * num * FULL_SHADE + den < 2 * den * (FULL_SHADE + 1)) by (nonlinear_arith)
        requires
            0 <= num <= den,
            0 < den,
    ;
    assert(0 <= (2 * num * FULL_SHADE + den) / (2 * den) <= FULL_SHADE) by (nonlinear_arith)
        requires
            0 <= 2 * num * FULL_SHADE + den < 2 * den * (FULL_SHADE + 1),
            0 < den,
    ;
}

proof fn lemma_div_below(n: int, d: int, w: int)
    requires
        0 <= n,
        n + d - 1 < d * (w + 1),
        d > 0,
    ensures
        0 <= (n + d - 1) / d <= w,
{
    assert(0 <= (n + d - 1) / d <= w) by (nonlinear_arith)
        requires
            0 <= n,
            n + d - 1 < d * (w + 1),
            d > 0,
    ;
}

proof fn lemma_scaled_share(part: int, whole: int, scale: int)
    requires
        0 <= part <= whole,
        0 < whole,
        0 <= scale,
    ensures
        0 <= part * scale / whole <= scale,
{
    assert(0 <= part * scale <= whole * scale) by (nonlinear_arith)
        requires
            0 <= part <= whole,
            0 <= scale,
    ;
    assert(0 <= part * scale / whole <= scale) by (nonlinear_arith)
        requires
            0 <= part * scale <= whole * scale,
            0 < whole,
    ;
}

/// Projects one scanned ray onto the screen: its column, the height of the
/// wall drawn there (taller when nearer) and its shade (darker when
/// farther).
pub fn project_column(
    offset: i32,
    half_fov: i32,
    hit: Fraction,
    screen_width: i32,
    max_wall_height: i32,
) -> (c: Column)
    requires
        0 <= half_fov,
        -half_fov <= offset < half_fov,
        0 <= screen_width,
        0 <= max_wall_height,
        0 <= hit.num <= hit.den,
        0 < hit.den <= HIT_DEN_LIMIT,
    ensures
        c.x == column_x(offset as int, half_fov as int, screen_width as int),
        c.half_height == column_half_height(hit.num as int, hit.den as int, max_wall_height as int),
        c.shade == column_shade(hit.num as int, hit.den as int),
        0 <= c.x <= screen_width,
        0 <= c.half_height <= max_wall_height,
{
    let span = 2 * half_fov as i128 + DEGREE as i128;
    proof {
        let o = offset as int + half_fov as int;
        let w = screen_width as int;
        let h2 = 2 * half_fov as int;
        assert(0 <= o * w <= h2 * w) by (nonlinear_arith)
            requires
                0 <= o <= h2,
                0 <= w,
        ;
        assert(h2 * w <= 0x1_0000_0000 * 0x8000_0000) by (nonlinear_arith)
            requires
                0 <= h2 <= 0x1_0000_0000,
                0 <= w < 0x8000_0000,
        ;
        assert(h2 * w + h2 + 9 < (h2 + 10) * (w + 1)) by (nonlinear_arith)
            requires
                0 <= h2,
                0 <= w,
        ;
    }
    let n = (offset as i128 + half_fov as i128) * screen_width as i128;
    let q = (n + span - 1) / span;
    proof {
        lemma_div_below(n as int, span as int, screen_width as int);
    }
    let x = screen_width as i128 - q;
    let rest = hit.den - hit.num;
    proof {
        assert(0 <= rest * max_wall_height <= hit.den * max_wall_height) by (nonlinear_arith)
            requires
                0 <= rest <= hit.den,
                0 <= max_wall_height,
        ;
        assert(hit.den * max_wall_height <= HIT_DEN_LIMIT * 0x8000_0000) by (nonlinear_arith)
            requires
                0 < hit.den <= HIT_DEN_LIMIT,
                0 <= max_wall_height < 0x8000_0000,
        ;
        assert(0 <= 2 * hit.num * FULL_SHADE <= 2 * HIT_DEN_LIMIT * FULL_SHADE) by (nonlinear_arith)
            requires
                0 <= hit.num <= hit.den,
                hit.den <= HIT_DEN_LIMIT,
        ;
    }
    let h = rest * max_wall_height as i128 / hit.den;
    proof {
        lemma_scaled_share(rest as int, hit.den as int, max_wall_height as int);
    }
    let dark = (2 * hit.num * FULL_SHADE as i128 + hit.den) / (2 * hit.den);
    proof {
        lemma_rounded_share(hit.num as int, hit.den as int);
    }
    Column { x: x as i32, half_height: h as i32, shade: (FULL_SHADE as i128 - dark) as u8 }
}


/// Screen x of a point from its distances to the view's two boundary rays:
/// `left / (left + right) * width`, truncated (a linear interpolation across
/// the view, not a true perspective). `None` when both distances are zero,
/// that is, for a point at the camera.
pub fn perspective_x(left: u32, right: u32, screen_width: i32) -> (r: Option<i32>)
    requires
        0 <= screen_width,
    ensures
        r is None <==> left + right == 0,
        r matches Some(x) ==> x == left * screen_width / (left + right),
{
    let sum = left as i64 + right as i64;
    if sum == 0 {
        return None;
    }
    proof {
        lemma_scaled_share(left as int, sum as int, screen_width as int);
        assert(left * screen_width <= sum * 0x8000_0000) by (nonlinear_arith)
            requires
                left <= sum,
                0 <= screen_width < 0x8000_0000,
        ;
        assert(sum * 0x8000_0000 <= 0x2_0000_0000 * 0x8000_0000) by (nonlinear_arith)
            requires
                0 <= sum <= 0x2_0000_0000,
        ;
    }
    Some((left as i128 * screen_width as i128 / sum as i128) as i32)
}

} // verus!

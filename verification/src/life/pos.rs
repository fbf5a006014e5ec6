use vstd::prelude::*;

verus! {

/// A position (or a size) on a life grid.
#[derive(Clone, Copy, PartialEq, Eq, Debug, Hash, PartialOrd, Ord, Structural)]
pub struct Pos {
    pub x: i16,
    pub y: i16,
}

/// The value of `a + b` clamped to the range of `i16`.
pub open spec fn clamp_i16(v: int) -> i16 {
    if v > i16::MAX {
        i16::MAX
    } else if v < i16::MIN {
        i16::MIN
    } else {
        v as i16
    }
}

pub open spec fn in_i16(v: int) -> bool {
    i16::MIN <= v <= i16::MAX
}

/// `a - b` on `i16`, clamped at the bounds of the type.
pub fn saturating_sub_i16(a: i16, b: i16) -> (r: i16)
    ensures
        r == clamp_i16(a - b),
{
    let d: i32 = a as i32 - b as i32;
    if d > i16::MAX as i32 {
        i16::MAX
    } else if d < i16::MIN as i32 {
        i16::MIN
    } else {
        d as i16
    }
}

/// `a + b` on `i16`, clamped at the bounds of the type.
pub fn saturating_add_i16(a: i16, b: i16) -> (r: i16)
    ensures
        r == clamp_i16(a + b),
{
    let d: i32 = a as i32 + b as i32;
    if d > i16::MAX as i32 {
        i16::MAX
    } else if d < i16::MIN as i32 {
        i16::MIN
    } else {
        d as i16
    }
}

/// Shorthand for `Pos::new`.
pub fn pos(x: i16, y: i16) -> (p: Pos)
    ensures
        p == (Pos { x, y }),
{
    Pos::new(x, y)
}

/// The positions of the rectangle `[start, start + area)`, row by row.
pub open spec fn area_positions(start: Pos, area: Pos) -> Seq<Pos> {
    Seq::new(
        (area.x * area.y) as nat,
        |i: int| Pos { x: (start.x + i % (area.x as int)) as i16, y: (start.y + i / (area.x as int)) as i16 },
    )
}

/// `p` mirrored across the row `line`.
pub open spec fn mirror_odd(p: Pos, line: i16) -> Pos {
    Pos { x: p.x, y: (line + (line - p.y)) as i16 }
}

/// `p` mirrored across the line between the rows `line` and `line + 1`.
pub open spec fn mirror_even(p: Pos, line: i16) -> Pos {
    Pos { x: p.x, y: (line + (line - p.y) + 1) as i16 }
}

/// `p` turned a quarter clockwise about `c`.
pub open spec fn quarter_cw(p: Pos, c: Pos) -> Pos {
    Pos { x: (c.x + (c.y - p.y)) as i16, y: p.x }
}

/// `p` turned a quarter counter-clockwise about `c`.
pub open spec fn quarter_ccw(p: Pos, c: Pos) -> Pos {
    Pos { x: p.y, y: (c.y + (c.x - p.x)) as i16 }
}

/// `p` turned half about `c`.
pub open spec fn half_turn(p: Pos, c: Pos) -> Pos {
    Pos { x: (c.x + (c.x - p.x)) as i16, y: (c.y + (c.y - p.y)) as i16 }
}

/// Mirroring twice across the same line gives the position back.
pub proof fn law_mirror_twice(p: Pos, line: i16)
    ensures
        in_i16(line + (line - p.y)) ==> mirror_odd(mirror_odd(p, line), line) == p,
        in_i16(line + (line - p.y) + 1) ==> mirror_even(mirror_even(p, line), line) == p,
{
}

/// A quarter turn counter-clockwise undoes a quarter turn clockwise about the same pivot,
/// and four quarter turns clockwise give the position back.
pub proof fn law_quarter_turns(p: Pos, c: Pos)
    requires
        in_i16(c.x + c.y - p.y),
        in_i16(c.x + c.y - p.x),
        in_i16(c.x - c.y + p.y),
        in_i16(c.y - c.x + p.x),
    ensures
        quarter_ccw(quarter_cw(p, c), c) == p,
        quarter_cw(quarter_cw(quarter_cw(quarter_cw(p, c), c), c), c) == p,
{
}

impl Pos {
    pub fn new(x: i16, y: i16) -> (p: Self)
        ensures
            p == (Pos { x, y }),
    {
        Self { x, y }
    }

    /// Mirror image across the row `y_line` (the line runs through a row).
    pub fn reflect_y_odd(&self, y_line: i16) -> (p: Self)
        requires
            in_i16(y_line - self.y),
            in_i16(y_line + (y_line - self.y)),
        ensures
            p == mirror_odd(*self, y_line),
    {
        Self { x: self.x, y: y_line + (y_line - self.y) }
    }

    /// Mirror image across the line between the rows `y_line` and `y_line + 1`.
    pub fn reflect_y_even(&self, y_line: i16) -> (p: Self)
        requires
            in_i16(y_line - self.y),
            in_i16(y_line + (y_line - self.y)),
            in_i16(y_line + (y_line - self.y) + 1),
        ensures
            p == mirror_even(*self, y_line),
    {
        Self { x: self.x, y: y_line + (y_line - self.y) + 1 }
    }

    /// Quarter turn clockwise about `pivot`.
    pub fn rotate_90_cw_odd(&self, pivot: Self) -> (p: Self)
        requires
            in_i16(pivot.y - self.y),
            in_i16(pivot.x + (pivot.y - self.y)),
        ensures
            p == quarter_cw(*self, pivot),
    {
        Self { x: pivot.x + (pivot.y - self.y), y: self.x }
    }

    /// Quarter turn clockwise about `pivot`.
    pub fn rotate_90_cw_even(&self, pivot: Self) -> (p: Self)
        requires
            in_i16(pivot.y - self.y),
            in_i16(pivot.x + (pivot.y - self.y)),
        ensures
            p == quarter_cw(*self, pivot),
    {
        Self { x: pivot.x + (pivot.y - self.y), y: self.x }
    }

    /// Quarter turn counter-clockwise about `pivot`.
    pub fn rotate_90_ccw(&self, pivot: Self) -> (p: Self)
        requires
            in_i16(pivot.x - self.x),
            in_i16(pivot.y + (pivot.x - self.x)),
        ensures
            p == quarter_ccw(*self, pivot),
    {
        Self { x: self.y, y: pivot.y + (pivot.x - self.x) }
    }

    /// Half turn about `pivot`.
    pub fn rotate_180(&self, pivot: Self) -> (p: Self)
        requires
            in_i16(pivot.x - self.x),
            in_i16(pivot.x + (pivot.x - self.x)),
            in_i16(pivot.y - self.y),
            in_i16(pivot.y + (pivot.y - self.y)),
        ensures
            p == half_turn(*self, pivot),
    {
        Self { x: pivot.x + (pivot.x - self.x), y: pivot.y + (pivot.y - self.y) }
    }

    /// The positions of the rectangle that starts at `self` and spans `area`, row by row.
    pub fn iter(&self, area: Self) -> (v: Vec<Pos>)
        requires
            area.x >= 0,
            area.y >= 0,
            in_i16(self.x + area.x),
            in_i16(self.y + area.y),
        ensures
            v@ == area_positions(*self, area),
    {
        let mut v: Vec<Pos> = Vec::new();
        let mut y: i16 = 0;
        while y < area.y
            invariant
                0 <= y <= area.y,
                area.x >= 0,
                in_i16(self.x + area.x),
                in_i16(self.y + area.y),
                v@ =~= area_positions(*self, Pos { x: area.x, y }),
            decreases area.y - y,
        {
            let mut x: i16 = 0;
            while x < area.x
                invariant
                    0 <= x <= area.x,
                    0 <= y < area.y,
                    in_i16(self.x + area.x),
                    in_i16(self.y + area.y),
                    v@ =~= area_positions(*self, Pos { x: area.x, y }) + Seq::new(
                        x as nat,
                        |i: int| Pos { x: (self.x + i) as i16, y: (self.y + y) as i16 },
                    ),
                decreases area.x - x,
            {
                v.push(Pos { x: self.x + x, y: self.y + y });
                x = x + 1;
            }
            proof {
                lemma_area_rows(*self, area.x, y);
            }
            y = y + 1;
        }
        v
    }

    /// Componentwise minimum.
    pub fn min(self, rhs: Self) -> (p: Self)
        ensures
            p.x == (if self.x <= rhs.x { self.x } else { rhs.x }),
            p.y == (if self.y <= rhs.y { self.y } else { rhs.y }),
    {
        Self {
            x: if self.x <= rhs.x { self.x } else { rhs.x },
            y: if self.y <= rhs.y { self.y } else { rhs.y },
        }
    }

    /// Componentwise maximum.
    pub fn max(self, rhs: Self) -> (p: Self)
        ensures
            p.x == (if self.x >= rhs.x { self.x } else { rhs.x }),
            p.y == (if self.y >= rhs.y { self.y } else { rhs.y }),
    {
        Self {
            x: if self.x >= rhs.x { self.x } else { rhs.x },
            y: if self.y >= rhs.y { self.y } else { rhs.y },
        }
    }

    /// Componentwise difference, clamped at the bounds of `i16`.
    pub fn saturating_sub(self, rhs: Self) -> (p: Self)
        ensures
            p.x == clamp_i16(self.x - rhs.x),
            p.y == clamp_i16(self.y - rhs.y),
    {
        Self { x: saturating_sub_i16(self.x, rhs.x), y: saturating_sub_i16(self.y, rhs.y) }
    }

    /// Componentwise sum.
    pub fn add(self, rhs: Self) -> (p: Self)
        requires
            in_i16(self.x + rhs.x),
            in_i16(self.y + rhs.y),
        ensures
            p.x == self.x + rhs.x,
            p.y == self.y + rhs.y,
    {
        Self { x: self.x + rhs.x, y: self.y + rhs.y }
    }

    /// Componentwise difference.
    pub fn sub(self, rhs: Self) -> (p: Self)
        requires
            in_i16(self.x - rhs.x),
            in_i16(self.y - rhs.y),
        ensures
            p.x == self.x - rhs.x,
            p.y == self.y - rhs.y,
    {
        Self { x: self.x - rhs.x, y: self.y - rhs.y }
    }

    /// Componentwise division, rounding toward zero.
    pub fn div(self, rhs: i16) -> (p: Self)
        requires
            rhs != 0,
            !(rhs == -1 && (self.x == i16::MIN || self.y == i16::MIN)),
        ensures
            p.x == div_toward_zero(self.x as int, rhs as int),
            p.y == div_toward_zero(self.y as int, rhs as int),
    {
        Self { x: div_i16(self.x, rhs), y: div_i16(self.y, rhs) }
    }
}

/// `a / b` rounded toward zero, as Rust's integer division does.
pub open spec fn div_toward_zero(a: int, b: int) -> int {
    let q = abs(a) / abs(b);
    if (a < 0) != (b < 0) {
        -q
    } else {
        q
    }
}

/// The absolute value of `a`.
pub open spec fn abs(a: int) -> int {
    if a < 0 {
        -a
    } else {
        a
    }
}

pub fn div_i16(a: i16, b: i16) -> (r: i16)
    requires
        b != 0,
        !(b == -1 && a == i16::MIN),
    ensures
        r == div_toward_zero(a as int, b as int),
{
    let aa: i32 = if a < 0 {
        -(a as i32)
    } else {
        a as i32
    };
    let ab: i32 = if b < 0 {
        -(b as i32)
    } else {
        b as i32
    };
    let q: i32 = aa / ab;
    assert(q <= aa) by (nonlinear_arith)
        requires
            aa >= 0,
            ab >= 1,
            q == aa / ab,
    ;
    assert(ab >= 2 ==> q <= aa / 2) by (nonlinear_arith)
        requires
            aa >= 0,
            ab >= 1,
            q == aa / ab,
    ;
    assert(q >= 0) by (nonlinear_arith)
        requires
            aa >= 0,
            ab >= 1,
            q == aa / ab,
    ;
    if (a < 0) != (b < 0) {
        (-q) as i16
    } else {
        q as i16
    }
}

proof fn lemma_area_rows(start: Pos, w: i16, y: i16)
    requires
        w >= 0,
        0 <= y < i16::MAX,
    ensures
        area_positions(start, Pos { x: w, y }) + Seq::new(
            w as nat,
            |i: int| Pos { x: (start.x + i) as i16, y: (start.y + y) as i16 },
        ) =~= area_positions(start, Pos { x: w, y: (y + 1) as i16 }),
{
    let a = area_positions(start, Pos { x: w, y });
    let r = Seq::new(w as nat, |i: int| Pos { x: (start.x + i) as i16, y: (start.y + y) as i16 });
    let b = area_positions(start, Pos { x: w, y: (y + 1) as i16 });
    let wy = w * y;
    assert(w * (y + 1) == wy + w) by (nonlinear_arith)
        requires
            wy == w * y,
    ;
    assert(wy >= 0) by (nonlinear_arith)
        requires
            w >= 0,
            y >= 0,
            wy == w * y,
    ;
    assert(a.len() == wy);
    assert(b.len() == wy + w);
    assert forall|i: int| 0 <= i < b.len() implies #[trigger] b[i] == (a + r)[i] by {
        if i < wy {
            assert(w > 0) by (nonlinear_arith)
                requires
                    0 <= i < wy,
                    wy == w * y,
                    y >= 0,
            ;
        } else {
            let j = i - wy;
            assert(0 <= j < w);
            assert(i % (w as int) == j && i / (w as int) == y as int) by (nonlinear_arith)
                requires
                    i == wy + j,
                    wy == w * y,
                    0 <= j < w,
            ;
        }
    }
}


/// The positions of a rectangle from a position with no negative coordinate have none.
pub proof fn lemma_area_nonneg(start: Pos, area: Pos)
    requires
        area.x >= 0,
        area.y >= 0,
        in_i16(start.x + area.x),
        in_i16(start.y + area.y),
    ensures
        area.x > 0 && area.y > 0 && start.x >= 0 && start.y >= 0 ==> forall|k: int|
            0 <= k < area_positions(start, area).len() ==> (#[trigger] area_positions(start, area)[k]).x >= 0
                && area_positions(start, area)[k].y >= 0,
        area.x == 0 || area.y == 0 ==> area_positions(start, area).len() == 0,
{
    if area.x > 0 && area.y > 0 && start.x >= 0 && start.y >= 0 {
        assert forall|k: int| 0 <= k < area_positions(start, area).len() implies (#[trigger] area_positions(start, area)[k]).x >= 0
            && area_positions(start, area)[k].y >= 0 by {
            assert(0 <= k % (area.x as int) < area.x);
            assert(k / (area.x as int) >= 0) by (nonlinear_arith)
                requires
                    k >= 0,
                    area.x > 0,
            ;
            assert(k / (area.x as int) < area.y) by (nonlinear_arith)
                requires
                    0 <= k < area.x * area.y,
                    area.x > 0,
            ;
        }
    }
    if area.x == 0 || area.y == 0 {
        assert(area.x * area.y == 0) by (nonlinear_arith)
            requires
                area.x == 0 || area.y == 0,
        ;
    }
}

} // verus!

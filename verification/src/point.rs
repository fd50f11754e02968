use vstd::prelude::*;
use vstd::string::StringSliceAdditionalSpecFns;

verus! {

/// Grid steps per one coordinate unit. A coordinate value `c` stands for
/// the real coordinate `c / SCALE`; the grid step `1 / SCALE` is exactly
/// the tolerance under which two coordinates count as equal, so equality
/// of points is plain equality of their fixed-point coordinates.
pub const SCALE: i64 = 100_000;

/// Every coordinate handled by the engine lies in
/// `[-COORD_LIMIT, COORD_LIMIT]` (ten thousand coordinate units each way).
/// The bound keeps every squared distance within `u64` and every total
/// squared error within `u128`, whatever the number of points.
pub const COORD_LIMIT: i64 = 1_000_000_000;

/// Largest squared distance between two in-range points:
/// `8 * COORD_LIMIT * COORD_LIMIT` (two axes, each difference at most
/// `2 * COORD_LIMIT`).
pub const MAX_SQ_ERROR: u64 = 8_000_000_000_000_000_000;

/// An immutable 2D coordinate pair on the fixed-point grid.
#[derive(Clone, Copy, PartialEq, Eq, Structural, Hash, Debug)]
pub struct Point {
    pub x: i64,
    pub y: i64,
}

/// A cluster representative: a position paired with a stable identity.
/// The identity is given once at initialization and never changes; only
/// the position moves across iterations.
#[derive(Clone, Copy, PartialEq, Eq, Structural, Hash, Debug)]
pub struct Centroid {
    pub p: Point,
    pub id: usize,
}

/// `p` lies within the half-open rectangle
/// `[lower.x, upper.x) x [lower.y, upper.y)`.
pub open spec fn point_in_bounds(p: Point, lower: Point, upper: Point) -> bool {
    &&& lower.x <= p.x < upper.x
    &&& lower.y <= p.y < upper.y
}

impl Point {
    /// Both coordinates lie within the engine's coordinate bound.
    pub open spec fn in_range(self) -> bool {
        &&& -COORD_LIMIT <= self.x <= COORD_LIMIT
        &&& -COORD_LIMIT <= self.y <= COORD_LIMIT
    }

    /// Squared Euclidean distance between two points (no square root).
    pub open spec fn spec_sum_squared_error(self, other: Point) -> int {
        (self.x - other.x) * (self.x - other.x) + (self.y - other.y) * (self.y - other.y)
    }

    /// Squared Euclidean distance, `dx * dx + dy * dy`.
    pub fn sum_squared_error(&self, other: &Self) -> (r: u64)
        requires
            self.in_range(),
            other.in_range(),
        ensures
            r == self.spec_sum_squared_error(*other),
    {
        let dx: i64 = self.x - other.x;
        let dy: i64 = self.y - other.y;
        proof {
            assert(0 <= dx * dx <= 4_000_000_000_000_000_000) by (nonlinear_arith)
                requires -2_000_000_000 <= dx <= 2_000_000_000;
            assert(0 <= dy * dy <= 4_000_000_000_000_000_000) by (nonlinear_arith)
                requires -2_000_000_000 <= dy <= 2_000_000_000;
        }
        let sq: i128 = (dx as i128) * (dx as i128) + (dy as i128) * (dy as i128);
        sq as u64
    }
}

/// Why a coordinate string was rejected: it does not match the plain
/// decimal form `x,y`, or a coordinate lies outside the representable
/// range.
#[derive(Clone, Copy, PartialEq, Eq, Structural, Debug)]
pub enum ParsePointError {
    Malformed,
    OutOfRange,
}

/// ASCII code of the comma separating the two coordinates.
pub const COMMA: u8 = 44;

/// ASCII code of the minus sign.
pub const MINUS: u8 = 45;

/// ASCII code of the decimal dot.
pub const DOT: u8 = 46;

/// ASCII code of the digit zero.
pub const DIGIT_ZERO: u8 = 48;

/// ASCII code of the digit nine.
pub const DIGIT_NINE: u8 = 57;

/// An ASCII decimal digit.
pub open spec fn is_ascii_digit(b: u8) -> bool {
    DIGIT_ZERO <= b <= DIGIT_NINE
}

/// Every byte of the sequence is an ASCII decimal digit.
pub open spec fn all_ascii_digits(s: Seq<u8>) -> bool {
    forall|i: int| 0 <= i < s.len() ==> is_ascii_digit(#[trigger] s[i])
}

/// Index of the first occurrence of `target` in `s`, or `s.len()` when
/// it does not occur.
pub open spec fn first_byte_at(s: Seq<u8>, target: u8) -> int
    decreases s.len(),
{
    if s.len() == 0 {
        0
    } else if s[0] == target {
        0
    } else {
        1 + first_byte_at(s.skip(1), target)
    }
}

/// `first_byte_at` points at the first occurrence: it is in range,
/// nothing before it matches, and it matches unless nothing does.
pub proof fn lemma_first_byte_at_props(s: Seq<u8>, target: u8)
    ensures
        0 <= first_byte_at(s, target) <= s.len(),
        first_byte_at(s, target) < s.len() ==> s[first_byte_at(s, target)] == target,
        forall|t: int| 0 <= t < first_byte_at(s, target) ==> s[t] != target,
    decreases s.len(),
{
    if s.len() > 0 && s[0] != target {
        lemma_first_byte_at_props(s.skip(1), target);
        assert forall|t: int| 0 <= t < first_byte_at(s, target) implies s[t] != target by {
            if t > 0 {
                assert(s.skip(1)[t - 1] == s[t]);
            }
        }
    }
}

/// A position with no earlier occurrence, holding `target` or past the
/// end, is exactly `first_byte_at`.
pub proof fn lemma_first_byte_at_from(s: Seq<u8>, target: u8, m: int)
    requires
        0 <= m <= s.len(),
        forall|t: int| 0 <= t < m ==> s[t] != target,
        m == s.len() || s[m] == target,
    ensures
        first_byte_at(s, target) == m,
{
    lemma_first_byte_at_props(s, target);
    let f = first_byte_at(s, target);
    if f < m {
        assert(s[f] == target);
    }
    if m < f {
        assert(s[m] != target);
    }
}

/// The number written by a digit sequence, most significant digit
/// first; an empty sequence writes zero.
pub open spec fn digits_value(s: Seq<u8>) -> int
    decreases s.len(),
{
    if s.len() == 0 {
        0
    } else {
        digits_value(s.drop_last()) * 10 + (s.last() - DIGIT_ZERO)
    }
}

/// Ten to the `n`th power (one for `n <= 0`).
pub open spec fn pow10(n: int) -> int
    decreases n,
{
    if n <= 0 {
        1
    } else {
        10 * pow10(n - 1)
    }
}

/// Powers of ten are positive.
pub proof fn lemma_pow10_pos(n: int)
    ensures
        pow10(n) >= 1,
    decreases n,
{
    if n > 0 {
        lemma_pow10_pos(n - 1);
    }
}

/// A digit sequence writes a number in `[0, pow10(len))`.
pub proof fn lemma_digits_value_bounds(s: Seq<u8>)
    requires
        all_ascii_digits(s),
    ensures
        0 <= digits_value(s) < pow10(s.len() as int),
    decreases s.len(),
{
    lemma_pow10_pos(s.len() as int);
    if s.len() > 0 {
        assert(all_ascii_digits(s.drop_last()));
        lemma_digits_value_bounds(s.drop_last());
        assert(s.last() == s[s.len() - 1]);
        assert(is_ascii_digit(s[s.len() - 1]));
    }
}

/// The coordinate has a leading minus sign.
pub open spec fn coord_is_negative(c: Seq<u8>) -> bool {
    c.len() > 0 && c[0] == MINUS
}

/// The coordinate without its sign.
pub open spec fn coord_body(c: Seq<u8>) -> Seq<u8> {
    if coord_is_negative(c) {
        c.skip(1)
    } else {
        c
    }
}

/// An unsigned decimal coordinate: one or more digits, optionally
/// followed by a dot and further digits (`12`, `12.`, `12.5`).
pub open spec fn valid_coord_body(d: Seq<u8>) -> bool {
    let dot = first_byte_at(d, DOT);
    &&& dot >= 1
    &&& all_ascii_digits(d.take(dot))
    &&& (dot < d.len() ==> all_ascii_digits(d.skip(dot + 1)))
}

/// The number an unsigned decimal coordinate writes, in grid steps:
/// the integer part scaled by `SCALE` plus the first five fraction
/// digits; fraction digits beyond the grid resolution are dropped.
pub open spec fn coord_body_value(d: Seq<u8>) -> int {
    let dot = first_byte_at(d, DOT);
    let frac = if dot < d.len() {
        d.skip(dot + 1)
    } else {
        Seq::<u8>::empty()
    };
    digits_value(d.take(dot)) * SCALE + frac_scaled(frac)
}

/// The grid steps written by a fraction-digit sequence: its first five
/// digits, padded with zeros to the grid resolution.
pub open spec fn frac_scaled(fp: Seq<u8>) -> int {
    let f5 = if fp.len() > 5 {
        fp.take(5)
    } else {
        fp
    };
    digits_value(f5) * pow10(5 - f5.len())
}

/// A signed decimal coordinate.
pub open spec fn valid_coord(c: Seq<u8>) -> bool {
    valid_coord_body(coord_body(c))
}

/// The signed number a decimal coordinate writes, in grid steps.
pub open spec fn coord_value(c: Seq<u8>) -> int {
    if coord_is_negative(c) {
        -coord_body_value(coord_body(c))
    } else {
        coord_body_value(coord_body(c))
    }
}

/// Powers of ten up to the grid resolution stay within it.
proof fn lemma_pow10_le5(n: int)
    requires
        0 <= n <= 5,
    ensures
        1 <= pow10(n) <= 100000,
{
    reveal_with_fuel(pow10, 7);
}

/// Parse the decimal coordinate written in `b[start..end]` into grid
/// steps, rejecting anything but an optionally signed plain decimal
/// (`Malformed`) and any value beyond the coordinate bound
/// (`OutOfRange`).
fn parse_coord(b: &[u8], start: usize, end: usize) -> (r: Result<i64, ParsePointError>)
    requires
        start <= end <= b@.len(),
    ensures
        ({
            let c = b@.subrange(start as int, end as int);
            &&& (r is Ok <==> valid_coord(c) && -COORD_LIMIT <= coord_value(c) <= COORD_LIMIT)
            &&& (r is Ok ==> r->Ok_0 == coord_value(c))
            &&& (!valid_coord(c) ==> r == Result::<i64, ParsePointError>::Err(
                ParsePointError::Malformed,
            ))
            &&& (valid_coord(c) && !(-COORD_LIMIT <= coord_value(c) <= COORD_LIMIT) ==> r
                == Result::<i64, ParsePointError>::Err(ParsePointError::OutOfRange))
        }),
{
    let ghost c = b@.subrange(start as int, end as int);
    let mut i = start;
    let mut neg = false;
    if i < end && b[i] == MINUS {
        neg = true;
        i = i + 1;
    }
    let sd = i;
    let ghost d = coord_body(c);
    proof {
        assert(coord_is_negative(c) == neg);
        assert(d =~= b@.subrange(sd as int, end as int));
    }

    // Integer part: the running value is clamped just past the
    // coordinate bound, so it stays exact whenever the coordinate can
    // still be accepted.
    let mut ip: u128 = 0;
    while i < end && b[i] != DOT
        invariant
            start <= sd <= i <= end <= b@.len(),
            d == b@.subrange(sd as int, end as int),
            c == b@.subrange(start as int, end as int),
            d == coord_body(c),
            neg == coord_is_negative(c),
            all_ascii_digits(d.take(i - sd)),
            ip <= COORD_LIMIT as u128 + 1,
            ip <= COORD_LIMIT as u128 ==> ip == digits_value(d.take(i - sd)),
            ip > COORD_LIMIT as u128 ==> digits_value(d.take(i - sd)) > COORD_LIMIT,
        decreases end - i,
    {
        let byte = b[i];
        let ghost pos = i - sd;
        if !(DIGIT_ZERO <= byte && byte <= DIGIT_NINE) {
            proof {
                lemma_first_byte_at_props(d, DOT);
                let fd = first_byte_at(d, DOT);
                assert(fd > pos) by {
                    if fd <= pos {
                        if fd < pos {
                            assert(is_ascii_digit(d.take(pos)[fd]));
                        }
                    }
                }
                assert(d.take(fd)[pos] == d[pos]);
                assert(!is_ascii_digit(d[pos]));
            }
            return Err(ParsePointError::Malformed);
        }
        let dig = (byte - DIGIT_ZERO) as u128;
        let nv = ip * 10 + dig;
        proof {
            assert(d.take(pos + 1).drop_last() == d.take(pos));
            assert(d.take(pos + 1).last() == d[pos]);
            lemma_digits_value_bounds(d.take(pos));
        }
        if nv > COORD_LIMIT as u128 {
            ip = COORD_LIMIT as u128 + 1;
        } else {
            ip = nv;
        }
        i = i + 1;
    }

    if i == sd {
        proof {
            if d.len() > 0 {
                lemma_first_byte_at_from(d, DOT, 0);
            }
        }
        return Err(ParsePointError::Malformed);
    }

    let ghost fd = i - sd;
    proof {
        assert forall|t: int| 0 <= t < fd implies d[t] != DOT by {
            assert(is_ascii_digit(d.take(fd)[t]));
        }
        lemma_first_byte_at_from(d, DOT, fd);
    }

    // Fraction part: only the first five digits carry grid steps; the
    // rest must still be digits, but fall below the grid resolution.
    let mut frac: u64 = 0;
    let mut cnt: usize = 0;
    let ghost fp = if fd < d.len() {
        d.skip(fd + 1)
    } else {
        Seq::<u8>::empty()
    };
    if i < end {
        i = i + 1;
        let fs = i;
        proof {
            assert(fp =~= b@.subrange(fs as int, end as int));
        }
        while i < end
            invariant
                start <= sd < fs <= i <= end <= b@.len(),
                d == b@.subrange(sd as int, end as int),
                c == b@.subrange(start as int, end as int),
                d == coord_body(c),
                neg == coord_is_negative(c),
                fd == fs - sd - 1,
                1 <= fd < d.len(),
                fd == first_byte_at(d, DOT),
                all_ascii_digits(d.take(fd)),
                fp == d.skip(fd + 1),
                fp == b@.subrange(fs as int, end as int),
                fp.len() == end - fs,
                all_ascii_digits(fp.take(i - fs)),
                i - fs > 5 ==> cnt == 5,
                i - fs <= 5 ==> cnt == i - fs,
                frac == digits_value(fp.take(cnt as int)),
                frac < 100000,
            decreases end - i,
        {
            let byte = b[i];
            let ghost pos = i - fs;
            if !(DIGIT_ZERO <= byte && byte <= DIGIT_NINE) {
                proof {
                    assert(fp[pos] == b@[i as int]);
                    assert(!is_ascii_digit(fp[pos]));
                }
                return Err(ParsePointError::Malformed);
            }
            if cnt < 5 {
                proof {
                    assert(fp.take(cnt + 1).drop_last() == fp.take(cnt as int));
                    assert(fp.take(cnt + 1).last() == fp[cnt as int]);
                    lemma_digits_value_bounds(fp.take(cnt as int));
                    lemma_pow10_le5(cnt as int);
                }
                frac = frac * 10 + ((byte - DIGIT_ZERO) as u64);
                cnt = cnt + 1;
                proof {
                    lemma_digits_value_bounds(fp.take(cnt as int));
                    lemma_pow10_le5(cnt as int);
                }
            }
            i = i + 1;
        }
    }

    proof {
        if fd < d.len() {
            assert(fp.take(fp.len() as int) == fp);
        }
        assert(valid_coord_body(d));
    }

    let mult: u64 = if cnt == 0 {
        100000
    } else if cnt == 1 {
        10000
    } else if cnt == 2 {
        1000
    } else if cnt == 3 {
        100
    } else if cnt == 4 {
        10
    } else {
        1
    };
    proof {
        reveal_with_fuel(pow10, 7);
        assert(mult == pow10(5 - cnt));
    }

    let total: u128 = ip * (SCALE as u128) + (frac as u128) * (mult as u128);
    proof {
        let f5 = if fp.len() > 5 {
            fp.take(5)
        } else {
            fp
        };
        assert(f5 == fp.take(cnt as int));
        assert(frac_scaled(fp) == frac * mult);
        if ip <= COORD_LIMIT as u128 {
            assert(coord_body_value(d) == total);
        } else {
            lemma_digits_value_bounds(fp.take(cnt as int));
            lemma_pow10_le5((5 - cnt) as int);
            vstd::arithmetic::mul::lemma_mul_nonnegative(
                digits_value(fp.take(cnt as int)),
                pow10(5 - cnt),
            );
            assert(coord_body_value(d) > COORD_LIMIT);
        }
    }
    if total > COORD_LIMIT as u128 {
        return Err(ParsePointError::OutOfRange);
    }
    let mag = total as i64;
    if neg {
        Ok(-mag)
    } else {
        Ok(mag)
    }
}

impl Point {
    /// Parse raw input of the form `"11,22.3"` — two plain decimal
    /// coordinates separated by the first comma; text after a second
    /// comma is ignored. Each coordinate must fit the fixed-point grid's
    /// coordinate bound.
    pub fn from_str(s: &str) -> (r: Result<Point, ParsePointError>)
        ensures
            ({
                let b = s.spec_bytes();
                let c1 = first_byte_at(b, COMMA);
                let xpart = b.take(c1);
                let rest = b.skip(c1 + 1);
                let ypart = rest.take(first_byte_at(rest, COMMA));
                let x_shape = valid_coord(xpart);
                let x_lim = -COORD_LIMIT <= coord_value(xpart) <= COORD_LIMIT;
                let y_shape = valid_coord(ypart);
                let y_lim = -COORD_LIMIT <= coord_value(ypart) <= COORD_LIMIT;
                &&& (r is Ok <==> c1 < b.len() && x_shape && x_lim && y_shape && y_lim)
                &&& (r is Ok ==> (r->Ok_0).x == coord_value(xpart) && (r->Ok_0).y == coord_value(
                    ypart,
                ) && (r->Ok_0).in_range())
                &&& (c1 == b.len() ==> r == Result::<Point, ParsePointError>::Err(
                    ParsePointError::Malformed,
                ))
                &&& (c1 < b.len() && !x_shape ==> r == Result::<Point, ParsePointError>::Err(
                    ParsePointError::Malformed,
                ))
                &&& (c1 < b.len() && x_shape && !x_lim ==> r == Result::<
                    Point,
                    ParsePointError,
                >::Err(ParsePointError::OutOfRange))
                &&& (c1 < b.len() && x_shape && x_lim && !y_shape ==> r == Result::<
                    Point,
                    ParsePointError,
                >::Err(ParsePointError::Malformed))
                &&& (c1 < b.len() && x_shape && x_lim && y_shape && !y_lim ==> r == Result::<
                    Point,
                    ParsePointError,
                >::Err(ParsePointError::OutOfRange))
            }),
    {
        let b = s.as_bytes();
        let n = b.len();

        let mut c1: usize = 0;
        while c1 < n && b[c1] != COMMA
            invariant
                c1 <= n == b@.len(),
                forall|t: int| 0 <= t < c1 ==> b@[t] != COMMA,
            decreases n - c1,
        {
            c1 = c1 + 1;
        }
        proof {
            lemma_first_byte_at_from(b@, COMMA, c1 as int);
        }
        if c1 == n {
            return Err(ParsePointError::Malformed);
        }

        let mut c2: usize = c1 + 1;
        while c2 < n && b[c2] != COMMA
            invariant
                c1 + 1 <= c2 <= n == b@.len(),
                forall|t: int| c1 + 1 <= t < c2 ==> b@[t] != COMMA,
            decreases n - c2,
        {
            c2 = c2 + 1;
        }
        let ghost rest = b@.skip(c1 + 1);
        proof {
            assert forall|t: int| 0 <= t < c2 - c1 - 1 implies rest[t] != COMMA by {
                assert(rest[t] == b@[c1 + 1 + t]);
            }
            if c2 < n {
                assert(rest[c2 - c1 - 1] == b@[c2 as int]);
            }
            lemma_first_byte_at_from(rest, COMMA, c2 - c1 - 1);
            assert(b@.take(c1 as int) =~= b@.subrange(0, c1 as int));
            assert(rest.take(c2 - c1 - 1) =~= b@.subrange(c1 + 1, c2 as int));
        }

        let x = match parse_coord(b, 0, c1) {
            Ok(v) => v,
            Err(e) => {
                return Err(e);
            },
        };
        let y = match parse_coord(b, c1 + 1, c2) {
            Ok(v) => v,
            Err(e) => {
                return Err(e);
            },
        };
        Ok(Point { x, y })
    }
}

/// The squared distance between two in-range points is non-negative and
/// at most `MAX_SQ_ERROR`.
pub proof fn lemma_sum_squared_error_bounds(a: Point, b: Point)
    requires
        a.in_range(),
        b.in_range(),
    ensures
        0 <= a.spec_sum_squared_error(b) <= MAX_SQ_ERROR,
{
    let dx = a.x - b.x;
    let dy = a.y - b.y;
    assert(0 <= dx * dx <= 4_000_000_000_000_000_000) by (nonlinear_arith)
        requires -2_000_000_000 <= dx <= 2_000_000_000;
    assert(0 <= dy * dy <= 4_000_000_000_000_000_000) by (nonlinear_arith)
        requires -2_000_000_000 <= dy <= 2_000_000_000;
}

} // verus!

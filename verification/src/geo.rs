//! Geographic primitives: scalar degree values, coordinates, bounding
//! boxes, containment, box centers and a planar distance measure.
//!
//! A degree value is held in millionths of a degree. Values that carry no
//! usable position (the analogue of NaN or infinite readings) are modelled
//! by an explicit `NonFinite` variant; they are invalid but must never make
//! a computation fail — containment treats them as "contained nowhere" and
//! distances involving them rank after every finite distance.

use vstd::prelude::*;

use crate::error::ParameterError;
use crate::text::{comma_fields, split_commas};

verus! {

/// Millionths of a degree per degree.
pub const MICRO_PER_DEGREE: i64 = 1_000_000;

/// One geographic scalar (a latitude or a longitude), in millionths of a
/// degree, or the marker for a non-finite reading.
#[derive(Clone, Copy, Debug, PartialEq, Eq, Structural)]
pub enum Degrees {
    Finite(i64),
    NonFinite,
}

impl Degrees {
    /// Whether this value carries a usable position.
    pub open spec fn is_finite(self) -> bool {
        self is Finite
    }

    /// The value in millionths of a degree; meaningful only for finite values.
    pub open spec fn micro(self) -> int {
        match self {
            Degrees::Finite(m) => m as int,
            Degrees::NonFinite => 0,
        }
    }

    /// Executable finiteness test.
    pub fn finite(&self) -> (r: bool)
        ensures
            r == self.is_finite(),
    {
        match self {
            Degrees::Finite(_) => true,
            Degrees::NonFinite => false,
        }
    }
}

/// An integer clamped into the `i64` range.
pub open spec fn clamp_i64(x: int) -> int {
    if x < i64::MIN {
        i64::MIN as int
    } else if x > i64::MAX {
        i64::MAX as int
    } else {
        x
    }
}

/// A finite degree value shifted by `d` millionths, clamped at the numeric
/// limits; a non-finite value stays non-finite.
pub open spec fn deg_shifted(a: Degrees, d: int) -> Degrees {
    match a {
        Degrees::Finite(m) => Degrees::Finite(clamp_i64(m + d) as i64),
        Degrees::NonFinite => Degrees::NonFinite,
    }
}

/// Shift a degree value up by `d` millionths of a degree (saturating).
pub fn deg_add_micro(a: Degrees, d: i64) -> (r: Degrees)
    requires
        d >= 0,
    ensures
        r == deg_shifted(a, d as int),
{
    match a {
        Degrees::Finite(m) => match m.checked_add(d) {
            Some(s) => Degrees::Finite(s),
            None => Degrees::Finite(i64::MAX),
        },
        Degrees::NonFinite => Degrees::NonFinite,
    }
}

/// Shift a degree value down by `d` millionths of a degree (saturating).
pub fn deg_sub_micro(a: Degrees, d: i64) -> (r: Degrees)
    requires
        d >= 0,
    ensures
        r == deg_shifted(a, -(d as int)),
{
    match a {
        Degrees::Finite(m) => match m.checked_sub(d) {
            Some(s) => Degrees::Finite(s),
            None => Degrees::Finite(i64::MIN),
        },
        Degrees::NonFinite => Degrees::NonFinite,
    }
}

/// A geographic position.
#[derive(Clone, Copy, Debug, PartialEq, Eq, Structural)]
pub struct Coordinate {
    pub lat: Degrees,
    pub lng: Degrees,
}

impl Coordinate {
    /// Whether both components carry a usable position.
    pub open spec fn is_finite(self) -> bool {
        self.lat.is_finite() && self.lng.is_finite()
    }

    /// Executable finiteness test.
    pub fn finite(&self) -> (r: bool)
        ensures
            r == self.is_finite(),
    {
        self.lat.finite() && self.lng.finite()
    }
}

/// A rectangular region given by its south-west and north-east corners.
/// The expected orientation (south_west <= north_east on both axes) is not
/// enforced: containment must simply be robust to malformed boxes.
#[derive(Clone, Copy, Debug, PartialEq, Eq, Structural)]
pub struct Bbox {
    pub south_west: Coordinate,
    pub north_east: Coordinate,
}

impl Bbox {
    /// Whether all four corner scalars carry usable positions.
    pub open spec fn is_finite(self) -> bool {
        self.south_west.is_finite() && self.north_east.is_finite()
    }
}

/// Containment: a position lies in a box iff the position and all box
/// corners are finite and the position is between the corners on both axes.
pub open spec fn in_bbox_spec(lat: Degrees, lng: Degrees, bbox: Bbox) -> bool {
    &&& lat.is_finite()
    &&& lng.is_finite()
    &&& bbox.is_finite()
    &&& bbox.south_west.lat.micro() <= lat.micro() <= bbox.north_east.lat.micro()
    &&& bbox.south_west.lng.micro() <= lng.micro() <= bbox.north_east.lng.micro()
}

/// Whether the position `(lat, lng)` lies inside `bbox`; `false` whenever
/// the position or a box corner is non-finite.
pub fn is_in_bbox(lat: &Degrees, lng: &Degrees, bbox: &Bbox) -> (r: bool)
    ensures
        r == in_bbox_spec(*lat, *lng, *bbox),
{
    match (*lat, *lng) {
        (Degrees::Finite(la), Degrees::Finite(ln)) => match (
            bbox.south_west.lat,
            bbox.south_west.lng,
            bbox.north_east.lat,
            bbox.north_east.lng,
        ) {
            (
                Degrees::Finite(sw_lat),
                Degrees::Finite(sw_lng),
                Degrees::Finite(ne_lat),
                Degrees::Finite(ne_lng),
            ) => sw_lat <= la && la <= ne_lat && sw_lng <= ln && ln <= ne_lng,
            _ => false,
        },
        _ => false,
    }
}

/// The mean of two finite degree values, rounded toward zero; non-finite
/// as soon as either input is.
pub open spec fn deg_mid(a: Degrees, b: Degrees) -> Degrees {
    if a.is_finite() && b.is_finite() {
        Degrees::Finite(div2_toward_zero(a.micro() + b.micro()) as i64)
    } else {
        Degrees::NonFinite
    }
}

/// Halving with truncation toward zero.
pub open spec fn div2_toward_zero(s: int) -> int {
    if s >= 0 {
        s / 2
    } else {
        -((-s) / 2)
    }
}

fn deg_mid_exec(a: Degrees, b: Degrees) -> (r: Degrees)
    ensures
        r == deg_mid(a, b),
{
    match (a, b) {
        (Degrees::Finite(ma), Degrees::Finite(mb)) => {
            let s: i128 = ma as i128 + mb as i128;
            let h: i128 = if s >= 0 {
                s / 2
            } else {
                -((-s) / 2)
            };
            Degrees::Finite(h as i64)
        },
        _ => Degrees::NonFinite,
    }
}

/// The midpoint of a box given by its two corners (componentwise mean; a
/// simple average, acceptable for small boxes).
pub open spec fn center_spec(sw: Coordinate, ne: Coordinate) -> Coordinate {
    Coordinate { lat: deg_mid(sw.lat, ne.lat), lng: deg_mid(sw.lng, ne.lng) }
}

/// The center of the box spanned by `sw` and `ne`.
pub fn center(sw: &Coordinate, ne: &Coordinate) -> (r: Coordinate)
    ensures
        r == center_spec(*sw, *ne),
{
    Coordinate { lat: deg_mid_exec(sw.lat, ne.lat), lng: deg_mid_exec(sw.lng, ne.lng) }
}

/// A relative distance between two positions: the squared planar
/// separation in millionths of a degree, or the marker that at least one
/// position was non-finite. Squared separation orders positions exactly as
/// the planar distance does.
#[derive(Clone, Copy, Debug, PartialEq, Eq, Structural)]
pub enum Distance {
    Finite(u128),
    NonFinite,
}

/// A difference squared, as a mathematical integer.
pub open spec fn sq(d: int) -> int {
    d * d
}

/// The squared planar separation of two coordinates, clamped at the
/// numeric limit; non-finite as soon as any component is.
pub open spec fn distance_spec(a: Coordinate, b: Coordinate) -> Distance {
    if a.is_finite() && b.is_finite() {
        Distance::Finite(
            clamp_u128(sq(a.lat.micro() - b.lat.micro()) + sq(a.lng.micro() - b.lng.micro()))
                as u128,
        )
    } else {
        Distance::NonFinite
    }
}

/// An integer clamped into the `u128` range.
pub open spec fn clamp_u128(x: int) -> int {
    if x > u128::MAX {
        u128::MAX as int
    } else if x < 0 {
        0
    } else {
        x
    }
}

/// An ASCII decimal digit.
pub open spec fn is_digit(c: char) -> bool {
    '0' as u32 <= c as u32 <= '9' as u32
}

/// The value of a decimal digit.
pub open spec fn digit_val(c: char) -> int {
    c as u32 - '0' as u32
}

/// Every character is a decimal digit.
pub open spec fn all_digits(s: Seq<char>) -> bool {
    forall|i: int| 0 <= i < s.len() ==> is_digit(#[trigger] s[i])
}

/// The number the digit run spells, most significant first.
pub open spec fn digits_val(s: Seq<char>) -> int
    decreases s.len(),
{
    if s.len() == 0 {
        0
    } else {
        digits_val(s.drop_last()) * 10 + digit_val(s.last())
    }
}

/// Ten to the `n`.
pub open spec fn pow10(n: int) -> int
    decreases n,
{
    if n <= 0 {
        1
    } else {
        10 * pow10(n - 1)
    }
}

proof fn lemma_pow10_pos(n: int)
    ensures
        pow10(n) >= 1,
    decreases n,
{
    if n > 0 {
        lemma_pow10_pos(n - 1);
    }
}

proof fn lemma_pow10_mono(a: int, b: int)
    requires
        a <= b,
    ensures
        pow10(a) <= pow10(b),
        pow10(a) >= 1,
    decreases b - a,
{
    lemma_pow10_pos(a);
    if a < b {
        lemma_pow10_mono(a, b - 1);
        lemma_pow10_pos(b - 1);
    }
}

/// A digit run of length `n` spells a number below ten to the `n`.
proof fn lemma_digits_val_bound(s: Seq<char>)
    requires
        all_digits(s),
    ensures
        0 <= digits_val(s) < pow10(s.len() as int),
    decreases s.len(),
{
    if s.len() > 0 {
        assert(all_digits(s.drop_last()));
        lemma_digits_val_bound(s.drop_last());
        assert(is_digit(s.last()) && 0 <= digit_val(s.last()) <= 9);
    }
}

/// Where the leading digit run of `s` ends, scanning from `i`.
pub open spec fn digit_prefix_end(s: Seq<char>, i: int) -> int
    decreases s.len() - i,
{
    if i < 0 || i >= s.len() || !is_digit(s[i]) {
        i
    } else {
        digit_prefix_end(s, i + 1)
    }
}

/// The value, in millionths, of the fraction digits `frac`; digits past
/// the sixth carry nothing.
pub open spec fn frac_micro(frac: Seq<char>) -> int {
    if frac.len() <= 6 {
        digits_val(frac) * pow10(6 - frac.len())
    } else {
        digits_val(frac.take(6))
    }
}

/// An unsigned decimal number of the bounding-box wire format, in
/// millionths: a digit run (at most nine digits), optionally followed by
/// a point and further digits, with at least one digit in all. Anything
/// else carries no value.
pub open spec fn parse_unsigned_micro(s: Seq<char>) -> Option<int> {
    let ip = digit_prefix_end(s, 0);
    if ip > 9 {
        Option::None
    } else if ip == s.len() {
        if s.len() > 0 {
            Option::Some(digits_val(s) * 1_000_000)
        } else {
            Option::None
        }
    } else if s[ip] == '.' {
        let frac = s.skip(ip + 1);
        if all_digits(frac) && (ip > 0 || frac.len() > 0) {
            Option::Some(digits_val(s.take(ip)) * 1_000_000 + frac_micro(frac))
        } else {
            Option::None
        }
    } else {
        Option::None
    }
}

/// A signed decimal number of the wire format, in millionths.
pub open spec fn parse_micro(s: Seq<char>) -> Option<int> {
    if s.len() > 0 && s[0] == '-' {
        match parse_unsigned_micro(s.skip(1)) {
            Option::Some(v) => Option::Some(-v),
            Option::None => Option::None,
        }
    } else {
        parse_unsigned_micro(s)
    }
}

/// Ten to the `e`, executable.
fn pow10_exec(e: usize) -> (r: i64)
    requires
        e <= 9,
    ensures
        r as int == pow10(e as int),
        1 <= r,
{
    let mut r: i64 = 1;
    let mut j: usize = 0;
    while j < e
        invariant
            j <= e <= 9,
            r as int == pow10(j as int),
            1 <= r,
        decreases e - j,
    {
        proof {
            lemma_pow10_mono(j as int, 8);
            reveal_with_fuel(pow10, 10);
        }
        r = r * 10;
        j = j + 1;
    }
    r
}

fn digit(c: char) -> (r: bool)
    ensures
        r == is_digit(c),
{
    let u = c as u32;
    48 <= u && u <= 57
}

/// The number spelled by the digits of `b` from `from` to `to`.
fn digits_value_exec(b: &Vec<char>, from: usize, to: usize) -> (r: i64)
    requires
        from <= to <= b@.len(),
        to - from <= 9,
        all_digits(b@.subrange(from as int, to as int)),
    ensures
        r as int == digits_val(b@.subrange(from as int, to as int)),
        0 <= (r as int) < pow10(to as int - from as int),
{
    let ghost whole = b@.subrange(from as int, to as int);
    let mut acc: i64 = 0;
    let mut k: usize = from;
    proof {
        assert(b@.subrange(from as int, from as int) =~= whole.take(0));
    }
    while k < to
        invariant
            from <= k <= to <= b@.len(),
            to - from <= 9,
            whole == b@.subrange(from as int, to as int),
            all_digits(whole),
            acc as int == digits_val(whole.take(k as int - from as int)),
            0 <= (acc as int) < pow10(k as int - from as int),
        decreases to - k,
    {
        proof {
            lemma_pow10_mono(k as int - from as int, 8);
            reveal_with_fuel(pow10, 10);
            assert(whole.take(k as int + 1 - from as int).drop_last() =~= whole.take(
                k as int - from as int,
            ));
            assert(whole.take(k as int + 1 - from as int).last() == whole[k as int - from as int]);
            assert(whole[k as int - from as int] == b@[k as int]);
            assert(is_digit(whole[k as int - from as int]));
        }
        let c = b[k];
        let d: i64 = (c as u32 - 48) as i64;
        acc = acc * 10 + d;
        k = k + 1;
    }
    proof {
        assert(whole.take(to as int - from as int) =~= whole);
    }
    acc
}

/// Parses one signed decimal field into millionths; carries no value on
/// anything outside the wire grammar.
#[verifier::rlimit(30)]
fn parse_micro_exec(f: &String) -> (r: Option<i64>)
    ensures
        r is Some <==> parse_micro(f@) is Some,
        r is Some ==> r->0 as int == parse_micro(f@)->0,
{
    let v = crate::text::chars_of(f.as_str());
    let n = v.len();
    let neg = n > 0 && v[0] == '-';
    let start: usize = if neg {
        1
    } else {
        0
    };
    let ghost body = if neg {
        f@.skip(1)
    } else {
        f@
    };
    // The leading digit run of the body.
    let mut ip: usize = start;
    while ip < n && digit(v[ip])
        invariant
            start <= ip <= n,
            n == v@.len(),
            v@ == f@,
            body == (if neg {
                f@.skip(1)
            } else {
                f@
            }),
            neg ==> start == 1,
            !neg ==> start == 0,
            digit_prefix_end(body, 0) == digit_prefix_end(body, ip as int - start as int),
            forall|m: int| start as int <= m < ip as int ==> is_digit(#[trigger] v@[m]),
        decreases n - ip,
    {
        proof {
            assert(body[ip as int - start as int] == v@[ip as int]);
        }
        ip = ip + 1;
    }
    proof {
        if ip < n {
            assert(body[ip as int - start as int] == v@[ip as int]);
        }
        assert(digit_prefix_end(body, 0) == ip as int - start as int);
    }
    if ip - start > 9 {
        return None;
    }
    proof {
        assert(b_sub(v@, start as int, ip as int) =~= body.take(ip as int - start as int));
        assert(all_digits(b_sub(v@, start as int, ip as int)));
    }
    let intval = digits_value_exec(&v, start, ip);
    if ip == n {
        if n > start {
            proof {
                assert(body.take(ip as int - start as int) =~= body);
                lemma_pow10_mono(ip as int - start as int, 9);
                reveal_with_fuel(pow10, 10);
            }
            if neg {
                Some(-(intval * 1_000_000))
            } else {
                Some(intval * 1_000_000)
            }
        } else {
            None
        }
    } else if v[ip] == '.' {
        // Fraction digits; all must be digits.
        let mut k: usize = ip + 1;
        while k < n
            invariant
                ip as int + 1 <= k as int <= n,
                n == v@.len(),
                v@ == f@,
                ip < n,
                body == (if neg {
                    f@.skip(1)
                } else {
                    f@
                }),
                neg == (f@.len() > 0 && f@[0] == '-'),
                neg ==> start == 1,
                !neg ==> start == 0,
                start <= ip,
                digit_prefix_end(body, 0) == ip as int - start as int,
                ip as int - start as int <= 9,
                body.len() == n - start,
                body[ip as int - start as int] == '.',
                forall|m: int| ip as int + 1 <= m < k as int ==> is_digit(#[trigger] v@[m]),
            decreases n - k,
        {
            if !digit(v[k]) {
                proof {
                    assert(body.skip(ip as int - start as int + 1)[k as int - ip as int - 1]
                        == v@[k as int]);
                    assert(!all_digits(body.skip(ip as int - start as int + 1)));
                }
                return None;
            }
            k = k + 1;
        }
        let ghost frac = body.skip(ip as int - start as int + 1);
        proof {
            assert forall|m: int| 0 <= m < frac.len() implies is_digit(#[trigger] frac[m]) by {
                assert(frac[m] == v@[ip as int + 1 + m]);
            }
            assert(all_digits(frac));
        }
        if ip == start && n == ip + 1 {
            // A lone point carries no value.
            return None;
        }
        let fdigits = n - ip - 1;
        let keep: usize = if fdigits > 6 {
            6
        } else {
            fdigits
        };
        proof {
            assert(b_sub(v@, ip as int + 1, ip as int + 1 + keep as int) =~= frac.take(
                keep as int,
            ));
            assert(all_digits(frac.take(keep as int)));
            if frac.len() <= 6 {
                assert(frac.take(keep as int) =~= frac);
            } else {
                assert(frac.take(keep as int) =~= frac.take(6));
            }
        }
        let fv = digits_value_exec(&v, ip + 1, ip + 1 + keep);
        let scale = pow10_exec(6 - keep);
        proof {
            lemma_digits_val_bound(frac.take(keep as int));
            lemma_pow10_mul(keep as int, 6 - keep as int);
            lemma_pow10_mono(ip as int - start as int, 9);
            reveal_with_fuel(pow10, 10);
            assert((fv as int) * (scale as int) < 1_000_000) by (nonlinear_arith)
                requires
                    0 <= (fv as int) < pow10(keep as int),
                    1 <= scale as int,
                    scale as int == pow10(6 - keep as int),
                    pow10(keep as int) * pow10(6 - keep as int) == pow10(6),
                    pow10(6) == 1_000_000,
            ;
            assert(frac_micro(frac) == (fv as int) * (scale as int));
        }
        let m = intval * 1_000_000 + fv * scale;
        if neg {
            Some(-m)
        } else {
            Some(m)
        }
    } else {
        None
    }
}

/// A subrange, named for readability of the proofs above.
spec fn b_sub(s: Seq<char>, from: int, to: int) -> Seq<char> {
    s.subrange(from, to)
}

proof fn lemma_pow10_mul(a: int, b: int)
    requires
        0 <= a,
        0 <= b,
    ensures
        pow10(a) * pow10(b) == pow10(a + b),
    decreases a,
{
    if a > 0 {
        lemma_pow10_mul(a - 1, b);
        assert(pow10(a) * pow10(b) == 10 * (pow10(a - 1) * pow10(b))) by (nonlinear_arith)
            requires
                pow10(a) == 10 * pow10(a - 1),
        ;
    }
}

/// The two corner coordinates spelled by a well-formed bounding-box
/// string: exactly four comma-separated decimal fields, read as
/// south-west latitude and longitude, then north-east latitude and
/// longitude.
pub open spec fn bbox_coords_spec(s: Seq<char>) -> Option<(Coordinate, Coordinate)> {
    let fs = comma_fields(s);
    if fs.len() == 4 && parse_micro(fs[0]) is Some && parse_micro(fs[1]) is Some && parse_micro(
        fs[2],
    ) is Some && parse_micro(fs[3]) is Some {
        Option::Some(
            (
                Coordinate {
                    lat: Degrees::Finite(parse_micro(fs[0])->0 as i64),
                    lng: Degrees::Finite(parse_micro(fs[1])->0 as i64),
                },
                Coordinate {
                    lat: Degrees::Finite(parse_micro(fs[2])->0 as i64),
                    lng: Degrees::Finite(parse_micro(fs[3])->0 as i64),
                },
            ),
        )
    } else {
        Option::None
    }
}

/// Parses the bounding-box wire format: a string of exactly two
/// coordinate pairs ("lat,lng,lat,lng") with numeric fields. Any other
/// cardinality or a non-numeric field is a parameter error.
pub fn extract_bbox(s: &str) -> (r: Result<Vec<Coordinate>, ParameterError>)
    ensures
        match r {
            Ok(v) => match bbox_coords_spec(s@) {
                Option::Some(pair) => v@.len() == 2 && v@[0] == pair.0 && v@[1] == pair.1,
                Option::None => false,
            },
            Err(e) => e == ParameterError::Bbox && bbox_coords_spec(s@) is None,
        },
{
    let fields = split_commas(s);
    if fields.len() != 4 {
        return Err(ParameterError::Bbox);
    }
    proof {
        assert(fields.deep_view()[0] == fields@[0]@);
        assert(fields.deep_view()[1] == fields@[1]@);
        assert(fields.deep_view()[2] == fields@[2]@);
        assert(fields.deep_view()[3] == fields@[3]@);
    }
    let p0 = parse_micro_exec(&fields[0]);
    let p1 = parse_micro_exec(&fields[1]);
    let p2 = parse_micro_exec(&fields[2]);
    let p3 = parse_micro_exec(&fields[3]);
    match (p0, p1, p2, p3) {
        (Some(a), Some(b), Some(c), Some(d)) => {
            let mut v: Vec<Coordinate> = Vec::new();
            v.push(Coordinate { lat: Degrees::Finite(a), lng: Degrees::Finite(b) });
            v.push(Coordinate { lat: Degrees::Finite(c), lng: Degrees::Finite(d) });
            Ok(v)
        },
        _ => Err(ParameterError::Bbox),
    }
}

/// The relative (squared planar) distance between two positions.
pub fn distance(a: &Coordinate, b: &Coordinate) -> (r: Distance)
    ensures
        r == distance_spec(*a, *b),
{
    match (a.lat, a.lng, b.lat, b.lng) {
        (
            Degrees::Finite(alat),
            Degrees::Finite(alng),
            Degrees::Finite(blat),
            Degrees::Finite(blng),
        ) => {
            let dlat: i128 = alat as i128 - blat as i128;
            let dlng: i128 = alng as i128 - blng as i128;
            let adlat: u128 = if dlat >= 0 {
                dlat as u128
            } else {
                (-dlat) as u128
            };
            let adlng: u128 = if dlng >= 0 {
                dlng as u128
            } else {
                (-dlng) as u128
            };
            proof {
                assert(adlat * adlat < u128::MAX && sq(dlat as int) == adlat * adlat)
                    by (nonlinear_arith)
                    requires
                        adlat < 0x1_0000_0000_0000_0000,
                        adlat == (if dlat >= 0 { dlat as int } else { -(dlat as int) }),
                ;
                assert(adlng * adlng < u128::MAX && sq(dlng as int) == adlng * adlng)
                    by (nonlinear_arith)
                    requires
                        adlng < 0x1_0000_0000_0000_0000,
                        adlng == (if dlng >= 0 { dlng as int } else { -(dlng as int) }),
                ;
            }
            let sqlat: u128 = adlat * adlat;
            let sqlng: u128 = adlng * adlng;
            Distance::Finite(sqlat.saturating_add(sqlng))
        },
        _ => Distance::NonFinite,
    }
}

} // verus!

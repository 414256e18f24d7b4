//! Colors: 8-bit RGB, and HSL held exactly as numerators over a shared
//! positive denominator (`hue / den` degrees, `sat / den` and `lum / den`
//! percent).
use vstd::prelude::*;

verus! {

pub const HUE_MAX: u16 = 360;
pub const SAT_MAX: u16 = 100;
pub const LUM_MAX: u16 = 100;

#[derive(Clone, Copy, Debug, PartialEq, Eq, Structural)]
pub struct RGB {
    pub red: u8,
    pub green: u8,
    pub blue: u8,
}

impl RGB {
    pub fn new(red: u8, green: u8, blue: u8) -> (r: RGB)
        ensures
            r == (RGB { red, green, blue }),
    {
        RGB { red, green, blue }
    }

    /// The three channels, red first.
    pub fn as_pixel(&self) -> (r: [u8; 3])
        ensures
            r@ == seq![self.red, self.green, self.blue],
    {
        let r = [self.red, self.green, self.blue];
        assert(r@ =~= seq![self.red, self.green, self.blue]);
        r
    }
}

/// Which HSL component a range error is about.
#[derive(Clone, Copy, Debug, PartialEq, Eq, Structural)]
pub enum HslField {
    Hue,
    Sat,
    Lum,
}

#[derive(Clone, Copy, Debug, PartialEq, Eq, Structural)]
pub enum Error {
    /// The component `name` was `val / den`, outside `[0, max]`.
    HSLOutOfBounds { name: HslField, val: i64, den: u16, max: u16 },
}

/// The mathematical value of an HSL color: numerators and their denominator.
pub struct HslModel {
    pub hue: int,
    pub sat: int,
    pub lum: int,
    pub den: int,
}

#[derive(Debug)]
pub struct HSL {
    hue: u64,
    sat: u64,
    lum: u64,
    den: u64,
}

/// `val / den` lies in `[0, max]`.
pub open spec fn in_range(val: int, max: int, den: int) -> bool {
    0 <= val <= max * den
}

pub open spec fn valid_model(c: HslModel) -> bool {
    &&& 0 < c.den <= u16::MAX
    &&& in_range(c.hue, HUE_MAX as int, c.den)
    &&& in_range(c.sat, SAT_MAX as int, c.den)
    &&& in_range(c.lum, LUM_MAX as int, c.den)
}

/// Wraps a hue offset (in units of `1 / d` degree) back into one turn.
pub open spec fn wrap_hue(t: int, d: int) -> int {
    if t < 0 {
        t + 360 * d
    } else if t > 360 * d {
        t - 360 * d
    } else {
        t
    }
}

/// One channel, rounded to the nearest integer of `255 * v`, where `v` is the
/// piecewise HSL formula at hue `t / (360 d)`, with
/// `chroma = 2 p s / (100 d)^2` and `m = l / (100 d) - chroma / 2`.
/// All terms are brought over the common denominator `30 d (100 d)^2`.
pub open spec fn channel_value(t: int, p: int, s: int, l: int, d: int) -> int {
    let q = 10000 * d * d;
    let m0 = 100 * d * l - p * s;
    let num = if t < 60 * d {
        p * s * t + 30 * d * m0
    } else if t < 180 * d {
        30 * d * (p * s + 100 * d * l)
    } else if t < 240 * d {
        p * s * (240 * d - t) + 30 * d * m0
    } else {
        30 * d * m0
    };
    let den = 30 * d * q;
    (510 * num + den) / (2 * den)
}

/// `min(l, 1 - l)` in units of `1 / (100 d)`.
pub open spec fn half_span(l: int, d: int) -> int {
    if l < 50 * d {
        l
    } else {
        100 * d - l
    }
}

/// The RGB color of an HSL color: red at hue offset +1/3 turn, green at 0,
/// blue at -1/3.
pub open spec fn hsl_to_rgb(c: HslModel) -> RGB {
    let p = half_span(c.lum, c.den);
    RGB {
        red: channel_value(wrap_hue(c.hue + 120 * c.den, c.den), p, c.sat, c.lum, c.den) as u8,
        green: channel_value(wrap_hue(c.hue, c.den), p, c.sat, c.lum, c.den) as u8,
        blue: channel_value(wrap_hue(c.hue - 120 * c.den, c.den), p, c.sat, c.lum, c.den) as u8,
    }
}

proof fn lemma_channel_bounds(t: int, p: int, s: int, l: int, d: int)
    requires
        0 < d <= u16::MAX,
        0 <= t <= 360 * d,
        0 <= s <= 100 * d,
        0 <= l <= 100 * d,
        p == half_span(l, d),
    ensures
        0 <= channel_value(t, p, s, l, d) <= 255,
{
    let q = 10000 * d * d;
    let m0 = 100 * d * l - p * s;
    let den = 30 * d * q;
    assert(0 <= p * s <= 100 * d * l) by (nonlinear_arith)
        requires
            0 <= p <= l,
            0 <= s <= 100 * d,
    ;
    assert(p * s + 100 * d * l <= q) by (nonlinear_arith)
        requires
            0 <= s <= 100 * d,
            0 <= p <= 100 * d - l,
            q == 10000 * d * d,
    ;
    let num = if t < 60 * d {
        p * s * t + 30 * d * m0
    } else if t < 180 * d {
        30 * d * (p * s + 100 * d * l)
    } else if t < 240 * d {
        p * s * (240 * d - t) + 30 * d * m0
    } else {
        30 * d * m0
    };
    if t < 60 * d {
        assert(p * s * t <= p * s * 60 * d) by (nonlinear_arith)
            requires
                p * s >= 0,
                0 <= t < 60 * d,
        ;
    } else if t < 180 * d {
    } else if t < 240 * d {
        assert(p * s * (240 * d - t) <= p * s * 60 * d) by (nonlinear_arith)
            requires
                p * s >= 0,
                0 <= 240 * d - t <= 60 * d,
        ;
    }
    assert(0 <= num <= 30 * d * (p * s + 100 * d * l)) by (nonlinear_arith)
        requires
            d > 0,
            m0 >= 0,
            p * s >= 0,
            t >= 0,
            num == (if t < 60 * d {
                p * s * t + 30 * d * m0
            } else if t < 180 * d {
                30 * d * (p * s + 100 * d * l)
            } else if t < 240 * d {
                p * s * (240 * d - t) + 30 * d * m0
            } else {
                30 * d * m0
            }),
            t < 60 * d ==> p * s * t <= p * s * 60 * d,
            180 * d <= t < 240 * d ==> p * s * (240 * d - t) <= p * s * 60 * d,
            m0 == 100 * d * l - p * s,
    ;
    assert(0 <= num <= den) by (nonlinear_arith)
        requires
            d > 0,
            0 <= num <= 30 * d * (p * s + 100 * d * l),
            p * s + 100 * d * l <= q,
            den == 30 * d * q,
    ;
    assert(den > 0) by (nonlinear_arith)
        requires
            d > 0,
            den == 30 * d * (10000 * d * d),
    ;
    assert(0 <= (510 * num + den) / (2 * den) <= 255) by (nonlinear_arith)
        requires
            0 <= num <= den,
            den > 0,
    ;
}

impl HSL {
    /// The exact value this color holds.
    pub closed spec fn view(&self) -> HslModel {
        HslModel {
            hue: self.hue as int,
            sat: self.sat as int,
            lum: self.lum as int,
            den: self.den as int,
        }
    }

    #[verifier::type_invariant]
    closed spec fn inv(&self) -> bool {
        valid_model(self@)
    }

    /// Builds the color `(hue / den, sat / den, lum / den)`. The components are
    /// checked in the order hue, sat, lum; the first outside its range is
    /// reported.
    pub fn new(hue: i64, sat: i64, lum: i64, den: u16) -> (r: Result<HSL, Error>)
        requires
            den > 0,
        ensures
            !in_range(hue as int, HUE_MAX as int, den as int) ==> r == Err::<HSL, Error>(
                Error::HSLOutOfBounds { name: HslField::Hue, val: hue, den, max: HUE_MAX },
            ),
            in_range(hue as int, HUE_MAX as int, den as int) && !in_range(
                sat as int,
                SAT_MAX as int,
                den as int,
            ) ==> r == Err::<HSL, Error>(
                Error::HSLOutOfBounds { name: HslField::Sat, val: sat, den, max: SAT_MAX },
            ),
            in_range(hue as int, HUE_MAX as int, den as int) && in_range(
                sat as int,
                SAT_MAX as int,
                den as int,
            ) && !in_range(lum as int, LUM_MAX as int, den as int) ==> r == Err::<HSL, Error>(
                Error::HSLOutOfBounds { name: HslField::Lum, val: lum, den, max: LUM_MAX },
            ),
            r is Ok <==> (in_range(hue as int, HUE_MAX as int, den as int) && in_range(
                sat as int,
                SAT_MAX as int,
                den as int,
            ) && in_range(lum as int, LUM_MAX as int, den as int)),
            r is Ok ==> r->Ok_0@ == (HslModel {
                hue: hue as int,
                sat: sat as int,
                lum: lum as int,
                den: den as int,
            }),
    {
        let d = den as i64;
        assert(HUE_MAX == 360 && SAT_MAX == 100 && LUM_MAX == 100);
        let hue_max: i64 = 360 * d;
        let sat_max: i64 = 100 * d;
        let lum_max: i64 = 100 * d;
        if hue < 0 || hue > hue_max {
            Err(Error::HSLOutOfBounds { name: HslField::Hue, val: hue, den, max: HUE_MAX })
        } else if sat < 0 || sat > sat_max {
            Err(Error::HSLOutOfBounds { name: HslField::Sat, val: sat, den, max: SAT_MAX })
        } else if lum < 0 || lum > lum_max {
            Err(Error::HSLOutOfBounds { name: HslField::Lum, val: lum, den, max: LUM_MAX })
        } else {
            Ok(HSL { hue: hue as u64, sat: sat as u64, lum: lum as u64, den: den as u64 })
        }
    }

    /// Converts to RGB by the piecewise HSL formula, exactly, each channel
    /// rounded to the nearest integer (halves upward).
    pub fn as_rgb(&self) -> (r: RGB)
        ensures
            r == hsl_to_rgb(self@),
    {
        proof {
            use_type_invariant(self);
        }
        let d = self.den as u128;
        let l = self.lum as u128;
        let p: u128 = if l < 50 * d {
            l
        } else {
            100 * d - l
        };
        let h = self.hue as u128;
        let s = self.sat as u128;
        let tr = if h + 120 * d > 360 * d {
            h + 120 * d - 360 * d
        } else {
            h + 120 * d
        };
        let tb = if h < 120 * d {
            h + 240 * d
        } else {
            h - 120 * d
        };
        let red = Self::compute_rgb(tr, p, s, l, d);
        let green = Self::compute_rgb(h, p, s, l, d);
        let blue = Self::compute_rgb(tb, p, s, l, d);
        RGB { red, green, blue }
    }

    fn compute_rgb(t: u128, p: u128, s: u128, l: u128, d: u128) -> (r: u8)
        requires
            0 < d <= u16::MAX,
            t <= 360 * d,
            s <= 100 * d,
            l <= 100 * d,
            p == half_span(l as int, d as int),
        ensures
            r as int == channel_value(t as int, p as int, s as int, l as int, d as int),
    {
        proof {
            lemma_channel_bounds(t as int, p as int, s as int, l as int, d as int);
            let k: int = 65535;
            assert(k * k == 4294836225);
            assert(k * k * k == 281462092005375);
            assert(p * s <= 5000 * k * k && 100 * d * l <= 10000 * k * k) by (nonlinear_arith)
                requires
                    p <= 50 * d,
                    s <= 100 * d,
                    l <= 100 * d,
                    d <= k,
            ;
            assert(p * s * t <= 5000 * k * k * 360 * k) by (nonlinear_arith)
                requires
                    p * s <= 5000 * k * k,
                    t <= 360 * d,
                    d <= k,
                    0 <= p * s,
            ;
            assert(d * (100 * d * l) <= 10000 * k * k * k && d * (10000 * d * d) <= 10000 * k
                * k * k) by (nonlinear_arith)
                requires
                    100 * d * l <= 10000 * k * k,
                    d <= k,
            ;
            assert(d * (p * s + 100 * d * l) <= 20000 * k * k * k) by (nonlinear_arith)
                requires
                    p * s + 100 * d * l <= 20000 * k * k,
                    d <= k,
            ;
        }
        assert(p * s <= 21474181125000);
        assert(p * s * t <= 1800000 * 281462092005375);
        assert(p * s <= 100 * d * l && 30 * d * (100 * d * l) <= 30 * 10000 * 281462092005375)
            by (nonlinear_arith)
            requires
                p <= l || p <= 100 * d - l,
                p == half_span(l as int, d as int),
                s <= 100 * d,
                l <= 100 * d,
                d <= 65535,
        ;
        let ps = p * s;
        let m0 = 100 * d * l - ps;
        assert(ps * t <= 1800000 * 281462092005375 && 30 * d * m0 <= 30 * 10000
            * 281462092005375 && 30 * d * (ps + 100 * d * l) <= 60 * 10000 * 281462092005375
            && 30 * d * (10000 * d * d) <= 30 * 10000 * 281462092005375) by (nonlinear_arith)
            requires
                ps <= 100 * d * l,
                d <= 65535,
                ps == p * s,
                p * s * t <= 1800000 * 281462092005375,
                m0 <= 100 * d * l,
                30 * d * (100 * d * l) <= 30 * 10000 * 281462092005375,
        ;
        let num: u128 = if t < 60 * d {
            ps * t + 30 * d * m0
        } else if t < 180 * d {
            30 * d * (ps + 100 * d * l)
        } else if t < 240 * d {
            proof {
                let k: int = 65535;
                assert(k * k * k == 281462092005375);
                assert(p * s * (240 * d - t) <= 5000 * k * k * 360 * k) by (nonlinear_arith)
                    requires
                        p * s <= 5000 * k * k,
                        0 <= 240 * d - t <= 360 * d,
                        d <= k,
                        0 <= p * s,
                ;
            }
            assert(ps * (240 * d - t) <= 1800000 * 281462092005375) by (nonlinear_arith)
                requires
                    ps == p * s,
                    p * s * (240 * d - t) <= 1800000 * 281462092005375,
            ;
            ps * (240 * d - t) + 30 * d * m0
        } else {
            30 * d * m0
        };
        assert(num <= 2100000 * 281462092005375);
        assert(d * d <= 4294836225 && 10000 * (d * d) <= 42948362250000 && 30 * d * (10000 * (d
            * d)) > 0 && 30 * d * (10000 * (d * d)) <= 300000 * 281462092005375 && 10000 * (d
            * d) == 10000 * d * d) by (nonlinear_arith)
            requires
                0 < d <= 65535,
        ;
        let den = 30 * d * (10000 * (d * d));
        ((510 * num + den) / (2 * den)) as u8
    }
}

pub open spec fn is_digit(c: char) -> bool {
    '0' <= c <= '9'
}

/// The value of a string of decimal digits.
pub open spec fn digits_value(d: Seq<char>) -> int
    decreases d.len(),
{
    if d.len() == 0 {
        0
    } else {
        digits_value(d.drop_last()) * 10 + (d.last() as int - '0' as int)
    }
}

/// The text after an optional leading `+`.
pub open spec fn unsigned_part(f: Seq<char>) -> Seq<char> {
    if f.len() > 0 && f[0] == '+' {
        f.subrange(1, f.len() as int)
    } else {
        f
    }
}

pub open spec fn all_digits(d: Seq<char>) -> bool {
    forall|i: int| 0 <= i < d.len() ==> is_digit(#[trigger] d[i])
}

/// A byte written in decimal: an optional `+`, then one or more digits with
/// a value of at most 255.
pub open spec fn byte_value(f: Seq<char>) -> Option<u8> {
    let d = unsigned_part(f);
    if d.len() > 0 && all_digits(d) && digits_value(d) <= 255 {
        Some(digits_value(d) as u8)
    } else {
        None
    }
}

/// The pieces of a text between commas.
pub open spec fn comma_fields(s: Seq<char>) -> Seq<Seq<char>>
    decreases s.len(),
{
    if s.len() == 0 {
        seq![seq![]]
    } else {
        let f = comma_fields(s.drop_last());
        if s.last() == ',' {
            f.push(seq![])
        } else {
            f.update(f.len() - 1, f.last().push(s.last()))
        }
    }
}

/// A color written `r,g,b`: exactly three comma-separated bytes.
pub open spec fn color_value(s: Seq<char>) -> Option<RGB> {
    let f = comma_fields(s);
    if f.len() == 3 && byte_value(f[0]) is Some && byte_value(f[1]) is Some && byte_value(
        f[2],
    ) is Some {
        Some(
            RGB {
                red: byte_value(f[0])->Some_0,
                green: byte_value(f[1])->Some_0,
                blue: byte_value(f[2])->Some_0,
            },
        )
    } else {
        None
    }
}

proof fn lemma_comma_fields_nonempty(s: Seq<char>)
    ensures
        comma_fields(s).len() >= 1,
    decreases s.len(),
{
    if s.len() > 0 {
        lemma_comma_fields_nonempty(s.drop_last());
    }
}

proof fn lemma_digits_grow(d: Seq<char>, k: int)
    requires
        0 <= k <= d.len(),
        forall|i: int| 0 <= i < d.len() ==> is_digit(#[trigger] d[i]),
    ensures
        0 <= digits_value(d.subrange(0, k)) <= digits_value(d),
    decreases d.len(),
{
    if d.len() > 0 {
        let p = d.drop_last();
        assert forall|i: int| 0 <= i < p.len() implies is_digit(#[trigger] p[i]) by {
            assert(p[i] == d[i]);
        }
        if k == d.len() {
            assert(d.subrange(0, k) =~= d);
            lemma_digits_grow(p, p.len() as int);
            assert(p.subrange(0, p.len() as int) =~= p);
            assert(is_digit(d[d.len() - 1]));
        } else {
            lemma_digits_grow(p, k);
            lemma_digits_grow(p, p.len() as int);
            assert(p.subrange(0, k) =~= d.subrange(0, k));
            assert(p.subrange(0, p.len() as int) =~= p);
            assert(is_digit(d[d.len() - 1]));
        }
    } else {
        assert(d.subrange(0, k) =~= d);
    }
}

/// Reads one decimal byte (see `byte_value`).
fn parse_byte(f: &Vec<char>) -> (r: Option<u8>)
    ensures
        r == byte_value(f@),
{
    let start: usize = if f.len() > 0 && f[0] == '+' {
        1
    } else {
        0
    };
    let ghost d = unsigned_part(f@);
    assert(d =~= f@.subrange(start as int, f@.len() as int));
    if start == f.len() {
        assert(d.len() == 0);
        assert(byte_value(f@) is None);
        return None;
    }
    let mut v: u32 = 0;
    let mut i: usize = start;
    while i < f.len()
        invariant
            start <= i <= f@.len(),
            start < f@.len(),
            d == f@.subrange(start as int, f@.len() as int),
            d == unsigned_part(f@),
            v as int == digits_value(d.subrange(0, i - start)),
            v <= 255,
            forall|j: int| 0 <= j < i - start ==> is_digit(#[trigger] d[j]),
        decreases f@.len() - i,
    {
        let c = f[i];
        if !('0' <= c && c <= '9') {
            assert(!is_digit(d[i - start]));
            assert(!all_digits(d));
            return None;
        }
        let ghost prev = d.subrange(0, i - start);
        let ghost next = d.subrange(0, i + 1 - start);
        assert(next.drop_last() =~= prev);
        assert(next.last() == c);
        assert(digits_value(next) == digits_value(prev) * 10 + (c as int - '0' as int));
        v = v * 10 + (c as u32 - '0' as u32);
        if v > 255 {
            proof {
                if all_digits(d) {
                    lemma_digits_grow(d, i + 1 - start);
                    assert(digits_value(d) > 255);
                }
            }
            return None;
        }
        i = i + 1;
    }
    assert(d.subrange(0, i - start) =~= d);
    Some(v as u8)
}

/// Reads a color written `r,g,b` (see `color_value`); `None` when the text
/// has another number of fields or a field is not a decimal byte.
pub fn parse_color(s: &str) -> (r: Option<RGB>)
    ensures
        r == color_value(s@),
{
    let n = s.unicode_len();
    let mut fields: Vec<Vec<char>> = Vec::new();
    fields.push(Vec::new());
    let mut i: usize = 0;
    while i < n
        invariant
            n == s@.len(),
            i <= n,
            fields@.len() >= 1,
            fields@.map_values(|v: Vec<char>| v@) == comma_fields(s@.subrange(0, i as int)),
        decreases n - i,
    {
        let c = s.get_char(i);
        let ghost pre = s@.subrange(0, i as int);
        assert(s@.subrange(0, i + 1).drop_last() =~= pre);
        if c == ',' {
            fields.push(Vec::new());
        } else {
            let last = fields.len() - 1;
            let mut f = fields.remove(last);
            f.push(c);
            fields.push(f);
        }
        assert(fields@.map_values(|v: Vec<char>| v@) =~= comma_fields(s@.subrange(0, i + 1)));
        i = i + 1;
    }
    assert(s@.subrange(0, n as int) =~= s@);
    if fields.len() != 3 {
        return None;
    }
    let ghost fs = comma_fields(s@);
    assert(fields@[0]@ == fs[0] && fields@[1]@ == fs[1] && fields@[2]@ == fs[2]);
    let red = parse_byte(&fields[0]);
    let green = parse_byte(&fields[1]);
    let blue = parse_byte(&fields[2]);
    match (red, green, blue) {
        (Some(red), Some(green), Some(blue)) => Some(RGB { red, green, blue }),
        _ => None,
    }
}

/// The character of a decimal digit.
pub open spec fn digit_char(d: u8) -> char {
    (d + 48) as char
}

/// A byte in decimal, without leading zeros.
pub open spec fn decimal(n: u8) -> Seq<char> {
    if n < 10 {
        seq![digit_char(n)]
    } else if n < 100 {
        seq![digit_char(n / 10), digit_char(n % 10)]
    } else {
        seq![digit_char(n / 100), digit_char((n / 10) % 10), digit_char(n % 10)]
    }
}

/// A color written `r,g,b` in decimal.
pub open spec fn color_text(c: RGB) -> Seq<char> {
    decimal(c.red) + seq![','] + decimal(c.green) + seq![','] + decimal(c.blue)
}

fn push_decimal(out: &mut Vec<char>, n: u8)
    ensures
        final(out)@ == old(out)@ + decimal(n),
{
    if n >= 100 {
        out.push(((n / 100) + 48) as char);
    }
    if n >= 10 {
        out.push((((n / 10) % 10) + 48) as char);
    }
    out.push(((n % 10) + 48) as char);
    assert(out@ =~= old(out)@ + decimal(n));
}

impl RGB {
    /// The color as text `r,g,b`, the form `parse_color` reads.
    pub fn to_text(&self) -> (r: String)
        ensures
            r@ == color_text(*self),
    {
        let mut out: Vec<char> = Vec::new();
        push_decimal(&mut out, self.red);
        out.push(',');
        push_decimal(&mut out, self.green);
        out.push(',');
        push_decimal(&mut out, self.blue);
        assert(out@ =~= color_text(*self));
        crate::base64::string_from_chars(&out)
    }
}

pub open spec fn has_no_comma(t: Seq<char>) -> bool {
    forall|i: int| 0 <= i < t.len() ==> #[trigger] t[i] != ','
}

proof fn lemma_fields_extend(p: Seq<char>, t: Seq<char>)
    requires
        has_no_comma(t),
    ensures
        comma_fields(p + t) == comma_fields(p).update(
            comma_fields(p).len() - 1,
            comma_fields(p).last() + t,
        ),
    decreases t.len(),
{
    lemma_comma_fields_nonempty(p);
    let f = comma_fields(p);
    if t.len() == 0 {
        assert(p + t =~= p);
        assert(f.last() + t =~= f.last());
        assert(f.update(f.len() - 1, f.last() + t) =~= f);
    } else {
        let u = t.drop_last();
        assert(has_no_comma(u)) by {
            assert forall|i: int| 0 <= i < u.len() implies #[trigger] u[i] != ',' by {
                assert(u[i] == t[i]);
            }
        }
        lemma_fields_extend(p, u);
        assert((p + t).drop_last() =~= p + u);
        assert((p + t).last() == t.last());
        assert(t.last() != ',');
        assert((f.last() + u).push(t.last()) =~= f.last() + t);
        assert(comma_fields(p + t) =~= f.update(f.len() - 1, f.last() + t));
    }
}

proof fn lemma_fields_comma(p: Seq<char>)
    ensures
        comma_fields(p + seq![',']) == comma_fields(p).push(seq![]),
{
    assert((p + seq![',']).drop_last() =~= p);
}

proof fn lemma_decimal_byte(n: u8)
    ensures
        byte_value(decimal(n)) == Some(n),
        has_no_comma(decimal(n)),
{
    let d = decimal(n);
    assert(unsigned_part(d) == d);
    assert(all_digits(d));
    reveal_with_fuel(digits_value, 4);
    if n < 10 {
        assert(d.drop_last() =~= Seq::<char>::empty());
    } else if n < 100 {
        assert(d.drop_last() =~= seq![digit_char(n / 10)]);
        assert(d.drop_last().drop_last() =~= Seq::<char>::empty());
    } else {
        assert(d.drop_last() =~= seq![digit_char(n / 100), digit_char((n / 10) % 10)]);
        assert(d.drop_last().drop_last() =~= seq![digit_char(n / 100)]);
        assert(d.drop_last().drop_last().drop_last() =~= Seq::<char>::empty());
    }
    assert(digits_value(d) == n);
}

/// The text `to_text` writes for a color is read back by `parse_color` as
/// that same color.
pub proof fn lemma_color_text_parses(c: RGB)
    ensures
        color_value(color_text(c)) == Some(c),
{
    let a = decimal(c.red);
    let b = decimal(c.green);
    let d = decimal(c.blue);
    lemma_decimal_byte(c.red);
    lemma_decimal_byte(c.green);
    lemma_decimal_byte(c.blue);
    let e = Seq::<char>::empty();
    assert(comma_fields(e) == seq![e]);
    lemma_fields_extend(e, a);
    assert(e + a =~= a);
    assert(comma_fields(a) =~= seq![a]);
    lemma_fields_comma(a);
    let p1 = a + seq![','];
    lemma_fields_extend(p1, b);
    assert(comma_fields(p1 + b) =~= seq![a, b]);
    lemma_fields_comma(p1 + b);
    let p2 = p1 + b + seq![','];
    lemma_fields_extend(p2, d);
    assert(comma_fields(p2 + d) =~= seq![a, b, d]);
    assert(color_text(c) =~= p2 + d);
}

} // verus!

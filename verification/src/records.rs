//! Reading RMC (recommended minimum GNSS data) and GGA (GPS fix data)
//! sentences into typed records, and the choice of what to republish for a
//! received raw line.
//!
//! The reading is lenient: absent or malformed values do not fail the
//! sentence. Decimal values with a fraction (speed, course, dilution,
//! altitudes, the minutes of a coordinate) are kept as the text of their
//! field, for the caller to read as floating-point numbers; a text that
//! reads as no number stands for an unknown value.

use vstd::prelude::*;
use vstd::string::StringSliceAdditionalSpecFns;
use vstd::string::StrSliceExecFns;
use vstd::utf8::*;
use crate::dds_types::RawSentence;
use crate::sentence::{fields_after_first_comma, sentence_fields, str_bytes};
use crate::text::{
    all_digits, digits_value, find_byte, first_index_of, is_digit, lemma_ascii_boundaries,
    lemma_first_index_of, lemma_first_index_of_unique, parse_unsigned, parsed_unsigned,
    unsigned_digits,
};

verus! {

broadcast use encode_utf8_valid_utf8, encode_utf8_decode_utf8;

/// A coordinate in the NMEA `ddmm.mmmm` form: whole degrees, the text of the
/// minutes (with their fraction), and whether it lies south or west.
#[derive(Debug, Clone)]
pub struct DegreesMinutes {
    pub degrees: u32,
    pub minutes: String,
    pub negative: bool,
}

/// Byte index where the minutes of a `ddmm.mmmm` value start: two places
/// before its first `.`, or the start when the `.` comes earlier.
pub open spec fn minutes_start(v: Seq<u8>) -> int {
    let d = first_index_of(v, 0x2e) as int;
    if d >= 2 {
        d - 2
    } else {
        0
    }
}

/// The value has a `.`.
pub open spec fn has_point(v: Seq<u8>) -> bool {
    first_index_of(v, 0x2e) < v.len()
}

/// The value has a `.` and its degrees and minutes can be cut apart on a
/// character boundary (always so when the two places before the `.` are
/// ASCII).
pub open spec fn has_deg_min(v: Seq<u8>) -> bool {
    has_point(v) && is_char_boundary(v, minutes_start(v))
}

/// The degrees text read as a `u32`, or 0 when it reads as none.
pub open spec fn degrees_value(t: Seq<u8>) -> u32 {
    match parsed_unsigned(t, 0xffff_ffff) {
        Some(n) => n as u32,
        None => 0,
    }
}

/// Splits a `ddmm.mmmm` value into its whole degrees and the text of its
/// minutes: the minutes are the last two places before the first `.` and
/// everything after; the degrees are what comes before them (0 when they
/// do not read as a number). `None` when the value has no `.`, or when the
/// cut would fall inside a character: the value is then unknown.
pub fn split_deg_min<'a>(v: &'a str) -> (r: Option<(u32, &'a str)>)
    ensures
        r is Some <==> has_deg_min(v.spec_bytes()),
        r matches Some(p) ==> p.0 == degrees_value(v.spec_bytes().take(minutes_start(v.spec_bytes())))
            && p.1.spec_bytes() == v.spec_bytes().skip(minutes_start(v.spec_bytes())),
{
    let ghost b = v.spec_bytes();
    let dot = find_byte(v, 0x2e);
    if dot >= v.as_bytes().len() {
        return None;
    }
    let start = if dot >= 2 {
        dot - 2
    } else {
        0
    };
    if !v.is_char_boundary(start) {
        return None;
    }
    let (d, m) = v.split_at(start);
    assert(d.spec_bytes() =~= b.take(start as int));
    assert(m.spec_bytes() =~= b.skip(start as int));
    let degrees = match parse_unsigned(d, 0xffff_ffff) {
        Some(x) => x as u32,
        None => 0,
    };
    Some((degrees, m))
}

/// The coordinate `c` is what the value `v` with hemisphere field `hemi`
/// reads as, where a hemisphere opening with `negative_mark` (`S` or `W`)
/// makes it negative: no coordinate (unknown) when `v` has no `.` (in
/// particular when it is empty) or cannot be cut into degrees and minutes,
/// else its degrees, minutes text and sign.
pub open spec fn coordinate_read(
    c: Option<DegreesMinutes>,
    v: Seq<u8>,
    hemi: Seq<u8>,
    negative_mark: u8,
) -> bool {
    &&& c is Some <==> has_deg_min(v)
    &&& c matches Some(dm) ==> {
        &&& dm.degrees == degrees_value(v.take(minutes_start(v)))
        &&& dm.minutes@ == decode_utf8(v.skip(minutes_start(v)))
        &&& dm.negative == (hemi.len() > 0 && hemi[0] == negative_mark)
    }
}

/// Reads a coordinate value and its hemisphere.
fn read_coordinate(v: &str, hemi: &str, negative_mark: u8) -> (c: Option<DegreesMinutes>)
    ensures
        coordinate_read(c, v.spec_bytes(), hemi.spec_bytes(), negative_mark),
{
    if v.as_bytes().len() == 0 {
        proof {
            lemma_first_index_of(v.spec_bytes(), 0x2e);
        }
        return None;
    }
    match split_deg_min(v) {
        Some((degrees, minutes)) => {
            let h = hemi.as_bytes();
            let negative = h.len() > 0 && h[0] == negative_mark;
            Some(DegreesMinutes { degrees, minutes: minutes.to_owned(), negative })
        },
        None => None,
    }
}

/// The hemisphere only sets the sign: two readings of the same value with
/// any hemispheres agree on whether the coordinate is known, on its degrees
/// and on its minutes; each is negative exactly when its hemisphere opens
/// with the mark.
pub proof fn lemma_hemisphere_only_sets_sign(
    c1: Option<DegreesMinutes>,
    c2: Option<DegreesMinutes>,
    v: Seq<u8>,
    h1: Seq<u8>,
    h2: Seq<u8>,
    negative_mark: u8,
)
    requires
        coordinate_read(c1, v, h1, negative_mark),
        coordinate_read(c2, v, h2, negative_mark),
    ensures
        c1 is Some <==> c2 is Some,
        c1 matches Some(a) ==> c2 matches Some(b) ==> {
            &&& a.degrees == b.degrees
            &&& a.minutes@ == b.minutes@
            &&& a.negative == (h1.len() > 0 && h1[0] == negative_mark)
            &&& b.negative == (h2.len() > 0 && h2[0] == negative_mark)
        },
{
}

/// The decimal writing of `n`: its digits, most significant first, with
/// no sign and no leading zero.
pub open spec fn decimal_text(n: nat) -> Seq<u8>
    decreases n,
{
    if n < 10 {
        seq![(0x30 + n) as u8]
    } else {
        decimal_text(n / 10).push((0x30 + n % 10) as u8)
    }
}

/// The decimal writing of `n` is a non-empty string of digits worth `n`.
proof fn lemma_decimal_text(n: nat)
    ensures
        decimal_text(n).len() > 0,
        forall|i: int| 0 <= i < decimal_text(n).len() ==> is_digit(#[trigger] decimal_text(n)[i]),
        digits_value(decimal_text(n)) == n,
    decreases n,
{
    let d = decimal_text(n);
    if n >= 10 {
        lemma_decimal_text(n / 10);
        let p = decimal_text(n / 10);
        assert forall|i: int| 0 <= i < d.len() implies is_digit(#[trigger] d[i]) by {
            if i < p.len() {
                assert(d[i] == p[i]);
            }
        }
        assert(d.drop_last() =~= p);
        assert(n % 10 < 10);
        assert(d.last() == (0x30 + n % 10) as u8);
        assert(d.last() - 0x30 == n % 10);
        assert((n / 10) * 10 + n % 10 == n) by (nonlinear_arith);
        assert(digits_value(d) == digits_value(p) * 10 + (d.last() - 0x30) as nat);
    } else {
        assert(d.drop_last() =~= Seq::<u8>::empty());
        assert(d.last() == (0x30 + n) as u8);
        assert(digits_value(d.drop_last()) == 0);
        assert(digits_value(d) == digits_value(d.drop_last()) * 10 + (d.last() - 0x30) as nat);
    }
}

/// The decimal writing of a number up to `max` reads back as that number.
proof fn lemma_decimal_reads_back(n: nat, max: nat)
    requires
        n <= max,
    ensures
        parsed_unsigned(decimal_text(n), max) == Some(n),
{
    lemma_decimal_text(n);
    let d = decimal_text(n);
    assert(unsigned_digits(d) == d);
    assert(all_digits(d));
}

/// A coordinate field written as the decimal degrees `n`, then two digits
/// of minutes, a `.` and anything after (`mm`), is known, with `n` whole
/// degrees and `mm` as the minutes text.
pub proof fn lemma_coordinate_degrees(
    c: Option<DegreesMinutes>,
    v: Seq<u8>,
    hemi: Seq<u8>,
    negative_mark: u8,
    n: nat,
    mm: Seq<u8>,
)
    requires
        coordinate_read(c, v, hemi, negative_mark),
        valid_utf8(v),
        n <= 0xffff_ffff,
        v == decimal_text(n) + mm,
        mm.len() >= 3,
        is_digit(mm[0]),
        is_digit(mm[1]),
        mm[2] == 0x2e,
    ensures
        c matches Some(dm) && dm.degrees == n && dm.minutes@ == decode_utf8(mm),
{
    lemma_decimal_text(n);
    let d = decimal_text(n);
    let l = d.len() as int;
    assert forall|i: int| 0 <= i < l + 2 implies #[trigger] v[i] != 0x2e by {
        if i < l {
            assert(v[i] == d[i]);
            assert(is_digit(d[i]));
        } else {
            assert(v[i] == mm[i - l]);
        }
    }
    assert(v[l + 2] == mm[2]);
    lemma_first_index_of_unique(v, 0x2e, l + 2);
    assert(minutes_start(v) == l);
    assert(v[l - 1] == d[l - 1]);
    assert(is_digit(d[l - 1]));
    lemma_ascii_boundaries(v, l - 1);
    assert(v.take(l) =~= d);
    assert(v.skip(l) =~= mm);
    lemma_decimal_reads_back(n, 0xffff_ffff);
}

/// In an RMC record the latitude is negative exactly when the N/S field
/// opens with `S`, and the longitude exactly when the E/W field opens with
/// `W`.
pub proof fn lemma_rmc_signs(rec: Rmc, f: Seq<Seq<u8>>, ts: i64, seq: u64)
    requires
        rec.reads(f, ts, seq),
    ensures
        rec.lat_deg matches Some(dm) ==> dm.negative == (f[3].len() > 0 && f[3][0] == 'S' as u8),
        rec.lon_deg matches Some(dm) ==> dm.negative == (f[5].len() > 0 && f[5][0] == 'W' as u8),
{
}

/// In a GGA record the latitude is negative exactly when the N/S field
/// opens with `S`, and the longitude exactly when the E/W field opens with
/// `W`.
pub proof fn lemma_gga_signs(rec: Gga, f: Seq<Seq<u8>>, ts: i64, seq: u64)
    requires
        rec.reads(f, ts, seq),
    ensures
        rec.lat_deg matches Some(dm) ==> dm.negative == (f[2].len() > 0 && f[2][0] == 'S' as u8),
        rec.lon_deg matches Some(dm) ==> dm.negative == (f[4].len() > 0 && f[4][0] == 'W' as u8),
{
}

/// In an RMC record a coordinate field (the latitude, field 2, or the
/// longitude, field 4) written as the decimal degrees `n` followed by the
/// minutes `mm` (two digits, a `.`, anything) is read as `n` degrees and
/// the minutes `mm`.
pub proof fn lemma_rmc_degrees(rec: Rmc, f: Seq<Seq<u8>>, ts: i64, seq: u64, i: int, n: nat, mm: Seq<u8>)
    requires
        rec.reads(f, ts, seq),
        i == 2 || i == 4,
        valid_utf8(f[i]),
        n <= 0xffff_ffff,
        f[i] == decimal_text(n) + mm,
        mm.len() >= 3,
        is_digit(mm[0]),
        is_digit(mm[1]),
        mm[2] == 0x2e,
    ensures
        (if i == 2 {
            rec.lat_deg
        } else {
            rec.lon_deg
        }) matches Some(dm) && dm.degrees == n && dm.minutes@ == decode_utf8(mm),
{
    if i == 2 {
        lemma_coordinate_degrees(rec.lat_deg, f[2], f[3], 0x53, n, mm);
    } else {
        lemma_coordinate_degrees(rec.lon_deg, f[4], f[5], 0x57, n, mm);
    }
}

/// In a GGA record a coordinate field (the latitude, field 1, or the
/// longitude, field 3) written as the decimal degrees `n` followed by the
/// minutes `mm` (two digits, a `.`, anything) is read as `n` degrees and
/// the minutes `mm`.
pub proof fn lemma_gga_degrees(rec: Gga, f: Seq<Seq<u8>>, ts: i64, seq: u64, i: int, n: nat, mm: Seq<u8>)
    requires
        rec.reads(f, ts, seq),
        i == 1 || i == 3,
        valid_utf8(f[i]),
        n <= 0xffff_ffff,
        f[i] == decimal_text(n) + mm,
        mm.len() >= 3,
        is_digit(mm[0]),
        is_digit(mm[1]),
        mm[2] == 0x2e,
    ensures
        (if i == 1 {
            rec.lat_deg
        } else {
            rec.lon_deg
        }) matches Some(dm) && dm.degrees == n && dm.minutes@ == decode_utf8(mm),
{
    if i == 1 {
        lemma_coordinate_degrees(rec.lat_deg, f[1], f[2], 0x53, n, mm);
    } else {
        lemma_coordinate_degrees(rec.lon_deg, f[3], f[4], 0x57, n, mm);
    }
}

/// In a GGA record the fix quality (field 5) and the satellite count
/// (field 6), when written as the decimal number `n` of at most 65535, are
/// read as exactly `n`.
pub proof fn lemma_gga_counts(rec: Gga, f: Seq<Seq<u8>>, ts: i64, seq: u64, n: nat)
    requires
        rec.reads(f, ts, seq),
        n <= 0xffff,
    ensures
        f[5] == decimal_text(n) ==> rec.fix_quality == n,
        f[6] == decimal_text(n) ==> rec.num_sats == n,
{
    lemma_decimal_reads_back(n, 0xffff);
}

/// The documented field order of RMC — time, status, latitude, N/S,
/// longitude, E/W, speed, course, date, magnetic variation, [its E/W],
/// [mode] — is the one read: each text comes from its field, the status
/// is `V` when its field is empty, the variation's direction is `\0` and
/// the mode empty when their fields are absent.
pub proof fn lemma_rmc_layout(rec: Rmc, f: Seq<Seq<u8>>, ts: i64, seq: u64)
    requires
        rec.reads(f, ts, seq),
    ensures
        rec.seq == seq,
        rec.ts_unix_ms == ts,
        rec.utc_time@ == decode_utf8(f[0]),
        decode_utf8(f[1]).len() == 0 ==> rec.status == 'V',
        decode_utf8(f[1]).len() > 0 ==> rec.status == decode_utf8(f[1])[0],
        rec.sog_knots@ == decode_utf8(f[6]),
        rec.cog_deg@ == decode_utf8(f[7]),
        rec.utc_date@ == decode_utf8(f[8]),
        rec.mag_var@ == decode_utf8(f[9]),
        f.len() <= 10 ==> rec.mag_var_ew == '\0',
        f.len() > 10 && decode_utf8(f[10]).len() > 0 ==> rec.mag_var_ew == decode_utf8(f[10])[0],
        f.len() <= 11 ==> rec.mode@.len() == 0,
        f.len() > 11 ==> rec.mode@ == decode_utf8(f[11]),
{
}

/// The documented field order of GGA — time, latitude, N/S, longitude,
/// E/W, fix quality, satellites, HDOP, altitude, its unit, geoid
/// separation — is the one read; the altitude unit is skipped.
pub proof fn lemma_gga_layout(rec: Gga, f: Seq<Seq<u8>>, ts: i64, seq: u64)
    requires
        rec.reads(f, ts, seq),
    ensures
        rec.seq == seq,
        rec.ts_unix_ms == ts,
        rec.utc_time@ == decode_utf8(f[0]),
        rec.hdop@ == decode_utf8(f[7]),
        rec.altitude_m@ == decode_utf8(f[8]),
        rec.geoid_sep_m@ == decode_utf8(f[10]),
{
}

/// Reads a latitude (`ddmm.mmmm`) with its hemisphere; `S` is south.
pub fn parse_lat(v: &str, hemi: &str) -> (c: Option<DegreesMinutes>)
    ensures
        coordinate_read(c, v.spec_bytes(), hemi.spec_bytes(), 0x53),
{
    read_coordinate(v, hemi, 0x53)
}

/// Reads a longitude (`dddmm.mmmm`) with its hemisphere; `W` is west.
pub fn parse_lon(v: &str, hemi: &str) -> (c: Option<DegreesMinutes>)
    ensures
        coordinate_read(c, v.spec_bytes(), hemi.spec_bytes(), 0x57),
{
    read_coordinate(v, hemi, 0x57)
}

/// The first character of `t`, or `default` when `t` is empty.
pub open spec fn first_char_or(t: Seq<char>, default: char) -> char {
    if t.len() > 0 {
        t[0]
    } else {
        default
    }
}

/// The text of field `i`, or the empty text when there is no such field.
pub open spec fn field_text(f: Seq<Seq<u8>>, i: int) -> Seq<char> {
    if 0 <= i < f.len() {
        decode_utf8(f[i])
    } else {
        seq![]
    }
}

/// The first character of a field, or `default` when it is empty.
fn first_char_or_default(s: &str, default: char) -> (c: char)
    ensures
        c == first_char_or(decode_utf8(s.spec_bytes()), default),
{
    if s.is_empty() {
        default
    } else {
        s.get_char(0)
    }
}

/// The data fields of an RMC line: there must be at least ten of them
/// (time, status, latitude, N/S, longitude, E/W, speed, course, date,
/// magnetic variation, and optionally its E/W and a mode).
pub open spec fn rmc_fields(line: Seq<u8>) -> Option<Seq<Seq<u8>>> {
    match sentence_fields(line) {
        Some(f) => if f.len() >= 10 {
            Some(f)
        } else {
            None
        },
        None => None,
    }
}

/// The data fields of a GGA line: there must be at least eleven of them
/// (time, latitude, N/S, longitude, E/W, fix quality, satellites, HDOP,
/// altitude, its unit, geoid separation, ...).
pub open spec fn gga_fields(line: Seq<u8>) -> Option<Seq<Seq<u8>>> {
    match sentence_fields(line) {
        Some(f) => if f.len() >= 11 {
            Some(f)
        } else {
            None
        },
        None => None,
    }
}

/// An RMC record. The speed, course and magnetic variation are the texts
/// of their fields.
#[derive(Debug, Clone)]
pub struct Rmc {
    /// Sequence number, the instance key.
    pub seq: u64,
    pub utc_time: String,
    pub utc_date: String,
    /// `A` (valid) or `V` (void).
    pub status: char,
    pub lat_deg: Option<DegreesMinutes>,
    pub lon_deg: Option<DegreesMinutes>,
    pub sog_knots: String,
    pub cog_deg: String,
    pub mag_var: String,
    /// `E` or `W`, or `\0` when absent.
    pub mag_var_ew: char,
    pub mode: String,
    /// Reception time of the raw line, in milliseconds since the Unix epoch.
    pub ts_unix_ms: i64,
}

/// A GGA record. The dilution and the altitudes are the texts of their
/// fields.
#[derive(Debug, Clone)]
pub struct Gga {
    /// Sequence number, the instance key.
    pub seq: u64,
    pub utc_time: String,
    pub lat_deg: Option<DegreesMinutes>,
    pub lon_deg: Option<DegreesMinutes>,
    pub fix_quality: u16,
    pub num_sats: u16,
    pub hdop: String,
    pub altitude_m: String,
    pub geoid_sep_m: String,
    /// Reception time of the raw line, in milliseconds since the Unix epoch.
    pub ts_unix_ms: i64,
}

/// A field read as a `u16`, or 0 when it reads as none.
pub open spec fn u16_or_zero(t: Seq<u8>) -> u16 {
    match parsed_unsigned(t, 0xffff) {
        Some(n) => n as u16,
        None => 0,
    }
}

impl Rmc {
    /// The record is what the fields `f` of an RMC line read as, received
    /// at `ts` and numbered `seq`.
    pub open spec fn reads(self, f: Seq<Seq<u8>>, ts: i64, seq: u64) -> bool {
        &&& self.seq == seq
        &&& self.utc_time@ == decode_utf8(f[0])
        &&& self.status == first_char_or(decode_utf8(f[1]), 'V')
        &&& coordinate_read(self.lat_deg, f[2], f[3], 0x53)
        &&& coordinate_read(self.lon_deg, f[4], f[5], 0x57)
        &&& self.sog_knots@ == decode_utf8(f[6])
        &&& self.cog_deg@ == decode_utf8(f[7])
        &&& self.utc_date@ == decode_utf8(f[8])
        &&& self.mag_var@ == decode_utf8(f[9])
        &&& self.mag_var_ew == first_char_or(field_text(f, 10), '\0')
        &&& self.mode@ == field_text(f, 11)
        &&& self.ts_unix_ms == ts
    }
}

impl Gga {
    /// The record is what the fields `f` of a GGA line read as, received
    /// at `ts` and numbered `seq`.
    pub open spec fn reads(self, f: Seq<Seq<u8>>, ts: i64, seq: u64) -> bool {
        &&& self.seq == seq
        &&& self.utc_time@ == decode_utf8(f[0])
        &&& coordinate_read(self.lat_deg, f[1], f[2], 0x53)
        &&& coordinate_read(self.lon_deg, f[3], f[4], 0x57)
        &&& self.fix_quality == u16_or_zero(f[5])
        &&& self.num_sats == u16_or_zero(f[6])
        &&& self.hdop@ == decode_utf8(f[7])
        &&& self.altitude_m@ == decode_utf8(f[8])
        &&& self.geoid_sep_m@ == decode_utf8(f[10])
        &&& self.ts_unix_ms == ts
    }
}

/// One call that may take a number from a counter: when `taken`, the
/// counter goes from `before` to `before + 1` and the new value is the
/// number handed out; otherwise the counter stays and no number is handed
/// out.
pub open spec fn counter_step(taken: bool, before: u64, number: Option<u64>, after: u64) -> bool {
    if taken {
        after == before + 1 && number == Some(after)
    } else {
        after == before && number is None
    }
}

/// The numbers handed out by a run of calls, in call order.
pub open spec fn handed_out(numbers: Seq<Option<u64>>) -> Seq<u64>
    decreases numbers.len(),
{
    if numbers.len() == 0 {
        seq![]
    } else {
        let rest = handed_out(numbers.drop_last());
        match numbers.last() {
            Some(k) => rest.push(k),
            None => rest,
        }
    }
}

/// The sequence number of a record, if one was made.
pub open spec fn rmc_number(r: Option<Rmc>) -> Option<u64> {
    match r {
        Some(rec) => Some(rec.seq),
        None => None,
    }
}

/// The sequence number of a record, if one was made.
pub open spec fn gga_number(r: Option<Gga>) -> Option<u64> {
    match r {
        Some(rec) => Some(rec.seq),
        None => None,
    }
}

/// Over any run of calls that each take a number from the counter or not
/// (as `parse_rmc`, `parse_gga` and `republish` do), the numbers handed out
/// are `start + 1, start + 2, ..., start + n` in call order, with no gap and
/// no repeat, and the counter ends at `start + n`: every record gets a fresh
/// instance key.
pub proof fn lemma_counter_numbers(takens: Seq<bool>, numbers: Seq<Option<u64>>, counters: Seq<u64>)
    requires
        takens.len() == numbers.len(),
        counters.len() == numbers.len() + 1,
        forall|i: int|
            0 <= i < numbers.len() ==> counter_step(
                #[trigger] takens[i],
                counters[i],
                numbers[i],
                counters[i + 1],
            ),
    ensures
        counters.last() == counters[0] + handed_out(numbers).len(),
        handed_out(numbers) == Seq::new(
            handed_out(numbers).len(),
            |j: int| (counters[0] + j + 1) as u64,
        ),
    decreases numbers.len(),
{
    if numbers.len() > 0 {
        let k = numbers.len() - 1;
        let t2 = takens.drop_last();
        let n2 = numbers.drop_last();
        let c2 = counters.drop_last();
        assert forall|i: int| 0 <= i < n2.len() implies counter_step(
            #[trigger] t2[i],
            c2[i],
            n2[i],
            c2[i + 1],
        ) by {
            assert(counter_step(takens[i], counters[i], numbers[i], counters[i + 1]));
        }
        lemma_counter_numbers(t2, n2, c2);
        assert(counter_step(takens[k], counters[k], numbers[k], counters[k + 1]));
        assert(c2.last() == counters[k]);
        let h = handed_out(numbers);
        assert(h == Seq::new(h.len(), |j: int| (counters[0] + j + 1) as u64));
    }
}

/// What reading an RMC line asks of its input: when it is an RMC line, the
/// sequence number can still grow.
pub open spec fn rmc_input_ok(line: Seq<u8>, seq: u64) -> bool {
    rmc_fields(line) is Some ==> seq < u64::MAX
}

/// What reading a GGA line asks of its input: when it is a GGA line, the
/// sequence number can still grow.
pub open spec fn gga_input_ok(line: Seq<u8>, seq: u64) -> bool {
    gga_fields(line) is Some ==> seq < u64::MAX
}

/// Reads an RMC line received at `ts_ms`. A line with fewer than ten data
/// fields gives `None` and leaves `seq` as it is; otherwise `seq` is
/// advanced by one and the record carries the new value.
pub fn parse_rmc(line: &str, ts_ms: i64, seq: &mut u64) -> (r: Option<Rmc>)
    requires
        rmc_input_ok(line.spec_bytes(), *old(seq)),
    ensures
        r is Some <==> rmc_fields(line.spec_bytes()) is Some,
        r is None ==> *final(seq) == *old(seq),
        counter_step(r is Some, *old(seq), rmc_number(r), *final(seq)),
        r matches Some(rec) ==> *final(seq) == *old(seq) + 1 && rec.reads(
            rmc_fields(line.spec_bytes())->0,
            ts_ms,
            *final(seq),
        ),
{
    let f = match fields_after_first_comma(line) {
        Some(f) => f,
        None => {
            return None;
        },
    };
    if f.len() < 10 {
        return None;
    }
    let ghost fb = str_bytes(f@);
    let utc_time = f[0].to_owned();
    let status = first_char_or_default(f[1], 'V');
    let lat_deg = parse_lat(f[2], f[3]);
    let lon_deg = parse_lon(f[4], f[5]);
    let sog_knots = f[6].to_owned();
    let cog_deg = f[7].to_owned();
    let utc_date = f[8].to_owned();
    let mag_var = f[9].to_owned();
    let mag_var_ew = if f.len() > 10 {
        first_char_or_default(f[10], '\0')
    } else {
        '\0'
    };
    let mode = if f.len() > 11 {
        f[11].to_owned()
    } else {
        String::new()
    };
    *seq = *seq + 1;
    let rec = Rmc {
        seq: *seq,
        utc_time,
        utc_date,
        status,
        lat_deg,
        lon_deg,
        sog_knots,
        cog_deg,
        mag_var,
        mag_var_ew,
        mode,
        ts_unix_ms: ts_ms,
    };
    assert(rec.reads(fb, ts_ms, *seq));
    Some(rec)
}

/// Reads a GGA line received at `ts_ms`. A line with fewer than eleven
/// data fields gives `None` and leaves `seq` as it is; otherwise `seq` is
/// advanced by one and the record carries the new value.
pub fn parse_gga(line: &str, ts_ms: i64, seq: &mut u64) -> (r: Option<Gga>)
    requires
        gga_input_ok(line.spec_bytes(), *old(seq)),
    ensures
        r is Some <==> gga_fields(line.spec_bytes()) is Some,
        r is None ==> *final(seq) == *old(seq),
        counter_step(r is Some, *old(seq), gga_number(r), *final(seq)),
        r matches Some(rec) ==> *final(seq) == *old(seq) + 1 && rec.reads(
            gga_fields(line.spec_bytes())->0,
            ts_ms,
            *final(seq),
        ),
{
    let f = match fields_after_first_comma(line) {
        Some(f) => f,
        None => {
            return None;
        },
    };
    if f.len() < 11 {
        return None;
    }
    let ghost fb = str_bytes(f@);
    let utc_time = f[0].to_owned();
    let lat_deg = parse_lat(f[1], f[2]);
    let lon_deg = parse_lon(f[3], f[4]);
    let fix_quality = match parse_unsigned(f[5], 0xffff) {
        Some(x) => x as u16,
        None => 0,
    };
    let num_sats = match parse_unsigned(f[6], 0xffff) {
        Some(x) => x as u16,
        None => 0,
    };
    let hdop = f[7].to_owned();
    let altitude_m = f[8].to_owned();
    let geoid_sep_m = f[10].to_owned();
    *seq = *seq + 1;
    let rec = Gga {
        seq: *seq,
        utc_time,
        lat_deg,
        lon_deg,
        fix_quality,
        num_sats,
        hdop,
        altitude_m,
        geoid_sep_m,
        ts_unix_ms: ts_ms,
    };
    assert(rec.reads(fb, ts_ms, *seq));
    Some(rec)
}

/// What to republish for a received raw line.
#[derive(Debug, Clone)]
pub enum Republish {
    /// The line was an RMC sentence with enough fields.
    Rmc(Rmc),
    /// The line was a GGA sentence with enough fields.
    Gga(Gga),
    /// Nothing to republish.
    Nothing,
}

/// The UTF-8 bytes of a string.
pub open spec fn string_bytes(s: String) -> Seq<u8> {
    encode_utf8(s@)
}

/// What choosing the republication asks of its input: the reading of the
/// line that its mnemonic selects must be possible.
pub open spec fn republish_input_ok(raw: RawSentence, seq_rmc: u64, seq_gga: u64) -> bool {
    &&& raw.sentence@ == "RMC"@ ==> rmc_input_ok(string_bytes(raw.raw), seq_rmc)
    &&& raw.sentence@ == "GGA"@ ==> gga_input_ok(string_bytes(raw.raw), seq_gga)
}

/// Chooses what to republish for a received raw line: an `RMC` line is
/// read as an RMC record (numbered from `seq_rmc`), a `GGA` line as a GGA
/// record (numbered from `seq_gga`); a line of another mnemonic, or one
/// with too few fields, gives nothing. Only the counter of the record that
/// is made advances.
pub fn republish(raw: &RawSentence, seq_rmc: &mut u64, seq_gga: &mut u64) -> (action: Republish)
    requires
        republish_input_ok(*raw, *old(seq_rmc), *old(seq_gga)),
    ensures
        raw.sentence@ == "RMC"@ ==> *final(seq_gga) == *old(seq_gga) && match action {
            Republish::Rmc(r) => *final(seq_rmc) == *old(seq_rmc) + 1 && r.reads(
                rmc_fields(string_bytes(raw.raw))->0,
                raw.ts_unix_ms,
                *final(seq_rmc),
            ),
            Republish::Nothing => rmc_fields(string_bytes(raw.raw)) is None && *final(seq_rmc)
                == *old(seq_rmc),
            Republish::Gga(_) => false,
        },
        raw.sentence@ == "GGA"@ ==> *final(seq_rmc) == *old(seq_rmc) && match action {
            Republish::Gga(g) => *final(seq_gga) == *old(seq_gga) + 1 && g.reads(
                gga_fields(string_bytes(raw.raw))->0,
                raw.ts_unix_ms,
                *final(seq_gga),
            ),
            Republish::Nothing => gga_fields(string_bytes(raw.raw)) is None && *final(seq_gga)
                == *old(seq_gga),
            Republish::Rmc(_) => false,
        },
        raw.sentence@ != "RMC"@ && raw.sentence@ != "GGA"@ ==> action is Nothing && *final(seq_rmc)
            == *old(seq_rmc) && *final(seq_gga) == *old(seq_gga),
{
    proof {
        reveal_strlit("RMC");
        reveal_strlit("GGA");
        assert("RMC"@[0] != "GGA"@[0]);
        assert("RMC"@ != "GGA"@);
    }
    let line = raw.raw.as_str();
    if raw.sentence == "RMC".to_owned() {
        match parse_rmc(line, raw.ts_unix_ms, seq_rmc) {
            Some(r) => Republish::Rmc(r),
            None => Republish::Nothing,
        }
    } else if raw.sentence == "GGA".to_owned() {
        match parse_gga(line, raw.ts_unix_ms, seq_gga) {
            Some(g) => Republish::Gga(g),
            None => Republish::Nothing,
        }
    } else {
        Republish::Nothing
    }
}

/// Whether `republish` can be called on this line with these counters,
/// that is whether its input is as it asks.
pub fn can_republish(raw: &RawSentence, seq_rmc: u64, seq_gga: u64) -> (ok: bool)
    ensures
        ok == republish_input_ok(*raw, seq_rmc, seq_gga),
{
    proof {
        reveal_strlit("RMC");
        reveal_strlit("GGA");
        assert("RMC"@[0] != "GGA"@[0]);
        assert("RMC"@ != "GGA"@);
    }
    let line = raw.raw.as_str();
    let is_rmc = raw.sentence == "RMC".to_owned();
    let is_gga = raw.sentence == "GGA".to_owned();
    if !is_rmc && !is_gga {
        return true;
    }
    let f = match fields_after_first_comma(line) {
        Some(f) => f,
        None => {
            return true;
        },
    };
    if is_rmc {
        if f.len() < 10 {
            return true;
        }
        seq_rmc < u64::MAX
    } else {
        if f.len() < 11 {
            return true;
        }
        seq_gga < u64::MAX
    }
}

} // verus!

//! Key codec: pure conversions between a `Measurement` and the two binary
//! key encodings used by the dual-index store.
//!
//! * Time-primary key: 8-byte big-endian `timestamp_us`, then the raw sensor
//!   name bytes. Lexicographic byte order of these keys equals numeric order
//!   of timestamps; equal timestamps sub-sort by sensor bytes.
//! * Sensor-primary key: raw sensor name bytes, one `0x00` separator byte,
//!   then the 8-byte big-endian `timestamp_us`. Lexicographic byte order
//!   groups one sensor's keys contiguously, sub-sorted by timestamp.
//!
//! A sensor name must be well-formed text and must not contain a `0x00`
//! byte: the sensor-primary encoding uses that byte as its separator, so a
//! name holding one would not round-trip. Both decoders reject a key whose
//! sensor bytes are not a valid name.

use vstd::prelude::*;

verus! {

/// One sensor reading. The sensor name is carried as its raw bytes (the form
/// in which it is stored in the keys); the reading's numeric value is carried
/// as the 64 bits of its wire representation, which the codec and the store
/// never interpret.
pub struct Measurement {
    pub sensor: Vec<u8>,
    pub timestamp_us: u64,
    pub value_bits: u64,
}

/// The mathematical value of a measurement: the sensor bytes as a sequence,
/// the timestamp and the value bits.
pub ghost struct MeasurementView {
    pub sensor: Seq<u8>,
    pub timestamp_us: u64,
    pub value_bits: u64,
}

impl MeasurementView {
    /// A sensor name is valid for the key encodings iff it is valid text
    /// holding no `0x00` byte (the sensor-primary separator).
    pub open spec fn sensor_wf(self) -> bool {
        sensor_name_wf(self.sensor)
    }
}

/// A valid sensor name: well-formed text without a `0x00` byte.
pub open spec fn sensor_name_wf(s: Seq<u8>) -> bool {
    is_utf8(s) && forall|i: int| 0 <= i < s.len() ==> s[i] != 0u8
}

/// A continuation byte of a multi-byte text sequence.
pub open spec fn is_utf8_cont(b: u8) -> bool {
    0x80 <= b && b <= 0xBF
}

/// Whether `s` is well-formed UTF-8: one-byte sequences below 0x80,
/// two-byte sequences from 0xC2, three- and four-byte sequences with the
/// ranges that exclude overlong forms, surrogates and values past
/// 0x10FFFF.
pub open spec fn is_utf8(s: Seq<u8>) -> bool
    decreases s.len(),
{
    if s.len() == 0 {
        true
    } else {
        let b0 = s[0];
        if b0 < 0x80 {
            is_utf8(s.skip(1))
        } else if 0xC2 <= b0 && b0 <= 0xDF {
            s.len() >= 2 && is_utf8_cont(s[1]) && is_utf8(s.skip(2))
        } else if b0 == 0xE0 {
            s.len() >= 3 && 0xA0 <= s[1] && s[1] <= 0xBF && is_utf8_cont(s[2]) && is_utf8(
                s.skip(3),
            )
        } else if b0 == 0xED {
            s.len() >= 3 && 0x80 <= s[1] && s[1] <= 0x9F && is_utf8_cont(s[2]) && is_utf8(
                s.skip(3),
            )
        } else if 0xE1 <= b0 && b0 <= 0xEF {
            s.len() >= 3 && is_utf8_cont(s[1]) && is_utf8_cont(s[2]) && is_utf8(s.skip(3))
        } else if b0 == 0xF0 {
            s.len() >= 4 && 0x90 <= s[1] && s[1] <= 0xBF && is_utf8_cont(s[2]) && is_utf8_cont(
                s[3],
            ) && is_utf8(s.skip(4))
        } else if 0xF1 <= b0 && b0 <= 0xF3 {
            s.len() >= 4 && is_utf8_cont(s[1]) && is_utf8_cont(s[2]) && is_utf8_cont(s[3])
                && is_utf8(s.skip(4))
        } else if b0 == 0xF4 {
            s.len() >= 4 && 0x80 <= s[1] && s[1] <= 0x8F && is_utf8_cont(s[2]) && is_utf8_cont(
                s[3],
            ) && is_utf8(s.skip(4))
        } else {
            false
        }
    }
}

impl View for Measurement {
    type V = MeasurementView;

    open spec fn view(&self) -> MeasurementView {
        MeasurementView {
            sensor: self.sensor@,
            timestamp_us: self.timestamp_us,
            value_bits: self.value_bits,
        }
    }
}

impl Measurement {

    /// An exact copy of the measurement.
    pub fn duplicate(&self) -> (r: Measurement)
        ensures
            r@ == self@,
    {
        let mut sensor: Vec<u8> = Vec::new();
        let mut i: usize = 0;
        while i < self.sensor.len()
            invariant
                i <= self.sensor.len(),
                sensor@ == self.sensor@.take(i as int),
            decreases self.sensor.len() - i,
        {
            sensor.push(self.sensor[i]);
            assert(sensor@ =~= self.sensor@.take(i as int + 1));
            i = i + 1;
        }
        assert(sensor@ =~= self.sensor@);
        Measurement { sensor, timestamp_us: self.timestamp_us, value_bits: self.value_bits }
    }
}

/// A stored key is malformed: too short, separator missing or misplaced, or
/// the sensor bytes are not a valid sensor name.
#[derive(Debug)]
pub struct KeyDecodingError;

/// Byte `i` (0 = most significant) of the big-endian encoding of `x`.
pub open spec fn be_byte(x: u64, i: int) -> u8 {
    ((x >> (((7 - i) * 8) as u64)) & 0xff) as u8
}

/// The 8-byte big-endian encoding of `x`.
pub open spec fn u64_be_bytes(x: u64) -> Seq<u8> {
    Seq::new(8, |i: int| be_byte(x, i))
}

/// The value whose big-endian encoding an 8-byte sequence is.
pub open spec fn u64_from_be_bytes(s: Seq<u8>) -> u64
    recommends
        s.len() == 8,
{
    ((s[0] as u64) << 56u64) | ((s[1] as u64) << 48u64) | ((s[2] as u64) << 40u64) | ((
    s[3] as u64) << 32u64) | ((s[4] as u64) << 24u64) | ((s[5] as u64) << 16u64) | ((
    s[6] as u64) << 8u64) | (s[7] as u64)
}

/// Strict lexicographic order on byte strings: a proper prefix sorts first,
/// otherwise the first differing byte decides.
pub open spec fn lex_lt(a: Seq<u8>, b: Seq<u8>) -> bool
    decreases a.len(),
{
    if b.len() == 0 {
        false
    } else if a.len() == 0 {
        true
    } else if a[0] < b[0] {
        true
    } else if a[0] > b[0] {
        false
    } else {
        lex_lt(a.skip(1), b.skip(1))
    }
}

/// The index of the first `0x00` byte of `s`, or `s.len()` if there is none.
pub open spec fn first_zero(s: Seq<u8>) -> int
    decreases s.len(),
{
    if s.len() == 0 {
        0
    } else if s[0] == 0u8 {
        0
    } else {
        1 + first_zero(s.skip(1))
    }
}

/// The time-primary key of a measurement.
pub open spec fn time_key(m: MeasurementView) -> Seq<u8> {
    u64_be_bytes(m.timestamp_us) + m.sensor
}

/// The sensor-primary key of a measurement.
pub open spec fn sensor_key(m: MeasurementView) -> Seq<u8> {
    m.sensor + seq![0u8] + u64_be_bytes(m.timestamp_us)
}

/// What decoding a time-primary key yields: the timestamp read from the
/// first 8 bytes and the sensor bytes after them, or nothing if the key is
/// shorter than 8 bytes or the sensor bytes are not a valid sensor name
/// (well-formed text without a `0x00` byte).
#[verifier::opaque]
pub open spec fn spec_decode_time_key(k: Seq<u8>) -> Option<(u64, Seq<u8>)> {
    if k.len() >= 8 && sensor_name_wf(k.skip(8)) {
        Some((u64_from_be_bytes(k.take(8)), k.skip(8)))
    } else {
        None
    }
}

/// What decoding a sensor-primary key yields: the bytes before the first
/// `0x00` separator as the sensor and the 8 bytes after it as the timestamp,
/// or nothing if fewer than 8 bytes follow the separator or the sensor
/// bytes are not valid text.
#[verifier::opaque]
pub open spec fn spec_decode_sensor_key(k: Seq<u8>) -> Option<(u64, Seq<u8>)> {
    let i = first_zero(k);
    if i + 9 <= k.len() && is_utf8(k.take(i)) {
        Some((u64_from_be_bytes(k.subrange(i + 1, i + 9)), k.take(i)))
    } else {
        None
    }
}

/// Appends the 8 big-endian bytes of `x` to `out`.
fn push_u64_be(out: &mut Vec<u8>, x: u64)
    ensures
        final(out)@ == old(out)@ + u64_be_bytes(x),
{
    out.push(((x >> 56u64) & 0xff) as u8);
    out.push(((x >> 48u64) & 0xff) as u8);
    out.push(((x >> 40u64) & 0xff) as u8);
    out.push(((x >> 32u64) & 0xff) as u8);
    out.push(((x >> 24u64) & 0xff) as u8);
    out.push(((x >> 16u64) & 0xff) as u8);
    out.push(((x >> 8u64) & 0xff) as u8);
    out.push(((x >> 0u64) & 0xff) as u8);
    assert(out@ =~= old(out)@ + u64_be_bytes(x));
}

/// The 8 big-endian bytes of `x` as a fresh vector.
pub fn u64_be_vec(x: u64) -> (r: Vec<u8>)
    ensures
        r@ == u64_be_bytes(x),
{
    let mut res: Vec<u8> = Vec::new();
    push_u64_be(&mut res, x);
    res
}

/// Reads the big-endian value of `key[off..off + 8]`.
fn read_u64_be(key: &Vec<u8>, off: usize) -> (x: u64)
    requires
        off + 8 <= key@.len(),
    ensures
        x == u64_from_be_bytes(key@.subrange(off as int, off as int + 8)),
{
    // the vector's length bounds the offsets read below
    let n = key.len();
    ((key[off] as u64) << 56u64) | ((key[off + 1] as u64) << 48u64) | ((key[off + 2] as u64)
        << 40u64) | ((key[off + 3] as u64) << 32u64) | ((key[off + 4] as u64) << 24u64) | ((key[off
        + 5] as u64) << 16u64) | ((key[off + 6] as u64) << 8u64) | (key[off + 7] as u64)
}

/// Whether `b` is a continuation byte of a multi-byte text sequence.
fn is_cont_byte(b: u8) -> (r: bool)
    ensures
        r == is_utf8_cont(b),
{
    0x80 <= b && b <= 0xBF
}

/// Whether `v[from..to]` is well-formed UTF-8.
fn utf8_check(v: &Vec<u8>, from: usize, to: usize) -> (r: bool)
    requires
        from <= to <= v@.len(),
    ensures
        r == is_utf8(v@.subrange(from as int, to as int)),
{
    let mut i: usize = from;
    while i < to
        invariant
            from <= i <= to <= v@.len(),
            is_utf8(v@.subrange(from as int, to as int)) == is_utf8(
                v@.subrange(i as int, to as int),
            ),
        decreases to - i,
    {
        let ghost cur = v@.subrange(i as int, to as int);
        proof {
            assert(cur[0] == v@[i as int]);
        }
        let b0 = v[i];
        let step: usize = if b0 < 0x80 {
            1
        } else if 0xC2 <= b0 && b0 <= 0xDF {
            if to - i < 2 || !is_cont_byte(v[i + 1]) {
                return false;
            }
            2
        } else if b0 == 0xE0 {
            if to - i < 3 || !(0xA0 <= v[i + 1] && v[i + 1] <= 0xBF) || !is_cont_byte(v[i + 2]) {
                return false;
            }
            3
        } else if b0 == 0xED {
            if to - i < 3 || !(0x80 <= v[i + 1] && v[i + 1] <= 0x9F) || !is_cont_byte(v[i + 2]) {
                return false;
            }
            3
        } else if 0xE1 <= b0 && b0 <= 0xEF {
            if to - i < 3 || !is_cont_byte(v[i + 1]) || !is_cont_byte(v[i + 2]) {
                return false;
            }
            3
        } else if b0 == 0xF0 {
            if to - i < 4 || !(0x90 <= v[i + 1] && v[i + 1] <= 0xBF) || !is_cont_byte(v[i + 2])
                || !is_cont_byte(v[i + 3]) {
                return false;
            }
            4
        } else if 0xF1 <= b0 && b0 <= 0xF3 {
            if to - i < 4 || !is_cont_byte(v[i + 1]) || !is_cont_byte(v[i + 2]) || !is_cont_byte(
                v[i + 3],
            ) {
                return false;
            }
            4
        } else if b0 == 0xF4 {
            if to - i < 4 || !(0x80 <= v[i + 1] && v[i + 1] <= 0x8F) || !is_cont_byte(v[i + 2])
                || !is_cont_byte(v[i + 3]) {
                return false;
            }
            4
        } else {
            return false;
        };
        proof {
            assert(cur.skip(step as int) =~= v@.subrange(i as int + step as int, to as int));
        }
        i = i + step;
    }
    proof {
        assert(v@.subrange(to as int, to as int) =~= Seq::<u8>::empty());
    }
    true
}

/// Builds the time-primary key: big-endian timestamp, then sensor bytes.
pub fn get_ts_prefixed_key(m: &Measurement) -> (r: Vec<u8>)
    ensures
        r@ == time_key(m@),
{
    let mut res: Vec<u8> = Vec::new();
    push_u64_be(&mut res, m.timestamp_us);
    let mut i: usize = 0;
    while i < m.sensor.len()
        invariant
            i <= m.sensor.len(),
            res@ == u64_be_bytes(m.timestamp_us) + m.sensor@.take(i as int),
        decreases m.sensor.len() - i,
    {
        res.push(m.sensor[i]);
        assert(res@ =~= u64_be_bytes(m.timestamp_us) + m.sensor@.take(i as int + 1));
        i = i + 1;
    }
    assert(res@ =~= time_key(m@));
    res
}

/// Builds the sensor-primary key: sensor bytes, `0x00`, big-endian timestamp.
pub fn get_sensor_prefixed_key(m: &Measurement) -> (r: Vec<u8>)
    ensures
        r@ == sensor_key(m@),
{
    let mut res: Vec<u8> = Vec::new();
    let mut i: usize = 0;
    while i < m.sensor.len()
        invariant
            i <= m.sensor.len(),
            res@ == m.sensor@.take(i as int),
        decreases m.sensor.len() - i,
    {
        res.push(m.sensor[i]);
        assert(res@ =~= m.sensor@.take(i as int + 1));
        i = i + 1;
    }
    res.push(0);
    push_u64_be(&mut res, m.timestamp_us);
    assert(res@ =~= sensor_key(m@));
    res
}

/// Decodes a time-primary key into its timestamp and sensor bytes.
pub fn decode_ts_prefixed_key(key: &Vec<u8>) -> (r: Result<(u64, Vec<u8>), KeyDecodingError>)
    ensures
        (r is Ok) == (spec_decode_time_key(key@) is Some),
        r matches Ok(p) ==> spec_decode_time_key(key@) == Some((p.0, p.1@)),
{
    proof {
        reveal(spec_decode_time_key);
    }
    if key.len() < 8 {
        return Err(KeyDecodingError);
    }
    let mut sensor: Vec<u8> = Vec::new();
    let mut i: usize = 8;
    while i < key.len()
        invariant
            8 <= i <= key@.len(),
            key@.len() >= 8,
            sensor@ == key@.subrange(8, i as int),
            forall|j: int| 8 <= j < i ==> key@[j] != 0u8,
        decreases key@.len() - i,
    {
        if key[i] == 0 {
            proof {
                reveal(spec_decode_time_key);
                assert(key@.skip(8)[i as int - 8] == 0u8);
            }
            return Err(KeyDecodingError);
        }
        sensor.push(key[i]);
        assert(sensor@ =~= key@.subrange(8, i as int + 1));
        i = i + 1;
    }
    proof {
        assert(key@.subrange(8, key@.len() as int) =~= key@.skip(8));
    }
    if !utf8_check(key, 8, key.len()) {
        return Err(KeyDecodingError);
    }
    let ts = read_u64_be(key, 0);
    assert(key@.subrange(0, 8) =~= key@.take(8));
    assert(sensor@ =~= key@.skip(8));
    Ok((ts, sensor))
}

/// Decodes a sensor-primary key into its timestamp and sensor bytes.
pub fn decode_sensor_prefixed_key(key: &Vec<u8>) -> (r: Result<(u64, Vec<u8>), KeyDecodingError>)
    ensures
        (r is Ok) == (spec_decode_sensor_key(key@) is Some),
        r matches Ok(p) ==> spec_decode_sensor_key(key@) == Some((p.0, p.1@)),
{
    proof {
        reveal(spec_decode_sensor_key);
    }
    let mut i: usize = 0;
    while i < key.len() && key[i] != 0
        invariant
            0 <= i <= key@.len(),
            forall|j: int| 0 <= j < i ==> key@[j] != 0u8,
        decreases key@.len() - i,
    {
        i = i + 1;
    }
    proof {
        lemma_first_zero_at(key@, i as int);
    }
    if key.len() < 9 || i > key.len() - 9 {
        return Err(KeyDecodingError);
    }
    proof {
        assert(key@.subrange(0, i as int) =~= key@.take(i as int));
    }
    if !utf8_check(key, 0, i) {
        return Err(KeyDecodingError);
    }
    let ts = read_u64_be(key, i + 1);
    let mut sensor: Vec<u8> = Vec::new();
    let mut j: usize = 0;
    while j < i
        invariant
            0 <= j <= i <= key@.len(),
            sensor@ == key@.take(j as int),
        decreases i - j,
    {
        sensor.push(key[j]);
        assert(sensor@ =~= key@.take(j as int + 1));
        j = j + 1;
    }
    Ok((ts, sensor))
}

/// If the first `i` bytes of `s` are nonzero and byte `i` (if any) is zero,
/// then `i` is the first-zero position of `s`.
proof fn lemma_first_zero_at(s: Seq<u8>, i: int)
    requires
        0 <= i <= s.len(),
        forall|j: int| 0 <= j < i ==> s[j] != 0u8,
        i < s.len() ==> s[i] == 0u8,
    ensures
        first_zero(s) == i,
    decreases i,
{
    if i == 0 {
    } else {
        assert(s[0] != 0u8);
        lemma_first_zero_at(s.skip(1), i - 1);
    }
}

/// The first-zero position of `p + [0] + t` is `p.len()` when `p` holds no
/// zero byte.
proof fn lemma_first_zero_concat(p: Seq<u8>, t: Seq<u8>)
    requires
        forall|i: int| 0 <= i < p.len() ==> p[i] != 0u8,
    ensures
        first_zero(p + seq![0u8] + t) == p.len(),
{
    let k = p + seq![0u8] + t;
    assert(forall|j: int| 0 <= j < p.len() ==> k[j] != 0u8);
    assert(k[p.len() as int] == 0u8);
    lemma_first_zero_at(k, p.len() as int);
}

/// Big-endian encoding and decoding invert each other.
pub proof fn lemma_u64_be_round_trip(x: u64)
    ensures
        u64_from_be_bytes(u64_be_bytes(x)) == x,
{
    let s = u64_be_bytes(x);
    assert(s[0] == ((x >> 56u64) & 0xff) as u8);
    assert(s[1] == ((x >> 48u64) & 0xff) as u8);
    assert(s[2] == ((x >> 40u64) & 0xff) as u8);
    assert(s[3] == ((x >> 32u64) & 0xff) as u8);
    assert(s[4] == ((x >> 24u64) & 0xff) as u8);
    assert(s[5] == ((x >> 16u64) & 0xff) as u8);
    assert(s[6] == ((x >> 8u64) & 0xff) as u8);
    assert(s[7] == ((x >> 0u64) & 0xff) as u8);
    assert(((((x >> 56u64) & 0xff) as u8 as u64) << 56u64) | ((((x >> 48u64) & 0xff) as u8 as u64)
        << 48u64) | ((((x >> 40u64) & 0xff) as u8 as u64) << 40u64) | ((((x >> 32u64)
        & 0xff) as u8 as u64) << 32u64) | ((((x >> 24u64) & 0xff) as u8 as u64) << 24u64) | ((((x
        >> 16u64) & 0xff) as u8 as u64) << 16u64) | ((((x >> 8u64) & 0xff) as u8 as u64) << 8u64)
        | (((x >> 0u64) & 0xff) as u8 as u64) == x) by (bit_vector);
}

/// If `x < y`, the big-endian byte suffixes from position `k` on compare
/// lexicographically in the same direction, provided the first `k` bytes of
/// the encodings agree.
proof fn lemma_u64_be_suffix_lt(x: u64, y: u64, k: u64)
    requires
        x < y,
        k < 8,
        k == 0 || (x >> ((64 - 8 * k) as u64)) == (y >> ((64 - 8 * k) as u64)),
    ensures
        lex_lt(u64_be_bytes(x).skip(k as int), u64_be_bytes(y).skip(k as int)),
    decreases 8 - k,
{
    let a = u64_be_bytes(x);
    let b = u64_be_bytes(y);
    let ak = a.skip(k as int);
    let bk = b.skip(k as int);
    assert(ak[0] == be_byte(x, k as int));
    assert(bk[0] == be_byte(y, k as int));
    assert(be_byte(x, k as int) == ((x >> (((7 - k) * 8) as u64)) & 0xff) as u8);
    assert(be_byte(y, k as int) == ((y >> (((7 - k) * 8) as u64)) & 0xff) as u8);
    if ((x >> (((7 - k) * 8) as u64)) & 0xff) as u8 == ((y >> (((7 - k) * 8) as u64))
        & 0xff) as u8 {
        assert(k < 7) by (bit_vector)
            requires
                x < y,
                k < 8,
                k == 0 || (x >> ((64 - 8 * k) as u64)) == (y >> ((64 - 8 * k) as u64)),
                ((x >> (((7 - k) * 8) as u64)) & 0xff) as u8 == ((y >> (((7 - k) * 8) as u64))
                    & 0xff) as u8,
        ;
        assert((x >> ((64 - 8 * (k + 1)) as u64)) == (y >> ((64 - 8 * (k + 1)) as u64)))
            by (bit_vector)
            requires
                x < y,
                k < 7,
                k == 0 || (x >> ((64 - 8 * k) as u64)) == (y >> ((64 - 8 * k) as u64)),
                ((x >> (((7 - k) * 8) as u64)) & 0xff) as u8 == ((y >> (((7 - k) * 8) as u64))
                    & 0xff) as u8,
        ;
        lemma_u64_be_suffix_lt(x, y, (k + 1) as u64);
        assert(ak.skip(1) =~= a.skip(k as int + 1));
        assert(bk.skip(1) =~= b.skip(k as int + 1));
        assert(lex_lt(ak, bk));
    } else {
        assert((((x >> (((7 - k) * 8) as u64)) & 0xff) as u8) < (((y >> (((7 - k) * 8) as u64))
            & 0xff) as u8)) by (bit_vector)
            requires
                x < y,
                k < 8,
                k == 0 || (x >> ((64 - 8 * k) as u64)) == (y >> ((64 - 8 * k) as u64)),
                !(((x >> (((7 - k) * 8) as u64)) & 0xff) as u8 == ((y >> (((7 - k) * 8) as u64))
                    & 0xff) as u8),
        ;
        assert(lex_lt(ak, bk));
    }
}

/// Numeric order of two values equals lexicographic order of their
/// big-endian encodings.
pub proof fn lemma_u64_be_lt(x: u64, y: u64)
    requires
        x < y,
    ensures
        lex_lt(u64_be_bytes(x), u64_be_bytes(y)),
{
    lemma_u64_be_suffix_lt(x, y, 0);
    assert(u64_be_bytes(x).skip(0) =~= u64_be_bytes(x));
    assert(u64_be_bytes(y).skip(0) =~= u64_be_bytes(y));
}

/// Appending anything to each of two equal-length ordered strings keeps
/// their order.
proof fn lemma_lex_lt_concat(a: Seq<u8>, b: Seq<u8>, s: Seq<u8>, t: Seq<u8>)
    requires
        a.len() == b.len(),
        lex_lt(a, b),
    ensures
        lex_lt(a + s, b + t),
    decreases a.len(),
{
    if a.len() == 0 {
        assert(false);
    } else if a[0] < b[0] {
        assert(lex_lt(a + s, b + t));
    } else {
        assert(a[0] == b[0]);
        lemma_lex_lt_concat(a.skip(1), b.skip(1), s, t);
        assert((a + s).skip(1) =~= a.skip(1) + s);
        assert((b + t).skip(1) =~= b.skip(1) + t);
        assert(lex_lt(a + s, b + t));
    }
}

/// A shared prefix does not affect the order of what follows it.
proof fn lemma_lex_lt_prefix(p: Seq<u8>, s: Seq<u8>, t: Seq<u8>)
    ensures
        lex_lt(p + s, p + t) == lex_lt(s, t),
    decreases p.len(),
{
    if p.len() == 0 {
        assert(p + s =~= s);
        assert(p + t =~= t);
    } else {
        lemma_lex_lt_prefix(p.skip(1), s, t);
        assert((p + s).skip(1) =~= p.skip(1) + s);
        assert((p + t).skip(1) =~= p.skip(1) + t);
    }
}

/// No byte string sorts strictly before itself.
pub proof fn lemma_lex_irrefl(a: Seq<u8>)
    ensures
        !lex_lt(a, a),
    decreases a.len(),
{
    if a.len() > 0 {
        lemma_lex_irrefl(a.skip(1));
    }
}

/// Two byte strings never sort strictly before each other both ways.
pub proof fn lemma_lex_asym(a: Seq<u8>, b: Seq<u8>)
    ensures
        !(lex_lt(a, b) && lex_lt(b, a)),
    decreases a.len(),
{
    if a.len() > 0 && b.len() > 0 && a[0] == b[0] {
        lemma_lex_asym(a.skip(1), b.skip(1));
    }
}

/// An extension of a byte string never sorts strictly before the string.
pub proof fn lemma_lex_prefix_not_lt(a: Seq<u8>, s: Seq<u8>)
    ensures
        !lex_lt(a + s, a),
    decreases a.len(),
{
    if a.len() > 0 {
        lemma_lex_prefix_not_lt(a.skip(1), s);
        assert((a + s).skip(1) =~= a.skip(1) + s);
    }
}

/// Decoding and re-encoding an 8-byte string is the identity.
pub proof fn lemma_u64_be_bytes_of(s: Seq<u8>)
    requires
        s.len() == 8,
    ensures
        u64_be_bytes(u64_from_be_bytes(s)) == s,
{
    let b0 = s[0];
    let b1 = s[1];
    let b2 = s[2];
    let b3 = s[3];
    let b4 = s[4];
    let b5 = s[5];
    let b6 = s[6];
    let b7 = s[7];
    let x = u64_from_be_bytes(s);
    assert(x == ((b0 as u64) << 56u64) | ((b1 as u64) << 48u64) | ((b2 as u64) << 40u64) | ((
    b3 as u64) << 32u64) | ((b4 as u64) << 24u64) | ((b5 as u64) << 16u64) | ((b6 as u64) << 8u64)
        | (b7 as u64));
    assert({
        let y = ((b0 as u64) << 56u64) | ((b1 as u64) << 48u64) | ((b2 as u64) << 40u64) | ((
        b3 as u64) << 32u64) | ((b4 as u64) << 24u64) | ((b5 as u64) << 16u64) | ((b6 as u64)
            << 8u64) | (b7 as u64);
        ((y >> 56u64) & 0xff) as u8 == b0 && ((y >> 48u64) & 0xff) as u8 == b1 && ((y >> 40u64)
            & 0xff) as u8 == b2 && ((y >> 32u64) & 0xff) as u8 == b3 && ((y >> 24u64)
            & 0xff) as u8 == b4 && ((y >> 16u64) & 0xff) as u8 == b5 && ((y >> 8u64)
            & 0xff) as u8 == b6 && ((y >> 0u64) & 0xff) as u8 == b7
    }) by (bit_vector);
    assert(u64_be_bytes(x) =~= s);
}

/// The sensor bytes of a decodable time-primary key form a valid sensor
/// name: the decoder rejects malformed text and embedded zero bytes.
pub proof fn lemma_time_key_sensor_wf(k: Seq<u8>)
    requires
        spec_decode_time_key(k) is Some,
    ensures
        spec_decode_time_key(k) matches Some(d) ==> sensor_name_wf(d.1),
{
    reveal(spec_decode_time_key);
}

/// A decodable time-primary key is the encoding of what it decodes to.
pub proof fn lemma_time_key_decompose(k: Seq<u8>)
    requires
        spec_decode_time_key(k) is Some,
    ensures
        spec_decode_time_key(k) matches Some(d) ==> k == u64_be_bytes(d.0) + d.1,
{
    reveal(spec_decode_time_key);
    if let Some(d) = spec_decode_time_key(k) {
        lemma_u64_be_bytes_of(k.take(8));
        assert(k =~= k.take(8) + k.skip(8));
    }
}

/// Among decodable time-primary keys, byte order never contradicts
/// timestamp order.
pub proof fn lemma_time_key_ts_order(k1: Seq<u8>, k2: Seq<u8>)
    requires
        spec_decode_time_key(k1) is Some,
        spec_decode_time_key(k2) is Some,
        lex_lt(k1, k2),
    ensures
        spec_decode_time_key(k1) matches Some(d1) ==> (spec_decode_time_key(k2) matches Some(d2)
            ==> d1.0 <= d2.0),
{
    let d1 = spec_decode_time_key(k1)->0;
    let d2 = spec_decode_time_key(k2)->0;
    lemma_time_key_decompose(k1);
    lemma_time_key_decompose(k2);
    if d2.0 < d1.0 {
        lemma_u64_be_lt(d2.0, d1.0);
        lemma_lex_lt_concat(u64_be_bytes(d2.0), u64_be_bytes(d1.0), d2.1, d1.1);
        lemma_lex_asym(k1, k2);
    }
}

/// A decodable time-primary key sorts before the bare encoding of a cutoff
/// timestamp exactly when its own timestamp is below the cutoff.
pub proof fn lemma_time_key_cutoff(k: Seq<u8>, cutoff: u64)
    requires
        spec_decode_time_key(k) is Some,
    ensures
        spec_decode_time_key(k) matches Some(d) ==> (lex_lt(k, u64_be_bytes(cutoff)) <==> d.0
            < cutoff),
{
    let d = spec_decode_time_key(k)->0;
    lemma_time_key_decompose(k);
    if d.0 < cutoff {
        lemma_u64_be_lt(d.0, cutoff);
        lemma_lex_lt_concat(
            u64_be_bytes(d.0),
            u64_be_bytes(cutoff),
            d.1,
            Seq::<u8>::empty(),
        );
        assert(u64_be_bytes(cutoff) + Seq::<u8>::empty() =~= u64_be_bytes(cutoff));
    } else if d.0 == cutoff {
        lemma_lex_prefix_not_lt(u64_be_bytes(cutoff), d.1);
    } else {
        lemma_u64_be_lt(cutoff, d.0);
        lemma_lex_lt_concat(
            u64_be_bytes(cutoff),
            u64_be_bytes(d.0),
            Seq::<u8>::empty(),
            d.1,
        );
        assert(u64_be_bytes(cutoff) + Seq::<u8>::empty() =~= u64_be_bytes(cutoff));
        lemma_lex_asym(k, u64_be_bytes(cutoff));
    }
}

/// Round trip for the time-primary codec: decoding an encoded key yields the
/// measurement's timestamp and sensor.
pub proof fn lemma_time_key_round_trip(m: MeasurementView)
    requires
        m.sensor_wf(),
    ensures
        spec_decode_time_key(time_key(m)) == Some((m.timestamp_us, m.sensor)),
{
    reveal(spec_decode_time_key);
    let k = time_key(m);
    assert(k.take(8) =~= u64_be_bytes(m.timestamp_us));
    assert(k.skip(8) =~= m.sensor);
    lemma_u64_be_round_trip(m.timestamp_us);
    assert(sensor_name_wf(k.skip(8)));
}

/// Round trip for the sensor-primary codec: decoding an encoded key yields
/// the measurement's timestamp and sensor.
pub proof fn lemma_sensor_key_round_trip(m: MeasurementView)
    requires
        m.sensor_wf(),
    ensures
        spec_decode_sensor_key(sensor_key(m)) == Some((m.timestamp_us, m.sensor)),
{
    reveal(spec_decode_sensor_key);
    let k = sensor_key(m);
    let n = m.sensor.len() as int;
    lemma_first_zero_concat(m.sensor, u64_be_bytes(m.timestamp_us));
    assert(k.subrange(n + 1, n + 9) =~= u64_be_bytes(m.timestamp_us));
    assert(k.take(n) =~= m.sensor);
    lemma_u64_be_round_trip(m.timestamp_us);
}

/// Time-primary keys order by timestamp: an earlier measurement's key sorts
/// strictly before a later one's, whatever the sensors.
pub proof fn lemma_time_key_ordering(a: MeasurementView, b: MeasurementView)
    requires
        a.timestamp_us < b.timestamp_us,
    ensures
        lex_lt(time_key(a), time_key(b)),
{
    lemma_u64_be_lt(a.timestamp_us, b.timestamp_us);
    lemma_lex_lt_concat(
        u64_be_bytes(a.timestamp_us),
        u64_be_bytes(b.timestamp_us),
        a.sensor,
        b.sensor,
    );
}

/// Sensor-primary keys of one sensor order by timestamp.
pub proof fn lemma_sensor_key_same_sensor(a: MeasurementView, b: MeasurementView)
    requires
        a.sensor == b.sensor,
        a.timestamp_us < b.timestamp_us,
    ensures
        lex_lt(sensor_key(a), sensor_key(b)),
{
    let p = a.sensor + seq![0u8];
    lemma_u64_be_lt(a.timestamp_us, b.timestamp_us);
    lemma_lex_lt_prefix(p, u64_be_bytes(a.timestamp_us), u64_be_bytes(b.timestamp_us));
    assert(p + u64_be_bytes(a.timestamp_us) =~= sensor_key(a));
    assert(p + u64_be_bytes(b.timestamp_us) =~= sensor_key(b));
}

/// Appending the separator and a timestamp to two differently ordered valid
/// sensor names keeps the order of the names.
proof fn lemma_lex_lt_separated(sa: Seq<u8>, sb: Seq<u8>, ta: Seq<u8>, tb: Seq<u8>)
    requires
        lex_lt(sa, sb),
        forall|i: int| 0 <= i < sb.len() ==> sb[i] != 0u8,
    ensures
        lex_lt(sa + seq![0u8] + ta, sb + seq![0u8] + tb),
    decreases sa.len(),
{
    let ka = sa + seq![0u8] + ta;
    let kb = sb + seq![0u8] + tb;
    assert(sb.len() > 0);
    if sa.len() == 0 {
        assert(ka[0] == 0u8);
        assert(kb[0] == sb[0]);
        assert(sb[0] != 0u8);
        assert(lex_lt(ka, kb));
    } else if sa[0] < sb[0] {
        assert(ka[0] == sa[0]);
        assert(kb[0] == sb[0]);
        assert(lex_lt(ka, kb));
    } else {
        assert(sa[0] == sb[0]);
        assert(forall|i: int| 0 <= i < sb.skip(1).len() ==> sb.skip(1)[i] != 0u8);
        lemma_lex_lt_separated(sa.skip(1), sb.skip(1), ta, tb);
        assert(ka.skip(1) =~= sa.skip(1) + seq![0u8] + ta);
        assert(kb.skip(1) =~= sb.skip(1) + seq![0u8] + tb);
        assert(lex_lt(ka, kb));
    }
}

/// Sensor-primary keys of different sensors order by sensor name: every key
/// of the earlier-sorting sensor compares strictly before every key of the
/// other, whatever the timestamps.
pub proof fn lemma_sensor_key_diff_sensor(a: MeasurementView, b: MeasurementView)
    requires
        b.sensor_wf(),
        lex_lt(a.sensor, b.sensor),
    ensures
        lex_lt(sensor_key(a), sensor_key(b)),
{
    lemma_lex_lt_separated(
        a.sensor,
        b.sensor,
        u64_be_bytes(a.timestamp_us),
        u64_be_bytes(b.timestamp_us),
    );
}

} // verus!

//! Shared codec primitives used by device area models.
//!
//! MIDI devices store parameters in a handful of recurring shapes; this module
//! collects the conversions so each device doesn't re-implement them:
//!
//! - **single byte** — a plain `0..=n` value or `0/1` boolean ([`bool_byte`],
//!   [`ranged`]), or one of a fixed set ([`ByteEnum`]).
//! - **centred signed** — `value = byte − center` ([`signed_center`] /
//!   [`to_signed_center`]); e.g. `center = 0x40` for `−12..=+12`.
//! - **14-bit split** — `hi` = bits 13..7, `lo` = bits 6..0 ([`read_u14`] /
//!   [`write_u14`]).
//! - **16-bit nibble-packed** — four bytes, one nibble each, MSN first
//!   ([`read_u16_nibbles`] / [`write_u16_nibbles`]).
//! - **ASCII** — space-padded fixed-width names ([`read_ascii`] / [`write_ascii`]).
//! - **reserved bytes** — capture/re-apply undocumented payload bytes so a
//!   decode→encode round-trips byte-exact ([`RawByte`], [`capture_reserved`],
//!   [`apply_reserved`]).
//! - **checksum** — the Roland/Yamaha "sum to 0 mod 128" rule ([`checksum`]).
//! - **framing** — split a buffer into SysEx frames ([`split_sysex`]).

use vstd::prelude::*;
use vstd::string::*;

use crate::text::{self, chars_of, decimal, hex, integer, leak};

verus! {

// === errors ===

/// Errors from decoding/encoding typed area models over their byte buffers.
#[allow(inconsistent_fields)]
#[derive(Debug, Clone, PartialEq, Eq)]
pub enum CodecError {
    WrongLength { expected: usize, actual: usize },
    InvalidValue { field: &'static str, value: u8, valid: &'static str },
    OutOfRange { field: &'static str, value: i32, valid: &'static str },
    BadString { field: &'static str, reason: &'static str },
    Yaml(String),
    MissingBlock(&'static str),
}

impl CodecError {
    /// What the error reads as.
    pub open spec fn message_text(self) -> Seq<char> {
        match self {
            CodecError::WrongLength { expected, actual } => "expected at least "@ + text::decimal_text(
                expected as nat,
            ) + " bytes, got "@ + text::decimal_text(actual as nat),
            CodecError::InvalidValue { field, value, valid } => "invalid "@ + field@ + " value "@ + text::hex_text(
                value,
            ) + " (valid: "@ + valid@ + ")"@,
            CodecError::OutOfRange { field, value, valid } => field@ + " out of range: "@ + text::integer_text(
                value as int,
            ) + " (valid: "@ + valid@ + ")"@,
            CodecError::BadString { field, reason } => field@ + ": invalid ASCII string ("@ + reason@ + ")"@,
            CodecError::Yaml(detail) => "YAML: "@ + detail@,
            CodecError::MissingBlock(name) => "missing required block: "@ + name@,
        }
    }

    /// The error as a one-line message.
    pub fn message(&self) -> (r: String)
        ensures
            r@ == self.message_text(),
    {
        match self {
            CodecError::WrongLength { expected, actual } => {
                let mut out = "expected at least ".to_owned();
                out.append(decimal(*expected as u64).as_str());
                out.append(" bytes, got ");
                out.append(decimal(*actual as u64).as_str());
                out
            },
            CodecError::InvalidValue { field, value, valid } => {
                let mut out = "invalid ".to_owned();
                out.append(field);
                out.append(" value ");
                out.append(hex(*value).as_str());
                out.append(" (valid: ");
                out.append(valid);
                out.append(")");
                out
            },
            CodecError::OutOfRange { field, value, valid } => {
                let mut out = (*field).to_owned();
                out.append(" out of range: ");
                out.append(integer(*value as i64).as_str());
                out.append(" (valid: ");
                out.append(valid);
                out.append(")");
                out
            },
            CodecError::BadString { field, reason } => {
                let mut out = (*field).to_owned();
                out.append(": invalid ASCII string (");
                out.append(reason);
                out.append(")");
                out
            },
            CodecError::Yaml(detail) => {
                let mut out = "YAML: ".to_owned();
                out.append(detail.as_str());
                out
            },
            CodecError::MissingBlock(name) => {
                let mut out = "missing required block: ".to_owned();
                out.append(name);
                out
            },
        }
    }
}

// === single bytes ===

/// A fixed set of variants, each carried by one wire byte.
#[derive(Debug, Clone, Copy)]
pub struct ByteEnum {
    /// The name of the set, for error messages.
    pub field: &'static str,
    /// The wire byte of each variant, in order.
    pub values: &'static [u8],
    /// The valid values, for error messages.
    pub valid: &'static str,
}

/// The first variant that a wire byte stands for.
pub open spec fn variant_of(values: Seq<u8>, b: u8) -> Option<int> {
    values.index_of_first(b)
}

impl ByteEnum {
    /// Decode the wire byte: the index of the first variant that it stands for.
    pub fn from_byte(&self, b: u8) -> (r: Result<usize, CodecError>)
        ensures
            match r {
                Ok(i) => variant_of(self.values@, b) == Some(i as int),
                Err(e) => {
                    &&& variant_of(self.values@, b) is None
                    &&& e == (CodecError::InvalidValue { field: self.field, value: b, valid: self.valid })
                },
            },
    {
        let values = self.values;
        let mut i: usize = 0;
        proof {
            values@.index_of_first_ensures(b);
        }
        while i < values.len()
            invariant
                values == self.values,
                i <= values@.len(),
                forall|j: int| 0 <= j < i ==> values@[j] != b,
            decreases values@.len() - i,
        {
            if values[i] == b {
                proof {
                    values@.index_of_first_ensures(b);
                }
                return Ok(i);
            }
            i += 1;
        }
        Err(CodecError::InvalidValue { field: self.field, value: b, valid: self.valid })
    }

    /// Encode to the wire byte.
    pub fn to_byte(&self, variant: usize) -> (r: u8)
        requires
            variant < self.values@.len(),
        ensures
            r == self.values@[variant as int],
    {
        self.values[variant]
    }
}

/// `0 => false`, `1 => true`, anything else is an error.
pub fn bool_byte(b: u8, field: &'static str) -> (r: Result<bool, CodecError>)
    ensures
        match r {
            Ok(on) => b <= 1 && on == (b == 1),
            Err(e) => b > 1 && e == (CodecError::InvalidValue { field, value: b, valid: "0=off, 1=on" }),
        },
{
    match b {
        0 => Ok(false),
        1 => Ok(true),
        _ => Err(CodecError::InvalidValue { field, value: b, valid: "0=off, 1=on" }),
    }
}

/// How the range `lo..=hi` reads in an error.
pub open spec fn range_text(lo: int, hi: int) -> Seq<char> {
    text::integer_text(lo) + "..="@ + text::integer_text(hi)
}

/// `e` says that `field` has the value `value`, outside `lo..=hi`.
pub open spec fn out_of_range(e: CodecError, field: &'static str, value: int, lo: int, hi: int) -> bool {
    e matches CodecError::OutOfRange { field: f, value: v, valid } && f == field && v == value && valid@ == range_text(
        lo,
        hi,
    )
}

/// Format a `lo..=hi` range into a `'static` string for error messages.
fn leak_range(lo: i32, hi: i32) -> (r: &'static str)
    ensures
        r@ == range_text(lo as int, hi as int),
{
    let mut out = integer(lo as i64);
    out.append("..=");
    out.append(integer(hi as i64).as_str());
    leak(out)
}

/// Validate that `b` lies in `lo..=hi` and return it unchanged.
pub fn ranged(b: u8, lo: u8, hi: u8, field: &'static str) -> (r: Result<u8, CodecError>)
    ensures
        match r {
            Ok(v) => lo <= b <= hi && v == b,
            Err(e) => !(lo <= b <= hi) && out_of_range(e, field, b as int, lo as int, hi as int),
        },
{
    if lo <= b && b <= hi {
        Ok(b)
    } else {
        Err(CodecError::OutOfRange { field, value: b as i32, valid: leak_range(lo as i32, hi as i32) })
    }
}

// === centred signed bytes ===

/// The value that a centred-signed byte stands for, where it lies in `lo..=hi`
/// and a signed byte can hold it.
pub open spec fn centred(b: u8, center: u8, lo: int, hi: int) -> Option<int> {
    if lo <= b - center <= hi && -128 <= b - center <= 127 {
        Some(b - center)
    } else {
        None
    }
}

/// The wire byte of a centred-signed value, where the value lies in `lo..=hi` and
/// a byte can hold it.
pub open spec fn uncentred(v: int, center: u8, lo: int, hi: int) -> Option<int> {
    if lo <= v <= hi && 0 <= v + center <= 255 {
        Some(v + center)
    } else {
        None
    }
}

/// Decode a centred-signed byte: actual value = `b − center`, validated to
/// `lo..=hi` (e.g. `center = 0x40` for `−12..=+12`). A value that a signed byte
/// cannot hold is out of range too.
pub fn signed_center(b: u8, center: u8, lo: i32, hi: i32, field: &'static str) -> (r: Result<i8, CodecError>)
    ensures
        match r {
            Ok(v) => centred(b, center, lo as int, hi as int) == Some(v as int),
            Err(e) => {
                &&& centred(b, center, lo as int, hi as int) is None
                &&& out_of_range(e, field, b - center, lo as int, hi as int)
            },
        },
{
    let v: i32 = b as i32 - center as i32;
    if lo <= v && v <= hi && -128 <= v && v <= 127 {
        Ok(v as i8)
    } else {
        Err(CodecError::OutOfRange { field, value: v, valid: leak_range(lo, hi) })
    }
}

/// Encode a centred-signed value back to its wire byte (`v + center`), validated.
/// A value whose wire byte does not exist is out of range too.
pub fn to_signed_center(v: i8, center: u8, lo: i32, hi: i32, field: &'static str) -> (r: Result<u8, CodecError>)
    ensures
        match r {
            Ok(b) => uncentred(v as int, center, lo as int, hi as int) == Some(b as int),
            Err(e) => {
                &&& uncentred(v as int, center, lo as int, hi as int) is None
                &&& out_of_range(e, field, v as int, lo as int, hi as int)
            },
        },
{
    let vi: i32 = v as i32;
    let sum: i32 = vi + center as i32;
    if lo <= vi && vi <= hi && 0 <= sum && sum <= 255 {
        Ok(sum as u8)
    } else {
        Err(CodecError::OutOfRange { field, value: vi, valid: leak_range(lo, hi) })
    }
}

// === split and packed numbers ===

/// The number in two 7-bit bytes.
pub open spec fn u14_of(hi: u8, lo: u8) -> int {
    (hi % 128) * 128 + lo % 128
}

/// The number in four nibbles, the most significant first.
pub open spec fn nibbles_of(a: u8, b: u8, c: u8, d: u8) -> int {
    (a % 16) * 4096 + (b % 16) * 256 + (c % 16) * 16 + d % 16
}

/// Decode a 14-bit value: `hi` carries bits 13..7, `lo` carries bits 6..0.
pub fn read_u14(hi: u8, lo: u8) -> (r: u16)
    ensures
        r == u14_of(hi, lo),
{
    assert(((hi as u16 & 0x7F) << 7) | (lo as u16 & 0x7F) == (hi % 128) * 128 + lo % 128) by (bit_vector);
    ((hi as u16 & 0x7F) << 7) | (lo as u16 & 0x7F)
}

/// Encode a 14-bit value into its `(hi, lo)` byte pair.
pub fn write_u14(v: u16) -> (r: (u8, u8))
    ensures
        r.0 == v / 128 % 128,
        r.1 == v % 128,
{
    assert((v >> 7) & 0x7F == v / 128 % 128 && v & 0x7F == v % 128) by (bit_vector);
    (((v >> 7) & 0x7F) as u8, (v & 0x7F) as u8)
}

/// Decode a nibble-packed 16-bit value: four bytes, one nibble each, MSN first.
pub fn read_u16_nibbles(b: &[u8]) -> (r: u16)
    requires
        b@.len() >= 4,
    ensures
        r == nibbles_of(b@[0], b@[1], b@[2], b@[3]),
{
    let w: u8 = b[0];
    let x: u8 = b[1];
    let y: u8 = b[2];
    let z: u8 = b[3];
    assert(((w as u16 & 0x0F) << 12) | ((x as u16 & 0x0F) << 8) | ((y as u16 & 0x0F) << 4) | (z as u16 & 0x0F) == (w
        % 16) * 4096 + (x % 16) * 256 + (y % 16) * 16 + z % 16) by (bit_vector);
    ((w as u16 & 0x0F) << 12) | ((x as u16 & 0x0F) << 8) | ((y as u16 & 0x0F) << 4) | (z as u16 & 0x0F)
}

/// Encode a 16-bit value into four nibble-carrying bytes, MSN first.
pub fn write_u16_nibbles(v: u16) -> (r: [u8; 4])
    ensures
        r@ == seq![(v / 4096) as u8, (v / 256 % 16) as u8, (v / 16 % 16) as u8, (v % 16) as u8],
{
    assert((v >> 12) & 0x0F == v / 4096 && (v >> 8) & 0x0F == v / 256 % 16 && (v >> 4) & 0x0F == v / 16 % 16 && v & 0x0F
        == v % 16) by (bit_vector);
    [((v >> 12) & 0x0F) as u8, ((v >> 8) & 0x0F) as u8, ((v >> 4) & 0x0F) as u8, (v & 0x0F) as u8]
}

// === ASCII names ===

/// The characters that ASCII bytes stand for.
pub open spec fn ascii_chars(bytes: Seq<u8>) -> Seq<char> {
    Seq::new(bytes.len(), |i: int| bytes[i] as char)
}

/// A name without the spaces and NULs that end it.
pub open spec fn unpadded(s: Seq<char>) -> Seq<char>
    decreases s.len(),
{
    if s.len() > 0 && (s.last() == ' ' || s.last() == '\0') {
        unpadded(s.drop_last())
    } else {
        s
    }
}

/// Every byte is an ASCII character.
pub open spec fn all_ascii_bytes(bytes: Seq<u8>) -> bool {
    forall|i: int| 0 <= i < bytes.len() ==> #[trigger] bytes[i] < 0x80
}

/// Every character is an ASCII one.
pub open spec fn all_ascii(s: Seq<char>) -> bool {
    forall|i: int| 0 <= i < s.len() ==> text::is_ascii_char(#[trigger] s[i])
}

/// A name as a field of `width` bytes: cut to it, or filled up with spaces.
pub open spec fn padded(s: Seq<char>, width: nat) -> Seq<u8> {
    Seq::new(
        width,
        |i: int|
            if i < s.len() {
                s[i] as u8
            } else {
                0x20u8
            },
    )
}

/// Decode an ASCII field, trimming trailing spaces and NULs.
pub fn read_ascii(bytes: &[u8], field: &'static str) -> (r: Result<String, CodecError>)
    ensures
        match r {
            Ok(s) => all_ascii_bytes(bytes@) && s@ == unpadded(ascii_chars(bytes@)),
            Err(e) => !all_ascii_bytes(bytes@) && e == (CodecError::BadString { field, reason: "byte >= 0x80" }),
        },
{
    let mut chars: Vec<char> = Vec::new();
    let mut i: usize = 0;
    while i < bytes.len()
        invariant
            i <= bytes@.len(),
            chars@.len() == i,
            forall|j: int| 0 <= j < i ==> #[trigger] bytes@[j] < 0x80 && chars@[j] == bytes@[j] as char,
        decreases bytes@.len() - i,
    {
        if bytes[i] >= 0x80 {
            return Err(CodecError::BadString { field, reason: "byte >= 0x80" });
        }
        chars.push(bytes[i] as char);
        i += 1;
    }
    assert(chars@ =~= ascii_chars(bytes@));
    let mut end: usize = chars.len();
    assert(chars@.take(end as int) =~= chars@);
    while end > 0 && (chars[end - 1] == ' ' || chars[end - 1] == '\0')
        invariant
            end <= chars@.len(),
            unpadded(chars@.take(end as int)) == unpadded(chars@),
        ensures
            end <= chars@.len(),
            chars@.take(end as int) == unpadded(chars@),
        decreases end,
    {
        assert(chars@.take(end as int).drop_last() =~= chars@.take(end - 1));
        end -= 1;
    }
    Ok(text::text_of(&chars, 0, end))
}

/// Encode a name into a fixed-width ASCII field, space-padded and truncated.
pub fn write_ascii(s: &str, width: usize, field: &'static str) -> (r: Result<Vec<u8>, CodecError>)
    ensures
        match r {
            Ok(out) => all_ascii(s@) && out@ == padded(s@, width as nat),
            Err(e) => !all_ascii(s@) && e == (CodecError::BadString { field, reason: "non-ASCII character" }),
        },
{
    let chars = chars_of(s);
    let mut i: usize = 0;
    while i < chars.len()
        invariant
            chars@ == s@,
            i <= chars@.len(),
            forall|j: int| 0 <= j < i ==> text::is_ascii_char(#[trigger] s@[j]),
        decreases chars@.len() - i,
    {
        let c: char = chars[i];
        if !text::is_ascii(c) {
            return Err(CodecError::BadString { field, reason: "non-ASCII character" });
        }
        i += 1;
    }
    let mut out: Vec<u8> = Vec::new();
    let mut k: usize = 0;
    while k < width
        invariant
            chars@ == s@,
            k <= width,
            out@ == padded(s@, width as nat).take(k as int),
        decreases width - k,
    {
        if k < chars.len() {
            out.push(chars[k] as u8);
        } else {
            out.push(0x20u8);
        }
        assert(out@ =~= padded(s@, width as nat).take(k + 1));
        k += 1;
    }
    assert(padded(s@, width as nat).take(width as int) =~= padded(s@, width as nat));
    Ok(out)
}

// === reserved bytes ===

/// A single raw byte the typed model doesn't interpret — a documented-reserved
/// offset the device populates, or a trailing byte added by newer firmware.
/// Captured so every area round-trips byte-exact even where the manual is silent.
#[derive(Debug, Clone, Copy, PartialEq, Eq, Structural)]
pub struct RawByte {
    pub offset: u16,
    pub value: u8,
}

/// The byte at `i`, or zero past the end.
pub open spec fn byte_at(s: Seq<u8>, i: int) -> u8 {
    if 0 <= i < s.len() {
        s[i]
    } else {
        0
    }
}

/// The typed fields alone do not give the byte at `i`: the input has one past
/// their end, or a different one.
pub open spec fn is_reserved(input: Seq<u8>, typed_only: Seq<u8>, i: int) -> bool {
    typed_only.len() <= i < input.len() || byte_at(input, i) != byte_at(typed_only, i)
}

/// The raw bytes among the first `n` places, in order: those that `typed_only`
/// does not give. An offset keeps its lower 16 bits.
pub open spec fn captured(input: Seq<u8>, typed_only: Seq<u8>, n: nat) -> Seq<RawByte>
    decreases n,
{
    if n == 0 {
        seq![]
    } else {
        let before = captured(input, typed_only, (n - 1) as nat);
        let i = n - 1;
        if is_reserved(input, typed_only, i) {
            before.push(RawByte { offset: (i % 65536) as u16, value: byte_at(input, i) })
        } else {
            before
        }
    }
}

/// The larger of two lengths.
pub open spec fn longer(a: nat, b: nat) -> nat {
    if a >= b {
        a
    } else {
        b
    }
}

/// A buffer with one raw byte overlaid, grown with zeros where it must be.
pub open spec fn overlaid(buf: Seq<u8>, r: RawByte) -> Seq<u8> {
    Seq::new(
        longer(buf.len(), (r.offset + 1) as nat),
        |i: int|
            if i == r.offset {
                r.value
            } else {
                byte_at(buf, i)
            },
    )
}

/// A buffer with raw bytes overlaid one after another.
pub open spec fn applied(buf: Seq<u8>, reserved: Seq<RawByte>) -> Seq<u8>
    decreases reserved.len(),
{
    if reserved.len() == 0 {
        buf
    } else {
        overlaid(applied(buf, reserved.drop_last()), reserved.last())
    }
}

/// Collect the offsets where the device payload differs from what the typed
/// fields alone produce, trailing bytes included. Applied via [`apply_reserved`] to make
/// decode→encode byte-exact.
pub fn capture_reserved(input: &[u8], typed_only: &[u8]) -> (r: Vec<RawByte>)
    ensures
        r@ == captured(input@, typed_only@, longer(input@.len(), typed_only@.len())),
{
    let n: usize = if input.len() >= typed_only.len() { input.len() } else { typed_only.len() };
    let mut out: Vec<RawByte> = Vec::new();
    let mut i: usize = 0;
    while i < n
        invariant
            i <= n,
            out@ == captured(input@, typed_only@, i as nat),
        decreases n - i,
    {
        let inp: u8 = if i < input.len() { input[i] } else { 0 };
        let typ: u8 = if i < typed_only.len() { typed_only[i] } else { 0 };
        if (typed_only.len() <= i && i < input.len()) || inp != typ {
            assert(i as u16 == i % 65536) by (bit_vector);
            out.push(RawByte { offset: i as u16, value: inp });
        }
        i += 1;
    }
    out
}

/// Overlay captured reserved bytes onto an encode buffer, growing it if a
/// trailing offset lies past the current end.
pub fn apply_reserved(buf: &mut Vec<u8>, reserved: &[RawByte])
    ensures
        final(buf)@ == applied(old(buf)@, reserved@),
{
    let ghost start = buf@;
    let mut k: usize = 0;
    assert(reserved@.take(0) =~= Seq::<RawByte>::empty());
    while k < reserved.len()
        invariant
            k <= reserved@.len(),
            buf@ == applied(start, reserved@.take(k as int)),
        decreases reserved@.len() - k,
    {
        let r = reserved[k];
        let ghost before = buf@;
        let i: usize = r.offset as usize;
        while buf.len() <= i
            invariant
                before.len() <= buf@.len(),
                buf@.len() <= longer(before.len(), (i + 1) as nat),
                forall|j: int| 0 <= j < buf@.len() ==> #[trigger] buf@[j] == byte_at(before, j),
            decreases i + 1 - buf@.len(),
        {
            buf.push(0);
        }
        buf.set(i, r.value);
        proof {
            assert(reserved@.take(k + 1).drop_last() =~= reserved@.take(k as int));
            assert(buf@ =~= overlaid(before, r));
        }
        k += 1;
    }
    assert(reserved@.take(k as int) =~= reserved@);
}

// === checksum ===

/// The sum of the bytes.
pub open spec fn byte_sum(bytes: Seq<u8>) -> nat
    decreases bytes.len(),
{
    if bytes.len() == 0 {
        0
    } else {
        byte_sum(bytes.drop_last()) + bytes.last() as nat
    }
}

/// The Roland/Yamaha bulk checksum: the value that makes the lower 7 bits of the
/// sum of `region` plus the checksum equal zero.
///
/// The *formula* is shared; vendors differ only in which bytes are summed — pass
/// the appropriate region. Yamaha sums Model-ID + Address + Data; Roland sums
/// Address + Data. The caller selects the slice.
pub fn checksum(region: &[u8]) -> (r: u8)
    ensures
        r < 0x80,
        (byte_sum(region@) + r) % 0x80 == 0,
{
    let mut sum: u8 = 0;
    let mut i: usize = 0;
    assert(region@.take(0) =~= Seq::<u8>::empty());
    while i < region.len()
        invariant
            i <= region@.len(),
            sum < 0x80,
            sum == byte_sum(region@.take(i as int)) % 0x80,
        decreases region@.len() - i,
    {
        assert(region@.take(i + 1).drop_last() =~= region@.take(i as int));
        sum = ((sum as u16 + region[i] as u16) % 0x80) as u8;
        i += 1;
    }
    assert(region@.take(i as int) =~= region@);
    (0x80 - sum) % 0x80
}

// === framing ===

/// The byte that starts a SysEx frame.
pub const START: u8 = 0xF0;

/// The byte that ends a SysEx frame.
pub const END: u8 = 0xF7;

/// What a buffer holds: its complete frames, in order, and the frame that is
/// still open at its end. Bytes outside a frame are ignored; a start byte drops
/// the frame that is open before it.
pub open spec fn scanned(bytes: Seq<u8>) -> (Seq<Seq<u8>>, Option<Seq<u8>>)
    decreases bytes.len(),
{
    if bytes.len() == 0 {
        (seq![], None)
    } else {
        let (frames, open) = scanned(bytes.drop_last());
        let b = bytes.last();
        if b == START {
            (frames, Some(seq![START]))
        } else {
            match open {
                Some(buf) => if b == END {
                    (frames.push(buf.push(b)), None)
                } else {
                    (frames, Some(buf.push(b)))
                },
                None => (frames, None),
            }
        }
    }
}

/// The complete frames of a buffer, in order.
pub open spec fn frames_of(bytes: Seq<u8>) -> Seq<Seq<u8>> {
    scanned(bytes).0
}

/// The bytes behind a vector of byte vectors.
pub open spec fn byte_seqs(v: Seq<Vec<u8>>) -> Seq<Seq<u8>> {
    Seq::new(v.len(), |i: int| v[i]@)
}

/// Split a buffer into complete SysEx frames (each `F0 … F7`). Bytes outside a
/// frame are ignored. Useful for sending a multi-frame request and for decoding
/// a collected multi-block dump stream.
pub fn split_sysex(bytes: &[u8]) -> (r: Vec<Vec<u8>>)
    ensures
        byte_seqs(r@) == frames_of(bytes@),
{
    let mut out: Vec<Vec<u8>> = Vec::new();
    let mut buf: Vec<u8> = Vec::new();
    let mut open = false;
    let mut i: usize = 0;
    assert(byte_seqs(out@) =~= scanned(bytes@.take(0)).0);
    while i < bytes.len()
        invariant
            i <= bytes@.len(),
            byte_seqs(out@) == scanned(bytes@.take(i as int)).0,
            scanned(bytes@.take(i as int)).1 == (if open { Some(buf@) } else { None::<Seq<u8>> }),
        decreases bytes@.len() - i,
    {
        assert(bytes@.take(i + 1).drop_last() =~= bytes@.take(i as int));
        let b: u8 = bytes[i];
        if b == START {
            buf = Vec::new();
            buf.push(START);
            open = true;
            assert(buf@ =~= seq![START]);
        } else if open {
            buf.push(b);
            if b == END {
                let ghost before = byte_seqs(out@);
                let ghost frame = buf@;
                out.push(buf);
                buf = Vec::new();
                open = false;
                assert(byte_seqs(out@) =~= before.push(frame));
            }
        }
        i += 1;
    }
    assert(bytes@.take(i as int) =~= bytes@);
    out
}

// === laws ===

/// Decoding the byte of a variant gives the variant back, where no two variants
/// have the same byte, and encoding what a byte decodes to gives the byte back.
pub proof fn lemma_variant_round_trip(values: Seq<u8>, i: int, b: u8)
    requires
        0 <= i < values.len(),
    ensures
        values.no_duplicates() ==> variant_of(values, values[i]) == Some(i),
        variant_of(values, b) matches Some(k) ==> 0 <= k < values.len() && values[k] == b,
{
    values.index_of_first_ensures(b);
    values.index_of_first_ensures(values[i]);
    assert(values.contains(values[i]));
}

/// A byte decodes to a signed value exactly where that value encodes to the byte.
pub proof fn lemma_center_round_trip(b: u8, v: i8, center: u8, lo: int, hi: int)
    ensures
        centred(b, center, lo, hi) == Some(v as int) <==> uncentred(v as int, center, lo, hi) == Some(b as int),
{
}

/// Reading what was written gives the lower 14 bits back, and writing what was
/// read gives two 7-bit bytes back.
#[verifier::spinoff_prover]
pub proof fn lemma_u14_round_trip(v: u16, hi: u8, lo: u8)
    requires
        hi < 128,
        lo < 128,
    ensures
        u14_of((v / 128 % 128) as u8, (v % 128) as u8) == v as int % 16384,
        v < 16384 ==> u14_of((v / 128 % 128) as u8, (v % 128) as u8) == v,
        u14_of(hi, lo) / 128 % 128 == hi,
        u14_of(hi, lo) % 128 == lo,
{
    assert((v / 128 % 128) * 128 + v % 128 == v % 16384) by (bit_vector);
}

/// The nibbles of a number make it up.
#[verifier::spinoff_prover]
proof fn lemma_nibbles_make_up(v: u16)
    ensures
        nibbles_of((v / 4096) as u8, (v / 256 % 16) as u8, (v / 16 % 16) as u8, (v % 16) as u8) == v,
{
    assert(v / 4096 < 16 && v / 4096 * 4096 + (v / 256 % 16) * 256 + (v / 16 % 16) * 16 + v % 16 == v) by (bit_vector);
    let (p, q, r, s): (u8, u8, u8, u8) = (
        (v / 4096) as u8,
        (v / 256 % 16) as u8,
        (v / 16 % 16) as u8,
        (v % 16) as u8,
    );
    assert(p == v / 4096 && q == v / 256 % 16 && r == v / 16 % 16 && s == v % 16);
    assert(p % 16 == p && q % 16 == q && r % 16 == r && s % 16 == s);
}

/// A number made up of nibbles has those nibbles.
#[verifier::spinoff_prover]
proof fn lemma_nibbles_made_up(a: u8, b: u8, c: u8, d: u8)
    requires
        a < 16,
        b < 16,
        c < 16,
        d < 16,
    ensures
        nibbles_of(a, b, c, d) / 4096 == a,
        nibbles_of(a, b, c, d) / 256 % 16 == b,
        nibbles_of(a, b, c, d) / 16 % 16 == c,
        nibbles_of(a, b, c, d) % 16 == d,
{
    assert(a % 16 == a && b % 16 == b && c % 16 == c && d % 16 == d);
    let whole = nibbles_of(a, b, c, d);
    assert(whole == a * 4096 + b * 256 + c * 16 + d);
    let n: u16 = whole as u16;
    let (w, x, y, z) = (a as u16, b as u16, c as u16, d as u16);
    assert(n / 4096 == w && n / 256 % 16 == x && n / 16 % 16 == y && n % 16 == z) by (bit_vector)
        requires
            w < 16,
            x < 16,
            y < 16,
            z < 16,
            n == w * 4096 + x * 256 + y * 16 + z,
    ;
    assert(n == whole);
}

/// Reading what was written gives the number back, and writing what was read
/// gives four nibbles back.
pub proof fn lemma_nibbles_round_trip(v: u16, a: u8, b: u8, c: u8, d: u8)
    requires
        a < 16,
        b < 16,
        c < 16,
        d < 16,
    ensures
        nibbles_of((v / 4096) as u8, (v / 256 % 16) as u8, (v / 16 % 16) as u8, (v % 16) as u8) == v,
        nibbles_of(a, b, c, d) / 4096 == a,
        nibbles_of(a, b, c, d) / 256 % 16 == b,
        nibbles_of(a, b, c, d) / 16 % 16 == c,
        nibbles_of(a, b, c, d) % 16 == d,
{
    lemma_nibbles_make_up(v);
    lemma_nibbles_made_up(a, b, c, d);
}

/// Trimming the end of a name twice does no more than once.
proof fn lemma_unpadded_prefix(s: Seq<char>)
    ensures
        unpadded(s).len() <= s.len(),
        unpadded(s) == s.take(unpadded(s).len() as int),
        unpadded(s).len() > 0 ==> unpadded(s).last() != ' ' && unpadded(s).last() != '\0',
        forall|i: int| unpadded(s).len() <= i < s.len() ==> #[trigger] s[i] == ' ' || s[i] == '\0',
    decreases s.len(),
{
    if s.len() > 0 && (s.last() == ' ' || s.last() == '\0') {
        let t = s.drop_last();
        lemma_unpadded_prefix(t);
        assert(s.take(unpadded(s).len() as int) =~= t.take(unpadded(t).len() as int));
        assert forall|i: int| unpadded(s).len() <= i < s.len() implies #[trigger] s[i] == ' ' || s[i] == '\0' by {
            if i < t.len() {
                assert(t[i] == s[i]);
            }
        }
    } else {
        assert(s.take(s.len() as int) =~= s);
    }
}

/// A name followed by padding trims to what the name alone trims to.
proof fn lemma_unpadded_extended(s: Seq<char>, n: nat)
    requires
        n <= s.len(),
        forall|i: int| n <= i < s.len() ==> #[trigger] s[i] == ' ',
    ensures
        unpadded(s) == unpadded(s.take(n as int)),
    decreases s.len(),
{
    if n < s.len() {
        assert(s[s.len() - 1] == ' ');
        lemma_unpadded_extended(s.drop_last(), n);
        assert(s.drop_last().take(n as int) =~= s.take(n as int));
    } else {
        assert(s.take(n as int) =~= s);
    }
}

/// Reading back a written name gives its part that fits the field, without the
/// spaces and NULs that end it. So a name that fits and does not end in those
/// comes back as it was.
pub proof fn lemma_ascii_read_back(s: Seq<char>, width: nat)
    requires
        all_ascii(s),
    ensures
        all_ascii_bytes(padded(s, width)),
        width <= s.len() ==> unpadded(ascii_chars(padded(s, width))) == unpadded(s.take(width as int)),
        width >= s.len() ==> unpadded(ascii_chars(padded(s, width))) == unpadded(s),
        width >= s.len() && unpadded(s) == s ==> unpadded(ascii_chars(padded(s, width))) == s,
{
    let bytes = padded(s, width);
    assert forall|i: int| 0 <= i < bytes.len() implies #[trigger] bytes[i] < 0x80 && ascii_chars(bytes)[i] == (if i
        < s.len() {
        s[i]
    } else {
        ' '
    }) by {
        if i < s.len() {
            assert(text::is_ascii_char(s[i]));
        }
    }
    if width <= s.len() {
        assert(ascii_chars(bytes) =~= s.take(width as int));
    }
    if width >= s.len() {
        assert(ascii_chars(bytes).take(s.len() as int) =~= s);
        lemma_unpadded_extended(ascii_chars(bytes), s.len());
    }
}

/// Writing back a read field gives the same bytes, where its padding is spaces
/// only.
pub proof fn lemma_ascii_write_back(bytes: Seq<u8>)
    requires
        all_ascii_bytes(bytes),
        forall|i: int| unpadded(ascii_chars(bytes)).len() <= i < bytes.len() ==> #[trigger] bytes[i] == 0x20,
    ensures
        all_ascii(unpadded(ascii_chars(bytes))),
        padded(unpadded(ascii_chars(bytes)), bytes.len()) == bytes,
{
    let name = unpadded(ascii_chars(bytes));
    lemma_unpadded_prefix(ascii_chars(bytes));
    assert forall|i: int| 0 <= i < name.len() implies text::is_ascii_char(#[trigger] name[i]) && name[i] as u8 == bytes[i] by {
        assert(name[i] == ascii_chars(bytes)[i]);
        assert(bytes[i] < 0x80);
    }
    assert(padded(name, bytes.len()) =~= bytes);
}

/// What overlaying the captured bytes of the first `n` places leaves in a
/// buffer: the input there, and the buffer as it was beyond them.
proof fn lemma_applied_captured(input: Seq<u8>, typed_only: Seq<u8>, n: nat)
    requires
        n <= 65536,
        n <= longer(input.len(), typed_only.len()),
    ensures
        ({
            let out = applied(typed_only, captured(input, typed_only, n));
            &&& typed_only.len() <= out.len() <= longer(typed_only.len(), n)
            &&& forall|i: int| 0 <= i < n ==> #[trigger] byte_at(out, i) == byte_at(input, i)
            &&& forall|i: int| n <= i ==> #[trigger] byte_at(out, i) == byte_at(typed_only, i)
            &&& typed_only.len() < n <= input.len() ==> out.len() == n
        }),
    decreases n,
{
    if n > 0 {
        let m = (n - 1) as nat;
        lemma_applied_captured(input, typed_only, m);
        let before = captured(input, typed_only, m);
        let all = captured(input, typed_only, n);
        if is_reserved(input, typed_only, m as int) {
            assert(all.drop_last() =~= before);
            let was = applied(typed_only, before);
            let out = applied(typed_only, all);
            assert(out == overlaid(was, all.last()));
            assert(all.last().offset == m);
            assert forall|i: int| 0 <= i < n implies #[trigger] byte_at(out, i) == byte_at(input, i) by {
                if i < m {
                    assert(byte_at(was, i) == byte_at(input, i));
                }
            }
            assert forall|i: int| n <= i implies #[trigger] byte_at(out, i) == byte_at(typed_only, i) by {
                assert(byte_at(was, i) == byte_at(typed_only, i));
            }
        } else {
            let out = applied(typed_only, all);
            assert(byte_at(out, m as int) == byte_at(typed_only, m as int));
        }
    }
}

/// Overlaying the captured bytes onto the typed encoding gives the input back,
/// byte for byte. An input that ends before the typed encoding does comes back
/// with zeros behind it, since nothing overlaid can shorten a buffer.
pub proof fn lemma_reserved_round_trip(input: Seq<u8>, typed_only: Seq<u8>)
    requires
        input.len() <= 65536,
        typed_only.len() <= 65536,
    ensures
        ({
            let n = longer(input.len(), typed_only.len());
            let out = applied(typed_only, captured(input, typed_only, n));
            &&& out.len() == n
            &&& forall|i: int| #[trigger] byte_at(out, i) == byte_at(input, i)
            &&& input.len() >= typed_only.len() ==> out == input
        }),
{
    let n = longer(input.len(), typed_only.len());
    let out = applied(typed_only, captured(input, typed_only, n));
    lemma_applied_captured(input, typed_only, n);
    assert forall|i: int| #[trigger] byte_at(out, i) == byte_at(input, i) by {
        if i >= n {
            assert(byte_at(out, i) == byte_at(typed_only, i));
        }
    }
    if input.len() >= typed_only.len() {
        assert forall|i: int| 0 <= i < input.len() implies out[i] == input[i] by {
            assert(byte_at(out, i) == byte_at(input, i));
        }
        assert(out =~= input);
    }
}

/// No other 7-bit value makes the sum come out to zero.
pub proof fn lemma_checksum_unique(region: Seq<u8>, a: u8, b: u8)
    requires
        a < 0x80,
        b < 0x80,
        (byte_sum(region) + a) % 0x80 == 0,
        (byte_sum(region) + b) % 0x80 == 0,
    ensures
        a == b,
{
}

/// A complete frame: a start byte, a body without framing bytes, an end byte.
pub open spec fn is_frame(f: Seq<u8>) -> bool {
    &&& f.len() >= 2
    &&& f[0] == START
    &&& f.last() == END
    &&& forall|i: int| 0 < i < f.len() - 1 ==> #[trigger] f[i] != START && f[i] != END
}

/// A frame that has not ended yet.
pub open spec fn is_open_frame(f: Seq<u8>) -> bool {
    &&& f.len() >= 1
    &&& f[0] == START
    &&& forall|i: int| 0 < i < f.len() ==> #[trigger] f[i] != START && f[i] != END
}

/// The bytes of all parts (frames, or chunks of a stream), one after another.
pub open spec fn concatenated(parts: Seq<Seq<u8>>) -> Seq<u8>
    decreases parts.len(),
{
    if parts.len() == 0 {
        seq![]
    } else {
        concatenated(parts.drop_last()) + parts.last()
    }
}

/// `part` stands in `whole` without a gap.
pub open spec fn stands_in(part: Seq<u8>, whole: Seq<u8>) -> bool {
    exists|i: int| 0 <= i && i + part.len() <= whole.len() && #[trigger] whole.subrange(i, i + part.len()) == part
}

proof fn lemma_open_is_suffix(bytes: Seq<u8>)
    ensures
        scanned(bytes).1 matches Some(f) ==> is_open_frame(f) && f.len() <= bytes.len() && bytes.skip(
            bytes.len() - f.len(),
        ) == f,
    decreases bytes.len(),
{
    if bytes.len() > 0 {
        let init = bytes.drop_last();
        lemma_open_is_suffix(init);
        if bytes.last() == START {
            assert(bytes.skip(bytes.len() - 1) =~= seq![START]);
        } else if let Some(f) = scanned(init).1 {
            if bytes.last() != END {
                let g = f.push(bytes.last());
                assert(bytes.skip(bytes.len() - g.len()) =~= g) by {
                    assert(init.skip(init.len() - f.len()) == f);
                    assert forall|i: int| 0 <= i < g.len() implies bytes.skip(bytes.len() - g.len())[i] == g[i] by {
                        if i < f.len() {
                            assert(init.skip(init.len() - f.len())[i] == f[i]);
                        }
                    }
                }
            }
        }
    }
}

/// Every frame that splitting gives is complete and stands in the buffer.
pub proof fn lemma_frames_are_frames(bytes: Seq<u8>)
    ensures
        forall|k: int|
            0 <= k < frames_of(bytes).len() ==> is_frame(#[trigger] frames_of(bytes)[k]) && stands_in(
                frames_of(bytes)[k],
                bytes,
            ),
    decreases bytes.len(),
{
    if bytes.len() > 0 {
        let init = bytes.drop_last();
        lemma_frames_are_frames(init);
        lemma_open_is_suffix(init);
        let before = frames_of(init);
        assert forall|k: int| 0 <= k < frames_of(bytes).len() implies is_frame(#[trigger] frames_of(bytes)[k])
            && stands_in(frames_of(bytes)[k], bytes) by {
            let frame = frames_of(bytes)[k];
            if k < before.len() {
                assert(frame == before[k]);
                let i = choose|i: int|
                    0 <= i && i + frame.len() <= init.len() && #[trigger] init.subrange(i, i + frame.len()) == frame;
                assert(bytes.subrange(i, i + frame.len()) =~= frame);
            } else {
                let f = scanned(init).1->Some_0;
                assert(frame == f.push(END));
                let i = init.len() - f.len();
                assert forall|j: int| 0 <= j < frame.len() implies bytes.subrange(i, i + frame.len())[j] == frame[j] by {
                    if j < f.len() {
                        assert(init.skip(i)[j] == f[j]);
                    }
                }
                assert(bytes.subrange(i, i + frame.len()) =~= frame);
            }
        }
    }
}

/// The start of a frame leaves that start open.
proof fn lemma_scan_frame_start(before: Seq<u8>, f: Seq<u8>)
    requires
        is_open_frame(f),
    ensures
        scanned(before + f) == (frames_of(before), Some(f)),
    decreases f.len(),
{
    let all = before + f;
    assert(all.drop_last() =~= before + f.drop_last());
    if f.len() == 1 {
        assert(before + f.drop_last() =~= before);
        assert(f =~= seq![START]);
    } else {
        lemma_scan_frame_start(before, f.drop_last());
        assert(f.drop_last().push(f.last()) =~= f);
    }
}

/// A frame appended to a buffer is the frame that splitting gives after those of
/// the buffer, whatever the buffer ends in.
pub proof fn lemma_frame_appended(before: Seq<u8>, f: Seq<u8>)
    requires
        is_frame(f),
    ensures
        scanned(before + f) == (frames_of(before).push(f), None::<Seq<u8>>),
{
    assert((before + f).drop_last() =~= before + f.drop_last());
    lemma_scan_frame_start(before, f.drop_last());
    assert(f.drop_last().push(f.last()) =~= f);
}

/// A byte outside a frame changes nothing.
pub proof fn lemma_stray_byte_ignored(before: Seq<u8>, b: u8)
    requires
        scanned(before).1 is None,
        b != START,
    ensures
        scanned(before.push(b)) == scanned(before),
{
    assert(before.push(b).drop_last() =~= before);
}

/// Splitting frames that were sent one after another gives them back.
pub proof fn lemma_split_concatenated(frames: Seq<Seq<u8>>)
    requires
        forall|k: int| 0 <= k < frames.len() ==> is_frame(#[trigger] frames[k]),
    ensures
        frames_of(concatenated(frames)) == frames,
    decreases frames.len(),
{
    if frames.len() > 0 {
        let init = frames.drop_last();
        assert forall|k: int| 0 <= k < init.len() implies is_frame(#[trigger] init[k]) by {
            assert(init[k] == frames[k]);
        }
        lemma_split_concatenated(init);
        assert(is_frame(frames[frames.len() - 1]));
        lemma_frame_appended(concatenated(init), frames.last());
        assert(init.push(frames.last()) =~= frames);
    }
}

/// Splitting the frames of a buffer again gives the same frames.
pub proof fn lemma_split_idempotent(bytes: Seq<u8>)
    ensures
        frames_of(concatenated(frames_of(bytes))) == frames_of(bytes),
{
    lemma_frames_are_frames(bytes);
    lemma_split_concatenated(frames_of(bytes));
}

}

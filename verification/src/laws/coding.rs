//! Bytes: what each shape that a parameter is stored in means.

use vstd::prelude::*;

use crate::codec::{
    self, apply_reserved, bool_byte, capture_reserved, checksum, ranged, read_ascii, read_u14, read_u16_nibbles,
    signed_center, split_sysex, to_signed_center, write_ascii, write_u14, write_u16_nibbles, ByteEnum, CodecError, RawByte,
};
use crate::text;

verus! {

// === single bytes ===

/// A byte stands for the first variant that has it, and for none where none has.
pub proof fn lemma_variant_read(e: ByteEnum, b: u8, r: Result<usize, CodecError>)
    requires
        call_ensures(ByteEnum::from_byte, (&e, b), r),
    ensures
        match r {
            Ok(i) => {
                &&& i < e.values@.len()
                &&& e.values@[i as int] == b
                &&& forall|j: int| 0 <= j < i ==> #[trigger] e.values@[j] != b
            },
            Err(f) => {
                &&& forall|j: int| 0 <= j < e.values@.len() ==> #[trigger] e.values@[j] != b
                &&& f == (CodecError::InvalidValue { field: e.field, value: b, valid: e.valid })
            },
        },
{
    e.values@.index_of_first_ensures(b);
}

/// Reading the byte that a variant is written as gives the variant back, where no two
/// variants share a byte.
pub proof fn lemma_variant_written(e: ByteEnum, variant: usize, b: u8, r: Result<usize, CodecError>)
    requires
        variant < e.values@.len(),
        forall|i: int, j: int| 0 <= i < j < e.values@.len() ==> #[trigger] e.values@[i] != #[trigger] e.values@[j],
        call_ensures(ByteEnum::to_byte, (&e, variant), b),
        call_ensures(ByteEnum::from_byte, (&e, b), r),
    ensures
        b == e.values@[variant as int],
        r == Ok::<usize, CodecError>(variant),
{
    lemma_variant_read(e, b, r);
}

/// A switch is off for nought, on for one, and nothing else is a switch.
pub proof fn lemma_switch(b: u8, field: &'static str, r: Result<bool, CodecError>)
    requires
        call_ensures(bool_byte, (b, field), r),
    ensures
        b == 0 ==> r == Ok::<bool, CodecError>(false),
        b == 1 ==> r == Ok::<bool, CodecError>(true),
        b > 1 ==> r == Err::<bool, CodecError>(CodecError::InvalidValue { field, value: b, valid: "0=off, 1=on" }),
{
}

/// An error tells the field, the value and the range that it is out of.
pub open spec fn tells_range(e: CodecError, field: &'static str, value: int, lo: int, hi: int) -> bool {
    &&& e matches CodecError::OutOfRange { field: f, value: v, valid }
    &&& f == field
    &&& v == value
    &&& valid@ == text::integer_text(lo) + "..="@ + text::integer_text(hi)
}

/// A byte in its range is itself; one that is not is refused.
pub proof fn lemma_ranged(b: u8, lo: u8, hi: u8, field: &'static str, r: Result<u8, CodecError>)
    requires
        call_ensures(ranged, (b, lo, hi, field), r),
    ensures
        lo <= b && b <= hi ==> r == Ok::<u8, CodecError>(b),
        b < lo || hi < b ==> (r matches Err(e) && tells_range(e, field, b as int, lo as int, hi as int)),
{
}

/// A centred byte is the distance from its centre, where that is in range and a
/// signed byte can hold it.
pub proof fn lemma_centred_read(b: u8, center: u8, lo: i32, hi: i32, field: &'static str, r: Result<i8, CodecError>)
    requires
        call_ensures(signed_center, (b, center, lo, hi, field), r),
    ensures
        match r {
            Ok(v) => center + v == b && lo <= v && v <= hi,
            Err(e) => {
                &&& tells_range(e, field, b - center, lo as int, hi as int)
                &&& b - center < lo || hi < b - center || b - center < -128 || b - center > 127
            },
        },
{
}

/// A signed value is written as the byte at that distance from the centre, where it is
/// in range and there is such a byte.
pub proof fn lemma_centred_written(v: i8, center: u8, lo: i32, hi: i32, field: &'static str, r: Result<u8, CodecError>)
    requires
        call_ensures(to_signed_center, (v, center, lo, hi, field), r),
    ensures
        match r {
            Ok(b) => center + v == b && lo <= v && v <= hi,
            Err(e) => {
                &&& tells_range(e, field, v as int, lo as int, hi as int)
                &&& v < lo || hi < v || center + v < 0 || center + v > 255
            },
        },
{
}

/// What one of the two gives, the other takes back.
pub proof fn lemma_centred_back(
    b: u8,
    v: i8,
    center: u8,
    lo: i32,
    hi: i32,
    field: &'static str,
    x: Result<i8, CodecError>,
    y: Result<u8, CodecError>,
)
    requires
        call_ensures(signed_center, (b, center, lo, hi, field), x),
        call_ensures(to_signed_center, (v, center, lo, hi, field), y),
    ensures
        x == Ok::<i8, CodecError>(v) <==> y == Ok::<u8, CodecError>(b),
{
}

// === split and packed numbers ===

/// Two bytes hold the upper and the lower seven bits of a number.
#[verifier::spinoff_prover]
pub proof fn lemma_split_number(hi: u8, lo: u8, n: u16, v: u16, pair: (u8, u8), back: u16)
    requires
        call_ensures(read_u14, (hi, lo), n),
        call_ensures(write_u14, (v,), pair),
        call_ensures(read_u14, (pair.0, pair.1), back),
    ensures
        hi < 128 && lo < 128 ==> n == 128 * hi + lo,
        n < 16384,
        pair.0 < 128 && pair.1 < 128,
        v < 16384 ==> 128 * pair.0 + pair.1 == v,
        back == v % 16384,
{
}

/// Four bytes hold the four nibbles of a number, the most significant first.
#[verifier::spinoff_prover]
pub proof fn lemma_packed_number(b: &[u8], n: u16, v: u16, four: [u8; 4])
    requires
        b@.len() >= 4,
        call_ensures(read_u16_nibbles, (b,), n),
        call_ensures(write_u16_nibbles, (v,), four),
    ensures
        b@[0] < 16 && b@[1] < 16 && b@[2] < 16 && b@[3] < 16 ==> n == 4096 * b@[0] + 256 * b@[1] + 16 * b@[2] + b@[3],
        forall|i: int| 0 <= i < 4 ==> #[trigger] four@[i] < 16,
        4096 * four@[0] + 256 * four@[1] + 16 * four@[2] + four@[3] == v,
        b@ == four@ ==> n == v,
{
    codec::lemma_nibbles_round_trip(v, 0, 0, 0, 0);
    let (p, q, r, s) = (four@[0], four@[1], four@[2], four@[3]);
    assert(p < 16 && q < 16 && r < 16 && s < 16) by {
        assert(v / 4096 < 16);
    }
    assert(p % 16 == p && q % 16 == q && r % 16 == r && s % 16 == s);
    assert(v == codec::nibbles_of(p, q, r, s));
}

// === names ===

/// `s` is the name in a field: its characters up to the spaces and NULs that end it.
pub open spec fn is_name_in(s: Seq<char>, bytes: Seq<u8>) -> bool {
    &&& s.len() <= bytes.len()
    &&& forall|i: int| 0 <= i < s.len() ==> (#[trigger] s[i]) as int == bytes[i]
    &&& forall|i: int| s.len() <= i < bytes.len() ==> #[trigger] bytes[i] == 0x20 || bytes[i] == 0
    &&& s.len() > 0 ==> bytes[s.len() - 1] != 0x20 && bytes[s.len() - 1] != 0
}

proof fn lemma_unpadded(s: Seq<char>)
    ensures
        codec::unpadded(s).len() <= s.len(),
        codec::unpadded(s) == s.take(codec::unpadded(s).len() as int),
        codec::unpadded(s).len() > 0 ==> codec::unpadded(s).last() != ' ' && codec::unpadded(s).last() != '\0',
        forall|i: int| codec::unpadded(s).len() <= i < s.len() ==> #[trigger] s[i] == ' ' || s[i] == '\0',
    decreases s.len(),
{
    if s.len() > 0 && (s.last() == ' ' || s.last() == '\0') {
        let t = s.drop_last();
        lemma_unpadded(t);
        assert(t.take(codec::unpadded(t).len() as int) =~= s.take(codec::unpadded(t).len() as int));
        assert forall|i: int| codec::unpadded(s).len() <= i < s.len() implies #[trigger] s[i] == ' ' || s[i] == '\0' by {
            if i < t.len() {
                assert(t[i] == s[i]);
            }
        }
    } else {
        assert(s.take(s.len() as int) =~= s);
    }
}

/// A field of ASCII bytes is read as the name in it; one with any other byte is not.
pub proof fn lemma_name_read(bytes: &[u8], field: &'static str, r: Result<String, CodecError>)
    requires
        call_ensures(read_ascii, (bytes, field), r),
    ensures
        match r {
            Ok(s) => is_name_in(s@, bytes@) && forall|i: int| 0 <= i < bytes@.len() ==> #[trigger] bytes@[i] < 0x80,
            Err(e) => {
                &&& exists|i: int| 0 <= i < bytes@.len() && #[trigger] bytes@[i] >= 0x80
                &&& e == (CodecError::BadString { field, reason: "byte >= 0x80" })
            },
        },
{
    if let Ok(s) = r {
        let chars = codec::ascii_chars(bytes@);
        lemma_unpadded(chars);
        assert forall|i: int| 0 <= i < s@.len() implies (#[trigger] s@[i]) as int == bytes@[i] by {
            assert(s@[i] == chars[i]);
            assert(bytes@[i] < 0x80);
        }
        assert forall|i: int| s@.len() <= i < bytes@.len() implies #[trigger] bytes@[i] == 0x20 || bytes@[i] == 0 by {
            assert(chars[i] == ' ' || chars[i] == '\0');
            assert(bytes@[i] < 0x80);
        }
        if s@.len() > 0 {
            let k = s@.len() - 1;
            assert(s@[k] == chars[k]);
            assert(bytes@[k] < 0x80);
        }
    }
}

proof fn lemma_beyond_ascii(c: char)
    ensures
        text::is_ascii_char(c) || c as int > 0x7F,
{
}

/// A name is written character for character, cut to the field or filled up with
/// spaces; one that is not ASCII is refused.
pub proof fn lemma_name_written(s: &str, width: usize, field: &'static str, r: Result<Vec<u8>, CodecError>)
    requires
        call_ensures(write_ascii, (s, width, field), r),
    ensures
        match r {
            Ok(out) => {
                &&& out@.len() == width
                &&& forall|i: int|
                    0 <= i < width ==> #[trigger] out@[i] == if i < s@.len() {
                        s@[i] as int
                    } else {
                        0x20
                    }
                &&& forall|i: int| 0 <= i < s@.len() ==> (#[trigger] s@[i]) as int <= 0x7F
            },
            Err(e) => {
                &&& exists|i: int| 0 <= i < s@.len() && (#[trigger] s@[i]) as int > 0x7F
                &&& e == (CodecError::BadString { field, reason: "non-ASCII character" })
            },
        },
{
    if let Ok(out) = r {
        assert forall|i: int| 0 <= i < width implies #[trigger] out@[i] == if i < s@.len() {
            s@[i] as int
        } else {
            0x20
        } by {
            if i < s@.len() {
                assert(text::is_ascii_char(s@[i]));
            }
        }
        assert forall|i: int| 0 <= i < s@.len() implies (#[trigger] s@[i]) as int <= 0x7F by {
            assert(text::is_ascii_char(s@[i]));
        }
    } else {
        let i = choose|i: int| 0 <= i < s@.len() && !text::is_ascii_char(#[trigger] s@[i]);
        lemma_beyond_ascii(s@[i]);
    }
}

// === reserved bytes ===

/// The byte at `i`, where a buffer that has ended goes on with noughts.
pub open spec fn byte_in(s: Seq<u8>, i: int) -> int {
    if 0 <= i < s.len() {
        s[i] as int
    } else {
        0
    }
}

/// The typed fields alone do not give what stands at `i`: the payload goes on where
/// they have ended, or differs from them there.
pub open spec fn stands_out(input: Seq<u8>, typed: Seq<u8>, i: int) -> bool {
    (typed.len() <= i && i < input.len()) || byte_in(input, i) != byte_in(typed, i)
}

proof fn lemma_captured(input: Seq<u8>, typed: Seq<u8>, n: nat)
    requires
        n <= 65536,
    ensures
        ({
            let all = codec::captured(input, typed, n);
            &&& forall|k: int|
                0 <= k < all.len() ==> {
                    &&& (#[trigger] all[k]).offset < n
                    &&& stands_out(input, typed, all[k].offset as int)
                    &&& all[k].value == byte_in(input, all[k].offset as int)
                }
            &&& forall|j: int, k: int| 0 <= j < k < all.len() ==> (#[trigger] all[j]).offset < (#[trigger] all[k]).offset
            &&& forall|i: int|
                0 <= i < n && #[trigger] stands_out(input, typed, i) ==> exists|k: int|
                    0 <= k < all.len() && (#[trigger] all[k]).offset == i
        }),
    decreases n,
{
    if n > 0 {
        let m = (n - 1) as nat;
        lemma_captured(input, typed, m);
        let before = codec::captured(input, typed, m);
        let all = codec::captured(input, typed, n);
        assert(codec::is_reserved(input, typed, m as int) == stands_out(input, typed, m as int));
        assert forall|k: int| 0 <= k < all.len() implies {
            &&& (#[trigger] all[k]).offset < n
            &&& stands_out(input, typed, all[k].offset as int)
            &&& all[k].value == byte_in(input, all[k].offset as int)
        } by {
            if k < before.len() {
                assert(all[k] == before[k]);
            } else {
                assert(m % 65536 == m);
            }
        }
        assert forall|j: int, k: int| 0 <= j < k < all.len() implies (#[trigger] all[j]).offset < (#[trigger] all[k]).offset by {
            assert(all[j] == before[j]);
            if k < before.len() {
                assert(all[k] == before[k]);
            } else {
                assert(m % 65536 == m);
            }
        }
        assert forall|i: int| 0 <= i < n && #[trigger] stands_out(input, typed, i) implies exists|k: int|
            0 <= k < all.len() && (#[trigger] all[k]).offset == i by {
            if i < m {
                let k = choose|k: int| 0 <= k < before.len() && (#[trigger] before[k]).offset == i;
                assert(all[k].offset == i);
            } else {
                assert(m % 65536 == m);
                assert(all[before.len() as int].offset == i);
            }
        }
    }
}

/// Capturing a payload keeps the bytes that stand out against the typed fields: all
/// of them, in order, and no others.
pub proof fn lemma_reserved_captured(input: &[u8], typed: &[u8], r: Vec<RawByte>)
    requires
        call_ensures(capture_reserved, (input, typed), r),
        input@.len() <= 65536,
        typed@.len() <= 65536,
    ensures
        forall|k: int|
            0 <= k < r@.len() ==> stands_out(input@, typed@, (#[trigger] r@[k]).offset as int) && r@[k].value == byte_in(
                input@,
                r@[k].offset as int,
            ),
        forall|j: int, k: int| 0 <= j < k < r@.len() ==> (#[trigger] r@[j]).offset < (#[trigger] r@[k]).offset,
        forall|i: int|
            0 <= i && #[trigger] stands_out(input@, typed@, i) ==> exists|k: int|
                0 <= k < r@.len() && (#[trigger] r@[k]).offset == i,
{
    let n = codec::longer(input@.len(), typed@.len());
    lemma_captured(input@, typed@, n);
    assert forall|i: int| 0 <= i && #[trigger] stands_out(input@, typed@, i) implies exists|k: int|
        0 <= k < r@.len() && (#[trigger] r@[k]).offset == i by {
        assert(i < n);
    }
}

/// Raw byte `k` is the last of some that speaks of `i`.
pub open spec fn last_at(reserved: Seq<RawByte>, i: int, k: int) -> bool {
    &&& 0 <= k < reserved.len()
    &&& reserved[k].offset == i
    &&& forall|j: int| k < j < reserved.len() ==> (#[trigger] reserved[j]).offset != i
}

/// Overlaying raw bytes puts each at its offset, the last of those at one offset
/// winning; the rest of the buffer stays, and grows with noughts just as far as it has
/// to.
pub proof fn lemma_overlaid(buf: Seq<u8>, reserved: Seq<RawByte>)
    ensures
        ({
            let out = codec::applied(buf, reserved);
            &&& buf.len() <= out.len()
            &&& forall|k: int| 0 <= k < reserved.len() ==> (#[trigger] reserved[k]).offset < out.len()
            &&& out.len() == buf.len() || exists|k: int|
                0 <= k < reserved.len() && (#[trigger] reserved[k]).offset + 1 == out.len()
            &&& forall|i: int, k: int| #[trigger] last_at(reserved, i, k) ==> out[i] == reserved[k].value
            &&& forall|i: int|
                0 <= i < out.len() && (forall|k: int| 0 <= k < reserved.len() ==> (#[trigger] reserved[k]).offset != i)
                    ==> #[trigger] out[i] == byte_in(buf, i)
        }),
    decreases reserved.len(),
{
    let out = codec::applied(buf, reserved);
    if reserved.len() > 0 {
        let init = reserved.drop_last();
        let last = reserved.last();
        let was = codec::applied(buf, init);
        lemma_overlaid(buf, init);
        assert forall|k: int| 0 <= k < reserved.len() implies (#[trigger] reserved[k]).offset < out.len() by {
            if k < init.len() {
                assert(init[k] == reserved[k]);
            }
        }
        if out.len() != buf.len() {
            if last.offset + 1 == out.len() {
                assert(reserved[reserved.len() - 1].offset + 1 == out.len());
            } else {
                assert(out.len() == was.len());
                let k = choose|k: int| 0 <= k < init.len() && (#[trigger] init[k]).offset + 1 == was.len();
                assert(reserved[k].offset + 1 == out.len());
            }
        }
        assert forall|i: int, k: int| #[trigger] last_at(reserved, i, k) implies out[i] == reserved[k].value by {
            if k < init.len() {
                assert(reserved[reserved.len() - 1].offset != i);
                assert(last_at(init, i, k)) by {
                    assert(init[k] == reserved[k]);
                    assert forall|j: int| k < j < init.len() implies (#[trigger] init[j]).offset != i by {
                        assert(reserved[j].offset != i);
                    }
                }
                assert(i < was.len()) by {
                    assert(init[k].offset < was.len());
                }
            }
        }
        assert forall|i: int|
            0 <= i < out.len() && (forall|k: int| 0 <= k < reserved.len() ==> (#[trigger] reserved[k]).offset != i) implies #[trigger]
            out[i] == byte_in(buf, i) by {
            assert(reserved[reserved.len() - 1].offset != i);
            assert forall|k: int| 0 <= k < init.len() implies (#[trigger] init[k]).offset != i by {
                assert(reserved[k].offset != i);
            }
            if i < was.len() {
                assert(was[i] == byte_in(buf, i));
            }
        }
    }
}

/// Overlaying raw bytes onto a buffer, and onto the typed fields alone those that were
/// captured: that gives the payload back, byte for byte.
pub proof fn lemma_reserved_applied(
    buf: &mut Vec<u8>,
    reserved: &[RawByte],
    input: &[u8],
    typed: &[u8],
    captured: Vec<RawByte>,
)
    requires
        call_ensures(apply_reserved, (buf, reserved), ()),
        call_ensures(capture_reserved, (input, typed), captured),
        input@.len() <= 65536,
        typed@.len() <= input@.len(),
    ensures
        forall|i: int, k: int| #[trigger] last_at(reserved@, i, k) ==> final(buf)@[i] == reserved@[k].value,
        forall|i: int|
            0 <= i < final(buf)@.len() && (forall|k: int|
                0 <= k < reserved@.len() ==> (#[trigger] reserved@[k]).offset != i) ==> #[trigger] final(buf)@[i]
                == byte_in(old(buf)@, i),
        old(buf)@ == typed@ && reserved@ == captured@ ==> final(buf)@ == input@,
{
    lemma_overlaid(buf@, reserved@);
    codec::lemma_reserved_round_trip(input@, typed@);
}

// === checksums ===

/// The sum of bytes is that of their parts, and of one byte the byte.
pub proof fn lemma_sum(a: Seq<u8>, b: Seq<u8>, x: u8)
    ensures
        codec::byte_sum(seq![x]) == x,
        codec::byte_sum(a + b) == codec::byte_sum(a) + codec::byte_sum(b),
    decreases b.len(),
{
    assert(seq![x].drop_last() =~= Seq::<u8>::empty());
    assert(codec::byte_sum(seq![x]) == codec::byte_sum(seq![x].drop_last()) + x);
    if b.len() == 0 {
        assert(a + b =~= a);
    } else {
        lemma_sum(a, b.drop_last(), x);
        assert((a + b).drop_last() =~= a + b.drop_last());
    }
}

/// A region followed by its checksum sums to nought in its lower seven bits, and no
/// other seven-bit byte does that.
pub proof fn lemma_summed_to_nought(region: &[u8], r: u8, other: u8)
    requires
        call_ensures(checksum, (region,), r),
    ensures
        r < 128,
        codec::byte_sum(region@ + seq![r]) % 128 == 0,
        other < 128 && codec::byte_sum(region@ + seq![other]) % 128 == 0 ==> other == r,
{
    lemma_sum(region@, seq![r], r);
    lemma_sum(region@, seq![other], other);
}

// === frames ===

/// A frame stands from `i` to `j`: a start byte, an end byte, and neither between.
pub open spec fn frame_from(bytes: Seq<u8>, i: int, j: int) -> bool {
    &&& 0 <= i < j < bytes.len()
    &&& bytes[i] == 0xF0
    &&& bytes[j] == 0xF7
    &&& forall|k: int| i < k < j ==> #[trigger] bytes[k] != 0xF0 && bytes[k] != 0xF7
}

/// `frames` are the frames that stand in a buffer, from `starts[k]` to `ends[k]`: all
/// of them, each once, in order.
pub open spec fn are_frames(bytes: Seq<u8>, frames: Seq<Seq<u8>>, starts: Seq<int>, ends: Seq<int>) -> bool {
    &&& starts.len() == frames.len()
    &&& ends.len() == frames.len()
    &&& forall|k: int|
        #![trigger frames[k]]
        #![trigger starts[k]]
        0 <= k < frames.len() ==> frame_from(bytes, starts[k], ends[k]) && frames[k] == bytes.subrange(
            starts[k],
            ends[k] + 1,
        )
    &&& forall|j: int, k: int| 0 <= j < k < ends.len() ==> #[trigger] ends[j] < #[trigger] ends[k]
    &&& forall|i: int, j: int| #[trigger] frame_from(bytes, i, j) ==> ends.contains(j)
}

/// A frame is open at the end of a buffer, from `i` on.
pub open spec fn open_from(bytes: Seq<u8>, i: int) -> bool {
    &&& 0 <= i < bytes.len()
    &&& bytes[i] == 0xF0
    &&& forall|k: int| i < k < bytes.len() ==> #[trigger] bytes[k] != 0xF0 && bytes[k] != 0xF7
}

proof fn lemma_still_open(bytes: Seq<u8>)
    ensures
        match codec::scanned(bytes).1 {
            Some(f) => {
                &&& 0 < f.len() <= bytes.len()
                &&& open_from(bytes, bytes.len() - f.len())
                &&& f == bytes.skip(bytes.len() - f.len())
            },
            None => forall|i: int| !#[trigger] open_from(bytes, i),
        },
    decreases bytes.len(),
{
    if bytes.len() > 0 {
        let init = bytes.drop_last();
        let n = bytes.len() as int;
        lemma_still_open(init);
        if bytes.last() == 0xF0 {
            assert(open_from(bytes, n - 1));
            assert(bytes.skip(n - 1) =~= seq![0xF0u8]);
        } else {
            match codec::scanned(init).1 {
                Some(f) => {
                    let i = init.len() - f.len();
                    if bytes.last() == 0xF7 {
                        assert forall|k: int| !#[trigger] open_from(bytes, k) by {
                            if open_from(bytes, k) {
                                assert(bytes[n - 1] == 0xF7);
                            }
                        }
                    } else {
                        assert forall|k: int| i < k < n implies #[trigger] bytes[k] != 0xF0 && bytes[k] != 0xF7 by {
                            if k < n - 1 {
                                assert(init[k] == bytes[k]);
                            }
                        }
                        assert(bytes[i] == init[i]);
                        assert(open_from(bytes, i));
                        assert(bytes.skip(i) =~= f.push(bytes.last()));
                    }
                },
                None => {
                    assert forall|k: int| !#[trigger] open_from(bytes, k) by {
                        if open_from(bytes, k) {
                            assert(k < n - 1);
                            assert(init[k] == bytes[k]);
                            assert forall|m: int| k < m < init.len() implies #[trigger] init[m] != 0xF0 && init[m]
                                != 0xF7 by {
                                assert(init[m] == bytes[m]);
                            }
                            assert(open_from(init, k));
                        }
                    }
                },
            }
        }
    }
}

proof fn lemma_frame_in_longer(init: Seq<u8>, b: u8, i: int, j: int)
    ensures
        j < init.len() ==> frame_from(init, i, j) == frame_from(init.push(b), i, j),
        frame_from(init.push(b), i, init.len() as int) <==> b == 0xF7 && open_from(init, i),
{
    let bytes = init.push(b);
    assert forall|k: int| 0 <= k < init.len() implies init[k] == #[trigger] bytes[k] by {}
    if j < init.len() && frame_from(init, i, j) {
        assert forall|k: int| i < k < j implies #[trigger] bytes[k] != 0xF0 && bytes[k] != 0xF7 by {
            assert(init[k] == bytes[k]);
        }
    }
    if j < init.len() && frame_from(bytes, i, j) {
        assert forall|k: int| i < k < j implies #[trigger] init[k] != 0xF0 && init[k] != 0xF7 by {
            assert(init[k] == bytes[k]);
        }
    }
    if frame_from(bytes, i, init.len() as int) {
        assert forall|k: int| i < k < init.len() implies #[trigger] init[k] != 0xF0 && init[k] != 0xF7 by {
            assert(init[k] == bytes[k]);
        }
    }
    if b == 0xF7 && open_from(init, i) {
        assert forall|k: int| i < k < init.len() implies #[trigger] bytes[k] != 0xF0 && bytes[k] != 0xF7 by {
            assert(init[k] == bytes[k]);
        }
    }
}

/// Splitting a buffer gives the frames that stand in it.
pub proof fn lemma_frames(bytes: Seq<u8>) -> (spans: (Seq<int>, Seq<int>))
    ensures
        are_frames(bytes, codec::frames_of(bytes), spans.0, spans.1),
    decreases bytes.len(),
{
    if bytes.len() == 0 {
        assert(are_frames(bytes, codec::frames_of(bytes), seq![], seq![]));
        (seq![], seq![])
    } else {
        let init = bytes.drop_last();
        let b = bytes.last();
        let n = init.len() as int;
        assert(bytes =~= init.push(b));
        let (starts, ends) = lemma_frames(init);
        let before = codec::frames_of(init);
        let frames = codec::frames_of(bytes);
        lemma_still_open(init);
        assert forall|i: int, j: int| j < n implies #[trigger] frame_from(bytes, i, j) == frame_from(init, i, j) by {
            lemma_frame_in_longer(init, b, i, j);
        }
        assert forall|i: int| #[trigger] frame_from(bytes, i, n) <==> b == 0xF7 && open_from(init, i) by {
            lemma_frame_in_longer(init, b, i, n);
        }
        assert forall|k: int|
            #![trigger before[k]]
            #![trigger starts[k]]
            0 <= k < before.len() implies frame_from(bytes, starts[k], ends[k]) && before[k] == bytes.subrange(
            starts[k],
            ends[k] + 1,
        ) by {
            assert(before[k] == init.subrange(starts[k], ends[k] + 1));
            assert(frame_from(init, starts[k], ends[k]));
            assert(init.subrange(starts[k], ends[k] + 1) =~= bytes.subrange(starts[k], ends[k] + 1));
        }
        if b == 0xF7 && codec::scanned(init).1 is Some {
            let f = codec::scanned(init).1->Some_0;
            let i = n - f.len();
            assert(frame_from(bytes, i, n));
            assert(frames == before.push(f.push(b)));
            assert(f.push(b) =~= bytes.subrange(i, n + 1));
            let s = starts.push(i);
            let e = ends.push(n);
            assert forall|k: int|
                #![trigger frames[k]]
                #![trigger s[k]]
                0 <= k < frames.len() implies frame_from(bytes, s[k], e[k]) && frames[k] == bytes.subrange(
                s[k],
                e[k] + 1,
            ) by {
                if k < before.len() {
                    assert(frames[k] == before[k]);
                }
            }
            assert forall|j: int, k: int| 0 <= j < k < e.len() implies #[trigger] e[j] < #[trigger] e[k] by {
                assert(before[j] == before[j]);
                assert(frame_from(init, starts[j], ends[j]));
            }
            assert forall|x: int, j: int| #[trigger] frame_from(bytes, x, j) implies e.contains(j) by {
                if j < n {
                    assert(frame_from(init, x, j));
                    let k = choose|k: int| 0 <= k < ends.len() && ends[k] == j;
                    assert(e[k] == j);
                } else {
                    assert(e[ends.len() as int] == j);
                }
            }
            assert(are_frames(bytes, frames, s, e));
            (s, e)
        } else {
            assert(frames == before);
            assert forall|x: int, j: int| #[trigger] frame_from(bytes, x, j) implies ends.contains(j) by {
                if j < n {
                    assert(frame_from(init, x, j));
                } else {
                    assert(open_from(init, x));
                }
            }
            assert(are_frames(bytes, frames, starts, ends));
            (starts, ends)
        }
    }
}

/// Splitting a buffer.
pub proof fn lemma_split(bytes: &[u8], r: Vec<Vec<u8>>)
    requires
        call_ensures(split_sysex, (bytes,), r),
    ensures
        exists|starts: Seq<int>, ends: Seq<int>| #[trigger] are_frames(bytes@, codec::byte_seqs(r@), starts, ends),
        forall|k: int| 0 <= k < r@.len() ==> #[trigger] codec::byte_seqs(r@)[k] == r@[k]@,
{
    let spans = lemma_frames(bytes@);
    assert(are_frames(bytes@, codec::byte_seqs(r@), spans.0, spans.1));
}

// === errors ===

/// What an error reads as.
pub proof fn lemma_codec_error(e: CodecError, r: String)
    requires
        call_ensures(CodecError::message, (&e,), r),
    ensures
        match e {
            CodecError::WrongLength { expected, actual } => r@ == "expected at least "@ + text::decimal_text(
                expected as nat,
            ) + " bytes, got "@ + text::decimal_text(actual as nat),
            CodecError::InvalidValue { field, value, valid } => r@ == "invalid "@ + field@ + " value "@ + text::hex_text(
                value,
            ) + " (valid: "@ + valid@ + ")"@,
            CodecError::OutOfRange { field, value, valid } => r@ == field@ + " out of range: "@ + text::integer_text(
                value as int,
            ) + " (valid: "@ + valid@ + ")"@,
            CodecError::BadString { field, reason } => r@ == field@ + ": invalid ASCII string ("@ + reason@ + ")"@,
            CodecError::Yaml(detail) => r@ == "YAML: "@ + detail@,
            CodecError::MissingBlock(name) => r@ == "missing required block: "@ + name@,
        },
{
}

}

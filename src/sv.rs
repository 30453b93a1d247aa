//! The IEC 61850-9-2 Sampled Values message: frame header, `savPdu` and the ASDUs it carries.
use vstd::prelude::*;
use vstd::slice::slice_subrange;

use crate::ber::{
    ascii_chars, end_of_buffer, integer_u16_value, is_visible_byte, lemma_parse_length_bound,
    parse_content, parse_identifier, parse_length, read_integer_as_u16, read_length,
    read_octet_string, read_optional_identifier, read_required_identifier, read_visiblestring,
    DecodeError, Encoding, Tag,
};
use crate::bytes::{be_uint, be_value, pow256, BytesReader};

verus! {

/// One reading of the eight channels, as the raw signed values carried on the wire. Currents are
/// in units of 1 mA and voltages in units of 10 mV.
#[derive(Debug, Clone, Copy, PartialEq, Eq, Structural)]
pub struct Sample {
    pub current_a: i32,
    pub current_b: i32,
    pub current_c: i32,
    pub current_n: i32,
    pub voltage_a: i32,
    pub voltage_b: i32,
    pub voltage_c: i32,
    pub voltage_n: i32,
}

/// The number of bytes of a sample field: eight channels of eight bytes each.
pub const SAMPLE_FIELD_LEN: usize = 64;

impl Sample {
    /// The channels in wire order: currents A, B, C, N, then voltages A, B, C, N.
    pub open spec fn values(self) -> Seq<i32> {
        seq![
            self.current_a,
            self.current_b,
            self.current_c,
            self.current_n,
            self.voltage_a,
            self.voltage_b,
            self.voltage_c,
            self.voltage_n,
        ]
    }
}

/// The signed 32-bit value in the first four bytes of the `k`-th eight-byte slot of `c`.
pub open spec fn slot_value(c: Seq<u8>, k: int) -> i32 {
    let v = be_value(c.subrange(8 * k, 8 * k + 4));
    if v < 0x8000_0000 {
        v as i32
    } else {
        (v - 0x1_0000_0000) as i32
    }
}

/// The sample that 64 bytes of sample field content encode.
pub open spec fn sample_of(c: Seq<u8>) -> Sample {
    Sample {
        current_a: slot_value(c, 0),
        current_b: slot_value(c, 1),
        current_c: slot_value(c, 2),
        current_n: slot_value(c, 3),
        voltage_a: slot_value(c, 4),
        voltage_b: slot_value(c, 5),
        voltage_c: slot_value(c, 6),
        voltage_n: slot_value(c, 7),
    }
}

#[derive(Debug, Clone)]
pub struct Asdu {
    pub svid: String,
    pub datset: Option<String>,
    pub smp_cnt: u16,
    pub conf_rev: u32,
    pub refr_tm: Option<u64>,
    pub smp_synch: u8,
    pub smp_rate: Option<u16>,
    pub sample: Sample,
    pub smp_mod: Option<u16>,
}

/// What an `Asdu` holds, with its strings as character sequences.
pub struct AsduModel {
    pub svid: Seq<char>,
    pub datset: Option<Seq<char>>,
    pub smp_cnt: u16,
    pub conf_rev: u32,
    pub refr_tm: Option<u64>,
    pub smp_synch: u8,
    pub smp_rate: Option<u16>,
    pub sample: Sample,
    pub smp_mod: Option<u16>,
}

pub open spec fn opt_string_view(s: Option<String>) -> Option<Seq<char>> {
    match s {
        Some(x) => Some(x@),
        None => None,
    }
}

impl View for Asdu {
    type V = AsduModel;

    open spec fn view(&self) -> AsduModel {
        AsduModel {
            svid: self.svid@,
            datset: opt_string_view(self.datset),
            smp_cnt: self.smp_cnt,
            conf_rev: self.conf_rev,
            refr_tm: self.refr_tm,
            smp_synch: self.smp_synch,
            smp_rate: self.smp_rate,
            sample: self.sample,
            smp_mod: self.smp_mod,
        }
    }
}

/// The context-specific identifier `[t]`, required at the front of `b`. Yields its encoding and the
/// bytes after it.
pub open spec fn required_identifier(b: Seq<u8>, tag: Tag) -> Result<(Encoding, Seq<u8>), DecodeError> {
    match parse_identifier(b) {
        Ok((id, n)) => if id.tag == tag {
            Ok((id.encoding, b.skip(n as int)))
        } else {
            Err(DecodeError::UnexpectedTag)
        },
        Err(e) => Err(e),
    }
}

/// The identifier carrying `tag`, where it is at the front of `b`.
pub open spec fn optional_identifier(b: Seq<u8>, tag: Tag) -> Result<
    (Option<Encoding>, Seq<u8>),
    DecodeError,
> {
    if b.len() == 0 {
        Ok((None, b))
    } else {
        match parse_identifier(b) {
            Ok((id, n)) => if id.tag == tag {
                Ok((Some(id.encoding), b.skip(n as int)))
            } else {
                Ok((None, b))
            },
            Err(e) => Err(e),
        }
    }
}

/// Primitive content octets of the given encoding at the front of `b`, and the bytes after them.
pub open spec fn primitive_content(b: Seq<u8>, encoding: Encoding) -> Result<
    (Seq<u8>, Seq<u8>),
    DecodeError,
> {
    if encoding == Encoding::Constructed {
        Err(DecodeError::ConstructedString)
    } else {
        match parse_content(b) {
            Ok((c, n)) => Ok((c, b.skip(n as int))),
            Err(e) => Err(e),
        }
    }
}

pub open spec fn visible_content(b: Seq<u8>, encoding: Encoding) -> Result<
    (Seq<char>, Seq<u8>),
    DecodeError,
> {
    match primitive_content(b, encoding) {
        Ok((c, rest)) => if forall|i: int| 0 <= i < c.len() ==> is_visible_byte(#[trigger] c[i]) {
            Ok((ascii_chars(c), rest))
        } else {
            Err(DecodeError::InvalidVisibleString)
        },
        Err(e) => Err(e),
    }
}

/// An IEC 61850 unsigned integer of exactly `size` big-endian bytes.
pub open spec fn unsigned_content(b: Seq<u8>, encoding: Encoding, size: nat) -> Result<
    (nat, Seq<u8>),
    DecodeError,
> {
    match primitive_content(b, encoding) {
        Ok((c, rest)) => if c.len() == size {
            Ok((be_value(c), rest))
        } else {
            Err(DecodeError::InvalidIntegerEncoding)
        },
        Err(e) => Err(e),
    }
}

pub open spec fn sample_content(b: Seq<u8>, encoding: Encoding) -> Result<(Sample, Seq<u8>), DecodeError> {
    match primitive_content(b, encoding) {
        Ok((c, rest)) => if c.len() == SAMPLE_FIELD_LEN {
            Ok((sample_of(c), rest))
        } else {
            Err(DecodeError::InvalidIntegerEncoding)
        },
        Err(e) => Err(e),
    }
}

pub open spec fn ctx(t: u32) -> Tag {
    Tag::ContextSpecific(t)
}

pub open spec fn visible_field(b: Seq<u8>, t: u32) -> Result<(Seq<char>, Seq<u8>), DecodeError> {
    match required_identifier(b, ctx(t)) {
        Ok((enc, rest)) => visible_content(rest, enc),
        Err(e) => Err(e),
    }
}

pub open spec fn optional_visible_field(b: Seq<u8>, t: u32) -> Result<
    (Option<Seq<char>>, Seq<u8>),
    DecodeError,
> {
    match optional_identifier(b, ctx(t)) {
        Ok((Some(enc), rest)) => match visible_content(rest, enc) {
            Ok((s, rest2)) => Ok((Some(s), rest2)),
            Err(e) => Err(e),
        },
        Ok((None, rest)) => Ok((None, rest)),
        Err(e) => Err(e),
    }
}

pub open spec fn unsigned_field(b: Seq<u8>, t: u32, size: nat) -> Result<(nat, Seq<u8>), DecodeError> {
    match required_identifier(b, ctx(t)) {
        Ok((enc, rest)) => unsigned_content(rest, enc, size),
        Err(e) => Err(e),
    }
}

pub open spec fn optional_unsigned_field(b: Seq<u8>, t: u32, size: nat) -> Result<
    (Option<nat>, Seq<u8>),
    DecodeError,
> {
    match optional_identifier(b, ctx(t)) {
        Ok((Some(enc), rest)) => match unsigned_content(rest, enc, size) {
            Ok((v, rest2)) => Ok((Some(v), rest2)),
            Err(e) => Err(e),
        },
        Ok((None, rest)) => Ok((None, rest)),
        Err(e) => Err(e),
    }
}

pub open spec fn sample_field(b: Seq<u8>, t: u32) -> Result<(Sample, Seq<u8>), DecodeError> {
    match required_identifier(b, ctx(t)) {
        Ok((enc, rest)) => sample_content(rest, enc),
        Err(e) => Err(e),
    }
}

pub open spec fn opt_u16(v: Option<nat>) -> Option<u16> {
    match v {
        Some(x) => Some(x as u16),
        None => None,
    }
}

pub open spec fn opt_u64(v: Option<nat>) -> Option<u64> {
    match v {
        Some(x) => Some(x as u64),
        None => None,
    }
}

/// The fields of one ASDU, context tags `[0]` to `[8]` in ascending order. Bytes after the last
/// field are ignored.
#[verifier::opaque]
pub open spec fn parse_asdu(b: Seq<u8>) -> Result<AsduModel, DecodeError> {
    match visible_field(b, 0) {
        Err(e) => Err(e),
        Ok((svid, b1)) => match optional_visible_field(b1, 1) {
            Err(e) => Err(e),
            Ok((datset, b2)) => match unsigned_field(b2, 2, 2) {
                Err(e) => Err(e),
                Ok((smp_cnt, b3)) => match unsigned_field(b3, 3, 4) {
                    Err(e) => Err(e),
                    Ok((conf_rev, b4)) => match optional_unsigned_field(b4, 4, 8) {
                        Err(e) => Err(e),
                        Ok((refr_tm, b5)) => match unsigned_field(b5, 5, 1) {
                            Err(e) => Err(e),
                            Ok((smp_synch, b6)) => match optional_unsigned_field(b6, 6, 2) {
                                Err(e) => Err(e),
                                Ok((smp_rate, b7)) => match sample_field(b7, 7) {
                                    Err(e) => Err(e),
                                    Ok((sample, b8)) => match optional_unsigned_field(b8, 8, 2) {
                                        Err(e) => Err(e),
                                        Ok((smp_mod, _)) => Ok(
                                            AsduModel {
                                                svid,
                                                datset,
                                                smp_cnt: smp_cnt as u16,
                                                conf_rev: conf_rev as u32,
                                                refr_tm: opt_u64(refr_tm),
                                                smp_synch: smp_synch as u8,
                                                smp_rate: opt_u16(smp_rate),
                                                sample,
                                                smp_mod: opt_u16(smp_mod),
                                            },
                                        ),
                                    },
                                },
                            },
                        },
                    },
                },
            },
        },
    }
}

/// An unsigned integer of exactly `size` content bytes.
fn read_unsigned_content(reader: &mut BytesReader<'_>, encoding: Encoding, size: usize) -> (r: Result<
    u64,
    DecodeError,
>)
    requires
        size <= 8,
    ensures
        match unsigned_content(old(reader)@, encoding, size as nat) {
            Ok((v, rest)) => r == Ok::<u64, DecodeError>(v as u64) && v < pow256(size as nat)
                && final(reader)@ == rest,
            Err(e) => r == Err::<u64, _>(e),
        },
{
    let bytes = read_octet_string(reader, encoding)?;
    if bytes.len() == size {
        Ok(be_uint(bytes))
    } else {
        Err(DecodeError::InvalidIntegerEncoding)
    }
}

proof fn lemma_pow256_values()
    ensures
        pow256(1) == 0x100,
        pow256(2) == 0x1_0000,
        pow256(4) == 0x1_0000_0000,
        pow256(8) == 0x1_0000_0000_0000_0000,
{
    reveal_with_fuel(pow256, 9);
}

fn read_iec61850_int8u(reader: &mut BytesReader<'_>, encoding: Encoding) -> (r: Result<u8, DecodeError>)
    ensures
        match unsigned_content(old(reader)@, encoding, 1) {
            Ok((v, rest)) => r == Ok::<u8, DecodeError>(v as u8) && final(reader)@ == rest,
            Err(e) => r == Err::<u8, _>(e),
        },
{
    proof {
        lemma_pow256_values();
    }
    let v = read_unsigned_content(reader, encoding, 1)?;
    Ok(v as u8)
}

fn read_iec61850_int16u(reader: &mut BytesReader<'_>, encoding: Encoding) -> (r: Result<u16, DecodeError>)
    ensures
        match unsigned_content(old(reader)@, encoding, 2) {
            Ok((v, rest)) => r == Ok::<u16, DecodeError>(v as u16) && final(reader)@ == rest,
            Err(e) => r == Err::<u16, _>(e),
        },
{
    proof {
        lemma_pow256_values();
    }
    let v = read_unsigned_content(reader, encoding, 2)?;
    Ok(v as u16)
}

fn read_iec61850_int32u(reader: &mut BytesReader<'_>, encoding: Encoding) -> (r: Result<u32, DecodeError>)
    ensures
        match unsigned_content(old(reader)@, encoding, 4) {
            Ok((v, rest)) => r == Ok::<u32, DecodeError>(v as u32) && final(reader)@ == rest,
            Err(e) => r == Err::<u32, _>(e),
        },
{
    proof {
        lemma_pow256_values();
    }
    let v = read_unsigned_content(reader, encoding, 4)?;
    Ok(v as u32)
}

/// An IEC 61850 UtcTime: eight bytes, kept as one big-endian number.
fn read_iec61850_utctime(reader: &mut BytesReader<'_>, encoding: Encoding) -> (r: Result<u64, DecodeError>)
    ensures
        match unsigned_content(old(reader)@, encoding, 8) {
            Ok((v, rest)) => r == Ok::<u64, DecodeError>(v as u64) && final(reader)@ == rest,
            Err(e) => r == Err::<u64, _>(e),
        },
{
    read_unsigned_content(reader, encoding, 8)
}

/// The signed value in the first four bytes of slot `k` of a sample field.
fn read_slot(c: &[u8], k: usize) -> (r: i32)
    requires
        c@.len() == SAMPLE_FIELD_LEN,
        k < 8,
    ensures
        r == slot_value(c@, k as int),
{
    let word = slice_subrange(c, 8 * k, 8 * k + 4);
    let v = be_uint(word);
    proof {
        lemma_pow256_values();
    }
    if v < 0x8000_0000 {
        v as i32
    } else {
        (v as i64 - 0x1_0000_0000) as i32
    }
}

impl Sample {
    /// Reads a sample field: 64 content bytes, eight slots of a signed 32-bit value and its quality.
    pub fn read(reader: &mut BytesReader<'_>, encoding: Encoding) -> (r: Result<Self, DecodeError>)
        ensures
            match sample_content(old(reader)@, encoding) {
                Ok((v, rest)) => r == Ok::<Sample, DecodeError>(v) && final(reader)@ == rest,
                Err(e) => r == Err::<Sample, _>(e),
            },
    {
        let bytes = read_octet_string(reader, encoding)?;
        if bytes.len() != SAMPLE_FIELD_LEN {
            return Err(DecodeError::InvalidIntegerEncoding);
        }
        Ok(Sample {
            current_a: read_slot(bytes, 0),
            current_b: read_slot(bytes, 1),
            current_c: read_slot(bytes, 2),
            current_n: read_slot(bytes, 3),
            voltage_a: read_slot(bytes, 4),
            voltage_b: read_slot(bytes, 5),
            voltage_c: read_slot(bytes, 6),
            voltage_n: read_slot(bytes, 7),
        })
    }
}

fn read_visible_field(reader: &mut BytesReader<'_>, t: u32) -> (r: Result<String, DecodeError>)
    ensures
        match visible_field(old(reader)@, t) {
            Ok((v, rest)) => (r matches Ok(s) && s@ == v) && final(reader)@ == rest,
            Err(e) => r == Err::<String, _>(e),
        },
{
    let encoding = read_required_identifier(reader, Tag::ContextSpecific(t))?;
    let s = read_visiblestring(reader, encoding)?;
    Ok(s.to_owned())
}

fn read_optional_visible_field(reader: &mut BytesReader<'_>, t: u32) -> (r: Result<
    Option<String>,
    DecodeError,
>)
    ensures
        match optional_visible_field(old(reader)@, t) {
            Ok((v, rest)) => (r matches Ok(s) && opt_string_view(s) == v) && final(reader)@ == rest,
            Err(e) => r == Err::<Option<String>, _>(e),
        },
{
    match read_optional_identifier(reader, Tag::ContextSpecific(t))? {
        Some(encoding) => {
            let s = read_visiblestring(reader, encoding)?;
            Ok(Some(s.to_owned()))
        },
        None => Ok(None),
    }
}

fn read_unsigned_field(reader: &mut BytesReader<'_>, t: u32, size: usize) -> (r: Result<u64, DecodeError>)
    requires
        size <= 8,
    ensures
        match unsigned_field(old(reader)@, t, size as nat) {
            Ok((v, rest)) => r == Ok::<u64, DecodeError>(v as u64) && v < pow256(size as nat)
                && final(reader)@ == rest,
            Err(e) => r == Err::<u64, _>(e),
        },
{
    let encoding = read_required_identifier(reader, Tag::ContextSpecific(t))?;
    read_unsigned_content(reader, encoding, size)
}

fn read_optional_unsigned_field(reader: &mut BytesReader<'_>, t: u32, size: usize) -> (r: Result<
    Option<u64>,
    DecodeError,
>)
    requires
        size <= 8,
    ensures
        match optional_unsigned_field(old(reader)@, t, size as nat) {
            Ok((v, rest)) => r == Ok::<Option<u64>, DecodeError>(opt_u64(v)) && (v matches Some(
                x,
            ) ==> x < pow256(size as nat)) && final(reader)@ == rest,
            Err(e) => r == Err::<Option<u64>, _>(e),
        },
{
    match read_optional_identifier(reader, Tag::ContextSpecific(t))? {
        Some(encoding) => {
            let v = read_unsigned_content(reader, encoding, size)?;
            Ok(Some(v))
        },
        None => Ok(None),
    }
}

fn narrow_u16(v: Option<u64>) -> (r: Option<u16>)
    requires
        v matches Some(x) ==> x < 0x1_0000,
    ensures
        r == opt_u16(match v {
            Some(x) => Some(x as nat),
            None => None,
        }),
{
    match v {
        Some(x) => Some(x as u16),
        None => None,
    }
}

/// Reads the fields of one ASDU.
fn read_asdu(reader: &mut BytesReader<'_>) -> (r: Result<Asdu, DecodeError>)
    ensures
        match parse_asdu(old(reader)@) {
            Ok(m) => r matches Ok(a) && a@ == m,
            Err(e) => r is Err && r->Err_0 == e,
        },
{
    proof {
        lemma_pow256_values();
        reveal(parse_asdu);
    }
    // svID [0] IMPLICIT VisibleString
    let svid = read_visible_field(reader, 0)?;
    // datset [1] IMPLICIT VisibleString OPTIONAL
    let datset = read_optional_visible_field(reader, 1)?;
    // smpCnt [2] IMPLICIT OCTET STRING (SIZE(2))
    let smp_cnt = read_unsigned_field(reader, 2, 2)?;
    // confRev [3] IMPLICIT OCTET STRING (SIZE(4))
    let conf_rev = read_unsigned_field(reader, 3, 4)?;
    // refrTm [4] IMPLICIT UtcTime OPTIONAL
    let refr_tm = read_optional_unsigned_field(reader, 4, 8)?;
    // smpSynch [5] IMPLICIT OCTET STRING (SIZE(1))
    let smp_synch = read_unsigned_field(reader, 5, 1)?;
    // smpRate [6] IMPLICIT OCTET STRING (SIZE(2)) OPTIONAL
    let smp_rate = read_optional_unsigned_field(reader, 6, 2)?;
    // sample [7] IMPLICIT OCTET STRING (SIZE(64))
    let encoding = read_required_identifier(reader, Tag::ContextSpecific(7))?;
    let sample = Sample::read(reader, encoding)?;
    // smpMod [8] IMPLICIT OCTET STRING (SIZE(2)) OPTIONAL
    let smp_mod = read_optional_unsigned_field(reader, 8, 2)?;
    Ok(Asdu {
        svid,
        datset,
        smp_cnt: smp_cnt as u16,
        conf_rev: conf_rev as u32,
        refr_tm,
        smp_synch: smp_synch as u8,
        smp_rate: narrow_u16(smp_rate),
        sample,
        smp_mod: narrow_u16(smp_mod),
    })
}

pub open spec fn integer_content(b: Seq<u8>, encoding: Encoding) -> Result<(u16, Seq<u8>), DecodeError> {
    if encoding != Encoding::Primitive {
        Err(DecodeError::InvalidIntegerEncoding)
    } else {
        match parse_content(b) {
            Ok((c, n)) => match integer_u16_value(c) {
                Ok(v) => Ok((v, b.skip(n as int))),
                Err(e) => Err(e),
            },
            Err(e) => Err(e),
        }
    }
}

/// One ASDU: a universal SEQUENCE whose content bounds the ASDU's fields. Yields the ASDU and the
/// bytes after the SEQUENCE.
pub open spec fn asdu_element(b: Seq<u8>) -> Result<(AsduModel, Seq<u8>), DecodeError> {
    match required_identifier(b, Tag::Universal(16)) {
        Err(e) => Err(e),
        Ok((_, b1)) => match parse_content(b1) {
            Err(e) => Err(e),
            Ok((c, n)) => match parse_asdu(c) {
                Err(e) => Err(e),
                Ok(a) => Ok((a, b1.skip(n as int))),
            },
        },
    }
}

/// `count` ASDUs one after another.
pub open spec fn asdu_sequence(b: Seq<u8>, count: nat) -> Result<Seq<AsduModel>, DecodeError>
    decreases count,
{
    if count == 0 {
        Ok(Seq::empty())
    } else {
        match asdu_element(b) {
            Err(e) => Err(e),
            Ok((a, b1)) => match asdu_sequence(b1, (count - 1) as nat) {
                Err(e) => Err(e),
                Ok(rest) => Ok(seq![a] + rest),
            },
        }
    }
}

/// The optional `security` field `[1]`, whose content is skipped; yields the bytes after it.
pub open spec fn skip_security(b: Seq<u8>) -> Result<Seq<u8>, DecodeError> {
    match optional_identifier(b, ctx(1)) {
        Err(e) => Err(e),
        Ok((None, rest)) => Ok(rest),
        Ok((Some(_), rest)) => match parse_content(rest) {
            Ok((_, n)) => Ok(rest.skip(n as int)),
            Err(e) => Err(e),
        },
    }
}

/// The content of a `savPdu`: `noASDU [0]` (at least one), optional `security [1]`, then
/// `asdu [2]` holding that many ASDUs.
pub open spec fn parse_savpdu(b: Seq<u8>) -> Result<Seq<AsduModel>, DecodeError> {
    match required_identifier(b, ctx(0)) {
        Err(e) => Err(e),
        Ok((enc, b1)) => match integer_content(b1, enc) {
            Err(e) => Err(e),
            Ok((no_asdu, b2)) => if no_asdu == 0 {
                Err(DecodeError::TagOutOfRange)
            } else {
                match skip_security(b2) {
                    Err(e) => Err(e),
                    Ok(b3) => match required_identifier(b3, ctx(2)) {
                        Err(e) => Err(e),
                        Ok((_, b4)) => match parse_content(b4) {
                            Err(e) => Err(e),
                            Ok((c, _)) => asdu_sequence(c, no_asdu as nat),
                        },
                    },
                }
            },
        },
    }
}

pub open spec fn asdu_views(v: Seq<Asdu>) -> Seq<AsduModel> {
    v.map_values(|a: Asdu| a@)
}

fn read_asdu_element(reader: &mut BytesReader<'_>) -> (r: Result<Asdu, DecodeError>)
    ensures
        match asdu_element(old(reader)@) {
            Ok((m, rest)) => (r matches Ok(a) && a@ == m) && final(reader)@ == rest,
            Err(e) => r is Err && r->Err_0 == e,
        },
{
    let ghost before = reader@;
    let _ = read_required_identifier(reader, Tag::Universal(16))?;
    let ghost b1 = reader@;
    let length = read_length(reader)?;
    let mut asdu_reader = match reader.take_sub_reader(length) {
        Ok(sub) => sub,
        Err(e) => return Err(DecodeError::ReadError(e)),
    };
    proof {
        lemma_parse_length_bound(b1);
        let (v, n) = parse_length(b1)->Ok_0;
        assert(asdu_reader@ =~= b1.subrange(n as int, (n + v) as int));
        assert(reader@ =~= b1.skip((n + v) as int));
    }
    read_asdu(&mut asdu_reader)
}

fn read_asdu_sequence(reader: &mut BytesReader<'_>, count: u16) -> (r: Result<Vec<Asdu>, DecodeError>)
    ensures
        match asdu_sequence(old(reader)@, count as nat) {
            Ok(m) => r matches Ok(v) && asdu_views(v@) == m,
            Err(e) => r is Err && r->Err_0 == e,
        },
{
    let ghost whole = reader@;
    let mut asdus: Vec<Asdu> = Vec::new();
    let mut i: u16 = 0;
    while i < count
        invariant
            i <= count,
            whole == old(reader)@,
            asdu_sequence(whole, count as nat) == match asdu_sequence(reader@, (count - i) as nat) {
                Ok(rest) => Ok::<Seq<AsduModel>, DecodeError>(asdu_views(asdus@) + rest),
                Err(e) => Err(e),
            },
        decreases count - i,
    {
        let asdu = read_asdu_element(reader)?;
        let ghost done = asdus@;
        let ghost m = asdu@;
        asdus.push(asdu);
        proof {
            assert(asdu_views(asdus@) =~= asdu_views(done).push(m));
            let rest = asdu_sequence(reader@, (count - i - 1) as nat);
            if rest is Ok {
                assert(asdu_views(done) + (seq![m] + rest->Ok_0) =~= asdu_views(asdus@)
                    + rest->Ok_0);
            }
        }
        i = i + 1;
    }
    proof {
        assert(asdu_views(asdus@) + Seq::<AsduModel>::empty() =~= asdu_views(asdus@));
    }
    Ok(asdus)
}

fn skip_security_field(reader: &mut BytesReader<'_>) -> (r: Result<(), DecodeError>)
    ensures
        match skip_security(old(reader)@) {
            Ok(rest) => r is Ok && final(reader)@ == rest,
            Err(e) => r == Err::<(), _>(e),
        },
{
    if read_optional_identifier(reader, Tag::ContextSpecific(1))?.is_some() {
        let ghost b1 = reader@;
        let length = read_length(reader)?;
        match reader.skip(length) {
            Ok(()) => {},
            Err(e) => return Err(DecodeError::ReadError(e)),
        }
        proof {
            lemma_parse_length_bound(b1);
            let (v, n) = parse_length(b1)->Ok_0;
            assert(reader@ =~= b1.skip((n + v) as int));
        }
    }
    Ok(())
}

fn read_savpdu(reader: &mut BytesReader<'_>) -> (r: Result<Vec<Asdu>, DecodeError>)
    ensures
        match parse_savpdu(old(reader)@) {
            Ok(m) => r matches Ok(v) && asdu_views(v@) == m,
            Err(e) => r is Err && r->Err_0 == e,
        },
{
    // noASDU [0] IMPLICIT INTEGER (1..65535)
    let encoding = read_required_identifier(reader, Tag::ContextSpecific(0))?;
    let no_asdu = read_integer_as_u16(reader, encoding)?;
    if no_asdu == 0 {
        return Err(DecodeError::TagOutOfRange);
    }
    // security [1] ANY OPTIONAL
    skip_security_field(reader)?;
    // asdu [2] IMPLICIT SEQUENCE OF ASDU
    let _ = read_required_identifier(reader, Tag::ContextSpecific(2))?;
    let ghost b4 = reader@;
    let length = read_length(reader)?;
    let mut inner = match reader.take_sub_reader(length) {
        Ok(sub) => sub,
        Err(e) => return Err(DecodeError::ReadError(e)),
    };
    proof {
        lemma_parse_length_bound(b4);
        let (v, n) = parse_length(b4)->Ok_0;
        assert(inner@ =~= b4.subrange(n as int, (n + v) as int));
    }
    read_asdu_sequence(&mut inner, no_asdu)
}

#[derive(Debug, Clone)]
pub struct SvMessage {
    pub appid: u16,
    pub asdus: Vec<Asdu>,
}

/// What an `SvMessage` holds.
pub struct SvMessageModel {
    pub appid: u16,
    pub asdus: Seq<AsduModel>,
}

impl View for SvMessage {
    type V = SvMessageModel;

    open spec fn view(&self) -> SvMessageModel {
        SvMessageModel { appid: self.appid, asdus: asdu_views(self.asdus@) }
    }
}

/// A Sampled Values frame payload: APPID, a length that counts the whole frame including this
/// eight-byte header, two reserved words, then `[APPLICATION 0]` holding the `savPdu`. Bytes past
/// the stated length are ignored.
pub open spec fn parse_frame(b: Seq<u8>) -> Result<SvMessageModel, DecodeError> {
    if b.len() < 8 {
        Err(end_of_buffer())
    } else {
        let appid = be_value(b.take(2));
        let length = be_value(b.subrange(2, 4));
        if length < 8 {
            Err(DecodeError::LengthOutOfRange)
        } else if length > b.len() {
            Err(end_of_buffer())
        } else {
            match required_identifier(b.subrange(8, length as int), Tag::Application(0)) {
                Err(e) => Err(e),
                Ok((_, b1)) => match parse_content(b1) {
                    Err(e) => Err(e),
                    Ok((c, _)) => match parse_savpdu(c) {
                        Err(e) => Err(e),
                        Ok(asdus) => Ok(SvMessageModel { appid: appid as u16, asdus }),
                    },
                },
            }
        }
    }
}

proof fn lemma_asdu_sequence_len(b: Seq<u8>, count: nat)
    ensures
        asdu_sequence(b, count) matches Ok(s) ==> s.len() == count,
    decreases count,
{
    if count > 0 {
        if let Ok((_, b1)) = asdu_element(b) {
            lemma_asdu_sequence_len(b1, (count - 1) as nat);
        }
    }
}

/// A frame that decodes carries at least one ASDU.
pub proof fn lemma_decoded_frame_has_asdus(b: Seq<u8>)
    ensures
        parse_frame(b) matches Ok(m) ==> m.asdus.len() >= 1,
{
    if b.len() >= 8 && be_value(b.subrange(2, 4)) >= 8 && be_value(b.subrange(2, 4)) <= b.len() {
        let length = be_value(b.subrange(2, 4));
        if let Ok((_, b1)) = required_identifier(b.subrange(8, length as int), Tag::Application(0)) {
            if let Ok((c, _)) = parse_content(b1) {
                if let Ok((enc, c1)) = required_identifier(c, ctx(0)) {
                    if let Ok((no_asdu, c2)) = integer_content(c1, enc) {
                        if let Ok(c3) = skip_security(c2) {
                            if let Ok((_, c4)) = required_identifier(c3, ctx(2)) {
                                if let Ok((d, _)) = parse_content(c4) {
                                    lemma_asdu_sequence_len(d, no_asdu as nat);
                                }
                            }
                        }
                    }
                }
            }
        }
    }
}

fn read_header_word(reader: &mut BytesReader<'_>) -> (r: Result<u16, DecodeError>)
    ensures
        old(reader)@.len() >= 2 ==> (r matches Ok(v) && v as nat == be_value(old(reader)@.take(2)))
            && final(reader)@ == old(reader)@.skip(2),
        old(reader)@.len() < 2 ==> r == Err::<u16, _>(end_of_buffer()),
{
    match reader.read_u16_be() {
        Ok(v) => Ok(v),
        Err(e) => Err(DecodeError::ReadError(e)),
    }
}

fn limit_reader(reader: &mut BytesReader<'_>, length: usize) -> (r: Result<(), DecodeError>)
    ensures
        length <= old(reader)@.len() ==> r is Ok && final(reader)@ == old(reader)@.take(length as int),
        length > old(reader)@.len() ==> r == Err::<(), _>(end_of_buffer()),
{
    match reader.limit(length) {
        Ok(()) => Ok(()),
        Err(e) => Err(DecodeError::ReadError(e)),
    }
}

/// Decodes the payload of a Sampled Values Ethernet frame. Every input either decodes into a
/// message with at least one ASDU or yields the decode error met first.
pub fn parse(bytes: &[u8]) -> (r: Result<SvMessage, DecodeError>)
    ensures
        match parse_frame(bytes@) {
            Ok(m) => r matches Ok(msg) && msg@ == m,
            Err(e) => r is Err && r->Err_0 == e,
        },
        r matches Ok(msg) ==> msg.asdus@.len() >= 1,
{
    proof {
        lemma_decoded_frame_has_asdus(bytes@);
    }
    let ghost b = bytes@;
    let mut reader = BytesReader::new(bytes);
    let appid = read_header_word(&mut reader)?;
    let length = read_header_word(&mut reader)?;
    let _reserved_1 = read_header_word(&mut reader)?;
    let _reserved_2 = read_header_word(&mut reader)?;
    proof {
        assert(b.skip(2).take(2) =~= b.subrange(2, 4));
        assert(b.skip(2).skip(2).skip(2).skip(2) =~= b.skip(8));
        assert(reader@ =~= b.skip(8));
    }
    if length < 8 {
        return Err(DecodeError::LengthOutOfRange);
    }
    limit_reader(&mut reader, (length - 8) as usize)?;
    proof {
        assert(reader@ =~= b.subrange(8, length as int));
    }
    let _ = read_required_identifier(&mut reader, Tag::Application(0))?;
    let ghost b1 = reader@;
    let content_length = read_length(&mut reader)?;
    limit_reader(&mut reader, content_length)?;
    proof {
        lemma_parse_length_bound(b1);
        let (v, n) = parse_length(b1)->Ok_0;
        assert(reader@ =~= b1.subrange(n as int, (n + v) as int));
    }
    let asdus = read_savpdu(&mut reader)?;
    Ok(SvMessage { appid, asdus })
}

/// The ASDU fields keep their tags in ascending order: where a required field (`[0]`, `[2]`,
/// `[3]`, `[5]`, `[7]`) is due and another tag stands there, the ASDU is rejected with
/// `UnexpectedTag`. So `[2]` before `[1]` fails: `[3]` is due after the sample counter.
pub proof fn lemma_out_of_order_tags_rejected(b: Seq<u8>)
    ensures
        (parse_identifier(b) matches Ok((id, _)) && id.tag != ctx(0)) ==> parse_asdu(b) == Err::<
            AsduModel,
            _,
        >(DecodeError::UnexpectedTag),
        (visible_field(b, 0) matches Ok((_, b1)) && optional_visible_field(b1, 1) matches Ok(
            (_, b2),
        ) && parse_identifier(b2) matches Ok((id, _)) && id.tag != ctx(2)) ==> parse_asdu(b)
            == Err::<AsduModel, _>(DecodeError::UnexpectedTag),
        (visible_field(b, 0) matches Ok((_, b1)) && optional_visible_field(b1, 1) matches Ok(
            (_, b2),
        ) && unsigned_field(b2, 2, 2) matches Ok((_, b3)) && parse_identifier(b3) matches Ok(
            (id, _),
        ) && id.tag != ctx(3)) ==> parse_asdu(b) == Err::<AsduModel, _>(
            DecodeError::UnexpectedTag,
        ),
        (visible_field(b, 0) matches Ok((_, b1)) && optional_visible_field(b1, 1) matches Ok(
            (_, b2),
        ) && unsigned_field(b2, 2, 2) matches Ok((_, b3)) && unsigned_field(b3, 3, 4) matches Ok(
            (_, b4),
        ) && optional_unsigned_field(b4, 4, 8) matches Ok((_, b5)) && parse_identifier(b5) matches Ok(
            (id, _),
        ) && id.tag != ctx(5)) ==> parse_asdu(b) == Err::<AsduModel, _>(
            DecodeError::UnexpectedTag,
        ),
        (visible_field(b, 0) matches Ok((_, b1)) && optional_visible_field(b1, 1) matches Ok(
            (_, b2),
        ) && unsigned_field(b2, 2, 2) matches Ok((_, b3)) && unsigned_field(b3, 3, 4) matches Ok(
            (_, b4),
        ) && optional_unsigned_field(b4, 4, 8) matches Ok((_, b5)) && unsigned_field(b5, 5, 1) matches Ok(
            (_, b6),
        ) && optional_unsigned_field(b6, 6, 2) matches Ok((_, b7)) && parse_identifier(b7) matches Ok(
            (id, _),
        ) && id.tag != ctx(7)) ==> parse_asdu(b) == Err::<AsduModel, _>(
            DecodeError::UnexpectedTag,
        ),
{
    reveal(parse_asdu);
}

} // verus!

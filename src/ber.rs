//! A strict decoder for the subset of ASN.1 BER (ITU-T X.690) that IEC 61850-9-2 uses.
use vstd::prelude::*;

use crate::bytes::{be_value, lemma_be_value_step, BytesReader, BytesReaderError};

verus! {

#[derive(Debug, Clone, Copy, PartialEq, Eq, Structural)]
pub enum Tag {
    Universal(u32),
    Application(u32),
    ContextSpecific(u32),
    Private(u32),
}

#[derive(Debug, Clone, Copy, PartialEq, Eq, Structural)]
pub enum Encoding {
    Primitive,
    Constructed,
}

#[derive(Debug, Clone, Copy, PartialEq, Eq, Structural)]
pub struct Identifier {
    pub tag: Tag,
    pub encoding: Encoding,
}

#[derive(Debug, Clone, Copy, PartialEq, Eq, Structural)]
pub enum DecodeError {
    UnexpectedTag,
    TagOutOfRange,
    IndefiniteLength,
    ReservedLength,
    LengthOutOfRange,
    InvalidIntegerEncoding,
    IntegerOutOfRange,
    ConstructedString,
    InvalidVisibleString,
    ReadError(BytesReaderError),
}

/// The error for input that ends too early.
pub open spec fn end_of_buffer() -> DecodeError {
    DecodeError::ReadError(BytesReaderError::EndOfBuffer)
}

/// The tag of the given class (the two top bits of the identifier octet) and number.
pub open spec fn tag_of_class(class: nat, number: u32) -> Tag {
    if class == 0 {
        Tag::Universal(number)
    } else if class == 1 {
        Tag::Application(number)
    } else if class == 2 {
        Tag::ContextSpecific(number)
    } else {
        Tag::Private(number)
    }
}

/// The largest tag number that may still be followed by another base-128 digit without leaving 32 bits.
pub open spec fn max_tag_prefix() -> nat {
    0x01FF_FFFF
}

/// Base-128 tag number digits: each byte carries 7 bits, and a set high bit announces another byte.
/// `acc` is the number accumulated so far. Yields the number and the count of bytes used.
pub open spec fn tag_number_digits(b: Seq<u8>, acc: nat) -> Result<(nat, nat), DecodeError>
    decreases b.len(),
{
    if b.len() == 0 {
        Err(end_of_buffer())
    } else {
        let v = acc * 128 + (b[0] % 128) as nat;
        if b[0] < 128 {
            Ok((v, 1))
        } else if v > max_tag_prefix() {
            Err(DecodeError::TagOutOfRange)
        } else {
            match tag_number_digits(b.skip(1), v) {
                Ok((n, c)) => Ok((n, c + 1)),
                Err(e) => Err(e),
            }
        }
    }
}

/// The identifier at the front of `b`, with the count of bytes it takes.
pub open spec fn parse_identifier(b: Seq<u8>) -> Result<(Identifier, nat), DecodeError> {
    if b.len() == 0 {
        Err(end_of_buffer())
    } else {
        let first = b[0];
        let encoding = if (first / 32) % 2 == 0 {
            Encoding::Primitive
        } else {
            Encoding::Constructed
        };
        let class = (first / 64) as nat;
        if first % 32 == 31 {
            match tag_number_digits(b.skip(1), 0) {
                Ok((n, c)) => Ok(
                    (Identifier { tag: tag_of_class(class, n as u32), encoding }, c + 1),
                ),
                Err(e) => Err(e),
            }
        } else {
            Ok((Identifier { tag: tag_of_class(class, (first % 32) as u32), encoding }, 1))
        }
    }
}

/// `count` big-endian length bytes, appended to `acc`. Fails when another byte would not fit.
pub open spec fn length_digits(b: Seq<u8>, count: nat, acc: nat) -> Result<(nat, nat), DecodeError>
    decreases count,
{
    if count == 0 {
        Ok((acc, 0))
    } else if acc > usize::MAX / 256 {
        Err(DecodeError::LengthOutOfRange)
    } else if b.len() == 0 {
        Err(end_of_buffer())
    } else {
        match length_digits(b.skip(1), (count - 1) as nat, acc * 256 + b[0] as nat) {
            Ok((v, c)) => Ok((v, c + 1)),
            Err(e) => Err(e),
        }
    }
}

/// The definite length at the front of `b`, with the count of bytes it takes.
pub open spec fn parse_length(b: Seq<u8>) -> Result<(nat, nat), DecodeError> {
    if b.len() == 0 {
        Err(end_of_buffer())
    } else if b[0] < 0x80 {
        Ok((b[0] as nat, 1))
    } else if b[0] == 0x80 {
        Err(DecodeError::IndefiniteLength)
    } else if b[0] == 0xFF {
        Err(DecodeError::ReservedLength)
    } else {
        match length_digits(b.skip(1), (b[0] - 0x80) as nat, 0) {
            Ok((v, c)) => Ok((v, c + 1)),
            Err(e) => Err(e),
        }
    }
}

/// The content octets of a length-prefixed value at the front of `b`, with the count of bytes that
/// the length and the content take together.
pub open spec fn parse_content(b: Seq<u8>) -> Result<(Seq<u8>, nat), DecodeError> {
    match parse_length(b) {
        Ok((len, n)) => if n + len <= b.len() {
            Ok((b.subrange(n as int, (n + len) as int), n + len))
        } else {
            Err(end_of_buffer())
        },
        Err(e) => Err(e),
    }
}

/// An INTEGER encoding whose first nine bits are all equal, so that a shorter encoding exists.
pub open spec fn is_overlong(c: Seq<u8>) -> bool {
    c.len() >= 2 && ((c[0] == 0x00 && c[1] < 0x80) || (c[0] == 0xFF && c[1] >= 0x80))
}

/// The value of INTEGER content octets read as an unsigned 16-bit number.
pub open spec fn integer_u16_value(c: Seq<u8>) -> Result<u16, DecodeError> {
    if c.len() == 0 || is_overlong(c) {
        Err(DecodeError::InvalidIntegerEncoding)
    } else if c[0] >= 0x80 || be_value(c) > 0xFFFF {
        Err(DecodeError::IntegerOutOfRange)
    } else {
        Ok(be_value(c) as u16)
    }
}

/// The characters of VisibleString: printable ASCII.
pub open spec fn is_visible_byte(b: u8) -> bool {
    0x20 <= b <= 0x7E
}

/// The characters that ASCII bytes stand for.
pub open spec fn ascii_chars(b: Seq<u8>) -> Seq<char> {
    b.map_values(|x: u8| x as char)
}

/// Relies on `core::str::from_utf8`: on bytes that are all ASCII it succeeds, and the string it
/// returns holds one character per byte.
#[verifier::external_body]
fn ascii_str<'b>(bytes: &'b [u8]) -> (r: &'b str)
    requires
        forall|i: int| 0 <= i < bytes@.len() ==> is_visible_byte(#[trigger] bytes@[i]),
    ensures
        r@ == ascii_chars(bytes@),
{
    match core::str::from_utf8(bytes) {
        Ok(s) => s,
        Err(_) => "",
    }
}

fn next_byte(reader: &mut BytesReader<'_>) -> (r: Result<u8, DecodeError>)
    ensures
        old(reader)@.len() > 0 ==> r == Ok::<u8, DecodeError>(old(reader)@[0])
            && final(reader)@ == old(reader)@.skip(1),
        old(reader)@.len() == 0 ==> r == Err::<u8, _>(end_of_buffer()),
{
    match reader.read_u8() {
        Ok(b) => Ok(b),
        Err(e) => Err(DecodeError::ReadError(e)),
    }
}

fn next_bytes<'b>(reader: &mut BytesReader<'b>, length: usize) -> (r: Result<&'b [u8], DecodeError>)
    ensures
        length <= old(reader)@.len() ==> (r matches Ok(s) && s@ == old(reader)@.take(length as int)
            && final(reader)@ == old(reader)@.skip(length as int)),
        length > old(reader)@.len() ==> r == Err::<&'b [u8], _>(end_of_buffer()),
{
    match reader.read_bytes(length) {
        Ok(s) => Ok(s),
        Err(e) => Err(DecodeError::ReadError(e)),
    }
}

fn tag_from_class(class: u8, number: u32) -> (r: Tag)
    requires
        class < 4,
    ensures
        r == tag_of_class(class as nat, number),
{
    match class {
        0 => Tag::Universal(number),
        1 => Tag::Application(number),
        2 => Tag::ContextSpecific(number),
        _ => Tag::Private(number),
    }
}

/// Reads an identifier: class, primitive/constructed flag and tag number, in the low- or
/// high-tag-number form.
pub fn read_identifier(reader: &mut BytesReader<'_>) -> (r: Result<Identifier, DecodeError>)
    ensures
        match parse_identifier(old(reader)@) {
            Ok((id, n)) => r == Ok::<Identifier, DecodeError>(id) && final(reader)@ == old(reader)@.skip(n as int),
            Err(e) => r == Err::<Identifier, _>(e),
        },
{
    let ghost input = reader@;
    let first_byte = next_byte(reader)?;
    let encoding = if (first_byte / 32) % 2 == 0 {
        Encoding::Primitive
    } else {
        Encoding::Constructed
    };
    let low = first_byte % 32;
    assert(first_byte == input[0]);
    let num: u32 = if low == 31 {
        let mut num: u32 = 0;
        let ghost mut used: nat = 1;
        loop
            invariant_except_break
                num <= max_tag_prefix(),
                tag_number_digits(input.skip(1), 0) == match tag_number_digits(
                    reader@,
                    num as nat,
                ) {
                    Ok((n, c)) => Ok::<(nat, nat), DecodeError>((n, (c + used - 1) as nat)),
                    Err(e) => Err(e),
                },
            invariant
                1 <= used <= input.len(),
                input == old(reader)@,
                input[0] == first_byte,
                first_byte % 32 == 31,
                reader@ == input.skip(used as int),
            ensures
                tag_number_digits(input.skip(1), 0) == Ok::<(nat, nat), DecodeError>(
                    (num as nat, (used - 1) as nat),
                ),
            decreases reader@.len(),
        {
            let ghost before = reader@;
            let next = match next_byte(reader) {
                Ok(b) => b,
                Err(e) => {
                    assert(tag_number_digits(input.skip(1), 0) == Err::<(nat, nat), _>(e));
                    return Err(e);
                },
            };
            proof {
                assert(before.skip(1) =~= input.skip(used + 1 as int));
            }
            num = num * 128 + (next % 128) as u32;
            proof {
                used = used + 1;
            }
            if next < 128 {
                break;
            }
            if num > 0x01FF_FFFF {
                assert(tag_number_digits(input.skip(1), 0) == Err::<(nat, nat), _>(
                    DecodeError::TagOutOfRange,
                ));
                return Err(DecodeError::TagOutOfRange);
            }
        }
        num
    } else {
        low as u32
    };
    let tag = tag_from_class(first_byte / 64, num);
    Ok(Identifier { tag, encoding })
}

/// Reads an identifier and checks that it carries `tag`; returns its encoding.
pub fn read_required_identifier(reader: &mut BytesReader<'_>, tag: Tag) -> (r: Result<
    Encoding,
    DecodeError,
>)
    ensures
        match parse_identifier(old(reader)@) {
            Ok((id, n)) => if id.tag == tag {
                r == Ok::<Encoding, DecodeError>(id.encoding) && final(reader)@ == old(reader)@.skip(n as int)
            } else {
                r == Err::<Encoding, _>(DecodeError::UnexpectedTag)
            },
            Err(e) => r == Err::<Encoding, _>(e),
        },
{
    let identifier = read_identifier(reader)?;
    if identifier.tag == tag {
        Ok(identifier.encoding)
    } else {
        Err(DecodeError::UnexpectedTag)
    }
}

/// Reads an identifier only where one carrying `tag` comes next; otherwise consumes nothing.
pub fn read_optional_identifier(reader: &mut BytesReader<'_>, tag: Tag) -> (r: Result<
    Option<Encoding>,
    DecodeError,
>)
    ensures
        old(reader)@.len() == 0 ==> r == Ok::<Option<Encoding>, DecodeError>(None) && final(reader)@ == old(reader)@,
        old(reader)@.len() > 0 ==> match parse_identifier(old(reader)@) {
            Ok((id, n)) => if id.tag == tag {
                r == Ok::<Option<Encoding>, DecodeError>(Some(id.encoding)) && final(reader)@
                    == old(reader)@.skip(n as int)
            } else {
                r == Ok::<Option<Encoding>, DecodeError>(None) && final(reader)@ == old(reader)@
            },
            Err(e) => r == Err::<Option<Encoding>, _>(e) && final(reader)@ == old(reader)@,
        },
{
    if reader.is_empty() {
        return Ok(None);
    }
    let mut peek_reader = *reader;
    let identifier = read_identifier(&mut peek_reader)?;
    if identifier.tag == tag {
        *reader = peek_reader;
        Ok(Some(identifier.encoding))
    } else {
        Ok(None)
    }
}

/// Reads a definite length in the short or the long form.
pub fn read_length(reader: &mut BytesReader<'_>) -> (r: Result<usize, DecodeError>)
    ensures
        match parse_length(old(reader)@) {
            Ok((v, n)) => r == Ok::<usize, DecodeError>(v as usize) && v <= usize::MAX && final(reader)@ == old(reader)@.skip(n as int),
            Err(e) => r == Err::<usize, _>(e),
        },
{
    let ghost input = reader@;
    let first = next_byte(reader)?;
    if first < 0x80 {
        Ok(first as usize)
    } else if first == 0x80 {
        Err(DecodeError::IndefiniteLength)
    } else if first == 0xFF {
        Err(DecodeError::ReservedLength)
    } else {
        let count = first - 0x80;
        let mut length: usize = 0;
        let mut i: u8 = 0;
        while i < count
            invariant
                i <= count,
                input.len() > 0,
                count == input[0] - 0x80,
                input == old(reader)@,
                input.len() >= 1 + i,
                0x80 < input[0] < 0xFF,
                reader@ == input.skip(1 + i),
                parse_length(input) == match length_digits(
                    reader@,
                    (count - i) as nat,
                    length as nat,
                ) {
                    Ok((v, c)) => Ok::<(nat, nat), DecodeError>((v, (c + 1 + i) as nat)),
                    Err(e) => Err(e),
                },
            decreases count - i,
        {
            let ghost before = reader@;
            if length > usize::MAX / 256 {
                return Err(DecodeError::LengthOutOfRange);
            }
            let next = next_byte(reader)?;
            proof {
                assert(before.skip(1) =~= input.skip(1 + i + 1));
            }
            length = length * 256 + next as usize;
            i = i + 1;
        }
        Ok(length)
    }
}

proof fn lemma_length_digits_bound(b: Seq<u8>, count: nat, acc: nat)
    ensures
        length_digits(b, count, acc) matches Ok((v, c)) ==> c == count && c <= b.len(),
    decreases count,
{
    if count > 0 && acc <= usize::MAX / 256 && b.len() > 0 {
        lemma_length_digits_bound(b.skip(1), (count - 1) as nat, acc * 256 + b[0] as nat);
    }
}

pub proof fn lemma_parse_length_bound(b: Seq<u8>)
    ensures
        parse_length(b) matches Ok((v, n)) ==> 1 <= n <= b.len(),
{
    if b.len() > 0 && b[0] > 0x80 && b[0] < 0xFF {
        lemma_length_digits_bound(b.skip(1), (b[0] - 0x80) as nat, 0);
    }
}

/// Reads a length and then that many content bytes.
fn read_content<'b>(reader: &mut BytesReader<'b>) -> (r: Result<&'b [u8], DecodeError>)
    ensures
        match parse_content(old(reader)@) {
            Ok((c, n)) => (r matches Ok(s) && s@ == c) && final(reader)@ == old(reader)@.skip(n as int),
            Err(e) => r == Err::<&'b [u8], _>(e),
        },
{
    let ghost input = reader@;
    let length = read_length(reader)?;
    let bytes = next_bytes(reader, length)?;
    proof {
        lemma_parse_length_bound(input);
        let (v, n) = parse_length(input)->Ok_0;
        assert(bytes@ =~= input.subrange(n as int, (n + v) as int));
        assert(reader@ =~= input.skip((n + v) as int));
    }
    Ok(bytes)
}

proof fn lemma_be_value_prefix(c: Seq<u8>, k: int)
    requires
        0 <= k <= c.len(),
    ensures
        be_value(c) >= be_value(c.take(k)),
    decreases c.len(),
{
    if k == c.len() {
        assert(c.take(k) =~= c);
    } else {
        lemma_be_value_prefix(c.drop_last(), k);
        assert(c.drop_last().take(k) =~= c.take(k));
    }
}

/// Reads a primitive INTEGER that must lie in the range of a `u16`.
pub fn read_integer_as_u16(reader: &mut BytesReader<'_>, encoding: Encoding) -> (r: Result<
    u16,
    DecodeError,
>)
    ensures
        encoding != Encoding::Primitive ==> r == Err::<u16, _>(DecodeError::InvalidIntegerEncoding),
        encoding == Encoding::Primitive ==> match parse_content(old(reader)@) {
            Ok((c, n)) => r == integer_u16_value(c) && final(reader)@ == old(reader)@.skip(n as int),
            Err(e) => r == Err::<u16, _>(e),
        },
{
    if encoding != Encoding::Primitive {
        return Err(DecodeError::InvalidIntegerEncoding);
    }
    let c = read_content(reader)?;
    let len = c.len();
    proof {
        assert(c@.take(0) =~= Seq::<u8>::empty());
        assert(c@.take(c@.len() as int) =~= c@);
        if len >= 1 {
            lemma_be_value_step(c@, 0);
        }
        if len >= 2 {
            lemma_be_value_step(c@, 1);
        }
        if len >= 3 {
            lemma_be_value_step(c@, 2);
            lemma_be_value_prefix(c@, 3);
        }
        if len >= 4 {
            lemma_be_value_step(c@, 3);
            lemma_be_value_prefix(c@, 4);
        }
    }
    if len == 0 {
        Err(DecodeError::InvalidIntegerEncoding)
    } else if len >= 2 && ((c[0] == 0x00 && c[1] < 0x80) || (c[0] == 0xFF && c[1] >= 0x80)) {
        Err(DecodeError::InvalidIntegerEncoding)
    } else if c[0] >= 0x80 {
        Err(DecodeError::IntegerOutOfRange)
    } else if len == 1 {
        Ok(c[0] as u16)
    } else if len == 2 {
        Ok(c[0] as u16 * 256 + c[1] as u16)
    } else if len == 3 && c[0] == 0 {
        Ok(c[1] as u16 * 256 + c[2] as u16)
    } else {
        Err(DecodeError::IntegerOutOfRange)
    }
}

/// Reads a primitive OCTET STRING and returns its content, borrowed from the input.
pub fn read_octet_string<'b>(reader: &mut BytesReader<'b>, encoding: Encoding) -> (r: Result<
    &'b [u8],
    DecodeError,
>)
    ensures
        encoding == Encoding::Constructed ==> r == Err::<&'b [u8], _>(DecodeError::ConstructedString)
            && final(reader)@ == old(reader)@,
        encoding == Encoding::Primitive ==> match parse_content(old(reader)@) {
            Ok((c, n)) => (r matches Ok(s) && s@ == c) && final(reader)@ == old(reader)@.skip(n as int),
            Err(e) => r == Err::<&'b [u8], _>(e),
        },
{
    if encoding == Encoding::Constructed {
        return Err(DecodeError::ConstructedString);
    }
    read_content(reader)
}

/// Reads a primitive VisibleString, whose bytes must all be printable ASCII.
pub fn read_visiblestring<'b>(reader: &mut BytesReader<'b>, encoding: Encoding) -> (r: Result<
    &'b str,
    DecodeError,
>)
    ensures
        encoding == Encoding::Constructed ==> r == Err::<&'b str, _>(DecodeError::ConstructedString)
            && final(reader)@ == old(reader)@,
        encoding == Encoding::Primitive ==> match parse_content(old(reader)@) {
            Ok((c, n)) => final(reader)@ == old(reader)@.skip(n as int) && if forall|i: int|
                0 <= i < c.len() ==> is_visible_byte(#[trigger] c[i]) {
                r matches Ok(s) && s@ == ascii_chars(c)
            } else {
                r == Err::<&'b str, _>(DecodeError::InvalidVisibleString)
            },
            Err(e) => r == Err::<&'b str, _>(e),
        },
{
    if encoding == Encoding::Constructed {
        return Err(DecodeError::ConstructedString);
    }
    let bytes = read_content(reader)?;
    if all_visible(bytes) {
        Ok(ascii_str(bytes))
    } else {
        Err(DecodeError::InvalidVisibleString)
    }
}

fn all_visible(bytes: &[u8]) -> (r: bool)
    ensures
        r == forall|j: int| 0 <= j < bytes@.len() ==> is_visible_byte(#[trigger] bytes@[j]),
{
    let mut i: usize = 0;
    while i < bytes.len()
        invariant
            i <= bytes@.len(),
            forall|j: int| 0 <= j < i ==> is_visible_byte(#[trigger] bytes@[j]),
        decreases bytes@.len() - i,
    {
        if bytes[i] < 0x20 || bytes[i] > 0x7E {
            return false;
        }
        i += 1;
    }
    true
}

/// A primitive INTEGER whose first nine bits are all equal is rejected as an invalid encoding,
/// whatever follows.
pub proof fn lemma_overlong_integer_rejected(c: Seq<u8>)
    requires
        c.len() >= 2,
        (c[0] == 0x00 && c[1] < 0x80) || (c[0] == 0xFF && c[1] >= 0x80),
    ensures
        integer_u16_value(c) == Err::<u16, _>(DecodeError::InvalidIntegerEncoding),
{
}

} // verus!

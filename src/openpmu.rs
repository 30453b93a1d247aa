//! Rendering of a completed window as an OpenPMU XML sample datagram.
use base64::Engine;
use vstd::prelude::*;
use vstd::string::StringSliceAdditionalSpecFns;
use vstd::utf8::encode_utf8;

use crate::config::{OutputChannel, OutputChannelType};
use crate::sample_buffer::{
    abs_value, buffer_wf, channel_wf, has_calendar_date, is_date_time_of, BufferModel,
    ChannelModel, SampleBuffer, SampleBufferChannel,
};

verus! {

/// What base64's standard engine (alphabet `A-Z a-z 0-9 + /`, with `=` padding) gives for `b`.
pub uninterp spec fn base64_of(b: Seq<u8>) -> Seq<u8>;

/// Relies on `base64::engine::general_purpose::STANDARD.encode`: standard Base64 of the input,
/// which depends on the input bytes alone. The engine panics only where the output length would
/// overflow `usize`, which the bound on the input rules out.
#[verifier::external_body]
fn encode_base64(bytes: &[u8]) -> (r: Vec<u8>)
    requires
        bytes@.len() <= usize::MAX / 2,
    ensures
        r@ == base64_of(bytes@),
{
    base64::engine::general_purpose::STANDARD.encode(bytes).into_bytes()
}

pub open spec fn digit_byte(d: nat) -> u8 {
    (48 + d) as u8
}

/// The decimal digits of `n`, most significant first, with no leading zeros.
pub open spec fn decimal(n: nat) -> Seq<u8>
    decreases n,
{
    if n < 10 {
        seq![digit_byte(n)]
    } else {
        decimal(n / 10).push(digit_byte(n % 10))
    }
}

/// The decimal digits of `n`, with leading zeros up to `width` digits.
pub open spec fn padded(n: nat, width: nat) -> Seq<u8> {
    let d = decimal(n);
    if d.len() >= width {
        d
    } else {
        Seq::new((width - d.len()) as nat, |i: int| 48u8) + d
    }
}

pub open spec fn pow10(n: nat) -> nat
    decreases n,
{
    if n == 0 {
        1
    } else {
        10 * pow10((n - 1) as nat)
    }
}

/// The `places` fractional digits of `frac`, without trailing zeros.
pub open spec fn fraction_digits(frac: nat, places: nat) -> Seq<u8>
    decreases places,
{
    if places > 1 && frac % 10 == 0 {
        fraction_digits(frac / 10, (places - 1) as nat)
    } else {
        padded(frac, places)
    }
}

/// `value / 10^places` written as a decimal: the integer part, then, where the fraction is not
/// zero, a point and its digits without trailing zeros.
pub open spec fn scaled_decimal(value: nat, places: nat) -> Seq<u8> {
    let int_part = value / pow10(places);
    let frac = value % pow10(places);
    if frac == 0 {
        decimal(int_part)
    } else {
        decimal(int_part) + seq![46u8] + fraction_digits(frac, places)
    }
}

/// Appends the decimal digits of `n`.
pub fn push_decimal(out: &mut Vec<u8>, n: u64)
    ensures
        final(out)@ == old(out)@ + decimal(n as nat),
    decreases n,
{
    if n >= 10 {
        push_decimal(out, n / 10);
    }
    out.push(48u8 + (n % 10) as u8);
    proof {
        if n >= 10 {
            assert(final(out)@ =~= old(out)@ + decimal(n as nat));
        } else {
            assert(final(out)@ =~= old(out)@ + decimal(n as nat));
        }
    }
}

proof fn lemma_decimal_len(n: nat, k: nat)
    requires
        k >= 1,
        n < pow10(k),
    ensures
        decimal(n).len() <= k,
    decreases n,
{
    if n >= 10 {
        if k == 1 {
            assert(pow10(1) == 10) by {
                reveal_with_fuel(pow10, 2);
            }
        }
        lemma_decimal_len(n / 10, (k - 1) as nat);
    }
}

fn decimal_len(n: u64) -> (r: usize)
    ensures
        r == decimal(n as nat).len(),
        r <= 20,
    decreases n,
{
    proof {
        assert(pow10(20) == 100_000_000_000_000_000_000) by {
            reveal_with_fuel(pow10, 21);
        }
        lemma_decimal_len(n as nat, 20);
    }
    if n >= 10 {
        decimal_len(n / 10) + 1
    } else {
        1
    }
}

/// Appends the decimal digits of `n` with leading zeros up to `width` digits.
pub fn push_padded(out: &mut Vec<u8>, n: u64, width: usize)
    ensures
        final(out)@ == old(out)@ + padded(n as nat, width as nat),
{
    let len = decimal_len(n);
    let ghost start = out@;
    if len < width {
        let mut i: usize = len;
        while i < width
            invariant
                len <= i <= width,
                out@ == start + Seq::new((i - len) as nat, |k: int| 48u8),
            decreases width - i,
        {
            out.push(48u8);
            i += 1;
            proof {
                assert(out@ =~= start + Seq::new((i - len) as nat, |k: int| 48u8));
            }
        }
    }
    let ghost zeros = out@;
    push_decimal(out, n);
    proof {
        if len < width {
            assert(out@ =~= start + padded(n as nat, width as nat));
        } else {
            assert(out@ =~= start + padded(n as nat, width as nat));
        }
    }
}

/// Appends `value / 10^places` as a decimal without trailing fractional zeros.
pub fn push_scaled_decimal(out: &mut Vec<u8>, value: u32, places: u32)
    requires
        1 <= places <= 9,
    ensures
        final(out)@ == old(out)@ + scaled_decimal(value as nat, places as nat),
{
    let mut p: u64 = 1;
    let mut i: u32 = 0;
    while i < places
        invariant
            i <= places <= 9,
            p == pow10(i as nat),
            1 <= p <= 1_000_000_000,
        decreases places - i,
    {
        proof {
            assert(pow10((i + 1) as nat) == 10 * pow10(i as nat));
            assert(p * 10 <= 1_000_000_000) by {
                reveal_with_fuel(pow10, 10);
                if i < 9 {
                    lemma_pow10_mono(i as nat + 1, 9);
                }
            }
        }
        p = p * 10;
        i += 1;
    }
    let value = value as u64;
    push_decimal(out, value / p);
    let mut frac = value % p;
    if frac != 0 {
        out.push(46u8);
        let mut digits = places as usize;
        let ghost start = out@;
        while digits > 1 && frac % 10 == 0
            invariant
                1 <= digits <= places,
                fraction_digits(frac as nat, digits as nat) == fraction_digits(
                    (value % p) as nat,
                    places as nat,
                ),
            decreases digits,
        {
            frac = frac / 10;
            digits = digits - 1;
        }
        push_padded(out, frac, digits);
        proof {
            assert(out@ =~= old(out)@ + scaled_decimal(value as nat, places as nat));
        }
    }
}

proof fn lemma_pow10_mono(m: nat, n: nat)
    requires
        m <= n,
    ensures
        pow10(m) <= pow10(n),
    decreases n,
{
    if m < n {
        lemma_pow10_mono(m, (n - 1) as nat);
    }
}

/// A reading scaled against the channel's `max` to a 16-bit full range: `value / max * 32767`,
/// truncated toward zero. Zero where `max` is zero.
pub open spec fn scaled_value(value: i32, max: nat) -> int {
    if max == 0 {
        0
    } else if value >= 0 {
        (value as int * 32767) / (max as int)
    } else {
        -(((-value) as int * 32767) / (max as int))
    }
}

/// The two's complement bit pattern of a 16-bit value.
pub open spec fn u16_bits(x: int) -> nat {
    if x < 0 {
        (x + 65536) as nat
    } else {
        x as nat
    }
}

/// The payload of a channel: each reading scaled, as a big-endian signed 16-bit number.
pub open spec fn payload_bytes(values: Seq<i32>, max: nat) -> Seq<u8> {
    Seq::new(
        2 * values.len(),
        |i: int|
            {
                let u = u16_bits(scaled_value(values[i / 2], max));
                if i % 2 == 0 {
                    (u / 256) as u8
                } else {
                    (u % 256) as u8
                }
            },
    )
}

/// The signed value of two big-endian bytes.
pub open spec fn i16_from_be(hi: u8, lo: u8) -> int {
    let u = hi as int * 256 + lo as int;
    if u >= 0x8000 {
        u - 0x1_0000
    } else {
        u
    }
}

proof fn lemma_scaled_range(value: i32, max: nat)
    requires
        abs_value(value) <= max,
    ensures
        -32767 <= scaled_value(value, max) <= 32767,
{
    if max > 0 {
        if value >= 0 {
            assert((value as int * 32767) / (max as int) <= 32767) by (nonlinear_arith)
                requires
                    value <= max,
                    max > 0,
                    value >= 0,
            ;
            assert((value as int * 32767) / (max as int) >= 0) by (nonlinear_arith)
                requires
                    max > 0,
                    value >= 0,
            ;
        } else {
            let a = (-value) as int;
            assert((a * 32767) / (max as int) <= 32767) by (nonlinear_arith)
                requires
                    a <= max,
                    max > 0,
                    a >= 0,
            ;
            assert((a * 32767) / (max as int) >= 0) by (nonlinear_arith)
                requires
                    max > 0,
                    a >= 0,
            ;
        }
    }
}

/// Decoding the payload of a well-formed channel as big-endian signed 16-bit numbers gives back
/// each reading scaled to `value / max * 32767`, truncated toward zero; with `max == 0` every
/// payload byte is zero.
pub proof fn lemma_payload_round_trip(c: ChannelModel)
    requires
        channel_wf(c),
    ensures
        payload_bytes(c.values, c.max).len() == 2 * c.values.len(),
        forall|i: int|
            0 <= i < c.values.len() ==> i16_from_be(
                #[trigger] payload_bytes(c.values, c.max)[2 * i],
                payload_bytes(c.values, c.max)[2 * i + 1],
            ) == scaled_value(c.values[i], c.max),
        c.max == 0 ==> forall|j: int|
            0 <= j < 2 * c.values.len() ==> #[trigger] payload_bytes(c.values, c.max)[j] == 0,
{
    let p = payload_bytes(c.values, c.max);
    assert forall|i: int| 0 <= i < c.values.len() implies i16_from_be(
        #[trigger] p[2 * i],
        p[2 * i + 1],
    ) == scaled_value(c.values[i], c.max) by {
        lemma_scaled_range(c.values[i], c.max);
        assert((2 * i) / 2 == i);
        assert((2 * i + 1) / 2 == i);
    }
}

/// The payload bytes of a channel's readings.
pub fn channel_payload(values: &Vec<i32>, max: u32) -> (r: Vec<u8>)
    requires
        forall|i: int| 0 <= i < values@.len() ==> abs_value(#[trigger] values@[i]) <= max,
        values@.len() <= usize::MAX / 2,
    ensures
        r@ == payload_bytes(values@, max as nat),
{
    let mut out: Vec<u8> = Vec::new();
    let mut i: usize = 0;
    while i < values.len()
        invariant
            i <= values@.len() <= usize::MAX / 2,
            forall|k: int| 0 <= k < values@.len() ==> abs_value(#[trigger] values@[k]) <= max,
            out@ =~= payload_bytes(values@, max as nat).take(2 * i as int),
        decreases values@.len() - i,
    {
        let v = values[i];
        proof {
            lemma_scaled_range(v, max as nat);
        }
        let scaled: i64 = if max == 0 {
            0
        } else if v >= 0 {
            (v as i64 * 32767) / max as i64
        } else {
            -((-(v as i64) * 32767) / max as i64)
        };
        let bits: u32 = if scaled < 0 {
            (scaled + 65536) as u32
        } else {
            scaled as u32
        };
        let ghost before = out@;
        out.push((bits / 256) as u8);
        out.push((bits % 256) as u8);
        proof {
            let full = payload_bytes(values@, max as nat);
            assert((2 * i as int) / 2 == i);
            assert((2 * i as int + 1) / 2 == i);
            assert(out@ =~= full.take(2 * (i + 1) as int));
        }
        i += 1;
    }
    proof {
        assert(payload_bytes(values@, max as nat).take(2 * values@.len() as int) =~= payload_bytes(
            values@,
            max as nat,
        ));
    }
    out
}

/// Appends the bytes of `s`, as UTF-8.
pub fn push_text(out: &mut Vec<u8>, s: &str)
    ensures
        final(out)@ == old(out)@ + s.spec_bytes(),
{
    let bytes = s.as_bytes();
    let ghost start = out@;
    let mut i: usize = 0;
    while i < bytes.len()
        invariant
            i <= bytes@.len(),
            out@ == start + bytes@.take(i as int),
        decreases bytes@.len() - i,
    {
        out.push(bytes[i]);
        i += 1;
        proof {
            assert(out@ =~= start + bytes@.take(i as int));
        }
    }
    proof {
        assert(bytes@.take(bytes@.len() as int) =~= bytes@);
    }
}

/// The UTF-8 bytes of a string literal.
pub open spec fn lit(s: &str) -> Seq<u8> {
    s.spec_bytes()
}

/// An element written as its opening text, its body and its closing text.
pub open spec fn element(open: &str, body: Seq<u8>, close: &str) -> Seq<u8> {
    lit(open) + body + lit(close)
}

pub open spec fn date_text(year: nat, month: nat, day: nat) -> Seq<u8> {
    lit("\t<Date>") + padded(year, 4) + lit("-") + padded(month, 2) + lit("-") + padded(day, 2) + lit(
        "</Date>\n",
    )
}

pub open spec fn time_text(hours: nat, minutes: nat, seconds: nat, micros: nat) -> Seq<u8> {
    lit("\t<Time>") + padded(hours, 2) + lit(":") + padded(minutes, 2) + lit(":") + padded(seconds, 2)
        + lit(".") + padded(micros, 6) + lit("</Time>\n")
}

/// The document's opening and its fields before the channels.
pub open spec fn header_text(
    dt: (u32, u32, u32, u32, u32, u32, u32),
    frame: nat,
    rate: nat,
    length: nat,
    channel_count: nat,
) -> Seq<u8> {
    lit("<OpenPMU>\n") + lit("\t<Format>Samples</Format>\n") + date_text(
        dt.0 as nat,
        dt.1 as nat,
        dt.2 as nat,
    ) + time_text(dt.3 as nat, dt.4 as nat, dt.5 as nat, dt.6 as nat) + element(
        "\t<Frame>",
        decimal(frame),
        "</Frame>\n",
    ) + element("\t<Fs>", decimal(rate), "</Fs>\n") + element("\t<n>", decimal(length), "</n>\n")
        + lit("\t<bits>16</bits>\n") + element(
        "\t<Channels>",
        decimal(channel_count),
        "</Channels>\n",
    )
}

/// One channel's block: its index, labels, range and Base64 payload.
pub open spec fn channel_text(
    index: nat,
    name: Seq<u8>,
    type_: Seq<u8>,
    phase: Seq<u8>,
    range: Seq<u8>,
    payload: Seq<u8>,
) -> Seq<u8> {
    element("\t<Channel_", decimal(index), ">\n") + element("\t\t<Name>", name, "</Name>\n")
        + element("\t\t<Type>", type_, "</Type>\n") + element("\t\t<Phase>", phase, "</Phase>\n")
        + element("\t\t<Range>", range, "</Range>\n") + element(
        "\t\t<Payload>",
        payload,
        "</Payload>\n",
    ) + element("\t</Channel_", decimal(index), ">\n")
}

pub open spec fn type_text(t: OutputChannelType) -> Seq<u8> {
    match t {
        OutputChannelType::Voltage => lit("V"),
        OutputChannelType::Current => lit("I"),
    }
}

/// The decimal places of an input channel's unit: currents are in mA, voltages in units of 10 mV.
pub open spec fn unit_places(input_channel: nat) -> nat {
    if input_channel < 4 {
        3
    } else {
        2
    }
}

/// The channel's range: its largest magnitude, in amperes or volts.
pub open spec fn range_text(c: ChannelModel, input_channel: nat) -> Seq<u8> {
    scaled_decimal(c.max, unit_places(input_channel))
}

/// The block of output channel `ch`, published at position `index`, taken from window `b`.
pub open spec fn channel_block(b: BufferModel, index: nat, ch: OutputChannel) -> Seq<u8> {
    let src = b.channels[ch.input_channel as int];
    channel_text(
        index,
        encode_utf8(ch.name@),
        type_text(ch.type_),
        encode_utf8(ch.phase@),
        range_text(src, ch.input_channel as nat),
        base64_of(payload_bytes(src.values, src.max)),
    )
}

fn push_decimal_element(out: &mut Vec<u8>, open: &str, n: u64, close: &str)
    ensures
        final(out)@ == old(out)@ + element(open, decimal(n as nat), close),
{
    push_text(out, open);
    push_decimal(out, n);
    push_text(out, close);
    proof {
        assert(out@ =~= old(out)@ + element(open, decimal(n as nat), close));
    }
}

fn push_bytes_element(out: &mut Vec<u8>, open: &str, body: &[u8], close: &str)
    ensures
        final(out)@ == old(out)@ + element(open, body@, close),
{
    push_text(out, open);
    let ghost mid = out@;
    let mut i: usize = 0;
    while i < body.len()
        invariant
            i <= body@.len(),
            out@ == mid + body@.take(i as int),
        decreases body@.len() - i,
    {
        out.push(body[i]);
        i += 1;
        proof {
            assert(out@ =~= mid + body@.take(i as int));
        }
    }
    proof {
        assert(body@.take(body@.len() as int) =~= body@);
    }
    push_text(out, close);
    proof {
        assert(out@ =~= old(out)@ + element(open, body@, close));
    }
}

fn push_date(out: &mut Vec<u8>, year: u32, month: u32, day: u32)
    ensures
        final(out)@ == old(out)@ + date_text(year as nat, month as nat, day as nat),
{
    push_text(out, "\t<Date>");
    push_padded(out, year as u64, 4);
    push_text(out, "-");
    push_padded(out, month as u64, 2);
    push_text(out, "-");
    push_padded(out, day as u64, 2);
    push_text(out, "</Date>\n");
    proof {
        assert(out@ =~= old(out)@ + date_text(year as nat, month as nat, day as nat));
    }
}

fn push_time(out: &mut Vec<u8>, hours: u32, minutes: u32, seconds: u32, micros: u32)
    ensures
        final(out)@ == old(out)@ + time_text(
            hours as nat,
            minutes as nat,
            seconds as nat,
            micros as nat,
        ),
{
    push_text(out, "\t<Time>");
    push_padded(out, hours as u64, 2);
    push_text(out, ":");
    push_padded(out, minutes as u64, 2);
    push_text(out, ":");
    push_padded(out, seconds as u64, 2);
    push_text(out, ".");
    push_padded(out, micros as u64, 6);
    push_text(out, "</Time>\n");
    proof {
        assert(out@ =~= old(out)@ + time_text(
            hours as nat,
            minutes as nat,
            seconds as nat,
            micros as nat,
        ));
    }
}

fn push_header(
    out: &mut Vec<u8>,
    dt: (u32, u32, u32, u32, u32, u32, u32),
    frame: u32,
    rate: u32,
    length: u32,
    channel_count: usize,
)
    ensures
        final(out)@ == old(out)@ + header_text(
            dt,
            frame as nat,
            rate as nat,
            length as nat,
            channel_count as nat,
        ),
{
    push_text(out, "<OpenPMU>\n");
    push_text(out, "\t<Format>Samples</Format>\n");
    push_date(out, dt.0, dt.1, dt.2);
    push_time(out, dt.3, dt.4, dt.5, dt.6);
    push_decimal_element(out, "\t<Frame>", frame as u64, "</Frame>\n");
    push_decimal_element(out, "\t<Fs>", rate as u64, "</Fs>\n");
    push_decimal_element(out, "\t<n>", length as u64, "</n>\n");
    push_text(out, "\t<bits>16</bits>\n");
    push_decimal_element(out, "\t<Channels>", channel_count as u64, "</Channels>\n");
    proof {
        assert(out@ =~= old(out)@ + header_text(
            dt,
            frame as nat,
            rate as nat,
            length as nat,
            channel_count as nat,
        ));
    }
}

fn push_text_element(out: &mut Vec<u8>, open: &str, body: &str, close: &str)
    ensures
        final(out)@ == old(out)@ + element(open, body.spec_bytes(), close),
{
    push_text(out, open);
    push_text(out, body);
    push_text(out, close);
    proof {
        assert(out@ =~= old(out)@ + element(open, body.spec_bytes(), close));
    }
}

fn push_type_element(out: &mut Vec<u8>, t: OutputChannelType)
    ensures
        final(out)@ == old(out)@ + element("\t\t<Type>", type_text(t), "</Type>\n"),
{
    match t {
        OutputChannelType::Voltage => push_text_element(out, "\t\t<Type>", "V", "</Type>\n"),
        OutputChannelType::Current => push_text_element(out, "\t\t<Type>", "I", "</Type>\n"),
    }
}

fn push_range_element(out: &mut Vec<u8>, source: &SampleBufferChannel, input_channel: usize)
    ensures
        final(out)@ == old(out)@ + element(
            "\t\t<Range>",
            range_text(source@, input_channel as nat),
            "</Range>\n",
        ),
{
    let places: u32 = if input_channel < 4 {
        3
    } else {
        2
    };
    push_text(out, "\t\t<Range>");
    push_scaled_decimal(out, source.max(), places);
    push_text(out, "</Range>\n");
    proof {
        assert(out@ =~= old(out)@ + element(
            "\t\t<Range>",
            range_text(source@, input_channel as nat),
            "</Range>\n",
        ));
    }
}

/// Appends the block of one output channel at position `index`, taken from `source`, with the
/// Base64 text of its payload.
pub fn render_channel(
    out: &mut Vec<u8>,
    index: usize,
    channel: &OutputChannel,
    source: &SampleBufferChannel,
    payload_base64: &[u8],
)
    ensures
        final(out)@ == old(out)@ + channel_text(
            index as nat,
            encode_utf8(channel.name@),
            type_text(channel.type_),
            encode_utf8(channel.phase@),
            range_text(source@, channel.input_channel as nat),
            payload_base64@,
        ),
{
    let ghost e1 = element("\t<Channel_", decimal(index as nat), ">\n");
    let ghost e2 = element("\t\t<Name>", encode_utf8(channel.name@), "</Name>\n");
    let ghost e3 = element("\t\t<Type>", type_text(channel.type_), "</Type>\n");
    let ghost e4 = element("\t\t<Phase>", encode_utf8(channel.phase@), "</Phase>\n");
    let ghost e5 = element(
        "\t\t<Range>",
        range_text(source@, channel.input_channel as nat),
        "</Range>\n",
    );
    let ghost e6 = element("\t\t<Payload>", payload_base64@, "</Payload>\n");
    let ghost e7 = element("\t</Channel_", decimal(index as nat), ">\n");
    push_decimal_element(out, "\t<Channel_", index as u64, ">\n");
    push_text_element(out, "\t\t<Name>", channel.name.as_str(), "</Name>\n");
    push_type_element(out, channel.type_);
    push_text_element(out, "\t\t<Phase>", channel.phase.as_str(), "</Phase>\n");
    push_range_element(out, source, channel.input_channel);
    push_bytes_element(out, "\t\t<Payload>", payload_base64, "</Payload>\n");
    push_decimal_element(out, "\t</Channel_", index as u64, ">\n");
    proof {
        assert(channel_text(
            index as nat,
            encode_utf8(channel.name@),
            type_text(channel.type_),
            encode_utf8(channel.phase@),
            range_text(source@, channel.input_channel as nat),
            payload_base64@,
        ) == e1 + e2 + e3 + e4 + e5 + e6 + e7);
        assert(out@ =~= old(out)@ + (e1 + e2 + e3 + e4 + e5 + e6 + e7));
    }
}

/// The blocks of the output channels, in order.
pub open spec fn channel_blocks(b: BufferModel, channels: Seq<OutputChannel>) -> Seq<u8>
    decreases channels.len(),
{
    if channels.len() == 0 {
        Seq::empty()
    } else {
        channel_blocks(b, channels.drop_last()) + channel_block(
            b,
            (channels.len() - 1) as nat,
            channels.last(),
        )
    }
}

fn render_output_channel(out: &mut Vec<u8>, buffer: &SampleBuffer, index: usize, channel: &OutputChannel)
    requires
        buffer_wf(buffer@),
        buffer@.length <= usize::MAX / 4,
        channel.input_channel < 8,
    ensures
        final(out)@ == old(out)@ + channel_block(buffer@, index as nat, *channel),
{
    let source = buffer.channel(channel.input_channel);
    proof {
        assert(buffer@.channels[channel.input_channel as int] == source@);
        assert(channel_wf(source@));
        assert(source@.values.len() == buffer@.length);
    }
    let payload = channel_payload(source.values(), source.max());
    let payload_base64 = encode_base64(payload.as_slice());
    render_channel(out, index, channel, source, payload_base64.as_slice());
}

/// The OpenPMU document of window `b`, with its date and time `dt`: the header, one block per
/// output channel, and the closing tag.
pub open spec fn openpmu_document(
    b: BufferModel,
    channels: Seq<OutputChannel>,
    dt: (u32, u32, u32, u32, u32, u32, u32),
) -> Seq<u8> {
    header_text(dt, (b.start % b.rate) / b.length, b.rate, b.length, channels.len()) + channel_blocks(
        b,
        channels,
    ) + lit("</OpenPMU>\n")
}

fn render_document(
    buffer: &SampleBuffer,
    channels: &Vec<OutputChannel>,
    dt: (u32, u32, u32, u32, u32, u32, u32),
) -> (r: Vec<u8>)
    requires
        buffer_wf(buffer@),
        buffer@.length <= usize::MAX / 4,
        forall|k: int| 0 <= k < channels@.len() ==> (#[trigger] channels@[k]).input_channel < 8,
    ensures
        r@ == openpmu_document(buffer@, channels@, dt),
{
    let rate = buffer.sample_rate();
    let frame = buffer.start_time().subsec_samples(rate) / buffer.length();
    let mut out: Vec<u8> = Vec::new();
    push_header(&mut out, dt, frame, rate, buffer.length(), channels.len());
    let ghost head = out@;
    let mut k: usize = 0;
    while k < channels.len()
        invariant
            k <= channels@.len(),
            buffer_wf(buffer@),
            buffer@.length <= usize::MAX / 4,
            forall|j: int| 0 <= j < channels@.len() ==> (#[trigger] channels@[j]).input_channel < 8,
            out@ == head + channel_blocks(buffer@, channels@.take(k as int)),
        decreases channels@.len() - k,
    {
        let channel = &channels[k];
        let ghost before = out@;
        render_output_channel(&mut out, buffer, k, channel);
        proof {
            let taken = channels@.take(k + 1 as int);
            assert(taken.drop_last() =~= channels@.take(k as int));
            assert(taken.last() == *channel);
            assert(channel_blocks(buffer@, taken) == channel_blocks(buffer@, channels@.take(k as int))
                + channel_block(buffer@, k as nat, *channel));
            assert(out@ =~= head + channel_blocks(buffer@, taken));
        }
        k += 1;
    }
    push_text(&mut out, "</OpenPMU>\n");
    proof {
        assert(channels@.take(channels@.len() as int) =~= channels@);
        assert(out@ =~= openpmu_document(buffer@, channels@, dt));
    }
    out
}

/// Renders a window as an OpenPMU XML sample document, one channel block per entry of `channels`.
/// Returns `None` only where the window's date lies beyond the calendar range handled.
pub fn render_openpmu(buffer: &SampleBuffer, channels: &Vec<OutputChannel>) -> (r: Option<Vec<u8>>)
    requires
        buffer_wf(buffer@),
        buffer@.length <= usize::MAX / 4,
        forall|k: int| 0 <= k < channels@.len() ==> (#[trigger] channels@[k]).input_channel < 8,
    ensures
        r is None <==> !has_calendar_date(buffer@.start, buffer@.rate),
        r matches Some(doc) ==> exists|dt: (u32, u32, u32, u32, u32, u32, u32)|
            is_date_time_of(buffer@.start, buffer@.rate, dt) && doc@ == openpmu_document(
                buffer@,
                channels@,
                dt,
            ),
{
    let rate = buffer.sample_rate();
    let start = buffer.start_time();
    if !start.has_calendar_date(rate) {
        return None;
    }
    let dt = start.to_date_time(rate);
    let doc = render_document(buffer, channels, dt);
    Some(doc)
}

} // verus!

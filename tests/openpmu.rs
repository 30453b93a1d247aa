use mu_rust::config::{OutputChannel, OutputChannelType};
use mu_rust::openpmu::{channel_payload, push_scaled_decimal, render_channel, render_openpmu};
use mu_rust::sample_buffer::{SampleBuffer, SampleBufferChannel, SampleTime};
use mu_rust::Sample;

fn reading(current_a: i32, voltage_a: i32) -> Sample {
    Sample {
        current_a,
        current_b: 0,
        current_c: 0,
        current_n: 0,
        voltage_a,
        voltage_b: 0,
        voltage_c: 0,
        voltage_n: 0,
    }
}

fn output(name: &str, phase: &str, type_: OutputChannelType, input_channel: usize) -> OutputChannel {
    OutputChannel { name: name.to_string(), phase: phase.to_string(), type_, input_channel }
}

#[test]
fn renders_document() {
    // 2024-01-01 00:00:00 UTC plus 40 samples at 4000 Hz.
    let start = SampleTime::from_seconds_and_samples(1_704_067_200, 40, 4000);
    let mut buffer = SampleBuffer::new(4000, start, 2);
    buffer.insert_sample(40, reading(1500, 23000));
    buffer.insert_sample(41, reading(-750, 11500));
    let channels = vec![
        output("Belfast_Va", "a", OutputChannelType::Voltage, 4),
        output("Belfast_Ia", "a", OutputChannelType::Current, 0),
        output("Belfast_In", "n", OutputChannelType::Current, 3),
    ];
    let doc = String::from_utf8(render_openpmu(&buffer, &channels).unwrap()).unwrap();
    let expected = "<OpenPMU>\n\
        \t<Format>Samples</Format>\n\
        \t<Date>2024-01-01</Date>\n\
        \t<Time>00:00:00.010000</Time>\n\
        \t<Frame>20</Frame>\n\
        \t<Fs>4000</Fs>\n\
        \t<n>2</n>\n\
        \t<bits>16</bits>\n\
        \t<Channels>3</Channels>\n\
        \t<Channel_0>\n\
        \t\t<Name>Belfast_Va</Name>\n\
        \t\t<Type>V</Type>\n\
        \t\t<Phase>a</Phase>\n\
        \t\t<Range>230</Range>\n\
        \t\t<Payload>f/8//w==</Payload>\n\
        \t</Channel_0>\n\
        \t<Channel_1>\n\
        \t\t<Name>Belfast_Ia</Name>\n\
        \t\t<Type>I</Type>\n\
        \t\t<Phase>a</Phase>\n\
        \t\t<Range>1.5</Range>\n\
        \t\t<Payload>f//AAQ==</Payload>\n\
        \t</Channel_1>\n\
        \t<Channel_2>\n\
        \t\t<Name>Belfast_In</Name>\n\
        \t\t<Type>I</Type>\n\
        \t\t<Phase>n</Phase>\n\
        \t\t<Range>0</Range>\n\
        \t\t<Payload>AAAAAA==</Payload>\n\
        \t</Channel_2>\n\
        </OpenPMU>\n";
    assert_eq!(doc, expected);
}

#[test]
fn payload_scales_to_full_range() {
    let values = vec![1000, -1000, 500, -1, 0];
    let bytes = channel_payload(&values, 1000);
    let decoded: Vec<i16> = bytes.chunks(2).map(|c| i16::from_be_bytes([c[0], c[1]])).collect();
    assert_eq!(decoded, vec![32767, -32767, 16383, -32, 0]);
    assert_eq!(channel_payload(&vec![0, 0], 0), vec![0, 0, 0, 0]);
}

#[test]
fn range_text_drops_trailing_zeros() {
    let cases: [(u32, u32, &str); 7] = [
        (0, 3, "0"),
        (1500, 3, "1.5"),
        (1005, 3, "1.005"),
        (1050, 3, "1.05"),
        (7, 3, "0.007"),
        (23010, 2, "230.1"),
        (2147483648, 3, "2147483.648"),
    ];
    for (value, places, text) in cases {
        let mut out = Vec::new();
        push_scaled_decimal(&mut out, value, places);
        assert_eq!(String::from_utf8(out).unwrap(), text);
    }
}

#[test]
fn channel_block_carries_given_payload_text() {
    let mut source = SampleBufferChannel::new(1);
    source.insert_sample(0, -12345);
    let channel = output("X", "c", OutputChannelType::Voltage, 6);
    let mut out = Vec::new();
    render_channel(&mut out, 12, &channel, &source, b"QUJD");
    let text = String::from_utf8(out).unwrap();
    assert_eq!(
        text,
        "\t<Channel_12>\n\t\t<Name>X</Name>\n\t\t<Type>V</Type>\n\t\t<Phase>c</Phase>\n\
         \t\t<Range>123.45</Range>\n\t\t<Payload>QUJD</Payload>\n\t</Channel_12>\n"
    );
}

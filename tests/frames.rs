use mu_rust::ber::{read_identifier, read_integer_as_u16, DecodeError, Encoding, Identifier, Tag};
use mu_rust::bytes::BytesReader;
use mu_rust::parse;

fn sample_field(values: [i32; 8]) -> Vec<u8> {
    let mut out = vec![0x87, 0x40];
    for v in values {
        out.extend_from_slice(&v.to_be_bytes());
        out.extend_from_slice(&[0, 0, 0, 0]);
    }
    out
}

fn tlv(tag: u8, content: &[u8]) -> Vec<u8> {
    let n = content.len();
    let mut out = if n < 0x80 {
        vec![tag, n as u8]
    } else if n < 0x100 {
        vec![tag, 0x81, n as u8]
    } else {
        vec![tag, 0x82, (n >> 8) as u8, n as u8]
    };
    out.extend_from_slice(content);
    out
}

fn asdu_fields(smp_cnt: u16, values: [i32; 8]) -> Vec<u8> {
    let mut out = Vec::new();
    out.extend(tlv(0x80, b"MU01"));
    out.extend(tlv(0x82, &smp_cnt.to_be_bytes()));
    out.extend(tlv(0x83, &[0, 0, 0, 1]));
    out.extend(tlv(0x85, &[2]));
    out.extend(sample_field(values));
    out
}

fn frame(appid: u16, asdus: &[Vec<u8>]) -> Vec<u8> {
    let mut seq = Vec::new();
    for a in asdus {
        seq.extend(tlv(0x30, a));
    }
    let mut pdu = tlv(0x80, &[asdus.len() as u8]);
    pdu.extend(tlv(0xA2, &seq));
    let apdu = tlv(0x60, &pdu);
    let mut out = Vec::new();
    out.extend_from_slice(&appid.to_be_bytes());
    out.extend_from_slice(&((apdu.len() + 8) as u16).to_be_bytes());
    out.extend_from_slice(&[0, 0, 0, 0]);
    out.extend(apdu);
    out
}

#[test]
fn parse_single_asdu_frame() {
    let values = [1000, -2000, 3000, 0, 23000, -11500, 11500, 5];
    let bytes = frame(0x4000, &[asdu_fields(3999, values)]);
    let msg = parse(&bytes).unwrap();
    assert_eq!(msg.appid, 0x4000);
    assert_eq!(msg.asdus.len(), 1);
    let a = &msg.asdus[0];
    assert_eq!(a.svid, "MU01");
    assert_eq!(a.datset, None);
    assert_eq!(a.smp_cnt, 3999);
    assert_eq!(a.conf_rev, 1);
    assert_eq!(a.refr_tm, None);
    assert_eq!(a.smp_synch, 2);
    assert_eq!(a.smp_rate, None);
    assert_eq!(a.smp_mod, None);
    assert_eq!(a.sample.current_a, 1000);
    assert_eq!(a.sample.current_b, -2000);
    assert_eq!(a.sample.current_c, 3000);
    assert_eq!(a.sample.voltage_a, 23000);
    assert_eq!(a.sample.voltage_b, -11500);
    assert_eq!(a.sample.voltage_n, 5);
}

#[test]
fn parse_two_asdus_with_optional_fields() {
    let mut first = Vec::new();
    first.extend(tlv(0x80, b"A"));
    first.extend(tlv(0x81, b"DS"));
    first.extend(tlv(0x82, &[0, 7]));
    first.extend(tlv(0x83, &[0, 0, 1, 0]));
    first.extend(tlv(0x84, &[0, 0, 0, 0, 0, 0, 1, 2]));
    first.extend(tlv(0x85, &[1]));
    first.extend(tlv(0x86, &[0x0F, 0xA0]));
    first.extend(sample_field([i32::MIN, i32::MAX, 0, 0, 0, 0, 0, 0]));
    first.extend(tlv(0x88, &[0, 1]));
    let second = asdu_fields(8, [0; 8]);
    let msg = parse(&frame(1, &[first, second])).unwrap();
    assert_eq!(msg.asdus.len(), 2);
    let a = &msg.asdus[0];
    assert_eq!(a.datset.as_deref(), Some("DS"));
    assert_eq!(a.conf_rev, 256);
    assert_eq!(a.refr_tm, Some(0x0102));
    assert_eq!(a.smp_rate, Some(4000));
    assert_eq!(a.smp_mod, Some(1));
    assert_eq!(a.sample.current_a, i32::MIN);
    assert_eq!(a.sample.current_b, i32::MAX);
    assert_eq!(msg.asdus[1].smp_cnt, 8);
}

#[test]
fn parse_rejects_short_and_truncated_frames() {
    assert_eq!(parse(&[]).unwrap_err(), DecodeError::ReadError(mu_rust::bytes::BytesReaderError::EndOfBuffer));
    let mut bytes = frame(1, &[asdu_fields(0, [0; 8])]);
    bytes[3] = 7;
    assert_eq!(parse(&bytes).unwrap_err(), DecodeError::LengthOutOfRange);
    let bytes = frame(1, &[asdu_fields(0, [0; 8])]);
    assert!(parse(&bytes[..bytes.len() - 1]).is_err());
    for cut in 0..bytes.len() {
        assert!(parse(&bytes[..cut]).is_err());
    }
}

#[test]
fn parse_rejects_zero_asdu_count() {
    let mut bytes = frame(1, &[asdu_fields(0, [0; 8])]);
    // noASDU is the first field of the savPdu: 60 len 80 01 <count>
    assert_eq!(bytes[10], 0x80);
    bytes[12] = 0;
    assert_eq!(parse(&bytes).unwrap_err(), DecodeError::TagOutOfRange);
}

#[test]
fn parse_rejects_out_of_order_tags() {
    // [2] before [1]: the sample counter is followed by the data set name.
    let mut fields = Vec::new();
    fields.extend(tlv(0x80, b"MU01"));
    fields.extend(tlv(0x82, &[0, 1]));
    fields.extend(tlv(0x81, b"DS"));
    fields.extend(tlv(0x83, &[0, 0, 0, 1]));
    fields.extend(tlv(0x85, &[2]));
    fields.extend(sample_field([0; 8]));
    assert_eq!(parse(&frame(1, &[fields])).unwrap_err(), DecodeError::UnexpectedTag);
}

#[test]
fn parse_rejects_wrong_sample_size_and_invisible_svid() {
    let mut fields = asdu_fields(0, [0; 8]);
    let n = fields.len();
    fields.truncate(n - 8);
    let idx = fields.iter().position(|&b| b == 0x87).unwrap();
    fields[idx + 1] = 0x38;
    assert_eq!(parse(&frame(1, &[fields])).unwrap_err(), DecodeError::InvalidIntegerEncoding);

    let mut fields = asdu_fields(0, [0; 8]);
    fields[2] = 0x07;
    assert_eq!(parse(&frame(1, &[fields])).unwrap_err(), DecodeError::InvalidVisibleString);
}

#[test]
fn overlong_integers_are_invalid() {
    for bytes in [[0x02u8, 0x00, 0x7F], [0x02, 0xFF, 0x80], [0x02, 0x00, 0x00], [0x02, 0xFF, 0xFF]] {
        let mut reader = BytesReader::new(&bytes);
        assert_eq!(
            read_integer_as_u16(&mut reader, Encoding::Primitive),
            Err(DecodeError::InvalidIntegerEncoding)
        );
    }
    let mut reader = BytesReader::new(&[0x02, 0x00, 0x80]);
    assert_eq!(read_integer_as_u16(&mut reader, Encoding::Primitive), Ok(0x80));
    let mut reader = BytesReader::new(&[0x03, 0x00, 0xFF, 0xFF]);
    assert_eq!(read_integer_as_u16(&mut reader, Encoding::Primitive), Ok(0xFFFF));
    let mut reader = BytesReader::new(&[0x03, 0x01, 0x00, 0x00]);
    assert_eq!(read_integer_as_u16(&mut reader, Encoding::Primitive), Err(DecodeError::IntegerOutOfRange));
    let mut reader = BytesReader::new(&[0x01, 0x80]);
    assert_eq!(read_integer_as_u16(&mut reader, Encoding::Primitive), Err(DecodeError::IntegerOutOfRange));
}

#[test]
fn high_tag_number_identifiers() {
    // Seven bits per subsequent byte: 80 80 55 carries 0x55.
    let mut reader = BytesReader::new(&[0xBF, 0x80, 0x80, 0x55]);
    assert_eq!(
        read_identifier(&mut reader),
        Ok(Identifier { tag: Tag::ContextSpecific(0x55), encoding: Encoding::Constructed })
    );
    let mut reader = BytesReader::new(&[0x1F, 0x8A, 0x55]);
    assert_eq!(
        read_identifier(&mut reader),
        Ok(Identifier { tag: Tag::Universal(0x555), encoding: Encoding::Primitive })
    );
    let mut reader = BytesReader::new(&[0xBF, 0x82, 0x55]);
    assert_eq!(
        read_identifier(&mut reader),
        Ok(Identifier { tag: Tag::ContextSpecific(0x155), encoding: Encoding::Constructed })
    );
    // 32 bits is the limit.
    let mut reader = BytesReader::new(&[0x1F, 0x8F, 0xFF, 0xFF, 0xFF, 0x7F]);
    assert_eq!(read_identifier(&mut reader).unwrap().tag, Tag::Universal(u32::MAX));
    let mut reader = BytesReader::new(&[0x1F, 0x90, 0x80, 0x80, 0x80, 0x00]);
    assert_eq!(read_identifier(&mut reader), Err(DecodeError::TagOutOfRange));
}

#[test]
fn sample_counter_out_of_order_after_confrev() {
    // [5] is due after [3] and the optional [4]; [2] stands there instead.
    let mut fields = Vec::new();
    fields.extend(tlv(0x80, b"MU01"));
    fields.extend(tlv(0x82, &[0, 1]));
    fields.extend(tlv(0x83, &[0, 0, 0, 1]));
    fields.extend(tlv(0x82, &[0, 1]));
    assert_eq!(parse(&frame(1, &[fields])).unwrap_err(), DecodeError::UnexpectedTag);
}

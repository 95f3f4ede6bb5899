use mail_builder::encoders::base64::{base64_encode, base64_encode_mime};
use mail_builder::encoders::encode::{get_encoding_type, rfc2047_encode, EncodingType};
use mail_builder::encoders::quoted_printable::{
    inline_quoted_printable_encode, quoted_printable_encode, quoted_printable_encode_byte,
};
use mail_builder::encoders::{Base64Encoder, QuotedPrintableEncoder};

fn b64_value(c: u8) -> u8 {
    match c {
        b'A'..=b'Z' => c - b'A',
        b'a'..=b'z' => c - b'a' + 26,
        b'0'..=b'9' => c - b'0' + 52,
        b'+' => 62,
        b'/' => 63,
        _ => panic!("not a base64 symbol"),
    }
}

fn b64_decode(text: &[u8]) -> Vec<u8> {
    let clean: Vec<u8> = text.iter().copied().filter(|c| *c != b'\r' && *c != b'\n').collect();
    let mut out = Vec::new();
    for q in clean.chunks(4) {
        let v0 = b64_value(q[0]);
        let v1 = b64_value(q[1]);
        out.push((v0 << 2) | (v1 >> 4));
        if q[2] != b'=' {
            let v2 = b64_value(q[2]);
            out.push((v1 << 4) | (v2 >> 2));
            if q[3] != b'=' {
                let v3 = b64_value(q[3]);
                out.push((v2 << 6) | v3);
            }
        }
    }
    out
}

fn qp_decode(text: &[u8]) -> Vec<u8> {
    let mut out = Vec::new();
    let mut i = 0;
    while i < text.len() {
        if text[i] == b'=' {
            if text[i + 1] == b'\r' && text[i + 2] == b'\n' {
                i += 3;
            } else {
                let h = std::str::from_utf8(&text[i + 1..i + 3]).unwrap();
                out.push(u8::from_str_radix(h, 16).unwrap());
                i += 3;
            }
        } else {
            out.push(text[i]);
            i += 1;
        }
    }
    out
}

#[test]
fn encode_base64() {
    for (input, expected_result, is_inline) in [
        ("Test".to_string(), "VGVzdA==\r\n", false),
        ("Ye".to_string(), "WWU=\r\n", false),
        ("A".to_string(), "QQ==\r\n", false),
        ("ro".to_string(), "cm8=\r\n", false),
        (
            "Are you a Shimano or Campagnolo person?".to_string(),
            "QXJlIHlvdSBhIFNoaW1hbm8gb3IgQ2FtcGFnbm9sbyBwZXJzb24/\r\n",
            false,
        ),
        (
            "<!DOCTYPE html>\n<html>\n<body>\n</body>\n</html>\n".to_string(),
            "PCFET0NUWVBFIGh0bWw+CjxodG1sPgo8Ym9keT4KPC9ib2R5Pgo8L2h0bWw+Cg==\r\n",
            false,
        ),
        ("áéíóú".to_string(), "w6HDqcOtw7PDug==\r\n", false),
        (
            " ".repeat(100),
            "ICAgICAgICAgICAgICAgICAgICAgICAgICAgICAgICAgICAgICAgICAgICAgICAgICAgICAgICAg\r\nICAgICAgICAgICAgICAgICAgICAgICAgICAgICAgICAgICAgICAgICAgIA==\r\n",
            false,
        ),
    ] {
        let mut output = Vec::new();
        base64_encode_mime(input.as_bytes(), &mut output, is_inline);
        assert_eq!(std::str::from_utf8(&output).unwrap(), expected_result);
    }
}

#[test]
fn encode_quoted_printable() {
    for (input, expected_result_body, expected_result_attachment, expected_result_inline) in [
        ("hello world".to_string(), "hello world", "hello world", "hello_world"),
        ("hello_world".to_string(), "hello_world", "hello_world", "hello=5Fworld"),
        ("hello ? world ?".to_string(), "hello ? world ?", "hello ? world ?", "hello_=3F_world_=3F"),
        (
            "hello = world =".to_string(),
            "hello =3D world =3D",
            "hello =3D world =3D",
            "hello_=3D_world_=3D",
        ),
        ("hello\nworld\n".to_string(), "hello\r\nworld\r\n", "hello=0Aworld=0A", "hello=0Aworld=0A"),
        (
            "hello   \nworld   \r\n   ".to_string(),
            "hello  =20\r\nworld  =20\r\n  =20",
            "hello   =0Aworld   =0D=0A  =20",
            "hello___=0Aworld___=0D=0A___",
        ),
        (
            "hello   \nworld   \n".to_string(),
            "hello  =20\r\nworld  =20\r\n",
            "hello   =0Aworld   =0A",
            "hello___=0Aworld___=0A",
        ),
        (
            "áéíóú".to_string(),
            "=C3=A1=C3=A9=C3=AD=C3=B3=C3=BA",
            "=C3=A1=C3=A9=C3=AD=C3=B3=C3=BA",
            "=C3=A1=C3=A9=C3=AD=C3=B3=C3=BA",
        ),
        (
            "안녕하세요 세계".to_string(),
            "=EC=95=88=EB=85=95=ED=95=98=EC=84=B8=EC=9A=94 =EC=84=B8=EA=B3=84",
            "=EC=95=88=EB=85=95=ED=95=98=EC=84=B8=EC=9A=94 =EC=84=B8=EA=B3=84",
            "=EC=95=88=EB=85=95=ED=95=98=EC=84=B8=EC=9A=94_=EC=84=B8=EA=B3=84",
        ),
        (
            " ".repeat(100),
            "                                                                            =\r\n                       =20",
            "                                                                            =\r\n                       =20",
            "____________________________________________________________________________________________________",
        ),
    ] {
        let mut output = Vec::new();
        quoted_printable_encode(input.as_bytes(), &mut output, true);
        assert_eq!(std::str::from_utf8(&output).unwrap(), expected_result_body, "body");

        let mut output = Vec::new();
        quoted_printable_encode(input.as_bytes(), &mut output, false);
        assert_eq!(std::str::from_utf8(&output).unwrap(), expected_result_attachment, "attachment");

        let mut output = Vec::new();
        inline_quoted_printable_encode(input.as_bytes(), &mut output);
        assert_eq!(std::str::from_utf8(&output).unwrap(), expected_result_inline, "inline");
    }
}

#[test]
fn base64_non_inline_test_input() {
    let mut output = Vec::new();
    let n = base64_encode_mime(b"Test", &mut output, false);
    assert_eq!(output, b"VGVzdA==\r\n".to_vec());
    assert_eq!(n, 8);
}

#[test]
fn base64_inline_has_no_line_breaks() {
    let input = vec![b'x'; 200];
    let out = base64_encode(&input);
    assert!(!out.contains(&b'\r') && !out.contains(&b'\n'));
    assert_eq!(out.len(), 268);
}

#[test]
fn base64_empty_input_writes_nothing() {
    let mut output = Vec::new();
    assert_eq!(base64_encode_mime(b"", &mut output, false), 0);
    assert!(output.is_empty());
}

#[test]
fn base64_full_line_gets_one_break() {
    let input = vec![0u8; 57];
    let mut output = Vec::new();
    base64_encode_mime(&input, &mut output, false);
    assert_eq!(output.len(), 78);
    assert!(output.ends_with(b"A\r\n"));
}

#[test]
fn base64_round_trip() {
    for len in 0..300usize {
        let input: Vec<u8> = (0..len).map(|i| (i * 37 + 11) as u8).collect();
        let mut output = Vec::new();
        base64_encode_mime(&input, &mut output, false);
        assert_eq!(b64_decode(&output), input);
        assert_eq!(b64_decode(&base64_encode(&input)), input);
    }
}

#[test]
fn base64_lines_at_most_76() {
    let input: Vec<u8> = (0..1000usize).map(|i| (i % 251) as u8).collect();
    let mut output = Vec::new();
    base64_encode_mime(&input, &mut output, false);
    for line in output.split(|c| *c == b'\n') {
        let line = line.strip_suffix(b"\r").unwrap_or(line);
        assert!(line.len() <= 76);
    }
}

#[test]
fn quoted_printable_round_trip() {
    let input: Vec<u8> = (0..600usize).map(|i| (i * 7 % 256) as u8).collect();
    let mut output = Vec::new();
    quoted_printable_encode(&input, &mut output, false);
    assert_eq!(qp_decode(&output), input);

    let text = b"line one  \nline two\r\n= sign\n\ttab end \n".to_vec();
    let mut output = Vec::new();
    quoted_printable_encode(&text, &mut output, true);
    assert_eq!(qp_decode(&output), b"line one  \r\nline two\r\n= sign\r\n\ttab end \r\n".to_vec());
}

#[test]
fn quoted_printable_lines_fit() {
    let input: Vec<u8> = "é".repeat(200).into_bytes();
    for is_body in [true, false] {
        let mut output = Vec::new();
        quoted_printable_encode(&input, &mut output, is_body);
        for line in output.split(|c| *c == b'\n') {
            let line = line.strip_suffix(b"\r").unwrap_or(line);
            let visible = line.strip_suffix(b"=").unwrap_or(line);
            assert!(visible.len() <= 76);
        }
    }
}

#[test]
fn quoted_printable_byte_forms() {
    let mut output = Vec::new();
    assert_eq!(quoted_printable_encode_byte(b'=', &mut output), 3);
    assert_eq!(quoted_printable_encode_byte(b' ', &mut output), 1);
    assert_eq!(quoted_printable_encode_byte(b'a', &mut output), 1);
    assert_eq!(quoted_printable_encode_byte(0xff, &mut output), 3);
    assert_eq!(output, b"=3D_a=FF".to_vec());
}

#[test]
fn encoding_type_plain_text_needs_none() {
    assert_eq!(get_encoding_type(b"hello world", false, true), EncodingType::NoEncoding);
    assert_eq!(get_encoding_type(b"hello world", true, false), EncodingType::NoEncoding);
}

#[test]
fn encoding_type_non_ascii_is_encoded() {
    let input = "áéíóú".as_bytes();
    for (inline, body) in [(true, false), (false, true), (false, false)] {
        let first = get_encoding_type(input, inline, body);
        assert_ne!(first, EncodingType::NoEncoding);
        assert_eq!(get_encoding_type(input, inline, body), first);
    }
    assert_eq!(get_encoding_type(input, false, true), EncodingType::Base64);
}

#[test]
fn encoding_type_mostly_ascii_is_quoted_printable() {
    assert_eq!(
        get_encoding_type("Antoine de Saint-Exupéry".as_bytes(), true, false),
        EncodingType::QuotedPrintable(false)
    );
    assert_eq!(get_encoding_type(b"trailing space ", true, false), EncodingType::QuotedPrintable(true));
}

#[test]
fn encoding_type_long_line_needs_encoding() {
    let long = vec![b'a'; 998];
    assert_eq!(get_encoding_type(&long, false, true), EncodingType::QuotedPrintable(true));
    assert_eq!(get_encoding_type(&long, true, false), EncodingType::NoEncoding);
    let ok = vec![b'a'; 997];
    assert_eq!(get_encoding_type(&ok, false, true), EncodingType::NoEncoding);
}

#[test]
fn rfc2047_forms() {
    let mut out = Vec::new();
    assert_eq!(rfc2047_encode(b"plain", &mut out), 5);
    assert_eq!(out, b"plain".to_vec());
    let mut out = Vec::new();
    rfc2047_encode("my fílé.txt".as_bytes(), &mut out);
    assert_eq!(std::str::from_utf8(&out).unwrap(), "=?utf-8?B?bXkgZsOtbMOpLnR4dA==?=");
    let mut out = Vec::new();
    rfc2047_encode("Antoine de Saint-Exupéry".as_bytes(), &mut out);
    assert_eq!(std::str::from_utf8(&out).unwrap(), "=?utf-8?Q?Antoine_de_Saint-Exup=C3=A9ry?=");
    let mut out = Vec::new();
    rfc2047_encode("ハロー".as_bytes(), &mut out);
    assert_eq!(std::str::from_utf8(&out).unwrap(), "=?utf-8?B?44OP44Ot44O8?=");
}

#[test]
fn encoder_types() {
    let b = Base64Encoder::new();
    assert_eq!(b.encode(b"Test"), b"VGVzdA==".to_vec());
    let b = Base64Encoder::new().indent();
    assert_eq!(b.encode(b"Test"), b"VGVzdA==\r\n".to_vec());
    let q = QuotedPrintableEncoder::new();
    assert_eq!(q.encode(b"a\nb"), b"a=0Ab".to_vec());
    let q = QuotedPrintableEncoder::new().indent();
    assert_eq!(q.encode(b"a\nb"), b"a\r\nb".to_vec());
    let mut out = Vec::new();
    QuotedPrintableEncoder::default().encode_to_writer(b"=", &mut out);
    Base64Encoder::default().encode_to_writer(b"A", &mut out);
    assert_eq!(out, b"=3DQQ==".to_vec());
}

#[test]
fn encoding_type_line_ends_cost_one_byte() {
    let mut input = vec![0xe9u8, 0xe9];
    input.extend(std::iter::repeat(b'\n').take(13));
    assert_eq!(get_encoding_type(&input, false, false), EncodingType::QuotedPrintable(false));
}

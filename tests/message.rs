use mail_builder::headers::address::Address;
use mail_builder::headers::content_type::ContentType;
use mail_builder::headers::date::Date;
use mail_builder::headers::raw::Raw;
use mail_builder::headers::url::URL;
use mail_builder::headers::HeaderType;
use mail_builder::mime::{BodyPart, MimePart};
use mail_builder::MessageBuilder;

fn count(haystack: &str, needle: &str) -> usize {
    haystack.matches(needle).count()
}

#[test]
fn build_message() {
    let mut builder = MessageBuilder::new();
    builder.from(Address::new_address(Some("John Doe"), "john@doe.com"));
    builder.to(Address::List(vec![
        Address::new_address(Some("Antoine de Saint-Exupéry"), "antoine@exupery.com"),
        Address::new_address(Some("안녕하세요 세계"), "test@test.com"),
        Address::new_address(Some("Xin chào"), "addr@addr.com"),
    ]));
    builder.bcc(Address::List(vec![
        Address::new_group(
            Some("Привет, мир"),
            vec![
                Address::new_address(Some("My ascii name"), "addr1@addr7.com"),
                Address::new_address(Some("ハロー・ワールド"), "addr2@addr6.com"),
                Address::new_address(Some("áéíóú"), "addr3@addr5.com"),
                Address::new_address(Some("Γειά σου Κόσμε"), "addr4@addr4.com"),
            ],
        ),
        Address::new_group(
            Some("Hello world"),
            vec![
                Address::new_address(Some("שלום עולם"), "addr5@addr3.com"),
                Address::new_address(Some("¡El ñandú comió ñoquis!"), "addr6@addr2.com"),
                Address::new_address(None, "addr7@addr1.com"),
            ],
        ),
    ]));
    builder.header("List-Archive", HeaderType::URL(URL::new("http://example.com/archive")));

    let text_body = "Hello, world!\n".repeat(20);
    let html_body = "<p>¡Hola Mundo!</p>".repeat(20);
    let attachments = vec!["안녕하세요 세계".repeat(20), "ハロー・ワールド".repeat(20)];

    builder.text_body(&text_body);
    builder.html_body(&html_body);
    builder.inline_binary("image/png", "cid:image", &[0, 1, 2, 3, 4, 5]);
    builder.attachment("text/plain", "my fílé.txt", attachments[0].as_bytes());
    builder.attachment("text/plain", "ハロー・ワールド", attachments[1].as_bytes());

    let mut output = Vec::new();
    builder.write_to(&mut output, "test");
    let text = String::from_utf8(output).unwrap();
    assert!(text.contains("Content-Type: multipart/mixed; boundary=test_0\r\n"));
    assert!(text.contains("Content-Type: multipart/alternative; boundary=test_1\r\n"));
    assert!(text.contains("\r\n--test_0--\r\n"));
    assert!(text.contains("\r\n--test_1--\r\n"));
    assert!(text.contains("Message-ID: <test>\r\n"));
    assert!(text.contains("\r\nDate: "));
}

#[test]
fn simple_message_scenario() {
    let mut builder = MessageBuilder::new();
    builder.from(Address::new_address(Some("John Doe"), "john@doe.com"));
    builder.to(Address::new_address(None, "jane@doe.com"));
    builder.subject("Hello, world!");
    builder.text_body("Message contents go here.");
    builder.attachment("image/png", "image.png", &[1, 2, 3, 4]);
    let mut output = Vec::new();
    builder.write_message(&mut output, "b1", "Thu, 1 Jan 1970 00:00:00 +0000");
    let text = String::from_utf8(output).unwrap();
    assert!(text.starts_with(
        "From: John Doe <john@doe.com>\r\nTo: <jane@doe.com>\r\nSubject: Hello, world!\r\nMessage-ID: <b1>\r\nDate: Thu, 1 Jan 1970 00:00:00 +0000\r\n"
    ));
    assert!(text.contains("Content-Type: multipart/mixed; boundary=b1_0\r\n\r\n"));
    assert!(text.contains("\r\n--b1_0\r\nContent-Type: text/plain; charset=utf-8\r\nContent-Transfer-Encoding: 7bit\r\n\r\nMessage contents go here."));
    assert!(text.contains("\r\n--b1_0\r\nContent-Type: image/png\r\nContent-Disposition: attachment; filename=image.png\r\nContent-Transfer-Encoding: base64\r\n\r\nAQIDBA==\r\n"));
    assert!(text.ends_with("\r\n--b1_0--\r\n"));
}

#[test]
fn message_keeps_given_date_and_id() {
    let mut builder = MessageBuilder::new();
    builder.date(Date::new(0));
    builder.message_id(mail_builder::headers::message_id::MessageId::new("given@id"));
    builder.text_body("x");
    let mut output = Vec::new();
    builder.write_message(&mut output, "t", "never used");
    let text = String::from_utf8(output).unwrap();
    assert_eq!(count(&text, "Date: "), 1);
    assert_eq!(count(&text, "Message-ID: "), 1);
    assert!(text.contains("Message-ID: <given@id>\r\n"));
    assert!(!text.contains("never used"));
}

#[test]
fn same_header_name_collects_values() {
    let mut builder = MessageBuilder::new();
    builder.header("List-Archive", HeaderType::URL(URL::new("http://a")));
    builder.header("X-Other", HeaderType::Raw(Raw::new("1")));
    builder.header("List-Archive", HeaderType::URL(URL::new("http://b")));
    assert_eq!(builder.headers.len(), 2);
    assert_eq!(builder.headers[0].1.len(), 2);
    let mut output = Vec::new();
    builder.write_message(&mut output, "t", "d");
    let text = String::from_utf8(output).unwrap();
    assert!(text.starts_with("List-Archive: <http://a>\r\nList-Archive: <http://b>\r\nX-Other: 1\r\n"));
}

#[test]
fn empty_message_has_a_line_of_text() {
    let builder = MessageBuilder::new();
    let mut output = Vec::new();
    builder.write_message(&mut output, "t", "d");
    let text = String::from_utf8(output).unwrap();
    assert!(text.ends_with("Content-Type: text/plain; charset=utf-8\r\nContent-Transfer-Encoding: 7bit\r\n\r\n\r\n"));
}

fn nested_tree() -> MimePart {
    MimePart::new_multipart(
        "multipart/mixed",
        vec![
            MimePart::new_text("Part-A").inline(),
            MimePart::new_multipart(
                "multipart/mixed",
                vec![
                    MimePart::new_multipart(
                        "multipart/alternative",
                        vec![MimePart::new_text("Part-B"), MimePart::new_html("Part-C")],
                    ),
                    MimePart::new_binary("image/jpeg", b"G").attachment("image_G.jpg"),
                ],
            ),
            MimePart::new_text("Part-K"),
        ],
    )
}

#[test]
fn nested_boundaries_are_distinct_and_balanced() {
    let mut output = Vec::new();
    let made = nested_tree().write_part(&mut output, "nb");
    assert_eq!(made, 3);
    let text = String::from_utf8(output).unwrap();
    for b in ["nb_0", "nb_1", "nb_2"] {
        assert_eq!(count(&text, &format!("boundary={}\r\n", b)), 1);
        assert_eq!(count(&text, &format!("\r\n--{}--\r\n", b)), 1);
    }
    assert_eq!(count(&text, "\r\n--nb_0\r\n"), 3);
    assert_eq!(count(&text, "\r\n--nb_1\r\n"), 2);
    assert_eq!(count(&text, "\r\n--nb_2\r\n"), 2);
    let pos = |s: &str| text.find(s).unwrap();
    assert!(pos("\r\nPart-A") < pos("\r\nPart-B") && pos("\r\nPart-B") < pos("\r\nPart-C"));
    assert!(pos("\r\nPart-C") < pos("--nb_2--") && pos("--nb_2--") < pos("image_G.jpg"));
    assert!(pos("--nb_1--") < pos("\r\nPart-K") && pos("\r\nPart-K") < pos("--nb_0--"));
}

#[test]
fn multipart_gets_exactly_one_content_type() {
    let bare = MimePart { headers: Vec::new(), contents: BodyPart::Multipart(vec![MimePart::new_text("x")]) };
    let mut output = Vec::new();
    bare.write_part(&mut output, "z");
    let text = String::from_utf8(output).unwrap();
    assert!(text.starts_with("Content-Type: multipart/mixed; boundary=z_0\r\n\r\n"));
    assert_eq!(count(&text, "Content-Type: multipart"), 1);

    let given = MimePart::new(
        ContentType::new("multipart/related").attribute("BOUNDARY", "given"),
        BodyPart::Multipart(vec![MimePart::new_text("x")]),
    );
    let mut output = Vec::new();
    assert_eq!(given.write_part(&mut output, "z"), 0);
    let text = String::from_utf8(output).unwrap();
    assert!(text.starts_with("Content-Type: multipart/related; BOUNDARY=given\r\n\r\n\r\n--given\r\n"));
    assert_eq!(count(&text, "Content-Type: multipart"), 1);
}

#[test]
fn raw_multipart_content_type() {
    let with = MimePart::new_multipart("x", vec![MimePart::new_text("x")]);
    let mut with = with;
    with.headers.clear();
    let with = with.header("content-type", HeaderType::Raw(Raw::new("multipart/mixed; boundary=\"abc\"")));
    let mut output = Vec::new();
    with.write_part(&mut output, "z");
    let text = String::from_utf8(output).unwrap();
    assert!(text.starts_with("content-type: multipart/mixed; boundary=\"abc\"\r\n\r\n\r\n--abc\r\n"));
    assert!(text.ends_with("\r\n--abc--\r\n"));

    let mut without = MimePart::new_multipart("x", vec![]);
    without.headers.clear();
    let without = without.header("Content-Type", HeaderType::Raw(Raw::new("multipart/mixed")));
    let mut output = Vec::new();
    without.write_part(&mut output, "z");
    let text = String::from_utf8(output).unwrap();
    assert_eq!(text, "Content-Type: multipart/mixed; boundary=\"z_0\"\r\n\r\n\r\n--z_0--\r\n");
}

#[test]
fn text_attachment_uses_attachment_mode() {
    let part = MimePart::new_binary("text/plain", b"a\nb=").attachment("f.txt");
    let mut output = Vec::new();
    part.write_part(&mut output, "z");
    let text = String::from_utf8(output).unwrap();
    assert!(text.ends_with("Content-Transfer-Encoding: 7bit\r\n\r\na\nb="));

    let body = MimePart::new_text("a\nb");
    let mut output = Vec::new();
    body.write_part(&mut output, "z");
    assert!(String::from_utf8(output).unwrap().ends_with("7bit\r\n\r\na\r\nb"));
}

#[test]
fn add_part_and_headers() {
    let mut part = MimePart::new_multipart("multipart/mixed", vec![]);
    part.add_part(MimePart::new_text("one").language("en").location("here").cid("id@x"));
    match &part.contents {
        BodyPart::Multipart(v) => {
            assert_eq!(v.len(), 1);
            assert_eq!(v[0].headers.len(), 4);
            assert_eq!(v[0].headers[1].0, "Content-Language");
            assert_eq!(v[0].headers[2].0, "Content-Location");
            assert_eq!(v[0].headers[3].0, "Content-ID");
        }
        _ => panic!("not multipart"),
    }
    let mut output = Vec::new();
    part.write_part(&mut output, "q");
    let text = String::from_utf8(output).unwrap();
    assert!(text.contains("Content-Language: en\r\nContent-Location: here\r\nContent-ID: <id@x>\r\n"));
}

#[test]
fn leaves_without_content_type_get_one() {
    let bin = MimePart { headers: Vec::new(), contents: BodyPart::Binary(vec![1, 2, 3]) };
    let mut output = Vec::new();
    bin.write_part(&mut output, "z");
    let text = String::from_utf8(output).unwrap();
    assert!(text.starts_with("Content-Type: application/octet-stream\r\nContent-Transfer-Encoding: base64\r\n\r\nAQID\r\n"));

    let txt = MimePart { headers: Vec::new(), contents: BodyPart::Text("hi".to_string()) };
    let mut output = Vec::new();
    txt.write_part(&mut output, "z");
    let text = String::from_utf8(output).unwrap();
    assert_eq!(text, "Content-Type: text/plain; charset=utf-8\r\nContent-Transfer-Encoding: 7bit\r\n\r\nhi");
    assert_eq!(count(&text, "Content-Type"), 1);
}

#[test]
fn empty_date_entry_still_gets_a_date() {
    let mut builder = MessageBuilder::new();
    builder.headers.push(("Date".to_string(), Vec::new()));
    builder.headers.push(("Message-ID".to_string(), Vec::new()));
    builder.text_body("x");
    let mut output = Vec::new();
    builder.write_message(&mut output, "t", "Thu, 1 Jan 1970 00:00:00 +0000");
    let text = String::from_utf8(output).unwrap();
    assert!(text.starts_with("Message-ID: <t>\r\nDate: Thu, 1 Jan 1970 00:00:00 +0000\r\n"));
}

#[test]
fn long_raw_multipart_type_is_folded() {
    let mut part = MimePart::new_multipart("x", vec![]);
    part.headers.clear();
    let value = format!("multipart/mixed; {}", "a=b ".repeat(20).trim_end());
    let part = part.header("Content-Type", HeaderType::Raw(Raw::new(&value)));
    let mut output = Vec::new();
    part.write_part(&mut output, "z");
    let text = String::from_utf8(output).unwrap();
    assert!(text.contains("\r\n\t"));
    assert!(text.contains("boundary=\"z_0\"\r\n\r\n"));
}

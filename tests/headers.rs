use mail_builder::headers::address::Address;
use mail_builder::headers::content_type::ContentType;
use mail_builder::headers::date::Date;
use mail_builder::headers::message_id::MessageId;
use mail_builder::headers::raw::Raw;
use mail_builder::headers::text::Text;
use mail_builder::headers::url::URL;
use mail_builder::headers::{Header, HeaderType};

fn written(h: &impl Header, col: usize) -> String {
    let mut out = Vec::new();
    h.write_header(&mut out, col);
    String::from_utf8(out).unwrap()
}

#[test]
fn test_utf8_encoding_boundaries() {
    let mut input = String::new();
    for _ in 0..20000 {
        input += "x";
    }
    for _ in 0..600 {
        input += "δ";
    }
    input += "x";
    for _ in 0..600 {
        input += "δ";
    }

    let header = Text::new(&input);
    let output = written(&header, 0);

    assert!(output.starts_with("=?utf-8?Q?xxx"));
    assert!(!output.contains("CE?="));
    assert!(!output.contains("=?utf-8?Q?=B4"));
}

#[test]
fn text_b_words_keep_characters_whole() {
    let input = "δ".repeat(100);
    let output = written(&Text::new(&input), 9);
    assert!(output.starts_with("=?utf-8?B?"));
    for word in output.split("\r\n").filter(|w| !w.is_empty()) {
        let word = word.trim_start_matches('\t');
        let b64 = word.strip_prefix("=?utf-8?B?").unwrap().strip_suffix("?=").unwrap();
        assert_eq!(b64.len() % 4, 0);
        assert!(!b64.ends_with("zg=="));
    }
}

#[test]
fn text_plain_folds_at_blanks() {
    let words = "word ".repeat(30);
    let output = written(&Text::new(words.trim_end()), 9);
    assert!(output.contains("\r\n\t"));
    assert!(output.ends_with("word\r\n"));
    assert!(!output.contains("wo\r\n"));
}

#[test]
fn raw_is_not_encoded() {
    assert_eq!(written(&Raw::new("héllo"), 10), "héllo\r\n");
}

#[test]
fn message_ids_are_bracketed() {
    let ids = MessageId::new_list(&["a@b", "c@d"]);
    assert_eq!(written(&ids, 12), "<a@b><c@d>\r\n");
    assert_eq!(written(&MessageId::new("x@y"), 12), "<x@y>\r\n");
}

#[test]
fn urls_are_joined() {
    let urls = URL::new_list(&["http://a", "http://b"]);
    assert_eq!(written(&urls, 14), "<http://a>, <http://b>\r\n");
    assert_eq!(written(&URL::new("http://example.com/archive"), 14), "<http://example.com/archive>\r\n");
}

#[test]
fn content_type_with_attributes() {
    let ct = ContentType::new("text/plain").attribute("charset", "utf-8");
    assert_eq!(written(&ct, 14), "text/plain; charset=utf-8\r\n");
    let att = ContentType::new("attachment").attribute("filename", "image.png");
    assert_eq!(written(&att, 21), "attachment; filename=image.png\r\n");
    assert!(att.is_attachment());
    assert!(ct.is_text());
    assert!(!att.is_text());
}

#[test]
fn date_is_rfc2822() {
    assert_eq!(written(&Date::new(0), 6), "Thu, 1 Jan 1970 00:00:00 +0000\r\n");
    assert_eq!(written(&Date::new(1_000_000_000), 6), "Sun, 9 Sep 2001 01:46:40 +0000\r\n");
    assert_eq!(written(&Date::new(i64::MAX), 6), "\r\n");
}

#[test]
fn addresses_are_written() {
    let a = Address::new_address(Some("John Doe"), "john@doe.com");
    assert_eq!(written(&a, 6), "John Doe <john@doe.com>\r\n");
    let a = Address::new_address(None, "jane@doe.com");
    assert_eq!(written(&a, 4), "<jane@doe.com>\r\n");
    let list = Address::new_list(vec![
        Address::new_address(None, "a@b.c"),
        Address::new_address(Some("Zoë"), "z@b.c"),
    ]);
    assert_eq!(written(&list, 4), "<a@b.c>, =?utf-8?B?Wm/Dqw==?= <z@b.c>\r\n");
    let group = Address::new_group(
        Some("Team"),
        vec![Address::new_address(None, "a@b.c"), Address::new_address(None, "d@e.f")],
    );
    assert_eq!(written(&group, 4), "Team: <a@b.c>, <d@e.f>\r\n");
    assert_eq!(group_member_email(&Address::new_address(None, "q@r.s")), "q@r.s");
}

fn group_member_email(a: &Address) -> String {
    a.unwrap_address().email.clone()
}

#[test]
fn long_address_list_folds_between_items() {
    let items: Vec<Address> = (0..10)
        .map(|i| Address::new_address(None, if i % 2 == 0 { "someone@example.com" } else { "other@example.org" }))
        .collect();
    let out = written(&Address::new_list(items), 4);
    for line in out.split("\r\n") {
        assert!(line.len() <= 76);
    }
    assert!(out.contains(",\r\n\t<") || out.contains(", \r\n\t<"));
}

#[test]
fn header_type_dispatches() {
    let h = HeaderType::Text(Text::new("Hello, world!"));
    assert_eq!(written(&h, 9), "Hello, world!\r\n");
    assert!(h.as_content_type().is_none());
    let c = HeaderType::ContentType(ContentType::new("inline"));
    assert_eq!(c.as_content_type().unwrap().c_type, "inline");
}

#[test]
fn header_values_convert_into_header_type() {
    let h: HeaderType = URL::new("http://x").into();
    assert!(matches!(h, HeaderType::URL(_)));
    let h: HeaderType = Text::new("t").into();
    assert!(matches!(h, HeaderType::Text(_)));
    let h: HeaderType = ContentType::new("text/plain").into();
    assert!(h.as_content_type().unwrap().is_text());
    let h: HeaderType = Date::new(0).into();
    assert!(matches!(h, HeaderType::Date(_)));
}

#[test]
fn long_display_name_is_not_folded_inside_a_mailbox() {
    let name = "n".repeat(70);
    let list = Address::new_list(vec![Address::new_address(Some(&name), "x@y")]);
    let out = written(&list, 4);
    assert!(out.contains(&format!("{} <x@y>\r\n", name)));
    assert!(!out.contains("\r\n\t<"));
}

#[test]
fn nested_lists_are_flattened_in_order() {
    let list = Address::new_list(vec![
        Address::new_address(None, "a@a"),
        Address::new_list(vec![
            Address::new_address(None, "b@b"),
            Address::new_list(vec![Address::new_address(None, "c@c")]),
        ]),
        Address::new_address(None, "d@d"),
    ]);
    match &list {
        Address::List(items) => {
            assert_eq!(items.len(), 4);
            assert!(items.iter().all(|i| !matches!(i, Address::List(_))));
        }
        _ => panic!("not a list"),
    }
    assert_eq!(written(&list, 4), "<a@a>, <b@b>, <c@c>, <d@d>\r\n");
}

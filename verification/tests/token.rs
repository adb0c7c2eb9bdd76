use minidom::token::{Attribute, LocalName, Token};

fn attr(name: &str, value: &str) -> Attribute {
    Attribute {
        name: name.into(),
        value: value.to_owned(),
    }
}

#[test]
fn test_text() {
    // consumes "foobar", leaving "</x"
    assert_eq!(
        Ok(Some((6, Token::Text("foobar".to_string())))),
        Token::parse(b"foobar</x")
    );
}

#[test]
fn test_text_entities() {
    // consumes everything up to "</x"
    assert_eq!(
        Ok(Some((31, Token::Text("\"<foo&bar>'".to_string())))),
        Token::parse(b"&quot;&lt;foo&amp;bar&gt;&apos;</x")
    );
}

#[test]
fn test_text_entities_decimal() {
    assert_eq!(
        Ok(Some((13, Token::Text("foo\r\n".to_string())))),
        Token::parse(b"foo&#13;&#10;</x")
    );
}

#[test]
fn test_text_entities_hexadecimal() {
    assert_eq!(
        Ok(Some((14, Token::Text("foo\r\n".to_string())))),
        Token::parse(b"foo&#xD;&#x0A;</x")
    );
}

#[test]
fn test_cdata() {
    let input = b"<![CDATA[<a href='>]]>";
    assert_eq!(
        Ok(Some((input.len(), Token::Text("<a href='>".to_string())))),
        Token::parse(input)
    );
}

#[test]
fn test_tag() {
    let input = b"<foobar>";
    assert_eq!(
        Ok(Some((
            input.len(),
            Token::StartTag {
                name: "foobar".into(),
                attrs: vec![],
                self_closing: false,
            }
        ))),
        Token::parse(input)
    );
}

#[test]
fn test_attrs() {
    let input = b"<a a=\"2'3\" b = '4\"2' c = ''>";
    assert_eq!(
        Ok(Some((
            input.len(),
            Token::StartTag {
                name: "a".into(),
                attrs: vec![attr("a", "2'3"), attr("b", "4\"2"), attr("c", ""),],
                self_closing: false,
            }
        ))),
        Token::parse(input)
    );
}

#[test]
fn test_attrs_entities() {
    let input = b"<a a='&lt;&#51;'>";
    assert_eq!(
        Ok(Some((
            input.len(),
            Token::StartTag {
                name: "a".into(),
                attrs: vec![attr("a", "<3"),],
                self_closing: false,
            }
        ))),
        Token::parse(input)
    );
}

#[test]
fn test_self_closing_tag() {
    let input = b"<foobar/>";
    assert_eq!(
        Ok(Some((
            input.len(),
            Token::StartTag {
                name: "foobar".into(),
                attrs: vec![],
                self_closing: true,
            }
        ))),
        Token::parse(input)
    );
}

#[test]
fn test_end_tag() {
    let input = b"</foobar>";
    assert_eq!(
        Ok(Some((
            input.len(),
            Token::EndTag {
                name: "foobar".into(),
            }
        ))),
        Token::parse(input)
    );
}

#[test]
fn test_element_prefix() {
    let input = b"<x:z/>";
    assert_eq!(
        Ok(Some((
            input.len(),
            Token::StartTag {
                name: LocalName {
                    name: "z".to_owned(),
                    prefix: Some("x".to_owned()),
                },
                attrs: vec![],
                self_closing: true,
            }
        ))),
        Token::parse(input)
    );
}

#[test]
fn test_attr_prefix() {
    let input = b"<a xyz:abc=''>";
    assert_eq!(
        Ok(Some((
            input.len(),
            Token::StartTag {
                name: "a".into(),
                attrs: vec![Attribute {
                    name: LocalName {
                        name: "abc".to_owned(),
                        prefix: Some("xyz".to_owned()),
                    },
                    value: "".to_owned(),
                }],
                self_closing: false,
            }
        ))),
        Token::parse(input)
    );
}

#[test]
fn entity_round_trip() {
    // the five predefined entities and one decimal and one hex reference
    assert_eq!(
        Ok(Some((36, Token::Text("&<>\"'AB".to_string())))),
        Token::parse(b"&amp;&lt;&gt;&quot;&apos;&#65;&#x42;</x")
    );
}

#[test]
fn cdata_keeps_entities_verbatim() {
    let input = b"<![CDATA[&amp;&#65;]]>";
    assert_eq!(
        Ok(Some((input.len(), Token::Text("&amp;&#65;".to_string())))),
        Token::parse(input)
    );
}

#[test]
fn unknown_entity_is_an_error() {
    assert!(Token::parse(b"foo&nope;</x").is_err());
}

#[test]
fn decimal_reference_overflow_is_an_error() {
    assert!(Token::parse(b"&#99999999999;</x").is_err());
}

#[test]
fn invalid_scalar_reference_is_empty() {
    // 0xD800 is a surrogate, not a scalar: the reference decodes to nothing
    assert_eq!(
        Ok(Some((10, Token::Text("ab".to_string())))),
        Token::parse(b"a&#55296;b<")
    );
    assert_eq!(
        Ok(Some((10, Token::Text("ab".to_string())))),
        Token::parse(b"a&#xD800;b<")
    );
}

#[test]
fn incomplete_input_asks_for_more() {
    assert_eq!(Ok(None), Token::parse(b""));
    assert_eq!(Ok(None), Token::parse(b"<"));
    assert_eq!(Ok(None), Token::parse(b"<foo"));
    assert_eq!(Ok(None), Token::parse(b"<foo bar='ba"));
    assert_eq!(Ok(None), Token::parse(b"<![CDATA[stuff"));
    assert_eq!(Ok(None), Token::parse(b"text without terminator"));
    assert_eq!(Ok(None), Token::parse(b"&amp"));
}

#[test]
fn malformed_tag_is_an_error() {
    assert!(Token::parse(b"<>").is_err());
    assert!(Token::parse(b"<a b>").is_err());
    assert!(Token::parse(b"</a x>").is_err());
}

#[test]
fn local_name_splits_at_first_colon() {
    let n: LocalName = "a:b:c".into();
    assert_eq!(n.prefix, Some("a".to_owned()));
    assert_eq!(n.name, "b:c".to_owned());
    let plain: LocalName = "abc".into();
    assert_eq!(plain.prefix, None);
    assert_eq!(plain.name, "abc".to_owned());
}

use minidom::token::{Attribute, Token};
use minidom::tokenizer::Tokenizer;

#[test]
fn test() {
    fn run(chunk_size: usize, buf: &[u8]) -> Vec<Token> {
        let mut tokenizer = Tokenizer::new();
        let mut tokens = vec![];

        let mut pos = 0;
        while pos < buf.len() {
            tokenizer.push(&buf[pos..(pos + chunk_size).min(buf.len())]);
            pos += chunk_size;

            while let Some(token) = tokenizer.pull().unwrap() {
                tokens.push(token)
            }
        }

        tokens
    }

    let buf = b"<foo bar='baz'>quux</foo>";
    for chunk_size in 1..=buf.len() {
        assert_eq!(
            vec![
                Token::StartTag {
                    name: "foo".into(),
                    attrs: vec![Attribute {
                        name: "bar".into(),
                        value: "baz".to_owned(),
                    }],
                    self_closing: false,
                },
                Token::Text("quux".to_owned()),
                Token::EndTag {
                    name: "foo".into(),
                },
            ],
            run(chunk_size, buf)
        );
    }
}

#[test]
fn buffer_preserved_on_incomplete() {
    let mut t = Tokenizer::new();
    t.push(b"<fo");
    assert_eq!(t.pull().unwrap(), None);
    assert!(!t.is_empty());
    t.push(b"o>");
    assert_eq!(
        t.pull().unwrap(),
        Some(Token::StartTag {
            name: "foo".into(),
            attrs: vec![],
            self_closing: false,
        })
    );
    assert!(t.is_empty());
}

#[test]
fn trailing_bytes_stay_in_buffer() {
    let mut t = Tokenizer::new();
    t.push(b"&quot;&lt;foo&amp;bar&gt;&apos;</x");
    assert_eq!(
        t.pull().unwrap(),
        Some(Token::Text("\"<foo&bar>'".to_owned()))
    );
    // "</x" is an incomplete end tag and stays buffered
    assert_eq!(t.pull().unwrap(), None);
    assert!(!t.is_empty());
    t.push(b">");
    assert_eq!(
        t.pull().unwrap(),
        Some(Token::EndTag { name: "x".into() })
    );
    assert!(t.is_empty());
}

#[test]
fn pull_fails_on_malformed_bytes() {
    let mut t = Tokenizer::new();
    t.push(b"foo&nope;</x");
    assert!(t.pull().is_err());
}

#[test]
fn cdata_consumed_fully() {
    let mut t = Tokenizer::new();
    t.push(b"<![CDATA[<a href='>]]>");
    assert_eq!(t.pull().unwrap(), Some(Token::Text("<a href='>".to_owned())));
    assert!(t.is_empty());
    assert_eq!(t.pull().unwrap(), None);
}

#[test]
fn chunked_entities_and_cdata() {
    fn run(chunk_size: usize, buf: &[u8]) -> Vec<Token> {
        let mut tokenizer = Tokenizer::new();
        let mut tokens = vec![];
        let mut pos = 0;
        while pos < buf.len() {
            tokenizer.push(&buf[pos..(pos + chunk_size).min(buf.len())]);
            pos += chunk_size;
            while let Some(token) = tokenizer.pull().unwrap() {
                tokens.push(token)
            }
        }
        tokens
    }

    let buf = b"<m a='&lt;1&gt;'><![CDATA[x&y]]>done</m>";
    let expected = vec![
        Token::StartTag {
            name: "m".into(),
            attrs: vec![Attribute {
                name: "a".into(),
                value: "<1>".to_owned(),
            }],
            self_closing: false,
        },
        Token::Text("x&y".to_owned()),
        Token::Text("done".to_owned()),
        Token::EndTag { name: "m".into() },
    ];
    for chunk_size in 1..=buf.len() {
        assert_eq!(expected, run(chunk_size, buf));
    }
}

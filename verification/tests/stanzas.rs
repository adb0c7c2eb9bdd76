use minidom::attention::{parse_attention, Attention};
use minidom::bind::{classify_bind_response, get_bind_response_jid, BindResponse, ClientBind};
use minidom::element::Element;
use minidom::error::Error;
use minidom::iq::{Iq, IqType};
use minidom::tokenizer::Tokenizer;
use minidom::tree_builder::TreeBuilder;

fn parse_element(input: &str) -> Element {
    let mut tokenizer = Tokenizer::new();
    let mut builder = TreeBuilder::new();
    tokenizer.push(input.as_bytes());
    while let Some(token) = tokenizer.pull().unwrap() {
        builder.process_event(token).unwrap();
    }
    builder.take_root().unwrap()
}

#[test]
fn test_simple() {
    let elem = parse_element("<attention xmlns='urn:xmpp:attention:0'/>");
    parse_attention(&elem).unwrap();
}

#[test]
fn test_invalid_child() {
    let elem = parse_element("<attention xmlns='urn:xmpp:attention:0'><coucou/></attention>");
    let error = parse_attention(&elem).unwrap_err();
    let message = match error {
        Error::ParseError(string) => string,
        _ => panic!(),
    };
    assert_eq!(message, "Unknown child in attention element.");
}

#[test]
fn attention_wrong_element() {
    let elem = parse_element("<x xmlns='urn:xmpp:attention:0'/>");
    let error = parse_attention(&elem).unwrap_err();
    let message = match error {
        Error::ParseError(string) => string,
        _ => panic!(),
    };
    assert_eq!(message, "This is not an attention element.");
    let elem = parse_element("<attention xmlns='urn:xmpp:fake'/>");
    assert!(parse_attention(&elem).is_err());
    let ok = parse_element("<attention xmlns='urn:xmpp:attention:0'/>");
    assert_eq!(parse_attention(&ok).unwrap(), Attention::Attention);
}

#[test]
fn test_require_type() {
    let elem = parse_element("<iq xmlns='jabber:client'/>");
    let error = Iq::try_from(elem).unwrap_err();
    let message = match error {
        Error::ParseError(string) => string,
        _ => panic!(),
    };
    assert_eq!(message, "Required attribute 'type' missing.");
}

#[test]
fn test_get() {
    let elem = parse_element(
        "<iq xmlns='jabber:client' type='get'>
            <foo xmlns='bar'/>
        </iq>",
    );
    let iq = Iq::try_from(elem).unwrap();
    let query = parse_element("<foo xmlns='bar'/>");
    assert_eq!(iq.from, None);
    assert_eq!(iq.to, None);
    assert_eq!(iq.id, None);
    assert!(match iq.payload {
        IqType::Get(element) => element == query,
        _ => false,
    });
}

#[test]
fn test_set() {
    let elem = parse_element(
        "<iq xmlns='jabber:client' type='set'>
            <vCard xmlns='vcard-temp'/>
        </iq>",
    );
    let iq = Iq::try_from(elem).unwrap();
    let vcard = parse_element("<vCard xmlns='vcard-temp'/>");
    assert_eq!(iq.from, None);
    assert_eq!(iq.to, None);
    assert_eq!(iq.id, None);
    assert!(match iq.payload {
        IqType::SetPayload(element) => element == vcard,
        _ => false,
    });
}

#[test]
fn test_result_empty() {
    let elem = parse_element("<iq xmlns='jabber:client' type='result'/>");
    let iq = Iq::try_from(elem).unwrap();
    assert_eq!(iq.from, None);
    assert_eq!(iq.to, None);
    assert_eq!(iq.id, None);
    assert!(match iq.payload {
        IqType::Result(None) => true,
        _ => false,
    });
}

#[test]
fn test_result() {
    let elem = parse_element(
        "<iq xmlns='jabber:client' type='result'>
            <query xmlns='http://jabber.org/protocol/disco#items'/>
        </iq>",
    );
    let iq = Iq::try_from(elem).unwrap();
    let query = parse_element("<query xmlns='http://jabber.org/protocol/disco#items'/>");
    assert_eq!(iq.from, None);
    assert_eq!(iq.to, None);
    assert_eq!(iq.id, None);
    assert!(match iq.payload {
        IqType::Result(Some(element)) => element == query,
        _ => false,
    });
}

#[test]
fn test_children_invalid() {
    let elem = parse_element("<iq xmlns='jabber:client' type='error'></iq>");
    let error = Iq::try_from(elem).unwrap_err();
    let message = match error {
        Error::ParseError(string) => string,
        _ => panic!(),
    };
    assert_eq!(message, "Wrong number of children in iq element.");
}

#[test]
fn iq_error_reply_keeps_error_element() {
    let elem = parse_element(
        "<iq xmlns='jabber:client' type='error'>
            <ping xmlns='urn:xmpp:ping'/>
            <error type='cancel'>
                <service-unavailable xmlns='urn:ietf:params:xml:ns:xmpp-stanzas'/>
            </error>
        </iq>",
    );
    let iq = Iq::try_from(elem).unwrap();
    match iq.payload {
        IqType::Error(err) => {
            assert_eq!(err.name, "error");
            assert_eq!(err.attr("type"), Some(&"cancel".to_owned()));
        }
        _ => panic!(),
    }
}

#[test]
fn iq_unknown_type() {
    let elem = parse_element("<iq xmlns='jabber:client' type='frobnicate'/>");
    let error = Iq::try_from(elem).unwrap_err();
    let message = match error {
        Error::ParseError(string) => string,
        _ => panic!(),
    };
    assert_eq!(message, "Unknown iq type.");
}

#[test]
fn iq_carries_jids() {
    let elem = parse_element(
        "<iq xmlns='jabber:client' type='result' from='romeo@example.net' to='juliet@example.com' id='q1'/>",
    );
    let iq = Iq::try_from(elem).unwrap();
    assert!(iq.from.is_some());
    assert!(iq.to.is_some());
    assert_eq!(iq.id, Some("q1".to_owned()));
    let bad = parse_element("<iq xmlns='jabber:client' type='result' from='@'/>");
    assert!(matches!(Iq::try_from(bad), Err(Error::JidParseError)));
}

#[test]
fn bind_offered_in_features() {
    let features = parse_element(
        "<features><bind xmlns='urn:ietf:params:xml:ns:xmpp-bind'/></features>",
    );
    assert_eq!(ClientBind::new(&features), ClientBind::WaitSend);
    let bare = parse_element("<features/>");
    assert_eq!(ClientBind::new(&bare), ClientBind::Unsupported);
}

#[test]
fn bind_response_classification() {
    let other = parse_element("<message xmlns='jabber:client'/>");
    assert_eq!(classify_bind_response(&other), BindResponse::Unrelated);
    let wrong_id = parse_element("<iq id='other' type='result'/>");
    assert_eq!(classify_bind_response(&wrong_id), BindResponse::Unrelated);
    let failed = parse_element("<iq id='resource-bind' type='error'/>");
    assert_eq!(classify_bind_response(&failed), BindResponse::Failure);
    let ok = parse_element(
        "<iq id='resource-bind' type='result'>
            <bind xmlns='urn:ietf:params:xml:ns:xmpp-bind'>
                <jid>romeo@example.net/orchard</jid>
            </bind>
        </iq>",
    );
    match classify_bind_response(&ok) {
        BindResponse::Ready(Some(_)) => {}
        other => panic!("expected Ready(Some(_)), got {:?}", other),
    }
}

#[test]
fn bind_response_jid_extraction() {
    let no_bind = parse_element("<iq id='resource-bind' type='result'/>");
    assert!(get_bind_response_jid(&no_bind).is_none());
    let bad_jid = parse_element(
        "<iq id='resource-bind' type='result'>
            <bind xmlns='urn:ietf:params:xml:ns:xmpp-bind'><jid>@</jid></bind>
        </iq>",
    );
    assert!(get_bind_response_jid(&bad_jid).is_none());
    let good = parse_element(
        "<iq id='resource-bind' type='result'>
            <bind xmlns='urn:ietf:params:xml:ns:xmpp-bind'><jid>a@b/c</jid></bind>
        </iq>",
    );
    assert!(get_bind_response_jid(&good).is_some());
}

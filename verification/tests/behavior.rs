use echo_node::decode::decode;
use echo_node::encode::encode;
use echo_node::node::{handle_line, Outcome};
use echo_node::protocol::{build_response, Body, DecodeError, Message, Responses, Rpc};

fn init_message() -> Message {
    Message {
        src: "c1".to_string(),
        dst: "n1".to_string(),
        body: Body::Rpc(Rpc::Init {
            msg_id: 123,
            node_id: "n1".to_string(),
            node_ids: vec!["n1".to_string(), "n2".to_string()],
        }),
    }
}

#[test]
fn test_build_response() {
    let rpc = Rpc::Init {
        msg_id: 123,
        node_id: "123".to_string(),
        node_ids: vec!["123".to_string()],
    };
    let src = "123".to_string();
    let dst = "123".to_string();
    let response = build_response(rpc, src, dst);
    println!("response: {:?}", response);
}

#[test]
fn test_send_response() {
    let rpc = Rpc::Init {
        msg_id: 123,
        node_id: "123".to_string(),
        node_ids: vec!["123".to_string()],
    };
    let src = "123".to_string();
    let dst = "123".to_string();
    let response = build_response(rpc, src, dst);
    println!("{}", encode(&response));
}

#[test]
fn test_send_response_echo() {
    let rpc = Rpc::Echo {
        echo: "123".to_string(),
        msg_id: 123,
    };
    let src = "123".to_string();
    let dst = "123".to_string();
    let response = build_response(rpc, src, dst);
    println!("{}", encode(&response));
}

#[test]
fn test_serialize() {
    let rpc = Rpc::Echo {
        echo: "123".to_string(),
        msg_id: 123,
    };
    let src = "123".to_string();
    let dst = "123".to_string();
    let response = build_response(rpc, src, dst);
    let response_string = encode(&response);
    println!("response: {}", response_string);
}

#[test]
fn test_deserialize() {
    let rpc = Rpc::Echo {
        echo: "123".to_string(),
        msg_id: 123,
    };
    let src = "123".to_string();
    let dst = "123".to_string();
    let response = build_response(rpc, src, dst);
    let response_string = encode(&response);
    let response: Message = decode(&response_string).unwrap();
    println!("response: {:?}", response);
}

#[test]
fn round_trip_init() {
    let m = init_message();
    assert_eq!(decode(&encode(&m)).unwrap(), m);
}

#[test]
fn round_trip_echo() {
    let m = Message {
        src: "c2".to_string(),
        dst: "n1".to_string(),
        body: Body::Rpc(Rpc::Echo {
            echo: "hello there".to_string(),
            msg_id: 0,
        }),
    };
    assert_eq!(decode(&encode(&m)).unwrap(), m);
}

#[test]
fn round_trip_init_ok() {
    let m = Message {
        src: "n1".to_string(),
        dst: "c1".to_string(),
        body: Body::Responses(Responses::InitOk { in_reply_to: 123 }),
    };
    assert_eq!(decode(&encode(&m)).unwrap(), m);
}

#[test]
fn round_trip_error() {
    let m = Message {
        src: "n1".to_string(),
        dst: "c1".to_string(),
        body: Body::Responses(Responses::Error {
            in_reply_to: 7,
            code: 65535,
            text: "node crashed".to_string(),
        }),
    };
    assert_eq!(decode(&encode(&m)).unwrap(), m);
}

#[test]
fn round_trip_echo_ok() {
    let m = Message {
        src: "n1".to_string(),
        dst: "c1".to_string(),
        body: Body::Responses(Responses::EchoOk {
            echo: "hi".to_string(),
            msg_id: 5,
            in_reply_to: 5,
        }),
    };
    assert_eq!(decode(&encode(&m)).unwrap(), m);
}

#[test]
fn round_trip_escapes_and_large_ids() {
    let m = Message {
        src: "a\"b".to_string(),
        dst: "c\\d".to_string(),
        body: Body::Rpc(Rpc::Echo {
            echo: "say \"hi\\there\"".to_string(),
            msg_id: usize::MAX,
        }),
    };
    assert_eq!(decode(&encode(&m)).unwrap(), m);
}

#[test]
fn round_trip_empty_fields() {
    let m = Message {
        src: String::new(),
        dst: String::new(),
        body: Body::Rpc(Rpc::Init {
            msg_id: 0,
            node_id: String::new(),
            node_ids: vec![],
        }),
    };
    assert_eq!(decode(&encode(&m)).unwrap(), m);
}

#[test]
fn init_dispatch() {
    let rpc = Rpc::Init {
        msg_id: 123,
        node_id: "n1".to_string(),
        node_ids: vec!["n1".to_string()],
    };
    let reply = build_response(rpc, "n1".to_string(), "c1".to_string());
    assert_eq!(reply.src, "n1");
    assert_eq!(reply.dst, "c1");
    assert_eq!(
        reply.body,
        Body::Responses(Responses::InitOk { in_reply_to: 123 })
    );
}

#[test]
fn echo_dispatch() {
    let rpc = Rpc::Echo {
        echo: "hello".to_string(),
        msg_id: 5,
    };
    let reply = build_response(rpc, "n1".to_string(), "c1".to_string());
    assert_eq!(reply.src, "n1");
    assert_eq!(reply.dst, "c1");
    assert_eq!(
        reply.body,
        Body::Responses(Responses::EchoOk {
            echo: "hello".to_string(),
            msg_id: 5,
            in_reply_to: 5,
        })
    );
}

#[test]
fn tag_disambiguation() {
    let response_line =
        "{\"src\":\"n1\",\"dest\":\"c1\",\"body\":{\"type\":\"echo_ok\",\"echo\":\"hi\",\"msg_id\":1,\"in_reply_to\":1}}";
    let m = decode(response_line).unwrap();
    assert!(matches!(m.body, Body::Responses(_)));
    let request_line =
        "{\"src\":\"c1\",\"dest\":\"n1\",\"body\":{\"type\":\"echo\",\"echo\":\"hi\",\"msg_id\":1}}";
    let m = decode(request_line).unwrap();
    assert!(matches!(m.body, Body::Rpc(_)));
}

#[test]
fn unknown_tag_rejected() {
    let line =
        "{\"src\":\"c1\",\"dest\":\"n1\",\"body\":{\"type\":\"ping\",\"msg_id\":1}}";
    assert_eq!(decode(line), Err(DecodeError));
}

#[test]
fn malformed_lines_rejected() {
    assert_eq!(decode("not json at all"), Err(DecodeError));
    assert_eq!(decode(""), Err(DecodeError));
    // a required field is missing
    assert_eq!(
        decode("{\"src\":\"c1\",\"dest\":\"n1\",\"body\":{\"type\":\"echo\",\"msg_id\":1}}"),
        Err(DecodeError)
    );
    // a field has the wrong type
    assert_eq!(
        decode(
            "{\"src\":\"c1\",\"dest\":\"n1\",\"body\":{\"type\":\"echo\",\"echo\":7,\"msg_id\":1}}"
        ),
        Err(DecodeError)
    );
    // trailing text after the envelope
    assert_eq!(
        decode(
            "{\"src\":\"c1\",\"dest\":\"n1\",\"body\":{\"type\":\"echo\",\"echo\":\"hi\",\"msg_id\":1}}x"
        ),
        Err(DecodeError)
    );
    // a repeated member
    assert_eq!(
        decode(
            "{\"src\":\"a\",\"src\":\"b\",\"dest\":\"n1\",\"body\":{\"type\":\"init_ok\",\"in_reply_to\":1}}"
        ),
        Err(DecodeError)
    );
    // a redundant leading zero is not canonical
    assert_eq!(
        decode(
            "{\"src\":\"c1\",\"dest\":\"n1\",\"body\":{\"type\":\"echo\",\"echo\":\"hi\",\"msg_id\":01}}"
        ),
        Err(DecodeError)
    );
    // an error code beyond sixteen bits
    assert_eq!(
        decode(
            "{\"src\":\"n1\",\"dest\":\"c1\",\"body\":{\"type\":\"error\",\"in_reply_to\":1,\"code\":65536,\"text\":\"x\"}}"
        ),
        Err(DecodeError)
    );
}

#[test]
fn end_to_end_echo() {
    let line =
        "{\"src\":\"c1\",\"dest\":\"n1\",\"body\":{\"type\":\"echo\",\"echo\":\"hi\",\"msg_id\":1}}";
    match handle_line(line) {
        Outcome::Reply(out) => {
            assert_eq!(
                out,
                "{\"src\":\"n1\",\"dest\":\"c1\",\"body\":{\"type\":\"echo_ok\",\"echo\":\"hi\",\"msg_id\":1,\"in_reply_to\":1}}"
            );
            let reply = decode(&out).unwrap();
            assert_eq!(reply.src, "n1");
            assert_eq!(reply.dst, "c1");
        }
        other => panic!("expected a reply, got {:?}", other),
    }
}

#[test]
fn end_to_end_init() {
    let line = encode(&init_message());
    match handle_line(&line) {
        Outcome::Reply(out) => {
            let reply = decode(&out).unwrap();
            assert_eq!(reply.src, "n1");
            assert_eq!(reply.dst, "c1");
            assert_eq!(
                reply.body,
                Body::Responses(Responses::InitOk { in_reply_to: 123 })
            );
        }
        other => panic!("expected a reply, got {:?}", other),
    }
}

#[test]
fn response_path_is_silent() {
    let line =
        "{\"src\":\"n2\",\"dest\":\"n1\",\"body\":{\"type\":\"init_ok\",\"in_reply_to\":9}}";
    match handle_line(line) {
        Outcome::Seen(resp) => {
            assert_eq!(resp, Responses::InitOk { in_reply_to: 9 });
        }
        other => panic!("expected only a diagnostic, got {:?}", other),
    }
}

#[test]
fn rejected_line_yields_no_reply() {
    assert!(matches!(handle_line("{"), Outcome::Rejected(_)));
}

#[test]
fn whitespace_and_member_order_accepted() {
    let spaced =
        "{ \"src\":\"c1\",\"dest\":\"n1\",\"body\":{\"type\":\"echo\",\"echo\":\"hi\",\"msg_id\":1}}";
    let m = decode(spaced).unwrap();
    assert_eq!(m.src, "c1");
    let reordered =
        "{ \"dest\" : \"n1\" , \"body\" : { \"msg_id\" : 1 , \"type\" : \"echo\" , \"echo\" : \"hi\" } , \"src\" : \"c1\" }\n";
    let m2 = decode(reordered).unwrap();
    assert_eq!(m2.src, "c1");
    assert_eq!(m2.dst, "n1");
    assert_eq!(
        m2.body,
        Body::Rpc(Rpc::Echo { echo: "hi".to_string(), msg_id: 1 })
    );
}

#[test]
fn string_escapes_accepted() {
    let line =
        "{\"src\":\"c1\",\"dest\":\"n1\",\"body\":{\"type\":\"echo\",\"echo\":\"a\\n\\t\\u0041\\/\\\"b\",\"msg_id\":1}}";
    let m = decode(line).unwrap();
    assert_eq!(
        m.body,
        Body::Rpc(Rpc::Echo { echo: "a\n\tA/\"b".to_string(), msg_id: 1 })
    );
    // a lone surrogate escape is no character
    assert_eq!(
        decode(
            "{\"src\":\"c1\",\"dest\":\"n1\",\"body\":{\"type\":\"echo\",\"echo\":\"\\uD800\",\"msg_id\":1}}"
        ),
        Err(DecodeError)
    );
}

#[test]
fn control_characters_round_trip() {
    let m = Message {
        src: "c1".to_string(),
        dst: "n1".to_string(),
        body: Body::Rpc(Rpc::Echo { echo: "a\u{0001}b\nc".to_string(), msg_id: 2 }),
    };
    let line = encode(&m);
    assert!(line.contains("\\u0001"));
    assert_eq!(decode(&line).unwrap(), m);
}

#[test]
fn wire_field_names() {
    let encoded = encode(&init_message());
    assert!(encoded.starts_with("{\"src\":"));
    assert!(encoded.contains(",\"dest\":"));
    assert!(!encoded.contains("destination"));
    assert!(!encoded.contains("source"));
    assert_eq!(
        encoded,
        "{\"src\":\"c1\",\"dest\":\"n1\",\"body\":{\"type\":\"init\",\"msg_id\":123,\"node_id\":\"n1\",\"node_ids\":[\"n1\",\"n2\"]}}"
    );
}

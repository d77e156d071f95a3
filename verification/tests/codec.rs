//! Tests for the JSON encoder, the parsers, and reply extraction.

use bog::inference::{complete, extract_reply, ResponseError};
use bog::json::serialize_request;
use bog::models::{
    Number, RequestBody, RequestMessage, RequestMessageBody, ResponseBody, ResponseContent,
    ResponseMessage,
};
use bog::parser::{parse_request, parse_response};

fn small_request() -> RequestBody {
    RequestBody::new(
        "m",
        Number::new("1").unwrap(),
        5,
        false,
        Number::new("0").unwrap(),
        Number::new("0").unwrap(),
        Number::new("1").unwrap(),
        0,
        vec![],
        Number::new("0").unwrap(),
        Number::new("0").unwrap(),
        vec![RequestMessage::new("user", String::from("hi"))],
    )
}

#[test]
fn request_serializes_to_the_documented_shape() {
    let out = serialize_request(&small_request());
    assert_eq!(
        out,
        "{\"model\":\"m\",\"messages\":[{\"role\":\"user\",\"content\":\"hi\"}],\"temperature\":1,\"max_tokens\":5,\"stream\":false,\"presence_penalty\":0,\"frequency_penalty\":0,\"top_p\":1,\"top_k\":0,\"transforms\":[],\"min_p\":0,\"top_a\":0}"
    );
}

#[test]
fn strings_are_escaped() {
    let mut req = small_request();
    req.messages[0].content = String::from("a\"b\\c\nd");
    let out = serialize_request(&req);
    assert!(out.contains("\"content\":\"a\\\"b\\\\c\\u000ad\""));
}

#[test]
fn negative_and_fractional_numerals_pass_through() {
    let mut req = small_request();
    req.settings.presence_penalty = Number::new("-1.05").unwrap();
    req.settings.max_tokens = -3;
    let out = serialize_request(&req);
    assert!(out.contains("\"presence_penalty\":-1.05"));
    assert!(out.contains("\"max_tokens\":-3"));
}

#[test]
fn serialized_request_is_valid_json() {
    let mut req = small_request();
    req.messages[0].content = String::from("line\nbreak \"quoted\" back\\slash");
    let out = serialize_request(&req);
    let value: serde_json::Value = serde_json::from_str(&out).unwrap();
    assert_eq!(value["model"].as_str().unwrap(), "m");
    assert_eq!(
        value["messages"][0]["content"].as_str().unwrap(),
        "line\nbreak \"quoted\" back\\slash"
    );
    assert_eq!(value["max_tokens"].as_i64().unwrap(), 5);
    assert_eq!(value["stream"].as_bool().unwrap(), false);
}

#[test]
fn request_round_trips_through_json() {
    let req = small_request();
    let out = serialize_request(&req);
    let back = parse_request(&out).unwrap();
    assert_eq!(back, req);
}

#[test]
fn bigger_request_round_trips_through_json() {
    let req = RequestBody::new(
        "provider/model-name",
        Number::new("0.9").unwrap(),
        300,
        true,
        Number::new("-0.5").unwrap(),
        Number::new("0.25").unwrap(),
        Number::new("1").unwrap(),
        40,
        vec![String::from("middle-out"), String::from("other")],
        Number::new("0.05").unwrap(),
        Number::new("0").unwrap(),
        vec![
            RequestMessage::new("system", String::from("a \"system\" line\twith tabs")),
            RequestMessage::new("system", String::from("back\\slash")),
            RequestMessage::new("user", String::from("hi there")),
        ],
    );
    let out = serialize_request(&req);
    let back = parse_request(&out).unwrap();
    assert_eq!(back, req);
}

#[test]
fn parse_request_rejects_trailing_text() {
    let out = serialize_request(&small_request());
    let with_tail = format!("{} ", out);
    assert!(parse_request(&with_tail).is_none());
}

#[test]
fn response_with_one_choice_yields_its_content() {
    let raw = "{\"id\":\"gen-1\",\"model\":\"m\",\"created\":1621982371,\"object\":\"chat.completion\",\"choices\":[{\"message\":{\"content\":\"Hi!\",\"role\":\"assistant\"}}]}";
    assert_eq!(complete(raw).unwrap(), "Hi!");
}

#[test]
fn response_without_choices_is_a_shape_error() {
    let raw = "{\"id\":\"gen-1\",\"model\":\"m\",\"created\":1621982371,\"object\":\"chat.completion\",\"choices\":[]}";
    assert_eq!(complete(raw), Err(ResponseError::NoChoices));
}

#[test]
fn malformed_response_is_a_recoverable_error() {
    assert_eq!(complete("not json at all"), Err(ResponseError::Malformed));
    assert_eq!(complete(""), Err(ResponseError::Malformed));
    assert_eq!(complete("{\"id\":\"x\"}"), Err(ResponseError::Malformed));
}

#[test]
fn response_parser_reads_the_documented_shape() {
    let raw = "{\"id\":\"gen-0YV8H\",\"model\":\"example/chat-model\",\"created\":1621982371,\"object\":\"chat.completion\",\"choices\":[{\"message\":{\"content\":\"first\",\"role\":\"assistant\"}},{\"message\":{\"content\":\"second\",\"role\":\"assistant\"}}]}";
    let body = parse_response(raw).unwrap();
    assert_eq!(body.id, "gen-0YV8H");
    assert_eq!(body.model, "example/chat-model");
    assert_eq!(body.created, 1621982371);
    assert_eq!(body.object, "chat.completion");
    assert_eq!(body.choices.len(), 2);
    assert_eq!(body.choices[0].message.content, "first");
    assert_eq!(body.choices[1].message.content, "second");
}

#[test]
fn only_the_first_choice_is_consulted() {
    let body = ResponseBody {
        choices: vec![
            ResponseMessage {
                message: ResponseContent {
                    content: String::from("first"),
                    role: String::from("assistant"),
                },
            },
            ResponseMessage {
                message: ResponseContent {
                    content: String::from("second"),
                    role: String::from("assistant"),
                },
            },
        ],
        id: String::from("x"),
        model: String::from("m"),
        created: 7,
        object: String::from("chat.completion"),
    };
    assert_eq!(extract_reply(&body).unwrap(), "first");
}

#[test]
fn empty_choices_extracts_to_an_error_not_a_panic() {
    let body = ResponseBody {
        choices: vec![],
        id: String::from("x"),
        model: String::from("m"),
        created: 7,
        object: String::from("chat.completion"),
    };
    assert_eq!(extract_reply(&body), Err(ResponseError::NoChoices));
}

#[test]
fn unicode_escapes_in_responses_are_decoded() {
    let raw = "{\"id\":\"x\",\"model\":\"m\",\"created\":1,\"object\":\"o\",\"choices\":[{\"message\":{\"content\":\"\\u0041\\n\\t\\\"\\\\\",\"role\":\"assistant\"}}]}";
    assert_eq!(complete(raw).unwrap(), "A\n\t\"\\");
}

#[test]
fn surrogate_escapes_are_rejected() {
    let raw = "{\"id\":\"x\",\"model\":\"m\",\"created\":1,\"object\":\"o\",\"choices\":[{\"message\":{\"content\":\"\\ud800\",\"role\":\"assistant\"}}]}";
    assert_eq!(complete(raw), Err(ResponseError::Malformed));
}

#[test]
fn oversized_integers_are_rejected() {
    let raw = "{\"id\":\"x\",\"model\":\"m\",\"created\":1234567890123456789012,\"object\":\"o\",\"choices\":[]}";
    assert_eq!(complete(raw), Err(ResponseError::Malformed));
}

#[test]
fn message_constructor_keeps_role_and_content() {
    let m = RequestMessage::new("system", String::from("text"));
    assert_eq!(m.role, "system");
    assert_eq!(m.content, "text");
}

#[test]
fn reduced_request_shape_holds_model_and_messages() {
    let b = RequestMessageBody {
        model: String::from("m"),
        messages: vec![RequestMessage::new("user", String::from("x"))],
    };
    assert_eq!(b.model, "m");
    assert_eq!(b.messages.len(), 1);
    assert_eq!(b.messages[0].content, "x");
}

#[test]
fn non_ascii_content_round_trips_unescaped() {
    let mut req = small_request();
    req.messages[0].content = String::from("griaz \u{263a} \u{4f60}\u{597d}");
    let out = serialize_request(&req);
    assert!(out.contains("griaz \u{263a} \u{4f60}\u{597d}"));
    let back = parse_request(&out).unwrap();
    assert_eq!(back, req);
}

#[test]
fn empty_strings_round_trip() {
    let mut req = small_request();
    req.messages[0].content = String::new();
    req.settings.model = String::new();
    let out = serialize_request(&req);
    let back = parse_request(&out).unwrap();
    assert_eq!(back, req);
}

#[test]
fn response_members_may_come_in_any_order() {
    let raw = "{\"choices\":[{\"message\":{\"content\":\"Hi!\",\"role\":\"assistant\"}}],\"id\":\"gen-1\",\"model\":\"m\",\"created\":0,\"object\":\"chat.completion\"}";
    assert_eq!(complete(raw).unwrap(), "Hi!");
}

#[test]
fn response_whitespace_and_unknown_members_are_accepted() {
    let raw = "\n{ \"id\" : \"gen-1\" ,\n  \"provider\": \"someone\",\n  \"model\": \"m\",\n  \"object\": \"chat.completion\",\n  \"created\": 1735689600,\n  \"choices\": [ { \"logprobs\": null, \"finish_reason\": \"stop\", \"index\": 0, \"message\": { \"role\": \"assistant\", \"content\": \"Hi!\", \"refusal\": null } } ],\n  \"usage\": { \"prompt_tokens\": 14, \"completion_tokens\": 4, \"total_tokens\": 18, \"cost\": 2.5e-05, \"details\": [1, -2, true, [\"x\"], {}] }\n}\n";
    assert_eq!(complete(raw).unwrap(), "Hi!");
}

#[test]
fn response_message_members_may_come_in_any_order() {
    let raw = "{\"id\":\"x\",\"model\":\"m\",\"created\":1,\"object\":\"o\",\"choices\":[{\"message\":{\"role\":\"assistant\",\"content\":\"Hi!\"}}]}";
    assert_eq!(complete(raw).unwrap(), "Hi!");
}

#[test]
fn response_with_a_missing_member_is_malformed() {
    let raw = "{\"id\":\"x\",\"model\":\"m\",\"created\":1,\"choices\":[]}";
    assert_eq!(complete(raw), Err(ResponseError::Malformed));
}

#[test]
fn surrogate_pairs_are_decoded() {
    let raw = "{\"id\":\"x\",\"model\":\"m\",\"created\":1,\"object\":\"o\",\"choices\":[{\"message\":{\"content\":\"\\ud83d\\ude00!\",\"role\":\"assistant\"}}]}";
    assert_eq!(complete(raw).unwrap(), "\u{1F600}!");
}

#[test]
fn duplicate_response_members_keep_the_last_value() {
    let raw = "{\"id\":\"first\",\"id\":\"second\",\"model\":\"m\",\"created\":1,\"object\":\"o\",\"choices\":[]}";
    let body = parse_response(raw).unwrap();
    assert_eq!(body.id, "second");
}

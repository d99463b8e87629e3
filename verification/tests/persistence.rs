use dns_live::addr::ServerAddr;
use dns_live::codec::decode_session;
use dns_live::codec::encode_session;
use dns_live::record::RecordType;
use dns_live::session::Answer;
use dns_live::session::AnswerStatus;
use dns_live::session::Event;
use dns_live::session::OutputMode;
use dns_live::session::Question;
use dns_live::session::Request;
use dns_live::session::RequestLogEntry;
use dns_live::session::Response;
use dns_live::session::ResponseResult;
use dns_live::session::Session;
use dns_live::session::Timestamp;

fn rich_session() -> Session {
    let request = || Request {
        server_ip: "198.41.0.4".to_string(),
        name: "example.com".to_string(),
        record_type: RecordType::A,
    };
    Session {
        user_requests: vec![
            RequestLogEntry {
                when: Timestamp { millis: 1700000000123 },
                what: Event::Request {
                    request: request(),
                    response: ResponseResult::Answered {
                        resp: Response {
                            text: "example.com. 3600 IN A 93.184.216.34".to_string(),
                            mode: OutputMode::Classic,
                        },
                    },
                },
            },
            RequestLogEntry {
                when: Timestamp { millis: 1700000001456 },
                what: Event::Request {
                    request: request(),
                    response: ResponseResult::QueryError {
                        err: "Timeout".to_string(),
                    },
                },
            },
            RequestLogEntry {
                when: Timestamp { millis: 1700000002789 },
                what: Event::Request {
                    request: request(),
                    response: ResponseResult::ForbiddenRecursion {
                        addr: ServerAddr::V6 {
                            g0: 0x2001,
                            g1: 0xdb8,
                            g2: 0,
                            g3: 0,
                            g4: 0,
                            g5: 0,
                            g6: 0,
                            g7: 1,
                        },
                    },
                },
            },
            RequestLogEntry {
                when: Timestamp { millis: -1 },
                what: Event::Request {
                    request: request(),
                    response: ResponseResult::InvalidRequestIpAddr {
                        addr: "überhaupt keine Adresse".to_string(),
                    },
                },
            },
            RequestLogEntry {
                when: Timestamp { millis: 1700000003000 },
                what: Event::SwitchOutputMode {
                    new_mode: OutputMode::Verbose,
                },
            },
            RequestLogEntry {
                when: Timestamp { millis: 1700000004000 },
                what: Event::SubmitAnswer {
                    answer: "93.184.216.34".to_string(),
                    status: AnswerStatus::Incorrect,
                },
            },
        ],
        current_output_mode: OutputMode::Verbose,
        question: Question {
            text: "Which address does example.com resolve to?".to_string(),
            answer: Answer::Preset {
                options: vec!["1.2.3.4".to_string(), "5.6.7.8".to_string()],
            },
        },
        answers_remaining: 2,
        can_answer: true,
    }
}

#[test]
fn save_then_load_preserves_every_field() {
    let s = rich_session();
    let bytes = encode_session(&s);
    let loaded = decode_session(&bytes).expect("a saved session loads");
    assert_eq!(loaded, s);
}

#[test]
fn round_trip_of_a_derived_question_and_empty_log() {
    let s = Session {
        user_requests: Vec::new(),
        current_output_mode: OutputMode::Classic,
        question: Question {
            text: "".to_string(),
            answer: Answer::Derived {
                record_type: RecordType::Other(64),
                query: "one.one.one.one.".to_string(),
            },
        },
        answers_remaining: 0,
        can_answer: false,
    };
    let bytes = encode_session(&s);
    let loaded = decode_session(&bytes).expect("a saved session loads");
    assert_eq!(loaded, s);
}

#[test]
fn garbage_and_truncation_are_rejected() {
    assert_eq!(decode_session(&Vec::new()), None);
    assert_eq!(decode_session(&vec![7u8; 5]), None);
    let s = rich_session();
    let mut bytes = encode_session(&s);
    bytes.pop();
    assert_eq!(decode_session(&bytes), None);
    let mut bytes = encode_session(&s);
    bytes.push(0);
    assert_eq!(decode_session(&bytes), None);
}

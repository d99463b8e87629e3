use dns_live::addr::ServerAddr;
use dns_live::querying::DnsReply;
use dns_live::querying::QueryOutcome;
use dns_live::querying::ValidationResult;
use dns_live::record::RecordType;
use dns_live::session::Answer;
use dns_live::session::AnswerStatus;
use dns_live::session::Event;
use dns_live::session::OutputMode;
use dns_live::session::Question;
use dns_live::session::QueryDirective;
use dns_live::session::Request;
use dns_live::session::ResponseResult;
use dns_live::session::Session;
use dns_live::session::SubmitDirective;
use dns_live::session::Timestamp;

fn t(millis: i64) -> Timestamp {
    Timestamp { millis }
}

fn active_session(attempts: u32) -> Session {
    Session {
        user_requests: Vec::new(),
        current_output_mode: OutputMode::Classic,
        question: Question {
            text: "What A record does example.com hold?".to_string(),
            answer: Answer::Preset {
                options: vec!["1.2.3.4".to_string()],
            },
        },
        answers_remaining: attempts,
        can_answer: true,
    }
}

#[test]
fn invalid_server_address_is_logged_and_sends_nothing() {
    let mut s = active_session(3);
    let d = s.handle_query("not-an-ip", RecordType::A, "example.com", t(1));
    // No address to probe: the directive carries no network work at all.
    assert!(matches!(d, QueryDirective::Logged));
    assert_eq!(s.user_requests.len(), 1);
    match &s.user_requests[0].what {
        Event::Request { request, response } => {
            assert_eq!(request.server_ip, "not-an-ip");
            assert_eq!(request.name, "example.com");
            assert_eq!(
                *response,
                ResponseResult::InvalidRequestIpAddr {
                    addr: "not-an-ip".to_string()
                }
            );
        }
        other => panic!("wrong event: {other:?}"),
    }
    // The failed parse never consumes an attempt.
    assert_eq!(s.answers_remaining, 3);
    assert!(s.can_answer);
}

#[test]
fn query_trims_its_inputs_and_hands_out_the_address() {
    let mut s = active_session(3);
    let d = s.handle_query(" 9.9.9.9 ", RecordType::Ns, " example.net ", t(2));
    match d {
        QueryDirective::Probe { addr, request } => {
            assert_eq!(addr, ServerAddr::V4 { a: 9, b: 9, c: 9, d: 9 });
            assert_eq!(request.server_ip, "9.9.9.9");
            assert_eq!(request.name, "example.net");
            assert_eq!(request.record_type, RecordType::Ns);
        }
        other => panic!("wrong directive: {other:?}"),
    }
    // Nothing is logged until the network phase settles.
    assert_eq!(s.user_requests.len(), 0);
}

fn sample_request() -> Request {
    Request {
        server_ip: "9.9.9.9".to_string(),
        name: "example.net".to_string(),
        record_type: RecordType::A,
    }
}

fn sample_addr() -> ServerAddr {
    ServerAddr::V4 { a: 9, b: 9, c: 9, d: 9 }
}

#[test]
fn answered_query_is_rendered_in_the_current_mode() {
    let mut s = active_session(3);
    let reply = DnsReply {
        rcode: 0,
        answer_count: 1,
        classic: "plain text".to_string(),
        verbose: "debug text".to_string(),
    };
    s.handle_query_outcome(
        sample_request(),
        sample_addr(),
        QueryOutcome::Answered(reply),
        false,
        t(3),
    );
    match &s.user_requests[0].what {
        Event::Request { response, .. } => match response {
            ResponseResult::Answered { resp } => {
                assert_eq!(resp.text, "plain text");
                assert_eq!(resp.mode, OutputMode::Classic);
            }
            other => panic!("wrong response: {other:?}"),
        },
        other => panic!("wrong event: {other:?}"),
    }
    assert_eq!(s.answers_remaining, 3);
}

#[test]
fn recursive_server_answer_is_discarded() {
    let mut s = active_session(3);
    let reply = DnsReply {
        rcode: 0,
        answer_count: 5,
        classic: "secret answer".to_string(),
        verbose: "secret answer".to_string(),
    };
    s.handle_query_outcome(
        sample_request(),
        sample_addr(),
        QueryOutcome::Answered(reply),
        true,
        t(4),
    );
    match &s.user_requests[0].what {
        Event::Request { response, .. } => {
            assert_eq!(
                *response,
                ResponseResult::ForbiddenRecursion { addr: sample_addr() }
            );
        }
        other => panic!("wrong event: {other:?}"),
    }
}

#[test]
fn failed_query_keeps_its_diagnostic() {
    let mut s = active_session(3);
    s.handle_query_outcome(
        sample_request(),
        sample_addr(),
        QueryOutcome::TimedOut,
        false,
        t(5),
    );
    s.handle_query_outcome(
        sample_request(),
        sample_addr(),
        QueryOutcome::Unexpected("connection refused".to_string()),
        false,
        t(6),
    );
    match &s.user_requests[0].what {
        Event::Request { response, .. } => {
            assert_eq!(
                *response,
                ResponseResult::QueryError { err: "Timeout".to_string() }
            );
        }
        other => panic!("wrong event: {other:?}"),
    }
    match &s.user_requests[1].what {
        Event::Request { response, .. } => {
            assert_eq!(
                *response,
                ResponseResult::QueryError {
                    err: "Unexpected: connection refused".to_string()
                }
            );
        }
        other => panic!("wrong event: {other:?}"),
    }
}

#[test]
fn set_output_mode_logs_the_switch() {
    let mut s = active_session(3);
    assert!(s.handle_set_output_mode(OutputMode::Verbose, t(7)));
    assert_eq!(s.current_output_mode, OutputMode::Verbose);
    assert_eq!(
        s.user_requests[0].what,
        Event::SwitchOutputMode { new_mode: OutputMode::Verbose }
    );
    assert_eq!(s.user_requests[0].when, t(7));
}

#[test]
fn budget_is_non_increasing_and_never_negative() {
    let mut s = active_session(2);
    let mut last = s.answers_remaining;
    let d = s.handle_submit_answer("5.5.5.5", t(8));
    assert!(matches!(d, SubmitDirective::Logged { status: AnswerStatus::Incorrect }));
    assert!(s.answers_remaining <= last);
    assert_eq!(s.answers_remaining, 1);
    last = s.answers_remaining;
    let d = s.handle_submit_answer("6.6.6.6", t(9));
    assert!(matches!(d, SubmitDirective::Logged { status: AnswerStatus::Incorrect }));
    assert!(s.answers_remaining <= last);
    assert_eq!(s.answers_remaining, 0);
    assert!(!s.can_answer);
    // Exhausted: nothing moves any more, in particular not below zero.
    let d = s.handle_submit_answer("1.2.3.4", t(10));
    assert!(matches!(d, SubmitDirective::Rejected));
    assert_eq!(s.answers_remaining, 0);
    assert_eq!(s.user_requests.len(), 2);
}

#[test]
fn lockout_is_permanent_and_idempotent() {
    let mut s = active_session(3);
    let d = s.handle_submit_answer("1.2.3.4", t(11));
    assert!(matches!(d, SubmitDirective::Logged { status: AnswerStatus::Correct }));
    // A correct answer locks the session even with budget left.
    assert_eq!(s.answers_remaining, 2);
    assert!(!s.can_answer);
    let before_log = s.user_requests.len();
    for i in 0..4 {
        let d = s.handle_submit_answer("1.2.3.4", t(12 + i));
        assert!(matches!(d, SubmitDirective::Rejected));
        assert!(!s.can_answer);
        assert_eq!(s.answers_remaining, 2);
        assert_eq!(s.user_requests.len(), before_log);
    }
    // Other actions are refused as well once the session is exhausted.
    assert!(!s.handle_set_output_mode(OutputMode::Verbose, t(20)));
    assert!(matches!(
        s.handle_query("9.9.9.9", RecordType::A, "example.com", t(21)),
        QueryDirective::Rejected
    ));
}

#[test]
fn indeterminate_validation_charges_no_attempt() {
    let mut s = active_session(2);
    s.question.answer = Answer::Derived {
        record_type: RecordType::A,
        query: "one.one.one.one.".to_string(),
    };
    let d = s.handle_submit_answer("1.1.1.1", t(30));
    match &d {
        SubmitDirective::NeedLookup { record_type, query } => {
            assert_eq!(*record_type, RecordType::A);
            assert_eq!(query, "one.one.one.one.");
        }
        other => panic!("wrong directive: {other:?}"),
    }
    // The lookup failed: recorded as an error, no attempt charged.
    assert!(s.handle_submit_validated("1.1.1.1", ValidationResult::Indeterminate, t(31)));
    assert_eq!(s.answers_remaining, 2);
    assert!(s.can_answer);
    assert_eq!(
        s.user_requests[0].what,
        Event::SubmitAnswer {
            answer: "1.1.1.1".to_string(),
            status: AnswerStatus::Error,
        }
    );
    // The lookup succeeded and matched: one attempt charged, session locked.
    assert!(s.handle_submit_validated("1.1.1.1", ValidationResult::Matched, t(32)));
    assert_eq!(s.answers_remaining, 1);
    assert!(!s.can_answer);
    assert_eq!(
        s.user_requests[1].what,
        Event::SubmitAnswer {
            answer: "1.1.1.1".to_string(),
            status: AnswerStatus::Correct,
        }
    );
}

#[test]
fn submitted_answers_are_trimmed() {
    let mut s = active_session(2);
    let d = s.handle_submit_answer("  1.2.3.4  ", t(40));
    assert!(matches!(d, SubmitDirective::Logged { status: AnswerStatus::Correct }));
    assert_eq!(
        s.user_requests[0].what,
        Event::SubmitAnswer {
            answer: "1.2.3.4".to_string(),
            status: AnswerStatus::Correct,
        }
    );
}

#[test]
fn well_formedness_tells_active_from_corrupt() {
    let s = active_session(1);
    assert!(s.is_well_formed());
    let mut bad = active_session(1);
    bad.answers_remaining = 0;
    assert!(!bad.is_well_formed());
    let mut exhausted = active_session(1);
    exhausted.can_answer = false;
    exhausted.answers_remaining = 0;
    assert!(exhausted.is_well_formed());
}

#[test]
fn ipv6_server_addresses_are_accepted() {
    let mut s = active_session(3);
    let d = s.handle_query("2001:db8::1", RecordType::Aaaa, "example.org", t(50));
    match d {
        QueryDirective::Probe { addr, .. } => {
            assert_eq!(
                addr,
                ServerAddr::V6 { g0: 0x2001, g1: 0xdb8, g2: 0, g3: 0, g4: 0, g5: 0, g6: 0, g7: 1 }
            );
        }
        other => panic!("wrong directive: {other:?}"),
    }
}

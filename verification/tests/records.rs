use dns_live::querying::describe_query_error;
use dns_live::querying::outcome_from_result;
use dns_live::querying::render_reply;
use dns_live::querying::DnsReply;
use dns_live::querying::QueryError;
use dns_live::querying::QueryOutcome;
use dns_live::record::RecordType;
use dns_live::session::OutputMode;

#[test]
fn record_type_codes_round_trip() {
    for t in [
        RecordType::A,
        RecordType::Ns,
        RecordType::Cname,
        RecordType::Soa,
        RecordType::Ptr,
        RecordType::Mx,
        RecordType::Txt,
        RecordType::Aaaa,
        RecordType::Srv,
        RecordType::Caa,
        RecordType::Other(64),
        RecordType::Other(0),
    ] {
        assert_eq!(RecordType::from_code(t.code()), t);
    }
    assert_eq!(RecordType::from_code(1), RecordType::A);
    assert_eq!(RecordType::A.code(), 1);
    assert_eq!(RecordType::Aaaa.code(), 28);
    assert_eq!(RecordType::Caa.code(), 257);
    assert_eq!(RecordType::from_code(999), RecordType::Other(999));
}

#[test]
fn query_failures_render_their_diagnostic() {
    assert_eq!(describe_query_error(&QueryError::Timeout), "Timeout");
    assert_eq!(
        describe_query_error(&QueryError::Unexpected("no route to host".to_string())),
        "Unexpected: no route to host"
    );
}

#[test]
fn replies_render_per_output_mode() {
    let reply = DnsReply {
        rcode: 0,
        answer_count: 1,
        classic: "short".to_string(),
        verbose: "long form".to_string(),
    };
    assert_eq!(render_reply(&reply, OutputMode::Classic), "short");
    assert_eq!(render_reply(&reply, OutputMode::Verbose), "long form");
}

#[test]
fn outcomes_classify_results() {
    let reply = || DnsReply {
        rcode: 0,
        answer_count: 1,
        classic: "r".to_string(),
        verbose: "r".to_string(),
    };
    assert_eq!(
        outcome_from_result(Ok(reply())),
        QueryOutcome::Answered(reply())
    );
    assert_eq!(
        outcome_from_result(Err(QueryError::Timeout)),
        QueryOutcome::TimedOut
    );
    assert_eq!(
        outcome_from_result(Err(QueryError::Unexpected("x".to_string()))),
        QueryOutcome::Unexpected("x".to_string())
    );
}

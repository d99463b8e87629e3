use dns_live::querying::probe_success;
use dns_live::querying::tally_probes;
use dns_live::querying::DnsReply;
use dns_live::querying::ProbeTally;
use dns_live::querying::QueryOutcome;

fn answered(rcode: u16, answer_count: usize) -> QueryOutcome {
    QueryOutcome::Answered(DnsReply {
        rcode,
        answer_count,
        classic: "resp".to_string(),
        verbose: "resp debug".to_string(),
    })
}

fn success() -> QueryOutcome {
    answered(0, 1)
}

#[test]
fn probe_success_requires_noerror_and_answers() {
    assert!(probe_success(&success()));
    assert!(!probe_success(&answered(3, 1))); // NXDOMAIN
    assert!(!probe_success(&answered(0, 0))); // no answer section
    assert!(!probe_success(&QueryOutcome::TimedOut));
    assert!(!probe_success(&QueryOutcome::Unexpected("broken".to_string())));
}

#[test]
fn four_successes_of_eight_is_recursive_and_returns_early() {
    // Fourth success settles as the sixth probe: the last two never examined.
    let outcomes = vec![
        success(),
        QueryOutcome::TimedOut,
        success(),
        answered(2, 0),
        success(),
        success(),
        QueryOutcome::TimedOut,
        QueryOutcome::TimedOut,
    ];
    let (recursive, examined) = tally_probes(&outcomes);
    assert!(recursive);
    assert_eq!(examined, 6);
    assert!(examined < 8);
}

#[test]
fn three_successes_of_eight_is_not_recursive_after_all_settle() {
    let outcomes = vec![
        success(),
        QueryOutcome::TimedOut,
        success(),
        QueryOutcome::Unexpected("connection refused".to_string()),
        answered(0, 0),
        success(),
        QueryOutcome::TimedOut,
        answered(5, 2), // REFUSED
    ];
    let (recursive, examined) = tally_probes(&outcomes);
    assert!(!recursive);
    assert_eq!(examined, 8);
}

#[test]
fn tally_decision_falls_exactly_at_fourth_success() {
    let mut tally = ProbeTally::new();
    for _ in 0..3 {
        assert_eq!(tally.decision(), None);
        tally.observe(&success());
    }
    assert_eq!(tally.decision(), None);
    tally.observe(&success());
    // The decision is known before the remaining four probes are awaited.
    assert_eq!(tally.decision(), Some(true));
}

#[test]
fn tally_negative_decision_needs_all_probes() {
    let mut tally = ProbeTally::new();
    for i in 0..8 {
        assert_eq!(tally.decision(), None);
        if i < 3 {
            tally.observe(&success());
        } else {
            tally.observe(&QueryOutcome::TimedOut);
        }
    }
    assert_eq!(tally.decision(), Some(false));
}

#[test]
fn probe_domains_span_eight_zones() {
    let names = dns_live::querying::probe_domains();
    assert_eq!(names.len(), 8);
    assert_eq!(names[0], "example.com");
    assert_eq!(names[1], "example.net");
    assert_eq!(names[2], "example.org");
    assert_eq!(names[3], "iana.org");
    assert_eq!(names[4], "cctld.ru");
    assert_eq!(names[5], "bit.ly");
    assert_eq!(names[6], "nih.gov");
    assert_eq!(names[7], "github.io");
}

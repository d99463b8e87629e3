//! Classifying query outcomes, deciding whether a server answers like an
//! open recursive resolver, and judging submitted answers. The network work
//! itself happens outside; everything here is a rule over its plain results.
use vstd::prelude::*;
use vstd::string::StringExecFns;

use crate::session::Answer;
use crate::session::AnswerView;
use crate::session::OutputMode;

verus! {

/// Why a single DNS query failed: the deadline passed with no response, or
/// any other transport or protocol failure, kept as a diagnostic text.
#[derive(Debug, PartialEq, Eq)]
pub enum QueryError {
    Timeout,
    Unexpected(String),
}

/// The abstract value of a [`QueryError`].
#[verifier::ext_equal]
pub enum QueryErrorView {
    Timeout,
    Unexpected(Seq<char>),
}

impl View for QueryError {
    type V = QueryErrorView;

    open spec fn view(&self) -> QueryErrorView {
        match self {
            QueryError::Timeout => QueryErrorView::Timeout,
            QueryError::Unexpected(m) => QueryErrorView::Unexpected(m@),
        }
    }
}

/// What the session reads of a DNS response: the response code, how many
/// answer records came back, and the response rendered once per output mode.
/// The outside transport produces the renderings; every rule in here works on
/// these plain fields.
#[derive(Debug, PartialEq, Eq)]
pub struct DnsReply {
    pub rcode: u16,
    pub answer_count: usize,
    pub classic: String,
    pub verbose: String,
}

/// The abstract value of a [`DnsReply`].
#[verifier::ext_equal]
pub struct DnsReplyView {
    pub rcode: u16,
    pub answer_count: usize,
    pub classic: Seq<char>,
    pub verbose: Seq<char>,
}

impl View for DnsReply {
    type V = DnsReplyView;

    open spec fn view(&self) -> DnsReplyView {
        DnsReplyView {
            rcode: self.rcode,
            answer_count: self.answer_count,
            classic: self.classic@,
            verbose: self.verbose@,
        }
    }
}

/// The classified outcome of one DNS query.
#[derive(Debug, PartialEq, Eq)]
pub enum QueryOutcome {
    Answered(DnsReply),
    TimedOut,
    Unexpected(String),
}

/// The abstract value of a [`QueryOutcome`].
#[verifier::ext_equal]
pub enum QueryOutcomeView {
    Answered(DnsReplyView),
    TimedOut,
    Unexpected(Seq<char>),
}

impl View for QueryOutcome {
    type V = QueryOutcomeView;

    open spec fn view(&self) -> QueryOutcomeView {
        match self {
            QueryOutcome::Answered(r) => QueryOutcomeView::Answered(r@),
            QueryOutcome::TimedOut => QueryOutcomeView::TimedOut,
            QueryOutcome::Unexpected(m) => QueryOutcomeView::Unexpected(m@),
        }
    }
}

/// Classifies the result of one query: a response is an answered outcome,
/// and each failure keeps its kind.
pub fn outcome_from_result(r: Result<DnsReply, QueryError>) -> (o: QueryOutcome)
    ensures
        o@ == match r {
            Result::Ok(reply) => QueryOutcomeView::Answered(reply@),
            Result::Err(QueryError::Timeout) => QueryOutcomeView::TimedOut,
            Result::Err(QueryError::Unexpected(m)) => QueryOutcomeView::Unexpected(m@),
        },
{
    match r {
        Result::Ok(reply) => QueryOutcome::Answered(reply),
        Result::Err(QueryError::Timeout) => QueryOutcome::TimedOut,
        Result::Err(QueryError::Unexpected(m)) => QueryOutcome::Unexpected(m),
    }
}

/// The text of a query failure as the session log records it.
pub open spec fn spec_describe_query_error(e: QueryErrorView) -> Seq<char> {
    match e {
        QueryErrorView::Timeout => "Timeout"@,
        QueryErrorView::Unexpected(m) => "Unexpected: "@ + m,
    }
}

/// Renders a query failure for the session log.
pub fn describe_query_error(e: &QueryError) -> (r: String)
    ensures
        r@ == spec_describe_query_error(e@),
{
    match e {
        QueryError::Timeout => String::from_str("Timeout"),
        QueryError::Unexpected(m) => String::from_str("Unexpected: ").concat(m.as_str()),
    }
}

/// The rendering of an answered response under an output mode.
pub open spec fn spec_render(r: DnsReplyView, mode: OutputMode) -> Seq<char> {
    match mode {
        OutputMode::Classic => r.classic,
        OutputMode::Verbose => r.verbose,
    }
}

/// Picks the rendering of a response that the given output mode asks for.
pub fn render_reply(r: &DnsReply, mode: OutputMode) -> (text: String)
    ensures
        text@ == spec_render(r@, mode),
{
    match mode {
        OutputMode::Classic => r.classic.clone(),
        OutputMode::Verbose => r.verbose.clone(),
    }
}

/// What `submitted` is once leading and trailing whitespace is removed.
pub uninterp spec fn trim_of(s: Seq<char>) -> Seq<char>;

/// Relies on str::trim: the result is the argument with leading and trailing
/// whitespace removed.
#[verifier::external_body]
pub(crate) fn trim_str(s: &str) -> (r: &str)
    ensures
        r@ == trim_of(s@),
{
    s.trim()
}

/// How a submitted answer compares to the expected one; `Indeterminate` means
/// the check itself failed and says nothing about the answer.
#[derive(Clone, Copy, PartialEq, Eq, Structural, Debug)]
pub enum ValidationResult {
    Matched,
    NotMatched,
    Indeterminate,
}

/// Whether `s` occurs among `options`.
pub open spec fn contains_text(options: Seq<Seq<char>>, s: Seq<char>) -> bool {
    exists|i: int| 0 <= i < options.len() && options[i] == s
}

/// What validation returns: an exact membership test for a preset answer, and
/// a membership test against the freshly looked-up record texts for a derived
/// one, where a failed lookup (`None`) is indeterminate rather than a
/// mismatch. The submission is compared after trimming.
pub open spec fn spec_validate(
    expected: AnswerView,
    submitted: Seq<char>,
    lookup: Option<Seq<Seq<char>>>,
) -> ValidationResult {
    match expected {
        AnswerView::Preset { options } => if contains_text(options, trim_of(submitted)) {
            ValidationResult::Matched
        } else {
            ValidationResult::NotMatched
        },
        AnswerView::Derived { .. } => match lookup {
            Option::None => ValidationResult::Indeterminate,
            Option::Some(records) => if contains_text(records, trim_of(submitted)) {
                ValidationResult::Matched
            } else {
                ValidationResult::NotMatched
            },
        },
    }
}

/// Whether the trimmed text occurs among the given strings.
fn contains_trimmed(options: &Vec<String>, trimmed: &String) -> (r: bool)
    ensures
        r == contains_text(options@.map_values(|o: String| o@), trimmed@),
{
    let mut i: usize = 0;
    while i < options.len()
        invariant
            i <= options.len(),
            forall|j: int| 0 <= j < i ==> options@[j]@ != trimmed@,
        decreases options.len() - i,
    {
        if options[i].eq(trimmed) {
            assert(options@.map_values(|o: String| o@)[i as int] == trimmed@);
            return true;
        }
        i += 1;
    }
    proof {
        let m = options@.map_values(|o: String| o@);
        assert forall|k: int| 0 <= k < m.len() implies m[k] != trimmed@ by {
            assert(m[k] == options@[k]@);
        }
    }
    false
}

/// Judges a submitted answer against the expected one. A preset answer is an
/// exact membership test and needs no lookup; a derived answer is judged
/// against the record texts of a fresh lookup, handed in by the caller, and
/// is indeterminate when the lookup itself failed.
pub fn validate_answer(expected: &Answer, got: &str, lookup: Option<&Vec<String>>) -> (r:
    ValidationResult)
    ensures
        lookup is None ==> r == spec_validate(expected@, got@, None),
        lookup matches Some(records) ==> r == spec_validate(
            expected@,
            got@,
            Some(records@.map_values(|o: String| o@)),
        ),
{
    let trimmed = String::from_str(trim_str(got));
    match expected {
        Answer::Preset { options } => {
            if contains_trimmed(options, &trimmed) {
                ValidationResult::Matched
            } else {
                ValidationResult::NotMatched
            }
        },
        Answer::Derived { .. } => {
            match lookup {
                Option::None => ValidationResult::Indeterminate,
                Option::Some(records) => {
                    if contains_trimmed(records, &trimmed) {
                        ValidationResult::Matched
                    } else {
                        ValidationResult::NotMatched
                    }
                },
            }
        },
    }
}

/// How many probes the recursion detector sends.
pub const PROBE_COUNT: usize = 8;

/// How many successful probes classify a server as recursive.
pub const SUCCESSES_NEEDED: usize = 4;

/// Whether one probe outcome counts as a success: an answer came back with
/// response code NOERROR and at least one answer record.
pub open spec fn is_probe_success(o: QueryOutcomeView) -> bool {
    match o {
        QueryOutcomeView::Answered(r) => r.rcode == 0 && r.answer_count > 0,
        _ => false,
    }
}

/// Classifies one probe outcome as a success or not.
pub fn probe_success(o: &QueryOutcome) -> (r: bool)
    ensures
        r == is_probe_success(o@),
{
    match o {
        QueryOutcome::Answered(reply) => reply.rcode == 0 && reply.answer_count > 0,
        _ => false,
    }
}

/// The abstract values of a list of outcomes.
pub open spec fn outcome_views(s: Seq<QueryOutcome>) -> Seq<QueryOutcomeView> {
    s.map_values(|o: QueryOutcome| o@)
}

/// How many successes `s` holds from position `i` on.
pub open spec fn success_count_from(s: Seq<QueryOutcomeView>, i: int) -> int
    decreases s.len() - i,
{
    if i < 0 || i >= s.len() {
        0
    } else {
        (if is_probe_success(s[i]) {
            1int
        } else {
            0int
        }) + success_count_from(s, i + 1)
    }
}

/// How many successes `s` holds in all.
pub open spec fn success_count(s: Seq<QueryOutcomeView>) -> int {
    success_count_from(s, 0)
}

/// Walking the outcomes in arrival order with `succ` successes already seen:
/// the decision, and how many outcomes have settled when it is reached. The
/// decision falls the moment the fourth success arrives; outcomes after that
/// point are never examined.
pub open spec fn detect_from(s: Seq<QueryOutcomeView>, i: int, succ: int) -> (bool, int)
    decreases s.len() - i,
{
    if succ >= SUCCESSES_NEEDED {
        (true, i)
    } else if i < 0 || i >= s.len() {
        (false, s.len() as int)
    } else {
        detect_from(s, i + 1, succ + if is_probe_success(s[i]) { 1int } else { 0int })
    }
}

/// A count of successes is never negative.
pub proof fn lemma_success_count_nonneg(s: Seq<QueryOutcomeView>, i: int)
    ensures
        0 <= success_count_from(s, i),
    decreases s.len() - i,
{
    if 0 <= i < s.len() {
        lemma_success_count_nonneg(s, i + 1);
    }
}

/// The decision is positive exactly when enough successes exist at all,
/// wherever they lie in the arrival order.
pub proof fn lemma_detect_counts(s: Seq<QueryOutcomeView>, i: int, succ: int)
    requires
        0 <= i <= s.len(),
    ensures
        detect_from(s, i, succ).0 == (succ + success_count_from(s, i) >= SUCCESSES_NEEDED),
    decreases s.len() - i,
{
    lemma_success_count_nonneg(s, i);
    if succ >= SUCCESSES_NEEDED {
    } else if i >= s.len() {
    } else {
        lemma_detect_counts(s, i + 1, succ + if is_probe_success(s[i]) { 1int } else { 0int });
    }
}

/// A prefix never holds more successes than the whole run: counting from
/// position `j`, the outcomes up to `i` alone reach at most the full count.
proof fn lemma_count_from_prefix(s: Seq<QueryOutcomeView>, i: int, j: int)
    requires
        0 <= j <= i <= s.len(),
    ensures
        success_count_from(s.take(i), j) <= success_count_from(s, j),
    decreases i - j,
{
    if j < i {
        assert(s.take(i)[j] == s[j]);
        lemma_count_from_prefix(s, i, j + 1);
    } else {
        lemma_success_count_nonneg(s, j);
    }
}

/// An early positive decision stands: once four successes have settled among
/// the first outcomes, the whole probe set holds at least four, so the
/// remaining probes can be abandoned without awaiting them.
pub proof fn lemma_early_decision_stands(s: Seq<QueryOutcomeView>, i: int)
    requires
        0 <= i <= s.len(),
        success_count(s.take(i)) >= SUCCESSES_NEEDED,
    ensures
        success_count(s) >= SUCCESSES_NEEDED,
{
    lemma_count_from_prefix(s, i, 0);
}

/// Decides whether a server answered like an open recursive resolver, from
/// the probe outcomes in arrival order. Returns the decision and how many
/// outcomes were examined: a positive decision falls with the fourth success
/// and leaves the remaining probes unexamined, a negative one only once all
/// probes have settled.
pub fn tally_probes(outcomes: &Vec<QueryOutcome>) -> (r: (bool, usize))
    ensures
        (r.0, r.1 as int) == detect_from(outcome_views(outcomes@), 0, 0),
        r.0 == (success_count(outcome_views(outcomes@)) >= SUCCESSES_NEEDED),
        r.1 <= outcomes@.len(),
{
    let ghost s = outcome_views(outcomes@);
    let mut i: usize = 0;
    let mut succ: usize = 0;
    while i < outcomes.len()
        invariant
            i <= outcomes.len(),
            succ < SUCCESSES_NEEDED,
            s == outcome_views(outcomes@),
            detect_from(s, 0, 0) == detect_from(s, i as int, succ as int),
        decreases outcomes.len() - i,
    {
        let ghost i0 = i as int;
        let ghost succ0 = succ as int;
        assert(s[i0] == outcomes@[i0]@);
        if probe_success(&outcomes[i]) {
            succ += 1;
        }
        i += 1;
        proof {
            assert(detect_from(s, i0, succ0) == detect_from(
                s,
                i0 + 1,
                succ0 + if is_probe_success(s[i0]) {
                    1int
                } else {
                    0int
                },
            ));
        }
        if succ >= SUCCESSES_NEEDED {
            proof {
                assert(detect_from(s, i as int, succ as int) == (true, i as int));
                lemma_detect_counts(s, 0, 0);
            }
            return (true, i);
        }
    }
    proof {
        lemma_detect_counts(s, 0, 0);
    }
    (false, outcomes.len())
}

/// Counts probe outcomes as they settle, in whatever order the network
/// delivers them, and holds the running decision of the recursion detector.
pub struct ProbeTally {
    pub successes: u8,
    pub settled: u8,
}

impl ProbeTally {
    /// The successes counted so far.
    pub open spec fn spec_successes(self) -> u8 {
        self.successes
    }

    /// The outcomes settled so far.
    pub open spec fn spec_settled(self) -> u8 {
        self.settled
    }

    /// Counts are consistent: successes never outnumber settled outcomes and
    /// no more than the fixed probe set can settle.
    pub open spec fn wf(self) -> bool {
        self.successes <= self.settled <= PROBE_COUNT
    }

    /// The running decision: recursive once enough successes are in, not
    /// recursive once every probe has settled short of that, open otherwise.
    pub open spec fn spec_decision(self) -> Option<bool> {
        if self.successes >= SUCCESSES_NEEDED {
            Some(true)
        } else if self.settled >= PROBE_COUNT {
            Some(false)
        } else {
            None
        }
    }

    /// A tally with nothing settled yet.
    pub fn new() -> (r: ProbeTally)
        ensures
            r.wf(),
            r.spec_successes() == 0,
            r.spec_settled() == 0,
    {
        ProbeTally { successes: 0, settled: 0 }
    }

    /// Counts one settled probe outcome. Only called while the decision is
    /// still open: once it falls, the remaining probes are abandoned, not
    /// awaited.
    pub fn observe(&mut self, o: &QueryOutcome)
        requires
            old(self).wf(),
            old(self).spec_decision() is None,
        ensures
            final(self).wf(),
            final(self).spec_settled() == old(self).spec_settled() + 1,
            final(self).spec_successes() == old(self).spec_successes() + if is_probe_success(o@) {
                1int
            } else {
                0int
            },
    {
        self.settled += 1;
        if probe_success(o) {
            self.successes += 1;
        }
    }

    /// The running decision.
    pub fn decision(&self) -> (r: Option<bool>)
        ensures
            r == self.spec_decision(),
    {
        if self.successes as usize >= SUCCESSES_NEEDED {
            Some(true)
        } else if self.settled as usize >= PROBE_COUNT {
            Some(false)
        } else {
            None
        }
    }
}

/// The fixed probe list: eight second-level domains across unrelated zones
/// and registries. Answering for one zone it is authoritative for does not
/// make a resolver recursive; answering for most of these does.
pub fn probe_domains() -> (r: Vec<String>)
    ensures
        r@.len() == PROBE_COUNT,
        r@[0]@ == "example.com"@,
        r@[1]@ == "example.net"@,
        r@[2]@ == "example.org"@,
        r@[3]@ == "iana.org"@,
        r@[4]@ == "cctld.ru"@,
        r@[5]@ == "bit.ly"@,
        r@[6]@ == "nih.gov"@,
        r@[7]@ == "github.io"@,
{
    let mut v: Vec<String> = Vec::new();
    v.push(String::from_str("example.com"));
    v.push(String::from_str("example.net"));
    v.push(String::from_str("example.org"));
    v.push(String::from_str("iana.org"));
    v.push(String::from_str("cctld.ru"));
    v.push(String::from_str("bit.ly"));
    v.push(String::from_str("nih.gov"));
    v.push(String::from_str("github.io"));
    v
}

} // verus!

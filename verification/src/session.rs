//! The session state machine: the append-only event log, the output mode,
//! the active question, and the attempt budget, with the four user actions as
//! verified transitions over them.
//!
//! Two points the observed behaviour left open are fixed here. Every action —
//! query, mode switch, answer — is refused while a session is exhausted, as
//! the request layer always refused them. And concurrent actions against one
//! session key are last-write-wins: the persisted record carries no version
//! stamp, so of two racing read-modify-write cycles the later write stands.
use vstd::prelude::*;
use vstd::string::StringExecFns;

use crate::addr::parse_server_addr;
use crate::addr::spec_parse_ip;
use crate::addr::ServerAddr;
use crate::querying::describe_query_error;
use crate::querying::render_reply;
use crate::querying::spec_describe_query_error;
use crate::querying::spec_render;
use crate::querying::spec_validate;
use crate::querying::trim_of;
use crate::querying::QueryError;
use crate::querying::QueryOutcome;
use crate::querying::QueryOutcomeView;
use crate::querying::ValidationResult;
use crate::record::RecordType;

verus! {

/// The two presentation styles a session can render DNS responses in.
#[derive(Clone, Copy, PartialEq, Eq, Structural, Debug)]
pub enum OutputMode {
    Classic,
    Verbose,
}

/// How a submitted answer was judged: correct, incorrect, or not judged at
/// all because the check itself failed.
#[derive(Clone, Copy, PartialEq, Eq, Structural, Debug)]
pub enum AnswerStatus {
    Correct,
    Incorrect,
    Error,
}

/// A point in time, in milliseconds relative to the Unix epoch. Timestamps
/// order log entries for display only; no rule of the session depends on them.
#[derive(Clone, Copy, PartialEq, Eq, Structural, Debug)]
pub struct Timestamp {
    pub millis: i64,
}

/// One DNS query as the user requested it.
#[derive(Debug, PartialEq, Eq)]
pub struct Request {
    pub server_ip: String,
    pub name: String,
    pub record_type: RecordType,
}

/// The abstract value of a [`Request`].
#[verifier::ext_equal]
pub struct RequestView {
    pub server_ip: Seq<char>,
    pub name: Seq<char>,
    pub record_type: RecordType,
}

impl View for Request {
    type V = RequestView;

    open spec fn view(&self) -> RequestView {
        RequestView {
            server_ip: self.server_ip@,
            name: self.name@,
            record_type: self.record_type,
        }
    }
}

/// A rendered DNS response together with the mode it was rendered in.
#[derive(Debug, PartialEq, Eq)]
pub struct Response {
    pub text: String,
    pub mode: OutputMode,
}

/// The abstract value of a [`Response`].
#[verifier::ext_equal]
pub struct ResponseView {
    pub text: Seq<char>,
    pub mode: OutputMode,
}

impl View for Response {
    type V = ResponseView;

    open spec fn view(&self) -> ResponseView {
        ResponseView { text: self.text@, mode: self.mode }
    }
}

/// What a user's query produced: a rendered answer, a transport failure,
/// a refusal because the server resolves recursively, or a refusal because
/// the server address did not parse.
#[derive(Debug, PartialEq, Eq)]
pub enum ResponseResult {
    Answered { resp: Response },
    QueryError { err: String },
    ForbiddenRecursion { addr: ServerAddr },
    InvalidRequestIpAddr { addr: String },
}

/// The abstract value of a [`ResponseResult`].
#[verifier::ext_equal]
pub enum ResponseResultView {
    Answered { resp: ResponseView },
    QueryError { err: Seq<char> },
    ForbiddenRecursion { addr: ServerAddr },
    InvalidRequestIpAddr { addr: Seq<char> },
}

impl View for ResponseResult {
    type V = ResponseResultView;

    open spec fn view(&self) -> ResponseResultView {
        match self {
            ResponseResult::Answered { resp } => ResponseResultView::Answered { resp: resp@ },
            ResponseResult::QueryError { err } => ResponseResultView::QueryError { err: err@ },
            ResponseResult::ForbiddenRecursion { addr } => ResponseResultView::ForbiddenRecursion {
                addr: *addr,
            },
            ResponseResult::InvalidRequestIpAddr { addr } => {
                ResponseResultView::InvalidRequestIpAddr { addr: addr@ }
            },
        }
    }
}

/// One recorded user action.
#[derive(Debug, PartialEq, Eq)]
pub enum Event {
    Request { request: Request, response: ResponseResult },
    SwitchOutputMode { new_mode: OutputMode },
    SubmitAnswer { answer: String, status: AnswerStatus },
}

/// The abstract value of an [`Event`].
#[verifier::ext_equal]
pub enum EventView {
    Request { request: RequestView, response: ResponseResultView },
    SwitchOutputMode { new_mode: OutputMode },
    SubmitAnswer { answer: Seq<char>, status: AnswerStatus },
}

impl View for Event {
    type V = EventView;

    open spec fn view(&self) -> EventView {
        match self {
            Event::Request { request, response } => EventView::Request {
                request: request@,
                response: response@,
            },
            Event::SwitchOutputMode { new_mode } => EventView::SwitchOutputMode {
                new_mode: *new_mode,
            },
            Event::SubmitAnswer { answer, status } => EventView::SubmitAnswer {
                answer: answer@,
                status: *status,
            },
        }
    }
}

/// One entry of the append-only session log.
#[derive(Debug, PartialEq, Eq)]
pub struct RequestLogEntry {
    pub when: Timestamp,
    pub what: Event,
}

/// The abstract value of a [`RequestLogEntry`].
#[verifier::ext_equal]
pub struct RequestLogEntryView {
    pub when: Timestamp,
    pub what: EventView,
}

impl View for RequestLogEntry {
    type V = RequestLogEntryView;

    open spec fn view(&self) -> RequestLogEntryView {
        RequestLogEntryView { when: self.when, what: self.what@ }
    }
}

/// How the correct answer to the active question is determined: a fixed set
/// of accepted strings, or a fresh lookup of a record set at check time.
#[derive(Debug, PartialEq, Eq)]
pub enum Answer {
    Preset { options: Vec<String> },
    Derived { record_type: RecordType, query: String },
}

/// The abstract value of an [`Answer`].
#[verifier::ext_equal]
pub enum AnswerView {
    Preset { options: Seq<Seq<char>> },
    Derived { record_type: RecordType, query: Seq<char> },
}

impl View for Answer {
    type V = AnswerView;

    open spec fn view(&self) -> AnswerView {
        match self {
            Answer::Preset { options } => AnswerView::Preset {
                options: options@.map_values(|o: String| o@),
            },
            Answer::Derived { record_type, query } => AnswerView::Derived {
                record_type: *record_type,
                query: query@,
            },
        }
    }
}

/// The question a session asks its user, with the rule that judges answers.
#[derive(Debug, PartialEq, Eq)]
pub struct Question {
    pub text: String,
    pub answer: Answer,
}

/// The abstract value of a [`Question`].
#[verifier::ext_equal]
pub struct QuestionView {
    pub text: Seq<char>,
    pub answer: AnswerView,
}

impl View for Question {
    type V = QuestionView;

    open spec fn view(&self) -> QuestionView {
        QuestionView { text: self.text@, answer: self.answer@ }
    }
}

/// One user's recorded progress: the append-only log of everything they did,
/// the current output mode, the active question, and the attempt budget.
#[derive(Debug, PartialEq, Eq)]
pub struct Session {
    pub user_requests: Vec<RequestLogEntry>,
    pub current_output_mode: OutputMode,
    pub question: Question,
    pub answers_remaining: u32,
    pub can_answer: bool,
}

/// The abstract value of a [`Session`].
#[verifier::ext_equal]
pub struct SessionView {
    pub user_requests: Seq<RequestLogEntryView>,
    pub current_output_mode: OutputMode,
    pub question: QuestionView,
    pub answers_remaining: u32,
    pub can_answer: bool,
}

impl View for Session {
    type V = SessionView;

    open spec fn view(&self) -> SessionView {
        SessionView {
            user_requests: self.user_requests@.map_values(|e: RequestLogEntry| e@),
            current_output_mode: self.current_output_mode,
            question: self.question@,
            answers_remaining: self.answers_remaining,
            can_answer: self.can_answer,
        }
    }
}

impl SessionView {
    /// A session that still accepts answers always has budget left: the
    /// states are Active (`can_answer` with a positive budget) and Exhausted
    /// (`can_answer` false), and nothing else is reachable.
    pub open spec fn wf(self) -> bool {
        self.can_answer ==> self.answers_remaining > 0
    }

    /// This session with one more entry at the end of its log; everything
    /// else is untouched.
    pub open spec fn with_entry(self, e: RequestLogEntryView) -> SessionView {
        SessionView { user_requests: self.user_requests.push(e), ..self }
    }
}

impl Session {
    /// Whether this session is in one of the two reachable answering states.
    /// Callers outside the library test this before driving transitions on a
    /// freshly loaded record.
    pub fn is_well_formed(&self) -> (r: bool)
        ensures
            r == self@.wf(),
    {
        !self.can_answer || self.answers_remaining > 0
    }
}

/// The response the log records for a completed query: failures keep their
/// diagnostic, a response from a recursive server is refused and its answer
/// discarded, and any other response is rendered under the current mode.
pub open spec fn spec_query_response(
    outcome: QueryOutcomeView,
    recursive: bool,
    addr: ServerAddr,
    mode: OutputMode,
) -> ResponseResultView {
    match outcome {
        QueryOutcomeView::TimedOut => ResponseResultView::QueryError {
            err: spec_describe_query_error(crate::querying::QueryErrorView::Timeout),
        },
        QueryOutcomeView::Unexpected(m) => ResponseResultView::QueryError {
            err: spec_describe_query_error(crate::querying::QueryErrorView::Unexpected(m)),
        },
        QueryOutcomeView::Answered(reply) => if recursive {
            ResponseResultView::ForbiddenRecursion { addr }
        } else {
            ResponseResultView::Answered {
                resp: ResponseView { text: spec_render(reply, mode), mode },
            }
        },
    }
}

/// The Query transition once its network phase has settled: exactly one
/// request event is appended, and mode, question and attempt budget are
/// untouched — a query never consumes an attempt.
pub open spec fn query_outcome_transition(
    v: SessionView,
    request: RequestView,
    addr: ServerAddr,
    outcome: QueryOutcomeView,
    recursive: bool,
    now: Timestamp,
) -> SessionView {
    v.with_entry(
        RequestLogEntryView {
            when: now,
            what: EventView::Request {
                request,
                response: spec_query_response(outcome, recursive, addr, v.current_output_mode),
            },
        },
    )
}

/// The Query transition when the server address did not parse: the failure is
/// recorded as data and nothing else changes; no query is sent at all.
pub open spec fn invalid_query_transition(
    v: SessionView,
    request: RequestView,
    now: Timestamp,
) -> SessionView {
    v.with_entry(
        RequestLogEntryView {
            when: now,
            what: EventView::Request {
                request,
                response: ResponseResultView::InvalidRequestIpAddr { addr: request.server_ip },
            },
        },
    )
}

/// The SetOutputMode transition: the mode is set and the switch is logged;
/// the attempt budget is untouched.
pub open spec fn set_mode_transition(v: SessionView, new_mode: OutputMode, now: Timestamp) -> SessionView {
    SessionView {
        current_output_mode: new_mode,
        user_requests: v.user_requests.push(
            RequestLogEntryView { when: now, what: EventView::SwitchOutputMode { new_mode } },
        ),
        ..v
    }
}

/// The SubmitAnswer transition. A session that no longer accepts answers is
/// left exactly as it is. An indeterminate check is logged as an error and
/// never charges an attempt. A determinate check charges exactly one attempt,
/// logs the judgment, and locks the session once the answer was correct or
/// the budget ran out.
pub open spec fn submit_transition(
    v: SessionView,
    answer: Seq<char>,
    validation: ValidationResult,
    now: Timestamp,
) -> SessionView {
    if !v.can_answer {
        v
    } else if validation is Indeterminate {
        v.with_entry(
            RequestLogEntryView {
                when: now,
                what: EventView::SubmitAnswer { answer, status: AnswerStatus::Error },
            },
        )
    } else {
        let remaining: u32 = if v.answers_remaining > 0 {
            (v.answers_remaining - 1) as u32
        } else {
            0u32
        };
        let status = if validation is Matched {
            AnswerStatus::Correct
        } else {
            AnswerStatus::Incorrect
        };
        SessionView {
            user_requests: v.user_requests.push(
                RequestLogEntryView { when: now, what: EventView::SubmitAnswer { answer, status } },
            ),
            answers_remaining: remaining,
            can_answer: !(validation is Matched || remaining == 0),
            ..v
        }
    }
}

/// Pushing an entry commutes with taking the log's abstract value.
proof fn lemma_log_push(v: Seq<RequestLogEntry>, e: RequestLogEntry)
    ensures
        v.push(e).map_values(|x: RequestLogEntry| x@) == v.map_values(|x: RequestLogEntry| x@).push(
            e@,
        ),
{
    assert(v.push(e).map_values(|x: RequestLogEntry| x@) =~= v.map_values(
        |x: RequestLogEntry| x@,
    ).push(e@));
}

/// What a query action asks its caller to do next.
#[derive(Debug)]
pub enum QueryDirective {
    /// The session no longer accepts actions; nothing was changed.
    Rejected,
    /// The action completed locally and was logged; nothing to send.
    Logged,
    /// Send the query to this address and report back what came of it.
    Probe { addr: ServerAddr, request: Request },
}

/// What a submitted answer asks its caller to do next.
#[derive(Debug)]
pub enum SubmitDirective {
    /// The session no longer accepts answers; nothing was changed.
    Rejected,
    /// The answer was judged without any lookup and the session moved on.
    Logged { status: AnswerStatus },
    /// Look this record set up and hand the record texts back to
    /// [`Session::handle_submit_validated`].
    NeedLookup { record_type: RecordType, query: String },
}

impl Session {
    /// Applies a judged submission: one attempt is charged for a determinate
    /// judgment, none for an indeterminate one, and the session locks once
    /// the answer was correct or the budget ran out.
    fn apply_submit(&mut self, answer: String, validation: ValidationResult, now: Timestamp)
        requires
            old(self)@.wf(),
            old(self).can_answer,
        ensures
            final(self)@ == submit_transition(old(self)@, answer@, validation, now),
    {
        let ghost old_v = self@;
        let ghost ans_v = answer@;
        if matches!(validation, ValidationResult::Indeterminate) {
            let entry = RequestLogEntry {
                when: now,
                what: Event::SubmitAnswer { answer, status: AnswerStatus::Error },
            };
            proof {
                lemma_log_push(self.user_requests@, entry);
            }
            self.user_requests.push(entry);
            assert(self@ =~~= submit_transition(old_v, ans_v, validation, now));
        } else {
            let status = if matches!(validation, ValidationResult::Matched) {
                AnswerStatus::Correct
            } else {
                AnswerStatus::Incorrect
            };
            self.answers_remaining = self.answers_remaining - 1;
            if matches!(validation, ValidationResult::Matched) || self.answers_remaining == 0 {
                self.can_answer = false;
            }
            let entry = RequestLogEntry {
                when: now,
                what: Event::SubmitAnswer { answer, status },
            };
            proof {
                lemma_log_push(self.user_requests@, entry);
            }
            self.user_requests.push(entry);
            assert(self@ =~~= submit_transition(old_v, ans_v, validation, now));
        }
    }

    /// The SetOutputMode action: sets the output mode and logs the switch.
    /// Returns whether the session still accepted actions; when it did not,
    /// nothing was changed.
    pub fn handle_set_output_mode(&mut self, new_mode: OutputMode, now: Timestamp) -> (r: bool)
        requires
            old(self)@.wf(),
        ensures
            final(self)@.wf(),
            r == old(self)@.can_answer,
            r ==> final(self)@ == set_mode_transition(old(self)@, new_mode, now),
            !r ==> final(self)@ == old(self)@,
    {
        if !self.can_answer {
            return false;
        }
        let ghost old_v = self@;
        self.current_output_mode = new_mode;
        let entry = RequestLogEntry { when: now, what: Event::SwitchOutputMode { new_mode } };
        proof {
            lemma_log_push(self.user_requests@, entry);
        }
        self.user_requests.push(entry);
        assert(self@ =~~= set_mode_transition(old_v, new_mode, now));
        true
    }

    /// The SubmitAnswer action. A preset answer is judged on the spot; a
    /// derived one needs a fresh lookup, which the caller performs before
    /// finishing through [`Session::handle_submit_validated`] — the session
    /// is not changed until then.
    pub fn handle_submit_answer(&mut self, text: &str, now: Timestamp) -> (r: SubmitDirective)
        requires
            old(self)@.wf(),
        ensures
            final(self)@.wf(),
            !old(self)@.can_answer <==> r is Rejected,
            r is Rejected ==> final(self)@ == old(self)@,
            r matches SubmitDirective::Logged { status } ==> {
                &&& old(self)@.question.answer is Preset
                &&& final(self)@ == submit_transition(
                    old(self)@,
                    trim_of(text@),
                    spec_validate(old(self)@.question.answer, text@, None),
                    now,
                )
                &&& status == (if spec_validate(old(self)@.question.answer, text@, None)
                    is Matched {
                    AnswerStatus::Correct
                } else {
                    AnswerStatus::Incorrect
                })
            },
            r matches SubmitDirective::NeedLookup { record_type, query } ==> {
                &&& final(self)@ == old(self)@
                &&& old(self)@.question.answer matches AnswerView::Derived {
                    record_type: rt,
                    query: q,
                } && rt == record_type && q == query@
            },
    {
        if !self.can_answer {
            return SubmitDirective::Rejected;
        }
        match &self.question.answer {
            Answer::Derived { record_type, query } => {
                let rt = *record_type;
                let q = query.clone();
                SubmitDirective::NeedLookup { record_type: rt, query: q }
            },
            Answer::Preset { .. } => {
                let validation = crate::querying::validate_answer(
                    &self.question.answer,
                    text,
                    None,
                );
                let status = if matches!(validation, ValidationResult::Matched) {
                    AnswerStatus::Correct
                } else {
                    AnswerStatus::Incorrect
                };
                let trimmed = String::from_str(crate::querying::trim_str(text));
                self.apply_submit(trimmed, validation, now);
                SubmitDirective::Logged { status }
            },
        }
    }

    /// Finishes a SubmitAnswer action once its lookup has been judged.
    /// Returns whether the session still accepted answers; when it did not,
    /// nothing was changed — the lockout is permanent.
    pub fn handle_submit_validated(
        &mut self,
        text: &str,
        validation: ValidationResult,
        now: Timestamp,
    ) -> (r: bool)
        requires
            old(self)@.wf(),
        ensures
            final(self)@.wf(),
            r == old(self)@.can_answer,
            final(self)@ == submit_transition(old(self)@, trim_of(text@), validation, now),
    {
        if !self.can_answer {
            return false;
        }
        let trimmed = String::from_str(crate::querying::trim_str(text));
        self.apply_submit(trimmed, validation, now);
        true
    }

    /// The Query action up to its network phase. The server address and the
    /// queried name are trimmed; then the address must parse. When it does
    /// not, the failure is logged as a recorded outcome — not a fault — and
    /// no query is sent at all. When it does, nothing is changed yet: the
    /// caller sends the query to the returned address and finishes through
    /// [`Session::handle_query_outcome`].
    pub fn handle_query(
        &mut self,
        server_text: &str,
        record_type: RecordType,
        name: &str,
        now: Timestamp,
    ) -> (r: QueryDirective)
        requires
            old(self)@.wf(),
        ensures
            final(self)@.wf(),
            !old(self)@.can_answer <==> r is Rejected,
            r is Rejected ==> final(self)@ == old(self)@,
            r is Logged <==> old(self)@.can_answer && spec_parse_ip(trim_of(server_text@)) is None,
            r is Logged ==> final(self)@ == invalid_query_transition(
                old(self)@,
                (RequestView {
                    server_ip: trim_of(server_text@),
                    name: trim_of(name@),
                    record_type,
                }),
                now,
            ),
            r matches QueryDirective::Probe { addr, request } ==> {
                &&& spec_parse_ip(trim_of(server_text@)) == Some(addr)
                &&& final(self)@ == old(self)@
                &&& request@ == (RequestView {
                    server_ip: trim_of(server_text@),
                    name: trim_of(name@),
                    record_type,
                })
            },
    {
        if !self.can_answer {
            return QueryDirective::Rejected;
        }
        let ip = String::from_str(crate::querying::trim_str(server_text));
        let nm = String::from_str(crate::querying::trim_str(name));
        match parse_server_addr(ip.as_str()) {
            Some(addr) => {
                let request = Request { server_ip: ip, name: nm, record_type };
                QueryDirective::Probe { addr, request }
            },
            None => {
                let ghost old_v = self@;
                let addr_text = ip.clone();
                let request = Request { server_ip: ip, name: nm, record_type };
                let ghost req_v = request@;
                let entry = RequestLogEntry {
                    when: now,
                    what: Event::Request {
                        request,
                        response: ResponseResult::InvalidRequestIpAddr { addr: addr_text },
                    },
                };
                proof {
                    lemma_log_push(self.user_requests@, entry);
                }
                self.user_requests.push(entry);
                assert(self@ =~~= invalid_query_transition(old_v, req_v, now));
                QueryDirective::Logged
            },
        }
    }

    /// Finishes a Query action once its network phase has settled: logs the
    /// recorded response for this request and touches nothing else. A query
    /// never consumes an attempt. The `recursive` answer matters only when
    /// an answer actually came back.
    pub fn handle_query_outcome(
        &mut self,
        request: Request,
        addr: ServerAddr,
        outcome: QueryOutcome,
        recursive: bool,
        now: Timestamp,
    )
        requires
            old(self)@.wf(),
        ensures
            final(self)@.wf(),
            final(self)@ == query_outcome_transition(
                old(self)@,
                request@,
                addr,
                outcome@,
                recursive,
                now,
            ),
    {
        let ghost old_v = self@;
        let ghost req_v = request@;
        let ghost outcome_v = outcome@;
        let response = match outcome {
            QueryOutcome::TimedOut => ResponseResult::QueryError {
                err: describe_query_error(&QueryError::Timeout),
            },
            QueryOutcome::Unexpected(m) => ResponseResult::QueryError {
                err: describe_query_error(&QueryError::Unexpected(m)),
            },
            QueryOutcome::Answered(reply) => {
                if recursive {
                    ResponseResult::ForbiddenRecursion { addr }
                } else {
                    let text = render_reply(&reply, self.current_output_mode);
                    ResponseResult::Answered {
                        resp: Response { text, mode: self.current_output_mode },
                    }
                }
            },
        };
        let entry = RequestLogEntry { when: now, what: Event::Request { request, response } };
        proof {
            lemma_log_push(self.user_requests@, entry);
        }
        self.user_requests.push(entry);
        assert(self@ =~~= query_outcome_transition(old_v, req_v, addr, outcome_v, recursive, now));
    }
}

/// The form a visitor fills on the landing page: the key of the session to
/// open.
#[derive(Debug, PartialEq, Eq)]
pub struct SessionKeyRequest {
    pub key: String,
}

impl SessionKeyRequest {
    /// The path of the session this request asks for.
    pub fn redirect_path(&self) -> (r: String)
        ensures
            r@ == "/"@ + self.key@,
    {
        String::from_str("/").concat(self.key.as_str())
    }
}

/// One submission as the state machine sees it: the trimmed answer text,
/// how the validator judged it, and when it happened.
#[verifier::ext_equal]
pub struct SubmitAttempt {
    pub answer: Seq<char>,
    pub validation: ValidationResult,
    pub now: Timestamp,
}

/// The session after a whole sequence of SubmitAnswer transitions, applied in
/// order.
pub open spec fn apply_submits(v: SessionView, steps: Seq<SubmitAttempt>) -> SessionView
    decreases steps.len(),
{
    if steps.len() == 0 {
        v
    } else {
        apply_submits(
            submit_transition(v, steps[0].answer, steps[0].validation, steps[0].now),
            steps.drop_first(),
        )
    }
}

/// Applying one more submission at the end is the same as applying it to the
/// result of the ones before it.
pub proof fn lemma_apply_submits_snoc(v: SessionView, steps: Seq<SubmitAttempt>, x: SubmitAttempt)
    ensures
        apply_submits(v, steps.push(x)) == submit_transition(
            apply_submits(v, steps),
            x.answer,
            x.validation,
            x.now,
        ),
    decreases steps.len(),
{
    if steps.len() == 0 {
        let w = submit_transition(v, x.answer, x.validation, x.now);
        assert(steps.push(x)[0] == x);
        assert(steps.push(x).drop_first() =~= Seq::<SubmitAttempt>::empty());
        assert(apply_submits(v, steps.push(x)) == apply_submits(
            w,
            Seq::<SubmitAttempt>::empty(),
        ));
        assert(apply_submits(w, Seq::<SubmitAttempt>::empty()) == w);
        assert(apply_submits(v, steps) == v);
    } else {
        let w0 = submit_transition(v, steps[0].answer, steps[0].validation, steps[0].now);
        assert(steps.push(x).drop_first() =~= steps.drop_first().push(x));
        assert(steps.push(x)[0] == steps[0]);
        assert(apply_submits(v, steps.push(x)) == apply_submits(w0, steps.drop_first().push(x)));
        lemma_apply_submits_snoc(w0, steps.drop_first(), x);
        assert(apply_submits(v, steps) == apply_submits(w0, steps.drop_first()));
    }
}

/// One SubmitAnswer transition never increases the attempt budget, and never
/// turns a locked session back into one that accepts answers. The budget is a
/// non-negative machine integer, so it can never fall below zero.
pub proof fn lemma_submit_budget_step(
    v: SessionView,
    answer: Seq<char>,
    validation: ValidationResult,
    now: Timestamp,
)
    ensures
        submit_transition(v, answer, validation, now).answers_remaining <= v.answers_remaining,
        submit_transition(v, answer, validation, now).can_answer ==> v.can_answer,
{
}

/// Over any sequence of SubmitAnswer transitions from any state, the attempt
/// budget is non-increasing: every later point of the sequence has at most
/// the budget of every earlier point.
pub proof fn lemma_submit_budget_non_increasing(
    v: SessionView,
    steps: Seq<SubmitAttempt>,
    i: int,
    j: int,
)
    requires
        0 <= i <= j <= steps.len(),
    ensures
        apply_submits(v, steps.subrange(0, j)).answers_remaining <= apply_submits(
            v,
            steps.subrange(0, i),
        ).answers_remaining,
    decreases j - i,
{
    if i < j {
        lemma_submit_budget_non_increasing(v, steps, i, j - 1);
        let prev = steps.subrange(0, j - 1);
        let x = steps[j - 1];
        assert(steps.subrange(0, j) =~= prev.push(x));
        lemma_apply_submits_snoc(v, prev, x);
        lemma_submit_budget_step(apply_submits(v, prev), x.answer, x.validation, x.now);
    }
}

/// The log is append-only: any sequence of SubmitAnswer transitions leaves
/// every existing entry in place and in order, and only adds to the end.
pub proof fn lemma_submit_log_append_only(v: SessionView, steps: Seq<SubmitAttempt>)
    ensures
        v.user_requests.len() <= apply_submits(v, steps).user_requests.len(),
        apply_submits(v, steps).user_requests.take(v.user_requests.len() as int)
            == v.user_requests,
    decreases steps.len(),
{
    if steps.len() == 0 {
        assert(apply_submits(v, steps).user_requests.take(v.user_requests.len() as int)
            =~= v.user_requests);
    } else {
        let v2 = submit_transition(v, steps[0].answer, steps[0].validation, steps[0].now);
        lemma_submit_log_append_only(v2, steps.drop_first());
        let w = apply_submits(v2, steps.drop_first());
        assert(v2.user_requests.take(v.user_requests.len() as int) =~= v.user_requests);
        assert(w.user_requests.take(v.user_requests.len() as int) =~= w.user_requests.take(
            v2.user_requests.len() as int,
        ).take(v.user_requests.len() as int));
    }
}

/// Lockout is permanent and idempotent: once a session no longer accepts
/// answers, any further sequence of SubmitAnswer transitions leaves it
/// exactly as it is — no budget change, no logged judgment, nothing.
pub proof fn lemma_lockout_permanent(v: SessionView, steps: Seq<SubmitAttempt>)
    requires
        !v.can_answer,
    ensures
        apply_submits(v, steps) == v,
    decreases steps.len(),
{
    if steps.len() > 0 {
        lemma_lockout_permanent(v, steps.drop_first());
    }
}

} // verus!

//! The parser: tokens are converted in order, and the error policy decides
//! what a token that does not convert does to the parse.
use vstd::prelude::*;
use crate::convert::{convert_token, token_converts, ErrorPolicy, ParseError};
use crate::token::{
    closed_tokens, is_delimiter, lemma_extend, lemma_final_delimiter, lemma_only_delimiters,
    lemma_push_byte, open_run, tokens, MAX_TOKEN_LEN,
};

verus! {

/// Whether a parse dropped a token.
#[allow(non_camel_case_types)]
#[derive(Debug, Clone, Copy, PartialEq, Eq, Structural)]
pub enum BS_Error {
    /// Every token was converted.
    NoError,
    /// At least one token did not convert and was dropped.
    DatumDropped,
}

/// Whether `error` ends a parse under `policy`. A token that is too long and
/// a read fault always do; a token that does not convert does so only under
/// the strict policy.
pub open spec fn is_fatal(policy: ErrorPolicy, error: ParseError) -> bool {
    policy is Strict || error is TokenTooLong || error is ReadFailed
}

/// Whether the parse ends with `outcome`.
pub open spec fn stops<T>(policy: ErrorPolicy, outcome: Result<T, ParseError>) -> bool {
    outcome matches Err(error) && is_fatal(policy, error)
}

/// The values among `outcomes`, in order.
pub open spec fn values_of<T>(outcomes: Seq<Result<T, ParseError>>) -> Seq<T>
    decreases outcomes.len(),
{
    if outcomes.len() == 0 {
        Seq::empty()
    } else {
        match outcomes.last() {
            Ok(value) => values_of(outcomes.drop_last()).push(value),
            Err(_) => values_of(outcomes.drop_last()),
        }
    }
}

/// Whether `outcomes` records a run of the parser over `tokens`: the tokens
/// are converted in order, one outcome each, and the run goes on exactly
/// until an outcome stops it or the tokens end.
pub open spec fn conversion_run<T, F: Fn(&str) -> Option<T>>(
    parse_number: F,
    policy: ErrorPolicy,
    tokens: Seq<Seq<u8>>,
    outcomes: Seq<Result<T, ParseError>>,
) -> bool {
    &&& outcomes.len() <= tokens.len()
    &&& forall|k: int|
        #![trigger outcomes[k]]
        0 <= k < outcomes.len() ==> token_converts(parse_number, tokens[k], outcomes[k])
    &&& forall|k: int|
        #![trigger outcomes[k]]
        0 <= k < outcomes.len() - 1 ==> !stops(policy, outcomes[k])
    &&& outcomes.len() < tokens.len() ==> outcomes.len() > 0 && stops(policy, outcomes.last())
}

/// What a run with these outcomes returns: the error that stopped it, or the
/// values in order.
pub open spec fn assembled<T>(policy: ErrorPolicy, outcomes: Seq<Result<T, ParseError>>) -> Result<
    Seq<T>,
    ParseError,
> {
    if outcomes.len() > 0 && stops(policy, outcomes.last()) {
        Err(outcomes.last()->Err_0)
    } else {
        Ok(values_of(outcomes))
    }
}

/// The flag of a run with these outcomes: whether a token was dropped.
pub open spec fn status_of<T>(policy: ErrorPolicy, outcomes: Seq<Result<T, ParseError>>) -> BS_Error {
    if exists|k: int| 0 <= k < outcomes.len() && #[trigger] outcomes[k] is Err && !stops(policy, outcomes[k]) {
        BS_Error::DatumDropped
    } else {
        BS_Error::NoError
    }
}

/// Whether `result` and `status` are a possible end of parsing `bytes`: some
/// run over the tokens of `bytes` returns them.
pub open spec fn parse_outcome<T, F: Fn(&str) -> Option<T>>(
    parse_number: F,
    policy: ErrorPolicy,
    bytes: Seq<u8>,
    result: Result<Seq<T>, ParseError>,
    status: BS_Error,
) -> bool {
    exists|outcomes: Seq<Result<T, ParseError>>| #[trigger]
        conversion_run(parse_number, policy, tokens(bytes), outcomes) && result == assembled(
            policy,
            outcomes,
        ) && status == status_of(policy, outcomes)
}

/// The sample of a result, as a sequence.
pub open spec fn sample_view<T>(result: Result<Vec<T>, ParseError>) -> Result<Seq<T>, ParseError> {
    match result {
        Ok(sample) => Ok(sample@),
        Err(error) => Err(error),
    }
}

/// What the byte source reported.
pub enum SourceEvent<'a> {
    /// The next bytes of the stream.
    Data(&'a [u8]),
    /// The stream has ended.
    End,
    /// Reading failed.
    Failed,
}

/// How a parse ended.
pub struct ParseReport<T> {
    /// The sample, or the error that ended the parse.
    pub result: Result<Vec<T>, ParseError>,
    /// Whether a token was dropped before the parse ended.
    pub status: BS_Error,
}

/// A parse in progress. It holds the values converted so far and the bytes
/// of the token that is still open; the byte source stays with the caller,
/// who hands over one event at a time.
#[verifier::reject_recursive_types(T)]
#[verifier::reject_recursive_types(F)]
pub struct Parser<T, F: Fn(&str) -> Option<T>> {
    parse_number: F,
    policy: ErrorPolicy,
    pending: Vec<u8>,
    sample: Vec<T>,
    status: BS_Error,
    seen: Ghost<Seq<u8>>,
    outcomes: Ghost<Seq<Result<T, ParseError>>>,
}

/// What the parser does after an event.
#[verifier::reject_recursive_types(T)]
#[verifier::reject_recursive_types(F)]
pub enum Step<T, F: Fn(&str) -> Option<T>> {
    /// It waits for the next event.
    Continue(Parser<T, F>),
    /// The parse is over.
    Done(ParseReport<T>),
}

/// What holds of a parse that has consumed `seen` and has not stopped:
/// `outcomes` are the outcomes of the closed tokens, `pending` is the open
/// run, `sample` and `status` are what the outcomes give.
pub open spec fn in_progress<T, F: Fn(&str) -> Option<T>>(
    parse_number: F,
    policy: ErrorPolicy,
    seen: Seq<u8>,
    outcomes: Seq<Result<T, ParseError>>,
    pending: Seq<u8>,
    sample: Seq<T>,
    status: BS_Error,
) -> bool {
    &&& forall|text: &str| call_requires(parse_number, (text,))
    &&& pending == open_run(seen)
    &&& pending.len() <= MAX_TOKEN_LEN
    &&& outcomes.len() == closed_tokens(seen).len()
    &&& forall|k: int|
        #![trigger outcomes[k]]
        0 <= k < outcomes.len() ==> token_converts(parse_number, closed_tokens(seen)[k], outcomes[k])
            && !stops(policy, outcomes[k])
    &&& sample == values_of(outcomes)
    &&& status == status_of(policy, outcomes)
}

/// One more outcome adds its value, if it has one, to the values.
pub proof fn lemma_values_push<T>(outcomes: Seq<Result<T, ParseError>>, outcome: Result<T, ParseError>)
    ensures
        values_of(outcomes.push(outcome)) == match outcome {
            Ok(value) => values_of(outcomes).push(value),
            Err(_) => values_of(outcomes),
        },
{
    assert(outcomes.push(outcome).drop_last() =~= outcomes);
}

/// One more outcome sets the flag exactly where it is a dropped token.
pub proof fn lemma_status_push<T>(
    policy: ErrorPolicy,
    outcomes: Seq<Result<T, ParseError>>,
    outcome: Result<T, ParseError>,
)
    ensures
        status_of(policy, outcomes.push(outcome)) == if outcome is Err && !stops(policy, outcome) {
            BS_Error::DatumDropped
        } else {
            status_of(policy, outcomes)
        },
{
    let longer = outcomes.push(outcome);
    if outcome is Err && !stops(policy, outcome) {
        assert(longer[outcomes.len() as int] is Err);
    } else if status_of(policy, outcomes) == BS_Error::DatumDropped {
        let k = choose|k: int| 0 <= k < outcomes.len() && #[trigger] outcomes[k] is Err && !stops(policy, outcomes[k]);
        assert(longer[k] is Err && !stops(policy, longer[k]));
    } else {
        assert forall|k: int| 0 <= k < longer.len() && #[trigger] longer[k] is Err implies stops(
            policy,
            longer[k],
        ) by {
            if k < outcomes.len() {
                assert(outcomes[k] is Err);
            }
        }
    }
}

/// A parse that has stopped within `seen` has stopped for every input that
/// begins with `seen`. It stops where the last outcome stops it, and that
/// outcome belongs either to the last token closed within `seen` or to the
/// run that `seen` leaves open, which is then already too long.
pub proof fn lemma_stopped<T, F: Fn(&str) -> Option<T>>(
    parse_number: F,
    policy: ErrorPolicy,
    seen: Seq<u8>,
    outcomes: Seq<Result<T, ParseError>>,
    rest: Seq<u8>,
)
    requires
        outcomes.len() > 0,
        stops(policy, outcomes.last()),
        forall|k: int| #![trigger outcomes[k]] 0 <= k < outcomes.len() - 1 ==> !stops(policy, outcomes[k]),
        forall|k: int|
            #![trigger outcomes[k]]
            0 <= k < outcomes.len() && k < closed_tokens(seen).len() ==> token_converts(
                parse_number,
                closed_tokens(seen)[k],
                outcomes[k],
            ),
        outcomes.len() == closed_tokens(seen).len() || (outcomes.len() == closed_tokens(seen).len() + 1
            && open_run(seen).len() > MAX_TOKEN_LEN && outcomes.last() == Err::<T, ParseError>(
            ParseError::TokenTooLong,
        )),
    ensures
        conversion_run(parse_number, policy, tokens(seen + rest), outcomes),
{
    lemma_extend(seen, rest);
    let all = tokens(seen + rest);
    let closed = closed_tokens(seen);
    assert forall|k: int| #![trigger outcomes[k]] 0 <= k < outcomes.len() implies token_converts(
        parse_number,
        all[k],
        outcomes[k],
    ) by {
        if k < closed.len() {
            assert(closed_tokens(seen + rest)[k] == closed[k]);
            assert(all[k] == closed[k]);
        } else {
            assert(all[k].len() > MAX_TOKEN_LEN);
        }
    }
}

impl<T, F: Fn(&str) -> Option<T>> Parser<T, F> {
    #[verifier::type_invariant]
    spec fn well_formed(&self) -> bool {
        in_progress(
            self.parse_number,
            self.policy,
            self.seen@,
            self.outcomes@,
            self.pending@,
            self.sample@,
            self.status,
        )
    }

    /// The bytes consumed so far.
    pub closed spec fn seen(&self) -> Seq<u8> {
        self.seen@
    }

    /// The error policy of this parse.
    pub closed spec fn policy(&self) -> ErrorPolicy {
        self.policy
    }

    /// The number parser of this parse.
    pub closed spec fn number_parser(&self) -> F {
        self.parse_number
    }

    /// Whether a token has been dropped so far.
    pub closed spec fn spec_status(&self) -> BS_Error {
        self.status
    }

    /// Whether a token has been dropped so far: the flag of the outcomes of
    /// the tokens that have been closed.
    pub fn status(&self) -> (status: BS_Error)
        ensures
            status == self.spec_status(),
            exists|outcomes: Seq<Result<T, ParseError>>| #[trigger]
                in_progress(
                    self.number_parser(),
                    self.policy(),
                    self.seen(),
                    outcomes,
                    open_run(self.seen()),
                    values_of(outcomes),
                    status,
                ),
    {
        proof {
            use_type_invariant(self);
            assert(in_progress(
                self.number_parser(),
                self.policy(),
                self.seen(),
                self.outcomes@,
                open_run(self.seen()),
                values_of(self.outcomes@),
                self.status,
            ));
        }
        self.status
    }

    /// A parser that has consumed nothing.
    pub fn new(policy: ErrorPolicy, parse_number: F) -> (parser: Self)
        requires
            forall|text: &str| call_requires(parse_number, (text,)),
        ensures
            parser.seen() == Seq::<u8>::empty(),
            parser.policy() == policy,
            parser.number_parser() == parse_number,
            parser.spec_status() == BS_Error::NoError,
    {
        Parser {
            parse_number,
            policy,
            pending: Vec::new(),
            sample: Vec::new(),
            status: BS_Error::NoError,
            seen: Ghost(Seq::empty()),
            outcomes: Ghost(Seq::empty()),
        }
    }
    /// Consumes the next bytes of the stream. The parser comes back unless
    /// the parse has stopped within them.
    fn feed(self, chunk: &[u8]) -> (next: Result<Self, ParseReport<T>>)
        ensures
            data_step(self, chunk@, next),
    {
        proof {
            use_type_invariant(&self);
        }
        let ghost start = self.seen@;
        let Parser { parse_number, policy, mut pending, mut sample, mut status, seen, outcomes } = self;
        let ghost mut now = start;
        let ghost mut outs = outcomes@;
        let mut i: usize = 0;
        while i < chunk.len()
            invariant
                i <= chunk.len(),
                now == start + chunk@.take(i as int),
                in_progress(parse_number, policy, now, outs, pending@, sample@, status),
                parse_number == self.number_parser(),
                policy == self.policy(),
                start == self.seen(),
            decreases chunk.len() - i,
        {
            let byte = chunk[i];
            proof {
                lemma_push_byte(now, byte);
                assert(start + chunk@.take(i + 1) =~= now.push(byte));
            }
            if is_delimiter(byte) {
                if pending.len() > 0 {
                    let outcome = convert_token(&parse_number, pending.as_slice());
                    let ghost longer = outs.push(outcome);
                    proof {
                        lemma_values_push(outs, outcome);
                        lemma_status_push(policy, outs, outcome);
                    }
                    match outcome {
                        Ok(value) => {
                            sample.push(value);
                        },
                        Err(error) => {
                            if fatal(policy, error) {
                                proof {
                                    assert forall|rest: Seq<u8>| #[trigger]
                                        parse_outcome(
                                            parse_number,
                                            policy,
                                            start + chunk@ + rest,
                                            Err::<Seq<T>, ParseError>(error),
                                            status,
                                        ) by {
                                        let tail = chunk@.skip(i + 1) + rest;
                                        lemma_stopped(parse_number, policy, now.push(byte), longer, tail);
                                        assert(start + chunk@ + rest =~= now.push(byte) + tail);
                                    }
                                }
                                return Err(ParseReport { result: Err(error), status });
                            }
                            status = BS_Error::DatumDropped;
                        },
                    }
                    proof {
                        outs = longer;
                    }
                    pending.clear();
                }
            } else {
                if pending.len() >= MAX_TOKEN_LEN {
                    proof {
                        let outcome = Err::<T, ParseError>(ParseError::TokenTooLong);
                        let longer = outs.push(outcome);
                        lemma_status_push(policy, outs, outcome);
                        assert forall|rest: Seq<u8>| #[trigger]
                            parse_outcome(
                                parse_number,
                                policy,
                                start + chunk@ + rest,
                                Err::<Seq<T>, ParseError>(ParseError::TokenTooLong),
                                status,
                            ) by {
                            let tail = chunk@.skip(i + 1) + rest;
                            lemma_stopped(parse_number, policy, now.push(byte), longer, tail);
                            assert(start + chunk@ + rest =~= now.push(byte) + tail);
                        }
                    }
                    return Err(ParseReport { result: Err(ParseError::TokenTooLong), status });
                }
                pending.push(byte);
            }
            proof {
                now = now.push(byte);
            }
            i += 1;
        }
        proof {
            assert(chunk@.take(chunk@.len() as int) =~= chunk@);
        }
        Ok(Parser { parse_number, policy, pending, sample, status, seen: Ghost(now), outcomes: Ghost(outs) })
    }

    /// Ends the parse at the end of the stream: the open run, if there is
    /// one, is the last token.
    fn finish(self) -> (report: ParseReport<T>)
        ensures
            parse_outcome(
                self.number_parser(),
                self.policy(),
                self.seen(),
                sample_view(report.result),
                report.status,
            ),
    {
        proof {
            use_type_invariant(&self);
        }
        let Parser { parse_number, policy, pending, mut sample, mut status, seen, outcomes } = self;
        let ghost mut outs = outcomes@;
        if pending.len() > 0 {
            let outcome = convert_token(&parse_number, pending.as_slice());
            proof {
                lemma_values_push(outs, outcome);
                lemma_status_push(policy, outs, outcome);
                outs = outs.push(outcome);
            }
            match outcome {
                Ok(value) => {
                    sample.push(value);
                },
                Err(error) => {
                    if fatal(policy, error) {
                        proof {
                            assert(conversion_run(parse_number, policy, tokens(seen@), outs));
                        }
                        return ParseReport { result: Err(error), status };
                    }
                    status = BS_Error::DatumDropped;
                },
            }
        }
        proof {
            assert(conversion_run(parse_number, policy, tokens(seen@), outs));
        }
        ParseReport { result: Ok(sample), status }
    }

    /// Takes one event from the byte source and says how the parse goes on.
    /// Data is consumed, the end of the stream closes the last token, and a
    /// read fault ends the parse whatever the policy.
    pub fn step(self, event: SourceEvent<'_>) -> (next: Step<T, F>)
        ensures
            match event {
                SourceEvent::Data(chunk) => data_step(self, chunk@, step_result(next)),
                SourceEvent::End => next matches Step::Done(report) && parse_outcome(
                    self.number_parser(),
                    self.policy(),
                    self.seen(),
                    sample_view(report.result),
                    report.status,
                ),
                SourceEvent::Failed => next matches Step::Done(report) && report.result matches Err(error)
                    && error == ParseError::ReadFailed && report.status == self.spec_status(),
            },
    {
        match event {
            SourceEvent::Data(chunk) => match self.feed(chunk) {
                Ok(parser) => Step::Continue(parser),
                Err(report) => Step::Done(report),
            },
            SourceEvent::End => Step::Done(self.finish()),
            SourceEvent::Failed => Step::Done(ParseReport { result: Err(ParseError::ReadFailed), status: self.status }),
        }
    }
}

/// Whether `error` ends a parse under `policy`.
fn fatal(policy: ErrorPolicy, error: ParseError) -> (r: bool)
    ensures
        r == is_fatal(policy, error),
{
    match policy {
        ErrorPolicy::Strict => true,
        ErrorPolicy::Permissive => match error {
            ParseError::TokenTooLong => true,
            ParseError::ReadFailed => true,
            _ => false,
        },
    }
}

/// A step as a result: the parser that goes on, or the report of the parse
/// that is over.
pub open spec fn step_result<T, F: Fn(&str) -> Option<T>>(step: Step<T, F>) -> Result<Parser<T, F>, ParseReport<T>> {
    match step {
        Step::Continue(parser) => Ok(parser),
        Step::Done(report) => Err(report),
    }
}

/// What consuming `chunk` does to `parser`. Either the parse goes on, with
/// `chunk` added to what it has consumed; or it has stopped with an error,
/// and then no input that could follow `chunk` would have changed that.
pub open spec fn data_step<T, F: Fn(&str) -> Option<T>>(
    parser: Parser<T, F>,
    chunk: Seq<u8>,
    next: Result<Parser<T, F>, ParseReport<T>>,
) -> bool {
    match next {
        Ok(later) => later.seen() == parser.seen() + chunk && later.policy() == parser.policy()
            && later.number_parser() == parser.number_parser(),
        Err(report) => report.result is Err && forall|rest: Seq<u8>| #[trigger]
            parse_outcome(
                parser.number_parser(),
                parser.policy(),
                parser.seen() + chunk + rest,
                sample_view(report.result),
                report.status,
            ),
    }
}

/// Parses `source` into a sample. The tokens of `source` are converted in
/// order with `parse_number`; `err` says afterwards whether a token was
/// dropped.
pub fn get_sample<T, F: Fn(&str) -> Option<T>>(
    source: &[u8],
    policy: ErrorPolicy,
    parse_number: F,
    err: &mut BS_Error,
) -> (r: Result<Vec<T>, ParseError>)
    requires
        forall|text: &str| call_requires(parse_number, (text,)),
    ensures
        parse_outcome(parse_number, policy, source@, sample_view(r), *final(err)),
{
    let parser = Parser::new(policy, parse_number);
    let report = match parser.feed(source) {
        Ok(later) => {
            proof {
                assert(Seq::<u8>::empty() + source@ =~= source@);
            }
            later.finish()
        },
        Err(report) => {
            proof {
                assert(Seq::<u8>::empty() + source@ + Seq::<u8>::empty() =~= source@);
            }
            report
        },
    };
    *err = report.status;
    report.result
}

/// Where every outcome is a value, the values are the outcomes, one for one.
pub proof fn lemma_values_all_converted<T>(outcomes: Seq<Result<T, ParseError>>)
    requires
        forall|k: int| 0 <= k < outcomes.len() ==> #[trigger] outcomes[k] is Ok,
    ensures
        values_of(outcomes).len() == outcomes.len(),
        forall|k: int| 0 <= k < outcomes.len() ==> #[trigger] values_of(outcomes)[k] == outcomes[k]->Ok_0,
    decreases outcomes.len(),
{
    if outcomes.len() > 0 {
        let before = outcomes.drop_last();
        assert forall|k: int| 0 <= k < before.len() implies #[trigger] before[k] is Ok by {
            assert(outcomes[k] is Ok);
        }
        lemma_values_all_converted(before);
        assert(outcomes.last() is Ok);
    }
}

/// Where every outcome but the one at `at` is a value, the values are the
/// other outcomes, in order.
pub proof fn lemma_values_one_dropped<T>(outcomes: Seq<Result<T, ParseError>>, at: int)
    requires
        0 <= at < outcomes.len(),
        outcomes[at] is Err,
        forall|k: int| 0 <= k < outcomes.len() && k != at ==> #[trigger] outcomes[k] is Ok,
    ensures
        values_of(outcomes).len() == outcomes.len() - 1,
        forall|k: int| 0 <= k < at ==> #[trigger] values_of(outcomes)[k] == outcomes[k]->Ok_0,
        forall|k: int|
            at <= k < outcomes.len() - 1 ==> #[trigger] values_of(outcomes)[k] == outcomes[k + 1]->Ok_0,
    decreases outcomes.len(),
{
    let before = outcomes.drop_last();
    if at == outcomes.len() - 1 {
        assert forall|k: int| 0 <= k < before.len() implies #[trigger] before[k] is Ok by {
            assert(outcomes[k] is Ok);
        }
        lemma_values_all_converted(before);
    } else {
        assert forall|k: int| 0 <= k < before.len() && k != at implies #[trigger] before[k] is Ok by {
            assert(outcomes[k] is Ok);
        }
        lemma_values_one_dropped(before, at);
        assert(outcomes.last() is Ok) by {
            assert(outcomes[outcomes.len() - 1] is Ok);
        }
    }
}

/// Input that holds nothing but delimiters parses to the empty sample, under
/// either policy, and nothing is dropped.
pub proof fn lemma_only_delimiters_parse<T, F: Fn(&str) -> Option<T>>(
    parse_number: F,
    policy: ErrorPolicy,
    bytes: Seq<u8>,
    result: Result<Seq<T>, ParseError>,
    status: BS_Error,
)
    requires
        forall|i: int| 0 <= i < bytes.len() ==> is_delimiter(#[trigger] bytes[i]),
        parse_outcome(parse_number, policy, bytes, result, status),
    ensures
        result == Ok::<Seq<T>, ParseError>(Seq::empty()),
        status == BS_Error::NoError,
{
    lemma_only_delimiters(bytes);
    let outcomes = choose|outcomes: Seq<Result<T, ParseError>>| #[trigger]
        conversion_run(parse_number, policy, tokens(bytes), outcomes) && result == assembled(policy, outcomes)
            && status == status_of(policy, outcomes);
    assert(outcomes =~= Seq::empty());
    assert(values_of(outcomes) =~= Seq::empty());
}

/// Input whose every token converts parses to one value for each token, in
/// the order of the tokens, and nothing is dropped.
pub proof fn lemma_well_formed_parse<T, F: Fn(&str) -> Option<T>>(
    parse_number: F,
    policy: ErrorPolicy,
    bytes: Seq<u8>,
    result: Result<Seq<T>, ParseError>,
    status: BS_Error,
)
    requires
        forall|k: int, outcome: Result<T, ParseError>|
            0 <= k < tokens(bytes).len() && #[trigger] token_converts(parse_number, tokens(bytes)[k], outcome)
                ==> outcome is Ok,
        parse_outcome(parse_number, policy, bytes, result, status),
    ensures
        result is Ok,
        result->Ok_0.len() == tokens(bytes).len(),
        forall|k: int|
            #![trigger result->Ok_0[k]]
            0 <= k < tokens(bytes).len() ==> token_converts(
                parse_number,
                tokens(bytes)[k],
                Ok::<T, ParseError>(result->Ok_0[k]),
            ),
        status == BS_Error::NoError,
{
    let outcomes = choose|outcomes: Seq<Result<T, ParseError>>| #[trigger]
        conversion_run(parse_number, policy, tokens(bytes), outcomes) && result == assembled(policy, outcomes)
            && status == status_of(policy, outcomes);
    assert forall|k: int| 0 <= k < outcomes.len() implies #[trigger] outcomes[k] is Ok by {
        assert(token_converts(parse_number, tokens(bytes)[k], outcomes[k]));
    }
    lemma_values_all_converted(outcomes);
    if outcomes.len() > 0 {
        assert(outcomes[outcomes.len() - 1] is Ok);
    }
    assert forall|k: int| #![trigger result->Ok_0[k]] 0 <= k < tokens(bytes).len() implies token_converts(
        parse_number,
        tokens(bytes)[k],
        Ok::<T, ParseError>(result->Ok_0[k]),
    ) by {
        assert(token_converts(parse_number, tokens(bytes)[k], outcomes[k]));
        assert(values_of(outcomes)[k] == outcomes[k]->Ok_0);
    }
}

/// A token within the length limit is never refused for its length.
pub proof fn lemma_within_limit<T, F: Fn(&str) -> Option<T>>(parse_number: F, token: Seq<u8>)
    requires
        token.len() <= MAX_TOKEN_LEN,
    ensures
        !token_converts(parse_number, token, Err::<T, ParseError>(ParseError::TokenTooLong)),
{
}

/// A token beyond the length limit ends the parse with `TokenTooLong`, under
/// either policy, where the parse gets as far as that token.
pub proof fn lemma_token_too_long<T, F: Fn(&str) -> Option<T>>(
    parse_number: F,
    policy: ErrorPolicy,
    bytes: Seq<u8>,
    at: int,
    result: Result<Seq<T>, ParseError>,
    status: BS_Error,
)
    requires
        0 <= at < tokens(bytes).len(),
        tokens(bytes)[at].len() > MAX_TOKEN_LEN,
        forall|k: int, outcome: Result<T, ParseError>|
            0 <= k < at && #[trigger] token_converts(parse_number, tokens(bytes)[k], outcome) ==> !stops(
                policy,
                outcome,
            ),
        parse_outcome(parse_number, policy, bytes, result, status),
    ensures
        result == Err::<Seq<T>, ParseError>(ParseError::TokenTooLong),
{
    let outcomes = choose|outcomes: Seq<Result<T, ParseError>>| #[trigger]
        conversion_run(parse_number, policy, tokens(bytes), outcomes) && result == assembled(policy, outcomes)
            && status == status_of(policy, outcomes);
    if outcomes.len() <= at {
        assert(token_converts(parse_number, tokens(bytes)[outcomes.len() - 1], outcomes[outcomes.len() - 1]));
    } else {
        assert(token_converts(parse_number, tokens(bytes)[at], outcomes[at]));
        assert(stops(policy, outcomes[at]));
    }
}

/// Under the strict policy the first token that does not convert ends the
/// parse with its own error.
pub proof fn lemma_strict_fails_fast<T, F: Fn(&str) -> Option<T>>(
    parse_number: F,
    bytes: Seq<u8>,
    at: int,
    result: Result<Seq<T>, ParseError>,
    status: BS_Error,
)
    requires
        0 <= at < tokens(bytes).len(),
        forall|k: int, outcome: Result<T, ParseError>|
            0 <= k < at && #[trigger] token_converts(parse_number, tokens(bytes)[k], outcome)
                ==> outcome is Ok,
        forall|outcome: Result<T, ParseError>| #[trigger]
            token_converts(parse_number, tokens(bytes)[at], outcome) ==> outcome is Err,
        parse_outcome(parse_number, ErrorPolicy::Strict, bytes, result, status),
    ensures
        result is Err,
        token_converts(parse_number, tokens(bytes)[at], Err::<T, ParseError>(result->Err_0)),
        status == BS_Error::NoError,
{
    let policy = ErrorPolicy::Strict;
    let outcomes = choose|outcomes: Seq<Result<T, ParseError>>| #[trigger]
        conversion_run(parse_number, policy, tokens(bytes), outcomes) && result == assembled(policy, outcomes)
            && status == status_of(policy, outcomes);
    if outcomes.len() <= at {
        assert(token_converts(parse_number, tokens(bytes)[outcomes.len() - 1], outcomes[outcomes.len() - 1]));
    } else {
        assert(token_converts(parse_number, tokens(bytes)[at], outcomes[at]));
        assert(stops(policy, outcomes[at]));
        assert(outcomes[at] == Err::<T, ParseError>(result->Err_0));
    }
}

/// Under the permissive policy one token that does not convert, among
/// tokens that all do, is left out: the sample holds the values of the other
/// tokens in order, and the flag says that a token was dropped.
pub proof fn lemma_permissive_drops_one<T, F: Fn(&str) -> Option<T>>(
    parse_number: F,
    bytes: Seq<u8>,
    at: int,
    result: Result<Seq<T>, ParseError>,
    status: BS_Error,
)
    requires
        0 <= at < tokens(bytes).len(),
        tokens(bytes)[at].len() <= MAX_TOKEN_LEN,
        forall|k: int, outcome: Result<T, ParseError>|
            0 <= k < tokens(bytes).len() && k != at && #[trigger] token_converts(
                parse_number,
                tokens(bytes)[k],
                outcome,
            ) ==> outcome is Ok,
        forall|outcome: Result<T, ParseError>| #[trigger]
            token_converts(parse_number, tokens(bytes)[at], outcome) ==> outcome is Err,
        parse_outcome(parse_number, ErrorPolicy::Permissive, bytes, result, status),
    ensures
        result is Ok,
        status == BS_Error::DatumDropped,
        result->Ok_0.len() == tokens(bytes).len() - 1,
        forall|k: int|
            #![trigger result->Ok_0[k]]
            0 <= k < at ==> token_converts(parse_number, tokens(bytes)[k], Ok::<T, ParseError>(result->Ok_0[k])),
        forall|k: int|
            #![trigger result->Ok_0[k]]
            at <= k < tokens(bytes).len() - 1 ==> token_converts(
                parse_number,
                tokens(bytes)[k + 1],
                Ok::<T, ParseError>(result->Ok_0[k]),
            ),
{
    let policy = ErrorPolicy::Permissive;
    let all = tokens(bytes);
    let outcomes = choose|outcomes: Seq<Result<T, ParseError>>| #[trigger]
        conversion_run(parse_number, policy, all, outcomes) && result == assembled(policy, outcomes) && status
            == status_of(policy, outcomes);
    assert forall|k: int| 0 <= k < outcomes.len() implies !stops(policy, #[trigger] outcomes[k]) by {
        assert(token_converts(parse_number, all[k], outcomes[k]));
    }
    if outcomes.len() > 0 {
        assert(!stops(policy, outcomes[outcomes.len() - 1]));
    }
    assert(outcomes.len() == all.len());
    assert(token_converts(parse_number, all[at], outcomes[at]));
    assert forall|k: int| 0 <= k < outcomes.len() && k != at implies #[trigger] outcomes[k] is Ok by {
        assert(token_converts(parse_number, all[k], outcomes[k]));
    }
    lemma_values_one_dropped(outcomes, at);
    assert forall|k: int| #![trigger result->Ok_0[k]] 0 <= k < at implies token_converts(
        parse_number,
        all[k],
        Ok::<T, ParseError>(result->Ok_0[k]),
    ) by {
        assert(token_converts(parse_number, all[k], outcomes[k]));
        assert(values_of(outcomes)[k] == outcomes[k]->Ok_0);
    }
    assert forall|k: int| #![trigger result->Ok_0[k]] at <= k < all.len() - 1 implies token_converts(
        parse_number,
        all[k + 1],
        Ok::<T, ParseError>(result->Ok_0[k]),
    ) by {
        assert(token_converts(parse_number, all[k + 1], outcomes[k + 1]));
        assert(values_of(outcomes)[k] == outcomes[k + 1]->Ok_0);
    }
}

/// Input without a final delimiter parses as it would with one: the end of
/// the input closes the last token.
pub proof fn lemma_final_delimiter_parse<T, F: Fn(&str) -> Option<T>>(
    parse_number: F,
    policy: ErrorPolicy,
    bytes: Seq<u8>,
    delimiter: u8,
    result: Result<Seq<T>, ParseError>,
    status: BS_Error,
)
    requires
        is_delimiter(delimiter),
    ensures
        parse_outcome(parse_number, policy, bytes.push(delimiter), result, status) == parse_outcome(
            parse_number,
            policy,
            bytes,
            result,
            status,
        ),
{
    lemma_final_delimiter(bytes, delimiter);
}

} // verus!

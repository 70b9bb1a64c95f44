//! Preparing article text for embedding, and the decisions of the
//! embeddings API client and batch pipeline.
use std::borrow::Cow;

use vstd::prelude::*;
use vstd::string::StringSliceAdditionalSpecFns;
use vstd::utf8::{encode_utf8, is_char_boundary, valid_utf8};

use crate::chars::{chars_of, push_char};
use crate::unicode::{char_is_control, is_control_code};

verus! {

broadcast use vstd::utf8::group_utf8_lib;

/// Approximate chars-per-token ratio for truncation.
pub const CHARS_PER_TOKEN: usize = 4;

/// Default context window in tokens.
pub const DEFAULT_MAX_TOKENS: usize = 8192;

/// Default max input length (in bytes of UTF-8).
pub const DEFAULT_MAX_INPUT_CHARS: usize = 32768;

// ── Text preparation ────────────────────────────────────────────────

/// A character survives sanitising unless it is a control code other than
/// newline, tab or carriage return.
pub open spec fn keeps_char(c: char) -> bool {
    !is_control_code(c) || c == '\n' || c == '\t' || c == '\r'
}

/// `s` with every character that `keeps_char` rejects removed.
pub open spec fn sanitized(s: Seq<char>) -> Seq<char>
    decreases s.len(),
{
    if s.len() == 0 {
        Seq::empty()
    } else {
        let rest = sanitized(s.drop_last());
        if keeps_char(s.last()) {
            rest.push(s.last())
        } else {
            rest
        }
    }
}

/// The raw text of an article before sanitising: the title, followed by a
/// blank line and the content when there is non-empty content.
pub open spec fn article_raw_text(title: Seq<char>, content: Option<Seq<char>>) -> Seq<char> {
    match content {
        Some(c) if c.len() > 0 => title + seq!['\n', '\n'] + c,
        _ => title,
    }
}

/// Appends the characters of `v` that `keeps_char` accepts.
fn push_sanitized(out: &mut String, v: &Vec<char>)
    ensures
        final(out)@ == old(out)@ + sanitized(v@),
{
    let mut i: usize = 0;
    while i < v.len()
        invariant
            i <= v@.len(),
            out@ == old(out)@ + sanitized(v@.take(i as int)),
        decreases v@.len() - i,
    {
        let c = v[i];
        assert(v@.take(i + 1).drop_last() =~= v@.take(i as int));
        if !char_is_control(c) || c == '\n' || c == '\t' || c == '\r' {
            push_char(out, c);
            assert(out@ =~= old(out)@ + sanitized(v@.take(i + 1)));
        }
        i += 1;
    }
    assert(v@.take(v@.len() as int) =~= v@);
}

/// Lemma: sanitising distributes over concatenation.
proof fn lemma_sanitized_concat(a: Seq<char>, b: Seq<char>)
    ensures
        sanitized(a + b) == sanitized(a) + sanitized(b),
    decreases b.len(),
{
    if b.len() == 0 {
        assert(a + b =~= a);
        assert(sanitized(b) =~= Seq::<char>::empty());
        assert(sanitized(a) + sanitized(b) =~= sanitized(a));
    } else {
        lemma_sanitized_concat(a, b.drop_last());
        assert((a + b).drop_last() =~= a + b.drop_last());
        assert((a + b).last() == b.last());
        if keeps_char(b.last()) {
            assert(sanitized(a + b) =~= sanitized(a) + sanitized(b));
        } else {
            assert(sanitized(a + b) =~= sanitized(a) + sanitized(b));
        }
    }
}

/// Prepare article text for embedding: the title, then a blank line and the
/// content when there is any, with control characters other than newline,
/// tab and carriage return removed.
pub fn prepare_article_text(title: &str, content: Option<&str>) -> (r: String)
    ensures
        r@ == sanitized(
            article_raw_text(
                title@,
                match content {
                    Some(c) => Some(c@),
                    None => None,
                },
            ),
        ),
{
    let mut out = String::new();
    let title_chars = chars_of(title);
    push_sanitized(&mut out, &title_chars);
    match content {
        Some(c) => {
            let cv = chars_of(c);
            if cv.len() > 0 {
                let mut sep: Vec<char> = Vec::new();
                sep.push('\n');
                sep.push('\n');
                push_sanitized(&mut out, &sep);
                push_sanitized(&mut out, &cv);
                proof {
                    assert(sep@ =~= seq!['\n', '\n']);
                    lemma_sanitized_concat(title@, sep@);
                    lemma_sanitized_concat(title@ + sep@, c@);
                    assert(out@ =~= sanitized(title@ + sep@ + c@));
                }
            } else {
                assert(out@ =~= sanitized(title@));
            }
        },
        None => {
            assert(out@ =~= sanitized(title@));
        },
    }
    out
}

// ── Byte-bounded truncation ─────────────────────────────────────────

/// The largest char boundary of `bytes` that is at most `max`.
pub open spec fn floor_char_boundary(bytes: Seq<u8>, max: int) -> int
    decreases max,
{
    if max <= 0 {
        0
    } else if is_char_boundary(bytes, max) {
        max
    } else {
        floor_char_boundary(bytes, max - 1)
    }
}

/// The UTF-8 bytes of the longest prefix of `s` that fits in `max` bytes
/// without splitting a character.
pub open spec fn fitting_prefix_bytes(s: Seq<char>, max: int) -> Seq<u8> {
    let bytes = encode_utf8(s);
    if bytes.len() <= max {
        bytes
    } else {
        bytes.take(floor_char_boundary(bytes, max))
    }
}

/// The cut never exceeds the budget: the kept bytes are a prefix of the
/// text's encoding, at most `max` long, ending on a character boundary, and
/// they are the whole encoding when it fits.
pub proof fn lemma_fitting_prefix_fits(s: Seq<char>, max: int)
    requires
        max >= 0,
    ensures
        fitting_prefix_bytes(s, max).len() <= max,
        fitting_prefix_bytes(s, max) == encode_utf8(s).take(
            fitting_prefix_bytes(s, max).len() as int,
        ),
        is_char_boundary(encode_utf8(s), fitting_prefix_bytes(s, max).len() as int),
        encode_utf8(s).len() <= max ==> fitting_prefix_bytes(s, max) == encode_utf8(s),
{
    let bytes = encode_utf8(s);
    vstd::utf8::encode_utf8_valid_utf8(s);
    vstd::utf8::is_char_boundary_start_end_of_seq(bytes);
    if bytes.len() <= max {
        assert(bytes.take(bytes.len() as int) =~= bytes);
    } else {
        lemma_floor_boundary(bytes, max);
    }
}

/// The floor boundary lies in `0..=max` and is a boundary.
proof fn lemma_floor_boundary(bytes: Seq<u8>, max: int)
    requires
        valid_utf8(bytes),
        0 <= max <= bytes.len(),
    ensures
        0 <= floor_char_boundary(bytes, max) <= max,
        is_char_boundary(bytes, floor_char_boundary(bytes, max)),
    decreases max,
{
    if max > 0 && !is_char_boundary(bytes, max) {
        lemma_floor_boundary(bytes, max - 1);
    }
}

/// Largest char boundary of `text` that is at most `max` (0 always is one).
pub fn floor_boundary(text: &str, max: usize) -> (end: usize)
    requires
        max <= text.spec_bytes().len(),
    ensures
        end == floor_char_boundary(text.spec_bytes(), max as int),
        is_char_boundary(text.spec_bytes(), end as int),
        end <= max,
{
    let ghost bytes = text.spec_bytes();
    proof {
        vstd::utf8::encode_utf8_valid_utf8(text@);
    }
    let mut end = max;
    while end > 0 && !text.is_char_boundary(end)
        invariant
            end <= max,
            valid_utf8(bytes),
            bytes == text.spec_bytes(),
            floor_char_boundary(bytes, max as int) == floor_char_boundary(bytes, end as int),
        decreases end,
    {
        end -= 1;
    }
    end
}

/// The prefix of `text` that ends at byte `end`, which must be a char boundary.
pub fn prefix_at(text: &str, end: usize) -> (r: String)
    requires
        is_char_boundary(text.spec_bytes(), end as int),
    ensures
        encode_utf8(r@) == text.spec_bytes().take(end as int),
{
    let (head, _tail) = text.split_at(end);
    let r = head.to_owned();
    assert(head.spec_bytes() =~= text.spec_bytes().take(end as int));
    r
}

/// Number of UTF-8 bytes in `text`.
pub fn byte_len(text: &str) -> (n: usize)
    ensures
        n == text.spec_bytes().len(),
{
    text.as_bytes().len()
}

/// Truncate text to at most `max_chars` bytes without splitting a character,
/// returning the input itself (borrowed) when it already fits.
pub fn prepare_input(text: &str, max_chars: usize) -> (r: Cow<'_, str>)
    ensures
        (text.spec_bytes().len() <= max_chars) == (r is Borrowed),
        r is Borrowed ==> r@ == text@,
        encode_utf8(r@) == fitting_prefix_bytes(text@, max_chars as int),
{
    if byte_len(text) <= max_chars {
        return Cow::Borrowed(text);
    }
    let end = floor_boundary(text, max_chars);
    Cow::Owned(prefix_at(text, end))
}

// ── The API client ──────────────────────────────────────────────────

/// Retries after the first attempt of a request.
pub const MAX_RETRIES: u32 = 3;

/// Wait before the first retry, in milliseconds; it doubles on each retry.
pub const INITIAL_BACKOFF_MS: u64 = 500;

/// Why an embedding request failed, as far as the answer tells.
pub enum EmbeddingError {
    ApiError { status: u16, body: String },
    MalformedResponse(String),
    DimensionMismatch { expected: usize, actual: usize },
}

/// `s` without its trailing `c` characters.
pub open spec fn trim_end_char(s: Seq<char>, c: char) -> Seq<char>
    decreases s.len(),
{
    if s.len() > 0 && s.last() == c {
        trim_end_char(s.drop_last(), c)
    } else {
        s
    }
}

/// The embeddings endpoint under an API base address: the base without
/// trailing slashes, then `/v1/embeddings`.
pub fn embeddings_endpoint(base_url: &str) -> (r: String)
    ensures
        r@ == trim_end_char(base_url@, '/') + "/v1/embeddings"@,
{
    let v = chars_of(base_url);
    let mut end: usize = v.len();
    assert(v@.take(end as int) =~= v@);
    while end > 0 && v[end - 1] == '/'
        invariant
            end <= v@.len(),
            trim_end_char(v@.take(end as int), '/') == trim_end_char(v@, '/'),
        decreases end,
    {
        assert(v@.take(end as int).drop_last() =~= v@.take(end - 1));
        end -= 1;
    }
    let mut r = String::new();
    let mut i: usize = 0;
    while i < end
        invariant
            end <= v@.len(),
            i <= end,
            r@ == v@.take(i as int),
        decreases end - i,
    {
        push_char(&mut r, v[i]);
        i += 1;
        assert(r@ =~= v@.take(i as int));
    }
    r.append("/v1/embeddings");
    r
}

/// `2^n`.
pub open spec fn pow2(n: nat) -> nat
    decreases n,
{
    if n == 0 {
        1
    } else {
        2 * pow2((n - 1) as nat)
    }
}

/// The wait before retry number `retry` (counting from one), in
/// milliseconds: 500, then doubling.
pub open spec fn backoff_ms(retry: nat) -> nat {
    (INITIAL_BACKOFF_MS * pow2((retry - 1) as nat)) as nat
}

/// The wait before retry number `retry` (one to three).
pub fn retry_backoff_ms(retry: u32) -> (ms: u64)
    requires
        1 <= retry <= MAX_RETRIES,
    ensures
        ms == backoff_ms(retry as nat),
{
    let mut ms: u64 = INITIAL_BACKOFF_MS;
    let mut k: u32 = 1;
    assert(pow2(0) == 1);
    assert(pow2(1) == 2);
    assert(pow2(2) == 4);
    while k < retry
        invariant
            1 <= k <= retry <= MAX_RETRIES,
            ms == backoff_ms(k as nat),
            ms <= 500 * pow2((k - 1) as nat),
            pow2(0) == 1 && pow2(1) == 2 && pow2(2) == 4,
        decreases retry - k,
    {
        ms = ms * 2;
        k += 1;
    }
    ms
}

/// Each retry waits twice as long as the one before.
pub proof fn lemma_backoff_doubles(retry: nat)
    requires
        retry >= 1,
    ensures
        backoff_ms(retry + 1) == 2 * backoff_ms(retry),
{
    assert(pow2(retry) == 2 * pow2((retry - 1) as nat));
    assert(INITIAL_BACKOFF_MS * (2 * pow2((retry - 1) as nat)) == 2 * (INITIAL_BACKOFF_MS * pow2(
        (retry - 1) as nat,
    ))) by (nonlinear_arith);
}

/// How one attempt at an embedding request ended.
pub enum AttemptOutcome {
    /// The request could not be sent or answered; `retryable` when it failed
    /// to connect or timed out.
    TransportFailed { retryable: bool },
    /// The server answered with this status.
    Answered { status: u16 },
}

/// What the client does after an attempt.
#[derive(PartialEq, Eq, Structural)]
pub enum AttemptVerdict {
    /// Read the successful answer.
    Accept,
    /// Wait this many milliseconds, then try again.
    RetryAfter { ms: u64 },
    /// Give up with this attempt's error.
    Stop,
}

/// Failures worth another try: connection failures and timeouts, server
/// errors (5xx) and rate limiting (429).
pub open spec fn retryable(o: AttemptOutcome) -> bool {
    match o {
        AttemptOutcome::TransportFailed { retryable } => retryable,
        AttemptOutcome::Answered { status } => status >= 500 || status == 429,
    }
}

/// The verdict on attempt number `attempt` (from zero): a success is
/// accepted; a retryable failure is retried after the backoff while
/// retries remain; anything else stops with this attempt's error.
pub open spec fn verdict(attempt: nat, o: AttemptOutcome) -> AttemptVerdict {
    if o matches AttemptOutcome::Answered { status } && 200 <= status <= 299 {
        AttemptVerdict::Accept
    } else if retryable(o) && attempt < MAX_RETRIES {
        AttemptVerdict::RetryAfter { ms: backoff_ms(attempt + 1) as u64 }
    } else {
        AttemptVerdict::Stop
    }
}

/// Decide what follows attempt number `attempt` of a request.
pub fn attempt_verdict(attempt: u32, outcome: &AttemptOutcome) -> (v: AttemptVerdict)
    requires
        attempt <= MAX_RETRIES,
    ensures
        v == verdict(attempt as nat, *outcome),
{
    let again = match outcome {
        AttemptOutcome::Answered { status } => {
            if 200 <= *status && *status <= 299 {
                return AttemptVerdict::Accept;
            }
            *status >= 500 || *status == 429
        },
        AttemptOutcome::TransportFailed { retryable } => *retryable,
    };
    if again && attempt < MAX_RETRIES {
        AttemptVerdict::RetryAfter { ms: retry_backoff_ms(attempt + 1) }
    } else {
        AttemptVerdict::Stop
    }
}

/// A request is attempted at most four times: the attempt after the third
/// retry never asks for another.
pub proof fn lemma_attempts_bounded(o: AttemptOutcome)
    ensures
        !(verdict(MAX_RETRIES as nat, o) is RetryAfter),
{
}

/// The wait the client takes before retrying after attempt `attempt`
/// (from zero): 500 ms, then 1000 ms, then 2000 ms.
pub open spec fn expected_wait(attempt: nat) -> u64 {
    if attempt == 0 {
        500
    } else if attempt == 1 {
        1000
    } else {
        2000
    }
}

/// Every server error (status 500 and above) and every rate limit (429) is
/// retried while retries remain, after 500 ms, then 1000 ms, then 2000 ms;
/// a 2xx answer is accepted; any other status stops at once.
pub proof fn lemma_status_verdicts(attempt: nat, status: u16)
    ensures
        200 <= status <= 299 ==> (verdict(attempt, AttemptOutcome::Answered { status }) is Accept),
        (status >= 500 || status == 429) && attempt < 3 ==> (verdict(
            attempt,
            AttemptOutcome::Answered { status },
        ) matches AttemptVerdict::RetryAfter { ms } && ms == expected_wait(attempt)),
        !(200 <= status <= 299) && !(status >= 500 || status == 429) ==> (verdict(
            attempt,
            AttemptOutcome::Answered { status },
        ) is Stop),
        attempt >= 3 && !(200 <= status <= 299) ==> (verdict(
            attempt,
            AttemptOutcome::Answered { status },
        ) is Stop),
{
    assert(pow2(0) == 1);
    assert(pow2(1) == 2);
    assert(pow2(2) == 4);
}

/// A connection failure or timeout is retried like a server error; any
/// other transport failure stops at once.
pub proof fn lemma_transport_verdicts(attempt: nat, retryable: bool)
    ensures
        retryable && attempt < 3 ==> (verdict(
            attempt,
            AttemptOutcome::TransportFailed { retryable },
        ) matches AttemptVerdict::RetryAfter { ms } && ms == expected_wait(attempt)),
        !retryable || attempt >= 3 ==> (verdict(
            attempt,
            AttemptOutcome::TransportFailed { retryable },
        ) is Stop),
{
    assert(pow2(0) == 1);
    assert(pow2(1) == 2);
    assert(pow2(2) == 4);
}

/// The error for an unsuccessful answer.
pub fn api_error(status: u16, body: String) -> (e: EmbeddingError)
    ensures
        e matches EmbeddingError::ApiError { status: s, body: b } && s == status && b@ == body@,
{
    EmbeddingError::ApiError { status, body }
}

/// An embedding must have the dimension the index was made for.
pub fn validate_dimensions(expected: usize, actual: usize) -> (r: Result<(), EmbeddingError>)
    ensures
        actual == expected ==> r is Ok,
        actual != expected ==> (r matches Err(
            EmbeddingError::DimensionMismatch { expected: e, actual: a },
        ) && e == expected && a == actual),
{
    if actual != expected {
        return Err(EmbeddingError::DimensionMismatch { expected, actual });
    }
    Ok(())
}

/// How a list of texts is sent.
#[derive(PartialEq, Eq, Structural)]
pub enum BatchPlan {
    /// Nothing to send.
    Nothing,
    /// One text: a single request.
    Single,
    /// Several texts: one batch request.
    Batch,
}

/// How `n` texts are sent.
pub fn batch_plan(n: usize) -> (p: BatchPlan)
    ensures
        n == 0 ==> p == BatchPlan::Nothing,
        n == 1 ==> p == BatchPlan::Single,
        n > 1 ==> p == BatchPlan::Batch,
{
    if n == 0 {
        BatchPlan::Nothing
    } else if n == 1 {
        BatchPlan::Single
    } else {
        BatchPlan::Batch
    }
}

/// A batch answer is used only when it succeeded and carries one embedding
/// per text; otherwise the texts are embedded one by one.
pub fn batch_answer_usable(succeeded: bool, returned: usize, sent: usize) -> (r: bool)
    ensures
        r == (succeeded && returned == sent),
{
    succeeded && returned == sent
}

// ── The batch pipeline ──────────────────────────────────────────────

/// Articles embedded per request unless the caller says otherwise.
pub const DEFAULT_BATCH_SIZE: usize = 10;

/// The batch size to use.
pub fn effective_batch_size(batch_size: Option<usize>) -> (n: usize)
    requires
        batch_size != Some(0usize),
    ensures
        n == match batch_size {
            Some(b) => b,
            None => DEFAULT_BATCH_SIZE,
        },
        n > 0,
{
    match batch_size {
        Some(b) => b,
        None => DEFAULT_BATCH_SIZE,
    }
}

/// The chunks `n` items are cut into, `size` at a time: consecutive
/// half-open ranges covering `0..n`, each `size` long but the last.
pub open spec fn chunks_ok(n: nat, size: nat, c: Seq<(usize, usize)>) -> bool {
    &&& c.len() == (if n == 0 {
        0
    } else {
        (n - 1) / (size as int) + 1
    })
    &&& forall|k: int| 0 <= k < c.len() ==> c[k].0 == k * size
    &&& forall|k: int|
        0 <= k < c.len() ==> c[k].1 == (if (k + 1) * size < n {
            (k + 1) * size
        } else {
            n as int
        })
}

/// Cut `n` items into chunks of `size`, as `slice::chunks` does.
pub fn chunk_ranges(n: usize, size: usize) -> (c: Vec<(usize, usize)>)
    requires
        size > 0,
    ensures
        chunks_ok(n as nat, size as nat, c@),
{
    let mut c: Vec<(usize, usize)> = Vec::new();
    let mut start: usize = 0;
    assert(c@.len() * size == 0) by (nonlinear_arith)
        requires
            c@.len() == 0,
    ;
    while start < n
        invariant
            size > 0,
            start <= n,
            start == (if c@.len() * size < n {
                c@.len() * size
            } else {
                n as int
            }),
            forall|k: int| 0 <= k < c@.len() ==> c@[k].0 == k * size,
            forall|k: int|
                0 <= k < c@.len() ==> c@[k].1 == (if (k + 1) * size < n {
                    (k + 1) * size
                } else {
                    n as int
                }),
            c@.len() > 0 && start < n ==> c@.len() * size < n,
            c@.len() > 0 ==> (c@.len() - 1) * size < n,
            start >= n ==> c@.len() == (if n == 0 {
                0
            } else {
                (n - 1) / (size as int) + 1
            }),
        decreases n - start,
    {
        let end: usize = if n - start > size {
            start + size
        } else {
            n
        };
        proof {
            assert((c@.len() + 1) * size == c@.len() * size + size) by (nonlinear_arith);
        }
        c.push((start, end));
        start = end;
        proof {
            if start >= n {
                let k = c@.len() - 1;
                assert(k * size < n);
                assert(n <= (k + 1) * size) by (nonlinear_arith)
                    requires
                        end == n,
                        start == end,
                        (k + 1) * size == k * size + size,
                        n - k * size <= size,
                ;
                lemma_chunk_count(n as int, size as int, k);
            }
        }
    }
    c
}

/// With `k * size < n <= (k + 1) * size`, `n` items make `k + 1` chunks.
proof fn lemma_chunk_count(n: int, size: int, k: int)
    requires
        size > 0,
        k >= 0,
        k * size < n,
        n <= (k + 1) * size,
    ensures
        (n - 1) / size + 1 == k + 1,
{
    assert((n - 1) / size == k) by (nonlinear_arith)
        requires
            size > 0,
            k >= 0,
            k * size <= n - 1,
            n - 1 < (k + 1) * size,
    ;
}

/// How one article fared in the pipeline.
pub enum ItemOutcome {
    /// Embedded and marked as done: its embedding is kept.
    Stored,
    /// Embedded, but marking it as done failed.
    MarkFailed,
    /// No embedding could be had.
    EmbedFailed,
}

/// How many articles were stored, and how many failed.
pub open spec fn item_counts(os: Seq<ItemOutcome>) -> (nat, nat)
    decreases os.len(),
{
    if os.len() == 0 {
        (0, 0)
    } else {
        let t = item_counts(os.drop_last());
        match os.last() {
            ItemOutcome::Stored => (t.0 + 1, t.1),
            _ => (t.0, t.1 + 1),
        }
    }
}

/// Count the articles processed and failed over a run.
pub fn count_items(outcomes: &[ItemOutcome]) -> (r: (usize, usize))
    ensures
        r.0 == item_counts(outcomes@).0,
        r.1 == item_counts(outcomes@).1,
{
    let mut processed: usize = 0;
    let mut failed: usize = 0;
    let mut i: usize = 0;
    while i < outcomes.len()
        invariant
            i <= outcomes@.len(),
            processed == item_counts(outcomes@.take(i as int)).0,
            failed == item_counts(outcomes@.take(i as int)).1,
            processed + failed == i,
        decreases outcomes@.len() - i,
    {
        assert(outcomes@.take(i + 1).drop_last() =~= outcomes@.take(i as int));
        match outcomes[i] {
            ItemOutcome::Stored => processed += 1,
            _ => failed += 1,
        }
        i += 1;
    }
    assert(outcomes@.take(outcomes@.len() as int) =~= outcomes@);
    (processed, failed)
}

/// Every article of a run is counted once, as processed or as failed.
pub proof fn lemma_items_accounted(os: Seq<ItemOutcome>)
    ensures
        item_counts(os).0 + item_counts(os).1 == os.len(),
    decreases os.len(),
{
    if os.len() > 0 {
        lemma_items_accounted(os.drop_last());
    }
}

} // verus!

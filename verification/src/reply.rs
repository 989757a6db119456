//! Talking to an OpenAI-compatible chat API: the request messages, and what to
//! do with each HTTP reply (wait and retry on 429, fail on an error status,
//! parse on success).
use vstd::prelude::*;
use crate::text::{chars_of, prefix_chars, same_chars, take_chars};
use crate::words::{char_vec_views, parse_u64, parse_u64_spec, split_words, words};

verus! {

/// How many requests are made for one prompt before giving up on 429s.
pub const MAX_ATTEMPTS: u32 = 5;

/// Seconds to wait after a 429 whose body gives no hint.
pub const DEFAULT_WAIT_SECS: u64 = 60;

/// Extra seconds added to every rate-limit wait.
pub const WAIT_MARGIN_SECS: u64 = 2;

/// Characters of an error body kept in the error message.
pub const ERROR_BODY_CHARS: usize = 200;

/// One chat message of a request.
pub struct ChatMessage {
    pub role: String,
    pub content: String,
}

/// The messages of a request: a system message when the system prompt is not
/// empty, then the user's prompt.
pub open spec fn messages_spec(system: Seq<char>, prompt: Seq<char>) -> Seq<(Seq<char>, Seq<char>)> {
    if system.len() == 0 {
        seq![("user"@, prompt)]
    } else {
        seq![("system"@, system), ("user"@, prompt)]
    }
}

/// The (role, content) view of a list of messages.
pub open spec fn message_views(m: Seq<ChatMessage>) -> Seq<(Seq<char>, Seq<char>)> {
    m.map_values(|c: ChatMessage| (c.role@, c.content@))
}

/// Builds the chat messages for one prompt.
pub fn build_messages(system: &str, prompt: &str) -> (r: Vec<ChatMessage>)
    ensures
        message_views(r@) == messages_spec(system@, prompt@),
{
    let mut messages: Vec<ChatMessage> = Vec::new();
    if !system.is_empty() {
        messages.push(ChatMessage { role: "system".to_owned(), content: system.to_owned() });
    }
    messages.push(ChatMessage { role: "user".to_owned(), content: prompt.to_owned() });
    assert(message_views(messages@) =~= messages_spec(system@, prompt@));
    messages
}

/// The number given right after the first word `wait` that is followed by a
/// number, if there is one.
pub open spec fn first_wait_hint(ws: Seq<Seq<char>>) -> Option<u64>
    decreases ws.len(),
{
    if ws.len() < 2 {
        None
    } else if ws[0] == "wait"@ && parse_u64_spec(ws[1]) is Some {
        parse_u64_spec(ws[1])
    } else {
        first_wait_hint(ws.drop_first())
    }
}

/// Seconds to wait after a 429 reply with this body: the hinted number of
/// seconds (60 without a hint) plus two, wrapping around at `u64::MAX` as the
/// release build's `+` does.
pub open spec fn wait_secs_spec(body: Seq<char>) -> u64 {
    let base: u64 = match first_wait_hint(words(body)) {
        Some(v) => v,
        None => DEFAULT_WAIT_SECS,
    };
    if base + WAIT_MARGIN_SECS > u64::MAX {
        (base + WAIT_MARGIN_SECS - 0x1_0000_0000_0000_0000) as u64
    } else {
        (base + WAIT_MARGIN_SECS) as u64
    }
}

/// The wait hint among a list of words.
pub fn wait_hint(ws: &Vec<Vec<char>>) -> (r: Option<u64>)
    ensures
        r == first_wait_hint(char_vec_views(ws@)),
{
    let ghost views = char_vec_views(ws@);
    let wait_word = chars_of("wait");
    let mut i: usize = 0;
    assert(views.skip(0) =~= views);
    while ws.len() - i > 1
        invariant
            i <= ws.len(),
            views == char_vec_views(ws@),
            wait_word@ == "wait"@,
            first_wait_hint(views) == first_wait_hint(views.skip(i as int)),
        decreases ws.len() - i,
    {
        let ghost rest = views.skip(i as int);
        assert(rest[0] == ws@[i as int]@);
        assert(rest[1] == ws@[i + 1]@);
        if same_chars(&ws[i], &wait_word) {
            let n = parse_u64(&ws[i + 1]);
            if n.is_some() {
                return n;
            }
        }
        assert(rest.drop_first() =~= views.skip(i + 1));
        i = i + 1;
    }
    None
}

/// Seconds to wait after a 429 reply with this body.
pub fn rate_limit_wait(body: &str) -> (secs: u64)
    ensures
        secs == wait_secs_spec(body@),
{
    let chars = chars_of(body);
    let ws = split_words(&chars);
    let base = match wait_hint(&ws) {
        Some(v) => v,
        None => DEFAULT_WAIT_SECS,
    };
    base.wrapping_add(WAIT_MARGIN_SECS)
}

/// What `StatusCode`'s `Display` writes for a status code: the code, a space
/// and its canonical reason phrase.
pub uninterp spec fn status_display(code: u16) -> Seq<char>;

/// Calls `reqwest::StatusCode::from_u16` and formats the status with its
/// `Display` impl. The text is a function of the code alone (a fixed table of
/// reason phrases), so it is named by `status_display`; the table itself is
/// not stated.
#[verifier::external_body]
fn status_text(code: u16) -> (r: String)
    requires
        100 <= code <= 999,
    ensures
        r@ == status_display(code),
{
    match reqwest::StatusCode::from_u16(code) {
        Ok(status) => status.to_string(),
        Err(_) => String::new(),
    }
}

/// Calls `reqwest::StatusCode::from_u16` and `StatusCode::is_success`, which
/// is true exactly for the codes 200 to 299.
#[verifier::external_body]
fn status_is_success(code: u16) -> (r: bool)
    requires
        100 <= code <= 999,
    ensures
        r == (200 <= code && code < 300),
{
    match reqwest::StatusCode::from_u16(code) {
        Ok(status) => status.is_success(),
        Err(_) => false,
    }
}

/// The error message for a failed request, given the status line.
pub open spec fn api_error_spec(status_line: Seq<char>, body: Seq<char>) -> Seq<char> {
    "API error "@ + status_line + ": "@ + take_chars(body, ERROR_BODY_CHARS as nat)
}

/// Builds the error message for a failed request: the status line and the
/// first 200 characters of the body.
pub fn api_error_message(status_line: &str, body: &str) -> (r: String)
    ensures
        r@ == api_error_spec(status_line@, body@),
{
    let mut message = String::new();
    message.append("API error ");
    message.append(status_line);
    message.append(": ");
    message.append(prefix_chars(body, ERROR_BODY_CHARS));
    message
}

/// Whether a 429 to request number `attempt` (from zero) is followed by
/// another request.
pub open spec fn retries_after(attempt: u32) -> bool {
    attempt + 1 < MAX_ATTEMPTS
}

/// What to do with one HTTP reply.
pub enum ReplyAction {
    /// Rate limited: sleep `secs` seconds, then try again if `retry`, else
    /// give up.
    Wait { secs: u64, retry: bool },
    /// The request failed with this message.
    Fail { message: String },
    /// The request succeeded: parse the body.
    Parse,
}

/// Decides what to do with the reply to request number `attempt` (counted
/// from zero).
pub fn classify_reply(attempt: u32, status: u16, body: &str) -> (r: ReplyAction)
    requires
        100 <= status <= 999,
    ensures
        match r {
            ReplyAction::Wait { secs, retry } => {
                &&& status == 429
                &&& secs == wait_secs_spec(body@)
                &&& retry == retries_after(attempt)
            },
            ReplyAction::Fail { message } => {
                &&& status != 429
                &&& !(200 <= status < 300)
                &&& message@ == api_error_spec(status_display(status), body@)
            },
            ReplyAction::Parse => status != 429 && 200 <= status < 300,
        },
{
    if status == 429 {
        return ReplyAction::Wait { secs: rate_limit_wait(body), retry: attempt < MAX_ATTEMPTS - 1 };
    }
    if !status_is_success(status) {
        let line = status_text(status);
        return ReplyAction::Fail { message: api_error_message(line.as_str(), body) };
    }
    ReplyAction::Parse
}

/// A rate-limit body that never says `wait` (followed by a number) earns the
/// default wait: sixty seconds plus the margin.
pub proof fn lemma_no_hint_default_wait(body: Seq<char>)
    requires
        forall|i: int| 0 <= i < words(body).len() ==> #[trigger] words(body)[i] != "wait"@,
    ensures
        wait_secs_spec(body) == DEFAULT_WAIT_SECS + WAIT_MARGIN_SECS,
{
    lemma_no_wait_word(words(body));
}

proof fn lemma_no_wait_word(ws: Seq<Seq<char>>)
    requires
        forall|i: int| 0 <= i < ws.len() ==> #[trigger] ws[i] != "wait"@,
    ensures
        first_wait_hint(ws) is None,
    decreases ws.len(),
{
    if ws.len() >= 2 {
        assert(ws[0] != "wait"@);
        let d = ws.drop_first();
        assert forall|i: int| 0 <= i < d.len() implies #[trigger] d[i] != "wait"@ by {
            assert(d[i] == ws[i + 1]);
        }
        lemma_no_wait_word(d);
    }
}

/// A node is healthy when its health request got a reply, and the reply's
/// status is a success (200 to 299).
pub fn node_healthy(status: Option<u16>) -> (r: bool)
    requires
        status matches Some(c) ==> 100 <= c <= 999,
    ensures
        r == (status matches Some(c) && 200 <= c < 300),
{
    match status {
        Some(c) => status_is_success(c),
        None => false,
    }
}

/// The text of a chat completion: the content of the first choice, or
/// empty when there is no choice.
pub fn first_choice_text(contents: Vec<String>) -> (r: String)
    ensures
        contents@.len() == 0 ==> r@ == Seq::<char>::empty(),
        contents@.len() > 0 ==> r == contents@[0],
{
    let mut contents = contents;
    if contents.len() == 0 {
        String::new()
    } else {
        contents.swap_remove(0)
    }
}
/// The request carries the prompts verbatim: the user's prompt is always
/// the last message, whole; a non-empty system prompt is the first message,
/// whole, whatever its length; an empty one adds no message.
pub proof fn lemma_messages_verbatim(system: Seq<char>, prompt: Seq<char>)
    ensures
        messages_spec(system, prompt).len() == (if system.len() == 0 {
            1int
        } else {
            2int
        }),
        messages_spec(system, prompt).last() == ("user"@, prompt),
        system.len() > 0 ==> messages_spec(system, prompt)[0] == ("system"@, system),
        system.len() > 0 ==> messages_spec(system, prompt)[0].1.len() == system.len(),
{
}
/// When the body's first two words are `wait` and a number of seconds, the
/// wait is that number plus the two-second margin.
pub proof fn lemma_wait_hint_used(body: Seq<char>, secs: u64)
    requires
        words(body).len() >= 2,
        words(body)[0] == "wait"@,
        parse_u64_spec(words(body)[1]) == Some(secs),
        secs <= u64::MAX - 2,
    ensures
        wait_secs_spec(body) == secs + 2,
{
}

/// The error message is `API error `, the status line, `: ` and the body,
/// cut to its first 200 characters.
pub proof fn lemma_error_message_shape(status_line: Seq<char>, body: Seq<char>)
    ensures
        ({
            let m = api_error_spec(status_line, body);
            let kept = if body.len() <= 200 {
                body.len() as int
            } else {
                200int
            };
            &&& m.len() == 12 + status_line.len() + kept
            &&& m.subrange(10, 10 + status_line.len() as int) == status_line
            &&& m.skip(12 + status_line.len() as int) == body.take(kept)
            &&& m.take(10) == "API error "@
        }),
{
    reveal_strlit("API error ");
    reveal_strlit(": ");
    let m = api_error_spec(status_line, body);
    let kept = if body.len() <= 200 {
        body.len() as int
    } else {
        200int
    };
    assert(take_chars(body, ERROR_BODY_CHARS as nat) =~= body.take(kept));
    assert(m.subrange(10, 10 + status_line.len() as int) =~= status_line);
    assert(m.skip(12 + status_line.len() as int) =~= body.take(kept));
    assert(m.take(10) =~= "API error "@);
}
/// A prompt is sent at most five times: after a 429 to requests 0 to 3
/// there is another request, after a 429 to request 4 there is none.
pub proof fn lemma_five_requests_at_most(attempt: u32)
    ensures
        retries_after(attempt) <==> attempt <= 3,
{
}
} // verus!

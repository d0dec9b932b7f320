//! Decisions of the OpenAI-compatible completion server: the request
//! defaults, the back-pressure rule and the text of a completion.
use crate::text::{decimal, decimal_string};
use vstd::prelude::*;

verus! {

/// Requests that may be pending at once; one more is refused.
pub const MAX_PENDING_REQUESTS: usize = 64;

/// `max_tokens` of a request that does not give it.
pub fn default_max_tokens() -> (n: u32)
    ensures
        n == 128,
{
    128
}

/// Whether a request is served when `pending` requests were pending
/// before it arrived; a refused one is answered "too many requests".
pub fn admit_request(pending: usize) -> (admitted: bool)
    ensures
        admitted == (pending < MAX_PENDING_REQUESTS),
{
    pending < MAX_PENDING_REQUESTS
}

/// Text of the completion of `prompt`: the prompt, then a note of how
/// many tokens were asked for.
pub open spec fn completion_text_spec(prompt: Seq<char>, max_tokens: u32) -> Seq<char> {
    prompt + " [BML placeholder: "@ + decimal(max_tokens as nat) + " tokens]"@
}

/// The completion of `prompt` for `max_tokens` tokens.
pub fn completion_text(prompt: &str, max_tokens: u32) -> (s: String)
    ensures
        s@ == completion_text_spec(prompt@, max_tokens),
{
    let mut s = String::from_str(prompt);
    s.append(" [BML placeholder: ");
    let d = decimal_string(max_tokens);
    s.append(d.as_str());
    s.append(" tokens]");
    s
}

/// Tokens a streamed completion sends before it stops.
pub fn stream_tokens() -> (t: Vec<&'static str>)
    ensures
        t@.len() == 3,
        t@[0]@ == "B"@,
        t@[1]@ == "M"@,
        t@[2]@ == "L"@,
{
    vec!["B", "M", "L"]
}

} // verus!

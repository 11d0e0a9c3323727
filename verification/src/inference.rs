//! The framing of Okapi inference: the payloads of a server-sent event
//! stream, the chunks made from them, tool calls named `server/tool`, and
//! the choice of a fallback vision model.
use vstd::prelude::*;
use vstd::string::*;
use serde_json::Value;
use crate::lexicon::{starts_with, trim};
use crate::text::split_trimmed;

verus! {

// ── Server-sent events ───────────────────────────────────────────────────────

/// The payload of a trimmed event line: none for a blank line or the end
/// marker `data: [DONE]`; else the line without its `data: ` prefix.
pub open spec fn sse_payload(t: Seq<char>) -> Option<Seq<char>> {
    if t.len() == 0 || t == "data: [DONE]"@ {
        None
    } else if starts_with(t, "data: "@) {
        Some(t.skip(6))
    } else {
        Some(t)
    }
}

/// The payloads of trimmed lines, in order.
pub open spec fn payloads_of(lines: Seq<Seq<char>>) -> Seq<Seq<char>>
    decreases lines.len(),
{
    if lines.len() == 0 {
        Seq::empty()
    } else {
        let rest = payloads_of(lines.drop_last());
        match sse_payload(lines.last()) {
            Some(p) => rest.push(p),
            None => rest,
        }
    }
}

/// The payloads of an event-stream body, line by line, each line trimmed.
pub fn sse_payloads(body: &str) -> (r: Vec<String>)
    ensures
        r@.map_values(|s: String| s@) == payloads_of(split_trimmed(body@, '\n')),
{
    let lines = crate::text::split_and_trim(body, '\n');
    let ghost ls = lines@.map_values(|s: String| s@);
    let mut out: Vec<String> = Vec::new();
    let mut i: usize = 0;
    proof {
        reveal_strlit("data: [DONE]");
        reveal_strlit("data: ");
        assert(ls.take(0) =~= Seq::<Seq<char>>::empty());
    }
    while i < lines.len()
        invariant
            i <= lines@.len(),
            ls == lines@.map_values(|s: String| s@),
            out@.map_values(|s: String| s@) == payloads_of(ls.take(i as int)),
        decreases lines@.len() - i,
    {
        let line = lines[i].as_str();
        let ghost before = out@.map_values(|s: String| s@);
        proof {
            reveal_strlit("data: [DONE]");
            reveal_strlit("data: ");
            assert(ls.take(i + 1).drop_last() =~= ls.take(i as int));
            assert(ls.take(i + 1).last() == line@);
        }
        let n = line.unicode_len();
        if n == 0 || crate::text::str_eq(line, "data: [DONE]") {
            proof {
                assert(sse_payload(line@) is None);
                assert(payloads_of(ls.take(i + 1)) == payloads_of(ls.take(i as int)));
            }
        } else if n >= 6 && crate::text::str_eq(line.substring_char(0, 6), "data: ") {
            out.push(String::from_str(line.substring_char(6, n)));
            proof {
                assert(line@.take(6) =~= line@.subrange(0, 6));
                assert(sse_payload(line@) == Some(line@.skip(6)));
                assert(payloads_of(ls.take(i + 1)) == payloads_of(ls.take(i as int)).push(line@.skip(6)));
                assert(out@.map_values(|s: String| s@) =~= before.push(line@.skip(6)));
            }
        } else {
            out.push(String::from_str(line));
            proof {
                if line@.len() >= 6 {
                    assert(line@.take(6) =~= line@.subrange(0, 6));
                }
                assert(sse_payload(line@) == Some(line@));
                assert(payloads_of(ls.take(i + 1)) == payloads_of(ls.take(i as int)).push(line@));
                assert(out@.map_values(|s: String| s@) =~= before.push(line@));
            }
        }
        i = i + 1;
    }
    proof {
        assert(ls.take(lines@.len() as int) =~= ls);
    }
    out
}

// ── Tool calls ───────────────────────────────────────────────────────────────

/// A tool call: the server and tool, split at the first `/` of the name
/// (no server when there is none), its arguments and its id.
#[derive(Debug)]
pub struct StructuredToolCall {
    pub server: String,
    pub tool: String,
    pub args: Value,
    pub call_id: Option<String>,
}

/// The server and tool of a tool named `name`.
pub open spec fn tool_parts(name: Seq<char>) -> (Seq<char>, Seq<char>) {
    match crate::lexicon::first_index(name, '/') {
        Some(i) => (name.take(i), name.skip(i + 1)),
        None => (Seq::empty(), name),
    }
}

/// The tool call named `name`, with its arguments and id.
pub fn map_tool_call(name: &str, args: Value, call_id: Option<String>) -> (r: StructuredToolCall)
    ensures
        r.server@ == tool_parts(name@).0,
        r.tool@ == tool_parts(name@).1,
        r.args == args,
        r.call_id == call_id,
{
    let c = crate::text::str_chars(name);
    let n = c.len();
    let mut i: usize = 0;
    while i < n
        invariant
            i <= n,
            n == c@.len(),
            c@ == name@,
            forall|k: int| 0 <= k < i ==> c@[k] != '/',
        decreases n - i,
    {
        if c[i] == '/' {
            proof {
                crate::text::lemma_first_index_at(c@, '/', i as int);
            }
            return StructuredToolCall {
                server: String::from_str(name.substring_char(0, i)),
                tool: String::from_str(name.substring_char(i + 1, n)),
                args,
                call_id,
            };
        }
        i = i + 1;
    }
    proof {
        crate::text::lemma_first_index_none(c@, '/');
        reveal_strlit("");
    }
    StructuredToolCall { server: String::new(), tool: String::from_str(name), args, call_id }
}

// ── Stream chunks ────────────────────────────────────────────────────────────

/// Tokens used by an inference.
#[derive(Debug, Clone, Copy, PartialEq, Eq, Structural)]
pub struct InferenceUsage {
    pub prompt_tokens: u32,
    pub completion_tokens: u32,
    pub total_tokens: u32,
}

/// One chunk of a streamed inference.
#[derive(Debug)]
pub struct InferenceStreamChunk {
    pub text_delta: String,
    pub model: String,
    pub finish_reason: Option<String>,
    pub usage: Option<InferenceUsage>,
    pub tool_calls: Vec<StructuredToolCall>,
}

/// The chunk made of one event: its text (empty when absent), its model
/// and finish reason; usage and tool calls only on the finishing chunk.
pub fn stream_chunk(
    text_delta: Option<String>,
    model: String,
    finish_reason: Option<String>,
    usage: Option<InferenceUsage>,
    tool_calls: Vec<StructuredToolCall>,
) -> (r: InferenceStreamChunk)
    ensures
        r.text_delta@ == (match text_delta {
            Some(t) => t@,
            None => Seq::<char>::empty(),
        }),
        r.model == model,
        r.finish_reason == finish_reason,
        r.usage == (if finish_reason is Some { usage } else { None }),
        finish_reason is Some ==> r.tool_calls@ == tool_calls@,
        finish_reason is None ==> r.tool_calls@.len() == 0,
{
    let finishing = finish_reason.is_some();
    InferenceStreamChunk {
        text_delta: match text_delta {
            Some(t) => t,
            None => String::new(),
        },
        model,
        finish_reason,
        usage: if finishing { usage } else { None },
        tool_calls: if finishing { tool_calls } else { Vec::new() },
    }
}

/// The chunks of a stream: those read, or, when none was, a single empty
/// chunk of `model` that stops.
pub fn finish_stream(chunks: Vec<InferenceStreamChunk>, model: String) -> (r: Vec<InferenceStreamChunk>)
    ensures
        chunks@.len() > 0 ==> r@ == chunks@,
        chunks@.len() == 0 ==> r@.len() == 1 && r@[0].text_delta@.len() == 0 && r@[0].model == model
            && (r@[0].finish_reason matches Some(f) && f@ == "stop"@) && r@[0].usage is None
            && r@[0].tool_calls@.len() == 0,
{
    if chunks.len() > 0 {
        return chunks;
    }
    let mut r: Vec<InferenceStreamChunk> = Vec::new();
    r.push(InferenceStreamChunk {
        text_delta: String::new(),
        model,
        finish_reason: Some(String::from_str("stop")),
        usage: None,
        tool_calls: Vec::new(),
    });
    r
}

// ── Vision ───────────────────────────────────────────────────────────────────

/// A vision request needs at least one image.
pub fn check_vision_images(image_count: usize) -> (r: Result<(), String>)
    ensures
        image_count == 0 ==> (r matches Err(m) && m@ == "No images provided for vision inference"@),
        image_count > 0 ==> r is Ok,
{
    if image_count == 0 {
        return Err(String::from_str("No images provided for vision inference"));
    }
    Ok(())
}

/// The model to try when the primary vision model failed: the fallback,
/// when one is given and it is not the primary.
pub fn vision_fallback(fallback_model: Option<&str>, model_id: &str) -> (r: Option<String>)
    ensures
        match fallback_model {
            Some(f) => if f@ != model_id@ { r matches Some(x) && x@ == f@ } else { r is None },
            None => r is None,
        },
{
    match fallback_model {
        Some(f) => {
            if crate::text::str_eq(f, model_id) {
                None
            } else {
                Some(String::from_str(f))
            }
        },
        None => None,
    }
}

/// The model an inference uses: the override when there is one.
pub fn model_for(model_override: Option<&str>, model: &str) -> (r: String)
    ensures
        match model_override {
            Some(m) => r@ == m@,
            None => r@ == model@,
        },
{
    match model_override {
        Some(m) => String::from_str(m),
        None => String::from_str(model),
    }
}

} // verus!

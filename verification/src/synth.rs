//! Prompt assembly and the answer-synthesis protocol.

use vstd::prelude::*;
use vstd::string::StringExecFns;
use crate::answer::{finish_answer, finish_answer_spec};
use crate::openai::{content_path, is_success, json_parses, json_str_at, openai_reply};
use crate::text::{
    contains_seq, lemma_utf8_len_at_least_len, occurs_at, chars_of, lemma_utf8_len_concat, string_from_chars, trim, trim_chars, utf8_len, utf8_len_within,
};

verus! {

/// The prompt for the local chat model around the question prompt `inner`.
pub open spec fn llama_prompt(inner: Seq<char>) -> Seq<char> {
    "<|user|>\n"@ + inner + "\n<|assistant|>\n"@
}

/// Wraps the question prompt in the local model's chat template.
pub fn build_prompt_llama(prompt_inner: &str) -> (r: String)
    ensures
        r@ == llama_prompt(prompt_inner@),
{
    let mut s = String::from_str("<|user|>\n");
    s.append(prompt_inner);
    s.append("\n<|assistant|>\n");
    s
}

/// Largest number of context bytes placed in a prompt.
pub const MAX_CONTEXT_CHARS: usize = 8000;

/// Largest number of retrieved chunks placed in a prompt.
pub const MAX_CHUNKS: usize = 8;

/// Model asked when none is configured for the OpenAI provider.
pub const DEFAULT_OPENAI_MODEL: &'static str = "gpt-4o-mini";

/// Answer given when retrieval found nothing.
pub const NO_CONTEXT_ANSWER: &'static str = "No relevant context found in the memory pack.";

/// A retrieved chunk as the prompt uses it: its text and its source file.
pub struct ContextChunk {
    pub content: String,
    pub file_path: String,
}

/// The block that one chunk contributes to the prompt context.
pub open spec fn context_block(content: Seq<char>, file_path: Seq<char>) -> Seq<char> {
    trim(content) + "\n(source: "@ + file_path + ")\n---\n"@
}

/// The context built from chunks `i..` onto `acc`: chunk blocks are added in
/// order, at most `MAX_CHUNKS` chunks are considered, and adding stops at the
/// first block that would take the context past `MAX_CONTEXT_CHARS` bytes.
pub open spec fn context_from(hits: Seq<ContextChunk>, i: int, acc: Seq<char>) -> Seq<char>
    decreases 8 - i,
{
    if i < 0 || i >= hits.len() || i >= 8 {
        acc
    } else {
        let b = context_block(hits[i].content@, hits[i].file_path@);
        if utf8_len(acc) + utf8_len(b) > 8000 {
            acc
        } else {
            context_from(hits, i + 1, acc + b)
        }
    }
}

/// The instructions that open every question prompt, up to the question.
pub open spec fn prompt_instructions() -> Seq<char> {
    "Using only the context below, answer the question in 1-2 sentences. If the context contains relevant numbers, amounts, or facts, state them. Only say you cannot determine the answer if the context truly does not contain the information.\n\nQuestion: "@
}

/// The question prompt for `query` over the retrieved chunks `hits`.
pub open spec fn question_prompt(query: Seq<char>, hits: Seq<ContextChunk>) -> Seq<char> {
    prompt_instructions()
        + query + "\n\nContext:\n---\n"@ + context_from(hits, 0, seq![]) + "\n\nReply:"@
}

fn context_block_exec(chunk: &ContextChunk) -> (r: String)
    ensures
        r@ == context_block(chunk.content@, chunk.file_path@),
        r@ == trim(chunk.content@) + "\n(source: "@ + chunk.file_path@ + ")\n---\n"@,
{
    let content = chars_of(chunk.content.as_str());
    let trimmed = trim_chars(&content);
    let mut b = string_from_chars(&trimmed);
    b.append("\n(source: ");
    b.append(chunk.file_path.as_str());
    b.append(")\n---\n");
    b
}

/// Builds the question prompt: the instructions, the question, and the
/// context made of the first chunks (at most `MAX_CHUNKS`, stopping before
/// the context would exceed `MAX_CONTEXT_CHARS` bytes).
pub fn build_prompt_inner(query: &str, hits: &Vec<ContextChunk>) -> (r: String)
    ensures
        r@ == question_prompt(query@, hits@),
        r@.take(prompt_instructions().len() as int) == prompt_instructions(),
        r@.subrange(
            prompt_instructions().len() as int,
            (prompt_instructions().len() + query@.len()) as int,
        ) == query@,
        forall|j: int|
            0 <= j < context_end(hits@, 0, seq![]) ==> contains_seq(
                r@,
                trim(#[trigger] hits@[j].content@) + "\n(source: "@ + hits@[j].file_path@
                    + ")\n---\n"@,
            ),
{
    proof {
        lemma_prompt_holds_question_and_chunks(query@, hits@);
    }
    let mut context = String::new();
    let mut i: usize = 0;
    let mut ctx_len: usize = 0;
    while i < hits.len() && i < MAX_CHUNKS
        invariant
            i <= hits.len(),
            ctx_len as nat == utf8_len(context@),
            ctx_len <= MAX_CONTEXT_CHARS,
            context_from(hits@, 0, seq![]) == context_from(hits@, i as int, context@),
        ensures
            context_from(hits@, 0, seq![]) == context@,
        decreases hits.len() - i,
    {
        let block = context_block_exec(&hits[i]);
        let block_chars = chars_of(block.as_str());
        let block_len = match utf8_len_within(&block_chars, MAX_CONTEXT_CHARS - ctx_len) {
            Some(n) => n,
            None => {
                break;
            },
        };
        proof {
            lemma_utf8_len_concat(context@, block@);
        }
        context.append(block.as_str());
        ctx_len = ctx_len + block_len;
        i = i + 1;
    }
    let mut p = String::from_str(
        "Using only the context below, answer the question in 1-2 sentences. If the context contains relevant numbers, amounts, or facts, state them. Only say you cannot determine the answer if the context truly does not contain the information.\n\nQuestion: ",
    );
    p.append(query);
    p.append("\n\nContext:\n---\n");
    p.append(context.as_str());
    p.append("\n\nReply:");
    p
}

// ---------------------------------------------------------------------------
// Providers.
// ---------------------------------------------------------------------------

/// The model that produced an answer.
#[derive(Debug, Clone)]
pub enum QueryProvider {
    /// The local chat model.
    Llama,
    /// The OpenAI chat API, with the model name.
    OpenAI(String),
}

impl QueryProvider {
    /// The label shown for the provider.
    pub open spec fn label_text(&self) -> Seq<char> {
        match self {
            QueryProvider::Llama => "Internal: Llama"@,
            QueryProvider::OpenAI(model) => "OpenAI: "@ + model@,
        }
    }

    /// The label shown for the provider: `Internal: Llama` or
    /// `OpenAI: <model>`.
    pub fn label(&self) -> (r: String)
        ensures
            r@ == self.label_text(),
    {
        match self {
            QueryProvider::Llama => String::from_str("Internal: Llama"),
            QueryProvider::OpenAI(model) => {
                let mut s = String::from_str("OpenAI: ");
                s.append(model.as_str());
                s
            },
        }
    }
}

impl PartialEq for QueryProvider {
    fn eq(&self, other: &QueryProvider) -> (r: bool) {
        match (self, other) {
            (QueryProvider::Llama, QueryProvider::Llama) => true,
            (QueryProvider::OpenAI(a), QueryProvider::OpenAI(b)) => a.eq(b),
            _ => false,
        }
    }
}

impl vstd::std_specs::cmp::PartialEqSpecImpl for QueryProvider {
    open spec fn obeys_eq_spec() -> bool {
        true
    }

    open spec fn eq_spec(&self, other: &QueryProvider) -> bool {
        match (self, other) {
            (QueryProvider::Llama, QueryProvider::Llama) => true,
            (QueryProvider::OpenAI(a), QueryProvider::OpenAI(b)) => a@ == b@,
            _ => false,
        }
    }
}

impl Eq for QueryProvider {}

// ---------------------------------------------------------------------------
// The synthesis protocol.
//
// Answering a question alternates decisions with outside work (an HTTP call
// to OpenAI, a file-existence check, a local model run). The decisions are
// the functions below; the caller performs the work each step asks for and
// hands its outcome to the next function.
// ---------------------------------------------------------------------------

/// Why an answer could not be produced.
#[derive(Debug)]
pub enum SynthError {
    /// The local model file does not exist.
    ModelNotFound { model: String },
    /// The local model failed; `cause` is the error it reported, which
    /// the message names as the cause rather than repeating.
    LlamaFailed { model: String, cause: String },
}

impl SynthError {
    /// The message shown for the error.
    pub open spec fn message_text(&self) -> Seq<char> {
        match self {
            SynthError::ModelNotFound { model } => "Model file not found: "@ + model@
                + ". Set MEMKIT_LLM_MODEL to a GGUF path, or build with `cargo build --features llama-embedded` for in-process inference."@,
            SynthError::LlamaFailed { model, .. } => "Llama failed (model: "@ + model@ + ")"@,
        }
    }

    /// The message shown for the error.
    pub fn message(&self) -> (r: String)
        ensures
            r@ == self.message_text(),
    {
        match self {
            SynthError::ModelNotFound { model } => {
                let mut s = String::from_str("Model file not found: ");
                s.append(model.as_str());
                s.append(
                    ". Set MEMKIT_LLM_MODEL to a GGUF path, or build with `cargo build --features llama-embedded` for in-process inference.",
                );
                s
            },
            SynthError::LlamaFailed { model, .. } => {
                let mut s = String::from_str("Llama failed (model: ");
                s.append(model.as_str());
                s.append(")");
                s
            },
        }
    }
}

/// What the caller has to do next to answer a question.
#[derive(Debug)]
pub enum SynthStep {
    /// Done: the answer and the provider that produced it.
    Answered { answer: String, provider: QueryProvider },
    /// Send `prompt` to the OpenAI chat API as `model` with `api_key`, then
    /// call `synth_after_openai`.
    CallOpenAi { prompt: String, model: String, api_key: String },
    /// Check that the local model file exists, then call
    /// `synth_after_model_check` with the question prompt `prompt`.
    CheckModel { prompt: String },
    /// Run the local model on `prompt`, then call `synth_after_llama`.
    CallLlama { prompt: String },
    /// Failed.
    Failed(SynthError),
}

/// Whether an `OPENAI_API_KEY` value selects the OpenAI provider.
pub open spec fn usable_api_key(key: Option<String>) -> bool {
    key matches Some(k) && trim(k@).len() > 0
}

/// First step: answer directly when nothing was retrieved, otherwise build
/// the question prompt and prefer OpenAI when `openai_api_key` (the value of
/// `OPENAI_API_KEY`, if set) is not blank; `openai_model` is the configured
/// OpenAI model, if any.
pub fn synth_start(
    query: &str,
    hits: &Vec<ContextChunk>,
    openai_api_key: Option<String>,
    openai_model: Option<String>,
) -> (r: SynthStep)
    ensures
        hits.len() == 0 ==> (r matches SynthStep::Answered { answer, provider } && answer@
            == NO_CONTEXT_ANSWER@ && provider is Llama),
        hits.len() > 0 && usable_api_key(openai_api_key) ==> (r matches SynthStep::CallOpenAi {
            prompt,
            model,
            api_key,
        } && prompt@ == question_prompt(query@, hits@) && api_key@ == openai_api_key->0@ && model@
            == (match openai_model {
            Some(m) => m@,
            None => DEFAULT_OPENAI_MODEL@,
        })),
        hits.len() > 0 && !usable_api_key(openai_api_key) ==> (r matches SynthStep::CheckModel {
            prompt,
        } && prompt@ == question_prompt(query@, hits@)),
{
    if hits.len() == 0 {
        return SynthStep::Answered {
            answer: String::from_str(NO_CONTEXT_ANSWER),
            provider: QueryProvider::Llama,
        };
    }
    let prompt = build_prompt_inner(query, hits);
    match openai_api_key {
        Some(key) => {
            let kc = chars_of(key.as_str());
            let kt = trim_chars(&kc);
            if kt.len() > 0 {
                let model = match openai_model {
                    Some(m) => m,
                    None => String::from_str(DEFAULT_OPENAI_MODEL),
                };
                return SynthStep::CallOpenAi { prompt, model, api_key: key };
            }
            SynthStep::CheckModel { prompt }
        },
        None => SynthStep::CheckModel { prompt },
    }
}

/// Whether an HTTP reply (status code, status text, body) carries an
/// answer, and which.
pub open spec fn openai_answer(reply: Result<(u16, String, String), String>) -> Option<Seq<char>> {
    match reply {
        Ok((code, _status, body)) => if is_success(code) && json_parses(body@) {
            json_str_at(body@, content_path())
        } else {
            None
        },
        Err(_) => None,
    }
}

/// After the OpenAI call: `reply` is its HTTP reply (status code, status
/// text, body) or, as `Err`, why the request failed. A reply that carries
/// an answer gives it (cleaned, or only trimmed when `raw` is set); any
/// failure falls back to the local model with `prompt`.
pub fn synth_after_openai(
    prompt: String,
    model: String,
    reply: Result<(u16, String, String), String>,
    raw: bool,
) -> (r: SynthStep)
    ensures
        openai_answer(reply) matches Some(out) ==> (r matches SynthStep::Answered {
            answer,
            provider,
        } && answer@ == finish_answer_spec(out, raw) && (provider matches QueryProvider::OpenAI(m)
            && m@ == model@)),
        openai_answer(reply) is None ==> (r matches SynthStep::CheckModel { prompt: p } && p@
            == prompt@),
{
    match reply {
        Ok((code, status, body)) => match openai_reply(code, status.as_str(), body.as_str()) {
            Ok(out) => SynthStep::Answered {
                answer: finish_answer(out.as_str(), raw),
                provider: QueryProvider::OpenAI(model),
            },
            Err(_) => SynthStep::CheckModel { prompt },
        },
        Err(_) => SynthStep::CheckModel { prompt },
    }
}

/// After checking the local model file `model_path`: fail when it does not
/// exist, otherwise run the model on the chat-templated `prompt`.
pub fn synth_after_model_check(prompt: String, model_path: String, exists: bool) -> (r: SynthStep)
    ensures
        !exists ==> (r matches SynthStep::Failed(SynthError::ModelNotFound { model }) && model@
            == model_path@),
        exists ==> (r matches SynthStep::CallLlama { prompt: p } && p@ == llama_prompt(prompt@)),
{
    if !exists {
        return SynthStep::Failed(SynthError::ModelNotFound { model: model_path });
    }
    SynthStep::CallLlama { prompt: build_prompt_llama(prompt.as_str()) }
}

/// After the local model run on `model_path`: its output gives the answer,
/// its failure the error. `raw` asks for the trimmed output instead of the
/// cleaned answer.
pub fn synth_after_llama(model_path: String, reply: Result<String, String>, raw: bool) -> (r: SynthStep)
    ensures
        reply matches Ok(out) ==> (r matches SynthStep::Answered { answer, provider } && answer@
            == finish_answer_spec(out@, raw) && provider is Llama),
        reply matches Err(e) ==> (r matches SynthStep::Failed(SynthError::LlamaFailed { model, cause })
            && model@ == model_path@ && cause@ == e@),
{
    match reply {
        Ok(out) => SynthStep::Answered {
            answer: finish_answer(out.as_str(), raw),
            provider: QueryProvider::Llama,
        },
        Err(e) => SynthStep::Failed(SynthError::LlamaFailed { model: model_path, cause: e }),
    }
}

/// The context placed in a prompt never exceeds `MAX_CONTEXT_CHARS` bytes
/// (when it starts within the budget), and takes at most `MAX_CHUNKS`
/// blocks: it is `acc` followed by the blocks of some of the chunks from
/// `i` on, below index 8.
pub proof fn lemma_context_within_budget(hits: Seq<ContextChunk>, i: int, acc: Seq<char>)
    requires
        0 <= i <= 8,
        utf8_len(acc) <= 8000,
    ensures
        utf8_len(context_from(hits, i, acc)) <= 8000,
        context_from(hits, i, acc) == acc + blocks_between(hits, i, context_end(hits, i, acc)),
        i <= context_end(hits, i, acc) <= 8,
    decreases 8 - i,
{
    if i >= hits.len() || i >= 8 {
        assert(acc + Seq::<char>::empty() == acc);
    } else {
        let b = context_block(hits[i].content@, hits[i].file_path@);
        if utf8_len(acc) + utf8_len(b) > 8000 {
            assert(acc + Seq::<char>::empty() == acc);
        } else {
            lemma_utf8_len_concat(acc, b);
            lemma_context_within_budget(hits, i + 1, acc + b);
            let e = context_end(hits, i + 1, acc + b);
            assert(blocks_between(hits, i, e) == b + blocks_between(hits, i + 1, e));
        }
    }
}

/// The index just past the last chunk whose block `context_from` adds.
pub open spec fn context_end(hits: Seq<ContextChunk>, i: int, acc: Seq<char>) -> int
    decreases 8 - i,
{
    if i < 0 || i >= hits.len() || i >= 8 {
        i
    } else {
        let b = context_block(hits[i].content@, hits[i].file_path@);
        if utf8_len(acc) + utf8_len(b) > 8000 {
            i
        } else {
            context_end(hits, i + 1, acc + b)
        }
    }
}

/// The blocks of chunks `i..j`, concatenated.
pub open spec fn blocks_between(hits: Seq<ContextChunk>, i: int, j: int) -> Seq<char>
    decreases j - i,
{
    if i >= j {
        seq![]
    } else {
        context_block(hits[i].content@, hits[i].file_path@) + blocks_between(hits, i + 1, j)
    }
}

/// Occurrences inside a middle part are occurrences in the whole.
proof fn lemma_occurs_in_middle(a: Seq<char>, x: Seq<char>, b: Seq<char>, p: Seq<char>, k: int)
    requires
        occurs_at(x, p, k),
    ensures
        occurs_at(a + x + b, p, a.len() + k),
{
    assert((a + x + b).subrange(a.len() + k, a.len() + k + p.len()) =~= x.subrange(k, k + p.len()));
}

/// The blocks of chunks `i..e` hold the block of each chunk among them.
proof fn lemma_blocks_hold_block(hits: Seq<ContextChunk>, i: int, e: int, j: int)
    requires
        0 <= i <= j < e <= hits.len(),
    ensures
        contains_seq(
            blocks_between(hits, i, e),
            context_block(hits[j].content@, hits[j].file_path@),
        ),
    decreases j - i,
{
    let b = context_block(hits[i].content@, hits[i].file_path@);
    let rest = blocks_between(hits, i + 1, e);
    assert(blocks_between(hits, i, e) == b + rest);
    if j == i {
        assert(occurs_at(b + rest, b, 0)) by {
            assert((b + rest).subrange(0, b.len() as int) =~= b);
        }
    } else {
        lemma_blocks_hold_block(hits, i + 1, e, j);
        let p = context_block(hits[j].content@, hits[j].file_path@);
        let k = choose|k: int| occurs_at(rest, p, k);
        lemma_occurs_in_middle(b, rest, Seq::<char>::empty(), p, k);
        assert(b + rest + Seq::<char>::empty() == b + rest);
    }
}

/// The question prompt starts with the fixed instructions, followed by the
/// query exactly as given and then the context heading; and for every chunk
/// whose block the context takes, the prompt holds the chunk's whole text,
/// trimmed, followed by `\n(source: `, its file path and `)\n---\n`.
pub proof fn lemma_prompt_holds_question_and_chunks(q: Seq<char>, hits: Seq<ContextChunk>)
    ensures
        question_prompt(q, hits).take(prompt_instructions().len() as int) == prompt_instructions(),
        question_prompt(q, hits).subrange(
            prompt_instructions().len() as int,
            (prompt_instructions().len() + q.len()) as int,
        ) == q,
        question_prompt(q, hits).subrange(
            (prompt_instructions().len() + q.len()) as int,
            (prompt_instructions().len() + q.len() + "\n\nContext:\n---\n"@.len()) as int,
        ) == "\n\nContext:\n---\n"@,
        forall|j: int|
            0 <= j < context_end(hits, 0, seq![]) ==> contains_seq(
                question_prompt(q, hits),
                trim(#[trigger] hits[j].content@) + "\n(source: "@ + hits[j].file_path@
                    + ")\n---\n"@,
            ),
{
    let pre = prompt_instructions();
    let head = "\n\nContext:\n---\n"@;
    let ctx = context_from(hits, 0, seq![]);
    let tail = "\n\nReply:"@;
    let r = question_prompt(q, hits);
    assert(r == pre + q + head + ctx + tail);
    assert(r.take(pre.len() as int) =~= pre);
    assert(r.subrange(pre.len() as int, (pre.len() + q.len()) as int) =~= q);
    assert(r.subrange((pre.len() + q.len()) as int, (pre.len() + q.len() + head.len()) as int) =~= head);
    lemma_utf8_len_at_least_len(Seq::<char>::empty());
    lemma_context_within_budget(hits, 0, seq![]);
    let e = context_end(hits, 0, seq![]);
    assert(ctx == blocks_between(hits, 0, e)) by {
        assert(Seq::<char>::empty() + blocks_between(hits, 0, e) =~= blocks_between(hits, 0, e));
    }
    assert forall|j: int| 0 <= j < e implies contains_seq(
        r,
        trim(#[trigger] hits[j].content@) + "\n(source: "@ + hits[j].file_path@ + ")\n---\n"@,
    ) by {
        assert(e <= hits.len()) by {
            lemma_context_end_bound(hits, 0, seq![]);
        }
        lemma_blocks_hold_block(hits, 0, e, j);
        let p = context_block(hits[j].content@, hits[j].file_path@);
        let k = choose|k: int| occurs_at(ctx, p, k);
        lemma_occurs_in_middle(pre + q + head, ctx, tail, p, k);
    }
}

/// The chunks the context takes are among the given ones.
proof fn lemma_context_end_bound(hits: Seq<ContextChunk>, i: int, acc: Seq<char>)
    requires
        0 <= i <= hits.len(),
    ensures
        context_end(hits, i, acc) <= hits.len(),
    decreases 8 - i,
{
    if i < hits.len() && i < 8 {
        let b = context_block(hits[i].content@, hits[i].file_path@);
        if utf8_len(acc) + utf8_len(b) <= 8000 {
            lemma_context_end_bound(hits, i + 1, acc + b);
        }
    }
}

} // verus!

use satori::openai::{openai_reply, OpenAiError};
use satori::pack_location::PackLocation;
use satori::rerank::{model_from_name, RerankerChoice, DEFAULT_RERANKER_MODEL};
use satori::service::{
    EmbedderStart,
    default_mode, default_top_k, embedder_start_step, health_report, mcp_route, memory_query_args, score_mode,
    McpRoute, McpTool, ScoreMode,
};
use satori::synth::{
    build_prompt_inner, build_prompt_llama, synth_after_llama, synth_after_model_check,
    synth_after_openai, synth_start, ContextChunk, QueryProvider, SynthError, SynthStep,
    NO_CONTEXT_ANSWER,
};

#[test]
fn provider_labels() {
    assert_eq!(QueryProvider::Llama.label(), "Internal: Llama");
    assert_eq!(QueryProvider::OpenAI("gpt-4o-mini".to_string()).label(), "OpenAI: gpt-4o-mini");
    assert_eq!(QueryProvider::OpenAI("a".to_string()), QueryProvider::OpenAI("a".to_string()));
    assert_ne!(QueryProvider::OpenAI("a".to_string()), QueryProvider::Llama);
}

#[test]
fn llama_prompt_template() {
    assert_eq!(build_prompt_llama("Q"), "<|user|>\nQ\n<|assistant|>\n");
}

fn chunk(c: &str, p: &str) -> ContextChunk {
    ContextChunk { content: c.to_string(), file_path: p.to_string() }
}

#[test]
fn question_prompt_layout() {
    let p = build_prompt_inner("how much?", &vec![chunk("  $5 total \n", "a.md")]);
    assert_eq!(
        p,
        "Using only the context below, answer the question in 1-2 sentences. If the context contains relevant numbers, amounts, or facts, state them. Only say you cannot determine the answer if the context truly does not contain the information.\n\nQuestion: how much?\n\nContext:\n---\n$5 total\n(source: a.md)\n---\n\n\nReply:"
    );
}

#[test]
fn question_prompt_takes_at_most_eight_chunks() {
    let hits: Vec<ContextChunk> = (0..10).map(|i| chunk(&format!("c{i}"), "f")).collect();
    let p = build_prompt_inner("q", &hits);
    assert!(p.contains("c7\n"));
    assert!(!p.contains("c8\n"));
}

#[test]
fn question_prompt_stops_at_byte_budget() {
    // 3000 two-byte characters give 6000 bytes, so only one block fits.
    let big = "é".repeat(3000);
    let hits = vec![chunk(&big, "a"), chunk(&big, "b"), chunk("small", "c")];
    let p = build_prompt_inner("q", &hits);
    assert!(p.contains("(source: a)"));
    assert!(!p.contains("(source: b)"));
    assert!(!p.contains("small"));
}

#[test]
fn synthesis_without_hits_answers_directly() {
    match synth_start("q", &Vec::new(), Some("key".to_string()), None) {
        SynthStep::Answered { answer, provider } => {
            assert_eq!(answer, NO_CONTEXT_ANSWER);
            assert_eq!(provider, QueryProvider::Llama);
        }
        other => panic!("unexpected {other:?}"),
    }
}

#[test]
fn synthesis_prefers_openai_with_key() {
    let hits = vec![chunk("x", "f")];
    match synth_start("q", &hits, Some("sk-1".to_string()), None) {
        SynthStep::CallOpenAi { model, api_key, prompt } => {
            assert_eq!(model, "gpt-4o-mini");
            assert_eq!(api_key, "sk-1");
            assert_eq!(prompt, build_prompt_inner("q", &hits));
        }
        other => panic!("unexpected {other:?}"),
    }
    match synth_start("q", &hits, Some("sk".to_string()), Some("m2".to_string())) {
        SynthStep::CallOpenAi { model, .. } => assert_eq!(model, "m2"),
        other => panic!("unexpected {other:?}"),
    }
}

#[test]
fn synthesis_blank_key_goes_local() {
    let hits = vec![chunk("x", "f")];
    assert!(matches!(synth_start("q", &hits, Some("  ".to_string()), None), SynthStep::CheckModel { .. }));
    assert!(matches!(synth_start("q", &hits, None, None), SynthStep::CheckModel { .. }));
}

fn reply(code: u16, body: &str) -> Result<(u16, String, String), String> {
    Ok((code, format!("{code}"), body.to_string()))
}

#[test]
fn synthesis_openai_reply_and_failure() {
    let ok = r#"{"choices":[{"message":{"role":"assistant","content":"1. \"yes\""}}]}"#;
    match synth_after_openai("p".to_string(), "m".to_string(), reply(200, ok), false) {
        SynthStep::Answered { answer, provider } => {
            assert_eq!(answer, "yes");
            assert_eq!(provider, QueryProvider::OpenAI("m".to_string()));
        }
        other => panic!("unexpected {other:?}"),
    }
    for r in [
        Err("down".to_string()),
        reply(500, ok),
        reply(200, "not json"),
        reply(200, r#"{"choices":[]}"#),
    ] {
        match synth_after_openai("p".to_string(), "m".to_string(), r, false) {
            SynthStep::CheckModel { prompt } => assert_eq!(prompt, "p"),
            other => panic!("unexpected {other:?}"),
        }
    }
}

#[test]
fn openai_reply_outcomes() {
    let ok = r#"{"choices":[{"message":{"content":"The answer."}}]}"#;
    assert_eq!(openai_reply(200, "200 OK", ok).unwrap(), "The answer.");
    let e = openai_reply(429, "429 Too Many Requests", "slow down").unwrap_err();
    assert!(matches!(e, OpenAiError::Status { code: 429, .. }));
    assert_eq!(e.message(), "OpenAI API error (429 Too Many Requests): slow down");
    let e = openai_reply(200, "200 OK", "{oops").unwrap_err();
    assert!(matches!(e, OpenAiError::Parse));
    assert_eq!(e.message(), "parse OpenAI JSON response");
    for body in [
        r#"{"choices":[{"message":{"content":null}}]}"#,
        r#"{"choices":{"0":{"message":{"content":"x"}}}}"#,
        r#"{}"#,
    ] {
        let e = openai_reply(200, "200 OK", body).unwrap_err();
        assert!(matches!(e, OpenAiError::MissingContent));
        assert_eq!(e.message(), "OpenAI response missing choices[0].message.content");
    }
}

#[test]
fn synthesis_model_check_and_llama() {
    match synth_after_model_check("p".to_string(), "/m.gguf".to_string(), false) {
        SynthStep::Failed(e) => assert_eq!(
            e.message(),
            "Model file not found: /m.gguf. Set MEMKIT_LLM_MODEL to a GGUF path, or build with `cargo build --features llama-embedded` for in-process inference."
        ),
        other => panic!("unexpected {other:?}"),
    }
    match synth_after_model_check("p".to_string(), "/m.gguf".to_string(), true) {
        SynthStep::CallLlama { prompt } => assert_eq!(prompt, "<|user|>\np\n<|assistant|>\n"),
        other => panic!("unexpected {other:?}"),
    }
    match synth_after_llama("/m".to_string(), Ok(" raw |Human: x ".to_string()), true) {
        SynthStep::Answered { answer, .. } => assert_eq!(answer, "raw |Human: x"),
        other => panic!("unexpected {other:?}"),
    }
    match synth_after_llama("/m".to_string(), Err("boom".to_string()), false) {
        SynthStep::Failed(e) => {
            match &e {
                SynthError::LlamaFailed { model, cause } => {
                    assert_eq!(model, "/m");
                    assert_eq!(cause, "boom");
                }
                other => panic!("unexpected {other:?}"),
            }
            assert_eq!(e.message(), "Llama failed (model: /m)");
        }
        other => panic!("unexpected {other:?}"),
    }
}

#[test]
fn reranker_names() {
    assert_eq!(model_from_name("BAAI/bge-reranker-base"), RerankerChoice::BGERerankerBase);
    assert_eq!(model_from_name("BAAI/bge-reranker-v2-m3"), RerankerChoice::BGERerankerV2M3);
    assert_eq!(
        model_from_name("jinaai/jina-reranker-v2-base-multilingual"),
        RerankerChoice::JINARerankerV2BaseMultiligual
    );
    assert_eq!(model_from_name(DEFAULT_RERANKER_MODEL), RerankerChoice::JINARerankerV1TurboEn);
    assert_eq!(model_from_name("unknown"), RerankerChoice::JINARerankerV1TurboEn);
}

#[test]
fn request_defaults() {
    assert_eq!(default_mode(), "hybrid");
    assert_eq!(default_top_k(), 8);
    assert_eq!(score_mode("vector"), ScoreMode::Vector);
    assert_eq!(score_mode("hybrid"), ScoreMode::Hybrid);
    assert_eq!(score_mode("other"), ScoreMode::Hybrid);
}

#[test]
fn health_verdicts() {
    let h = health_report(None, None);
    assert_eq!((h.status_code, h.status.as_str()), (200, "ok"));
    let h = health_report(Some("/tmp/f.sock".to_string()), Some(false));
    assert_eq!((h.status_code, h.status.as_str()), (503, "degraded"));
    assert_eq!(h.falkordb_socket.as_deref(), Some("/tmp/f.sock"));
    assert_eq!(h.falkordb_connected, Some(false));
    let h = health_report(Some("/s".to_string()), Some(true));
    assert_eq!((h.status_code, h.status.as_str()), (200, "ok"));
}

#[test]
fn mcp_routing() {
    assert_eq!(mcp_route("initialize", ""), McpRoute::Initialize);
    assert_eq!(mcp_route("tools/list", "memory_query"), McpRoute::ToolsList);
    assert_eq!(mcp_route("tools/call", "memory_query"), McpRoute::CallTool(McpTool::MemoryQuery));
    assert_eq!(mcp_route("tools/call", "memory_status"), McpRoute::CallTool(McpTool::MemoryStatus));
    assert_eq!(mcp_route("tools/call", "memory_sources"), McpRoute::CallTool(McpTool::MemorySources));
    assert_eq!(mcp_route("tools/call", "nope"), McpRoute::CallTool(McpTool::Unknown));
    assert_eq!(mcp_route("", ""), McpRoute::BadMethod);
}

#[test]
fn mcp_query_defaults() {
    let a = memory_query_args(None, None, None);
    assert_eq!((a.query.as_str(), a.mode.as_str(), a.top_k), ("", "hybrid", 8));
    let a = memory_query_args(Some("q".to_string()), Some("vector".to_string()), Some(3));
    assert_eq!((a.query.as_str(), a.mode.as_str(), a.top_k), ("q", "vector", 3));
}

#[test]
fn pack_location_paths() {
    let p = PackLocation::local("/data/pack".to_string());
    assert_eq!(p.as_path(), Some("/data/pack"));
    assert_eq!(p.file_path("pack.json"), "/data/pack/pack.json");
    assert_eq!(p.file_path("/etc/x"), "/etc/x");
    let q = PackLocation::local("pack/".to_string());
    assert_eq!(q.file_path("state/index.json"), "pack/state/index.json");
    let e = PackLocation::local(String::new());
    assert_eq!(e.file_path("a"), "a");
}

#[test]
fn embedder_start_keeps_a_provider_that_started() {
    assert!(matches!(embedder_start_step("fastembed", true), EmbedderStart::Ready));
    assert!(matches!(embedder_start_step("hash", true), EmbedderStart::Ready));
}

#[test]
fn embedder_start_falls_back_from_fastembed_to_hash() {
    match embedder_start_step("fastembed", false) {
        EmbedderStart::FallBack { provider } => assert_eq!(provider, "hash"),
        other => panic!("unexpected step {:?}", other),
    }
}

#[test]
fn embedder_start_fails_for_other_providers() {
    assert!(matches!(embedder_start_step("hash", false), EmbedderStart::Fail));
    assert!(matches!(embedder_start_step("openai", false), EmbedderStart::Fail));
    assert!(matches!(embedder_start_step("", false), EmbedderStart::Fail));
}

#[test]
fn query_provider_clones_keep_the_label() {
    let p = QueryProvider::OpenAI("gpt-4o-mini".to_string());
    let q = p.clone();
    assert_eq!(q.label(), "OpenAI: gpt-4o-mini");
    assert!(p == q);
    assert_eq!(QueryProvider::Llama.clone().label(), "Internal: Llama");
}

//! Choice of the cross-encoder reranking model.

use vstd::prelude::*;
use crate::text::str_eq;

verus! {

/// Model used when none is configured.
pub const DEFAULT_RERANKER_MODEL: &'static str = "jinaai/jina-reranker-v1-turbo-en";

/// The reranking models on offer.
#[derive(Debug, PartialEq, Eq, Structural)]
pub enum RerankerChoice {
    /// `BAAI/bge-reranker-base`
    BGERerankerBase,
    /// `BAAI/bge-reranker-v2-m3`
    BGERerankerV2M3,
    /// `jinaai/jina-reranker-v1-turbo-en`
    JINARerankerV1TurboEn,
    /// `jinaai/jina-reranker-v2-base-multilingual`
    JINARerankerV2BaseMultiligual,
}

/// The model a configured name selects; unknown names select
/// `jinaai/jina-reranker-v1-turbo-en`.
pub open spec fn reranker_for_name(name: Seq<char>) -> RerankerChoice {
    if name == "BAAI/bge-reranker-base"@ {
        RerankerChoice::BGERerankerBase
    } else if name == "BAAI/bge-reranker-v2-m3"@ {
        RerankerChoice::BGERerankerV2M3
    } else if name == "jinaai/jina-reranker-v1-turbo-en"@ {
        RerankerChoice::JINARerankerV1TurboEn
    } else if name == "jinaai/jina-reranker-v2-base-multilingual"@ {
        RerankerChoice::JINARerankerV2BaseMultiligual
    } else {
        RerankerChoice::JINARerankerV1TurboEn
    }
}

/// The reranking model named `name` (the default model for unknown names).
pub fn model_from_name(name: &str) -> (r: RerankerChoice)
    ensures
        r == reranker_for_name(name@),
{
    if str_eq(name, "BAAI/bge-reranker-base") {
        RerankerChoice::BGERerankerBase
    } else if str_eq(name, "BAAI/bge-reranker-v2-m3") {
        RerankerChoice::BGERerankerV2M3
    } else if str_eq(name, "jinaai/jina-reranker-v1-turbo-en") {
        RerankerChoice::JINARerankerV1TurboEn
    } else if str_eq(name, "jinaai/jina-reranker-v2-base-multilingual") {
        RerankerChoice::JINARerankerV2BaseMultiligual
    } else {
        RerankerChoice::JINARerankerV1TurboEn
    }
}

} // verus!

//! Lexical matching: the token set of a text and the overlap of a query's
//! tokens with a document's.

use vstd::prelude::*;
use crate::text::{
    chars_of, kept, lemma_runs_shape, lowercase_of, runs, split_runs, string_from_chars, to_lowercase,
    RunKind,
};

verus! {

/// The tokens of `text`: the maximal runs of alphanumeric characters of its
/// lowercase form, in order, repeats included.
pub open spec fn token_words(text: Seq<char>) -> Seq<Seq<char>> {
    runs(lowercase_of(text), RunKind::Alnum)
}

/// A set of distinct tokens, kept in order of first appearance.
///
/// The tokens are held in a vector that never holds one twice, so that the
/// set has a specification over the token strings (`@` is the set of their
/// character sequences); std's `HashSet` has none for `String` elements.
pub struct TokenSet {
    tokens: Vec<String>,
}

impl TokenSet {
    /// The tokens, in order of first appearance.
    pub closed spec fn token_seq(&self) -> Seq<Seq<char>> {
        self.tokens@.map_values(|t: String| t@)
    }

    #[verifier::type_invariant]
    spec fn wf(&self) -> bool {
        self.token_seq().no_duplicates()
    }

    /// The tokens, each once.
    pub fn tokens(&self) -> (r: &Vec<String>)
        ensures
            r@.map_values(|t: String| t@) == self.token_seq(),
    {
        &self.tokens
    }

    /// Number of distinct tokens.
    pub fn len(&self) -> (n: usize)
        ensures
            n == self@.len(),
    {
        proof {
            use_type_invariant(self);
            self.token_seq().unique_seq_to_set();
        }
        self.tokens.len()
    }

    /// Whether `token` is one of the tokens.
    pub fn contains(&self, token: &String) -> (b: bool)
        ensures
            b == self@.contains(token@),
    {
        let mut i: usize = 0;
        while i < self.tokens.len()
            invariant
                i <= self.tokens.len(),
                forall|k: int| 0 <= k < i ==> self.token_seq()[k] != token@,
            decreases self.tokens.len() - i,
        {
            if self.tokens[i].eq(token) {
                assert(self.token_seq()[i as int] == token@);
                return true;
            }
            i = i + 1;
        }
        false
    }
}

impl View for TokenSet {
    type V = Set<Seq<char>>;

    open spec fn view(&self) -> Set<Seq<char>> {
        self.token_seq().to_set()
    }
}

/// The distinct tokens of `text` (lowercased, split at every character that
/// is not alphanumeric, empty pieces dropped), in order of first appearance.
pub fn tokenize(text: &str) -> (r: TokenSet)
    ensures
        r.token_seq() == token_words(text@).remove_duplicates(seq![]),
        r@ == token_words(text@).to_set(),
        forall|i: int|
            0 <= i < runs(lowercase_of(text@), RunKind::Alnum).len() ==> r@.contains(
                #[trigger] runs(lowercase_of(text@), RunKind::Alnum)[i],
            ),
        forall|w: Seq<char>|
            #[trigger] r@.contains(w) ==> runs(lowercase_of(text@), RunKind::Alnum).contains(w),
{
    let lower = to_lowercase(text);
    let cs = chars_of(lower.as_str());
    let words = split_runs(&cs, RunKind::Alnum);
    let ghost ws = words@.map_values(|w: Vec<char>| w@);
    let mut tokens: Vec<String> = Vec::new();
    let mut i: usize = 0;
    assert(ws.take(0) == Seq::<Seq<char>>::empty());
    while i < words.len()
        invariant
            ws == words@.map_values(|w: Vec<char>| w@),
            ws == token_words(text@),
            i <= words.len(),
            tokens@.map_values(|t: String| t@) == ws.take(i as int).remove_duplicates(seq![]),
            tokens@.map_values(|t: String| t@).no_duplicates(),
        decreases words.len() - i,
    {
        let w = string_from_chars(&words[i]);
        let ghost seen = tokens@.map_values(|t: String| t@);
        proof {
            assert(ws[i as int] == w@);
            assert(ws.take(i + 1) == ws.take(i as int) + seq![w@]);
            ws.take(i as int).lemma_remove_duplicates_properties(seq![]);
            ws.take(i as int).lemma_remove_duplicates_append(w@, seq![]);
            assert(ws.take(i as int) + Seq::<Seq<char>>::empty() == ws.take(i as int));
        }
        let mut present = false;
        let mut k: usize = 0;
        while k < tokens.len()
            invariant
                k <= tokens.len(),
                seen == tokens@.map_values(|t: String| t@),
                !present ==> forall|t: int| 0 <= t < k ==> seen[t] != w@,
                present ==> seen.contains(w@),
            decreases tokens.len() - k,
        {
            if tokens[k].eq(&w) {
                assert(seen[k as int] == w@);
                present = true;
            }
            k = k + 1;
        }
        if !present {
            assert(!seen.contains(w@)) by {
                if seen.contains(w@) {
                    let t = choose|t: int| 0 <= t < seen.len() && #[trigger] seen[t] == w@;
                }
            }
            tokens.push(w);
            assert(tokens@.map_values(|t: String| t@) == seen.push(w@));
            assert(seen.push(w@) == seen + seq![w@]);
        }
        i = i + 1;
    }
    assert(ws.take(words.len() as int) == ws);
    let r = TokenSet { tokens };
    proof {
        let d = token_words(text@).remove_duplicates(seq![]);
        token_words(text@).lemma_remove_duplicates_properties(seq![]);
        assert(token_words(text@) + Seq::<Seq<char>>::empty() == token_words(text@));
        assert(d.to_set() =~= token_words(text@).to_set());
        let rs = runs(lowercase_of(text@), RunKind::Alnum);
        assert forall|i: int| 0 <= i < rs.len() implies r@.contains(#[trigger] rs[i]) by {
            assert(token_words(text@)[i] == rs[i]);
        }
    }
    r
}

/// A token is in the token set of `text` exactly when it is one of the
/// maximal alphanumeric runs of the lowercased text, wherever in the text
/// that run stands.
pub proof fn lemma_tokens_are_all_runs(text: Seq<char>, w: Seq<char>)
    ensures
        tokenize_spec(text).contains(w) <==> runs(lowercase_of(text), RunKind::Alnum).contains(w),
{
}

/// Number of the query's tokens that are also tokens of `content`.
pub fn token_overlap(query: &TokenSet, content: &str) -> (n: usize)
    ensures
        n == query@.intersect(tokenize_spec(content@)).len(),
{
    let doc = tokenize(content);
    let qt = query.tokens();
    let ghost q = query.token_seq();
    let ghost d = doc@;
    let ghost pred = |t: Seq<char>| d.contains(t);
    proof {
        use_type_invariant(query);
    }
    let mut count: usize = 0;
    let mut i: usize = 0;
    while i < qt.len()
        invariant
            qt@.map_values(|t: String| t@) == q,
            d == doc@,
            pred == (|t: Seq<char>| d.contains(t)),
            i <= qt.len(),
            count == q.take(i as int).filter(pred).len(),
            count <= i,
        decreases qt.len() - i,
    {
        proof {
            assert(q.take(i + 1) == q.take(i as int).push(q[i as int]));
            q.take(i as int).lemma_filter_push(q[i as int], pred);
            assert(q[i as int] == qt@[i as int]@);
        }
        if doc.contains(&qt[i]) {
            count = count + 1;
        }
        i = i + 1;
    }
    proof {
        assert(q.take(qt.len() as int) == q);
        let f = q.filter(pred);
        lemma_filter_no_dup(q, pred);
        f.unique_seq_to_set();
        assert forall|t: Seq<char>| f.to_set().contains(t) <==> query@.intersect(d).contains(t) by {
            if f.contains(t) {
                q.lemma_filter_contains_rev(pred, t);
            }
            if q.contains(t) && pred(t) {
                let j = choose|j: int| 0 <= j < q.len() && q[j] == t;
                q.lemma_filter_contains(pred, j);
            }
        }
        assert(f.to_set() =~= query@.intersect(d));
    }
    count
}

/// The token set of `content` as a set.
pub open spec fn tokenize_spec(content: Seq<char>) -> Set<Seq<char>> {
    token_words(content).to_set()
}

proof fn lemma_filter_no_dup(s: Seq<Seq<char>>, pred: spec_fn(Seq<char>) -> bool)
    requires
        s.no_duplicates(),
    ensures
        s.filter(pred).no_duplicates(),
    decreases s.len(),
{
    if s.len() > 0 {
        let init = s.drop_last();
        assert(init.no_duplicates());
        lemma_filter_no_dup(init, pred);
        assert(s == init.push(s.last()));
        init.lemma_filter_push(s.last(), pred);
        if pred(s.last()) {
            assert(!init.filter(pred).contains(s.last())) by {
                if init.filter(pred).contains(s.last()) {
                    init.lemma_filter_contains_rev(pred, s.last());
                    let j = choose|j: int| 0 <= j < init.len() && init[j] == s.last();
                    assert(s[j] == s[s.len() - 1]);
                }
            }
        }
    }
}

/// Every token is non-empty and made of alphanumeric characters only.
pub proof fn lemma_tokens_are_alphanumeric(text: Seq<char>, tok: Seq<char>)
    requires
        token_words(text).to_set().contains(tok),
    ensures
        tok.len() > 0,
        forall|t: int| 0 <= t < tok.len() ==> crate::text::is_alphanumeric_char(#[trigger] tok[t]),
{
    let ws = token_words(text);
    lemma_runs_shape(lowercase_of(text), RunKind::Alnum);
    let j = choose|j: int| 0 <= j < ws.len() && ws[j] == tok;
    assert(ws[j].len() > 0);
    assert forall|t: int| 0 <= t < tok.len() implies crate::text::is_alphanumeric_char(#[trigger] tok[t]) by {
        assert(kept(RunKind::Alnum, ws[j][t]));
    }
}

/// The overlap never exceeds the number of query tokens, so the lexical
/// score `overlap / |query|` lies between 0 and 1.
pub proof fn lemma_overlap_bounded(query: Set<Seq<char>>, doc: Set<Seq<char>>)
    requires
        query.finite(),
    ensures
        query.intersect(doc).len() <= query.len(),
{
    vstd::set_lib::lemma_len_intersect(query, doc);
}

} // verus!

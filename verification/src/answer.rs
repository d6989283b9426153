//! Post-processing of model output: cutting at the next chat turn,
//! removing chat-template tokens and normalising a numbered first line.

use vstd::prelude::*;
use crate::text::{
    chars_of, contains_seq, copy_range, extend_chars, find, find_exec, is_collapsed, is_trimmed,
    is_ws, join_space, join_with_space, lemma_find, lemma_join_space_collapsed, lemma_run_len_bound,
    lemma_runs_shape, lemma_trim_end_shape, lemma_trim_is_trimmed, lemma_trim_of_trimmed,
    lemma_trim_start_shape, occurs_at, occurs_at_exec, run_len, runs, split_runs, string_from_chars,
    trim, trim_chars, trim_end, trim_end_chars, trim_start, trim_start_index, is_whitespace, RunKind,
};

verus! {

// ---------------------------------------------------------------------------
// Cutting at the next turn.
// ---------------------------------------------------------------------------

/// Number of next-turn markers.
pub const NEXT_TURN_MARKER_COUNT: usize = 9;

/// The `k`-th marker that starts a new chat turn in model output:
/// `|Human:`, `|human:`, `|ASSISTANT:`, `|Assistant:`, `|assistant:`,
/// `Human:`, `ASSISTANT:`, `<|user|>`, `<|assistant|>`.
pub open spec fn next_turn_marker(k: int) -> Seq<char> {
    if k == 0 {
        seq!['|', 'H', 'u', 'm', 'a', 'n', ':']
    } else if k == 1 {
        seq!['|', 'h', 'u', 'm', 'a', 'n', ':']
    } else if k == 2 {
        seq!['|', 'A', 'S', 'S', 'I', 'S', 'T', 'A', 'N', 'T', ':']
    } else if k == 3 {
        seq!['|', 'A', 's', 's', 'i', 's', 't', 'a', 'n', 't', ':']
    } else if k == 4 {
        seq!['|', 'a', 's', 's', 'i', 's', 't', 'a', 'n', 't', ':']
    } else if k == 5 {
        seq!['H', 'u', 'm', 'a', 'n', ':']
    } else if k == 6 {
        seq!['A', 'S', 'S', 'I', 'S', 'T', 'A', 'N', 'T', ':']
    } else if k == 7 {
        seq!['<', '|', 'u', 's', 'e', 'r', '|', '>']
    } else {
        seq!['<', '|', 'a', 's', 's', 'i', 's', 't', 'a', 'n', 't', '|', '>']
    }
}

fn next_turn_markers() -> (v: Vec<Vec<char>>)
    ensures
        v.len() == NEXT_TURN_MARKER_COUNT,
        forall|k: int| 0 <= k < 9 ==> #[trigger] v@[k]@ == next_turn_marker(k),
{
    let v = vec![
        vec!['|', 'H', 'u', 'm', 'a', 'n', ':'],
        vec!['|', 'h', 'u', 'm', 'a', 'n', ':'],
        vec!['|', 'A', 'S', 'S', 'I', 'S', 'T', 'A', 'N', 'T', ':'],
        vec!['|', 'A', 's', 's', 'i', 's', 't', 'a', 'n', 't', ':'],
        vec!['|', 'a', 's', 's', 'i', 's', 't', 'a', 'n', 't', ':'],
        vec!['H', 'u', 'm', 'a', 'n', ':'],
        vec!['A', 'S', 'S', 'I', 'S', 'T', 'A', 'N', 'T', ':'],
        vec!['<', '|', 'u', 's', 'e', 'r', '|', '>'],
        vec!['<', '|', 'a', 's', 's', 'i', 's', 't', 'a', 'n', 't', '|', '>'],
    ];
    assert(forall|k: int| 0 <= k < 9 ==> #[trigger] v@[k]@ == next_turn_marker(k));
    v
}

/// The earliest position at which one of the first `n` markers occurs in
/// `s`, or `s.len()` when none of them does.
pub open spec fn cut_index_upto(s: Seq<char>, n: int) -> int
    decreases n,
{
    if n <= 0 {
        s.len() as int
    } else {
        let rest = cut_index_upto(s, n - 1);
        match find(s, next_turn_marker(n - 1)) {
            Some(i) => if i < rest {
                i
            } else {
                rest
            },
            None => rest,
        }
    }
}

/// The earliest position at which any next-turn marker occurs in `s`.
pub open spec fn cut_index(s: Seq<char>) -> int {
    cut_index_upto(s, 9)
}

/// The text before the first next-turn marker, without trailing whitespace.
pub open spec fn cut_at_next_turn_spec(s: Seq<char>) -> Seq<char> {
    trim_end(s.take(cut_index(s)))
}

proof fn lemma_cut_index_upto(s: Seq<char>, n: int)
    requires
        0 <= n,
    ensures
        0 <= cut_index_upto(s, n) <= s.len(),
        forall|k: int|
            0 <= k < n ==> (#[trigger] find(s, next_turn_marker(k)) matches Some(f) ==> cut_index_upto(
                s,
                n,
            ) <= f),
        cut_index_upto(s, n) < s.len() ==> exists|k: int|
            0 <= k < n && occurs_at(s, #[trigger] next_turn_marker(k), cut_index_upto(s, n)),
    decreases n,
{
    if n > 0 {
        lemma_cut_index_upto(s, n - 1);
        lemma_find(s, next_turn_marker(n - 1));
        let c = cut_index_upto(s, n);
        if c < s.len() && c != cut_index_upto(s, n - 1) {
            assert(occurs_at(s, next_turn_marker(n - 1), c));
        }
    }
}

/// The cut position lies within the text.
pub proof fn lemma_cut_index_bounds(s: Seq<char>)
    ensures
        0 <= cut_index(s) <= s.len(),
{
    lemma_cut_index_upto(s, 9);
}

/// One of the nine strings that open a new chat turn in model output.
pub open spec fn is_turn_marker(p: Seq<char>) -> bool {
    ||| p == "|Human:"@
    ||| p == "|human:"@
    ||| p == "|ASSISTANT:"@
    ||| p == "|Assistant:"@
    ||| p == "|assistant:"@
    ||| p == "Human:"@
    ||| p == "ASSISTANT:"@
    ||| p == "<|user|>"@
    ||| p == "<|assistant|>"@
}

/// `c` is the earliest position of `s` at which a turn marker starts, or
/// the end of `s` when no marker occurs in it.
pub open spec fn is_turn_cut(s: Seq<char>, c: int) -> bool {
    &&& 0 <= c <= s.len()
    &&& forall|p: Seq<char>, j: int| is_turn_marker(p) && #[trigger] occurs_at(s, p, j) ==> c <= j
    &&& c < s.len() ==> exists|p: Seq<char>| is_turn_marker(p) && #[trigger] occurs_at(s, p, c)
}

proof fn lemma_turn_marker_literals()
    ensures
        "|Human:"@ == next_turn_marker(0),
        "|human:"@ == next_turn_marker(1),
        "|ASSISTANT:"@ == next_turn_marker(2),
        "|Assistant:"@ == next_turn_marker(3),
        "|assistant:"@ == next_turn_marker(4),
        "Human:"@ == next_turn_marker(5),
        "ASSISTANT:"@ == next_turn_marker(6),
        "<|user|>"@ == next_turn_marker(7),
        "<|assistant|>"@ == next_turn_marker(8),
{
    reveal_strlit("|Human:");
    reveal_strlit("|human:");
    reveal_strlit("|ASSISTANT:");
    reveal_strlit("|Assistant:");
    reveal_strlit("|assistant:");
    reveal_strlit("Human:");
    reveal_strlit("ASSISTANT:");
    reveal_strlit("<|user|>");
    reveal_strlit("<|assistant|>");
    assert("|Human:"@ =~= next_turn_marker(0));
    assert("|human:"@ =~= next_turn_marker(1));
    assert("|ASSISTANT:"@ =~= next_turn_marker(2));
    assert("|Assistant:"@ =~= next_turn_marker(3));
    assert("|assistant:"@ =~= next_turn_marker(4));
    assert("Human:"@ =~= next_turn_marker(5));
    assert("ASSISTANT:"@ =~= next_turn_marker(6));
    assert("<|user|>"@ =~= next_turn_marker(7));
    assert("<|assistant|>"@ =~= next_turn_marker(8));
}

/// A turn marker is one of the markers the cut searches for.
pub proof fn lemma_turn_marker_index(p: Seq<char>) -> (k: int)
    requires
        is_turn_marker(p),
    ensures
        0 <= k < 9,
        p == next_turn_marker(k),
{
    lemma_turn_marker_literals();
    if p == "|Human:"@ {
        0
    } else if p == "|human:"@ {
        1
    } else if p == "|ASSISTANT:"@ {
        2
    } else if p == "|Assistant:"@ {
        3
    } else if p == "|assistant:"@ {
        4
    } else if p == "Human:"@ {
        5
    } else if p == "ASSISTANT:"@ {
        6
    } else if p == "<|user|>"@ {
        7
    } else {
        8
    }
}

/// The text is cut at the earliest occurrence of any of the nine turn
/// markers (`|Human:`, `|human:`, `|ASSISTANT:`, `|Assistant:`,
/// `|assistant:`, `Human:`, `ASSISTANT:`, `<|user|>`, `<|assistant|>`), or
/// kept whole when none occurs; trailing whitespace is then removed.
pub proof fn lemma_cut_at_earliest_turn_marker(s: Seq<char>)
    ensures
        is_turn_cut(s, cut_index(s)),
        cut_at_next_turn_spec(s) == trim_end(s.take(cut_index(s))),
{
    let c = cut_index(s);
    lemma_cut_index_upto(s, 9);
    lemma_turn_marker_literals();
    assert forall|p: Seq<char>, j: int| is_turn_marker(p) && #[trigger] occurs_at(s, p, j) implies c
        <= j by {
        let k = lemma_turn_marker_index(p);
        lemma_find(s, p);
        let f = find(s, p)->0;
        assert(find(s, next_turn_marker(k)) == Some(f));
    }
    if c < s.len() {
        let k = choose|k: int| 0 <= k < 9 && occurs_at(s, #[trigger] next_turn_marker(k), c);
        assert(is_turn_marker(next_turn_marker(k)));
        assert(occurs_at(s, next_turn_marker(k), c));
    }
}

/// There is only one cut position: the earliest marker position is unique.
pub proof fn lemma_turn_cut_unique(s: Seq<char>, c1: int, c2: int)
    requires
        is_turn_cut(s, c1),
        is_turn_cut(s, c2),
    ensures
        c1 == c2,
{
    if c1 < c2 {
        let p = choose|p: Seq<char>| is_turn_marker(p) && #[trigger] occurs_at(s, p, c1);
    } else if c2 < c1 {
        let p = choose|p: Seq<char>| is_turn_marker(p) && #[trigger] occurs_at(s, p, c2);
    }
}

/// Keeps the text before the first next-turn marker (`|Human:`,
/// `ASSISTANT:`, `<|user|>`, ...) and removes trailing whitespace.
pub fn cut_at_next_turn(s: &str) -> (r: String)
    ensures
        r@ == cut_at_next_turn_spec(s@),
        exists|c: int| is_turn_cut(s@, c) && r@ == trim_end(s@.take(c)),
{
    proof {
        lemma_cut_at_earliest_turn_marker(s@);
    }
    let cs = chars_of(s);
    let r = cut_at_next_turn_chars(&cs);
    string_from_chars(&r)
}

fn cut_at_next_turn_chars(s: &Vec<char>) -> (r: Vec<char>)
    ensures
        r@ == cut_at_next_turn_spec(s@),
{
    let markers = next_turn_markers();
    let mut cut = s.len();
    let mut k: usize = 0;
    while k < markers.len()
        invariant
            markers.len() == NEXT_TURN_MARKER_COUNT,
            forall|j: int| 0 <= j < 9 ==> #[trigger] markers@[j]@ == next_turn_marker(j),
            k <= markers.len(),
            cut as int == cut_index_upto(s@, k as int),
            cut <= s.len(),
        decreases markers.len() - k,
    {
        match find_exec(s, &markers[k]) {
            Some(i) => {
                if i < cut {
                    cut = i;
                }
            },
            None => {},
        }
        k = k + 1;
    }
    let head = copy_range(s, 0, cut);
    assert(head@ == s@.take(cut as int));
    trim_end_chars(&head)
}

/// No next-turn marker occurs in the text that `cut_at_next_turn` keeps.
pub proof fn lemma_cut_has_no_marker(s: Seq<char>, k: int)
    requires
        0 <= k < 9,
    ensures
        !contains_seq(cut_at_next_turn_spec(s), next_turn_marker(k)),
{
    let c = cut_index(s);
    lemma_cut_index_upto(s, 9);
    let head = s.take(c);
    lemma_trim_end_shape(head);
    let r = cut_at_next_turn_spec(s);
    let m = next_turn_marker(k);
    lemma_find(s, m);
    if contains_seq(r, m) {
        let j = choose|j: int| occurs_at(r, m, j);
        assert(r.subrange(j, j + m.len()) == s.subrange(j, j + m.len()));
        assert(occurs_at(s, m, j));
        assert(find(s, m) is Some);
        let f = find(s, m)->0;
        assert(c <= f);
        assert(false);
    }
}

// ---------------------------------------------------------------------------
// Removing chat-template tokens.
// ---------------------------------------------------------------------------

/// `|<|`, the start of a piped template token such as `|<|user|>|`.
pub open spec fn piped_open() -> Seq<char> {
    seq!['|', '<', '|']
}

/// `|>|`, the end of a piped template token.
pub open spec fn piped_close() -> Seq<char> {
    seq!['|', '>', '|']
}

/// `>|`, an alternative token end.
pub open spec fn gt_bar() -> Seq<char> {
    seq!['>', '|']
}

/// `<|`, the start of a template token such as `<|user|>`.
pub open spec fn angle_open() -> Seq<char> {
    seq!['<', '|']
}

/// `|>`, the end of a template token.
pub open spec fn angle_close() -> Seq<char> {
    seq!['|', '>']
}

/// `|_|`, a stray template fragment.
pub open spec fn bar_underscore() -> Seq<char> {
    seq!['|', '_', '|']
}

/// `s[..start] + " " + s[end..]`.
pub open spec fn replace_span(s: Seq<char>, start: int, end: int) -> Seq<char> {
    s.take(start) + seq![' '] + s.skip(end)
}

/// Repeatedly replaces the first `|<|...|>|` token (or, when no `|>|`
/// follows, `|<|...>|`) by a space, until no `|<|` is followed by an end.
pub open spec fn remove_piped_tokens(s: Seq<char>) -> Seq<char>
    decreases s.len(),
{
    match find(s, piped_open()) {
        None => s,
        Some(st) => {
            let rest = s.skip(st);
            let end = match find(rest, piped_close()) {
                Some(i) => Some(st + i + 3),
                None => match find(rest, gt_bar()) {
                    Some(i) => Some(st + i + 2),
                    None => None,
                },
            };
            match end {
                Some(e) => if 0 <= st && st + 2 <= e <= s.len() {
                    remove_piped_tokens(replace_span(s, st, e))
                } else {
                    s
                },
                None => s,
            }
        },
    }
}

/// Repeatedly replaces the first `<|...|>` token (or, when no `|>`
/// follows, `<|...>|`) by a space, until no `<|` is followed by an end.
pub open spec fn remove_angle_tokens(s: Seq<char>) -> Seq<char>
    decreases s.len(),
{
    match find(s, angle_open()) {
        None => s,
        Some(st) => {
            let rest = s.skip(st);
            let end = match find(rest, angle_close()) {
                Some(i) => Some(st + i + 2),
                None => match find(rest, gt_bar()) {
                    Some(i) => Some(st + i + 2),
                    None => None,
                },
            };
            match end {
                Some(e) => if 0 <= st && st + 2 <= e <= s.len() {
                    remove_angle_tokens(replace_span(s, st, e))
                } else {
                    s
                },
                None => s,
            }
        },
    }
}

/// Every `|_|`, taken left to right without overlap, replaced by a space.
pub open spec fn replace_bar_underscore(s: Seq<char>) -> Seq<char>
    decreases s.len(),
{
    if s.len() == 0 {
        seq![]
    } else if occurs_at(s, bar_underscore(), 0) {
        seq![' '] + replace_bar_underscore(s.skip(3))
    } else {
        seq![s[0]] + replace_bar_underscore(s.drop_first())
    }
}

/// The whitespace-separated words of `s` joined by single spaces.
pub open spec fn collapse_whitespace(s: Seq<char>) -> Seq<char> {
    join_space(runs(s, RunKind::NonSpace))
}

/// What `strip_template_tokens` returns for `s`.
pub open spec fn strip_template_tokens_spec(s: Seq<char>) -> Seq<char> {
    trim(
        collapse_whitespace(replace_bar_underscore(remove_angle_tokens(remove_piped_tokens(s)))),
    )
}

fn piped_open_chars() -> (v: Vec<char>)
    ensures
        v@ == piped_open(),
{
    vec!['|', '<', '|']
}

fn piped_close_chars() -> (v: Vec<char>)
    ensures
        v@ == piped_close(),
{
    vec!['|', '>', '|']
}

fn gt_bar_chars() -> (v: Vec<char>)
    ensures
        v@ == gt_bar(),
{
    vec!['>', '|']
}

fn angle_open_chars() -> (v: Vec<char>)
    ensures
        v@ == angle_open(),
{
    vec!['<', '|']
}

fn angle_close_chars() -> (v: Vec<char>)
    ensures
        v@ == angle_close(),
{
    vec!['|', '>']
}

fn bar_underscore_chars() -> (v: Vec<char>)
    ensures
        v@ == bar_underscore(),
{
    vec!['|', '_', '|']
}

/// `s[..start] + " " + s[end..]` as a new vector.
fn replace_span_exec(s: &Vec<char>, start: usize, end: usize) -> (r: Vec<char>)
    requires
        start <= end <= s.len(),
    ensures
        r@ == replace_span(s@, start as int, end as int),
{
    let mut r = copy_range(s, 0, start);
    r.push(' ');
    let tail = copy_range(s, end, s.len());
    extend_chars(&mut r, &tail);
    assert(s@.subrange(0, start as int) == s@.take(start as int));
    assert(s@.subrange(end as int, s.len() as int) == s@.skip(end as int));
    r
}

/// Position just past the end of the token whose opener starts at `st`:
/// after the first `close` in `s[st..]`, else after the first `>|`.
fn token_end(s: &Vec<char>, st: usize, close: &Vec<char>) -> (r: Option<usize>)
    requires
        st <= s.len(),
        2 <= close.len() <= 3,
    ensures
        r matches Some(e) ==> st + 2 <= e <= s.len(),
        ({
            let rest = s@.skip(st as int);
            let spec_end = match find(rest, close@) {
                Some(i) => Some(st + i + close.len()),
                None => match find(rest, gt_bar()) {
                    Some(i) => Some(st + i + 2),
                    None => None,
                },
            };
            r matches Some(e) ==> spec_end == Some(e as int)
        }),
        ({
            let rest = s@.skip(st as int);
            r is None ==> find(rest, close@) is None && find(rest, gt_bar()) is None
        }),
{
    let rest = copy_range(s, st, s.len());
    assert(rest@ == s@.skip(st as int));
    match find_exec(&rest, close) {
        Some(i) => {
            proof {
                lemma_find(rest@, close@);
            }
            Some(st + i + close.len())
        },
        None => {
            let gb = gt_bar_chars();
            match find_exec(&rest, &gb) {
                Some(i) => {
                    proof {
                        lemma_find(rest@, gt_bar());
                    }
                    Some(st + i + 2)
                },
                None => None,
            }
        },
    }
}

fn remove_piped_tokens_exec(s: Vec<char>) -> (r: Vec<char>)
    ensures
        r@ == remove_piped_tokens(s@),
{
    let open = piped_open_chars();
    let close = piped_close_chars();
    let mut out = s;
    loop
        invariant
            open@ == piped_open(),
            close@ == piped_close(),
            remove_piped_tokens(out@) == remove_piped_tokens(s@),
        decreases out.len(),
    {
        match find_exec(&out, &open) {
            None => {
                return out;
            },
            Some(st) => {
                proof {
                    lemma_find(out@, piped_open());
                }
                match token_end(&out, st, &close) {
                    None => {
                        return out;
                    },
                    Some(e) => {
                        out = replace_span_exec(&out, st, e);
                    },
                }
            },
        }
    }
}

fn remove_angle_tokens_exec(s: Vec<char>) -> (r: Vec<char>)
    ensures
        r@ == remove_angle_tokens(s@),
{
    let open = angle_open_chars();
    let close = angle_close_chars();
    let mut out = s;
    loop
        invariant
            open@ == angle_open(),
            close@ == angle_close(),
            remove_angle_tokens(out@) == remove_angle_tokens(s@),
        decreases out.len(),
    {
        match find_exec(&out, &open) {
            None => {
                return out;
            },
            Some(st) => {
                proof {
                    lemma_find(out@, angle_open());
                }
                match token_end(&out, st, &close) {
                    None => {
                        return out;
                    },
                    Some(e) => {
                        out = replace_span_exec(&out, st, e);
                    },
                }
            },
        }
    }
}

fn replace_bar_underscore_exec(s: &Vec<char>) -> (r: Vec<char>)
    ensures
        r@ == replace_bar_underscore(s@),
{
    let pat = bar_underscore_chars();
    let mut out: Vec<char> = Vec::new();
    let mut i: usize = 0;
    assert(s@.skip(0) == s@);
    while i < s.len()
        invariant
            pat@ == bar_underscore(),
            i <= s.len(),
            out@ + replace_bar_underscore(s@.skip(i as int)) == replace_bar_underscore(s@),
        decreases s.len() - i,
    {
        let ghost rest = s@.skip(i as int);
        if occurs_at_exec(s, &pat, i) {
            assert(rest.subrange(0, 3) == s@.subrange(i as int, i + 3));
            assert(rest.skip(3) == s@.skip(i + 3));
            out.push(' ');
            assert(out@ + replace_bar_underscore(s@.skip(i + 3)) == (out@.drop_last() + (seq![' ']
                + replace_bar_underscore(rest.skip(3)))));
            i = i + 3;
        } else {
            assert(!occurs_at(rest, bar_underscore(), 0)) by {
                if occurs_at(rest, bar_underscore(), 0) {
                    assert(rest.subrange(0, 3) == s@.subrange(i as int, i + 3));
                }
            }
            assert(rest.drop_first() == s@.skip(i + 1));
            let c = s[i];
            out.push(c);
            assert(out@ + replace_bar_underscore(s@.skip(i + 1)) == (out@.drop_last() + (seq![c]
                + replace_bar_underscore(rest.drop_first()))));
            i = i + 1;
        }
    }
    assert(out@ + Seq::<char>::empty() == out@);
    out
}

fn strip_template_tokens_chars(s: &Vec<char>) -> (r: Vec<char>)
    ensures
        r@ == strip_template_tokens_spec(s@),
{
    let a = remove_piped_tokens_exec(s.clone());
    let b = remove_angle_tokens_exec(a);
    let c = replace_bar_underscore_exec(&b);
    let words = split_runs(&c, RunKind::NonSpace);
    let joined = join_with_space(&words);
    trim_chars(&joined)
}

/// Removes chat-template tokens that sometimes appear in model output
/// (`|<|user|>|`, `<|assistant|>`, `|_|`, ...), replacing each by a space,
/// then collapses whitespace runs to single spaces and trims.
pub fn strip_template_tokens(s: &str) -> (r: String)
    ensures
        r@ == strip_template_tokens_spec(s@),
{
    let cs = chars_of(s);
    let r = strip_template_tokens_chars(&cs);
    string_from_chars(&r)
}

// ---------------------------------------------------------------------------
// Whole-answer clean-up.
// ---------------------------------------------------------------------------

/// The first line of `t`, as `str::lines` yields it: the text before the
/// first `\n`, without a `\r` that directly precedes that `\n`.
pub open spec fn first_line(t: Seq<char>) -> Seq<char> {
    match find(t, seq!['\n']) {
        Some(i) => if i > 0 && t[i - 1] == '\r' {
            t.take(i - 1)
        } else {
            t.take(i)
        },
        None => t,
    }
}

/// An ASCII decimal digit.
pub open spec fn is_ascii_digit(c: char) -> bool {
    '0' <= c <= '9'
}

/// Number of ASCII digits at the start of `s`.
pub open spec fn leading_digits(s: Seq<char>) -> nat
    decreases s.len(),
{
    if s.len() > 0 && is_ascii_digit(s[0]) {
        1 + leading_digits(s.drop_first())
    } else {
        0
    }
}

/// A line that reads like a numbered-list item `N. answer`: one or more
/// digits, a dot, then whitespace.
pub open spec fn is_numbered_line(first: Seq<char>) -> bool {
    let d = leading_digits(first) as int;
    &&& d >= 1
    &&& d + 1 < first.len()
    &&& first[d as int] == '.'
    &&& is_ws(first[d + 1])
}

/// The answer part of a numbered line: the number and its dot removed, then
/// leading whitespace, an opening `"` and a closing `"` (each if present),
/// then surrounding whitespace.
pub open spec fn numbered_line_answer(first: Seq<char>) -> Seq<char> {
    let d = leading_digits(first) as int;
    let rest = trim_start(first.skip(d + 1));
    let rest = if rest.len() > 0 && rest[0] == '"' {
        rest.drop_first()
    } else {
        rest
    };
    let rest = if rest.len() > 0 && rest.last() == '"' {
        rest.drop_last()
    } else {
        rest
    };
    trim(rest)
}

/// When the first line of `t` reads like `1. answer` or `12. "answer"`
/// (and the answer part is not empty), that answer part; otherwise `t`
/// unchanged.
pub open spec fn normalize_numbered_line(t: Seq<char>) -> Seq<char> {
    if t.len() == 0 {
        t
    } else {
        let first = trim(first_line(t));
        if is_numbered_line(first) && numbered_line_answer(first).len() > 0 {
            numbered_line_answer(first)
        } else {
            t
        }
    }
}

/// What `truncate_answer` returns for `s`.
pub open spec fn truncate_answer_spec(s: Seq<char>) -> Seq<char> {
    normalize_numbered_line(cleaned_text(s))
}

/// The text before the numbered-line rule: cut at the next turn, template
/// tokens stripped and whitespace collapsed, or the trimmed cut text when
/// stripping leaves nothing.
pub open spec fn cleaned_text(s: Seq<char>) -> Seq<char> {
    clean_cut_text(cut_at_next_turn_spec(s))
}

/// The cut text `after_turn` with template tokens stripped and whitespace
/// collapsed, or trimmed when stripping leaves nothing.
pub open spec fn clean_cut_text(after_turn: Seq<char>) -> Seq<char> {
    let stripped = trim(strip_template_tokens_spec(after_turn));
    if stripped.len() == 0 {
        trim(after_turn)
    } else {
        stripped
    }
}

/// What the user is shown for raw model output `out`: the trimmed text when
/// `raw` is set, otherwise the cleaned answer.
pub open spec fn finish_answer_spec(out: Seq<char>, raw: bool) -> Seq<char> {
    if raw {
        trim(out)
    } else {
        truncate_answer_spec(out)
    }
}

fn first_line_chars(t: &Vec<char>) -> (r: Vec<char>)
    ensures
        r@ == first_line(t@),
{
    let nl = vec!['\n'];
    assert(nl@ == seq!['\n']);
    match find_exec(t, &nl) {
        Some(i) => {
            proof {
                lemma_find(t@, seq!['\n']);
            }
            if i > 0 && t[i - 1] == '\r' {
                copy_range(t, 0, i - 1)
            } else {
                copy_range(t, 0, i)
            }
        },
        None => t.clone(),
    }
}

fn leading_digits_exec(s: &Vec<char>) -> (n: usize)
    ensures
        n == leading_digits(s@),
        n <= s.len(),
{
    let mut i: usize = 0;
    assert(s@.skip(0) == s@);
    while i < s.len() && '0' <= s[i] && s[i] <= '9'
        invariant
            i <= s.len(),
            leading_digits(s@) == i + leading_digits(s@.skip(i as int)),
        decreases s.len() - i,
    {
        assert(s@.skip(i as int).drop_first() == s@.skip(i + 1));
        i = i + 1;
    }
    i
}

fn is_numbered_line_exec(first: &Vec<char>) -> (r: bool)
    ensures
        r == is_numbered_line(first@),
{
    let d = leading_digits_exec(first);
    d >= 1 && d < first.len() - 1 && first[d] == '.' && is_whitespace(first[d + 1])
}

fn numbered_line_answer_exec(first: &Vec<char>) -> (r: Vec<char>)
    requires
        is_numbered_line(first@),
    ensures
        r@ == numbered_line_answer(first@),
{
    let d = leading_digits_exec(first);
    let tail = copy_range(first, d + 1, first.len());
    assert(tail@ == first@.skip(d + 1));
    let k = trim_start_index(&tail);
    let mut rest = copy_range(&tail, k, tail.len());
    assert(rest@ == tail@.skip(k as int));
    if rest.len() > 0 && rest[0] == '"' {
        rest = copy_range(&rest, 1, rest.len());
    }
    if rest.len() > 0 && rest[rest.len() - 1] == '"' {
        rest = copy_range(&rest, 0, rest.len() - 1);
    }
    trim_chars(&rest)
}

fn normalize_numbered_line_exec(t: Vec<char>) -> (r: Vec<char>)
    ensures
        r@ == normalize_numbered_line(t@),
{
    if t.len() == 0 {
        return t;
    }
    let line = first_line_chars(&t);
    let first = trim_chars(&line);
    if is_numbered_line_exec(&first) {
        let rest = numbered_line_answer_exec(&first);
        if rest.len() > 0 {
            return rest;
        }
    }
    t
}

fn truncate_answer_chars(s: &Vec<char>) -> (r: Vec<char>)
    ensures
        r@ == truncate_answer_spec(s@),
{
    let after_turn = cut_at_next_turn_chars(s);
    let stripped = strip_template_tokens_chars(&after_turn);
    let stripped = trim_chars(&stripped);
    let trimmed = if stripped.len() == 0 {
        trim_chars(&after_turn)
    } else {
        stripped
    };
    normalize_numbered_line_exec(trimmed)
}

/// Cleans up model output: keeps the text before the next chat turn,
/// strips template tokens and collapses whitespace (falling back to the
/// trimmed text when nothing is left), and when the first line reads like
/// `1. answer` keeps only `answer`. No length limit is applied.
pub fn truncate_answer(s: &str) -> (r: String)
    ensures
        r@ == truncate_answer_spec(s@),
        exists|c: int|
            is_turn_cut(s@, c) && r@ == normalize_numbered_line(
                clean_cut_text(trim_end(s@.take(c))),
            ),
{
    proof {
        lemma_cut_at_earliest_turn_marker(s@);
    }
    let cs = chars_of(s);
    let r = truncate_answer_chars(&cs);
    string_from_chars(&r)
}

/// The answer shown for raw model output: the trimmed output when `raw`
/// is set, otherwise `truncate_answer` of it.
pub fn finish_answer(out: &str, raw: bool) -> (r: String)
    ensures
        r@ == finish_answer_spec(out@, raw),
        !raw ==> exists|c: int|
            is_turn_cut(out@, c) && r@ == normalize_numbered_line(
                clean_cut_text(trim_end(out@.take(c))),
            ),
{
    proof {
        lemma_cut_at_earliest_turn_marker(out@);
    }
    let cs = chars_of(out);
    let r = if raw {
        trim_chars(&cs)
    } else {
        truncate_answer_chars(&cs)
    };
    string_from_chars(&r)
}

/// The cleaned answer never starts or ends with whitespace.
pub proof fn lemma_truncate_answer_trimmed(s: Seq<char>)
    ensures
        is_trimmed(truncate_answer_spec(s)),
{
    let after_turn = cut_at_next_turn_spec(s);
    lemma_trim_is_trimmed(strip_template_tokens_spec(after_turn));
    lemma_trim_is_trimmed(after_turn);
    let t = cleaned_text(s);
    if t.len() > 0 {
        let first = trim(first_line(t));
        if is_numbered_line(first) {
            let d = leading_digits(first) as int;
            let rest = trim_start(first.skip(d + 1));
            let rest = if rest.len() > 0 && rest[0] == '"' {
                rest.drop_first()
            } else {
                rest
            };
            let rest = if rest.len() > 0 && rest.last() == '"' {
                rest.drop_last()
            } else {
                rest
            };
            lemma_trim_is_trimmed(rest);
        }
    }
}

/// After template tokens are stripped, whitespace only remains as single
/// spaces between other characters, and never at either end.
pub proof fn lemma_strip_output_collapsed(s: Seq<char>)
    ensures
        is_collapsed(strip_template_tokens_spec(s)),
        is_trimmed(strip_template_tokens_spec(s)),
{
    let x = replace_bar_underscore(remove_angle_tokens(remove_piped_tokens(s)));
    let ws = runs(x, RunKind::NonSpace);
    lemma_runs_shape(x, RunKind::NonSpace);
    lemma_join_space_collapsed(ws);
    let j = join_space(ws);
    if j.len() > 0 {
        assert(is_trimmed(j));
    }
    lemma_trim_of_trimmed(j);
}

// ---------------------------------------------------------------------------
// The numbered-line rule only rewrites one-line text.
// ---------------------------------------------------------------------------

/// `s` starts, after any whitespace, with an ASCII digit.
pub open spec fn leads_with_digit(s: Seq<char>) -> bool
    decreases s.len(),
{
    s.len() > 0 && if is_ws(s[0]) {
        leads_with_digit(s.drop_first())
    } else {
        is_ascii_digit(s[0])
    }
}

proof fn lemma_leads_replace_span(s: Seq<char>, st: int, e: int)
    requires
        leads_with_digit(s),
        0 <= st < s.len(),
        st <= e <= s.len(),
        !is_ws(s[st]),
        !is_ascii_digit(s[st]),
    ensures
        leads_with_digit(replace_span(s, st, e)),
    decreases s.len(),
{
    let r = replace_span(s, st, e);
    assert(st > 0);
    assert(r[0] == s[0]);
    if is_ws(s[0]) {
        let d = s.drop_first();
        assert(d[st - 1] == s[st]);
        lemma_leads_replace_span(d, st - 1, e - 1);
        assert(r.drop_first() == replace_span(d, st - 1, e - 1));
    }
}

proof fn lemma_leads_remove_piped(s: Seq<char>)
    requires
        leads_with_digit(s),
    ensures
        leads_with_digit(remove_piped_tokens(s)),
    decreases s.len(),
{
    lemma_find(s, piped_open());
    match find(s, piped_open()) {
        None => {},
        Some(st) => {
            let rest = s.skip(st);
            let end = match find(rest, piped_close()) {
                Some(i) => Some(st + i + 3),
                None => match find(rest, gt_bar()) {
                    Some(i) => Some(st + i + 2),
                    None => None,
                },
            };
            match end {
                Some(e) => if 0 <= st && st + 2 <= e <= s.len() {
                    assert(s.subrange(st, st + 3)[0] == s[st]);
                    lemma_leads_replace_span(s, st, e);
                    lemma_leads_remove_piped(replace_span(s, st, e));
                },
                None => {},
            }
        },
    }
}

proof fn lemma_leads_remove_angle(s: Seq<char>)
    requires
        leads_with_digit(s),
    ensures
        leads_with_digit(remove_angle_tokens(s)),
    decreases s.len(),
{
    lemma_find(s, angle_open());
    match find(s, angle_open()) {
        None => {},
        Some(st) => {
            let rest = s.skip(st);
            let end = match find(rest, angle_close()) {
                Some(i) => Some(st + i + 2),
                None => match find(rest, gt_bar()) {
                    Some(i) => Some(st + i + 2),
                    None => None,
                },
            };
            match end {
                Some(e) => if 0 <= st && st + 2 <= e <= s.len() {
                    assert(s.subrange(st, st + 2)[0] == s[st]);
                    lemma_leads_replace_span(s, st, e);
                    lemma_leads_remove_angle(replace_span(s, st, e));
                },
                None => {},
            }
        },
    }
}

proof fn lemma_leads_replace_bar(s: Seq<char>)
    requires
        leads_with_digit(s),
    ensures
        leads_with_digit(replace_bar_underscore(s)),
    decreases s.len(),
{
    assert(!occurs_at(s, bar_underscore(), 0)) by {
        if occurs_at(s, bar_underscore(), 0) {
            assert(s.subrange(0, 3)[0] == s[0]);
        }
    }
    let r = replace_bar_underscore(s);
    assert(r == seq![s[0]] + replace_bar_underscore(s.drop_first()));
    if is_ws(s[0]) {
        lemma_leads_replace_bar(s.drop_first());
        assert(r.drop_first() == replace_bar_underscore(s.drop_first()));
    }
}

proof fn lemma_leads_has_word(s: Seq<char>)
    requires
        leads_with_digit(s),
    ensures
        runs(s, RunKind::NonSpace).len() > 0,
    decreases s.len(),
{
    if is_ws(s[0]) {
        lemma_leads_has_word(s.drop_first());
    } else {
        lemma_run_len_bound(s, RunKind::NonSpace);
        assert(run_len(s, RunKind::NonSpace) >= 1);
    }
}

proof fn lemma_leads_survives_stripping(s: Seq<char>)
    requires
        leads_with_digit(s),
    ensures
        trim(strip_template_tokens_spec(s)).len() > 0,
{
    let a = remove_piped_tokens(s);
    lemma_leads_remove_piped(s);
    let b = remove_angle_tokens(a);
    lemma_leads_remove_angle(a);
    let c = replace_bar_underscore(b);
    lemma_leads_replace_bar(b);
    lemma_leads_has_word(c);
    let ws = runs(c, RunKind::NonSpace);
    lemma_runs_shape(c, RunKind::NonSpace);
    lemma_join_space_collapsed(ws);
    let j = join_space(ws);
    lemma_trim_of_trimmed(j);
    lemma_strip_output_collapsed(s);
    lemma_trim_of_trimmed(strip_template_tokens_spec(s));
}

proof fn lemma_leads_from_index(s: Seq<char>, k: int)
    requires
        0 <= k < s.len(),
        forall|j: int| 0 <= j < k ==> is_ws(#[trigger] s[j]),
        is_ascii_digit(s[k]),
    ensures
        leads_with_digit(s),
    decreases k,
{
    if k > 0 {
        assert(is_ws(s[0]));
        let d = s.drop_first();
        assert forall|j: int| 0 <= j < k - 1 implies is_ws(#[trigger] d[j]) by {
            assert(d[j] == s[j + 1]);
        }
        lemma_leads_from_index(d, k - 1);
    } else {
        assert(!is_ws(s[0]));
    }
}

proof fn lemma_first_line_head(t: Seq<char>)
    requires
        t.len() > 0,
        !is_ws(t[0]),
    ensures
        trim(first_line(t)).len() > 0,
        trim(first_line(t))[0] == t[0],
{
    lemma_find(t, seq!['\n']);
    let fl = first_line(t);
    assert(is_ws('\n'));
    assert(is_ws('\r'));
    match find(t, seq!['\n']) {
        Some(i) => {
            assert(t.subrange(i, i + 1)[0] == t[i]);
            assert(i > 0);
            if t[i - 1] == '\r' {
                assert(i - 1 > 0);
            }
        },
        None => {},
    }
    assert(fl.len() > 0 && fl[0] == t[0]);
    assert(trim_start(fl) == fl);
    lemma_trim_end_shape(fl);
    assert(trim_end(fl).len() > 0);
    assert(trim_end(fl)[0] == fl[0]);
}

/// The numbered-line rule only rewrites text of a single line: when it
/// changes the cleaned text, that text holds no line break, so no line
/// after the first is ever dropped.
pub proof fn lemma_numbering_rule_single_line(s: Seq<char>)
    ensures
        normalize_numbered_line(cleaned_text(s)) != cleaned_text(s) ==> !cleaned_text(s).contains(
            '\n',
        ),
{
    let after = cut_at_next_turn_spec(s);
    let st = strip_template_tokens_spec(after);
    lemma_strip_output_collapsed(after);
    lemma_trim_of_trimmed(st);
    let t = cleaned_text(s);
    if normalize_numbered_line(t) != t {
        if st.len() > 0 {
            assert(t == st);
            assert(is_ws('\n'));
            assert(!t.contains('\n')) by {
                if t.contains('\n') {
                    let i = choose|i: int| 0 <= i < t.len() && t[i] == '\n';
                    assert(is_ws(t[i]));
                }
            }
        } else {
            assert(t == trim(after));
            lemma_trim_is_trimmed(after);
            assert(t.len() > 0);
            lemma_first_line_head(t);
            assert(is_ascii_digit(t[0]));
            lemma_trim_start_shape(after);
            let ts = trim_start(after);
            let k = after.len() - ts.len();
            lemma_trim_end_shape(ts);
            assert(t[0] == ts[0]);
            assert(ts[0] == after[k]);
            lemma_leads_from_index(after, k);
            lemma_leads_survives_stripping(after);
            assert(false);
        }
    }
}

} // verus!

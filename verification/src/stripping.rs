//! What stripping template tokens and cleaning an answer keep: stripping
//! already-stripped text gives it back unchanged; every word of the
//! stripped text and of the cleaned answer occurs verbatim in the input; the
//! answer holds no next-turn marker; and neither step lengthens the text.
//!
//! Every stage of the stripping (removing piped and angle tokens, replacing
//! `|_|`, collapsing whitespace) only deletes characters or puts whitespace
//! where characters were. So each non-whitespace character of a stage's
//! output can be traced back to an equal character of its input, in order,
//! with neighbours staying neighbours (`traces`). The token patterns contain
//! no whitespace, so whatever a stage removed cannot reappear after it, and
//! on stripped text every stage leaves the text unchanged.

use vstd::prelude::*;
use crate::answer::{
    angle_close, angle_open, bar_underscore, collapse_whitespace, gt_bar, piped_close,
    piped_open, remove_angle_tokens, remove_piped_tokens, replace_bar_underscore, replace_span,
    strip_template_tokens_spec, cleaned_text, cut_at_next_turn_spec, cut_index, first_line,
    is_numbered_line, leading_digits, lemma_cut_index_bounds, lemma_strip_output_collapsed,
    numbered_line_answer, truncate_answer_spec, lemma_cut_has_no_marker, next_turn_marker,
};
use crate::text::{
    find, is_trimmed, is_ws, join_space, kept, lemma_find, lemma_join_space_collapsed,
    lemma_run_len_bound, lemma_runs_shape, lemma_trim_of_trimmed, occurs_at, run_len, runs,
    trim, RunKind, contains_seq, lemma_trim_end_shape, lemma_trim_start_shape, trim_end,
    trim_start, utf8_len, lemma_utf8_len_at_least_len, lemma_utf8_len_concat,
    lemma_utf8_len_piece, lemma_utf8_len_single,
};

verus! {

/// `p` holds no whitespace character.
pub open spec fn ws_free(p: Seq<char>) -> bool {
    forall|k: int| 0 <= k < p.len() ==> !is_ws(#[trigger] p[k])
}

/// `f` traces the non-whitespace characters of `t` back to `s`: each lands
/// on an equal character, later ones land later, and characters that are
/// neighbours in `t` land on neighbours in `s`.
pub open spec fn traces(t: Seq<char>, s: Seq<char>, f: spec_fn(int) -> int) -> bool {
    &&& forall|i: int|
        0 <= i < t.len() && !is_ws(#[trigger] t[i]) ==> 0 <= f(i) < s.len() && s[f(i)] == t[i]
    &&& forall|i: int, j: int|
        #![trigger t[i], t[j]]
        0 <= i < j < t.len() && !is_ws(t[i]) && !is_ws(t[j]) ==> f(i) < f(j) && (j == i + 1
            ==> f(j) == f(i) + 1)
}

/// No occurrence of `open` is followed, at the same or a later position, by
/// an occurrence of `close1` or `close2`.
pub open spec fn pair_free(s: Seq<char>, open: Seq<char>, close1: Seq<char>, close2: Seq<char>) -> bool {
    forall|i: int, j: int|
        #![trigger occurs_at(s, open, i), occurs_at(s, close1, j)]
        #![trigger occurs_at(s, open, i), occurs_at(s, close2, j)]
        occurs_at(s, open, i) && i <= j ==> !occurs_at(s, close1, j) && !occurs_at(s, close2, j)
}

/// `p` occurs nowhere in `s`.
pub open spec fn absent(s: Seq<char>, p: Seq<char>) -> bool {
    forall|i: int| !#[trigger] occurs_at(s, p, i)
}

proof fn lemma_patterns_ws_free()
    ensures
        ws_free(piped_open()),
        ws_free(piped_close()),
        ws_free(gt_bar()),
        ws_free(angle_open()),
        ws_free(angle_close()),
        ws_free(bar_underscore()),
{
    assert(!is_ws('|') && !is_ws('<') && !is_ws('>') && !is_ws('_'));
}

proof fn lemma_traces_compose(
    u: Seq<char>,
    t: Seq<char>,
    s: Seq<char>,
    g: spec_fn(int) -> int,
    h: spec_fn(int) -> int,
)
    requires
        traces(u, t, g),
        traces(t, s, h),
    ensures
        traces(u, s, |i: int| h(g(i))),
{
    let f = |i: int| h(g(i));
    assert forall|i: int| 0 <= i < u.len() && !is_ws(#[trigger] u[i]) implies 0 <= f(i) < s.len()
        && s[f(i)] == u[i] by {
        assert(t[g(i)] == u[i]);
    }
    assert forall|i: int, j: int|
        #![trigger u[i], u[j]]
        0 <= i < j < u.len() && !is_ws(u[i]) && !is_ws(u[j]) implies f(i) < f(j) && (j == i + 1
            ==> f(j) == f(i) + 1) by {
        assert(t[g(i)] == u[i]);
        assert(t[g(j)] == u[j]);
    }
}

/// Replacing a span by one space traces back to the original.
proof fn lemma_replace_span_traces(s: Seq<char>, st: int, e: int) -> (f: spec_fn(int) -> int)
    requires
        0 <= st <= e <= s.len(),
    ensures
        traces(replace_span(s, st, e), s, f),
{
    let t = replace_span(s, st, e);
    let f = |i: int|
        if i < st {
            i
        } else {
            i - st - 1 + e
        };
    assert(t.len() == st + 1 + s.len() - e);
    assert(t[st] == ' ');
    assert(is_ws(' '));
    assert forall|i: int| 0 <= i < t.len() && !is_ws(#[trigger] t[i]) implies 0 <= f(i) < s.len()
        && s[f(i)] == t[i] by {
        if i < st {
            assert(t[i] == s[i]);
        } else if i > st {
            assert(t[i] == s[i - st - 1 + e]);
        }
    }
    assert forall|i: int, j: int|
        #![trigger t[i], t[j]]
        0 <= i < j < t.len() && !is_ws(t[i]) && !is_ws(t[j]) implies f(i) < f(j) && (j == i + 1
            ==> f(j) == f(i) + 1) by {
    }
    f
}

/// A whitespace-free stretch of `t` lands on an equal stretch of `s`.
proof fn lemma_traces_stretch(t: Seq<char>, s: Seq<char>, f: spec_fn(int) -> int, i: int, n: int)
    requires
        traces(t, s, f),
        1 <= n,
        0 <= i,
        i + n <= t.len(),
        ws_free(t.subrange(i, i + n)),
    ensures
        0 <= f(i),
        f(i) + n <= s.len(),
        f(i + n - 1) == f(i) + n - 1,
        s.subrange(f(i), f(i) + n) == t.subrange(i, i + n),
    decreases n,
{
    assert(t.subrange(i, i + n)[0] == t[i]);
    assert(!is_ws(t[i]));
    if n == 1 {
        assert(s.subrange(f(i), f(i) + 1) =~= t.subrange(i, i + 1));
    } else {
        assert(ws_free(t.subrange(i, i + n - 1))) by {
            assert forall|k: int| 0 <= k < n - 1 implies !is_ws(#[trigger] t.subrange(i, i + n - 1)[k]) by {
                assert(t.subrange(i, i + n - 1)[k] == t.subrange(i, i + n)[k]);
            }
        }
        lemma_traces_stretch(t, s, f, i, n - 1);
        let a = i + n - 2;
        let b = i + n - 1;
        assert(t.subrange(i, i + n)[n - 2] == t[a]);
        assert(t.subrange(i, i + n)[n - 1] == t[b]);
        assert(!is_ws(t[a]) && !is_ws(t[b]));
        assert(f(b) == f(a) + 1);
        assert(s[f(b)] == t[b]);
        assert(s.subrange(f(i), f(i) + n) =~= s.subrange(f(i), f(i) + n - 1).push(s[f(b)]));
        assert(t.subrange(i, i + n) =~= t.subrange(i, i + n - 1).push(t[b]));
    }
}

/// An occurrence of a whitespace-free pattern in `t` is one in `s` too.
proof fn lemma_traces_occurs(t: Seq<char>, s: Seq<char>, f: spec_fn(int) -> int, p: Seq<char>, i: int)
    requires
        traces(t, s, f),
        p.len() > 0,
        ws_free(p),
        occurs_at(t, p, i),
    ensures
        occurs_at(s, p, f(i)),
        !is_ws(t[i]),
{
    assert(t.subrange(i, i + p.len()) == p);
    assert(p[0] == t[i]);
    lemma_traces_stretch(t, s, f, i, p.len() as int);
}

/// Pair-freedom carries over along a trace.
proof fn lemma_traces_pair_free(
    t: Seq<char>,
    s: Seq<char>,
    f: spec_fn(int) -> int,
    open: Seq<char>,
    close1: Seq<char>,
    close2: Seq<char>,
)
    requires
        traces(t, s, f),
        pair_free(s, open, close1, close2),
        open.len() > 0 && close1.len() > 0 && close2.len() > 0,
        ws_free(open) && ws_free(close1) && ws_free(close2),
    ensures
        pair_free(t, open, close1, close2),
{
    assert forall|i: int, j: int| occurs_at(t, open, i) && i <= j implies !occurs_at(t, close1, j)
        && !occurs_at(t, close2, j) by {
        lemma_traces_occurs(t, s, f, open, i);
        if occurs_at(t, close1, j) {
            lemma_traces_occurs(t, s, f, close1, j);
            assert(f(i) <= f(j));
            assert(occurs_at(s, open, f(i)) && occurs_at(s, close1, f(j)));
        }
        if occurs_at(t, close2, j) {
            lemma_traces_occurs(t, s, f, close2, j);
            assert(f(i) <= f(j));
            assert(occurs_at(s, open, f(i)) && occurs_at(s, close2, f(j)));
        }
    }
}

/// Absence of a pattern carries over along a trace.
proof fn lemma_traces_absent(t: Seq<char>, s: Seq<char>, f: spec_fn(int) -> int, p: Seq<char>)
    requires
        traces(t, s, f),
        absent(s, p),
        p.len() > 0,
        ws_free(p),
    ensures
        absent(t, p),
{
    assert forall|i: int| !#[trigger] occurs_at(t, p, i) by {
        if occurs_at(t, p, i) {
            lemma_traces_occurs(t, s, f, p, i);
        }
    }
}

/// Occurrences in a suffix are occurrences in the whole, shifted.
proof fn lemma_occurs_skip(s: Seq<char>, p: Seq<char>, st: int, j: int)
    requires
        0 <= st <= s.len(),
        0 <= j,
    ensures
        occurs_at(s.skip(st), p, j) == occurs_at(s, p, st + j),
{
    if st + j + p.len() <= s.len() {
        assert(s.skip(st).subrange(j, j + p.len()) =~= s.subrange(st + j, st + j + p.len()));
    }
}

/// Where the piped token starting at `st` ends, as `remove_piped_tokens`
/// looks for it.
spec fn piped_end(s: Seq<char>, st: int) -> Option<int> {
    let rest = s.skip(st);
    match find(rest, piped_close()) {
        Some(i) => Some(st + i + 3),
        None => match find(rest, gt_bar()) {
            Some(i) => Some(st + i + 2),
            None => None,
        },
    }
}

/// Where the angle token starting at `st` ends, as `remove_angle_tokens`
/// looks for it.
spec fn angle_end(s: Seq<char>, st: int) -> Option<int> {
    let rest = s.skip(st);
    match find(rest, angle_close()) {
        Some(i) => Some(st + i + 2),
        None => match find(rest, gt_bar()) {
            Some(i) => Some(st + i + 2),
            None => None,
        },
    }
}

/// A found token end lies within the text, past the token's opening.
proof fn lemma_piped_end_bounds(s: Seq<char>, st: int)
    requires
        occurs_at(s, piped_open(), st),
    ensures
        piped_end(s, st) matches Some(e) ==> st + 2 <= e <= s.len(),
{
    let rest = s.skip(st);
    lemma_find(rest, piped_close());
    lemma_find(rest, gt_bar());
}

proof fn lemma_angle_end_bounds(s: Seq<char>, st: int)
    requires
        occurs_at(s, angle_open(), st),
    ensures
        angle_end(s, st) matches Some(e) ==> st + 2 <= e <= s.len(),
{
    let rest = s.skip(st);
    lemma_find(rest, angle_close());
    lemma_find(rest, gt_bar());
}

/// Removing piped tokens traces back to the original text.
proof fn lemma_remove_piped_traces(s: Seq<char>) -> (f: spec_fn(int) -> int)
    ensures
        traces(remove_piped_tokens(s), s, f),
    decreases s.len(),
{
    lemma_find(s, piped_open());
    if let Some(st) = find(s, piped_open()) {
        lemma_piped_end_bounds(s, st);
        if let Some(e) = piped_end(s, st) {
            let t1 = replace_span(s, st, e);
            assert(remove_piped_tokens(s) == remove_piped_tokens(t1));
            let g = lemma_remove_piped_traces(t1);
            let h = lemma_replace_span_traces(s, st, e);
            lemma_traces_compose(remove_piped_tokens(t1), t1, s, g, h);
            |i: int| h(g(i))
        } else {
            assert(remove_piped_tokens(s) == s);
            |i: int| i
        }
    } else {
        assert(remove_piped_tokens(s) == s);
        |i: int| i
    }
}

/// Removing angle tokens traces back to the original text.
proof fn lemma_remove_angle_traces(s: Seq<char>) -> (f: spec_fn(int) -> int)
    ensures
        traces(remove_angle_tokens(s), s, f),
    decreases s.len(),
{
    lemma_find(s, angle_open());
    if let Some(st) = find(s, angle_open()) {
        lemma_angle_end_bounds(s, st);
        if let Some(e) = angle_end(s, st) {
            let t1 = replace_span(s, st, e);
            assert(remove_angle_tokens(s) == remove_angle_tokens(t1));
            let g = lemma_remove_angle_traces(t1);
            let h = lemma_replace_span_traces(s, st, e);
            lemma_traces_compose(remove_angle_tokens(t1), t1, s, g, h);
            |i: int| h(g(i))
        } else {
            assert(remove_angle_tokens(s) == s);
            |i: int| i
        }
    } else {
        assert(remove_angle_tokens(s) == s);
        |i: int| i
    }
}

/// After removing piped tokens, no `|<|` is followed by `|>|` or `>|`.
proof fn lemma_remove_piped_clean(s: Seq<char>)
    ensures
        pair_free(remove_piped_tokens(s), piped_open(), piped_close(), gt_bar()),
    decreases s.len(),
{
    lemma_find(s, piped_open());
    if let Some(st) = find(s, piped_open()) {
        lemma_piped_end_bounds(s, st);
        let rest = s.skip(st);
        lemma_find(rest, piped_close());
        lemma_find(rest, gt_bar());
        if let Some(e) = piped_end(s, st) {
            let t1 = replace_span(s, st, e);
            assert(remove_piped_tokens(s) == remove_piped_tokens(t1));
            lemma_remove_piped_clean(t1);
        } else {
            assert(remove_piped_tokens(s) == s);
            assert forall|i: int, j: int| occurs_at(s, piped_open(), i) && i <= j implies !occurs_at(
                s,
                piped_close(),
                j,
            ) && !occurs_at(s, gt_bar(), j) by {
                assert(st <= i);
                lemma_occurs_skip(s, piped_close(), st, j - st);
                lemma_occurs_skip(s, gt_bar(), st, j - st);
            }
        }
    } else {
        assert(remove_piped_tokens(s) == s);
    }
}

/// After removing angle tokens, no `<|` is followed by `|>` or `>|`.
proof fn lemma_remove_angle_clean(s: Seq<char>)
    ensures
        pair_free(remove_angle_tokens(s), angle_open(), angle_close(), gt_bar()),
    decreases s.len(),
{
    lemma_find(s, angle_open());
    if let Some(st) = find(s, angle_open()) {
        lemma_angle_end_bounds(s, st);
        let rest = s.skip(st);
        lemma_find(rest, angle_close());
        lemma_find(rest, gt_bar());
        if let Some(e) = angle_end(s, st) {
            let t1 = replace_span(s, st, e);
            assert(remove_angle_tokens(s) == remove_angle_tokens(t1));
            lemma_remove_angle_clean(t1);
        } else {
            assert(remove_angle_tokens(s) == s);
            assert forall|i: int, j: int| occurs_at(s, angle_open(), i) && i <= j implies !occurs_at(
                s,
                angle_close(),
                j,
            ) && !occurs_at(s, gt_bar(), j) by {
                assert(st <= i);
                lemma_occurs_skip(s, angle_close(), st, j - st);
                lemma_occurs_skip(s, gt_bar(), st, j - st);
            }
        }
    } else {
        assert(remove_angle_tokens(s) == s);
    }
}

/// Text without a complete piped token is left as it is.
proof fn lemma_remove_piped_unchanged(s: Seq<char>)
    requires
        pair_free(s, piped_open(), piped_close(), gt_bar()),
    ensures
        remove_piped_tokens(s) == s,
{
    lemma_find(s, piped_open());
    if let Some(st) = find(s, piped_open()) {
        let rest = s.skip(st);
        lemma_find(rest, piped_close());
        lemma_find(rest, gt_bar());
        if let Some(i) = find(rest, piped_close()) {
            lemma_occurs_skip(s, piped_close(), st, i);
            assert(false);
        }
        if let Some(i) = find(rest, gt_bar()) {
            lemma_occurs_skip(s, gt_bar(), st, i);
            assert(false);
        }
    }
}

/// Text without a complete angle token is left as it is.
proof fn lemma_remove_angle_unchanged(s: Seq<char>)
    requires
        pair_free(s, angle_open(), angle_close(), gt_bar()),
    ensures
        remove_angle_tokens(s) == s,
{
    lemma_find(s, angle_open());
    if let Some(st) = find(s, angle_open()) {
        let rest = s.skip(st);
        lemma_find(rest, angle_close());
        lemma_find(rest, gt_bar());
        if let Some(i) = find(rest, angle_close()) {
            lemma_occurs_skip(s, angle_close(), st, i);
            assert(false);
        }
        if let Some(i) = find(rest, gt_bar()) {
            lemma_occurs_skip(s, gt_bar(), st, i);
            assert(false);
        }
    }
}

/// Replacing `|_|` traces back to the original text; a non-whitespace first
/// character comes from the first character of the original.
proof fn lemma_replace_bar_traces(s: Seq<char>) -> (f: spec_fn(int) -> int)
    ensures
        traces(replace_bar_underscore(s), s, f),
        replace_bar_underscore(s).len() > 0 && !is_ws(replace_bar_underscore(s)[0]) ==> f(0) == 0,
    decreases s.len(),
{
    let t = replace_bar_underscore(s);
    if s.len() == 0 {
        |i: int| i
    } else if occurs_at(s, bar_underscore(), 0) {
        let rest = s.skip(3);
        let r = replace_bar_underscore(rest);
        let g = lemma_replace_bar_traces(rest);
        assert(t == seq![' '] + r);
        assert(is_ws(' '));
        let f = |i: int| g(i - 1) + 3;
        assert forall|i: int| 0 <= i < t.len() && !is_ws(#[trigger] t[i]) implies 0 <= f(i) < s.len()
            && s[f(i)] == t[i] by {
            assert(t[i] == r[i - 1]);
            assert(rest[g(i - 1)] == s[g(i - 1) + 3]);
        }
        assert forall|i: int, j: int|
            #![trigger t[i], t[j]]
            0 <= i < j < t.len() && !is_ws(t[i]) && !is_ws(t[j]) implies f(i) < f(j) && (j == i
                + 1 ==> f(j) == f(i) + 1) by {
            assert(t[i] == r[i - 1]);
            assert(t[j] == r[j - 1]);
        }
        f
    } else {
        let rest = s.drop_first();
        let r = replace_bar_underscore(rest);
        let g = lemma_replace_bar_traces(rest);
        assert(t == seq![s[0]] + r);
        let f = |i: int|
            if i == 0 {
                0
            } else {
                g(i - 1) + 1
            };
        assert forall|i: int| 0 <= i < t.len() && !is_ws(#[trigger] t[i]) implies 0 <= f(i) < s.len()
            && s[f(i)] == t[i] by {
            if i > 0 {
                assert(t[i] == r[i - 1]);
                assert(rest[g(i - 1)] == s[g(i - 1) + 1]);
            }
        }
        assert forall|i: int, j: int|
            #![trigger t[i], t[j]]
            0 <= i < j < t.len() && !is_ws(t[i]) && !is_ws(t[j]) implies f(i) < f(j) && (j == i
                + 1 ==> f(j) == f(i) + 1) by {
            assert(t[j] == r[j - 1]);
            if i > 0 {
                assert(t[i] == r[i - 1]);
                assert(0 <= g(i - 1));
            } else {
                assert(0 <= g(j - 1));
                if j == 1 {
                    assert(r[0] == t[1]);
                }
            }
        }
        f
    }
}

/// Occurrences after a one-character head are occurrences in the tail.
proof fn lemma_occurs_after_head(c: char, r: Seq<char>, p: Seq<char>, i: int)
    requires
        1 <= i,
    ensures
        occurs_at(seq![c] + r, p, i) == occurs_at(r, p, i - 1),
{
    let t = seq![c] + r;
    if i + p.len() <= t.len() {
        assert(t.subrange(i, i + p.len()) =~= r.subrange(i - 1, i - 1 + p.len()));
    }
}

/// After replacing `|_|`, none is left.
proof fn lemma_replace_bar_clean(s: Seq<char>)
    ensures
        absent(replace_bar_underscore(s), bar_underscore()),
    decreases s.len(),
{
    let t = replace_bar_underscore(s);
    let p = bar_underscore();
    if s.len() == 0 {
    } else if occurs_at(s, p, 0) {
        let r = replace_bar_underscore(s.skip(3));
        lemma_replace_bar_clean(s.skip(3));
        assert(t == seq![' '] + r);
        assert forall|i: int| !#[trigger] occurs_at(t, p, i) by {
            if i >= 1 {
                lemma_occurs_after_head(' ', r, p, i);
            } else if occurs_at(t, p, i) {
                assert(t.subrange(0, 3)[0] == t[0]);
            }
        }
    } else {
        let rest = s.drop_first();
        let r = replace_bar_underscore(rest);
        lemma_replace_bar_clean(rest);
        let g = lemma_replace_bar_traces(rest);
        assert(t == seq![s[0]] + r);
        assert forall|i: int| !#[trigger] occurs_at(t, p, i) by {
            if i >= 1 {
                lemma_occurs_after_head(s[0], r, p, i);
            } else if occurs_at(t, p, i) {
                assert(i == 0);
                assert(t.subrange(0, 3) == p);
                assert(t[0] == p[0] && t[1] == p[1] && t[2] == p[2]);
                assert(r[0] == t[1] && r[1] == t[2]);
                assert(!is_ws('_') && !is_ws('|'));
                assert(g(0) == 0);
                assert(g(1) == g(0) + 1);
                assert(rest[0] == r[0] && rest[1] == r[1]);
                assert(s.subrange(0, 3) =~= p);
            }
        }
    }
}

/// Text without `|_|` is left as it is.
proof fn lemma_replace_bar_unchanged(s: Seq<char>)
    requires
        absent(s, bar_underscore()),
    ensures
        replace_bar_underscore(s) == s,
    decreases s.len(),
{
    if s.len() > 0 {
        let rest = s.drop_first();
        assert(!occurs_at(s, bar_underscore(), 0));
        assert forall|i: int| !#[trigger] occurs_at(rest, bar_underscore(), i) by {
            if 0 <= i {
                lemma_occurs_after_head(s[0], rest, bar_underscore(), i + 1);
                assert(seq![s[0]] + rest == s);
            }
        }
        lemma_replace_bar_unchanged(rest);
        assert(seq![s[0]] + rest == s);
    }
}

/// Joining a word in front of others.
proof fn lemma_join_front(w: Seq<char>, rest: Seq<Seq<char>>)
    ensures
        join_space(seq![w] + rest) == (if rest.len() == 0 {
            w
        } else {
            w + seq![' '] + join_space(rest)
        }),
    decreases rest.len(),
{
    let ws = seq![w] + rest;
    if rest.len() == 0 {
        assert(ws =~= seq![w]);
        assert(join_space(ws) == ws[0]);
    } else if rest.len() == 1 {
        assert(ws.drop_last() =~= seq![w]);
        assert(join_space(ws.drop_last()) == w);
        assert(ws.last() == rest[0]);
        assert(join_space(rest) == rest[0]);
        assert(join_space(ws) == join_space(ws.drop_last()) + seq![' '] + ws.last());
    } else {
        assert(ws.drop_last() =~= seq![w] + rest.drop_last());
        lemma_join_front(w, rest.drop_last());
        assert(join_space(ws.drop_last()) == w + seq![' '] + join_space(rest.drop_last()));
        assert(ws.last() == rest.last());
        assert(join_space(ws) == join_space(ws.drop_last()) + seq![' '] + ws.last());
        assert(join_space(rest) == join_space(rest.drop_last()) + seq![' '] + rest.last());
        assert(w + seq![' '] + join_space(rest.drop_last()) + seq![' '] + rest.last() =~= w + seq![
            ' ',
        ] + (join_space(rest.drop_last()) + seq![' '] + rest.last()));
    }
}

/// Collapsing whitespace traces back to the original text.
proof fn lemma_collapse_traces(s: Seq<char>) -> (f: spec_fn(int) -> int)
    ensures
        traces(join_space(runs(s, RunKind::NonSpace)), s, f),
    decreases s.len(),
{
    let k = RunKind::NonSpace;
    let t = join_space(runs(s, k));
    if s.len() == 0 {
        |i: int| i
    } else if !kept(k, s[0]) {
        let rest = s.drop_first();
        let g = lemma_collapse_traces(rest);
        assert(t == join_space(runs(rest, k)));
        let f = |i: int| g(i) + 1;
        assert forall|i: int| 0 <= i < t.len() && !is_ws(#[trigger] t[i]) implies 0 <= f(i) < s.len()
            && s[f(i)] == t[i] by {
            assert(rest[g(i)] == s[g(i) + 1]);
        }
        f
    } else {
        let n = run_len(s, k) as int;
        lemma_run_len_bound(s, k);
        let w = s.take(n);
        let rest = s.skip(n);
        let rs = runs(rest, k);
        assert(runs(s, k) == seq![w] + rs);
        lemma_join_front(w, rs);
        let g = lemma_collapse_traces(rest);
        if rs.len() == 0 {
            assert(t == w);
            |i: int| i
        } else {
            let j = join_space(rs);
            assert(t == w + seq![' '] + j);
            assert(t[n] == ' ');
            assert(is_ws(' '));
            let f = |i: int|
                if i < n {
                    i
                } else {
                    g(i - n - 1) + n
                };
            assert forall|i: int| 0 <= i < t.len() && !is_ws(#[trigger] t[i]) implies 0 <= f(i)
                < s.len() && s[f(i)] == t[i] by {
                if i < n {
                    assert(t[i] == w[i]);
                } else if i > n {
                    assert(t[i] == j[i - n - 1]);
                    assert(rest[g(i - n - 1)] == s[g(i - n - 1) + n]);
                }
            }
            assert forall|a: int, b: int|
                #![trigger t[a], t[b]]
                0 <= a < b < t.len() && !is_ws(t[a]) && !is_ws(t[b]) implies f(a) < f(b) && (b == a
                    + 1 ==> f(b) == f(a) + 1) by {
                if b > n {
                    assert(t[b] == j[b - n - 1]);
                    assert(0 <= g(b - n - 1));
                    if a > n {
                        assert(t[a] == j[a - n - 1]);
                    }
                }
            }
            f
        }
    }
}

/// The run at the front of a whitespace-free word followed by whitespace
/// (or nothing) is that word.
proof fn lemma_run_len_word(w: Seq<char>, rest: Seq<char>)
    requires
        ws_free(w),
        rest.len() > 0 ==> is_ws(rest[0]),
    ensures
        run_len(w + rest, RunKind::NonSpace) == w.len(),
    decreases w.len(),
{
    if w.len() == 0 {
        assert(w + rest =~= rest);
    } else {
        assert((w + rest)[0] == w[0]);
        assert((w + rest).drop_first() =~= w.drop_first() + rest);
        assert(ws_free(w.drop_first())) by {
            assert forall|k: int| 0 <= k < w.drop_first().len() implies !is_ws(
                #[trigger] w.drop_first()[k],
            ) by {
                assert(w.drop_first()[k] == w[k + 1]);
            }
        }
        lemma_run_len_word(w.drop_first(), rest);
    }
}

/// Splitting joined words gives the words back.
proof fn lemma_runs_of_join(ws: Seq<Seq<char>>)
    requires
        forall|j: int| 0 <= j < ws.len() ==> #[trigger] ws[j].len() > 0 && ws_free(ws[j]),
    ensures
        runs(join_space(ws), RunKind::NonSpace) == ws,
    decreases ws.len(),
{
    let k = RunKind::NonSpace;
    if ws.len() > 0 {
        let w = ws[0];
        let rest = ws.drop_first();
        assert(ws =~= seq![w] + rest);
        lemma_join_front(w, rest);
        assert(w.len() > 0 && ws_free(w));
        assert(!is_ws(w[0]));
        if rest.len() == 0 {
            let t = w;
            assert(join_space(ws) == t);
            lemma_run_len_word(w, Seq::<char>::empty());
            assert(w + Seq::<char>::empty() =~= w);
            assert(t.take(w.len() as int) =~= w);
            assert(t.skip(w.len() as int) =~= Seq::<char>::empty());
            assert(runs(t, k) == seq![w] + runs(Seq::<char>::empty(), k));
        } else {
            assert forall|j: int| 0 <= j < rest.len() implies #[trigger] rest[j].len() > 0 && ws_free(
                rest[j],
            ) by {
                assert(rest[j] == ws[j + 1]);
            }
            lemma_runs_of_join(rest);
            let jn = join_space(rest);
            let tail = seq![' '] + jn;
            let t = w + tail;
            assert(join_space(ws) == t) by {
                assert(w + seq![' '] + jn =~= w + (seq![' '] + jn));
            }
            assert(is_ws(' '));
            assert(tail[0] == ' ');
            lemma_run_len_word(w, tail);
            assert(t[0] == w[0]);
            assert(t.take(w.len() as int) =~= w);
            assert(t.skip(w.len() as int) =~= tail);
            assert(runs(t, k) == seq![w] + runs(tail, k));
            assert(tail.drop_first() =~= jn);
            assert(runs(tail, k) == runs(jn, k));
        }
    }
}

/// The stripped text holds no complete template token: no `|<|` is
/// followed by `|>|` or `>|`, no `<|` is followed by `|>` or `>|`, and no
/// `|_|` is left.
pub proof fn lemma_stripped_text_is_clean(s: Seq<char>)
    ensures
        pair_free(strip_template_tokens_spec(s), piped_open(), piped_close(), gt_bar()),
        pair_free(strip_template_tokens_spec(s), angle_open(), angle_close(), gt_bar()),
        absent(strip_template_tokens_spec(s), bar_underscore()),
{
    let k = RunKind::NonSpace;
    let y0 = remove_piped_tokens(s);
    let y1 = remove_angle_tokens(y0);
    let y2 = replace_bar_underscore(y1);
    let ws = runs(y2, k);
    let y3 = join_space(ws);
    lemma_patterns_ws_free();
    assert(piped_open().len() == 3 && piped_close().len() == 3 && gt_bar().len() == 2);
    assert(angle_open().len() == 2 && angle_close().len() == 2 && bar_underscore().len() == 3);
    lemma_stripped_is_joined_words(s);
    lemma_remove_piped_clean(s);
    let f1 = lemma_remove_angle_traces(y0);
    lemma_traces_pair_free(y1, y0, f1, piped_open(), piped_close(), gt_bar());
    lemma_remove_angle_clean(y0);
    let f2 = lemma_replace_bar_traces(y1);
    lemma_traces_pair_free(y2, y1, f2, piped_open(), piped_close(), gt_bar());
    lemma_traces_pair_free(y2, y1, f2, angle_open(), angle_close(), gt_bar());
    lemma_replace_bar_clean(y1);
    let f3 = lemma_collapse_traces(y2);
    lemma_traces_pair_free(y3, y2, f3, piped_open(), piped_close(), gt_bar());
    lemma_traces_pair_free(y3, y2, f3, angle_open(), angle_close(), gt_bar());
    lemma_traces_absent(y3, y2, f3, bar_underscore());
}

/// The stripped text is the words left after the token stages, joined by
/// single spaces; those words are non-empty and hold no whitespace.
proof fn lemma_stripped_is_joined_words(s: Seq<char>)
    ensures
        ({
            let ws = runs(
                replace_bar_underscore(remove_angle_tokens(remove_piped_tokens(s))),
                RunKind::NonSpace,
            );
            &&& strip_template_tokens_spec(s) == join_space(ws)
            &&& forall|j: int| 0 <= j < ws.len() ==> #[trigger] ws[j].len() > 0 && ws_free(ws[j])
        }),
{
    let k = RunKind::NonSpace;
    let y2 = replace_bar_underscore(remove_angle_tokens(remove_piped_tokens(s)));
    let ws = runs(y2, k);
    let y3 = join_space(ws);
    lemma_runs_shape(y2, k);
    assert forall|j: int| 0 <= j < ws.len() implies #[trigger] ws[j].len() > 0 && ws_free(ws[j]) by {
        assert forall|t: int| 0 <= t < ws[j].len() implies !is_ws(#[trigger] ws[j][t]) by {
            assert(kept(k, ws[j][t]));
        }
    }
    lemma_join_space_collapsed(ws);
    assert(is_trimmed(y3));
    lemma_trim_of_trimmed(y3);
    assert(collapse_whitespace(y2) == y3);
}

/// Stripping template tokens from text that has already been stripped
/// changes nothing: the stripped text holds no complete template token,
/// no `|_|`, and no whitespace but single spaces between words.
pub proof fn lemma_strip_template_tokens_idempotent(s: Seq<char>)
    ensures
        strip_template_tokens_spec(strip_template_tokens_spec(s)) == strip_template_tokens_spec(s),
{
    let x = strip_template_tokens_spec(s);
    let ws = runs(
        replace_bar_underscore(remove_angle_tokens(remove_piped_tokens(s))),
        RunKind::NonSpace,
    );
    lemma_stripped_is_joined_words(s);
    lemma_stripped_text_is_clean(s);
    lemma_remove_piped_unchanged(x);
    lemma_remove_angle_unchanged(x);
    lemma_replace_bar_unchanged(x);
    lemma_runs_of_join(ws);
    assert(collapse_whitespace(x) == x);
    lemma_join_space_collapsed(ws);
    lemma_trim_of_trimmed(x);
}

// ---------------------------------------------------------------------------
// Stripping and answer clean-up keep the words they keep verbatim.
// ---------------------------------------------------------------------------

/// Every whitespace-free piece of `t` occurs, exactly as it is, in `s`.
pub open spec fn keeps_words(t: Seq<char>, s: Seq<char>) -> bool {
    forall|i: int, j: int|
        0 <= i < j <= t.len() && ws_free(#[trigger] t.subrange(i, j)) ==> contains_seq(
            s,
            t.subrange(i, j),
        )
}

proof fn lemma_traces_keeps_words(t: Seq<char>, s: Seq<char>, f: spec_fn(int) -> int)
    requires
        traces(t, s, f),
    ensures
        keeps_words(t, s),
{
    assert forall|i: int, j: int|
        0 <= i < j <= t.len() && ws_free(#[trigger] t.subrange(i, j)) implies contains_seq(
        s,
        t.subrange(i, j),
    ) by {
        lemma_traces_stretch(t, s, f, i, j - i);
        assert(occurs_at(s, t.subrange(i, j), f(i)));
    }
}

/// A piece of `x` keeps the words of `x`.
proof fn lemma_piece_keeps_words(x: Seq<char>, a: int, b: int)
    requires
        0 <= a <= b <= x.len(),
    ensures
        keeps_words(x.subrange(a, b), x),
{
    let u = x.subrange(a, b);
    assert forall|i: int, j: int|
        0 <= i < j <= u.len() && ws_free(#[trigger] u.subrange(i, j)) implies contains_seq(
        x,
        u.subrange(i, j),
    ) by {
        assert(u.subrange(i, j) =~= x.subrange(a + i, a + j));
        assert(occurs_at(x, u.subrange(i, j), a + i));
    }
}

proof fn lemma_keeps_words_trans(u: Seq<char>, t: Seq<char>, s: Seq<char>)
    requires
        keeps_words(u, t),
        keeps_words(t, s),
    ensures
        keeps_words(u, s),
{
    assert forall|i: int, j: int|
        0 <= i < j <= u.len() && ws_free(#[trigger] u.subrange(i, j)) implies contains_seq(
        s,
        u.subrange(i, j),
    ) by {
        let p = u.subrange(i, j);
        assert(contains_seq(t, p));
        let k = choose|k: int| occurs_at(t, p, k);
        assert(t.subrange(k, k + p.len()) == p);
        assert(ws_free(t.subrange(k, k + p.len())));
    }
}

/// Trimming keeps the words of the text.
proof fn lemma_trim_keeps_words(x: Seq<char>)
    ensures
        keeps_words(trim(x), x),
{
    lemma_trim_start_shape(x);
    let a = trim_start(x);
    lemma_trim_end_shape(a);
    let k = x.len() - a.len();
    let m = trim_end(a).len() as int;
    assert(trim(x) =~= x.subrange(k, k + m));
    lemma_piece_keeps_words(x, k, k + m);
}

/// Every whitespace-free piece of the text that `strip_template_tokens`
/// returns (so every word of it) occurs verbatim in its input: stripping
/// removes tokens and whitespace but never alters or joins the remaining
/// text.
pub proof fn lemma_strip_template_tokens_keeps_words(s: Seq<char>)
    ensures
        keeps_words(strip_template_tokens_spec(s), s),
{
    let k = RunKind::NonSpace;
    let y0 = remove_piped_tokens(s);
    let y1 = remove_angle_tokens(y0);
    let y2 = replace_bar_underscore(y1);
    let ws = runs(y2, k);
    let y3 = join_space(ws);
    lemma_runs_shape(y2, k);
    assert forall|j: int| 0 <= j < ws.len() implies #[trigger] ws[j].len() > 0 && forall|t: int|
        0 <= t < ws[j].len() ==> !is_ws(#[trigger] ws[j][t]) by {
        assert forall|t: int| 0 <= t < ws[j].len() implies !is_ws(#[trigger] ws[j][t]) by {
            assert(kept(k, ws[j][t]));
        }
    }
    lemma_join_space_collapsed(ws);
    lemma_trim_of_trimmed(y3);
    assert(strip_template_tokens_spec(s) == y3);
    let f0 = lemma_remove_piped_traces(s);
    let f1 = lemma_remove_angle_traces(y0);
    let f2 = lemma_replace_bar_traces(y1);
    let f3 = lemma_collapse_traces(y2);
    lemma_traces_compose(y1, y0, s, f1, f0);
    let g1 = |i: int| f0(f1(i));
    lemma_traces_compose(y2, y1, s, f2, g1);
    let g2 = |i: int| g1(f2(i));
    lemma_traces_compose(y3, y2, s, f3, g2);
    lemma_traces_keeps_words(y3, s, |i: int| g2(f3(i)));
}

/// The answer part of a numbered line is a piece of it.
proof fn lemma_numbered_answer_keeps_words(first: Seq<char>)
    requires
        leading_digits(first) + 1 <= first.len(),
    ensures
        keeps_words(numbered_line_answer(first), first),
{
    let d = leading_digits(first) as int;
    let r0 = first.skip(d + 1);
    assert(r0 =~= first.subrange(d + 1, first.len() as int));
    lemma_piece_keeps_words(first, d + 1, first.len() as int);
    let r1 = trim_start(r0);
    lemma_trim_start_shape(r0);
    assert(r1 =~= r0.subrange(r0.len() - r1.len(), r0.len() as int));
    lemma_piece_keeps_words(r0, r0.len() - r1.len(), r0.len() as int);
    lemma_keeps_words_trans(r1, r0, first);
    let r2 = if r1.len() > 0 && r1[0] == '"' {
        r1.drop_first()
    } else {
        r1
    };
    if r1.len() > 0 && r1[0] == '"' {
        assert(r2 =~= r1.subrange(1, r1.len() as int));
        lemma_piece_keeps_words(r1, 1, r1.len() as int);
    } else {
        assert(r2 =~= r1.subrange(0, r1.len() as int));
        lemma_piece_keeps_words(r1, 0, r1.len() as int);
    }
    lemma_keeps_words_trans(r2, r1, first);
    let r3 = if r2.len() > 0 && r2.last() == '"' {
        r2.drop_last()
    } else {
        r2
    };
    if r2.len() > 0 && r2.last() == '"' {
        assert(r3 =~= r2.subrange(0, r2.len() - 1));
        lemma_piece_keeps_words(r2, 0, r2.len() - 1);
    } else {
        assert(r3 =~= r2.subrange(0, r2.len() as int));
        lemma_piece_keeps_words(r2, 0, r2.len() as int);
    }
    lemma_keeps_words_trans(r3, r2, first);
    lemma_trim_keeps_words(r3);
    lemma_keeps_words_trans(trim(r3), r3, first);
    assert(numbered_line_answer(first) == trim(r3));
}

/// The text kept before the next turn is a piece of the output.
proof fn lemma_cut_keeps_words(s: Seq<char>)
    ensures
        keeps_words(cut_at_next_turn_spec(s), s),
{
    let c = cut_index(s);
    lemma_cut_index_bounds(s);
    let pre = s.take(c);
    lemma_trim_end_shape(pre);
    let after = cut_at_next_turn_spec(s);
    let m = after.len() as int;
    assert(after =~= s.subrange(0, m));
    lemma_piece_keeps_words(s, 0, m);
}

/// The cleaned answer keeps the words of the text before the next turn.
proof fn lemma_answer_keeps_cut_words(s: Seq<char>)
    ensures
        keeps_words(truncate_answer_spec(s), cut_at_next_turn_spec(s)),
{
    let after = cut_at_next_turn_spec(s);
    let st = strip_template_tokens_spec(after);
    lemma_strip_template_tokens_keeps_words(after);
    lemma_strip_output_collapsed(after);
    lemma_trim_of_trimmed(st);
    lemma_trim_keeps_words(after);
    let t = cleaned_text(s);
    if trim(st).len() != 0 {
        assert(t == st);
    }
    if t.len() > 0 {
        let fl = first_line(t);
        lemma_find(t, seq!['\n']);
        let n = fl.len() as int;
        assert(fl =~= t.subrange(0, n));
        lemma_piece_keeps_words(t, 0, n);
        let first = trim(fl);
        lemma_trim_keeps_words(fl);
        lemma_keeps_words_trans(first, fl, t);
        if is_numbered_line(first) && numbered_line_answer(first).len() > 0 {
            lemma_numbered_answer_keeps_words(first);
            lemma_keeps_words_trans(numbered_line_answer(first), first, t);
            lemma_keeps_words_trans(numbered_line_answer(first), t, after);
        }
    }
}

/// Every whitespace-free piece of the cleaned answer (so every word of it)
/// occurs verbatim in the model output: the clean-up cuts, removes tokens,
/// numbering, quotes and whitespace, but adds or alters no text.
pub proof fn lemma_truncate_answer_keeps_words(s: Seq<char>)
    ensures
        keeps_words(truncate_answer_spec(s), s),
{
    lemma_answer_keeps_cut_words(s);
    lemma_cut_keeps_words(s);
    lemma_keeps_words_trans(truncate_answer_spec(s), cut_at_next_turn_spec(s), s);
}

/// Each next-turn marker is free of whitespace.
proof fn lemma_marker_ws_free(k: int)
    requires
        0 <= k < 9,
    ensures
        ws_free(next_turn_marker(k)),
        next_turn_marker(k).len() > 0,
{
    let m = next_turn_marker(k);
    assert forall|t: int| 0 <= t < m.len() implies !is_ws(#[trigger] m[t]) by {
        assert(0x21 <= m[t] as u32 <= 0x7e);
    }
}

/// The cleaned answer holds no next-turn marker (`|Human:`, `ASSISTANT:`,
/// `<|user|>`, ...): nothing of a following turn reaches the user.
pub proof fn lemma_truncate_answer_has_no_marker(s: Seq<char>, k: int)
    requires
        0 <= k < 9,
    ensures
        !contains_seq(truncate_answer_spec(s), next_turn_marker(k)),
{
    let a = truncate_answer_spec(s);
    let m = next_turn_marker(k);
    lemma_answer_keeps_cut_words(s);
    lemma_cut_has_no_marker(s, k);
    lemma_marker_ws_free(k);
    if contains_seq(a, m) {
        let j = choose|j: int| occurs_at(a, m, j);
        assert(a.subrange(j, j + m.len()) == m);
        assert(ws_free(a.subrange(j, j + m.len())));
    }
}

// ---------------------------------------------------------------------------
// Stripping and answer clean-up only shorten the text.
// ---------------------------------------------------------------------------

proof fn lemma_remove_piped_len(s: Seq<char>)
    ensures
        remove_piped_tokens(s).len() <= s.len(),
    decreases s.len(),
{
    lemma_find(s, piped_open());
    if let Some(st) = find(s, piped_open()) {
        lemma_piped_end_bounds(s, st);
        if let Some(e) = piped_end(s, st) {
            let t1 = replace_span(s, st, e);
            assert(remove_piped_tokens(s) == remove_piped_tokens(t1));
            lemma_remove_piped_len(t1);
        }
    }
}

proof fn lemma_remove_angle_len(s: Seq<char>)
    ensures
        remove_angle_tokens(s).len() <= s.len(),
    decreases s.len(),
{
    lemma_find(s, angle_open());
    if let Some(st) = find(s, angle_open()) {
        lemma_angle_end_bounds(s, st);
        if let Some(e) = angle_end(s, st) {
            let t1 = replace_span(s, st, e);
            assert(remove_angle_tokens(s) == remove_angle_tokens(t1));
            lemma_remove_angle_len(t1);
        }
    }
}

proof fn lemma_replace_bar_len(s: Seq<char>)
    ensures
        replace_bar_underscore(s).len() <= s.len(),
    decreases s.len(),
{
    if s.len() > 0 {
        if occurs_at(s, bar_underscore(), 0) {
            lemma_replace_bar_len(s.skip(3));
        } else {
            lemma_replace_bar_len(s.drop_first());
        }
    }
}

/// A run ends at the first character that does not belong to it.
proof fn lemma_run_len_stop(s: Seq<char>, kind: RunKind)
    ensures
        run_len(s, kind) < s.len() ==> !kept(kind, s[run_len(s, kind) as int]),
    decreases s.len(),
{
    if s.len() > 0 && kept(kind, s[0]) {
        lemma_run_len_stop(s.drop_first(), kind);
        lemma_run_len_bound(s.drop_first(), kind);
        let n = run_len(s.drop_first(), kind);
        if n < s.drop_first().len() {
            assert(s[(n + 1) as int] == s.drop_first()[n as int]) by {
                assert(s.drop_first()[n as int] == s[(n + 1) as int]);
            }
        }
    }
}

proof fn lemma_collapse_len(s: Seq<char>)
    ensures
        join_space(runs(s, RunKind::NonSpace)).len() <= s.len(),
    decreases s.len(),
{
    let k = RunKind::NonSpace;
    if s.len() > 0 {
        if !kept(k, s[0]) {
            lemma_collapse_len(s.drop_first());
        } else {
            let n = run_len(s, k) as int;
            lemma_run_len_bound(s, k);
            lemma_run_len_stop(s, k);
            let w = s.take(n);
            let rest = s.skip(n);
            let rs = runs(rest, k);
            assert(runs(s, k) == seq![w] + rs);
            lemma_join_front(w, rs);
            if rs.len() > 0 {
                assert(rest.len() > 0);
                assert(rest[0] == s[n]);
                assert(rs == runs(rest.drop_first(), k));
                lemma_collapse_len(rest.drop_first());
            }
        }
    }
}

/// Stripping template tokens never lengthens the text.
pub proof fn lemma_strip_template_tokens_no_longer(s: Seq<char>)
    ensures
        strip_template_tokens_spec(s).len() <= s.len(),
{
    let y0 = remove_piped_tokens(s);
    let y1 = remove_angle_tokens(y0);
    let y2 = replace_bar_underscore(y1);
    lemma_remove_piped_len(s);
    lemma_remove_angle_len(y0);
    lemma_replace_bar_len(y1);
    lemma_collapse_len(y2);
    let y3 = collapse_whitespace(y2);
    lemma_trim_start_shape(y3);
    lemma_trim_end_shape(trim_start(y3));
}

/// The cleaned answer is never longer than the model output.
pub proof fn lemma_truncate_answer_no_longer(s: Seq<char>)
    ensures
        truncate_answer_spec(s).len() <= s.len(),
{
    lemma_cut_index_bounds(s);
    lemma_trim_end_shape(s.take(cut_index(s)));
    let after = cut_at_next_turn_spec(s);
    let st = strip_template_tokens_spec(after);
    lemma_strip_template_tokens_no_longer(after);
    lemma_trim_start_shape(st);
    lemma_trim_end_shape(trim_start(st));
    lemma_trim_start_shape(after);
    lemma_trim_end_shape(trim_start(after));
    let t = cleaned_text(s);
    assert(t.len() <= s.len());
    if t.len() > 0 {
        let fl = first_line(t);
        lemma_find(t, seq!['\n']);
        let first = trim(fl);
        lemma_trim_start_shape(fl);
        lemma_trim_end_shape(trim_start(fl));
        if is_numbered_line(first) && numbered_line_answer(first).len() > 0 {
            let d = leading_digits(first) as int;
            let r0 = first.skip(d + 1);
            let r1 = trim_start(r0);
            lemma_trim_start_shape(r0);
            let r2 = if r1.len() > 0 && r1[0] == '"' {
                r1.drop_first()
            } else {
                r1
            };
            let r3 = if r2.len() > 0 && r2.last() == '"' {
                r2.drop_last()
            } else {
                r2
            };
            lemma_trim_start_shape(r3);
            lemma_trim_end_shape(trim_start(r3));
            assert(numbered_line_answer(first) == trim(r3));
        }
    }
}

// ---------------------------------------------------------------------------
// The same bounds in UTF-8 bytes, which `str::len` counts.
// ---------------------------------------------------------------------------

/// A space takes one byte.
proof fn lemma_space_bytes()
    ensures
        utf8_len(seq![' ']) == 1,
{
    lemma_utf8_len_single(' ');
}

/// `c` followed by `r` takes the bytes of both.
proof fn lemma_head_bytes(c: char, r: Seq<char>)
    ensures
        utf8_len(seq![c] + r) == utf8_len(seq![c]) + utf8_len(r),
        utf8_len(seq![c]) >= 1,
{
    lemma_utf8_len_concat(seq![c], r);
    lemma_utf8_len_at_least_len(seq![c]);
}

proof fn lemma_replace_span_bytes(s: Seq<char>, st: int, e: int)
    requires
        0 <= st,
        st + 2 <= e <= s.len(),
    ensures
        utf8_len(replace_span(s, st, e)) <= utf8_len(s),
{
    lemma_utf8_len_piece(s, st, e);
    lemma_utf8_len_at_least_len(s.subrange(st, e));
    lemma_space_bytes();
    lemma_utf8_len_concat(s.take(st), seq![' ']);
    lemma_utf8_len_concat(s.take(st) + seq![' '], s.skip(e));
}

proof fn lemma_remove_piped_bytes(s: Seq<char>)
    ensures
        utf8_len(remove_piped_tokens(s)) <= utf8_len(s),
    decreases s.len(),
{
    lemma_find(s, piped_open());
    if let Some(st) = find(s, piped_open()) {
        lemma_piped_end_bounds(s, st);
        if let Some(e) = piped_end(s, st) {
            let t1 = replace_span(s, st, e);
            assert(remove_piped_tokens(s) == remove_piped_tokens(t1));
            lemma_replace_span_bytes(s, st, e);
            lemma_remove_piped_bytes(t1);
        }
    }
}

proof fn lemma_remove_angle_bytes(s: Seq<char>)
    ensures
        utf8_len(remove_angle_tokens(s)) <= utf8_len(s),
    decreases s.len(),
{
    lemma_find(s, angle_open());
    if let Some(st) = find(s, angle_open()) {
        lemma_angle_end_bounds(s, st);
        if let Some(e) = angle_end(s, st) {
            let t1 = replace_span(s, st, e);
            assert(remove_angle_tokens(s) == remove_angle_tokens(t1));
            lemma_replace_span_bytes(s, st, e);
            lemma_remove_angle_bytes(t1);
        }
    }
}

proof fn lemma_replace_bar_bytes(s: Seq<char>)
    ensures
        utf8_len(replace_bar_underscore(s)) <= utf8_len(s),
    decreases s.len(),
{
    if s.len() > 0 {
        if occurs_at(s, bar_underscore(), 0) {
            let rest = s.skip(3);
            lemma_replace_bar_bytes(rest);
            lemma_utf8_len_piece(s, 0, 3);
            assert(s.subrange(0, 3) =~= s.take(3));
            lemma_utf8_len_at_least_len(s.take(3));
            assert(s =~= s.take(3) + rest);
            lemma_utf8_len_concat(s.take(3), rest);
            lemma_space_bytes();
            lemma_head_bytes(' ', replace_bar_underscore(rest));
        } else {
            let rest = s.drop_first();
            lemma_replace_bar_bytes(rest);
            assert(s =~= seq![s[0]] + rest);
            lemma_head_bytes(s[0], rest);
            lemma_head_bytes(s[0], replace_bar_underscore(rest));
        }
    }
}

proof fn lemma_collapse_bytes(s: Seq<char>)
    ensures
        utf8_len(join_space(runs(s, RunKind::NonSpace))) <= utf8_len(s),
    decreases s.len(),
{
    let k = RunKind::NonSpace;
    if s.len() > 0 {
        if !kept(k, s[0]) {
            lemma_collapse_bytes(s.drop_first());
            assert(s =~= seq![s[0]] + s.drop_first());
            lemma_head_bytes(s[0], s.drop_first());
        } else {
            let n = run_len(s, k) as int;
            lemma_run_len_bound(s, k);
            lemma_run_len_stop(s, k);
            let w = s.take(n);
            let rest = s.skip(n);
            let rs = runs(rest, k);
            assert(runs(s, k) == seq![w] + rs);
            lemma_join_front(w, rs);
            assert(s =~= w + rest);
            lemma_utf8_len_concat(w, rest);
            if rs.len() > 0 {
                assert(rest.len() > 0);
                assert(rest[0] == s[n]);
                assert(rs == runs(rest.drop_first(), k));
                lemma_collapse_bytes(rest.drop_first());
                assert(rest =~= seq![rest[0]] + rest.drop_first());
                lemma_head_bytes(rest[0], rest.drop_first());
                let j = join_space(rs);
                lemma_space_bytes();
                lemma_utf8_len_concat(w, seq![' ']);
                lemma_utf8_len_concat(w + seq![' '], j);
            } else {
                lemma_utf8_len_at_least_len(rest);
            }
        }
    }
}

/// Trimming never adds bytes.
proof fn lemma_trim_bytes(x: Seq<char>)
    ensures
        utf8_len(trim(x)) <= utf8_len(x),
{
    lemma_trim_start_shape(x);
    let a = trim_start(x);
    lemma_trim_end_shape(a);
    let k = x.len() - a.len();
    let m = trim_end(a).len() as int;
    assert(trim(x) =~= x.subrange(k, k + m));
    lemma_utf8_len_piece(x, k, k + m);
}

/// Stripping template tokens never makes the text take more UTF-8 bytes.
pub proof fn lemma_strip_template_tokens_fewer_bytes(s: Seq<char>)
    ensures
        utf8_len(strip_template_tokens_spec(s)) <= utf8_len(s),
{
    let y0 = remove_piped_tokens(s);
    let y1 = remove_angle_tokens(y0);
    let y2 = replace_bar_underscore(y1);
    lemma_remove_piped_bytes(s);
    lemma_remove_angle_bytes(y0);
    lemma_replace_bar_bytes(y1);
    lemma_collapse_bytes(y2);
    lemma_trim_bytes(collapse_whitespace(y2));
}

/// The answer part of a numbered line takes no more bytes than the line.
proof fn lemma_numbered_answer_bytes(first: Seq<char>)
    requires
        leading_digits(first) + 1 <= first.len(),
    ensures
        utf8_len(numbered_line_answer(first)) <= utf8_len(first),
{
    let d = leading_digits(first) as int;
    let r0 = first.skip(d + 1);
    assert(r0 =~= first.subrange(d + 1, first.len() as int));
    lemma_utf8_len_piece(first, d + 1, first.len() as int);
    let r1 = trim_start(r0);
    lemma_trim_start_shape(r0);
    assert(r1 =~= r0.subrange(r0.len() - r1.len(), r0.len() as int));
    lemma_utf8_len_piece(r0, r0.len() - r1.len(), r0.len() as int);
    let r2 = if r1.len() > 0 && r1[0] == '"' {
        r1.drop_first()
    } else {
        r1
    };
    if r1.len() > 0 && r1[0] == '"' {
        assert(r2 =~= r1.subrange(1, r1.len() as int));
        lemma_utf8_len_piece(r1, 1, r1.len() as int);
    }
    let r3 = if r2.len() > 0 && r2.last() == '"' {
        r2.drop_last()
    } else {
        r2
    };
    if r2.len() > 0 && r2.last() == '"' {
        assert(r3 =~= r2.subrange(0, r2.len() - 1));
        lemma_utf8_len_piece(r2, 0, r2.len() - 1);
    }
    lemma_trim_bytes(r3);
    assert(numbered_line_answer(first) == trim(r3));
}

/// The cleaned answer never takes more UTF-8 bytes than the model output.
pub proof fn lemma_truncate_answer_fewer_bytes(s: Seq<char>)
    ensures
        utf8_len(truncate_answer_spec(s)) <= utf8_len(s),
{
    lemma_cut_index_bounds(s);
    lemma_trim_end_shape(s.take(cut_index(s)));
    let after = cut_at_next_turn_spec(s);
    let m = after.len() as int;
    assert(after =~= s.subrange(0, m));
    lemma_utf8_len_piece(s, 0, m);
    let st = strip_template_tokens_spec(after);
    lemma_strip_template_tokens_fewer_bytes(after);
    lemma_trim_bytes(st);
    lemma_trim_bytes(after);
    let t = cleaned_text(s);
    assert(utf8_len(t) <= utf8_len(s));
    if t.len() > 0 {
        let fl = first_line(t);
        lemma_find(t, seq!['\n']);
        let n = fl.len() as int;
        assert(fl =~= t.subrange(0, n));
        lemma_utf8_len_piece(t, 0, n);
        let first = trim(fl);
        lemma_trim_bytes(fl);
        if is_numbered_line(first) && numbered_line_answer(first).len() > 0 {
            lemma_numbered_answer_bytes(first);
        }
    }
}

} // verus!

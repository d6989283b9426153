//! The cleaned answer adds no text of its own: its characters other than
//! spaces all come from the model output, in the same order.

use vstd::prelude::*;
use crate::answer::{
    collapse_whitespace, cut_at_next_turn_spec, cut_index, finish_answer_spec, first_line,
    normalize_numbered_line, numbered_line_answer, remove_angle_tokens, remove_piped_tokens,
    replace_bar_underscore, replace_span, strip_template_tokens_spec, is_numbered_line,
    leading_digits,
    truncate_answer_spec, angle_close, angle_open, bar_underscore, gt_bar, piped_close, piped_open,
};
use crate::text::{
    find, is_ws, join_space, kept, lemma_runs_shape, lemma_trim_end_shape, lemma_trim_start_shape,
    occurs_at, run_len, runs, trim, trim_end, trim_start, RunKind,
};

verus! {

/// `s` without its space characters.
pub open spec fn strip_spaces(s: Seq<char>) -> Seq<char>
    decreases s.len(),
{
    if s.len() == 0 {
        seq![]
    } else if s.last() == ' ' {
        strip_spaces(s.drop_last())
    } else {
        strip_spaces(s.drop_last()).push(s.last())
    }
}

/// `f` maps the positions of `a` increasingly onto equal characters of `b`.
pub open spec fn embedding(f: Seq<int>, a: Seq<char>, b: Seq<char>) -> bool {
    &&& f.len() == a.len()
    &&& forall|i: int| 0 <= i < f.len() ==> 0 <= #[trigger] f[i] < b.len() && b[f[i]] == a[i]
    &&& forall|i: int, j: int| 0 <= i < j < f.len() ==> f[i] < f[j]
}

/// `a` is a subsequence of `b`.
pub open spec fn is_subseq(a: Seq<char>, b: Seq<char>) -> bool {
    exists|f: Seq<int>| #[trigger] embedding(f, a, b)
}

/// Every non-space character of `out` comes from `inp`, in order.
pub open spec fn draws_from(out: Seq<char>, inp: Seq<char>) -> bool {
    is_subseq(strip_spaces(out), strip_spaces(inp))
}

proof fn lemma_subseq_refl(a: Seq<char>)
    ensures
        is_subseq(a, a),
{
    let f = Seq::new(a.len(), |i: int| i);
    assert(embedding(f, a, a));
}

proof fn lemma_subseq_empty(b: Seq<char>)
    ensures
        is_subseq(Seq::<char>::empty(), b),
{
    let f = Seq::<int>::empty();
    assert(embedding(f, Seq::<char>::empty(), b));
}

proof fn lemma_subseq_trans(a: Seq<char>, b: Seq<char>, c: Seq<char>)
    requires
        is_subseq(a, b),
        is_subseq(b, c),
    ensures
        is_subseq(a, c),
{
    let f = choose|f: Seq<int>| #[trigger] embedding(f, a, b);
    let g = choose|g: Seq<int>| #[trigger] embedding(g, b, c);
    let h = Seq::new(f.len(), |i: int| g[f[i]]);
    assert forall|i: int, j: int| 0 <= i < j < h.len() implies h[i] < h[j] by {
        assert(f[i] < f[j]);
    }
    assert(embedding(h, a, c));
}

proof fn lemma_subseq_concat(a1: Seq<char>, b1: Seq<char>, a2: Seq<char>, b2: Seq<char>)
    requires
        is_subseq(a1, b1),
        is_subseq(a2, b2),
    ensures
        is_subseq(a1 + a2, b1 + b2),
{
    let f1 = choose|f: Seq<int>| #[trigger] embedding(f, a1, b1);
    let f2 = choose|f: Seq<int>| #[trigger] embedding(f, a2, b2);
    let h = f1 + Seq::new(f2.len(), |i: int| f2[i] + b1.len());
    let a = a1 + a2;
    let b = b1 + b2;
    assert forall|i: int| 0 <= i < h.len() implies 0 <= #[trigger] h[i] < b.len() && b[h[i]] == a[i] by {
        if i >= f1.len() {
            assert(h[i] == f2[i - f1.len()] + b1.len());
        }
    }
    assert forall|i: int, j: int| 0 <= i < j < h.len() implies h[i] < h[j] by {
        if j < f1.len() {
        } else if i < f1.len() {
            assert(h[j] == f2[j - f1.len()] + b1.len());
        } else {
            assert(h[i] == f2[i - f1.len()] + b1.len());
            assert(h[j] == f2[j - f1.len()] + b1.len());
        }
    }
    assert(embedding(h, a, b));
}

proof fn lemma_strip_concat(a: Seq<char>, b: Seq<char>)
    ensures
        strip_spaces(a + b) == strip_spaces(a) + strip_spaces(b),
    decreases b.len(),
{
    if b.len() == 0 {
        assert(a + b == a);
    } else {
        lemma_strip_concat(a, b.drop_last());
        assert((a + b).drop_last() == a + b.drop_last());
        assert((a + b).last() == b.last());
    }
}

proof fn lemma_strip_one_space()
    ensures
        strip_spaces(seq![' ']) == Seq::<char>::empty(),
{
    let s = seq![' '];
    assert(s.len() == 1);
    assert(s.last() == ' ');
    assert(s.drop_last() == Seq::<char>::empty());
    assert(strip_spaces(Seq::<char>::empty()) == Seq::<char>::empty());
}

proof fn lemma_strip_no_space(w: Seq<char>)
    requires
        forall|t: int| 0 <= t < w.len() ==> w[t] != ' ',
    ensures
        strip_spaces(w) == w,
    decreases w.len(),
{
    if w.len() > 0 {
        lemma_strip_no_space(w.drop_last());
        assert(w.drop_last().push(w.last()) == w);
    }
}

proof fn lemma_draws_trans(a: Seq<char>, b: Seq<char>, c: Seq<char>)
    requires
        draws_from(a, b),
        draws_from(b, c),
    ensures
        draws_from(a, c),
{
    lemma_subseq_trans(strip_spaces(a), strip_spaces(b), strip_spaces(c));
}

proof fn lemma_draws_refl(a: Seq<char>)
    ensures
        draws_from(a, a),
{
    lemma_subseq_refl(strip_spaces(a));
}

/// A piece of a text draws from the text.
proof fn lemma_draws_subrange(s: Seq<char>, i: int, j: int)
    requires
        0 <= i <= j <= s.len(),
    ensures
        draws_from(s.subrange(i, j), s),
{
    let a = s.take(i);
    let m = s.subrange(i, j);
    let c = s.skip(j);
    assert(s == a + m + c);
    lemma_strip_concat(a + m, c);
    lemma_strip_concat(a, m);
    lemma_subseq_empty(strip_spaces(a));
    lemma_subseq_empty(strip_spaces(c));
    lemma_subseq_refl(strip_spaces(m));
    lemma_subseq_concat(Seq::<char>::empty(), strip_spaces(a), strip_spaces(m), strip_spaces(m));
    lemma_subseq_concat(
        Seq::<char>::empty() + strip_spaces(m),
        strip_spaces(a) + strip_spaces(m),
        Seq::<char>::empty(),
        strip_spaces(c),
    );
    assert(Seq::<char>::empty() + strip_spaces(m) + Seq::<char>::empty() == strip_spaces(m));
}

proof fn lemma_draws_replace_span(s: Seq<char>, st: int, e: int)
    requires
        0 <= st <= e <= s.len(),
    ensures
        draws_from(replace_span(s, st, e), s),
{
    let a = s.take(st);
    let m = s.subrange(st, e);
    let c = s.skip(e);
    assert(s == a + m + c);
    lemma_strip_concat(a + m, c);
    lemma_strip_concat(a, m);
    lemma_strip_concat(a + seq![' '], c);
    lemma_strip_concat(a, seq![' ']);
    lemma_strip_one_space();
    lemma_subseq_refl(strip_spaces(a));
    lemma_subseq_refl(strip_spaces(c));
    lemma_subseq_empty(strip_spaces(m));
    lemma_subseq_concat(strip_spaces(a), strip_spaces(a), Seq::<char>::empty(), strip_spaces(m));
    lemma_subseq_concat(
        strip_spaces(a) + Seq::<char>::empty(),
        strip_spaces(a) + strip_spaces(m),
        strip_spaces(c),
        strip_spaces(c),
    );
    assert(strip_spaces(a) + Seq::<char>::empty() == strip_spaces(a));
}

proof fn lemma_draws_trim(s: Seq<char>)
    ensures
        draws_from(trim(s), s),
        draws_from(trim_end(s), s),
{
    lemma_trim_start_shape(s);
    let t = trim_start(s);
    let k = s.len() - t.len();
    lemma_trim_end_shape(t);
    let m = trim_end(t).len();
    assert(trim(s) == s.subrange(k, k + m));
    lemma_draws_subrange(s, k, k + m);
    lemma_trim_end_shape(s);
    assert(trim_end(s) == s.subrange(0, trim_end(s).len() as int));
    lemma_draws_subrange(s, 0, trim_end(s).len() as int);
}

proof fn lemma_draws_remove_piped(s: Seq<char>)
    ensures
        draws_from(remove_piped_tokens(s), s),
    decreases s.len(),
{
    match find(s, piped_open()) {
        None => lemma_draws_refl(s),
        Some(st) => {
            let rest = s.skip(st);
            let end = match find(rest, piped_close()) {
                Some(i) => Some(st + i + 3),
                None => match find(rest, gt_bar()) {
                    Some(i) => Some(st + i + 2),
                    None => None,
                },
            };
            match end {
                Some(e) => if 0 <= st && st + 2 <= e <= s.len() {
                    let ns = replace_span(s, st, e);
                    lemma_draws_remove_piped(ns);
                    lemma_draws_replace_span(s, st, e);
                    lemma_draws_trans(remove_piped_tokens(ns), ns, s);
                } else {
                    lemma_draws_refl(s);
                },
                None => lemma_draws_refl(s),
            }
        },
    }
}

proof fn lemma_draws_remove_angle(s: Seq<char>)
    ensures
        draws_from(remove_angle_tokens(s), s),
    decreases s.len(),
{
    match find(s, angle_open()) {
        None => lemma_draws_refl(s),
        Some(st) => {
            let rest = s.skip(st);
            let end = match find(rest, angle_close()) {
                Some(i) => Some(st + i + 2),
                None => match find(rest, gt_bar()) {
                    Some(i) => Some(st + i + 2),
                    None => None,
                },
            };
            match end {
                Some(e) => if 0 <= st && st + 2 <= e <= s.len() {
                    let ns = replace_span(s, st, e);
                    lemma_draws_remove_angle(ns);
                    lemma_draws_replace_span(s, st, e);
                    lemma_draws_trans(remove_angle_tokens(ns), ns, s);
                } else {
                    lemma_draws_refl(s);
                },
                None => lemma_draws_refl(s),
            }
        },
    }
}

proof fn lemma_draws_replace_bar(s: Seq<char>)
    ensures
        draws_from(replace_bar_underscore(s), s),
    decreases s.len(),
{
    if s.len() == 0 {
        lemma_draws_refl(s);
    } else if occurs_at(s, bar_underscore(), 0) {
        let rest = s.skip(3);
        lemma_draws_replace_bar(rest);
        let r = replace_bar_underscore(rest);
        lemma_strip_concat(seq![' '], r);
        lemma_strip_one_space();
        assert(Seq::<char>::empty() + strip_spaces(r) == strip_spaces(r));
        assert(rest == s.subrange(3, s.len() as int));
        lemma_draws_subrange(s, 3, s.len() as int);
        lemma_draws_trans(seq![' '] + r, rest, s);
    } else {
        let rest = s.drop_first();
        lemma_draws_replace_bar(rest);
        let r = replace_bar_underscore(rest);
        lemma_strip_concat(seq![s[0]], r);
        assert(s == seq![s[0]] + rest);
        lemma_strip_concat(seq![s[0]], rest);
        lemma_subseq_refl(strip_spaces(seq![s[0]]));
        lemma_subseq_concat(
            strip_spaces(seq![s[0]]),
            strip_spaces(seq![s[0]]),
            strip_spaces(r),
            strip_spaces(rest),
        );
    }
}

/// The words of `ws` run together.
pub open spec fn concat_all(ws: Seq<Seq<char>>) -> Seq<char>
    decreases ws.len(),
{
    if ws.len() == 0 {
        seq![]
    } else {
        ws[0] + concat_all(ws.drop_first())
    }
}

proof fn lemma_concat_all_last(ws: Seq<Seq<char>>)
    requires
        ws.len() > 0,
    ensures
        concat_all(ws) == concat_all(ws.drop_last()) + ws.last(),
    decreases ws.len(),
{
    if ws.len() == 1 {
        assert(ws.drop_first().len() == 0);
        assert(ws.drop_last().len() == 0);
        assert(concat_all(ws.drop_first()) == Seq::<char>::empty());
        assert(concat_all(ws.drop_last()) == Seq::<char>::empty());
        assert(concat_all(ws) == ws[0] + Seq::<char>::empty());
        assert(ws[0] + Seq::<char>::empty() == ws[0]);
        assert(Seq::<char>::empty() + ws[0] == ws[0]);
        assert(ws.last() == ws[0]);
    } else {
        let df = ws.drop_first();
        let dl = ws.drop_last();
        lemma_concat_all_last(df);
        assert(df.drop_last() == dl.drop_first());
        assert(dl[0] == ws[0]);
        assert(df.last() == ws.last());
        assert(concat_all(dl) == dl[0] + concat_all(dl.drop_first()));
        assert(concat_all(ws) == ws[0] + concat_all(df));
        assert(ws[0] + (concat_all(dl.drop_first()) + ws.last()) == (ws[0] + concat_all(
            dl.drop_first(),
        )) + ws.last());
    }
}

proof fn lemma_strip_join(ws: Seq<Seq<char>>)
    requires
        forall|j: int|
            0 <= j < ws.len() ==> forall|t: int| 0 <= t < (#[trigger] ws[j]).len() ==> ws[j][t] != ' ',
    ensures
        strip_spaces(join_space(ws)) == concat_all(ws),
    decreases ws.len(),
{
    if ws.len() == 0 {
    } else if ws.len() == 1 {
        lemma_strip_no_space(ws[0]);
        lemma_concat_all_last(ws);
        assert(Seq::<char>::empty() + ws[0] == ws[0]);
    } else {
        let init = ws.drop_last();
        assert forall|j: int| 0 <= j < init.len() implies forall|t: int|
            0 <= t < (#[trigger] init[j]).len() ==> init[j][t] != ' ' by {
            assert(init[j] == ws[j]);
        }
        lemma_strip_join(init);
        let w = ws.last();
        assert(w == ws[ws.len() - 1]);
        lemma_strip_no_space(w);
        lemma_strip_concat(join_space(init) + seq![' '], w);
        lemma_strip_concat(join_space(init), seq![' ']);
        lemma_strip_one_space();
        lemma_concat_all_last(ws);
        assert(strip_spaces(join_space(init)) + Seq::<char>::empty() == strip_spaces(join_space(init)));
    }
}

proof fn lemma_runs_draw(s: Seq<char>)
    ensures
        is_subseq(concat_all(runs(s, RunKind::NonSpace)), strip_spaces(s)),
    decreases s.len(),
{
    if s.len() == 0 {
        lemma_subseq_empty(strip_spaces(s));
    } else if !kept(RunKind::NonSpace, s[0]) {
        let rest = s.drop_first();
        lemma_runs_draw(rest);
        assert(runs(s, RunKind::NonSpace) == runs(rest, RunKind::NonSpace));
        assert(s == seq![s[0]] + rest);
        lemma_strip_concat(seq![s[0]], rest);
        lemma_subseq_empty(strip_spaces(seq![s[0]]));
        lemma_subseq_concat(
            Seq::<char>::empty(),
            strip_spaces(seq![s[0]]),
            concat_all(runs(rest, RunKind::NonSpace)),
            strip_spaces(rest),
        );
        assert(Seq::<char>::empty() + concat_all(runs(rest, RunKind::NonSpace)) == concat_all(
            runs(rest, RunKind::NonSpace),
        ));
    } else {
        let n = run_len(s, RunKind::NonSpace);
        crate::text::lemma_run_len_bound(s, RunKind::NonSpace);
        assert(n >= 1);
        let w = s.take(n as int);
        let rest = s.skip(n as int);
        lemma_runs_draw(rest);
        let rr = runs(rest, RunKind::NonSpace);
        assert(runs(s, RunKind::NonSpace) == seq![w] + rr);
        assert((seq![w] + rr).drop_first() == rr);
        assert(concat_all(seq![w] + rr) == w + concat_all(rr));
        assert forall|t: int| 0 <= t < w.len() implies w[t] != ' ' by {
            assert(kept(RunKind::NonSpace, s[t]));
            assert(is_ws(' '));
        }
        lemma_strip_no_space(w);
        assert(s == w + rest);
        lemma_strip_concat(w, rest);
        lemma_subseq_refl(w);
        lemma_subseq_concat(w, w, concat_all(rr), strip_spaces(rest));
    }
}

proof fn lemma_draws_collapse(s: Seq<char>)
    ensures
        draws_from(collapse_whitespace(s), s),
{
    let ws = runs(s, RunKind::NonSpace);
    lemma_runs_shape(s, RunKind::NonSpace);
    assert(is_ws(' '));
    assert forall|j: int| 0 <= j < ws.len() implies forall|t: int|
        0 <= t < (#[trigger] ws[j]).len() ==> ws[j][t] != ' ' by {
        assert forall|t: int| 0 <= t < ws[j].len() implies ws[j][t] != ' ' by {
            assert(kept(RunKind::NonSpace, ws[j][t]));
        }
    }
    lemma_strip_join(ws);
    lemma_runs_draw(s);
}

proof fn lemma_draws_strip_template(s: Seq<char>)
    ensures
        draws_from(strip_template_tokens_spec(s), s),
{
    let a = remove_piped_tokens(s);
    let b = remove_angle_tokens(a);
    let c = replace_bar_underscore(b);
    let d = collapse_whitespace(c);
    lemma_draws_remove_piped(s);
    lemma_draws_remove_angle(a);
    lemma_draws_replace_bar(b);
    lemma_draws_collapse(c);
    lemma_draws_trim(d);
    lemma_draws_trans(b, a, s);
    lemma_draws_trans(c, b, s);
    lemma_draws_trans(d, c, s);
    lemma_draws_trans(trim(d), d, s);
}

proof fn lemma_draws_cut(s: Seq<char>)
    ensures
        draws_from(cut_at_next_turn_spec(s), s),
{
    let c = cut_index(s);
    crate::answer::lemma_cut_index_bounds(s);
    let h = s.take(c);
    assert(h == s.subrange(0, c));
    lemma_draws_subrange(s, 0, c);
    lemma_draws_trim(h);
    lemma_draws_trans(trim_end(h), h, s);
}

proof fn lemma_draws_numbered(first: Seq<char>)
    requires
        is_numbered_line(first),
    ensures
        draws_from(numbered_line_answer(first), first),
{
    let d = leading_digits(first) as int;
    let a = first.skip(d + 1);
    assert(a == first.subrange(d + 1, first.len() as int));
    lemma_draws_subrange(first, d + 1, first.len() as int);
    let b = trim_start(a);
    lemma_trim_start_shape(a);
    assert(b == a.subrange(a.len() - b.len(), a.len() as int));
    lemma_draws_subrange(a, a.len() - b.len(), a.len() as int);
    lemma_draws_trans(b, a, first);
    let c = if b.len() > 0 && b[0] == '"' {
        b.drop_first()
    } else {
        b
    };
    if b.len() > 0 && b[0] == '"' {
        assert(c == b.subrange(1, b.len() as int));
        lemma_draws_subrange(b, 1, b.len() as int);
    } else {
        lemma_draws_refl(b);
    }
    lemma_draws_trans(c, b, first);
    let e = if c.len() > 0 && c.last() == '"' {
        c.drop_last()
    } else {
        c
    };
    if c.len() > 0 && c.last() == '"' {
        assert(e == c.subrange(0, c.len() - 1));
        lemma_draws_subrange(c, 0, c.len() - 1);
    } else {
        lemma_draws_refl(c);
    }
    lemma_draws_trans(e, c, first);
    lemma_draws_trim(e);
    lemma_draws_trans(trim(e), e, first);
}

proof fn lemma_draws_first_line(t: Seq<char>)
    ensures
        draws_from(first_line(t), t),
{
    crate::text::lemma_find(t, seq!['\n']);
    match find(t, seq!['\n']) {
        Some(i) => {
            if i > 0 && t[i - 1] == '\r' {
                assert(t.take(i - 1) == t.subrange(0, i - 1));
                lemma_draws_subrange(t, 0, i - 1);
            } else {
                assert(t.take(i) == t.subrange(0, i));
                lemma_draws_subrange(t, 0, i);
            }
        },
        None => lemma_draws_refl(t),
    }
}

proof fn lemma_draws_normalize(t: Seq<char>)
    ensures
        draws_from(normalize_numbered_line(t), t),
{
    if t.len() == 0 {
        lemma_draws_refl(t);
    } else {
        let fl = first_line(t);
        let first = trim(fl);
        if is_numbered_line(first) && numbered_line_answer(first).len() > 0 {
            lemma_draws_first_line(t);
            lemma_draws_trim(fl);
            lemma_draws_trans(first, fl, t);
            lemma_draws_numbered(first);
            lemma_draws_trans(numbered_line_answer(first), first, t);
        } else {
            lemma_draws_refl(t);
        }
    }
}

/// The cleaned answer adds no text: every character of it other than a
/// space comes from the model output, in the same order.
pub proof fn lemma_answer_draws_from_output(s: Seq<char>)
    ensures
        draws_from(truncate_answer_spec(s), s),
        draws_from(finish_answer_spec(s, true), s),
        draws_from(finish_answer_spec(s, false), s),
{
    let after = cut_at_next_turn_spec(s);
    lemma_draws_cut(s);
    let st = strip_template_tokens_spec(after);
    lemma_draws_strip_template(after);
    lemma_draws_trim(st);
    lemma_draws_trans(trim(st), st, after);
    lemma_draws_trim(after);
    let stripped = trim(st);
    let trimmed = if stripped.len() == 0 {
        trim(after)
    } else {
        stripped
    };
    lemma_draws_trans(trimmed, after, s);
    lemma_draws_normalize(trimmed);
    lemma_draws_trans(normalize_numbered_line(trimmed), trimmed, s);
    lemma_draws_trim(s);
}

} // verus!

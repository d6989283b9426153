//! Character-level string helpers with specifications over `Seq<char>`.
//!
//! Strings are handled as sequences of Unicode scalar values; every search
//! pattern used by the library is ASCII, so a match position in characters
//! is also a character boundary in the UTF-8 text.

use vstd::prelude::*;

verus! {

// ---------------------------------------------------------------------------
// Trusted access to std text functions that vstd does not specify.
// ---------------------------------------------------------------------------

/// Appends one character to a string.
/// Trusted: wraps `String::push`, which std documents as appending the
/// given character to the end of the string.
#[verifier::external_body]
pub(crate) fn string_push(s: &mut String, c: char)
    ensures
        final(s)@ == old(s)@.push(c),
{
    s.push(c);
}

/// Whether `char::is_alphanumeric` holds of `c` (Unicode `Alphabetic` or
/// `Numeric`); the Unicode tables behind it are not restated here.
pub uninterp spec fn is_alphanumeric_char(c: char) -> bool;

/// Trusted: wraps `char::is_alphanumeric`; its result is named
/// `is_alphanumeric_char` and depends on the character alone.
#[verifier::external_body]
pub(crate) fn char_is_alphanumeric(c: char) -> (b: bool)
    ensures
        b == is_alphanumeric_char(c),
{
    c.is_alphanumeric()
}

/// What `str::to_lowercase` returns for the characters `s` (Unicode
/// lowercase mapping, including its context-dependent final-sigma rule).
pub uninterp spec fn lowercase_of(s: Seq<char>) -> Seq<char>;

/// Trusted: wraps `str::to_lowercase`; its result is named `lowercase_of`
/// and depends on the input text alone.
#[verifier::external_body]
pub(crate) fn to_lowercase(s: &str) -> (r: String)
    ensures
        r@ == lowercase_of(s@),
{
    s.to_lowercase()
}

/// Number of bytes in the UTF-8 encoding of `s`.
pub open spec fn utf8_len(s: Seq<char>) -> nat {
    vstd::utf8::encode_utf8(s).len()
}

/// The UTF-8 length of a concatenation is the sum of the lengths.
pub proof fn lemma_utf8_len_concat(a: Seq<char>, b: Seq<char>)
    ensures
        utf8_len(a + b) == utf8_len(a) + utf8_len(b),
    decreases a.len(),
{
    if a.len() == 0 {
        assert(a + b == b);
    } else {
        lemma_utf8_len_concat(a.drop_first(), b);
        assert((a + b).drop_first() == a.drop_first() + b);
        assert((a + b)[0] == a[0]);
    }
}

/// A single character encodes to the bytes of its scalar value.
pub proof fn lemma_utf8_len_single(c: char)
    ensures
        utf8_len(seq![c]) == vstd::utf8::encode_scalar(c as u32).len(),
{
    let one = seq![c];
    assert(one[0] == c);
    assert(one.drop_first() =~= Seq::<char>::empty());
    assert(vstd::utf8::encode_utf8(Seq::<char>::empty()) =~= Seq::<u8>::empty());
    assert(vstd::utf8::encode_utf8(one) == vstd::utf8::encode_scalar(c as u32)
        + vstd::utf8::encode_utf8(one.drop_first()));
}

/// Every character takes at least one byte.
pub proof fn lemma_utf8_len_at_least_len(s: Seq<char>)
    ensures
        utf8_len(s) >= s.len(),
    decreases s.len(),
{
    if s.len() > 0 {
        lemma_utf8_len_at_least_len(s.drop_first());
        assert(vstd::utf8::encode_scalar(s[0] as u32).len() >= 1);
    }
}

/// A piece of a text takes no more bytes than the text.
pub proof fn lemma_utf8_len_piece(s: Seq<char>, a: int, b: int)
    requires
        0 <= a <= b <= s.len(),
    ensures
        utf8_len(s.subrange(a, b)) <= utf8_len(s),
        utf8_len(s) == utf8_len(s.take(a)) + utf8_len(s.subrange(a, b)) + utf8_len(s.skip(b)),
{
    assert(s =~= s.take(a) + s.subrange(a, b) + s.skip(b));
    lemma_utf8_len_concat(s.take(a), s.subrange(a, b));
    lemma_utf8_len_concat(s.take(a) + s.subrange(a, b), s.skip(b));
}

/// Bytes in the UTF-8 encoding of `c`.
fn char_utf8_width(c: char) -> (n: usize)
    ensures
        n == vstd::utf8::encode_scalar(c as u32).len(),
{
    proof {
        vstd::utf8::char_is_scalar(c);
    }
    let u = c as u32;
    if u < 0x80 {
        1
    } else if u < 0x800 {
        2
    } else if u < 0x10000 {
        3
    } else {
        4
    }
}

/// The UTF-8 length of `s` when it is at most `budget` bytes, else `None`.
pub fn utf8_len_within(s: &Vec<char>, budget: usize) -> (r: Option<usize>)
    ensures
        r matches Some(n) ==> n == utf8_len(s@) && n <= budget,
        r is None ==> utf8_len(s@) > budget,
{
    let mut total: usize = 0;
    let mut i: usize = 0;
    while i < s.len()
        invariant
            i <= s.len(),
            total == utf8_len(s@.take(i as int)),
            total <= budget,
        decreases s.len() - i,
    {
        let c = s[i];
        let w = char_utf8_width(c);
        proof {
            assert(s@.take(i + 1) == s@.take(i as int) + seq![c]);
            lemma_utf8_len_concat(s@.take(i as int), seq![c]);
            lemma_utf8_len_single(c);
            assert(s@ == s@.take(i + 1) + s@.skip(i + 1));
            lemma_utf8_len_concat(s@.take(i + 1), s@.skip(i + 1));
        }
        if w > budget - total {
            return None;
        }
        total = total + w;
        i = i + 1;
    }
    assert(s@.take(s.len() as int) == s@);
    Some(total)
}

/// Whether two strings are equal.
pub fn str_eq(a: &str, b: &str) -> (r: bool)
    ensures
        r == (a@ == b@),
{
    let x = <String as vstd::string::StringExecFns>::from_str(a);
    let y = <String as vstd::string::StringExecFns>::from_str(b);
    x.eq(&y)
}

// ---------------------------------------------------------------------------
// Conversions between strings and character vectors.
// ---------------------------------------------------------------------------

/// The characters of `s`, in order.
pub fn chars_of(s: &str) -> (v: Vec<char>)
    ensures
        v@ == s@,
{
    let mut v: Vec<char> = Vec::new();
    for c in it: s.chars()
        invariant
            it.seq() == s@,
            v@ == it.seq().take(it.index() as int),
    {
        v.push(c);
    }
    v
}

/// The string made of the characters of `v`, in order.
pub fn string_from_chars(v: &Vec<char>) -> (s: String)
    ensures
        s@ == v@,
{
    let mut s = String::new();
    let mut i: usize = 0;
    while i < v.len()
        invariant
            i <= v.len(),
            s@ == v@.take(i as int),
        decreases v.len() - i,
    {
        string_push(&mut s, v[i]);
        i = i + 1;
        assert(s@ == v@.take(i as int));
    }
    assert(v@.take(v@.len() as int) == v@);
    s
}

/// The characters `s[from..to]` as a new vector.
pub fn copy_range(s: &Vec<char>, from: usize, to: usize) -> (r: Vec<char>)
    requires
        from <= to <= s.len(),
    ensures
        r@ == s@.subrange(from as int, to as int),
{
    let mut r: Vec<char> = Vec::new();
    let mut i = from;
    while i < to
        invariant
            from <= i <= to <= s.len(),
            r@ == s@.subrange(from as int, i as int),
        decreases to - i,
    {
        r.push(s[i]);
        i = i + 1;
        assert(r@ == s@.subrange(from as int, i as int));
    }
    r
}

/// Appends the characters of `src` to `dst`.
pub fn extend_chars(dst: &mut Vec<char>, src: &Vec<char>)
    ensures
        final(dst)@ == old(dst)@ + src@,
{
    let mut i: usize = 0;
    while i < src.len()
        invariant
            i <= src.len(),
            dst@ == old(dst)@ + src@.take(i as int),
        decreases src.len() - i,
    {
        dst.push(src[i]);
        i = i + 1;
        assert(dst@ == old(dst)@ + src@.take(i as int));
    }
    assert(src@.take(src@.len() as int) == src@);
}

// ---------------------------------------------------------------------------
// Whitespace and trimming.
// ---------------------------------------------------------------------------

/// The Unicode `White_Space` characters, which `char::is_whitespace`,
/// `str::trim` and `str::split_whitespace` treat as whitespace.
pub open spec fn is_ws(c: char) -> bool {
    let u = c as u32;
    ||| 0x09 <= u <= 0x0D
    ||| u == 0x20
    ||| u == 0x85
    ||| u == 0xA0
    ||| u == 0x1680
    ||| 0x2000 <= u <= 0x200A
    ||| u == 0x2028
    ||| u == 0x2029
    ||| u == 0x202F
    ||| u == 0x205F
    ||| u == 0x3000
}

/// Whether `c` is Unicode whitespace.
pub fn is_whitespace(c: char) -> (b: bool)
    ensures
        b == is_ws(c),
{
    let u = c as u32;
    (0x09 <= u && u <= 0x0D) || u == 0x20 || u == 0x85 || u == 0xA0 || u == 0x1680 || (0x2000
        <= u && u <= 0x200A) || u == 0x2028 || u == 0x2029 || u == 0x202F || u == 0x205F || u
        == 0x3000
}

/// `s` without its leading whitespace.
pub open spec fn trim_start(s: Seq<char>) -> Seq<char>
    decreases s.len(),
{
    if s.len() > 0 && is_ws(s[0]) {
        trim_start(s.drop_first())
    } else {
        s
    }
}

/// `s` without its trailing whitespace.
pub open spec fn trim_end(s: Seq<char>) -> Seq<char>
    decreases s.len(),
{
    if s.len() > 0 && is_ws(s.last()) {
        trim_end(s.drop_last())
    } else {
        s
    }
}

/// `s` without leading and trailing whitespace, as `str::trim` gives it.
pub open spec fn trim(s: Seq<char>) -> Seq<char> {
    trim_end(trim_start(s))
}

/// A sequence that neither starts nor ends with whitespace.
pub open spec fn is_trimmed(s: Seq<char>) -> bool {
    s.len() > 0 ==> !is_ws(s[0]) && !is_ws(s.last())
}

/// `trim_start` removes a prefix made of whitespace.
pub proof fn lemma_trim_start_shape(s: Seq<char>)
    ensures
        trim_start(s).len() <= s.len(),
        trim_start(s) == s.skip(s.len() - trim_start(s).len()),
        trim_start(s).len() > 0 ==> !is_ws(trim_start(s)[0]),
        forall|i: int| 0 <= i < s.len() - trim_start(s).len() ==> is_ws(#[trigger] s[i]),
    decreases s.len(),
{
    if s.len() > 0 && is_ws(s[0]) {
        lemma_trim_start_shape(s.drop_first());
        let t = trim_start(s.drop_first());
        assert(s.drop_first().skip(s.drop_first().len() - t.len()) == s.skip(s.len() - t.len()));
        assert forall|i: int| 0 <= i < s.len() - t.len() implies is_ws(#[trigger] s[i]) by {
            if i > 0 {
                assert(s[i] == s.drop_first()[i - 1]);
            }
        }
    } else {
        assert(s.skip(0) == s);
    }
}

/// `trim_end` removes a suffix made of whitespace.
pub proof fn lemma_trim_end_shape(s: Seq<char>)
    ensures
        trim_end(s).len() <= s.len(),
        trim_end(s) == s.take(trim_end(s).len() as int),
        trim_end(s).len() > 0 ==> !is_ws(trim_end(s).last()),
        forall|i: int| trim_end(s).len() <= i < s.len() ==> is_ws(#[trigger] s[i]),
    decreases s.len(),
{
    if s.len() > 0 && is_ws(s.last()) {
        lemma_trim_end_shape(s.drop_last());
        let t = trim_end(s.drop_last());
        assert(s.drop_last().take(t.len() as int) == s.take(t.len() as int));
        assert forall|i: int| t.len() <= i < s.len() implies is_ws(#[trigger] s[i]) by {
            if i < s.len() - 1 {
                assert(s[i] == s.drop_last()[i]);
            }
        }
    } else {
        assert(s.take(s.len() as int) == s);
    }
}

/// The result of `trim` neither starts nor ends with whitespace.
pub proof fn lemma_trim_is_trimmed(s: Seq<char>)
    ensures
        is_trimmed(trim(s)),
{
    lemma_trim_start_shape(s);
    let a = trim_start(s);
    lemma_trim_end_shape(a);
    let b = trim_end(a);
    if b.len() > 0 {
        assert(b[0] == a[0]);
    }
}

/// Index of the first character of `s` that is not whitespace (or `s.len()`).
pub(crate) fn trim_start_index(s: &Vec<char>) -> (k: usize)
    ensures
        k <= s.len(),
        trim_start(s@) == s@.skip(k as int),
{
    let mut i: usize = 0;
    assert(s@.skip(0) == s@);
    while i < s.len() && is_whitespace(s[i])
        invariant
            i <= s.len(),
            trim_start(s@) == trim_start(s@.skip(i as int)),
        decreases s.len() - i,
    {
        assert(s@.skip(i as int).drop_first() == s@.skip(i + 1));
        i = i + 1;
    }
    i
}

/// `s` with leading and trailing whitespace removed.
pub fn trim_chars(s: &Vec<char>) -> (r: Vec<char>)
    ensures
        r@ == trim(s@),
{
    let a = trim_start_index(s);
    let mut j = s.len();
    assert(s@.subrange(a as int, j as int) == s@.skip(a as int));
    while j > a && is_whitespace(s[j - 1])
        invariant
            a <= j <= s.len(),
            trim_end(s@.skip(a as int)) == trim_end(s@.subrange(a as int, j as int)),
        decreases j,
    {
        assert(s@.subrange(a as int, j as int).drop_last() == s@.subrange(a as int, j - 1));
        j = j - 1;
    }
    copy_range(s, a, j)
}

/// `s` with trailing whitespace removed.
pub fn trim_end_chars(s: &Vec<char>) -> (r: Vec<char>)
    ensures
        r@ == trim_end(s@),
{
    let mut j = s.len();
    assert(s@.take(j as int) == s@);
    while j > 0 && is_whitespace(s[j - 1])
        invariant
            j <= s.len(),
            trim_end(s@) == trim_end(s@.take(j as int)),
        decreases j,
    {
        assert(s@.take(j as int).drop_last() == s@.take(j - 1));
        j = j - 1;
    }
    copy_range(s, 0, j)
}

// ---------------------------------------------------------------------------
// Substring search.
// ---------------------------------------------------------------------------

/// `p` occurs in `s` starting at position `i`.
pub open spec fn occurs_at(s: Seq<char>, p: Seq<char>, i: int) -> bool {
    0 <= i && i + p.len() <= s.len() && s.subrange(i, i + p.len()) == p
}

/// The first position at or after `i` where `p` occurs in `s`.
pub open spec fn find_from(s: Seq<char>, p: Seq<char>, i: int) -> Option<int>
    decreases s.len() + 1 - i,
{
    if i < 0 || i + p.len() > s.len() {
        None
    } else if occurs_at(s, p, i) {
        Some(i)
    } else {
        find_from(s, p, i + 1)
    }
}

/// The first position where `p` occurs in `s`, as `str::find` gives it.
pub open spec fn find(s: Seq<char>, p: Seq<char>) -> Option<int> {
    find_from(s, p, 0)
}

/// `s` contains `p`.
pub open spec fn contains_seq(s: Seq<char>, p: Seq<char>) -> bool {
    exists|i: int| occurs_at(s, p, i)
}

proof fn lemma_find_from(s: Seq<char>, p: Seq<char>, i: int)
    requires
        0 <= i,
    ensures
        find_from(s, p, i) matches Some(k) ==> i <= k && occurs_at(s, p, k) && forall|j: int|
            i <= j < k ==> !occurs_at(s, p, j),
        find_from(s, p, i) is None ==> forall|j: int| i <= j ==> !occurs_at(s, p, j),
    decreases s.len() + 1 - i,
{
    if i + p.len() > s.len() {
    } else if occurs_at(s, p, i) {
    } else {
        lemma_find_from(s, p, i + 1);
    }
}

/// `find` gives the first occurrence, and `None` exactly when there is none.
pub proof fn lemma_find(s: Seq<char>, p: Seq<char>)
    ensures
        find(s, p) matches Some(k) ==> occurs_at(s, p, k) && forall|j: int|
            0 <= j < k ==> !occurs_at(s, p, j),
        find(s, p) is None ==> !contains_seq(s, p),
        find(s, p) is Some <==> contains_seq(s, p),
{
    lemma_find_from(s, p, 0);
    if let Some(k) = find(s, p) {
        assert(occurs_at(s, p, k));
    }
}

/// Whether `p` occurs in `s` at position `i`.
pub fn occurs_at_exec(s: &Vec<char>, p: &Vec<char>, i: usize) -> (b: bool)
    ensures
        b == occurs_at(s@, p@, i as int),
{
    if i > s.len() || p.len() > s.len() - i {
        return false;
    }
    let mut k: usize = 0;
    while k < p.len()
        invariant
            i + p.len() <= s.len(),
            k <= p.len(),
            forall|t: int| 0 <= t < k ==> s@[i + t] == p@[t],
        decreases p.len() - k,
    {
        if s[i + k] != p[k] {
            assert(s@.subrange(i as int, i + p.len())[k as int] != p@[k as int]);
            return false;
        }
        k = k + 1;
    }
    assert(s@.subrange(i as int, i + p.len()) == p@);
    true
}

/// The first position where `p` occurs in `s`.
pub fn find_exec(s: &Vec<char>, p: &Vec<char>) -> (r: Option<usize>)
    ensures
        r matches Some(k) ==> find(s@, p@) == Some(k as int),
        r is None ==> find(s@, p@) is None,
{
    if p.len() == 0 {
        assert(s@.subrange(0, 0) == p@);
        assert(occurs_at(s@, p@, 0));
        return Some(0);
    }
    let mut i: usize = 0;
    while i <= s.len() && p.len() <= s.len() - i
        invariant
            p.len() > 0,
            i <= s.len(),
            find(s@, p@) == find_from(s@, p@, i as int),
        decreases s.len() + 1 - i,
    {
        if occurs_at_exec(s, p, i) {
            return Some(i);
        }
        i = i + 1;
    }
    None
}

// ---------------------------------------------------------------------------
// Maximal runs (words) and joining.
// ---------------------------------------------------------------------------

/// Which characters make up the runs that a split keeps.
pub enum RunKind {
    /// Runs of non-whitespace characters, as `str::split_whitespace`.
    NonSpace,
    /// Runs of alphanumeric characters, separated by all others.
    Alnum,
}

/// Whether `c` belongs to a run of the given kind.
pub open spec fn kept(kind: RunKind, c: char) -> bool {
    match kind {
        RunKind::NonSpace => !is_ws(c),
        RunKind::Alnum => is_alphanumeric_char(c),
    }
}

fn keeps(kind: &RunKind, c: char) -> (b: bool)
    ensures
        b == kept(*kind, c),
{
    match kind {
        RunKind::NonSpace => !is_whitespace(c),
        RunKind::Alnum => char_is_alphanumeric(c),
    }
}

/// Length of the run of kept characters at the start of `s`.
pub open spec fn run_len(s: Seq<char>, kind: RunKind) -> nat
    decreases s.len(),
{
    if s.len() == 0 || !kept(kind, s[0]) {
        0
    } else {
        1 + run_len(s.drop_first(), kind)
    }
}

/// The run at the start of `s` lies within `s` and is made of kept
/// characters.
pub proof fn lemma_run_len_bound(s: Seq<char>, kind: RunKind)
    ensures
        run_len(s, kind) <= s.len(),
        forall|i: int| 0 <= i < run_len(s, kind) ==> kept(kind, #[trigger] s[i]),
    decreases s.len(),
{
    if s.len() > 0 && kept(kind, s[0]) {
        lemma_run_len_bound(s.drop_first(), kind);
        assert forall|i: int| 0 <= i < run_len(s, kind) implies kept(kind, #[trigger] s[i]) by {
            if i > 0 {
                assert(s[i] == s.drop_first()[i - 1]);
            }
        }
    }
}

/// The maximal non-empty runs of kept characters in `s`, in order.
pub open spec fn runs(s: Seq<char>, kind: RunKind) -> Seq<Seq<char>>
    decreases s.len(),
{
    if s.len() == 0 {
        seq![]
    } else if !kept(kind, s[0]) {
        runs(s.drop_first(), kind)
    } else {
        let n = run_len(s, kind);
        if 1 <= n <= s.len() {
            seq![s.take(n as int)] + runs(s.skip(n as int), kind)
        } else {
            seq![]
        }
    }
}

/// The maximal runs of kept characters in `s`, in order.
pub fn split_runs(s: &Vec<char>, kind: RunKind) -> (words: Vec<Vec<char>>)
    ensures
        words@.map_values(|w: Vec<char>| w@) == runs(s@, kind),
{
    let mut words: Vec<Vec<char>> = Vec::new();
    let mut i: usize = 0;
    assert(s@.skip(0) == s@);
    while i < s.len()
        invariant
            i <= s.len(),
            words@.map_values(|w: Vec<char>| w@) + runs(s@.skip(i as int), kind) == runs(s@, kind),
        decreases s.len() - i,
    {
        let ghost rest = s@.skip(i as int);
        if !keeps(&kind, s[i]) {
            assert(rest.drop_first() == s@.skip(i + 1));
            i = i + 1;
        } else {
            let mut j = i;
            assert(s@.skip(j as int) == rest);
            while j < s.len() && keeps(&kind, s[j])
                invariant
                    i <= j <= s.len(),
                    rest == s@.skip(i as int),
                    run_len(rest, kind) == (j - i) + run_len(s@.skip(j as int), kind),
                decreases s.len() - j,
            {
                assert(s@.skip(j as int).drop_first() == s@.skip(j + 1));
                j = j + 1;
            }
            let w = copy_range(s, i, j);
            proof {
                lemma_run_len_bound(rest, kind);
                assert(rest.take((j - i) as int) == s@.subrange(i as int, j as int));
                assert(rest.skip((j - i) as int) == s@.skip(j as int));
            }
            let ghost before = words@.map_values(|w: Vec<char>| w@);
            words.push(w);
            assert(words@.map_values(|w: Vec<char>| w@) == before.push(w@));
            assert(seq![w@] + runs(s@.skip(j as int), kind) == runs(rest, kind));
            assert(before.push(w@) + runs(s@.skip(j as int), kind) == before + (seq![w@] + runs(
                s@.skip(j as int),
                kind,
            )));
            i = j;
        }
    }
    assert(runs(s@.skip(i as int), kind) == Seq::<Seq<char>>::empty());
    assert(words@.map_values(|w: Vec<char>| w@) + Seq::<Seq<char>>::empty() == words@.map_values(
        |w: Vec<char>| w@,
    ));
    words
}

/// The words of `ws` joined with single spaces, as `[..].join(" ")`.
pub open spec fn join_space(ws: Seq<Seq<char>>) -> Seq<char>
    decreases ws.len(),
{
    if ws.len() == 0 {
        seq![]
    } else if ws.len() == 1 {
        ws[0]
    } else {
        join_space(ws.drop_last()) + seq![' '] + ws.last()
    }
}

/// The words joined with single spaces.
pub fn join_with_space(words: &Vec<Vec<char>>) -> (r: Vec<char>)
    ensures
        r@ == join_space(words@.map_values(|w: Vec<char>| w@)),
{
    let ghost ws = words@.map_values(|w: Vec<char>| w@);
    let mut r: Vec<char> = Vec::new();
    let mut i: usize = 0;
    while i < words.len()
        invariant
            i <= words.len(),
            ws == words@.map_values(|w: Vec<char>| w@),
            r@ == join_space(ws.take(i as int)),
        decreases words.len() - i,
    {
        if i > 0 {
            r.push(' ');
        }
        extend_chars(&mut r, &words[i]);
        assert(ws.take(i + 1).drop_last() == ws.take(i as int));
        assert(ws.take(i + 1).last() == words[i as int]@);
        i = i + 1;
    }
    assert(ws.take(words.len() as int) == ws);
    r
}

/// Every run is non-empty and made of kept characters only.
pub proof fn lemma_runs_shape(s: Seq<char>, kind: RunKind)
    ensures
        forall|j: int|
            0 <= j < runs(s, kind).len() ==> #[trigger] runs(s, kind)[j].len() > 0 && forall|t: int|
                0 <= t < runs(s, kind)[j].len() ==> kept(kind, #[trigger] runs(s, kind)[j][t]),
    decreases s.len(),
{
    if s.len() == 0 {
    } else if !kept(kind, s[0]) {
        lemma_runs_shape(s.drop_first(), kind);
        assert(runs(s, kind) == runs(s.drop_first(), kind));
    } else {
        let n = run_len(s, kind);
        lemma_run_len_bound(s, kind);
        assert(n >= 1);
        lemma_runs_shape(s.skip(n as int), kind);
        let r = runs(s, kind);
        let rest = runs(s.skip(n as int), kind);
        assert(r == seq![s.take(n as int)] + rest);
        assert forall|j: int| 0 <= j < r.len() implies #[trigger] r[j].len() > 0 && forall|t: int|
            0 <= t < r[j].len() ==> kept(kind, #[trigger] r[j][t]) by {
            if j == 0 {
                assert(r[0] == s.take(n as int));
                assert forall|t: int| 0 <= t < r[j].len() implies kept(kind, #[trigger] r[j][t]) by {
                    assert(r[j][t] == s[t]);
                }
            } else {
                assert(r[j] == rest[j - 1]);
            }
        }
    }
}

/// Whitespace in `s` only appears as single spaces between other
/// characters.
pub open spec fn is_collapsed(s: Seq<char>) -> bool {
    forall|i: int|
        0 <= i < s.len() && is_ws(#[trigger] s[i]) ==> s[i] == ' ' && 0 < i < s.len() - 1 && !is_ws(
            s[i - 1],
        ) && !is_ws(s[i + 1])
}

/// Joining non-empty whitespace-free words with single spaces gives a
/// collapsed text.
pub proof fn lemma_join_space_collapsed(ws: Seq<Seq<char>>)
    requires
        forall|j: int|
            0 <= j < ws.len() ==> #[trigger] ws[j].len() > 0 && forall|t: int|
                0 <= t < ws[j].len() ==> !is_ws(#[trigger] ws[j][t]),
    ensures
        is_collapsed(join_space(ws)),
        ws.len() > 0 ==> join_space(ws).len() > 0 && !is_ws(join_space(ws)[0]) && !is_ws(
            join_space(ws).last(),
        ),
    decreases ws.len(),
{
    if ws.len() == 0 {
    } else if ws.len() == 1 {
        assert(join_space(ws) == ws[0]);
        assert(!is_ws(ws[0][0]));
        assert(!is_ws(ws[0][ws[0].len() - 1]));
    } else {
        let init = ws.drop_last();
        assert forall|j: int| 0 <= j < init.len() implies #[trigger] init[j].len() > 0 && forall|t: int|
            0 <= t < init[j].len() ==> !is_ws(#[trigger] init[j][t]) by {
            assert(init[j] == ws[j]);
        }
        lemma_join_space_collapsed(init);
        let a = join_space(init);
        let w = ws.last();
        assert(w == ws[ws.len() - 1]);
        assert(w.len() > 0);
        let r = a + seq![' '] + w;
        assert(join_space(ws) == r);
        assert(!is_ws(w[0]));
        assert(!is_ws(w[w.len() - 1]));
        assert forall|i: int| 0 <= i < r.len() && is_ws(#[trigger] r[i]) implies r[i] == ' ' && 0 < i
            < r.len() - 1 && !is_ws(r[i - 1]) && !is_ws(r[i + 1]) by {
            if i < a.len() {
                assert(r[i] == a[i]);
                if i + 1 < a.len() {
                    assert(r[i + 1] == a[i + 1]);
                }
                if i > 0 {
                    assert(r[i - 1] == a[i - 1]);
                }
            } else if i == a.len() {
                assert(r[i - 1] == a.last());
                assert(r[i + 1] == w[0]);
            } else {
                assert(r[i] == w[i - a.len() - 1]);
                assert(false);
            }
        }
        assert(r[0] == a[0]);
        assert(r.last() == w.last());
    }
}

/// A text that neither starts nor ends with whitespace is its own trim.
pub proof fn lemma_trim_of_trimmed(s: Seq<char>)
    requires
        is_trimmed(s),
    ensures
        trim(s) == s,
{
}

} // verus!

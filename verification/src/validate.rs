//! Input hardening for agent-invoked commands: rejects control characters,
//! embedded query or encoding characters, `..` traversal, and paths that
//! escape a root directory.

use vstd::prelude::*;
use vstd::string::StringExecFns;
use crate::path::{has_parent_dir, has_parent_dir_exec, path_starts_with, starts_with};
use crate::text::{chars_of, string_from_chars, string_push};

verus! {

/// Classes of characters that inputs may not contain.
pub enum CharClass {
    /// Control characters (`char::is_control`): U+0000..=U+001F and
    /// U+007F..=U+009F.
    Control,
    /// `?`, `#` and `%`, which signal an embedded query or encoding.
    QueryOrEncoding,
    /// `%`, which signals a pre-encoded string.
    Percent,
}

/// Whether `c` belongs to the class.
pub open spec fn in_class(class: CharClass, c: char) -> bool {
    match class {
        CharClass::Control => (c as u32) <= 0x1F || (0x7F <= (c as u32) && (c as u32) <= 0x9F),
        CharClass::QueryOrEncoding => c == '?' || c == '#' || c == '%',
        CharClass::Percent => c == '%',
    }
}

fn in_class_exec(class: &CharClass, c: char) -> (b: bool)
    ensures
        b == in_class(*class, c),
{
    match class {
        CharClass::Control => {
            let u = c as u32;
            u <= 0x1F || (0x7F <= u && u <= 0x9F)
        },
        CharClass::QueryOrEncoding => c == '?' || c == '#' || c == '%',
        CharClass::Percent => c == '%',
    }
}

/// The first position at or after `i` of a character of the class.
pub open spec fn first_in_class_from(s: Seq<char>, class: CharClass, i: int) -> Option<int>
    decreases s.len() - i,
{
    if i < 0 || i >= s.len() {
        None
    } else if in_class(class, s[i]) {
        Some(i)
    } else {
        first_in_class_from(s, class, i + 1)
    }
}

/// The first position of a character of the class in `s`.
pub open spec fn first_in_class(s: Seq<char>, class: CharClass) -> Option<int> {
    first_in_class_from(s, class, 0)
}

proof fn lemma_first_in_class_from(s: Seq<char>, class: CharClass, i: int)
    requires
        0 <= i,
    ensures
        first_in_class_from(s, class, i) matches Some(k) ==> i <= k < s.len() && in_class(
            class,
            s[k],
        ) && forall|j: int| i <= j < k ==> !in_class(class, #[trigger] s[j]),
        first_in_class_from(s, class, i) is None ==> forall|k: int|
            i <= k < s.len() ==> !in_class(class, #[trigger] s[k]),
    decreases s.len() - i,
{
    if i < s.len() && !in_class(class, s[i]) {
        lemma_first_in_class_from(s, class, i + 1);
    }
}

/// `first_in_class` names a character of the class, and is `None` exactly
/// when `s` has no such character.
pub proof fn lemma_first_in_class(s: Seq<char>, class: CharClass)
    ensures
        first_in_class(s, class) matches Some(k) ==> 0 <= k < s.len() && in_class(class, s[k])
            && forall|j: int| 0 <= j < k ==> !in_class(class, #[trigger] s[j]),
        first_in_class(s, class) is None <==> forall|k: int|
            0 <= k < s.len() ==> !in_class(class, #[trigger] s[k]),
{
    lemma_first_in_class_from(s, class, 0);
}

fn first_in_class_exec(s: &Vec<char>, class: CharClass) -> (r: Option<usize>)
    ensures
        r matches Some(k) ==> first_in_class(s@, class) == Some(k as int) && k < s.len(),
        r is None ==> first_in_class(s@, class) is None,
{
    let mut i: usize = 0;
    while i < s.len()
        invariant
            i <= s.len(),
            first_in_class(s@, class) == first_in_class_from(s@, class, i as int),
        decreases s.len() - i,
    {
        if in_class_exec(&class, s[i]) {
            return Some(i);
        }
        i = i + 1;
    }
    None
}

/// Why an input was refused.
#[derive(Debug)]
pub enum InputError {
    /// A control character.
    ControlChar(char),
    /// `?`, `#` or `%` in a resource id.
    ForbiddenIdChar(char),
    /// `%` in a path.
    PercentInPath,
    /// A `..` component in a path.
    ParentTraversal,
    /// The path could not be resolved; `reason` says why.
    PathNotFound { path: String, reason: String },
    /// The root could not be resolved; `reason` says why.
    RootNotFound { root: String, reason: String },
    /// The resolved path lies outside the resolved root.
    EscapesRoot { path: String, root: String },
}

/// The upper-case hexadecimal digit for `d` (below 16).
pub open spec fn hex_digit(d: nat) -> char {
    seq!['0', '1', '2', '3', '4', '5', '6', '7', '8', '9', 'A', 'B', 'C', 'D', 'E', 'F'][d as int]
}

/// The upper-case hexadecimal digits of `n`, without leading zeros.
pub open spec fn hex_upper(n: nat) -> Seq<char>
    decreases n,
{
    if n < 16 {
        seq![hex_digit(n)]
    } else {
        hex_upper(n / 16) + seq![hex_digit(n % 16)]
    }
}

/// `n` in upper-case hexadecimal, zero-padded to at least four digits
/// (the `{:04X}` format).
pub open spec fn hex4(n: nat) -> Seq<char> {
    let h = hex_upper(n);
    if h.len() < 4 {
        Seq::new((4 - h.len()) as nat, |i: int| '0') + h
    } else {
        h
    }
}

fn hex_upper_exec(n: u32) -> (r: Vec<char>)
    ensures
        r@ == hex_upper(n as nat),
    decreases n,
{
    let digits = vec!['0', '1', '2', '3', '4', '5', '6', '7', '8', '9', 'A', 'B', 'C', 'D', 'E', 'F'];
    assert(digits@ == seq!['0', '1', '2', '3', '4', '5', '6', '7', '8', '9', 'A', 'B', 'C', 'D', 'E', 'F']);
    if n < 16 {
        vec![digits[n as usize]]
    } else {
        let mut r = hex_upper_exec(n / 16);
        r.push(digits[(n % 16) as usize]);
        r
    }
}

fn hex4_exec(n: u32) -> (r: Vec<char>)
    ensures
        r@ == hex4(n as nat),
{
    let h = hex_upper_exec(n);
    if h.len() < 4 {
        let mut r: Vec<char> = Vec::new();
        let pad = 4 - h.len();
        let mut i: usize = 0;
        while i < pad
            invariant
                i <= pad,
                r@ == Seq::new(i as nat, |k: int| '0'),
            decreases pad - i,
        {
            r.push('0');
            i = i + 1;
            assert(r@ == Seq::new(i as nat, |k: int| '0'));
        }
        crate::text::extend_chars(&mut r, &h);
        r
    } else {
        h
    }
}

impl InputError {
    /// The message shown for the error.
    pub open spec fn message_text(&self) -> Seq<char> {
        match self {
            InputError::ControlChar(c) => "invalid input: control character (U+"@ + hex4(
                *c as u32 as nat,
            ) + ") not allowed"@,
            InputError::ForbiddenIdChar(c) => "invalid resource id: '"@ + seq![*c]
                + "' not allowed (possible embedded query or encoding)"@,
            InputError::PercentInPath => "invalid path: '%' not allowed (possible pre-encoded string)"@,
            InputError::ParentTraversal => "invalid path: '..' traversal not allowed"@,
            InputError::PathNotFound { path, reason } => "path not found or invalid: "@ + path@
                + " ("@ + reason@ + ")"@,
            InputError::RootNotFound { root, reason } => "root path not found: "@ + root@ + " ("@
                + reason@ + ")"@,
            InputError::EscapesRoot { path, root } => "path "@ + path@ + " escapes root "@ + root@,
        }
    }

    /// The message shown for the error.
    pub fn message(&self) -> (r: String)
        ensures
            r@ == self.message_text(),
    {
        match self {
            InputError::ControlChar(c) => {
                let mut s = String::from_str("invalid input: control character (U+");
                let h = hex4_exec(*c as u32);
                let hs = string_from_chars(&h);
                s.append(hs.as_str());
                s.append(") not allowed");
                s
            },
            InputError::ForbiddenIdChar(c) => {
                let mut s = String::from_str("invalid resource id: '");
                string_push(&mut s, *c);
                s.append("' not allowed (possible embedded query or encoding)");
                s
            },
            InputError::PercentInPath => String::from_str(
                "invalid path: '%' not allowed (possible pre-encoded string)",
            ),
            InputError::ParentTraversal => String::from_str(
                "invalid path: '..' traversal not allowed",
            ),
            InputError::PathNotFound { path, reason } => {
                let mut s = String::from_str("path not found or invalid: ");
                s.append(path.as_str());
                s.append(" (");
                s.append(reason.as_str());
                s.append(")");
                s
            },
            InputError::RootNotFound { root, reason } => {
                let mut s = String::from_str("root path not found: ");
                s.append(root.as_str());
                s.append(" (");
                s.append(reason.as_str());
                s.append(")");
                s
            },
            InputError::EscapesRoot { path, root } => {
                let mut s = String::from_str("path ");
                s.append(path.as_str());
                s.append(" escapes root ");
                s.append(root.as_str());
                s
            },
        }
    }
}

/// Rejects control characters (U+0000..=U+001F, including the ASCII
/// controls, and U+007F..=U+009F, including DEL); the error names the first.
pub fn reject_control_chars(s: &str) -> (r: Result<(), InputError>)
    ensures
        first_in_class(s@, CharClass::Control) is None ==> r is Ok,
        first_in_class(s@, CharClass::Control) matches Some(i) ==> (r matches Err(
            InputError::ControlChar(c),
        ) && c == s@[i]),
        r is Ok <==> forall|i: int|
            0 <= i < s@.len() ==> !((#[trigger] s@[i] as u32) <= 0x1F || (0x7F <= (s@[i] as u32)
                && (s@[i] as u32) <= 0x9F)),
        forall|i: int|
            0 <= i < s@.len() && ((#[trigger] s@[i] as u32) <= 0x1F || (0x7F <= (s@[i] as u32) && (
            s@[i] as u32) <= 0x9F)) && (forall|j: int|
                0 <= j < i ==> !((#[trigger] s@[j] as u32) <= 0x1F || (0x7F <= (s@[j] as u32) && (
                s@[j] as u32) <= 0x9F))) ==> (r matches Err(InputError::ControlChar(c)) && c
                == s@[i]),
{
    proof {
        lemma_first_in_class(s@, CharClass::Control);
    }
    let cs = chars_of(s);
    match first_in_class_exec(&cs, CharClass::Control) {
        Some(i) => Err(InputError::ControlChar(cs[i])),
        None => Ok(()),
    }
}

/// Validates a resource id (a job id, ...): rejects control characters,
/// then `?`, `#` and `%`; the error names the first offending character.
pub fn validate_resource_id(s: &str) -> (r: Result<(), InputError>)
    ensures
        (exists|i: int|
            0 <= i < s@.len() && ((#[trigger] s@[i] as u32) <= 0x1F || (0x7F <= (s@[i] as u32) && (
            s@[i] as u32) <= 0x9F))) ==> (r matches Err(InputError::ControlChar(_))),
        first_in_class(s@, CharClass::Control) matches Some(i) ==> (r matches Err(
            InputError::ControlChar(c),
        ) && c == s@[i]),
        first_in_class(s@, CharClass::Control) is None ==> (first_in_class(
            s@,
            CharClass::QueryOrEncoding,
        ) matches Some(i) ==> (r matches Err(InputError::ForbiddenIdChar(c)) && c == s@[i])),
        first_in_class(s@, CharClass::Control) is None && first_in_class(
            s@,
            CharClass::QueryOrEncoding,
        ) is None ==> r is Ok,
{
    reject_control_chars(s)?;
    let cs = chars_of(s);
    match first_in_class_exec(&cs, CharClass::QueryOrEncoding) {
        Some(i) => Err(InputError::ForbiddenIdChar(cs[i])),
        None => Ok(()),
    }
}

/// Validates a path-like input: rejects control characters, then `%`
/// (pre-encoded text), then any `..` component. On success the path is
/// returned unchanged.
pub fn validate_path(s: &str) -> (r: Result<String, InputError>)
    ensures
        (exists|i: int|
            0 <= i < s@.len() && ((#[trigger] s@[i] as u32) <= 0x1F || (0x7F <= (s@[i] as u32) && (
            s@[i] as u32) <= 0x9F))) ==> (r matches Err(InputError::ControlChar(_))),
        first_in_class(s@, CharClass::Control) matches Some(i) ==> (r matches Err(
            InputError::ControlChar(c),
        ) && c == s@[i]),
        first_in_class(s@, CharClass::Control) is None && first_in_class(s@, CharClass::Percent) is Some
            ==> (r matches Err(InputError::PercentInPath)),
        first_in_class(s@, CharClass::Control) is None && first_in_class(s@, CharClass::Percent) is None
            && has_parent_dir(s@) ==> (r matches Err(InputError::ParentTraversal)),
        first_in_class(s@, CharClass::Control) is None && first_in_class(s@, CharClass::Percent) is None
            && !has_parent_dir(s@) ==> (r matches Ok(p) && p@ == s@),
{
    reject_control_chars(s)?;
    let cs = chars_of(s);
    if first_in_class_exec(&cs, CharClass::Percent).is_some() {
        return Err(InputError::PercentInPath);
    }
    if has_parent_dir_exec(&cs) {
        return Err(InputError::ParentTraversal);
    }
    Ok(String::from_str(s))
}

/// Checks that a resolved path lies within a resolved root. `canonical`
/// and `root_canonical` are the results of resolving `path` and `root`
/// (`Err` carries why resolution failed). On success the resolved path is
/// returned.
pub fn validate_path_within_root(
    path: &str,
    canonical: Result<String, String>,
    root: &str,
    root_canonical: Result<String, String>,
) -> (r: Result<String, InputError>)
    ensures
        canonical matches Err(e) ==> (r matches Err(InputError::PathNotFound { path: p, reason })
            && p@ == path@ && reason@ == e@),
        canonical is Ok ==> (root_canonical matches Err(e) ==> (r matches Err(
            InputError::RootNotFound { root: p, reason },
        ) && p@ == root@ && reason@ == e@)),
        canonical matches Ok(c) ==> (root_canonical matches Ok(rc) ==> {
            &&& !path_starts_with(c@, rc@) ==> (r matches Err(InputError::EscapesRoot { path: p, root: q })
                && p@ == c@ && q@ == rc@)
            &&& path_starts_with(c@, rc@) ==> (r matches Ok(p) && p@ == c@)
        }),
{
    let c = match canonical {
        Ok(c) => c,
        Err(e) => {
            return Err(InputError::PathNotFound { path: String::from_str(path), reason: e });
        },
    };
    let rc = match root_canonical {
        Ok(rc) => rc,
        Err(e) => {
            return Err(InputError::RootNotFound { root: String::from_str(root), reason: e });
        },
    };
    let cv = chars_of(c.as_str());
    let rv = chars_of(rc.as_str());
    if !starts_with(&cv, &rv) {
        return Err(InputError::EscapesRoot { path: c, root: rc });
    }
    Ok(c)
}

/// A path that `validate_path` accepts has no `..` component, no `%` and
/// no control character, and is the input itself.
pub proof fn lemma_validated_path_is_safe(s: Seq<char>)
    requires
        first_in_class(s, CharClass::Control) is None,
        first_in_class(s, CharClass::Percent) is None,
        !has_parent_dir(s),
    ensures
        forall|k: int| 0 <= k < s.len() ==> !in_class(CharClass::Control, #[trigger] s[k]) && s[k]
            != '%',
{
    lemma_first_in_class(s, CharClass::Control);
    lemma_first_in_class(s, CharClass::Percent);
    assert forall|k: int| 0 <= k < s.len() implies !in_class(CharClass::Control, #[trigger] s[k])
        && s[k] != '%' by {
        assert(!in_class(CharClass::Percent, s[k]));
    }
}

} // verus!

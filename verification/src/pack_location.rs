//! Pack location: where a memory pack lives. All pack I/O goes through it.

use vstd::prelude::*;
use vstd::string::StringExecFns;
use crate::text::{chars_of, string_from_chars};

verus! {

/// Pack location: a local directory, held as its path text.
#[derive(Debug)]
pub enum PackLocation {
    Local(String),
}

/// `rel` resolved against `base` as `Path::join` does on Unix: an absolute
/// `rel` replaces `base`; otherwise a `/` separates them unless `base` is
/// empty or already ends with one.
pub open spec fn join_path(base: Seq<char>, rel: Seq<char>) -> Seq<char> {
    if rel.len() > 0 && rel[0] == '/' {
        rel
    } else if base.len() > 0 && base.last() != '/' {
        base + seq!['/'] + rel
    } else {
        base + rel
    }
}

impl PackLocation {
    /// The directory of the pack.
    pub open spec fn root(&self) -> Seq<char> {
        match self {
            PackLocation::Local(p) => p@,
        }
    }

    /// A pack in the local directory `path`.
    pub fn local(path: String) -> (r: PackLocation)
        ensures
            r.root() == path@,
    {
        PackLocation::Local(path)
    }

    /// The directory of a local pack.
    pub fn as_path(&self) -> (r: Option<&str>)
        ensures
            r matches Some(p) && p@ == self.root(),
    {
        match self {
            PackLocation::Local(p) => Some(p.as_str()),
        }
    }

    /// The path of the pack file `rel_path`, joined to the pack directory
    /// by the rules of `Path::join`.
    pub fn file_path(&self, rel_path: &str) -> (r: String)
        ensures
            r@ == join_path(self.root(), rel_path@),
    {
        match self {
            PackLocation::Local(root) => {
                let rel = chars_of(rel_path);
                if rel.len() > 0 && rel[0] == '/' {
                    return String::from_str(rel_path);
                }
                let base = chars_of(root.as_str());
                let mut out = string_from_chars(&base);
                if base.len() > 0 && base[base.len() - 1] != '/' {
                    out.append("/");
                    proof {
                        reveal_strlit("/");
                    }
                }
                out.append(rel_path);
                out
            },
        }
    }
}

} // verus!

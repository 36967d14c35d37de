//! Which files of a tree are log files: those whose path matches a
//! wildcard pattern.

use vstd::prelude::*;
use vstd::string::StringExecFns;
use crate::parse::parser::Parser;
use crate::parse::wildcard::{spec_parse_wildcard, spec_wildcard_test, Wildcard, WildcardParser};
use crate::fs::dir_iter::DirTraverse;

verus! {

/// Where to look for log files: the pattern of their paths, the root of the
/// search, and whether the search goes through the whole tree.
#[derive(Debug)]
pub struct FsLogFind {
    wildcard: Wildcard,
    root: String,
    recursive: bool,
}

impl FsLogFind {
    /// The pattern of the paths looked for.
    pub closed spec fn pattern(&self) -> Seq<crate::parse::wildcard::WildcardTokenView> {
        self.wildcard@
    }

    /// The root of the search.
    pub closed spec fn spec_root(&self) -> Seq<char> {
        self.root@
    }

    /// The search goes through the whole tree.
    pub closed spec fn spec_recursive(&self) -> bool {
        self.recursive
    }

    /// A search for paths matching the pattern `wildcard` under `root`.
    pub fn new(root: &str, wildcard: &str, recursive: bool) -> (r: Result<Self, String>)
        ensures
            match spec_parse_wildcard(true, wildcard@) {
                Some(toks) => r matches Ok(f) && f.pattern() == toks && f.spec_root() == root@ && f.spec_recursive()
                    == recursive,
                None => r matches Err(e) && e@ == "can't parse wildcard: \""@ + wildcard@ + "\""@,
            },
    {
        match WildcardParser::new().parse(wildcard) {
            Some((wc, _)) => {
                Ok(FsLogFind { wildcard: wc, root: String::from_str(root), recursive })
            },
            None => {
                let mut msg = String::from_str("can't parse wildcard: \"");
                msg.append(wildcard);
                msg.append("\"");
                proof {
                    reveal_strlit("can't parse wildcard: \"");
                    reveal_strlit("\"");
                }
                Err(msg)
            },
        }
    }

    /// The walk that the search goes through.
    pub fn traverse(&self) -> (r: DirTraverse)
        ensures
            r.root@ == self.spec_root(),
            r.recursive == self.spec_recursive(),
    {
        DirTraverse { root: String::from_str(self.root.as_str()), recursive: self.recursive }
    }

    /// Whether `path` is the path of a log file.
    pub fn accepts(&self, path: &str) -> (r: bool)
        ensures
            r == spec_wildcard_test(self.pattern(), path@),
    {
        self.wildcard.test(path)
    }
}

} // verus!

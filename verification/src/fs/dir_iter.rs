//! The decisions of a walk over a tree of files. Opening a directory is
//! left to the caller: a step names the path to visit and whether it may be
//! opened; the caller hands back the paths inside it.

use vstd::prelude::*;
use vstd::string::StringExecFns;

verus! {

/// Where to walk: a root, and whether to go below its direct children.
#[derive(Debug, Clone)]
pub struct DirTraverse {
    /// The root of the walk.
    pub root: String,
    /// Walk the whole tree.
    pub recursive: bool,
}

/// A walk under way: the paths left to visit, each with its depth below
/// the root (the last one is visited first), and the depth at which
/// directories are no longer opened.
#[derive(Debug)]
pub struct DirIterator {
    pub work_set: Vec<(u32, String)>,
    pub max_depth: Option<u32>,
}

/// A step of a walk.
#[derive(Debug)]
pub enum DirStep {
    /// Nothing is left to visit.
    Done,
    /// `path` is visited; where `open` holds and it is a directory, the
    /// paths inside it are to be handed to [DirIterator::push_children].
    Visit { path: String, depth: u32, open: bool },
}

/// The paths left to visit, by their text.
pub open spec fn spec_work_view(w: Seq<(u32, String)>) -> Seq<(u32, Seq<char>)> {
    Seq::new(w.len(), |i: int| (w[i].0, w[i].1@))
}

/// The depth past which a walk opens no directory: none for a walk of the
/// whole tree, else the root's children (or the root alone, where it is no
/// directory).
pub open spec fn spec_max_depth(root_is_dir: bool, recursive: bool) -> Option<u32> {
    if recursive {
        None
    } else if root_is_dir {
        Some(1u32)
    } else {
        Some(0u32)
    }
}

/// A directory at `depth` is opened unless the walk stops there.
pub open spec fn spec_opens(max_depth: Option<u32>, depth: u32) -> bool {
    match max_depth {
        Some(m) => depth < m,
        None => true,
    }
}

impl DirTraverse {
    /// The walk from the root; `root_is_dir` tells whether the root is a
    /// directory.
    pub fn walk(&self, root_is_dir: bool) -> (r: DirIterator)
        ensures
            spec_work_view(r.work_set@) == seq![(0u32, self.root@)],
            r.max_depth == spec_max_depth(root_is_dir, self.recursive),
    {
        let mut work_set: Vec<(u32, String)> = Vec::new();
        work_set.push((0u32, String::from_str(self.root.as_str())));
        let max_depth = if self.recursive {
            None
        } else if root_is_dir {
            Some(1u32)
        } else {
            Some(0u32)
        };
        let r = DirIterator { work_set, max_depth };
        proof {
            assert(spec_work_view(r.work_set@) =~= seq![(0u32, self.root@)]);
        }
        r
    }
}

impl DirIterator {
    /// The next path to visit: the last one left, opened unless the walk
    /// stops at its depth.
    pub fn next_step(&mut self) -> (r: DirStep)
        ensures
            final(self).max_depth == old(self).max_depth,
            old(self).work_set@.len() == 0 ==> r is Done && final(self).work_set@ == old(self).work_set@,
            old(self).work_set@.len() > 0 ==> {
                let last = spec_work_view(old(self).work_set@).last();
                &&& r matches DirStep::Visit { path, depth, open } && path@ == last.1 && depth == last.0
                    && open == spec_opens(old(self).max_depth, depth)
                &&& spec_work_view(final(self).work_set@) == spec_work_view(old(self).work_set@).drop_last()
            },
    {
        match self.work_set.pop() {
            None => DirStep::Done,
            Some((depth, path)) => {
                let open = match self.max_depth {
                    Some(m) => depth < m,
                    None => true,
                };
                proof {
                    assert(spec_work_view(self.work_set@) =~= spec_work_view(old(self).work_set@).drop_last());
                }
                DirStep::Visit { path, depth, open }
            },
        }
    }

    /// Adds the paths inside a directory visited at `depth`, one level
    /// deeper, in the order given.
    pub fn push_children(&mut self, depth: u32, children: Vec<String>)
        requires
            depth < u32::MAX,
        ensures
            final(self).max_depth == old(self).max_depth,
            spec_work_view(final(self).work_set@) == spec_work_view(old(self).work_set@) + Seq::new(
                children@.len(),
                |i: int| ((depth + 1) as u32, children@[i]@),
            ),
    {
        let ghost start = spec_work_view(self.work_set@);
        let mut i: usize = 0;
        while i < children.len()
            invariant
                i <= children.len(),
                depth < u32::MAX,
                self.max_depth == old(self).max_depth,
                start == spec_work_view(old(self).work_set@),
                spec_work_view(self.work_set@) == start + Seq::new(
                    i as nat,
                    |k: int| ((depth + 1) as u32, children@[k]@),
                ),
            decreases children.len() - i,
        {
            let c = String::from_str(children[i].as_str());
            let ghost w0 = self.work_set@;
            self.work_set.push((depth + 1, c));
            proof {
                assert(c@ == children@[i as int]@);
                assert(spec_work_view(self.work_set@) =~= spec_work_view(w0).push(((depth + 1) as u32, children@[i as int]@)));
                assert(spec_work_view(self.work_set@) =~= start + Seq::new(
                    (i + 1) as nat,
                    |k: int| ((depth + 1) as u32, children@[k]@),
                ));
            }
            i = i + 1;
        }
    }
}

} // verus!

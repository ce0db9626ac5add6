//! Depth-budgeted traversal of a modelled filesystem tree: discover every
//! regular file within the depth budget, record per-entry failures, and
//! treat a failure on the root itself as fatal.

use vstd::prelude::*;
use crate::errors::IoErrKind;
use crate::errors::IoErrorCollector;
use crate::fs_model::FsEntry;
use crate::fs_model::FsNode;
use crate::util::copy_bytes;
use crate::util::join_path;

verus! {

/// A discovered file: its path and its content, or the failure met when
/// reading it.
pub struct FileWork {
    pub path: Vec<u8>,
    pub content: Result<Vec<u8>, IoErrKind>,
}

pub open spec fn content_view(c: Result<Vec<u8>, IoErrKind>) -> Result<Seq<u8>, IoErrKind> {
    match c {
        Ok(v) => Ok(v@),
        Err(k) => Err(k),
    }
}

impl View for FileWork {
    type V = (Seq<u8>, Result<Seq<u8>, IoErrKind>);

    open spec fn view(&self) -> (Seq<u8>, Result<Seq<u8>, IoErrKind>) {
        (self.path@, content_view(self.content))
    }
}

/// The path of a directory entry: the directory's path, a slash, the name.
pub open spec fn child_path(dpath: Seq<u8>, name: Seq<u8>) -> Seq<u8> {
    dpath + seq![47u8] + name
}

/// What walking the entries of the directory at `dpath` with `budget`
/// levels of depth left discovers: the files found (in entry order, depth
/// first) and the per-entry failures recorded on the way. Files are taken
/// from every entry; a subdirectory is entered only while more than one
/// level of budget remains, each descent consuming one level.
pub open spec fn walk_entries(dpath: Seq<u8>, entries: Seq<FsEntry>, budget: int) -> (
    Seq<(Seq<u8>, Result<Seq<u8>, IoErrKind>)>,
    Seq<(Seq<u8>, IoErrKind)>,
)
    decreases budget, entries.len(),
{
    if budget <= 0 || entries.len() == 0 {
        (Seq::empty(), Seq::empty())
    } else {
        let prev = walk_entries(dpath, entries.drop_last(), budget);
        let e = entries.last();
        let cp = child_path(dpath, e.name@);
        let cur: (Seq<(Seq<u8>, Result<Seq<u8>, IoErrKind>)>, Seq<(Seq<u8>, IoErrKind)>) = match e.node {
            FsNode::File(c) => (seq![(cp, content_view(c))], Seq::empty()),
            FsNode::Unknown(k) => (Seq::empty(), seq![(cp, k)]),
            FsNode::Dir(r) => if budget > 1 {
                match r {
                    Ok(sub) => walk_entries(cp, sub@, budget - 1),
                    Err(k) => (Seq::empty(), seq![(cp, k)]),
                }
            } else {
                (Seq::empty(), Seq::empty())
            },
        };
        (prev.0 + cur.0, prev.1 + cur.1)
    }
}

/// What traversal from the root discovers. A non-directory root is taken
/// as a single file whatever the depth; a directory root is skipped
/// entirely at depth zero; a failure to classify the root or to list a
/// directory root is fatal.
pub open spec fn walk_root(path: Seq<u8>, node: FsNode, depth: int) -> Result<
    (Seq<(Seq<u8>, Result<Seq<u8>, IoErrKind>)>, Seq<(Seq<u8>, IoErrKind)>),
    IoErrKind,
> {
    match node {
        FsNode::Unknown(k) => Err(k),
        FsNode::File(c) => Ok((seq![(path, content_view(c))], Seq::empty())),
        FsNode::Dir(r) => if depth <= 0 {
            Ok((Seq::empty(), Seq::empty()))
        } else {
            match r {
                Ok(sub) => Ok(walk_entries(path, sub@, depth)),
                Err(k) => Err(k),
            }
        },
    }
}

/// The files discovered by a traversal together with the failures met on
/// the way.
pub struct GetFilenamesResult {
    pub files: Vec<FileWork>,
    pub errors: IoErrorCollector,
}

impl View for GetFilenamesResult {
    type V = (Seq<(Seq<u8>, Result<Seq<u8>, IoErrKind>)>, Seq<(Seq<u8>, IoErrKind)>);

    open spec fn view(&self) -> (
        Seq<(Seq<u8>, Result<Seq<u8>, IoErrKind>)>,
        Seq<(Seq<u8>, IoErrKind)>,
    ) {
        (self.files@.map_values(|f: FileWork| f@), self.errors@)
    }
}

impl GetFilenamesResult {
    pub fn new() -> (r: GetFilenamesResult)
        ensures
            r@.0 == Seq::<(Seq<u8>, Result<Seq<u8>, IoErrKind>)>::empty(),
            r@.1 == Seq::<(Seq<u8>, IoErrKind)>::empty(),
    {
        let r = GetFilenamesResult { files: Vec::new(), errors: IoErrorCollector::new() };
        proof {
            assert(r@.0 =~= Seq::<(Seq<u8>, Result<Seq<u8>, IoErrKind>)>::empty());
        }
        r
    }
}

fn copy_content(c: &Result<Vec<u8>, IoErrKind>) -> (r: Result<Vec<u8>, IoErrKind>)
    ensures
        content_view(r) == content_view(*c),
{
    match c {
        Ok(v) => Ok(copy_bytes(v)),
        Err(k) => Err(*k),
    }
}

/// Walks the entries of the directory at `dpath`, appending what it
/// discovers to `out`: files of every entry, recursion into subdirectories
/// while more than one level of `max_depth` remains, and one error record
/// for each entry that failed.
pub fn get_filenames_recursive(
    dpath: &Vec<u8>,
    entries: &Vec<FsEntry>,
    max_depth: u32,
    out: &mut GetFilenamesResult,
)
    requires
        max_depth >= 1,
    ensures
        final(out)@.0 == old(out)@.0 + walk_entries(dpath@, entries@, max_depth as int).0,
        final(out)@.1 == old(out)@.1 + walk_entries(dpath@, entries@, max_depth as int).1,
    decreases max_depth,
{
    let ghost files0 = old(out)@.0;
    let ghost errs0 = old(out)@.1;
    let ghost d = max_depth as int;
    proof {
        assert(out@.0 =~= files0 + walk_entries(dpath@, entries@.take(0), d).0);
        assert(out@.1 =~= errs0 + walk_entries(dpath@, entries@.take(0), d).1);
    }
    let mut k: usize = 0;
    while k < entries.len()
        invariant
            max_depth >= 1,
            d == max_depth as int,
            k <= entries@.len(),
            out@.0 == files0 + walk_entries(dpath@, entries@.take(k as int), d).0,
            out@.1 == errs0 + walk_entries(dpath@, entries@.take(k as int), d).1,
        decreases entries@.len() - k,
    {
        let ghost pre = entries@.take(k as int);
        let ghost post = entries@.take(k as int + 1);
        proof {
            assert(post.drop_last() =~= pre);
            assert(post.last() == entries@[k as int]);
        }
        let cp = join_path(dpath, &entries[k].name);
        match &entries[k].node {
            FsNode::File(c) => {
                let ghost before = out@;
                out.files.push(FileWork { path: cp, content: copy_content(c) });
                proof {
                    assert(out@.0 =~= before.0 + seq![
                        (child_path(dpath@, entries@[k as int].name@), content_view(
                            entries@[k as int].node->File_0,
                        )),
                    ]);
                    assert(out@.0 =~= files0 + walk_entries(dpath@, post, d).0);
                    assert(out@.1 =~= errs0 + walk_entries(dpath@, post, d).1);
                }
            },
            FsNode::Unknown(kind) => {
                out.errors.push_err(cp, *kind);
                proof {
                    assert(out@.0 =~= files0 + walk_entries(dpath@, post, d).0);
                    assert(out@.1 =~= errs0 + walk_entries(dpath@, post, d).1);
                }
            },
            FsNode::Dir(r) => {
                if max_depth > 1 {
                    match r {
                        Ok(sub) => {
                            let ghost before = out@;
                            get_filenames_recursive(&cp, sub, max_depth - 1, out);
                            proof {
                                assert(out@.0 =~= files0 + walk_entries(dpath@, post, d).0);
                                assert(out@.1 =~= errs0 + walk_entries(dpath@, post, d).1);
                            }
                        },
                        Err(kind) => {
                            out.errors.push_err(cp, *kind);
                            proof {
                                assert(out@.0 =~= files0 + walk_entries(dpath@, post, d).0);
                                assert(out@.1 =~= errs0 + walk_entries(dpath@, post, d).1);
                            }
                        },
                    }
                } else {
                    proof {
                        assert(walk_entries(dpath@, post, d).0 =~= walk_entries(dpath@, pre, d).0);
                        assert(walk_entries(dpath@, post, d).1 =~= walk_entries(dpath@, pre, d).1);
                    }
                }
            },
        }
        k += 1;
    }
    proof {
        assert(entries@.take(entries@.len() as int) =~= entries@);
    }
}

/// Traverses the tree rooted at `path`: a non-directory root is the single
/// discovered file; a directory root is walked with `max_depth` levels of
/// budget, or skipped entirely when the budget is zero. A failure on the
/// root itself is returned as fatal.
pub fn get_all_filenames(path: &Vec<u8>, node: &FsNode, max_depth: u32) -> (r: Result<
    GetFilenamesResult,
    IoErrKind,
>)
    ensures
        match walk_root(path@, *node, max_depth as int) {
            Ok(w) => r is Ok && r->Ok_0@ == w,
            Err(k) => r is Err && r->Err_0 == k,
        },
{
    match node {
        FsNode::Unknown(k) => Err(*k),
        FsNode::File(c) => {
            let mut res = GetFilenamesResult::new();
            res.files.push(FileWork { path: copy_bytes(path), content: copy_content(c) });
            proof {
                assert(res@.0 =~= seq![(path@, content_view(node->File_0))]);
            }
            Ok(res)
        },
        FsNode::Dir(r) => {
            if max_depth == 0 {
                Ok(GetFilenamesResult::new())
            } else {
                match r {
                    Ok(entries) => {
                        let mut res = GetFilenamesResult::new();
                        get_filenames_recursive(path, entries, max_depth, &mut res);
                        proof {
                            assert(res@.0 =~= walk_entries(path@, entries@, max_depth as int).0);
                            assert(res@.1 =~= walk_entries(path@, entries@, max_depth as int).1);
                        }
                        Ok(res)
                    },
                    Err(k) => Err(*k),
                }
            }
        },
    }
}

} // verus!

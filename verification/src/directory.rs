//! The sequential indexing pipeline over a modelled tree: traverse, index
//! each discovered file, and aggregate every per-file result into one
//! global index beside the collected failures. The final value is a
//! function of the tree and the depth budget alone, whatever concurrency
//! a caller runs the per-file work under.

use vstd::prelude::*;
use crate::errors::IoErrKind;
use crate::errors::IoErrorCollector;
use crate::fs_model::FsNode;
use crate::index::merge_file;
use crate::index::process_map;
use crate::index::FileIndex;
use crate::index::GlobalIndex;
use crate::tokenize::index_of;
use crate::tokenize::index_string;
use crate::traverse::get_all_filenames;
use crate::traverse::walk_root;
use crate::traverse::FileWork;
use crate::util::copy_bytes;

verus! {

/// The outcome of indexing one discovered file: its path and its index,
/// or the failure met on the way to one.
pub struct FileOutcome {
    pub path: Vec<u8>,
    pub result: Result<FileIndex, IoErrKind>,
}

impl View for FileOutcome {
    type V = (Seq<u8>, Result<Map<Seq<u8>, Seq<usize>>, IoErrKind>);

    open spec fn view(&self) -> (Seq<u8>, Result<Map<Seq<u8>, Seq<usize>>, IoErrKind>) {
        (
            self.path@,
            match self.result {
                Ok(fi) => Ok(fi@),
                Err(k) => Err(k),
            },
        )
    }
}

impl FileOutcome {
    pub open spec fn wf(&self) -> bool {
        self.result is Ok ==> self.result->Ok_0.wf()
    }
}

/// The global map after a sequence of per-file outcomes is merged into
/// `g`, first to last; failed files contribute nothing to the map.
pub open spec fn agg_map(
    g: Map<Seq<u8>, Map<Seq<u8>, Seq<usize>>>,
    s: Seq<(Seq<u8>, Result<Map<Seq<u8>, Seq<usize>>, IoErrKind>)>,
) -> Map<Seq<u8>, Map<Seq<u8>, Seq<usize>>>
    decreases s.len(),
{
    if s.len() == 0 {
        g
    } else {
        let prev = agg_map(g, s.drop_last());
        match s.last().1 {
            Ok(fi) => merge_file(prev, fi, s.last().0),
            Err(_) => prev,
        }
    }
}

/// The error records that a sequence of per-file outcomes contributes, in
/// outcome order: one per failed file.
pub open spec fn agg_errs(s: Seq<(Seq<u8>, Result<Map<Seq<u8>, Seq<usize>>, IoErrKind>)>) -> Seq<
    (Seq<u8>, IoErrKind),
>
    decreases s.len(),
{
    if s.len() == 0 {
        Seq::empty()
    } else {
        agg_errs(s.drop_last()) + (match s.last().1 {
            Ok(_) => Seq::empty(),
            Err(k) => seq![(s.last().0, k)],
        })
    }
}

/// The outcome owed for one discovered file: its content tokenized, or
/// its read failure passed through.
pub open spec fn outcome_of(f: (Seq<u8>, Result<Seq<u8>, IoErrKind>)) -> (
    Seq<u8>,
    Result<Map<Seq<u8>, Seq<usize>>, IoErrKind>,
) {
    (
        f.0,
        match f.1 {
            Ok(c) => Ok(index_of(c)),
            Err(k) => Err(k),
        },
    )
}

pub open spec fn outcomes_of(files: Seq<(Seq<u8>, Result<Seq<u8>, IoErrKind>)>) -> Seq<
    (Seq<u8>, Result<Map<Seq<u8>, Seq<usize>>, IoErrKind>),
> {
    files.map_values(|f: (Seq<u8>, Result<Seq<u8>, IoErrKind>)| outcome_of(f))
}

/// The views of a vector of outcomes, in order.
pub open spec fn outcome_views(s: Seq<FileOutcome>) -> Seq<
    (Seq<u8>, Result<Map<Seq<u8>, Seq<usize>>, IoErrKind>),
> {
    s.map_values(|o: FileOutcome| o@)
}

/// The whole value owed for the tree rooted at `path` under `depth`
/// levels of budget: the traversal's files indexed and aggregated, its
/// error records first and the read failures after them in discovery
/// order; or the fatal failure met on the root itself.
pub open spec fn spec_index_directory(path: Seq<u8>, node: FsNode, depth: int) -> Result<
    (Map<Seq<u8>, Map<Seq<u8>, Seq<usize>>>, Seq<(Seq<u8>, IoErrKind)>),
    IoErrKind,
> {
    match walk_root(path, node, depth) {
        Ok(w) => Ok(
            (
                agg_map(Map::<Seq<u8>, Map<Seq<u8>, Seq<usize>>>::empty(), outcomes_of(w.0)),
                w.1 + agg_errs(outcomes_of(w.0)),
            ),
        ),
        Err(k) => Err(k),
    }
}

/// The global index beside the collected error records.
#[derive(Debug, PartialEq)]
pub struct IndexDirectoryResult {
    pub map: GlobalIndex,
    pub errors: IoErrorCollector,
}

impl View for IndexDirectoryResult {
    type V = (Map<Seq<u8>, Map<Seq<u8>, Seq<usize>>>, Seq<(Seq<u8>, IoErrKind)>);

    open spec fn view(&self) -> (
        Map<Seq<u8>, Map<Seq<u8>, Seq<usize>>>,
        Seq<(Seq<u8>, IoErrKind)>,
    ) {
        (self.map@, self.errors@)
    }
}

impl IndexDirectoryResult {
    pub open spec fn wf(&self) -> bool {
        self.map.wf()
    }
}

/// Indexes one discovered file: tokenizes its content, or passes its read
/// failure through.
pub fn index_file(work: &FileWork) -> (r: Result<FileIndex, IoErrKind>)
    ensures
        work.content is Ok ==> r is Ok && r->Ok_0.wf() && r->Ok_0@ == index_of(
            work.content->Ok_0@,
        ),
        work.content is Err ==> r is Err && r->Err_0 == work.content->Err_0,
{
    match &work.content {
        Ok(c) => Ok(index_string(c)),
        Err(k) => Err(*k),
    }
}

/// Drains a sequence of per-file outcomes into one result: every
/// successful index is merged into the global map, every failure appends
/// an error record after those already in `errors`. The value is the same
/// for any order that carries the same outcomes.
pub fn aggregate(results: &Vec<FileOutcome>, errors: IoErrorCollector) -> (r: IndexDirectoryResult)
    requires
        forall|i: int| 0 <= i < results@.len() ==> (#[trigger] results@[i]).wf(),
    ensures
        r.wf(),
        r@.0 == agg_map(
            Map::<Seq<u8>, Map<Seq<u8>, Seq<usize>>>::empty(),
            outcome_views(results@),
        ),
        r@.1 == errors@ + agg_errs(outcome_views(results@)),
{
    let ghost outs = outcome_views(results@);
    let ghost errs0 = errors@;
    let mut res = IndexDirectoryResult { map: GlobalIndex::new(), errors };
    proof {
        assert(res@.0 =~= agg_map(
            Map::<Seq<u8>, Map<Seq<u8>, Seq<usize>>>::empty(),
            outs.take(0),
        ));
        assert(res@.1 =~= errs0 + agg_errs(outs.take(0)));
    }
    let mut j: usize = 0;
    while j < results.len()
        invariant
            forall|i: int| 0 <= i < results@.len() ==> (#[trigger] results@[i]).wf(),
            outs == outcome_views(results@),
            j <= results@.len(),
            res.wf(),
            res@.0 == agg_map(Map::<Seq<u8>, Map<Seq<u8>, Seq<usize>>>::empty(), outs.take(j as int)),
            res@.1 == errs0 + agg_errs(outs.take(j as int)),
        decreases results@.len() - j,
    {
        let ghost pre = outs.take(j as int);
        let ghost post = outs.take(j as int + 1);
        proof {
            assert(post.drop_last() =~= pre);
            assert(post.last() == outs[j as int]);
        }
        match &results[j].result {
            Ok(fi) => {
                process_map(&mut res.map, fi, &results[j].path);
                proof {
                    assert(res@.1 =~= errs0 + agg_errs(post));
                }
            },
            Err(k) => {
                res.errors.push_err(copy_bytes(&results[j].path), *k);
                proof {
                    assert(res@.1 =~= errs0 + agg_errs(post));
                }
            },
        }
        j += 1;
    }
    proof {
        assert(outs.take(results@.len() as int) =~= outs);
    }
    res
}

/// Builds the whole index of the tree rooted at `path`: traverses it with
/// `max_depth` levels of budget, indexes every discovered file, and
/// aggregates the outcomes. Traversal failures come first in the error
/// list, then read failures in discovery order. A failure on the root
/// itself is returned as fatal and no partial result is produced.
pub fn index_directory(path: &Vec<u8>, node: &FsNode, max_depth: u32) -> (r: Result<
    IndexDirectoryResult,
    IoErrKind,
>)
    ensures
        match spec_index_directory(path@, *node, max_depth as int) {
            Ok(v) => r is Ok && r->Ok_0.wf() && r->Ok_0@ == v,
            Err(k) => r is Err && r->Err_0 == k,
        },
{
    let found = match get_all_filenames(path, node, max_depth) {
        Ok(v) => v,
        Err(k) => {
            return Err(k);
        },
    };
    let ghost files = found@.0;
    let mut outcomes: Vec<FileOutcome> = Vec::new();
    proof {
        assert(outcome_views(outcomes@) =~= outcomes_of(files.take(0)));
    }
    let mut j: usize = 0;
    while j < found.files.len()
        invariant
            files == found@.0,
            j <= found.files@.len(),
            files.len() == found.files@.len(),
            forall|i: int| 0 <= i < files.len() ==> files[i] == (#[trigger] found.files@[i])@,
            forall|i: int| 0 <= i < outcomes@.len() ==> (#[trigger] outcomes@[i]).wf(),
            outcome_views(outcomes@) == outcomes_of(files.take(j as int)),
        decreases found.files@.len() - j,
    {
        let ghost pre = files.take(j as int);
        let ghost post = files.take(j as int + 1);
        let w = &found.files[j];
        let outcome = FileOutcome { path: copy_bytes(&w.path), result: index_file(w) };
        proof {
            assert(outcome@ == outcome_of(files[j as int]));
        }
        let ghost outs_pre = outcome_views(outcomes@);
        let ghost oview = outcome@;
        outcomes.push(outcome);
        proof {
            assert(post.drop_last() =~= pre);
            assert(post.last() == files[j as int]);
            assert(outcome_views(outcomes@) =~= outs_pre.push(oview));
            assert(outcomes_of(post) =~= outcomes_of(pre).push(outcome_of(files[j as int])));
            assert(outcome_views(outcomes@) == outcomes_of(post));
        }
        j += 1;
    }
    proof {
        assert(files.take(files.len() as int) =~= files);
    }
    Ok(aggregate(&outcomes, found.errors))
}

/// How many workers a concurrency budget yields: one unit is reserved for
/// the traversal role and at least one worker always runs.
pub fn worker_count(concurrency: usize) -> (r: usize)
    ensures
        r == (if concurrency <= 1 {
            1usize
        } else {
            (concurrency - 1) as usize
        }),
{
    if concurrency <= 1 {
        1
    } else {
        concurrency - 1
    }
}

/// Whether a concurrency budget degrades to fully sequential execution.
pub fn runs_sequential(concurrency: usize) -> (r: bool)
    ensures
        r == (concurrency <= 2),
{
    concurrency <= 2
}

/// Whether traversal may enter a subdirectory with this much depth budget
/// left: each descent consumes one unit.
pub fn may_descend(remaining_depth: u32) -> (r: bool)
    ensures
        r == (remaining_depth > 1),
{
    remaining_depth > 1
}

/// The index of the tree rooted at `path` under a concurrency budget. The
/// contract does not mention `concurrency`: the value of the result is
/// the same whatever the budget, as for a strictly sequential run.
pub fn build_index(path: &Vec<u8>, node: &FsNode, max_depth: u32, concurrency: usize) -> (r: Result<
    IndexDirectoryResult,
    IoErrKind,
>)
    ensures
        match spec_index_directory(path@, *node, max_depth as int) {
            Ok(v) => r is Ok && r->Ok_0.wf() && r->Ok_0@ == v,
            Err(k) => r is Err && r->Err_0 == k,
        },
{
    let _workers = worker_count(concurrency);
    index_directory(path, node, max_depth)
}

} // verus!

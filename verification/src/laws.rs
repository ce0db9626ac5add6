//! Laws of the indexing pipeline: the depth boundary of traversal, and
//! the insensitivity of aggregation to the order in which per-file
//! outcomes arrive.

use vstd::prelude::*;
use crate::directory::agg_errs;
use crate::directory::agg_map;
use crate::directory::spec_index_directory;
use crate::errors::IoErrKind;
use crate::fs_model::FsEntry;
use crate::fs_model::FsNode;
use crate::index::merge_file;
use crate::tokenize::index_of;
use crate::tokenize::is_ws;
use crate::tokenize::lemma_token_end_scan;
use crate::tokenize::starts_token;
use crate::tokenize::token_at;
use crate::tokenize::token_end;
use crate::tokenize::word_offsets_upto;
use crate::traverse::child_path;
use crate::traverse::content_view;
use crate::traverse::walk_entries;
use crate::traverse::walk_root;

verus! {

/// No two outcomes of the sequence carry the same path.
pub open spec fn distinct_paths(
    s: Seq<(Seq<u8>, Result<Map<Seq<u8>, Seq<usize>>, IoErrKind>)>,
) -> bool {
    forall|i: int, j: int| 0 <= i < j < s.len() ==> s[i].0 != s[j].0
}

/// Some outcome of `s` indexed the file at `p` and found `w` in it.
pub open spec fn cell_defined(
    s: Seq<(Seq<u8>, Result<Map<Seq<u8>, Seq<usize>>, IoErrKind>)>,
    w: Seq<u8>,
    p: Seq<u8>,
) -> bool {
    exists|e: (Seq<u8>, Result<Map<Seq<u8>, Seq<usize>>, IoErrKind>)|
        #[trigger] s.contains(e) && e.0 == p && e.1 is Ok && e.1->Ok_0.contains_key(w)
}

/// The offsets that outcome recorded for `w`; with distinct paths there
/// is at most one such outcome, so the value does not depend on order.
pub open spec fn cell_value(
    s: Seq<(Seq<u8>, Result<Map<Seq<u8>, Seq<usize>>, IoErrKind>)>,
    w: Seq<u8>,
    p: Seq<u8>,
) -> Seq<usize> {
    (choose|e: (Seq<u8>, Result<Map<Seq<u8>, Seq<usize>>, IoErrKind>)|
        #[trigger] s.contains(e) && e.0 == p && e.1 is Ok && e.1->Ok_0.contains_key(w)).1->Ok_0[w]
}

/// The aggregated map described without any order: a word is present
/// exactly when some successful outcome holds it, and each of its cells
/// carries the offsets of the one outcome for that path.
pub open spec fn canon_map(s: Seq<(Seq<u8>, Result<Map<Seq<u8>, Seq<usize>>, IoErrKind>)>) -> Map<
    Seq<u8>,
    Map<Seq<u8>, Seq<usize>>,
> {
    Map::new(
        |w: Seq<u8>| exists|p: Seq<u8>| #[trigger] cell_defined(s, w, p),
        |w: Seq<u8>|
            Map::new(
                |p: Seq<u8>| cell_defined(s, w, p),
                |p: Seq<u8>| cell_value(s, w, p),
            ),
    )
}

proof fn lemma_path_element_unique(
    s: Seq<(Seq<u8>, Result<Map<Seq<u8>, Seq<usize>>, IoErrKind>)>,
    x: (Seq<u8>, Result<Map<Seq<u8>, Seq<usize>>, IoErrKind>),
    y: (Seq<u8>, Result<Map<Seq<u8>, Seq<usize>>, IoErrKind>),
)
    requires
        distinct_paths(s),
        s.contains(x),
        s.contains(y),
        x.0 == y.0,
    ensures
        x == y,
{
    let i = choose|i: int| 0 <= i < s.len() && s[i] == x;
    let j = choose|j: int| 0 <= j < s.len() && s[j] == y;
    if i < j {
        assert(s[i].0 != s[j].0);
    }
    if j < i {
        assert(s[j].0 != s[i].0);
    }
}

/// Aggregating a sequence of outcomes with distinct paths yields exactly
/// the order-free map `canon_map`.
pub proof fn lemma_agg_map_is_canon(s: Seq<(Seq<u8>, Result<Map<Seq<u8>, Seq<usize>>, IoErrKind>)>)
    requires
        distinct_paths(s),
    ensures
        agg_map(Map::<Seq<u8>, Map<Seq<u8>, Seq<usize>>>::empty(), s) == canon_map(s),
    decreases s.len(),
{
    if s.len() == 0 {
        assert(forall|e: (Seq<u8>, Result<Map<Seq<u8>, Seq<usize>>, IoErrKind>)| !s.contains(e));
        assert(canon_map(s) =~= Map::<Seq<u8>, Map<Seq<u8>, Seq<usize>>>::empty());
    } else {
        let t = s.drop_last();
        let e = s.last();
        assert(distinct_paths(t)) by {
            assert(forall|i: int, j: int|
                0 <= i < j < t.len() ==> t[i].0 == s[i].0 && t[j].0 == s[j].0);
        }
        lemma_agg_map_is_canon(t);
        assert(s[s.len() - 1] == e);
        assert(s.contains(e));
        assert forall|x: (Seq<u8>, Result<Map<Seq<u8>, Seq<usize>>, IoErrKind>)| #[trigger]
            t.contains(x) implies s.contains(x) && x.0 != e.0 by {
            let i = choose|i: int| 0 <= i < t.len() && t[i] == x;
            assert(s[i] == x);
            assert(s[i].0 != s[s.len() - 1].0);
        }
        assert forall|x: (Seq<u8>, Result<Map<Seq<u8>, Seq<usize>>, IoErrKind>)| #[trigger]
            s.contains(x) implies t.contains(x) || x == e by {
            let i = choose|i: int| 0 <= i < s.len() && s[i] == x;
            if i < s.len() - 1 {
                assert(t[i] == x);
            }
        }
        // How each cell of `s` relates to the cells of `t` and to the last
        // outcome.
        assert forall|w: Seq<u8>, p: Seq<u8>| #[trigger]
            cell_defined(s, w, p) implies (cell_defined(t, w, p) || (p == e.0 && e.1 is Ok
            && e.1->Ok_0.contains_key(w))) by {
            let x = choose|x: (Seq<u8>, Result<Map<Seq<u8>, Seq<usize>>, IoErrKind>)|
                #[trigger] s.contains(x) && x.0 == p && x.1 is Ok && x.1->Ok_0.contains_key(w);
            if x == e {
            } else {
                assert(t.contains(x));
            }
        }
        assert forall|w: Seq<u8>, p: Seq<u8>| #[trigger]
            cell_defined(t, w, p) implies cell_defined(s, w, p) && p != e.0 && cell_value(s, w, p)
            == cell_value(t, w, p) by {
            let x = choose|x: (Seq<u8>, Result<Map<Seq<u8>, Seq<usize>>, IoErrKind>)|
                #[trigger] t.contains(x) && x.0 == p && x.1 is Ok && x.1->Ok_0.contains_key(w);
            assert(s.contains(x));
            assert(cell_defined(s, w, p));
            let y = choose|y: (Seq<u8>, Result<Map<Seq<u8>, Seq<usize>>, IoErrKind>)|
                #[trigger] s.contains(y) && y.0 == p && y.1 is Ok && y.1->Ok_0.contains_key(w);
            lemma_path_element_unique(s, x, y);
        }
        match e.1 {
            Ok(fi) => {
                assert forall|w: Seq<u8>| fi.contains_key(w) implies cell_defined(s, w, e.0)
                    && cell_value(s, w, e.0) == fi[w] by {
                    assert(s.contains(e) && e.0 == e.0 && e.1 is Ok && e.1->Ok_0.contains_key(w));
                    assert(cell_defined(s, w, e.0));
                    let y = choose|y: (Seq<u8>, Result<Map<Seq<u8>, Seq<usize>>, IoErrKind>)|
                        #[trigger] s.contains(y) && y.0 == e.0 && y.1 is Ok
                            && y.1->Ok_0.contains_key(w);
                    lemma_path_element_unique(s, y, e);
                }
                assert(agg_map(Map::<Seq<u8>, Map<Seq<u8>, Seq<usize>>>::empty(), s) == merge_file(
                    canon_map(t),
                    fi,
                    e.0,
                ));
                let m1 = canon_map(s);
                let m2 = merge_file(canon_map(t), fi, e.0);
                assert forall|w: Seq<u8>| #[trigger] m1.contains_key(w) implies m2.contains_key(
                    w,
                ) by {
                    let p = choose|p: Seq<u8>| #[trigger] cell_defined(s, w, p);
                    if p == e.0 {
                        assert(fi.contains_key(w));
                    } else {
                        assert(cell_defined(t, w, p));
                        assert(canon_map(t).contains_key(w));
                    }
                }
                assert forall|w: Seq<u8>| #[trigger] m2.contains_key(w) implies m1.contains_key(
                    w,
                ) by {
                    if fi.contains_key(w) {
                        assert(cell_defined(s, w, e.0));
                    } else {
                        let p = choose|p: Seq<u8>| #[trigger] cell_defined(t, w, p);
                        assert(cell_defined(s, w, p));
                    }
                }
                assert forall|w: Seq<u8>|
                    m1.contains_key(w) && #[trigger] m2.contains_key(w) implies m1[w] == m2[w] by {
                    let inner1 = m1[w];
                    let inner2 = m2[w];
                    assert forall|p: Seq<u8>| #[trigger]
                        inner1.contains_key(p) implies inner2.contains_key(p) && inner1[p]
                        == inner2[p] by {
                        assert(cell_defined(s, w, p));
                        if p == e.0 {
                            assert(fi.contains_key(w));
                            assert(inner2.contains_key(p) && inner2[p] == fi[w]);
                            assert(inner1[p] == cell_value(s, w, e.0));
                        } else {
                            assert(cell_defined(t, w, p));
                            assert(canon_map(t).contains_key(w));
                            assert(inner1[p] == cell_value(s, w, p));
                            assert(inner2[p] == cell_value(t, w, p));
                        }
                    }
                    assert forall|p: Seq<u8>| #[trigger]
                        inner2.contains_key(p) implies inner1.contains_key(p) by {
                        if fi.contains_key(w) && p == e.0 {
                            assert(cell_defined(s, w, e.0));
                        } else {
                            assert(cell_defined(t, w, p));
                            assert(cell_defined(s, w, p));
                        }
                    }
                    assert(inner1 =~= inner2);
                }
                assert(m1 =~= m2);
            },
            Err(_) => {
                assert forall|w: Seq<u8>, p: Seq<u8>| #[trigger]
                    cell_defined(s, w, p) implies cell_defined(t, w, p) by {
                    let x = choose|x: (Seq<u8>, Result<Map<Seq<u8>, Seq<usize>>, IoErrKind>)|
                        #[trigger] s.contains(x) && x.0 == p && x.1 is Ok
                            && x.1->Ok_0.contains_key(w);
                    assert(x != e);
                    assert(t.contains(x));
                }
                assert(canon_map(s) =~~= canon_map(t));
            },
        }
    }
}

/// Aggregation is insensitive to the order of the result stream: two
/// sequences of outcomes that carry the same multiset of results, each
/// indexing every path at most once, aggregate to the same global map,
/// whatever the interleaving that produced them.
pub proof fn lemma_aggregation_order_insensitive(
    s1: Seq<(Seq<u8>, Result<Map<Seq<u8>, Seq<usize>>, IoErrKind>)>,
    s2: Seq<(Seq<u8>, Result<Map<Seq<u8>, Seq<usize>>, IoErrKind>)>,
)
    requires
        distinct_paths(s1),
        distinct_paths(s2),
        s1.to_multiset() == s2.to_multiset(),
    ensures
        agg_map(Map::<Seq<u8>, Map<Seq<u8>, Seq<usize>>>::empty(), s1) == agg_map(
            Map::<Seq<u8>, Map<Seq<u8>, Seq<usize>>>::empty(),
            s2,
        ),
{
    broadcast use vstd::seq_lib::group_to_multiset_ensures;

    assert forall|x: (Seq<u8>, Result<Map<Seq<u8>, Seq<usize>>, IoErrKind>)| #[trigger]
        s1.contains(x) implies s2.contains(x) by {
        assert(s1.to_multiset().count(x) > 0);
    }
    assert forall|x: (Seq<u8>, Result<Map<Seq<u8>, Seq<usize>>, IoErrKind>)| #[trigger]
        s2.contains(x) implies s1.contains(x) by {
        assert(s2.to_multiset().count(x) > 0);
    }
    assert forall|w: Seq<u8>, p: Seq<u8>| #[trigger]
        cell_defined(s1, w, p) implies cell_defined(s2, w, p) && cell_value(s1, w, p) == cell_value(
        s2,
        w,
        p,
    ) by {
        let x = choose|x: (Seq<u8>, Result<Map<Seq<u8>, Seq<usize>>, IoErrKind>)|
            #[trigger] s1.contains(x) && x.0 == p && x.1 is Ok && x.1->Ok_0.contains_key(w);
        assert(s2.contains(x));
        assert(cell_defined(s2, w, p));
        let y = choose|y: (Seq<u8>, Result<Map<Seq<u8>, Seq<usize>>, IoErrKind>)|
            #[trigger] s2.contains(y) && y.0 == p && y.1 is Ok && y.1->Ok_0.contains_key(w);
        assert(s1.contains(y));
        lemma_path_element_unique(s1, x, y);
    }
    assert forall|w: Seq<u8>, p: Seq<u8>| #[trigger]
        cell_defined(s2, w, p) implies cell_defined(s1, w, p) by {
        let x = choose|x: (Seq<u8>, Result<Map<Seq<u8>, Seq<usize>>, IoErrKind>)|
            #[trigger] s2.contains(x) && x.0 == p && x.1 is Ok && x.1->Ok_0.contains_key(w);
        assert(s1.contains(x));
    }
    lemma_agg_map_is_canon(s1);
    lemma_agg_map_is_canon(s2);
    assert(canon_map(s1) =~~= canon_map(s2));
}

/// Depth boundary, directory side: a directory root with a zero depth
/// budget yields an empty index and no errors, whether or not its entries
/// could even be listed.
pub proof fn lemma_depth_zero_directory(path: Seq<u8>, node: FsNode)
    requires
        node is Dir,
    ensures
        spec_index_directory(path, node, 0) == Ok::<
            (Map<Seq<u8>, Map<Seq<u8>, Seq<usize>>>, Seq<(Seq<u8>, IoErrKind)>),
            IoErrKind,
        >((Map::<Seq<u8>, Map<Seq<u8>, Seq<usize>>>::empty(), Seq::<(Seq<u8>, IoErrKind)>::empty())),
{
    let files = Seq::<(Seq<u8>, Result<Seq<u8>, IoErrKind>)>::empty();
    assert(crate::directory::outcomes_of(files) =~= Seq::<
        (Seq<u8>, Result<Map<Seq<u8>, Seq<usize>>, IoErrKind>),
    >::empty());
    assert(spec_index_directory(path, node, 0)->Ok_0.1 =~= Seq::<(Seq<u8>, IoErrKind)>::empty());
}

/// Depth boundary, file side: a readable plain file as the root yields
/// exactly that file's index under the root path, and no errors, at any
/// depth budget.
pub proof fn lemma_file_root_indexed(path: Seq<u8>, node: FsNode, depth: int)
    requires
        node is File,
        node->File_0 is Ok,
    ensures
        spec_index_directory(path, node, depth) == Ok::<
            (Map<Seq<u8>, Map<Seq<u8>, Seq<usize>>>, Seq<(Seq<u8>, IoErrKind)>),
            IoErrKind,
        >(
            (
                merge_file(
                    Map::<Seq<u8>, Map<Seq<u8>, Seq<usize>>>::empty(),
                    index_of(node->File_0->Ok_0@),
                    path,
                ),
                Seq::<(Seq<u8>, IoErrKind)>::empty(),
            ),
        ),
{
    let c = node->File_0->Ok_0@;
    let w0 = walk_root(path, node, depth);
    assert(w0->Ok_0.0 =~= seq![(path, Ok::<Seq<u8>, IoErrKind>(c))]);
    let files = w0->Ok_0.0;
    let outs = crate::directory::outcomes_of(files);
    assert(outs.len() == 1);
    assert(outs[0] == (path, Ok::<Map<Seq<u8>, Seq<usize>>, IoErrKind>(index_of(c))));
    assert(outs.drop_last().len() == 0);
    assert(agg_map(Map::<Seq<u8>, Map<Seq<u8>, Seq<usize>>>::empty(), outs.drop_last())
        == Map::<Seq<u8>, Map<Seq<u8>, Seq<usize>>>::empty());
    assert(agg_map(Map::<Seq<u8>, Map<Seq<u8>, Seq<usize>>>::empty(), outs) == merge_file(
        Map::<Seq<u8>, Map<Seq<u8>, Seq<usize>>>::empty(),
        index_of(c),
        path,
    ));
    assert(agg_errs(outs.drop_last()) =~= Seq::<(Seq<u8>, IoErrKind)>::empty());
    assert(agg_errs(outs) =~= Seq::<(Seq<u8>, IoErrKind)>::empty());
    assert(w0->Ok_0.1 + agg_errs(outs) =~= Seq::<(Seq<u8>, IoErrKind)>::empty());
}

/// Idempotence: the value owed for a tree and a depth budget is a single
/// fixed value, so any two runs over an unchanged tree are
/// value-identical.
pub proof fn lemma_rerun_identical(
    r1: crate::directory::IndexDirectoryResult,
    r2: crate::directory::IndexDirectoryResult,
    path: Seq<u8>,
    node: FsNode,
    depth: int,
)
    requires
        spec_index_directory(path, node, depth) is Ok,
        r1@ == spec_index_directory(path, node, depth)->Ok_0,
        r2@ == spec_index_directory(path, node, depth)->Ok_0,
    ensures
        r1@ == r2@,
{
}

/// Joining distinct names to the same directory path yields distinct
/// paths.
pub proof fn lemma_child_path_injective(dpath: Seq<u8>, n1: Seq<u8>, n2: Seq<u8>)
    requires
        n1 != n2,
    ensures
        child_path(dpath, n1) != child_path(dpath, n2),
{
    if child_path(dpath, n1) == child_path(dpath, n2) {
        assert(child_path(dpath, n1).len() == dpath.len() + 1 + n1.len());
        assert(child_path(dpath, n2).len() == dpath.len() + 1 + n2.len());
        assert(n1.len() == n2.len());
        assert forall|i: int| 0 <= i < n1.len() implies n1[i] == n2[i] by {
            assert(child_path(dpath, n1)[dpath.len() + 1 + i] == n1[i]);
            assert(child_path(dpath, n2)[dpath.len() + 1 + i] == n2[i]);
        }
        assert(n1 =~= n2);
    }
}

/// The file views a flat directory owes: one per entry, in order.
pub open spec fn flat_files(dpath: Seq<u8>, entries: Seq<FsEntry>) -> Seq<
    (Seq<u8>, Result<Seq<u8>, IoErrKind>),
> {
    entries.map_values(|e: FsEntry| (child_path(dpath, e.name@), content_view(e.node->File_0)))
}

/// Walking a directory whose entries are all plain files discovers each
/// of them, in entry order, and records no traversal error.
pub proof fn lemma_walk_flat(dpath: Seq<u8>, entries: Seq<FsEntry>, budget: int)
    requires
        budget >= 1,
        forall|i: int| 0 <= i < entries.len() ==> (#[trigger] entries[i].node) is File,
    ensures
        walk_entries(dpath, entries, budget).0 == flat_files(dpath, entries),
        walk_entries(dpath, entries, budget).1 == Seq::<(Seq<u8>, IoErrKind)>::empty(),
    decreases entries.len(),
{
    if entries.len() == 0 {
        assert(walk_entries(dpath, entries, budget).0 =~= flat_files(dpath, entries));
        assert(walk_entries(dpath, entries, budget).1 =~= Seq::<(Seq<u8>, IoErrKind)>::empty());
    } else {
        let t = entries.drop_last();
        assert(forall|i: int| 0 <= i < t.len() ==> t[i] == entries[i]);
        lemma_walk_flat(dpath, t, budget);
        assert(entries.last().node is File);
        assert(flat_files(dpath, t) =~= flat_files(dpath, entries).drop_last());
        assert(walk_entries(dpath, entries, budget).0 =~= flat_files(dpath, entries));
        assert(walk_entries(dpath, entries, budget).1 =~= Seq::<(Seq<u8>, IoErrKind)>::empty());
    }
}

/// A result stream whose outcomes all succeeded contributes no error
/// record.
pub proof fn lemma_agg_errs_none(s: Seq<(Seq<u8>, Result<Map<Seq<u8>, Seq<usize>>, IoErrKind>)>)
    requires
        forall|i: int| 0 <= i < s.len() ==> (#[trigger] s[i].1) is Ok,
    ensures
        agg_errs(s) == Seq::<(Seq<u8>, IoErrKind)>::empty(),
    decreases s.len(),
{
    if s.len() > 0 {
        let t = s.drop_last();
        assert(forall|i: int| 0 <= i < t.len() ==> t[i] == s[i]);
        lemma_agg_errs_none(t);
        assert(s.last().1 is Ok);
        assert(agg_errs(s) =~= Seq::<(Seq<u8>, IoErrKind)>::empty());
    } else {
        assert(agg_errs(s) =~= Seq::<(Seq<u8>, IoErrKind)>::empty());
    }
}

/// A result stream with exactly one failed outcome contributes exactly
/// one error record, for that outcome's path.
pub proof fn lemma_agg_errs_single(
    s: Seq<(Seq<u8>, Result<Map<Seq<u8>, Seq<usize>>, IoErrKind>)>,
    k: int,
)
    requires
        0 <= k < s.len(),
        s[k].1 is Err,
        forall|i: int| 0 <= i < s.len() && i != k ==> (#[trigger] s[i].1) is Ok,
    ensures
        agg_errs(s) == seq![(s[k].0, s[k].1->Err_0)],
    decreases s.len(),
{
    let t = s.drop_last();
    assert(forall|i: int| 0 <= i < t.len() ==> t[i] == s[i]);
    if k == s.len() - 1 {
        lemma_agg_errs_none(t);
        assert(agg_errs(s) =~= seq![(s[k].0, s[k].1->Err_0)]);
    } else {
        lemma_agg_errs_single(t, k);
        assert(s.last().1 is Ok);
        assert(agg_errs(s) =~= seq![(s[k].0, s[k].1->Err_0)]);
    }
}

/// Partial failure: in a directory of plain files, distinctly named,
/// where exactly one file is unreadable, the result carries exactly one
/// error record, for that file's path, and the index still holds every
/// word of every readable file with that file's offsets.
pub proof fn lemma_partial_failure(path: Seq<u8>, v: Vec<FsEntry>, depth: int, k: int)
    requires
        depth >= 1,
        0 <= k < v@.len(),
        forall|i: int| 0 <= i < v@.len() ==> (#[trigger] v@[i].node) is File,
        v@[k].node->File_0 is Err,
        forall|i: int| 0 <= i < v@.len() && i != k ==> (#[trigger] v@[i].node)->File_0 is Ok,
        forall|i: int, j: int| 0 <= i < j < v@.len() ==> v@[i].name@ != v@[j].name@,
    ensures
        spec_index_directory(path, FsNode::Dir(Ok(v)), depth) is Ok,
        spec_index_directory(path, FsNode::Dir(Ok(v)), depth)->Ok_0.1 == seq![
            (child_path(path, v@[k].name@), v@[k].node->File_0->Err_0),
        ],
        forall|i: int, w: Seq<u8>|
            0 <= i < v@.len() && i != k && #[trigger] index_of(
                v@[i].node->File_0->Ok_0@,
            ).contains_key(w) ==> spec_index_directory(
                path,
                FsNode::Dir(Ok(v)),
                depth,
            )->Ok_0.0.contains_key(w) && spec_index_directory(
                path,
                FsNode::Dir(Ok(v)),
                depth,
            )->Ok_0.0[w].contains_key(child_path(path, v@[i].name@)) && spec_index_directory(
                path,
                FsNode::Dir(Ok(v)),
                depth,
            )->Ok_0.0[w][child_path(path, v@[i].name@)] == index_of(v@[i].node->File_0->Ok_0@)[w],
{
    let entries = v@;
    lemma_walk_flat(path, entries, depth);
    let files = walk_entries(path, entries, depth).0;
    let outs = crate::directory::outcomes_of(files);
    assert(outs.len() == entries.len());
    assert forall|i: int| 0 <= i < entries.len() implies #[trigger] outs[i].0 == child_path(
        path,
        entries[i].name@,
    ) by {
        assert(files[i] == (child_path(path, entries[i].name@), content_view(
            entries[i].node->File_0,
        )));
    }
    assert(distinct_paths(outs)) by {
        assert forall|i: int, j: int| 0 <= i < j < outs.len() implies outs[i].0 != outs[j].0 by {
            lemma_child_path_injective(path, entries[i].name@, entries[j].name@);
        }
    }
    assert forall|i: int| 0 <= i < entries.len() && i != k implies (#[trigger] outs[i]).1 == Ok::<
        Map<Seq<u8>, Seq<usize>>,
        IoErrKind,
    >(index_of(entries[i].node->File_0->Ok_0@)) by {
        assert(files[i] == (child_path(path, entries[i].name@), content_view(
            entries[i].node->File_0,
        )));
    }
    assert(outs[k] == (child_path(path, entries[k].name@), Err::<Map<Seq<u8>, Seq<usize>>, IoErrKind>(
        entries[k].node->File_0->Err_0,
    ))) by {
        assert(files[k] == (child_path(path, entries[k].name@), content_view(
            entries[k].node->File_0,
        )));
    }
    lemma_agg_errs_single(outs, k);
    assert(spec_index_directory(path, FsNode::Dir(Ok(v)), depth)->Ok_0.1 =~= seq![
        (child_path(path, entries[k].name@), entries[k].node->File_0->Err_0),
    ]);
    lemma_agg_map_is_canon(outs);
    let g = canon_map(outs);
    assert forall|i: int, w: Seq<u8>|
        0 <= i < entries.len() && i != k && #[trigger] index_of(
            entries[i].node->File_0->Ok_0@,
        ).contains_key(w) implies g.contains_key(w) && g[w].contains_key(child_path(
        path,
        entries[i].name@,
    )) && g[w][child_path(path, entries[i].name@)] == index_of(entries[i].node->File_0->Ok_0@)[w] by {
        let cp = child_path(path, entries[i].name@);
        let x = outs[i];
        assert(outs.contains(x));
        assert(x.0 == cp && x.1 is Ok && x.1->Ok_0.contains_key(w));
        assert(cell_defined(outs, w, cp));
        let y = choose|y: (Seq<u8>, Result<Map<Seq<u8>, Seq<usize>>, IoErrKind>)|
            #[trigger] outs.contains(y) && y.0 == cp && y.1 is Ok && y.1->Ok_0.contains_key(w);
        lemma_path_element_unique(outs, y, x);
        assert(cell_value(outs, w, cp) == index_of(entries[i].node->File_0->Ok_0@)[w]);
    }
}

/// The starts of all tokens of `s` below `n`, ascending.
pub open spec fn token_starts_upto(s: Seq<u8>, n: int) -> Seq<int>
    decreases n,
{
    if n <= 0 {
        Seq::empty()
    } else if starts_token(s, n - 1) {
        token_starts_upto(s, n - 1).push(n - 1)
    } else {
        token_starts_upto(s, n - 1)
    }
}

/// The starts of all tokens of `s`, ascending: the offset of the first
/// byte of each token, first token first.
pub open spec fn token_starts(s: Seq<u8>) -> Seq<int> {
    token_starts_upto(s, s.len() as int)
}

/// The words joined into one text with a single space between each pair.
pub open spec fn join_words(ws: Seq<Seq<u8>>) -> Seq<u8>
    decreases ws.len(),
{
    if ws.len() == 0 {
        Seq::empty()
    } else if ws.len() == 1 {
        ws[0]
    } else {
        join_words(ws.drop_last()) + seq![32u8] + ws.last()
    }
}

/// A word fit for joining: nonempty and free of whitespace bytes.
pub open spec fn no_ws_word(w: Seq<u8>) -> bool {
    w.len() > 0 && forall|i: int| 0 <= i < w.len() ==> !is_ws(#[trigger] w[i])
}

pub open spec fn sum_lens(ws: Seq<Seq<u8>>) -> int
    decreases ws.len(),
{
    if ws.len() == 0 {
        0
    } else {
        sum_lens(ws.drop_last()) + ws.last().len()
    }
}

/// The offset the law predicts for the token at position `n`: the summed
/// lengths of the preceding tokens plus one byte per separating space.
pub open spec fn predicted_offset(ws: Seq<Seq<u8>>, n: int) -> int {
    sum_lens(ws.take(n)) + n
}

proof fn lemma_token_end_bounds(s: Seq<u8>, i: int)
    requires
        0 <= i <= s.len(),
    ensures
        i <= token_end(s, i) <= s.len(),
    decreases s.len() - i,
{
    if i < s.len() && !is_ws(s[i]) {
        lemma_token_end_bounds(s, i + 1);
    }
}

/// Token ends within a text agree with those of any extension by a
/// whitespace byte and more.
proof fn lemma_token_end_agree(s1: Seq<u8>, s2: Seq<u8>, i: int)
    requires
        0 <= i <= s1.len(),
        s1.len() < s2.len(),
        is_ws(s2[s1.len() as int]),
        forall|j: int| 0 <= j < s1.len() ==> s2[j] == s1[j],
    ensures
        token_end(s2, i) == token_end(s1, i),
    decreases s1.len() - i,
{
    if i == s1.len() {
    } else if is_ws(s1[i]) {
    } else {
        lemma_token_end_agree(s1, s2, i + 1);
    }
}

proof fn lemma_starts_upto_agree(s1: Seq<u8>, s2: Seq<u8>, m: int)
    requires
        0 <= m,
        forall|i: int| 0 <= i < m ==> (starts_token(s1, i) <==> starts_token(s2, i)),
    ensures
        token_starts_upto(s2, m) == token_starts_upto(s1, m),
    decreases m,
{
    if m > 0 {
        lemma_starts_upto_agree(s1, s2, m - 1);
        assert(token_starts_upto(s2, m) =~= token_starts_upto(s1, m));
    }
}

proof fn lemma_starts_upto_constant(s: Seq<u8>, a: int, b: int)
    requires
        0 <= a <= b,
        forall|j: int| a <= j < b ==> !starts_token(s, j),
    ensures
        token_starts_upto(s, b) == token_starts_upto(s, a),
    decreases b - a,
{
    if b > a {
        lemma_starts_upto_constant(s, a, b - 1);
        assert(!starts_token(s, b - 1));
    }
}

/// The token layout of words joined by single spaces: there are exactly
/// as many tokens as words, the token at position `n` is the word at
/// position `n`, and it starts at the predicted offset.
pub proof fn lemma_join_words_structure(ws: Seq<Seq<u8>>)
    requires
        forall|i: int| 0 <= i < ws.len() ==> no_ws_word(#[trigger] ws[i]),
    ensures
        join_words(ws).len() == (if ws.len() == 0 {
            0int
        } else {
            sum_lens(ws) + ws.len() - 1
        }),
        token_starts(join_words(ws)).len() == ws.len(),
        forall|n: int|
            0 <= n < ws.len() ==> #[trigger] token_starts(join_words(ws))[n] == predicted_offset(
                ws,
                n,
            ),
        forall|n: int|
            0 <= n < ws.len() ==> starts_token(join_words(ws), #[trigger] predicted_offset(ws, n)),
        forall|n: int|
            0 <= n < ws.len() ==> token_at(join_words(ws), #[trigger] predicted_offset(ws, n))
                == ws[n],
    decreases ws.len(),
{
    if ws.len() == 0 {
        assert(token_starts_upto(join_words(ws), 0) =~= Seq::<int>::empty());
    } else if ws.len() == 1 {
        let s = ws[0];
        assert(join_words(ws) == s);
        assert(no_ws_word(s));
        assert(starts_token(s, 0));
        assert forall|j: int| 1 <= j < s.len() implies !starts_token(s, j) by {
            assert(!is_ws(s[j - 1]));
        }
        lemma_starts_upto_constant(s, 1, s.len() as int);
        assert(token_starts_upto(s, 0) =~= Seq::<int>::empty());
        assert(token_starts_upto(s, 1) =~= Seq::<int>::empty().push(0));
        assert(ws.take(0) =~= Seq::<Seq<u8>>::empty());
        assert(predicted_offset(ws, 0) == 0);
        assert(token_starts(s) =~= seq![0int]);
        lemma_token_end_scan(s, 0, s.len() as int);
        assert(token_at(s, 0) =~= s);
    } else {
        let t = ws.drop_last();
        let w = ws.last();
        let s1 = join_words(t);
        let s2 = join_words(ws);
        assert(forall|i: int| 0 <= i < t.len() ==> t[i] == ws[i]);
        lemma_join_words_structure(t);
        assert(s2 == s1 + seq![32u8] + w);
        let base = s1.len() as int;
        assert(s2.len() == base + 1 + w.len());
        assert(s2[base] == 32u8);
        assert(sum_lens(ws) == sum_lens(t) + w.len());
        assert(forall|j: int| 0 <= j < base ==> s2[j] == s1[j]);
        // The prefix keeps its token starts, the space is none, the new
        // word starts right after it and runs to the end.
        assert forall|i: int| 0 <= i < base implies (starts_token(s1, i) <==> starts_token(
            s2,
            i,
        )) by {
            assert(s2[i] == s1[i]);
            if i > 0 {
                assert(s2[i - 1] == s1[i - 1]);
            }
        }
        lemma_starts_upto_agree(s1, s2, base);
        assert(!starts_token(s2, base));
        assert(starts_token(s2, base + 1)) by {
            assert(s2[base + 1] == w[0]);
            assert(no_ws_word(w));
        }
        assert(token_starts_upto(s2, base + 1) =~= token_starts_upto(s1, base));
        assert(token_starts_upto(s2, base + 2) =~= token_starts(s1).push(base + 1));
        assert forall|j: int| base + 2 <= j < s2.len() implies !starts_token(s2, j) by {
            assert(s2[j - 1] == w[j - base - 2]);
            assert(no_ws_word(w));
        }
        lemma_starts_upto_constant(s2, base + 2, s2.len() as int);
        assert(token_starts(s2) =~= token_starts(s1).push(base + 1));
        // Predicted offsets agree with the shorter text for the old words
        // and name the byte after the space for the new one.
        assert forall|n: int| 0 <= n < t.len() implies #[trigger] predicted_offset(ws, n)
            == predicted_offset(t, n) by {
            assert(ws.take(n) =~= t.take(n));
        }
        assert(ws.take(t.len() as int) =~= t);
        assert(predicted_offset(ws, t.len() as int) == sum_lens(t) + t.len());
        assert(predicted_offset(ws, t.len() as int) == base + 1);
        assert forall|n: int| 0 <= n < ws.len() implies #[trigger] token_starts(s2)[n]
            == predicted_offset(ws, n) && starts_token(s2, predicted_offset(ws, n)) by {
            if n < t.len() {
                assert(token_starts(s2)[n] == token_starts(s1)[n]);
                assert(starts_token(s1, predicted_offset(t, n)));
                assert(0 <= predicted_offset(t, n) < base);
            } else {
                assert(token_starts(s2)[n] == base + 1);
            }
        }
        // Each old token keeps its extent; the new word is the final
        // token.
        assert forall|n: int| 0 <= n < ws.len() implies token_at(s2, #[trigger] predicted_offset(
            ws,
            n,
        )) == ws[n] by {
            if n < t.len() {
                let p = predicted_offset(t, n);
                assert(token_at(s1, p) == t[n]);
                assert(starts_token(s1, p));
                lemma_token_end_bounds(s1, p);
                lemma_token_end_agree(s1, s2, p);
                assert(token_at(s2, p) =~= token_at(s1, p));
            } else {
                assert(forall|j: int| base + 1 <= j < s2.len() ==> s2[j] == w[j - base - 1]);
                assert(forall|j: int| base + 1 <= j < s2.len() ==> !is_ws(s2[j]));
                lemma_token_end_scan(s2, base + 1, s2.len() as int);
                assert(token_at(s2, base + 1) =~= w);
            }
        }
    }
}

proof fn lemma_word_offsets_contains(s: Seq<u8>, w: Seq<u8>, i: int, m: int)
    requires
        0 <= i < m,
        starts_token(s, i),
        token_at(s, i) == w,
    ensures
        word_offsets_upto(s, w, m).contains(i as usize),
    decreases m,
{
    if m - 1 == i {
        let t = word_offsets_upto(s, w, m);
        assert(t == word_offsets_upto(s, w, i).push(i as usize));
        assert(t[t.len() - 1] == i as usize);
    } else {
        lemma_word_offsets_contains(s, w, i, m - 1);
        let t = word_offsets_upto(s, w, m - 1);
        let idx = choose|idx: int| 0 <= idx < t.len() && t[idx] == i as usize;
        if starts_token(s, m - 1) && token_at(s, m - 1) == w {
            assert(word_offsets_upto(s, w, m)[idx] == i as usize);
        } else {
            assert(word_offsets_upto(s, w, m)[idx] == i as usize);
        }
    }
}

/// For a text whose tokens are separated by exactly one space and which
/// begins with a non-whitespace byte, the offset of the token at
/// position `n` equals the summed lengths of the preceding tokens plus
/// one byte for each of the `n` separating spaces before it; the
/// tokenizer's index of that text records this offset for the word at
/// position `n`.
pub proof fn lemma_single_space_offsets(ws: Seq<Seq<u8>>, n: int)
    requires
        forall|i: int| 0 <= i < ws.len() ==> no_ws_word(#[trigger] ws[i]),
        0 <= n < ws.len(),
    ensures
        token_starts(join_words(ws)).len() == ws.len(),
        token_starts(join_words(ws))[n] == sum_lens(ws.take(n)) + n,
        token_at(join_words(ws), sum_lens(ws.take(n)) + n) == ws[n],
        index_of(join_words(ws)).contains_key(ws[n]),
        index_of(join_words(ws))[ws[n]].contains((sum_lens(ws.take(n)) + n) as usize),
{
    lemma_join_words_structure(ws);
    let s = join_words(ws);
    let p = predicted_offset(ws, n);
    assert(p == sum_lens(ws.take(n)) + n);
    assert(token_starts(s)[n] == p);
    assert(token_at(s, p) == ws[n]);
    assert(starts_token(s, p));
    lemma_word_offsets_contains(s, ws[n], p, s.len() as int);
    assert(word_offsets_upto(s, ws[n], s.len() as int).len() > 0);
    assert(index_of(s).contains_key(ws[n]));
    assert(index_of(s)[ws[n]] == word_offsets_upto(s, ws[n], s.len() as int));
}

} // verus!

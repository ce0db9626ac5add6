//! The index data model: a per-file word -> offsets index, the global
//! word -> path -> offsets index, and the verified merge of one into the
//! other.

use vstd::prelude::*;
use crate::assoc::assoc_map;
use crate::assoc::distinct_keys;
use crate::assoc::lemma_assoc_map_domain;
use crate::assoc::lemma_assoc_map_index;
use crate::assoc::lemma_assoc_map_push;
use crate::assoc::lemma_assoc_map_update;
use crate::util::copy_bytes;
use crate::util::vec_u8_eq;

verus! {

/// One word of a file with the ordered byte offsets of its occurrences.
#[derive(Debug, PartialEq)]
pub struct WordOffsets {
    pub word: Vec<u8>,
    pub offsets: Vec<usize>,
}

/// The pairs an entry list denotes.
pub open spec fn fi_pairs(s: Seq<WordOffsets>) -> Seq<(Seq<u8>, Seq<usize>)> {
    s.map_values(|e: WordOffsets| (e.word@, e.offsets@))
}

/// Per-file index: each word of the file mapped to the ascending byte
/// offsets of its occurrences.
#[derive(Debug, PartialEq)]
pub struct FileIndex {
    pub entries: Vec<WordOffsets>,
}

impl View for FileIndex {
    type V = Map<Seq<u8>, Seq<usize>>;

    open spec fn view(&self) -> Map<Seq<u8>, Seq<usize>> {
        assoc_map(fi_pairs(self.entries@))
    }
}

impl FileIndex {
    /// Words are pairwise distinct and no word has zero occurrences.
    pub open spec fn wf(&self) -> bool {
        &&& distinct_keys(fi_pairs(self.entries@))
        &&& forall|i: int| 0 <= i < self.entries@.len() ==> self.entries@[i].offsets@.len() > 0
    }

    pub fn new() -> (r: FileIndex)
        ensures
            r.wf(),
            r@ == Map::<Seq<u8>, Seq<usize>>::empty(),
    {
        FileIndex { entries: Vec::new() }
    }

    fn find_word(&self, word: &Vec<u8>) -> (r: Option<usize>)
        ensures
            match r {
                Some(k) => k < self.entries@.len() && self.entries@[k as int].word@ == word@,
                None => forall|j: int|
                    0 <= j < self.entries@.len() ==> self.entries@[j].word@ != word@,
            },
    {
        let mut k: usize = 0;
        while k < self.entries.len()
            invariant
                k <= self.entries@.len(),
                forall|j: int| 0 <= j < k ==> self.entries@[j].word@ != word@,
            decreases self.entries@.len() - k,
        {
            if vec_u8_eq(&self.entries[k].word, word) {
                return Some(k);
            }
            k += 1;
        }
        None
    }

    /// Appends `offset` to `word`'s offset list, creating the entry if the
    /// word is new.
    pub fn push_offset(&mut self, word: &Vec<u8>, offset: usize)
        requires
            old(self).wf(),
        ensures
            final(self).wf(),
            final(self)@ == (if old(self)@.contains_key(word@) {
                old(self)@.insert(word@, old(self)@[word@].push(offset))
            } else {
                old(self)@.insert(word@, seq![offset])
            }),
    {
        let ghost pairs0 = fi_pairs(self.entries@);
        proof {
            lemma_assoc_map_domain(pairs0);
        }
        match self.find_word(word) {
            Some(k) => {
                let mut e = self.entries.remove(k);
                e.offsets.push(offset);
                self.entries.insert(k, e);
                proof {
                    assert(pairs0[k as int].0 == word@);
                    assert(fi_pairs(self.entries@) =~= pairs0.update(
                        k as int,
                        (word@, pairs0[k as int].1.push(offset)),
                    ));
                    lemma_assoc_map_index(pairs0, k as int);
                    lemma_assoc_map_update(pairs0, k as int, pairs0[k as int].1.push(offset));
                    assert(old(self)@.contains_key(word@));
                }
            },
            None => {
                let w = copy_bytes(word);
                let mut offs: Vec<usize> = Vec::new();
                offs.push(offset);
                self.entries.push(WordOffsets { word: w, offsets: offs });
                proof {
                    assert(fi_pairs(self.entries@) =~= pairs0.push((word@, seq![offset])));
                    lemma_assoc_map_push(pairs0, word@, seq![offset]);
                    assert(!old(self)@.contains_key(word@));
                }
            },
        }
    }

    /// The offset list recorded for `word`, if the word occurs.
    pub fn get(&self, word: &Vec<u8>) -> (r: Option<&Vec<usize>>)
        requires
            self.wf(),
        ensures
            match r {
                Some(v) => self@.contains_key(word@) && v@ == self@[word@],
                None => !self@.contains_key(word@),
            },
    {
        proof {
            lemma_assoc_map_domain(fi_pairs(self.entries@));
        }
        match self.find_word(word) {
            Some(k) => {
                proof {
                    lemma_assoc_map_index(fi_pairs(self.entries@), k as int);
                }
                Some(&self.entries[k].offsets)
            },
            None => None,
        }
    }

    /// Whether the index holds no word at all.
    pub fn is_empty(&self) -> (r: bool)
        ensures
            r == (self@.dom() =~= Set::<Seq<u8>>::empty()),
    {
        proof {
            lemma_assoc_map_domain(fi_pairs(self.entries@));
            if self.entries@.len() > 0 {
                assert(fi_pairs(self.entries@)[0].0 == self.entries@[0].word@);
                assert(self@.contains_key(self.entries@[0].word@));
            }
        }
        self.entries.len() == 0
    }

    /// The number of distinct words in the index.
    pub fn word_count(&self) -> (r: usize)
        requires
            self.wf(),
        ensures
            r == self.entries@.len(),
    {
        self.entries.len()
    }
}

/// The offsets recorded for one (word, path) cell of the global index.
#[derive(Debug, PartialEq)]
pub struct PathOffsets {
    pub path: Vec<u8>,
    pub offsets: Vec<usize>,
}

/// One word of the global index with its per-file offset lists.
#[derive(Debug, PartialEq)]
pub struct WordFiles {
    pub word: Vec<u8>,
    pub files: Vec<PathOffsets>,
}

pub open spec fn po_pairs(s: Seq<PathOffsets>) -> Seq<(Seq<u8>, Seq<usize>)> {
    s.map_values(|p: PathOffsets| (p.path@, p.offsets@))
}

pub open spec fn gi_pairs(s: Seq<WordFiles>) -> Seq<(Seq<u8>, Map<Seq<u8>, Seq<usize>>)> {
    s.map_values(|e: WordFiles| (e.word@, assoc_map(po_pairs(e.files@))))
}

/// Global index: each word mapped to the paths it occurs in, each path
/// mapped to the offsets within that file.
#[derive(Debug, PartialEq)]
pub struct GlobalIndex {
    pub entries: Vec<WordFiles>,
}

impl View for GlobalIndex {
    type V = Map<Seq<u8>, Map<Seq<u8>, Seq<usize>>>;

    open spec fn view(&self) -> Map<Seq<u8>, Map<Seq<u8>, Seq<usize>>> {
        assoc_map(gi_pairs(self.entries@))
    }
}

impl GlobalIndex {
    /// Words are pairwise distinct, and so are the paths under each word.
    pub open spec fn wf(&self) -> bool {
        &&& distinct_keys(gi_pairs(self.entries@))
        &&& forall|i: int|
            0 <= i < self.entries@.len() ==> distinct_keys(po_pairs(
                #[trigger] self.entries@[i].files@,
            ))
    }

    pub fn new() -> (r: GlobalIndex)
        ensures
            r.wf(),
            r@ == Map::<Seq<u8>, Map<Seq<u8>, Seq<usize>>>::empty(),
    {
        GlobalIndex { entries: Vec::new() }
    }

    fn find_word(&self, word: &Vec<u8>) -> (r: Option<usize>)
        ensures
            match r {
                Some(k) => k < self.entries@.len() && self.entries@[k as int].word@ == word@,
                None => forall|j: int|
                    0 <= j < self.entries@.len() ==> self.entries@[j].word@ != word@,
            },
    {
        let mut k: usize = 0;
        while k < self.entries.len()
            invariant
                k <= self.entries@.len(),
                forall|j: int| 0 <= j < k ==> self.entries@[j].word@ != word@,
            decreases self.entries@.len() - k,
        {
            if vec_u8_eq(&self.entries[k].word, word) {
                return Some(k);
            }
            k += 1;
        }
        None
    }

    fn find_path(files: &Vec<PathOffsets>, path: &Vec<u8>) -> (r: Option<usize>)
        ensures
            match r {
                Some(k) => k < files@.len() && files@[k as int].path@ == path@,
                None => forall|j: int| 0 <= j < files@.len() ==> files@[j].path@ != path@,
            },
    {
        let mut k: usize = 0;
        while k < files.len()
            invariant
                k <= files@.len(),
                forall|j: int| 0 <= j < k ==> files@[j].path@ != path@,
            decreases files@.len() - k,
        {
            if vec_u8_eq(&files[k].path, path) {
                return Some(k);
            }
            k += 1;
        }
        None
    }

    /// Records `offsets` for the cell (`word`, `path`), overwriting any
    /// offsets that cell held before.
    pub fn insert_offsets(&mut self, word: &Vec<u8>, path: &Vec<u8>, offsets: Vec<usize>)
        requires
            old(self).wf(),
        ensures
            final(self).wf(),
            final(self)@ == old(self)@.insert(
                word@,
                (if old(self)@.contains_key(word@) {
                    old(self)@[word@]
                } else {
                    Map::<Seq<u8>, Seq<usize>>::empty()
                }).insert(path@, offsets@),
            ),
    {
        let ghost pairs0 = gi_pairs(self.entries@);
        let ghost offs = offsets@;
        proof {
            lemma_assoc_map_domain(pairs0);
        }
        match self.find_word(word) {
            Some(k) => {
                let mut e = self.entries.remove(k);
                let ghost files0 = po_pairs(e.files@);
                proof {
                    lemma_assoc_map_domain(files0);
                    lemma_assoc_map_index(pairs0, k as int);
                }
                match Self::find_path(&e.files, path) {
                    Some(j) => {
                        let mut cell = e.files.remove(j);
                        cell.offsets = offsets;
                        e.files.insert(j, cell);
                        proof {
                            assert(files0[j as int].0 == path@);
                            assert(po_pairs(e.files@) =~= files0.update(j as int, (path@, offs)));
                            lemma_assoc_map_update(files0, j as int, offs);
                        }
                    },
                    None => {
                        let cell = PathOffsets { path: copy_bytes(path), offsets };
                        e.files.push(cell);
                        proof {
                            assert(po_pairs(e.files@) =~= files0.push((path@, offs)));
                            lemma_assoc_map_push(files0, path@, offs);
                        }
                    },
                }
                let ghost inner = assoc_map(po_pairs(e.files@));
                self.entries.insert(k, e);
                proof {
                    assert(gi_pairs(self.entries@) =~= pairs0.update(k as int, (word@, inner)));
                    lemma_assoc_map_update(pairs0, k as int, inner);
                    assert(old(self)@.contains_key(word@));
                    assert(inner == old(self)@[word@].insert(path@, offs));
                }
            },
            None => {
                let mut files: Vec<PathOffsets> = Vec::new();
                files.push(PathOffsets { path: copy_bytes(path), offsets });
                let ghost files1 = po_pairs(files@);
                proof {
                    assert(files1 =~= Seq::<(Seq<u8>, Seq<usize>)>::empty().push((path@, offs)));
                    lemma_assoc_map_push(Seq::<(Seq<u8>, Seq<usize>)>::empty(), path@, offs);
                    assert(assoc_map(files1) == Map::<Seq<u8>, Seq<usize>>::empty().insert(
                        path@,
                        offs,
                    ));
                }
                let ghost inner = assoc_map(files1);
                self.entries.push(WordFiles { word: copy_bytes(word), files });
                proof {
                    assert(gi_pairs(self.entries@) =~= pairs0.push((word@, inner)));
                    lemma_assoc_map_push(pairs0, word@, inner);
                    assert(!old(self)@.contains_key(word@));
                }
            },
        }
    }

    /// The per-path offset lists recorded for `word`, if any path holds it.
    pub fn get_word(&self, word: &Vec<u8>) -> (r: Option<&Vec<PathOffsets>>)
        requires
            self.wf(),
        ensures
            match r {
                Some(v) => self@.contains_key(word@) && assoc_map(po_pairs(v@)) == self@[word@],
                None => !self@.contains_key(word@),
            },
    {
        proof {
            lemma_assoc_map_domain(gi_pairs(self.entries@));
        }
        match self.find_word(word) {
            Some(k) => {
                proof {
                    lemma_assoc_map_index(gi_pairs(self.entries@), k as int);
                }
                Some(&self.entries[k].files)
            },
            None => None,
        }
    }

    /// The offsets recorded for `word` within the file at `path`, if any.
    pub fn get_offsets(&self, word: &Vec<u8>, path: &Vec<u8>) -> (r: Option<&Vec<usize>>)
        requires
            self.wf(),
        ensures
            match r {
                Some(v) => self@.contains_key(word@) && self@[word@].contains_key(path@) && v@
                    == self@[word@][path@],
                None => !self@.contains_key(word@) || !self@[word@].contains_key(path@),
            },
    {
        proof {
            lemma_assoc_map_domain(gi_pairs(self.entries@));
        }
        match self.find_word(word) {
            Some(k) => {
                proof {
                    lemma_assoc_map_index(gi_pairs(self.entries@), k as int);
                    lemma_assoc_map_domain(po_pairs(self.entries@[k as int].files@));
                }
                match Self::find_path(&self.entries[k].files, path) {
                    Some(j) => {
                        proof {
                            lemma_assoc_map_index(po_pairs(self.entries@[k as int].files@), j as int);
                        }
                        Some(&self.entries[k].files[j].offsets)
                    },
                    None => None,
                }
            },
            None => None,
        }
    }

    /// The number of distinct words in the global index.
    pub fn word_count(&self) -> (r: usize)
        ensures
            r == self.entries@.len(),
    {
        self.entries.len()
    }
}

/// The global map after one file's index `fi` is merged under `path`:
/// each word of `fi` gains (or overwrites) the cell for `path`, every
/// other cell is kept.
pub open spec fn merge_file(
    g: Map<Seq<u8>, Map<Seq<u8>, Seq<usize>>>,
    fi: Map<Seq<u8>, Seq<usize>>,
    path: Seq<u8>,
) -> Map<Seq<u8>, Map<Seq<u8>, Seq<usize>>> {
    Map::new(
        |w: Seq<u8>| g.contains_key(w) || fi.contains_key(w),
        |w: Seq<u8>|
            if fi.contains_key(w) {
                (if g.contains_key(w) {
                    g[w]
                } else {
                    Map::<Seq<u8>, Seq<usize>>::empty()
                }).insert(path, fi[w])
            } else {
                g[w]
            },
    )
}

/// `merge_file` carried out one word entry at a time, as the executable
/// merge does.
pub open spec fn merge_entries(
    g: Map<Seq<u8>, Map<Seq<u8>, Seq<usize>>>,
    s: Seq<(Seq<u8>, Seq<usize>)>,
    path: Seq<u8>,
) -> Map<Seq<u8>, Map<Seq<u8>, Seq<usize>>>
    decreases s.len(),
{
    if s.len() == 0 {
        g
    } else {
        let prev = merge_entries(g, s.drop_last(), path);
        let w = s.last().0;
        let inner = if prev.contains_key(w) {
            prev[w]
        } else {
            Map::<Seq<u8>, Seq<usize>>::empty()
        };
        prev.insert(w, inner.insert(path, s.last().1))
    }
}

/// Merging entry by entry reaches `merge_file` of the denoted index.
pub proof fn lemma_merge_entries_is_merge_file(
    g: Map<Seq<u8>, Map<Seq<u8>, Seq<usize>>>,
    s: Seq<(Seq<u8>, Seq<usize>)>,
    path: Seq<u8>,
)
    requires
        distinct_keys(s),
    ensures
        merge_entries(g, s, path) == merge_file(g, assoc_map(s), path),
    decreases s.len(),
{
    if s.len() == 0 {
        assert(merge_entries(g, s, path) =~= merge_file(g, assoc_map(s), path));
    } else {
        let t = s.drop_last();
        assert(distinct_keys(t)) by {
            assert(forall|i: int, j: int| 0 <= i < j < t.len() ==> t[i].0 == s[i].0 && t[j].0 == s[j].0);
        }
        lemma_merge_entries_is_merge_file(g, t, path);
        lemma_assoc_map_domain(t);
        assert(forall|j: int| 0 <= j < t.len() ==> t[j].0 != s.last().0);
        assert(!assoc_map(t).contains_key(s.last().0));
        lemma_assoc_map_index(s, s.len() - 1);
        assert(merge_entries(g, s, path) =~= merge_file(g, assoc_map(s), path));
    }
}

/// Merges `src`, the index of the file at `filename`, into `dest`: for
/// every word of `src` the cell (`word`, `filename`) is set to that word's
/// offsets, and no other cell changes.
pub fn process_map(dest: &mut GlobalIndex, src: &FileIndex, filename: &Vec<u8>)
    requires
        old(dest).wf(),
        src.wf(),
    ensures
        final(dest).wf(),
        final(dest)@ == merge_file(old(dest)@, src@, filename@),
{
    let ghost g0 = dest@;
    let ghost pairs = fi_pairs(src.entries@);
    let mut j: usize = 0;
    while j < src.entries.len()
        invariant
            dest.wf(),
            src.wf(),
            j <= src.entries@.len(),
            pairs == fi_pairs(src.entries@),
            dest@ == merge_entries(g0, pairs.take(j as int), filename@),
        decreases src.entries@.len() - j,
    {
        let ghost pre = pairs.take(j as int);
        let ghost post = pairs.take(j as int + 1);
        proof {
            assert(post.drop_last() =~= pre);
            assert(post.last() == pairs[j as int]);
        }
        let e = &src.entries[j];
        let offs = crate::util::copy_offsets(&e.offsets);
        dest.insert_offsets(&e.word, filename, offs);
        j += 1;
    }
    proof {
        assert(pairs.take(src.entries@.len() as int) =~= pairs);
        lemma_merge_entries_is_merge_file(g0, pairs, filename@);
    }
}

} // verus!

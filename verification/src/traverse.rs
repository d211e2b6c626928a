//! Depth-annotated traversal over a parsed tree, and path search.
//!
//! The traversal is depth-first and yields an entry before any of its
//! descendants, but sibling order is *not* preserved: files of a
//! directory are exhausted before any of its subdirectories is
//! expanded, and pending directories are expanded last-discovered
//! first, so sibling directories appear in the reverse of their
//! declaration order.  Path search depends only on the depth
//! transitions of that order, never on sibling order.
//!
//! The whole remaining output of a traversal state is defined by the
//! spec function [`spec_yields`]; `FsTraversal::next` returns exactly
//! the head of that sequence.

use vstd::prelude::*;

use std::collections::VecDeque;

use crate::bytes::bytes_eq;
use crate::nitro::{lemma_entries_view, DirV, Directory, Entry, EntryV};
use vstd::multiset::Multiset;

verus! {

/// The number of entries of the subtree rooted at `e`, the entry
/// itself included.
pub open spec fn entry_size(e: EntryV) -> nat
    decreases e,
{
    match e {
        EntryV::File(_) => 1,
        EntryV::Directory(d) => 1 + entries_size(d.entries),
    }
}

/// The total number of entries of the subtrees rooted at `s`.
pub open spec fn entries_size(s: Seq<EntryV>) -> nat
    decreases s,
{
    if s.len() <= 0 {
        0
    } else {
        entry_size(s[0]) + entries_size(s.drop_first())
    }
}

/// The file children of `s`, in declaration order.
pub open spec fn file_children(s: Seq<EntryV>) -> Seq<EntryV>
    decreases s,
{
    if s.len() <= 0 {
        Seq::empty()
    } else {
        (if s[0] is File {
            seq![s[0]]
        } else {
            Seq::empty()
        }) + file_children(s.drop_first())
    }
}

/// The file children of `s` in reverse declaration order, which is
/// the queue a traversal step leaves behind: each file is enqueued at
/// the front.
pub open spec fn file_children_rev(s: Seq<EntryV>) -> Seq<EntryV>
    decreases s,
{
    if s.len() <= 0 {
        Seq::empty()
    } else {
        file_children_rev(s.drop_first()) + (if s[0] is File {
            seq![s[0]]
        } else {
            Seq::empty()
        })
    }
}

/// The directory children of `s` in declaration order, each paired
/// with the depth `d` they will be yielded at.
pub open spec fn dir_children(s: Seq<EntryV>, d: usize) -> Seq<(usize, EntryV)>
    decreases s,
{
    if s.len() <= 0 {
        Seq::empty()
    } else {
        (if s[0] is Directory {
            seq![(d, s[0])]
        } else {
            Seq::empty()
        }) + dir_children(s.drop_first(), d)
    }
}

/// Mathematical model of a traversal state: the current depth, the
/// queue of files still to yield at that depth, and the stack of
/// pending directories.
pub struct TravV {
    pub depth: usize,
    pub files: Seq<EntryV>,
    pub pending: Seq<(usize, EntryV)>,
}

/// The total subtree size held by a pending stack.
pub open spec fn pending_size(p: Seq<(usize, EntryV)>) -> nat
    decreases p,
{
    if p.len() <= 0 {
        0
    } else {
        pending_size(p.drop_last()) + entry_size(p.last().1)
    }
}

/// The number of entries a traversal state has left to yield.
pub open spec fn trav_weight(t: TravV) -> nat {
    t.files.len() + pending_size(t.pending)
}

/// `pending_size` distributes over concatenation.
pub proof fn lemma_pending_size_add(a: Seq<(usize, EntryV)>, b: Seq<(usize, EntryV)>)
    ensures
        pending_size(a + b) == pending_size(a) + pending_size(b),
    decreases b.len(),
{
    if b.len() == 0 {
        assert(a + b =~= a);
    } else {
        assert((a + b).drop_last() =~= a + b.drop_last());
        lemma_pending_size_add(a, b.drop_last());
    }
}

/// Splitting the children of a directory into its file queue and its
/// pending directories preserves the total subtree size.
pub proof fn lemma_expand_size(s: Seq<EntryV>, d: usize)
    ensures
        file_children_rev(s).len() + pending_size(dir_children(s, d)) == entries_size(s),
    decreases s.len(),
{
    reveal_with_fuel(pending_size, 2);
    if s.len() > 0 {
        lemma_expand_size(s.drop_first(), d);
        if s[0] is File {
            assert(entry_size(s[0]) == 1);
            assert(entries_size(s) == 1 + entries_size(s.drop_first()));
            assert(file_children_rev(s) == file_children_rev(s.drop_first()) + seq![s[0]]);
            assert(file_children_rev(s).len() == file_children_rev(s.drop_first()).len() + 1);
            assert(dir_children(s, d) =~= dir_children(s.drop_first(), d));
            assert(pending_size(dir_children(s, d)) == pending_size(dir_children(s.drop_first(), d)));
        } else {
            assert(file_children_rev(s) =~= file_children_rev(s.drop_first()));
            assert(seq![(d, s[0])] + dir_children(s.drop_first(), d) =~= dir_children(s, d));
            lemma_pending_size_add(seq![(d, s[0])], dir_children(s.drop_first(), d));
            assert(pending_size(seq![(d, s[0])]) == entry_size(s[0])) by {
                assert(seq![(d, s[0])].drop_last() =~= Seq::<(usize, EntryV)>::empty());
            }
        }
    }
}

/// No subtree is larger than the forest that contains it.
pub proof fn lemma_entry_size_le(s: Seq<EntryV>, i: int)
    requires
        0 <= i < s.len(),
    ensures
        entry_size(s[i]) <= entries_size(s),
    decreases s.len(),
{
    if i > 0 {
        lemma_entry_size_le(s.drop_first(), i - 1);
        assert(s.drop_first()[i - 1] == s[i]);
    }
}

/// Appending a child on the right extends the file queue on the left.
pub proof fn lemma_file_children_rev_snoc(s: Seq<EntryV>, x: EntryV)
    ensures
        file_children_rev(s.push(x)) == (if x is File {
            seq![x]
        } else {
            Seq::<EntryV>::empty()
        }) + file_children_rev(s),
    decreases s.len(),
{
    reveal_with_fuel(file_children_rev, 3);
    if s.len() == 0 {
        assert(s.push(x).drop_first() =~= Seq::<EntryV>::empty());
        assert(file_children_rev(s) =~= Seq::<EntryV>::empty());
        if x is File {
            assert(file_children_rev(s.push(x)) =~= seq![x] + file_children_rev(s));
        } else {
            assert(file_children_rev(s.push(x)) =~= Seq::<EntryV>::empty() + file_children_rev(
                s,
            ));
        }
    } else {
        assert(s.push(x).drop_first() =~= s.drop_first().push(x));
        lemma_file_children_rev_snoc(s.drop_first(), x);
        assert(file_children_rev(s.push(x)) =~= (if x is File {
            seq![x]
        } else {
            Seq::<EntryV>::empty()
        }) + file_children_rev(s));
    }
}

/// Appending a child on the right extends the file queue on the
/// right, for the declaration-order queue.
pub proof fn lemma_file_children_snoc(s: Seq<EntryV>, x: EntryV)
    ensures
        file_children(s.push(x)) == file_children(s) + (if x is File {
            seq![x]
        } else {
            Seq::<EntryV>::empty()
        }),
    decreases s.len(),
{
    reveal_with_fuel(file_children, 3);
    if s.len() == 0 {
        assert(s.push(x).drop_first() =~= Seq::<EntryV>::empty());
        assert(file_children(s.push(x)) =~= file_children(s) + (if x is File {
            seq![x]
        } else {
            Seq::<EntryV>::empty()
        }));
    } else {
        assert(s.push(x).drop_first() =~= s.drop_first().push(x));
        lemma_file_children_snoc(s.drop_first(), x);
        assert(file_children(s.push(x)) =~= file_children(s) + (if x is File {
            seq![x]
        } else {
            Seq::<EntryV>::empty()
        }));
    }
}

/// Appending a child on the right extends the pending stack on the
/// right.
pub proof fn lemma_dir_children_snoc(s: Seq<EntryV>, d: usize, x: EntryV)
    ensures
        dir_children(s.push(x), d) == dir_children(s, d) + (if x is Directory {
            seq![(d, x)]
        } else {
            Seq::<(usize, EntryV)>::empty()
        }),
    decreases s.len(),
{
    reveal_with_fuel(dir_children, 3);
    if s.len() == 0 {
        assert(s.push(x).drop_first() =~= Seq::<EntryV>::empty());
        assert(dir_children(s.push(x), d) =~= dir_children(s, d) + (if x is Directory {
            seq![(d, x)]
        } else {
            Seq::<(usize, EntryV)>::empty()
        }));
    } else {
        assert(s.push(x).drop_first() =~= s.drop_first().push(x));
        lemma_dir_children_snoc(s.drop_first(), d, x);
        assert(dir_children(s.push(x), d) =~= dir_children(s, d) + (if x is Directory {
            seq![(d, x)]
        } else {
            Seq::<(usize, EntryV)>::empty()
        }));
    }
}

/// The traversal state produced by [`Directory::traverse`]: the
/// directory's files queued in order at depth zero, its
/// subdirectories pending at depth one.
pub open spec fn init_traversal(d: DirV) -> TravV {
    TravV { depth: 0, files: file_children(d.entries), pending: dir_children(d.entries, 1) }
}

/// Everything a traversal state still yields, in order.
///
/// While files are queued, the front file is yielded at the current
/// depth.  Otherwise the most recently pushed pending directory is
/// expanded: it is yielded at its recorded depth, its files become
/// the new queue (reversed, as each is enqueued at the front), and
/// its subdirectories are pushed, one depth further down.
pub open spec fn spec_yields(t: TravV) -> Seq<(usize, EntryV)>
    decreases trav_weight(t),
    via spec_yields_decreases
{
    if t.files.len() > 0 {
        seq![(t.depth, t.files[0])] + spec_yields(
            TravV { depth: t.depth, files: t.files.drop_first(), pending: t.pending },
        )
    } else if t.pending.len() == 0 {
        Seq::empty()
    } else {
        let d = t.pending.last().0;
        let e = t.pending.last().1;
        match e {
            EntryV::File(_) => Seq::empty(),
            EntryV::Directory(dir) => seq![(d, e)] + spec_yields(
                TravV {
                    depth: d,
                    files: file_children_rev(dir.entries),
                    pending: t.pending.drop_last() + dir_children(
                        dir.entries,
                        (d + 1) as usize,
                    ),
                },
            ),
        }
    }
}

#[via_fn]
proof fn spec_yields_decreases(t: TravV) {
    if t.files.len() > 0 {
    } else if t.pending.len() == 0 {
    } else {
        let d = t.pending.last().0;
        let e = t.pending.last().1;
        match e {
            EntryV::File(_) => {
            },
            EntryV::Directory(dir) => {
                lemma_pending_size_add(
                    t.pending.drop_last(),
                    dir_children(dir.entries, (d + 1) as usize),
                );
                lemma_expand_size(dir.entries, (d + 1) as usize);
            },
        }
    }
}

/// An iterator that yields the entries below a directory together
/// with their depth, the directory's own children counting as depth
/// zero for files and depth one for subdirectories.
///
/// If the name table is self-referential the tree is cyclic and the
/// traversal is infinite; on any tree actually built by this crate
/// the sequence is finite.
pub struct FsTraversal<'a> {
    depth: usize,
    dir_files: VecDeque<&'a Entry>,
    to_visit: VecDeque<(usize, &'a Entry)>,
}

impl<'a> View for FsTraversal<'a> {
    type V = TravV;

    closed spec fn view(&self) -> TravV {
        TravV {
            depth: self.depth,
            files: Seq::new(self.dir_files@.len(), |i: int| self.dir_files@[i]@),
            pending: Seq::new(
                self.to_visit@.len(),
                |i: int| (self.to_visit@[i].0, self.to_visit@[i].1@),
            ),
        }
    }
}

impl<'a> FsTraversal<'a> {
    /// Every pending entry is a directory at depth one or more, and
    /// its subtree fits the depth counter.  Established by [`Self::new`]
    /// and preserved by [`Self::next`].
    pub closed spec fn wf(self) -> bool {
        &&& forall|i: int|
            0 <= i < self.to_visit@.len() ==> {
                &&& (#[trigger] self.to_visit@[i]).1@ is Directory
                &&& self.to_visit@[i].0 >= 1
                &&& self.to_visit@[i].0 + entry_size(self.to_visit@[i].1@) <= usize::MAX
            }
        &&& forall|i: int|
            0 <= i < self.dir_files@.len() ==> (#[trigger] self.dir_files@[i])@ is File
    }

    /// Returns a traversal over the entries below `start`.
    ///
    /// The size bound is a machine limit: the depth counter must not
    /// outgrow `usize`, which only a tree of more than `usize::MAX`
    /// entries could cause.
    pub fn new(start: &'a Directory) -> (t: Self)
        requires
            entries_size(start@.entries) < usize::MAX,
        ensures
            t@ == init_traversal(start@),
            t.wf(),
    {
        let entries = start.entries();
        let ghost children = start@.entries;
        proof {
            lemma_entries_view(entries@);
        }
        let mut dir_files: VecDeque<&'a Entry> = VecDeque::new();
        let mut to_visit: VecDeque<(usize, &'a Entry)> = VecDeque::new();
        let mut i: usize = 0;
        while i < entries.len()
            invariant
                i <= entries.len(),
                entries@.len() == children.len(),
                forall|j: int| 0 <= j < children.len() ==> entries@[j]@ == children[j],
                entries_size(children) < usize::MAX,
                Seq::new(dir_files@.len(), |k: int| dir_files@[k]@) == file_children(
                    children.take(i as int),
                ),
                Seq::new(to_visit@.len(), |k: int| (to_visit@[k].0, to_visit@[k].1@))
                    == dir_children(children.take(i as int), 1),
                forall|k: int|
                    0 <= k < to_visit@.len() ==> {
                        &&& (#[trigger] to_visit@[k]).1@ is Directory
                        &&& to_visit@[k].0 == 1
                        &&& 1 + entry_size(to_visit@[k].1@) <= usize::MAX
                    },
                forall|k: int|
                    0 <= k < dir_files@.len() ==> (#[trigger] dir_files@[k])@ is File,
            decreases entries@.len() - i,
        {
            let entry: &'a Entry = &entries[i];
            let ghost prev_files = Seq::new(dir_files@.len(), |k: int| dir_files@[k]@);
            let ghost prev_pending = Seq::new(
                to_visit@.len(),
                |k: int| (to_visit@[k].0, to_visit@[k].1@),
            );
            proof {
                assert(children.take(i as int).push(children[i as int]) =~= children.take(
                    i as int + 1,
                ));
                lemma_file_children_snoc(children.take(i as int), children[i as int]);
                lemma_dir_children_snoc(children.take(i as int), 1, children[i as int]);
                lemma_entry_size_le(children, i as int);
            }
            if entry.file().is_some() {
                dir_files.push_back(entry);
                proof {
                    assert(Seq::new(dir_files@.len(), |k: int| dir_files@[k]@) =~= prev_files.push(
                        entry@,
                    ));
                    assert(Seq::new(to_visit@.len(), |k: int| (to_visit@[k].0, to_visit@[k].1@))
                        =~= prev_pending);
                }
            } else {
                to_visit.push_back((1, entry));
                proof {
                    assert(entry@ is Directory);
                    assert(Seq::new(dir_files@.len(), |k: int| dir_files@[k]@) =~= prev_files);
                    assert(Seq::new(to_visit@.len(), |k: int| (to_visit@[k].0, to_visit@[k].1@))
                        =~= prev_pending.push((1usize, entry@)));
                }
            }
            i = i + 1;
        }
        proof {
            assert(children.take(children.len() as int) =~= children);
        }
        Self { depth: 0, dir_files, to_visit }
    }

    /// Yields the head of [`spec_yields`] for the current state, or
    /// `None` once the state yields nothing more.
    pub fn next(&mut self) -> (r: Option<(usize, &'a Entry)>)
        requires
            old(self).wf(),
        ensures
            final(self).wf(),
            spec_yields(old(self)@).len() == 0 ==> r is None && spec_yields(final(self)@).len()
                == 0,
            spec_yields(old(self)@).len() > 0 ==> {
                &&& r matches Some(p)
                &&& (p.0, p.1@) == spec_yields(old(self)@)[0]
                &&& spec_yields(final(self)@) == spec_yields(old(self)@).drop_first()
            },
            r matches Some(p) ==> (p.1@ is Directory ==> p.0 >= 1),
    {
        let ghost pre = self@;
        // First, the files of the current directory.
        if let Some(file) = self.dir_files.pop_front() {
            proof {
                assert(pre.files[0] == file@);
                assert(Seq::new(self.dir_files@.len(), |i: int| self.dir_files@[i]@)
                    =~= pre.files.drop_first());
                assert(spec_yields(pre).drop_first() =~= spec_yields(self@));
            }
            return Some((self.depth, file));
        }
        proof {
            assert(pre.files.len() == 0);
        }
        // Once the files run out, expand the next pending directory.
        match self.to_visit.pop_back() {
            None => {
                proof {
                    assert(pre.pending.len() == 0);
                }
                None
            },
            Some((depth, dir_entry)) => {
                let ghost popped = pre.pending;
                proof {
                    assert(popped.last() == (depth, dir_entry@));
                    assert(Seq::new(self.to_visit@.len(), |i: int| (self.to_visit@[i].0, self.to_visit@[i].1@))
                        =~= popped.drop_last());
                }
                if let Some(dir) = dir_entry.directory() {
                    let entries = dir.entries();
                    let ghost children = dir@.entries;
                    proof {
                        lemma_entries_view(entries@);
                        assert(entry_size(dir_entry@) == 1 + entries_size(children));
                    }
                    let ghost base_pending = popped.drop_last();
                    let mut i: usize = 0;
                    while i < entries.len()
                        invariant
                            i <= entries.len(),
                            entries@.len() == children.len(),
                            forall|j: int| 0 <= j < children.len() ==> entries@[j]@ == children[j],
                            depth + 1 + entries_size(children) <= usize::MAX,
                            self.depth == old(self).depth,
                            Seq::new(self.dir_files@.len(), |k: int| self.dir_files@[k]@)
                                == file_children_rev(children.take(i as int)),
                            Seq::new(self.to_visit@.len(), |k: int| (self.to_visit@[k].0, self.to_visit@[k].1@))
                                == base_pending + dir_children(
                                children.take(i as int),
                                (depth + 1) as usize,
                            ),
                            self.wf(),
                        decreases entries@.len() - i,
                    {
                        let entry: &'a Entry = &entries[i];
                        let ghost prev_files = Seq::new(
                            self.dir_files@.len(),
                            |k: int| self.dir_files@[k]@,
                        );
                        let ghost prev_pending = Seq::new(
                            self.to_visit@.len(),
                            |k: int| (self.to_visit@[k].0, self.to_visit@[k].1@),
                        );
                        proof {
                            assert(children.take(i as int).push(children[i as int])
                                =~= children.take(i as int + 1));
                            lemma_file_children_rev_snoc(
                                children.take(i as int),
                                children[i as int],
                            );
                            lemma_dir_children_snoc(
                                children.take(i as int),
                                (depth + 1) as usize,
                                children[i as int],
                            );
                            lemma_entry_size_le(children, i as int);
                        }
                        if entry.file().is_some() {
                            self.dir_files.push_front(entry);
                            proof {
                                assert(Seq::new(self.dir_files@.len(), |k: int| self.dir_files@[k]@)
                                    =~= seq![entry@] + prev_files);
                                assert(Seq::new(self.to_visit@.len(), |k: int| (self.to_visit@[k].0, self.to_visit@[k].1@))
                                    =~= prev_pending);
                            }
                        } else {
                            self.to_visit.push_back((depth + 1, entry));
                            proof {
                                assert(entry@ is Directory);
                                assert(Seq::new(self.dir_files@.len(), |k: int| self.dir_files@[k]@)
                                    =~= prev_files);
                                assert(Seq::new(self.to_visit@.len(), |k: int| (self.to_visit@[k].0, self.to_visit@[k].1@))
                                    =~= prev_pending.push(((depth + 1) as usize, entry@)));
                            }
                        }
                        i = i + 1;
                    }
                    self.depth = depth;
                    proof {
                        assert(children.take(children.len() as int) =~= children);
                        assert(spec_yields(pre)[0] == (depth, dir_entry@));
                        assert(spec_yields(pre).drop_first() =~= spec_yields(self@));
                    }
                    Some((depth, dir_entry))
                } else {
                    // Unreachable: the invariant admits only
                    // directories onto the pending stack.
                    proof {
                        assert(false);
                    }
                    None
                }
            },
        }
    }
}

impl Directory {
    /// Traverses the entries below this directory recursively,
    /// entry before descendants; see [`FsTraversal`].
    pub fn traverse(&self) -> (t: FsTraversal<'_>)
        requires
            entries_size(self@.entries) < usize::MAX,
        ensures
            t@ == init_traversal(self@),
            t.wf(),
    {
        FsTraversal::new(self)
    }
}

/// The byte string `names[0] / names[1] / ... / names[n-1]`.
pub open spec fn path_join(names: Seq<Seq<u8>>) -> Seq<u8>
    decreases names.len(),
{
    if names.len() == 0 {
        Seq::empty()
    } else if names.len() == 1 {
        names[0]
    } else {
        path_join(names.drop_last()) + seq![47u8] + names.last()
    }
}

/// The name bytes held by a search stack.
pub open spec fn stack_names(s: Seq<&Vec<u8>>) -> Seq<Seq<u8>> {
    Seq::new(s.len(), |i: int| s[i]@)
}

/// One pass of path search over a traversal output.
///
/// The stack mirrors the chain of directory names above the current
/// position: a directory yielded at depth `d` cuts the stack back to
/// `d - 1` names and pushes its own, a file is compared with its name
/// appended and leaves the stack alone.  The first entry whose
/// accumulated path equals `path` is the result.
pub open spec fn spec_search_steps(
    ys: Seq<(usize, EntryV)>,
    stack: Seq<Seq<u8>>,
    path: Seq<u8>,
) -> Option<EntryV>
    decreases ys.len(),
{
    if ys.len() == 0 {
        None
    } else {
        let d = ys[0].0;
        let e = ys[0].1;
        match e {
            EntryV::Directory(dir) => {
                let popped = if stack.len() >= d {
                    stack.take(d - 1)
                } else {
                    stack
                };
                let stack2 = popped.push(dir.name);
                if path_join(stack2) == path {
                    Some(e)
                } else {
                    spec_search_steps(ys.drop_first(), stack2, path)
                }
            },
            EntryV::File(f) => {
                if path_join(stack.push(f.name)) == path {
                    Some(e)
                } else {
                    spec_search_steps(ys.drop_first(), stack, path)
                }
            },
        }
    }
}

/// What [`Directory::search`] returns: the first entry of the
/// traversal whose accumulated slash-separated path equals `path`.
///
/// The empty path matches nothing, since every entry's accumulated
/// path holds at least its own non-empty name.
pub open spec fn spec_search(dir: DirV, path: Seq<u8>) -> Option<EntryV> {
    spec_search_steps(spec_yields(init_traversal(dir)), Seq::empty(), path)
}

/// Joins the stacked names with slashes.
fn join_names(stack: &Vec<&Vec<u8>>) -> (r: Vec<u8>)
    ensures
        r@ == path_join(stack_names(stack@)),
{
    let mut buf: Vec<u8> = Vec::new();
    let mut i: usize = 0;
    while i < stack.len()
        invariant
            i <= stack@.len(),
            buf@ == path_join(stack_names(stack@).take(i as int)),
        decreases stack@.len() - i,
    {
        if i > 0 {
            buf.push(47);
        }
        let src: &Vec<u8> = stack[i];
        let ghost base = buf@;
        let mut j: usize = 0;
        while j < src.len()
            invariant
                j <= src@.len(),
                buf@ == base + src@.take(j as int),
            decreases src@.len() - j,
        {
            let b = src[j];
            buf.push(b);
            proof {
                assert(buf@ =~= base + src@.take(j as int + 1));
            }
            j = j + 1;
        }
        proof {
            let names = stack_names(stack@);
            assert(src@.take(src@.len() as int) =~= src@);
            assert(names.take(i as int + 1).drop_last() =~= names.take(i as int));
            assert(names.take(i as int + 1).last() == src@);
            if i == 0 {
                assert(path_join(names.take(0)) =~= Seq::<u8>::empty());
                assert(buf@ =~= src@);
                assert(path_join(names.take(1)) == names[0]);
            } else {
                assert(buf@ =~= path_join(names.take(i as int)) + seq![47u8] + src@);
            }
        }
        i = i + 1;
    }
    proof {
        assert(stack_names(stack@).take(stack@.len() as int) =~= stack_names(stack@));
    }
    buf
}

impl Directory {
    /// Searches for the entry at the given slash-separated path of
    /// names relative to this directory.
    ///
    /// Returns the first entry of the traversal whose accumulated
    /// path equals `path`; `None` when the traversal ends without a
    /// match.  The empty path matches nothing.  Search relies only on
    /// depth transitions, so it is unaffected by the reversed sibling
    /// order of the traversal.
    pub fn search(&self, path: &Vec<u8>) -> (r: Option<&Entry>)
        requires
            entries_size(self@.entries) < usize::MAX,
        ensures
            match r {
                Some(e) => spec_search(self@, path@) == Some(e@),
                None => spec_search(self@, path@) is None,
            },
    {
        let mut t = self.traverse();
        let mut stack: Vec<&Vec<u8>> = Vec::new();
        proof {
            assert(stack_names(stack@) =~= Seq::<Seq<u8>>::empty());
        }
        loop
            invariant
                t.wf(),
                spec_search_steps(spec_yields(t@), stack_names(stack@), path@) == spec_search(
                    self@,
                    path@,
                ),
            decreases spec_yields(t@).len(),
        {
            let ghost pre_yields = spec_yields(t@);
            let step = t.next();
            match step {
                None => {
                    return None;
                },
                Some((depth, entry)) => {
                    let ghost names0 = stack_names(stack@);
                    if let Some(dir) = entry.directory() {
                        // Cut the stack back to the parent level of
                        // this directory, then push its name.
                        proof {
                            assert(names0.take(names0.len() as int) =~= names0);
                        }
                        while stack.len() >= depth
                            invariant
                                depth >= 1,
                                stack@.len() <= names0.len(),
                                stack_names(stack@) == names0.take(stack@.len() as int),
                                names0.len() >= depth ==> stack@.len() >= depth - 1,
                                names0.len() < depth ==> stack@.len() == names0.len(),
                            decreases stack@.len(),
                        {
                            let ghost pre_len = stack@.len();
                            stack.pop();
                            proof {
                                assert(stack_names(stack@) =~= names0.take(pre_len as int - 1));
                            }
                        }
                        stack.push(dir.name());
                        let ghost popped = if names0.len() >= depth {
                            names0.take(depth - 1)
                        } else {
                            names0
                        };
                        proof {
                            assert(stack_names(stack@) =~= popped.push(dir@.name));
                        }
                        let joined = join_names(&stack);
                        if bytes_eq(&joined, path) {
                            return Some(entry);
                        }
                    } else if let Some(file) = entry.file() {
                        stack.push(file.name());
                        proof {
                            assert(stack_names(stack@) =~= names0.push(file@.name));
                        }
                        let joined = join_names(&stack);
                        if bytes_eq(&joined, path) {
                            return Some(entry);
                        }
                        stack.pop();
                        proof {
                            assert(stack_names(stack@) =~= names0);
                        }
                    }
                },
            }
        }
    }
}

/// The multiset of entries of the subtree rooted at `e`, the entry
/// itself included.
pub open spec fn entry_mset(e: EntryV) -> Multiset<EntryV>
    decreases e,
{
    match e {
        EntryV::File(_) => Multiset::singleton(e),
        EntryV::Directory(d) => Multiset::singleton(e).add(entries_mset(d.entries)),
    }
}

/// The multiset of entries of the subtrees rooted at `s`.
pub open spec fn entries_mset(s: Seq<EntryV>) -> Multiset<EntryV>
    decreases s,
{
    if s.len() <= 0 {
        Multiset::empty()
    } else {
        entry_mset(s[0]).add(entries_mset(s.drop_first()))
    }
}

/// The multiset of entries a file queue will yield: each one once.
pub open spec fn queue_mset(s: Seq<EntryV>) -> Multiset<EntryV>
    decreases s,
{
    if s.len() <= 0 {
        Multiset::empty()
    } else {
        Multiset::singleton(s[0]).add(queue_mset(s.drop_first()))
    }
}

/// The multiset of subtree entries held by a pending stack.
pub open spec fn pending_mset(p: Seq<(usize, EntryV)>) -> Multiset<EntryV>
    decreases p,
{
    if p.len() <= 0 {
        Multiset::empty()
    } else {
        pending_mset(p.drop_last()).add(entry_mset(p.last().1))
    }
}

/// The multiset of entries yielded by a traversal output.
pub open spec fn yielded_mset(ys: Seq<(usize, EntryV)>) -> Multiset<EntryV>
    decreases ys,
{
    if ys.len() <= 0 {
        Multiset::empty()
    } else {
        Multiset::singleton(ys[0].1).add(yielded_mset(ys.drop_first()))
    }
}

/// Every pending pair holds a directory entry.
pub open spec fn pending_all_dirs(p: Seq<(usize, EntryV)>) -> bool {
    forall|i: int| 0 <= i < p.len() ==> (#[trigger] p[i]).1 is Directory
}

/// `queue_mset` distributes over concatenation.
proof fn lemma_queue_mset_add(a: Seq<EntryV>, b: Seq<EntryV>)
    ensures
        queue_mset(a + b) == queue_mset(a).add(queue_mset(b)),
    decreases a.len(),
{
    if a.len() == 0 {
        assert(a + b =~= b);
        assert(queue_mset(a + b) =~= queue_mset(a).add(queue_mset(b)));
    } else {
        assert((a + b).drop_first() =~= a.drop_first() + b);
        lemma_queue_mset_add(a.drop_first(), b);
        assert(queue_mset(a + b) =~= queue_mset(a).add(queue_mset(b)));
    }
}

/// `pending_mset` distributes over concatenation.
proof fn lemma_pending_mset_add(a: Seq<(usize, EntryV)>, b: Seq<(usize, EntryV)>)
    ensures
        pending_mset(a + b) == pending_mset(a).add(pending_mset(b)),
    decreases b.len(),
{
    if b.len() == 0 {
        assert(a + b =~= a);
        assert(pending_mset(a + b) =~= pending_mset(a).add(pending_mset(b)));
    } else {
        assert((a + b).drop_last() =~= a + b.drop_last());
        lemma_pending_mset_add(a, b.drop_last());
        assert(pending_mset(a + b) =~= pending_mset(a).add(pending_mset(b)));
    }
}

/// Splitting children into the file queue and the pending directories
/// preserves the multiset of subtree entries, for the reversed queue
/// a traversal step builds.
proof fn lemma_expand_mset(s: Seq<EntryV>, d: usize)
    ensures
        queue_mset(file_children_rev(s)).add(pending_mset(dir_children(s, d))) == entries_mset(s),
    decreases s.len(),
{
    reveal_with_fuel(queue_mset, 2);
    reveal_with_fuel(pending_mset, 2);
    if s.len() > 0 {
        lemma_expand_mset(s.drop_first(), d);
        if s[0] is File {
            assert(file_children_rev(s) == file_children_rev(s.drop_first()) + seq![s[0]]);
            lemma_queue_mset_add(file_children_rev(s.drop_first()), seq![s[0]]);
            assert(queue_mset(seq![s[0]]) =~= Multiset::singleton(s[0])) by {
                assert(seq![s[0]].drop_first() =~= Seq::<EntryV>::empty());
            }
            assert(dir_children(s, d) =~= dir_children(s.drop_first(), d));
            assert(entry_mset(s[0]) == Multiset::singleton(s[0]));
            assert(queue_mset(file_children_rev(s)).add(pending_mset(dir_children(s, d)))
                =~= entries_mset(s));
        } else {
            assert(file_children_rev(s) =~= file_children_rev(s.drop_first()));
            assert(seq![(d, s[0])] + dir_children(s.drop_first(), d) =~= dir_children(s, d));
            lemma_pending_mset_add(seq![(d, s[0])], dir_children(s.drop_first(), d));
            assert(pending_mset(seq![(d, s[0])]) =~= entry_mset(s[0])) by {
                assert(seq![(d, s[0])].drop_last() =~= Seq::<(usize, EntryV)>::empty());
            }
            assert(queue_mset(file_children_rev(s)).add(pending_mset(dir_children(s, d)))
                =~= entries_mset(s));
        }
    }
}

/// The same split for the declaration-order queue built by
/// [`init_traversal`].
proof fn lemma_split_mset(s: Seq<EntryV>, d: usize)
    ensures
        queue_mset(file_children(s)).add(pending_mset(dir_children(s, d))) == entries_mset(s),
    decreases s.len(),
{
    reveal_with_fuel(queue_mset, 2);
    reveal_with_fuel(pending_mset, 2);
    if s.len() > 0 {
        lemma_split_mset(s.drop_first(), d);
        if s[0] is File {
            assert(seq![s[0]] + file_children(s.drop_first()) =~= file_children(s));
            assert(queue_mset(seq![s[0]] + file_children(s.drop_first())) == Multiset::singleton(
                s[0],
            ).add(queue_mset(file_children(s.drop_first())))) by {
                assert((seq![s[0]] + file_children(s.drop_first())).drop_first()
                    =~= file_children(s.drop_first()));
            }
            assert(dir_children(s, d) =~= dir_children(s.drop_first(), d));
            assert(entry_mset(s[0]) == Multiset::singleton(s[0]));
            assert(queue_mset(file_children(s)).add(pending_mset(dir_children(s, d)))
                =~= entries_mset(s));
        } else {
            assert(file_children(s) =~= file_children(s.drop_first()));
            assert(seq![(d, s[0])] + dir_children(s.drop_first(), d) =~= dir_children(s, d));
            lemma_pending_mset_add(seq![(d, s[0])], dir_children(s.drop_first(), d));
            assert(pending_mset(seq![(d, s[0])]) =~= entry_mset(s[0])) by {
                assert(seq![(d, s[0])].drop_last() =~= Seq::<(usize, EntryV)>::empty());
            }
            assert(queue_mset(file_children(s)).add(pending_mset(dir_children(s, d)))
                =~= entries_mset(s));
        }
    }
}

/// A traversal state whose pending stack holds only directories
/// yields exactly the entries it still holds: each queued file once,
/// and each pending directory's subtree once.
proof fn lemma_yields_mset(t: TravV)
    requires
        pending_all_dirs(t.pending),
    ensures
        yielded_mset(spec_yields(t)) == queue_mset(t.files).add(pending_mset(t.pending)),
    decreases trav_weight(t),
{
    if t.files.len() > 0 {
        let t2 = TravV { depth: t.depth, files: t.files.drop_first(), pending: t.pending };
        lemma_yields_mset(t2);
        assert(spec_yields(t).drop_first() =~= spec_yields(t2));
        assert(yielded_mset(spec_yields(t)) =~= queue_mset(t.files).add(pending_mset(t.pending)));
    } else if t.pending.len() == 0 {
        assert(yielded_mset(spec_yields(t)) =~= queue_mset(t.files).add(pending_mset(t.pending)));
    } else {
        let d = t.pending.last().0;
        let e = t.pending.last().1;
        assert(t.pending[t.pending.len() - 1].1 is Directory);
        match e {
            EntryV::File(_) => {
                assert(false);
            },
            EntryV::Directory(dir) => {
                let t2 = TravV {
                    depth: d,
                    files: file_children_rev(dir.entries),
                    pending: t.pending.drop_last() + dir_children(dir.entries, (d + 1) as usize),
                };
                assert(pending_all_dirs(t2.pending)) by {
                    assert forall|i: int|
                        0 <= i < t2.pending.len() implies (#[trigger] t2.pending[i]).1
                        is Directory by {
                        if i < t.pending.drop_last().len() {
                            assert(t2.pending[i] == t.pending[i]);
                        } else {
                            lemma_dir_children_are_dirs(
                                dir.entries,
                                (d + 1) as usize,
                                i - t.pending.drop_last().len(),
                            );
                        }
                    }
                }
                lemma_pending_size_add(
                    t.pending.drop_last(),
                    dir_children(dir.entries, (d + 1) as usize),
                );
                lemma_expand_size(dir.entries, (d + 1) as usize);
                lemma_yields_mset(t2);
                lemma_pending_mset_add(
                    t.pending.drop_last(),
                    dir_children(dir.entries, (d + 1) as usize),
                );
                lemma_expand_mset(dir.entries, (d + 1) as usize);
                assert(spec_yields(t).drop_first() =~= spec_yields(t2));
                assert(yielded_mset(spec_yields(t)) == Multiset::singleton(e).add(
                    yielded_mset(spec_yields(t2)),
                ));
                assert(yielded_mset(spec_yields(t)) =~= queue_mset(t.files).add(
                    pending_mset(t.pending),
                ));
            },
        }
    }
}

/// Every pair produced by [`dir_children`] holds a directory.
proof fn lemma_dir_children_are_dirs(s: Seq<EntryV>, d: usize, i: int)
    requires
        0 <= i < dir_children(s, d).len(),
    ensures
        dir_children(s, d)[i].1 is Directory,
    decreases s.len(),
{
    if s.len() > 0 {
        if s[0] is Directory {
            if i > 0 {
                lemma_dir_children_are_dirs(s.drop_first(), d, i - 1);
                assert(dir_children(s, d)[i] == dir_children(s.drop_first(), d)[i - 1]);
            }
        } else {
            lemma_dir_children_are_dirs(s.drop_first(), d, i);
            assert(dir_children(s, d) =~= dir_children(s.drop_first(), d));
        }
    }
}

/// Traversal visits every entry below the starting directory exactly
/// once: the multiset of yielded entries equals the multiset of all
/// subtree entries.  (The tree built by this crate is acyclic by
/// construction, being held by ownership.)
pub proof fn lemma_traversal_visits_all(d: DirV)
    ensures
        yielded_mset(spec_yields(init_traversal(d))) == entries_mset(d.entries),
{
    let t = init_traversal(d);
    assert(pending_all_dirs(t.pending)) by {
        assert forall|i: int|
            0 <= i < t.pending.len() implies (#[trigger] t.pending[i]).1 is Directory by {
            lemma_dir_children_are_dirs(d.entries, 1, i);
        }
    }
    lemma_yields_mset(t);
    lemma_split_mset(d.entries, 1);
}

/// The queued files as traversal output: each at depth `d`.
pub open spec fn ymap(d: usize, files: Seq<EntryV>) -> Seq<(usize, EntryV)> {
    Seq::new(files.len(), |i: int| (d, files[i]))
}

/// When no files are queued, the current depth does not influence
/// what a traversal yields.
proof fn lemma_yields_depth_irrelevant(a: usize, b: usize, p: Seq<(usize, EntryV)>)
    ensures
        spec_yields(TravV { depth: a, files: Seq::empty(), pending: p }) == spec_yields(
            TravV { depth: b, files: Seq::empty(), pending: p },
        ),
    decreases pending_size(p),
{
    if p.len() > 0 {
        let d = p.last().0;
        let e = p.last().1;
        match e {
            EntryV::File(_) => {
            },
            EntryV::Directory(dir) => {
                lemma_pending_size_add(p.drop_last(), dir_children(dir.entries, (d + 1) as usize));
                lemma_expand_size(dir.entries, (d + 1) as usize);
            },
        }
    }
}

/// Queued files are yielded first, in queue order, at the current
/// depth.
proof fn lemma_yields_files_first(d: usize, files: Seq<EntryV>, p: Seq<(usize, EntryV)>)
    ensures
        spec_yields(TravV { depth: d, files, pending: p }) == ymap(d, files) + spec_yields(
            TravV { depth: d, files: Seq::empty(), pending: p },
        ),
    decreases files.len(),
{
    if files.len() > 0 {
        lemma_yields_files_first(d, files.drop_first(), p);
        assert(ymap(d, files).drop_first() =~= ymap(d, files.drop_first()));
        assert(spec_yields(TravV { depth: d, files, pending: p }) =~= ymap(d, files)
            + spec_yields(TravV { depth: d, files: Seq::empty(), pending: p }));
    } else {
        assert(files =~= Seq::<EntryV>::empty());
        assert(ymap(d, files) =~= Seq::<(usize, EntryV)>::empty());
        assert(spec_yields(TravV { depth: d, files, pending: p }) =~= ymap(d, files)
            + spec_yields(TravV { depth: d, files: Seq::empty(), pending: p }));
    }
}

/// The pending stack is worked off from the top: the stack `p1 + p2`
/// yields everything that `p2` leads to, then everything `p1` leads
/// to.
proof fn lemma_yields_concat(
    d0: usize,
    files: Seq<EntryV>,
    p1: Seq<(usize, EntryV)>,
    p2: Seq<(usize, EntryV)>,
)
    requires
        pending_all_dirs(p1),
        pending_all_dirs(p2),
    ensures
        spec_yields(TravV { depth: d0, files, pending: p1 + p2 }) == spec_yields(
            TravV { depth: d0, files, pending: p2 },
        ) + spec_yields(TravV { depth: d0, files: Seq::empty(), pending: p1 }),
    decreases files.len() + pending_size(p2),
{
    if files.len() > 0 {
        lemma_yields_concat(d0, files.drop_first(), p1, p2);
        assert(spec_yields(TravV { depth: d0, files, pending: p1 + p2 }) =~= spec_yields(
            TravV { depth: d0, files, pending: p2 },
        ) + spec_yields(TravV { depth: d0, files: Seq::empty(), pending: p1 }));
    } else if p2.len() == 0 {
        assert(p1 + p2 =~= p1);
        assert(files =~= Seq::<EntryV>::empty());
        assert(spec_yields(TravV { depth: d0, files, pending: p2 }) =~= Seq::<(
            usize,
            EntryV,
        )>::empty());
        assert(spec_yields(TravV { depth: d0, files, pending: p1 + p2 }) =~= spec_yields(
            TravV { depth: d0, files, pending: p2 },
        ) + spec_yields(TravV { depth: d0, files: Seq::empty(), pending: p1 }));
    } else {
        let d = p2.last().0;
        let e = p2.last().1;
        assert(p2[p2.len() - 1].1 is Directory);
        match e {
            EntryV::File(_) => {
                assert(false);
            },
            EntryV::Directory(dir) => {
                let children = dir.entries;
                let dd = (d + 1) as usize;
                let p2x = p2.drop_last() + dir_children(children, dd);
                assert((p1 + p2).last() == p2.last());
                assert((p1 + p2).drop_last() =~= p1 + p2.drop_last());
                assert((p1 + p2.drop_last()) + dir_children(children, dd) =~= p1 + p2x);
                assert(pending_all_dirs(p2x)) by {
                    assert forall|i: int|
                        0 <= i < p2x.len() implies (#[trigger] p2x[i]).1 is Directory by {
                        if i < p2.drop_last().len() {
                            assert(p2x[i] == p2[i]);
                        } else {
                            lemma_dir_children_are_dirs(children, dd, i - p2.drop_last().len());
                        }
                    }
                }
                lemma_pending_size_add(p2.drop_last(), dir_children(children, dd));
                lemma_expand_size(children, dd);
                lemma_yields_concat(d, file_children_rev(children), p1, p2x);
                lemma_yields_depth_irrelevant(d, d0, p1);
                assert(spec_yields(TravV { depth: d0, files, pending: p1 + p2 }) =~= spec_yields(
                    TravV { depth: d0, files, pending: p2 },
                ) + spec_yields(TravV { depth: d0, files: Seq::empty(), pending: p1 }));
            },
        }
    }
}

/// The traversal output of one entry's subtree: the entry itself,
/// then — for a directory — its files at the same depth plus one,
/// then its subdirectories' subtrees, expanded last-declared first.
pub open spec fn subtree_yields(d: usize, e: EntryV) -> Seq<(usize, EntryV)>
    decreases entry_size(e), 0int,
    via subtree_yields_decreases
{
    match e {
        EntryV::File(_) => seq![(d, e)],
        EntryV::Directory(dir) => seq![(d, e)] + ymap(d, file_children_rev(dir.entries))
            + pending_yields(dir_children(dir.entries, (d + 1) as usize)),
    }
}

/// The traversal output of a pending stack, worked off from the top.
pub open spec fn pending_yields(p: Seq<(usize, EntryV)>) -> Seq<(usize, EntryV)>
    decreases pending_size(p), p.len(),
    via pending_yields_decreases
{
    if p.len() == 0 {
        Seq::empty()
    } else {
        subtree_yields(p.last().0, p.last().1) + pending_yields(p.drop_last())
    }
}

#[via_fn]
proof fn subtree_yields_decreases(d: usize, e: EntryV) {
    match e {
        EntryV::File(_) => {
        },
        EntryV::Directory(dir) => {
            lemma_expand_size(dir.entries, (d + 1) as usize);
        },
    }
}

#[via_fn]
proof fn pending_yields_decreases(p: Seq<(usize, EntryV)>) {
}

/// A pending stack of directories yields exactly the subtree blocks
/// of its entries, top of stack first.
proof fn lemma_pending_yields(d0: usize, p: Seq<(usize, EntryV)>)
    requires
        pending_all_dirs(p),
    ensures
        spec_yields(TravV { depth: d0, files: Seq::empty(), pending: p }) == pending_yields(p),
    decreases pending_size(p), p.len(),
{
    if p.len() == 0 {
    } else {
        let d = p.last().0;
        let e = p.last().1;
        assert(p[p.len() - 1].1 is Directory);
        match e {
            EntryV::File(_) => {
                assert(false);
            },
            EntryV::Directory(dir) => {
                let children = dir.entries;
                let dd = (d + 1) as usize;
                let dc = dir_children(children, dd);
                assert(pending_all_dirs(p.drop_last())) by {
                    assert forall|i: int|
                        0 <= i < p.drop_last().len() implies (#[trigger] p.drop_last()[i]).1
                        is Directory by {
                        assert(p.drop_last()[i] == p[i]);
                    }
                }
                assert(pending_all_dirs(dc)) by {
                    assert forall|i: int|
                        0 <= i < dc.len() implies (#[trigger] dc[i]).1 is Directory by {
                        lemma_dir_children_are_dirs(children, dd, i);
                    }
                }
                lemma_pending_size_add(p.drop_last(), dc);
                lemma_expand_size(children, dd);
                lemma_yields_concat(d, file_children_rev(children), p.drop_last(), dc);
                lemma_yields_files_first(d, file_children_rev(children), dc);
                lemma_pending_yields(d, dc);
                lemma_yields_depth_irrelevant(d, d0, p.drop_last());
                lemma_pending_yields(d0, p.drop_last());
                let fcr = file_children_rev(children);
                assert(spec_yields(TravV { depth: d0, files: Seq::empty(), pending: p })
                    == seq![(d, e)] + spec_yields(
                    TravV { depth: d, files: fcr, pending: p.drop_last() + dc },
                ));
                assert(spec_yields(TravV { depth: d, files: fcr, pending: p.drop_last() + dc })
                    == (ymap(d, fcr) + pending_yields(dc)) + pending_yields(p.drop_last()));
                assert(subtree_yields(d, e) == seq![(d, e)] + ymap(d, fcr) + pending_yields(dc));
                assert(pending_yields(p) == subtree_yields(d, e) + pending_yields(p.drop_last()));
                assert(spec_yields(TravV { depth: d0, files: Seq::empty(), pending: p })
                    =~= pending_yields(p));
            },
        }
    }
}

/// What a traversal of a directory yields, in order: first the
/// directory's own files in reverse queue order at depth zero, then
/// its subdirectories' subtree blocks, each block opening with the
/// subdirectory entry itself.
///
/// Together with the shape of [`subtree_yields`] this shows the
/// traversal order laws: all files of a directory are yielded before
/// any of that directory's subdirectories, and a directory entry is
/// yielded before every entry of its own subtree.
pub proof fn lemma_traversal_structure(dv: DirV)
    ensures
        spec_yields(init_traversal(dv)) == ymap(0, file_children(dv.entries)) + pending_yields(
            dir_children(dv.entries, 1),
        ),
{
    let p = dir_children(dv.entries, 1);
    assert(pending_all_dirs(p)) by {
        assert forall|i: int| 0 <= i < p.len() implies (#[trigger] p[i]).1 is Directory by {
            lemma_dir_children_are_dirs(dv.entries, 1, i);
        }
    }
    lemma_yields_files_first(0, file_children(dv.entries), p);
    lemma_pending_yields(0, p);
}

/// Every name in the subtree rooted at `e` is non-empty.
pub open spec fn entry_names_nonempty(e: EntryV) -> bool
    decreases e,
{
    match e {
        EntryV::File(f) => f.name.len() >= 1,
        EntryV::Directory(d) => d.name.len() >= 1 && entries_names_nonempty(d.entries),
    }
}

/// Every name in the subtrees rooted at `s` is non-empty.
pub open spec fn entries_names_nonempty(s: Seq<EntryV>) -> bool
    decreases s,
{
    if s.len() <= 0 {
        true
    } else {
        entry_names_nonempty(s[0]) && entries_names_nonempty(s.drop_first())
    }
}

/// Element-wise reading of [`entries_names_nonempty`].
pub proof fn lemma_entries_names_nonempty_index(s: Seq<EntryV>, i: int)
    requires
        entries_names_nonempty(s),
        0 <= i < s.len(),
    ensures
        entry_names_nonempty(s[i]),
    decreases s.len(),
{
    if i > 0 {
        lemma_entries_names_nonempty_index(s.drop_first(), i - 1);
        assert(s.drop_first()[i - 1] == s[i]);
    }
}

/// The file queue of a split child list keeps the property, for the
/// reversed queue a traversal step builds.
proof fn lemma_fcr_names_nonempty(s: Seq<EntryV>, j: int)
    requires
        entries_names_nonempty(s),
        0 <= j < file_children_rev(s).len(),
    ensures
        entry_names_nonempty(file_children_rev(s)[j]),
    decreases s.len(),
{
    if s.len() > 0 {
        let rest = file_children_rev(s.drop_first());
        if j < rest.len() {
            lemma_fcr_names_nonempty(s.drop_first(), j);
            assert(file_children_rev(s)[j] == rest[j]);
        } else {
            assert(s[0] is File && file_children_rev(s)[j] == s[0]);
        }
    }
}

/// The forward file queue built by [`init_traversal`] keeps the
/// property.
proof fn lemma_fc_names_nonempty(s: Seq<EntryV>, j: int)
    requires
        entries_names_nonempty(s),
        0 <= j < file_children(s).len(),
    ensures
        entry_names_nonempty(file_children(s)[j]),
    decreases s.len(),
{
    if s.len() > 0 {
        if s[0] is File {
            if j > 0 {
                lemma_fc_names_nonempty(s.drop_first(), j - 1);
                assert(file_children(s)[j] == file_children(s.drop_first())[j - 1]);
            } else {
                assert(file_children(s)[0] == s[0]);
            }
        } else {
            lemma_fc_names_nonempty(s.drop_first(), j);
            assert(file_children(s) =~= file_children(s.drop_first()));
        }
    }
}

/// The pending stack of a split child list keeps the property.
proof fn lemma_dc_names_nonempty(s: Seq<EntryV>, d: usize, j: int)
    requires
        entries_names_nonempty(s),
        0 <= j < dir_children(s, d).len(),
    ensures
        entry_names_nonempty(dir_children(s, d)[j].1),
    decreases s.len(),
{
    if s.len() > 0 {
        if s[0] is Directory {
            if j > 0 {
                lemma_dc_names_nonempty(s.drop_first(), d, j - 1);
                assert(dir_children(s, d)[j] == dir_children(s.drop_first(), d)[j - 1]);
            } else {
                assert(dir_children(s, d)[0] == (d, s[0]));
            }
        } else {
            lemma_dc_names_nonempty(s.drop_first(), d, j);
            assert(dir_children(s, d) =~= dir_children(s.drop_first(), d));
        }
    }
}

/// A joined path is at least as long as the last name in the stack.
proof fn lemma_path_join_last(names: Seq<Seq<u8>>)
    requires
        names.len() >= 1,
    ensures
        path_join(names).len() >= names.last().len(),
{
}

/// A traversal state whose names are all non-empty never matches the
/// empty path: every accumulated path ends in a non-empty name.
proof fn lemma_search_steps_empty_none(t: TravV, stack: Seq<Seq<u8>>)
    requires
        forall|i: int| 0 <= i < t.files.len() ==> entry_names_nonempty(#[trigger] t.files[i]),
        forall|i: int|
            0 <= i < t.pending.len() ==> entry_names_nonempty((#[trigger] t.pending[i]).1),
    ensures
        spec_search_steps(spec_yields(t), stack, Seq::empty()) is None,
    decreases trav_weight(t),
{
    if t.files.len() > 0 {
        let e = t.files[0];
        assert(entry_names_nonempty(e));
        let t2 = TravV { depth: t.depth, files: t.files.drop_first(), pending: t.pending };
        assert(forall|i: int|
            0 <= i < t2.files.len() ==> entry_names_nonempty(#[trigger] t2.files[i]));
        assert(spec_yields(t).drop_first() =~= spec_yields(t2));
        match e {
            EntryV::Directory(dir) => {
                let popped = if stack.len() >= t.depth {
                    stack.take(t.depth - 1)
                } else {
                    stack
                };
                lemma_path_join_last(popped.push(dir.name));
                lemma_search_steps_empty_none(t2, popped.push(dir.name));
            },
            EntryV::File(f) => {
                lemma_path_join_last(stack.push(f.name));
                lemma_search_steps_empty_none(t2, stack);
            },
        }
    } else if t.pending.len() == 0 {
    } else {
        let d = t.pending.last().0;
        let e = t.pending.last().1;
        assert(entry_names_nonempty(t.pending[t.pending.len() - 1].1));
        match e {
            EntryV::File(_) => {
            },
            EntryV::Directory(dir) => {
                let dd = (d + 1) as usize;
                let t2 = TravV {
                    depth: d,
                    files: file_children_rev(dir.entries),
                    pending: t.pending.drop_last() + dir_children(dir.entries, dd),
                };
                assert forall|i: int|
                    0 <= i < t2.files.len() implies entry_names_nonempty(
                    #[trigger] t2.files[i],
                ) by {
                    lemma_fcr_names_nonempty(dir.entries, i);
                }
                assert forall|i: int|
                    0 <= i < t2.pending.len() implies entry_names_nonempty(
                    (#[trigger] t2.pending[i]).1,
                ) by {
                    if i < t.pending.drop_last().len() {
                        assert(t2.pending[i] == t.pending[i]);
                    } else {
                        lemma_dc_names_nonempty(
                            dir.entries,
                            dd,
                            i - t.pending.drop_last().len(),
                        );
                        assert(t2.pending[i] == dir_children(dir.entries, dd)[i - t.pending.drop_last().len()]);
                    }
                }
                lemma_pending_size_add(t.pending.drop_last(), dir_children(dir.entries, dd));
                lemma_expand_size(dir.entries, dd);
                let popped = if stack.len() >= d {
                    stack.take(d - 1)
                } else {
                    stack
                };
                let stack2 = popped.push(dir.name);
                lemma_path_join_last(stack2);
                lemma_search_steps_empty_none(t2, stack2);
                assert(spec_yields(t).drop_first() =~= spec_yields(t2));
            },
        }
    }
}

/// The empty path matches nothing: in a tree whose names are all
/// non-empty — which every parsed tree is — every accumulated path
/// ends in a non-empty name, so search of the empty path returns
/// `None`.
pub proof fn lemma_search_empty_path(dv: DirV)
    requires
        entries_names_nonempty(dv.entries),
    ensures
        spec_search(dv, Seq::empty()) is None,
{
    let t = init_traversal(dv);
    assert forall|i: int|
        0 <= i < t.files.len() implies entry_names_nonempty(#[trigger] t.files[i]) by {
        lemma_fc_names_nonempty(dv.entries, i);
    }
    assert forall|i: int|
        0 <= i < t.pending.len() implies entry_names_nonempty((#[trigger] t.pending[i]).1) by {
        lemma_dc_names_nonempty(dv.entries, 1, i);
    }
    lemma_search_steps_empty_none(t, Seq::empty());
}

} // verus!

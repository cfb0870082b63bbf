use vstd::prelude::*;
use std::collections::VecDeque;
use crate::node::Node;
use crate::path::components_of;
use crate::path::join_path;
use crate::tree::Tree;
use crate::model::FileDetails;
use crate::model::sort_by_size_desc;
use crate::model::sorted_by_size_desc;

verus! {

/// Plain metadata for one filesystem entry, as a directory listing reports
/// it: a path or local name, the on-disk byte size, kind flags, and the
/// optional timestamps (seconds since the epoch).
#[derive(Debug, Clone)]
pub struct FileNode {
    pub path: String,
    pub size: u64,
    pub is_directory: bool,
    pub is_link: bool,
    pub modified: Option<u64>,
    pub created: Option<u64>,
}

impl FileNode {
    pub fn new(path: String, is_dir: bool, is_link: bool) -> (r: FileNode)
        ensures
            r.path == path,
            r.size == 0,
            r.is_directory == is_dir,
            r.is_link == is_link,
            r.modified is None,
            r.created is None,
    {
        FileNode {
            path: path,
            size: 0,
            is_directory: is_dir,
            is_link: is_link,
            modified: None,
            created: None,
        }
    }
}

/// The local name of an entry: the last name component of its path, or the
/// path itself when it has no components (the root, or an empty string).
pub open spec fn local_name_of(s: Seq<char>) -> Seq<char> {
    if components_of(s).len() == 0 {
        s
    } else {
        components_of(s).last()
    }
}

/// The tree node an entry becomes on insertion: it carries the entry's local
/// name and flags, starts with no children, and starts at the entry's size
/// for a file but at size 0 for a directory, whose size arrives bottom-up as
/// its own children are inserted.
pub open spec fn is_leaf_of(n: Node, value: FileNode) -> bool {
    &&& n.path@ == local_name_of(value.path@)
    &&& n.size == if value.is_directory {
        0int
    } else {
        value.size as int
    }
    &&& n.is_directory == value.is_directory
    &&& n.is_link == value.is_link
    &&& n.modified == value.modified
    &&& n.created == value.created
    &&& n.count == 0
    &&& n.children@.len() == 0
}

/// A snapshot of how far the current scan has come: how many nodes are in
/// the index, their byte total, the path most recently worked on, and
/// whether a scan is underway.
#[derive(Debug, Clone)]
pub struct ScanProgress {
    pub scaned_files: u64,
    pub scaned_size: u64,
    pub current_path: Option<String>,
    pub is_scanning: bool,
}

impl ScanProgress {
    /// Returns the snapshot to its initial, idle state.
    pub fn reset(&mut self)
        ensures
            final(self).scaned_files == 0,
            final(self).scaned_size == 0,
            final(self).current_path is None,
            final(self).is_scanning == false,
    {
        self.scaned_files = 0;
        self.scaned_size = 0;
        self.current_path = None;
        self.is_scanning = false;
    }
}


/// The byte total that a sequence of listed entries will add to the index:
/// files contribute their size, directories start empty and contribute 0.
pub open spec fn sum_entry_sizes(s: Seq<FileNode>) -> int
    decreases s.len(),
{
    if s.len() == 0 {
        0
    } else {
        (if s[0].is_directory {
            0int
        } else {
            s[0].size as int
        }) + sum_entry_sizes(s.drop_first())
    }
}

/// The number of directory entries in a listing.
pub open spec fn dir_count(s: Seq<FileNode>) -> int
    decreases s.len(),
{
    if s.len() == 0 {
        0
    } else {
        (if s[0].is_directory {
            1int
        } else {
            0int
        }) + dir_count(s.drop_first())
    }
}

proof fn lemma_sum_entry_sizes_nonneg(s: Seq<FileNode>)
    ensures
        sum_entry_sizes(s) >= 0,
        0 <= dir_count(s) <= s.len(),
    decreases s.len(),
{
    if s.len() > 0 {
        lemma_sum_entry_sizes_nonneg(s.drop_first());
    }
}

/// The names of the directory entries of a listing, in listing order:
/// exactly the paths that expanding the directory adds to the queue.
pub open spec fn subdir_names(s: Seq<FileNode>) -> Seq<Seq<char>>
    decreases s.len(),
{
    if s.len() == 0 {
        Seq::empty()
    } else {
        (if s[0].is_directory {
            seq![s[0].path@]
        } else {
            Seq::empty()
        }) + subdir_names(s.drop_first())
    }
}

/// Every queued subdirectory name is the path of some directory entry of
/// the listing.
proof fn lemma_subdir_names_member(s: Seq<FileNode>, j: int)
    requires
        0 <= j < subdir_names(s).len(),
    ensures
        exists|k: int|
            0 <= k < s.len() && (#[trigger] s[k]).is_directory && s[k].path@ == subdir_names(s)[j],
    decreases s.len(),
{
    if s[0].is_directory && j == 0 {
        assert(subdir_names(s)[0] == s[0].path@);
        assert(0 <= 0 < s.len() && s[0].is_directory && s[0].path@ == subdir_names(s)[j]);
    } else {
        let head_len: int = if s[0].is_directory {
            1int
        } else {
            0int
        };
        lemma_subdir_names_member(s.drop_first(), j - head_len);
        let k = choose|k: int|
            0 <= k < s.drop_first().len() && (#[trigger] s.drop_first()[k]).is_directory
                && s.drop_first()[k].path@ == subdir_names(s.drop_first())[j - head_len];
        assert(s[k + 1] == s.drop_first()[k]);
        assert(subdir_names(s)[j] == subdir_names(s.drop_first())[j - head_len]);
        assert(0 <= k + 1 < s.len() && s[k + 1].is_directory && s[k + 1].path@ == subdir_names(
            s,
        )[j]);
    }
}

/// An entry name as a listing reports it: non-empty and free of separators,
/// so that it is exactly one path component.
pub open spec fn plain_name(s: Seq<char>) -> bool {
    s.len() > 0 && forall|j: int| 0 <= j < s.len() ==> s[j] != '/'
}

/// The mount point that a scan never re-enters: a volume that appears a
/// second time under this path would double every total.
pub open spec fn excluded_components() -> Seq<Seq<char>> {
    seq!["System"@, "Volumes"@, "Data"@]
}

/// The concurrent scan engine: the shared index, the queue of directories
/// still to expand, the outstanding-work counter that detects true
/// completion, and the progress snapshot. The worker pool drives it from
/// outside; every transition it may take is a method here.
pub struct Scanner {
    pub queue: VecDeque<String>,
    pub files: Tree,
    pub concurrency: usize,
    pub outstanding: u64,
    pub progress: ScanProgress,
}

impl Scanner {
    /// The engine's invariant: the index is well-formed, rooted, and the
    /// progress counters mirror the root's aggregates.
    pub open spec fn wf(self) -> bool {
        &&& self.files.wf()
        &&& self.files.root is Some
        &&& self.progress.scaned_files == self.files.root->0.count
        &&& self.progress.scaned_size == self.files.root->0.size
    }

    pub fn new(concurrency: usize) -> (r: Scanner)
        requires
            concurrency >= 1,
        ensures
            r.wf(),
            r.concurrency == concurrency,
            r.queue@.len() == 0,
            r.outstanding == 0,
            r.progress.is_scanning == false,
            r.progress.current_path is None,
            r.progress.scaned_files == 0,
            r.progress.scaned_size == 0,
            r.files.root->0.is_directory,
            r.files.root->0.is_link == false,
            r.files.root->0.modified is None,
            r.files.root->0.created is None,
            r.files.root->0.count == 0,
            r.files.root->0.size == 0,
            r.files.root->0.children@.len() == 0,
            r.files.root->0.path@ == "/"@,
            r.files.root->0.sizes_converged(),
    {
        Scanner {
            queue: VecDeque::new(),
            files: Tree::from_value(FileNode::new("/".to_owned(), true, false)),
            concurrency: concurrency,
            outstanding: 0,
            progress: ScanProgress {
                scaned_files: 0,
                scaned_size: 0,
                current_path: None,
                is_scanning: false,
            },
        }
    }

    /// Seeds the queue with the root as the one outstanding item and marks
    /// the scan as running; the workers then drain the queue.
    pub fn start(&mut self)
        requires
            old(self).wf(),
        ensures
            final(self).wf(),
            final(self).files == old(self).files,
            final(self).queue@.len() == old(self).queue@.len() + 1,
            final(self).queue@.last()@ == old(self).files.root->0.path@,
            final(self).outstanding == 1,
            final(self).progress.is_scanning,
            final(self).progress.current_path is Some,
            final(self).progress.current_path->0@ == old(self).files.root->0.path@,
    {
        let root_path = self.files.root_path();
        let current = self.files.root_path();
        let scaned_files = self.files.root_count();
        let scaned_size = self.files.root_size();
        self.queue.push_back(root_path);
        self.outstanding = 1;
        self.progress = ScanProgress {
            scaned_files: scaned_files,
            scaned_size: scaned_size,
            current_path: Some(current),
            is_scanning: true,
        };
    }

    /// Hands out the next queued directory, oldest first.
    pub fn next_item(&mut self) -> (r: Option<String>)
        requires
            old(self).wf(),
        ensures
            final(self).wf(),
            final(self).files == old(self).files,
            final(self).outstanding == old(self).outstanding,
            final(self).progress == old(self).progress,
            match r {
                Some(p) => old(self).queue@.len() > 0 && p == old(self).queue@[0] && final(self).queue@ == old(self).queue@.subrange(1, old(self).queue@.len() as int),
                None => old(self).queue@.len() == 0 && final(self).queue@ == old(self).queue@,
            },
    {
        self.queue.pop_front()
    }

    /// Whether a dequeued path needs a directory listing: it must still
    /// name a node, the node must be an unexcluded directory, and symlinks
    /// are recorded but never followed.
    pub fn wants_listing(&self, path: &str) -> (r: bool)
        requires
            self.wf(),
        ensures
            r == {
                &&& self.files.lookup(path@) is Some
                &&& self.files.lookup(path@)->0.is_directory
                &&& !self.files.lookup(path@)->0.is_link
                &&& components_of(path@) != excluded_components()
            },
    {
        match self.files.get_node(path) {
            None => false,
            Some(node) => {
                if !node.is_directory || node.is_link {
                    false
                } else {
                    let comps = crate::path::parse_components(path);
                    let excluded = comps.len() == 3 && {
                        let a = "System".to_owned();
                        let b = "Volumes".to_owned();
                        let c = "Data".to_owned();
                        comps[0] == a && comps[1] == b && comps[2] == c
                    };
                    proof {
                        if comps@.len() == 3 {
                            assert(comps.deep_view() =~= seq![
                                comps@[0]@,
                                comps@[1]@,
                                comps@[2]@,
                            ]);
                            if comps@[0]@ == "System"@ && comps@[1]@ == "Volumes"@ && comps@[2]@
                                == "Data"@ {
                                assert(comps.deep_view() =~= excluded_components());
                            }
                        }
                        if comps.deep_view() == excluded_components() {
                            assert(comps@.len() == 3);
                            assert(comps@[0]@ == "System"@ && comps@[1]@ == "Volumes"@ && comps@[
                                2
                            ]@ == "Data"@);
                        }
                    }
                    !excluded
                }
            },
        }
    }

    /// Marks one dequeued item as fully handled without expanding it.
    pub fn finish_item(&mut self)
        requires
            old(self).wf(),
            old(self).outstanding >= 1,
        ensures
            final(self).wf(),
            final(self).files == old(self).files,
            final(self).queue@ == old(self).queue@,
            final(self).progress == old(self).progress,
            final(self).outstanding == old(self).outstanding - 1,
    {
        self.outstanding = self.outstanding - 1;
    }

    /// A worker may exit only when no item is queued and none is still
    /// being expanded: a bare queue check would race with a sibling about
    /// to enqueue what it found.
    pub fn should_exit_scan(&self) -> (r: bool)
        ensures
            r == (self.queue@.len() == 0 && self.outstanding == 0),
    {
        self.queue.len() == 0 && self.outstanding == 0
    }

    /// Applies one directory listing: every entry is inserted under the
    /// listed directory, subdirectories are queued for expansion, the
    /// listed item is retired from the outstanding count, and the progress
    /// snapshot is brought up to date and returned for publication.
    #[verifier::loop_isolation(false)]
    pub fn process_directory(&mut self, dir_path: &str, entries: Vec<FileNode>) -> (r: Result<
        ScanProgress,
        String,
    >)
        requires
            old(self).wf(),
            old(self).outstanding >= 1,
            forall|k: int| 0 <= k < entries@.len() ==> plain_name((#[trigger] entries@[k]).path@),
            old(self).files.root->0.count + entries@.len() <= u64::MAX,
            old(self).files.root->0.size + sum_entry_sizes(entries@) <= u64::MAX,
            old(self).outstanding + dir_count(entries@) <= u64::MAX,
        ensures
            final(self).wf(),
            final(self).concurrency == old(self).concurrency,
            r is Ok <==> old(self).files.lookup(dir_path@) is Some,
            r is Err ==> final(self).files == old(self).files && final(self).queue@ == old(self).queue@ && final(self).outstanding == old(self).outstanding && final(self).progress
                == old(self).progress,
            r is Ok ==> {
                &&& final(self).files.root->0.count == old(self).files.root->0.count
                    + entries@.len()
                &&& final(self).files.root->0.size == old(self).files.root->0.size
                    + sum_entry_sizes(entries@)
                &&& final(self).files.lookup(dir_path@) is Some
                &&& old(self).files.root->0.sizes_converged() ==> final(self).files.root->0.sizes_converged()
                &&& final(self).outstanding == old(self).outstanding + dir_count(entries@) - 1
                &&& final(self).queue@.len() == old(self).queue@.len() + dir_count(entries@)
                &&& forall|j: int|
                    0 <= j < subdir_names(entries@).len() ==> components_of(
                        (#[trigger] final(self).queue@[old(self).queue@.len() + j])@,
                    ) == components_of(dir_path@).push(subdir_names(entries@)[j])
                &&& forall|j: int|
                    old(self).queue@.len() <= j < final(self).queue@.len()
                        ==> final(self).files.lookup((#[trigger] final(self).queue@[j])@) is Some
                &&& {
                    let nd_old = old(self).files.lookup(dir_path@)->0;
                    let nd_new = final(self).files.lookup(dir_path@)->0;
                    &&& nd_new.children@.len() == nd_old.children@.len() + entries@.len()
                    &&& (forall|j: int|
                        0 <= j < nd_old.children@.len() ==> #[trigger] nd_new.children@[j]
                            == nd_old.children@[j])
                    &&& (forall|k: int|
                        0 <= k < entries@.len() ==> is_leaf_of(
                            #[trigger] nd_new.children@[nd_old.children@.len() + k],
                            entries@[k],
                        ))
                    &&& nd_new.count == nd_old.count + entries@.len()
                    &&& nd_new.size == nd_old.size + sum_entry_sizes(entries@)
                    &&& nd_new.path == nd_old.path
                    &&& nd_new.is_directory == nd_old.is_directory
                }
                &&& final(self).progress.scaned_files == final(self).files.root->0.count
                &&& final(self).progress.scaned_size == final(self).files.root->0.size
                &&& final(self).progress.is_scanning
                &&& final(self).progress.current_path is Some
                &&& final(self).progress.current_path->0@ == dir_path@
                &&& r->Ok_0.scaned_files == final(self).files.root->0.count
                &&& r->Ok_0.scaned_size == final(self).files.root->0.size
                &&& r->Ok_0.is_scanning
                &&& r->Ok_0.current_path is Some
                &&& r->Ok_0.current_path->0@ == dir_path@
            },
    {
        if !self.files.contains(dir_path) {
            let mut msg = "parent not found, ".to_owned();
            msg.append(dir_path);
            return Err(msg);
        }
        let ghost entries0 = entries@;
        let ghost base = components_of(dir_path@);
        let ghost queue0 = self.queue@;
        let ghost nd0 = self.files.lookup(dir_path@)->0;
        let mut remaining = entries;
        let mut dirs_found: u64 = 0;
        proof {
            assert(remaining@ =~= entries0.skip(0));
            lemma_sum_entry_sizes_nonneg(entries0);
        }
        while remaining.len() > 0
            invariant
                self.files.wf(),
                self.files.root is Some,
                self.files.lookup(dir_path@) is Some,
                self.concurrency == old(self).concurrency,
                remaining@ =~= entries0.skip(entries0.len() - remaining@.len()),
                remaining@.len() <= entries0.len(),
                forall|k: int|
                    0 <= k < remaining@.len() ==> plain_name((#[trigger] remaining@[k]).path@),
                self.files.root->0.count + remaining@.len() == old(self).files.root->0.count
                    + entries0.len(),
                self.files.root->0.size + sum_entry_sizes(remaining@) == old(self).files.root->0.size + sum_entry_sizes(entries0),
                self.files.root->0.size + sum_entry_sizes(remaining@) <= u64::MAX,
                old(self).files.root->0.sizes_converged()
                    ==> self.files.root->0.sizes_converged(),
                self.queue@.len() + dir_count(remaining@) == queue0.len() + dir_count(entries0),
                forall|j: int| 0 <= j < queue0.len() ==> self.queue@[j] == queue0[j],
                self.queue@.len() == queue0.len() + subdir_names(entries0).len() - subdir_names(
                    remaining@,
                ).len(),
                subdir_names(entries0) == subdir_names(entries0).take(
                    subdir_names(entries0).len() - subdir_names(remaining@).len(),
                ) + subdir_names(remaining@),
                forall|j: int|
                    0 <= j < subdir_names(entries0).len() - subdir_names(remaining@).len()
                        ==> components_of((#[trigger] self.queue@[queue0.len() + j])@)
                        == components_of(dir_path@).push(subdir_names(entries0)[j])
                        && crate::is_absolute((self.queue@[queue0.len() + j])@),
                self.files.lookup(dir_path@)->0.children@.len() == nd0.children@.len() + (
                entries0.len() - remaining@.len()),
                forall|j: int|
                    0 <= j < nd0.children@.len() ==> #[trigger] self.files.lookup(
                        dir_path@,
                    )->0.children@[j] == nd0.children@[j],
                forall|k: int|
                    0 <= k < entries0.len() - remaining@.len() ==> is_leaf_of(
                        #[trigger] self.files.lookup(dir_path@)->0.children@[nd0.children@.len()
                            + k],
                        entries0[k],
                    ),
                self.files.lookup(dir_path@)->0.count == nd0.count + (entries0.len()
                    - remaining@.len()),
                self.files.lookup(dir_path@)->0.size == nd0.size + (sum_entry_sizes(entries0)
                    - sum_entry_sizes(remaining@)),
                self.files.lookup(dir_path@)->0.path == nd0.path,
                self.files.lookup(dir_path@)->0.is_directory == nd0.is_directory,
                dirs_found + dir_count(remaining@) == dir_count(entries0),
                dirs_found <= entries0.len(),
                self.outstanding == old(self).outstanding,
                self.progress == old(self).progress,
            decreases remaining@.len(),
        {
            let ghost rem_before = remaining@;
            let ghost qhead = self.queue@;
            proof {
                lemma_sum_entry_sizes_nonneg(rem_before.drop_first());
                lemma_sum_entry_sizes_nonneg(rem_before);
                lemma_sum_entry_sizes_nonneg(entries0);
            }
            let entry = remaining.remove(0);
            proof {
                assert(remaining@ =~= rem_before.drop_first());
                assert(remaining@ =~= entries0.skip(entries0.len() - remaining@.len()));
                assert(entries0.contains(entry)) by {
                    assert(entry == entries0[entries0.len() - rem_before.len()]);
                }
            }
            let is_dir = entry.is_directory;
            let name = entry.path.clone();
            proof {
                assert(name@ == entry.path@);
                assert(plain_name(entry.path@)) by {
                    assert(rem_before[0] == entry);
                }
            }
            let ghost tree_before = self.files;
            proof {
                assert(self.files.root->0.count + 1 <= u64::MAX);
                assert(self.files.root->0.size + (if entry.is_directory {
                    0int
                } else {
                    entry.size as int
                }) <= u64::MAX) by {
                    assert(sum_entry_sizes(rem_before) == (if rem_before[0].is_directory {
                        0int
                    } else {
                        rem_before[0].size as int
                    }) + sum_entry_sizes(rem_before.drop_first()));
                }
            }
            let res = self.files.insert(dir_path, entry);
            proof {
                assert(res is Ok);
                assert(exists|leaf: Node|
                    #[trigger] is_leaf_of(leaf, entry) && self.files.root->0.is_insert_of(
                        tree_before.root->0,
                        base,
                        leaf,
                    ));
                let leaf = choose|leaf: Node|
                    is_leaf_of(leaf, entry) && self.files.root->0.is_insert_of(
                        tree_before.root->0,
                        base,
                        leaf,
                    );
                crate::tree::lemma_insert_ancestors(
                    self.files.root->0,
                    tree_before.root->0,
                    base,
                    leaf,
                    base.len() as int,
                );
                assert(base.take(base.len() as int) =~= base);
                assert(self.files.lookup(dir_path@) is Some);
                assert(leaf.count == 0);
                crate::tree::lemma_insert_at_target(
                    self.files.root->0,
                    tree_before.root->0,
                    base,
                    leaf,
                );
                let nd_prev = tree_before.lookup(dir_path@)->0;
                let nd_cur = self.files.lookup(dir_path@)->0;
                let done: int = entries0.len() - rem_before.len();
                assert(nd_cur.children@ == nd_prev.children@.push(leaf));
                assert forall|j: int|
                    0 <= j < nd0.children@.len() implies #[trigger] nd_cur.children@[j]
                    == nd0.children@[j] by {
                    assert(nd_cur.children@[j] == nd_prev.children@[j]);
                }
                assert forall|k: int|
                    0 <= k < done + 1 implies is_leaf_of(
                        #[trigger] nd_cur.children@[nd0.children@.len() + k],
                        entries0[k],
                    ) by {
                    if k < done {
                        assert(nd_cur.children@[nd0.children@.len() + k] == nd_prev.children@[
                            nd0.children@.len() + k
                        ]);
                    } else {
                        assert(nd_cur.children@[nd0.children@.len() + k] == leaf);
                        assert(entries0[k] == entry);
                    }
                }
            }
            if is_dir {
                dirs_found = dirs_found + 1;
                let sub_path = join_path(dir_path, &name);
                self.queue.push_back(sub_path);
            }
            proof {
                let names = subdir_names(entries0);
                let done_before = names.len() - subdir_names(rem_before).len();
                let done_now = names.len() - subdir_names(remaining@).len();
                assert(subdir_names(rem_before) == (if rem_before[0].is_directory {
                    seq![rem_before[0].path@]
                } else {
                    Seq::<Seq<char>>::empty()
                }) + subdir_names(rem_before.drop_first()));
                if is_dir {
                    assert(subdir_names(rem_before) == seq![rem_before[0].path@]
                        + subdir_names(remaining@));
                    assert(done_now == done_before + 1);
                    assert(names[done_before] == rem_before[0].path@) by {
                        assert(names == names.take(done_before) + subdir_names(rem_before));
                        assert((names.take(done_before) + subdir_names(rem_before))[done_before]
                            == subdir_names(rem_before)[0]);
                    }
                    assert(names.take(done_now) =~= names.take(done_before) + seq![
                        names[done_before],
                    ]);
                    assert(names =~= names.take(done_now) + subdir_names(remaining@));
                } else {
                    assert(subdir_names(rem_before) == subdir_names(remaining@));
                }
                assert forall|j: int|
                    0 <= j < names.len() - subdir_names(remaining@).len() implies components_of(
                        (#[trigger] self.queue@[queue0.len() + j])@,
                    ) == components_of(dir_path@).push(names[j]) && crate::is_absolute((
                    self.queue@[queue0.len() + j])@) by {
                    if j < done_before {
                        assert(self.queue@[queue0.len() + j] == qhead[queue0.len() + j]);
                    } else {
                        assert(is_dir && j == done_before);
                        assert(self.queue@[queue0.len() + j] == self.queue@.last());
                        assert(crate::is_absolute(dir_path@));
                    }
                }
            }
        }
        proof {
            assert(remaining@ =~= Seq::<FileNode>::empty());
            assert(subdir_names(remaining@) =~= Seq::<Seq<char>>::empty());
            assert(dir_count(remaining@) == 0);
            assert(sum_entry_sizes(remaining@) == 0);
            let names = subdir_names(entries0);
            let nd_new = self.files.lookup(dir_path@)->0;
            assert forall|j: int|
                queue0.len() <= j < self.queue@.len() implies self.files.lookup((
            #[trigger] self.queue@[j])@) is Some by {
                let jj = j - queue0.len();
                assert(0 <= jj < names.len());
                assert(self.queue@[j] == self.queue@[queue0.len() + jj]);
                assert(components_of(self.queue@[j]@) == base.push(names[jj]));
                assert(crate::is_absolute(self.queue@[j]@));
                lemma_subdir_names_member(entries0, jj);
                let k = choose|k: int|
                    0 <= k < entries0.len() && (#[trigger] entries0[k]).is_directory && entries0[
                        k
                    ].path@ == names[jj];
                crate::path::lemma_plain_components(entries0[k].path@);
                assert(is_leaf_of(nd_new.children@[nd0.children@.len() + k], entries0[k]));
                assert(local_name_of(entries0[k].path@) == entries0[k].path@);
                assert(nd_new.children@[nd0.children@.len() + k].path@ == names[jj]);
                crate::tree::lemma_find_child_found(nd_new.children@, names[jj]);
                crate::tree::lemma_resolve_snoc(self.files.root->0, base, names[jj]);
                assert(self.files.root->0.resolve(base.push(names[jj])) is Some);
            }
        }
        self.outstanding = (self.outstanding - 1) + dirs_found;
        let scaned_files = self.files.root_count();
        let scaned_size = self.files.root_size();
        self.progress = ScanProgress {
            scaned_files: scaned_files,
            scaned_size: scaned_size,
            current_path: Some(dir_path.to_owned()),
            is_scanning: true,
        };
        Ok(
            ScanProgress {
                scaned_files: scaned_files,
                scaned_size: scaned_size,
                current_path: Some(dir_path.to_owned()),
                is_scanning: true,
            },
        )
    }
}


/// How an outward `FileDetails` mirrors the index node it describes: every
/// field comes from the node, the display name being the last component of
/// the node's stored path, or the separator when it has none.
pub open spec fn details_matches(d: FileDetails, n: Node) -> bool {
    &&& d.name@ == if components_of(n.path@).len() > 0 {
        components_of(n.path@).last()
    } else {
        "/"@
    }
    &&& d.path@ == n.path@
    &&& d.size == n.size
    &&& d.is_directory == n.is_directory
    &&& d.created == if n.created is Some {
        n.created->0
    } else {
        0u64
    }
    &&& d.modified == if n.modified is Some {
        n.modified->0
    } else {
        0u64
    }
    &&& d.readonly == false
    &&& d.file_type@ == "file"@
}

/// A plain copy of one node's entry data, without its children.
pub(crate) fn file_node_of(n: &Node) -> (r: FileNode)
    ensures
        r.path@ == n.path@,
        r.size == n.size,
        r.is_directory == n.is_directory,
        r.is_link == n.is_link,
        r.modified == n.modified,
        r.created == n.created,
{
    FileNode {
        path: n.path.clone(),
        size: n.size,
        is_directory: n.is_directory,
        is_link: n.is_link,
        modified: n.modified,
        created: n.created,
    }
}

impl Scanner {
    /// Halts the scan: the queue is emptied, nothing is outstanding, and
    /// the snapshot shows the scan stopped; the index keeps what was
    /// already inserted.
    pub fn stop_scanning(&mut self)
        requires
            old(self).wf(),
        ensures
            final(self).wf(),
            final(self).files == old(self).files,
            final(self).concurrency == old(self).concurrency,
            final(self).queue@.len() == 0,
            final(self).outstanding == 0,
            final(self).progress.is_scanning == false,
            final(self).progress.current_path is None,
            final(self).progress.scaned_files == old(self).progress.scaned_files,
            final(self).progress.scaned_size == old(self).progress.scaned_size,
    {
        self.queue.clear();
        self.outstanding = 0;
        self.progress.is_scanning = false;
        self.progress.current_path = None;
    }

    /// Halts the scan and discards everything: a fresh empty root and a
    /// zeroed snapshot.
    pub fn clear(&mut self)
        requires
            old(self).wf(),
        ensures
            final(self).wf(),
            final(self).concurrency == old(self).concurrency,
            final(self).queue@.len() == 0,
            final(self).outstanding == 0,
            final(self).progress.is_scanning == false,
            final(self).progress.current_path is None,
            final(self).progress.scaned_files == 0,
            final(self).progress.scaned_size == 0,
            final(self).files.root is Some,
            final(self).files.root->0.count == 0,
            final(self).files.root->0.size == 0,
            final(self).files.root->0.children@.len() == 0,
            final(self).files.root->0.is_directory,
            final(self).files.root->0.is_link == false,
            final(self).files.root->0.modified is None,
            final(self).files.root->0.created is None,
            final(self).files.root->0.path@ == "/"@,
            final(self).files.root->0.sizes_converged(),
    {
        self.stop_scanning();
        self.files = Tree::from_value(FileNode::new("/".to_owned(), true, false));
        self.progress.reset();
    }

    /// A copy of the current progress snapshot.
    pub fn get_progress(&self) -> (r: ScanProgress)
        ensures
            r.scaned_files == self.progress.scaned_files,
            r.scaned_size == self.progress.scaned_size,
            r.is_scanning == self.progress.is_scanning,
            r.current_path is Some <==> self.progress.current_path is Some,
            r.current_path is Some ==> r.current_path->0@ == self.progress.current_path->0@,
    {
        match self.progress.current_path.as_ref() {
            Some(p) => ScanProgress {
                scaned_files: self.progress.scaned_files,
                scaned_size: self.progress.scaned_size,
                current_path: Some(p.clone()),
                is_scanning: self.progress.is_scanning,
            },
            None => ScanProgress {
                scaned_files: self.progress.scaned_files,
                scaned_size: self.progress.scaned_size,
                current_path: None,
                is_scanning: self.progress.is_scanning,
            },
        }
    }

    pub fn is_scanning(&self) -> (r: bool)
        ensures
            r == self.progress.is_scanning,
    {
        self.progress.is_scanning
    }

    /// Describes the node an absolute path names: its own stats, with its
    /// immediate children attached in order of descending size; an unknown
    /// path yields nothing, not an error.
    pub fn get_file_node(&self, path: &str) -> (r: Option<FileDetails>)
        requires
            self.wf(),
        ensures
            r is Some <==> self.files.lookup(path@) is Some,
            r is Some ==> {
                let n = self.files.lookup(path@)->0;
                &&& details_matches(r->0, n)
                &&& r->0.children is Some
                &&& sorted_by_size_desc(r->0.children->0@)
                &&& r->0.children->0@.len() == n.children@.len()
                &&& exists|raw: Seq<FileDetails>|
                    {
                        &&& raw.len() == n.children@.len()
                        &&& (forall|k: int|
                            0 <= k < raw.len() ==> details_matches(
                                #[trigger] raw[k],
                                n.children@[k],
                            ))
                        &&& r->0.children->0@.to_multiset() == #[trigger] raw.to_multiset()
                    }
            },
    {
        match self.files.get_node(path) {
            None => None,
            Some(node) => {
                let mut current = FileDetails::from(file_node_of(node));
                let mut raw: Vec<FileDetails> = Vec::new();
                let mut k: usize = 0;
                while k < node.children.len()
                    invariant
                        0 <= k <= node.children@.len(),
                        raw@.len() == k,
                        forall|m: int|
                            0 <= m < k ==> details_matches(
                                #[trigger] raw@[m],
                                node.children@[m],
                            ),
                    decreases node.children@.len() - k,
                {
                    let child_stat = file_node_of(&node.children[k]);
                    raw.push(FileDetails::from(child_stat));
                    k = k + 1;
                }
                let ghost raw_snap = raw@;
                let sorted = sort_by_size_desc(raw);
                current.children = Some(sorted);
                Some(current)
            },
        }
    }
}

} // verus!

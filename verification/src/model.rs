use vstd::prelude::*;
use vstd::multiset::Multiset;
use crate::path::parse_components;
use crate::path::components_of;
use crate::service::FileNode;

verus! {

/// The outward-facing description of one entry: its display name, stored
/// path, aggregates and flags, and - for a directory queried as a whole -
/// its immediate children, largest first.
#[derive(Debug)]
pub struct FileDetails {
    pub name: String,
    pub path: String,
    pub size: u64,
    pub is_directory: bool,
    pub created: u64,
    pub modified: u64,
    pub readonly: bool,
    pub file_type: String,
    pub children: Option<Vec<FileDetails>>,
}

/// The totals of one finished scan.
#[derive(Debug)]
pub struct ScanResult {
    pub files: Vec<FileDetails>,
    pub total_size: u64,
    pub total_files: usize,
    pub total_dirs: usize,
}

/// One mounted storage device, with its capacity and free space in bytes.
#[derive(Debug)]
pub struct Volumn {
    pub name: String,
    pub path: String,
    pub total_size: u64,
    pub available_size: u64,
}

impl FileDetails {
    /// Describes one entry: the display name is the last name component of
    /// the entry's path, or the separator itself when the path has none.
    pub fn from(stat: FileNode) -> (r: FileDetails)
        ensures
            components_of(stat.path@).len() > 0 ==> r.name@ == components_of(stat.path@).last(),
            components_of(stat.path@).len() == 0 ==> r.name@ == "/"@,
            r.path == stat.path,
            r.size == stat.size,
            r.is_directory == stat.is_directory,
            r.created == if stat.created is Some { stat.created->0 } else { 0u64 },
            r.modified == if stat.modified is Some { stat.modified->0 } else { 0u64 },
            r.readonly == false,
            r.file_type@ == "file"@,
            r.children is None,
    {
        let mut parts = parse_components(stat.path.as_str());
        let name: String = match parts.pop() {
            Some(last) => last,
            None => "/".to_owned(),
        };
        let created: u64 = match stat.created {
            Some(c) => c,
            None => 0,
        };
        let modified: u64 = match stat.modified {
            Some(m) => m,
            None => 0,
        };
        FileDetails {
            name: name,
            path: stat.path,
            size: stat.size,
            is_directory: stat.is_directory,
            created: created,
            modified: modified,
            readonly: false,
            file_type: "file".to_owned(),
            children: None,
        }
    }
}

impl Default for FileDetails {
    fn default() -> (r: FileDetails)
        ensures
            r.name@.len() == 0,
            r.path@.len() == 0,
            r.size == 0,
            r.is_directory == false,
            r.created == 0,
            r.modified == 0,
            r.readonly == false,
            r.file_type@.len() == 0,
            r.children is None,
    {
        FileDetails {
            name: String::new(),
            path: String::new(),
            size: 0,
            is_directory: false,
            created: 0,
            modified: 0,
            readonly: false,
            file_type: String::new(),
            children: None,
        }
    }
}

/// Sizes never increase along the sequence: the largest entries come first.
pub open spec fn sorted_by_size_desc(s: Seq<FileDetails>) -> bool {
    forall|k1: int, k2: int| 0 <= k1 < k2 < s.len() ==> (#[trigger] s[k1]).size >= (#[trigger] s[k2]).size
}

/// Inserting an element anywhere in a sequence adds exactly it to the
/// sequence's multiset.
proof fn lemma_to_multiset_insert(s: Seq<FileDetails>, pos: int, x: FileDetails)
    requires
        0 <= pos <= s.len(),
    ensures
        s.insert(pos, x).to_multiset() =~= s.to_multiset().insert(x),
{
    broadcast use vstd::seq_lib::group_to_multiset_ensures;

    let t = s.insert(pos, x);
    assert(t.remove(pos) =~= s);
    assert(t[pos] == x);
    assert(t.remove(pos).to_multiset() =~= t.to_multiset().remove(x));
    assert(t.contains(x));
    assert(t.to_multiset().count(x) > 0);
    assert(t.to_multiset() =~= t.to_multiset().remove(x).insert(x));
}

/// Removing the last element takes exactly it out of the multiset.
proof fn lemma_to_multiset_drop_last(s: Seq<FileDetails>)
    requires
        s.len() > 0,
    ensures
        s.subrange(0, s.len() - 1).to_multiset() =~= s.to_multiset().remove(s.last()),
{
    broadcast use vstd::seq_lib::group_to_multiset_ensures;

    assert(s.remove(s.len() - 1) =~= s.subrange(0, s.len() - 1));
    assert(s.remove(s.len() - 1).to_multiset() =~= s.to_multiset().remove(s[s.len() - 1]));
}

/// Reorders entries so that sizes never increase: the same entries, the
/// largest first.
pub fn sort_by_size_desc(v: Vec<FileDetails>) -> (r: Vec<FileDetails>)
    ensures
        r@.len() == v@.len(),
        sorted_by_size_desc(r@),
        r@.to_multiset() == v@.to_multiset(),
{
    broadcast use vstd::seq_lib::group_to_multiset_ensures;
    broadcast use vstd::multiset::group_multiset_axioms;

    let mut src = v;
    let mut r: Vec<FileDetails> = Vec::new();
    proof {
        assert(r@.to_multiset() =~= Multiset::<FileDetails>::empty());
        assert(r@.to_multiset().add(src@.to_multiset()) =~= v@.to_multiset());
    }
    while src.len() > 0
        invariant
            sorted_by_size_desc(r@),
            r@.to_multiset().add(src@.to_multiset()) =~= v@.to_multiset(),
            r@.len() + src@.len() == v@.len(),
        decreases src@.len(),
    {
        let ghost src_before = src@;
        let x = match src.pop() {
            Some(x) => x,
            None => unreached(),
        };
        proof {
            lemma_to_multiset_drop_last(src_before);
        }
        let mut pos: usize = 0;
        while pos < r.len() && r[pos].size >= x.size
            invariant
                0 <= pos <= r@.len(),
                forall|k: int| 0 <= k < pos ==> (#[trigger] r@[k]).size >= x.size,
            decreases r@.len() - pos,
        {
            pos = pos + 1;
        }
        let ghost r_before = r@;
        r.insert(pos, x);
        proof {
            lemma_to_multiset_insert(r_before, pos as int, x);
            src_before.to_multiset_ensures();
            assert(src_before.contains(x));
            assert(src_before.to_multiset().count(x) > 0);
            assert(r@.to_multiset().add(src@.to_multiset()) =~= r_before.to_multiset().add(
                src_before.to_multiset(),
            ));
            assert forall|k1: int, k2: int| 0 <= k1 < k2 < r@.len() implies (
            #[trigger] r@[k1]).size >= (#[trigger] r@[k2]).size by {
                if k2 < pos {
                    assert(r@[k1] == r_before[k1]);
                    assert(r@[k2] == r_before[k2]);
                } else if k2 == pos {
                    if k1 < pos {
                        assert(r@[k1] == r_before[k1]);
                    }
                } else {
                    assert(r@[k2] == r_before[k2 - 1]);
                    assert(pos < r_before.len() ==> r_before[pos as int].size < x.size);
                    if k1 < pos {
                        assert(r@[k1] == r_before[k1]);
                    } else if k1 == pos {
                        assert(r@[k1] == x);
                    } else {
                        assert(r@[k1] == r_before[k1 - 1]);
                    }
                }
            }
        }
    }
    proof {
        assert(src@.to_multiset() =~= Multiset::<FileDetails>::empty());
        assert(r@.to_multiset().add(Multiset::<FileDetails>::empty()) =~= r@.to_multiset());
    }
    r
}

} // verus!

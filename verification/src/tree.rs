use vstd::prelude::*;
use crate::node::Node;
use crate::node::sum_total_counts;
use crate::node::sum_sizes;
use crate::path::components_of;
use crate::path::parse_components;
use crate::is_absolute;

verus! {

/// Index of the first node in `s` whose local name is `name`, or -1.
pub open spec fn find_child(s: Seq<Node>, name: Seq<char>) -> int
    decreases s.len(),
{
    if s.len() == 0 {
        -1
    } else if s[0].path@ == name {
        0
    } else {
        let r = find_child(s.drop_first(), name);
        if r < 0 {
            -1
        } else {
            r + 1
        }
    }
}

/// What `find_child` returns: a match at the first matching position,
/// or -1 when no node has the name.
pub proof fn lemma_find_child(s: Seq<Node>, name: Seq<char>)
    ensures
        find_child(s, name) >= 0 ==> {
            &&& find_child(s, name) < s.len()
            &&& s[find_child(s, name)].path@ == name
            &&& forall|k: int| 0 <= k < find_child(s, name) ==> (#[trigger] s[k]).path@ != name
        },
        find_child(s, name) < 0 ==> forall|k: int|
            0 <= k < s.len() ==> (#[trigger] s[k]).path@ != name,
    decreases s.len(),
{
    if s.len() > 0 {
        lemma_find_child(s.drop_first(), name);
        assert forall|k: int| 1 <= k < s.len() implies s.drop_first()[k - 1] == s[k] by {}
    }
}

/// `find_child` reads only the names, so it agrees on any two sequences
/// whose nodes carry the same names position by position.
pub proof fn lemma_find_child_same_names(s1: Seq<Node>, s2: Seq<Node>, name: Seq<char>)
    requires
        s1.len() == s2.len(),
        forall|k: int| 0 <= k < s1.len() ==> (#[trigger] s1[k]).path == s2[k].path,
    ensures
        find_child(s1, name) == find_child(s2, name),
    decreases s1.len(),
{
    if s1.len() > 0 {
        assert(s1[0].path == s2[0].path);
        assert forall|k: int|
            0 <= k < s1.drop_first().len() implies (#[trigger] s1.drop_first()[k]).path
            == s2.drop_first()[k].path by {
            assert(s1[k + 1].path == s2[k + 1].path);
        }
        lemma_find_child_same_names(s1.drop_first(), s2.drop_first(), name);
    }
}

impl Node {
    /// Walks the name components from this node down, taking at each level
    /// the first child whose name matches, and yields the node reached.
    pub open spec fn resolve(self, path: Seq<Seq<char>>) -> Option<Node>
        decreases self,
    {
        if path.len() == 0 {
            Some(self)
        } else {
            let i = find_child(self.children@, path[0]);
            if 0 <= i < self.children@.len() {
                self.children@[i].resolve(path.drop_first())
            } else {
                None
            }
        }
    }

    /// `self` is `orig` with `child` appended under the node that `path`
    /// reaches, and with `child`'s subtree totals folded into the aggregates
    /// of that node and of every node along `path`.
    pub open spec fn is_insert_of(self, orig: Node, path: Seq<Seq<char>>, child: Node) -> bool
        decreases orig,
    {
        if path.len() == 0 {
            &&& self.children@ == orig.children@.push(child)
            &&& self.count == orig.count + child.count + 1
            &&& self.size == orig.size + child.size
            &&& self.path == orig.path
            &&& self.is_directory == orig.is_directory
            &&& self.is_link == orig.is_link
            &&& self.modified == orig.modified
            &&& self.created == orig.created
        } else {
            let i = find_child(orig.children@, path[0]);
            if 0 <= i < orig.children@.len() && self.children@.len() == orig.children@.len() {
                &&& self.children@[i].is_insert_of(orig.children@[i], path.drop_first(), child)
                &&& self.children@ == orig.children@.update(i, self.children@[i])
                &&& self.count == orig.count + child.count + 1
                &&& self.size == orig.size + child.size
                &&& self.path == orig.path
                &&& self.is_directory == orig.is_directory
                &&& self.is_link == orig.is_link
                &&& self.modified == orig.modified
                &&& self.created == orig.created
            } else {
                false
            }
        }
    }

    /// `self` is `orig` with the node that `path` reaches detached from its
    /// parent's children (as `detached`), and with the detached subtree's
    /// totals subtracted from the aggregates of every node along `path`.
    pub open spec fn is_remove_of(self, orig: Node, path: Seq<Seq<char>>, detached: Node) -> bool
        decreases orig,
    {
        if path.len() == 0 {
            false
        } else {
            let i = find_child(orig.children@, path[0]);
            if 0 <= i < orig.children@.len() {
                &&& self.count == orig.count - detached.count - 1
                &&& self.size == orig.size - detached.size
                &&& self.path == orig.path
                &&& self.is_directory == orig.is_directory
                &&& self.is_link == orig.is_link
                &&& self.modified == orig.modified
                &&& self.created == orig.created
                &&& if path.len() == 1 {
                    &&& detached == orig.children@[i]
                    &&& self.children@ == orig.children@.remove(i)
                } else {
                    &&& self.children@.len() == orig.children@.len()
                    &&& self.children@[i].is_remove_of(
                        orig.children@[i],
                        path.drop_first(),
                        detached,
                    )
                    &&& self.children@ == orig.children@.update(i, self.children@[i])
                }
            } else {
                false
            }
        }
    }
}

/// Finds the first child of `children` whose name equals `name`.
pub(crate) fn find_child_index(children: &Vec<Node>, name: &String) -> (r: Option<usize>)
    ensures
        match r {
            Some(j) => j == find_child(children@, name@),
            None => find_child(children@, name@) < 0,
        },
{
    proof {
        lemma_find_child(children@, name@);
    }
    let mut j: usize = 0;
    while j < children.len()
        invariant
            0 <= j <= children@.len(),
            forall|k: int| 0 <= k < j ==> (#[trigger] children@[k]).path@ != name@,
        decreases children@.len() - j,
    {
        if children[j].path == *name {
            proof {
                lemma_find_child(children@, name@);
            }
            return Some(j);
        }
        j = j + 1;
    }
    proof {
        lemma_find_child(children@, name@);
    }
    None
}

/// Walks the parsed name components downward from `root`.
fn resolve_from<'a>(root: &'a Node, comps: &Vec<String>) -> (r: Option<&'a Node>)
    ensures
        match r {
            Some(n) => root.resolve(comps.deep_view()) == Some(*n),
            None => root.resolve(comps.deep_view()) is None,
        },
{
    let mut cur: &Node = root;
    let mut idx: usize = 0;
    proof {
        assert(comps.deep_view().skip(0) =~= comps.deep_view());
    }
    while idx < comps.len()
        invariant
            0 <= idx <= comps@.len(),
            root.resolve(comps.deep_view()) == cur.resolve(comps.deep_view().skip(idx as int)),
        decreases comps@.len() - idx,
    {
        proof {
            assert(comps.deep_view()[idx as int] == comps@[idx as int]@);
            assert(comps.deep_view().skip(idx as int)[0] == comps.deep_view()[idx as int]);
        }
        match find_child_index(&cur.children, &comps[idx]) {
            Some(j) => {
                proof {
                    lemma_find_child(cur.children@, comps@[idx as int]@);
                    assert(comps.deep_view().skip(idx as int).drop_first() =~= comps.deep_view()
                        .skip(idx as int + 1));
                }
                cur = &cur.children[j];
            },
            None => {
                return None;
            },
        }
        idx = idx + 1;
    }
    proof {
        assert(comps.deep_view().skip(idx as int) =~= Seq::<Seq<char>>::empty());
    }
    Some(cur)
}

/// The hierarchical, size-aggregating index of scanned filesystem entries.
#[derive(Debug)]
pub struct Tree {
    pub root: Option<Node>,
}

impl Tree {
    /// The aggregation invariant holds throughout the tree.
    pub open spec fn wf(self) -> bool {
        self.root is Some ==> self.root->0.wf()
    }

    /// The node an absolute path reaches: the path must start with the
    /// separator, and its name components are walked from the root.
    pub open spec fn lookup(self, key: Seq<char>) -> Option<Node> {
        if self.root is Some && is_absolute(key) {
            self.root->0.resolve(components_of(key))
        } else {
            None
        }
    }

    /// The number of nodes in the tree.
    pub open spec fn spec_size(self) -> int {
        if self.root is Some {
            self.root->0.count + 1
        } else {
            0
        }
    }

    pub fn from_node(node: Node) -> (r: Tree)
        requires
            node.wf(),
        ensures
            r.root == Some(node),
            r.wf(),
    {
        Tree { root: Some(node) }
    }

    /// Looks a node up by absolute path; absence is no error.
    pub fn get_node(&self, key: &str) -> (r: Option<&Node>)
        ensures
            match r {
                Some(n) => self.lookup(key@) == Some(*n),
                None => self.lookup(key@) is None,
            },
    {
        if s_len(key) == 0 || !char_at_is_slash(key, 0) {
            return None;
        }
        let comps = parse_components(key);
        match &self.root {
            Some(root) => resolve_from(root, &comps),
            None => None,
        }
    }

    /// Whether an absolute path currently names a node.
    pub fn contains(&self, key: &str) -> (r: bool)
        ensures
            r == (self.lookup(key@) is Some),
    {
        self.get_node(key).is_some()
    }

    /// The number of nodes in the tree.
    pub fn size(&self) -> (r: u64)
        requires
            self.root is Some ==> self.root->0.count < u64::MAX,
        ensures
            r == self.spec_size(),
    {
        match &self.root {
            Some(root) => root.count + 1,
            None => 0,
        }
    }
}

/// The character length of a string slice.
fn s_len(s: &str) -> (r: usize)
    ensures
        r == s@.len(),
{
    s.unicode_len()
}

/// Whether the character at `i` is the path separator.
fn char_at_is_slash(s: &str, i: usize) -> (r: bool)
    requires
        i < s@.len(),
    ensures
        r == (s@[i as int] == '/'),
{
    s.get_char(i) == '/'
}


/// Inserting a subtree keeps the aggregation invariant everywhere.
pub proof fn lemma_insert_wf(new: Node, orig: Node, path: Seq<Seq<char>>, child: Node)
    requires
        orig.wf(),
        child.wf(),
        new.is_insert_of(orig, path, child),
    ensures
        new.wf(),
    decreases path.len(),
{
    if path.len() == 0 {
        crate::node::lemma_sum_total_counts_push(orig.children@, child);
        crate::node::lemma_sum_sizes_push(orig.children@, child);
        assert forall|k: int| 0 <= k < new.children@.len() implies (
        #[trigger] new.children@[k]).wf() by {
            if k < orig.children@.len() {
                assert(new.children@[k] == orig.children@[k]);
            } else {
                assert(new.children@[k] == child);
            }
        }
    } else {
        let i = find_child(orig.children@, path[0]);
        lemma_insert_wf(new.children@[i], orig.children@[i], path.drop_first(), child);
        crate::node::lemma_sum_total_counts_update(orig.children@, i, new.children@[i]);
        crate::node::lemma_sum_sizes_update(orig.children@, i, new.children@[i]);
        assert forall|k: int| 0 <= k < new.children@.len() implies (
        #[trigger] new.children@[k]).wf() by {
            if k != i {
                assert(new.children@[k] == orig.children@[k]);
            }
        }
    }
}

/// Inserting an entry whose own sizes are exact keeps every directory's
/// size equal to the sum of its children's sizes.
pub proof fn lemma_insert_sizes_converged(new: Node, orig: Node, path: Seq<Seq<char>>, child: Node)
    requires
        orig.sizes_converged(),
        child.sizes_converged(),
        new.is_insert_of(orig, path, child),
    ensures
        new.sizes_converged(),
    decreases path.len(),
{
    if path.len() == 0 {
        crate::node::lemma_sum_sizes_push(orig.children@, child);
        assert forall|k: int| 0 <= k < new.children@.len() implies (
        #[trigger] new.children@[k]).sizes_converged() by {
            if k < orig.children@.len() {
                assert(new.children@[k] == orig.children@[k]);
            } else {
                assert(new.children@[k] == child);
            }
        }
    } else {
        let i = find_child(orig.children@, path[0]);
        lemma_insert_sizes_converged(new.children@[i], orig.children@[i], path.drop_first(), child);
        crate::node::lemma_sum_sizes_update(orig.children@, i, new.children@[i]);
        assert forall|k: int| 0 <= k < new.children@.len() implies (
        #[trigger] new.children@[k]).sizes_converged() by {
            if k != i {
                assert(new.children@[k] == orig.children@[k]);
            }
        }
    }
}

impl Node {
    /// Inserts `child` under the node that components `depth..` of `comps`
    /// reach from here, updating the aggregates of every node on the way.
    fn insert_rec(&mut self, comps: &Vec<String>, depth: usize, child: Node)
        requires
            old(self).wf(),
            depth <= comps@.len(),
            old(self).resolve(comps.deep_view().skip(depth as int)) is Some,
            old(self).count + child.count + 1 <= u64::MAX,
            old(self).size + child.size <= u64::MAX,
        ensures
            final(self).is_insert_of(*old(self), comps.deep_view().skip(depth as int), child),
        decreases comps@.len() - depth,
    {
        let ghost path = comps.deep_view().skip(depth as int);
        if depth == comps.len() {
            proof {
                assert(path =~= Seq::<Seq<char>>::empty());
            }
            self.add_child(child);
        } else {
            proof {
                assert(path[0] == comps.deep_view()[depth as int]);
                assert(comps.deep_view()[depth as int] == comps@[depth as int]@);
            }
            match find_child_index(&self.children, &comps[depth]) {
                Some(j) => {
                    let ccount: u64 = child.count;
                    let csize: u64 = child.size;
                    proof {
                        lemma_find_child(self.children@, comps@[depth as int]@);
                        crate::node::lemma_sum_total_counts_bounds(self.children@);
                        crate::node::lemma_sum_sizes_bounds(self.children@);
                        assert(self.children@[j as int].count + 1 <= self.count);
                        assert(self.children@[j as int].size <= self.size);
                        assert(path.drop_first() =~= comps.deep_view().skip(depth as int + 1));
                    }
                    let ghost orig_children = self.children@;
                    let mut ch = self.children.remove(j);
                    ch.insert_rec(comps, depth + 1, child);
                    self.children.insert(j, ch);
                    self.count = self.count + (ccount + 1);
                    self.size = self.size + csize;
                    proof {
                        assert(self.children@ =~= orig_children.update(j as int, self.children@[
                            j as int
                        ]));
                    }
                },
                None => {
                    proof {
                        lemma_find_child(self.children@, comps@[depth as int]@);
                    }
                    unreached()
                },
            }
        }
    }
}

impl Tree {
    pub fn from_value(value: crate::service::FileNode) -> (r: Tree)
        ensures
            r.wf(),
            r.root is Some,
            r.root->0.path == value.path,
            r.root->0.size == if value.is_directory { 0int } else { value.size as int },
            r.root->0.is_directory == value.is_directory,
            r.root->0.is_link == value.is_link,
            r.root->0.modified == value.modified,
            r.root->0.created == value.created,
            r.root->0.count == 0,
            r.root->0.children@.len() == 0,
            r.root->0.sizes_converged(),
    {
        let size: u64 = if value.is_directory {
            0
        } else {
            value.size
        };
        let node = Node {
            path: value.path,
            size: size,
            is_directory: value.is_directory,
            is_link: value.is_link,
            modified: value.modified,
            created: value.created,
            count: 0,
            children: Vec::new(),
        };
        Tree { root: Some(node) }
    }

    /// Inserts a fully formed node under the node `parent` resolves to.
    /// Fails, leaving the tree unchanged, when `parent` resolves to nothing.
    pub fn insert_node(&mut self, parent: &str, value: Node) -> (r: Result<(), String>)
        requires
            old(self).wf(),
            value.wf(),
            old(self).root is Some ==> old(self).root->0.count + value.count + 1 <= u64::MAX,
            old(self).root is Some ==> old(self).root->0.size + value.size <= u64::MAX,
        ensures
            final(self).wf(),
            r is Ok <==> old(self).lookup(parent@) is Some,
            r is Ok ==> old(self).root is Some && final(self).root is Some
                && final(self).root->0.is_insert_of(
                old(self).root->0,
                components_of(parent@),
                value,
            ),
            r is Ok && old(self).root->0.sizes_converged() && value.sizes_converged()
                ==> final(self).root->0.sizes_converged(),
            r is Err ==> *final(self) == *old(self) && r->Err_0@ == "parent not found, "@
                + parent@,
    {
        if !self.contains(parent) {
            let mut msg = "parent not found, ".to_owned();
            msg.append(parent);
            return Err(msg);
        }
        let comps = parse_components(parent);
        proof {
            assert(comps.deep_view().skip(0) =~= comps.deep_view());
        }
        let root = self.root.take();
        match root {
            Some(mut root) => {
                let ghost old_root = root;
                root.insert_rec(&comps, 0, value);
                proof {
                    lemma_insert_wf(root, old_root, comps.deep_view(), value);
                    if old_root.sizes_converged() && value.sizes_converged() {
                        lemma_insert_sizes_converged(root, old_root, comps.deep_view(), value);
                    }
                }
                self.root = Some(root);
                Ok(())
            },
            None => unreached(),
        }
    }

    /// Creates a node for `value` - named by the last component of the
    /// entry's path, sized 0 for a directory - and inserts it under the node
    /// `parent` resolves to.
    pub fn insert(&mut self, parent: &str, value: crate::service::FileNode) -> (r: Result<
        (),
        String,
    >)
        requires
            old(self).wf(),
            old(self).root is Some ==> old(self).root->0.count + 1 <= u64::MAX,
            old(self).root is Some ==> old(self).root->0.size + (if value.is_directory {
                0int
            } else {
                value.size as int
            }) <= u64::MAX,
        ensures
            final(self).wf(),
            r is Ok <==> old(self).lookup(parent@) is Some,
            r is Ok ==> old(self).root is Some && final(self).root is Some && exists|leaf: Node|
                #[trigger] crate::service::is_leaf_of(leaf, value)
                    && final(self).root->0.is_insert_of(
                    old(self).root->0,
                    components_of(parent@),
                    leaf,
                ),
            r is Ok ==> final(self).root->0.count == old(self).root->0.count + 1,
            r is Ok ==> final(self).root->0.size == old(self).root->0.size + (
                if value.is_directory { 0int } else { value.size as int }),
            r is Ok && old(self).root->0.sizes_converged()
                ==> final(self).root->0.sizes_converged(),
            r is Err ==> *final(self) == *old(self) && r->Err_0@ == "parent not found, "@
                + parent@,
    {
        let ghost entry = value;
        let mut name_parts = parse_components(value.path.as_str());
        let name: String = match name_parts.pop() {
            Some(last) => last,
            None => value.path,
        };
        proof {
            assert(name@ == crate::service::local_name_of(entry.path@));
        }
        let size: u64 = if value.is_directory {
            0
        } else {
            value.size
        };
        let leaf = Node {
            path: name,
            size: size,
            is_directory: value.is_directory,
            is_link: value.is_link,
            modified: value.modified,
            created: value.created,
            count: 0,
            children: Vec::new(),
        };
        let ghost leaf_snap = leaf;
        proof {
            assert(crate::service::is_leaf_of(leaf_snap, entry));
            assert(leaf_snap.wf());
            assert(leaf_snap.sizes_converged());
        }
        self.insert_node(parent, leaf)
    }
}


/// Detaching a subtree keeps the aggregation invariant everywhere, and the
/// detached subtree carries its own intact.
pub proof fn lemma_remove_wf(new: Node, orig: Node, path: Seq<Seq<char>>, detached: Node)
    requires
        orig.wf(),
        new.is_remove_of(orig, path, detached),
    ensures
        new.wf(),
        detached.wf(),
    decreases path.len(),
{
    let i = find_child(orig.children@, path[0]);
    if path.len() == 1 {
        crate::node::lemma_sum_total_counts_remove(orig.children@, i);
        crate::node::lemma_sum_sizes_remove(orig.children@, i);
        assert forall|k: int| 0 <= k < new.children@.len() implies (
        #[trigger] new.children@[k]).wf() by {
            if k < i {
                assert(new.children@[k] == orig.children@[k]);
            } else {
                assert(new.children@[k] == orig.children@[k + 1]);
            }
        }
    } else {
        reveal_with_fuel(Node::is_remove_of, 2);
        lemma_remove_wf(new.children@[i], orig.children@[i], path.drop_first(), detached);
        crate::node::lemma_sum_total_counts_update(orig.children@, i, new.children@[i]);
        crate::node::lemma_sum_sizes_update(orig.children@, i, new.children@[i]);
        assert(new.children@[i].count == orig.children@[i].count - detached.count - 1);
        assert(new.children@[i].size == orig.children@[i].size - detached.size);
        assert(new.count == sum_total_counts(new.children@));
        assert(sum_sizes(new.children@) <= new.size);
        assert forall|k: int| 0 <= k < new.children@.len() implies (
        #[trigger] new.children@[k]).wf() by {
            if k != i {
                assert(new.children@[k] == orig.children@[k]);
            }
        }
    }
}

/// Detaching a subtree keeps every remaining directory's size equal to the
/// sum of its children's sizes: removal subtracts the same amount from a
/// node's size and from its children's total.
pub proof fn lemma_remove_sizes_converged(
    new: Node,
    orig: Node,
    path: Seq<Seq<char>>,
    detached: Node,
)
    requires
        orig.sizes_converged(),
        new.is_remove_of(orig, path, detached),
    ensures
        new.sizes_converged(),
    decreases path.len(),
{
    reveal_with_fuel(Node::is_remove_of, 2);
    let i = find_child(orig.children@, path[0]);
    if path.len() == 1 {
        crate::node::lemma_sum_sizes_remove(orig.children@, i);
        assert forall|k: int| 0 <= k < new.children@.len() implies (
        #[trigger] new.children@[k]).sizes_converged() by {
            if k < i {
                assert(new.children@[k] == orig.children@[k]);
            } else {
                assert(new.children@[k] == orig.children@[k + 1]);
            }
        }
    } else {
        lemma_remove_sizes_converged(new.children@[i], orig.children@[i], path.drop_first(), detached);
        crate::node::lemma_sum_sizes_update(orig.children@, i, new.children@[i]);
        assert(new.children@[i].size == orig.children@[i].size - detached.size);
        assert forall|k: int| 0 <= k < new.children@.len() implies (
        #[trigger] new.children@[k]).sizes_converged() by {
            if k != i {
                assert(new.children@[k] == orig.children@[k]);
            }
        }
    }
}

impl Node {
    /// Detaches the node that components `depth..` of `comps` reach from
    /// here, updating the aggregates of every node on the way, and returns
    /// the detached subtree.
    fn remove_rec(&mut self, comps: &Vec<String>, depth: usize) -> (d: Node)
        requires
            old(self).wf(),
            depth < comps@.len(),
            old(self).resolve(comps.deep_view().skip(depth as int)) is Some,
        ensures
            final(self).is_remove_of(*old(self), comps.deep_view().skip(depth as int), d),
        decreases comps@.len() - depth,
    {
        let ghost path = comps.deep_view().skip(depth as int);
        proof {
            assert(path[0] == comps.deep_view()[depth as int]);
            assert(comps.deep_view()[depth as int] == comps@[depth as int]@);
        }
        match find_child_index(&self.children, &comps[depth]) {
            Some(j) => {
                proof {
                    lemma_find_child(self.children@, comps@[depth as int]@);
                    crate::node::lemma_sum_total_counts_bounds(self.children@);
                    crate::node::lemma_sum_sizes_bounds(self.children@);
                    assert(self.children@[j as int].count + 1 <= self.count);
                    assert(self.children@[j as int].size <= self.size);
                }
                if depth == comps.len() - 1 {
                    proof {
                        assert(path.len() == 1);
                    }
                    let d = self.children.remove(j);
                    self.count = self.count - (d.count + 1);
                    self.size = self.size - d.size;
                    d
                } else {
                    proof {
                        assert(path.drop_first() =~= comps.deep_view().skip(depth as int + 1));
                    }
                    let ghost orig_children = self.children@;
                    let mut ch = self.children.remove(j);
                    let d = ch.remove_rec(comps, depth + 1);
                    self.children.insert(j, ch);
                    proof {
                        assert(self.children@ =~= orig_children.update(j as int, self.children@[
                            j as int
                        ]));
                    }
                    self.count = self.count - (d.count + 1);
                    self.size = self.size - d.size;
                    d
                }
            },
            None => unreached(),
        }
    }
}

impl Tree {
    /// Detaches the subtree that `key` resolves to and returns it; the
    /// aggregates of every remaining ancestor drop by the detached subtree's
    /// totals. Removing the root detaches the whole tree, leaving it empty.
    /// Fails, leaving the tree unchanged, only when `key` resolves to
    /// nothing.
    pub fn remove(&mut self, key: &str) -> (r: Result<Node, String>)
        requires
            old(self).wf(),
        ensures
            final(self).wf(),
            r is Ok <==> old(self).lookup(key@) is Some,
            r is Ok ==> old(self).root is Some && r->Ok_0.wf(),
            r is Ok && components_of(key@).len() == 0 ==> final(self).root is None && r->Ok_0
                == old(self).root->0,
            r is Ok && components_of(key@).len() > 0 ==> final(self).root is Some
                && final(self).root->0.is_remove_of(
                old(self).root->0,
                components_of(key@),
                r->Ok_0,
            ),
            r is Ok && components_of(key@).len() > 0 && old(self).root->0.sizes_converged()
                ==> final(self).root->0.sizes_converged(),
            r is Err ==> *final(self) == *old(self) && r->Err_0@ == key@ + " not found"@,
    {
        if !self.contains(key) {
            let msg = key.to_owned();
            return Err(msg.concat(" not found"));
        }
        let comps = parse_components(key);
        if comps.len() == 0 {
            proof {
                assert(components_of(key@).len() == 0);
            }
            let root = self.root.take();
            match root {
                Some(root) => {
                    return Ok(root);
                },
                None => unreached(),
            }
        }
        proof {
            assert(comps.deep_view().skip(0) =~= comps.deep_view());
        }
        let root = self.root.take();
        match root {
            Some(mut root) => {
                let ghost old_root = root;
                let d = root.remove_rec(&comps, 0);
                proof {
                    lemma_remove_wf(root, old_root, comps.deep_view(), d);
                    if old_root.sizes_converged() {
                        lemma_remove_sizes_converged(root, old_root, comps.deep_view(), d);
                    }
                }
                self.root = Some(root);
                Ok(d)
            },
            None => unreached(),
        }
    }
}


/// At most one node in `s` bears the name `name`.
pub open spec fn name_unique(s: Seq<Node>, name: Seq<char>) -> bool {
    forall|k1: int, k2: int|
        0 <= k1 < k2 < s.len() ==> !((#[trigger] s[k1]).path@ == name && (#[trigger] s[k2]).path@
            == name)
}

/// When no node in `s` bears the name, `find_child` reports no match.
pub proof fn lemma_find_child_none(s: Seq<Node>, name: Seq<char>)
    requires
        forall|k: int| 0 <= k < s.len() ==> (#[trigger] s[k]).path@ != name,
    ensures
        find_child(s, name) < 0,
    decreases s.len(),
{
    if s.len() > 0 {
        assert(s[0].path@ != name);
        assert forall|k: int| 0 <= k < s.drop_first().len() implies (
        #[trigger] s.drop_first()[k]).path@ != name by {
            assert(s[k + 1].path@ != name);
        }
        lemma_find_child_none(s.drop_first(), name);
    }
}

/// Appending a node to a sequence with no match makes it the match exactly
/// when it bears the name.
pub proof fn lemma_find_child_push(s: Seq<Node>, x: Node, name: Seq<char>)
    requires
        find_child(s, name) < 0,
    ensures
        x.path@ == name ==> find_child(s.push(x), name) == s.len(),
        x.path@ != name ==> find_child(s.push(x), name) < 0,
    decreases s.len(),
{
    reveal_with_fuel(find_child, 3);
    lemma_find_child(s, name);
    if s.len() == 0 {
        assert(s.push(x)[0] == x);
        assert(s.push(x).drop_first() =~= Seq::<Node>::empty());
    } else {
        assert(s.push(x)[0] == s[0]);
        assert(s[0].path@ != name);
        assert(s.push(x).drop_first() =~= s.drop_first().push(x));
        assert forall|k: int| 0 <= k < s.drop_first().len() implies (
        #[trigger] s.drop_first()[k]).path@ != name by {
            assert(s[k + 1].path@ != name);
        }
        lemma_find_child_none(s.drop_first(), name);
        lemma_find_child_push(s.drop_first(), x, name);
    }
}

/// Along the inserted path, every node still resolves after an insertion,
/// with its node count raised by the inserted subtree's node total and its
/// size raised by the inserted subtree's size - in particular, no node's
/// size ever shrinks while the index grows.
pub proof fn lemma_insert_ancestors(new: Node, orig: Node, path: Seq<Seq<char>>, child: Node, j: int)
    requires
        new.is_insert_of(orig, path, child),
        0 <= j <= path.len(),
    ensures
        orig.resolve(path.take(j)) is Some,
        new.resolve(path.take(j)) is Some,
        new.resolve(path.take(j))->0.count == orig.resolve(path.take(j))->0.count + child.count
            + 1,
        new.resolve(path.take(j))->0.size == orig.resolve(path.take(j))->0.size + child.size,
    decreases j,
{
    reveal_with_fuel(Node::is_insert_of, 2);
    if j == 0 {
        assert(path.take(0) =~= Seq::<Seq<char>>::empty());
    } else {
        let i = find_child(orig.children@, path[0]);
        assert(new.children@[i].path == orig.children@[i].path);
        assert forall|k: int|
            0 <= k < orig.children@.len() implies (#[trigger] orig.children@[k]).path
            == new.children@[k].path by {
            if k != i {
                assert(new.children@[k] == orig.children@[k]);
            }
        }
        lemma_find_child_same_names(orig.children@, new.children@, path[0]);
        lemma_insert_ancestors(new.children@[i], orig.children@[i], path.drop_first(), child, j - 1);
        assert(path.take(j)[0] == path[0]);
        assert(path.take(j).drop_first() =~= path.drop_first().take(j - 1));
    }
}

/// After inserting `child` under a parent that had no child of that name,
/// the path extended by the child's name resolves to exactly the child.
pub proof fn lemma_insert_resolve_new(new: Node, orig: Node, path: Seq<Seq<char>>, child: Node)
    requires
        new.is_insert_of(orig, path, child),
        orig.resolve(path) is Some,
        find_child(orig.resolve(path)->0.children@, child.path@) < 0,
    ensures
        new.resolve(path.push(child.path@)) == Some(child),
    decreases path.len(),
{
    reveal_with_fuel(Node::is_insert_of, 2);
    reveal_with_fuel(Node::resolve, 3);
    reveal_with_fuel(find_child, 3);
    let q = path.push(child.path@);
    if path.len() == 0 {
        lemma_find_child_push(orig.children@, child, child.path@);
        assert(q[0] == child.path@);
        assert(q.drop_first() =~= Seq::<Seq<char>>::empty());
        assert(new.children@[orig.children@.len() as int] == child);
    } else {
        let i = find_child(orig.children@, path[0]);
        assert(new.children@[i].path == orig.children@[i].path);
        assert forall|k: int|
            0 <= k < orig.children@.len() implies (#[trigger] orig.children@[k]).path
            == new.children@[k].path by {
            if k != i {
                assert(new.children@[k] == orig.children@[k]);
            }
        }
        lemma_find_child_same_names(orig.children@, new.children@, path[0]);
        lemma_insert_resolve_new(new.children@[i], orig.children@[i], path.drop_first(), child);
        assert(q[0] == path[0]);
        assert(q.drop_first() =~= path.drop_first().push(child.path@));
        assert(find_child(new.children@, q[0]) == i);
    }
}

/// A name borne by some node is always found.
pub proof fn lemma_find_child_found(s: Seq<Node>, name: Seq<char>)
    requires
        exists|k: int| 0 <= k < s.len() && (#[trigger] s[k]).path@ == name,
    ensures
        0 <= find_child(s, name) < s.len(),
{
    lemma_find_child(s, name);
    if find_child(s, name) < 0 {
        let k = choose|k: int| 0 <= k < s.len() && (#[trigger] s[k]).path@ == name;
        assert(s[k].path@ != name);
    }
}

/// The node an insertion targets gains exactly the inserted child, appended
/// to its children, and keeps its own name and flags.
pub proof fn lemma_insert_at_target(new: Node, orig: Node, path: Seq<Seq<char>>, child: Node)
    requires
        new.is_insert_of(orig, path, child),
    ensures
        orig.resolve(path) is Some,
        new.resolve(path) is Some,
        new.resolve(path)->0.children@ == orig.resolve(path)->0.children@.push(child),
        new.resolve(path)->0.count == orig.resolve(path)->0.count + child.count + 1,
        new.resolve(path)->0.size == orig.resolve(path)->0.size + child.size,
        new.resolve(path)->0.path == orig.resolve(path)->0.path,
        new.resolve(path)->0.is_directory == orig.resolve(path)->0.is_directory,
        new.resolve(path)->0.is_link == orig.resolve(path)->0.is_link,
        new.resolve(path)->0.modified == orig.resolve(path)->0.modified,
        new.resolve(path)->0.created == orig.resolve(path)->0.created,
    decreases path.len(),
{
    reveal_with_fuel(Node::is_insert_of, 2);
    if path.len() == 0 {
    } else {
        let i = find_child(orig.children@, path[0]);
        assert(new.children@[i].path == orig.children@[i].path);
        assert forall|k: int|
            0 <= k < orig.children@.len() implies (#[trigger] orig.children@[k]).path
            == new.children@[k].path by {
            if k != i {
                assert(new.children@[k] == orig.children@[k]);
            }
        }
        lemma_find_child_same_names(orig.children@, new.children@, path[0]);
        lemma_insert_at_target(new.children@[i], orig.children@[i], path.drop_first(), child);
    }
}

/// Along the removed path, every remaining node still resolves after a
/// removal, with its node count lowered by the detached subtree's node
/// total and its size lowered by the detached subtree's size.
pub proof fn lemma_remove_ancestors(
    new: Node,
    orig: Node,
    path: Seq<Seq<char>>,
    detached: Node,
    j: int,
)
    requires
        new.is_remove_of(orig, path, detached),
        0 <= j < path.len(),
    ensures
        orig.resolve(path.take(j)) is Some,
        new.resolve(path.take(j)) is Some,
        new.resolve(path.take(j))->0.count == orig.resolve(path.take(j))->0.count - detached.count
            - 1,
        new.resolve(path.take(j))->0.size == orig.resolve(path.take(j))->0.size - detached.size,
    decreases j,
{
    reveal_with_fuel(Node::is_remove_of, 2);
    if j == 0 {
        assert(path.take(0) =~= Seq::<Seq<char>>::empty());
    } else {
        let i = find_child(orig.children@, path[0]);
        assert(path.len() >= 2);
        assert(new.children@[i].path == orig.children@[i].path);
        assert forall|k: int|
            0 <= k < orig.children@.len() implies (#[trigger] orig.children@[k]).path
            == new.children@[k].path by {
            if k != i {
                assert(new.children@[k] == orig.children@[k]);
            }
        }
        lemma_find_child_same_names(orig.children@, new.children@, path[0]);
        lemma_remove_ancestors(new.children@[i], orig.children@[i], path.drop_first(), detached, j - 1);
        assert(path.take(j)[0] == path[0]);
        assert(path.take(j).drop_first() =~= path.drop_first().take(j - 1));
    }
}

/// After removing a node whose name was unique among its siblings, the
/// removed path no longer resolves.
pub proof fn lemma_remove_resolve_gone(new: Node, orig: Node, path: Seq<Seq<char>>, detached: Node)
    requires
        new.is_remove_of(orig, path, detached),
        name_unique(orig.resolve(path.drop_last())->0.children@, path.last()),
        orig.resolve(path.drop_last()) is Some,
    ensures
        new.resolve(path) is None,
    decreases path.len(),
{
    reveal_with_fuel(Node::is_remove_of, 2);
    let i = find_child(orig.children@, path[0]);
    if path.len() == 1 {
        assert(path.drop_last() =~= Seq::<Seq<char>>::empty());
        assert(orig.resolve(path.drop_last()) == Some(orig));
        lemma_find_child(orig.children@, path[0]);
        assert(path.last() == path[0]);
        assert forall|k: int| 0 <= k < new.children@.len() implies (
        #[trigger] new.children@[k]).path@ != path[0] by {
            if k < i {
                assert(new.children@[k] == orig.children@[k]);
            } else {
                assert(new.children@[k] == orig.children@[k + 1]);
                if orig.children@[k + 1].path@ == path[0] {
                    assert(orig.children@[i].path@ == path[0]);
                    assert(!(orig.children@[i].path@ == path[0] && orig.children@[k + 1].path@
                        == path[0]));
                }
            }
        }
        lemma_find_child_none(new.children@, path[0]);
    } else {
        assert(new.children@[i].path == orig.children@[i].path);
        assert forall|k: int|
            0 <= k < orig.children@.len() implies (#[trigger] orig.children@[k]).path
            == new.children@[k].path by {
            if k != i {
                assert(new.children@[k] == orig.children@[k]);
            }
        }
        lemma_find_child_same_names(orig.children@, new.children@, path[0]);
        assert(path.drop_last()[0] == path[0]);
        assert(path.drop_last().drop_first() =~= path.drop_first().drop_last());
        assert(path.drop_first().last() == path.last());
        lemma_remove_resolve_gone(new.children@[i], orig.children@[i], path.drop_first(), detached);
    }
}

/// The node count of every node in a well-formed tree equals the sum of
/// `count + 1` over its immediate children: the aggregation law, stated for
/// the whole subtree.
pub open spec fn counts_aggregated(n: Node) -> bool
    decreases n,
{
    &&& n.count == sum_total_counts(n.children@)
    &&& forall|i: int| 0 <= i < n.children@.len() ==> counts_aggregated(#[trigger] n.children@[i])
}

/// Well-formedness carries the aggregation law for every node of the tree.
pub proof fn lemma_counts_aggregated(n: Node)
    requires
        n.wf(),
    ensures
        counts_aggregated(n),
    decreases n,
{
    assert forall|i: int| 0 <= i < n.children@.len() implies counts_aggregated(
        #[trigger] n.children@[i],
    ) by {
        lemma_counts_aggregated(n.children@[i]);
    }
}


impl Tree {
    /// The root's descendant count.
    pub fn root_count(&self) -> (r: u64)
        requires
            self.root is Some,
        ensures
            r == self.root->0.count,
    {
        match &self.root {
            Some(root) => root.count,
            None => unreached(),
        }
    }

    /// The root's aggregated byte size.
    pub fn root_size(&self) -> (r: u64)
        requires
            self.root is Some,
        ensures
            r == self.root->0.size,
    {
        match &self.root {
            Some(root) => root.size,
            None => unreached(),
        }
    }

    /// A copy of the root's stored path.
    pub fn root_path(&self) -> (r: String)
        requires
            self.root is Some,
        ensures
            r@ == self.root->0.path@,
    {
        match &self.root {
            Some(root) => root.get_path(),
            None => unreached(),
        }
    }
}


/// Resolving one more component steps from the reached node to the matching
/// child.
pub proof fn lemma_resolve_snoc(n: Node, p: Seq<Seq<char>>, x: Seq<char>)
    ensures
        n.resolve(p.push(x)) == match n.resolve(p) {
            Some(m) => {
                let i = find_child(m.children@, x);
                if 0 <= i < m.children@.len() {
                    Some(m.children@[i])
                } else {
                    None
                }
            },
            None => None,
        },
    decreases p.len(),
{
    reveal_with_fuel(Node::resolve, 3);
    if p.len() == 0 {
        assert(p.push(x)[0] == x);
        assert(p.push(x).drop_first() =~= Seq::<Seq<char>>::empty());
    } else {
        assert(p.push(x)[0] == p[0]);
        assert(p.push(x).drop_first() =~= p.drop_first().push(x));
        let i = find_child(n.children@, p[0]);
        if 0 <= i < n.children@.len() {
            lemma_resolve_snoc(n.children@[i], p.drop_first(), x);
        }
    }
}

/// How a returned snapshot mirrors the index node it was taken from.
pub open spec fn snapshot_matches(f: crate::service::FileNode, n: Node) -> bool {
    &&& f.path@ == n.path@
    &&& f.size == n.size
    &&& f.is_directory == n.is_directory
    &&& f.is_link == n.is_link
    &&& f.modified == n.modified
    &&& f.created == n.created
}

/// Collects snapshots of the nodes along a resolvable component chain,
/// root first, then reverses them so the deepest node comes first.
#[verifier::loop_isolation(false)]
fn chain_to_root(root: &Node, comps: &Vec<String>) -> (r: Vec<crate::service::FileNode>)
    ensures
        root.resolve(comps.deep_view()) is None ==> r@.len() == 0,
        root.resolve(comps.deep_view()) is Some ==> {
            let cs = comps.deep_view();
            &&& r@.len() == cs.len() + 1
            &&& forall|j: int|
                0 <= j < r@.len() ==> root.resolve(cs.take(cs.len() - j)) is Some
                    && snapshot_matches(
                    #[trigger] r@[j],
                    root.resolve(cs.take(cs.len() - j))->0,
                )
        },
{
    let ghost cs = comps.deep_view();
    let mut down: Vec<crate::service::FileNode> = Vec::new();
    let mut cur: &Node = root;
    let mut idx: usize = 0;
    down.push(crate::service::file_node_of(cur));
    proof {
        assert(cs.take(0) =~= Seq::<Seq<char>>::empty());
    }
    while idx < comps.len()
        invariant
            0 <= idx <= comps@.len(),
            down@.len() == idx + 1,
            root.resolve(cs.take(idx as int)) == Some(*cur),
            forall|j: int| 0 <= j <= idx ==> (#[trigger] root.resolve(cs.take(j))) is Some,
            forall|j: int|
                0 <= j <= idx ==> snapshot_matches(
                    #[trigger] down@[j],
                    root.resolve(cs.take(j))->0,
                ),
        decreases comps@.len() - idx,
    {
        proof {
            assert(cs[idx as int] == comps@[idx as int]@);
        }
        match find_child_index(&cur.children, &comps[idx]) {
            Some(j) => {
                proof {
                    lemma_find_child(cur.children@, comps@[idx as int]@);
                    lemma_resolve_snoc(*root, cs.take(idx as int), cs[idx as int]);
                    assert(cs.take(idx as int).push(cs[idx as int]) =~= cs.take(idx as int + 1));
                }
                cur = &cur.children[j];
                let ghost db = down@;
                down.push(crate::service::file_node_of(cur));
                proof {
                    assert forall|m: int|
                        0 <= m <= idx + 1 implies (#[trigger] root.resolve(cs.take(m)))
                            is Some by {}
                    assert forall|m: int|
                        0 <= m <= idx + 1 implies snapshot_matches(
                            #[trigger] down@[m],
                            root.resolve(cs.take(m))->0,
                        ) by {
                        if m <= idx {
                            assert(down@[m] == db[m]);
                            assert(snapshot_matches(db[m], root.resolve(cs.take(m))->0));
                        } else {
                            assert(down@[m] == down@.last());
                        }
                    }
                }
            },
            None => {
                proof {
                    lemma_resolve_snoc(*root, cs.take(idx as int), cs[idx as int]);
                    assert(cs.take(idx as int).push(cs[idx as int]) =~= cs.take(idx as int + 1));
                    lemma_resolve_take_extend(*root, cs, idx as int + 1);
                    assert(cs.take(cs.len() as int) =~= cs);
                }
                return Vec::new();
            },
        }
        idx = idx + 1;
    }
    proof {
        assert(cs.take(cs.len() as int) =~= cs);
    }
    let mut r: Vec<crate::service::FileNode> = Vec::new();
    let ghost down0 = down@;
    proof {
        assert forall|j: int|
            0 <= j < down0.len() implies snapshot_matches(
                #[trigger] down0[j],
                root.resolve(cs.take(j))->0,
            ) by {
            assert(snapshot_matches(down@[j], root.resolve(cs.take(j))->0));
        }
    }
    while down.len() > 0
        invariant
            r@.len() + down@.len() == down0.len(),
            down@ =~= down0.take(down@.len() as int),
            forall|m: int| 0 <= m < r@.len() ==> #[trigger] r@[m] == down0[down0.len() - 1 - m],
        decreases down@.len(),
    {
        let ghost db = down@;
        let x = match down.pop() {
            Some(x) => x,
            None => unreached(),
        };
        proof {
            assert(db.take(db.len() - 1) =~= down@);
            assert(x == down0[db.len() - 1]);
        }
        r.push(x);
    }
    proof {
        assert forall|j: int|
            0 <= j < r@.len() implies root.resolve(cs.take(cs.len() - j)) is Some
                && snapshot_matches(#[trigger] r@[j], root.resolve(cs.take(cs.len() - j))->0) by {
            assert(r@[j] == down0[down0.len() - 1 - j]);
            assert(root.resolve(cs.take(cs.len() - j)) is Some);
            assert(snapshot_matches(down0[down0.len() - 1 - j], root.resolve(cs.take(cs.len()
                - j))->0));
        }
    }
    r
}

impl Tree {
    /// The chain of nodes from the node `key` names up to the root: a
    /// snapshot of each, nearest first; an unknown path yields an empty
    /// chain.
    pub fn path_to_root(&self, key: &str) -> (r: Vec<crate::service::FileNode>)
        ensures
            self.lookup(key@) is None ==> r@.len() == 0,
            self.lookup(key@) is Some ==> r@.len() == components_of(key@).len() + 1,
            self.lookup(key@) is Some ==> forall|j: int|
                0 <= j <= components_of(key@).len() ==> (#[trigger] self.root->0.resolve(
                    components_of(key@).take(j),
                )) is Some,
            self.lookup(key@) is Some ==> forall|j: int|
                0 <= j < r@.len() ==> snapshot_matches(
                    #[trigger] r@[j],
                    self.root->0.resolve(
                        components_of(key@).take(components_of(key@).len() - j),
                    )->0,
                ),
    {
        if s_len(key) == 0 || !char_at_is_slash(key, 0) {
            return Vec::new();
        }
        let comps = parse_components(key);
        match &self.root {
            Some(root) => {
                let r = chain_to_root(root, &comps);
                proof {
                    if self.lookup(key@) is Some {
                        assert(self.root->0 == *root);
                        assert(components_of(key@) == comps.deep_view());
                        assert(root.resolve(comps.deep_view()) is Some);
                        assert(r@.len() == components_of(key@).len() + 1);
                        assert forall|j: int|
                            0 <= j <= components_of(key@).len() implies (
                        #[trigger] self.root->0.resolve(components_of(key@).take(j)))
                            is Some by {
                            if root.resolve(components_of(key@).take(j)) is None {
                                lemma_resolve_take_extend(*root, components_of(key@), j);
                                assert(components_of(key@).take(components_of(key@).len() as int)
                                    =~= components_of(key@));
                            }
                        }
                        assert forall|j: int|
                            0 <= j < r@.len() implies snapshot_matches(
                                #[trigger] r@[j],
                                self.root->0.resolve(
                                    components_of(key@).take(components_of(key@).len() - j),
                                )->0,
                            ) by {
                            // Names the element so the chain's quantified
                            // postcondition instantiates at this index.
                            let witness = r@[j];
                            assert(witness == r@[j]);
                            assert(components_of(key@).take(components_of(key@).len() - j)
                                == comps.deep_view().take(comps.deep_view().len() - j));
                            assert(root.resolve(comps.deep_view().take(comps.deep_view().len()
                                - j)) is Some);
                            assert(snapshot_matches(
                                r@[j],
                                root.resolve(comps.deep_view().take(comps.deep_view().len()
                                    - j))->0,
                            ));
                        }
                    }
                }
                r
            },
            None => {
                proof {
                    assert(self.lookup(key@) is None);
                }
                Vec::new()
            },
        }
    }
}

/// If a path resolves, so does every prefix of it; conversely a dead prefix
/// kills the whole path.
pub proof fn lemma_resolve_take_extend(n: Node, p: Seq<Seq<char>>, j: int)
    requires
        0 <= j <= p.len(),
        n.resolve(p.take(j)) is None,
    ensures
        n.resolve(p.take(p.len() as int)) is None,
    decreases p.len() - j,
{
    if j < p.len() {
        lemma_resolve_snoc(n, p.take(j), p[j]);
        assert(p.take(j).push(p[j]) =~= p.take(j + 1));
        lemma_resolve_take_extend(n, p, j + 1);
    }
}


/// The root's totals after two insertions do not depend on the order in
/// which they were applied: concurrent workers may interleave their
/// insertions freely and the index still converges to the same node count
/// and byte total.
pub proof fn lemma_insert_totals_commute(
    base: Node,
    first_a: Node,
    both_ab: Node,
    first_b: Node,
    both_ba: Node,
    path_a: Seq<Seq<char>>,
    path_b: Seq<Seq<char>>,
    child_a: Node,
    child_b: Node,
)
    requires
        first_a.is_insert_of(base, path_a, child_a),
        both_ab.is_insert_of(first_a, path_b, child_b),
        first_b.is_insert_of(base, path_b, child_b),
        both_ba.is_insert_of(first_b, path_a, child_a),
    ensures
        both_ab.count == both_ba.count,
        both_ab.size == both_ba.size,
{
}

} // verus!

use vstd::prelude::*;
use vstd::multiset::Multiset;

verus! {

/// One node of the hierarchical index. It owns its children outright, stores
/// only its local name in `path`, and keeps two running aggregates: `size`,
/// the byte total of the subtree rooted here, and `count`, the number of
/// descendant nodes (not including the node itself).
#[derive(Debug)]
pub struct Node {
    pub path: String,
    pub size: u64,
    pub is_directory: bool,
    pub is_link: bool,
    pub modified: Option<u64>,
    pub created: Option<u64>,
    pub count: u64,
    pub children: Vec<Node>,
}

/// Direction of an aggregation update relative to the node that triggered it.
#[derive(Debug)]
pub enum UpdateMode {
    Child,
    Root,
}

/// Sum of `count + 1` (the subtree size in nodes) over a sequence of nodes.
pub open spec fn sum_total_counts(s: Seq<Node>) -> int
    decreases s.len(),
{
    if s.len() == 0 {
        0
    } else {
        sum_total_counts(s.drop_last()) + s.last().count + 1
    }
}

/// Sum of `size` over a sequence of nodes.
pub open spec fn sum_sizes(s: Seq<Node>) -> int
    decreases s.len(),
{
    if s.len() == 0 {
        0
    } else {
        sum_sizes(s.drop_last()) + s.last().size
    }
}

pub proof fn lemma_sum_total_counts_push(s: Seq<Node>, x: Node)
    ensures
        sum_total_counts(s.push(x)) == sum_total_counts(s) + x.count + 1,
{
    assert(s.push(x).drop_last() =~= s);
    assert(s.push(x).last() == x);
}

pub proof fn lemma_sum_sizes_push(s: Seq<Node>, x: Node)
    ensures
        sum_sizes(s.push(x)) == sum_sizes(s) + x.size,
{
    assert(s.push(x).drop_last() =~= s);
    assert(s.push(x).last() == x);
}

/// Every element of a sequence contributes at least its own `count + 1`
/// to the total-count sum, and the sum is never negative.
pub proof fn lemma_sum_total_counts_bounds(s: Seq<Node>)
    ensures
        sum_total_counts(s) >= 0,
        forall|i: int| 0 <= i < s.len() ==> #[trigger] s[i].count + 1 <= sum_total_counts(s),
    decreases s.len(),
{
    if s.len() > 0 {
        lemma_sum_total_counts_bounds(s.drop_last());
        assert forall|i: int| 0 <= i < s.len() implies #[trigger] s[i].count + 1 <= sum_total_counts(s) by {
            if i < s.len() - 1 {
                assert(s.drop_last()[i] == s[i]);
            }
        }
    }
}

/// Every element contributes at least its own `size` to the size sum,
/// and the sum is never negative.
pub proof fn lemma_sum_sizes_bounds(s: Seq<Node>)
    ensures
        sum_sizes(s) >= 0,
        forall|i: int| 0 <= i < s.len() ==> #[trigger] s[i].size <= sum_sizes(s),
    decreases s.len(),
{
    if s.len() > 0 {
        lemma_sum_sizes_bounds(s.drop_last());
        assert forall|i: int| 0 <= i < s.len() implies #[trigger] s[i].size <= sum_sizes(s) by {
            if i < s.len() - 1 {
                assert(s.drop_last()[i] == s[i]);
            }
        }
    }
}

/// Replacing one element changes the total-count sum by the difference
/// of the two elements' contributions.
pub proof fn lemma_sum_total_counts_update(s: Seq<Node>, i: int, x: Node)
    requires
        0 <= i < s.len(),
    ensures
        sum_total_counts(s.update(i, x)) == sum_total_counts(s) - s[i].count + x.count,
    decreases s.len(),
{
    if i == s.len() - 1 {
        assert(s.update(i, x).drop_last() =~= s.drop_last());
    } else {
        assert(s.update(i, x).drop_last() =~= s.drop_last().update(i, x));
        lemma_sum_total_counts_update(s.drop_last(), i, x);
    }
}

/// Replacing one element changes the size sum by the difference of sizes.
pub proof fn lemma_sum_sizes_update(s: Seq<Node>, i: int, x: Node)
    requires
        0 <= i < s.len(),
    ensures
        sum_sizes(s.update(i, x)) == sum_sizes(s) - s[i].size + x.size,
    decreases s.len(),
{
    if i == s.len() - 1 {
        assert(s.update(i, x).drop_last() =~= s.drop_last());
    } else {
        assert(s.update(i, x).drop_last() =~= s.drop_last().update(i, x));
        lemma_sum_sizes_update(s.drop_last(), i, x);
    }
}

/// Removing one element lowers the total-count sum by that element's
/// contribution.
pub proof fn lemma_sum_total_counts_remove(s: Seq<Node>, i: int)
    requires
        0 <= i < s.len(),
    ensures
        sum_total_counts(s.remove(i)) == sum_total_counts(s) - s[i].count - 1,
    decreases s.len(),
{
    if i == s.len() - 1 {
        assert(s.remove(i) =~= s.drop_last());
    } else {
        assert(s.remove(i).drop_last() =~= s.drop_last().remove(i));
        assert(s.remove(i).last() == s.last());
        lemma_sum_total_counts_remove(s.drop_last(), i);
    }
}

/// Removing one element lowers the size sum by that element's size.
pub proof fn lemma_sum_sizes_remove(s: Seq<Node>, i: int)
    requires
        0 <= i < s.len(),
    ensures
        sum_sizes(s.remove(i)) == sum_sizes(s) - s[i].size,
    decreases s.len(),
{
    if i == s.len() - 1 {
        assert(s.remove(i) =~= s.drop_last());
    } else {
        assert(s.remove(i).drop_last() =~= s.drop_last().remove(i));
        assert(s.remove(i).last() == s.last());
        lemma_sum_sizes_remove(s.drop_last(), i);
    }
}

/// The total-count sum distributes over concatenation.
pub proof fn lemma_sum_total_counts_concat(a: Seq<Node>, b: Seq<Node>)
    ensures
        sum_total_counts(a + b) == sum_total_counts(a) + sum_total_counts(b),
    decreases b.len(),
{
    if b.len() == 0 {
        assert(a + b =~= a);
    } else {
        assert((a + b).drop_last() =~= a + b.drop_last());
        assert((a + b).last() == b.last());
        lemma_sum_total_counts_concat(a, b.drop_last());
    }
}

/// The entry data one node carries, apart from its aggregates and children.
pub open spec fn entry_view(n: Node) -> (Seq<char>, u64, bool, bool, Option<u64>, Option<u64>) {
    (n.path@, n.size, n.is_directory, n.is_link, n.modified, n.created)
}

/// The entry data of every node in a forest of well-formed trees, one entry
/// per node: the last root is counted and replaced by its children until
/// none is left.
pub open spec fn forest_views(stack: Seq<Node>) -> Multiset<
    (Seq<char>, u64, bool, bool, Option<u64>, Option<u64>),
>
    decreases sum_total_counts(stack),
    when forall|i: int| 0 <= i < stack.len() ==> (#[trigger] stack[i]).wf()
    via forest_views_decreases
{
    if stack.len() == 0 {
        Multiset::empty()
    } else {
        forest_views(stack.drop_last() + stack.last().children@).insert(entry_view(stack.last()))
    }
}

#[via_fn]
proof fn forest_views_decreases(stack: Seq<Node>) {
    lemma_sum_total_counts_bounds(stack);
    if stack.len() > 0 {
        let n = stack.last();
        assert(n.wf());
        lemma_sum_total_counts_concat(stack.drop_last(), n.children@);
        assert(sum_total_counts(stack) == sum_total_counts(stack.drop_last()) + n.count + 1);
        assert forall|i: int|
            0 <= i < (stack.drop_last() + n.children@).len() implies (#[trigger] (
        stack.drop_last() + n.children@)[i]).wf() by {
            if i < stack.drop_last().len() {
                assert((stack.drop_last() + n.children@)[i] == stack[i]);
            } else {
                assert((stack.drop_last() + n.children@)[i] == n.children@[i
                    - stack.drop_last().len()]);
            }
        }
    }
}

/// The entry data of every node of one well-formed subtree.
pub open spec fn subtree_views(n: Node) -> Multiset<
    (Seq<char>, u64, bool, bool, Option<u64>, Option<u64>),
> {
    forest_views(seq![n])
}

/// The entry data of the nodes of a list, one entry per element.
pub open spec fn views_of_list(s: Seq<Node>) -> Multiset<
    (Seq<char>, u64, bool, bool, Option<u64>, Option<u64>),
> {
    s.map_values(|n: Node| entry_view(n)).to_multiset()
}

impl Node {
    /// Well-formedness of the aggregates, everywhere in the subtree:
    /// `count` is exactly the sum of `count + 1` over the immediate children,
    /// and `size` is at least the sum of the children's sizes (the remainder
    /// is the node's own contribution, fixed at creation).
    pub open spec fn wf(self) -> bool
        decreases self,
    {
        &&& self.count == sum_total_counts(self.children@)
        &&& sum_sizes(self.children@) <= self.size
        &&& forall|i: int|
            0 <= i < self.children@.len() ==> (#[trigger] self.children@[i]).wf()
    }

    /// Exact size convergence, everywhere in the subtree: every directory
    /// node's `size` equals the sum of its immediate children's sizes.
    /// This holds of a tree grown solely by inserting directories at size 0
    /// and files at their final size.
    pub open spec fn sizes_converged(self) -> bool
        decreases self,
    {
        &&& self.is_directory ==> self.size == sum_sizes(self.children@)
        &&& forall|i: int|
            0 <= i < self.children@.len() ==> (#[trigger] self.children@[i]).sizes_converged()
    }

    /// The number of nodes in the subtree rooted here, including this node.
    pub open spec fn spec_total_count(self) -> int {
        self.count + 1
    }

    pub fn new(path: String, is_dir: bool, is_link: bool) -> (r: Node)
        ensures
            r.path == path,
            r.size == 0,
            r.is_directory == is_dir,
            r.is_link == is_link,
            r.modified is None,
            r.created is None,
            r.count == 0,
            r.children@.len() == 0,
            r.wf(),
            r.sizes_converged(),
    {
        Node {
            path: path,
            size: 0,
            is_directory: is_dir,
            is_link: is_link,
            modified: None,
            created: None,
            count: 0,
            children: Vec::new(),
        }
    }

    /// Appends `child` to this node's children and folds the child's subtree
    /// totals into this node's aggregates.
    pub fn add_child(&mut self, child: Node)
        requires
            old(self).count + child.count + 1 <= u64::MAX,
            old(self).size + child.size <= u64::MAX,
        ensures
            final(self).children@ == old(self).children@.push(child),
            final(self).count == old(self).count + child.count + 1,
            final(self).size == old(self).size + child.size,
            final(self).path == old(self).path,
            final(self).is_directory == old(self).is_directory,
            final(self).is_link == old(self).is_link,
            final(self).modified == old(self).modified,
            final(self).created == old(self).created,
            old(self).wf() && child.wf() ==> final(self).wf(),
            old(self).sizes_converged() && child.sizes_converged() && old(self).wf()
                ==> final(self).sizes_converged(),
    {
        proof {
            lemma_sum_total_counts_push(self.children@, child);
            lemma_sum_sizes_push(self.children@, child);
        }
        self.count = self.count + child.count + 1;
        self.size = self.size + child.size;
        self.children.push(child);
        proof {
            assert(self.children@ == old(self).children@.push(child));
            if old(self).wf() && child.wf() {
                assert forall|i: int| 0 <= i < self.children@.len()
                    implies #[trigger] self.children@[i].wf() by {
                    if i < old(self).children@.len() {
                        assert(old(self).children@[i].wf());
                        assert(self.children@[i] == old(self).children@[i]);
                    } else {
                        assert(self.children@[i] == child);
                    }
                }
                assert(self.wf());
            }
            if old(self).wf() && old(self).sizes_converged() && child.sizes_converged() {
                assert forall|i: int| 0 <= i < self.children@.len()
                    implies #[trigger] self.children@[i].sizes_converged() by {
                    if i < old(self).children@.len() {
                        assert(old(self).children@[i].sizes_converged());
                        assert(self.children@[i] == old(self).children@[i]);
                    } else {
                        assert(self.children@[i] == child);
                    }
                }
                assert(self.sizes_converged());
            }
        }
    }

    /// The node count of the whole subtree rooted here, this node included.
    pub fn total_count(&self) -> (r: u64)
        requires
            self.count < u64::MAX,
        ensures
            r == self.spec_total_count(),
    {
        self.count + 1
    }

    pub fn get_name(&self) -> (r: Result<String, String>)
        ensures
            r is Ok && r->Ok_0@ == self.path@,
    {
        Ok(self.path.clone())
    }

    pub fn get_path(&self) -> (r: String)
        ensures
            r@ == self.path@,
    {
        self.path.clone()
    }

    /// Discards all children and zeroes the descendant count; the node's
    /// `size` keeps its last aggregated value.
    pub fn clear(&mut self)
        ensures
            final(self).children@.len() == 0,
            final(self).count == 0,
            final(self).size == old(self).size,
            final(self).path == old(self).path,
            final(self).wf(),
    {
        self.children.clear();
        self.count = 0;
    }
}


/// Flattens a subtree into the list of all its nodes: exactly `count + 1`
/// of them, each keeping its entry data but with its children drained and
/// its descendant count zeroed.
fn flatten_subtree(node: Node) -> (r: Vec<Node>)
    requires
        node.wf(),
    ensures
        r@.len() == node.count + 1,
        views_of_list(r@) == subtree_views(node),
        forall|m: int|
            0 <= m < r@.len() ==> (#[trigger] r@[m]).count == 0 && r@[m].children@.len() == 0,
{
    broadcast use vstd::seq_lib::group_to_multiset_ensures;
    broadcast use vstd::multiset::group_multiset_axioms;

    let ghost total = node.count + 1;
    let ghost node0 = node;
    let mut out: Vec<Node> = Vec::new();
    let mut queue: Vec<Node> = Vec::new();
    queue.push(node);
    proof {
        assert(queue@ =~= Seq::<Node>::empty().push(node0));
        lemma_sum_total_counts_push(Seq::<Node>::empty(), node0);
        assert(sum_total_counts(queue@) == node0.count + 1);
        assert(queue@[0] == node0);
        assert(queue@ =~= seq![node0]);
        assert(out@.map_values(|n: Node| entry_view(n)) =~= Seq::<
            (Seq<char>, u64, bool, bool, Option<u64>, Option<u64>),
        >::empty());
        assert(views_of_list(out@) =~= Multiset::<
            (Seq<char>, u64, bool, bool, Option<u64>, Option<u64>),
        >::empty());
        assert(views_of_list(out@).add(forest_views(queue@)) =~= subtree_views(node0));
    }
    while queue.len() > 0
        invariant
            out@.len() + sum_total_counts(queue@) == total,
            forall|k: int| 0 <= k < queue@.len() ==> (#[trigger] queue@[k]).wf(),
            sum_total_counts(queue@) >= 0,
            views_of_list(out@).add(forest_views(queue@)) == subtree_views(node0),
            forall|m: int|
                0 <= m < out@.len() ==> (#[trigger] out@[m]).count == 0
                    && out@[m].children@.len() == 0,
        decreases sum_total_counts(queue@),
    {
        proof {
            lemma_sum_total_counts_bounds(queue@);
        }
        let ghost before_pop = queue@;
        let mut n = match queue.pop() {
            Some(n) => n,
            None => unreached(),
        };
        let ghost popped = n;
        proof {
            assert(queue@ =~= before_pop.drop_last());
            lemma_sum_total_counts_push(queue@, popped);
            assert(before_pop =~= queue@.push(popped));
            assert(forest_views(before_pop) == forest_views(queue@ + popped.children@).insert(
                entry_view(popped),
            ));
        }
        let ghost after_pop = queue@;
        queue.append(&mut n.children);
        proof {
            assert(queue@ =~= after_pop + popped.children@);
            lemma_sum_total_counts_concat(after_pop, popped.children@);
            assert forall|k: int| 0 <= k < queue@.len() implies (#[trigger] queue@[k]).wf() by {
                if k < after_pop.len() {
                    assert(queue@[k] == after_pop[k]);
                } else {
                    assert(queue@[k] == popped.children@[k - after_pop.len()]);
                }
            }
        }
        n.count = 0;
        let ghost flat = n;
        let ghost out_before = out@;
        out.push(n);
        proof {
            assert(entry_view(flat) == entry_view(popped));
            assert(out@.map_values(|x: Node| entry_view(x)) =~= out_before.map_values(
                |x: Node| entry_view(x),
            ).push(entry_view(flat)));
            out_before.map_values(|x: Node| entry_view(x)).to_multiset_ensures();
            assert(out_before.map_values(|x: Node| entry_view(x)).push(entry_view(flat))
                .to_multiset() =~= out_before.map_values(|x: Node| entry_view(x)).to_multiset()
                .insert(entry_view(flat)));
            assert(views_of_list(out@) =~= views_of_list(out_before).insert(entry_view(popped)));
            assert(views_of_list(out@).add(forest_views(queue@)) =~= views_of_list(
                out_before,
            ).add(forest_views(queue@).insert(entry_view(popped))));
            lemma_sum_total_counts_bounds(queue@);
        }
    }
    proof {
        assert(sum_total_counts(queue@) == 0);
        assert(queue@ =~= Seq::<Node>::empty());
        assert(forest_views(queue@) =~= Multiset::<
            (Seq<char>, u64, bool, bool, Option<u64>, Option<u64>),
        >::empty());
        assert(views_of_list(out@).add(forest_views(queue@)) =~= views_of_list(out@));
    }
    out
}

impl Node {
    /// Detaches the first child named `key`, folds its subtree totals out of
    /// this node's aggregates, and returns every node of the detached
    /// subtree as a flat list; an unknown name detaches nothing.
    pub fn remove_child(&mut self, key: &str) -> (r: Vec<Node>)
        requires
            old(self).wf(),
        ensures
            final(self).wf(),
            crate::tree::find_child(old(self).children@, key@) < 0 ==> r@.len() == 0
                && *final(self) == *old(self),
            crate::tree::find_child(old(self).children@, key@) >= 0 ==> {
                let i = crate::tree::find_child(old(self).children@, key@);
                &&& final(self).children@ == old(self).children@.remove(i)
                &&& final(self).count == old(self).count - old(self).children@[i].count - 1
                &&& final(self).size == old(self).size - old(self).children@[i].size
                &&& final(self).path == old(self).path
                &&& r@.len() == old(self).children@[i].count + 1
                &&& views_of_list(r@) == subtree_views(old(self).children@[i])
                &&& (forall|m: int|
                    0 <= m < r@.len() ==> (#[trigger] r@[m]).count == 0
                        && r@[m].children@.len() == 0)
            },
    {
        let owned_key = key.to_owned();
        match crate::tree::find_child_index(&self.children, &owned_key) {
            Some(j) => {
                proof {
                    crate::tree::lemma_find_child(self.children@, key@);
                    lemma_sum_total_counts_bounds(self.children@);
                    lemma_sum_sizes_bounds(self.children@);
                    assert(self.children@[j as int].count + 1 <= self.count);
                    assert(self.children@[j as int].size <= self.size);
                }
                let d = self.children.remove(j);
                self.count = self.count - (d.count + 1);
                self.size = self.size - d.size;
                proof {
                    crate::node::lemma_sum_total_counts_remove(old(self).children@, j as int);
                    crate::node::lemma_sum_sizes_remove(old(self).children@, j as int);
                    assert forall|k: int| 0 <= k < self.children@.len() implies (
                    #[trigger] self.children@[k]).wf() by {
                        if k < j {
                            assert(self.children@[k] == old(self).children@[k]);
                        } else {
                            assert(self.children@[k] == old(self).children@[k + 1]);
                        }
                    }
                }
                flatten_subtree(d)
            },
            None => Vec::new(),
        }
    }
}

impl PartialEq for Node {
    /// Two nodes compare equal when they carry the same local name.
    fn eq(&self, other: &Self) -> (r: bool) {
        self.path == other.path
    }
}

impl vstd::std_specs::cmp::PartialEqSpecImpl for Node {
    open spec fn obeys_eq_spec() -> bool {
        true
    }

    open spec fn eq_spec(&self, other: &Node) -> bool {
        self.path@ == other.path@
    }
}

} // verus!

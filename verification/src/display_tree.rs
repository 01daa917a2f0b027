//! The owned, mutable tree the UI draws: it holds the same data as the
//! scanner's [`Entry`] tree, keeps every directory's children in display
//! order, and maintains the per-node metadata that rendering caches key on
//! (descendant count, structural revision) without re-walking a subtree.

use std::path::{Path, PathBuf};
use std::sync::atomic::{AtomicBool, Ordering};
use vstd::prelude::*;

use crate::order::{
    hits, is_permutation, lemma_move, lemma_rearranged_compose, lemma_rearranged_identity,
    rearranged,
};
use crate::scanner::{join_name, joined, Entry, ScanProgress};
use crate::text::{
    lemma_text_lt_irreflexive, lemma_text_lt_total, lemma_text_lt_transitive, names_of, same_text,
    text_less, text_lt,
};

verus! {

/// An owned tree node prepared for display.
///
/// `descendant_count` excludes the node itself and is kept up to date by
/// every mutation; the operations below require and keep it exact.
/// `structural_rev` changes whenever this node's accounted size or child
/// structure changes, so a cache keyed by it can reuse work across frames
/// that changed nothing below. Fields are public for reading; changing them
/// other than through these operations voids the tree's invariant.
#[derive(Debug)]
pub struct DisplayNode {
    pub name: String,
    pub path: PathBuf,
    pub size: u64,
    pub is_dir: bool,
    pub children: Vec<DisplayNode>,
    pub descendant_count: usize,
    pub structural_rev: u64,
}

/// Number of nodes in a forest, every level counted.
pub open spec fn forest_nodes(s: Seq<DisplayNode>) -> nat
    decreases s,
{
    if s.len() == 0 {
        0
    } else {
        forest_nodes(s.subrange(0, s.len() - 1)) + 1 + nodes_below(s[s.len() - 1])
    }
}

/// Number of nodes strictly below `n`.
pub open spec fn nodes_below(n: DisplayNode) -> nat
    decreases n,
{
    proof {
        assert(decreases_to!(n => n.children));
        assert(decreases_to!(n.children => n.children@));
    }
    forest_nodes(n.children@)
}

/// Display order between siblings: larger first, then by name. Siblings
/// that tie on both may come in either order.
pub open spec fn ranks_before(a: DisplayNode, b: DisplayNode) -> bool {
    a.size > b.size || (a.size == b.size && !text_lt(b.name@, a.name@))
}

/// The direct children are in display order.
pub open spec fn children_ordered(n: DisplayNode) -> bool {
    forall|x: int, y: int|
        #![trigger n.children@[x], n.children@[y]]
        0 <= x < y < n.children@.len() ==> ranks_before(n.children@[x], n.children@[y])
}

impl DisplayNode {
    /// Every node's descendant count is exact and every directory's children
    /// are in display order.
    pub open spec fn well_formed(self) -> bool
        decreases self,
    {
        &&& self.descendant_count == nodes_below(self)
        &&& children_ordered(self)
        &&& forall|k: int|
            0 <= k < self.children@.len() ==> (#[trigger] self.children@[k]).well_formed()
    }

    /// The maintained descendant count.
    pub open spec fn count(self) -> usize {
        self.descendant_count
    }

    /// The current structural revision.
    pub open spec fn revision(self) -> u64 {
        self.structural_rev
    }
}

/// The descendant count a well-formed tree maintains is the number of
/// nodes beneath it.
pub proof fn law_descendant_count_is_exact(n: DisplayNode)
    requires
        n.well_formed(),
    ensures
        n.count() == nodes_below(n),
{
}

/// `b` is `a` with only its revision advanced by one.
pub open spec fn revised(a: DisplayNode, b: DisplayNode) -> bool {
    &&& b.name == a.name
    &&& b.path == a.path
    &&& b.size == a.size
    &&& b.is_dir == a.is_dir
    &&& b.children == a.children
    &&& b.count() == a.count()
    &&& b.revision() == a.revision().wrapping_add(1)
}

/// The position of the last of `s[..k]` named `name`.
pub open spec fn last_named_upto(s: Seq<DisplayNode>, name: Seq<char>, k: int) -> Option<int>
    decreases k,
{
    if k <= 0 {
        None
    } else if s[k - 1].name@ == name {
        Some(k - 1)
    } else {
        last_named_upto(s, name, k - 1)
    }
}

/// The position of the last sibling named `name`, the one a lookup by name
/// finds.
pub open spec fn last_named(s: Seq<DisplayNode>, name: Seq<char>) -> Option<int> {
    last_named_upto(s, name, s.len() as int)
}

/// The node reached from `n` by following `names` one level at a time.
pub open spec fn locate(n: DisplayNode, names: Seq<Seq<char>>) -> Option<DisplayNode>
    decreases names.len(),
{
    if names.len() == 0 {
        Some(n)
    } else {
        match last_named(n.children@, names[0]) {
            Some(k) => locate(n.children@[k], names.skip(1)),
            None => None,
        }
    }
}

pub proof fn lemma_last_named(s: Seq<DisplayNode>, name: Seq<char>, k: int)
    requires
        0 <= k <= s.len(),
    ensures
        last_named_upto(s, name, k) matches Some(j) ==> 0 <= j < k && s[j].name@ == name && forall|
            m: int,
        |
            j < m < k ==> (#[trigger] s[m]).name@ != name,
        last_named_upto(s, name, k) is None ==> forall|m: int|
            0 <= m < k ==> (#[trigger] s[m]).name@ != name,
    decreases k,
{
    if k > 0 {
        lemma_last_named(s, name, k - 1);
    }
}

pub proof fn lemma_forest_concat(a: Seq<DisplayNode>, b: Seq<DisplayNode>)
    ensures
        forest_nodes(a + b) == forest_nodes(a) + forest_nodes(b),
    decreases b.len(),
{
    if b.len() == 0 {
        assert(a + b =~= a);
    } else {
        let b0 = b.subrange(0, b.len() - 1);
        lemma_forest_concat(a, b0);
        assert((a + b).subrange(0, (a + b).len() - 1) =~= a + b0);
    }
}

pub proof fn lemma_forest_single(x: DisplayNode)
    ensures
        forest_nodes(seq![x]) == 1 + nodes_below(x),
{
    let e = Seq::<DisplayNode>::empty();
    assert(seq![x].subrange(0, 0) =~= e);
    assert(forest_nodes(e) == 0);
    assert(seq![x][0] == x);
}

/// Taking the element at `i` out of a forest and putting `x` in at `j`.
pub proof fn lemma_forest_replace(s: Seq<DisplayNode>, i: int, j: int, x: DisplayNode)
    requires
        0 <= i < s.len(),
        0 <= j < s.len(),
    ensures
        forest_nodes(s.remove(i).insert(j, x)) + nodes_below(s[i]) == forest_nodes(s)
            + nodes_below(x),
{
    let r = s.remove(i);
    assert(s =~= s.take(i) + seq![s[i]] + s.skip(i + 1));
    assert(r =~= s.take(i) + s.skip(i + 1));
    lemma_forest_concat(s.take(i) + seq![s[i]], s.skip(i + 1));
    lemma_forest_concat(s.take(i), seq![s[i]]);
    lemma_forest_concat(s.take(i), s.skip(i + 1));
    lemma_forest_single(s[i]);
    let t = r.insert(j, x);
    assert(t =~= r.take(j) + seq![x] + r.skip(j));
    assert(r =~= r.take(j) + r.skip(j));
    lemma_forest_concat(r.take(j) + seq![x], r.skip(j));
    lemma_forest_concat(r.take(j), seq![x]);
    lemma_forest_concat(r.take(j), r.skip(j));
    lemma_forest_single(x);
}

pub proof fn lemma_forest_push(s: Seq<DisplayNode>, x: DisplayNode)
    ensures
        forest_nodes(s.push(x)) == forest_nodes(s) + 1 + nodes_below(x),
{
    assert(s.push(x).subrange(0, s.len() as int) =~= s);
}

pub proof fn lemma_forest_remove(s: Seq<DisplayNode>, i: int)
    requires
        0 <= i < s.len(),
    ensures
        forest_nodes(s.remove(i)) + 1 + nodes_below(s[i]) == forest_nodes(s),
{
    assert(s =~= s.take(i) + seq![s[i]] + s.skip(i + 1));
    assert(s.remove(i) =~= s.take(i) + s.skip(i + 1));
    lemma_forest_concat(s.take(i) + seq![s[i]], s.skip(i + 1));
    lemma_forest_concat(s.take(i), seq![s[i]]);
    lemma_forest_concat(s.take(i), s.skip(i + 1));
    lemma_forest_single(s[i]);
}

/// Display order is a total preorder.
pub proof fn lemma_ranks_before_transitive(a: DisplayNode, b: DisplayNode, c: DisplayNode)
    requires
        ranks_before(a, b),
        ranks_before(b, c),
    ensures
        ranks_before(a, c),
{
    if a.size == c.size {
        assert(a.size == b.size && b.size == c.size);
        if text_lt(c.name@, a.name@) {
            lemma_text_lt_total(a.name@, b.name@);
            lemma_text_lt_total(b.name@, c.name@);
            if a.name@ == b.name@ {
            } else if b.name@ == c.name@ {
            } else {
                lemma_text_lt_transitive(a.name@, b.name@, c.name@);
                lemma_text_lt_transitive(a.name@, c.name@, a.name@);
                lemma_text_lt_irreflexive(a.name@);
            }
        }
    }
}

/// Display order compares any two siblings: one of them ranks first.
pub proof fn law_sibling_order_is_total(a: DisplayNode, b: DisplayNode)
    ensures
        ranks_before(a, b) || ranks_before(b, a),
{
    if a.size == b.size && text_lt(b.name@, a.name@) && text_lt(a.name@, b.name@) {
        lemma_text_lt_transitive(a.name@, b.name@, a.name@);
        lemma_text_lt_irreflexive(a.name@);
    }
}

/// Construction and the maintained metadata.
impl DisplayNode {
    /// A childless node with revision 1.
    pub fn new(name: String, path: PathBuf, size: u64, is_dir: bool) -> (node: Self)
        ensures
            node.name == name,
            node.path == path,
            node.size == size,
            node.is_dir == is_dir,
            node.children@ == Seq::<DisplayNode>::empty(),
            node.count() == 0,
            node.revision() == 1,
            node.well_formed(),
    {
        let node = DisplayNode {
            name,
            path,
            size,
            is_dir,
            children: Vec::new(),
            descendant_count: 0,
            structural_rev: 1,
        };
        proof {
            assert(forest_nodes(node.children@) == 0);
        }
        node
    }

    /// Number of descendants below this node, excluding the node itself.
    pub fn descendant_count(&self) -> (count: usize)
        ensures
            count == self.count(),
    {
        self.descendant_count
    }

    /// Revision for caches whose result depends on this node's child sizes or
    /// structure. A mutation advances it along the changed ancestor chain
    /// only.
    pub fn structural_rev(&self) -> (rev: u64)
        ensures
            rev == self.revision(),
    {
        self.structural_rev
    }

    fn bump_revision(&mut self)
        ensures
            revised(*old(self), *final(self)),
    {
        self.structural_rev = self.structural_rev.wrapping_add(1);
    }

    /// The position of the last child named `name`, as a lookup by name
    /// finds it.
    pub fn child_position(&self, name: &str) -> (found: Option<usize>)
        ensures
            match found {
                Some(k) => last_named(self.children@, name@) == Some(k as int),
                None => last_named(self.children@, name@) is None,
            },
    {
        let mut k = self.children.len();
        while k > 0
            invariant
                k <= self.children@.len(),
                last_named(self.children@, name@) == last_named_upto(
                    self.children@,
                    name@,
                    k as int,
                ),
            decreases k,
        {
            if same_text(self.children[k - 1].name.as_str(), name) {
                return Some(k - 1);
            }
            k -= 1;
        }
        None
    }

    /// The node reached by following `names` from this one.
    pub fn find(&self, names: &[String]) -> (found: Option<&DisplayNode>)
        ensures
            match found {
                Some(node) => locate(*self, names_of(names@)) == Some(*node),
                None => locate(*self, names_of(names@)) is None,
            },
    {
        proof {
            assert(names_of(names@).skip(0) =~= names_of(names@));
        }
        self.find_from(names, 0)
    }

    /// The node reached by following `names[from..]` from this one.
    fn find_from(&self, names: &[String], from: usize) -> (found: Option<&DisplayNode>)
        requires
            from <= names@.len(),
        ensures
            match found {
                Some(node) => locate(*self, names_of(names@).skip(from as int)) == Some(*node),
                None => locate(*self, names_of(names@).skip(from as int)) is None,
            },
    {
        let count = names.len();
        if from >= count {
            proof {
                assert(names_of(names@).skip(from as int) =~= Seq::<Seq<char>>::empty());
            }
            return Some(self);
        }
        let ghost all = names_of(names@);
        let mut node = self;
        let mut i: usize = from;
        while i < count
            invariant
                from <= i <= count,
                count == names@.len(),
                all == names_of(names@),
                locate(*self, all.skip(from as int)) == locate(*node, all.skip(i as int)),
            decreases count - i,
        {
            let ghost rest = all.skip(i as int);
            proof {
                assert(rest[0] == names@[i as int]@);
                assert(rest.skip(1) =~= all.skip(i + 1));
            }
            match node.child_position(names[i].as_str()) {
                Some(k) => {
                    proof {
                        lemma_last_named(node.children@, rest[0], node.children@.len() as int);
                    }
                    node = &node.children[k];
                },
                None => {
                    return None;
                },
            }
            i += 1;
        }
        proof {
            assert(all.skip(count as int) =~= Seq::<Seq<char>>::empty());
        }
        Some(node)
    }
}

/// Siblings in display order.
pub open spec fn seq_ordered(s: Seq<DisplayNode>) -> bool {
    forall|x: int, y: int| #![trigger s[x], s[y]] 0 <= x < y < s.len() ==> ranks_before(s[x], s[y])
}

/// `s` with `c` put in at `j`.
pub open spec fn put_in(s: Seq<DisplayNode>, j: int, c: DisplayNode) -> Seq<DisplayNode> {
    s.insert(j, c)
}

/// `s` with the element at `i` taken out and `c` put in at `j`.
pub open spec fn moved_in(s: Seq<DisplayNode>, i: int, j: int, c: DisplayNode) -> Seq<DisplayNode> {
    s.remove(i).insert(j, c)
}

/// `b` is `a` with `size` more bytes (saturating) and its revision advanced.
pub open spec fn topped_up(a: DisplayNode, b: DisplayNode, size: u64) -> bool {
    &&& b.name == a.name
    &&& b.path == a.path
    &&& b.is_dir == a.is_dir
    &&& b.children == a.children
    &&& b.descendant_count == a.descendant_count
    &&& b.size == a.size.saturating_add(size)
    &&& b.structural_rev == a.structural_rev.wrapping_add(1)
}

/// A childless node named `name` with the given size and kind and revision
/// 1.
pub open spec fn fresh(c: DisplayNode, name: Seq<char>, size: u64, is_dir: bool) -> bool {
    &&& c.name@ == name
    &&& c.size == size
    &&& c.is_dir == is_dir
    &&& c.children@.len() == 0
    &&& c.descendant_count == 0
    &&& c.structural_rev == 1
}

/// `new` is `old` after a discovery of `size` bytes at `names` below it:
/// every node on the way gains `size` (saturating) and a revision, a missing
/// directory on the way is created empty, a missing last name is created
/// with the given kind, each changed child is moved to its display position
/// among its siblings, and nothing else changes. On each level the child
/// followed is the last one with the name.
pub open spec fn grown(
    old: DisplayNode,
    new: DisplayNode,
    names: Seq<Seq<char>>,
    size: u64,
    is_dir: bool,
) -> bool
    decreases names.len(),
{
    let s = old.children@;
    let name = names[0];
    let rest = names.skip(1);
    &&& names.len() >= 1
    &&& new.name == old.name
    &&& new.path == old.path
    &&& new.is_dir == old.is_dir
    &&& new.size == old.size.saturating_add(size)
    &&& new.structural_rev == old.structural_rev.wrapping_add(1)
    &&& match last_named(s, name) {
        Some(i) => if names.len() == 1 {
            exists|c: DisplayNode, j: int|
                0 <= j < s.len() && topped_up(s[i], c, size) && new.children@
                    == #[trigger] moved_in(s, i, j, c)
        } else {
            exists|c: DisplayNode, j: int|
                0 <= j < s.len() && grown(s[i], c, rest, size, is_dir) && new.children@
                    == #[trigger] moved_in(
                    s,
                    i,
                    j,
                    c,
                )
        },
        None => if names.len() == 1 {
            exists|c: DisplayNode, j: int|
                0 <= j <= s.len() && fresh(c, name, size, is_dir) && c.path == joined(
                    old.path,
                    name,
                ) && new.children@ == #[trigger] put_in(s, j, c)
        } else {
            exists|d: DisplayNode, c: DisplayNode, j: int|
                #![trigger fresh(d, name, 0, true), put_in(s, j, c)]
                0 <= j <= s.len() && fresh(d, name, 0, true) && d.path == joined(old.path, name)
                    && grown(d, c, rest, size, is_dir) && new.children@ == put_in(s, j, c)
        },
    }
}

/// What `PathBuf`'s `<` answers for `a` and `b` (component-wise order).
pub uninterp spec fn path_lt(a: PathBuf, b: PathBuf) -> bool;

/// `PathBuf`'s `<`, the last tie-break of display order; its answer is
/// named.
#[verifier::external_body]
fn path_precedes(a: &PathBuf, b: &PathBuf) -> (lt: bool)
    ensures
        lt == path_lt(*a, *b),
{
    a < b
}

impl DisplayNode {
    /// Whether `a` is displayed strictly before `b`: larger first, then by
    /// name, then by path.
    fn goes_first(a: &DisplayNode, b: &DisplayNode) -> (first: bool)
        ensures
            first ==> ranks_before(*a, *b),
            !first ==> ranks_before(*b, *a),
            a.size != b.size ==> first == (a.size > b.size),
            a.size == b.size && a.name@ != b.name@ ==> first == text_lt(a.name@, b.name@),
            a.size == b.size && a.name@ == b.name@ ==> first == path_lt(a.path, b.path),
    {
        if a.size != b.size {
            a.size > b.size
        } else if same_text(a.name.as_str(), b.name.as_str()) {
            proof {
                lemma_text_lt_irreflexive(a.name@);
            }
            path_precedes(&a.path, &b.path)
        } else {
            proof {
                lemma_text_lt_total(a.name@, b.name@);
                if text_lt(a.name@, b.name@) && text_lt(b.name@, a.name@) {
                    lemma_text_lt_transitive(a.name@, b.name@, a.name@);
                    lemma_text_lt_irreflexive(a.name@);
                }
            }
            text_less(a.name.as_str(), b.name.as_str())
        }
    }

    /// Puts `child` among the ordered children at its display position and
    /// returns the position.
    fn place_child(&mut self, child: DisplayNode) -> (at: usize)
        requires
            seq_ordered(old(self).children@),
        ensures
            at <= old(self).children@.len(),
            final(self).children@ == put_in(old(self).children@, at as int, child),
            seq_ordered(final(self).children@),
            final(self).name == old(self).name,
            final(self).path == old(self).path,
            final(self).size == old(self).size,
            final(self).is_dir == old(self).is_dir,
            final(self).descendant_count == old(self).descendant_count,
            final(self).structural_rev == old(self).structural_rev,
    {
        let ghost s = self.children@;
        let mut lo: usize = 0;
        let mut hi: usize = self.children.len();
        while lo < hi
            invariant
                lo <= hi <= s.len(),
                self.children@ == s,
                seq_ordered(s),
                forall|k: int| 0 <= k < lo ==> ranks_before(#[trigger] s[k], child),
                forall|k: int| hi <= k < s.len() ==> ranks_before(child, #[trigger] s[k]),
            decreases hi - lo,
        {
            let mid = lo + (hi - lo) / 2;
            if DisplayNode::goes_first(&self.children[mid], &child) {
                proof {
                    assert forall|k: int| 0 <= k < mid + 1 implies ranks_before(
                        #[trigger] s[k],
                        child,
                    ) by {
                        if k < mid {
                            lemma_ranks_before_transitive(s[k], s[mid as int], child);
                        }
                    }
                }
                lo = mid + 1;
            } else {
                proof {
                    assert forall|k: int| mid <= k < s.len() implies ranks_before(
                        child,
                        #[trigger] s[k],
                    ) by {
                        if k > mid {
                            lemma_ranks_before_transitive(child, s[mid as int], s[k]);
                        }
                    }
                }
                hi = mid;
            }
        }
        self.children.insert(lo, child);
        proof {
            let t = self.children@;
            assert(t == s.insert(lo as int, child));
            assert forall|x: int, y: int| 0 <= x < y < t.len() implies ranks_before(
                #[trigger] t[x],
                #[trigger] t[y],
            ) by {
                if y < lo {
                } else if x < lo && y == lo {
                } else if x < lo {
                    assert(t[y] == s[y - 1]);
                } else if x == lo {
                    assert(t[y] == s[y - 1]);
                } else {
                    assert(t[x] == s[x - 1] && t[y] == s[y - 1]);
                }
            }
        }
        lo
    }
}

pub proof fn lemma_forest_insert(s: Seq<DisplayNode>, j: int, x: DisplayNode)
    requires
        0 <= j <= s.len(),
    ensures
        forest_nodes(s.insert(j, x)) == forest_nodes(s) + 1 + nodes_below(x),
{
    assert(s.insert(j, x) =~= s.take(j) + seq![x] + s.skip(j));
    assert(s =~= s.take(j) + s.skip(j));
    lemma_forest_concat(s.take(j) + seq![x], s.skip(j));
    lemma_forest_concat(s.take(j), seq![x]);
    lemma_forest_concat(s.take(j), s.skip(j));
    lemma_forest_single(x);
}

proof fn lemma_ordered_remove(s: Seq<DisplayNode>, i: int)
    requires
        seq_ordered(s),
        0 <= i < s.len(),
    ensures
        seq_ordered(s.remove(i)),
{
    let r = s.remove(i);
    assert forall|x: int, y: int| 0 <= x < y < r.len() implies ranks_before(
        #[trigger] r[x],
        #[trigger] r[y],
    ) by {
        let fx = if x < i {
            x
        } else {
            x + 1
        };
        let fy = if y < i {
            y
        } else {
            y + 1
        };
        assert(r[x] == s[fx] && r[y] == s[fy]);
    }
}

/// Every node of `s.remove(i).insert(j, c)` is well formed when those of
/// `s` and `c` are.
proof fn lemma_forest_well_formed(s: Seq<DisplayNode>, i: int, j: int, c: DisplayNode)
    requires
        0 <= i < s.len(),
        0 <= j < s.len(),
        forall|k: int| 0 <= k < s.len() ==> (#[trigger] s[k]).well_formed(),
        c.well_formed(),
    ensures
        forall|k: int|
            0 <= k < s.len() ==> (#[trigger] moved_in(s, i, j, c)[k]).well_formed(),
{
    let t = moved_in(s, i, j, c);
    assert forall|k: int| 0 <= k < s.len() implies (#[trigger] t[k]).well_formed() by {
        if k != j {
            let m = if k < j {
                k
            } else {
                k - 1
            };
            let f = if m < i {
                m
            } else {
                m + 1
            };
            assert(t[k] == s[f]);
        }
    }
}

proof fn lemma_forest_well_formed_insert(s: Seq<DisplayNode>, j: int, c: DisplayNode)
    requires
        0 <= j <= s.len(),
        forall|k: int| 0 <= k < s.len() ==> (#[trigger] s[k]).well_formed(),
        c.well_formed(),
    ensures
        forall|k: int|
            0 <= k <= s.len() ==> (#[trigger] put_in(s, j, c)[k]).well_formed(),
{
    let t = put_in(s, j, c);
    assert forall|k: int| 0 <= k <= s.len() implies (#[trigger] t[k]).well_formed() by {
        if k < j {
            assert(t[k] == s[k]);
        } else if k > j {
            assert(t[k] == s[k - 1]);
        }
    }
}

/// What `Path::iter` gives: the components of `rel`, each as its (lossily
/// converted) text.
pub uninterp spec fn path_names(rel: &Path) -> Seq<Seq<char>>;

/// `Path::iter`: the components of `rel`, each as text (converted lossily);
/// its result is named.
#[verifier::external_body]
fn component_names(rel: &Path) -> (names: Vec<String>)
    ensures
        names_of(names@) == path_names(rel),
{
    rel.iter().map(|part| part.to_string_lossy().into_owned()).collect()
}

impl DisplayNode {
    fn grow(&mut self, names: &[String], depth: usize, size: u64, is_dir: bool) -> (created: usize)
        requires
            old(self).well_formed(),
            depth < names@.len(),
            nodes_below(*old(self)) + (names@.len() - depth) <= usize::MAX,
        ensures
            final(self).well_formed(),
            grown(*old(self), *final(self), names_of(names@).skip(depth as int), size, is_dir),
            nodes_below(*final(self)) == nodes_below(*old(self)) + created,
            created <= names@.len() - depth,
        decreases names@.len() - depth,
    {
        let ghost before = *self;
        let ghost s = self.children@;
        let ghost all = names_of(names@).skip(depth as int);
        self.size = self.size.saturating_add(size);
        self.bump_revision();
        let name = &names[depth];
        proof {
            assert(all[0] == name@);
            assert(all.skip(1) =~= names_of(names@).skip(depth + 1));
            lemma_last_named(s, name@, s.len() as int);
        }
        let found = self.child_position(name.as_str());
        if depth + 1 == names.len() {
            match found {
                Some(index) => {
                    proof {
                        lemma_ordered_remove(s, index as int);
                        lemma_forest_remove(s, index as int);
                    }
                    let mut child = self.children.remove(index);
                    child.size = child.size.saturating_add(size);
                    child.bump_revision();
                    let ghost c = child;
                    proof {
                        assert(s[index as int].well_formed());
                        assert(c.children@ == s[index as int].children@);
                        assert(nodes_below(c) == nodes_below(s[index as int]));
                        assert(c.well_formed());
                    }
                    let at = self.place_child(child);
                    proof {
                        let t = self.children@;
                        assert(t == moved_in(s, index as int, at as int, c));
                        lemma_forest_replace(s, index as int, at as int, c);
                        lemma_forest_well_formed(s, index as int, at as int, c);
                        assert(topped_up(s[index as int], c, size));
                        assert(all.len() == 1);
                        assert(last_named(before.children@, all[0]) == Some(index as int));
                        assert(grown(before, *self, all, size, is_dir));
                    }
                    0
                },
                None => {
                    let path = join_name(&self.path, name);
                    let child = DisplayNode::new(name.clone(), path, size, is_dir);
                    let ghost c = child;
                    let at = self.place_child(child);
                    proof {
                        lemma_forest_insert(s, at as int, c);
                        lemma_forest_well_formed_insert(s, at as int, c);
                        assert(nodes_below(c) == 0);
                        assert(fresh(c, all[0], size, is_dir));
                        assert(self.children@ == put_in(s, at as int, c));
                    }
                    self.descendant_count += 1;
                    proof {
                        assert(grown(before, *self, all, size, is_dir));
                    }
                    1
                },
            }
        } else {
            match found {
                Some(index) => {
                    proof {
                        lemma_ordered_remove(s, index as int);
                        lemma_forest_remove(s, index as int);
                    }
                    let mut child = self.children.remove(index);
                    let added = child.grow(names, depth + 1, size, is_dir);
                    let ghost c = child;
                    let at = self.place_child(child);
                    proof {
                        lemma_forest_replace(s, index as int, at as int, c);
                        lemma_forest_well_formed(s, index as int, at as int, c);
                        assert(self.children@ == moved_in(s, index as int, at as int, c));
                        assert(grown(s[index as int], c, all.skip(1), size, is_dir));
                    }
                    self.descendant_count += added;
                    proof {
                        assert(last_named(before.children@, all[0]) == Some(index as int));
                        assert(grown(before, *self, all, size, is_dir));
                    }
                    added
                },
                None => {
                    let path = join_name(&self.path, name);
                    let mut child = DisplayNode::new(name.clone(), path, 0, true);
                    let ghost d = child;
                    let added = child.grow(names, depth + 1, size, is_dir);
                    let ghost c = child;
                    let at = self.place_child(child);
                    proof {
                        lemma_forest_insert(s, at as int, c);
                        lemma_forest_well_formed_insert(s, at as int, c);
                        assert(nodes_below(d) == 0);
                        assert(fresh(d, all[0], 0, true));
                        assert(grown(d, c, all.skip(1), size, is_dir));
                        assert(self.children@ == put_in(s, at as int, c));
                    }
                    self.descendant_count += added + 1;
                    proof {
                        assert(last_named(before.children@, all[0]) is None);
                        assert(grown(before, *self, all, size, is_dir));
                    }
                    added + 1
                },
            }
        }
    }

    /// Adds a discovery of `size` bytes at `components` (relative to this
    /// node), creating what is missing on the way, and returns how many
    /// nodes were created.
    pub fn insert_components(&mut self, components: &[String], size: u64, is_dir: bool) -> (created: usize)
        requires
            old(self).well_formed(),
            components@.len() >= 1,
            old(self).count() + components@.len() <= usize::MAX,
        ensures
            final(self).well_formed(),
            grown(*old(self), *final(self), names_of(components@), size, is_dir),
            final(self).count() == old(self).count() + created,
    {
        proof {
            assert(names_of(components@).skip(0) =~= names_of(components@));
        }
        self.grow(components, 0, size, is_dir)
    }

    /// Inserts a discovery at the path named by `components`, relative to
    /// this node: nothing changes for an empty path, or where the node count
    /// would no longer fit in a `usize`; otherwise as
    /// [`DisplayNode::insert_components`].
    pub fn insert_names(&mut self, components: &[String], size: u64, is_dir: bool)
        requires
            old(self).well_formed(),
        ensures
            final(self).well_formed(),
            components@.len() == 0 || old(self).count() + components@.len() > usize::MAX
                ==> *final(self) == *old(self),
            components@.len() > 0 && old(self).count() + components@.len() <= usize::MAX ==> grown(
                *old(self),
                *final(self),
                names_of(components@),
                size,
                is_dir,
            ),
    {
        if components.len() == 0 {
            return ;
        }
        // A tree cannot hold `usize::MAX` nodes in memory; this only keeps
        // the count exact on paper.
        if self.descendant_count > usize::MAX - components.len() {
            return ;
        }
        self.insert_components(components, size, is_dir);
    }

    /// Inserts a discovery path relative to this node: its components, as
    /// `Path::iter` splits it, go to [`DisplayNode::insert_names`]. Every
    /// node on the way gains `size` and a new revision, and each changed
    /// directory keeps its children in display order. An empty path changes
    /// nothing.
    pub fn insert(&mut self, rel: &Path, size: u64, is_dir: bool)
        requires
            old(self).well_formed(),
        ensures
            final(self).well_formed(),
            path_names(rel).len() == 0 || old(self).count() + path_names(rel).len() > usize::MAX
                ==> *final(self) == *old(self),
            path_names(rel).len() > 0 && old(self).count() + path_names(rel).len() <= usize::MAX
                ==> grown(*old(self), *final(self), path_names(rel), size, is_dir),
    {
        let components = component_names(rel);
        self.insert_names(components.as_slice(), size, is_dir);
    }
}

/// `new` is `old` after removing the node at `names` below it, which was
/// found by following the last child with each name: the node is taken out
/// of its parent, every ancestor on the way loses `removed.0` bytes
/// (saturating) and gains a revision, each changed child is moved to its
/// display position, and nothing else changes. `removed` is the size and
/// node count of the removed subtree.
pub open spec fn pruned(old: DisplayNode, new: DisplayNode, names: Seq<Seq<char>>, removed: (u64, nat)) -> bool
    decreases names.len(),
{
    let s = old.children@;
    let rest = names.skip(1);
    &&& names.len() >= 1
    &&& new.name == old.name
    &&& new.path == old.path
    &&& new.is_dir == old.is_dir
    &&& new.size == old.size.saturating_sub(removed.0)
    &&& new.structural_rev == old.structural_rev.wrapping_add(1)
    &&& match last_named(s, names[0]) {
        Some(i) => if names.len() == 1 {
            &&& new.children@ == s.remove(i)
            &&& removed == (s[i].size, 1 + nodes_below(s[i]))
        } else {
            exists|c: DisplayNode, j: int|
                0 <= j < s.len() && pruned(s[i], c, rest, removed) && new.children@
                    == #[trigger] moved_in(s, i, j, c)
        },
        None => false,
    }
}

impl DisplayNode {
    fn prune(&mut self, names: &[String], depth: usize) -> (removed: Option<(u64, usize)>)
        requires
            old(self).well_formed(),
            depth < names@.len(),
        ensures
            final(self).well_formed(),
            match removed {
                Some(r) => {
                    &&& pruned(
                        *old(self),
                        *final(self),
                        names_of(names@).skip(depth as int),
                        (r.0, r.1 as nat),
                    )
                    &&& nodes_below(*final(self)) + r.1 == nodes_below(*old(self))
                    &&& locate(*old(self), names_of(names@).skip(depth as int)) is Some
                },
                None => {
                    &&& *final(self) == *old(self)
                    &&& locate(*old(self), names_of(names@).skip(depth as int)) is None
                },
            },
        decreases names@.len() - depth,
    {
        let ghost before = *self;
        let ghost s = self.children@;
        let ghost all = names_of(names@).skip(depth as int);
        let name = &names[depth];
        proof {
            assert(all[0] == name@);
            assert(all.skip(1) =~= names_of(names@).skip(depth + 1));
            lemma_last_named(s, name@, s.len() as int);
        }
        let index = match self.child_position(name.as_str()) {
            Some(i) => i,
            None => {
                return None;
            },
        };
        proof {
            lemma_forest_remove(s, index as int);
            lemma_ordered_remove(s, index as int);
            assert(s[index as int].well_formed());
        }
        if depth + 1 == names.len() {
            let removed = self.children.remove(index);
            let removed_nodes = 1 + removed.descendant_count;
            self.size = self.size.saturating_sub(removed.size);
            self.descendant_count = self.descendant_count.saturating_sub(removed_nodes);
            self.bump_revision();
            proof {
                let t = self.children@;
                assert forall|k: int| 0 <= k < t.len() implies (#[trigger] t[k]).well_formed() by {
                    if k < index {
                        assert(t[k] == s[k]);
                    } else {
                        assert(t[k] == s[k + 1]);
                    }
                }
                assert(all.len() == 1);
                assert(all.skip(1) =~= Seq::<Seq<char>>::empty());
                assert(pruned(before, *self, all, (removed.size, removed_nodes as nat)));
                assert(locate(s[index as int], all.skip(1)) == Some(s[index as int]));
                assert(locate(before, all) == locate(s[index as int], all.skip(1)));
                assert(nodes_below(*self) == forest_nodes(s.remove(index as int)));
                assert(self.well_formed());
            }
            return Some((removed.size, removed_nodes));
        }
        if self.children[index].find_from(names, depth + 1).is_none() {
            proof {
                assert(locate(before, all) == locate(s[index as int], all.skip(1)));
            }
            return None;
        }
        let mut child = self.children.remove(index);
        let result = match child.prune(names, depth + 1) {
            Some(r) => r,
            None => {
                proof {
                    assert(false);
                }
                return None;
            },
        };
        let ghost c = child;
        let at = self.place_child(child);
        self.size = self.size.saturating_sub(result.0);
        self.descendant_count = self.descendant_count.saturating_sub(result.1);
        self.bump_revision();
        proof {
            lemma_forest_replace(s, index as int, at as int, c);
            lemma_forest_well_formed(s, index as int, at as int, c);
            assert(self.children@ == moved_in(s, index as int, at as int, c));
            assert(pruned(s[index as int], c, all.skip(1), (result.0, result.1 as nat)));
            assert(pruned(before, *self, all, (result.0, result.1 as nat)));
            assert(locate(before, all) == locate(s[index as int], all.skip(1)));
            assert(nodes_below(*self) == forest_nodes(moved_in(s, index as int, at as int, c)));
            assert(nodes_below(*self) + result.1 == nodes_below(before));
            assert(self.well_formed());
        }
        Some(result)
    }

    /// Removes the node at `names`, which is relative to this node: every
    /// surviving ancestor loses the removed subtree's size and node count.
    /// Returns whether the path was present; an absent or empty path changes
    /// nothing.
    pub fn remove(&mut self, names: &[String]) -> (found: bool)
        requires
            old(self).well_formed(),
        ensures
            final(self).well_formed(),
            found <==> names@.len() > 0 && locate(*old(self), names_of(names@)) is Some,
            !found ==> *final(self) == *old(self),
            found ==> exists|removed: (u64, nat)|
                #![trigger pruned(*old(self), *final(self), names_of(names@), removed)]
                pruned(*old(self), *final(self), names_of(names@), removed)
                    && final(self).count() + removed.1 == old(self).count(),
    {
        if names.len() == 0 {
            return false;
        }
        proof {
            assert(names_of(names@).skip(0) =~= names_of(names@));
        }
        match self.prune(names, 0) {
            Some(r) => {
                proof {
                    assert(pruned(*old(self), *self, names_of(names@), (r.0, r.1 as nat)));
                }
                true
            },
            None => false,
        }
    }
}

/// No two of `s` share a name.
pub open spec fn distinct_names(s: Seq<DisplayNode>) -> bool {
    forall|x: int, y: int| #![trigger s[x], s[y]] 0 <= x < y < s.len() ==> s[x].name@ != s[y].name@
}

/// No two siblings share a name, at any level: lookups by name then reach
/// every node.
pub open spec fn names_unique(n: DisplayNode) -> bool
    decreases n,
{
    &&& distinct_names(n.children@)
    &&& forall|k: int|
        0 <= k < n.children@.len() ==> names_unique(#[trigger] n.children@[k])
}

proof fn lemma_unique_found(t: Seq<DisplayNode>, k: int, x: Seq<char>)
    requires
        0 <= k < t.len(),
        t[k].name@ == x,
        distinct_names(t),
    ensures
        last_named(t, x) == Some(k),
{
    lemma_last_named(t, x, t.len() as int);
    match last_named(t, x) {
        Some(j) => {
            if j != k {
                if j < k {
                    assert(t[j].name@ != t[k].name@);
                } else {
                    assert(t[k].name@ != t[j].name@);
                }
            }
        },
        None => {
            assert(t[k].name@ != x);
        },
    }
}

/// Where element `k` of `moved_in(s, i, j, c)` comes from in `s` (for
/// `k != j`).
pub open spec fn moved_source(i: int, j: int, k: int) -> int {
    let m = if k < j {
        k
    } else {
        k - 1
    };
    if m < i {
        m
    } else {
        m + 1
    }
}

proof fn lemma_moved_in_elements(s: Seq<DisplayNode>, i: int, j: int, c: DisplayNode)
    requires
        0 <= i < s.len(),
        0 <= j < s.len(),
    ensures
        moved_in(s, i, j, c).len() == s.len(),
        moved_in(s, i, j, c)[j] == c,
        forall|k: int|
            0 <= k < s.len() && k != j ==> #[trigger] moved_in(s, i, j, c)[k] == s[moved_source(
                i,
                j,
                k,
            )] && moved_source(i, j, k) != i && 0 <= moved_source(i, j, k) < s.len(),
        forall|a: int, b: int|
            0 <= a < s.len() && 0 <= b < s.len() && a != j && b != j && a != b ==> moved_source(
                i,
                j,
                a,
            ) != moved_source(i, j, b),
{
}

proof fn lemma_distinct_moved(s: Seq<DisplayNode>, i: int, j: int, c: DisplayNode)
    requires
        0 <= i < s.len(),
        0 <= j < s.len(),
        distinct_names(s),
        c.name@ == s[i].name@,
    ensures
        distinct_names(moved_in(s, i, j, c)),
{
    let t = moved_in(s, i, j, c);
    lemma_moved_in_elements(s, i, j, c);
    assert forall|x: int, y: int| 0 <= x < y < t.len() implies #[trigger] t[x].name@
        != #[trigger] t[y].name@ by {
        let fx = if x == j {
            i
        } else {
            moved_source(i, j, x)
        };
        let fy = if y == j {
            i
        } else {
            moved_source(i, j, y)
        };
        assert(t[x].name@ == s[fx].name@);
        assert(t[y].name@ == s[fy].name@);
        assert(fx != fy);
        if fx < fy {
            assert(s[fx].name@ != s[fy].name@);
        } else {
            assert(s[fy].name@ != s[fx].name@);
        }
    }
}

proof fn lemma_distinct_put(s: Seq<DisplayNode>, j: int, c: DisplayNode)
    requires
        0 <= j <= s.len(),
        distinct_names(s),
        forall|k: int| 0 <= k < s.len() ==> (#[trigger] s[k]).name@ != c.name@,
    ensures
        distinct_names(put_in(s, j, c)),
{
    let t = put_in(s, j, c);
    assert forall|x: int, y: int| 0 <= x < y < t.len() implies #[trigger] t[x].name@
        != #[trigger] t[y].name@ by {
        if x < j && y < j {
        } else if x < j && y == j {
        } else if x < j {
            assert(t[y] == s[y - 1]);
        } else if x == j {
            assert(t[y] == s[y - 1]);
        } else {
            assert(t[x] == s[x - 1] && t[y] == s[y - 1]);
        }
    }
}

proof fn lemma_unique_children_moved(s: Seq<DisplayNode>, i: int, j: int, c: DisplayNode)
    requires
        0 <= i < s.len(),
        0 <= j < s.len(),
        forall|k: int| 0 <= k < s.len() ==> names_unique(#[trigger] s[k]),
        names_unique(c),
    ensures
        forall|k: int| 0 <= k < s.len() ==> names_unique(#[trigger] moved_in(s, i, j, c)[k]),
{
    lemma_moved_in_elements(s, i, j, c);
    assert forall|k: int| 0 <= k < s.len() implies names_unique(
        #[trigger] moved_in(s, i, j, c)[k],
    ) by {
        if k != j {
            assert(names_unique(s[moved_source(i, j, k)]));
        }
    }
}

proof fn lemma_unique_children_put(s: Seq<DisplayNode>, j: int, c: DisplayNode)
    requires
        0 <= j <= s.len(),
        forall|k: int| 0 <= k < s.len() ==> names_unique(#[trigger] s[k]),
        names_unique(c),
    ensures
        forall|k: int| 0 <= k <= s.len() ==> names_unique(#[trigger] put_in(s, j, c)[k]),
{
    let t = put_in(s, j, c);
    assert forall|k: int| 0 <= k <= s.len() implies names_unique(#[trigger] t[k]) by {
        if k < j {
            assert(t[k] == s[k]);
        } else if k > j {
            assert(t[k] == s[k - 1]);
        }
    }
}

/// After a discovery is inserted into a tree whose siblings have distinct
/// names, the inserted path can be looked up, and siblings still have
/// distinct names.
pub proof fn law_insert_then_find(
    old: DisplayNode,
    new: DisplayNode,
    names: Seq<Seq<char>>,
    size: u64,
    is_dir: bool,
)
    requires
        names_unique(old),
        grown(old, new, names, size, is_dir),
    ensures
        names_unique(new),
        locate(new, names) is Some,
    decreases names.len(),
{
    let s = old.children@;
    let t = new.children@;
    let name = names[0];
    let rest = names.skip(1);
    lemma_last_named(s, name, s.len() as int);
    match last_named(s, name) {
        Some(i) => {
            let (c, j) = if names.len() == 1 {
                choose|c: DisplayNode, j: int|
                    0 <= j < s.len() && topped_up(s[i], c, size) && t == #[trigger] moved_in(
                        s,
                        i,
                        j,
                        c,
                    )
            } else {
                choose|c: DisplayNode, j: int|
                    0 <= j < s.len() && grown(s[i], c, rest, size, is_dir) && t
                        == #[trigger] moved_in(s, i, j, c)
            };
            assert(names_unique(s[i]));
            if names.len() == 1 {
                assert(names_unique(c)) by {
                    assert(c.children@ == s[i].children@);
                }
            } else {
                law_insert_then_find(s[i], c, rest, size, is_dir);
            }
            lemma_distinct_moved(s, i, j, c);
            lemma_unique_children_moved(s, i, j, c);
            lemma_moved_in_elements(s, i, j, c);
            lemma_unique_found(t, j, name);
            if names.len() == 1 {
                assert(rest.len() == 0);
                assert(locate(t[j], rest) is Some);
            }
            assert(locate(new, names) == locate(t[j], rest));
        },
        None => {
            if names.len() == 1 {
                let (c, j) = choose|c: DisplayNode, j: int|
                    0 <= j <= s.len() && fresh(c, name, size, is_dir) && t == #[trigger] put_in(
                        s,
                        j,
                        c,
                    );
                assert(names_unique(c));
                lemma_distinct_put(s, j, c);
                lemma_unique_children_put(s, j, c);
                assert(t[j] == c);
                lemma_unique_found(t, j, name);
                assert(rest.len() == 0);
                assert(locate(t[j], rest) is Some);
                assert(locate(new, names) == locate(t[j], rest));
            } else {
                let (d, c, j) = choose|d: DisplayNode, c: DisplayNode, j: int|
                    #![trigger fresh(d, name, 0, true), put_in(s, j, c)]
                    0 <= j <= s.len() && fresh(d, name, 0, true) && grown(d, c, rest, size, is_dir)
                        && t == put_in(s, j, c);
                assert(names_unique(d));
                law_insert_then_find(d, c, rest, size, is_dir);
                assert(c.name@ == name);
                lemma_distinct_put(s, j, c);
                lemma_unique_children_put(s, j, c);
                assert(t[j] == c);
                lemma_unique_found(t, j, name);
                assert(locate(new, names) == locate(t[j], rest));
            }
        },
    }
}

/// How many nodes a discovery at `names` creates below `old`: none while
/// the names lead through existing nodes (the last child with each name),
/// and every remaining name from the first one that is missing.
pub open spec fn new_nodes(old: DisplayNode, names: Seq<Seq<char>>) -> nat
    decreases names.len(),
{
    if names.len() == 0 {
        0
    } else {
        match last_named(old.children@, names[0]) {
            Some(i) => new_nodes(old.children@[i], names.skip(1)),
            None => names.len(),
        }
    }
}

/// Growing a tree along `names` adds exactly the nodes that were missing on
/// the way: the descendant count rises by `new_nodes(old, names)`.
pub proof fn law_insert_counts_new_nodes(
    old: DisplayNode,
    new: DisplayNode,
    names: Seq<Seq<char>>,
    size: u64,
    is_dir: bool,
)
    requires
        grown(old, new, names, size, is_dir),
    ensures
        nodes_below(new) == nodes_below(old) + new_nodes(old, names),
        old.well_formed() && new.well_formed() ==> new.count() == old.count() + new_nodes(
            old,
            names,
        ),
    decreases names.len(),
{
    let s = old.children@;
    let name = names[0];
    let rest = names.skip(1);
    lemma_last_named(s, name, s.len() as int);
    match last_named(s, name) {
        Some(i) => {
            if names.len() == 1 {
                let (c, j) = choose|c: DisplayNode, j: int|
                    0 <= j < s.len() && topped_up(s[i], c, size) && new.children@
                        == #[trigger] moved_in(s, i, j, c);
                lemma_forest_replace(s, i, j, c);
                assert(nodes_below(c) == nodes_below(s[i]));
                assert(rest.len() == 0);
                assert(new_nodes(old, names) == new_nodes(s[i], rest));
                assert(new_nodes(old, names) == 0);
            } else {
                let (c, j) = choose|c: DisplayNode, j: int|
                    0 <= j < s.len() && grown(s[i], c, rest, size, is_dir) && new.children@
                        == #[trigger] moved_in(s, i, j, c);
                law_insert_counts_new_nodes(s[i], c, rest, size, is_dir);
                lemma_forest_replace(s, i, j, c);
                assert(new_nodes(old, names) == new_nodes(s[i], rest));
            }
        },
        None => {
            if names.len() == 1 {
                let (c, j) = choose|c: DisplayNode, j: int|
                    0 <= j <= s.len() && fresh(c, name, size, is_dir) && c.path == joined(
                        old.path,
                        name,
                    ) && new.children@ == #[trigger] put_in(s, j, c);
                lemma_forest_insert(s, j, c);
                assert(c.children@ =~= Seq::<DisplayNode>::empty());
                assert(forest_nodes(c.children@) == 0);
                assert(nodes_below(c) == 0);
                assert(new_nodes(old, names) == 1);
            } else {
                let (d, c, j) = choose|d: DisplayNode, c: DisplayNode, j: int|
                    #![trigger fresh(d, name, 0, true), put_in(s, j, c)]
                    0 <= j <= s.len() && fresh(d, name, 0, true) && d.path == joined(old.path, name)
                        && grown(d, c, rest, size, is_dir) && new.children@ == put_in(s, j, c);
                law_insert_counts_new_nodes(d, c, rest, size, is_dir);
                assert(d.children@ =~= Seq::<DisplayNode>::empty());
                assert(forest_nodes(d.children@) == 0);
                assert(nodes_below(d) == 0);
                assert(last_named(d.children@, rest[0]) is None);
                assert(new_nodes(d, rest) == rest.len());
                lemma_forest_insert(s, j, c);
                assert(new_nodes(old, names) == names.len());
            }
        },
    }
    assert(nodes_below(new) == forest_nodes(new.children@));
    assert(nodes_below(old) == forest_nodes(s));
}

/// Inserting a discovery path with `insert` into a tree whose siblings have
/// distinct names (and whose node count stays within a `usize`) makes the
/// path's components findable, and siblings still have distinct names.
pub proof fn law_insert_path_then_find(
    old: DisplayNode,
    new: DisplayNode,
    rel: &Path,
    size: u64,
    is_dir: bool,
)
    requires
        names_unique(old),
        path_names(rel).len() > 0,
        grown(old, new, path_names(rel), size, is_dir),
    ensures
        names_unique(new),
        locate(new, path_names(rel)) is Some,
{
    law_insert_then_find(old, new, path_names(rel), size, is_dir);
}

/// After a node is removed from a tree whose siblings have distinct names,
/// it can no longer be looked up, and siblings still have distinct names.
pub proof fn law_remove_then_absent(
    old: DisplayNode,
    new: DisplayNode,
    names: Seq<Seq<char>>,
    removed: (u64, nat),
)
    requires
        names_unique(old),
        pruned(old, new, names, removed),
    ensures
        names_unique(new),
        locate(new, names) is None,
    decreases names.len(),
{
    let s = old.children@;
    let t = new.children@;
    let name = names[0];
    let rest = names.skip(1);
    lemma_last_named(s, name, s.len() as int);
    let i = last_named(s, name)->0;
    if names.len() == 1 {
        assert(t == s.remove(i));
        assert forall|x: int, y: int| 0 <= x < y < t.len() implies #[trigger] t[x].name@
            != #[trigger] t[y].name@ by {
            let fx = if x < i {
                x
            } else {
                x + 1
            };
            let fy = if y < i {
                y
            } else {
                y + 1
            };
            assert(t[x] == s[fx] && t[y] == s[fy]);
        }
        assert forall|k: int| 0 <= k < t.len() implies names_unique(#[trigger] t[k]) by {
            if k < i {
                assert(t[k] == s[k]);
            } else {
                assert(t[k] == s[k + 1]);
            }
        }
        lemma_last_named(t, name, t.len() as int);
        if last_named(t, name) is Some {
            let k = last_named(t, name)->0;
            if k < i {
                assert(t[k] == s[k]);
                assert(s[k].name@ != s[i].name@);
            } else {
                assert(t[k] == s[k + 1]);
                assert(s[i].name@ != s[k + 1].name@);
            }
        }
    } else {
        let (c, j) = choose|c: DisplayNode, j: int|
            0 <= j < s.len() && pruned(s[i], c, rest, removed) && t == #[trigger] moved_in(
                s,
                i,
                j,
                c,
            );
        assert(names_unique(s[i]));
        law_remove_then_absent(s[i], c, rest, removed);
        lemma_distinct_moved(s, i, j, c);
        lemma_unique_children_moved(s, i, j, c);
        lemma_moved_in_elements(s, i, j, c);
        lemma_unique_found(t, j, name);
    }
}

/// Where `child` goes among the ordered `s[..upto]`: everything before the
/// position ranks before it, everything from it on ranks after it.
fn display_position(s: &Vec<DisplayNode>, upto: usize, child: &DisplayNode) -> (at: usize)
    requires
        upto <= s@.len(),
        seq_ordered(s@.take(upto as int)),
    ensures
        at <= upto,
        forall|k: int| 0 <= k < at ==> ranks_before(#[trigger] s@[k], *child),
        forall|k: int| at <= k < upto ==> ranks_before(*child, #[trigger] s@[k]),
{
    let ghost t = s@.take(upto as int);
    let mut lo: usize = 0;
    let mut hi: usize = upto;
    while lo < hi
        invariant
            lo <= hi <= upto <= s@.len(),
            t == s@.take(upto as int),
            seq_ordered(t),
            forall|k: int| 0 <= k < lo ==> ranks_before(#[trigger] s@[k], *child),
            forall|k: int| hi <= k < upto ==> ranks_before(*child, #[trigger] s@[k]),
        decreases hi - lo,
    {
        let mid = lo + (hi - lo) / 2;
        if DisplayNode::goes_first(&s[mid], child) {
            proof {
                assert forall|k: int| 0 <= k < mid + 1 implies ranks_before(
                    #[trigger] s@[k],
                    *child,
                ) by {
                    if k < mid {
                        assert(t[k] == s@[k] && t[mid as int] == s@[mid as int]);
                        lemma_ranks_before_transitive(s@[k], s@[mid as int], *child);
                    }
                }
            }
            lo = mid + 1;
        } else {
            proof {
                assert forall|k: int| mid <= k < upto implies ranks_before(
                    *child,
                    #[trigger] s@[k],
                ) by {
                    if k > mid {
                        assert(t[k] == s@[k] && t[mid as int] == s@[mid as int]);
                        lemma_ranks_before_transitive(*child, s@[mid as int], s@[k]);
                    }
                }
            }
            hi = mid;
        }
    }
    lo
}

impl DisplayNode {
    /// Puts the children in display order.
    fn sort_children(&mut self) -> (perm: Ghost<Seq<int>>)
        requires
            old(self).well_formed_below(),
        ensures
            rearranged(old(self).children@, final(self).children@, perm@),
            seq_ordered(final(self).children@),
            forest_nodes(final(self).children@) == forest_nodes(old(self).children@),
            final(self).well_formed_below(),
            final(self).name == old(self).name,
            final(self).path == old(self).path,
            final(self).size == old(self).size,
            final(self).is_dir == old(self).is_dir,
            final(self).descendant_count == old(self).descendant_count,
            final(self).structural_rev == old(self).structural_rev,
    {
        let ghost orig = self.children@;
        let n = self.children.len();
        let ghost mut p: Seq<int> = Seq::new(n as nat, |k: int| k);
        proof {
            lemma_rearranged_identity(orig);
        }
        let mut i: usize = 0;
        while i < n
            invariant
                i <= n,
                n == orig.len(),
                self.children@.len() == n,
                rearranged(orig, self.children@, p),
                seq_ordered(self.children@.take(i as int)),
                forest_nodes(self.children@) == forest_nodes(orig),
                forall|k: int| 0 <= k < n ==> (#[trigger] orig[k]).well_formed(),
                self.name == old(self).name,
                self.path == old(self).path,
                self.size == old(self).size,
                self.is_dir == old(self).is_dir,
                self.descendant_count == old(self).descendant_count,
                self.structural_rev == old(self).structural_rev,
            decreases n - i,
        {
            let ghost cur = self.children@;
            let x = self.children.remove(i);
            proof {
                assert(self.children@.take(i as int) =~= cur.take(i as int));
            }
            let j = display_position(&self.children, i, &x);
            self.children.insert(j, x);
            proof {
                let t = self.children@;
                assert(t == cur.remove(i as int).insert(j as int, cur[i as int]));
                lemma_move(cur, i as int, j as int);
                let q = Seq::new(cur.len(), |k: int| crate::order::shift_from(i as int, j as int, k));
                lemma_rearranged_compose(orig, cur, t, p, q);
                p = Seq::new(orig.len(), |k: int| p[q[k]]);
                lemma_forest_replace(cur, i as int, j as int, cur[i as int]);
                let pre = t.take(i + 1);
                assert forall|a: int, b: int| 0 <= a < b < pre.len() implies ranks_before(
                    #[trigger] pre[a],
                    #[trigger] pre[b],
                ) by {
                    let r = cur.remove(i as int);
                    assert(forall|k: int| 0 <= k < i ==> r[k] == cur[k]);
                    if b < j {
                        assert(pre[a] == cur[a] && pre[b] == cur[b]);
                        assert(cur.take(i as int)[a] == cur[a]);
                    } else if a < j && b == j {
                        assert(pre[a] == cur[a]);
                    } else if a < j {
                        assert(pre[a] == cur[a] && pre[b] == cur[b - 1]);
                        assert(cur.take(i as int)[a] == cur[a]);
                        assert(cur.take(i as int)[b - 1] == cur[b - 1]);
                    } else if a == j {
                        assert(pre[b] == cur[b - 1]);
                    } else {
                        assert(pre[a] == cur[a - 1] && pre[b] == cur[b - 1]);
                        assert(cur.take(i as int)[a - 1] == cur[a - 1]);
                        assert(cur.take(i as int)[b - 1] == cur[b - 1]);
                    }
                }
            }
            i += 1;
        }
        proof {
            assert(self.children@.take(n as int) =~= self.children@);
            assert forall|k: int| 0 <= k < n implies (#[trigger] self.children@[k]).well_formed() by {
                assert(self.children@[k] == orig[p[k]]);
            }
        }
        Ghost(p)
    }

    /// Every child is well formed (the node's own count and order aside).
    pub open spec fn well_formed_below(self) -> bool {
        forall|k: int| 0 <= k < self.children@.len() ==> (#[trigger] self.children@[k]).well_formed()
    }

    /// Appends a child without reordering the siblings.
    fn append_child_unsorted(&mut self, child: DisplayNode)
        requires
            old(self).descendant_count + 1 + child.descendant_count <= usize::MAX,
        ensures
            final(self).children@ == old(self).children@.push(child),
            final(self).descendant_count == old(self).descendant_count + 1 + child.descendant_count,
            final(self).name == old(self).name,
            final(self).path == old(self).path,
            final(self).size == old(self).size,
            final(self).is_dir == old(self).is_dir,
            final(self).structural_rev == old(self).structural_rev.wrapping_add(1),
    {
        self.descendant_count += 1 + child.descendant_count;
        self.children.push(child);
        self.bump_revision();
    }
}

/// Number of entries in a forest of scanned entries, every level counted.
pub open spec fn entry_forest(s: Seq<Entry>) -> nat
    decreases s,
{
    if s.len() == 0 {
        0
    } else {
        entry_forest(s.subrange(0, s.len() - 1)) + 1 + entry_below(s[s.len() - 1])
    }
}

/// Number of entries strictly below `e`.
pub open spec fn entry_below(e: Entry) -> nat
    decreases e,
{
    proof {
        assert(decreases_to!(e => e.children));
        assert(decreases_to!(e.children => e.children@));
    }
    entry_forest(e.children@)
}

/// `d` shows `e`: the same name, path, size and kind, and children that show
/// `e`'s children, in some order, level by level.
pub open spec fn shows(d: DisplayNode, e: Entry) -> bool
    decreases d,
{
    &&& d.name@ == e.name@
    &&& d.path == e.path
    &&& d.size == e.size
    &&& d.is_dir == e.is_dir
    &&& d.children@.len() == e.children@.len()
    &&& exists|p: Seq<int>|
        {
            &&& #[trigger] is_permutation(p, d.children@.len() as int)
            &&& forall|k: int|
                0 <= k < d.children@.len() ==> shows(
                    #[trigger] d.children@[k],
                    e.children@[p[k]],
                )
        }
}

proof fn lemma_forest_nodes_at_least_len(s: Seq<DisplayNode>)
    ensures
        forest_nodes(s) >= s.len(),
    decreases s.len(),
{
    if s.len() > 0 {
        lemma_forest_nodes_at_least_len(s.subrange(0, s.len() - 1));
    }
}

/// The revisions a fresh conversion leaves: every node's revision is one
/// more than its number of children (a node starts at 1 and each appended
/// child advances it).
pub open spec fn fresh_revisions(d: DisplayNode) -> bool
    decreases d,
{
    &&& d.structural_rev == 1 + d.children@.len()
    &&& forall|k: int| 0 <= k < d.children@.len() ==> fresh_revisions(#[trigger] d.children@[k])
}

pub proof fn lemma_entry_forest_concat(a: Seq<Entry>, b: Seq<Entry>)
    ensures
        entry_forest(a + b) == entry_forest(a) + entry_forest(b),
    decreases b.len(),
{
    if b.len() == 0 {
        assert(a + b =~= a);
    } else {
        let b0 = b.subrange(0, b.len() - 1);
        lemma_entry_forest_concat(a, b0);
        assert((a + b).subrange(0, (a + b).len() - 1) =~= a + b0);
    }
}

/// The entries after the first `k` of a forest, with the one at `k - 1`.
proof fn lemma_entry_forest_step(s: Seq<Entry>, k: int)
    requires
        0 < k <= s.len(),
    ensures
        entry_forest(s.skip(k - 1)) == entry_forest(s.skip(k)) + 1 + entry_below(s[k - 1]),
        entry_forest(s.skip(k - 1)) <= entry_forest(s),
{
    let e = Seq::<Entry>::empty();
    assert(seq![s[k - 1]].subrange(0, 0) =~= e);
    assert(entry_forest(e) == 0);
    assert(s.skip(k - 1) =~= seq![s[k - 1]] + s.skip(k));
    lemma_entry_forest_concat(seq![s[k - 1]], s.skip(k));
    assert(s =~= s.take(k - 1) + s.skip(k - 1));
    lemma_entry_forest_concat(s.take(k - 1), s.skip(k - 1));
}

/// Copies of a tree have as many entries.
pub proof fn lemma_same_tree_counts(a: Entry, b: Entry)
    requires
        a.same_tree(b),
    ensures
        entry_below(a) == entry_below(b),
    decreases a,
{
    assert(decreases_to!(a => a.children));
    assert(decreases_to!(a.children => a.children@));
    lemma_same_forest_counts(a.children@, b.children@);
}

proof fn lemma_same_forest_counts(s: Seq<Entry>, t: Seq<Entry>)
    requires
        s.len() == t.len(),
        forall|k: int| 0 <= k < s.len() ==> (#[trigger] s[k]).same_tree(t[k]),
    ensures
        entry_forest(s) == entry_forest(t),
    decreases s,
{
    if s.len() > 0 {
        let n = s.len() - 1;
        lemma_same_forest_counts(s.subrange(0, n), t.subrange(0, n));
        lemma_same_tree_counts(s[n], t[n]);
    }
}

/// What shows an entry shows any copy of it.
pub proof fn lemma_shows_copy(d: DisplayNode, a: Entry, b: Entry)
    requires
        shows(d, a),
        a.same_tree(b),
    ensures
        shows(d, b),
    decreases d,
{
    let n = d.children@.len() as int;
    let p = choose|p: Seq<int>|
        {
            &&& #[trigger] is_permutation(p, n)
            &&& forall|k: int| 0 <= k < n ==> shows(#[trigger] d.children@[k], a.children@[p[k]])
        };
    assert forall|k: int| 0 <= k < n implies shows(#[trigger] d.children@[k], b.children@[p[k]]) by {
        assert(a.children@[p[k]].same_tree(b.children@[p[k]]));
        lemma_shows_copy(d.children@[k], a.children@[p[k]], b.children@[p[k]]);
    }
}

/// Counts `e` and everything below it, saturating at `u64::MAX`, asking
/// `poll` for cancellation at every node; `None` when it reported one.
fn count_entries<F: Fn() -> bool>(e: &Entry, poll: &F) -> (total: Option<u64>)
    requires
        call_requires(*poll, ()),
    ensures
        total is None ==> call_ensures(*poll, (), true),
        total matches Some(t) ==> t == (if 1 + entry_below(*e) <= u64::MAX {
            1 + entry_below(*e)
        } else {
            u64::MAX as nat
        }),
    decreases e,
{
    if poll() {
        return None;
    }
    let n = e.children.len();
    let mut total: u64 = 1;
    let mut k: usize = 0;
    proof {
        assert(e.children@.take(0) =~= Seq::<Entry>::empty());
    }
    while k < n
        invariant
            k <= n,
            n == e.children@.len(),
            call_requires(*poll, ()),
            total == (if 1 + entry_forest(e.children@.take(k as int)) <= u64::MAX {
                1 + entry_forest(e.children@.take(k as int))
            } else {
                u64::MAX as nat
            }),
        decreases n - k,
    {
        proof {
            assert(decreases_to!(*e => e.children));
            assert(decreases_to!(e.children => e.children@));
            assert(decreases_to!(e.children@ => e.children@[k as int]));
        }
        let c = match count_entries(&e.children[k], poll) {
            Some(c) => c,
            None => {
                return None;
            },
        };
        total = total.saturating_add(c);
        proof {
            let s = e.children@;
            assert(s.take(k + 1).subrange(0, k as int) =~= s.take(k as int));
        }
        k += 1;
    }
    proof {
        assert(e.children@.take(n as int) =~= e.children@);
    }
    Some(total)
}

/// Converts `entry` into a display tree, asking `poll` for cancellation at
/// every node and counting each finished node into `progress`.
fn convert<F: Fn() -> bool>(entry: Entry, progress: &ScanProgress, poll: &F) -> (res: Option<
    DisplayNode,
>)
    requires
        entry_below(entry) < usize::MAX,
        call_requires(*poll, ()),
    ensures
        res is None ==> call_ensures(*poll, (), true),
        res matches Some(d) ==> d.well_formed() && shows(d, entry) && nodes_below(d)
            == entry_below(entry) && fresh_revisions(d),
    decreases entry,
{
    if poll() {
        return None;
    }
    let ghost e = entry;
    let Entry { name, path, size, is_dir, children } = entry;
    let mut node = DisplayNode::new(name, path, size, is_dir);
    let mut rest = children;
    let n = rest.len();
    proof {
        assert(e.children@.skip(n as int) =~= Seq::<Entry>::empty());
        assert(e.children@.take(n as int) =~= e.children@);
    }
    while rest.len() > 0
        invariant
            n == e.children@.len(),
            rest@.len() <= n,
            rest@ == e.children@.take(rest@.len() as int),
            node.children@.len() == n - rest@.len(),
            forall|k: int|
                0 <= k < node.children@.len() ==> shows(
                    #[trigger] node.children@[k],
                    e.children@[n - 1 - k],
                ) && node.children@[k].well_formed() && fresh_revisions(node.children@[k]),
            node.structural_rev == 1 + node.children@.len(),
            node.descendant_count == nodes_below(node),
            nodes_below(node) == entry_forest(e.children@.skip(rest@.len() as int)),
            entry_below(e) < usize::MAX,
            call_requires(*poll, ()),
            node.name@ == e.name@,
            node.path == e.path,
            node.size == e.size,
            node.is_dir == e.is_dir,
            e == entry,
        decreases rest@.len(),
    {
        let r = rest.len();
        let child = rest.pop().unwrap();
        proof {
            assert(child == e.children@[r - 1]);
            assert(decreases_to!(e => e.children));
            assert(decreases_to!(e.children => e.children@));
            assert(decreases_to!(e.children@ => e.children@[r - 1]));
            lemma_entry_forest_step(e.children@, r as int);
            assert(rest@ =~= e.children@.take(r - 1));
        }
        match convert(child, progress, poll) {
            Some(c) => {
                let ghost before = node;
                proof {
                    assert(before.children@.len() < n);
                }
                node.append_child_unsorted(c);
                proof {
                    lemma_forest_push(before.children@, c);
                    assert(node.children@[node.children@.len() - 1] == c);
                    lemma_forest_nodes_at_least_len(node.children@);
                    assert(nodes_below(node) < usize::MAX);
                }
            },
            None => {
                return None;
            },
        }
    }
    let ghost unsorted = node.children@;
    let perm = node.sort_children();
    progress.conversion_node_finished();
    proof {
        let q = Seq::new(n as nat, |k: int| n - 1 - perm@[k]);
        assert forall|k: int| 0 <= k < n implies shows(
            #[trigger] node.children@[k],
            e.children@[q[k]],
        ) by {
            assert(node.children@[k] == unsorted[perm@[k]]);
        }
        assert forall|k: int| 0 <= k < n implies 0 <= #[trigger] q[k] < n by {}
        assert forall|a: int, b: int| 0 <= a < b < n implies q[a] != q[b] by {}
        assert forall|x: int| 0 <= x < n implies #[trigger] hits(q, x) by {
            assert(hits(perm@, n - 1 - x));
            let m = choose|m: int| 0 <= m < perm@.len() && perm@[m] == n - 1 - x;
            assert(q[m] == x);
        }
        assert(is_permutation(q, n as int));
        assert(e.children@.skip(0) =~= e.children@);
        assert(node.well_formed());
        assert forall|k: int| 0 <= k < n implies fresh_revisions(#[trigger] node.children@[k]) by {
            assert(node.children@[k] == unsorted[perm@[k]]);
        }
    }
    Some(node)
}

impl DisplayNode {
    /// Converts a scanned tree, consuming it, while publishing preparation
    /// progress: the node total first, then each finished node. `poll` is
    /// asked for cancellation at every node of both passes; a cancelled
    /// conversion returns no partial tree. Without a cancellation, only a tree
    /// too large to count in a `usize` gives no tree.
    pub fn from_owned_entry_polling<F: Fn() -> bool>(
        entry: Entry,
        progress: &ScanProgress,
        poll: &F,
    ) -> (tree: Option<DisplayNode>)
        requires
            call_requires(*poll, ()),
        ensures
            tree matches Some(d) ==> d.well_formed() && shows(d, entry) && fresh_revisions(d),
            1 + entry_below(entry) >= usize::MAX ==> tree is None,
            tree is None ==> 1 + entry_below(entry) >= usize::MAX || call_ensures(*poll, (), true),
    {
        let total = match count_entries(&entry, poll) {
            Some(t) => t,
            None => {
                return None;
            },
        };
        // A tree in memory holds far fewer than `usize::MAX` nodes; this only
        // keeps the descendant counts exact on paper.
        if total as u128 >= usize::MAX as u128 {
            return None;
        }
        progress.start_conversion(total);
        match convert(entry, progress, poll) {
            Some(node) => {
                progress.finish_conversion();
                Some(node)
            },
            None => None,
        }
    }

    /// Converts a scanned tree, consuming it, while publishing preparation
    /// progress: the node total first, then each finished node. Cancellation
    /// is checked during both passes; a cancelled conversion returns no
    /// partial tree.
    pub fn from_owned_entry_with_progress(
        entry: Entry,
        progress: &ScanProgress,
        cancel: &AtomicBool,
    ) -> (tree: Option<DisplayNode>)
        ensures
            tree matches Some(d) ==> d.well_formed() && shows(d, entry) && fresh_revisions(d),
            1 + entry_below(entry) >= usize::MAX ==> tree is None,
    {
        let poll = || cancel.load(Ordering::Relaxed);
        Self::from_owned_entry_polling(entry, progress, &poll)
    }

    /// Converts a scanned tree, consuming it.
    pub fn from_owned_entry(entry: Entry) -> (tree: DisplayNode)
        requires
            entry_below(entry) < usize::MAX,
        ensures
            tree.well_formed(),
            shows(tree, entry),
            fresh_revisions(tree),
    {
        let progress = ScanProgress::default();
        let never = || -> (cancelled: bool)
            ensures
                !cancelled,
            { false };
        let total = match count_entries(&entry, &never) {
            Some(t) => t,
            None => 0,
        };
        progress.start_conversion(total);
        let converted = convert(entry, &progress, &never);
        proof {
            if converted is None {
                assert(call_ensures(never, (), true));
            }
        }
        let node = converted.unwrap();
        progress.finish_conversion();
        node
    }

    /// Builds a display tree from a borrowed scanned tree, from a copy.
    pub fn from_entry(entry: &Entry) -> (tree: DisplayNode)
        requires
            entry_below(*entry) < usize::MAX,
        ensures
            tree.well_formed(),
            shows(tree, *entry),
            fresh_revisions(tree),
    {
        let copy = entry.clone();
        proof {
            lemma_same_tree_counts(copy, *entry);
        }
        let tree = DisplayNode::from_owned_entry(copy);
        proof {
            lemma_shows_copy(tree, copy, *entry);
        }
        tree
    }
}

} // verus!

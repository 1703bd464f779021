//! The pointer tree: the places at which blocks are referenced, regrouped by
//! the offsets that their paths share.

use vstd::prelude::*;

verus! {

/// One occurrence of a block reference: the block's name and the offsets,
/// one for each level of nesting, that lead to it.
#[derive(Debug, Clone, PartialEq, Eq)]
pub struct Pointer {
    pub hash: String,
    pub path: Vec<usize>,
}

impl View for Pointer {
    type V = (Seq<char>, Seq<usize>);

    open spec fn view(&self) -> (Seq<char>, Seq<usize>) {
        (self.hash@, self.path@)
    }
}

/// The occurrences held by a list of pointers, in the list's order.
pub open spec fn pointers_view(pointers: Seq<Pointer>) -> Seq<(Seq<char>, Seq<usize>)> {
    pointers.map_values(|p: Pointer| p@)
}

/// What stands at an offset of the tree.
#[derive(Debug, PartialEq, Eq)]
pub enum PointerNode {
    /// A substructure that holds further references.
    Internal(PointerTree),
    /// A reference to the block of this name.
    Leaf(String),
}

/// An offset and what stands there.
#[derive(Debug, PartialEq, Eq)]
pub struct PointerEntry {
    pub offset: usize,
    pub node: PointerNode,
}

/// One level of the tree: its entries by ascending offset, no offset twice.
#[derive(Debug, PartialEq, Eq)]
pub struct PointerTree {
    pub entries: Vec<PointerEntry>,
}

/// A node as a mathematical value.
pub ghost enum NodeView {
    Leaf(Seq<char>),
    Internal(Map<usize, NodeView>),
}

/// Whether the offsets of `entries` ascend strictly.
pub open spec fn offsets_ascend(entries: Seq<PointerEntry>) -> bool {
    forall|i: int, j: int| 0 <= i < j < entries.len() ==> entries[i].offset < entries[j].offset
}

/// The map from offset to node that `entries` stand for.
pub open spec fn entries_view(entries: Seq<PointerEntry>) -> Map<usize, NodeView>
    decreases entries,
{
    if entries.len() == 0 {
        Map::empty()
    } else {
        entries_view(entries.drop_last()).insert(
            entries.last().offset,
            node_view(entries.last().node),
        )
    }
}

/// The mathematical value of a node.
pub open spec fn node_view(node: PointerNode) -> NodeView
    decreases node,
{
    match node {
        PointerNode::Leaf(hash) => NodeView::Leaf(hash@),
        PointerNode::Internal(tree) => NodeView::Internal(entries_view(tree.entries@)),
    }
}

/// Whether the entries of every level ascend strictly by offset.
pub open spec fn entries_well_formed(entries: Seq<PointerEntry>) -> bool
    decreases entries,
{
    &&& offsets_ascend(entries)
    &&& forall|i: int|
        0 <= i < entries.len() ==> match (#[trigger] entries[i]).node {
            PointerNode::Leaf(_) => true,
            PointerNode::Internal(tree) => entries_well_formed(tree.entries@),
        }
}

/// The tree that results from `tree` when `hash` is put at the end of `path`:
/// each offset but the last leads to an internal node, made where there is
/// none; the last offset holds the leaf. An empty path changes nothing.
pub open spec fn tree_insert(tree: Map<usize, NodeView>, path: Seq<usize>, hash: Seq<char>) -> Map<
    usize,
    NodeView,
>
    decreases path.len(),
{
    if path.len() == 0 {
        tree
    } else if path.len() == 1 {
        tree.insert(path[0], NodeView::Leaf(hash))
    } else {
        tree.insert(
            path[0],
            NodeView::Internal(tree_insert(subtree_at(tree, path[0]), path.drop_first(), hash)),
        )
    }
}

/// The level below `offset`, empty where `offset` holds no internal node.
pub open spec fn subtree_at(tree: Map<usize, NodeView>, offset: usize) -> Map<usize, NodeView> {
    if tree.contains_key(offset) && tree[offset] is Internal {
        tree[offset]->Internal_0
    } else {
        Map::empty()
    }
}

/// The tree built from `pointers`, inserted one after another.
pub open spec fn build_tree(pointers: Seq<(Seq<char>, Seq<usize>)>) -> Map<usize, NodeView>
    decreases pointers.len(),
{
    if pointers.len() == 0 {
        Map::empty()
    } else {
        tree_insert(build_tree(pointers.drop_last()), pointers.last().1, pointers.last().0)
    }
}

/// An offset that no entry has is no key of the map.
pub proof fn lemma_view_absent(entries: Seq<PointerEntry>, offset: usize)
    requires
        forall|j: int| 0 <= j < entries.len() ==> entries[j].offset != offset,
    ensures
        !entries_view(entries).contains_key(offset),
    decreases entries.len(),
{
    if entries.len() > 0 {
        lemma_view_absent(entries.drop_last(), offset);
    }
}

/// The map holds an entry's node at the entry's offset, where no later entry
/// has that offset.
pub proof fn lemma_view_at(entries: Seq<PointerEntry>, i: int)
    requires
        0 <= i < entries.len(),
        forall|j: int| i < j < entries.len() ==> entries[j].offset != entries[i].offset,
    ensures
        entries_view(entries).contains_key(entries[i].offset),
        entries_view(entries)[entries[i].offset] == node_view(entries[i].node),
    decreases entries.len(),
{
    if i < entries.len() - 1 {
        lemma_view_at(entries.drop_last(), i);
    }
}

/// A new entry, put before entries with other offsets, inserts into the map.
pub proof fn lemma_view_insert(entries: Seq<PointerEntry>, i: int, entry: PointerEntry)
    requires
        0 <= i <= entries.len(),
        forall|j: int| i <= j < entries.len() ==> entries[j].offset != entry.offset,
    ensures
        entries_view(entries.insert(i, entry)) == entries_view(entries).insert(
            entry.offset,
            node_view(entry.node),
        ),
    decreases entries.len(),
{
    let after = entries.insert(i, entry);
    if i == entries.len() {
        assert(after.drop_last() =~= entries);
    } else {
        let front = entries.drop_last();
        assert(after.drop_last() =~= front.insert(i, entry));
        assert(after.last() == entries.last());
        lemma_view_insert(front, i, entry);
        assert(entries_view(after) =~= entries_view(entries).insert(
            entry.offset,
            node_view(entry.node),
        ));
    }
}

/// An entry that takes the place of one with the same offset, before
/// entries with other offsets, inserts into the map.
pub proof fn lemma_view_update(entries: Seq<PointerEntry>, i: int, entry: PointerEntry)
    requires
        0 <= i < entries.len(),
        entries[i].offset == entry.offset,
        forall|j: int| i < j < entries.len() ==> entries[j].offset != entry.offset,
    ensures
        entries_view(entries.update(i, entry)) == entries_view(entries).insert(
            entry.offset,
            node_view(entry.node),
        ),
    decreases entries.len(),
{
    let after = entries.update(i, entry);
    let front = entries.drop_last();
    if i == entries.len() - 1 {
        assert(after.drop_last() =~= front);
    } else {
        assert(after.drop_last() =~= front.update(i, entry));
        assert(after.last() == entries.last());
        lemma_view_update(front, i, entry);
    }
    assert(entries_view(after) =~= entries_view(entries).insert(
        entry.offset,
        node_view(entry.node),
    ));
}

/// `entries` with `entry` at index `i`, in place of the entry there where
/// that one has the same offset.
pub open spec fn put_entry(entries: Seq<PointerEntry>, i: int, entry: PointerEntry) -> Seq<
    PointerEntry,
> {
    if i < entries.len() && entries[i].offset == entry.offset {
        entries.update(i, entry)
    } else {
        entries.insert(i, entry)
    }
}

/// Putting `entry` at its place among ascending entries keeps every level
/// in ascending order.
pub proof fn lemma_put_entry_well_formed(before: Seq<PointerEntry>, i: int, entry: PointerEntry)
    requires
        entries_well_formed(before),
        0 <= i <= before.len(),
        forall|j: int| 0 <= j < i ==> before[j].offset < entry.offset,
        forall|j: int| i <= j < before.len() ==> before[j].offset >= entry.offset,
        match entry.node {
            PointerNode::Leaf(_) => true,
            PointerNode::Internal(tree) => entries_well_formed(tree.entries@),
        },
    ensures
        entries_well_formed(put_entry(before, i, entry)),
{
    let present = i < before.len() && before[i].offset == entry.offset;
    let after = put_entry(before, i, entry);
    assert forall|a: int, b: int| 0 <= a < b < after.len() implies after[a].offset
        < after[b].offset by {
        if present {
            assert(after[a].offset == before[a].offset);
            assert(after[b].offset == before[b].offset);
        } else {
            if a < i && b > i {
                assert(after[a] == before[a] && after[b] == before[b - 1]);
            } else if a > i {
                assert(after[a] == before[a - 1] && after[b] == before[b - 1]);
            } else if b < i {
                assert(after[a] == before[a] && after[b] == before[b]);
            } else if a == i {
                assert(after[b] == before[b - 1]);
            }
        }
    }
    assert forall|j: int| 0 <= j < after.len() implies match (#[trigger] after[j]).node {
        PointerNode::Leaf(_) => true,
        PointerNode::Internal(tree) => entries_well_formed(tree.entries@),
    } by {
        if j < i {
            assert(after[j] == before[j]);
        } else if j > i {
            if present {
                assert(after[j] == before[j]);
            } else {
                assert(after[j] == before[j - 1]);
            }
        }
    }
}

/// Putting `entry` at its place among ascending entries inserts into the map.
pub proof fn lemma_put_entry_view(before: Seq<PointerEntry>, i: int, entry: PointerEntry)
    requires
        offsets_ascend(before),
        0 <= i <= before.len(),
        forall|j: int| i <= j < before.len() ==> before[j].offset >= entry.offset,
    ensures
        entries_view(put_entry(before, i, entry)) == entries_view(before).insert(
            entry.offset,
            node_view(entry.node),
        ),
{
    if i < before.len() && before[i].offset == entry.offset {
        lemma_view_update(before, i, entry);
    } else {
        lemma_view_insert(before, i, entry);
    }
}

/// The level below the entry at index `i`, as `subtree_at` gives it.
pub proof fn lemma_subtree_at(before: Seq<PointerEntry>, i: int, offset: usize)
    requires
        offsets_ascend(before),
        0 <= i <= before.len(),
        forall|j: int| 0 <= j < i ==> before[j].offset < offset,
        forall|j: int| i <= j < before.len() ==> before[j].offset >= offset,
    ensures
        i < before.len() && before[i].offset == offset ==> subtree_at(entries_view(before), offset)
            == match before[i].node {
            PointerNode::Internal(tree) => entries_view(tree.entries@),
            PointerNode::Leaf(_) => Map::empty(),
        },
        !(i < before.len() && before[i].offset == offset) ==> subtree_at(
            entries_view(before),
            offset,
        ) == Map::<usize, NodeView>::empty(),
{
    if i < before.len() && before[i].offset == offset {
        lemma_view_at(before, i);
    } else {
        lemma_view_absent(before, offset);
    }
}

/// Whether two occurrences can be inserted in either order: one of them has
/// an empty path, they are the same occurrence, or neither path begins with
/// the other.
pub open spec fn compatible(a: (Seq<char>, Seq<usize>), b: (Seq<char>, Seq<usize>)) -> bool {
    ||| a.1.len() == 0
    ||| b.1.len() == 0
    ||| a == b
    ||| (!a.1.is_prefix_of(b.1) && !b.1.is_prefix_of(a.1))
}

/// Whether every two occurrences of `pointers` are compatible.
pub open spec fn all_compatible(pointers: Seq<(Seq<char>, Seq<usize>)>) -> bool {
    forall|i: int, j: int|
        0 <= i < pointers.len() && 0 <= j < pointers.len() ==> compatible(
            #[trigger] pointers[i],
            #[trigger] pointers[j],
        )
}

/// Two compatible occurrences give the same tree in either order.
pub proof fn lemma_insert_commutes(
    tree: Map<usize, NodeView>,
    a: (Seq<char>, Seq<usize>),
    b: (Seq<char>, Seq<usize>),
)
    requires
        compatible(a, b),
    ensures
        tree_insert(tree_insert(tree, a.1, a.0), b.1, b.0) == tree_insert(
            tree_insert(tree, b.1, b.0),
            a.1,
            a.0,
        ),
    decreases a.1.len(),
{
    let after_a = tree_insert(tree, a.1, a.0);
    let after_b = tree_insert(tree, b.1, b.0);
    if a.1.len() == 0 || b.1.len() == 0 || a == b {
    } else if a.1[0] != b.1[0] {
        assert(subtree_at(after_a, b.1[0]) == subtree_at(tree, b.1[0]));
        assert(subtree_at(after_b, a.1[0]) == subtree_at(tree, a.1[0]));
        assert(tree_insert(after_a, b.1, b.0) =~= tree_insert(after_b, a.1, a.0));
    } else {
        let k = a.1[0];
        let below = subtree_at(tree, k);
        let rest_a = (a.0, a.1.drop_first());
        let rest_b = (b.0, b.1.drop_first());
        if a.1.len() == 1 {
            assert(a.1 =~= b.1.take(1));
            assert(a.1.is_prefix_of(b.1));
        }
        if b.1.len() == 1 {
            assert(b.1 =~= a.1.take(1));
            assert(b.1.is_prefix_of(a.1));
        }
        if rest_a.1.is_prefix_of(rest_b.1) {
            assert(a.1 =~= b.1.take(a.1.len() as int)) by {
                assert(rest_a.1 == rest_b.1.take(rest_a.1.len() as int));
                assert forall|i: int| 0 <= i < a.1.len() implies a.1[i] == b.1[i] by {
                    if i > 0 {
                        assert(rest_a.1[i - 1] == rest_b.1.take(rest_a.1.len() as int)[i - 1]);
                    }
                }
            }
            assert(a.1.is_prefix_of(b.1));
        }
        if rest_b.1.is_prefix_of(rest_a.1) {
            assert(b.1 =~= a.1.take(b.1.len() as int)) by {
                assert(rest_b.1 == rest_a.1.take(rest_b.1.len() as int));
                assert forall|i: int| 0 <= i < b.1.len() implies b.1[i] == a.1[i] by {
                    if i > 0 {
                        assert(rest_b.1[i - 1] == rest_a.1.take(rest_b.1.len() as int)[i - 1]);
                    }
                }
            }
            assert(b.1.is_prefix_of(a.1));
        }
        lemma_insert_commutes(below, rest_a, rest_b);
        assert(subtree_at(after_a, k) == tree_insert(below, rest_a.1, rest_a.0));
        assert(subtree_at(after_b, k) == tree_insert(below, rest_b.1, rest_b.0));
        assert(tree_insert(after_a, b.1, b.0) =~= tree_insert(after_b, a.1, a.0));
    }
}

/// An occurrence that is compatible with all that follow it can as well be
/// inserted last.
pub proof fn lemma_insert_last(pointers: Seq<(Seq<char>, Seq<usize>)>, i: int)
    requires
        0 <= i < pointers.len(),
        forall|j: int| i < j < pointers.len() ==> compatible(pointers[i], #[trigger] pointers[j]),
    ensures
        build_tree(pointers) == tree_insert(
            build_tree(pointers.remove(i)),
            pointers[i].1,
            pointers[i].0,
        ),
    decreases pointers.len(),
{
    let front = pointers.drop_last();
    if i == pointers.len() - 1 {
        assert(pointers.remove(i) =~= front);
    } else {
        let last = pointers.last();
        lemma_insert_last(front, i);
        assert(pointers.remove(i).drop_last() =~= front.remove(i));
        assert(pointers.remove(i).last() == last);
        lemma_insert_commutes(build_tree(front.remove(i)), pointers[i], last);
    }
}

/// The tree does not depend on the order of the occurrences: two lists that
/// hold the same occurrences, each as often as the other, give the same
/// tree, provided that every two occurrences are compatible.
pub proof fn lemma_tree_order_independent(
    first: Seq<(Seq<char>, Seq<usize>)>,
    second: Seq<(Seq<char>, Seq<usize>)>,
)
    requires
        first.to_multiset() == second.to_multiset(),
        all_compatible(first),
    ensures
        build_tree(first) == build_tree(second),
    decreases first.len(),
{
    first.to_multiset_ensures();
    second.to_multiset_ensures();
    if first.len() == 0 {
        assert(second.len() == 0);
    } else {
        let last = first.last();
        let front = first.drop_last();
        assert(first.contains(last));
        assert(first.to_multiset().count(last) > 0);
        assert(second.to_multiset().count(last) > 0);
        assert(second.contains(last));
        let i = choose|i: int| 0 <= i < second.len() && second[i] == last;
        let others = second.remove(i);
        assert(front =~= first.remove(first.len() - 1));
        assert(front.to_multiset() == others.to_multiset());
        assert(all_compatible(front)) by {
            assert forall|a: int, b: int|
                0 <= a < front.len() && 0 <= b < front.len() implies compatible(
                #[trigger] front[a],
                #[trigger] front[b],
            ) by {
                assert(front[a] == first[a] && front[b] == first[b]);
            }
        }
        lemma_tree_order_independent(front, others);
        assert forall|j: int| i < j < second.len() implies compatible(
            second[i],
            #[trigger] second[j],
        ) by {
            assert(second.contains(second[j]));
            assert(second.to_multiset().count(second[j]) > 0);
            assert(first.to_multiset().count(second[j]) > 0);
            assert(first.contains(second[j]));
            let k = choose|k: int| 0 <= k < first.len() && first[k] == second[j];
            assert(compatible(first[first.len() - 1], first[k]));
        }
        lemma_insert_last(second, i);
    }
}

/// Among ascending entries the one with the greatest offset stands last.
pub proof fn lemma_last_entry(
    entries: Seq<PointerEntry>,
    base: Map<usize, NodeView>,
    offset: usize,
    node: NodeView,
)
    requires
        offsets_ascend(entries),
        entries_view(entries) == base.insert(offset, node),
        forall|k: usize| base.contains_key(k) ==> k < offset,
    ensures
        entries.len() > 0,
        entries.last().offset == offset,
        node_view(entries.last().node) == node,
        entries_view(entries.drop_last()) == base,
{
    assert(entries_view(entries).contains_key(offset));
    if entries.len() == 0 {
        assert(false);
    }
    let front = entries.drop_last();
    let last = entries.last();
    assert(entries_view(entries) == entries_view(front).insert(
        last.offset,
        node_view(last.node),
    ));
    assert(entries_view(entries).contains_key(last.offset));
    if !(exists|i: int| 0 <= i < entries.len() && entries[i].offset == offset) {
        lemma_view_absent(entries, offset);
    }
    let i = choose|i: int| 0 <= i < entries.len() && entries[i].offset == offset;
    assert(entries[i].offset <= entries[entries.len() - 1].offset);
    assert(last.offset == offset);
    assert forall|j: int| 0 <= j < front.len() implies front[j].offset != offset by {
        assert(front[j] == entries[j]);
    }
    lemma_view_absent(front, offset);
    assert(entries_view(entries)[offset] == node_view(last.node));
    assert forall|k: usize| entries_view(front).contains_key(k) == base.contains_key(k) by {
        if k != offset {
            assert(entries_view(entries).contains_key(k) == entries_view(front).contains_key(k));
        }
    }
    assert forall|k: usize| entries_view(front).contains_key(k) implies entries_view(front)[k]
        == base[k] by {
        assert(entries_view(entries)[k] == entries_view(front)[k]);
    }
    assert(entries_view(front) =~= base);
}

/// Whether two levels hold the same offsets in the same order, with the
/// same hash at every leaf and the same levels below every internal node.
pub open spec fn same_entries(first: Seq<PointerEntry>, second: Seq<PointerEntry>) -> bool
    decreases first,
{
    &&& first.len() == second.len()
    &&& forall|i: int|
        0 <= i < first.len() ==> (#[trigger] first[i]).offset == second[i].offset && same_node(
            first[i].node,
            second[i].node,
        )
}

/// Whether two nodes are both leaves with the same hash, or both internal
/// with the same levels below.
pub open spec fn same_node(first: PointerNode, second: PointerNode) -> bool
    decreases first,
{
    match first {
        PointerNode::Leaf(hash) => second is Leaf && second->Leaf_0@ == hash@,
        PointerNode::Internal(tree) => second is Internal && same_entries(
            tree.entries@,
            second->Internal_0.entries@,
        ),
    }
}

/// A tree is determined by its map: two well-formed levels that stand for
/// the same map hold the same entries, level by level.
pub proof fn lemma_well_formed_entries_are_unique(
    first: Seq<PointerEntry>,
    second: Seq<PointerEntry>,
)
    requires
        entries_well_formed(first),
        entries_well_formed(second),
        entries_view(first) == entries_view(second),
    ensures
        same_entries(first, second),
    decreases first,
{
    if first.len() == 0 {
        if second.len() > 0 {
            assert(entries_view(second).contains_key(second.last().offset));
        }
    } else {
        let front = first.drop_last();
        let last = first.last();
        let base = entries_view(front);
        assert forall|k: usize| base.contains_key(k) implies k < last.offset by {
            if !(exists|j: int| 0 <= j < front.len() && front[j].offset == k) {
                lemma_view_absent(front, k);
            }
            let j = choose|j: int| 0 <= j < front.len() && front[j].offset == k;
            assert(front[j] == first[j]);
            assert(first[j].offset < first[first.len() - 1].offset);
        }
        lemma_last_entry(second, base, last.offset, node_view(last.node));
        let other_front = second.drop_last();
        let other_last = second.last();
        assert(entries_well_formed(front)) by {
            assert forall|i: int| 0 <= i < front.len() implies match (#[trigger] front[i]).node {
                PointerNode::Leaf(_) => true,
                PointerNode::Internal(tree) => entries_well_formed(tree.entries@),
            } by {
                assert(front[i] == first[i]);
            }
        }
        assert(entries_well_formed(other_front)) by {
            assert forall|i: int| 0 <= i < other_front.len() implies match (
            #[trigger] other_front[i]).node {
                PointerNode::Leaf(_) => true,
                PointerNode::Internal(tree) => entries_well_formed(tree.entries@),
            } by {
                assert(other_front[i] == second[i]);
            }
        }
        lemma_well_formed_entries_are_unique(front, other_front);
        assert(first[first.len() - 1] == last);
        assert(second[second.len() - 1] == other_last);
        match last.node {
            PointerNode::Leaf(_) => {},
            PointerNode::Internal(tree) => {
                lemma_well_formed_entries_are_unique(
                    tree.entries@,
                    other_last.node->Internal_0.entries@,
                );
            },
        }
        assert(same_node(last.node, other_last.node));
        assert forall|i: int| 0 <= i < first.len() implies (#[trigger] first[i]).offset
            == second[i].offset && same_node(first[i].node, second[i].node) by {
            if i < front.len() {
                assert(first[i] == front[i]);
                assert(second[i] == other_front[i]);
            }
        }
    }
}

/// The tree builder is independent of the order of its input: two trees
/// built from lists that hold the same occurrences, each as often as the
/// other, hold the same entries, level by level, provided that every two
/// occurrences are compatible.
pub proof fn lemma_shuffled_pointers_give_the_same_tree(
    first: Seq<Pointer>,
    second: Seq<Pointer>,
    first_tree: PointerTree,
    second_tree: PointerTree,
)
    requires
        pointers_view(first).to_multiset() == pointers_view(second).to_multiset(),
        all_compatible(pointers_view(first)),
        first_tree.well_formed(),
        second_tree.well_formed(),
        first_tree@ == build_tree(pointers_view(first)),
        second_tree@ == build_tree(pointers_view(second)),
    ensures
        first_tree@ == second_tree@,
        same_entries(first_tree.entries@, second_tree.entries@),
{
    lemma_tree_order_independent(pointers_view(first), pointers_view(second));
    lemma_well_formed_entries_are_unique(first_tree.entries@, second_tree.entries@);
}

/// The hash that stands at the end of `path`, if a leaf stands there.
pub open spec fn leaf_at(tree: Map<usize, NodeView>, path: Seq<usize>) -> Option<Seq<char>>
    decreases path.len(),
{
    if path.len() == 0 || !tree.contains_key(path[0]) {
        None
    } else {
        match tree[path[0]] {
            NodeView::Leaf(hash) => if path.len() == 1 {
                Some(hash)
            } else {
                None
            },
            NodeView::Internal(below) => if path.len() == 1 {
                None
            } else {
                leaf_at(below, path.drop_first())
            },
        }
    }
}

/// After an occurrence is inserted, its hash stands at the end of its path,
/// and at every path that neither begins with that path nor begins it
/// stands what stood there before.
pub proof fn lemma_leaf_after_insert(
    tree: Map<usize, NodeView>,
    path: Seq<usize>,
    hash: Seq<char>,
    other: Seq<usize>,
)
    requires
        path.len() > 0,
    ensures
        leaf_at(tree_insert(tree, path, hash), path) == Some(hash),
        !path.is_prefix_of(other) && !other.is_prefix_of(path) ==> leaf_at(
            tree_insert(tree, path, hash),
            other,
        ) == leaf_at(tree, other),
    decreases path.len(),
{
    let after = tree_insert(tree, path, hash);
    if path.len() > 1 {
        lemma_leaf_after_insert(
            subtree_at(tree, path[0]),
            path.drop_first(),
            hash,
            other.drop_first(),
        );
    }
    if !path.is_prefix_of(other) && !other.is_prefix_of(path) {
        if other.len() == 0 {
            assert(other =~= path.take(0));
        } else if other[0] == path[0] {
            if path.len() == 1 {
                assert(path =~= other.take(1));
            } else if other.len() == 1 {
                assert(other =~= path.take(1));
            } else {
                let rest = path.drop_first();
                let other_rest = other.drop_first();
                if rest.is_prefix_of(other_rest) {
                    assert(path =~= other.take(path.len() as int)) by {
                        assert(rest == other_rest.take(rest.len() as int));
                        assert forall|i: int| 0 <= i < path.len() implies path[i] == other[i] by {
                            if i > 0 {
                                assert(rest[i - 1] == other_rest.take(rest.len() as int)[i - 1]);
                            }
                        }
                    }
                }
                if other_rest.is_prefix_of(rest) {
                    assert(other =~= path.take(other.len() as int)) by {
                        assert(other_rest == rest.take(other_rest.len() as int));
                        assert forall|i: int| 0 <= i < other.len() implies other[i] == path[i] by {
                            if i > 0 {
                                assert(other_rest[i - 1] == rest.take(
                                    other_rest.len() as int,
                                )[i - 1]);
                            }
                        }
                    }
                }
            }
        }
    }
}

/// Every path from the root to a leaf of the tree is the path of an
/// occurrence, and the leaf holds that occurrence's hash: with occurrences
/// of which no path is empty, begins another or stands twice, the tree holds
/// at the path of each occurrence the hash of that occurrence.
pub proof fn lemma_tree_holds_every_pointer(pointers: Seq<(Seq<char>, Seq<usize>)>, i: int)
    requires
        0 <= i < pointers.len(),
        forall|j: int| 0 <= j < pointers.len() ==> (#[trigger] pointers[j]).1.len() > 0,
        forall|j: int, k: int|
            0 <= j < k < pointers.len() ==> !(#[trigger] pointers[j]).1.is_prefix_of(
                (#[trigger] pointers[k]).1,
            ) && !pointers[k].1.is_prefix_of(pointers[j].1),
    ensures
        leaf_at(build_tree(pointers), pointers[i].1) == Some(pointers[i].0),
    decreases pointers.len(),
{
    let front = pointers.drop_last();
    let last = pointers.last();
    if i == pointers.len() - 1 {
        lemma_leaf_after_insert(build_tree(front), last.1, last.0, last.1);
    } else {
        assert forall|j: int| 0 <= j < front.len() implies (#[trigger] front[j]).1.len() > 0 by {
            assert(front[j] == pointers[j]);
        }
        assert forall|j: int, k: int| 0 <= j < k < front.len() implies !(#[trigger] front[j]).1.is_prefix_of(
            (#[trigger] front[k]).1,
        ) && !front[k].1.is_prefix_of(front[j].1) by {
            assert(front[j] == pointers[j] && front[k] == pointers[k]);
        }
        lemma_tree_holds_every_pointer(front, i);
        assert(front[i] == pointers[i]);
        assert(!pointers[i].1.is_prefix_of(pointers[pointers.len() - 1].1));
        lemma_leaf_after_insert(build_tree(front), last.1, last.0, pointers[i].1);
    }
}

/// A leaf of the tree comes from an occurrence: where a hash stands at the
/// end of a path, the list holds an occurrence with that hash and that path.
pub proof fn lemma_every_leaf_is_a_pointer(
    pointers: Seq<(Seq<char>, Seq<usize>)>,
    path: Seq<usize>,
)
    requires
        leaf_at(build_tree(pointers), path) is Some,
    ensures
        pointers.contains((leaf_at(build_tree(pointers), path).unwrap(), path)),
    decreases pointers.len(),
{
    if pointers.len() == 0 {
    } else {
        let front = pointers.drop_last();
        let last = pointers.last();
        let before = build_tree(front);
        if last.1.len() == 0 {
            lemma_every_leaf_is_a_pointer(front, path);
            let found = (leaf_at(before, path).unwrap(), path);
            let j = choose|j: int| 0 <= j < front.len() && front[j] == found;
            assert(pointers[j] == found);
        } else if path == last.1 {
            lemma_leaf_after_insert(before, last.1, last.0, path);
            assert(pointers[pointers.len() - 1] == (last.0, path));
        } else {
            lemma_leaf_kept_or_gone(before, last.1, last.0, path);
            lemma_every_leaf_is_a_pointer(front, path);
            let found = (leaf_at(before, path).unwrap(), path);
            let j = choose|j: int| 0 <= j < front.len() && front[j] == found;
            assert(pointers[j] == found);
        }
    }
}

/// Inserting an occurrence puts no leaf at any other path: what stands
/// there afterwards stood there before.
pub proof fn lemma_leaf_kept_or_gone(
    tree: Map<usize, NodeView>,
    path: Seq<usize>,
    hash: Seq<char>,
    other: Seq<usize>,
)
    requires
        path.len() > 0,
        other != path,
    ensures
        leaf_at(tree_insert(tree, path, hash), other) is Some ==> leaf_at(
            tree_insert(tree, path, hash),
            other,
        ) == leaf_at(tree, other),
    decreases path.len(),
{
    if other.len() > 0 && other[0] == path[0] {
        if path.len() == 1 {
            if other.len() == 1 {
                assert(other =~= path);
            }
        } else if other.len() > 1 {
            if other.drop_first() == path.drop_first() {
                assert(other.drop_first().len() == other.len() - 1);
                assert(path.drop_first().len() == path.len() - 1);
                assert(other.len() == path.len());
                assert forall|i: int| 0 <= i < other.len() implies other[i] == path[i] by {
                    if i > 0 {
                        assert(other.drop_first()[i - 1] == path.drop_first()[i - 1]);
                    }
                }
                assert(other =~= path);
            }
            lemma_leaf_kept_or_gone(
                subtree_at(tree, path[0]),
                path.drop_first(),
                hash,
                other.drop_first(),
            );
        }
    }
}

impl PointerTree {
    /// The tree as a map from offset to node.
    pub open spec fn view(self) -> Map<usize, NodeView> {
        entries_view(self.entries@)
    }

    /// Whether the entries of every level ascend strictly by offset.
    pub open spec fn well_formed(self) -> bool {
        entries_well_formed(self.entries@)
    }

    /// The tree without entries.
    pub fn new() -> (tree: PointerTree)
        ensures
            tree@ == Map::<usize, NodeView>::empty(),
            tree.well_formed(),
            tree.entries@.len() == 0,
    {
        PointerTree { entries: Vec::new() }
    }

    /// The index of the first entry whose offset is not below `offset`.
    fn position_of(&self, offset: usize) -> (i: usize)
        requires
            self.well_formed(),
        ensures
            i <= self.entries.len(),
            forall|j: int| 0 <= j < i ==> self.entries[j].offset < offset,
            forall|j: int| i <= j < self.entries.len() ==> self.entries[j].offset >= offset,
    {
        let mut i: usize = 0;
        while i < self.entries.len() && self.entries[i].offset < offset
            invariant
                i <= self.entries.len(),
                offsets_ascend(self.entries@),
                forall|j: int| 0 <= j < i ==> self.entries[j].offset < offset,
            decreases self.entries.len() - i,
        {
            i += 1;
        }
        i
    }

    /// Puts `hash` at the end of the offsets of `path` from `depth` on.
    fn insert_path(self, path: &Vec<usize>, depth: usize, hash: &String) -> (tree: PointerTree)
        requires
            self.well_formed(),
            depth < path.len(),
        ensures
            tree.well_formed(),
            tree@ == tree_insert(self@, path@.skip(depth as int), hash@),
        decreases path.len() - depth,
    {
        let ghost before = self.entries@;
        let ghost rest = path@.skip(depth as int);
        let offset = path[depth];
        let i = self.position_of(offset);
        let mut entries = self.entries;
        let present = i < entries.len() && entries[i].offset == offset;
        proof {
            lemma_subtree_at(before, i as int, offset);
            assert(rest[0] == offset);
            assert(rest.drop_first() =~= path@.skip(depth as int + 1));
        }
        let node = if depth + 1 == path.len() {
            if present {
                entries.remove(i);
            }
            PointerNode::Leaf(hash.clone())
        } else {
            let below = if present {
                let old = entries.remove(i);
                match old.node {
                    PointerNode::Internal(tree) => tree,
                    PointerNode::Leaf(_) => PointerTree::new(),
                }
            } else {
                PointerTree::new()
            };
            assert(below.well_formed()) by {
                if present {
                    assert(before[i as int].offset == offset);
                }
            }
            PointerNode::Internal(below.insert_path(path, depth + 1, hash))
        };
        let entry = PointerEntry { offset, node };
        entries.insert(i, entry);
        proof {
            assert(entries@ =~= put_entry(before, i as int, entry));
            lemma_put_entry_well_formed(before, i as int, entry);
            lemma_put_entry_view(before, i as int, entry);
        }
        PointerTree { entries }
    }
}

/// Regroups the occurrences in `pointer_container` into a tree keyed by
/// offset. An occurrence with an empty path is passed over.
pub fn create_lengths_tree(pointer_container: &Vec<Pointer>) -> (tree: PointerTree)
    ensures
        tree.well_formed(),
        tree@ == build_tree(pointers_view(pointer_container@)),
{
    let mut tree = PointerTree::new();
    let mut i: usize = 0;
    while i < pointer_container.len()
        invariant
            i <= pointer_container.len(),
            tree.well_formed(),
            tree@ == build_tree(pointers_view(pointer_container@).take(i as int)),
        decreases pointer_container.len() - i,
    {
        let pointer = &pointer_container[i];
        proof {
            let all = pointers_view(pointer_container@);
            assert(all.take(i as int + 1).drop_last() == all.take(i as int));
            assert(all.take(i as int + 1).last() == pointer@);
            assert(pointer.path@.skip(0) == pointer.path@);
        }
        if pointer.path.len() > 0 {
            tree = tree.insert_path(&pointer.path, 0, &pointer.hash);
        }
        i += 1;
    }
    proof {
        let all = pointers_view(pointer_container@);
        assert(all.take(i as int) == all);
    }
    tree
}

} // verus!

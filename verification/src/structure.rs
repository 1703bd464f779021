//! The pointer tree of a message, read off its structure: what the tree
//! builder makes of the references that the locator finds.

use vstd::prelude::*;
use crate::locator::{
    found_in_elements, found_in_field, found_in_fields, found_in_message, found_in_nested,
};
use crate::message::{
    delimited, elements_wire, field_wire, fields_wire, lemma_delimited_len, Field, FieldValue,
    ProtobufMessageWithBlockPointers,
};
use crate::real_object::{
    entries_in_elements, entries_in_field, entries_in_fields, entries_in_message,
    entries_in_nested, reference_id, RealContext,
};
use crate::tree::{build_tree, subtree_at, tree_insert, NodeView};
use crate::varint::{lemma_varint_len_bounds, varint_len};

verus! {

/// The level of the tree that belongs to `message`, written from `start` on.
pub open spec fn tree_of_message(
    message: ProtobufMessageWithBlockPointers,
    start: int,
    context: RealContext,
) -> Map<usize, NodeView>
    decreases message, 0int,
{
    tree_of_fields(message.fields@, start, context)
}

/// The level of the tree that belongs to `fields`, the first of which is
/// written at `start`.
pub open spec fn tree_of_fields(fields: Seq<Field>, start: int, context: RealContext) -> Map<
    usize,
    NodeView,
>
    decreases fields, 0int,
{
    if fields.len() == 0 {
        Map::empty()
    } else {
        tree_of_fields(fields.drop_last(), start, context).union_prefer_right(
            tree_of_field(fields.last(), start + fields_wire(fields.drop_last()).len(), context),
        )
    }
}

/// What one field, written at `position`, adds to its level of the tree.
pub open spec fn tree_of_field(field: Field, position: int, context: RealContext) -> Map<
    usize,
    NodeView,
>
    decreases field, 0int,
{
    match field.value {
        FieldValue::Scalar(_) => Map::empty(),
        FieldValue::Text(_) => Map::empty(),
        FieldValue::Bytes(bytes) => match reference_id(bytes@, context) {
            Some(id) => Map::<usize, NodeView>::empty().insert(
                (position + 1) as usize,
                NodeView::Leaf(id),
            ),
            None => Map::empty(),
        },
        FieldValue::Message(inner) => tree_of_nested(inner, position, context),
        FieldValue::Repeated(elements) => tree_of_elements(field.tag, elements@, position, context),
    }
}

/// A nested message that holds a reference stands in the tree as an
/// internal node at the offset of its length prefix.
pub open spec fn tree_of_nested(
    inner: ProtobufMessageWithBlockPointers,
    position: int,
    context: RealContext,
) -> Map<usize, NodeView>
    decreases inner, 1int,
{
    let inside = position + 1 + varint_len(inner.wire().len());
    if entries_in_message(inner, inside, context).len() == 0 {
        Map::empty()
    } else {
        Map::<usize, NodeView>::empty().insert(
            (position + 1) as usize,
            NodeView::Internal(tree_of_message(inner, inside, context)),
        )
    }
}

/// What the elements of a repeated field, the first of which is written at
/// `position`, add to their level of the tree.
pub open spec fn tree_of_elements(
    tag: u8,
    elements: Seq<ProtobufMessageWithBlockPointers>,
    position: int,
    context: RealContext,
) -> Map<usize, NodeView>
    decreases elements, 0int,
{
    if elements.len() == 0 {
        Map::empty()
    } else {
        tree_of_elements(tag, elements.drop_last(), position, context).union_prefer_right(
            tree_of_nested(
                elements.last(),
                position + elements_wire(tag, elements.drop_last()).len(),
                context,
            ),
        )
    }
}

/// Whether every offset of `tree` lies past `start` and not past `end`.
pub open spec fn keys_inside(tree: Map<usize, NodeView>, start: int, end: int) -> bool {
    forall|k: usize| tree.contains_key(k) ==> start < k <= end
}

/// Whether no offset of `tree` lies past `position`.
pub open spec fn keys_up_to(tree: Map<usize, NodeView>, position: int) -> bool {
    forall|k: usize| tree.contains_key(k) ==> k <= position
}

/// The offsets that fields add to their level lie inside the bytes that
/// the fields are written as.
pub proof fn lemma_keys_of_fields(fields: Seq<Field>, start: int, context: RealContext)
    requires
        0 <= start,
        start + fields_wire(fields).len() <= usize::MAX,
    ensures
        keys_inside(tree_of_fields(fields, start, context), start, start + fields_wire(fields).len()),
    decreases fields, 0int,
{
    if fields.len() > 0 {
        lemma_keys_of_fields(fields.drop_last(), start, context);
        lemma_keys_of_field(fields.last(), start + fields_wire(fields.drop_last()).len(), context);
    }
}

proof fn lemma_keys_of_field(field: Field, position: int, context: RealContext)
    requires
        0 <= position,
        position + field_wire(field).len() <= usize::MAX,
    ensures
        keys_inside(
            tree_of_field(field, position, context),
            position,
            position + field_wire(field).len(),
        ),
    decreases field, 0int,
{
    match field.value {
        FieldValue::Bytes(bytes) => {
            lemma_delimited_len(field.tag, bytes@);
        },
        FieldValue::Message(inner) => {
            lemma_keys_of_nested(field.tag, inner, position, context);
        },
        FieldValue::Repeated(elements) => {
            lemma_keys_of_elements(field.tag, elements@, position, context);
        },
        _ => {},
    }
}

/// The offsets that the elements of a repeated field add to their level
/// lie inside the bytes that the elements are written as.
pub proof fn lemma_keys_of_elements(
    tag: u8,
    elements: Seq<ProtobufMessageWithBlockPointers>,
    position: int,
    context: RealContext,
)
    requires
        0 <= position,
        position + elements_wire(tag, elements).len() <= usize::MAX,
    ensures
        keys_inside(
            tree_of_elements(tag, elements, position, context),
            position,
            position + elements_wire(tag, elements).len(),
        ),
    decreases elements, 0int,
{
    if elements.len() > 0 {
        lemma_keys_of_elements(tag, elements.drop_last(), position, context);
        lemma_keys_of_nested(
            tag,
            elements.last(),
            position + elements_wire(tag, elements.drop_last()).len(),
            context,
        );
    }
}

proof fn lemma_keys_of_nested(
    tag: u8,
    inner: ProtobufMessageWithBlockPointers,
    position: int,
    context: RealContext,
)
    requires
        0 <= position,
        position + delimited(tag, inner.wire()).len() <= usize::MAX,
    ensures
        keys_inside(
            tree_of_nested(inner, position, context),
            position,
            position + delimited(tag, inner.wire()).len(),
        ),
{
    lemma_delimited_len(tag, inner.wire());
}

/// Each occurrence with `prefix` before its path.
pub open spec fn with_prefix(prefix: Seq<usize>, pointers: Seq<(Seq<char>, Seq<usize>)>) -> Seq<
    (Seq<char>, Seq<usize>),
> {
    pointers.map_values(|p: (Seq<char>, Seq<usize>)| (p.0, prefix + p.1))
}

/// Whether every occurrence has a path of at least one offset.
pub open spec fn paths_nonempty(pointers: Seq<(Seq<char>, Seq<usize>)>) -> bool {
    forall|i: int| 0 <= i < pointers.len() ==> (#[trigger] pointers[i]).1.len() > 0
}

/// What the locator finds below a prefix is what it finds without one, with
/// the prefix before each path. It finds a reference exactly where an
/// entry belongs, and every path holds an offset.
pub proof fn lemma_found_in_message(
    message: ProtobufMessageWithBlockPointers,
    prefix: Seq<usize>,
    start: int,
    context: RealContext,
)
    ensures
        found_in_message(message, prefix, start, context.blocks, context.hash_type) == with_prefix(
            prefix,
            found_in_message(message, Seq::empty(), start, context.blocks, context.hash_type),
        ),
        paths_nonempty(
            found_in_message(message, Seq::empty(), start, context.blocks, context.hash_type),
        ),
        found_in_message(message, Seq::empty(), start, context.blocks, context.hash_type).len() == 0
            <==> entries_in_message(message, start, context).len() == 0,
    decreases message, 0int,
{
    lemma_found_in_fields(message.fields@, prefix, start, context);
}

proof fn lemma_found_in_fields(
    fields: Seq<Field>,
    prefix: Seq<usize>,
    start: int,
    context: RealContext,
)
    ensures
        found_in_fields(fields, prefix, start, context.blocks, context.hash_type) == with_prefix(
            prefix,
            found_in_fields(fields, Seq::empty(), start, context.blocks, context.hash_type),
        ),
        paths_nonempty(
            found_in_fields(fields, Seq::empty(), start, context.blocks, context.hash_type),
        ),
        found_in_fields(fields, Seq::empty(), start, context.blocks, context.hash_type).len() == 0
            <==> entries_in_fields(fields, start, context).len() == 0,
    decreases fields, 0int,
{
    let plain = found_in_fields(fields, Seq::empty(), start, context.blocks, context.hash_type);
    if fields.len() == 0 {
        assert(with_prefix(prefix, plain) =~= Seq::empty());
    } else {
        let middle = start + fields_wire(fields.drop_last()).len();
        lemma_found_in_fields(fields.drop_last(), prefix, start, context);
        lemma_found_in_field(fields.last(), prefix, middle, context);
        let front = found_in_fields(
            fields.drop_last(),
            Seq::empty(),
            start,
            context.blocks,
            context.hash_type,
        );
        let back = found_in_field(
            fields.last(),
            Seq::empty(),
            middle,
            context.blocks,
            context.hash_type,
        );
        assert(with_prefix(prefix, front + back) =~= with_prefix(prefix, front) + with_prefix(
            prefix,
            back,
        ));
        assert forall|i: int| 0 <= i < plain.len() implies (#[trigger] plain[i]).1.len() > 0 by {
            if i < front.len() {
                assert(plain[i] == front[i]);
            } else {
                assert(plain[i] == back[i - front.len()]);
            }
        }
    }
}

proof fn lemma_found_in_field(
    field: Field,
    prefix: Seq<usize>,
    position: int,
    context: RealContext,
)
    ensures
        found_in_field(field, prefix, position, context.blocks, context.hash_type) == with_prefix(
            prefix,
            found_in_field(field, Seq::empty(), position, context.blocks, context.hash_type),
        ),
        paths_nonempty(
            found_in_field(field, Seq::empty(), position, context.blocks, context.hash_type),
        ),
        found_in_field(field, Seq::empty(), position, context.blocks, context.hash_type).len() == 0
            <==> entries_in_field(field, position, context).len() == 0,
    decreases field, 0int,
{
    let plain = found_in_field(field, Seq::empty(), position, context.blocks, context.hash_type);
    match field.value {
        FieldValue::Bytes(bytes) => {
            let offset = (position + 1) as usize;
            assert(Seq::<usize>::empty().push(offset).len() == 1);
            assert(prefix + Seq::<usize>::empty().push(offset) =~= prefix.push(offset));
            assert(with_prefix(prefix, plain) =~= found_in_field(
                field,
                prefix,
                position,
                context.blocks,
                context.hash_type,
            ));
        },
        FieldValue::Message(inner) => {
            lemma_found_in_nested(inner, prefix, position, context);
        },
        FieldValue::Repeated(elements) => {
            lemma_found_in_elements(field.tag, elements@, prefix, position, context);
        },
        _ => {
            assert(with_prefix(prefix, plain) =~= Seq::empty());
        },
    }
}

proof fn lemma_found_in_nested(
    inner: ProtobufMessageWithBlockPointers,
    prefix: Seq<usize>,
    position: int,
    context: RealContext,
)
    ensures
        found_in_nested(inner, prefix, position, context.blocks, context.hash_type) == with_prefix(
            prefix,
            found_in_nested(inner, Seq::empty(), position, context.blocks, context.hash_type),
        ),
        found_in_nested(inner, Seq::empty(), position, context.blocks, context.hash_type)
            == with_prefix(
            seq![(position + 1) as usize],
            found_in_message(
                inner,
                Seq::empty(),
                position + 1 + varint_len(inner.wire().len()),
                context.blocks,
                context.hash_type,
            ),
        ),
        paths_nonempty(
            found_in_nested(inner, Seq::empty(), position, context.blocks, context.hash_type),
        ),
        found_in_nested(inner, Seq::empty(), position, context.blocks, context.hash_type).len()
            == 0 <==> entries_in_nested(inner, position, context).len() == 0,
    decreases inner, 1int,
{
    let offset = (position + 1) as usize;
    let inside = position + 1 + varint_len(inner.wire().len());
    let plain = found_in_message(inner, Seq::empty(), inside, context.blocks, context.hash_type);
    lemma_found_in_message(inner, prefix.push(offset), inside, context);
    lemma_found_in_message(inner, Seq::empty().push(offset), inside, context);
    assert(Seq::<usize>::empty().push(offset) =~= seq![offset]);
    assert(with_prefix(prefix, with_prefix(seq![offset], plain)) =~= with_prefix(
        prefix.push(offset),
        plain,
    )) by {
        assert forall|i: int| 0 <= i < plain.len() implies prefix + (seq![offset] + plain[i].1)
            == prefix.push(offset) + plain[i].1 by {
            assert(prefix + (seq![offset] + plain[i].1) =~= prefix.push(offset) + plain[i].1);
        }
    }
    let nested = with_prefix(seq![offset], plain);
    assert forall|i: int| 0 <= i < nested.len() implies (#[trigger] nested[i]).1.len() > 0 by {
        assert(nested[i].1 == seq![offset] + plain[i].1);
    }
}

proof fn lemma_found_in_elements(
    tag: u8,
    elements: Seq<ProtobufMessageWithBlockPointers>,
    prefix: Seq<usize>,
    position: int,
    context: RealContext,
)
    ensures
        found_in_elements(tag, elements, prefix, position, context.blocks, context.hash_type)
            == with_prefix(
            prefix,
            found_in_elements(
                tag,
                elements,
                Seq::empty(),
                position,
                context.blocks,
                context.hash_type,
            ),
        ),
        paths_nonempty(
            found_in_elements(
                tag,
                elements,
                Seq::empty(),
                position,
                context.blocks,
                context.hash_type,
            ),
        ),
        found_in_elements(
            tag,
            elements,
            Seq::empty(),
            position,
            context.blocks,
            context.hash_type,
        ).len() == 0 <==> entries_in_elements(tag, elements, position, context).len() == 0,
    decreases elements, 0int,
{
    let plain = found_in_elements(
        tag,
        elements,
        Seq::empty(),
        position,
        context.blocks,
        context.hash_type,
    );
    if elements.len() == 0 {
        assert(with_prefix(prefix, plain) =~= Seq::empty());
    } else {
        let middle = position + elements_wire(tag, elements.drop_last()).len();
        lemma_found_in_elements(tag, elements.drop_last(), prefix, position, context);
        lemma_found_in_nested(elements.last(), prefix, middle, context);
        let front = found_in_elements(
            tag,
            elements.drop_last(),
            Seq::empty(),
            position,
            context.blocks,
            context.hash_type,
        );
        let back = found_in_nested(
            elements.last(),
            Seq::empty(),
            middle,
            context.blocks,
            context.hash_type,
        );
        assert(with_prefix(prefix, front + back) =~= with_prefix(prefix, front) + with_prefix(
            prefix,
            back,
        ));
        assert forall|i: int| 0 <= i < plain.len() implies (#[trigger] plain[i]).1.len() > 0 by {
            if i < front.len() {
                assert(plain[i] == front[i]);
            } else {
                assert(plain[i] == back[i - front.len()]);
            }
        }
    }
}

/// `tree` with every occurrence of `pointers` inserted, one after another.
pub open spec fn insert_all(tree: Map<usize, NodeView>, pointers: Seq<(Seq<char>, Seq<usize>)>)
    -> Map<usize, NodeView>
    decreases pointers.len(),
{
    if pointers.len() == 0 {
        tree
    } else {
        tree_insert(insert_all(tree, pointers.drop_last()), pointers.last().1, pointers.last().0)
    }
}

/// The tree built from a list of occurrences is what inserting them all into
/// the empty tree gives.
pub proof fn lemma_build_is_insert_all(pointers: Seq<(Seq<char>, Seq<usize>)>)
    ensures
        build_tree(pointers) == insert_all(Map::empty(), pointers),
    decreases pointers.len(),
{
    if pointers.len() > 0 {
        lemma_build_is_insert_all(pointers.drop_last());
    }
}

/// Inserting two lists one after the other is inserting them joined.
pub proof fn lemma_insert_all_joined(
    tree: Map<usize, NodeView>,
    first: Seq<(Seq<char>, Seq<usize>)>,
    second: Seq<(Seq<char>, Seq<usize>)>,
)
    ensures
        insert_all(tree, first + second) == insert_all(insert_all(tree, first), second),
    decreases second.len(),
{
    if second.len() == 0 {
        assert(first + second =~= first);
    } else {
        assert((first + second).drop_last() =~= first + second.drop_last());
        lemma_insert_all_joined(tree, first, second.drop_last());
    }
}

/// Occurrences that all lie below one offset build one internal node there.
pub proof fn lemma_insert_all_below(
    tree: Map<usize, NodeView>,
    offset: usize,
    pointers: Seq<(Seq<char>, Seq<usize>)>,
)
    requires
        paths_nonempty(pointers),
        pointers.len() > 0,
    ensures
        insert_all(tree, with_prefix(seq![offset], pointers)) == tree.insert(
            offset,
            NodeView::Internal(insert_all(subtree_at(tree, offset), pointers)),
        ),
    decreases pointers.len(),
{
    let below = with_prefix(seq![offset], pointers);
    let front = pointers.drop_last();
    let last = pointers.last();
    let path = seq![offset] + last.1;
    assert(below.drop_last() =~= with_prefix(seq![offset], front));
    assert(below.last() == (last.0, path));
    assert(path.len() >= 2);
    assert(path[0] == offset);
    assert(path.drop_first() =~= last.1);
    if front.len() == 0 {
        assert(insert_all(tree, with_prefix(seq![offset], front)) == tree);
        assert(insert_all(subtree_at(tree, offset), front) == subtree_at(tree, offset));
    } else {
        assert(paths_nonempty(front)) by {
            assert forall|i: int| 0 <= i < front.len() implies (#[trigger] front[i]).1.len()
                > 0 by {
                assert(front[i] == pointers[i]);
            }
        }
        lemma_insert_all_below(tree, offset, front);
        let grown = insert_all(tree, with_prefix(seq![offset], front));
        assert(subtree_at(grown, offset) == insert_all(subtree_at(tree, offset), front));
        assert(insert_all(tree, below) =~= tree.insert(
            offset,
            NodeView::Internal(insert_all(subtree_at(tree, offset), pointers)),
        ));
    }
}

/// The tree builder makes of what the locator finds in a message the
/// level that belongs to the message, laid over what the tree held.
proof fn lemma_tree_of_found_message(
    tree: Map<usize, NodeView>,
    message: ProtobufMessageWithBlockPointers,
    start: int,
    context: RealContext,
)
    requires
        0 <= start,
        start + message.wire().len() <= usize::MAX,
        keys_up_to(tree, start),
    ensures
        insert_all(
            tree,
            found_in_message(message, Seq::empty(), start, context.blocks, context.hash_type),
        ) == tree.union_prefer_right(tree_of_message(message, start, context)),
    decreases message, 0int,
{
    lemma_tree_of_found_fields(tree, message.fields@, start, context);
}

proof fn lemma_tree_of_found_fields(
    tree: Map<usize, NodeView>,
    fields: Seq<Field>,
    start: int,
    context: RealContext,
)
    requires
        0 <= start,
        start + fields_wire(fields).len() <= usize::MAX,
        keys_up_to(tree, start),
    ensures
        insert_all(
            tree,
            found_in_fields(fields, Seq::empty(), start, context.blocks, context.hash_type),
        ) == tree.union_prefer_right(tree_of_fields(fields, start, context)),
    decreases fields, 0int,
{
    if fields.len() == 0 {
        assert(tree.union_prefer_right(Map::<usize, NodeView>::empty()) =~= tree);
    } else {
        let front = fields.drop_last();
        let middle = start + fields_wire(front).len();
        let found_front = found_in_fields(
            front,
            Seq::empty(),
            start,
            context.blocks,
            context.hash_type,
        );
        let found_last = found_in_field(
            fields.last(),
            Seq::empty(),
            middle,
            context.blocks,
            context.hash_type,
        );
        let grown = tree.union_prefer_right(tree_of_fields(front, start, context));
        lemma_tree_of_found_fields(tree, front, start, context);
        lemma_keys_of_fields(front, start, context);
        lemma_tree_of_found_field(grown, fields.last(), middle, context);
        lemma_insert_all_joined(tree, found_front, found_last);
        assert(grown.union_prefer_right(tree_of_field(fields.last(), middle, context))
            =~= tree.union_prefer_right(tree_of_fields(fields, start, context)));
    }
}

proof fn lemma_tree_of_found_field(
    tree: Map<usize, NodeView>,
    field: Field,
    position: int,
    context: RealContext,
)
    requires
        0 <= position,
        position + field_wire(field).len() <= usize::MAX,
        keys_up_to(tree, position),
    ensures
        insert_all(
            tree,
            found_in_field(field, Seq::empty(), position, context.blocks, context.hash_type),
        ) == tree.union_prefer_right(tree_of_field(field, position, context)),
    decreases field, 0int,
{
    let found = found_in_field(field, Seq::empty(), position, context.blocks, context.hash_type);
    match field.value {
        FieldValue::Bytes(bytes) => {
            match reference_id(bytes@, context) {
                Some(id) => {
                    let offset = (position + 1) as usize;
                    assert(found.drop_last() =~= Seq::empty());
                    assert(insert_all(tree, found.drop_last()) == tree);
                    assert(Seq::<usize>::empty().push(offset).len() == 1);
                    assert(insert_all(tree, found) =~= tree.union_prefer_right(
                        tree_of_field(field, position, context),
                    ));
                },
                None => {
                    assert(tree.union_prefer_right(Map::<usize, NodeView>::empty()) =~= tree);
                },
            }
        },
        FieldValue::Message(inner) => {
            lemma_tree_of_found_nested(tree, field.tag, inner, position, context);
        },
        FieldValue::Repeated(elements) => {
            lemma_tree_of_found_elements(tree, field.tag, elements@, position, context);
        },
        _ => {
            assert(tree.union_prefer_right(Map::<usize, NodeView>::empty()) =~= tree);
        },
    }
}

proof fn lemma_tree_of_found_nested(
    tree: Map<usize, NodeView>,
    tag: u8,
    inner: ProtobufMessageWithBlockPointers,
    position: int,
    context: RealContext,
)
    requires
        0 <= position,
        position + delimited(tag, inner.wire()).len() <= usize::MAX,
        keys_up_to(tree, position),
    ensures
        insert_all(
            tree,
            found_in_nested(inner, Seq::empty(), position, context.blocks, context.hash_type),
        ) == tree.union_prefer_right(tree_of_nested(inner, position, context)),
    decreases inner, 1int,
{
    let offset = (position + 1) as usize;
    let inside = position + 1 + varint_len(inner.wire().len());
    let below = found_in_message(inner, Seq::empty(), inside, context.blocks, context.hash_type);
    lemma_delimited_len(tag, inner.wire());
    lemma_varint_len_bounds(inner.wire().len());
    lemma_found_in_nested(inner, Seq::empty(), position, context);
    lemma_found_in_message(inner, Seq::empty(), inside, context);
    if below.len() == 0 {
        assert(with_prefix(seq![offset], below) =~= Seq::empty());
        assert(tree.union_prefer_right(Map::<usize, NodeView>::empty()) =~= tree);
    } else {
        lemma_insert_all_below(tree, offset, below);
        assert(subtree_at(tree, offset) == Map::<usize, NodeView>::empty());
        lemma_tree_of_found_message(Map::empty(), inner, inside, context);
        assert(Map::<usize, NodeView>::empty().union_prefer_right(
            tree_of_message(inner, inside, context),
        ) =~= tree_of_message(inner, inside, context));
        assert(tree.insert(
            offset,
            NodeView::Internal(tree_of_message(inner, inside, context)),
        ) =~= tree.union_prefer_right(tree_of_nested(inner, position, context)));
    }
}

proof fn lemma_tree_of_found_elements(
    tree: Map<usize, NodeView>,
    tag: u8,
    elements: Seq<ProtobufMessageWithBlockPointers>,
    position: int,
    context: RealContext,
)
    requires
        0 <= position,
        position + elements_wire(tag, elements).len() <= usize::MAX,
        keys_up_to(tree, position),
    ensures
        insert_all(
            tree,
            found_in_elements(
                tag,
                elements,
                Seq::empty(),
                position,
                context.blocks,
                context.hash_type,
            ),
        ) == tree.union_prefer_right(tree_of_elements(tag, elements, position, context)),
    decreases elements, 0int,
{
    if elements.len() == 0 {
        assert(tree.union_prefer_right(Map::<usize, NodeView>::empty()) =~= tree);
    } else {
        let front = elements.drop_last();
        let middle = position + elements_wire(tag, front).len();
        let found_front = found_in_elements(
            tag,
            front,
            Seq::empty(),
            position,
            context.blocks,
            context.hash_type,
        );
        let found_last = found_in_nested(
            elements.last(),
            Seq::empty(),
            middle,
            context.blocks,
            context.hash_type,
        );
        let grown = tree.union_prefer_right(tree_of_elements(tag, front, position, context));
        lemma_tree_of_found_elements(tree, tag, front, position, context);
        lemma_keys_of_elements(tag, front, position, context);
        lemma_tree_of_found_nested(grown, tag, elements.last(), middle, context);
        lemma_insert_all_joined(tree, found_front, found_last);
        assert(grown.union_prefer_right(tree_of_nested(elements.last(), middle, context))
            =~= tree.union_prefer_right(tree_of_elements(tag, elements, position, context)));
    }
}

/// The tree of a message: what the tree builder makes of the references
/// that the locator finds in it is the tree that its structure gives.
pub proof fn lemma_tree_of_found(
    message: ProtobufMessageWithBlockPointers,
    context: RealContext,
)
    requires
        message.wire().len() <= usize::MAX,
    ensures
        build_tree(
            found_in_message(message, Seq::empty(), 0, context.blocks, context.hash_type),
        ) == tree_of_message(message, 0, context),
{
    let found = found_in_message(message, Seq::empty(), 0, context.blocks, context.hash_type);
    lemma_build_is_insert_all(found);
    lemma_tree_of_found_message(Map::empty(), message, 0, context);
    assert(Map::<usize, NodeView>::empty().union_prefer_right(
        tree_of_message(message, 0, context),
    ) =~= tree_of_message(message, 0, context));
}

/// Where the locator finds no reference in a message, no entry belongs to it.
pub proof fn lemma_found_nothing(message: ProtobufMessageWithBlockPointers, context: RealContext)
    requires
        found_in_message(message, Seq::empty(), 0, context.blocks, context.hash_type).len() == 0,
    ensures
        entries_in_message(message, 0, context).len() == 0,
{
    lemma_found_in_message(message, Seq::empty(), 0, context);
}

} // verus!

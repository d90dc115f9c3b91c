//! What holds of the lines of every configuration tree.

use crate::flatten::{array_lines, flat_lines, leaf_text, object_lines};
use crate::name::{
    decimal, extends_name, is_env_name, is_plain_key, is_plain_path, join_upper,
    law_index_names_distinct, law_name_shape, lemma_decimal_is_plain, lemma_extends_shorter,
    lemma_index_extensions_differ, lemma_join_push, name_prefix, upper,
};
use crate::value::{item_leaf_count, member_leaf_count, ConfigTree};
use vstd::prelude::*;

verus! {

/// Below a node that has a name or is a container, there is one line for each
/// leaf.
pub proof fn lemma_line_count(tree: ConfigTree, path: Seq<Seq<char>>)
    requires
        path.len() > 0 || !tree.is_leaf(),
    ensures
        flat_lines(tree, path).len() == tree.leaf_count(),
    decreases tree,
{
    match tree {
        ConfigTree::Object(members) => lemma_member_line_count(members, path),
        ConfigTree::Array(items) => lemma_item_line_count(items, path),
        _ => {},
    }
}

proof fn lemma_member_line_count(members: Seq<(Seq<char>, ConfigTree)>, path: Seq<Seq<char>>)
    ensures
        object_lines(members, path).len() == member_leaf_count(members),
    decreases members,
{
    if members.len() > 0 {
        lemma_member_line_count(members.drop_last(), path);
        lemma_line_count(members.last().1, path.push(members.last().0));
    }
}

proof fn lemma_item_line_count(items: Seq<ConfigTree>, path: Seq<Seq<char>>)
    ensures
        array_lines(items, path).len() == item_leaf_count(items),
    decreases items,
{
    if items.len() > 0 {
        lemma_item_line_count(items.drop_last(), path);
        lemma_line_count(items.last(), path.push(decimal((items.len() - 1) as nat)));
    }
}

/// The number of lines of a tree is the number of its leaves strictly below
/// the root; a root that is itself a leaf has no line.
pub proof fn law_line_count(tree: ConfigTree)
    ensures
        flat_lines(tree, Seq::empty()).len() == tree.leaves_below_root(),
{
    if !tree.is_leaf() {
        lemma_line_count(tree, Seq::empty());
    }
}

/// The lines of two runs of members, one after the other, are the lines of
/// the first run followed by the lines of the second.
pub proof fn lemma_object_concat(
    front: Seq<(Seq<char>, ConfigTree)>,
    back: Seq<(Seq<char>, ConfigTree)>,
    path: Seq<Seq<char>>,
)
    ensures
        object_lines(front + back, path) == object_lines(front, path) + object_lines(back, path),
    decreases back.len(),
{
    if back.len() == 0 {
        assert(front + back =~= front);
        assert(object_lines(front, path) + object_lines(back, path) =~= object_lines(front, path));
    } else {
        let all = front + back;
        lemma_object_concat(front, back.drop_last(), path);
        assert(all.drop_last() =~= front + back.drop_last());
        assert(all.last() == back.last());
        assert(object_lines(all, path) =~= object_lines(front, path) + object_lines(back, path));
    }
}

/// The lines of the first `k` elements of an array open the lines of the whole
/// array.
proof fn lemma_array_prefix(items: Seq<ConfigTree>, path: Seq<Seq<char>>, k: int)
    requires
        0 <= k <= items.len(),
    ensures
        array_lines(items.take(k), path).is_prefix_of(array_lines(items, path)),
    decreases items.len() - k,
{
    if k == items.len() {
        assert(items.take(k) =~= items);
    } else {
        lemma_array_prefix(items, path, k + 1);
        let longer = items.take(k + 1);
        assert(longer.drop_last() =~= items.take(k));
        let short_lines = array_lines(items.take(k), path);
        let long_lines = array_lines(longer, path);
        let all_lines = array_lines(items, path);
        assert(short_lines =~= long_lines.subrange(0, short_lines.len() as int));
        assert(short_lines =~= all_lines.subrange(0, short_lines.len() as int)) by {
            assert forall|i: int| 0 <= i < short_lines.len() implies short_lines[i]
                == all_lines[i] by {
                assert(short_lines[i] == long_lines[i]);
                assert(long_lines[i] == all_lines.subrange(0, long_lines.len() as int)[i]);
            }
        }
    }
}

/// Members of an object are emitted in declaration order: the lines of the
/// first `i + 1` members are the lines of the first `i` members followed by
/// the lines of member `i` under its key, and they are followed in the
/// object's lines by those of the remaining members. With the same law for
/// arrays, the lines of a tree stand in depth-first pre-order.
pub proof fn law_members_in_order(
    members: Seq<(Seq<char>, ConfigTree)>,
    path: Seq<Seq<char>>,
    i: int,
)
    requires
        0 <= i < members.len(),
    ensures
        flat_lines(ConfigTree::Object(members.take(i + 1)), path) == flat_lines(
            ConfigTree::Object(members.take(i)),
            path,
        ) + flat_lines(members[i].1, path.push(members[i].0)),
        flat_lines(ConfigTree::Object(members), path) == flat_lines(
            ConfigTree::Object(members.take(i + 1)),
            path,
        ) + flat_lines(ConfigTree::Object(members.skip(i + 1)), path),
{
    let upto = members.take(i + 1);
    assert(upto.drop_last() =~= members.take(i));
    assert(upto.last() == members[i]);
    assert(members =~= upto + members.skip(i + 1));
    lemma_object_concat(upto, members.skip(i + 1), path);
}

/// Elements of an array are emitted in ascending index order: the lines of
/// the first `i + 1` elements are the lines of the first `i` elements followed
/// by the lines of element `i` under its index, and they open the lines of the
/// whole array.
pub proof fn law_elements_in_order(items: Seq<ConfigTree>, path: Seq<Seq<char>>, i: int)
    requires
        0 <= i < items.len(),
    ensures
        flat_lines(ConfigTree::Array(items.take(i + 1)), path) == flat_lines(
            ConfigTree::Array(items.take(i)),
            path,
        ) + flat_lines(items[i], path.push(decimal(i as nat))),
        flat_lines(ConfigTree::Array(items.take(i + 1)), path).is_prefix_of(
            flat_lines(ConfigTree::Array(items), path),
        ),
{
    let upto = items.take(i + 1);
    assert(upto.drop_last() =~= items.take(i));
    assert(upto.last() == items[i]);
    lemma_array_prefix(items, path, i + 1);
}

/// An empty object or an empty array has no lines, wherever it stands.
pub proof fn law_empty_container(tree: ConfigTree, path: Seq<Seq<char>>)
    requires
        tree.is_empty_container(),
    ensures
        flat_lines(tree, path) == Seq::<(Seq<char>, Seq<char>)>::empty(),
{
}

/// A member that is an empty container contributes nothing: putting it
/// anywhere among the members of an object leaves the object's lines as they
/// were.
pub proof fn law_empty_member(
    members: Seq<(Seq<char>, ConfigTree)>,
    path: Seq<Seq<char>>,
    k: int,
    key: Seq<char>,
    empty: ConfigTree,
)
    requires
        0 <= k <= members.len(),
        empty.is_empty_container(),
    ensures
        flat_lines(ConfigTree::Object(members.insert(k, (key, empty))), path) == flat_lines(
            ConfigTree::Object(members),
            path,
        ),
{
    let front = members.take(k);
    let back = members.skip(k);
    let one = seq![(key, empty)];
    assert(members =~= front + back);
    assert(members.insert(k, (key, empty)) =~= (front + one) + back);
    lemma_object_concat(front, back, path);
    lemma_object_concat(front + one, back, path);
    lemma_object_concat(front, one, path);
    assert(one.drop_last() =~= Seq::empty());
    assert(object_lines(one.drop_last(), path) =~= Seq::empty());
    law_empty_container(empty, path.push(key));
    assert(object_lines(one, path) =~= Seq::empty());
    assert(object_lines(front, path) + object_lines(one, path) =~= object_lines(front, path));
}

/// An element that is an empty container contributes nothing: an array
/// followed by it has the lines of the array alone.
pub proof fn law_empty_element(items: Seq<ConfigTree>, path: Seq<Seq<char>>, empty: ConfigTree)
    requires
        empty.is_empty_container(),
    ensures
        flat_lines(ConfigTree::Array(items.push(empty)), path) == flat_lines(
            ConfigTree::Array(items),
            path,
        ),
{
    let longer = items.push(empty);
    assert(longer.drop_last() =~= items);
    law_empty_container(empty, path.push(decimal(items.len())));
    assert(array_lines(longer, path) =~= array_lines(items, path));
}

/// Every key in the tree is a plain key.
pub open spec fn has_plain_keys(tree: ConfigTree) -> bool
    decreases tree,
{
    match tree {
        ConfigTree::Object(members) => members_have_plain_keys(members),
        ConfigTree::Array(items) => items_have_plain_keys(items),
        _ => true,
    }
}

/// Every key of the members, and every key below them, is a plain key.
pub open spec fn members_have_plain_keys(members: Seq<(Seq<char>, ConfigTree)>) -> bool
    decreases members,
{
    members.len() == 0 || (members_have_plain_keys(members.drop_last()) && is_plain_key(
        members.last().0,
    ) && has_plain_keys(members.last().1))
}

/// Every key below the elements is a plain key.
pub open spec fn items_have_plain_keys(items: Seq<ConfigTree>) -> bool
    decreases items,
{
    items.len() == 0 || (items_have_plain_keys(items.drop_last()) && has_plain_keys(items.last()))
}

/// Every name among the lines is well-formed.
pub open spec fn all_names_well_formed(lines: Seq<(Seq<char>, Seq<char>)>) -> bool {
    forall|i: int| 0 <= i < lines.len() ==> is_env_name((#[trigger] lines[i]).0)
}

/// Where every key of the tree and every segment of the path is a plain key,
/// every name among the lines is well-formed: not empty, and made of
/// `A`..`Z`, `0`..`9` and `_` only.
pub proof fn law_names_well_formed(tree: ConfigTree, path: Seq<Seq<char>>)
    requires
        has_plain_keys(tree),
        is_plain_path(path),
    ensures
        all_names_well_formed(flat_lines(tree, path)),
    decreases tree,
{
    match tree {
        ConfigTree::Object(members) => lemma_member_names(members, path),
        ConfigTree::Array(items) => lemma_item_names(items, path),
        _ => {
            if path.len() > 0 {
                law_name_shape(path);
            }
        },
    }
}

proof fn lemma_member_names(members: Seq<(Seq<char>, ConfigTree)>, path: Seq<Seq<char>>)
    requires
        members_have_plain_keys(members),
        is_plain_path(path),
    ensures
        all_names_well_formed(object_lines(members, path)),
    decreases members,
{
    if members.len() > 0 {
        let front = members.drop_last();
        let last = members.last();
        lemma_member_names(front, path);
        let child = path.push(last.0);
        assert forall|i: int| 0 <= i < child.len() implies is_plain_key(#[trigger] child[i]) by {
            if i < path.len() {
                assert(child[i] == path[i]);
            }
        }
        law_names_well_formed(last.1, child);
        let all = object_lines(members, path);
        let head = object_lines(front, path);
        let tail = flat_lines(last.1, child);
        assert forall|i: int| 0 <= i < all.len() implies is_env_name((#[trigger] all[i]).0) by {
            if i < head.len() {
                assert(all[i] == head[i]);
            } else {
                assert(all[i] == tail[i - head.len()]);
            }
        }
    }
}

proof fn lemma_item_names(items: Seq<ConfigTree>, path: Seq<Seq<char>>)
    requires
        items_have_plain_keys(items),
        is_plain_path(path),
    ensures
        all_names_well_formed(array_lines(items, path)),
    decreases items,
{
    if items.len() > 0 {
        let front = items.drop_last();
        let last = items.last();
        lemma_item_names(front, path);
        let index = decimal((items.len() - 1) as nat);
        lemma_decimal_is_plain((items.len() - 1) as nat);
        let child = path.push(index);
        assert forall|i: int| 0 <= i < child.len() implies is_plain_key(#[trigger] child[i]) by {
            if i < path.len() {
                assert(child[i] == path[i]);
            }
        }
        law_names_well_formed(last, child);
        let all = array_lines(items, path);
        let head = array_lines(front, path);
        let tail = flat_lines(last, child);
        assert forall|i: int| 0 <= i < all.len() implies is_env_name((#[trigger] all[i]).0) by {
            if i < head.len() {
                assert(all[i] == head[i]);
            } else {
                assert(all[i] == tail[i - head.len()]);
            }
        }
    }
}

/// An array of leaves has one line for each element, named by the path and
/// the element's index and holding the element's text.
pub proof fn lemma_lines_of_leaves(items: Seq<ConfigTree>, path: Seq<Seq<char>>)
    requires
        forall|i: int| 0 <= i < items.len() ==> (#[trigger] items[i]).is_leaf(),
    ensures
        array_lines(items, path).len() == items.len(),
        forall|i: int|
            0 <= i < items.len() ==> #[trigger] array_lines(items, path)[i] == (
                join_upper(path.push(decimal(i as nat))),
                leaf_text(items[i]),
            ),
    decreases items.len(),
{
    if items.len() > 0 {
        let front = items.drop_last();
        assert forall|i: int| 0 <= i < front.len() implies (#[trigger] front[i]).is_leaf() by {
            assert(front[i] == items[i]);
        }
        lemma_lines_of_leaves(front, path);
        assert(items.last() == items[items.len() - 1]);
        assert(items.last().is_leaf());
        let all = array_lines(items, path);
        let head = array_lines(front, path);
        let child = path.push(decimal((items.len() - 1) as nat));
        assert(flat_lines(items.last(), child) == seq![
            (join_upper(child), leaf_text(items.last())),
        ]);
        assert forall|i: int| 0 <= i < items.len() implies #[trigger] all[i] == (
            join_upper(path.push(decimal(i as nat))),
            leaf_text(items[i]),
        ) by {
            if i < front.len() {
                assert(all[i] == head[i]);
                assert(front[i] == items[i]);
            }
        }
    }
}

/// An array of leaves at one path is told apart by index: it has one line for
/// each element, the name of line `i` is the common prefix followed by `i` in
/// decimal, and no two lines have the same name.
pub proof fn law_array_names_distinct(items: Seq<ConfigTree>, path: Seq<Seq<char>>)
    requires
        forall|i: int| 0 <= i < items.len() ==> (#[trigger] items[i]).is_leaf(),
    ensures
        flat_lines(ConfigTree::Array(items), path).len() == items.len(),
        forall|i: int|
            0 <= i < items.len() ==> (#[trigger] flat_lines(ConfigTree::Array(items), path)[i]).0
                == name_prefix(path) + decimal(i as nat),
        forall|i: int, j: int|
            0 <= i < j < items.len() ==> (#[trigger] flat_lines(
                ConfigTree::Array(items),
                path,
            )[i]).0 != (#[trigger] flat_lines(ConfigTree::Array(items), path)[j]).0,
{
    lemma_lines_of_leaves(items, path);
    let lines = flat_lines(ConfigTree::Array(items), path);
    assert forall|i: int| 0 <= i < items.len() implies (#[trigger] lines[i]).0 == name_prefix(path)
        + decimal(i as nat) by {
        law_index_names_distinct(path, i as nat, (i + 1) as nat);
    }
    assert forall|i: int, j: int| 0 <= i < j < items.len() implies (#[trigger] lines[i]).0 != (
    #[trigger] lines[j]).0 by {
        law_index_names_distinct(path, i as nat, j as nat);
    }
}

/// Every name among the lines extends the base.
pub open spec fn all_names_extend(lines: Seq<(Seq<char>, Seq<char>)>, base: Seq<char>) -> bool {
    forall|k: int| 0 <= k < lines.len() ==> extends_name((#[trigger] lines[k]).0, base)
}

/// Every name below a node with a name begins with that name: it is the
/// node's name itself, or the node's name followed by a separator and more.
pub proof fn lemma_names_extend_path(tree: ConfigTree, path: Seq<Seq<char>>)
    requires
        path.len() > 0,
    ensures
        all_names_extend(flat_lines(tree, path), join_upper(path)),
    decreases tree,
{
    match tree {
        ConfigTree::Object(members) => lemma_member_names_extend(members, path),
        ConfigTree::Array(items) => lemma_item_names_extend(items, path),
        _ => {},
    }
}

proof fn lemma_member_names_extend(members: Seq<(Seq<char>, ConfigTree)>, path: Seq<Seq<char>>)
    requires
        path.len() > 0,
    ensures
        all_names_extend(object_lines(members, path), join_upper(path)),
    decreases members,
{
    if members.len() > 0 {
        let front = members.drop_last();
        let last = members.last();
        lemma_member_names_extend(front, path);
        let child = path.push(last.0);
        lemma_names_extend_path(last.1, child);
        lemma_join_push(path, last.0);
        let all = object_lines(members, path);
        let head = object_lines(front, path);
        let tail = flat_lines(last.1, child);
        assert forall|k: int| 0 <= k < all.len() implies extends_name(
            (#[trigger] all[k]).0,
            join_upper(path),
        ) by {
            if k < head.len() {
                assert(all[k] == head[k]);
            } else {
                assert(all[k] == tail[k - head.len()]);
                lemma_extends_shorter(all[k].0, join_upper(path), upper(last.0));
            }
        }
    }
}

proof fn lemma_item_names_extend(items: Seq<ConfigTree>, path: Seq<Seq<char>>)
    requires
        path.len() > 0,
    ensures
        all_names_extend(array_lines(items, path), join_upper(path)),
    decreases items,
{
    if items.len() > 0 {
        let front = items.drop_last();
        let last = items.last();
        lemma_item_names_extend(front, path);
        let index = decimal((items.len() - 1) as nat);
        let child = path.push(index);
        lemma_names_extend_path(last, child);
        lemma_join_push(path, index);
        let all = array_lines(items, path);
        let head = array_lines(front, path);
        let tail = flat_lines(last, child);
        assert forall|k: int| 0 <= k < all.len() implies extends_name(
            (#[trigger] all[k]).0,
            join_upper(path),
        ) by {
            if k < head.len() {
                assert(all[k] == head[k]);
            } else {
                assert(all[k] == tail[k - head.len()]);
                lemma_extends_shorter(all[k].0, join_upper(path), upper(index));
            }
        }
    }
}

/// Different elements of one array never share a name, whatever the elements
/// are: a line below element `i` and a line below element `j` have different
/// names.
pub proof fn law_elements_never_share_a_name(
    items: Seq<ConfigTree>,
    path: Seq<Seq<char>>,
    i: int,
    j: int,
    a: int,
    b: int,
)
    requires
        0 <= i < items.len(),
        0 <= j < items.len(),
        i != j,
        0 <= a < flat_lines(items[i], path.push(decimal(i as nat))).len(),
        0 <= b < flat_lines(items[j], path.push(decimal(j as nat))).len(),
    ensures
        flat_lines(items[i], path.push(decimal(i as nat)))[a].0 != flat_lines(
            items[j],
            path.push(decimal(j as nat)),
        )[b].0,
{
    let first = flat_lines(items[i], path.push(decimal(i as nat)));
    let second = flat_lines(items[j], path.push(decimal(j as nat)));
    lemma_names_extend_path(items[i], path.push(decimal(i as nat)));
    lemma_names_extend_path(items[j], path.push(decimal(j as nat)));
    law_index_names_distinct(path, i as nat, j as nat);
    assert(extends_name(first[a].0, name_prefix(path) + decimal(i as nat)));
    assert(extends_name(second[b].0, name_prefix(path) + decimal(j as nat)));
    lemma_index_extensions_differ(name_prefix(path), i as nat, j as nat, first[a].0, second[b].0);
}

} // verus!

//! The flattening traversal: every leaf below the root becomes one line, named
//! by its key path.

use crate::laws::law_line_count;
use crate::name::{capitalize_and_join, decimal, index_segment, join_upper};
use crate::value::{ConfigTree, ConfigValue};
use vstd::prelude::*;

verus! {

/// The text written for a leaf: a string as it is, a number in its decimal
/// text, a boolean as `true` or `false`, null as `null`.
pub open spec fn leaf_text(leaf: ConfigTree) -> Seq<char> {
    match leaf {
        ConfigTree::String(text) => text,
        ConfigTree::Number(text) => text,
        ConfigTree::Boolean(b) => if b {
            seq!['t', 'r', 'u', 'e']
        } else {
            seq!['f', 'a', 'l', 's', 'e']
        },
        ConfigTree::Null => seq!['n', 'u', 'l', 'l'],
        _ => Seq::empty(),
    }
}

/// The lines of the subtree `tree` reached by the key path `path`, in
/// depth-first pre-order. A leaf with an empty path has no name and yields
/// nothing.
pub open spec fn flat_lines(tree: ConfigTree, path: Seq<Seq<char>>) -> Seq<(Seq<char>, Seq<char>)>
    decreases tree,
{
    match tree {
        ConfigTree::Object(members) => object_lines(members, path),
        ConfigTree::Array(items) => array_lines(items, path),
        _ => if path.len() == 0 {
            Seq::empty()
        } else {
            seq![(join_upper(path), leaf_text(tree))]
        },
    }
}

/// The lines of an object's members, in declaration order; each member is
/// reached by the path extended with its key.
pub open spec fn object_lines(members: Seq<(Seq<char>, ConfigTree)>, path: Seq<Seq<char>>) -> Seq<
    (Seq<char>, Seq<char>),
>
    decreases members,
{
    if members.len() == 0 {
        Seq::empty()
    } else {
        object_lines(members.drop_last(), path) + flat_lines(
            members.last().1,
            path.push(members.last().0),
        )
    }
}

/// The lines of an array's elements, in index order; each element is reached
/// by the path extended with its index in decimal.
pub open spec fn array_lines(items: Seq<ConfigTree>, path: Seq<Seq<char>>) -> Seq<
    (Seq<char>, Seq<char>),
>
    decreases items,
{
    if items.len() == 0 {
        Seq::empty()
    } else {
        array_lines(items.drop_last(), path) + flat_lines(
            items.last(),
            path.push(decimal((items.len() - 1) as nat)),
        )
    }
}

/// The key path extended by one segment. The result is a path of its own: the
/// parent's path is left as it was.
fn child_path<'a>(key: &[&'a str], segment: &'a str) -> (child: Vec<&'a str>)
    ensures
        child.deep_view() == key.deep_view().push(segment@),
{
    let mut child: Vec<&'a str> = Vec::new();
    let mut i: usize = 0;
    while i < key.len()
        invariant
            i <= key.len(),
            child@ == key@.take(i as int),
        decreases key.len() - i,
    {
        child.push(key[i]);
        i = i + 1;
    }
    child.push(segment);
    assert(child.deep_view() =~= key.deep_view().push(segment@));
    child
}

/// The text of a leaf.
fn leaf_value(leaf: &ConfigValue) -> (text: String)
    ensures
        text@ == leaf_text(leaf@),
{
    match leaf {
        ConfigValue::String(text) => text.clone(),
        ConfigValue::Number(text) => text.clone(),
        ConfigValue::Boolean(b) => {
            proof {
                reveal_strlit("true");
                reveal_strlit("false");
            }
            let text = if *b {
                "true".to_owned()
            } else {
                "false".to_owned()
            };
            assert(text@ =~= leaf_text(leaf@));
            text
        },
        ConfigValue::Null => {
            proof {
                reveal_strlit("null");
            }
            let text = "null".to_owned();
            assert(text@ =~= leaf_text(leaf@));
            text
        },
        _ => String::new(),
    }
}

/// Appends to `lines` the lines of `json_value`, reached by the key path `key`.
///
/// What `lines` held before is kept, and the new lines follow it in
/// depth-first pre-order.
pub fn appsettings_json_to_env_recursive(
    json_value: &ConfigValue,
    key: &[&str],
    lines: &mut Vec<(String, String)>,
)
    ensures
        final(lines).deep_view() == old(lines).deep_view() + flat_lines(
            json_value@,
            key.deep_view(),
        ),
    decreases json_value,
{
    let ghost start = lines.deep_view();
    let ghost path = key.deep_view();
    match json_value {
        ConfigValue::Object(members) => {
            let ghost model = json_value@->Object_0;
            let mut i: usize = 0;
            assert(object_lines(model.take(0), path) =~= Seq::empty());
            assert(lines.deep_view() =~= start + object_lines(model.take(0), path));
            while i < members.len()
                invariant
                    i <= members.len(),
                    json_value == ConfigValue::Object(*members),
                    model.len() == members@.len(),
                    forall|j: int|
                        0 <= j < members@.len() ==> model[j] == (
                            members@[j].0@,
                            members@[j].1@,
                        ),
                    path == key.deep_view(),
                    lines.deep_view() == start + object_lines(model.take(i as int), path),
                decreases members.len() - i,
            {
                let child = child_path(key, members[i].0.as_str());
                let child_key = child.as_slice();
                proof {
                    assert(decreases_to!(json_value => json_value->Object_0));
                    assert(decreases_to!(*members => members[i as int]));
                    assert(decreases_to!(members[i as int] => members[i as int].1));
                }
                appsettings_json_to_env_recursive(&members[i].1, child_key, lines);
                proof {
                    let prefix = model.take(i + 1);
                    assert(prefix.drop_last() =~= model.take(i as int));
                    assert(prefix.last() == (members@[i as int].0@, members@[i as int].1@));
                    assert(child_key.deep_view() =~= path.push(members@[i as int].0@));
                    assert(lines.deep_view() =~= start + object_lines(prefix, path));
                }
                i = i + 1;
            }
            assert(model.take(members.len() as int) =~= model);
        },
        ConfigValue::Array(items) => {
            let ghost model = json_value@->Array_0;
            let mut i: usize = 0;
            assert(array_lines(model.take(0), path) =~= Seq::empty());
            assert(lines.deep_view() =~= start + array_lines(model.take(0), path));
            while i < items.len()
                invariant
                    i <= items.len(),
                    json_value == ConfigValue::Array(*items),
                    model.len() == items@.len(),
                    forall|j: int| 0 <= j < items@.len() ==> model[j] == items@[j]@,
                    path == key.deep_view(),
                    lines.deep_view() == start + array_lines(model.take(i as int), path),
                decreases items.len() - i,
            {
                let index = index_segment(i);
                let child = child_path(key, index.as_str());
                let child_key = child.as_slice();
                proof {
                    assert(decreases_to!(json_value => json_value->Array_0));
                    assert(decreases_to!(*items => items[i as int]));
                }
                appsettings_json_to_env_recursive(&items[i], child_key, lines);
                proof {
                    let prefix = model.take(i + 1);
                    assert(prefix.drop_last() =~= model.take(i as int));
                    assert(prefix.last() == items@[i as int]@);
                    assert(child_key.deep_view() =~= path.push(decimal(i as nat)));
                    assert(lines.deep_view() =~= start + array_lines(prefix, path));
                }
                i = i + 1;
            }
            assert(model.take(items.len() as int) =~= model);
        },
        _ => {
            if key.len() > 0 {
                let name = capitalize_and_join(key);
                let value = leaf_value(json_value);
                lines.push((name, value));
            }
            assert(lines.deep_view() =~= start + flat_lines(json_value@, path));
        },
    }
}

/// Flattens a configuration tree into its lines: one `(name, value)` pair for
/// every leaf below the root, in depth-first pre-order.
pub fn flatten(tree: &ConfigValue) -> (lines: Vec<(String, String)>)
    ensures
        lines.deep_view() == flat_lines(tree@, Seq::empty()),
        lines.len() == tree@.leaves_below_root(),
{
    let mut lines: Vec<(String, String)> = Vec::new();
    let root: Vec<&str> = Vec::new();
    let root_key = root.as_slice();
    assert(root_key.deep_view() =~= Seq::empty());
    assert(lines.deep_view() =~= Seq::empty());
    appsettings_json_to_env_recursive(tree, root_key, &mut lines);
    assert(lines.deep_view() =~= flat_lines(tree@, Seq::empty()));
    proof {
        law_line_count(tree@);
    }
    lines
}

} // verus!

//! Configuration trees: the executable representation and its mathematical model.

use vstd::prelude::*;

verus! {

/// Mathematical model of a configuration tree.
///
/// Objects keep their members in declaration order and arrays their elements
/// in index order. A number is modelled by its decimal text.
pub enum ConfigTree {
    Object(Seq<(Seq<char>, ConfigTree)>),
    Array(Seq<ConfigTree>),
    String(Seq<char>),
    Number(Seq<char>),
    Boolean(bool),
    Null,
}

/// A parsed configuration tree.
///
/// `Number` holds the number in its decimal text form, exactly as it is to be
/// written out.
#[derive(Debug, PartialEq, Eq)]
pub enum ConfigValue {
    Object(Vec<(String, ConfigValue)>),
    Array(Vec<ConfigValue>),
    String(String),
    Number(String),
    Boolean(bool),
    Null,
}

/// The model of a configuration tree: members and elements in their order,
/// texts by their characters.
pub open spec fn tree_of(value: ConfigValue) -> ConfigTree
    decreases value,
{
    match value {
        ConfigValue::Object(members) => ConfigTree::Object(
            Seq::new(
                members@.len(),
                |i: int|
                    if 0 <= i < members@.len() {
                        (members@[i].0@, tree_of(members@[i].1))
                    } else {
                        arbitrary()
                    },
            ),
        ),
        ConfigValue::Array(items) => ConfigTree::Array(
            Seq::new(
                items@.len(),
                |i: int|
                    if 0 <= i < items@.len() {
                        tree_of(items@[i])
                    } else {
                        arbitrary()
                    },
            ),
        ),
        ConfigValue::String(text) => ConfigTree::String(text@),
        ConfigValue::Number(text) => ConfigTree::Number(text@),
        ConfigValue::Boolean(b) => ConfigTree::Boolean(b),
        ConfigValue::Null => ConfigTree::Null,
    }
}

impl View for ConfigValue {
    type V = ConfigTree;

    open spec fn view(&self) -> ConfigTree {
        tree_of(*self)
    }
}

impl ConfigTree {
    /// A leaf is any node that is neither an object nor an array.
    pub open spec fn is_leaf(self) -> bool {
        !(self is Object) && !(self is Array)
    }

    /// An object without members or an array without elements.
    pub open spec fn is_empty_container(self) -> bool {
        ||| self matches ConfigTree::Object(members) && members.len() == 0
        ||| self matches ConfigTree::Array(items) && items.len() == 0
    }

    /// The number of leaves in the tree, the root included if it is one.
    pub open spec fn leaf_count(self) -> nat
        decreases self,
    {
        match self {
            ConfigTree::Object(members) => member_leaf_count(members),
            ConfigTree::Array(items) => item_leaf_count(items),
            _ => 1,
        }
    }

    /// The number of leaves strictly below the root.
    pub open spec fn leaves_below_root(self) -> nat {
        if self.is_leaf() {
            0
        } else {
            self.leaf_count()
        }
    }
}

/// The number of leaves in the members of an object.
pub open spec fn member_leaf_count(members: Seq<(Seq<char>, ConfigTree)>) -> nat
    decreases members,
{
    if members.len() == 0 {
        0
    } else {
        member_leaf_count(members.drop_last()) + members.last().1.leaf_count()
    }
}

/// The number of leaves in the elements of an array.
pub open spec fn item_leaf_count(items: Seq<ConfigTree>) -> nat
    decreases items,
{
    if items.len() == 0 {
        0
    } else {
        item_leaf_count(items.drop_last()) + items.last().leaf_count()
    }
}

} // verus!

//! The shapes of nodes: the model in which the contracts of the trie are
//! written.

use crate::dtrie::char_list::shared_prefix;
use crate::dtrie::identifier::Identifier;
use vstd::prelude::*;

verus! {

/// What a node of the trie holds, as plain values: the mathematical model
/// that the contracts of the trie speak of.
///
/// A leaf stands for one interned string. An internal node is a branching
/// point; it carries an identifier exactly when the string that ends at it
/// is interned itself. The string of a node is the labels on the way down to
/// it, one after the other.
#[allow(inconsistent_fields)]
pub enum Shape {
    Leaf { label: Seq<u8>, id: Identifier },
    Internal { label: Seq<u8>, id: Option<Identifier>, children: Seq<Shape> },
}

impl Shape {
    /// The label on the edge that leads to this node.
    pub open spec fn label(self) -> Seq<u8> {
        match self {
            Shape::Leaf { label, .. } => label,
            Shape::Internal { label, .. } => label,
        }
    }

    /// The identifier of the string that ends at this node, if it is interned.
    pub open spec fn ident(self) -> Option<Identifier> {
        match self {
            Shape::Leaf { id, .. } => Some(id),
            Shape::Internal { id, .. } => id,
        }
    }

    /// The nodes below this one; a leaf has none.
    pub open spec fn children(self) -> Seq<Shape> {
        match self {
            Shape::Leaf { .. } => Seq::empty(),
            Shape::Internal { children, .. } => children,
        }
    }

    /// The same node under another label.
    pub open spec fn relabeled(self, label: Seq<u8>) -> Shape {
        match self {
            Shape::Leaf { id, .. } => Shape::Leaf { label, id },
            Shape::Internal { id, children, .. } => Shape::Internal { label, id, children },
        }
    }

    /// The node is well formed: no label in it is empty, and no two siblings
    /// in it start with the same byte.
    pub open spec fn wf(self) -> bool
        decreases self,
    {
        match self {
            Shape::Leaf { label, .. } => label.len() > 0,
            Shape::Internal { label, children, .. } => label.len() > 0 && all_wf(children),
        }
    }

    /// The number of nodes in this node's subtree, itself included.
    pub open spec fn count(self) -> nat
        decreases self,
    {
        match self {
            Shape::Leaf { .. } => 1,
            Shape::Internal { children, .. } => 1 + count_all(children),
        }
    }

    /// The identifier under which `key` is interned in this node's subtree,
    /// where `key` is read from the start of this node's label.
    pub open spec fn lookup(self, key: Seq<u8>) -> Option<Identifier>
        decreases self,
    {
        match self {
            Shape::Leaf { label, id } => if key == label {
                Some(id)
            } else {
                None
            },
            Shape::Internal { label, id, children } => if key == label {
                id
            } else if label.is_prefix_of(key) {
                lookup_in(children, key.skip(label.len() as int))
            } else {
                None
            },
        }
    }

    /// How many leading bytes of `pattern` can be matched by walking down
    /// from this node: the part shared with its label and, where the whole
    /// label is matched, the most that any child matches of what is left.
    pub open spec fn matching(self, pattern: Seq<u8>) -> nat
        decreases self,
    {
        match self {
            Shape::Leaf { label, .. } => shared_prefix(label, pattern),
            Shape::Internal { label, children, .. } => {
                let similarity = shared_prefix(label, pattern);
                if similarity == label.len() {
                    similarity + best_match(children, pattern.skip(similarity as int))
                } else {
                    similarity
                }
            },
        }
    }

    /// The string, read from the start of this node's label, of the first
    /// node in this subtree that carries `id`; a node comes before its
    /// children, and a child before the siblings behind it.
    pub open spec fn key_of(self, id: Identifier) -> Option<Seq<u8>>
        decreases self,
    {
        match self {
            Shape::Leaf { label, id: own } => if own == id {
                Some(label)
            } else {
                None
            },
            Shape::Internal { label, id: own, children } => if own == Some(id) {
                Some(label)
            } else {
                match key_in(children, id) {
                    Some(rest) => Some(label + rest),
                    None => None,
                }
            },
        }
    }

    /// The node after `pattern` has been inserted into it, where `fresh` is
    /// the identifier to give to `pattern` if it is new.
    ///
    /// With `n` the number of leading bytes that label and pattern share:
    /// where both end at `n` the node keeps its shape, and an internal node
    /// without identifier takes `fresh`; where only the label ends, the rest
    /// of the pattern goes below the node; where only the pattern ends, a new
    /// node for the pattern takes the place, with the old node and the rest
    /// of its label below it; where neither ends, a new node without
    /// identifier holds the shared part, with the old node and a new leaf
    /// below it.
    pub open spec fn inserted(self, pattern: Seq<u8>, fresh: Identifier) -> Shape
        recommends
            shared_prefix(self.label(), pattern) > 0,
        decreases self,
    {
        match self {
            Shape::Leaf { label, id } => {
                let n = shared_prefix(label, pattern) as int;
                if n == label.len() && n == pattern.len() {
                    self
                } else if n == label.len() {
                    Shape::Internal {
                        label,
                        id: Some(id),
                        children: seq![Shape::Leaf { label: pattern.skip(n), id: fresh }],
                    }
                } else if n == pattern.len() {
                    Shape::Internal {
                        label: pattern,
                        id: Some(fresh),
                        children: seq![Shape::Leaf { label: label.skip(n), id }],
                    }
                } else {
                    Shape::Internal {
                        label: label.take(n),
                        id: None,
                        children: seq![
                            Shape::Leaf { label: label.skip(n), id },
                            Shape::Leaf { label: pattern.skip(n), id: fresh },
                        ],
                    }
                }
            },
            Shape::Internal { label, id, children } => {
                let n = shared_prefix(label, pattern) as int;
                if n == label.len() && n == pattern.len() {
                    Shape::Internal {
                        label,
                        id: Some(
                            match id {
                                Some(own) => own,
                                None => fresh,
                            },
                        ),
                        children,
                    }
                } else if n == label.len() {
                    Shape::Internal {
                        label,
                        id,
                        children: inserted_in(children, pattern.skip(n), fresh),
                    }
                } else if n == pattern.len() {
                    Shape::Internal {
                        label: pattern,
                        id: Some(fresh),
                        children: seq![Shape::Internal { label: label.skip(n), id, children }],
                    }
                } else {
                    Shape::Internal {
                        label: label.take(n),
                        id: None,
                        children: seq![
                            Shape::Internal { label: label.skip(n), id, children },
                            Shape::Leaf { label: pattern.skip(n), id: fresh },
                        ],
                    }
                }
            },
        }
    }

    /// The identifier that inserting `pattern` gives back: the one it has
    /// already, or else `fresh`.
    pub open spec fn assigned(self, pattern: Seq<u8>, fresh: Identifier) -> Identifier {
        match self.lookup(pattern) {
            Some(id) => id,
            None => fresh,
        }
    }
}

/// No two of the siblings start with the same byte.
pub open spec fn disjoint(siblings: Seq<Shape>) -> bool {
    forall|i: int, j: int|
        0 <= i < j < siblings.len() ==> (#[trigger] siblings[i]).label().first() != (
        #[trigger] siblings[j]).label().first()
}

/// Each of the siblings is well formed, and no two of them start with the
/// same byte.
pub open spec fn all_wf(siblings: Seq<Shape>) -> bool
    decreases siblings,
{
    &&& disjoint(siblings)
    &&& forall|i: int| 0 <= i < siblings.len() ==> (#[trigger] siblings[i]).wf()
}

/// The number of nodes in the subtrees of all the siblings.
pub open spec fn count_all(siblings: Seq<Shape>) -> nat
    decreases siblings,
{
    if siblings.len() == 0 {
        0
    } else {
        siblings[0].count() + count_all(siblings.drop_first())
    }
}

/// The identifier under which `key` is interned below one of the siblings:
/// what the first sibling that knows `key` says.
pub open spec fn lookup_in(siblings: Seq<Shape>, key: Seq<u8>) -> Option<Identifier>
    decreases siblings,
{
    if siblings.len() == 0 {
        None
    } else {
        match siblings[0].lookup(key) {
            Some(id) => Some(id),
            None => lookup_in(siblings.drop_first(), key),
        }
    }
}

/// The most that any of the siblings matches of `pattern`.
pub open spec fn best_match(siblings: Seq<Shape>, pattern: Seq<u8>) -> nat
    decreases siblings,
{
    if siblings.len() == 0 {
        0
    } else {
        let first = siblings[0].matching(pattern);
        let others = best_match(siblings.drop_first(), pattern);
        if first >= others {
            first
        } else {
            others
        }
    }
}

/// The place of the first sibling that matches at least one byte of
/// `pattern`.
pub open spec fn first_match(siblings: Seq<Shape>, pattern: Seq<u8>) -> Option<int>
    decreases siblings.len(),
{
    if siblings.len() == 0 {
        None
    } else if siblings[0].matching(pattern) > 0 {
        Some(0)
    } else {
        match first_match(siblings.drop_first(), pattern) {
            Some(i) => Some(i + 1),
            None => None,
        }
    }
}

/// The string of the first node below the siblings that carries `id`.
pub open spec fn key_in(siblings: Seq<Shape>, id: Identifier) -> Option<Seq<u8>>
    decreases siblings,
{
    if siblings.len() == 0 {
        None
    } else {
        match siblings[0].key_of(id) {
            Some(key) => Some(key),
            None => key_in(siblings.drop_first(), id),
        }
    }
}

/// The siblings after `pattern` has been inserted among them: it goes into
/// the first sibling that matches at least one byte of it, and where none
/// does, a new leaf for it comes last.
pub open spec fn inserted_in(siblings: Seq<Shape>, pattern: Seq<u8>, fresh: Identifier) -> Seq<
    Shape,
>
    decreases siblings,
{
    if siblings.len() == 0 {
        seq![Shape::Leaf { label: pattern, id: fresh }]
    } else if siblings[0].matching(pattern) > 0 {
        seq![siblings[0].inserted(pattern, fresh)] + siblings.drop_first()
    } else {
        seq![siblings[0]] + inserted_in(siblings.drop_first(), pattern, fresh)
    }
}

} // verus!

//! The schema tree and its mathematical model.

use vstd::prelude::*;

verus! {

/// How a word of the word list is written out.
#[derive(Clone, Copy, Debug, PartialEq, Eq, Structural)]
pub enum CaseStyle {
    /// All letters in lower case.
    Lower,
    /// The first letter in upper case, the others in lower case.
    Capitalized,
}

/// The mathematical model of a schema tree: what a [`Node`] stands for in contracts.
pub enum Schema {
    /// Exactly one fixed character.
    Literal(char),
    /// One character of a set, or, negated, one printable character outside it.
    CharClass { chars: Seq<char>, negated: bool },
    /// One word of the word list, written in the given style.
    WordClass(CaseStyle),
    /// Each part in turn.
    Concat(Seq<Schema>),
    /// Exactly one of the branches.
    Alternate(Seq<Schema>),
    /// The part repeated, at least `min` and at most `max` times.
    Repeat(Box<Schema>, nat, nat),
}

/// A node of a schema tree.
#[derive(Debug, PartialEq, Eq)]
pub enum Node {
    /// Exactly one fixed character.
    Literal(char),
    /// One character of a set, or, negated, one printable character outside it.
    CharClass { chars: Vec<char>, negated: bool },
    /// One word of the word list, written in the given style.
    WordClass(CaseStyle),
    /// Each part in turn.
    Concat(Vec<Node>),
    /// Exactly one of the branches.
    Alternate(Vec<Node>),
    /// The part repeated, at least `min` and at most `max` times.
    Repeat(Box<Node>, u32, u32),
}

/// Whether a schema is well formed: no class lists a character twice, and
/// the lower count of every repetition is at most its upper count.
pub open spec fn well_formed(schema: Schema) -> bool
    decreases schema,
{
    match schema {
        Schema::Literal(_) => true,
        Schema::CharClass { chars, negated } => chars.no_duplicates(),
        Schema::WordClass(_) => true,
        Schema::Concat(parts) => forall|i: int|
            0 <= i < parts.len() ==> well_formed(#[trigger] parts[i]),
        Schema::Alternate(branches) => forall|i: int|
            0 <= i < branches.len() ==> well_formed(#[trigger] branches[i]),
        Schema::Repeat(part, min, max) => min <= max && well_formed(*part),
    }
}

/// Whether each of the schemas is well formed.
pub open spec fn each_well_formed(list: Seq<Schema>) -> bool {
    forall|i: int| 0 <= i < list.len() ==> well_formed(#[trigger] list[i])
}

/// The models of a sequence of nodes.
pub open spec fn models(nodes: Seq<Node>) -> Seq<Schema>
    decreases nodes,
{
    Seq::new(
        nodes.len(),
        |i: int|
            if 0 <= i < nodes.len() {
                nodes[i].model()
            } else {
                Schema::Concat(Seq::empty())
            },
    )
}

impl Node {
    /// The model of this node: the same tree, with sequences in place of vectors.
    pub open spec fn model(self) -> Schema
        decreases self,
    {
        match self {
            Node::Literal(c) => Schema::Literal(c),
            Node::CharClass { chars, negated } => Schema::CharClass { chars: chars@, negated },
            Node::WordClass(style) => Schema::WordClass(style),
            Node::Concat(parts) => Schema::Concat(models(parts@)),
            Node::Alternate(branches) => Schema::Alternate(models(branches@)),
            Node::Repeat(part, min, max) => Schema::Repeat(
                Box::new(part.model()),
                min as nat,
                max as nat,
            ),
        }
    }
}

impl View for Node {
    type V = Schema;

    open spec fn view(&self) -> Schema {
        self.model()
    }
}

} // verus!

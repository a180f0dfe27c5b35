//! A minimal owned [Context] implementation: a tree of null, booleans,
//! text, mappings and sequences, built up by calls. It bridges application
//! data and rendering when the data can be copied eagerly.
use vstd::prelude::*;
use vstd::string::StrSliceExecFns;
use vstd::string::StringExecFns;
use crate::context::{Context, ContextValue};
use crate::reader::str_eq;

verus! {

/// The shape of one node.
pub enum MlValue {
    Null,
    Bool(bool),
    Text(String),
    Mapping(Vec<(String, MapsAndLists)>),
    Sequence(Vec<MapsAndLists>),
}

/// An owned context node.
pub struct MapsAndLists {
    pub node: MlValue,
}

impl MapsAndLists {
    /// The null node; it is falsy and renders as nothing.
    pub fn null() -> (r: MapsAndLists)
        ensures
            r.node is Null,
    {
        MapsAndLists { node: MlValue::Null }
    }

    /// A boolean node; `false` is falsy, and either renders as its name.
    pub fn bool(b: bool) -> (r: MapsAndLists)
        ensures
            r.node == MlValue::Bool(b),
    {
        MapsAndLists { node: MlValue::Bool(b) }
    }

    /// A text node; empty text is falsy.
    pub fn text(t: &str) -> (r: MapsAndLists)
        ensures
            r.node is Text && r.node->Text_0@ == t@,
    {
        MapsAndLists { node: MlValue::Text(t.to_owned()) }
    }

    /// A mapping node over named children; the first entry with a name
    /// answers lookups of it.
    pub fn mapping(mapping: Vec<(String, MapsAndLists)>) -> (r: MapsAndLists)
        ensures
            r.node is Mapping && r.node->Mapping_0 == mapping,
    {
        MapsAndLists { node: MlValue::Mapping(mapping) }
    }

    /// A sequence node over ordered children.
    pub fn sequence(sequence: Vec<MapsAndLists>) -> (r: MapsAndLists)
        ensures
            r.node is Sequence && r.node->Sequence_0 == sequence,
    {
        MapsAndLists { node: MlValue::Sequence(sequence) }
    }
}

/// The index of the first entry with a key, searching from position `i`.
pub open spec fn ml_first_key(
    entries: Seq<(String, MapsAndLists)>,
    name: Seq<char>,
    i: int,
) -> Option<int>
    decreases entries.len() - i,
{
    if i < 0 || i >= entries.len() {
        None
    } else if entries[i].0@ == name {
        Some(i)
    } else {
        ml_first_key(entries, name, i + 1)
    }
}

impl MapsAndLists {
    /// Mapping lookup by name: the first entry whose key is the name, and
    /// nothing on any other shape.
    pub fn child_entry(&self, name: &str) -> (r: Option<&MapsAndLists>)
        ensures
            !(self.node is Mapping) ==> r is None,
            self.node is Mapping ==> match (r, ml_first_key(self.node->Mapping_0@, name@, 0)) {
                (Some(c), Some(i)) => 0 <= i < self.node->Mapping_0@.len() && *c
                    == self.node->Mapping_0@[i].1,
                (None, None) => true,
                _ => false,
            },
    {
        match &self.node {
            MlValue::Mapping(entries) => {
                let mut i: usize = 0;
                while i < entries.len()
                    invariant
                        0 <= i <= entries@.len(),
                        self.node is Mapping,
                        entries@ == self.node->Mapping_0@,
                        ml_first_key(entries@, name@, 0) == ml_first_key(entries@, name@, i as int),
                    decreases entries@.len() - i,
                {
                    if str_eq(entries[i].0.as_str(), name) {
                        return Some(&entries[i].1);
                    }
                    i += 1;
                }
                None
            },
            _ => None,
        }
    }

    /// The items of a sequence node, in order; nothing on any other shape.
    pub fn sequence_items(&self) -> (r: Option<Vec<&MapsAndLists>>)
        ensures
            !(self.node is Sequence) ==> r is None,
            self.node is Sequence ==> match r {
                Some(refs) => refs@.len() == self.node->Sequence_0@.len() && forall|i: int|
                    0 <= i < refs@.len() ==> *(#[trigger] refs@[i])
                        == self.node->Sequence_0@[i],
                None => false,
            },
    {
        match &self.node {
            MlValue::Sequence(items) => {
                let mut refs: Vec<&MapsAndLists> = Vec::new();
                let mut i: usize = 0;
                while i < items.len()
                    invariant
                        0 <= i <= items@.len(),
                        refs@.len() == i,
                        forall|j: int| 0 <= j < i ==> *(#[trigger] refs@[j]) == items@[j],
                    decreases items@.len() - i,
                {
                    refs.push(&items[i]);
                    i += 1;
                }
                Some(refs)
            },
            _ => None,
        }
    }

    /// The interpolated contents: text as itself, booleans by their names,
    /// everything else as empty text.
    pub fn content_value(&self) -> (r: ContextValue)
        ensures
            r is Text,
            self.node is Bool ==> r->Text_0@ == (if self.node->Bool_0 {
                "true"@
            } else {
                "false"@
            }),
            self.node is Text ==> r->Text_0@ == self.node->Text_0@,
            !(self.node is Bool) && !(self.node is Text) ==> r->Text_0@.len() == 0,
    {
        match &self.node {
            MlValue::Bool(b) => ContextValue::Text(
                if *b {
                    String::from_str("true")
                } else {
                    String::from_str("false")
                },
            ),
            MlValue::Text(t) => ContextValue::Text(t.clone()),
            _ => ContextValue::Text(String::new()),
        }
    }

    /// Exactly null, `false` and empty text are falsy.
    pub fn falsy(&self) -> (r: bool)
        ensures
            r == (self.node is Null || (self.node is Bool && !self.node->Bool_0) || (self.node
                is Text && self.node->Text_0@.len() == 0)),
    {
        match &self.node {
            MlValue::Null => true,
            MlValue::Bool(b) => !*b,
            MlValue::Text(t) => t.as_str().unicode_len() == 0,
            _ => false,
        }
    }
}

impl Context for MapsAndLists {
    /// As [MapsAndLists::child_entry].
    fn child(&self, name: &str, _section: Option<(usize, usize)>) -> Option<&Self> {
        self.child_entry(name)
    }

    /// As [MapsAndLists::sequence_items].
    fn children(&self) -> Option<Vec<&Self>> {
        self.sequence_items()
    }

    /// As [MapsAndLists::content_value].
    fn value(&self) -> ContextValue {
        self.content_value()
    }

    /// As [MapsAndLists::falsy].
    fn is_falsy(&self) -> bool {
        self.falsy()
    }
}

} // verus!

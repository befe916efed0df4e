//! The save document: a structured, self-describing value tree.
//!
//! The document is plain data — ordered layers, each an ordered list of
//! tagged entities. Every live entity gets a dense integer tag assigned in
//! traversal order at save time; reference lists mention entities by tag.
//! Tags are valid only within one document: they are recomputed on every
//! save and never persist identity. How the document is written to durable
//! storage (JSON text, say) is the embedding application's choice.

use vstd::prelude::*;

verus! {

/// One encoded weak reference, corresponding to the variants of
/// `MaybePersistentRef`.
#[derive(Clone, Copy, PartialEq, Eq, Structural, Debug)]
pub enum RefCode {
    /// The reference was never set.
    Unset,
    /// The reference pointed to an entity that is no longer part of the
    /// game.
    Dangling,
    /// The reference points to the live entity assigned this tag (possibly
    /// the referring entity's own tag, for a self-reference).
    Tag(u64),
}

/// One field value of an entity's own saved state.
#[derive(Clone, PartialEq, Debug)]
pub enum FieldValue {
    Int(i64),
    UInt(u64),
    Flag(bool),
    Text(String),
}

/// An entity's own saved state: named fields, kind-specific.
#[derive(Clone, PartialEq, Debug)]
pub struct Payload {
    pub fields: Vec<(String, FieldValue)>,
}

/// One saved entity: its kind, its tag for this document, its own state and
/// its encoded reference list.
pub struct SavedObject {
    pub type_tag: String,
    pub tag: u64,
    pub payload: Payload,
    pub refs: Vec<RefCode>,
}

/// One saved layer: its registered name and its entities in layer order.
pub struct SavedLayer {
    pub name: String,
    pub objects: Vec<SavedObject>,
}

/// A whole save document: the layers in registry order.
pub struct SaveDoc {
    pub layers: Vec<SavedLayer>,
}

impl SaveDoc {
    /// The character sequences of the document's layer names, in order.
    pub open spec fn names(self) -> Seq<Seq<char>> {
        self.layers@.map_values(|l: SavedLayer| l.name@)
    }

    /// The entities of document layer `l`.
    pub open spec fn objects_of(self, l: int) -> Seq<SavedObject> {
        self.layers@[l].objects@
    }
}

/// Why a document was rejected on load. A rejected load leaves the live
/// registry completely unchanged.
#[derive(Clone, Copy, PartialEq, Eq, Structural, Debug)]
pub enum LoadError {
    /// The document's layer-name set differs from the live registry's.
    LayerSetMismatch,
    /// Two entities in the document carry the same tag.
    DuplicateTag,
    /// An entity's kind tag names no known kind (or its fields do not fit).
    UnknownTypeTag,
    /// A reference mentions a tag no entity in the document carries.
    UnknownRefTag,
    /// An entity rejected its rebuilt reference list (count mismatch).
    RefCountMismatch,
    /// More entities than the registry can ever hand identities to.
    Capacity,
}

} // verus!

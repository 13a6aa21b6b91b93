use vstd::prelude::*;
use crate::text::string_from;

verus! {

/// An instance of a block in a circuit.
#[derive(Debug, Clone, PartialEq, Eq)]
pub struct Instance {
    pub id: String,
    pub block: BlockRef,
}

/// How an instance names its block: the older form names a primitive only.
#[derive(Debug, Clone, PartialEq, Eq)]
pub enum BlockRef {
    LegacyPrimitive { primitive: String },
    Block { block: BlockKind },
}

/// The kind of block an instance is made of.
#[derive(Debug, Clone, PartialEq, Eq)]
pub enum BlockKind {
    Primitive { name: String },
    Macro { name: String },
}

/// The primitive an instance is made of, if it is a primitive.
pub open spec fn primitive_of(i: Instance) -> Option<Seq<char>> {
    match i.block {
        BlockRef::LegacyPrimitive { primitive } => Some(primitive@),
        BlockRef::Block { block: BlockKind::Primitive { name } } => Some(name@),
        BlockRef::Block { block: BlockKind::Macro { .. } } => None,
    }
}

/// The macro an instance is made of, if it is a macro.
pub open spec fn macro_of(i: Instance) -> Option<Seq<char>> {
    match i.block {
        BlockRef::Block { block: BlockKind::Macro { name } } => Some(name@),
        _ => None,
    }
}

pub open spec fn opt_str(o: Option<&str>) -> Option<Seq<char>> {
    match o {
        Some(s) => Some(s@),
        None => None,
    }
}

impl Instance {
    /// An instance of a primitive.
    pub fn new(id: &str, primitive: &str) -> (r: Self)
        ensures
            r.id@ == id@,
            r.block matches BlockRef::Block { block: BlockKind::Primitive { name } } && name@
                == primitive@,
            primitive_of(r) == Some(primitive@),
            macro_of(r) is None,
    {
        Self::primitive(id, primitive)
    }

    /// An instance of a primitive.
    pub fn primitive(id: &str, primitive: &str) -> (r: Self)
        ensures
            r.id@ == id@,
            r.block matches BlockRef::Block { block: BlockKind::Primitive { name } } && name@
                == primitive@,
            primitive_of(r) == Some(primitive@),
            macro_of(r) is None,
    {
        Instance {
            id: string_from(id),
            block: BlockRef::Block { block: BlockKind::Primitive { name: string_from(primitive) } },
        }
    }

    /// An instance of a macro.
    pub fn macro_instance(id: &str, macro_name: &str) -> (r: Self)
        ensures
            r.id@ == id@,
            r.block matches BlockRef::Block { block: BlockKind::Macro { name } } && name@
                == macro_name@,
            primitive_of(r) is None,
            macro_of(r) == Some(macro_name@),
    {
        Instance {
            id: string_from(id),
            block: BlockRef::Block { block: BlockKind::Macro { name: string_from(macro_name) } },
        }
    }

    /// The primitive of the instance, none for a macro instance.
    pub fn primitive_name(&self) -> (r: Option<&str>)
        ensures
            opt_str(r) == primitive_of(*self),
    {
        match &self.block {
            BlockRef::LegacyPrimitive { primitive } => Some(primitive.as_str()),
            BlockRef::Block { block: BlockKind::Primitive { name } } => Some(name.as_str()),
            BlockRef::Block { block: BlockKind::Macro { .. } } => None,
        }
    }

    /// The macro of the instance, none for a primitive instance.
    pub fn macro_name(&self) -> (r: Option<&str>)
        ensures
            opt_str(r) == macro_of(*self),
    {
        match &self.block {
            BlockRef::LegacyPrimitive { .. } => None,
            BlockRef::Block { block: BlockKind::Primitive { .. } } => None,
            BlockRef::Block { block: BlockKind::Macro { name } } => Some(name.as_str()),
        }
    }
}

} // verus!

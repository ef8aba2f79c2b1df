use vstd::prelude::*;

verus! {

/// How the values of a leaf column are laid out in bytes.
#[derive(Debug, Clone, Copy, PartialEq, Eq, Structural)]
pub enum PhysicalType {
    Boolean,
    Int32,
    Int64,
    Int96,
    Float,
    Double,
    ByteArray,
    /// Byte strings that all have the given length.
    FixedLenByteArray(usize),
}

/// A leaf of the schema: a named column of one physical type.
#[derive(Debug, Clone, PartialEq, Eq)]
pub struct PrimitiveType {
    pub name: String,
    pub physical_type: PhysicalType,
}

impl PrimitiveType {
    /// The leaf column `name` of `physical_type`.
    pub fn from_physical(name: String, physical_type: PhysicalType) -> (r: Self)
        ensures
            r.name == name,
            r.physical_type == physical_type,
    {
        Self { name, physical_type }
    }
}

/// A node of the schema: a leaf column, or a named group of leaf columns.
#[derive(Debug, Clone, PartialEq, Eq)]
pub enum ParquetType {
    PrimitiveType(PrimitiveType),
    GroupType { name: String, fields: Vec<PrimitiveType> },
}

impl ParquetType {
    /// The text of the node's name.
    pub open spec fn spec_name(&self) -> Seq<char> {
        match self {
            ParquetType::PrimitiveType(p) => p.name@,
            ParquetType::GroupType { name, .. } => name@,
        }
    }

    /// The leaf column `name` of `physical_type`.
    pub fn from_physical(name: String, physical_type: PhysicalType) -> (r: Self)
        ensures
            r == ParquetType::PrimitiveType(PrimitiveType { name, physical_type }),
    {
        ParquetType::PrimitiveType(PrimitiveType::from_physical(name, physical_type))
    }

    /// The group `name` of the leaf columns `fields`.
    pub fn from_group(name: String, fields: Vec<PrimitiveType>) -> (r: Self)
        ensures
            r == (ParquetType::GroupType { name, fields }),
    {
        ParquetType::GroupType { name, fields }
    }

    /// The node's name.
    pub fn name(&self) -> (r: &str)
        ensures
            r@ == self.spec_name(),
    {
        match self {
            ParquetType::PrimitiveType(p) => p.name.as_str(),
            ParquetType::GroupType { name, .. } => name.as_str(),
        }
    }
}

} // verus!

use vstd::prelude::*;
use crate::schema::ParquetType;

verus! {

/// Describes one leaf column: its type, how deeply it nests, and where it sits
/// in the schema.
#[derive(Debug, PartialEq)]
pub struct ColumnDescriptor {
    primitive_type: ParquetType,
    max_def_level: i16,
    max_rep_level: i16,
    path_in_schema: Vec<String>,
    root: ParquetType,
}

impl Clone for ColumnDescriptor {
    fn clone(&self) -> (r: Self)
        ensures
            r.spec_max_def_level() == self.spec_max_def_level(),
            r.spec_max_rep_level() == self.spec_max_rep_level(),
            r.spec_path_in_schema().len() == self.spec_path_in_schema().len(),
    {
        proof {
            use_type_invariant(self);
        }
        Self {
            primitive_type: self.primitive_type.clone(),
            max_def_level: self.max_def_level,
            max_rep_level: self.max_rep_level,
            path_in_schema: self.path_in_schema.clone(),
            root: self.root.clone(),
        }
    }
}

impl ColumnDescriptor {
    /// The leaf type of the column.
    pub closed spec fn spec_type(&self) -> ParquetType {
        self.primitive_type
    }

    /// The largest definition level of the column.
    pub closed spec fn spec_max_def_level(&self) -> i16 {
        self.max_def_level
    }

    /// The largest repetition level of the column.
    pub closed spec fn spec_max_rep_level(&self) -> i16 {
        self.max_rep_level
    }

    /// The names from the schema's root down to the column.
    pub closed spec fn spec_path_in_schema(&self) -> Seq<String> {
        self.path_in_schema@
    }

    /// The schema node under the root that the column descends from.
    pub closed spec fn spec_root(&self) -> ParquetType {
        self.root
    }

    /// Levels are never negative and the path names at least one node.
    #[verifier::type_invariant]
    pub closed spec fn wf(&self) -> bool {
        &&& self.max_def_level >= 0
        &&& self.max_rep_level >= 0
        &&& self.path_in_schema@.len() > 0
    }

    /// Describes the leaf column `primitive_type` found at `path_in_schema`
    /// under `root`.
    pub fn new(
        primitive_type: ParquetType,
        max_def_level: i16,
        max_rep_level: i16,
        path_in_schema: Vec<String>,
        root: ParquetType,
    ) -> (r: Self)
        requires
            max_def_level >= 0,
            max_rep_level >= 0,
            path_in_schema@.len() > 0,
        ensures
            r.spec_type() == primitive_type,
            r.spec_max_def_level() == max_def_level,
            r.spec_max_rep_level() == max_rep_level,
            r.spec_path_in_schema() == path_in_schema@,
            r.spec_root() == root,
    {
        Self { primitive_type, max_def_level, max_rep_level, path_in_schema, root }
    }

    /// The largest definition level a value of this column can have.
    pub fn max_def_level(&self) -> (r: i16)
        ensures
            r == self.spec_max_def_level(),
            r >= 0,
    {
        proof {
            use_type_invariant(self);
        }
        self.max_def_level
    }

    /// The largest repetition level a value of this column can have.
    pub fn max_rep_level(&self) -> (r: i16)
        ensures
            r == self.spec_max_rep_level(),
            r >= 0,
    {
        proof {
            use_type_invariant(self);
        }
        self.max_rep_level
    }

    /// The names of the nodes from the schema's root down to this column.
    pub fn path_in_schema(&self) -> (r: &[String])
        ensures
            r@ == self.spec_path_in_schema(),
            r@.len() > 0,
    {
        proof {
            use_type_invariant(self);
        }
        self.path_in_schema.as_slice()
    }

    /// The leaf type of this column.
    pub fn type_(&self) -> (r: &ParquetType)
        ensures
            *r == self.spec_type(),
    {
        &self.primitive_type
    }

    /// The schema node under the root that this column descends from.
    pub fn root(&self) -> (r: &ParquetType)
        ensures
            *r == self.spec_root(),
    {
        &self.root
    }

    /// The column's name.
    pub fn name(&self) -> (r: &str)
        ensures
            r@ == self.spec_type().spec_name(),
    {
        self.primitive_type.name()
    }
}

} // verus!

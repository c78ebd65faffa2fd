//! Column types, and what is kept of a table and its columns.

use vstd::prelude::*;

verus! {

/// The types of columns that a table can have.
#[derive(Debug, Clone, Copy, PartialEq, Eq, Structural)]
pub enum ColType {
    Int32,
    Int64,
    Float32,
    Float64,
    Boolean,
}

impl ColType {
    /// The width of a value in bytes; booleans are packed into bits and count as one byte.
    pub open spec fn width(self) -> nat {
        match self {
            ColType::Int32 => 4,
            ColType::Int64 => 8,
            ColType::Float32 => 4,
            ColType::Float64 => 8,
            ColType::Boolean => 1,
        }
    }

    /// The number of a type, counted from 1.
    pub open spec fn code(self) -> u8 {
        match self {
            ColType::Int32 => 1,
            ColType::Int64 => 2,
            ColType::Float32 => 3,
            ColType::Float64 => 4,
            ColType::Boolean => 5,
        }
    }

    /// How many bytes `rows` values take.
    pub open spec fn bytes_for(self, rows: nat) -> nat {
        match self {
            ColType::Boolean => (rows + 7) / 8,
            _ => rows * self.width(),
        }
    }

    /// The width of a value in bytes, to which a column is aligned.
    pub fn byte_width(&self) -> (r: usize)
        ensures
            r == self.width(),
    {
        match self {
            ColType::Int32 => 4,
            ColType::Int64 => 8,
            ColType::Float32 => 4,
            ColType::Float64 => 8,
            ColType::Boolean => 1,
        }
    }
}

/// The type whose number is `code`.
pub open spec fn type_of_code(code: u8) -> Option<ColType> {
    if code == 1 {
        Some(ColType::Int32)
    } else if code == 2 {
        Some(ColType::Int64)
    } else if code == 3 {
        Some(ColType::Float32)
    } else if code == 4 {
        Some(ColType::Float64)
    } else if code == 5 {
        Some(ColType::Boolean)
    } else {
        None
    }
}

/// What is kept of a column: its name and type, and where its values stand.
#[derive(Debug, Clone, PartialEq, Eq)]
pub struct ColumnMeta {
    pub name: String,
    pub dtype: ColType,
    pub seg_id: u32,
    pub offset: u32,
    pub len: u32,
}

/// What is kept of a table.
#[derive(Debug, Clone, PartialEq, Eq)]
pub struct TableMeta {
    pub row_count: usize,
    pub columns: Vec<ColumnMeta>,
}

} // verus!

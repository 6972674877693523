use vstd::prelude::*;

verus! {

/// What an identifier in the source stands for, once recognized.
#[derive(Debug, Clone, Copy, PartialEq, Eq, Structural)]
pub enum IdentType {
    DataType(DataType),
    Keyword(Keyword),
}

#[derive(Debug, Clone, Copy, PartialEq, Eq, Structural)]
pub enum DataType {
    /// 32 bit signed integer (i32)
    Int,
    CharPtr,
    Void,
}

#[derive(Debug, Clone, Copy, PartialEq, Eq, Structural)]
pub enum Keyword {
    Return,
}

} // verus!

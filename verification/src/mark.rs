//! The marks that classify a symbol.

use vstd::prelude::*;
use vstd::std_specs::convert::FromSpecImpl;

verus! {

/// The kind of a symbol, as the single byte after a tab encodes it.
#[derive(Clone, Copy, Debug, PartialEq, Eq, Structural)]
pub enum FileMark {
    /// `@`: the start of a file's block.
    File,
    /// `$`: a function definition.
    FunctionDefinition,
    /// `` ` ``: a function call.
    FunctionCall,
    /// `}`: the end of a function.
    FunctionEnd,
    /// `#`: a macro definition.
    Define,
    /// `)`: the end of a macro definition.
    DefineEnd,
    /// `~`: an include directive.
    IncludeDirective,
    /// `=`: a direct assignment, increment or decrement.
    DirectAssignmentIncDec,
    /// `;`: the end of an enum, struct or union definition.
    EnumStructUnionDefinitionEnd,
    /// `c`: a class definition.
    ClassDefinition,
    /// `e`: an enum definition.
    EnumDefinition,
    /// `g`: another global definition.
    OtherGlobalDefinition,
    /// `l`: a definition local to a function or block.
    FunctionBlockLocalDefinition,
    /// `m`: a global member of an enum, struct or union.
    EnumStructUnionMemberGlobalDefinition,
    /// `p`: a function parameter.
    FunctionParameterDefinition,
    /// `s`: a struct definition.
    StructDefinition,
    /// `t`: a typedef.
    TypedefDefinition,
    /// `u`: a union definition.
    UnionDefinition,
    /// Any byte that the table does not hold.
    Unrecognized,
}

/// The mark that a byte stands for. Every byte has one: a byte outside the
/// table is `Unrecognized`.
pub open spec fn mark_of(byte: u8) -> FileMark {
    if byte == 0x40 {
        FileMark::File
    } else if byte == 0x24 {
        FileMark::FunctionDefinition
    } else if byte == 0x60 {
        FileMark::FunctionCall
    } else if byte == 0x7d {
        FileMark::FunctionEnd
    } else if byte == 0x23 {
        FileMark::Define
    } else if byte == 0x29 {
        FileMark::DefineEnd
    } else if byte == 0x7e {
        FileMark::IncludeDirective
    } else if byte == 0x3d {
        FileMark::DirectAssignmentIncDec
    } else if byte == 0x3b {
        FileMark::EnumStructUnionDefinitionEnd
    } else if byte == 0x63 {
        FileMark::ClassDefinition
    } else if byte == 0x65 {
        FileMark::EnumDefinition
    } else if byte == 0x67 {
        FileMark::OtherGlobalDefinition
    } else if byte == 0x6c {
        FileMark::FunctionBlockLocalDefinition
    } else if byte == 0x6d {
        FileMark::EnumStructUnionMemberGlobalDefinition
    } else if byte == 0x70 {
        FileMark::FunctionParameterDefinition
    } else if byte == 0x73 {
        FileMark::StructDefinition
    } else if byte == 0x74 {
        FileMark::TypedefDefinition
    } else if byte == 0x75 {
        FileMark::UnionDefinition
    } else {
        FileMark::Unrecognized
    }
}

impl From<u8> for FileMark {
    fn from(val: u8) -> (mark: FileMark) {
        match val {
            0x40 => FileMark::File,
            0x24 => FileMark::FunctionDefinition,
            0x60 => FileMark::FunctionCall,
            0x7d => FileMark::FunctionEnd,
            0x23 => FileMark::Define,
            0x29 => FileMark::DefineEnd,
            0x7e => FileMark::IncludeDirective,
            0x3d => FileMark::DirectAssignmentIncDec,
            0x3b => FileMark::EnumStructUnionDefinitionEnd,
            0x63 => FileMark::ClassDefinition,
            0x65 => FileMark::EnumDefinition,
            0x67 => FileMark::OtherGlobalDefinition,
            0x6c => FileMark::FunctionBlockLocalDefinition,
            0x6d => FileMark::EnumStructUnionMemberGlobalDefinition,
            0x70 => FileMark::FunctionParameterDefinition,
            0x73 => FileMark::StructDefinition,
            0x74 => FileMark::TypedefDefinition,
            0x75 => FileMark::UnionDefinition,
            _ => FileMark::Unrecognized,
        }
    }
}

impl FromSpecImpl<u8> for FileMark {
    open spec fn obeys_from_spec() -> bool {
        true
    }

    open spec fn from_spec(val: u8) -> FileMark {
        mark_of(val)
    }
}

} // verus!

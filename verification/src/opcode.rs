//! The numbers of the opcodes and enumerants that linking looks at.

use vstd::prelude::*;

verus! {

pub const NOP: u32 = 0;
pub const UNDEF: u32 = 1;
pub const SOURCE_CONTINUED: u32 = 2;
pub const SOURCE: u32 = 3;
pub const SOURCE_EXTENSION: u32 = 4;
pub const NAME: u32 = 5;
pub const MEMBER_NAME: u32 = 6;
pub const STRING: u32 = 7;
pub const LINE: u32 = 8;
pub const EXTENSION: u32 = 10;
pub const EXT_INST_IMPORT: u32 = 11;
pub const MEMORY_MODEL: u32 = 14;
pub const ENTRY_POINT: u32 = 15;
pub const EXECUTION_MODE: u32 = 16;
pub const CAPABILITY: u32 = 17;
pub const TYPE_VOID: u32 = 19;
pub const TYPE_BOOL: u32 = 20;
pub const TYPE_INT: u32 = 21;
pub const TYPE_FLOAT: u32 = 22;
pub const TYPE_VECTOR: u32 = 23;
pub const TYPE_MATRIX: u32 = 24;
pub const TYPE_IMAGE: u32 = 25;
pub const TYPE_SAMPLER: u32 = 26;
pub const TYPE_SAMPLED_IMAGE: u32 = 27;
pub const TYPE_ARRAY: u32 = 28;
pub const TYPE_RUNTIME_ARRAY: u32 = 29;
pub const TYPE_STRUCT: u32 = 30;
pub const TYPE_OPAQUE: u32 = 31;
pub const TYPE_POINTER: u32 = 32;
pub const TYPE_FUNCTION: u32 = 33;
pub const TYPE_EVENT: u32 = 34;
pub const TYPE_DEVICE_EVENT: u32 = 35;
pub const TYPE_RESERVE_ID: u32 = 36;
pub const TYPE_QUEUE: u32 = 37;
pub const TYPE_PIPE: u32 = 38;
pub const TYPE_FORWARD_POINTER: u32 = 39;
pub const CONSTANT_TRUE: u32 = 41;
pub const CONSTANT: u32 = 43;
pub const CONSTANT_NULL: u32 = 46;
pub const SPEC_CONSTANT_TRUE: u32 = 48;
pub const SPEC_CONSTANT: u32 = 50;
pub const SPEC_CONSTANT_OP: u32 = 52;
pub const FUNCTION: u32 = 54;
pub const FUNCTION_PARAMETER: u32 = 55;
pub const FUNCTION_END: u32 = 56;
pub const VARIABLE: u32 = 59;
pub const DECORATE: u32 = 71;
pub const MEMBER_DECORATE: u32 = 72;
pub const DECORATION_GROUP: u32 = 73;
pub const GROUP_DECORATE: u32 = 74;
pub const GROUP_MEMBER_DECORATE: u32 = 75;
pub const LABEL: u32 = 248;
pub const BRANCH: u32 = 249;
pub const SWITCH: u32 = 251;
pub const UNREACHABLE: u32 = 255;
pub const NO_LINE: u32 = 317;
pub const TYPE_PIPE_STORAGE: u32 = 322;
pub const TYPE_NAMED_BARRIER: u32 = 327;
pub const MODULE_PROCESSED: u32 = 330;
pub const DECORATE_ID: u32 = 332;
pub const TYPE_TENSOR: u32 = 4163;
pub const TYPE_GRAPH: u32 = 4190;
pub const TERMINATE_INVOCATION: u32 = 4416;
pub const TYPE_UNTYPED_POINTER: u32 = 4417;
pub const IGNORE_INTERSECTION: u32 = 4448;
pub const TERMINATE_RAY: u32 = 4449;
pub const TYPE_COOPERATIVE_MATRIX: u32 = 4456;
pub const CONSTANT_COMPOSITE_REPLICATE: u32 = 4461;
pub const SPEC_CONSTANT_COMPOSITE_REPLICATE: u32 = 4462;
pub const TYPE_RAY_QUERY: u32 = 4472;
pub const TYPE_NODE_PAYLOAD_ARRAY: u32 = 5076;
pub const TYPE_BUFFER: u32 = 5115;
pub const MEMBER_DECORATE_ID: u32 = 5127;
pub const CONSTANT_SIZE_OF: u32 = 5129;
pub const TYPE_HIT_OBJECT_NV: u32 = 5281;
pub const TYPE_VECTOR_ID: u32 = 5288;
pub const EMIT_MESH_TASKS: u32 = 5294;
pub const TYPE_HIT_OBJECT: u32 = 5313;
pub const TYPE_ACCELERATION_STRUCTURE: u32 = 5341;
pub const TYPE_COOPERATIVE_MATRIX_NV: u32 = 5358;
pub const TYPE_TENSOR_LAYOUT: u32 = 5370;
pub const TYPE_TENSOR_VIEW: u32 = 5371;
pub const DECORATE_STRING: u32 = 5632;
pub const MEMBER_DECORATE_STRING: u32 = 5633;
pub const TYPE_BUFFER_SURFACE: u32 = 6086;
pub const TYPE_STRUCT_CONTINUED: u32 = 6090;
pub const CONSTANT_COMPOSITE_CONTINUED: u32 = 6091;
pub const SPEC_CONSTANT_COMPOSITE_CONTINUED: u32 = 6092;
pub const SPEC_CONSTANT_TARGET: u32 = 6251;
pub const SPEC_CONSTANT_ARCHITECTURE: u32 = 6252;
pub const SPEC_CONSTANT_CAPABILITIES: u32 = 6253;

/// The capability that a module with imports or exports declares.
pub const CAPABILITY_LINKAGE: u32 = 5;

/// The decoration that marks an import or an export.
pub const DECORATION_LINKAGE_ATTRIBUTES: u32 = 41;

pub const LINKAGE_EXPORT: u32 = 0;
pub const LINKAGE_IMPORT: u32 = 1;

/// The instructions of the section with strings and sources.
pub open spec fn is_string_source(op: u32) -> bool {
    op == STRING || op == SOURCE_EXTENSION || op == SOURCE || op == SOURCE_CONTINUED
}

/// The instructions of the section with names.
pub open spec fn is_name(op: u32) -> bool {
    op == NAME || op == MEMBER_NAME
}

/// The instructions of the section with annotations.
pub open spec fn is_annotation(op: u32) -> bool {
    ||| op == DECORATE
    ||| op == MEMBER_DECORATE
    ||| op == DECORATION_GROUP
    ||| op == GROUP_DECORATE
    ||| op == GROUP_MEMBER_DECORATE
    ||| op == DECORATE_ID
    ||| op == MEMBER_DECORATE_ID
    ||| op == DECORATE_STRING
    ||| op == MEMBER_DECORATE_STRING
}

/// The instructions that give a place in a source file.
pub open spec fn is_location(op: u32) -> bool {
    op == LINE || op == NO_LINE
}

/// The instructions that declare types. Those of the core are numbered in a row.
pub open spec fn is_type(op: u32) -> bool {
    ||| TYPE_VOID <= op <= TYPE_FORWARD_POINTER
    ||| op == TYPE_PIPE_STORAGE
    ||| op == TYPE_NAMED_BARRIER
    ||| op == TYPE_TENSOR
    ||| op == TYPE_GRAPH
    ||| op == TYPE_UNTYPED_POINTER
    ||| op == TYPE_COOPERATIVE_MATRIX
    ||| op == TYPE_RAY_QUERY
    ||| op == TYPE_NODE_PAYLOAD_ARRAY
    ||| op == TYPE_BUFFER
    ||| op == TYPE_HIT_OBJECT_NV
    ||| op == TYPE_VECTOR_ID
    ||| op == TYPE_HIT_OBJECT
    ||| op == TYPE_ACCELERATION_STRUCTURE
    ||| op == TYPE_COOPERATIVE_MATRIX_NV
    ||| op == TYPE_TENSOR_LAYOUT
    ||| op == TYPE_TENSOR_VIEW
    ||| op == TYPE_BUFFER_SURFACE
    ||| op == TYPE_STRUCT_CONTINUED
}

/// The instructions that declare constants. Those of the core are numbered in two
/// rows.
pub open spec fn is_constant(op: u32) -> bool {
    ||| CONSTANT_TRUE <= op <= CONSTANT_NULL
    ||| SPEC_CONSTANT_TRUE <= op <= SPEC_CONSTANT_OP
    ||| op == CONSTANT_COMPOSITE_REPLICATE
    ||| op == SPEC_CONSTANT_COMPOSITE_REPLICATE
    ||| op == CONSTANT_SIZE_OF
    ||| op == CONSTANT_COMPOSITE_CONTINUED
    ||| op == SPEC_CONSTANT_COMPOSITE_CONTINUED
    ||| op == SPEC_CONSTANT_TARGET
    ||| op == SPEC_CONSTANT_ARCHITECTURE
    ||| op == SPEC_CONSTANT_CAPABILITIES
}

/// The instructions that end a block. Those of the core are numbered in a row.
pub open spec fn is_terminator(op: u32) -> bool {
    ||| BRANCH <= op <= UNREACHABLE
    ||| op == TERMINATE_INVOCATION
    ||| op == TERMINATE_RAY
    ||| op == IGNORE_INTERSECTION
    ||| op == EMIT_MESH_TASKS
}

} // verus!

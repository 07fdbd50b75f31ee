//! Reading binaries, and sorting instructions into modules.

use rspirv::binary::Assemble;
use rspirv::dr::{Builder, Operand};
use rspirv::spirv::{AddressingModel, Capability, MemoryModel, Op};
use spirv_linker::convert::{assemble, load_instructions, operand_words, read_module, write_module};
use spirv_linker::load::can_load;
use spirv_linker::opcode;
use spirv_linker::{load, load_words, try_load, try_load_words, SpvInst, SpvModule, SpvOperand};

const MAGIC: u32 = 0x0723_0203;

fn bytes(words: &[u32]) -> Vec<u8> {
    words.iter().flat_map(|w| w.to_le_bytes()).collect()
}

fn plain(op: Op) -> SpvInst {
    SpvInst::new(op, None, None, vec![])
}

/// A header, a capability and a memory model.
fn small() -> Vec<u32> {
    vec![
        MAGIC,
        0x0001_0300,
        0x0012_3456,
        9,
        7,
        0x0002_0011,
        Capability::Shader as u32,
        0x0003_000e,
        AddressingModel::Logical as u32,
        MemoryModel::GLSL450 as u32,
    ]
}

#[test]
fn reads_a_binary() {
    let module = load_words(&small());
    let header = module.header.unwrap();
    assert_eq!(header.magic_number, MAGIC);
    assert_eq!(header.version, 0x0001_0300);
    assert_eq!(header.generator, 0x000f_0000);
    assert_eq!(header.bound, 9);
    assert_eq!(header.reserved_word, 0);
    assert_eq!(module.capabilities.len(), 1);
    assert_eq!(
        module.capabilities[0].operands,
        vec![SpvOperand::from_rspirv(Operand::Capability(
            Capability::Shader
        ))]
    );
    assert_eq!(module.memory_model.as_ref().unwrap().op, Op::MemoryModel);
    assert_eq!(load(&bytes(&small())), module);
    assert_eq!(try_load(&bytes(&small())), Some(load_words(&small())));
    assert_eq!(try_load_words(&small()), Some(load_words(&small())));
}

/// Of the version only the two middle bytes are kept.
#[test]
fn keeps_the_version() {
    let mut words = small();
    words[1] = 0xab01_05cd;
    assert_eq!(load_words(&words).header.unwrap().version, 0x0001_0500);
}

#[test]
fn refuses_what_is_no_binary() {
    assert!(try_load(&[]).is_none());
    assert!(try_load_words(&small()[..4]).is_none());
    // Another magic number, and the magic number the other way round.
    let mut words = small();
    words[0] = 1;
    assert!(try_load_words(&words).is_none());
    words[0] = MAGIC.swap_bytes();
    assert!(try_load_words(&words).is_none());
    // An unknown opcode.
    let mut words = small();
    words[5] = 0x0002_ffff;
    assert!(try_load_words(&words).is_none());
    // An instruction without words, and one that the binary cuts short.
    let mut words = small();
    words[7] = 0x0000_000e;
    assert!(try_load_words(&words).is_none());
    let mut words = small();
    words[7] = 0x0004_000e;
    assert!(try_load_words(&words).is_none());
    // A function that is not closed, and an instruction outside of functions.
    let mut words = small();
    words.extend([0x0005_0036, 1, 2, 0, 3]);
    assert!(try_load_words(&words).is_none());
    let mut words = small();
    words.push(0x0001_00fd);
    assert!(try_load_words(&words).is_none());
}

/// A string that runs past the end of the binary, and constant operations on
/// opcodes that cannot stand there.
#[test]
fn refuses_what_the_parser_cannot_read() {
    let mut words = small();
    words.extend([0x0004_0005, 1, 0x6161_6161]);
    assert!(!can_load(&bytes(&words)));
    for inner in [
        opcode::CONSTANT,
        opcode::SPEC_CONSTANT,
        opcode::SPEC_CONSTANT_OP,
        opcode::SWITCH,
    ] {
        let mut words = small();
        words.extend([0x0006_0034, 1, 2, inner, 3, 4]);
        assert!(!can_load(&bytes(&words)));
    }
    // An addition can.
    let mut words = small();
    words.extend([0x0006_0034, 1, 2, 128, 3, 4]);
    assert!(can_load(&bytes(&words)));
}

/// Bytes that make up no whole word are left alone.
#[test]
fn drops_a_rest_of_bytes() {
    let mut all = bytes(&small());
    all.extend([1, 2, 3]);
    assert_eq!(load(&all), load_words(&small()));
}

/// What is read is what `rspirv` reads, and is written as `rspirv` writes it.
#[test]
fn agrees_with_the_builder() {
    let mut b = Builder::new();
    b.capability(Capability::Shader);
    b.memory_model(AddressingModel::Logical, MemoryModel::GLSL450);
    let float = b.type_float(64, None);
    b.constant_bit64(float, 0x4000_0000_0000_0001);
    b.name(float, "double");
    let module = b.module();
    let words = module.assemble();
    let own = load_words(&words);
    assert_eq!(
        own.types_global_values[1].operands,
        vec![SpvOperand::LiteralBit64(0x4000_0000_0000_0001)]
    );
    assert_eq!(assemble(&own), words);
    assert_eq!(write_module(&own).assemble(), words);
    assert_eq!(read_module(module), own);
}

#[test]
fn words_of_operands() {
    assert_eq!(operand_words(&SpvOperand::IdRef(7)), vec![7]);
    assert_eq!(operand_words(&SpvOperand::IdScope(8)), vec![8]);
    assert_eq!(operand_words(&SpvOperand::IdMemorySemantics(9)), vec![9]);
    assert_eq!(operand_words(&SpvOperand::LiteralBit32(10)), vec![10]);
    assert_eq!(
        operand_words(&SpvOperand::LiteralBit64(0x0000_0002_0000_0003)),
        vec![3, 2]
    );
    assert_eq!(
        operand_words(&SpvOperand::LiteralString("hello".to_string())),
        vec![0x6c6c_6568, 0x0000_006f]
    );
    assert_eq!(
        operand_words(&SpvOperand::from_rspirv(Operand::Capability(
            Capability::Linkage
        ))),
        vec![5]
    );
}

/// The section that a single instruction ends up in, if there is one.
fn section_of(op: Op) -> Option<&'static str> {
    let m = load_instructions(&vec![plain(op)]);
    let sections = [
        ("capabilities", m.capabilities.len()),
        ("extensions", m.extensions.len()),
        ("ext_inst_imports", m.ext_inst_imports.len()),
        ("memory_model", m.memory_model.iter().count()),
        ("entry_points", m.entry_points.len()),
        ("execution_modes", m.execution_modes.len()),
        ("debug_string_source", m.debug_string_source.len()),
        ("debug_names", m.debug_names.len()),
        ("debug_module_processed", m.debug_module_processed.len()),
        ("annotations", m.annotations.len()),
        ("types_global_values", m.types_global_values.len()),
    ];
    let mut found = sections.iter().filter(|s| s.1 > 0);
    let first = found.next().map(|s| s.0);
    assert!(found.next().is_none());
    first
}

/// Each opcode goes to the section that the numbers in `opcode` say.
#[test]
fn opcodes_go_to_their_sections() {
    let core_types = opcode::TYPE_VOID..=opcode::TYPE_FORWARD_POINTER;
    let core_constants = opcode::CONSTANT_TRUE..=opcode::CONSTANT_NULL;
    let core_spec_constants = opcode::SPEC_CONSTANT_TRUE..=opcode::SPEC_CONSTANT_OP;
    let declarations = [
        opcode::UNDEF,
        opcode::LINE,
        opcode::NO_LINE,
        opcode::VARIABLE,
        opcode::TYPE_PIPE_STORAGE,
        opcode::TYPE_NAMED_BARRIER,
        opcode::TYPE_TENSOR,
        opcode::TYPE_GRAPH,
        opcode::TYPE_UNTYPED_POINTER,
        opcode::TYPE_COOPERATIVE_MATRIX,
        opcode::TYPE_RAY_QUERY,
        opcode::TYPE_NODE_PAYLOAD_ARRAY,
        opcode::TYPE_BUFFER,
        opcode::TYPE_HIT_OBJECT_NV,
        opcode::TYPE_VECTOR_ID,
        opcode::TYPE_HIT_OBJECT,
        opcode::TYPE_ACCELERATION_STRUCTURE,
        opcode::TYPE_COOPERATIVE_MATRIX_NV,
        opcode::TYPE_TENSOR_LAYOUT,
        opcode::TYPE_TENSOR_VIEW,
        opcode::TYPE_BUFFER_SURFACE,
        opcode::TYPE_STRUCT_CONTINUED,
        opcode::CONSTANT_COMPOSITE_REPLICATE,
        opcode::SPEC_CONSTANT_COMPOSITE_REPLICATE,
        opcode::CONSTANT_SIZE_OF,
        opcode::CONSTANT_COMPOSITE_CONTINUED,
        opcode::SPEC_CONSTANT_COMPOSITE_CONTINUED,
        opcode::SPEC_CONSTANT_TARGET,
        opcode::SPEC_CONSTANT_ARCHITECTURE,
        opcode::SPEC_CONSTANT_CAPABILITIES,
    ];
    let annotations = [
        opcode::DECORATE,
        opcode::MEMBER_DECORATE,
        opcode::DECORATION_GROUP,
        opcode::GROUP_DECORATE,
        opcode::GROUP_MEMBER_DECORATE,
        opcode::DECORATE_ID,
        opcode::MEMBER_DECORATE_ID,
        opcode::DECORATE_STRING,
        opcode::MEMBER_DECORATE_STRING,
    ];
    let sources = [
        opcode::STRING,
        opcode::SOURCE,
        opcode::SOURCE_EXTENSION,
        opcode::SOURCE_CONTINUED,
    ];
    for number in 0..7000_u32 {
        let Some(op) = Op::from_u32(number) else {
            continue;
        };
        let expected = if number == opcode::CAPABILITY {
            Some("capabilities")
        } else if number == opcode::EXTENSION {
            Some("extensions")
        } else if number == opcode::EXT_INST_IMPORT {
            Some("ext_inst_imports")
        } else if number == opcode::MEMORY_MODEL {
            Some("memory_model")
        } else if number == opcode::ENTRY_POINT {
            Some("entry_points")
        } else if number == opcode::EXECUTION_MODE {
            Some("execution_modes")
        } else if sources.contains(&number) {
            Some("debug_string_source")
        } else if number == opcode::NAME || number == opcode::MEMBER_NAME {
            Some("debug_names")
        } else if number == opcode::MODULE_PROCESSED {
            Some("debug_module_processed")
        } else if annotations.contains(&number) {
            Some("annotations")
        } else if core_types.contains(&number)
            || core_constants.contains(&number)
            || core_spec_constants.contains(&number)
            || declarations.contains(&number)
        {
            Some("types_global_values")
        } else {
            None
        };
        assert_eq!(section_of(op), expected, "opcode {number}");
    }
}

/// Inside a function, the opcodes that end a block end it, and others do not.
#[test]
fn terminators_end_blocks() {
    let others = [
        opcode::TERMINATE_INVOCATION,
        opcode::TERMINATE_RAY,
        opcode::IGNORE_INTERSECTION,
        opcode::EMIT_MESH_TASKS,
    ];
    for number in 0..7000_u32 {
        let Some(op) = Op::from_u32(number) else {
            continue;
        };
        let module = load_instructions(&vec![
            plain(Op::Function),
            plain(Op::FunctionParameter),
            plain(Op::Label),
            plain(op),
            plain(Op::FunctionEnd),
        ]);
        let ends = (opcode::BRANCH..=opcode::UNREACHABLE).contains(&number)
            || others.contains(&number);
        assert_eq!(module.functions.len(), if ends { 1 } else { 0 }, "opcode {number}");
        if ends {
            let f = &module.functions[0];
            assert_eq!(f.parameters.len(), 1);
            assert_eq!(f.blocks[0].instructions, vec![plain(op)]);
            assert!(f.end.is_some());
        }
    }
}

/// What has no place is left out: nested functions, labels and parameters outside
/// of functions, an end that closes nothing, and blanked-out instructions.
#[test]
fn leaves_out_what_has_no_place() {
    let module = load_instructions(&vec![
        plain(Op::Nop),
        plain(Op::Label),
        plain(Op::FunctionParameter),
        plain(Op::FunctionEnd),
        plain(Op::Return),
        plain(Op::Function),
        plain(Op::Function),
        plain(Op::Label),
        plain(Op::Label),
        plain(Op::FunctionEnd),
        plain(Op::Variable),
        plain(Op::Line),
        plain(Op::Undef),
        plain(Op::TypeVoid),
        plain(Op::Return),
        plain(Op::Line),
        plain(Op::FunctionEnd),
    ]);
    assert_eq!(module.functions.len(), 1);
    let f = &module.functions[0];
    assert_eq!(f.blocks.len(), 1);
    assert_eq!(
        f.blocks[0].instructions,
        vec![
            plain(Op::Variable),
            plain(Op::Line),
            plain(Op::Undef),
            plain(Op::Return)
        ]
    );
    assert_eq!(
        module.types_global_values,
        vec![plain(Op::TypeVoid), plain(Op::Line)]
    );
    assert_eq!(module.all_insts().len(), 2 + 7);
}

/// Loading the instructions of a loaded module gives the module back.
#[test]
fn loading_twice_changes_nothing() {
    let once = load_instructions(&vec![
        plain(Op::TypeVoid),
        plain(Op::Function),
        plain(Op::Name),
        plain(Op::Label),
        plain(Op::Decorate),
        plain(Op::Kill),
        plain(Op::Capability),
        plain(Op::FunctionEnd),
        plain(Op::MemoryModel),
    ]);
    assert_eq!(load_instructions(&once.all_insts()), once);
    assert_eq!(
        once.all_insts().iter().map(|i| i.op).collect::<Vec<_>>(),
        vec![
            Op::Capability,
            Op::MemoryModel,
            Op::Name,
            Op::Decorate,
            Op::TypeVoid,
            Op::Function,
            Op::Label,
            Op::Kill,
            Op::FunctionEnd
        ]
    );
    assert_eq!(load_instructions(&vec![]), SpvModule::new());
}

//! What is declared or said more than once.

use rspirv::dr::Operand;
use rspirv::spirv::{Capability, Decoration, ExecutionModel, FunctionControl, Op, StorageClass};
use spirv_linker::dedup::{
    dedup_entry_point_interfaces, remove_duplicate_annotations, remove_duplicate_capablities,
    remove_duplicate_ext_inst_imports,
};
use spirv_linker::types::remove_duplicate_types;
use spirv_linker::{SpvBlock, SpvFunction, SpvInst, SpvModule, SpvOperand};

fn inst(op: Op, ty: Option<u32>, id: Option<u32>, operands: Vec<Operand>) -> SpvInst {
    let operands = operands.into_iter().map(SpvOperand::from_rspirv).collect();
    SpvInst::new(op, ty, id, operands)
}

fn op_type_int(result_id: u32, width: u32, signed: u32) -> SpvInst {
    inst(
        Op::TypeInt,
        None,
        Some(result_id),
        vec![Operand::LiteralBit32(width), Operand::LiteralBit32(signed)],
    )
}

/// Three declarations of one type become one.
#[test]
fn collapses_more_than_two_duplicate_types() {
    let mut module = SpvModule::new();
    module.types_global_values.push(op_type_int(10, 32, 0));
    module.types_global_values.push(op_type_int(20, 32, 0));
    module.types_global_values.push(op_type_int(30, 32, 0));

    let linked = remove_duplicate_types(module);

    let int_count = linked
        .types_global_values
        .iter()
        .filter(|i| i.op == Op::TypeInt)
        .count();
    assert_eq!(
        int_count, 1,
        "expected the three duplicate OpTypeInt to collapse to one, got {int_count}",
    );
}

/// Constants with the same operands but different types stay apart.
#[test]
fn keeps_constants_with_same_value_but_different_types() {
    let float_type_id = 1_u32;
    let uint_type_id = 2_u32;
    let float_zero_id = 10_u32;
    let uint_zero_id = 20_u32;

    let mut module = SpvModule::new();
    module.types_global_values.push(inst(
        Op::TypeFloat,
        None,
        Some(float_type_id),
        vec![Operand::LiteralBit32(32)],
    ));
    module.types_global_values.push(inst(
        Op::TypeInt,
        None,
        Some(uint_type_id),
        vec![Operand::LiteralBit32(32), Operand::LiteralBit32(0)],
    ));
    module.types_global_values.push(inst(
        Op::Constant,
        Some(float_type_id),
        Some(float_zero_id),
        vec![Operand::LiteralBit32(0)],
    ));
    module.types_global_values.push(inst(
        Op::Constant,
        Some(uint_type_id),
        Some(uint_zero_id),
        vec![Operand::LiteralBit32(0)],
    ));

    let linked = remove_duplicate_types(module);

    let constants: Vec<&SpvInst> = linked
        .types_global_values
        .iter()
        .filter(|i| i.op == Op::Constant)
        .collect();
    assert_eq!(
        constants.len(),
        2,
        "constants with same operands but different result-types must not merge"
    );
    assert!(
        constants
            .iter()
            .any(|c| c.result_type == Some(float_type_id)),
        "float zero constant got dropped"
    );
    assert!(
        constants
            .iter()
            .any(|c| c.result_type == Some(uint_type_id)),
        "uint zero constant got dropped"
    );
}

/// An interface variable that an entry point names twice is named once.
#[test]
fn drops_duplicate_interface_ids() {
    let mut module = SpvModule::new();
    module.entry_points.push(inst(
        Op::EntryPoint,
        None,
        None,
        vec![
            Operand::ExecutionModel(ExecutionModel::GLCompute),
            Operand::IdRef(1),
            Operand::LiteralString("main".to_owned()),
            Operand::IdRef(5),
            Operand::IdRef(7),
            Operand::IdRef(5),
        ],
    ));

    dedup_entry_point_interfaces(&mut module);

    let interface: Vec<u32> = module.entry_points[0]
        .operands
        .iter()
        .skip(3)
        .filter_map(|op| {
            if let SpvOperand::IdRef(id) = op {
                Some(*id)
            } else {
                None
            }
        })
        .collect();
    assert_eq!(interface, vec![5, 7]);
}

/// Of annotations that are the same, one stays.
#[test]
fn collapses_identical_op_decorate_pairs() {
    let mut module = SpvModule::new();
    let target = 5_u32;
    let make_decorate_descriptor_set = || {
        inst(
            Op::Decorate,
            None,
            None,
            vec![
                Operand::IdRef(target),
                Operand::Decoration(Decoration::DescriptorSet),
                Operand::LiteralBit32(0),
            ],
        )
    };
    let make_decorate_binding = || {
        inst(
            Op::Decorate,
            None,
            None,
            vec![
                Operand::IdRef(target),
                Operand::Decoration(Decoration::Binding),
                Operand::LiteralBit32(7),
            ],
        )
    };
    module.annotations.push(make_decorate_descriptor_set());
    module.annotations.push(make_decorate_binding());
    module.annotations.push(make_decorate_descriptor_set());
    module.annotations.push(make_decorate_binding());

    // A decoration on a different id stays.
    module.annotations.push(inst(
        Op::Decorate,
        None,
        None,
        vec![
            Operand::IdRef(9),
            Operand::Decoration(Decoration::DescriptorSet),
            Operand::LiteralBit32(0),
        ],
    ));

    remove_duplicate_annotations(&mut module);

    assert_eq!(
        module.annotations.len(),
        3,
        "expected 4 duplicates to collapse to 2, plus the unrelated one to remain"
    );
    let with = |decoration: Decoration| {
        module
            .annotations
            .iter()
            .filter(|i| {
                i.op == Op::Decorate
                    && i.operands.first() == Some(&SpvOperand::IdRef(target))
                    && i.operands.get(1)
                        == Some(&SpvOperand::from_rspirv(Operand::Decoration(decoration)))
            })
            .count()
    };
    assert_eq!(with(Decoration::DescriptorSet), 1);
    assert_eq!(with(Decoration::Binding), 1);
}

/// Annotations that define different ids are not the same, though they have the same
/// operands.
#[test]
fn keeps_decoration_groups_with_different_ids() {
    let group = |id: u32| inst(Op::DecorationGroup, None, Some(id), vec![]);
    let mut module = SpvModule::new();
    module.annotations = vec![group(1), group(2), group(1)];
    remove_duplicate_annotations(&mut module);
    assert_eq!(module.annotations, vec![group(1), group(2)]);
}

/// Of two imports of one instruction set the first stays, and calls into the second
/// become calls into the first.
#[test]
fn rewrites_op_ext_inst_set_id_when_dropping_duplicate() {
    let kept_id = 5_u32;
    let dropped_id = 47_u32;

    let import_glsl_first = inst(
        Op::ExtInstImport,
        None,
        Some(kept_id),
        vec![Operand::LiteralString("GLSL.std.450".to_owned())],
    );
    let import_glsl_second = inst(
        Op::ExtInstImport,
        None,
        Some(dropped_id),
        vec![Operand::LiteralString("GLSL.std.450".to_owned())],
    );

    let result_type = 100_u32;
    let result_id = 101_u32;
    let arg_id = 102_u32;
    let glsl_sqrt = 31_u32;

    let ext_inst_call = inst(
        Op::ExtInst,
        Some(result_type),
        Some(result_id),
        vec![
            Operand::IdRef(dropped_id),
            Operand::LiteralBit32(glsl_sqrt),
            Operand::IdRef(arg_id),
        ],
    );

    let block = SpvBlock {
        label: Some(inst(Op::Label, None, Some(200), vec![])),
        instructions: vec![ext_inst_call],
    };
    let func_def = inst(
        Op::Function,
        Some(result_type),
        Some(300),
        vec![
            Operand::FunctionControl(FunctionControl::NONE),
            Operand::IdRef(result_type),
        ],
    );
    let func_end = inst(Op::FunctionEnd, None, None, vec![]);

    let func = SpvFunction {
        def: Some(func_def),
        end: Some(func_end),
        parameters: vec![],
        blocks: vec![block],
    };

    let mut module = SpvModule::new();
    module.ext_inst_imports.push(import_glsl_first);
    module.ext_inst_imports.push(import_glsl_second);
    module.functions.push(func);

    remove_duplicate_ext_inst_imports(&mut module);

    // Only the first import survives.
    assert_eq!(module.ext_inst_imports.len(), 1);
    assert_eq!(module.ext_inst_imports[0].result_id, Some(kept_id));

    let call = &module.functions[0].blocks[0].instructions[0];
    assert_eq!(call.op, Op::ExtInst);
    match &call.operands[0] {
        SpvOperand::IdRef(id) => assert_eq!(
            *id, kept_id,
            "OpExtInst set-id should have been rewritten from \
             dropped {dropped_id} to kept {kept_id}, got {id}"
        ),
        other => panic!("expected IdRef, got {other:?}"),
    }
}

/// Capabilities are told apart by their operand; what is no capability stays.
#[test]
fn keeps_first_of_equal_capabilities() {
    let capability = |c: Capability| inst(Op::Capability, None, None, vec![Operand::Capability(c)]);
    let mut module = SpvModule::new();
    module.capabilities.push(capability(Capability::Shader));
    module.capabilities.push(capability(Capability::Linkage));
    module.capabilities.push(capability(Capability::Shader));
    module
        .capabilities
        .push(inst(Op::Capability, None, None, vec![Operand::LiteralBit32(1)]));
    module
        .capabilities
        .push(inst(Op::Capability, None, None, vec![Operand::LiteralBit32(1)]));

    remove_duplicate_capablities(&mut module);

    assert_eq!(
        module.capabilities,
        vec![
            capability(Capability::Shader),
            capability(Capability::Linkage),
            inst(Op::Capability, None, None, vec![Operand::LiteralBit32(1)]),
            inst(Op::Capability, None, None, vec![Operand::LiteralBit32(1)]),
        ]
    );
}

/// An import without a name, or without an id, is not compared with others.
#[test]
fn keeps_imports_that_cannot_be_compared() {
    let nameless = || inst(Op::ExtInstImport, None, Some(3), vec![]);
    let without_id = || {
        inst(
            Op::ExtInstImport,
            None,
            None,
            vec![Operand::LiteralString("GLSL.std.450".to_owned())],
        )
    };
    let mut module = SpvModule::new();
    module.ext_inst_imports.push(nameless());
    module.ext_inst_imports.push(without_id());
    module.ext_inst_imports.push(nameless());
    module.ext_inst_imports.push(without_id());

    remove_duplicate_ext_inst_imports(&mut module);

    assert_eq!(
        module.ext_inst_imports,
        vec![nameless(), without_id(), nameless(), without_id()]
    );
}

/// Merging two types can make two others the same.
#[test]
fn merges_types_that_become_the_same() {
    let pointer = |id: u32, to: u32| {
        inst(
            Op::TypePointer,
            None,
            Some(id),
            vec![
                Operand::StorageClass(StorageClass::Private),
                Operand::IdRef(to),
            ],
        )
    };
    let name = |id: u32, text: &str| {
        inst(
            Op::Name,
            None,
            None,
            vec![Operand::IdRef(id), Operand::LiteralString(text.to_owned())],
        )
    };
    let mut module = SpvModule::new();
    module.debug_names.push(name(10, "kept"));
    module.debug_names.push(name(20, "moved"));
    module.types_global_values.push(op_type_int(10, 32, 0));
    module.types_global_values.push(pointer(11, 10));
    module.types_global_values.push(op_type_int(20, 32, 0));
    module.types_global_values.push(pointer(21, 20));
    module
        .types_global_values
        .push(inst(Op::Variable, Some(21), Some(22), vec![Operand::StorageClass(StorageClass::Private)]));

    let merged = remove_duplicate_types(module);

    assert_eq!(
        merged.types_global_values,
        vec![
            op_type_int(10, 32, 0),
            pointer(11, 10),
            inst(
                Op::Variable,
                Some(11),
                Some(22),
                vec![Operand::StorageClass(StorageClass::Private)]
            ),
        ]
    );
    assert_eq!(merged.debug_names, vec![name(10, "kept"), name(10, "moved")]);
}

/// Declarations without an id are left alone.
#[test]
fn keeps_declarations_without_an_id() {
    let forward = || {
        inst(
            Op::TypeForwardPointer,
            None,
            None,
            vec![
                Operand::IdRef(4),
                Operand::StorageClass(StorageClass::Function),
            ],
        )
    };
    let mut module = SpvModule::new();
    module.types_global_values.push(forward());
    module.types_global_values.push(forward());

    let merged = remove_duplicate_types(module);

    assert_eq!(merged.types_global_values, vec![forward(), forward()]);
}

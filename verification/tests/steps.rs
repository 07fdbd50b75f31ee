//! The steps of linking, one by one.

use rspirv::dr::Operand;
use rspirv::spirv::{
    AccessQualifier, Capability, Decoration, Dim, FPEncoding, FunctionControl, ImageFormat, LinkageType, Op,
    StorageClass,
};
use spirv_linker::defs::DefAnalyzer;
use spirv_linker::globals::{arrange_globals, order_globals, sort_globals};
use spirv_linker::linkage::{
    can_kill_linkage, have_named_parameters, import_kill_annotations_and_debug,
    kill_linkage_instructions,
};
use spirv_linker::model::{Duplicate, EnumerantKind};
use spirv_linker::rename::{
    can_compact_ids, can_shift, compact_ids, replace_all_uses_with, replace_pairs, shift_ids,
};
use spirv_linker::signature::{
    read_type, same_opt_type, same_outline, trans_aggregate_type, trans_scalar_type, AggregateType, ScalarType,
};
use spirv_linker::sweep::{kill_annotations_and_debug, kill_with_id};
use spirv_linker::symbols::{
    cleanup_type, find_import_export_pairs, find_partial_pairs, inst_fully_eq, read_symbols, ImportExportPair,
    LinkInfo, LinkSymbol,
};
use spirv_linker::types::{merge_types, remove_duplicate_types, DefUseAnalyzer};
use spirv_linker::{LinkerError, Options, SpvFunction, SpvInst, SpvModule, SpvOperand};

fn inst(op: Op, ty: Option<u32>, id: Option<u32>, operands: Vec<Operand>) -> SpvInst {
    let operands = operands.into_iter().map(SpvOperand::from_rspirv).collect();
    SpvInst::new(op, ty, id, operands)
}

fn name(id: u32, text: &str) -> SpvInst {
    inst(
        Op::Name,
        None,
        None,
        vec![Operand::IdRef(id), Operand::LiteralString(text.to_string())],
    )
}

fn int_type(id: u32, width: u32) -> SpvInst {
    inst(
        Op::TypeInt,
        None,
        Some(id),
        vec![Operand::LiteralBit32(width), Operand::LiteralBit32(0)],
    )
}

fn pointer(id: u32, to: u32) -> SpvInst {
    inst(
        Op::TypePointer,
        None,
        Some(id),
        vec![
            Operand::StorageClass(StorageClass::Private),
            Operand::IdRef(to),
        ],
    )
}

fn structure(id: u32, members: &[u32]) -> SpvInst {
    let operands = members.iter().map(|m| Operand::IdRef(*m)).collect();
    inst(Op::TypeStruct, None, Some(id), operands)
}

fn with_types(types: Vec<SpvInst>) -> SpvModule {
    let mut module = SpvModule::new();
    module.types_global_values = types;
    module
}

// Ids.

#[test]
fn shifting_adds_to_every_id() {
    let mut module = with_types(vec![inst(
        Op::Constant,
        Some(3),
        Some(4),
        vec![
            Operand::IdRef(1),
            Operand::IdScope(2),
            Operand::IdMemorySemantics(5),
            Operand::LiteralBit32(6),
        ],
    )]);
    assert!(can_shift(&module, 10));
    shift_ids(&mut module, 10);
    assert_eq!(
        module.types_global_values,
        vec![inst(
            Op::Constant,
            Some(13),
            Some(14),
            vec![
                Operand::IdRef(11),
                Operand::IdScope(12),
                Operand::IdMemorySemantics(15),
                Operand::LiteralBit32(6),
            ],
        )]
    );
    assert!(can_shift(&module, u32::MAX - 15));
    assert!(!can_shift(&module, u32::MAX - 14));
}

#[test]
fn shifting_twice_adds_the_sum() {
    let build = || with_types(vec![int_type(1, 32), pointer(2, 1)]);
    let mut twice = build();
    shift_ids(&mut twice, 3);
    shift_ids(&mut twice, 4);
    let mut once = build();
    shift_ids(&mut once, 7);
    assert_eq!(twice, once);
    assert_eq!(once.types_global_values, vec![int_type(8, 32), pointer(9, 8)]);
}

#[test]
fn replacing_leaves_definitions() {
    let mut module = with_types(vec![
        int_type(1, 32),
        int_type(2, 32),
        inst(Op::Constant, Some(2), Some(3), vec![Operand::IdRef(2)]),
    ]);
    replace_all_uses_with(&mut module, 2, 1);
    assert_eq!(
        module.types_global_values,
        vec![
            int_type(1, 32),
            int_type(2, 32),
            inst(Op::Constant, Some(1), Some(3), vec![Operand::IdRef(1)]),
        ]
    );
    // Pair after pair.
    replace_pairs(&mut module, &vec![(1, 5), (5, 6)]);
    assert_eq!(
        module.types_global_values[2],
        inst(Op::Constant, Some(6), Some(3), vec![Operand::IdRef(6)])
    );
}

#[test]
fn ids_are_renumbered_as_they_occur() {
    let mut module = with_types(vec![
        int_type(70, 32),
        inst(
            Op::Constant,
            Some(70),
            Some(90),
            vec![Operand::LiteralBit32(70)],
        ),
        structure(20, &[70, 50, 90]),
    ]);
    assert!(can_compact_ids(&module));
    assert_eq!(compact_ids(&mut module), 5);
    let expected = vec![
        int_type(1, 32),
        inst(
            Op::Constant,
            Some(1),
            Some(2),
            vec![Operand::LiteralBit32(70)],
        ),
        structure(3, &[1, 4, 2]),
    ];
    assert_eq!(module.types_global_values, expected);
    // A second time changes nothing.
    assert_eq!(compact_ids(&mut module), 5);
    assert_eq!(module.types_global_values, expected);
    assert_eq!(compact_ids(&mut SpvModule::new()), 1);
}

// Removing instructions.

/// The last instruction takes the place of one that is removed.
#[test]
fn removing_swaps_in_the_last() {
    let mut names = vec![name(1, "a"), name(2, "b"), name(3, "c"), name(1, "d"), name(4, "e")];
    names.push(inst(Op::Name, None, None, vec![]));
    kill_with_id(&mut names, 1);
    assert_eq!(
        names,
        vec![
            name(4, "e"),
            name(2, "b"),
            name(3, "c"),
            inst(Op::Name, None, None, vec![]),
        ]
    );
    let mut same = vec![name(1, "a"), name(1, "b")];
    kill_with_id(&mut same, 1);
    assert_eq!(same, vec![]);
    kill_with_id(&mut same, 1);
    assert_eq!(same, vec![]);
}

#[test]
fn nothing_is_said_about_a_removed_id() {
    let group = |targets: &[u32]| {
        let operands = targets.iter().map(|t| Operand::IdRef(*t)).collect();
        inst(Op::GroupDecorate, None, None, operands)
    };
    let mut module = SpvModule::new();
    module.annotations.push(group(&[9, 5, 6, 5]));
    module.annotations.push(group(&[5, 6]));
    module.debug_names.push(name(5, "five"));
    module.debug_names.push(name(6, "six"));
    module
        .debug_string_source
        .push(inst(Op::Source, None, None, vec![Operand::IdRef(5)]));
    module
        .debug_module_processed
        .push(inst(Op::ModuleProcessed, None, None, vec![Operand::IdScope(5)]));
    kill_annotations_and_debug(&mut module, 5);
    assert_eq!(module.annotations, vec![group(&[9, 6])]);
    assert_eq!(module.debug_names, vec![name(6, "six")]);
    assert_eq!(module.debug_string_source, vec![]);
    assert_eq!(module.debug_module_processed, vec![]);
}

// Definitions.

#[test]
fn last_definition_counts() {
    let module = with_types(vec![int_type(1, 32), int_type(1, 64), int_type(2, 16)]);
    let defs = DefAnalyzer::new(&module);
    assert_eq!(defs.def(1), Some(&int_type(1, 64)));
    assert_eq!(defs.def(2), Some(&int_type(2, 16)));
    assert_eq!(defs.def(3), None);
    assert_eq!(defs.count(), 2);
    let mut uses = DefUseAnalyzer::new(vec![int_type(1, 32), int_type(1, 64), structure(2, &[1, 1])]);
    assert_eq!(uses.def_idx(1), 1);
    assert_eq!(uses.def(2).1, &structure(2, &[1, 1]));
    uses.replace_each_use(1, 7);
    assert_eq!(uses.instructions[2], structure(2, &[7, 7]));
}

/// An instruction is listed once for each operand that refers to an id.
#[test]
fn uses_are_listed_in_order() {
    let uses = DefUseAnalyzer::new(vec![
        structure(2, &[1, 3, 1]),
        variable(4, 1),
        structure(5, &[1]),
        variable(6, 1),
    ]);
    assert_eq!(uses.use_ids.get(&1), Some(&vec![0, 0, 2]));
    assert_eq!(uses.use_ids.get(&3), Some(&vec![0]));
    assert_eq!(uses.use_ids.get(&4), None);
    assert_eq!(uses.use_result_type_ids.get(&1), Some(&vec![1, 3]));
    assert_eq!(uses.use_result_type_ids.get(&3), None);
}

// The order of declarations.

/// Ids come in rounds, each of them in ascending order.
#[test]
fn declarations_are_ordered_in_rounds() {
    let types = vec![
        structure(9, &[4, 7]),
        pointer(7, 5),
        int_type(5, 32),
        pointer(4, 5),
        inst(
            Op::TypeForwardPointer,
            None,
            None,
            vec![Operand::LiteralBit32(0)],
        ),
        int_type(3, 64),
        pointer(8, 3),
    ];
    assert_eq!(order_globals(&types), Some(vec![3, 5, 4, 7, 8, 9]));
    let mut module = with_types(types);
    sort_globals(&mut module);
    assert_eq!(
        module.types_global_values,
        vec![
            inst(
                Op::TypeForwardPointer,
                None,
                None,
                vec![Operand::LiteralBit32(0)],
            ),
            int_type(3, 64),
            int_type(5, 32),
            pointer(4, 5),
            pointer(7, 5),
            pointer(8, 3),
            structure(9, &[4, 7]),
        ]
    );
}

/// A declaration that takes part in no dependency would get lost.
#[test]
fn order_stays_where_a_declaration_would_be_lost() {
    let types = vec![pointer(2, 1), int_type(1, 32), int_type(3, 64)];
    let mut module = with_types(vec![pointer(2, 1), int_type(1, 32), int_type(3, 64)]);
    assert_eq!(arrange_globals(&module).unwrap().len(), 2);
    assert_eq!(sort_globals(&mut module), Some((3, 2)));
    assert_eq!(module.types_global_values, types);
}

#[test]
fn circles_and_undefined_ids_cannot_be_arranged() {
    let circle = with_types(vec![pointer(1, 2), structure(2, &[1])]);
    assert_eq!(order_globals(&circle.types_global_values), None);
    assert!(arrange_globals(&circle).is_none());
    let itself = with_types(vec![structure(2, &[2])]);
    assert!(arrange_globals(&itself).is_none());
    let undefined = with_types(vec![pointer(1, 2)]);
    assert_eq!(
        order_globals(&undefined.types_global_values),
        Some(vec![2, 1])
    );
    assert!(arrange_globals(&undefined).is_none());
    assert_eq!(order_globals(&vec![]), Some(vec![]));
}

// Types.

#[test]
fn scalar_types() {
    let scalar = |op: Op| trans_scalar_type(&inst(op, None, Some(1), vec![]));
    assert!(matches!(scalar(Op::TypeVoid), Some(Some(ScalarType::Void))));
    assert!(matches!(scalar(Op::TypeBool), Some(Some(ScalarType::Bool))));
    assert!(matches!(scalar(Op::TypeEvent), Some(Some(ScalarType::Event))));
    assert!(matches!(
        scalar(Op::TypeDeviceEvent),
        Some(Some(ScalarType::DeviceEvent))
    ));
    assert!(matches!(
        scalar(Op::TypeReserveId),
        Some(Some(ScalarType::ReserveId))
    ));
    assert!(matches!(scalar(Op::TypeQueue), Some(Some(ScalarType::Queue))));
    assert!(matches!(scalar(Op::TypePipe), Some(Some(ScalarType::Pipe))));
    assert!(matches!(
        scalar(Op::TypePipeStorage),
        Some(Some(ScalarType::PipeStorage))
    ));
    assert!(matches!(
        scalar(Op::TypeNamedBarrier),
        Some(Some(ScalarType::NamedBarrier))
    ));
    assert!(matches!(
        scalar(Op::TypeSampler),
        Some(Some(ScalarType::Sampler))
    ));
    // No type at all, and a type without its operands.
    assert!(matches!(scalar(Op::Nop), Some(None)));
    assert!(scalar(Op::TypeInt).is_none());
    assert!(scalar(Op::TypeFloat).is_none());
    assert!(scalar(Op::TypeOpaque).is_none());
    assert!(scalar(Op::TypeForwardPointer).is_none());
    let signed = inst(
        Op::TypeInt,
        None,
        Some(1),
        vec![Operand::LiteralBit32(16), Operand::LiteralBit32(1)],
    );
    assert!(matches!(
        trans_scalar_type(&signed),
        Some(Some(ScalarType::Int {
            width: 16,
            signed: true
        }))
    ));
    let float = inst(Op::TypeFloat, None, Some(1), vec![Operand::LiteralBit32(64)]);
    assert!(matches!(
        trans_scalar_type(&float),
        Some(Some(ScalarType::Float { width: 64 }))
    ));
    let opaque = inst(
        Op::TypeOpaque,
        None,
        Some(1),
        vec![Operand::LiteralString("x".to_string())],
    );
    match trans_scalar_type(&opaque) {
        Some(Some(ScalarType::Opaque { name })) => assert_eq!(name, "x"),
        other => panic!("unexpected {other:?}"),
    }
    // A forward pointer names the pointer before the storage class.
    for operands in [
        vec![
            Operand::IdRef(4),
            Operand::StorageClass(StorageClass::Workgroup),
        ],
        vec![Operand::StorageClass(StorageClass::Workgroup)],
    ] {
        match trans_scalar_type(&inst(Op::TypeForwardPointer, None, None, operands)) {
            Some(Some(ScalarType::ForwardPointer { storage_class })) => {
                assert_eq!(storage_class, StorageClass::Workgroup as u32)
            }
            other => panic!("unexpected {other:?}"),
        }
    }
}

#[test]
fn types_are_compared_as_trees() {
    let module = with_types(vec![
        int_type(1, 32),
        int_type(2, 32),
        pointer(3, 1),
        pointer(4, 2),
        structure(5, &[3, 1]),
        structure(6, &[4, 2]),
        structure(7, &[4]),
        inst(Op::TypeFunction, None, Some(8), vec![Operand::IdRef(5)]),
        inst(
            Op::TypeVector,
            None,
            Some(9),
            vec![Operand::IdRef(1), Operand::LiteralBit32(4)],
        ),
        inst(
            Op::TypeVector,
            None,
            Some(10),
            vec![Operand::IdRef(2), Operand::LiteralBit32(2)],
        ),
    ]);
    let defs = DefAnalyzer::new(&module);
    let same = |a: u32, b: u32| {
        same_opt_type(
            &trans_aggregate_type(&defs, defs.def(a).unwrap()),
            &trans_aggregate_type(&defs, defs.def(b).unwrap()),
        )
    };
    assert!(same(1, 2));
    assert!(same(3, 4));
    assert!(same(5, 6));
    assert!(!same(6, 7));
    assert!(!same(1, 3));
    assert!(!same(5, 8));
    // The tree of a vector has its components' type alone; the outline has the rest.
    assert!(same(9, 10));
    assert!(!same_outline(&defs, defs.def(9).unwrap(), defs.def(10).unwrap()));
    assert!(same_outline(&defs, defs.def(9).unwrap(), defs.def(9).unwrap()));
    assert!(same_outline(&defs, defs.def(5).unwrap(), defs.def(6).unwrap()));
    assert!(!same_outline(&defs, defs.def(1).unwrap(), defs.def(3).unwrap()));
    match trans_aggregate_type(&defs, defs.def(3).unwrap()) {
        Some(AggregateType::Pointer { ty, storage_class }) => {
            assert_eq!(storage_class, StorageClass::Private as u32);
            assert!(matches!(
                *ty,
                AggregateType::Scalar(ScalarType::Int {
                    width: 32,
                    signed: false
                })
            ));
        }
        other => panic!("unexpected {other:?}"),
    }
    assert!(trans_aggregate_type(&defs, &inst(Op::Nop, None, None, vec![])).is_none());
}

#[test]
fn images_and_arrays() {
    let image = |access: Vec<Operand>| {
        let mut operands = vec![
            Operand::IdRef(1),
            Operand::Dim(Dim::Dim2D),
            Operand::LiteralBit32(2),
            Operand::LiteralBit32(3),
            Operand::LiteralBit32(4),
            Operand::LiteralBit32(5),
            Operand::ImageFormat(ImageFormat::Rgba8),
        ];
        operands.extend(access);
        inst(Op::TypeImage, None, Some(6), operands)
    };
    let module = with_types(vec![
        int_type(1, 32),
        inst(
            Op::Constant,
            Some(1),
            Some(2),
            vec![Operand::LiteralBit32(8)],
        ),
        inst(
            Op::Constant,
            Some(1),
            Some(3),
            vec![Operand::LiteralBit64(9)],
        ),
        inst(
            Op::SpecConstant,
            Some(1),
            Some(4),
            vec![Operand::LiteralBit32(7)],
        ),
        inst(Op::Constant, Some(1), Some(5), vec![Operand::IdRef(1)]),
        inst(
            Op::Constant,
            Some(1),
            Some(6),
            vec![Operand::LiteralBit32(5), Operand::LiteralBit32(7)],
        ),
        inst(
            Op::Constant,
            Some(1),
            Some(7),
            vec![Operand::LiteralBit32(6), Operand::IdRef(1)],
        ),
    ]);
    let defs = DefAnalyzer::new(&module);
    match read_type(&defs, &image(vec![])) {
        Some(Some(AggregateType::Image {
            dim,
            depth,
            arrayed,
            multi_sampled,
            sampled,
            format,
            access,
            ..
        })) => {
            assert_eq!(dim, Dim::Dim2D as u32);
            assert_eq!((depth, arrayed, multi_sampled, sampled), (2, 3, 4, 5));
            assert_eq!(format, ImageFormat::Rgba8 as u32);
            assert_eq!(access, None);
        }
        other => panic!("unexpected {other:?}"),
    }
    match read_type(
        &defs,
        &image(vec![Operand::AccessQualifier(AccessQualifier::WriteOnly)]),
    ) {
        Some(Some(AggregateType::Image { access, .. })) => {
            assert_eq!(access, Some(AccessQualifier::WriteOnly as u32))
        }
        other => panic!("unexpected {other:?}"),
    }
    let array = |len: u32| {
        inst(
            Op::TypeArray,
            None,
            Some(9),
            vec![Operand::IdRef(1), Operand::IdRef(len)],
        )
    };
    match read_type(&defs, &array(2)) {
        Some(Some(AggregateType::Array { len, .. })) => assert_eq!(len, 8),
        other => panic!("unexpected {other:?}"),
    }
    match read_type(&defs, &array(3)) {
        Some(Some(AggregateType::Array { len, .. })) => assert_eq!(len, 9),
        other => panic!("unexpected {other:?}"),
    }
    // Of two literals the second counts.
    match read_type(&defs, &array(6)) {
        Some(Some(AggregateType::Array { len, .. })) => assert_eq!(len, 7),
        other => panic!("unexpected {other:?}"),
    }
    match read_type(&defs, &array(7)) {
        Some(Some(AggregateType::Array { len, .. })) => assert_eq!(len, 6),
        other => panic!("unexpected {other:?}"),
    }
    // The length is a constant with a literal, and no specialization constant.
    assert!(read_type(&defs, &array(4)).is_none());
    assert!(read_type(&defs, &array(5)).is_none());
    assert!(read_type(&defs, &array(1)).is_none());
    assert!(read_type(&defs, &array(40)).is_none());
    // A type that contains itself has no tree.
    let circle = with_types(vec![structure(1, &[1])]);
    let defs = DefAnalyzer::new(&circle);
    assert!(read_type(&defs, &structure(1, &[1])).is_none());
}

#[test]
fn text_of_a_type_leaves_out_its_id() {
    assert_eq!(cleanup_type(int_type(7, 32)), "OpTypeInt 32 0");
}

#[test]
fn instructions_are_compared_in_all_parts() {
    assert!(inst_fully_eq(&int_type(1, 32), &int_type(1, 32)));
    assert!(!inst_fully_eq(&int_type(1, 32), &int_type(2, 32)));
    assert!(!inst_fully_eq(&int_type(1, 32), &int_type(1, 64)));
    let typed = |ty: u32| inst(Op::Undef, Some(ty), Some(1), vec![]);
    assert!(!inst_fully_eq(&typed(2), &typed(3)));
    assert!(!inst_fully_eq(
        &inst(Op::Undef, None, None, vec![]),
        &inst(Op::Nop, None, None, vec![])
    ));
}

// Imports and exports.

fn linkage(id: u32, text: &str, kind: LinkageType) -> SpvInst {
    inst(
        Op::Decorate,
        None,
        None,
        vec![
            Operand::IdRef(id),
            Operand::Decoration(Decoration::LinkageAttributes),
            Operand::LiteralString(text.to_string()),
            Operand::LinkageType(kind),
        ],
    )
}

fn variable(id: u32, ty: u32) -> SpvInst {
    inst(
        Op::Variable,
        Some(ty),
        Some(id),
        vec![Operand::StorageClass(StorageClass::Private)],
    )
}

fn function(id: u32, ty: u32, parameters: &[u32]) -> SpvFunction {
    SpvFunction {
        def: Some(inst(
            Op::Function,
            Some(1),
            Some(id),
            vec![
                Operand::FunctionControl(FunctionControl::NONE),
                Operand::IdRef(ty),
            ],
        )),
        end: Some(inst(Op::FunctionEnd, None, None, vec![])),
        parameters: parameters
            .iter()
            .map(|p| inst(Op::FunctionParameter, Some(1), Some(*p), vec![]))
            .collect(),
        blocks: vec![],
    }
}

fn symbol(text: &str, id: u32) -> LinkSymbol {
    LinkSymbol {
        name: text.to_string(),
        id,
        type_id: 1,
        parameters: vec![],
    }
}

#[test]
fn symbols_are_read_off_decorations() {
    let mut module = with_types(vec![int_type(1, 32), pointer(2, 1), variable(3, 2)]);
    module.functions.push(function(5, 4, &[6, 7]));
    module.annotations.push(linkage(3, "v", LinkageType::Import));
    module.annotations.push(linkage(5, "f", LinkageType::Export));
    let defs = DefAnalyzer::new(&module);
    let (imports, exports) = read_symbols(&module, &defs).unwrap();
    assert_eq!(imports.len(), 1);
    assert_eq!((imports[0].id, imports[0].type_id), (3, 2));
    assert_eq!(imports[0].name, "v");
    assert_eq!(exports.len(), 1);
    assert_eq!((exports[0].id, exports[0].type_id), (5, 4));
    assert_eq!(exports[0].parameters.len(), 2);
    assert_eq!(
        find_import_export_pairs(&module, &defs).err(),
        Some(LinkerError::UnresolvedSymbol("v".to_string()))
    );
    // A decoration without operands, of an id without a definition, of a type.
    let mut bad = with_types(vec![int_type(1, 32)]);
    bad.annotations.push(inst(Op::Decorate, None, None, vec![]));
    assert!(read_symbols(&bad, &defs).is_none());
    bad.annotations[0] = linkage(99, "x", LinkageType::Export);
    assert!(read_symbols(&bad, &defs).is_none());
    bad.annotations[0] = linkage(1, "x", LinkageType::Export);
    assert!(read_symbols(&bad, &defs).is_none());
}

#[test]
fn imports_are_paired_by_name() {
    let info = |exports: Vec<LinkSymbol>| LinkInfo {
        imports: vec![symbol("a", 1), symbol("b", 2)],
        exports,
        potential_pairs: vec![],
    };
    let paired = info(vec![symbol("b", 3), symbol("c", 4), symbol("a", 5), symbol("c", 6)])
        .find_potential_pairs()
        .unwrap();
    let ids: Vec<(u32, u32)> = paired
        .potential_pairs
        .iter()
        .map(|p| (p.import.id, p.export.id))
        .collect();
    assert_eq!(ids, vec![(1, 5), (2, 3)]);
    assert_eq!(
        info(vec![symbol("a", 3)]).find_potential_pairs().err(),
        Some(LinkerError::UnresolvedSymbol("b".to_string()))
    );
    assert_eq!(
        info(vec![symbol("a", 3), symbol("a", 4)])
            .find_potential_pairs()
            .err(),
        Some(LinkerError::MultipleExports("a".to_string()))
    );
}

fn paired(import: LinkSymbol, export: LinkSymbol) -> LinkInfo {
    LinkInfo {
        imports: vec![],
        exports: vec![],
        potential_pairs: vec![ImportExportPair { import, export }],
    }
}

#[test]
fn pairs_are_compared() {
    let module = with_types(vec![int_type(1, 32), int_type(2, 32), int_type(3, 64)]);
    let defs = DefAnalyzer::new(&module);
    let typed = |ty: u32| LinkSymbol {
        type_id: ty,
        ..symbol("s", 9)
    };
    let info = paired(typed(1), typed(2));
    let pairs = info.ensure_matching_import_export_pairs(&defs).unwrap();
    assert_eq!(pairs.len(), 1);
    assert_eq!(
        paired(typed(1), typed(3))
            .ensure_matching_import_export_pairs(&defs)
            .err(),
        Some(LinkerError::TypeMismatch {
            name: "s".to_string(),
            import_type: "OpTypeInt 32 0".to_string(),
            export_type: "OpTypeInt 64 0".to_string(),
        })
    );
    assert!(paired(typed(1), typed(4)).check_pairs(&defs).is_none());
    // Parameters that both have must agree; one more on a side does not matter.
    let with = |parameters: Vec<SpvInst>| LinkSymbol {
        parameters,
        ..symbol("s", 9)
    };
    let parameter = |o: u32| inst(Op::FunctionParameter, None, None, vec![Operand::IdRef(o)]);
    assert!(paired(with(vec![parameter(1)]), with(vec![parameter(1), parameter(2)]))
        .check_pairs(&defs)
        .is_some());
    assert!(paired(with(vec![parameter(1)]), with(vec![parameter(2)]))
        .check_pairs(&defs)
        .is_none());
}

/// A vector of two does not match a vector of four, nor does a matrix with another
/// number of columns, nor a type of another kind with the same parts.
#[test]
fn sizes_and_kinds_of_types_count() {
    let pipe = |id: u32, access: AccessQualifier| {
        inst(
            Op::TypePipe,
            None,
            Some(id),
            vec![Operand::AccessQualifier(access)],
        )
    };
    let sized = |op: Op, id: u32, of: u32, n: u32| {
        inst(
            op,
            None,
            Some(id),
            vec![Operand::IdRef(of), Operand::LiteralBit32(n)],
        )
    };
    let module = with_types(vec![
        inst(Op::TypeFloat, None, Some(1), vec![Operand::LiteralBit32(32)]),
        sized(Op::TypeVector, 2, 1, 2),
        sized(Op::TypeVector, 3, 1, 4),
        sized(Op::TypeVector, 4, 1, 4),
        sized(Op::TypeMatrix, 5, 3, 2),
        sized(Op::TypeMatrix, 6, 4, 2),
        sized(Op::TypeMatrix, 7, 4, 3),
        inst(Op::TypeRuntimeArray, None, Some(8), vec![Operand::IdRef(1)]),
        structure(9, &[1]),
        pointer(12, 2),
        pointer(13, 3),
        pointer(14, 4),
        structure(15, &[1, 12]),
        structure(16, &[1, 13]),
        structure(17, &[1, 14]),
        pipe(18, AccessQualifier::ReadOnly),
        pipe(19, AccessQualifier::WriteOnly),
        pipe(20, AccessQualifier::ReadOnly),
        inst(
            Op::TypeFloat,
            None,
            Some(21),
            vec![
                Operand::LiteralBit32(32),
                Operand::FPEncoding(FPEncoding::BFloat16KHR),
            ],
        ),
    ]);
    let defs = DefAnalyzer::new(&module);
    let typed = |ty: u32| LinkSymbol {
        type_id: ty,
        ..symbol("foo", 9)
    };
    let matching = |a: u32, b: u32| {
        match paired(typed(a), typed(b)).ensure_matching_import_export_pairs(&defs) {
            Ok(_) => true,
            Err(LinkerError::TypeMismatch { name, .. }) => {
                assert_eq!(name, "foo");
                false
            }
            Err(other) => panic!("unexpected {other:?}"),
        }
    };
    assert!(!matching(12, 13));
    assert!(matching(13, 14));
    assert!(!matching(2, 3));
    assert!(matching(3, 4));
    assert!(matching(5, 6));
    assert!(!matching(6, 7));
    assert!(!matching(8, 9));
    assert!(!matching(15, 16));
    assert!(matching(16, 17));
    assert!(!matching(18, 19));
    assert!(matching(18, 20));
    assert!(!matching(1, 21));
}

/// With partial linking, an import without an export is left out; one with several
/// is still an error.
#[test]
fn partial_pairs_leave_out_unresolved_imports() {
    let mut module = with_types(vec![
        int_type(1, 32),
        variable(2, 1),
        variable(3, 1),
        variable(4, 1),
    ]);
    module.annotations = vec![
        linkage(2, "missing", LinkageType::Import),
        linkage(3, "found", LinkageType::Import),
        linkage(4, "found", LinkageType::Export),
    ];
    let defs = DefAnalyzer::new(&module);
    assert_eq!(
        find_import_export_pairs(&module, &defs).err(),
        Some(LinkerError::UnresolvedSymbol("missing".to_string()))
    );
    let info = find_partial_pairs(&module, &defs).unwrap();
    assert_eq!(info.imports.len(), 1);
    assert_eq!(info.imports[0].id, 3);
    assert_eq!(info.potential_pairs.len(), 1);
    assert_eq!(info.potential_pairs[0].export.id, 4);
    module
        .annotations
        .push(linkage(2, "found", LinkageType::Export));
    assert_eq!(
        find_partial_pairs(&module, &defs).err(),
        Some(LinkerError::MultipleExports("found".to_string()))
    );
}

/// Declarations that are kept apart are neither merged nor merged into.
#[test]
fn declarations_can_be_kept_apart() {
    let build = || {
        with_types(vec![
            int_type(1, 32),
            variable(2, 1),
            variable(3, 1),
            variable(4, 1),
            int_type(5, 32),
            variable(6, 5),
        ])
    };
    let merged = merge_types(build(), &vec![3]);
    assert_eq!(
        merged.types_global_values,
        vec![int_type(1, 32), variable(2, 1), variable(3, 1)]
    );
    let merged = merge_types(build(), &vec![2]);
    assert_eq!(
        merged.types_global_values,
        vec![int_type(1, 32), variable(2, 1), variable(3, 1)]
    );
    let merged = remove_duplicate_types(build());
    assert_eq!(
        merged.types_global_values,
        vec![int_type(1, 32), variable(2, 1)]
    );
    // Once more changes nothing.
    let again = remove_duplicate_types(merged.duplicate());
    assert_eq!(again, merged);
}

/// Arranging declarations that are in order changes nothing.
#[test]
fn arranging_twice_changes_nothing() {
    let mut module = with_types(vec![
        structure(9, &[4, 7]),
        pointer(7, 5),
        int_type(5, 32),
        pointer(4, 5),
    ]);
    assert_eq!(sort_globals(&mut module), None);
    let once = module.duplicate();
    assert_eq!(sort_globals(&mut module), None);
    assert_eq!(module, once);
    assert_eq!(module.types_global_values[0], int_type(5, 32));
}

#[test]
fn nothing_is_said_about_imports() {
    let mut module = SpvModule::new();
    module.debug_names = vec![name(1, "import"), name(2, "parameter"), name(3, "other")];
    let import = LinkSymbol {
        parameters: vec![inst(Op::FunctionParameter, None, Some(2), vec![])],
        ..symbol("s", 1)
    };
    let info = LinkInfo {
        imports: vec![import],
        exports: vec![],
        potential_pairs: vec![],
    };
    assert!(have_named_parameters(&info.imports));
    import_kill_annotations_and_debug(&mut module, &info);
    assert_eq!(module.debug_names, vec![name(3, "other")]);
    let nameless = LinkSymbol {
        parameters: vec![inst(Op::FunctionParameter, None, None, vec![])],
        ..symbol("s", 1)
    };
    assert!(!have_named_parameters(&vec![nameless]));
}

#[test]
fn linking_instructions_are_dropped() {
    let build = || {
        let mut module = with_types(vec![int_type(1, 32), variable(2, 1), variable(3, 1)]);
        module.functions.push(function(5, 1, &[]));
        module.functions.push(function(6, 1, &[]));
        for c in [Capability::Linkage, Capability::Shader] {
            module
                .capabilities
                .push(inst(Op::Capability, None, None, vec![Operand::Capability(c)]));
        }
        module.annotations.push(linkage(3, "v", LinkageType::Export));
        module.annotations.push(linkage(7, "w", LinkageType::Export));
        module.annotations.push(linkage(8, "x", LinkageType::Import));
        module
    };
    let pairs = vec![
        ImportExportPair {
            import: symbol("v", 2),
            export: symbol("v", 3),
        },
        ImportExportPair {
            import: symbol("f", 5),
            export: symbol("f", 6),
        },
    ];
    let mut module = build();
    let opts = Options::default();
    assert!(can_kill_linkage(&pairs, &module, &opts));
    kill_linkage_instructions(&pairs, &mut module, &opts);
    assert_eq!(module.types_global_values, vec![int_type(1, 32), variable(3, 1)]);
    assert_eq!(module.functions, vec![function(6, 1, &[])]);
    assert_eq!(module.annotations, vec![linkage(8, "x", LinkageType::Import)]);
    assert_eq!(module.capabilities.len(), 1);
    assert!(module.capabilities[0].operands[0]
        .is_enumerant(EnumerantKind::Capability, Capability::Shader as u32));

    let mut module = build();
    let opts = Options {
        lib: true,
        partial: false,
    };
    kill_linkage_instructions(&pairs, &mut module, &opts);
    assert_eq!(
        module.annotations,
        vec![
            linkage(8, "x", LinkageType::Import),
            linkage(7, "w", LinkageType::Export)
        ]
    );

    // A declaration without an id is no import.
    let mut module = build();
    let forward = inst(Op::TypeForwardPointer, None, None, vec![]);
    module.types_global_values.push(forward.duplicate());
    assert!(can_kill_linkage(&pairs, &module, &opts));
    kill_linkage_instructions(&pairs, &mut module, &opts);
    assert_eq!(
        module.types_global_values,
        vec![int_type(1, 32), variable(3, 1), forward]
    );

    // A function without an id cannot be told from an import.
    let mut module = build();
    module.functions[0].def = None;
    assert!(!can_kill_linkage(&pairs, &module, &opts));
    assert!(can_kill_linkage(&vec![], &module, &opts));
}

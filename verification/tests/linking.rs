//! Linking modules and binaries.

use rspirv::binary::Assemble;
use rspirv::dr::{Builder, Module, Operand};
use rspirv::spirv::{
    AddressingModel, Capability, Decoration, ExecutionModel, FunctionControl, LinkageType,
    MemoryModel, Op, StorageClass,
};
use spirv_linker::convert::{read_module, write_module};
use spirv_linker::{
    link, link_bytes, load_words, try_link, try_link_bytes, LinkerError, Options, SpvModule,
    SpvOperand,
};

fn enumerant(operand: Operand) -> SpvOperand {
    SpvOperand::from_rspirv(operand)
}

fn linkage(b: &mut Builder, id: u32, name: &str, kind: LinkageType) {
    b.decorate(
        id,
        Decoration::LinkageAttributes,
        vec![
            Operand::LiteralString(name.to_string()),
            Operand::LinkageType(kind),
        ],
    );
}

fn start() -> Builder {
    let mut b = Builder::new();
    b.set_version(1, 5);
    b.capability(Capability::Shader);
    b.capability(Capability::Linkage);
    b.memory_model(AddressingModel::Logical, MemoryModel::GLSL450);
    b
}

/// A library that exports `scale_by`, which multiplies two numbers, and
/// `add_offset`, which adds a number to itself.
fn library() -> Module {
    let mut b = start();
    let float = b.type_float(32, None);
    let binary = b.type_function(float, vec![float, float]);
    let unary = b.type_function(float, vec![float]);

    let scale_by = b
        .begin_function(float, None, FunctionControl::NONE, binary)
        .unwrap();
    let x = b.function_parameter(float).unwrap();
    let y = b.function_parameter(float).unwrap();
    b.begin_block(None).unwrap();
    let product = b.f_mul(float, None, x, y).unwrap();
    b.ret_value(product).unwrap();
    b.end_function().unwrap();

    let add_offset = b
        .begin_function(float, None, FunctionControl::NONE, unary)
        .unwrap();
    let x = b.function_parameter(float).unwrap();
    b.begin_block(None).unwrap();
    let sum = b.f_add(float, None, x, x).unwrap();
    b.ret_value(sum).unwrap();
    b.end_function().unwrap();

    b.name(scale_by, "scale_by");
    b.name(add_offset, "add_offset");
    linkage(&mut b, scale_by, "scale_by", LinkageType::Export);
    linkage(&mut b, add_offset, "add_offset", LinkageType::Export);
    b.module()
}

/// A program that imports `scale_by` and `add_offset` and calls both.
fn consumer() -> Module {
    let mut b = start();
    let void = b.type_void();
    let float = b.type_float(32, None);
    let binary = b.type_function(float, vec![float, float]);
    let unary = b.type_function(float, vec![float]);
    let plain = b.type_function(void, vec![]);
    let one = b.constant_bit32(float, 0x3f80_0000);

    let scale_by = b
        .begin_function(float, None, FunctionControl::NONE, binary)
        .unwrap();
    b.function_parameter(float).unwrap();
    b.function_parameter(float).unwrap();
    b.end_function().unwrap();
    let add_offset = b
        .begin_function(float, None, FunctionControl::NONE, unary)
        .unwrap();
    b.function_parameter(float).unwrap();
    b.end_function().unwrap();

    let main = b
        .begin_function(void, None, FunctionControl::NONE, plain)
        .unwrap();
    b.begin_block(None).unwrap();
    let scaled = b
        .function_call(float, None, scale_by, vec![one, one])
        .unwrap();
    b.function_call(float, None, add_offset, vec![scaled])
        .unwrap();
    b.ret().unwrap();
    b.end_function().unwrap();

    b.entry_point(ExecutionModel::GLCompute, main, "main", vec![]);
    b.name(scale_by, "imported scale_by");
    b.name(main, "main");
    linkage(&mut b, scale_by, "scale_by", LinkageType::Import);
    linkage(&mut b, add_offset, "add_offset", LinkageType::Import);
    b.module()
}

fn name_of(module: &SpvModule, id: u32) -> Option<&str> {
    for inst in &module.debug_names {
        if inst.op != Op::Name {
            continue;
        }
        let Some(SpvOperand::IdRef(target)) = inst.operands.first() else {
            continue;
        };
        if *target != id {
            continue;
        }
        if let Some(SpvOperand::LiteralString(s)) = inst.operands.get(1) {
            return Some(s);
        }
    }
    None
}

fn collect_linkage_names(module: &SpvModule, want: LinkageType) -> Vec<String> {
    let mut out = Vec::new();
    for inst in &module.annotations {
        if inst.op != Op::Decorate {
            continue;
        }
        if inst.operands.get(1)
            != Some(&enumerant(Operand::Decoration(
                Decoration::LinkageAttributes,
            )))
        {
            continue;
        }
        let name = match inst.operands.get(2) {
            Some(SpvOperand::LiteralString(s)) => s.clone(),
            _ => continue,
        };
        if inst.operands.get(3) == Some(&enumerant(Operand::LinkageType(want))) {
            out.push(name);
        }
    }
    out
}

/// A program that imports two functions is linked with the library that exports
/// them.
#[test]
fn link_dxc_export_and_import() {
    let lib = library().assemble();
    let consumer = consumer().assemble();

    let lib_mod = load_words(&lib);
    let consumer_mod = load_words(&consumer);

    let exports: Vec<String> = collect_linkage_names(&lib_mod, LinkageType::Export);
    let imports: Vec<String> = collect_linkage_names(&consumer_mod, LinkageType::Import);
    assert_eq!(
        exports,
        vec!["scale_by".to_string(), "add_offset".to_string()]
    );
    assert_eq!(
        imports,
        vec!["scale_by".to_string(), "add_offset".to_string()]
    );
    assert_eq!(
        consumer_mod
            .functions
            .iter()
            .filter(|f| f.blocks.is_empty())
            .count(),
        2,
        "consumer should have exactly 2 body-less Import prototypes"
    );

    let opts = Options {
        lib: false,
        partial: false,
    };
    let linked_words = link_bytes(&[&consumer, &lib], &opts).expect("link should succeed");
    let linked = load_words(&linked_words);

    assert!(
        !linked.capabilities.iter().any(|c| c.operands.first()
            == Some(&enumerant(Operand::Capability(Capability::Linkage)))),
        "linked module still declares OpCapability Linkage"
    );
    assert!(
        !linked.annotations.iter().any(|i| i.operands.get(1)
            == Some(&enumerant(Operand::Decoration(
                Decoration::LinkageAttributes
            )))),
        "linked module still has LinkageAttributes decorations"
    );

    // Every reachable function must now have a body.
    for f in &linked.functions {
        assert!(
            !f.blocks.is_empty(),
            "linked module still has body-less function (id %{})",
            f.def.as_ref().and_then(|d| d.result_id).unwrap_or(0)
        );
    }

    // Entry point survives.
    assert!(
        !linked.entry_points.is_empty(),
        "linked module has no OpEntryPoint"
    );

    // The previously-imported names resolve to functions with bodies.
    for &expected in &["scale_by", "add_offset"] {
        let resolved = linked.functions.iter().any(|f| {
            let Some(id) = f.def.as_ref().and_then(|d| d.result_id) else {
                return false;
            };
            name_of(&linked, id) == Some(expected) && !f.blocks.is_empty()
        });
        assert!(
            resolved,
            "expected callable `{expected}` to be linked in with a body"
        );
    }
}

/// What the linked program looks like in detail.
#[test]
fn linked_program_calls_the_library() {
    let mut program = read_module(consumer());
    let mut lib = read_module(library());
    let opts = Options::default();
    let linked = link(&mut [&mut program, &mut lib], &opts).unwrap();

    let id_of = |name: &str| {
        linked
            .functions
            .iter()
            .filter_map(|f| f.def.as_ref().and_then(|d| d.result_id))
            .find(|id| name_of(&linked, *id) == Some(name))
            .unwrap()
    };
    let (main, scale_by, add_offset) = (id_of("main"), id_of("scale_by"), id_of("add_offset"));
    assert_eq!(linked.functions.len(), 3);
    assert_eq!(linked.entry_points.len(), 1);
    assert_eq!(
        linked.entry_points[0].operands[1..],
        [
            SpvOperand::IdRef(main),
            SpvOperand::LiteralString("main".to_string())
        ]
    );
    let body = &linked.functions[0].blocks[0].instructions;
    assert_eq!(linked.functions[0].def.as_ref().unwrap().result_id, Some(main));
    assert_eq!(body[0].op, Op::FunctionCall);
    assert_eq!(body[0].operands[0], SpvOperand::IdRef(scale_by));
    assert_eq!(body[1].op, Op::FunctionCall);
    assert_eq!(body[1].operands[0], SpvOperand::IdRef(add_offset));
    // The types of both modules are merged, and the name of the import is gone.
    let floats = linked
        .types_global_values
        .iter()
        .filter(|i| i.op == Op::TypeFloat)
        .count();
    assert_eq!(floats, 1);
    assert_eq!(linked.debug_names.len(), 3);
    assert_eq!(linked.annotations.len(), 0);
    // One capability is left, and the memory model of the last module.
    assert_eq!(linked.capabilities.len(), 1);
    assert_eq!(linked.memory_model, read_module(library()).memory_model);
    // The header is that of a new module, and the note comes last.
    let header = linked.header.unwrap();
    assert_eq!(header.magic_number, 0x0723_0203);
    assert_eq!(header.version, 0x0001_0600);
    assert_eq!(header.generator, 0x000f_0000);
    assert_eq!(header.reserved_word, 0);
    let note = linked.debug_module_processed.last().unwrap();
    assert_eq!(note.op, Op::ModuleProcessed);
    assert_eq!(
        note.operands,
        vec![SpvOperand::LiteralString(
            "Linked by rspirv-linker".to_string()
        )]
    );
}

/// The ids of a linked module are the numbers from 1 to its bound.
#[test]
fn linked_ids_are_dense() {
    let mut program = read_module(consumer());
    let mut lib = read_module(library());
    let linked = link(&mut [&mut program, &mut lib], &Options::default()).unwrap();
    let bound = linked.header.unwrap().bound;
    let mut seen = vec![false; bound as usize];
    for inst in linked.all_insts() {
        let mut ids: Vec<u32> = Vec::new();
        ids.extend(inst.result_id);
        ids.extend(inst.result_type);
        ids.extend(inst.operands.iter().filter_map(|o| o.id()));
        for id in ids {
            seen[id as usize] = true;
        }
    }
    assert!(!seen[0]);
    assert!(seen[1..].iter().all(|s| *s));
    // The first id that occurs is that of the entry point's function.
    assert_eq!(linked.entry_points[0].operands[1], SpvOperand::IdRef(1));
}

/// The ids of all modules but the first are moved up by the bounds of the others.
#[test]
fn inputs_are_moved_apart() {
    let mut first = read_module(consumer());
    let mut second = read_module(library());
    let before = read_module(library());
    let bound = first.header.unwrap().bound;
    link(&mut [&mut first, &mut second], &Options::default()).unwrap();
    assert_eq!(first, read_module(consumer()));
    assert_eq!(
        second.types_global_values[0].result_id,
        before.types_global_values[0].result_id.map(|id| id + bound - 1)
    );
    assert_eq!(second.header, before.header);
}

/// A library keeps the exports that nothing imports; other results do not.
#[test]
fn libraries_keep_their_exports() {
    let names = |opts: &Options| {
        let mut lib = read_module(library());
        let linked = link(&mut [&mut lib], opts).unwrap();
        assert_eq!(linked.capabilities.len(), 1);
        collect_linkage_names(&linked, LinkageType::Export)
    };
    assert_eq!(names(&Options::default()), Vec::<String>::new());
    let mut kept = names(&Options {
        lib: true,
        partial: false,
    });
    kept.sort();
    assert_eq!(kept, vec!["add_offset".to_string(), "scale_by".to_string()]);
}

#[test]
fn missing_export_is_an_error() {
    let mut program = read_module(consumer());
    assert_eq!(
        link(&mut [&mut program], &Options::default()).err(),
        Some(LinkerError::UnresolvedSymbol("scale_by".to_string()))
    );
    let words = consumer().assemble();
    assert_eq!(
        link_bytes(&[&words], &Options::default()),
        Err(LinkerError::UnresolvedSymbol("scale_by".to_string()))
    );
}

#[test]
fn second_export_is_an_error() {
    let mut program = read_module(consumer());
    let mut lib = read_module(library());
    let mut other = read_module(library());
    assert_eq!(
        link(
            &mut [&mut program, &mut lib, &mut other],
            &Options::default()
        )
        .err(),
        Some(LinkerError::MultipleExports("scale_by".to_string()))
    );
}

/// A module with a global variable under linkage.
fn with_variable(width: u32, kind: LinkageType) -> Module {
    let mut b = start();
    let ty = b.type_int(width, 0);
    let pointer = b.type_pointer(None, StorageClass::Private, ty);
    let variable = b.variable(pointer, None, StorageClass::Private, None);
    linkage(&mut b, variable, "counter", kind);
    b.module()
}

#[test]
fn different_types_are_an_error() {
    let mut import = read_module(with_variable(32, LinkageType::Import));
    let mut export = read_module(with_variable(64, LinkageType::Export));
    let error = link(&mut [&mut import, &mut export], &Options::default())
        .err()
        .unwrap();
    assert_eq!(
        error,
        LinkerError::TypeMismatch {
            name: "counter".to_string(),
            import_type: "OpTypePointer Private %1".to_string(),
            export_type: "OpTypePointer Private %4".to_string(),
        }
    );
}

fn variables(module: &SpvModule) -> Vec<u32> {
    module
        .types_global_values
        .iter()
        .filter(|i| i.op == Op::Variable)
        .filter_map(|i| i.result_id)
        .collect()
}

/// An imported variable makes way for the exported one, whichever comes first.
#[test]
fn imported_variable_is_dropped() {
    for swapped in [false, true] {
        let mut import = read_module(with_variable(32, LinkageType::Import));
        let mut export = read_module(with_variable(32, LinkageType::Export));
        let opts = Options::default();
        let linked = if swapped {
            link(&mut [&mut import, &mut export], &opts).unwrap()
        } else {
            link(&mut [&mut export, &mut import], &opts).unwrap()
        };
        assert_eq!(variables(&linked).len(), 1);
        assert!(linked.annotations.is_empty());
    }
}

/// A program that reads an imported variable reads the exported one once linked.
#[test]
fn reads_of_an_imported_variable_are_rematched() {
    let mut b = start();
    let void = b.type_void();
    let ty = b.type_int(32, 0);
    let pointer = b.type_pointer(None, StorageClass::Private, ty);
    let import = b.variable(pointer, None, StorageClass::Private, None);
    let plain = b.type_function(void, vec![]);
    let main = b
        .begin_function(void, None, FunctionControl::NONE, plain)
        .unwrap();
    b.begin_block(None).unwrap();
    b.load(ty, None, import, None, vec![]).unwrap();
    b.ret().unwrap();
    b.end_function().unwrap();
    b.entry_point(ExecutionModel::GLCompute, main, "main", vec![import]);
    linkage(&mut b, import, "counter", LinkageType::Import);
    let mut program = read_module(b.module());
    let mut lib = read_module(with_variable(32, LinkageType::Export));
    let linked = link(&mut [&mut program, &mut lib], &Options::default()).unwrap();
    let left = variables(&linked);
    assert_eq!(left.len(), 1);
    let load = &linked.functions[0].blocks[0].instructions[0];
    assert_eq!(load.op, Op::Load);
    assert_eq!(load.operands[0], SpvOperand::IdRef(left[0]));
    assert_eq!(
        linked.entry_points[0].operands.last(),
        Some(&SpvOperand::IdRef(left[0]))
    );
}

/// A variable that is declared in the same words as an import stays a variable of
/// its own.
#[test]
fn imports_are_not_merged_with_other_variables() {
    let mut b = start();
    let ty = b.type_int(32, 0);
    let pointer = b.type_pointer(None, StorageClass::Private, ty);
    let plain = b.variable(pointer, None, StorageClass::Private, None);
    let import = b.variable(pointer, None, StorageClass::Private, None);
    b.name(plain, "plain");
    linkage(&mut b, import, "counter", LinkageType::Import);
    let mut program = read_module(b.module());
    let mut lib = read_module(with_variable(32, LinkageType::Export));
    let linked = link(&mut [&mut program, &mut lib], &Options::default()).unwrap();
    assert!(linked.annotations.is_empty());
    let left = variables(&linked);
    assert_eq!(left.len(), 2);
    assert_eq!(
        left.iter()
            .filter(|id| name_of(&linked, **id) == Some("plain"))
            .count(),
        1
    );
}

/// With partial linking, an import without an export stays with its decoration.
#[test]
fn partial_linking_keeps_unresolved_imports() {
    let partial = Options {
        lib: false,
        partial: true,
    };
    let mut import = read_module(with_variable(32, LinkageType::Import));
    assert_eq!(
        link(&mut [&mut import], &Options::default()).err(),
        Some(LinkerError::UnresolvedSymbol("counter".to_string()))
    );
    let mut import = read_module(with_variable(32, LinkageType::Import));
    let linked = link(&mut [&mut import], &partial).unwrap();
    let left = variables(&linked);
    assert_eq!(left.len(), 1);
    assert_eq!(
        collect_linkage_names(&linked, LinkageType::Import),
        vec!["counter".to_string()]
    );
    assert_eq!(linked.annotations[0].operands[0], SpvOperand::IdRef(left[0]));

    // Two of them stay apart, and functions stay without a body.
    let mut first = read_module(with_variable(32, LinkageType::Import));
    let mut second = read_module(with_variable(32, LinkageType::Import));
    second.annotations[0].operands[2] = SpvOperand::LiteralString("other".to_string());
    let mut program = read_module(consumer());
    let linked = link(&mut [&mut first, &mut second, &mut program], &partial).unwrap();
    assert_eq!(variables(&linked).len(), 2);
    let mut names = collect_linkage_names(&linked, LinkageType::Import);
    names.sort();
    assert_eq!(names, vec!["add_offset", "counter", "other", "scale_by"]);
    assert_eq!(
        linked
            .functions
            .iter()
            .filter(|f| f.blocks.is_empty())
            .count(),
        2
    );

    // Imports with an export are resolved as ever.
    let mut first = read_module(with_variable(32, LinkageType::Import));
    let mut program = read_module(consumer());
    let mut lib = read_module(library());
    let linked = link(&mut [&mut first, &mut program, &mut lib], &partial).unwrap();
    assert_eq!(
        collect_linkage_names(&linked, LinkageType::Import),
        vec!["counter".to_string()]
    );
    assert!(linked.functions.iter().all(|f| !f.blocks.is_empty()));

    // Several exports of one name are still an error.
    let mut first = read_module(with_variable(32, LinkageType::Import));
    let mut second = read_module(with_variable(32, LinkageType::Export));
    let mut third = read_module(with_variable(32, LinkageType::Export));
    assert_eq!(
        link(&mut [&mut first, &mut second, &mut third], &partial).err(),
        Some(LinkerError::MultipleExports("counter".to_string()))
    );
}

/// A module that exports or imports an array of the given length.
fn with_array(len: u32, kind: LinkageType) -> Module {
    let mut b = start();
    let ty = b.type_int(32, 0);
    let count = b.constant_bit32(ty, len);
    let array = b.type_array(ty, count);
    let pointer = b.type_pointer(None, StorageClass::Private, array);
    let variable = b.variable(pointer, None, StorageClass::Private, None);
    linkage(&mut b, variable, "table", kind);
    b.module()
}

/// Arrays match when their lengths do.
#[test]
fn arrays_are_linked_by_length() {
    let mut import = read_module(with_array(4, LinkageType::Import));
    let mut export = read_module(with_array(4, LinkageType::Export));
    let linked = link(&mut [&mut import, &mut export], &Options::default()).unwrap();
    assert_eq!(variables(&linked).len(), 1);
    let mut import = read_module(with_array(4, LinkageType::Import));
    let mut export = read_module(with_array(5, LinkageType::Export));
    assert!(matches!(
        link(&mut [&mut import, &mut export], &Options::default()),
        Err(LinkerError::TypeMismatch { .. })
    ));
}

/// Vectors of different sizes do not match.
#[test]
fn vectors_are_linked_by_size() {
    let build = |size: u32, kind: LinkageType| {
        let mut b = start();
        let float = b.type_float(32, None);
        let vector = b.type_vector(float, size);
        let pointer = b.type_pointer(None, StorageClass::Private, vector);
        let variable = b.variable(pointer, None, StorageClass::Private, None);
        linkage(&mut b, variable, "foo", kind);
        read_module(b.module())
    };
    let mut import = build(2, LinkageType::Import);
    let mut export = build(4, LinkageType::Export);
    match link(&mut [&mut import, &mut export], &Options::default()) {
        Err(LinkerError::TypeMismatch { name, .. }) => assert_eq!(name, "foo"),
        other => panic!("unexpected {other:?}"),
    }
    let mut import = build(4, LinkageType::Import);
    let mut export = build(4, LinkageType::Export);
    assert!(link(&mut [&mut import, &mut export], &Options::default()).is_ok());
}

/// A forward pointer, which defines no id, is carried through.
#[test]
fn forward_pointers_are_carried_through() {
    let mut b = start();
    let ty = b.type_int(32, 0);
    let pointer = b.type_pointer(None, StorageClass::Private, ty);
    b.type_forward_pointer(pointer, StorageClass::Private);
    let variable = b.variable(pointer, None, StorageClass::Private, None);
    linkage(&mut b, variable, "counter", LinkageType::Import);
    let mut import = read_module(b.module());
    let mut export = read_module(with_variable(32, LinkageType::Export));
    let linked = link(&mut [&mut import, &mut export], &Options::default()).unwrap();
    assert_eq!(
        linked
            .types_global_values
            .iter()
            .filter(|i| i.op == Op::TypeForwardPointer)
            .count(),
        1
    );
}

/// What is malformed is told from what does not match, and left as it is.
#[test]
fn malformed_modules_are_refused() {
    assert!(try_link(&mut [], &Options::default()).is_none());
    let mut headless = read_module(library());
    headless.header = None;
    assert!(try_link(&mut [&mut headless], &Options::default()).is_none());

    // An export of an id that nothing defines.
    let mut lib = read_module(library());
    lib.annotations[0].operands[0] = SpvOperand::IdRef(1000);
    let mut other = read_module(library());
    let before = other.all_insts();
    assert!(try_link(&mut [&mut lib, &mut other], &Options::default()).is_none());
    assert_eq!(other.all_insts(), before);

    // Ids that leave no room for those of another module.
    let mut high = read_module(library());
    high.header.as_mut().unwrap().bound = u32::MAX;
    let mut other = read_module(library());
    assert!(try_link(&mut [&mut high, &mut other], &Options::default()).is_none());

    // Parameters of different types.
    let mut program = read_module(consumer());
    let mut lib = read_module(library());
    lib.functions[0].parameters[0].operands.push(SpvOperand::IdRef(1));
    assert!(try_link(&mut [&mut program, &mut lib], &Options::default()).is_none());
}

#[test]
fn trying_gives_the_same_result() {
    let mut program = read_module(consumer());
    let mut lib = read_module(library());
    let tried = try_link(&mut [&mut program, &mut lib], &Options::default())
        .unwrap()
        .unwrap();
    let mut program = read_module(consumer());
    let mut lib = read_module(library());
    let linked = link(&mut [&mut program, &mut lib], &Options::default()).unwrap();
    assert_eq!(tried, linked);

    let a = consumer().assemble();
    let b = library().assemble();
    assert_eq!(
        try_link_bytes(&[&a, &b], &Options::default()),
        Some(link_bytes(&[&a, &b], &Options::default()))
    );
    assert_eq!(try_link_bytes(&[&a, &b[..6]], &Options::default()), None);
    assert_eq!(try_link_bytes(&[], &Options::default()), None);
    assert_eq!(
        try_link_bytes(&[&a], &Options::default()),
        Some(Err(LinkerError::UnresolvedSymbol("scale_by".to_string())))
    );
}

/// The words of a linked binary are those that the linked module is assembled to.
#[test]
fn binary_is_the_assembled_module() {
    let a = consumer().assemble();
    let b = library().assemble();
    let words = link_bytes(&[&a, &b], &Options::default()).unwrap();
    let mut program = load_words(&a);
    let mut lib = load_words(&b);
    let linked = link(&mut [&mut program, &mut lib], &Options::default()).unwrap();
    assert_eq!(words, write_module(&linked).assemble());
    let header = linked.header.unwrap();
    assert_eq!(words[0], header.magic_number);
    assert_eq!(words[3], header.bound);
    // The first instruction declares the one capability that is left.
    assert_eq!(words[5], 0x0002_0011);
    assert_eq!(words[6], Capability::Shader as u32);
}

/// By default, the result is no library and partial linking is not allowed.
#[test]
fn default_options() {
    let opts = Options::default();
    assert!(!opts.lib);
    assert!(!opts.partial);
}

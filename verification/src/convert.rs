//! Whole modules, to and from the representation of `rspirv`.

use vstd::prelude::*;

use crate::bridge;
use crate::bridge::{RawFunction, RawModule};
use crate::model;
use crate::model::{
    Duplicate, InstView, ModuleView, SpvBlock, SpvFunction, SpvInst, SpvModule, SpvOperand,
};
use rspirv::dr;

verus! {

/// Reads an instruction.
pub(crate) fn read_instruction(raw: dr::Instruction) -> (r: SpvInst)
    ensures
        r@ == bridge::instruction_of(raw),
{
    let (op, result_type, result_id, raw_operands) = bridge::open_instruction(raw);
    let mut operands: Vec<SpvOperand> = Vec::new();
    for x in it: raw_operands
        invariant
            it.seq() == raw_operands@,
            operands@.len() == it.index(),
            forall|j: int|
                0 <= j < it.index() ==> (#[trigger] operands@[j])@ == bridge::operand_of(
                    raw_operands@[j],
                ),
    {
        operands.push(bridge::open_operand(x));
    }
    assert(model::views(operands@) =~= bridge::operands_of(raw_operands@));
    SpvInst { op, result_type, result_id, operands }
}

/// Reads a section.
fn read_instructions(raw: Vec<dr::Instruction>) -> (r: Vec<SpvInst>)
    ensures
        model::views(r@) == bridge::instructions_of(raw@),
{
    let mut r: Vec<SpvInst> = Vec::new();
    for x in it: raw
        invariant
            it.seq() == raw@,
            r@.len() == it.index(),
            forall|j: int|
                0 <= j < it.index() ==> (#[trigger] r@[j])@ == bridge::instruction_of(raw@[j]),
    {
        r.push(read_instruction(x));
    }
    assert(model::views(r@) =~= bridge::instructions_of(raw@));
    r
}

/// Reads an instruction that may be missing.
fn read_option(raw: Option<dr::Instruction>) -> (r: Option<SpvInst>)
    ensures
        model::opt_view(r) == bridge::opt_instruction_of(raw),
{
    match raw {
        Some(i) => Some(read_instruction(i)),
        None => None,
    }
}

/// Reads a block.
fn read_block(raw: dr::Block) -> (r: SpvBlock)
    ensures
        r@ == bridge::block_of(raw),
{
    let (label, instructions) = bridge::open_block(raw);
    SpvBlock { label: read_option(label), instructions: read_instructions(instructions) }
}

/// Reads the blocks of a function.
fn read_blocks(raw: Vec<dr::Block>) -> (r: Vec<SpvBlock>)
    ensures
        model::views(r@) == bridge::blocks_of(raw@),
{
    let mut r: Vec<SpvBlock> = Vec::new();
    for x in it: raw
        invariant
            it.seq() == raw@,
            r@.len() == it.index(),
            forall|j: int|
                0 <= j < it.index() ==> (#[trigger] r@[j])@ == bridge::block_of(raw@[j]),
    {
        r.push(read_block(x));
    }
    assert(model::views(r@) =~= bridge::blocks_of(raw@));
    r
}

/// Reads a function.
fn read_function(raw: dr::Function) -> (r: SpvFunction)
    ensures
        r@ == bridge::function_of(raw),
{
    let f = bridge::open_function(raw);
    SpvFunction {
        def: read_option(f.def),
        end: read_option(f.end),
        parameters: read_instructions(f.parameters),
        blocks: read_blocks(f.blocks),
    }
}

/// Reads the functions of a module.
fn read_functions(raw: Vec<dr::Function>) -> (r: Vec<SpvFunction>)
    ensures
        model::views(r@) == bridge::functions_of(raw@),
{
    let mut r: Vec<SpvFunction> = Vec::new();
    for x in it: raw
        invariant
            it.seq() == raw@,
            r@.len() == it.index(),
            forall|j: int|
                0 <= j < it.index() ==> (#[trigger] r@[j])@ == bridge::function_of(raw@[j]),
    {
        r.push(read_function(x));
    }
    assert(model::views(r@) =~= bridge::functions_of(raw@));
    r
}

/// Reads a module.
pub fn read_module(raw: dr::Module) -> (r: SpvModule)
    ensures
        r@ == bridge::module_of(raw),
{
    let m = bridge::open_module(raw);
    SpvModule {
        header: m.header,
        capabilities: read_instructions(m.capabilities),
        extensions: read_instructions(m.extensions),
        ext_inst_imports: read_instructions(m.ext_inst_imports),
        memory_model: read_option(m.memory_model),
        entry_points: read_instructions(m.entry_points),
        execution_modes: read_instructions(m.execution_modes),
        debug_string_source: read_instructions(m.debug_string_source),
        debug_names: read_instructions(m.debug_names),
        debug_module_processed: read_instructions(m.debug_module_processed),
        annotations: read_instructions(m.annotations),
        types_global_values: read_instructions(m.types_global_values),
        functions: read_functions(m.functions),
    }
}

/// Writes operands.
pub(crate) fn write_operands(v: &Vec<SpvOperand>) -> (r: Vec<dr::Operand>)
    ensures
        bridge::operands_of(r@) == model::views(v@),
{
    let mut r: Vec<dr::Operand> = Vec::new();
    for i in 0..v.len()
        invariant
            r@.len() == i,
            forall|j: int| 0 <= j < i ==> bridge::operand_of(#[trigger] r@[j]) == v@[j]@,
    {
        r.push(bridge::close_operand(v[i].duplicate()));
    }
    assert(bridge::operands_of(r@) =~= model::views(v@));
    r
}

/// Writes an instruction.
pub(crate) fn write_instruction(inst: &SpvInst) -> (r: dr::Instruction)
    ensures
        bridge::instruction_of(r) == inst@,
{
    bridge::close_instruction(
        inst.op,
        inst.result_type,
        inst.result_id,
        write_operands(&inst.operands),
    )
}

/// Writes a section.
fn write_instructions(v: &Vec<SpvInst>) -> (r: Vec<dr::Instruction>)
    ensures
        bridge::instructions_of(r@) == model::views(v@),
{
    let mut r: Vec<dr::Instruction> = Vec::new();
    for i in 0..v.len()
        invariant
            r@.len() == i,
            forall|j: int| 0 <= j < i ==> bridge::instruction_of(#[trigger] r@[j]) == v@[j]@,
    {
        r.push(write_instruction(&v[i]));
    }
    assert(bridge::instructions_of(r@) =~= model::views(v@));
    r
}

/// Writes an instruction that may be missing.
fn write_option(o: &Option<SpvInst>) -> (r: Option<dr::Instruction>)
    ensures
        bridge::opt_instruction_of(r) == model::opt_view(*o),
{
    match o {
        Some(i) => Some(write_instruction(i)),
        None => None,
    }
}

/// Writes a block.
fn write_block(b: &SpvBlock) -> (r: dr::Block)
    ensures
        bridge::block_of(r) == b@,
{
    bridge::close_block(write_option(&b.label), write_instructions(&b.instructions))
}

/// Writes the blocks of a function.
fn write_blocks(v: &Vec<SpvBlock>) -> (r: Vec<dr::Block>)
    ensures
        bridge::blocks_of(r@) == model::views(v@),
{
    let mut r: Vec<dr::Block> = Vec::new();
    for i in 0..v.len()
        invariant
            r@.len() == i,
            forall|j: int| 0 <= j < i ==> bridge::block_of(#[trigger] r@[j]) == v@[j]@,
    {
        r.push(write_block(&v[i]));
    }
    assert(bridge::blocks_of(r@) =~= model::views(v@));
    r
}

/// Writes a function.
fn write_function(f: &SpvFunction) -> (r: dr::Function)
    ensures
        bridge::function_of(r) == f@,
{
    bridge::close_function(
        RawFunction {
            def: write_option(&f.def),
            end: write_option(&f.end),
            parameters: write_instructions(&f.parameters),
            blocks: write_blocks(&f.blocks),
        },
    )
}

/// Writes the functions of a module.
fn write_functions(v: &Vec<SpvFunction>) -> (r: Vec<dr::Function>)
    ensures
        bridge::functions_of(r@) == model::views(v@),
{
    let mut r: Vec<dr::Function> = Vec::new();
    for i in 0..v.len()
        invariant
            r@.len() == i,
            forall|j: int| 0 <= j < i ==> bridge::function_of(#[trigger] r@[j]) == v@[j]@,
    {
        r.push(write_function(&v[i]));
    }
    assert(bridge::functions_of(r@) =~= model::views(v@));
    r
}

/// Writes a module.
pub fn write_module(m: &SpvModule) -> (r: dr::Module)
    ensures
        bridge::module_of(r) == m@,
{
    bridge::close_module(
        RawModule {
            header: m.header,
            capabilities: write_instructions(&m.capabilities),
            extensions: write_instructions(&m.extensions),
            ext_inst_imports: write_instructions(&m.ext_inst_imports),
            memory_model: write_option(&m.memory_model),
            entry_points: write_instructions(&m.entry_points),
            execution_modes: write_instructions(&m.execution_modes),
            debug_string_source: write_instructions(&m.debug_string_source),
            debug_names: write_instructions(&m.debug_names),
            debug_module_processed: write_instructions(&m.debug_module_processed),
            annotations: write_instructions(&m.annotations),
            types_global_values: write_instructions(&m.types_global_values),
            functions: write_functions(&m.functions),
        },
    )
}

/// The binary of a module.
pub fn assemble(m: &SpvModule) -> (r: Vec<u32>)
    ensures
        r@ == bridge::module_words(m@),
{
    bridge::assemble_raw(&write_module(m))
}

/// The words of an operand.
pub fn operand_words(op: &SpvOperand) -> (r: Vec<u32>)
    ensures
        r@ == bridge::operand_words(op@),
{
    bridge::assemble_operand(&bridge::close_operand(op.duplicate()))
}

/// The module that a sequence of instructions makes up.
pub open spec fn loaded(insts: Seq<InstView>) -> ModuleView {
    bridge::loader_after(insts).module
}

/// Sorts instructions into the sections of a module. Instructions that have no
/// place in a module are left out.
pub fn load_instructions(insts: &Vec<SpvInst>) -> (r: SpvModule)
    ensures
        r@ == loaded(model::views(insts@)),
{
    let mut loader = bridge::new_loader();
    let ghost all = model::views(insts@);
    assert(all.take(0) =~= Seq::<InstView>::empty());
    for i in 0..insts.len()
        invariant
            all == model::views(insts@),
            bridge::loader_of(loader) == bridge::loader_after(all.take(i as int)),
            bridge::loader_of(loader).block is Some ==> bridge::loader_of(loader).function is Some,
    {
        bridge::consume(&mut loader, write_instruction(&insts[i]));
        assert(all.take(i + 1).drop_last() =~= all.take(i as int));
        assert(all.take(i + 1).last() == insts@[i as int]@);
    }
    assert(all.take(insts@.len() as int) =~= all);
    read_module(bridge::loader_module(loader))
}

} // verus!

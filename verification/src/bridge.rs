//! The values of `rspirv` that pass through the linker, and the calls into it.
//!
//! For each outside type a name says what a value of it holds; the functions
//! that open and close such values, and the ones that compute with them, are
//! trusted to do what their contracts say. The conversions of whole modules
//! between the two representations are verified on top of them.

use vstd::prelude::*;

use crate::model;
use crate::model::{
    BlockView, Enumerant, EnumerantKind, FunctionView, Header, InstView, ModuleView, OperandView,
    SpvOperand,
};
use crate::opcode;
use rspirv::binary::{Assemble, Consumer, Disassemble};
use rspirv::dr;
use rspirv::spirv;
use topological_sort::TopologicalSort;

verus! {

/// An operand as `rspirv` represents it.
#[verifier::external_type_specification]
#[verifier::external_body]
pub struct ExOperand(rspirv::dr::Operand);

/// An opcode as `rspirv` represents it.
#[verifier::external_type_specification]
#[verifier::external_body]
pub struct ExOp(rspirv::spirv::Op);

/// An instruction as `rspirv` represents it.
#[verifier::external_type_specification]
#[verifier::external_body]
pub struct ExInstruction(rspirv::dr::Instruction);

/// A block as `rspirv` represents it.
#[verifier::external_type_specification]
#[verifier::external_body]
pub struct ExBlock(rspirv::dr::Block);

/// A function as `rspirv` represents it.
#[verifier::external_type_specification]
#[verifier::external_body]
pub struct ExFunction(rspirv::dr::Function);

/// A module as `rspirv` represents it.
#[verifier::external_type_specification]
#[verifier::external_body]
pub struct ExModule(rspirv::dr::Module);

/// The `rspirv` loader, which sorts instructions into the sections of a module.
#[verifier::external_type_specification]
#[verifier::external_body]
pub struct ExLoader(rspirv::dr::Loader);

/// What an `rspirv` operand holds.
pub uninterp spec fn operand_of(raw: dr::Operand) -> OperandView;

/// The number of an opcode.
pub uninterp spec fn op_code(op: spirv::Op) -> u32;

/// What an `rspirv` instruction holds.
pub uninterp spec fn instruction_of(raw: dr::Instruction) -> InstView;

/// What an `rspirv` block holds.
pub uninterp spec fn block_of(raw: dr::Block) -> BlockView;

/// What an `rspirv` function holds.
pub uninterp spec fn function_of(raw: dr::Function) -> FunctionView;

/// What an `rspirv` module holds.
pub uninterp spec fn module_of(raw: dr::Module) -> ModuleView;

pub open spec fn operands_of(raw: Seq<dr::Operand>) -> Seq<OperandView> {
    Seq::new(raw.len(), |i: int| operand_of(raw[i]))
}

pub open spec fn instructions_of(raw: Seq<dr::Instruction>) -> Seq<InstView> {
    Seq::new(raw.len(), |i: int| instruction_of(raw[i]))
}

pub open spec fn opt_instruction_of(raw: Option<dr::Instruction>) -> Option<InstView> {
    match raw {
        Some(i) => Some(instruction_of(i)),
        None => None,
    }
}

pub open spec fn blocks_of(raw: Seq<dr::Block>) -> Seq<BlockView> {
    Seq::new(raw.len(), |i: int| block_of(raw[i]))
}

pub open spec fn functions_of(raw: Seq<dr::Function>) -> Seq<FunctionView> {
    Seq::new(raw.len(), |i: int| function_of(raw[i]))
}

/// `Clone` of `rspirv::dr::Operand` is derived: a clone equals the operand.
pub assume_specification[ <rspirv::dr::Operand as Clone>::clone ](
    raw: &rspirv::dr::Operand,
) -> (r: rspirv::dr::Operand)
    ensures
        r == *raw,
;

/// The number of an opcode, which is the discriminant of `rspirv::spirv::Op`.
#[verifier::external_body]
pub(crate) fn read_op(op: spirv::Op) -> (r: u32)
    ensures
        r == op_code(op),
{
    op as u32
}

/// `rspirv::spirv::Op::Nop`, whose number is 0.
#[verifier::external_body]
pub(crate) fn op_nop() -> (r: spirv::Op)
    ensures
        op_code(r) == opcode::NOP,
{
    spirv::Op::Nop
}

/// `rspirv::spirv::Op::ModuleProcessed`, whose number is 330.
#[verifier::external_body]
pub(crate) fn op_module_processed() -> (r: spirv::Op)
    ensures
        op_code(r) == opcode::MODULE_PROCESSED,
{
    spirv::Op::ModuleProcessed
}

/// Opens an `rspirv::dr::Operand`: ids, literal numbers and strings by their
/// variants, every other variant as an enumerant.
#[verifier::external_body]
pub(crate) fn open_operand(raw: dr::Operand) -> (r: SpvOperand)
    ensures
        r@ == operand_of(raw),
{
    match raw {
        dr::Operand::IdMemorySemantics(w) => SpvOperand::IdMemorySemantics(w),
        dr::Operand::IdScope(w) => SpvOperand::IdScope(w),
        dr::Operand::IdRef(w) => SpvOperand::IdRef(w),
        dr::Operand::LiteralBit32(w) => SpvOperand::LiteralBit32(w),
        dr::Operand::LiteralBit64(w) => SpvOperand::LiteralBit64(w),
        dr::Operand::LiteralString(s) => SpvOperand::LiteralString(s),
        other => SpvOperand::Enumerant(Enumerant { raw: other }),
    }
}

/// Builds the `rspirv::dr::Operand` that holds a given operand.
#[verifier::external_body]
pub(crate) fn close_operand(op: SpvOperand) -> (r: dr::Operand)
    ensures
        operand_of(r) == op@,
{
    match op {
        SpvOperand::IdMemorySemantics(w) => dr::Operand::IdMemorySemantics(w),
        SpvOperand::IdScope(w) => dr::Operand::IdScope(w),
        SpvOperand::IdRef(w) => dr::Operand::IdRef(w),
        SpvOperand::LiteralBit32(w) => dr::Operand::LiteralBit32(w),
        SpvOperand::LiteralBit64(w) => dr::Operand::LiteralBit64(w),
        SpvOperand::LiteralString(s) => dr::Operand::LiteralString(s),
        SpvOperand::Enumerant(e) => e.raw,
    }
}

/// The kind of an enumerant, by the variant of `rspirv::dr::Operand`.
#[verifier::external_body]
pub(crate) fn enumerant_kind(raw: &dr::Operand) -> (r: EnumerantKind)
    requires
        operand_of(*raw) is Enumerant,
    ensures
        r == operand_of(*raw)->Enumerant_0.kind,
{
    match raw {
        dr::Operand::Capability(_) => EnumerantKind::Capability,
        dr::Operand::Decoration(_) => EnumerantKind::Decoration,
        dr::Operand::LinkageType(_) => EnumerantKind::LinkageType,
        dr::Operand::StorageClass(_) => EnumerantKind::StorageClass,
        dr::Operand::Dim(_) => EnumerantKind::Dim,
        dr::Operand::ImageFormat(_) => EnumerantKind::ImageFormat,
        dr::Operand::AccessQualifier(_) => EnumerantKind::AccessQualifier,
        _ => EnumerantKind::Other,
    }
}

/// `==` of `rspirv::dr::Operand` is derived: two operands are equal when they
/// are the same variant with the same contents.
#[verifier::external_body]
pub(crate) fn same_operand(a: &dr::Operand, b: &dr::Operand) -> (r: bool)
    ensures
        r == (operand_of(*a) == operand_of(*b)),
{
    a == b
}

/// The word that four bytes make up, the lowest one first.
pub open spec fn word_of(b0: u8, b1: u8, b2: u8, b3: u8) -> u32 {
    (b0 + 0x100 * b1 + 0x1_0000 * b2 + 0x100_0000 * b3) as u32
}

/// The words that bytes make up; a rest of less than four bytes is dropped.
pub open spec fn words_of(bytes: Seq<u8>) -> Seq<u32> {
    Seq::new(
        bytes.len() / 4,
        |k: int| word_of(bytes[4 * k], bytes[4 * k + 1], bytes[4 * k + 2], bytes[4 * k + 3]),
    )
}

/// The words of a string: its bytes in UTF-8, with zeros behind them up to a whole
/// word, and a word of zeros where there is no room for one.
pub open spec fn string_words(s: Seq<char>) -> Seq<u32> {
    let bytes = vstd::utf8::encode_utf8(s);
    words_of(bytes + Seq::new((4 - bytes.len() % 4) as nat, |k: int| 0u8))
}

/// The words that an operand takes up in a binary: one for an id, an enumerant and a
/// 32-bit literal, two for a 64-bit literal, the lower half first.
pub open spec fn operand_words(op: OperandView) -> Seq<u32> {
    match op {
        OperandView::IdMemorySemantics(w) => seq![w],
        OperandView::IdScope(w) => seq![w],
        OperandView::IdRef(w) => seq![w],
        OperandView::LiteralBit32(w) => seq![w],
        OperandView::LiteralBit64(v) => seq![
            (v % 0x1_0000_0000) as u32,
            (v / 0x1_0000_0000) as u32,
        ],
        OperandView::LiteralString(s) => string_words(s),
        OperandView::Enumerant(e) => seq![e.code],
    }
}

/// `Assemble::assemble` of `rspirv::dr::Operand`: the words of the operand.
#[verifier::external_body]
pub(crate) fn assemble_operand(raw: &dr::Operand) -> (r: Vec<u32>)
    ensures
        r@ == operand_words(operand_of(*raw)),
{
    raw.assemble()
}

/// Opens an `rspirv::dr::Instruction` into its public fields; of its grammar
/// entry only the opcode is kept.
#[verifier::external_body]
pub(crate) fn open_instruction(raw: dr::Instruction) -> (r: (
    spirv::Op,
    Option<u32>,
    Option<u32>,
    Vec<dr::Operand>,
))
    ensures
        instruction_of(raw) == (InstView {
            opcode: op_code(r.0),
            result_type: r.1,
            result_id: r.2,
            operands: operands_of(r.3@),
        }),
{
    (raw.class.opcode, raw.result_type, raw.result_id, raw.operands)
}

/// `rspirv::dr::Instruction::new`: an instruction with the given parts. Every
/// opcode has an entry in the grammar table, so the call does not panic.
#[verifier::external_body]
pub(crate) fn close_instruction(
    op: spirv::Op,
    result_type: Option<u32>,
    result_id: Option<u32>,
    operands: Vec<dr::Operand>,
) -> (r: dr::Instruction)
    ensures
        instruction_of(r) == (InstView {
            opcode: op_code(op),
            result_type,
            result_id,
            operands: operands_of(operands@),
        }),
{
    dr::Instruction::new(op, result_type, result_id, operands)
}

/// The text of the instruction with the given opcode, type, id and operands.
pub uninterp spec fn disassembly(
    opcode: u32,
    result_type: Option<u32>,
    result_id: Option<u32>,
    operands: Seq<OperandView>,
) -> Seq<char>;

/// `Disassemble::disassemble` of the instruction that `rspirv::dr::Instruction::new`
/// makes of the given parts: a text that depends on these parts alone, since the
/// grammar entry that the text takes a name from is the one in the table for the
/// opcode. Every opcode has an entry, so the calls do not panic.
#[verifier::external_body]
pub(crate) fn disassemble_instruction(
    op: spirv::Op,
    result_type: Option<u32>,
    result_id: Option<u32>,
    operands: Vec<dr::Operand>,
) -> (r: String)
    ensures
        r@ == disassembly(op_code(op), result_type, result_id, operands_of(operands@)),
{
    dr::Instruction::new(op, result_type, result_id, operands).disassemble()
}

/// Opens an `rspirv::dr::Block` into its public fields.
#[verifier::external_body]
pub(crate) fn open_block(raw: dr::Block) -> (r: (Option<dr::Instruction>, Vec<dr::Instruction>))
    ensures
        block_of(raw) == (BlockView {
            label: opt_instruction_of(r.0),
            instructions: instructions_of(r.1@),
        }),
{
    (raw.label, raw.instructions)
}

/// Builds an `rspirv::dr::Block` from its public fields.
#[verifier::external_body]
pub(crate) fn close_block(
    label: Option<dr::Instruction>,
    instructions: Vec<dr::Instruction>,
) -> (r: dr::Block)
    ensures
        block_of(r) == (BlockView {
            label: opt_instruction_of(label),
            instructions: instructions_of(instructions@),
        }),
{
    dr::Block { label, instructions }
}

/// The public fields of an `rspirv::dr::Function`.
pub struct RawFunction {
    pub def: Option<dr::Instruction>,
    pub end: Option<dr::Instruction>,
    pub parameters: Vec<dr::Instruction>,
    pub blocks: Vec<dr::Block>,
}

impl View for RawFunction {
    type V = FunctionView;

    open spec fn view(&self) -> FunctionView {
        FunctionView {
            def: opt_instruction_of(self.def),
            end: opt_instruction_of(self.end),
            parameters: instructions_of(self.parameters@),
            blocks: blocks_of(self.blocks@),
        }
    }
}

/// Opens an `rspirv::dr::Function` into its public fields.
#[verifier::external_body]
pub(crate) fn open_function(raw: dr::Function) -> (r: RawFunction)
    ensures
        r@ == function_of(raw),
{
    RawFunction { def: raw.def, end: raw.end, parameters: raw.parameters, blocks: raw.blocks }
}

/// Builds an `rspirv::dr::Function` from its public fields.
#[verifier::external_body]
pub(crate) fn close_function(f: RawFunction) -> (r: dr::Function)
    ensures
        function_of(r) == f@,
{
    dr::Function { def: f.def, end: f.end, parameters: f.parameters, blocks: f.blocks }
}

/// The public fields of an `rspirv::dr::Module`, with the header as plain words.
pub struct RawModule {
    pub header: Option<Header>,
    pub capabilities: Vec<dr::Instruction>,
    pub extensions: Vec<dr::Instruction>,
    pub ext_inst_imports: Vec<dr::Instruction>,
    pub memory_model: Option<dr::Instruction>,
    pub entry_points: Vec<dr::Instruction>,
    pub execution_modes: Vec<dr::Instruction>,
    pub debug_string_source: Vec<dr::Instruction>,
    pub debug_names: Vec<dr::Instruction>,
    pub debug_module_processed: Vec<dr::Instruction>,
    pub annotations: Vec<dr::Instruction>,
    pub types_global_values: Vec<dr::Instruction>,
    pub functions: Vec<dr::Function>,
}

impl View for RawModule {
    type V = ModuleView;

    open spec fn view(&self) -> ModuleView {
        ModuleView {
            header: self.header,
            capabilities: instructions_of(self.capabilities@),
            extensions: instructions_of(self.extensions@),
            ext_inst_imports: instructions_of(self.ext_inst_imports@),
            memory_model: opt_instruction_of(self.memory_model),
            entry_points: instructions_of(self.entry_points@),
            execution_modes: instructions_of(self.execution_modes@),
            debug_string_source: instructions_of(self.debug_string_source@),
            debug_names: instructions_of(self.debug_names@),
            debug_module_processed: instructions_of(self.debug_module_processed@),
            annotations: instructions_of(self.annotations@),
            types_global_values: instructions_of(self.types_global_values@),
            functions: functions_of(self.functions@),
        }
    }
}

/// Opens an `rspirv::dr::Module` into its public fields.
#[verifier::external_body]
pub(crate) fn open_module(raw: dr::Module) -> (r: RawModule)
    ensures
        r@ == module_of(raw),
{
    let header = raw.header.map(|h| Header {
        magic_number: h.magic_number, version: h.version, generator: h.generator,
        bound: h.bound, reserved_word: h.reserved_word,
    });
    RawModule {
        header, capabilities: raw.capabilities, extensions: raw.extensions,
        ext_inst_imports: raw.ext_inst_imports, memory_model: raw.memory_model,
        entry_points: raw.entry_points, execution_modes: raw.execution_modes,
        debug_string_source: raw.debug_string_source, debug_names: raw.debug_names,
        debug_module_processed: raw.debug_module_processed, annotations: raw.annotations,
        types_global_values: raw.types_global_values, functions: raw.functions,
    }
}

/// Builds an `rspirv::dr::Module` from its public fields.
#[verifier::external_body]
pub(crate) fn close_module(m: RawModule) -> (r: dr::Module)
    ensures
        module_of(r) == m@,
{
    let header = m.header.map(|h| dr::ModuleHeader {
        magic_number: h.magic_number, version: h.version, generator: h.generator,
        bound: h.bound, reserved_word: h.reserved_word,
    });
    dr::Module {
        header, capabilities: m.capabilities, extensions: m.extensions,
        ext_inst_imports: m.ext_inst_imports, memory_model: m.memory_model,
        entry_points: m.entry_points, execution_modes: m.execution_modes,
        debug_string_source: m.debug_string_source, debug_names: m.debug_names,
        debug_module_processed: m.debug_module_processed, annotations: m.annotations,
        types_global_values: m.types_global_values, functions: m.functions,
    }
}

/// The header that `rspirv` gives a module of its own, for SPIR-V 1.6 and with its
/// own generator number.
pub open spec fn own_header(bound: u32) -> Header {
    Header {
        magic_number: 0x0723_0203,
        version: 0x0001_0600,
        generator: 0x000f_0000,
        bound,
        reserved_word: 0,
    }
}

/// `rspirv::dr::ModuleHeader::new`: the header of a module of `rspirv`'s own.
#[verifier::external_body]
pub(crate) fn new_header(bound: u32) -> (r: Header)
    ensures
        r == own_header(bound),
{
    let h = dr::ModuleHeader::new(bound);
    Header {
        magic_number: h.magic_number, version: h.version, generator: h.generator,
        bound: h.bound, reserved_word: h.reserved_word,
    }
}

/// The words of operands in a row.
pub open spec fn operands_words(ops: Seq<OperandView>) -> Seq<u32>
    decreases ops.len(),
{
    if ops.len() == 0 {
        Seq::empty()
    } else {
        operands_words(ops.drop_last()) + operand_words(ops.last())
    }
}

/// An optional id as words.
pub open spec fn id_words(id: Option<u32>) -> Seq<u32> {
    match id {
        Some(w) => seq![w],
        None => Seq::empty(),
    }
}

/// The words of an instruction: one with the opcode in the lower half and the
/// number of words in the upper one, the type, the id and the operands.
pub open spec fn inst_words(i: InstView) -> Seq<u32> {
    let rest = id_words(i.result_type) + id_words(i.result_id) + operands_words(i.operands);
    seq![i.opcode | (((rest.len() + 1) as u32) << 16u32)] + rest
}

/// The words of instructions in a row.
pub open spec fn insts_words(insts: Seq<InstView>) -> Seq<u32>
    decreases insts.len(),
{
    if insts.len() == 0 {
        Seq::empty()
    } else {
        insts_words(insts.drop_last()) + inst_words(insts.last())
    }
}

/// The words of a module's header.
pub open spec fn header_words(h: Option<Header>) -> Seq<u32> {
    match h {
        Some(h) => seq![h.magic_number, h.version, h.generator, h.bound, h.reserved_word],
        None => Seq::empty(),
    }
}

/// The words of a module's binary: the header, if there is one, and all
/// instructions.
pub open spec fn module_words(m: ModuleView) -> Seq<u32> {
    header_words(m.header) + insts_words(m.all_insts())
}

/// `Assemble::assemble` of `rspirv::dr::Module`: the words of the header and of
/// the instructions of all sections, in their order.
#[verifier::external_body]
pub(crate) fn assemble_raw(raw: &dr::Module) -> (r: Vec<u32>)
    ensures
        r@ == module_words(module_of(*raw)),
{
    raw.assemble()
}

/// What a loader has built so far: the module with all that is finished, and the
/// function and the block that are still open.
pub struct LoaderView {
    pub module: ModuleView,
    pub function: Option<FunctionView>,
    pub block: Option<BlockView>,
}

/// What an `rspirv` loader holds.
pub uninterp spec fn loader_of(loader: dr::Loader) -> LoaderView;

/// The loader of `rspirv` before the first instruction.
pub open spec fn empty_loader() -> LoaderView {
    LoaderView { module: model::empty_module(), function: None, block: None }
}

impl LoaderView {
    /// With another declaration.
    pub open spec fn declaring(self, i: InstView) -> LoaderView {
        let m = self.module;
        LoaderView {
            module: ModuleView { types_global_values: m.types_global_values.push(i), ..m },
            ..self
        }
    }

    /// With another instruction in the open block; an instruction outside of
    /// blocks is left out.
    pub open spec fn continuing(self, i: InstView) -> LoaderView {
        match self.block {
            Some(b) => LoaderView {
                block: Some(BlockView { instructions: b.instructions.push(i), ..b }),
                ..self
            },
            None => self,
        }
    }

    /// With an instruction that belongs to a function: one that opens or closes
    /// a function or a block, or stands in one. An instruction that has no place
    /// where the loader stands is left out.
    pub open spec fn in_function(self, i: InstView) -> LoaderView {
        let m = self.module;
        let op = i.opcode;
        if op == opcode::FUNCTION {
            if self.function is Some {
                self
            } else {
                let f = FunctionView {
                    def: Some(i),
                    end: None,
                    parameters: Seq::empty(),
                    blocks: Seq::empty(),
                };
                LoaderView { function: Some(f), ..self }
            }
        } else if op == opcode::FUNCTION_END {
            if self.function is None || self.block is Some {
                self
            } else {
                let f = FunctionView { end: Some(i), ..self.function->0 };
                LoaderView {
                    module: ModuleView { functions: m.functions.push(f), ..m },
                    function: None,
                    ..self
                }
            }
        } else if op == opcode::FUNCTION_PARAMETER {
            match self.function {
                Some(f) => LoaderView {
                    function: Some(FunctionView { parameters: f.parameters.push(i), ..f }),
                    ..self
                },
                None => self,
            }
        } else if op == opcode::LABEL {
            if self.function is None || self.block is Some {
                self
            } else {
                let b = BlockView { label: Some(i), instructions: Seq::empty() };
                LoaderView { block: Some(b), ..self }
            }
        } else if opcode::is_terminator(op) && self.block is Some {
            let f = self.function->0;
            LoaderView {
                function: Some(
                    FunctionView { blocks: f.blocks.push(self.continuing(i).block->0), ..f },
                ),
                block: None,
                ..self
            }
        } else {
            self.continuing(i)
        }
    }
}

/// What a loader holds after one more instruction.
pub open spec fn consumed(s: LoaderView, i: InstView) -> LoaderView {
    let m = s.module;
    let op = i.opcode;
    if op == opcode::CAPABILITY {
        LoaderView { module: ModuleView { capabilities: m.capabilities.push(i), ..m }, ..s }
    } else if op == opcode::EXTENSION {
        LoaderView { module: ModuleView { extensions: m.extensions.push(i), ..m }, ..s }
    } else if op == opcode::EXT_INST_IMPORT {
        LoaderView { module: ModuleView { ext_inst_imports: m.ext_inst_imports.push(i), ..m }, ..s }
    } else if op == opcode::MEMORY_MODEL {
        LoaderView { module: ModuleView { memory_model: Some(i), ..m }, ..s }
    } else if op == opcode::ENTRY_POINT {
        LoaderView { module: ModuleView { entry_points: m.entry_points.push(i), ..m }, ..s }
    } else if op == opcode::EXECUTION_MODE {
        LoaderView { module: ModuleView { execution_modes: m.execution_modes.push(i), ..m }, ..s }
    } else if opcode::is_string_source(op) {
        LoaderView {
            module: ModuleView { debug_string_source: m.debug_string_source.push(i), ..m },
            ..s
        }
    } else if opcode::is_name(op) {
        LoaderView { module: ModuleView { debug_names: m.debug_names.push(i), ..m }, ..s }
    } else if op == opcode::MODULE_PROCESSED {
        LoaderView {
            module: ModuleView { debug_module_processed: m.debug_module_processed.push(i), ..m },
            ..s
        }
    } else if opcode::is_annotation(op) {
        LoaderView { module: ModuleView { annotations: m.annotations.push(i), ..m }, ..s }
    } else if opcode::is_location(op) {
        if s.block is Some {
            s.continuing(i)
        } else {
            s.declaring(i)
        }
    } else if opcode::is_type(op) || opcode::is_constant(op) {
        s.declaring(i)
    } else if (op == opcode::VARIABLE || op == opcode::UNDEF) && s.function is None {
        s.declaring(i)
    } else {
        s.in_function(i)
    }
}

/// `rspirv::dr::Loader::new`: a loader that holds an empty module.
#[verifier::external_body]
pub(crate) fn new_loader() -> (r: dr::Loader)
    ensures
        loader_of(r) == empty_loader(),
{
    dr::Loader::new()
}

/// `Consumer::consume_instruction` of `rspirv::dr::Loader`, whose answer is
/// dropped: puts the instruction into the section that its opcode belongs to, or
/// into the function and the block that are open, and leaves it out where it has
/// no place. A loader opens blocks only inside functions.
#[verifier::external_body]
pub(crate) fn consume(loader: &mut dr::Loader, inst: dr::Instruction)
    requires
        loader_of(*old(loader)).block is Some ==> loader_of(*old(loader)).function is Some,
    ensures
        loader_of(*final(loader)) == consumed(loader_of(*old(loader)), instruction_of(inst)),
{
    let _ = loader.consume_instruction(inst);
}

/// `rspirv::dr::Loader::module`: the module built so far; what is still open is
/// dropped.
#[verifier::external_body]
pub(crate) fn loader_module(loader: dr::Loader) -> (r: dr::Module)
    ensures
        module_of(r) == loader_of(loader).module,
{
    loader.module()
}

/// The number of words in the header of a binary.
pub const HEADER_WORDS: usize = 5;

/// The number of words that an instruction says it has.
pub open spec fn word_count(word: u32) -> int {
    word as int / 0x1_0000
}

/// Whether the instruction at `at` is a constant operation on an opcode whose
/// operands cannot be read there.
pub open spec fn nests_context(words: Seq<u32>, at: int) -> bool {
    let inner = words[at + 3];
    &&& words[at] % 0x1_0000 == opcode::SPEC_CONSTANT_OP
    &&& word_count(words[at]) > 3
    &&& inner == opcode::CONSTANT || inner == opcode::SPEC_CONSTANT || inner
        == opcode::SPEC_CONSTANT_OP || inner == opcode::SWITCH
}

/// Whether the words from `at` on are cut into instructions by the word counts,
/// and none of them nests an opcode whose operands cannot be read.
pub open spec fn framed(words: Seq<u32>, at: int) -> bool
    decreases words.len() - at,
{
    at >= words.len() || {
        &&& 0 < word_count(words[at]) <= words.len() - at
        &&& !nests_context(words, at)
        &&& framed(words, at + word_count(words[at]))
    }
}

/// The header that `rspirv` keeps of a binary: the generator becomes its own and
/// the reserved word 0; of the version only the two middle bytes count.
pub open spec fn header_of(words: Seq<u32>) -> Header {
    Header {
        magic_number: 0x0723_0203,
        version: (words[1] / 0x100 % 0x1_0000 * 0x100) as u32,
        generator: 0x000f_0000,
        bound: words[3],
        reserved_word: 0,
    }
}

/// The instructions of a binary, if it is well-formed and they all have a place in
/// a module.
pub uninterp spec fn parsed(bytes: Seq<u8>) -> Option<Seq<InstView>>;

/// What a loader holds after a sequence of instructions.
pub open spec fn loader_after(insts: Seq<InstView>) -> LoaderView
    decreases insts.len(),
{
    if insts.len() == 0 {
        empty_loader()
    } else {
        consumed(loader_after(insts.drop_last()), insts.last())
    }
}

/// `rspirv::binary::parse_bytes` with a new `Loader`, which gets the header and
/// then each instruction in turn. Tells whether the binary was accepted; its first
/// word is then the magic number, and no function is left open. Which instructions
/// a binary holds is left to the name. The parser panics on a string in an
/// instruction that the binary cuts short and on some nested opcodes.
#[verifier::external_body]
pub(crate) fn parse_bytes(bytes: &[u8], loader: &mut dr::Loader) -> (r: bool)
    requires
        framed(words_of(bytes@), HEADER_WORDS as int),
        loader_of(*old(loader)) == empty_loader(),
    ensures
        r == parsed(bytes@) is Some,
        r ==> words_of(bytes@).len() >= HEADER_WORDS && words_of(bytes@)[0] == 0x0723_0203,
        r ==> loader_of(*final(loader)) == (LoaderView {
            module: ModuleView {
                header: Some(header_of(words_of(bytes@))),
                ..loader_after(parsed(bytes@)->0).module
            },
            function: None,
            block: None,
        }),
{
    rspirv::binary::parse_bytes(bytes, loader).is_ok()
}

/// The sorter of `topological_sort`, which hands out items in rounds.
#[verifier::external_type_specification]
#[verifier::external_body]
#[verifier::reject_recursive_types(T)]
pub struct ExTopologicalSort<T>(topological_sort::TopologicalSort<T>);

/// The items that a sorter has not handed out yet.
pub uninterp spec fn items_of(sorter: TopologicalSort<u32>) -> Set<u32>;

/// The links of a sorter whose first item it has not handed out yet.
pub uninterp spec fn links_of(sorter: TopologicalSort<u32>) -> Set<(u32, u32)>;

/// `TopologicalSort::new`: a sorter without items.
#[verifier::external_body]
pub(crate) fn new_sorter() -> (r: TopologicalSort<u32>)
    ensures
        items_of(r) == Set::<u32>::empty(),
        links_of(r) == Set::<(u32, u32)>::empty(),
{
    TopologicalSort::new()
}

/// `TopologicalSort::add_dependency`: adds both items, if they are new, and the
/// link from `prec` to `succ`; tells whether the link is new.
#[verifier::external_body]
pub(crate) fn add_dependency(sorter: &mut TopologicalSort<u32>, prec: u32, succ: u32) -> (r: bool)
    ensures
        items_of(*final(sorter)) == items_of(*old(sorter)).insert(prec).insert(succ),
        links_of(*final(sorter)) == links_of(*old(sorter)).insert((prec, succ)),
        r == !links_of(*old(sorter)).contains((prec, succ)),
{
    sorter.add_dependency(prec, succ)
}

/// `TopologicalSort::is_empty`: whether all items have been handed out.
#[verifier::external_body]
pub(crate) fn is_sorter_empty(sorter: &TopologicalSort<u32>) -> (r: bool)
    ensures
        r == (items_of(*sorter) == Set::<u32>::empty()),
{
    sorter.is_empty()
}

/// `TopologicalSort::pop_all`: removes the items that no link leads to, with the
/// links from them, and returns each of them once. Their order is left open.
#[allow(deprecated)]
#[verifier::external_body]
pub(crate) fn pop_all(sorter: &mut TopologicalSort<u32>) -> (r: Vec<u32>)
    ensures
        r@.no_duplicates(),
        forall|x: u32| #[trigger]
            r@.contains(x) <==> items_of(*old(sorter)).contains(x) && forall|p: u32|
                !links_of(*old(sorter)).contains((p, x)),
        forall|x: u32| #[trigger]
            items_of(*final(sorter)).contains(x) <==> items_of(*old(sorter)).contains(x)
                && !r@.contains(x),
        forall|p: u32, x: u32| #[trigger]
            links_of(*final(sorter)).contains((p, x)) <==> links_of(*old(sorter)).contains((p, x))
                && !r@.contains(p),
{
    sorter.pop_all()
}

/// `sort` of a slice: the same elements in ascending order.
#[verifier::external_body]
pub(crate) fn sort_ids(v: &mut Vec<u32>)
    ensures
        final(v)@.to_multiset() == old(v)@.to_multiset(),
        forall|i: int, j: int| 0 <= i <= j < final(v)@.len() ==> final(v)@[i] <= final(v)@[j],
{
    v.sort()
}

} // verus!

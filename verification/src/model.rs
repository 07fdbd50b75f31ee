//! SPIR-V modules as plain data, and the mathematical model of that data.
//!
//! Every executable type has a view: the same shape with `Seq` in place of
//! `Vec`, `Seq<char>` in place of `String` and the opcode's number in place of
//! the opcode. All contracts of the crate are stated over these views.

use vstd::prelude::*;

use crate::bridge;
use rspirv::dr;
use rspirv::spirv;

verus! {

/// The views of the elements of a sequence.
pub open spec fn views<T: View>(s: Seq<T>) -> Seq<T::V> {
    Seq::new(s.len(), |i: int| s[i]@)
}

/// The view of an optional value.
pub open spec fn opt_view<T: View>(o: Option<T>) -> Option<T::V> {
    match o {
        Some(x) => Some(x@),
        None => None,
    }
}

pub broadcast proof fn lemma_views_push<T: View>(s: Seq<T>, x: T)
    ensures
        #[trigger] views(s.push(x)) == views(s).push(x@),
{
    assert(views(s.push(x)) =~= views(s).push(x@));
}

/// A value that can be copied without changing what it means.
pub trait Duplicate: View + Sized {
    fn duplicate(&self) -> (r: Self)
        ensures
            r@ == self@,
    ;
}

/// Copies a vector element by element.
pub fn duplicate_all<T: Duplicate>(v: &Vec<T>) -> (r: Vec<T>)
    ensures
        views(r@) == views(v@),
{
    let mut r: Vec<T> = Vec::new();
    for i in 0..v.len()
        invariant
            r@.len() == i,
            forall|j: int| 0 <= j < i ==> (#[trigger] r@[j])@ == v@[j]@,
    {
        r.push(v[i].duplicate());
    }
    assert(views(r@) =~= views(v@));
    r
}

/// Copies an optional value.
pub fn duplicate_option<T: Duplicate>(o: &Option<T>) -> (r: Option<T>)
    ensures
        opt_view(r) == opt_view(*o),
{
    match o {
        Some(x) => Some(x.duplicate()),
        None => None,
    }
}

/// The kinds of enumerants that linking looks at.
#[derive(Clone, Copy, Debug, PartialEq, Eq, Structural)]
pub enum EnumerantKind {
    Capability,
    Decoration,
    LinkageType,
    StorageClass,
    Dim,
    ImageFormat,
    AccessQualifier,
    Other,
}

/// What an enumerant is: its kind, which of the grammar's operand kinds it
/// belongs to, and the word that stands for it in a binary.
pub struct EnumerantView {
    pub kind: EnumerantKind,
    pub variant: nat,
    pub code: u32,
}

/// An operand that is neither an id nor a literal number or string.
#[derive(Debug, PartialEq, Eq)]
pub struct Enumerant {
    pub(crate) raw: dr::Operand,
}

/// An operand of an instruction.
#[derive(Debug, PartialEq, Eq)]
pub enum SpvOperand {
    IdMemorySemantics(u32),
    IdScope(u32),
    IdRef(u32),
    LiteralBit32(u32),
    LiteralBit64(u64),
    LiteralString(String),
    Enumerant(Enumerant),
}

pub enum OperandView {
    IdMemorySemantics(u32),
    IdScope(u32),
    IdRef(u32),
    LiteralBit32(u32),
    LiteralBit64(u64),
    LiteralString(Seq<char>),
    Enumerant(EnumerantView),
}

/// An instruction: its opcode, the type and the id of its result where it has
/// them, and its operands.
#[derive(Debug, PartialEq, Eq)]
pub struct SpvInst {
    pub op: spirv::Op,
    pub result_type: Option<u32>,
    pub result_id: Option<u32>,
    pub operands: Vec<SpvOperand>,
}

#[verifier::ext_equal]
pub struct InstView {
    pub opcode: u32,
    pub result_type: Option<u32>,
    pub result_id: Option<u32>,
    pub operands: Seq<OperandView>,
}

/// A block of a function: the label that starts it and what follows.
#[derive(Debug, PartialEq, Eq)]
pub struct SpvBlock {
    pub label: Option<SpvInst>,
    pub instructions: Vec<SpvInst>,
}

#[verifier::ext_equal]
pub struct BlockView {
    pub label: Option<InstView>,
    pub instructions: Seq<InstView>,
}

/// A function: its defining and its closing instruction, its parameters and its
/// blocks. A function without blocks is a declaration.
#[derive(Debug, PartialEq, Eq)]
pub struct SpvFunction {
    pub def: Option<SpvInst>,
    pub end: Option<SpvInst>,
    pub parameters: Vec<SpvInst>,
    pub blocks: Vec<SpvBlock>,
}

#[verifier::ext_equal]
pub struct FunctionView {
    pub def: Option<InstView>,
    pub end: Option<InstView>,
    pub parameters: Seq<InstView>,
    pub blocks: Seq<BlockView>,
}

/// The five words that open a binary. Every id of the module is below `bound`.
#[derive(Clone, Copy, Debug, PartialEq, Eq, Structural)]
pub struct Header {
    pub magic_number: u32,
    pub version: u32,
    pub generator: u32,
    pub bound: u32,
    pub reserved_word: u32,
}

/// A module, section by section.
#[derive(Debug, PartialEq, Eq)]
pub struct SpvModule {
    pub header: Option<Header>,
    pub capabilities: Vec<SpvInst>,
    pub extensions: Vec<SpvInst>,
    pub ext_inst_imports: Vec<SpvInst>,
    pub memory_model: Option<SpvInst>,
    pub entry_points: Vec<SpvInst>,
    pub execution_modes: Vec<SpvInst>,
    pub debug_string_source: Vec<SpvInst>,
    pub debug_names: Vec<SpvInst>,
    pub debug_module_processed: Vec<SpvInst>,
    pub annotations: Vec<SpvInst>,
    pub types_global_values: Vec<SpvInst>,
    pub functions: Vec<SpvFunction>,
}

#[verifier::ext_equal]
pub struct ModuleView {
    pub header: Option<Header>,
    pub capabilities: Seq<InstView>,
    pub extensions: Seq<InstView>,
    pub ext_inst_imports: Seq<InstView>,
    pub memory_model: Option<InstView>,
    pub entry_points: Seq<InstView>,
    pub execution_modes: Seq<InstView>,
    pub debug_string_source: Seq<InstView>,
    pub debug_names: Seq<InstView>,
    pub debug_module_processed: Seq<InstView>,
    pub annotations: Seq<InstView>,
    pub types_global_values: Seq<InstView>,
    pub functions: Seq<FunctionView>,
}

/// A module without header and without instructions.
pub open spec fn empty_module() -> ModuleView {
    ModuleView {
        header: None,
        capabilities: Seq::empty(),
        extensions: Seq::empty(),
        ext_inst_imports: Seq::empty(),
        memory_model: None,
        entry_points: Seq::empty(),
        execution_modes: Seq::empty(),
        debug_string_source: Seq::empty(),
        debug_names: Seq::empty(),
        debug_module_processed: Seq::empty(),
        annotations: Seq::empty(),
        types_global_values: Seq::empty(),
        functions: Seq::empty(),
    }
}

impl View for Enumerant {
    type V = EnumerantView;

    closed spec fn view(&self) -> EnumerantView {
        bridge::operand_of(self.raw)->Enumerant_0
    }
}

impl View for SpvOperand {
    type V = OperandView;

    open spec fn view(&self) -> OperandView {
        match *self {
            SpvOperand::IdMemorySemantics(w) => OperandView::IdMemorySemantics(w),
            SpvOperand::IdScope(w) => OperandView::IdScope(w),
            SpvOperand::IdRef(w) => OperandView::IdRef(w),
            SpvOperand::LiteralBit32(w) => OperandView::LiteralBit32(w),
            SpvOperand::LiteralBit64(w) => OperandView::LiteralBit64(w),
            SpvOperand::LiteralString(s) => OperandView::LiteralString(s@),
            SpvOperand::Enumerant(e) => OperandView::Enumerant(e@),
        }
    }
}

impl View for SpvInst {
    type V = InstView;

    open spec fn view(&self) -> InstView {
        InstView {
            opcode: bridge::op_code(self.op),
            result_type: self.result_type,
            result_id: self.result_id,
            operands: views(self.operands@),
        }
    }
}

impl View for SpvBlock {
    type V = BlockView;

    open spec fn view(&self) -> BlockView {
        BlockView { label: opt_view(self.label), instructions: views(self.instructions@) }
    }
}

impl View for SpvFunction {
    type V = FunctionView;

    open spec fn view(&self) -> FunctionView {
        FunctionView {
            def: opt_view(self.def),
            end: opt_view(self.end),
            parameters: views(self.parameters@),
            blocks: views(self.blocks@),
        }
    }
}

impl View for SpvModule {
    type V = ModuleView;

    open spec fn view(&self) -> ModuleView {
        ModuleView {
            header: self.header,
            capabilities: views(self.capabilities@),
            extensions: views(self.extensions@),
            ext_inst_imports: views(self.ext_inst_imports@),
            memory_model: opt_view(self.memory_model),
            entry_points: views(self.entry_points@),
            execution_modes: views(self.execution_modes@),
            debug_string_source: views(self.debug_string_source@),
            debug_names: views(self.debug_names@),
            debug_module_processed: views(self.debug_module_processed@),
            annotations: views(self.annotations@),
            types_global_values: views(self.types_global_values@),
            functions: views(self.functions@),
        }
    }
}

impl Enumerant {
    /// An enumerant never stands for an id or a literal.
    #[verifier::type_invariant]
    pub(crate) closed spec fn inv(self) -> bool {
        bridge::operand_of(self.raw) is Enumerant
    }
}

impl Duplicate for Enumerant {
    fn duplicate(&self) -> (r: Self) {
        proof { use_type_invariant(self); }
        Enumerant { raw: self.raw.clone() }
    }
}

impl Duplicate for SpvOperand {
    fn duplicate(&self) -> (r: Self) {
        match self {
            SpvOperand::IdMemorySemantics(w) => SpvOperand::IdMemorySemantics(*w),
            SpvOperand::IdScope(w) => SpvOperand::IdScope(*w),
            SpvOperand::IdRef(w) => SpvOperand::IdRef(*w),
            SpvOperand::LiteralBit32(w) => SpvOperand::LiteralBit32(*w),
            SpvOperand::LiteralBit64(w) => SpvOperand::LiteralBit64(*w),
            SpvOperand::LiteralString(s) => SpvOperand::LiteralString(s.clone()),
            SpvOperand::Enumerant(e) => SpvOperand::Enumerant(e.duplicate()),
        }
    }
}

impl Duplicate for SpvInst {
    fn duplicate(&self) -> (r: Self) {
        SpvInst {
            op: self.op,
            result_type: self.result_type,
            result_id: self.result_id,
            operands: duplicate_all(&self.operands),
        }
    }
}

impl Duplicate for SpvBlock {
    fn duplicate(&self) -> (r: Self) {
        SpvBlock {
            label: duplicate_option(&self.label),
            instructions: duplicate_all(&self.instructions),
        }
    }
}

impl Duplicate for SpvFunction {
    fn duplicate(&self) -> (r: Self) {
        SpvFunction {
            def: duplicate_option(&self.def),
            end: duplicate_option(&self.end),
            parameters: duplicate_all(&self.parameters),
            blocks: duplicate_all(&self.blocks),
        }
    }
}

impl Duplicate for SpvModule {
    fn duplicate(&self) -> (r: Self) {
        SpvModule {
            header: self.header,
            capabilities: duplicate_all(&self.capabilities),
            extensions: duplicate_all(&self.extensions),
            ext_inst_imports: duplicate_all(&self.ext_inst_imports),
            memory_model: duplicate_option(&self.memory_model),
            entry_points: duplicate_all(&self.entry_points),
            execution_modes: duplicate_all(&self.execution_modes),
            debug_string_source: duplicate_all(&self.debug_string_source),
            debug_names: duplicate_all(&self.debug_names),
            debug_module_processed: duplicate_all(&self.debug_module_processed),
            annotations: duplicate_all(&self.annotations),
            types_global_values: duplicate_all(&self.types_global_values),
            functions: duplicate_all(&self.functions),
        }
    }
}

/// The instruction that an optional place holds, if any.
pub open spec fn opt_seq<A>(o: Option<A>) -> Seq<A> {
    match o {
        Some(x) => seq![x],
        None => Seq::empty(),
    }
}

/// Applies `f` to an optional instruction.
pub open spec fn opt_map<A, B>(o: Option<A>, f: spec_fn(A) -> B) -> Option<B> {
    match o {
        Some(x) => Some(f(x)),
        None => None,
    }
}

/// Whether `p` holds of every element.
pub open spec fn each<A>(s: Seq<A>, p: spec_fn(A) -> bool) -> bool {
    forall|i: int| 0 <= i < s.len() ==> p(#[trigger] s[i])
}

/// The instructions of a sequence of blocks.
pub open spec fn block_insts(blocks: Seq<BlockView>) -> Seq<InstView>
    decreases blocks.len(),
{
    if blocks.len() == 0 {
        Seq::empty()
    } else {
        block_insts(blocks.drop_last()) + blocks.last().all_insts()
    }
}

/// The instructions of a sequence of functions.
pub open spec fn function_insts(functions: Seq<FunctionView>) -> Seq<InstView>
    decreases functions.len(),
{
    if functions.len() == 0 {
        Seq::empty()
    } else {
        function_insts(functions.drop_last()) + functions.last().all_insts()
    }
}

impl OperandView {
    /// The id that the operand refers to, if it is an id.
    pub open spec fn id(self) -> Option<u32> {
        match self {
            OperandView::IdMemorySemantics(w) => Some(w),
            OperandView::IdScope(w) => Some(w),
            OperandView::IdRef(w) => Some(w),
            _ => None,
        }
    }

    /// The operand with its id, if it is one, replaced.
    pub open spec fn renamed(self, used: spec_fn(u32) -> u32) -> OperandView {
        match self {
            OperandView::IdMemorySemantics(w) => OperandView::IdMemorySemantics(used(w)),
            OperandView::IdScope(w) => OperandView::IdScope(used(w)),
            OperandView::IdRef(w) => OperandView::IdRef(used(w)),
            _ => self,
        }
    }

    /// Whether the operand is the enumerant of the given kind and number.
    pub open spec fn is_enumerant(self, kind: EnumerantKind, code: u32) -> bool {
        self matches OperandView::Enumerant(e) && e.kind == kind && e.code == code
    }
}

/// Whether one of the operands refers to `id`.
pub open spec fn refers(operands: Seq<OperandView>, id: u32) -> bool {
    exists|i: int| 0 <= i < operands.len() && (#[trigger] operands[i]).id() == Some(id)
}

impl InstView {
    /// Whether an operand of the instruction refers to `id`.
    pub open spec fn operand_uses(self, id: u32) -> bool {
        refers(self.operands, id)
    }

    /// Whether the instruction refers to `id`, as its type or in an operand.
    pub open spec fn uses(self, id: u32) -> bool {
        self.result_type == Some(id) || self.operand_uses(id)
    }

    /// Whether `id` occurs in the instruction.
    pub open spec fn mentions(self, id: u32) -> bool {
        self.result_id == Some(id) || self.uses(id)
    }

    /// The instruction with the id of its result replaced as `def` says and the
    /// ids that it refers to as `used` says.
    pub open spec fn renamed(
        self,
        def: spec_fn(u32) -> u32,
        used: spec_fn(u32) -> u32,
    ) -> InstView {
        InstView {
            opcode: self.opcode,
            result_type: opt_map(self.result_type, used),
            result_id: opt_map(self.result_id, def),
            operands: self.operands.map_values(|o: OperandView| o.renamed(used)),
        }
    }
}

impl BlockView {
    /// The label and the instructions that follow it.
    pub open spec fn all_insts(self) -> Seq<InstView> {
        opt_seq(self.label) + self.instructions
    }

    pub open spec fn map_insts(self, f: spec_fn(InstView) -> InstView) -> BlockView {
        BlockView { label: opt_map(self.label, f), instructions: self.instructions.map_values(f) }
    }

    pub open spec fn every(self, p: spec_fn(InstView) -> bool) -> bool {
        &&& self.label is Some ==> p(self.label->0)
        &&& each(self.instructions, p)
    }
}

impl FunctionView {
    /// The defining instruction, the parameters, the blocks and the end.
    pub open spec fn all_insts(self) -> Seq<InstView> {
        opt_seq(self.def) + self.parameters + block_insts(self.blocks) + opt_seq(self.end)
    }

    pub open spec fn map_insts(self, f: spec_fn(InstView) -> InstView) -> FunctionView {
        FunctionView {
            def: opt_map(self.def, f),
            end: opt_map(self.end, f),
            parameters: self.parameters.map_values(f),
            blocks: self.blocks.map_values(|b: BlockView| b.map_insts(f)),
        }
    }

    pub open spec fn every(self, p: spec_fn(InstView) -> bool) -> bool {
        &&& self.def is Some ==> p(self.def->0)
        &&& self.end is Some ==> p(self.end->0)
        &&& each(self.parameters, p)
        &&& each(self.blocks, |b: BlockView| b.every(p))
    }
}

impl ModuleView {
    /// All instructions of the module, in the order of a binary.
    pub open spec fn all_insts(self) -> Seq<InstView> {
        self.capabilities + self.extensions + self.ext_inst_imports + opt_seq(self.memory_model)
            + self.entry_points + self.execution_modes + self.debug_string_source
            + self.debug_names + self.debug_module_processed + self.annotations
            + self.types_global_values + function_insts(self.functions)
    }

    /// The module with `f` applied to each instruction.
    pub open spec fn map_insts(self, f: spec_fn(InstView) -> InstView) -> ModuleView {
        ModuleView {
            header: self.header,
            capabilities: self.capabilities.map_values(f),
            extensions: self.extensions.map_values(f),
            ext_inst_imports: self.ext_inst_imports.map_values(f),
            memory_model: opt_map(self.memory_model, f),
            entry_points: self.entry_points.map_values(f),
            execution_modes: self.execution_modes.map_values(f),
            debug_string_source: self.debug_string_source.map_values(f),
            debug_names: self.debug_names.map_values(f),
            debug_module_processed: self.debug_module_processed.map_values(f),
            annotations: self.annotations.map_values(f),
            types_global_values: self.types_global_values.map_values(f),
            functions: self.functions.map_values(|g: FunctionView| g.map_insts(f)),
        }
    }

    /// Whether `p` holds of every instruction.
    pub open spec fn every(self, p: spec_fn(InstView) -> bool) -> bool {
        &&& each(self.capabilities, p)
        &&& each(self.extensions, p)
        &&& each(self.ext_inst_imports, p)
        &&& self.memory_model is Some ==> p(self.memory_model->0)
        &&& each(self.entry_points, p)
        &&& each(self.execution_modes, p)
        &&& each(self.debug_string_source, p)
        &&& each(self.debug_names, p)
        &&& each(self.debug_module_processed, p)
        &&& each(self.annotations, p)
        &&& each(self.types_global_values, p)
        &&& each(self.functions, |g: FunctionView| g.every(p))
    }
}

impl Enumerant {
    /// The kind and the number of the enumerant.
    pub fn read(&self) -> (r: (EnumerantKind, u32))
        ensures
            r.0 == self@.kind,
            r.1 == self@.code,
    {
        proof {
            use_type_invariant(self);
        }
        (bridge::enumerant_kind(&self.raw), bridge::assemble_operand(&self.raw)[0])
    }
}

impl SpvOperand {
    /// The operand that an `rspirv` operand stands for.
    pub fn from_rspirv(raw: dr::Operand) -> (r: SpvOperand)
        ensures
            r@ == bridge::operand_of(raw),
    {
        bridge::open_operand(raw)
    }

    /// The id that the operand refers to, if it is an id.
    pub fn id(&self) -> (r: Option<u32>)
        ensures
            r == self@.id(),
    {
        match self {
            SpvOperand::IdMemorySemantics(w) => Some(*w),
            SpvOperand::IdScope(w) => Some(*w),
            SpvOperand::IdRef(w) => Some(*w),
            _ => None,
        }
    }

    /// Whether the operand is the enumerant of the given kind and number.
    pub fn is_enumerant(&self, kind: EnumerantKind, code: u32) -> (r: bool)
        ensures
            r == self@.is_enumerant(kind, code),
    {
        match self {
            SpvOperand::Enumerant(e) => {
                let (k, c) = e.read();
                k == kind && c == code
            },
            _ => false,
        }
    }

    /// Whether two operands are the same.
    pub fn same(&self, other: &SpvOperand) -> (r: bool)
        ensures
            r == (self@ == other@),
    {
        match (self, other) {
            (SpvOperand::IdMemorySemantics(a), SpvOperand::IdMemorySemantics(b)) => *a == *b,
            (SpvOperand::IdScope(a), SpvOperand::IdScope(b)) => *a == *b,
            (SpvOperand::IdRef(a), SpvOperand::IdRef(b)) => *a == *b,
            (SpvOperand::LiteralBit32(a), SpvOperand::LiteralBit32(b)) => *a == *b,
            (SpvOperand::LiteralBit64(a), SpvOperand::LiteralBit64(b)) => *a == *b,
            (SpvOperand::LiteralString(a), SpvOperand::LiteralString(b)) => *a == *b,
            (SpvOperand::Enumerant(a), SpvOperand::Enumerant(b)) => {
                proof {
                    use_type_invariant(a);
                    use_type_invariant(b);
                }
                bridge::same_operand(&a.raw, &b.raw)
            },
            _ => false,
        }
    }
}

/// Whether two lists of operands are the same.
pub fn same_operands(a: &Vec<SpvOperand>, b: &Vec<SpvOperand>) -> (r: bool)
    ensures
        r == (views(a@) == views(b@)),
{
    if a.len() != b.len() {
        assert(views(a@).len() != views(b@).len());
        return false;
    }
    for i in 0..a.len()
        invariant
            a.len() == b.len(),
            forall|j: int| 0 <= j < i ==> (#[trigger] a@[j])@ == b@[j]@,
    {
        if !a[i].same(&b[i]) {
            assert(views(a@)[i as int] != views(b@)[i as int]);
            return false;
        }
    }
    assert(views(a@) =~= views(b@));
    true
}

impl SpvInst {
    /// An instruction with the given parts.
    pub fn new(
        op: spirv::Op,
        result_type: Option<u32>,
        result_id: Option<u32>,
        operands: Vec<SpvOperand>,
    ) -> (r: SpvInst)
        ensures
            r@ == (InstView {
                opcode: bridge::op_code(op),
                result_type,
                result_id,
                operands: views(operands@),
            }),
    {
        SpvInst { op, result_type, result_id, operands }
    }

    /// The number of the opcode.
    pub fn opcode(&self) -> (r: u32)
        ensures
            r == self@.opcode,
    {
        bridge::read_op(self.op)
    }
}

/// Appends copies of the instructions of a section.
fn append_insts(out: &mut Vec<SpvInst>, v: &Vec<SpvInst>)
    ensures
        views(final(out)@) == views(old(out)@) + views(v@),
{
    let ghost before = views(out@);
    assert(before =~= before + views(v@).take(0));
    for i in 0..v.len()
        invariant
            views(out@) == before + views(v@).take(i as int),
    {
        broadcast use lemma_views_push;

        out.push(v[i].duplicate());
        assert(views(v@).take(i + 1) =~= views(v@).take(i as int).push(v@[i as int]@));
        assert(views(out@) =~= before + views(v@).take(i + 1));
    }
    assert(views(v@).take(v@.len() as int) =~= views(v@));
}

/// Appends a copy of an instruction that may be missing.
fn append_option(out: &mut Vec<SpvInst>, o: &Option<SpvInst>)
    ensures
        views(final(out)@) == views(old(out)@) + opt_seq(opt_view(*o)),
{
    broadcast use lemma_views_push;

    match o {
        Some(x) => {
            out.push(x.duplicate());
            assert(views(out@) =~= views(old(out)@) + seq![x@]);
        },
        None => {
            assert(views(out@) =~= views(old(out)@) + Seq::empty());
        },
    }
}

/// Appends copies of the instructions of a function.
fn append_function(out: &mut Vec<SpvInst>, f: &SpvFunction)
    ensures
        views(final(out)@) == views(old(out)@) + f@.all_insts(),
{
    let ghost before = views(out@);
    append_option(out, &f.def);
    append_insts(out, &f.parameters);
    let ghost head = before + opt_seq(f@.def) + f@.parameters;
    let ghost blocks = views(f.blocks@);
    assert(head =~= head + block_insts(blocks.take(0)));
    for i in 0..f.blocks.len()
        invariant
            blocks == views(f.blocks@),
            views(out@) == head + block_insts(blocks.take(i as int)),
    {
        append_option(out, &f.blocks[i].label);
        append_insts(out, &f.blocks[i].instructions);
        assert(blocks.take(i + 1).drop_last() =~= blocks.take(i as int));
        assert(blocks.take(i + 1).last() == f.blocks@[i as int]@);
        assert(views(out@) =~= head + block_insts(blocks.take(i + 1)));
    }
    assert(blocks.take(blocks.len() as int) =~= blocks);
    append_option(out, &f.end);
    assert(views(out@) =~= before + f@.all_insts());
}

impl SpvModule {
    /// A module without header and without instructions.
    pub fn new() -> (r: SpvModule)
        ensures
            r@ == empty_module(),
    {
        let r = SpvModule {
            header: None,
            capabilities: Vec::new(),
            extensions: Vec::new(),
            ext_inst_imports: Vec::new(),
            memory_model: None,
            entry_points: Vec::new(),
            execution_modes: Vec::new(),
            debug_string_source: Vec::new(),
            debug_names: Vec::new(),
            debug_module_processed: Vec::new(),
            annotations: Vec::new(),
            types_global_values: Vec::new(),
            functions: Vec::new(),
        };
        assert(r@ =~= empty_module());
        r
    }

    /// Copies of all instructions, in the order of a binary.
    pub fn all_insts(&self) -> (r: Vec<SpvInst>)
        ensures
            views(r@) == self@.all_insts(),
    {
        let mut out: Vec<SpvInst> = Vec::new();
        append_insts(&mut out, &self.capabilities);
        append_insts(&mut out, &self.extensions);
        append_insts(&mut out, &self.ext_inst_imports);
        append_option(&mut out, &self.memory_model);
        append_insts(&mut out, &self.entry_points);
        append_insts(&mut out, &self.execution_modes);
        append_insts(&mut out, &self.debug_string_source);
        append_insts(&mut out, &self.debug_names);
        append_insts(&mut out, &self.debug_module_processed);
        append_insts(&mut out, &self.annotations);
        append_insts(&mut out, &self.types_global_values);
        let ghost head = views(out@);
        let ghost functions = views(self.functions@);
        assert(head =~= head + function_insts(functions.take(0)));
        for i in 0..self.functions.len()
            invariant
                functions == views(self.functions@),
                views(out@) == head + function_insts(functions.take(i as int)),
        {
            append_function(&mut out, &self.functions[i]);
            assert(functions.take(i + 1).drop_last() =~= functions.take(i as int));
            assert(functions.take(i + 1).last() == self.functions@[i as int]@);
            assert(views(out@) =~= head + function_insts(functions.take(i + 1)));
        }
        assert(functions.take(functions.len() as int) =~= functions);
        assert(views(out@) =~= self@.all_insts());
        out
    }
}

pub broadcast proof fn lemma_each_add<A>(a: Seq<A>, b: Seq<A>, p: spec_fn(A) -> bool)
    ensures
        #[trigger] each(a + b, p) == (each(a, p) && each(b, p)),
{
    if each(a + b, p) {
        assert forall|i: int| 0 <= i < a.len() implies p(#[trigger] a[i]) by {
            assert((a + b)[i] == a[i]);
        }
        assert forall|i: int| 0 <= i < b.len() implies p(#[trigger] b[i]) by {
            assert((a + b)[a.len() + i] == b[i]);
        }
    }
}

pub broadcast proof fn lemma_each_opt<A>(o: Option<A>, p: spec_fn(A) -> bool)
    ensures
        #[trigger] each(opt_seq(o), p) == (o is Some ==> p(o->0)),
{
    if o is Some {
        assert(opt_seq(o)[0] == o->0);
    }
}

proof fn lemma_every_block(blocks: Seq<BlockView>, p: spec_fn(InstView) -> bool)
    ensures
        each(blocks, |b: BlockView| b.every(p)) == each(block_insts(blocks), p),
    decreases blocks.len(),
{
    broadcast use {lemma_each_add, lemma_each_opt};

    let q = |b: BlockView| b.every(p);
    if blocks.len() > 0 {
        lemma_every_block(blocks.drop_last(), p);
        assert(blocks =~= blocks.drop_last() + seq![blocks.last()]);
        assert(each(seq![blocks.last()], q) == q(blocks.last())) by {
            assert(seq![blocks.last()][0] == blocks.last());
        }
    }
}

proof fn lemma_every_function(functions: Seq<FunctionView>, p: spec_fn(InstView) -> bool)
    ensures
        each(functions, |g: FunctionView| g.every(p)) == each(function_insts(functions), p),
    decreases functions.len(),
{
    broadcast use {lemma_each_add, lemma_each_opt};

    let q = |g: FunctionView| g.every(p);
    if functions.len() > 0 {
        lemma_every_function(functions.drop_last(), p);
        lemma_every_block(functions.last().blocks, p);
        assert(functions =~= functions.drop_last() + seq![functions.last()]);
        assert(each(seq![functions.last()], q) == q(functions.last())) by {
            assert(seq![functions.last()][0] == functions.last());
        }
    }
}

/// `every` speaks of the same instructions as `all_insts`.
pub proof fn lemma_every(m: ModuleView, p: spec_fn(InstView) -> bool)
    ensures
        m.every(p) == each(m.all_insts(), p),
{
    broadcast use {lemma_each_add, lemma_each_opt};

    lemma_every_function(m.functions, p);
}

proof fn lemma_map_block(blocks: Seq<BlockView>, f: spec_fn(InstView) -> InstView)
    ensures
        block_insts(blocks.map_values(|b: BlockView| b.map_insts(f))) == block_insts(
            blocks,
        ).map_values(f),
    decreases blocks.len(),
{
    let mapped = blocks.map_values(|b: BlockView| b.map_insts(f));
    if blocks.len() > 0 {
        lemma_map_block(blocks.drop_last(), f);
        assert(mapped.drop_last() =~= blocks.drop_last().map_values(
            |b: BlockView| b.map_insts(f),
        ));
        assert(mapped.last().all_insts() =~= blocks.last().all_insts().map_values(f));
    }
    assert(block_insts(mapped) =~= block_insts(blocks).map_values(f));
}

proof fn lemma_map_function(functions: Seq<FunctionView>, f: spec_fn(InstView) -> InstView)
    ensures
        function_insts(functions.map_values(|g: FunctionView| g.map_insts(f))) == function_insts(
            functions,
        ).map_values(f),
    decreases functions.len(),
{
    let mapped = functions.map_values(|g: FunctionView| g.map_insts(f));
    if functions.len() > 0 {
        lemma_map_function(functions.drop_last(), f);
        lemma_map_block(functions.last().blocks, f);
        assert(mapped.drop_last() =~= functions.drop_last().map_values(
            |g: FunctionView| g.map_insts(f),
        ));
        assert(mapped.last().all_insts() =~= functions.last().all_insts().map_values(f));
    }
    assert(function_insts(mapped) =~= function_insts(functions).map_values(f));
}

/// Mapping a module maps the sequence of its instructions.
pub proof fn lemma_map_insts(m: ModuleView, f: spec_fn(InstView) -> InstView)
    ensures
        m.map_insts(f).all_insts() == m.all_insts().map_values(f),
{
    lemma_map_function(m.functions, f);
    assert(m.map_insts(f).all_insts() =~= m.all_insts().map_values(f));
}

pub proof fn lemma_refers_step(ops: Seq<OperandView>, j: int, id: u32)
    requires
        0 <= j < ops.len(),
    ensures
        refers(ops.take(j + 1), id) <==> refers(ops.take(j), id) || ops[j].id()
            == Some(id),
{
    let a = ops.take(j);
    let b = ops.take(j + 1);
    if refers(a, id) {
        let i = choose|i: int| 0 <= i < a.len() && (#[trigger] a[i]).id() == Some(id);
        assert(b[i] == a[i]);
    }
    if ops[j].id() == Some(id) {
        assert(b[j] == ops[j]);
    }
    if refers(b, id) {
        let i = choose|i: int| 0 <= i < b.len() && (#[trigger] b[i]).id() == Some(id);
        if i < j {
            assert(a[i] == b[i]);
        }
    }
}

/// Filtering leaves a sequence whose elements all pass as it is.
pub proof fn lemma_filter_whole<A>(s: Seq<A>, p: spec_fn(A) -> bool)
    requires
        forall|k: int| 0 <= k < s.len() ==> p(#[trigger] s[k]),
    ensures
        s.filter(p) == s,
    decreases s.len(),
{
    reveal(Seq::filter);
    if s.len() > 0 {
        let rest = s.drop_last();
        assert forall|k: int| 0 <= k < rest.len() implies p(#[trigger] rest[k]) by {
            assert(rest[k] == s[k]);
        }
        lemma_filter_whole(rest, p);
        assert(p(s[s.len() - 1]));
        assert(rest.push(s.last()) =~= s);
    }
}

/// Leaving each instruction as it is leaves a module as it is.
pub proof fn lemma_map_identity(m: ModuleView)
    ensures
        m.map_insts(|i: InstView| i) == m,
{
    let f = |i: InstView| i;
    let n = m.map_insts(f);
    assert forall|k: int| 0 <= k < m.functions.len() implies #[trigger] n.functions[k]
        == m.functions[k] by {
        let g = m.functions[k];
        assert forall|j: int| 0 <= j < g.blocks.len() implies #[trigger] g.map_insts(f).blocks[j]
            == g.blocks[j] by {
            assert(g.blocks[j].map_insts(f).instructions =~= g.blocks[j].instructions);
        }
        assert(g.map_insts(f).blocks =~= g.blocks);
        assert(g.map_insts(f).parameters =~= g.parameters);
    }
    assert(n =~= m);
}

/// Two maps in a row are one map.
pub proof fn lemma_map_twice(
    m: ModuleView,
    f: spec_fn(InstView) -> InstView,
    g: spec_fn(InstView) -> InstView,
)
    ensures
        m.map_insts(f).map_insts(g) == m.map_insts(|i: InstView| g(f(i))),
{
    let h = |i: InstView| g(f(i));
    let a = m.map_insts(f).map_insts(g);
    let b = m.map_insts(h);
    assert forall|k: int| 0 <= k < m.functions.len() implies #[trigger] a.functions[k]
        == b.functions[k] by {
        let x = m.functions[k];
        let y = x.map_insts(f).map_insts(g);
        let z = x.map_insts(h);
        assert forall|j: int| 0 <= j < x.blocks.len() implies #[trigger] y.blocks[j] == z.blocks[j] by {
            assert(y.blocks[j].instructions =~= z.blocks[j].instructions);
        }
        assert(y.blocks =~= z.blocks);
        assert(y.parameters =~= z.parameters);
    }
    assert(a.functions =~= b.functions);
    assert(a =~= b);
}

/// Two maps that agree on the instructions of a module map it alike.
pub proof fn lemma_map_agree(
    m: ModuleView,
    f: spec_fn(InstView) -> InstView,
    g: spec_fn(InstView) -> InstView,
)
    requires
        m.every(|i: InstView| f(i) == g(i)),
    ensures
        m.map_insts(f) == m.map_insts(g),
{
    let p = |i: InstView| f(i) == g(i);
    let a = m.map_insts(f);
    let b = m.map_insts(g);
    assert(a.capabilities =~= b.capabilities);
    assert(a.extensions =~= b.extensions);
    assert(a.ext_inst_imports =~= b.ext_inst_imports);
    assert(a.memory_model =~= b.memory_model);
    assert(a.entry_points =~= b.entry_points);
    assert(a.execution_modes =~= b.execution_modes);
    assert(a.debug_string_source =~= b.debug_string_source);
    assert(a.debug_names =~= b.debug_names);
    assert(a.debug_module_processed =~= b.debug_module_processed);
    assert(a.annotations =~= b.annotations);
    assert(a.types_global_values =~= b.types_global_values);
    assert forall|k: int| 0 <= k < m.functions.len() implies a.functions[k] == b.functions[k] by {
        let h = m.functions[k];
        assert(h.every(p));
        assert(h.map_insts(f).parameters =~= h.map_insts(g).parameters);
        assert forall|j: int| 0 <= j < h.blocks.len() implies h.map_insts(f).blocks[j]
            == h.map_insts(g).blocks[j] by {
            assert(h.blocks[j].every(p));
            assert(h.blocks[j].map_insts(f) =~= h.blocks[j].map_insts(g));
        }
        assert(h.map_insts(f) =~= h.map_insts(g));
    }
    assert(a.functions =~= b.functions);
}

} // verus!

//! The types of imports and exports as trees, for comparison.

use vstd::prelude::*;

use crate::defs::DefAnalyzer;
use crate::model;
use crate::model::{Duplicate, EnumerantKind, InstView, OperandView, SpvInst, SpvOperand};
use crate::opcode;

verus! {

/// A type without parts.
#[derive(Debug)]
pub enum ScalarType {
    Void,
    Bool,
    Int { width: u32, signed: bool },
    Float { width: u32 },
    Opaque { name: String },
    Event,
    DeviceEvent,
    ReserveId,
    Queue,
    Pipe,
    ForwardPointer { storage_class: u32 },
    PipeStorage,
    NamedBarrier,
    Sampler,
}

pub enum ScalarView {
    Void,
    Bool,
    Int { width: u32, signed: bool },
    Float { width: u32 },
    Opaque { name: Seq<char> },
    Event,
    DeviceEvent,
    ReserveId,
    Queue,
    Pipe,
    ForwardPointer { storage_class: u32 },
    PipeStorage,
    NamedBarrier,
    Sampler,
}

impl View for ScalarType {
    type V = ScalarView;

    open spec fn view(&self) -> ScalarView {
        match *self {
            ScalarType::Void => ScalarView::Void,
            ScalarType::Bool => ScalarView::Bool,
            ScalarType::Int { width, signed } => ScalarView::Int { width, signed },
            ScalarType::Float { width } => ScalarView::Float { width },
            ScalarType::Opaque { name } => ScalarView::Opaque { name: name@ },
            ScalarType::Event => ScalarView::Event,
            ScalarType::DeviceEvent => ScalarView::DeviceEvent,
            ScalarType::ReserveId => ScalarView::ReserveId,
            ScalarType::Queue => ScalarView::Queue,
            ScalarType::Pipe => ScalarView::Pipe,
            ScalarType::ForwardPointer { storage_class } => ScalarView::ForwardPointer {
                storage_class,
            },
            ScalarType::PipeStorage => ScalarView::PipeStorage,
            ScalarType::NamedBarrier => ScalarView::NamedBarrier,
            ScalarType::Sampler => ScalarView::Sampler,
        }
    }
}

/// A type as a tree. The tree tells scalar types, arrays, pointers and images apart;
/// of any other type it has the parts alone.
#[derive(Debug)]
pub enum AggregateType {
    Scalar(ScalarType),
    Array { ty: Box<AggregateType>, len: u64 },
    Pointer { ty: Box<AggregateType>, storage_class: u32 },
    Image {
        ty: Box<AggregateType>,
        dim: u32,
        depth: u32,
        arrayed: u32,
        multi_sampled: u32,
        sampled: u32,
        format: u32,
        access: Option<u32>,
    },
    Aggregate(Vec<AggregateType>),
}

pub enum TypeTree {
    Scalar(ScalarView),
    Array { ty: Box<TypeTree>, len: u64 },
    Pointer { ty: Box<TypeTree>, storage_class: u32 },
    Image {
        ty: Box<TypeTree>,
        dim: u32,
        depth: u32,
        arrayed: u32,
        multi_sampled: u32,
        sampled: u32,
        format: u32,
        access: Option<u32>,
    },
    Aggregate(Seq<TypeTree>),
}

impl AggregateType {
    /// The tree as a mathematical value.
    pub open spec fn tree(self) -> TypeTree
        decreases self,
    {
        match self {
            AggregateType::Scalar(s) => TypeTree::Scalar(s@),
            AggregateType::Array { ty, len } => TypeTree::Array { ty: Box::new(ty.tree()), len },
            AggregateType::Pointer { ty, storage_class } => TypeTree::Pointer {
                ty: Box::new(ty.tree()),
                storage_class,
            },
            AggregateType::Image {
                ty,
                dim,
                depth,
                arrayed,
                multi_sampled,
                sampled,
                format,
                access,
            } => TypeTree::Image {
                ty: Box::new(ty.tree()),
                dim,
                depth,
                arrayed,
                multi_sampled,
                sampled,
                format,
                access,
            },
            AggregateType::Aggregate(parts) => TypeTree::Aggregate(
                Seq::new(
                    parts@.len(),
                    |i: int|
                        if 0 <= i < parts@.len() {
                            parts@[i].tree()
                        } else {
                            arbitrary()
                        },
                ),
            ),
        }
    }
}

/// The number of an enumerant of the given kind.
pub open spec fn enumerant_code(o: OperandView, kind: EnumerantKind) -> Option<u32> {
    match o {
        OperandView::Enumerant(e) => if e.kind == kind {
            Some(e.code)
        } else {
            None
        },
        _ => None,
    }
}

/// The number in a 32-bit literal.
pub open spec fn literal_u32(o: OperandView) -> Option<u32> {
    match o {
        OperandView::LiteralBit32(w) => Some(w),
        _ => None,
    }
}

/// The number in a literal.
pub open spec fn literal_int(o: OperandView) -> Option<u64> {
    match o {
        OperandView::LiteralBit32(w) => Some(w as u64),
        OperandView::LiteralBit64(w) => Some(w),
        _ => None,
    }
}

/// The number in the first operand that is a literal number.
pub open spec fn first_literal(ops: Seq<OperandView>) -> Option<u64>
    decreases ops.len(),
{
    if ops.len() == 0 {
        None
    } else if literal_int(ops[0]) is Some {
        literal_int(ops[0])
    } else {
        first_literal(ops.drop_first())
    }
}

/// The first storage class among operands.
pub open spec fn first_storage_class(ops: Seq<OperandView>) -> Option<u32>
    decreases ops.len(),
{
    if ops.len() == 0 {
        None
    } else if enumerant_code(ops[0], EnumerantKind::StorageClass) is Some {
        enumerant_code(ops[0], EnumerantKind::StorageClass)
    } else {
        first_storage_class(ops.drop_first())
    }
}

/// The scalar type that an instruction declares. `None` where a scalar type lacks
/// the operands that it must have, `Some(None)` where the instruction declares no
/// scalar type.
pub open spec fn scalar_of(i: InstView) -> Option<Option<ScalarView>> {
    let op = i.opcode;
    let ops = i.operands;
    if op == opcode::TYPE_VOID {
        Some(Some(ScalarView::Void))
    } else if op == opcode::TYPE_BOOL {
        Some(Some(ScalarView::Bool))
    } else if op == opcode::TYPE_EVENT {
        Some(Some(ScalarView::Event))
    } else if op == opcode::TYPE_DEVICE_EVENT {
        Some(Some(ScalarView::DeviceEvent))
    } else if op == opcode::TYPE_RESERVE_ID {
        Some(Some(ScalarView::ReserveId))
    } else if op == opcode::TYPE_QUEUE {
        Some(Some(ScalarView::Queue))
    } else if op == opcode::TYPE_PIPE {
        Some(Some(ScalarView::Pipe))
    } else if op == opcode::TYPE_PIPE_STORAGE {
        Some(Some(ScalarView::PipeStorage))
    } else if op == opcode::TYPE_NAMED_BARRIER {
        Some(Some(ScalarView::NamedBarrier))
    } else if op == opcode::TYPE_SAMPLER {
        Some(Some(ScalarView::Sampler))
    } else if op == opcode::TYPE_FORWARD_POINTER {
        match first_storage_class(ops) {
            Some(storage_class) => Some(Some(ScalarView::ForwardPointer { storage_class })),
            None => None,
        }
    } else if op == opcode::TYPE_INT {
        if ops.len() < 2 || literal_u32(ops[0]) is None || literal_u32(ops[1]) is None {
            None
        } else {
            Some(
                Some(
                    ScalarView::Int {
                        width: literal_u32(ops[0])->0,
                        signed: literal_u32(ops[1])->0 != 0,
                    },
                ),
            )
        }
    } else if op == opcode::TYPE_FLOAT {
        if ops.len() < 1 || literal_u32(ops[0]) is None {
            None
        } else {
            Some(Some(ScalarView::Float { width: literal_u32(ops[0])->0 }))
        }
    } else if op == opcode::TYPE_OPAQUE {
        if ops.len() < 1 || !(ops[0] is LiteralString) {
            None
        } else {
            Some(Some(ScalarView::Opaque { name: ops[0]->LiteralString_0 }))
        }
    } else {
        Some(None)
    }
}

/// The instruction that defines the id of an operand.
pub open spec fn operand_def(defs: Map<u32, InstView>, o: OperandView) -> Option<InstView> {
    match o.id() {
        Some(id) => if defs.contains_key(id) {
            Some(defs[id])
        } else {
            None
        },
        None => None,
    }
}

/// The number that a constant stands for: its second operand, if that is a literal
/// number, and otherwise the first literal number among its operands.
pub open spec fn constant_value(ops: Seq<OperandView>) -> Option<u64> {
    if ops.len() > 1 && literal_int(ops[1]) is Some {
        literal_int(ops[1])
    } else {
        first_literal(ops)
    }
}

/// The length that an array type takes from the constant it names, which cannot be
/// a specialization constant.
pub open spec fn array_length(defs: Map<u32, InstView>, o: OperandView) -> Option<u64> {
    match operand_def(defs, o) {
        Some(c) => if c.opcode == opcode::CONSTANT {
            constant_value(c.operands)
        } else {
            None
        },
        None => None,
    }
}

/// The opcodes of types whose tree has the tree of their first operand as its only
/// part.
pub open spec fn wraps_one(op: u32) -> bool {
    ||| op == opcode::TYPE_RUNTIME_ARRAY
    ||| op == opcode::TYPE_VECTOR
    ||| op == opcode::TYPE_MATRIX
    ||| op == opcode::TYPE_SAMPLED_IMAGE
}

/// The operands that an image type must have, apart from the type of its samples.
pub open spec fn image_readable(ops: Seq<OperandView>) -> bool {
    &&& ops.len() >= 7
    &&& enumerant_code(ops[1], EnumerantKind::Dim) is Some
    &&& literal_u32(ops[2]) is Some
    &&& literal_u32(ops[3]) is Some
    &&& literal_u32(ops[4]) is Some
    &&& literal_u32(ops[5]) is Some
    &&& enumerant_code(ops[6], EnumerantKind::ImageFormat) is Some
}

/// The tree of an image type.
pub open spec fn image_tree(ops: Seq<OperandView>, ty: TypeTree) -> TypeTree {
    TypeTree::Image {
        ty: Box::new(ty),
        dim: enumerant_code(ops[1], EnumerantKind::Dim)->0,
        depth: literal_u32(ops[2])->0,
        arrayed: literal_u32(ops[3])->0,
        multi_sampled: literal_u32(ops[4])->0,
        sampled: literal_u32(ops[5])->0,
        format: enumerant_code(ops[6], EnumerantKind::ImageFormat)->0,
        access: if ops.len() > 7 {
            enumerant_code(ops[7], EnumerantKind::AccessQualifier)
        } else {
            None
        },
    }
}

/// The tree of the type that an instruction declares, followed down through at
/// most `depth` declarations. `None` where a declaration that is reached lacks
/// what it must have or lies too deep, `Some(None)` where the instruction declares
/// no type that is known here.
pub open spec fn tree_within(defs: Map<u32, InstView>, i: InstView, depth: nat) -> Option<
    Option<TypeTree>,
>
    decreases depth, 0nat,
{
    let op = i.opcode;
    let ops = i.operands;
    if depth == 0 {
        None
    } else if op == opcode::TYPE_ARRAY {
        if ops.len() < 2 || array_length(defs, ops[1]) is None {
            None
        } else {
            match part_within(defs, ops[0], (depth - 1) as nat) {
                Some(Some(ty)) => Some(
                    Some(TypeTree::Array { ty: Box::new(ty), len: array_length(defs, ops[1])->0 }),
                ),
                _ => None,
            }
        }
    } else if op == opcode::TYPE_POINTER {
        if ops.len() < 2 || enumerant_code(ops[0], EnumerantKind::StorageClass) is None {
            None
        } else {
            match part_within(defs, ops[1], (depth - 1) as nat) {
                Some(Some(ty)) => Some(
                    Some(
                        TypeTree::Pointer {
                            ty: Box::new(ty),
                            storage_class: enumerant_code(ops[0], EnumerantKind::StorageClass)->0,
                        },
                    ),
                ),
                _ => None,
            }
        }
    } else if wraps_one(op) {
        if ops.len() < 1 {
            None
        } else {
            match part_within(defs, ops[0], (depth - 1) as nat) {
                Some(Some(ty)) => Some(Some(TypeTree::Aggregate(seq![ty]))),
                Some(None) => Some(Some(TypeTree::Aggregate(Seq::empty()))),
                None => None,
            }
        }
    } else if op == opcode::TYPE_STRUCT || op == opcode::TYPE_FUNCTION {
        match parts_within(defs, ops, (depth - 1) as nat) {
            Some(parts) => Some(Some(TypeTree::Aggregate(parts))),
            None => None,
        }
    } else if op == opcode::TYPE_IMAGE {
        if !image_readable(ops) {
            None
        } else {
            match part_within(defs, ops[0], (depth - 1) as nat) {
                Some(Some(ty)) => Some(Some(image_tree(ops, ty))),
                _ => None,
            }
        }
    } else {
        match scalar_of(i) {
            Some(Some(s)) => Some(Some(TypeTree::Scalar(s))),
            Some(None) => Some(None),
            None => None,
        }
    }
}

/// The tree of the type that an operand names.
pub open spec fn part_within(defs: Map<u32, InstView>, o: OperandView, depth: nat) -> Option<
    Option<TypeTree>,
>
    decreases depth, 1nat,
{
    match operand_def(defs, o) {
        Some(d) => tree_within(defs, d, depth),
        None => None,
    }
}

/// The trees of the types that operands name, each of which must be a type.
pub open spec fn parts_within(defs: Map<u32, InstView>, ops: Seq<OperandView>, depth: nat) -> Option<
    Seq<TypeTree>,
>
    decreases depth, 2 + ops.len(),
{
    if ops.len() == 0 {
        Some(Seq::empty())
    } else {
        match (
            parts_within(defs, ops.drop_last(), depth),
            part_within(defs, ops.last(), depth),
        ) {
            (Some(parts), Some(Some(ty))) => Some(parts.push(ty)),
            _ => None,
        }
    }
}

/// The operands of a type declaration that name the parts of the type.
pub open spec fn part_operands(i: InstView) -> Seq<OperandView> {
    let op = i.opcode;
    let ops = i.operands;
    if op == opcode::TYPE_STRUCT || op == opcode::TYPE_FUNCTION {
        ops
    } else if op == opcode::TYPE_POINTER && ops.len() > 1 {
        seq![ops[1]]
    } else if (op == opcode::TYPE_ARRAY || op == opcode::TYPE_IMAGE || wraps_one(op)) && ops.len()
        > 0 {
        seq![ops[0]]
    } else {
        Seq::empty()
    }
}

/// The opcodes of types whose tree holds all that their operands say.
pub open spec fn is_in_tree(op: u32) -> bool {
    ||| op == opcode::TYPE_INT
    ||| op == opcode::TYPE_OPAQUE
    ||| op == opcode::TYPE_ARRAY
    ||| op == opcode::TYPE_POINTER
    ||| op == opcode::TYPE_IMAGE
}

/// The operands of a type declaration that are no ids, such as the number of
/// components of a vector, unless the tree of the type holds them.
pub open spec fn literals(i: InstView) -> Seq<OperandView> {
    if is_in_tree(i.opcode) {
        Seq::empty()
    } else {
        i.operands.filter(|o: OperandView| o.id() is None)
    }
}

/// A type declaration without the ids in it.
#[derive(Debug)]
pub struct OutlineNode {
    pub opcode: u32,
    pub literals: Vec<SpvOperand>,
}

#[verifier::ext_equal]
pub struct NodeView {
    pub opcode: u32,
    pub literals: Seq<OperandView>,
}

impl View for OutlineNode {
    type V = NodeView;

    open spec fn view(&self) -> NodeView {
        NodeView { opcode: self.opcode, literals: model::views(self.literals@) }
    }
}

/// What the tree of a type leaves out: of each declaration that is reached, its opcode
/// and its operands that are no ids. A declaration is followed by its parts.
pub open spec fn outline_within(defs: Map<u32, InstView>, i: InstView, depth: nat) -> Seq<
    NodeView,
>
    decreases depth, 0nat,
{
    if depth == 0 {
        Seq::empty()
    } else {
        seq![NodeView { opcode: i.opcode, literals: literals(i) }] + outlines_within(
            defs,
            part_operands(i),
            (depth - 1) as nat,
        )
    }
}

/// The outlines of the types that operands name, one after the other.
pub open spec fn outlines_within(defs: Map<u32, InstView>, ops: Seq<OperandView>, depth: nat) -> Seq<
    NodeView,
>
    decreases depth, 1 + ops.len(),
{
    if ops.len() == 0 {
        Seq::empty()
    } else {
        outlines_within(defs, ops.drop_last(), depth) + match operand_def(defs, ops.last()) {
            Some(d) => outline_within(defs, d, depth),
            None => Seq::empty(),
        }
    }
}

/// Whether the type that an instruction declares can be read off: every
/// declaration that is reached from it has what it must have, and none is reached
/// from itself.
pub open spec fn type_readable(defs: Map<u32, InstView>, i: InstView) -> bool {
    exists|depth: nat| #[trigger] tree_within(defs, i, depth) is Some
}

/// The tree of the type that an instruction declares.
pub open spec fn type_of(defs: Map<u32, InstView>, i: InstView) -> Option<TypeTree> {
    let depth = choose|depth: nat| #[trigger] tree_within(defs, i, depth) is Some;
    tree_within(defs, i, depth)->0
}

/// The outline of the type that an instruction declares.
pub open spec fn outline_of(defs: Map<u32, InstView>, i: InstView) -> Seq<NodeView> {
    let depth = choose|depth: nat| #[trigger] tree_within(defs, i, depth) is Some;
    outline_within(defs, i, depth)
}

/// Whether the types that two instructions declare are the same but for the ids that
/// they are declared under. The ids in the operands of a type that has no tree are
/// not followed.
pub open spec fn types_match(defs: Map<u32, InstView>, a: InstView, b: InstView) -> bool {
    type_of(defs, a) == type_of(defs, b) && outline_of(defs, a) == outline_of(defs, b)
}

proof fn lemma_deeper(defs: Map<u32, InstView>, i: InstView, depth: nat)
    requires
        tree_within(defs, i, depth) is Some,
    ensures
        tree_within(defs, i, depth + 1) == tree_within(defs, i, depth),
        outline_within(defs, i, depth + 1) == outline_within(defs, i, depth),
    decreases depth, 0nat,
{
    let op = i.opcode;
    let ops = i.operands;
    let d = (depth - 1) as nat;
    if op == opcode::TYPE_ARRAY || wraps_one(op) || op == opcode::TYPE_IMAGE {
        lemma_part_deeper(defs, ops[0], d);
    } else if op == opcode::TYPE_POINTER {
        lemma_part_deeper(defs, ops[1], d);
    } else if op == opcode::TYPE_STRUCT || op == opcode::TYPE_FUNCTION {
        lemma_parts_deeper(defs, ops, d);
    } else {
        assert(part_operands(i) =~= Seq::empty());
    }
}

proof fn lemma_part_deeper(defs: Map<u32, InstView>, o: OperandView, depth: nat)
    requires
        part_within(defs, o, depth) is Some,
    ensures
        part_within(defs, o, depth + 1) == part_within(defs, o, depth),
        outline_within(defs, operand_def(defs, o)->0, depth + 1) == outline_within(
            defs,
            operand_def(defs, o)->0,
            depth,
        ),
        outlines_within(defs, seq![o], depth + 1) == outlines_within(defs, seq![o], depth),
    decreases depth, 1nat,
{
    reveal_with_fuel(outlines_within, 2);
    lemma_deeper(defs, operand_def(defs, o)->0, depth);
    let one = seq![o];
    assert(one.drop_last() =~= Seq::empty());
    assert(one.last() == o);
}

proof fn lemma_parts_deeper(defs: Map<u32, InstView>, ops: Seq<OperandView>, depth: nat)
    requires
        parts_within(defs, ops, depth) is Some,
    ensures
        parts_within(defs, ops, depth + 1) == parts_within(defs, ops, depth),
        outlines_within(defs, ops, depth + 1) == outlines_within(defs, ops, depth),
    decreases depth, 2 + ops.len(),
{
    if ops.len() > 0 {
        lemma_parts_deeper(defs, ops.drop_last(), depth);
        lemma_part_deeper(defs, ops.last(), depth);
    }
}

proof fn lemma_much_deeper(defs: Map<u32, InstView>, i: InstView, depth: nat, more: nat)
    requires
        tree_within(defs, i, depth) is Some,
        depth <= more,
    ensures
        tree_within(defs, i, more) == tree_within(defs, i, depth),
        outline_within(defs, i, more) == outline_within(defs, i, depth),
    decreases more - depth,
{
    if depth < more {
        lemma_deeper(defs, i, depth);
        lemma_much_deeper(defs, i, depth + 1, more);
    }
}

/// Any depth at which a type can be read gives its tree and its outline.
pub proof fn lemma_type_of(defs: Map<u32, InstView>, i: InstView, depth: nat)
    requires
        tree_within(defs, i, depth) is Some,
    ensures
        type_readable(defs, i),
        tree_within(defs, i, depth) == Some(type_of(defs, i)),
        outline_within(defs, i, depth) == outline_of(defs, i),
{
    let other = choose|depth: nat| #[trigger] tree_within(defs, i, depth) is Some;
    if depth <= other {
        lemma_much_deeper(defs, i, depth, other);
    } else {
        lemma_much_deeper(defs, i, other, depth);
    }
}

/// Whether `others` are the definitions `defs` with their ids replaced as `f` says.
pub open spec fn are_renamed(
    defs: Map<u32, InstView>,
    others: Map<u32, InstView>,
    f: spec_fn(u32) -> u32,
) -> bool {
    forall|id: u32|
        #![trigger defs.contains_key(id)]
        {
            &&& others.contains_key(f(id)) <==> defs.contains_key(id)
            &&& defs.contains_key(id) ==> others[f(id)] == defs[id].renamed(f, f)
        }
}

/// Operands with their ids replaced.
spec fn renamed_all(ops: Seq<OperandView>, f: spec_fn(u32) -> u32) -> Seq<OperandView> {
    ops.map_values(|o: OperandView| o.renamed(f))
}

proof fn lemma_renamed_operands(ops: Seq<OperandView>, f: spec_fn(u32) -> u32)
    ensures
        first_literal(renamed_all(ops, f)) == first_literal(ops),
        first_storage_class(renamed_all(ops, f)) == first_storage_class(ops),
        constant_value(renamed_all(ops, f)) == constant_value(ops),
    decreases ops.len(),
{
    if ops.len() > 0 {
        assert(renamed_all(ops, f).drop_first() =~= renamed_all(ops.drop_first(), f));
        lemma_renamed_operands(ops.drop_first(), f);
    }
}

proof fn lemma_renamed_literals(ops: Seq<OperandView>, f: spec_fn(u32) -> u32)
    ensures
        renamed_all(ops, f).filter(|o: OperandView| o.id() is None) == ops.filter(
            |o: OperandView| o.id() is None,
        ),
    decreases ops.len(),
{
    reveal(Seq::filter);
    if ops.len() > 0 {
        assert(renamed_all(ops, f).drop_last() =~= renamed_all(ops.drop_last(), f));
        lemma_renamed_literals(ops.drop_last(), f);
    }
}

proof fn lemma_renamed_def(
    defs: Map<u32, InstView>,
    others: Map<u32, InstView>,
    f: spec_fn(u32) -> u32,
    o: OperandView,
)
    requires
        are_renamed(defs, others, f),
    ensures
        operand_def(others, o.renamed(f)) == model::opt_map(
            operand_def(defs, o),
            |d: InstView| d.renamed(f, f),
        ),
        array_length(others, o.renamed(f)) == array_length(defs, o),
{
    if o.id() is Some {
        let id = o.id()->0;
        assert(defs.contains_key(id) || !defs.contains_key(id));
        if defs.contains_key(id) {
            lemma_renamed_operands(defs[id].operands, f);
        }
    }
}

proof fn lemma_renamed_tree(
    defs: Map<u32, InstView>,
    others: Map<u32, InstView>,
    f: spec_fn(u32) -> u32,
    i: InstView,
    depth: nat,
)
    requires
        are_renamed(defs, others, f),
    ensures
        tree_within(others, i.renamed(f, f), depth) == tree_within(defs, i, depth),
        outline_within(others, i.renamed(f, f), depth) == outline_within(defs, i, depth),
    decreases depth, 0nat,
{
    if depth > 0 {
        let op = i.opcode;
        let ops = i.operands;
        let d = (depth - 1) as nat;
        let j = i.renamed(f, f);
        lemma_renamed_literals(ops, f);
        lemma_renamed_operands(ops, f);
        assert(j.operands == renamed_all(ops, f));
        assert(part_operands(j) =~= renamed_all(part_operands(i), f));
        lemma_renamed_parts(defs, others, f, part_operands(i), d);
        if op == opcode::TYPE_STRUCT || op == opcode::TYPE_FUNCTION {
        } else if op == opcode::TYPE_POINTER {
            if ops.len() > 1 {
                lemma_renamed_part(defs, others, f, ops[1], d);
            }
        } else if ops.len() > 0 {
            lemma_renamed_part(defs, others, f, ops[0], d);
            if ops.len() > 1 {
                lemma_renamed_def(defs, others, f, ops[1]);
            }
        }
    }
}

proof fn lemma_renamed_part(
    defs: Map<u32, InstView>,
    others: Map<u32, InstView>,
    f: spec_fn(u32) -> u32,
    o: OperandView,
    depth: nat,
)
    requires
        are_renamed(defs, others, f),
    ensures
        part_within(others, o.renamed(f), depth) == part_within(defs, o, depth),
        operand_def(defs, o) matches Some(x) ==> operand_def(others, o.renamed(f)) == Some(
            x.renamed(f, f),
        ) && outline_within(others, x.renamed(f, f), depth) == outline_within(defs, x, depth),
        operand_def(defs, o) is None ==> operand_def(others, o.renamed(f)) is None,
    decreases depth, 1nat,
{
    lemma_renamed_def(defs, others, f, o);
    if operand_def(defs, o) is Some {
        lemma_renamed_tree(defs, others, f, operand_def(defs, o)->0, depth);
    }
}

proof fn lemma_renamed_parts(
    defs: Map<u32, InstView>,
    others: Map<u32, InstView>,
    f: spec_fn(u32) -> u32,
    ops: Seq<OperandView>,
    depth: nat,
)
    requires
        are_renamed(defs, others, f),
    ensures
        parts_within(others, renamed_all(ops, f), depth) == parts_within(defs, ops, depth),
        outlines_within(others, renamed_all(ops, f), depth) == outlines_within(defs, ops, depth),
    decreases depth, 2 + ops.len(),
{
    if ops.len() > 0 {
        assert(renamed_all(ops, f).drop_last() =~= renamed_all(ops.drop_last(), f));
        lemma_renamed_parts(defs, others, f, ops.drop_last(), depth);
        lemma_renamed_part(defs, others, f, ops.last(), depth);
    }
}

/// What the tree and the outline of a type are does not depend on the ids under which
/// it and its parts are declared: replacing them throughout changes neither.
pub proof fn law_types_ignore_ids(
    defs: Map<u32, InstView>,
    others: Map<u32, InstView>,
    f: spec_fn(u32) -> u32,
    i: InstView,
)
    requires
        are_renamed(defs, others, f),
    ensures
        type_readable(others, i.renamed(f, f)) <==> type_readable(defs, i),
        type_readable(defs, i) ==> type_of(others, i.renamed(f, f)) == type_of(defs, i),
        type_readable(defs, i) ==> outline_of(others, i.renamed(f, f)) == outline_of(defs, i),
{
    let j = i.renamed(f, f);
    if type_readable(defs, i) {
        let depth = choose|depth: nat| #[trigger] tree_within(defs, i, depth) is Some;
        lemma_renamed_tree(defs, others, f, i, depth);
        lemma_type_of(defs, i, depth);
        lemma_type_of(others, j, depth);
    }
    if type_readable(others, j) {
        let depth = choose|depth: nat| #[trigger] tree_within(others, j, depth) is Some;
        lemma_renamed_tree(defs, others, f, i, depth);
        lemma_type_of(defs, i, depth);
    }
}

/// Whether a declaration can be read within `depth` and not within less.
pub open spec fn needs(defs: Map<u32, InstView>, i: InstView, depth: nat) -> bool {
    &&& tree_within(defs, i, depth) is Some
    &&& depth > 0 ==> tree_within(defs, i, (depth - 1) as nat) is None
}

/// A part that is needed one level less deep.
proof fn lemma_needs_part(defs: Map<u32, InstView>, i: InstView, depth: nat) -> (id: u32)
    requires
        depth >= 2,
        needs(defs, i, depth),
    ensures
        defs.contains_key(id),
        needs(defs, defs[id], (depth - 1) as nat),
{
    let op = i.opcode;
    let ops = i.operands;
    let d = (depth - 1) as nat;
    let e = (depth - 2) as nat;
    if op == opcode::TYPE_STRUCT || op == opcode::TYPE_FUNCTION {
        lemma_needs_parts(defs, ops, d)
    } else {
        let o = if op == opcode::TYPE_POINTER {
            ops[1]
        } else {
            ops[0]
        };
        if part_within(defs, o, e) is Some {
            lemma_part_deeper(defs, o, e);
        }
        o.id()->0
    }
}

proof fn lemma_needs_parts(defs: Map<u32, InstView>, ops: Seq<OperandView>, depth: nat) -> (id: u32)
    requires
        depth >= 1,
        parts_within(defs, ops, depth) is Some,
        parts_within(defs, ops, (depth - 1) as nat) is None,
    ensures
        defs.contains_key(id),
        needs(defs, defs[id], depth),
    decreases ops.len(),
{
    let e = (depth - 1) as nat;
    if parts_within(defs, ops.drop_last(), e) is None {
        lemma_needs_parts(defs, ops.drop_last(), depth)
    } else {
        if part_within(defs, ops.last(), e) is Some {
            lemma_part_deeper(defs, ops.last(), e);
        }
        ops.last().id()->0
    }
}

/// A type that needs a depth is reached through as many definitions.
proof fn lemma_chain(defs: Map<u32, InstView>, i: InstView, depth: nat) -> (ids: Set<u32>)
    requires
        depth >= 1,
        needs(defs, i, depth),
    ensures
        ids.finite(),
        ids.len() == depth - 1,
        ids.subset_of(defs.dom()),
        forall|id: u32| #[trigger]
            ids.contains(id) ==> tree_within(defs, defs[id], (depth - 1) as nat) is Some,
    decreases depth,
{
    if depth == 1 {
        Set::empty()
    } else {
        let d = (depth - 1) as nat;
        let id = lemma_needs_part(defs, i, depth);
        let rest = lemma_chain(defs, defs[id], d);
        let ids = rest.insert(id);
        assert(!rest.contains(id));
        assert forall|x: u32| #[trigger] ids.contains(x) implies tree_within(
            defs,
            defs[x],
            d,
        ) is Some by {
            if x != id {
                lemma_much_deeper(defs, defs[x], (d - 1) as nat, d);
            }
        }
        ids
    }
}

/// A type that can be read at all can be read within one level more than there are
/// definitions.
pub proof fn lemma_depth_bound(defs: Map<u32, InstView>, i: InstView)
    requires
        defs.dom().finite(),
        type_readable(defs, i),
    ensures
        tree_within(defs, i, defs.dom().len() + 1) is Some,
{
    let depth = choose|depth: nat| #[trigger] tree_within(defs, i, depth) is Some;
    let least = lemma_least_depth(defs, i, depth);
    let ids = lemma_chain(defs, i, least);
    vstd::set_lib::lemma_len_subset(ids, defs.dom());
    lemma_much_deeper(defs, i, least, defs.dom().len() + 1);
}

proof fn lemma_least_depth(defs: Map<u32, InstView>, i: InstView, depth: nat) -> (least: nat)
    requires
        tree_within(defs, i, depth) is Some,
    ensures
        1 <= least <= depth,
        needs(defs, i, least),
    decreases depth,
{
    if tree_within(defs, i, (depth - 1) as nat) is Some {
        lemma_least_depth(defs, i, (depth - 1) as nat)
    } else {
        depth
    }
}

fn extract_enumerant(op: &SpvOperand, kind: EnumerantKind) -> (r: Option<u32>)
    ensures
        r == enumerant_code(op@, kind),
{
    match op {
        SpvOperand::Enumerant(e) => {
            let (k, code) = e.read();
            if k == kind {
                Some(code)
            } else {
                None
            }
        },
        _ => None,
    }
}

fn extract_literal_u32(op: &SpvOperand) -> (r: Option<u32>)
    ensures
        r == literal_u32(op@),
{
    match op {
        SpvOperand::LiteralBit32(v) => Some(*v),
        _ => None,
    }
}

fn extract_literal_int_as_u64(op: &SpvOperand) -> (r: Option<u64>)
    ensures
        r == literal_int(op@),
{
    match op {
        SpvOperand::LiteralBit32(v) => Some(*v as u64),
        SpvOperand::LiteralBit64(v) => Some(*v),
        _ => None,
    }
}

fn find_literal(ops: &Vec<SpvOperand>) -> (r: Option<u64>)
    ensures
        r == first_literal(model::views(ops@)),
{
    let ghost all = model::views(ops@);
    assert(all.skip(0) =~= all);
    for k in 0..ops.len()
        invariant
            all == model::views(ops@),
            first_literal(all) == first_literal(all.skip(k as int)),
    {
        assert(all.skip(k as int)[0] == ops@[k as int]@);
        assert(all.skip(k as int).drop_first() =~= all.skip(k + 1));
        let r = extract_literal_int_as_u64(&ops[k]);
        if r.is_some() {
            return r;
        }
    }
    None
}

fn read_constant(ops: &Vec<SpvOperand>) -> (r: Option<u64>)
    ensures
        r == constant_value(model::views(ops@)),
{
    if ops.len() > 1 {
        assert(model::views(ops@)[1] == ops@[1]@);
        let second = extract_literal_int_as_u64(&ops[1]);
        if second.is_some() {
            return second;
        }
    }
    find_literal(ops)
}

fn find_storage_class(ops: &Vec<SpvOperand>) -> (r: Option<u32>)
    ensures
        r == first_storage_class(model::views(ops@)),
{
    let ghost all = model::views(ops@);
    assert(all.skip(0) =~= all);
    for k in 0..ops.len()
        invariant
            all == model::views(ops@),
            first_storage_class(all) == first_storage_class(all.skip(k as int)),
    {
        assert(all.skip(k as int)[0] == ops@[k as int]@);
        assert(all.skip(k as int).drop_first() =~= all.skip(k + 1));
        let r = extract_enumerant(&ops[k], EnumerantKind::StorageClass);
        if r.is_some() {
            return r;
        }
    }
    None
}

/// The views of a scalar type that may be missing.
pub open spec fn scalar_view(r: Option<Option<ScalarType>>) -> Option<Option<ScalarView>> {
    match r {
        Some(s) => Some(model::opt_view(s)),
        None => None,
    }
}

/// Reads the scalar type that an instruction declares.
pub fn trans_scalar_type(inst: &SpvInst) -> (r: Option<Option<ScalarType>>)
    ensures
        scalar_view(r) == scalar_of(inst@),
{
    let op: u32 = inst.opcode();
    let ops = &inst.operands;
    assert(forall|k: int| 0 <= k < ops@.len() ==> inst@.operands[k] == (#[trigger] ops@[k])@);
    if op == opcode::TYPE_VOID {
        Some(Some(ScalarType::Void))
    } else if op == opcode::TYPE_BOOL {
        Some(Some(ScalarType::Bool))
    } else if op == opcode::TYPE_EVENT {
        Some(Some(ScalarType::Event))
    } else if op == opcode::TYPE_DEVICE_EVENT {
        Some(Some(ScalarType::DeviceEvent))
    } else if op == opcode::TYPE_RESERVE_ID {
        Some(Some(ScalarType::ReserveId))
    } else if op == opcode::TYPE_QUEUE {
        Some(Some(ScalarType::Queue))
    } else if op == opcode::TYPE_PIPE {
        Some(Some(ScalarType::Pipe))
    } else if op == opcode::TYPE_PIPE_STORAGE {
        Some(Some(ScalarType::PipeStorage))
    } else if op == opcode::TYPE_NAMED_BARRIER {
        Some(Some(ScalarType::NamedBarrier))
    } else if op == opcode::TYPE_SAMPLER {
        Some(Some(ScalarType::Sampler))
    } else if op == opcode::TYPE_FORWARD_POINTER {
        match find_storage_class(ops) {
            Some(storage_class) => Some(Some(ScalarType::ForwardPointer { storage_class })),
            None => None,
        }
    } else if op == opcode::TYPE_INT {
        if ops.len() < 2 {
            return None;
        }
        match (extract_literal_u32(&ops[0]), extract_literal_u32(&ops[1])) {
            (Some(width), Some(s)) => Some(Some(ScalarType::Int { width, signed: s != 0 })),
            _ => None,
        }
    } else if op == opcode::TYPE_FLOAT {
        if ops.len() < 1 {
            return None;
        }
        match extract_literal_u32(&ops[0]) {
            Some(width) => Some(Some(ScalarType::Float { width })),
            None => None,
        }
    } else if op == opcode::TYPE_OPAQUE {
        if ops.len() < 1 {
            return None;
        }
        match &ops[0] {
            SpvOperand::LiteralString(name) => Some(Some(ScalarType::Opaque { name: name.clone() })),
            _ => None,
        }
    } else {
        Some(None)
    }
}

/// The instruction that defines the id of an operand.
fn op_def<'a>(def: &'a DefAnalyzer, operand: &SpvOperand) -> (r: Option<&'a SpvInst>)
    ensures
        r is Some <==> operand_def(def@, operand@) is Some,
        r is Some ==> r->0@ == operand_def(def@, operand@)->0,
{
    match operand.id() {
        Some(id) => def.def(id),
        None => None,
    }
}

fn read_array_length(def: &DefAnalyzer, operand: &SpvOperand) -> (r: Option<u64>)
    ensures
        r == array_length(def@, operand@),
{
    match op_def(def, operand) {
        Some(len_def) => {
            if len_def.opcode() == opcode::CONSTANT {
                read_constant(&len_def.operands)
            } else {
                None
            }
        },
        None => None,
    }
}

/// The tree of a type that may be missing.
pub open spec fn opt_tree(t: Option<AggregateType>) -> Option<TypeTree> {
    match t {
        Some(t) => Some(t.tree()),
        None => None,
    }
}

/// The tree of a type that may be missing or out of reach.
pub open spec fn reach_tree(r: Option<Option<AggregateType>>) -> Option<Option<TypeTree>> {
    match r {
        Some(t) => Some(opt_tree(t)),
        None => None,
    }
}

/// The trees of the parts of a type.
pub open spec fn trees(parts: Seq<AggregateType>) -> Seq<TypeTree> {
    Seq::new(parts.len(), |i: int| parts[i].tree())
}

fn make_aggregate(parts: Vec<AggregateType>) -> (r: AggregateType)
    ensures
        r.tree() == TypeTree::Aggregate(trees(parts@)),
{
    let r = AggregateType::Aggregate(parts);
    assert(r.tree()->Aggregate_0 =~= trees(parts@));
    r
}

/// Reads the type that an instruction declares, down through at most `depth`
/// declarations.
fn read_tree(def: &DefAnalyzer, inst: &SpvInst, depth: u128) -> (r: Option<Option<AggregateType>>)
    ensures
        reach_tree(r) == tree_within(def@, inst@, depth as nat),
    decreases depth, 0nat,
{
    if depth == 0 {
        return None;
    }
    let op: u32 = inst.opcode();
    let ops = &inst.operands;
    assert(forall|k: int| 0 <= k < ops@.len() ==> inst@.operands[k] == (#[trigger] ops@[k])@);
    if op == opcode::TYPE_ARRAY {
        if ops.len() < 2 {
            return None;
        }
        let len: u64 = match read_array_length(def, &ops[1]) {
            Some(len) => len,
            None => {
                return None;
            },
        };
        match read_part(def, &ops[0], depth - 1) {
            Some(Some(ty)) => Some(Some(AggregateType::Array { ty: Box::new(ty), len })),
            _ => None,
        }
    } else if op == opcode::TYPE_POINTER {
        if ops.len() < 2 {
            return None;
        }
        let storage_class: u32 = match extract_enumerant(&ops[0], EnumerantKind::StorageClass) {
            Some(storage_class) => storage_class,
            None => {
                return None;
            },
        };
        match read_part(def, &ops[1], depth - 1) {
            Some(Some(ty)) => Some(
                Some(AggregateType::Pointer { ty: Box::new(ty), storage_class }),
            ),
            _ => None,
        }
    } else if op == opcode::TYPE_RUNTIME_ARRAY || op == opcode::TYPE_VECTOR || op
        == opcode::TYPE_MATRIX || op == opcode::TYPE_SAMPLED_IMAGE {
        if ops.len() < 1 {
            return None;
        }
        match read_part(def, &ops[0], depth - 1) {
            Some(part) => {
                let mut parts: Vec<AggregateType> = Vec::new();
                match part {
                    Some(ty) => {
                        parts.push(ty);
                        assert(trees(parts@) =~= seq![ty.tree()]);
                    },
                    None => {
                        assert(trees(parts@) =~= Seq::empty());
                    },
                }
                Some(Some(make_aggregate(parts)))
            },
            None => None,
        }
    } else if op == opcode::TYPE_STRUCT || op == opcode::TYPE_FUNCTION {
        match read_parts(def, ops, depth - 1) {
            Some(parts) => Some(Some(make_aggregate(parts))),
            None => None,
        }
    } else if op == opcode::TYPE_IMAGE {
        read_image(def, inst, depth)
    } else {
        match trans_scalar_type(inst) {
            Some(Some(s)) => Some(Some(AggregateType::Scalar(s))),
            Some(None) => Some(None),
            None => None,
        }
    }
}

/// Reads an image type.
fn read_image(def: &DefAnalyzer, inst: &SpvInst, depth: u128) -> (r: Option<Option<AggregateType>>)
    requires
        depth > 0,
        inst@.opcode == opcode::TYPE_IMAGE,
    ensures
        reach_tree(r) == tree_within(def@, inst@, depth as nat),
    decreases depth - 1, 3 + inst@.operands.len(),
{
    let ops = &inst.operands;
    assert(forall|k: int| 0 <= k < ops@.len() ==> inst@.operands[k] == (#[trigger] ops@[k])@);
    if ops.len() < 7 {
        return None;
    }
    let dim = extract_enumerant(&ops[1], EnumerantKind::Dim);
    let depth_flag = extract_literal_u32(&ops[2]);
    let arrayed = extract_literal_u32(&ops[3]);
    let multi_sampled = extract_literal_u32(&ops[4]);
    let sampled = extract_literal_u32(&ops[5]);
    let format = extract_enumerant(&ops[6], EnumerantKind::ImageFormat);
    let access = if ops.len() > 7 {
        extract_enumerant(&ops[7], EnumerantKind::AccessQualifier)
    } else {
        None
    };
    match (dim, depth_flag, arrayed, multi_sampled, sampled, format) {
        (
            Some(dim),
            Some(depth_flag),
            Some(arrayed),
            Some(multi_sampled),
            Some(sampled),
            Some(format),
        ) => match read_part(def, &ops[0], depth - 1) {
            Some(Some(ty)) => Some(
                Some(
                    AggregateType::Image {
                        ty: Box::new(ty),
                        dim,
                        depth: depth_flag,
                        arrayed,
                        multi_sampled,
                        sampled,
                        format,
                        access,
                    },
                ),
            ),
            _ => None,
        },
        _ => None,
    }
}

/// Reads the type that an operand names.
fn read_part(def: &DefAnalyzer, operand: &SpvOperand, depth: u128) -> (r: Option<
    Option<AggregateType>,
>)
    ensures
        reach_tree(r) == part_within(def@, operand@, depth as nat),
    decreases depth, 1nat,
{
    match op_def(def, operand) {
        Some(inst) => read_tree(def, inst, depth),
        None => None,
    }
}

/// Reads the types that operands name.
fn read_parts(def: &DefAnalyzer, operands: &Vec<SpvOperand>, depth: u128) -> (r: Option<
    Vec<AggregateType>,
>)
    ensures
        r is Some <==> parts_within(def@, model::views(operands@), depth as nat) is Some,
        r is Some ==> trees(r->0@) == parts_within(
            def@,
            model::views(operands@),
            depth as nat,
        )->0,
    decreases depth, 2nat,
{
    let ghost all = model::views(operands@);
    let mut parts: Vec<AggregateType> = Vec::new();
    assert(trees(parts@) =~= Seq::empty());
    for j in 0..operands.len()
        invariant
            all == model::views(operands@),
            parts_within(def@, all.take(j as int), depth as nat) == Some(trees(parts@)),
    {
        assert(all.take(j + 1).drop_last() =~= all.take(j as int));
        assert(all.take(j + 1).last() == operands@[j as int]@);
        match read_part(def, &operands[j], depth) {
            Some(Some(ty)) => {
                let ghost before = parts@;
                parts.push(ty);
                assert(trees(parts@) =~= trees(before).push(ty.tree()));
            },
            _ => {
                proof {
                    lemma_parts_prefix(def@, all, j + 1, depth as nat);
                }
                return None;
            },
        }
    }
    assert(all.take(all.len() as int) =~= all);
    Some(parts)
}

proof fn lemma_parts_prefix(
    defs: Map<u32, InstView>,
    ops: Seq<OperandView>,
    n: int,
    depth: nat,
)
    requires
        0 <= n <= ops.len(),
        parts_within(defs, ops.take(n), depth) is None,
    ensures
        parts_within(defs, ops, depth) is None,
    decreases ops.len() - n,
{
    if n < ops.len() {
        assert(ops.take(n + 1).drop_last() =~= ops.take(n));
        lemma_parts_prefix(defs, ops, n + 1, depth);
    } else {
        assert(ops.take(n) =~= ops);
    }
}

/// Reads the type that an instruction declares, if it can be read.
pub fn read_type(def: &DefAnalyzer, inst: &SpvInst) -> (r: Option<Option<AggregateType>>)
    ensures
        r is Some <==> type_readable(def@, inst@),
        r is Some ==> opt_tree(r->0) == type_of(def@, inst@),
{
    broadcast use vstd::std_specs::hash::group_hash_axioms;

    assert(def@.dom() =~= def.def_ids@.dom());
    let depth: u128 = def.count() as u128 + 1;
    let r = read_tree(def, inst, depth);
    proof {
        if type_readable(def@, inst@) {
            lemma_depth_bound(def@, inst@);
        }
        if tree_within(def@, inst@, depth as nat) is Some {
            lemma_type_of(def@, inst@, depth as nat);
        }
    }
    r
}

fn read_literals(inst: &SpvInst) -> (r: Vec<SpvOperand>)
    ensures
        model::views(r@) == literals(inst@),
{
    let op: u32 = inst.opcode();
    let mut r: Vec<SpvOperand> = Vec::new();
    if op == opcode::TYPE_INT || op == opcode::TYPE_OPAQUE || op == opcode::TYPE_ARRAY || op
        == opcode::TYPE_POINTER || op == opcode::TYPE_IMAGE {
        assert(model::views(r@) =~= Seq::empty());
        return r;
    }
    let ghost all = inst@.operands;
    let ghost keep = |o: OperandView| o.id() is None;
    assert(model::views(r@) =~= all.take(0).filter(keep)) by {
        reveal(Seq::filter);
    }
    for k in 0..inst.operands.len()
        invariant
            all == inst@.operands,
            keep == (|o: OperandView| o.id() is None),
            model::views(r@) == all.take(k as int).filter(keep),
    {
        broadcast use model::lemma_views_push;

        reveal(Seq::filter);
        assert(all.take(k + 1).drop_last() =~= all.take(k as int));
        assert(all.take(k + 1).last() == inst.operands@[k as int]@);
        if inst.operands[k].id().is_none() {
            r.push(inst.operands[k].duplicate());
        }
    }
    assert(all.take(all.len() as int) =~= all);
    r
}

fn read_part_operands(inst: &SpvInst) -> (r: Vec<SpvOperand>)
    ensures
        model::views(r@) == part_operands(inst@),
{
    let op: u32 = inst.opcode();
    let ops = &inst.operands;
    assert(forall|k: int| 0 <= k < ops@.len() ==> inst@.operands[k] == (#[trigger] ops@[k])@);
    if op == opcode::TYPE_STRUCT || op == opcode::TYPE_FUNCTION {
        return model::duplicate_all(ops);
    }
    let mut r: Vec<SpvOperand> = Vec::new();
    if op == opcode::TYPE_POINTER && ops.len() > 1 {
        r.push(ops[1].duplicate());
    } else if (op == opcode::TYPE_ARRAY || op == opcode::TYPE_IMAGE || op
        == opcode::TYPE_RUNTIME_ARRAY || op == opcode::TYPE_VECTOR || op == opcode::TYPE_MATRIX
        || op == opcode::TYPE_SAMPLED_IMAGE) && ops.len() > 0 {
        r.push(ops[0].duplicate());
    }
    assert(model::views(r@) =~= part_operands(inst@));
    r
}

/// Appends the outline of the type that an instruction declares, down through at most
/// `depth` declarations.
fn append_outline(
    out: &mut Vec<OutlineNode>,
    def: &DefAnalyzer,
    inst: &SpvInst,
    depth: u128,
)
    ensures
        model::views(final(out)@) == model::views(old(out)@) + outline_within(
            def@,
            inst@,
            depth as nat,
        ),
    decreases depth,
{
    broadcast use model::lemma_views_push;

    let ghost start = model::views(out@);
    if depth == 0 {
        assert(model::views(out@) =~= start + outline_within(def@, inst@, 0));
        return;
    }
    out.push(OutlineNode { opcode: inst.opcode(), literals: read_literals(inst) });
    let ghost head = model::views(out@);
    let parts = read_part_operands(inst);
    let ghost all = model::views(parts@);
    let ghost d = (depth - 1) as nat;
    assert(head + outlines_within(def@, all.take(0), d) =~= head);
    for k in 0..parts.len()
        invariant
            depth > 0,
            d == depth - 1,
            all == model::views(parts@),
            model::views(out@) == head + outlines_within(def@, all.take(k as int), d),
    {
        assert(all.take(k + 1).drop_last() =~= all.take(k as int));
        assert(all.take(k + 1).last() == parts@[k as int]@);
        if let Some(part) = op_def(def, &parts[k]) {
            append_outline(out, def, part, depth - 1);
        }
        assert(model::views(out@) =~= head + outlines_within(def@, all.take(k + 1), d));
    }
    assert(all.take(all.len() as int) =~= all);
    assert(model::views(out@) =~= start + outline_within(def@, inst@, depth as nat));
}

/// The outline of the type that an instruction declares.
fn read_outline(def: &DefAnalyzer, inst: &SpvInst) -> (r: Vec<OutlineNode>)
    requires
        type_readable(def@, inst@),
    ensures
        model::views(r@) == outline_of(def@, inst@),
{
    broadcast use vstd::std_specs::hash::group_hash_axioms;

    assert(def@.dom() =~= def.def_ids@.dom());
    let depth: u128 = def.count() as u128 + 1;
    let mut r: Vec<OutlineNode> = Vec::new();
    append_outline(&mut r, def, inst, depth);
    proof {
        lemma_depth_bound(def@, inst@);
        lemma_type_of(def@, inst@, depth as nat);
    }
    assert(model::views(r@) =~= outline_of(def@, inst@));
    r
}

/// Whether the outlines of two types are the same.
pub fn same_outline(def: &DefAnalyzer, a: &SpvInst, b: &SpvInst) -> (r: bool)
    requires
        type_readable(def@, a@),
        type_readable(def@, b@),
    ensures
        r == (outline_of(def@, a@) == outline_of(def@, b@)),
{
    let x = read_outline(def, a);
    let y = read_outline(def, b);
    let ghost p = model::views(x@);
    let ghost q = model::views(y@);
    if x.len() != y.len() {
        assert(p.len() != q.len());
        return false;
    }
    for k in 0..x.len()
        invariant
            p == model::views(x@),
            q == model::views(y@),
            p == outline_of(def@, a@),
            q == outline_of(def@, b@),
            x@.len() == y@.len(),
            forall|j: int| 0 <= j < k ==> (#[trigger] p[j]) == q[j],
    {
        assert(p[k as int] == x@[k as int]@ && q[k as int] == y@[k as int]@);
        if x[k].opcode != y[k].opcode || !model::same_operands(&x[k].literals, &y[k].literals) {
            assert(p[k as int] != q[k as int]);
            return false;
        }
    }
    assert(p =~= q);
    true
}

/// Reads the type that an instruction declares; `None` where it declares no type
/// that is known here.
pub fn trans_aggregate_type(def: &DefAnalyzer, inst: &SpvInst) -> (r: Option<AggregateType>)
    requires
        type_readable(def@, inst@),
    ensures
        opt_tree(r) == type_of(def@, inst@),
{
    read_type(def, inst).unwrap()
}

/// Whether two scalar types are the same.
fn same_scalar(a: &ScalarType, b: &ScalarType) -> (r: bool)
    ensures
        r == (a@ == b@),
{
    match (a, b) {
        (ScalarType::Void, ScalarType::Void) => true,
        (ScalarType::Bool, ScalarType::Bool) => true,
        (
            ScalarType::Int { width: w1, signed: s1 },
            ScalarType::Int { width: w2, signed: s2 },
        ) => *w1 == *w2 && *s1 == *s2,
        (ScalarType::Float { width: w1 }, ScalarType::Float { width: w2 }) => *w1 == *w2,
        (ScalarType::Opaque { name: n1 }, ScalarType::Opaque { name: n2 }) => *n1 == *n2,
        (ScalarType::Event, ScalarType::Event) => true,
        (ScalarType::DeviceEvent, ScalarType::DeviceEvent) => true,
        (ScalarType::ReserveId, ScalarType::ReserveId) => true,
        (ScalarType::Queue, ScalarType::Queue) => true,
        (ScalarType::Pipe, ScalarType::Pipe) => true,
        (
            ScalarType::ForwardPointer { storage_class: c1 },
            ScalarType::ForwardPointer { storage_class: c2 },
        ) => *c1 == *c2,
        (ScalarType::PipeStorage, ScalarType::PipeStorage) => true,
        (ScalarType::NamedBarrier, ScalarType::NamedBarrier) => true,
        (ScalarType::Sampler, ScalarType::Sampler) => true,
        _ => false,
    }
}

/// Whether two types are the same.
pub fn same_type(a: &AggregateType, b: &AggregateType) -> (r: bool)
    ensures
        r == (a.tree() == b.tree()),
    decreases a,
{
    match (a, b) {
        (AggregateType::Scalar(x), AggregateType::Scalar(y)) => same_scalar(x, y),
        (AggregateType::Array { ty: t1, len: l1 }, AggregateType::Array { ty: t2, len: l2 }) => {
            *l1 == *l2 && same_type(t1, t2)
        },
        (
            AggregateType::Pointer { ty: t1, storage_class: c1 },
            AggregateType::Pointer { ty: t2, storage_class: c2 },
        ) => *c1 == *c2 && same_type(t1, t2),
        (
            AggregateType::Image {
                ty: t1,
                dim: d1,
                depth: e1,
                arrayed: r1,
                multi_sampled: m1,
                sampled: s1,
                format: f1,
                access: c1,
            },
            AggregateType::Image {
                ty: t2,
                dim: d2,
                depth: e2,
                arrayed: r2,
                multi_sampled: m2,
                sampled: s2,
                format: f2,
                access: c2,
            },
        ) => {
            *d1 == *d2 && *e1 == *e2 && *r1 == *r2 && *m1 == *m2 && *s1 == *s2 && *f1 == *f2 && *c1
                == *c2 && same_type(t1, t2)
        },
        (AggregateType::Aggregate(p1), AggregateType::Aggregate(p2)) => {
            let ghost x = a.tree()->Aggregate_0;
            let ghost y = b.tree()->Aggregate_0;
            if p1.len() != p2.len() {
                assert(x.len() != y.len());
                return false;
            }
            for j in 0..p1.len()
                invariant
                    p1.len() == p2.len(),
                    a == AggregateType::Aggregate(*p1),
                    b == AggregateType::Aggregate(*p2),
                    x == a.tree()->Aggregate_0,
                    y == b.tree()->Aggregate_0,
                    forall|k: int| 0 <= k < j ==> (#[trigger] x[k]) == y[k],
            {
                assert(x[j as int] == p1@[j as int].tree());
                assert(y[j as int] == p2@[j as int].tree());
                if !same_type(&p1[j], &p2[j]) {
                    return false;
                }
            }
            assert(x =~= y);
            true
        },
        _ => false,
    }
}

/// Whether two types that may be unknown are the same; unknown types are.
pub fn same_opt_type(a: &Option<AggregateType>, b: &Option<AggregateType>) -> (r: bool)
    ensures
        r == (opt_tree(*a) == opt_tree(*b)),
{
    match (a, b) {
        (Some(x), Some(y)) => same_type(x, y),
        (None, None) => true,
        _ => false,
    }
}

/// Whether two operands are enumerants of the given kind with the same number.
pub open spec fn same_enumerant(x: OperandView, y: OperandView, kind: EnumerantKind) -> bool {
    match (x, y) {
        (OperandView::Enumerant(e), OperandView::Enumerant(f)) => e.kind == kind && f.kind == kind
            && e.code == f.code,
        _ => false,
    }
}

/// Whether an operand is an enumerant of the given kind.
pub open spec fn is_of_kind(x: OperandView, kind: EnumerantKind) -> bool {
    x matches OperandView::Enumerant(e) && e.kind == kind
}

/// The operands of a type declaration that name the types that it is made of.
pub open spec fn components(i: InstView) -> Seq<OperandView> {
    if i.opcode == opcode::TYPE_STRUCT || i.opcode == opcode::TYPE_FUNCTION {
        i.operands
    } else if i.opcode == opcode::TYPE_POINTER {
        seq![i.operands[1]]
    } else if i.opcode == opcode::TYPE_ARRAY || i.opcode == opcode::TYPE_RUNTIME_ARRAY || i.opcode
        == opcode::TYPE_VECTOR || i.opcode == opcode::TYPE_MATRIX || i.opcode
        == opcode::TYPE_SAMPLED_IMAGE || i.opcode == opcode::TYPE_IMAGE {
        seq![i.operands[0]]
    } else {
        Seq::empty()
    }
}

/// Whether two array types take their lengths from constants with the same value.
pub open spec fn same_length(defs: Map<u32, InstView>, a: InstView, b: InstView) -> bool {
    let x = defs[a.operands[1].id()->0];
    let y = defs[b.operands[1].id()->0];
    &&& a.operands[1].id() is Some
    &&& b.operands[1].id() is Some
    &&& x.opcode == opcode::CONSTANT
    &&& y.opcode == opcode::CONSTANT
    &&& array_length(defs, a.operands[1]) == array_length(defs, b.operands[1])
    &&& x.operands.len() == 1 && y.operands.len() == 1 && x.operands[0] is LiteralBit32
        && y.operands[0] is LiteralBit32 ==> x.operands[0] == y.operands[0]
    &&& x.operands.len() == 1 && y.operands.len() == 1 && x.operands[0] is LiteralBit64
        && y.operands[0] is LiteralBit64 ==> x.operands[0] == y.operands[0]
}

/// Whether two declarations of types are of the same kind and say the same apart from
/// what they are made of: integers have the same width and signedness, pointers the
/// same storage class, arrays the same length, images the same features, opaque types
/// the same name, and all others, such as floats, vectors and matrices, the same
/// literals.
pub open spec fn same_kind(defs: Map<u32, InstView>, a: InstView, b: InstView) -> bool {
    let op = a.opcode;
    let x = a.operands;
    let y = b.operands;
    &&& a.opcode == b.opcode
    &&& op == opcode::TYPE_INT ==> {
        &&& x.len() > 1 && y.len() > 1
        &&& x[0] is LiteralBit32
        &&& x[0] == y[0]
        &&& x[1] is LiteralBit32 && y[1] is LiteralBit32
        &&& x[1] == OperandView::LiteralBit32(0) <==> y[1] == OperandView::LiteralBit32(0)
    }
    &&& op == opcode::TYPE_OPAQUE ==> x.len() > 0 && y.len() > 0 && x[0] == y[0]
    &&& op == opcode::TYPE_POINTER ==> x.len() > 1 && y.len() > 1 && same_enumerant(
        x[0],
        y[0],
        EnumerantKind::StorageClass,
    )
    &&& op == opcode::TYPE_ARRAY ==> x.len() > 1 && y.len() > 1 && same_length(defs, a, b)
    &&& op == opcode::TYPE_IMAGE ==> {
        &&& x.len() >= 7 && y.len() >= 7
        &&& same_enumerant(x[1], y[1], EnumerantKind::Dim)
        &&& x[2] == y[2]
        &&& x[3] == y[3]
        &&& x[4] == y[4]
        &&& x[5] == y[5]
        &&& same_enumerant(x[6], y[6], EnumerantKind::ImageFormat)
        &&& x.len() > 7 && is_of_kind(x[7], EnumerantKind::AccessQualifier) ==> y.len() > 7
            && same_enumerant(x[7], y[7], EnumerantKind::AccessQualifier)
        &&& y.len() > 7 && is_of_kind(y[7], EnumerantKind::AccessQualifier) ==> x.len() > 7
            && same_enumerant(x[7], y[7], EnumerantKind::AccessQualifier)
    }
    &&& op != opcode::TYPE_INT && op != opcode::TYPE_OPAQUE && op != opcode::TYPE_POINTER && op
        != opcode::TYPE_ARRAY && op != opcode::TYPE_IMAGE ==> x.filter(
        |o: OperandView| o.id() is None,
    ) == y.filter(|o: OperandView| o.id() is None)
}

/// Whether two types are the same in structure, down through `depth` declarations: they
/// are of the same kind, and what they are made of is the same in structure, pairwise.
pub open spec fn alike(defs: Map<u32, InstView>, a: InstView, b: InstView, depth: nat) -> bool
    decreases depth,
{
    depth == 0 || {
        &&& same_kind(defs, a, b)
        &&& components(a).len() == components(b).len()
        &&& forall|k: int|
            0 <= k < components(a).len() ==> {
                &&& (#[trigger] components(a)[k]).id() is Some
                &&& components(b)[k].id() is Some
                &&& defs.contains_key(components(a)[k].id()->0)
                &&& defs.contains_key(components(b)[k].id()->0)
                &&& alike(
                    defs,
                    defs[components(a)[k].id()->0],
                    defs[components(b)[k].id()->0],
                    (depth - 1) as nat,
                )
            }
    }
}

proof fn lemma_parts_are(defs: Map<u32, InstView>, ops: Seq<OperandView>, depth: nat)
    requires
        parts_within(defs, ops, depth) is Some,
    ensures
        (parts_within(defs, ops, depth)->0).len() == ops.len(),
        forall|k: int|
            0 <= k < ops.len() ==> part_within(defs, #[trigger] ops[k], depth) == Some(
                Some((parts_within(defs, ops, depth)->0)[k]),
            ),
    decreases ops.len(),
{
    if ops.len() > 0 {
        let rest = ops.drop_last();
        lemma_parts_are(defs, rest, depth);
        assert forall|k: int| 0 <= k < ops.len() implies part_within(defs, #[trigger] ops[k], depth)
            == Some(Some((parts_within(defs, ops, depth)->0)[k])) by {
            if k < rest.len() {
                assert(rest[k] == ops[k]);
            }
        }
    }
}

/// The parts of two types with the same tree and opcode have the same trees.
proof fn lemma_parts_agree(defs: Map<u32, InstView>, a: InstView, b: InstView, depth: nat)
    requires
        depth > 0,
        tree_within(defs, a, depth) is Some,
        tree_within(defs, a, depth) == tree_within(defs, b, depth),
        a.opcode == b.opcode,
    ensures
        part_operands(a) == components(a),
        part_operands(b) == components(b),
        components(a).len() == components(b).len(),
        forall|k: int|
            0 <= k < components(a).len() ==> {
                &&& part_within(defs, #[trigger] components(a)[k], (depth - 1) as nat) is Some
                &&& part_within(defs, components(a)[k], (depth - 1) as nat) == part_within(
                    defs,
                    components(b)[k],
                    (depth - 1) as nat,
                )
            },
{
    let op = a.opcode;
    let d = (depth - 1) as nat;
    assert(part_operands(a) =~= components(a));
    assert(part_operands(b) =~= components(b));
    if op == opcode::TYPE_STRUCT || op == opcode::TYPE_FUNCTION {
        lemma_parts_are(defs, a.operands, d);
        lemma_parts_are(defs, b.operands, d);
        let x = parts_within(defs, a.operands, d)->0;
        let y = parts_within(defs, b.operands, d)->0;
        assert(x == y);
    } else if wraps_one(op) {
        let x = (tree_within(defs, a, depth)->0)->0->Aggregate_0;
        let y = (tree_within(defs, b, depth)->0)->0->Aggregate_0;
        assert(x == y);
        if x.len() > 0 {
            assert(x[0] == y[0]);
        }
    }
}

/// Two types with the same tree, opcode and literals are of the same kind.
proof fn lemma_same_kind(defs: Map<u32, InstView>, a: InstView, b: InstView, depth: nat)
    requires
        depth > 0,
        tree_within(defs, a, depth) is Some,
        tree_within(defs, a, depth) == tree_within(defs, b, depth),
        a.opcode == b.opcode,
        literals(a) == literals(b),
    ensures
        same_kind(defs, a, b),
{
    let op = a.opcode;
    if op == opcode::TYPE_ARRAY {
        let x = defs[a.operands[1].id()->0];
        let y = defs[b.operands[1].id()->0];
        assert(array_length(defs, a.operands[1]) == array_length(defs, b.operands[1]));
        if x.operands.len() == 1 {
            assert(x.operands.drop_first() =~= Seq::empty());
        }
        if y.operands.len() == 1 {
            assert(y.operands.drop_first() =~= Seq::empty());
        }
    }
}

/// Two types with the same tree whose outlines agree as far as they go are the same in
/// structure, and what follows the outlines agrees too.
proof fn lemma_alike(
    defs: Map<u32, InstView>,
    a: InstView,
    b: InstView,
    depth: nat,
    s: Seq<NodeView>,
    t: Seq<NodeView>,
)
    requires
        tree_within(defs, a, depth) is Some,
        tree_within(defs, a, depth) == tree_within(defs, b, depth),
        outline_within(defs, a, depth) + s == outline_within(defs, b, depth) + t,
    ensures
        outline_within(defs, a, depth) == outline_within(defs, b, depth),
        s == t,
        alike(defs, a, b, depth),
    decreases depth, 0nat,
{
    let d = (depth - 1) as nat;
    let x = outline_within(defs, a, depth) + s;
    let y = outline_within(defs, b, depth) + t;
    assert(x[0] == NodeView { opcode: a.opcode, literals: literals(a) });
    assert(y[0] == NodeView { opcode: b.opcode, literals: literals(b) });
    assert(x.skip(1) =~= outlines_within(defs, part_operands(a), d) + s);
    assert(y.skip(1) =~= outlines_within(defs, part_operands(b), d) + t);
    lemma_parts_agree(defs, a, b, depth);
    lemma_same_kind(defs, a, b, depth);
    lemma_alike_parts(defs, components(a), components(b), d, s, t);
}

proof fn lemma_alike_parts(
    defs: Map<u32, InstView>,
    p: Seq<OperandView>,
    q: Seq<OperandView>,
    depth: nat,
    s: Seq<NodeView>,
    t: Seq<NodeView>,
)
    requires
        p.len() == q.len(),
        forall|k: int|
            0 <= k < p.len() ==> part_within(defs, #[trigger] p[k], depth) is Some && part_within(
                defs,
                p[k],
                depth,
            ) == part_within(defs, q[k], depth),
        outlines_within(defs, p, depth) + s == outlines_within(defs, q, depth) + t,
    ensures
        outlines_within(defs, p, depth) == outlines_within(defs, q, depth),
        s == t,
        forall|k: int|
            0 <= k < p.len() ==> {
                &&& (#[trigger] p[k]).id() is Some
                &&& q[k].id() is Some
                &&& defs.contains_key(p[k].id()->0)
                &&& defs.contains_key(q[k].id()->0)
                &&& alike(defs, defs[p[k].id()->0], defs[q[k].id()->0], depth)
            },
    decreases depth, 1 + p.len(),
{
    if p.len() == 0 {
        assert(outlines_within(defs, p, depth) + s =~= s);
        assert(outlines_within(defs, q, depth) + t =~= t);
    } else {
        let n = p.len() - 1;
        let a = p.drop_last();
        let b = q.drop_last();
        assert(part_within(defs, p[n], depth) is Some);
        let x = operand_def(defs, p.last())->0;
        let y = operand_def(defs, q.last())->0;
        let u = outline_within(defs, x, depth);
        let v = outline_within(defs, y, depth);
        assert(outlines_within(defs, p, depth) + s =~= outlines_within(defs, a, depth) + (u + s));
        assert(outlines_within(defs, q, depth) + t =~= outlines_within(defs, b, depth) + (v + t));
        assert forall|k: int| 0 <= k < a.len() implies part_within(defs, #[trigger] a[k], depth) is Some
            && part_within(defs, a[k], depth) == part_within(defs, b[k], depth) by {
            assert(a[k] == p[k] && b[k] == q[k]);
        }
        lemma_alike_parts(defs, a, b, depth, u + s, v + t);
        lemma_alike(defs, x, y, depth, s, t);
        assert forall|k: int| 0 <= k < p.len() implies {
            &&& (#[trigger] p[k]).id() is Some
            &&& q[k].id() is Some
            &&& defs.contains_key(p[k].id()->0)
            &&& defs.contains_key(q[k].id()->0)
            &&& alike(defs, defs[p[k].id()->0], defs[q[k].id()->0], depth)
        } by {
            if k < n {
                assert(a[k] == p[k] && b[k] == q[k]);
            }
        }
    }
}

proof fn lemma_alike_less(defs: Map<u32, InstView>, a: InstView, b: InstView, less: nat, depth: nat)
    requires
        less <= depth,
        alike(defs, a, b, depth),
    ensures
        alike(defs, a, b, less),
    decreases less,
{
    if less > 0 {
        assert forall|k: int| 0 <= k < components(a).len() implies {
            &&& (#[trigger] components(a)[k]).id() is Some
            &&& components(b)[k].id() is Some
            &&& defs.contains_key(components(a)[k].id()->0)
            &&& defs.contains_key(components(b)[k].id()->0)
            &&& alike(
                defs,
                defs[components(a)[k].id()->0],
                defs[components(b)[k].id()->0],
                (less - 1) as nat,
            )
        } by {
            lemma_alike_less(
                defs,
                defs[components(a)[k].id()->0],
                defs[components(b)[k].id()->0],
                (less - 1) as nat,
                (depth - 1) as nat,
            );
        }
    }
}

/// Types that match are the same in structure, to any depth.
pub proof fn law_matching_types_are_alike(
    defs: Map<u32, InstView>,
    a: InstView,
    b: InstView,
    depth: nat,
)
    requires
        type_readable(defs, a),
        type_readable(defs, b),
        types_match(defs, a, b),
    ensures
        alike(defs, a, b, depth),
{
    let x = choose|depth: nat| #[trigger] tree_within(defs, a, depth) is Some;
    let y = choose|depth: nat| #[trigger] tree_within(defs, b, depth) is Some;
    let most = x + y + depth;
    lemma_much_deeper(defs, a, x, most);
    lemma_much_deeper(defs, b, y, most);
    lemma_type_of(defs, a, most);
    lemma_type_of(defs, b, most);
    let none = Seq::<NodeView>::empty();
    assert(outline_within(defs, a, most) + none =~= outline_within(defs, b, most) + none);
    lemma_alike(defs, a, b, most, none, none);
    lemma_alike_less(defs, a, b, depth, most);
}

proof fn lemma_first_class(ops: Seq<OperandView>)
    ensures
        first_storage_class(ops) == first_storage_class(
            ops.filter(|o: OperandView| o.id() is None),
        ),
    decreases ops.len(),
{
    let p = |o: OperandView| o.id() is None;
    if ops.len() > 0 {
        let one = seq![ops[0]];
        let rest = ops.drop_first();
        assert(ops =~= one + rest);
        Seq::filter_distributes_over_add(one, rest, p);
        assert(one.filter(p) =~= if p(ops[0]) {
            one
        } else {
            Seq::empty()
        }) by {
            reveal(Seq::filter);
            assert(one.drop_last() =~= Seq::empty());
            assert(one.drop_last().filter(p) =~= Seq::empty());
        }
        lemma_first_class(rest);
        let f = ops.filter(p);
        if p(ops[0]) {
            assert(f[0] == ops[0]);
            assert(f.drop_first() =~= rest.filter(p));
        } else {
            assert(f =~= rest.filter(p));
        }
    } else {
        assert(ops.filter(p) =~= Seq::empty()) by {
            reveal(Seq::filter);
        }
    }
}

proof fn lemma_first_kept(ops: Seq<OperandView>)
    requires
        ops.len() > 0,
        ops[0].id() is None,
    ensures
        ops.filter(|o: OperandView| o.id() is None).len() > 0,
        ops.filter(|o: OperandView| o.id() is None)[0] == ops[0],
    decreases ops.len(),
{
    reveal(Seq::filter);
    let p = |o: OperandView| o.id() is None;
    let rest = ops.drop_last();
    if rest.len() > 0 {
        assert(rest[0] == ops[0]);
        lemma_first_kept(rest);
    } else {
        assert(rest.filter(p) =~= Seq::empty());
    }
}

/// Two scalar types of the same kind have the same tree.
proof fn lemma_same_scalar(defs: Map<u32, InstView>, a: InstView, b: InstView)
    requires
        same_kind(defs, a, b),
        scalar_of(a) is Some,
        scalar_of(b) is Some,
    ensures
        scalar_of(a) == scalar_of(b),
{
    if a.opcode == opcode::TYPE_FLOAT {
        lemma_first_kept(a.operands);
        lemma_first_kept(b.operands);
    } else if a.opcode == opcode::TYPE_FORWARD_POINTER {
        lemma_first_class(a.operands);
        lemma_first_class(b.operands);
    }
}

proof fn lemma_same_tree(defs: Map<u32, InstView>, a: InstView, b: InstView, depth: nat)
    requires
        tree_within(defs, a, depth) is Some,
        tree_within(defs, b, depth) is Some,
        alike(defs, a, b, depth),
    ensures
        tree_within(defs, a, depth) == tree_within(defs, b, depth),
        outline_within(defs, a, depth) == outline_within(defs, b, depth),
    decreases depth, 0nat,
{
    let op = a.opcode;
    let d = (depth - 1) as nat;
    assert(part_operands(a) =~= components(a));
    assert(part_operands(b) =~= components(b));
    assert(literals(a) =~= literals(b));
    if op == opcode::TYPE_STRUCT || op == opcode::TYPE_FUNCTION {
        lemma_same_parts(defs, a.operands, b.operands, d);
    } else if op == opcode::TYPE_POINTER || op == opcode::TYPE_ARRAY || op == opcode::TYPE_IMAGE
        || wraps_one(op) {
        let x = components(a)[0];
        let y = components(b)[0];
        assert(components(a) =~= seq![x]);
        assert(components(b) =~= seq![y]);
        lemma_same_tree(defs, defs[x.id()->0], defs[y.id()->0], d);
        reveal_with_fuel(outlines_within, 2);
        assert(seq![x].drop_last() =~= Seq::empty());
        assert(seq![y].drop_last() =~= Seq::empty());
    } else {
        lemma_same_scalar(defs, a, b);
    }
}

proof fn lemma_same_parts(
    defs: Map<u32, InstView>,
    p: Seq<OperandView>,
    q: Seq<OperandView>,
    depth: nat,
)
    requires
        p.len() == q.len(),
        parts_within(defs, p, depth) is Some,
        parts_within(defs, q, depth) is Some,
        forall|k: int|
            0 <= k < p.len() ==> {
                &&& (#[trigger] p[k]).id() is Some
                &&& q[k].id() is Some
                &&& defs.contains_key(p[k].id()->0)
                &&& defs.contains_key(q[k].id()->0)
                &&& alike(defs, defs[p[k].id()->0], defs[q[k].id()->0], depth)
            },
    ensures
        parts_within(defs, p, depth) == parts_within(defs, q, depth),
        outlines_within(defs, p, depth) == outlines_within(defs, q, depth),
    decreases depth, 1 + p.len(),
{
    if p.len() > 0 {
        let n = p.len() - 1;
        let a = p.drop_last();
        let b = q.drop_last();
        assert forall|k: int| 0 <= k < a.len() implies {
            &&& (#[trigger] a[k]).id() is Some
            &&& b[k].id() is Some
            &&& defs.contains_key(a[k].id()->0)
            &&& defs.contains_key(b[k].id()->0)
            &&& alike(defs, defs[a[k].id()->0], defs[b[k].id()->0], depth)
        } by {
            assert(a[k] == p[k] && b[k] == q[k]);
        }
        lemma_same_parts(defs, a, b, depth);
        assert(p[n].id() is Some);
        assert(part_within(defs, p.last(), depth) is Some);
        assert(part_within(defs, q.last(), depth) is Some);
        assert(operand_def(defs, p[n]) == Some(defs[p[n].id()->0]));
        assert(operand_def(defs, q[n]) == Some(defs[q[n].id()->0]));
        lemma_same_tree(defs, defs[p[n].id()->0], defs[q[n].id()->0], depth);
    }
}

/// Types that are the same in structure match.
pub proof fn law_alike_types_match(defs: Map<u32, InstView>, a: InstView, b: InstView)
    requires
        type_readable(defs, a),
        type_readable(defs, b),
        forall|depth: nat| #[trigger] alike(defs, a, b, depth),
    ensures
        types_match(defs, a, b),
{
    let x = choose|depth: nat| #[trigger] tree_within(defs, a, depth) is Some;
    let y = choose|depth: nat| #[trigger] tree_within(defs, b, depth) is Some;
    let most = x + y;
    lemma_much_deeper(defs, a, x, most);
    lemma_much_deeper(defs, b, y, most);
    lemma_type_of(defs, a, most);
    lemma_type_of(defs, b, most);
    assert(alike(defs, a, b, most));
    lemma_same_tree(defs, a, b, most);
}

/// Whether the first storage class among operands has the given number.
pub open spec fn begins_with_class(ops: Seq<OperandView>, code: u32) -> bool {
    exists|k: int|
        {
            &&& 0 <= k < ops.len()
            &&& #[trigger] ops[k] matches OperandView::Enumerant(e) && e.kind
                == EnumerantKind::StorageClass && e.code == code
            &&& forall|j: int| 0 <= j < k ==> !is_of_kind(#[trigger] ops[j], EnumerantKind::StorageClass)
        }
}

/// Whether an instruction declares the given scalar type.
pub open spec fn declares_scalar(i: InstView, s: ScalarView) -> bool {
    let ops = i.operands;
    match s {
        ScalarView::Void => i.opcode == opcode::TYPE_VOID,
        ScalarView::Bool => i.opcode == opcode::TYPE_BOOL,
        ScalarView::Int { width, signed } => {
            &&& i.opcode == opcode::TYPE_INT
            &&& ops.len() > 1
            &&& ops[0] == OperandView::LiteralBit32(width)
            &&& ops[1] is LiteralBit32
            &&& signed <==> ops[1] != OperandView::LiteralBit32(0)
        },
        ScalarView::Float { width } => {
            &&& i.opcode == opcode::TYPE_FLOAT
            &&& ops.len() > 0
            &&& ops[0] == OperandView::LiteralBit32(width)
        },
        ScalarView::Opaque { name } => {
            &&& i.opcode == opcode::TYPE_OPAQUE
            &&& ops.len() > 0
            &&& ops[0] == OperandView::LiteralString(name)
        },
        ScalarView::Event => i.opcode == opcode::TYPE_EVENT,
        ScalarView::DeviceEvent => i.opcode == opcode::TYPE_DEVICE_EVENT,
        ScalarView::ReserveId => i.opcode == opcode::TYPE_RESERVE_ID,
        ScalarView::Queue => i.opcode == opcode::TYPE_QUEUE,
        ScalarView::Pipe => i.opcode == opcode::TYPE_PIPE,
        ScalarView::ForwardPointer { storage_class } => {
            &&& i.opcode == opcode::TYPE_FORWARD_POINTER
            &&& begins_with_class(ops, storage_class)
        },
        ScalarView::PipeStorage => i.opcode == opcode::TYPE_PIPE_STORAGE,
        ScalarView::NamedBarrier => i.opcode == opcode::TYPE_NAMED_BARRIER,
        ScalarView::Sampler => i.opcode == opcode::TYPE_SAMPLER,
    }
}

proof fn lemma_class(ops: Seq<OperandView>, code: u32)
    ensures
        first_storage_class(ops) == Some(code) <==> begins_with_class(ops, code),
    decreases ops.len(),
{
    if ops.len() > 0 {
        let rest = ops.drop_first();
        lemma_class(rest, code);
        if is_of_kind(ops[0], EnumerantKind::StorageClass) {
            if first_storage_class(ops) == Some(code) {
                assert(ops[0] matches OperandView::Enumerant(e) && e.code == code);
                assert(begins_with_class(ops, code));
            }
        } else {
            if begins_with_class(rest, code) {
                let k = choose|k: int|
                    {
                        &&& 0 <= k < rest.len()
                        &&& #[trigger] rest[k] matches OperandView::Enumerant(e) && e.kind
                            == EnumerantKind::StorageClass && e.code == code
                        &&& forall|j: int|
                            0 <= j < k ==> !is_of_kind(
                                #[trigger] rest[j],
                                EnumerantKind::StorageClass,
                            )
                    };
                assert(ops[k + 1] == rest[k]);
                assert forall|j: int| 0 <= j < k + 1 implies !is_of_kind(
                    #[trigger] ops[j],
                    EnumerantKind::StorageClass,
                ) by {
                    if j > 0 {
                        assert(rest[j - 1] == ops[j]);
                    }
                }
            }
            if begins_with_class(ops, code) {
                let k = choose|k: int|
                    {
                        &&& 0 <= k < ops.len()
                        &&& #[trigger] ops[k] matches OperandView::Enumerant(e) && e.kind
                            == EnumerantKind::StorageClass && e.code == code
                        &&& forall|j: int|
                            0 <= j < k ==> !is_of_kind(
                                #[trigger] ops[j],
                                EnumerantKind::StorageClass,
                            )
                    };
                assert(rest[k - 1] == ops[k]);
                assert forall|j: int| 0 <= j < k - 1 implies !is_of_kind(
                    #[trigger] rest[j],
                    EnumerantKind::StorageClass,
                ) by {
                    assert(rest[j] == ops[j + 1]);
                }
            }
        }
    }
}

/// A scalar type is read off an instruction exactly where the instruction declares it.
pub proof fn law_scalars(i: InstView, s: ScalarView)
    ensures
        scalar_of(i) == Some(Some(s)) <==> declares_scalar(i, s),
{
    if s is ForwardPointer {
        lemma_class(i.operands, s->storage_class);
    }
}

/// The opcodes of the types that have a tree.
pub open spec fn has_tree(op: u32) -> bool {
    ||| op == opcode::TYPE_VOID || op == opcode::TYPE_BOOL || op == opcode::TYPE_INT || op
        == opcode::TYPE_FLOAT || op == opcode::TYPE_OPAQUE
    ||| op == opcode::TYPE_EVENT || op == opcode::TYPE_DEVICE_EVENT || op
        == opcode::TYPE_RESERVE_ID || op == opcode::TYPE_QUEUE
    ||| op == opcode::TYPE_PIPE || op == opcode::TYPE_PIPE_STORAGE || op
        == opcode::TYPE_NAMED_BARRIER || op == opcode::TYPE_SAMPLER || op
        == opcode::TYPE_FORWARD_POINTER
    ||| op == opcode::TYPE_ARRAY || op == opcode::TYPE_RUNTIME_ARRAY || op == opcode::TYPE_POINTER
        || op == opcode::TYPE_VECTOR || op == opcode::TYPE_MATRIX
    ||| op == opcode::TYPE_IMAGE || op == opcode::TYPE_SAMPLED_IMAGE || op == opcode::TYPE_STRUCT
        || op == opcode::TYPE_FUNCTION
}

/// Whether an operand names an instruction that declares a type with the given tree.
pub open spec fn names_tree(defs: Map<u32, InstView>, o: OperandView, t: TypeTree) -> bool
    decreases t, 1nat,
{
    &&& o.id() is Some
    &&& defs.contains_key(o.id()->0)
    &&& declares_tree(defs, defs[o.id()->0], t)
}

/// Whether an instruction declares a type with the given tree.
pub open spec fn declares_tree(defs: Map<u32, InstView>, i: InstView, t: TypeTree) -> bool
    decreases t, 0nat,
{
    let ops = i.operands;
    match t {
        TypeTree::Scalar(s) => declares_scalar(i, s),
        TypeTree::Array { ty, len } => {
            &&& i.opcode == opcode::TYPE_ARRAY
            &&& ops.len() > 1
            &&& names_tree(defs, ops[0], *ty)
            &&& has_length(defs, ops[1], len)
        },
        TypeTree::Pointer { ty, storage_class } => {
            &&& i.opcode == opcode::TYPE_POINTER
            &&& ops.len() > 1
            &&& ops[0] matches OperandView::Enumerant(e) && e.kind == EnumerantKind::StorageClass
                && e.code == storage_class
            &&& names_tree(defs, ops[1], *ty)
        },
        TypeTree::Image {
            ty,
            dim,
            depth,
            arrayed,
            multi_sampled,
            sampled,
            format,
            access,
        } => {
            &&& i.opcode == opcode::TYPE_IMAGE
            &&& ops.len() >= 7
            &&& names_tree(defs, ops[0], *ty)
            &&& ops[1] matches OperandView::Enumerant(e) && e.kind == EnumerantKind::Dim && e.code
                == dim
            &&& ops[2] == OperandView::LiteralBit32(depth)
            &&& ops[3] == OperandView::LiteralBit32(arrayed)
            &&& ops[4] == OperandView::LiteralBit32(multi_sampled)
            &&& ops[5] == OperandView::LiteralBit32(sampled)
            &&& ops[6] matches OperandView::Enumerant(e) && e.kind == EnumerantKind::ImageFormat
                && e.code == format
            &&& access is Some <==> ops.len() > 7 && is_of_kind(
                ops[7],
                EnumerantKind::AccessQualifier,
            )
            &&& access is Some ==> ops[7]->Enumerant_0.code == access->0
        },
        TypeTree::Aggregate(parts) => {
            if i.opcode == opcode::TYPE_STRUCT || i.opcode == opcode::TYPE_FUNCTION {
                &&& parts.len() == ops.len()
                &&& forall|k: int|
                    0 <= k < ops.len() && 0 <= k < parts.len() ==> names_tree(
                        defs,
                        #[trigger] ops[k],
                        parts[k],
                    )
            } else {
                &&& i.opcode == opcode::TYPE_RUNTIME_ARRAY || i.opcode == opcode::TYPE_VECTOR
                    || i.opcode == opcode::TYPE_MATRIX || i.opcode == opcode::TYPE_SAMPLED_IMAGE
                &&& ops.len() > 0
                &&& parts.len() <= 1
                &&& parts.len() == 1 ==> names_tree(defs, ops[0], parts[0])
                &&& parts.len() == 0 ==> ops[0].id() is Some && defs.contains_key(ops[0].id()->0)
                    && !has_tree(defs[ops[0].id()->0].opcode)
            }
        },
    }
}

/// Whether an operand names a constant that gives an array the length `len`. A constant
/// with one literal has its value.
pub open spec fn has_length(defs: Map<u32, InstView>, o: OperandView, len: u64) -> bool {
    let c = defs[o.id()->0];
    &&& o.id() is Some
    &&& defs.contains_key(o.id()->0)
    &&& c.opcode == opcode::CONSTANT
    &&& c.operands.len() == 1 ==> c.operands[0] == OperandView::LiteralBit64(len) || c.operands[0]
        == OperandView::LiteralBit32(len as u32) && len <= u32::MAX
    &&& exists|k: int|
        0 <= k < c.operands.len() && (#[trigger] c.operands[k] == OperandView::LiteralBit64(len)
            || c.operands[k] == OperandView::LiteralBit32(len as u32) && len <= u32::MAX)
}

proof fn lemma_first_literal(ops: Seq<OperandView>)
    ensures
        first_literal(ops) matches Some(len) ==> exists|k: int|
            0 <= k < ops.len() && (#[trigger] ops[k] == OperandView::LiteralBit64(len) || ops[k]
                == OperandView::LiteralBit32(len as u32) && len <= u32::MAX),
    decreases ops.len(),
{
    if ops.len() > 0 {
        let rest = ops.drop_first();
        lemma_first_literal(rest);
        if literal_int(ops[0]) is Some {
            let len = literal_int(ops[0])->0;
            assert(ops[0] == OperandView::LiteralBit64(len) || ops[0] == OperandView::LiteralBit32(
                len as u32,
            ) && len <= u32::MAX);
        } else if first_literal(rest) is Some {
            let len = first_literal(rest)->0;
            let k = choose|k: int|
                0 <= k < rest.len() && (#[trigger] rest[k] == OperandView::LiteralBit64(len)
                    || rest[k] == OperandView::LiteralBit32(len as u32) && len <= u32::MAX);
            assert(ops[k + 1] == rest[k]);
        }
    }
}

proof fn lemma_length(defs: Map<u32, InstView>, o: OperandView)
    ensures
        array_length(defs, o) matches Some(len) ==> has_length(defs, o, len),
{
    if array_length(defs, o) is Some {
        let len = array_length(defs, o)->0;
        let ops = defs[o.id()->0].operands;
        lemma_first_literal(ops);
        if ops.len() > 1 && literal_int(ops[1]) is Some {
            assert(ops[1] == OperandView::LiteralBit64(len) || ops[1] == OperandView::LiteralBit32(
                len as u32,
            ) && len <= u32::MAX);
        }
    }
}

proof fn lemma_declares_tree(defs: Map<u32, InstView>, i: InstView, depth: nat)
    requires
        tree_within(defs, i, depth) matches Some(Some(_)),
    ensures
        declares_tree(defs, i, tree_within(defs, i, depth)->0->0),
    decreases depth,
{
    let t = tree_within(defs, i, depth)->0->0;
    let d = (depth - 1) as nat;
    let ops = i.operands;
    match t {
        TypeTree::Scalar(s) => {
            law_scalars(i, s);
        },
        TypeTree::Array { ty, len } => {
            lemma_declares_tree(defs, defs[ops[0].id()->0], d);
            lemma_length(defs, ops[1]);
        },
        TypeTree::Pointer { ty, .. } => {
            lemma_declares_tree(defs, defs[ops[1].id()->0], d);
        },
        TypeTree::Image { ty, .. } => {
            lemma_declares_tree(defs, defs[ops[0].id()->0], d);
        },
        TypeTree::Aggregate(parts) => {
            if i.opcode == opcode::TYPE_STRUCT || i.opcode == opcode::TYPE_FUNCTION {
                lemma_parts_are(defs, ops, d);
                assert forall|k: int| 0 <= k < ops.len() && 0 <= k < parts.len() implies names_tree(
                    defs,
                    #[trigger] ops[k],
                    parts[k],
                ) by {
                    assert(part_within(defs, ops[k], d) == Some(Some(parts[k])));
                    lemma_declares_tree(defs, defs[ops[k].id()->0], d);
                }
            } else if parts.len() == 1 {
                assert(part_within(defs, ops[0], d) == Some(Some(parts[0])));
                lemma_declares_tree(defs, defs[ops[0].id()->0], d);
            }
        },
    }
}

/// The tree that is read off an instruction is that of the type that it declares.
pub proof fn law_trees(defs: Map<u32, InstView>, i: InstView)
    requires
        type_readable(defs, i),
    ensures
        type_of(defs, i) matches Some(t) ==> declares_tree(defs, i, t),
        type_of(defs, i) is Some <==> has_tree(i.opcode),
        type_of(defs, i) is None ==> forall|t: TypeTree| !#[trigger] declares_tree(defs, i, t),
{
    let depth = choose|depth: nat| #[trigger] tree_within(defs, i, depth) is Some;
    if type_of(defs, i) is Some {
        lemma_declares_tree(defs, i, depth);
    } else {
        assert forall|t: TypeTree| !#[trigger] declares_tree(defs, i, t) by {
            if t is Scalar {
                law_scalars(i, t->Scalar_0);
            }
        }
    }
}

/// Whether one of the operands is a literal number.
pub open spec fn holds_number(ops: Seq<OperandView>) -> bool {
    exists|k: int|
        0 <= k < ops.len() && (#[trigger] ops[k] is LiteralBit32 || ops[k] is LiteralBit64)
}

/// Whether one of the operands is a storage class.
pub open spec fn holds_class(ops: Seq<OperandView>) -> bool {
    exists|k: int|
        0 <= k < ops.len() && is_of_kind(#[trigger] ops[k], EnumerantKind::StorageClass)
}

/// Whether an instruction has the operands that a type of its kind must have, apart from
/// what the type is made of. An array takes its length from a constant with a number.
pub open spec fn has_own_operands(defs: Map<u32, InstView>, i: InstView) -> bool {
    let op = i.opcode;
    let x = i.operands;
    &&& op == opcode::TYPE_INT ==> x.len() > 1 && x[0] is LiteralBit32 && x[1] is LiteralBit32
    &&& op == opcode::TYPE_FLOAT ==> x.len() > 0 && x[0] is LiteralBit32
    &&& op == opcode::TYPE_OPAQUE ==> x.len() > 0 && x[0] is LiteralString
    &&& op == opcode::TYPE_FORWARD_POINTER ==> holds_class(x)
    &&& op == opcode::TYPE_POINTER ==> x.len() > 1 && is_of_kind(x[0], EnumerantKind::StorageClass)
    &&& op == opcode::TYPE_ARRAY ==> {
        &&& x.len() > 1
        &&& x[1].id() is Some
        &&& defs.contains_key(x[1].id()->0)
        &&& defs[x[1].id()->0].opcode == opcode::CONSTANT
        &&& holds_number(defs[x[1].id()->0].operands)
    }
    &&& op == opcode::TYPE_IMAGE ==> {
        &&& x.len() >= 7
        &&& is_of_kind(x[1], EnumerantKind::Dim)
        &&& x[2] is LiteralBit32
        &&& x[3] is LiteralBit32
        &&& x[4] is LiteralBit32
        &&& x[5] is LiteralBit32
        &&& is_of_kind(x[6], EnumerantKind::ImageFormat)
    }
    &&& op == opcode::TYPE_RUNTIME_ARRAY || op == opcode::TYPE_VECTOR || op == opcode::TYPE_MATRIX
        || op == opcode::TYPE_SAMPLED_IMAGE ==> x.len() > 0
}

/// Whether an instruction and all that it is made of, down through `depth` declarations
/// and no further, have what they must have. Structures, functions, pointers, arrays and
/// images are made of types alone.
pub open spec fn well_declared(defs: Map<u32, InstView>, i: InstView, depth: nat) -> bool
    decreases depth,
{
    let op = i.opcode;
    &&& depth > 0
    &&& has_own_operands(defs, i)
    &&& forall|k: int|
        0 <= k < components(i).len() ==> {
            &&& (#[trigger] components(i)[k]).id() is Some
            &&& defs.contains_key(components(i)[k].id()->0)
            &&& well_declared(defs, defs[components(i)[k].id()->0], (depth - 1) as nat)
            &&& op == opcode::TYPE_STRUCT || op == opcode::TYPE_FUNCTION || op
                == opcode::TYPE_POINTER || op == opcode::TYPE_ARRAY || op == opcode::TYPE_IMAGE
                ==> has_tree(defs[components(i)[k].id()->0].opcode)
        }
}

proof fn lemma_holds_number(ops: Seq<OperandView>)
    ensures
        first_literal(ops) is Some <==> holds_number(ops),
    decreases ops.len(),
{
    if ops.len() > 0 {
        let rest = ops.drop_first();
        lemma_holds_number(rest);
        if literal_int(ops[0]) is Some {
            assert(ops[0] is LiteralBit32 || ops[0] is LiteralBit64);
        } else {
            if holds_number(rest) {
                let k = choose|k: int|
                    0 <= k < rest.len() && (#[trigger] rest[k] is LiteralBit32
                        || rest[k] is LiteralBit64);
                assert(ops[k + 1] == rest[k]);
            }
            if holds_number(ops) {
                let k = choose|k: int|
                    0 <= k < ops.len() && (#[trigger] ops[k] is LiteralBit32
                        || ops[k] is LiteralBit64);
                assert(rest[k - 1] == ops[k]);
            }
        }
    }
}

proof fn lemma_holds_class(ops: Seq<OperandView>)
    ensures
        first_storage_class(ops) is Some <==> holds_class(ops),
    decreases ops.len(),
{
    if ops.len() > 0 {
        let rest = ops.drop_first();
        lemma_holds_class(rest);
        if is_of_kind(ops[0], EnumerantKind::StorageClass) {
            assert(holds_class(ops));
        } else {
            if holds_class(rest) {
                let k = choose|k: int|
                    0 <= k < rest.len() && is_of_kind(
                        #[trigger] rest[k],
                        EnumerantKind::StorageClass,
                    );
                assert(ops[k + 1] == rest[k]);
            }
            if holds_class(ops) {
                let k = choose|k: int|
                    0 <= k < ops.len() && is_of_kind(#[trigger] ops[k], EnumerantKind::StorageClass);
                assert(rest[k - 1] == ops[k]);
            }
        }
    }
}

proof fn lemma_own_operands(defs: Map<u32, InstView>, i: InstView)
    ensures
        has_own_operands(defs, i) <==> {
            let x = i.operands;
            &&& i.opcode == opcode::TYPE_ARRAY ==> x.len() > 1 && array_length(defs, x[1]) is Some
            &&& i.opcode == opcode::TYPE_POINTER ==> x.len() > 1 && enumerant_code(
                x[0],
                EnumerantKind::StorageClass,
            ) is Some
            &&& wraps_one(i.opcode) ==> x.len() > 0
            &&& i.opcode == opcode::TYPE_IMAGE ==> image_readable(x)
            &&& scalar_of(i) is Some
        },
{
    lemma_holds_class(i.operands);
    if i.opcode == opcode::TYPE_ARRAY && i.operands.len() > 1 && i.operands[1].id() is Some
        && defs.contains_key(i.operands[1].id()->0) {
        let ops = defs[i.operands[1].id()->0].operands;
        lemma_holds_number(ops);
        if ops.len() > 1 && literal_int(ops[1]) is Some {
            assert(ops[1] is LiteralBit32 || ops[1] is LiteralBit64);
            assert(holds_number(ops));
        }
    }
}

proof fn lemma_parts_readable(defs: Map<u32, InstView>, ops: Seq<OperandView>, depth: nat)
    ensures
        parts_within(defs, ops, depth) is Some <==> forall|k: int|
            0 <= k < ops.len() ==> part_within(defs, #[trigger] ops[k], depth) matches Some(
                Some(_),
            ),
    decreases ops.len(),
{
    if ops.len() > 0 {
        let rest = ops.drop_last();
        lemma_parts_readable(defs, rest, depth);
        assert(ops[ops.len() - 1] == ops.last());
        assert forall|k: int| 0 <= k < rest.len() implies rest[k] == #[trigger] ops[k] by {}
    }
}

/// The opcode tells whether the tree of a type that can be read is known.
proof fn lemma_has_tree(defs: Map<u32, InstView>, i: InstView, depth: nat)
    requires
        tree_within(defs, i, depth) is Some,
    ensures
        tree_within(defs, i, depth)->0 is Some <==> has_tree(i.opcode),
{
}

/// A type can be read off within `depth` declarations exactly where all of them have what
/// they must have.
pub proof fn law_readable(defs: Map<u32, InstView>, i: InstView, depth: nat)
    ensures
        tree_within(defs, i, depth) is Some <==> well_declared(defs, i, depth),
    decreases depth,
{
    if depth > 0 {
        let d = (depth - 1) as nat;
        let op = i.opcode;
        let parts = components(i);
        lemma_own_operands(defs, i);
        assert forall|o: OperandView| #[trigger] part_within(defs, o, d) is Some <==> o.id() is Some
            && defs.contains_key(o.id()->0) && well_declared(defs, defs[o.id()->0], d) by {
            if o.id() is Some && defs.contains_key(o.id()->0) {
                law_readable(defs, defs[o.id()->0], d);
            }
        }
        assert forall|o: OperandView| #[trigger] part_within(defs, o, d) is Some implies (
        part_within(defs, o, d)->0 is Some <==> has_tree(defs[o.id()->0].opcode)) by {
            lemma_has_tree(defs, defs[o.id()->0], d);
        }
        if op == opcode::TYPE_STRUCT || op == opcode::TYPE_FUNCTION {
            lemma_parts_readable(defs, i.operands, d);
            assert(parts == i.operands);
            if well_declared(defs, i, depth) {
                assert forall|k: int| 0 <= k < i.operands.len() implies part_within(
                    defs,
                    #[trigger] i.operands[k],
                    d,
                ) matches Some(Some(_)) by {
                    assert(parts[k].id() is Some);
                }
            }
            if tree_within(defs, i, depth) is Some {
                assert forall|k: int| 0 <= k < parts.len() implies {
                    &&& (#[trigger] components(i)[k]).id() is Some
                    &&& defs.contains_key(components(i)[k].id()->0)
                    &&& well_declared(defs, defs[components(i)[k].id()->0], d)
                    &&& has_tree(defs[components(i)[k].id()->0].opcode)
                } by {
                    assert(part_within(defs, i.operands[k], d) matches Some(Some(_)));
                }
            }
        } else if op == opcode::TYPE_POINTER || op == opcode::TYPE_ARRAY || op == opcode::TYPE_IMAGE
            || wraps_one(op) {
            assert(parts.len() == 1);
            assert(well_declared(defs, i, depth) ==> parts[0].id() is Some);
            assert(part_within(defs, parts[0], d) is Some <==> parts[0].id() is Some
                && defs.contains_key(parts[0].id()->0) && well_declared(
                defs,
                defs[parts[0].id()->0],
                d,
            ));
        }
    }
}

} // verus!

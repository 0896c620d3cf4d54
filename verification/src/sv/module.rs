//! What a SystemVerilog module is lowered to: ports, values and operations.

use vstd::prelude::*;

verus! {

/// Port definition parsed from a module header.
#[derive(Debug, Clone)]
pub struct ParsedPort {
    pub name: String,
    pub is_input: bool,
    pub is_output: bool,
    pub bit_width: u32,
    pub is_clock: bool,
    pub is_reset: bool,
}

/// What a port definition says.
pub struct PortView {
    pub name: Seq<char>,
    pub is_input: bool,
    pub is_output: bool,
    pub bit_width: u32,
    pub is_clock: bool,
    pub is_reset: bool,
}

impl View for ParsedPort {
    type V = PortView;

    open spec fn view(&self) -> PortView {
        PortView {
            name: self.name@,
            is_input: self.is_input,
            is_output: self.is_output,
            bit_width: self.bit_width,
            is_clock: self.is_clock,
            is_reset: self.is_reset,
        }
    }
}

/// What some port definitions say.
pub open spec fn port_views(ports: Seq<ParsedPort>) -> Seq<PortView> {
    ports.map_values(|p: ParsedPort| p@)
}

/// The type of a value.
#[derive(Clone, Copy, PartialEq, Eq, Structural, Debug)]
pub enum SvType {
    /// A signless integer of the given width.
    Integer { width: u32 },
    /// A clock.
    Clock,
    /// A reset.
    Reset,
    /// A memory of `depth` signless integers of the given width.
    Memory { depth: u64, width: u32 },
}

/// What an operation does.
#[derive(Clone, Copy, PartialEq, Eq, Structural, Debug)]
pub enum SvOpKind {
    /// `sv.assign`: drives the net of its name with its operand.
    Assign,
    /// `sv.wire_decl`: declares a net.
    WireDecl,
    /// `sv.reg_decl`: declares a register.
    RegDecl,
    /// `sv.logic_decl`: declares a variable.
    LogicDecl,
    /// `sv.mem_decl`: declares a memory.
    MemDecl,
    /// `sv.always_comb`: drives the variable of its name with its operand. Its
    /// result is the value of the variable.
    AlwaysComb,
    /// `sv.always_ff`: stores into the variable of its name. The operands are
    /// the clock, the next value, the reset and the value at reset. Its result is
    /// the value of the variable.
    AlwaysFf { is_async: bool, active_low: bool },
    /// `sv.always_ff_no_reset`: stores into the variable of its name. The
    /// operands are the clock and the next value. Its result is the value of the
    /// variable.
    AlwaysFfNoReset,
    /// `sv.instance`: an instance of a module, by its own name.
    Instance,
    /// `sv.binary_expr`, whose operator is its name.
    Binary,
    /// `sv.unary_expr`, whose operator is its name.
    Unary,
    /// `sv.mux_expr`: the second or the third operand, as the first one says.
    Mux,
    /// `sv.concat_expr`
    Concat,
    /// `sv.slice_expr`: `width` bits of its operand from `low` on.
    Slice { low: u32, width: u32 },
    /// `sv.index_expr`: an element of its first operand.
    Index,
    /// `sv.constant_expr`
    Constant { value: u64, width: u32 },
    /// `hw.output`: the values of the output ports.
    Output,
}

/// An operation of a module. Values are numbered: first the inputs of the
/// module, then the results of its operations, in order.
#[derive(Debug)]
pub struct SvOp {
    pub kind: SvOpKind,
    /// The net, variable, operator or instance that the operation names.
    pub name: String,
    /// The module that an instance is of.
    pub callee: String,
    pub operands: Vec<usize>,
    pub result: Option<usize>,
}

/// What an operation says.
pub struct OpView {
    pub kind: SvOpKind,
    pub name: Seq<char>,
    pub callee: Seq<char>,
    pub operands: Seq<usize>,
    pub result: Option<usize>,
}

impl View for SvOp {
    type V = OpView;

    open spec fn view(&self) -> OpView {
        OpView {
            kind: self.kind,
            name: self.name@,
            callee: self.callee@,
            operands: self.operands@,
            result: self.result,
        }
    }
}

/// What some operations say.
pub open spec fn op_views(ops: Seq<SvOp>) -> Seq<OpView> {
    ops.map_values(|o: SvOp| o@)
}

/// The operations of a module and the types of its values.
pub struct Body {
    pub ops: Seq<OpView>,
    pub types: Seq<SvType>,
}

/// The number of values that there are before the operation in place `k`.
pub open spec fn defined_before(inputs: nat, ops: Seq<OpView>, k: int) -> nat
    decreases k,
{
    if k <= 0 {
        inputs
    } else if ops[k - 1].result is Some {
        defined_before(inputs, ops, k - 1) + 1
    } else {
        defined_before(inputs, ops, k - 1)
    }
}

/// Whether the operations of a body use only values that are there before them,
/// and number the values that they define in order.
#[verifier::opaque]
pub open spec fn in_ssa_form(inputs: nat, b: Body) -> bool {
    &&& b.types.len() == defined_before(inputs, b.ops, b.ops.len() as int)
    &&& forall|k: int, i: int|
        0 <= k < b.ops.len() && 0 <= i < b.ops[k].operands.len()
            ==> (#[trigger] b.ops[k].operands[i]) < defined_before(inputs, b.ops, k)
    &&& forall|k: int|
        0 <= k < b.ops.len() ==> ((#[trigger] b.ops[k]).result matches Some(v) ==> v
            == defined_before(inputs, b.ops, k))
}

/// A module.
#[derive(Debug)]
pub struct SvModule {
    pub name: String,
    pub ports: Vec<ParsedPort>,
    /// The number of inputs: the first values of the module.
    pub num_inputs: usize,
    /// The types of the values of the module.
    pub types: Vec<SvType>,
    pub ops: Vec<SvOp>,
}

/// What a module says.
pub struct ModuleView {
    pub name: Seq<char>,
    pub ports: Seq<PortView>,
    pub num_inputs: nat,
    pub body: Body,
}

impl View for SvModule {
    type V = ModuleView;

    open spec fn view(&self) -> ModuleView {
        ModuleView {
            name: self.name@,
            ports: port_views(self.ports@),
            num_inputs: self.num_inputs as nat,
            body: Body { ops: op_views(self.ops@), types: self.types@ },
        }
    }
}

/// Why a source text is not lowered.
#[derive(Debug)]
pub struct SvError {
    pub message: String,
}

impl View for SvError {
    type V = Seq<char>;

    open spec fn view(&self) -> Seq<char> {
        self.message@
    }
}

/// What a result says.
pub open spec fn outcome<T: View>(r: Result<T, SvError>) -> Result<T::V, Seq<char>> {
    match r {
        Ok(v) => Ok(v@),
        Err(e) => Err(e@),
    }
}

/// An error of one piece of text.
pub fn refuse(text: &str) -> (e: SvError)
    ensures
        e@ == text@,
{
    SvError { message: text.to_owned() }
}

} // verus!

//! Lowering contracts and target mapping for the `fsm` dialect.
//!
//! Lowering path:
//! ```text
//! fsm.machine / fsm.hw_instance
//!         |
//!    hw.module + seq.firreg + comb.mux
//!         |
//!    sv.always_ff + sv.case
//! ```
//!
//! Semantics preserved during lowering:
//! - State register bitwidth: the base 2 logarithm of the number of states,
//!   rounded up, for binary encoding, or the number of states for one-hot.
//! - State transition priorities: earlier transitions in the transitions block
//!   have precedence.
//! - Variable persistence: state variables are lowered to synchronous registers
//!   updated only on active transition actions.
//! - Outputs: combinational mux trees selecting output values based on the
//!   current state register.

use crate::fsm::model;
use crate::fsm::ops::MachineOp;
use crate::ir::context::{Context, OpKind, OpPtr};
use crate::ir::error;
use crate::ir::error::{fault, VerifyError};
use vstd::hash_map::StringHashMap;
use vstd::prelude::*;

verus! {

/// State encoding strategy for hardware synthesis.
#[derive(Debug, Clone, Copy, PartialEq, Eq, Structural)]
pub enum StateEncoding {
    /// Dense binary encoding: as many bits as it takes to tell the states apart.
    Binary,
    /// One-hot encoding: one bit (one flip-flop) per state.
    OneHot,
}

/// Hardware lowering plan for an `fsm.machine`.
pub struct FsmLoweringPlan {
    /// Machine symbol name.
    pub machine_name: String,
    /// Initial state name.
    pub initial_state: String,
    /// Number of states.
    pub num_states: usize,
    /// Bitwidth of the state register.
    pub state_width: u32,
    /// State encoding strategy.
    pub encoding: StateEncoding,
    /// Mapping from state name to encoded integer value.
    pub state_map: StringHashMap<u64>,
    /// Number of internal variables.
    pub num_variables: usize,
    /// Number of input ports.
    pub num_inputs: usize,
    /// Number of output ports.
    pub num_outputs: usize,
}

/// The base 2 logarithm of `n`, rounded up.
pub open spec fn ceil_log2(n: nat) -> nat
    decreases n,
{
    if n <= 1 {
        0
    } else {
        1 + ceil_log2((n + 1) / 2)
    }
}

/// The width of the state register for `n` states.
pub open spec fn register_width(encoding: StateEncoding, n: nat) -> nat {
    match encoding {
        StateEncoding::Binary => ceil_log2(n),
        StateEncoding::OneHot => n,
    }
}

/// The code of the state in place `i`.
pub open spec fn state_code(encoding: StateEncoding, i: nat) -> nat {
    match encoding {
        StateEncoding::Binary => i,
        StateEncoding::OneHot => vstd::arithmetic::power2::pow2(i),
    }
}

/// The codes of the states of the given names; the last of several states of
/// one name gives the code.
pub open spec fn state_codes(encoding: StateEncoding, names: Seq<Seq<char>>) -> Map<Seq<char>, u64>
    decreases names.len(),
{
    if names.len() == 0 {
        Map::empty()
    } else {
        state_codes(encoding, names.drop_last()).insert(
            names.last(),
            state_code(encoding, (names.len() - 1) as nat) as u64,
        )
    }
}

/// The plan for a machine with the given states.
pub open spec fn is_plan(
    ctx: &Context,
    m: OpPtr,
    encoding: StateEncoding,
    plan: FsmLoweringPlan,
) -> bool {
    let n = model::states(ctx, m).len();
    &&& plan.machine_name@ == model::machine_name(ctx, m)
    &&& plan.initial_state@ == model::initial_state(ctx, m)
    &&& plan.num_states == n
    &&& plan.state_width == register_width(encoding, n)
    &&& plan.encoding == encoding
    &&& plan.state_map@ == state_codes(encoding, model::state_names(ctx, m))
    &&& plan.num_variables == model::variables(ctx, m).len()
    &&& plan.num_inputs == ctx.block(model::body(ctx, m)).args@.len()
    &&& plan.num_outputs == model::result_types(ctx, m).len()
}

/// Enough bits to count to `n` are enough for the logarithm of `n`.
proof fn lemma_ceil_log2_le(n: nat, w: nat)
    requires
        n <= vstd::arithmetic::power2::pow2(w),
    ensures
        ceil_log2(n) <= w,
    decreases w,
{
    if n > 1 {
        if w == 0 {
            vstd::arithmetic::power2::lemma2_to64();
        } else {
            vstd::arithmetic::power2::lemma_pow2_unfold(w);
            lemma_ceil_log2_le((n + 1) / 2, (w - 1) as nat);
        }
    }
}

/// The base 2 logarithm of `n`, rounded up.
fn count_bits(n: usize) -> (w: u32)
    ensures
        w == ceil_log2(n as nat),
        w <= 64,
{
    proof {
        vstd::arithmetic::power2::lemma2_to64_rest();
        lemma_ceil_log2_le(n as nat, 64);
    }
    let mut w: u32 = 0;
    let mut k: usize = n;
    while k > 1
        invariant
            w + ceil_log2(k as nat) == ceil_log2(n as nat),
            ceil_log2(n as nat) <= 64,
        decreases k,
    {
        k = k / 2 + k % 2;
        w += 1;
    }
    w
}

/// Compute the hardware lowering plan for an `fsm.machine`. A one-hot plan has
/// room for as many states as a code has bits.
pub fn plan_fsm_lowering(ctx: &Context, machine: &MachineOp, encoding: StateEncoding) -> (r: Result<
    FsmLoweringPlan,
    VerifyError,
>)
    requires
        machine.valid(ctx),
        encoding is OneHot ==> model::states(ctx, machine.op).len() <= 64,
    ensures
        model::states(ctx, machine.op).len() == 0 ==> error::reported(r) == Some(
            (machine.op, "cannot lower fsm.machine with zero states"@),
        ),
        model::states(ctx, machine.op).len() > 0 ==> (r matches Ok(plan) && is_plan(
            ctx,
            machine.op,
            encoding,
            plan,
        )),
{
    let states = machine.states(ctx);
    let num_states: usize = states.len();
    if num_states == 0 {
        return Err(fault(machine.op, "cannot lower fsm.machine with zero states"));
    }
    let state_width: u32 = match encoding {
        StateEncoding::Binary => count_bits(num_states),
        StateEncoding::OneHot => num_states as u32,
    };
    let ghost names = model::state_names(ctx, machine.op);
    let mut state_map: StringHashMap<u64> = StringHashMap::new();
    let mut idx: usize = 0;
    while idx < states.len()
        invariant
            machine.valid(ctx),
            names == model::state_names(ctx, machine.op),
            states@.len() == names.len(),
            encoding is OneHot ==> states@.len() <= 64,
            forall|j: int|
                0 <= j < states@.len() ==> (#[trigger] states@[j]).op == model::states(
                    ctx,
                    machine.op,
                )[j] && states@[j].valid(ctx),
            idx <= states@.len(),
            state_map@ == state_codes(encoding, names.take(idx as int)),
        decreases states@.len() - idx,
    {
        let code: u64 = match encoding {
            StateEncoding::Binary => idx as u64,
            StateEncoding::OneHot => {
                proof {
                    lemma_one_hot_fits(idx as nat);
                    vstd::bits::lemma_u64_shl_is_mul(1, idx as u64);
                }
                1u64 << (idx as u64)
            },
        };
        let name = states[idx].state_name(ctx);
        proof {
            assert(name@ == names[idx as int]);
            assert(names.take(idx + 1).drop_last() =~= names.take(idx as int));
            assert(code == state_code(encoding, idx as nat));
        }
        state_map.insert(name, code);
        idx += 1;
    }
    assert(names.take(idx as int) == names);
    Ok(
        FsmLoweringPlan {
            machine_name: machine.machine_name(ctx),
            initial_state: machine.initial_state(ctx),
            num_states,
            state_width,
            encoding,
            state_map,
            num_variables: machine.variables(ctx).len(),
            num_inputs: machine.num_inputs(ctx),
            num_outputs: machine.result_types(ctx).len(),
        },
    )
}

/// One bit of a word fits in the word.
proof fn lemma_one_hot_fits(i: nat)
    requires
        i < 64,
    ensures
        1 <= vstd::arithmetic::power2::pow2(i) <= u64::MAX,
{
    vstd::arithmetic::power2::lemma2_to64_rest();
    vstd::arithmetic::power2::lemma_pow2_pos(i);
    vstd::arithmetic::power2::lemma_pow2_strictly_increases(i, 64);
}

/// The logarithm brackets its argument between two powers of two.
pub proof fn ceil_log2_brackets(n: nat)
    requires
        n >= 2,
    ensures
        ceil_log2(n) >= 1,
        vstd::arithmetic::power2::pow2((ceil_log2(n) - 1) as nat) < n,
        n <= vstd::arithmetic::power2::pow2(ceil_log2(n)),
    decreases n,
{
    let h = (n + 1) / 2;
    vstd::arithmetic::power2::lemma_pow2_unfold(ceil_log2(n));
    if h >= 2 {
        ceil_log2_brackets(h);
        vstd::arithmetic::power2::lemma_pow2_unfold(ceil_log2(h));
    } else {
        vstd::arithmetic::power2::lemma2_to64();
    }
}

/// The code of every state fits in the state register, and no narrower register
/// holds a dense code for each of two or more states.
pub proof fn codes_fit_the_register(encoding: StateEncoding, n: nat, i: nat)
    requires
        i < n,
    ensures
        state_code(encoding, i) < vstd::arithmetic::power2::pow2(register_width(encoding, n)),
        n >= 2 && encoding is Binary ==> vstd::arithmetic::power2::pow2(
            (register_width(encoding, n) - 1) as nat,
        ) < n,
{
    match encoding {
        StateEncoding::Binary => {
            if n >= 2 {
                ceil_log2_brackets(n);
            } else {
                vstd::arithmetic::power2::lemma2_to64();
            }
        },
        StateEncoding::OneHot => {
            vstd::arithmetic::power2::lemma_pow2_strictly_increases(i, n);
        },
    }
}

/// Different places have different codes.
pub proof fn codes_of_places_differ(encoding: StateEncoding, i: nat, j: nat)
    requires
        i != j,
    ensures
        state_code(encoding, i) != state_code(encoding, j),
{
    if i < j {
        vstd::arithmetic::power2::lemma_pow2_strictly_increases(i, j);
    } else {
        vstd::arithmetic::power2::lemma_pow2_strictly_increases(j, i);
    }
}

/// Exactly the given names have a code.
pub proof fn every_state_has_a_code(encoding: StateEncoding, names: Seq<Seq<char>>, name: Seq<char>)
    ensures
        state_codes(encoding, names).dom().contains(name) <==> names.contains(name),
    decreases names.len(),
{
    if names.len() > 0 {
        let init = names.drop_last();
        every_state_has_a_code(encoding, init, name);
        if init.contains(name) {
            let i = init.index_of(name);
            assert(names[i] == name);
        }
        if names.contains(name) && name != names.last() {
            let i = names.index_of(name);
            assert(init[i] == name);
        }
        if name == names.last() {
            assert(names[names.len() - 1] == name);
        }
    }
}

/// Where the names are distinct, each has the code of its place.
pub proof fn distinct_states_have_the_code_of_their_place(
    encoding: StateEncoding,
    names: Seq<Seq<char>>,
    i: int,
)
    requires
        names.no_duplicates(),
        0 <= i < names.len(),
    ensures
        state_codes(encoding, names)[names[i]] == state_code(encoding, i as nat) as u64,
    decreases names.len(),
{
    let init = names.drop_last();
    assert(init.no_duplicates());
    if i < names.len() - 1 {
        distinct_states_have_the_code_of_their_place(encoding, init, i);
        assert(names[i] != names[names.len() - 1]);
    }
}

/// States of different names have different codes: an encoding never confuses
/// two states.
pub proof fn distinct_states_have_distinct_codes(
    encoding: StateEncoding,
    names: Seq<Seq<char>>,
    i: int,
    j: int,
)
    requires
        names.no_duplicates(),
        0 <= i < names.len(),
        0 <= j < names.len(),
        i != j,
        names.len() <= (if encoding is OneHot {
            64
        } else {
            u64::MAX as nat
        }),
    ensures
        state_codes(encoding, names)[names[i]] != state_codes(encoding, names)[names[j]],
{
    distinct_states_have_the_code_of_their_place(encoding, names, i);
    distinct_states_have_the_code_of_their_place(encoding, names, j);
    codes_of_places_differ(encoding, i as nat, j as nat);
    if encoding is OneHot {
        lemma_one_hot_fits(i as nat);
        lemma_one_hot_fits(j as nat);
    }
}

/// The plan of a machine without a fault has a code for the initial state.
pub proof fn plan_encodes_the_initial_state(
    ctx: &Context,
    m: OpPtr,
    encoding: StateEncoding,
    plan: FsmLoweringPlan,
)
    requires
        ctx.wf(),
        ctx.has_op(m),
        ctx.op(m).kind == OpKind::Machine,
        model::machine_fault(ctx, m) is None,
        is_plan(ctx, m, encoding, plan),
    ensures
        plan.state_map@.dom().contains(plan.initial_state@),
{
    crate::fsm::laws::faultless_machine_has_its_initial_state(ctx, m);
    every_state_has_a_code(encoding, model::state_names(ctx, m), plan.initial_state@);
}

} // verus!

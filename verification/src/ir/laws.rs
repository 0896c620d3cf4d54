//! Laws of contexts: where operations stand, what attributes and types hold, and
//! how types and numbers are written.

use crate::ir::attributes::{AttrKey, Attribute, AttributeDict};
use crate::ir::context::{Context, OpPtr};
use crate::ir::error;
use crate::ir::error::VerifyError;
use crate::ir::types;
use crate::ir::types::{Field, Shape, Signedness, TypeHandle};
use crate::text;
use vstd::prelude::*;

verus! {

/// An attribute is found exactly where it is stored.
pub proof fn attributes_are_found_where_stored(attrs: AttributeDict, key: AttrKey, a: Attribute)
    requires
        attrs.wf(),
    ensures
        attrs.at(key) == Some(a) <==> exists|i: int|
            0 <= i < attrs.entries@.len() && (#[trigger] attrs.entries@[i]).0 == key
                && attrs.entries@[i].1 == a,
        attrs.at(key) is None <==> forall|i: int|
            0 <= i < attrs.entries@.len() ==> (#[trigger] attrs.entries@[i]).0 != key,
{
    if attrs.has(key) {
        let i = choose|i: int|
            0 <= i < attrs.entries@.len() && (#[trigger] attrs.entries@[i]).0 == key;
        assert forall|j: int|
            0 <= j < attrs.entries@.len() && (#[trigger] attrs.entries@[j]).0 == key implies i
            == j by {
            if i < j {
                assert(attrs.entries@[i].0 != attrs.entries@[j].0);
            } else if j < i {
                assert(attrs.entries@[j].0 != attrs.entries@[i].0);
            }
        }
        assert(attrs.at(key) == Some(attrs.entries@[i].1));
    }
}

/// An operation stands in the region, and in the operation, whose block holds it.
pub proof fn operations_stand_in_what_holds_them(
    ctx: &Context,
    p: OpPtr,
    q: OpPtr,
    r: int,
    b: int,
)
    requires
        ctx.wf(),
        ctx.has_op(q),
        0 <= r < ctx.op(q).regions@.len(),
        0 <= b < ctx.region(ctx.op(q).regions@[r]).blocks@.len(),
        ctx.block(ctx.region(ctx.op(q).regions@[r]).blocks@[b]).ops@.contains(p),
    ensures
        ctx.parent_region(p) == Some(ctx.op(q).regions@[r]),
        ctx.parent_op(p) == Some(q),
        ctx.ancestor(p, 1) == Some(q),
        ctx.ancestor(p, 2) == ctx.parent_op(q),
{
    let region = ctx.op(q).regions@[r];
    let block = ctx.region(region).blocks@[b];
    assert(ctx.op_ok(q.idx as int));
    assert(ctx.has_region(region) && ctx.region(region).parent == q);
    assert(ctx.region_ok(region.idx as int));
    assert(ctx.has_block(block) && ctx.block(block).parent == Some(region));
    assert(ctx.block_ok(block.idx as int));
    let k = choose|k: int| 0 <= k < ctx.block(block).ops@.len() && ctx.block(block).ops@[k] == p;
    assert(ctx.op(ctx.block(block).ops@[k]).parent == Some(block));
    reveal_with_fuel(Context::ancestor, 3);
}

/// What encloses an operation one step further out is the parent of what encloses
/// it.
pub proof fn enclosing_goes_from_parent_to_parent(ctx: &Context, p: OpPtr, n: nat)
    ensures
        ctx.ancestor(p, 0) == Some(p),
        match ctx.ancestor(p, n) {
            Some(q) => ctx.ancestor(p, n + 1) == ctx.parent_op(q),
            None => ctx.ancestor(p, n + 1) is None,
        },
{
}

/// The signature of a function type is its inputs and results; that of a module
/// type is the types of its ports, one by one; no other type has one.
pub proof fn signatures_are_those_of_functions_and_modules(ctx: &Context, ty: TypeHandle)
    ensures
        match ctx.type_signature(ty) {
            Some((inputs, results)) => {
                &&& ty matches TypeHandle::Composite { id } && id < ctx.types@.len()
                    && match ctx.types@[id as int].shape {
                    Shape::Function { inputs: ins, results: outs } => inputs == ins@ && results
                        == outs@,
                    Shape::Module { ins, outs } => {
                        &&& inputs.len() == ins@.len() && results.len() == outs@.len()
                        &&& forall|k: int|
                            0 <= k < inputs.len() ==> #[trigger] inputs[k] == ins@[k].ty
                        &&& forall|k: int|
                            0 <= k < results.len() ==> #[trigger] results[k] == outs@[k].ty
                    },
                    Shape::Opaque => false,
                }
            },
            None => ty matches TypeHandle::Composite { id } ==> id >= ctx.types@.len()
                || ctx.types@[id as int].shape is Opaque,
        },
{
}

/// An integer type is written with the letters of its signedness and its width.
pub proof fn integer_types_are_written_with_their_width(ctx: &Context, width: u32)
    ensures
        ctx.type_text(TypeHandle::Integer { width, signedness: Signedness::Signed })
            == "builtin.integer si"@ + text::decimal(width as nat),
        ctx.type_text(TypeHandle::Integer { width, signedness: Signedness::Unsigned })
            == "builtin.integer ui"@ + text::decimal(width as nat),
        ctx.type_text(TypeHandle::Integer { width, signedness: Signedness::Signless })
            == "builtin.integer i"@ + text::decimal(width as nat),
        ctx.type_text(TypeHandle::Clock) == "seq.clock "@,
        ctx.type_text(TypeHandle::Reset) == "seq.reset "@,
        ctx.type_text(TypeHandle::Instance) == "fsm.instance "@,
        ctx.type_text(TypeHandle::InstanceAlias) == "fsm.instancetype "@,
{
    reveal_strlit("builtin.integer si");
    reveal_strlit("builtin.integer ui");
    reveal_strlit("builtin.integer i");
    reveal_strlit("builtin.integer ");
    reveal_strlit("si");
    reveal_strlit("ui");
    reveal_strlit("i");
    assert("builtin.integer "@ + "si"@ =~= "builtin.integer si"@);
    assert("builtin.integer "@ + "ui"@ =~= "builtin.integer ui"@);
    assert("builtin.integer "@ + "i"@ =~= "builtin.integer i"@);
}

/// Types in a list are written one after the other, with a comma and a space
/// between two of them; a function type is written with its inputs before the
/// arrow and its results behind it.
pub proof fn type_lists_are_written_in_order(
    ctx: &Context,
    tys: Seq<TypeHandle>,
    ty: TypeHandle,
    results: Seq<TypeHandle>,
)
    ensures
        ctx.types_text(Seq::empty()).len() == 0,
        ctx.types_text(seq![ty]) == ctx.type_text(ty),
        tys.len() > 0 ==> ctx.types_text(tys.push(ty)) == ctx.types_text(tys) + ", "@
            + ctx.type_text(ty),
        ctx.function_text(tys, results) == "builtin.function <("@ + ctx.types_text(tys) + ") -> ("@
            + ctx.types_text(results) + ")>"@,
{
    assert(tys.push(ty).drop_last() =~= tys);
}

/// A number in decimal has no zero before it, and one digit more than a tenth of
/// it has.
pub proof fn decimals_have_no_leading_zero(n: nat, d: nat)
    requires
        d < 10,
    ensures
        text::decimal(n).len() > 0,
        n > 0 ==> text::decimal(n)[0] != '0',
        text::decimal(d) == seq![('0' as int + d) as char],
        n > 0 ==> text::decimal(10 * n + d) == text::decimal(n).push(('0' as int + d) as char),
    decreases n,
{
    if n >= 10 {
        decimals_have_no_leading_zero(n / 10, n % 10);
        assert(text::decimal(n)[0] == text::decimal(n / 10)[0]);
    }
    if n > 0 {
        let m = 10 * n + d;
        assert(m / 10 == n && m % 10 == d);
        assert(text::decimal(n) + text::decimal_digit(d) =~= text::decimal(n).push(
            ('0' as int + d) as char,
        ));
    }
}

/// The types of ports are those of the ports, one by one.
pub proof fn port_types_are_listed_in_order(fields: Seq<Field>)
    ensures
        types::field_types(fields).len() == fields.len(),
        forall|k: int|
            0 <= k < fields.len() ==> #[trigger] types::field_types(fields)[k] == fields[k].ty,
{
}

/// A check that passes reports nothing; one that fails reports the operation and
/// the message of its error.
pub proof fn failed_checks_report_their_error(r: Result<(), VerifyError>)
    ensures
        match r {
            Ok(_) => error::reported(r) is None,
            Err(e) => error::reported(r) == Some((e.at, e.message@)),
        },
{
}

} // verus!

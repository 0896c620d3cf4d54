//! The first of several: the searches that the dialect's checks are stated in.

use crate::ir::context::OpPtr;
use vstd::prelude::*;

verus! {

/// The first operation of `ops` that satisfies `want`.
pub open spec fn first_where(ops: Seq<OpPtr>, want: spec_fn(OpPtr) -> bool) -> Option<OpPtr>
    decreases ops.len(),
{
    if ops.len() == 0 {
        None
    } else {
        match first_where(ops.drop_last(), want) {
            Some(p) => Some(p),
            None => if want(ops.last()) {
                Some(ops.last())
            } else {
                None
            },
        }
    }
}

/// The first place of `names` whose name stood there before.
pub open spec fn first_repeat<T>(names: Seq<T>) -> Option<int>
    decreases names.len(),
{
    if names.len() == 0 {
        None
    } else {
        match first_repeat(names.drop_last()) {
            Some(i) => Some(i),
            None => if names.drop_last().contains(names.last()) {
                Some(names.len() - 1)
            } else {
                None
            },
        }
    }
}

/// The number of places at the start in which `a` and `b` agree.
pub open spec fn agreement<T>(a: Seq<T>, b: Seq<T>) -> nat
    decreases a.len(),
{
    if a.len() == 0 || b.len() == 0 || a[0] != b[0] {
        0
    } else {
        1 + agreement(a.skip(1), b.skip(1))
    }
}

/// What comes first in a part comes first in the whole.
pub proof fn lemma_first_where_prefix(ops: Seq<OpPtr>, want: spec_fn(OpPtr) -> bool, n: int)
    requires
        0 <= n <= ops.len(),
    ensures
        first_where(ops.take(n), want) is Some ==> first_where(ops, want) == first_where(
            ops.take(n),
            want,
        ),
    decreases ops.len(),
{
    if n == ops.len() {
        assert(ops.take(n) == ops);
    } else {
        lemma_first_where_prefix(ops.drop_last(), want, n);
        assert(ops.drop_last().take(n) == ops.take(n));
    }
}

/// One more operation that is searched.
pub proof fn lemma_first_where_step(ops: Seq<OpPtr>, want: spec_fn(OpPtr) -> bool, i: int)
    requires
        0 <= i < ops.len(),
        first_where(ops.take(i), want) is None,
    ensures
        first_where(ops.take(i + 1), want) == (if want(ops[i]) {
            Some(ops[i])
        } else {
            None
        }),
        want(ops[i]) ==> first_where(ops, want) == Some(ops[i]),
{
    assert(ops.take(i + 1).drop_last() == ops.take(i));
    lemma_first_where_prefix(ops, want, i + 1);
}

/// The search of two lists, one after the other.
pub proof fn lemma_first_where_append(a: Seq<OpPtr>, b: Seq<OpPtr>, want: spec_fn(OpPtr) -> bool)
    ensures
        first_where(a + b, want) == (match first_where(a, want) {
            Some(p) => Some(p),
            None => first_where(b, want),
        }),
    decreases b.len(),
{
    if b.len() == 0 {
        assert(a + b == a);
    } else {
        lemma_first_where_append(a, b.drop_last(), want);
        assert((a + b).drop_last() == a + b.drop_last());
    }
}

/// What the search finds is there and satisfies what is wanted, and nothing
/// before it does; where it finds nothing, there is nothing.
pub proof fn lemma_first_where(ops: Seq<OpPtr>, want: spec_fn(OpPtr) -> bool)
    ensures
        match first_where(ops, want) {
            Some(p) => want(p) && exists|i: int|
                0 <= i < ops.len() && #[trigger] ops[i] == p && forall|j: int|
                    0 <= j < i ==> !want(#[trigger] ops[j]),
            None => forall|i: int| 0 <= i < ops.len() ==> !want(#[trigger] ops[i]),
        },
    decreases ops.len(),
{
    if ops.len() > 0 {
        let init = ops.drop_last();
        lemma_first_where(init, want);
        match first_where(init, want) {
            Some(p) => {
                let i = choose|i: int|
                    0 <= i < init.len() && #[trigger] init[i] == p && forall|j: int|
                        0 <= j < i ==> !want(#[trigger] init[j]);
                assert(ops[i] == p);
                assert forall|j: int| 0 <= j < i implies !want(#[trigger] ops[j]) by {
                    assert(init[j] == ops[j]);
                }
            },
            None => {
                assert forall|j: int| 0 <= j < ops.len() - 1 implies !want(#[trigger] ops[j]) by {
                    assert(init[j] == ops[j]);
                }
                assert(ops[ops.len() - 1] == ops.last());
            },
        }
    }
}

/// A repeat in a part is the first one of the whole.
pub proof fn lemma_first_repeat_prefix<T>(names: Seq<T>, n: int)
    requires
        0 <= n <= names.len(),
    ensures
        first_repeat(names.take(n)) is Some ==> first_repeat(names) == first_repeat(names.take(n)),
    decreases names.len(),
{
    if n == names.len() {
        assert(names.take(n) == names);
    } else {
        lemma_first_repeat_prefix(names.drop_last(), n);
        assert(names.drop_last().take(n) == names.take(n));
    }
}

/// One more name that is looked at.
pub proof fn lemma_first_repeat_step<T>(names: Seq<T>, i: int)
    requires
        0 <= i < names.len(),
        first_repeat(names.take(i)) is None,
    ensures
        first_repeat(names.take(i + 1)) == (if names.take(i).contains(names[i]) {
            Some(i)
        } else {
            None
        }),
        names.take(i).contains(names[i]) ==> first_repeat(names) == Some(i),
{
    assert(names.take(i + 1).drop_last() == names.take(i));
    lemma_first_repeat_prefix(names, i + 1);
}

/// Names without a repeat are all different.
pub proof fn lemma_no_repeat<T>(names: Seq<T>)
    ensures
        first_repeat(names) is None <==> names.no_duplicates(),
    decreases names.len(),
{
    if names.len() > 0 {
        let init = names.drop_last();
        lemma_no_repeat(init);
        if names.no_duplicates() {
            assert(init.no_duplicates());
            if init.contains(names.last()) {
                let i = init.index_of(names.last());
                assert(names[i] == names[names.len() - 1]);
            }
        }
        if first_repeat(names) is None {
            assert forall|i: int, j: int|
                0 <= i < names.len() && 0 <= j < names.len() && i != j implies names[i]
                != names[j] by {
                if i < names.len() - 1 {
                    assert(init[i] == names[i]);
                }
                if j < names.len() - 1 {
                    assert(init[j] == names[j]);
                }
            }
        }
    }
}

/// The characteristic properties of the agreement of two lists.
pub proof fn lemma_agreement<T>(a: Seq<T>, b: Seq<T>)
    ensures
        agreement(a, b) <= a.len(),
        agreement(a, b) <= b.len(),
        forall|i: int| 0 <= i < agreement(a, b) ==> #[trigger] a[i] == b[i],
        agreement(a, b) < a.len() && agreement(a, b) < b.len() ==> a[agreement(a, b) as int]
            != b[agreement(a, b) as int],
        a.len() == b.len() ==> (agreement(a, b) == a.len() <==> a == b),
    decreases a.len(),
{
    if a.len() > 0 && b.len() > 0 && a[0] == b[0] {
        let c = a.skip(1);
        let d = b.skip(1);
        lemma_agreement(c, d);
        assert forall|i: int| 0 <= i < agreement(a, b) implies #[trigger] a[i] == b[i] by {
            if i > 0 {
                assert(a[i] == c[i - 1]);
                assert(b[i] == d[i - 1]);
            }
        }
        if agreement(a, b) < a.len() && agreement(a, b) < b.len() {
            let k = agreement(c, d) as int;
            assert(a[k + 1] == c[k]);
            assert(b[k + 1] == d[k]);
        }
    }
    if a.len() == b.len() && agreement(a, b) == a.len() {
        assert(a =~= b);
    }
}

/// A place before which two lists agree and in which they differ is where
/// their agreement ends.
pub proof fn lemma_agreement_at<T>(a: Seq<T>, b: Seq<T>, n: int)
    requires
        0 <= n < a.len(),
        n < b.len(),
        forall|i: int| 0 <= i < n ==> #[trigger] a[i] == b[i],
        a[n] != b[n],
    ensures
        agreement(a, b) == n,
{
    lemma_agreement(a, b);
    let m = agreement(a, b) as int;
    if m < n {
        assert(a[m] == b[m]);
    } else if n < m {
        assert(a[n] == b[n]);
    }
}

} // verus!

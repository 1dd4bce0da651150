//! The store's governing laws, stated and proved over the same model that the
//! operations' contracts use: shadow-and-restore for layered writes, the
//! readonly guarantee, and balance of the positional-parameter stack.

use vstd::prelude::*;
use crate::error::ErrView;
use crate::store::{
    any_readonly, frame_get, frame_set, frame_wf, is_name_chars, lookup, set_at,
    set_elem_model, set_value_model, FrameView, ValView, VarView,
};

verus! {

/// Shadowing: a write at a layer above `l0` leaves the frame at `l0`, and
/// everything visible from `l0` alone, exactly as it was.
pub proof fn law_shadow_preserves_lower(
    ls: Seq<FrameView>,
    l0: int,
    l1: int,
    name: Seq<char>,
    v: VarView,
)
    requires
        0 <= l0 < l1 < ls.len(),
    ensures
        set_at(ls, l1, name, v)[l0] == ls[l0],
        lookup(set_at(ls, l1, name, v).take(l0 + 1), name) == lookup(ls.take(l0 + 1), name),
{
    assert(set_at(ls, l1, name, v).take(l0 + 1) =~= ls.take(l0 + 1));
}

/// Restore: pushing a fresh layer, writing `name` there, and popping the
/// layer makes the write visible while it lasts and leaves the stack, and so
/// every visible binding, exactly as before the push.
pub proof fn law_shadow_and_restore(ls: Seq<FrameView>, name: Seq<char>, v: VarView)
    requires
        ls.len() >= 1,
    ensures
        ({
            let shadowed = set_at(ls.push(Seq::empty()), ls.len() as int, name, v);
            &&& lookup(shadowed, name) == Some(v)
            &&& forall|l: int| 0 <= l < ls.len() ==> #[trigger] shadowed[l] == ls[l]
            &&& shadowed.drop_last() =~= ls
        }),
{
    let pushed = ls.push(Seq::<(Seq<char>, VarView)>::empty());
    let shadowed = set_at(pushed, ls.len() as int, name, v);
    let top = frame_set(Seq::<(Seq<char>, VarView)>::empty(), name, v);
    assert(shadowed.last() == top);
    assert(top[0] == (name, v));
    assert(frame_get(top, name) == Some(v));
    assert(shadowed.drop_last() =~= ls);
}

/// A name bound somewhere in a well-formed frame is a legal identifier.
proof fn lemma_bound_name_legal(f: FrameView, name: Seq<char>)
    requires
        frame_wf(f),
        frame_get(f, name) is Some,
    ensures
        is_name_chars(name),
    decreases f.len(),
{
    if f.len() > 0 && f[0].0 != name {
        assert(forall|k: int| 0 <= k < f.skip(1).len() ==> #[trigger] f.skip(1)[k] == f[k + 1]);
        lemma_bound_name_legal(f.skip(1), name);
    }
}

/// The readonly guarantee: while any layer binds `name` readonly, every
/// scalar, array or associative write to `name` fails with the readonly
/// violation, whatever value and target layer the write names — and so does
/// every element write.
pub proof fn law_readonly_rejects_writes(
    ls: Seq<FrameView>,
    name: Seq<char>,
    val: ValView,
    index: Seq<char>,
    value: Seq<char>,
    layer: Option<usize>,
    mark_int: bool,
)
    requires
        forall|i: int| 0 <= i < ls.len() ==> frame_wf(#[trigger] ls[i]),
        any_readonly(ls, name),
    ensures
        set_value_model(ls, name, val, layer, mark_int) == Err::<Seq<FrameView>, ErrView>(
            ErrView::ReadOnlyViolation(name),
        ),
        index.len() > 0 ==> set_elem_model(ls, name, index, value, layer) == Err::<
            Seq<FrameView>,
            ErrView,
        >(ErrView::ReadOnlyViolation(name)),
{
    let i = choose|i: int|
        0 <= i < ls.len() && ((#[trigger] frame_get(ls[i], name)) matches Some(v) && v.readonly);
    lemma_bound_name_legal(ls[i], name);
}

/// One step of the positional-parameter stack discipline: `i` and later
/// entries of `items` pushed in order.
pub open spec fn push_n(ps: Seq<Seq<Seq<char>>>, items: Seq<Seq<Seq<char>>>, i: int) -> Seq<
    Seq<Seq<char>>,
>
    decreases items.len() - i,
{
    if i < 0 || i >= items.len() {
        ps
    } else {
        push_n(ps.push(items[i]), items, i + 1)
    }
}

/// `n` pops in order; `None` when some pop hits an empty stack, as
/// `pop_position_parameters` fails with the stack underflow.
pub open spec fn pop_n(ps: Seq<Seq<Seq<char>>>, n: nat) -> Option<Seq<Seq<Seq<char>>>>
    decreases n,
{
    if n == 0 {
        Some(ps)
    } else if ps.len() == 0 {
        None
    } else {
        pop_n(ps.drop_last(), (n - 1) as nat)
    }
}

/// Pops compose: `a` pops and then `b` pops are `a + b` pops.
proof fn lemma_pop_n_add(ps: Seq<Seq<Seq<char>>>, a: nat, b: nat)
    requires
        pop_n(ps, a) is Some,
    ensures
        pop_n(ps, (a + b) as nat) == pop_n(pop_n(ps, a)->0, b),
    decreases a,
{
    if a > 0 {
        lemma_pop_n_add(ps.drop_last(), (a - 1) as nat, b);
    }
}

/// Pushing the entries of `items` from `i` on and popping as many leaves the
/// stack exactly as it was.
proof fn lemma_push_pop_from(ps: Seq<Seq<Seq<char>>>, items: Seq<Seq<Seq<char>>>, i: int)
    requires
        0 <= i <= items.len(),
    ensures
        pop_n(push_n(ps, items, i), (items.len() - i) as nat) == Some(ps),
    decreases items.len() - i,
{
    if i < items.len() {
        let ps2 = ps.push(items[i]);
        lemma_push_pop_from(ps2, items, i + 1);
        lemma_pop_n_add(push_n(ps2, items, i + 1), (items.len() - i - 1) as nat, 1nat);
        assert(ps2.drop_last() =~= ps);
        assert(pop_n(ps2, 1nat) == pop_n(ps2.drop_last(), 0nat));
        assert(pop_n(ps2.drop_last(), 0nat) == Some(ps2.drop_last()));
        assert(push_n(ps, items, i) == push_n(ps2, items, i + 1));
        assert((items.len() - i) as nat == (items.len() - i - 1) as nat + 1nat);
    }
}

/// Balance of the positional-parameter stack: pushing the lists of `items`
/// in order and popping as many leaves the stack exactly as before the first
/// push; when the stack was empty, the next pop fails with the stack
/// underflow.
pub proof fn law_positions_balanced(ps: Seq<Seq<Seq<char>>>, items: Seq<Seq<Seq<char>>>)
    ensures
        pop_n(push_n(ps, items, 0), items.len()) == Some(ps),
        ps.len() == 0 ==> pop_n(push_n(ps, items, 0), (items.len() + 1) as nat) is None,
{
    lemma_push_pop_from(ps, items, 0);
    if ps.len() == 0 {
        lemma_pop_n_add(push_n(ps, items, 0), items.len(), 1nat);
    }
}

} // verus!

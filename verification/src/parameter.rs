//! Builtin dispatch over the variable scope store: `local`, `declare`,
//! `export`, `readonly` and positional-parameter replacement. Each builtin
//! takes already-split arguments (one option or `name=value` word per
//! element) and returns the shell's exit status; the store operations report
//! errors as typed results.

use vstd::prelude::*;
use crate::error::{ErrView, ExecError};
use crate::store::{
    dense_indexed, frame_get, init_num_model, is_name, is_name_chars, layer_of, lookup,
    set_flag_model, set_value_model, FrameView, ShellCore, ValView,
};
use crate::text::{chars_vec, find_index, first_index_of, string_of_range};

verus! {

/// The character sequences of a list of strings.
pub open spec fn strs_view(s: Seq<String>) -> Seq<Seq<char>> {
    s.map_values(|x: String| x@)
}

/// Replaces the topmost positional-parameter list with `args`; fails, and
/// changes nothing, when the stack is empty.
pub fn set_positions(core: &mut ShellCore, args: &[String]) -> (r: Result<(), ExecError>)
    requires
        old(core).db.wf(),
    ensures
        final(core).db.wf(),
        final(core).db.layers_view() == old(core).db.layers_view(),
        old(core).db.positions_view().len() == 0 ==> (r matches Err(e) && e@
            == ErrView::StackUnderflow && final(core).db.positions_view() == old(
            core,
        ).db.positions_view()),
        old(core).db.positions_view().len() > 0 ==> (r is Ok && final(core).db.positions_view()
            =~= old(core).db.positions_view().drop_last().push(strs_view(args@))),
{
    match core.db.pop_position_parameters() {
        Err(e) => Err(e),
        Ok(_) => {
            let mut copy: Vec<String> = Vec::new();
            let mut i: usize = 0;
            while i < args.len()
                invariant
                    i <= args@.len(),
                    copy@.len() == i,
                    forall|k: int| 0 <= k < i ==> (#[trigger] copy@[k])@ == args@[k]@,
                decreases args@.len() - i,
            {
                copy.push(args[i].clone());
                i = i + 1;
            }
            proof {
                assert(copy.deep_view() =~= strs_view(args@));
            }
            core.db.push_position_parameters(copy);
            Ok(())
        },
    }
}

/// Renders the visible binding of `name` for the caller to print, as the
/// bare `declare` shows it.
pub fn print_data(name: &str, core: &ShellCore) -> (r: Option<String>)
    ensures
        match lookup(core.db.layers_view(), name@) {
            Some(v) => r matches Some(x) && x@ == crate::store::render_var(name@, v),
            None => r is None,
        },
{
    core.db.print(name)
}

/// The renderings of the bindings at layer `l` from entry `k` on, skipping
/// every binding that a higher layer shadows.
pub open spec fn lines_frame(ls: Seq<FrameView>, l: int, k: int) -> Seq<Seq<char>>
    decreases ls[l].len() - k,
{
    if l < 0 || l >= ls.len() || k < 0 || k >= ls[l].len() {
        Seq::empty()
    } else {
        (if layer_of(ls, ls[l][k].0) == Some(l) {
            seq![crate::store::render_var(ls[l][k].0, ls[l][k].1)]
        } else {
            Seq::empty()
        }) + lines_frame(ls, l, k + 1)
    }
}

/// The renderings of every visible binding, layer `l` and above, global
/// first, each frame in insertion order.
pub open spec fn lines_from(ls: Seq<FrameView>, l: int) -> Seq<Seq<char>>
    decreases ls.len() - l,
{
    if l < 0 || l >= ls.len() {
        Seq::empty()
    } else {
        lines_frame(ls, l, 0) + lines_from(ls, l + 1)
    }
}

/// Renders every visible binding for the caller to print: one line per
/// binding, lower layers first, each frame in insertion order, shadowed
/// bindings left out.
pub fn print_all(core: &ShellCore) -> (r: Vec<String>)
    requires
        core.db.wf(),
    ensures
        strs_view(r@) == lines_from(core.db.layers_view(), 0),
{
    let ghost lv = core.db.layers_view();
    let mut out: Vec<String> = Vec::new();
    let mut l: usize = 0;
    proof {
        assert(strs_view(out@) =~= Seq::<Seq<char>>::empty());
    }
    while l < core.db.get_layer_num()
        invariant
            core.db.wf(),
            lv == core.db.layers_view(),
            l <= lv.len(),
            strs_view(out@) + lines_from(lv, l as int) == lines_from(lv, 0),
        decreases lv.len() - l,
    {
        let ghost f = lv[l as int];
        let mut k: usize = 0;
        while k < core.db.layers[l].len()
            invariant
                core.db.wf(),
                lv == core.db.layers_view(),
                l < lv.len(),
                f == lv[l as int],
                k <= f.len(),
                f.len() == core.db.layers@[l as int]@.len(),
                strs_view(out@) + lines_frame(lv, l as int, k as int) + lines_from(lv, l + 1)
                    == lines_from(lv, 0),
            decreases f.len() - k,
        {
            proof {
                assert(f[k as int] == (
                    core.db.layers@[l as int]@[k as int].0@,
                    core.db.layers@[l as int]@[k as int].1@,
                ));
            }
            let name = core.db.layers[l][k].0.clone();
            let visible = match core.db.visible_layer(name.as_str()) {
                Some(vl) => vl == l,
                None => false,
            };
            if visible {
                proof {
                    crate::store::lemma_layer_of_lookup(lv, name@);
                    assert forall|m: int| 0 <= m < k implies (#[trigger] f[m]).0 != f[k as int].0
                        by {}
                    crate::store::lemma_frame_get_at(f, k as int);
                }
                match core.db.print(name.as_str()) {
                    Some(line) => {
                        let ghost out0 = out@;
                        out.push(line);
                        proof {
                            assert forall|m: int| 0 <= m < strs_view(out@).len() implies strs_view(
                                out@,
                            )[m] == (strs_view(out0).push(
                                crate::store::render_var(f[k as int].0, f[k as int].1),
                            ))[m] by {
                                assert(strs_view(out@)[m] == out@[m]@);
                                if m < out0.len() {
                                    assert(out@[m] == out0[m]);
                                    assert(strs_view(out0)[m] == out0[m]@);
                                }
                            }
                            assert(strs_view(out@) =~= strs_view(out0).push(
                                crate::store::render_var(f[k as int].0, f[k as int].1),
                            ));
                        }
                    },
                    None => {
                        proof {
                            assert(false);
                        }
                    },
                }
            } else {
                proof {
                    crate::store::lemma_layer_of_lookup(lv, name@);
                }
            }
            k = k + 1;
            proof {
                assert(strs_view(out@) + lines_frame(lv, l as int, k as int) + lines_from(
                    lv,
                    l + 1,
                ) =~= lines_from(lv, 0));
            }
        }
        l = l + 1;
    }
    proof {
        assert(lines_from(lv, lv.len() as int) =~= Seq::<Seq<char>>::empty());
        assert(strs_view(out@) =~= lines_from(lv, 0));
    }
    out
}

/// The name and value of a `name=value` word; a word without `=` is a bare
/// name with an empty value.
pub open spec fn split_eq(nv: Seq<char>) -> (Seq<char>, Seq<char>) {
    match first_index_of(nv, '=', 0) {
        Some(n) => (nv.subrange(0, n), nv.skip(n + 1)),
        None => (nv, Seq::empty()),
    }
}

/// What one `local` argument does: a bare name binds an empty scalar at the
/// layer unless the layer already binds it; `name=value` writes the scalar.
pub open spec fn set_local_model(ls: Seq<FrameView>, arg: Seq<char>, layer: usize) -> Result<
    Seq<FrameView>,
    ErrView,
> {
    match first_index_of(arg, '=', 0) {
        None => if frame_get(ls[layer as int], arg) is Some {
            Ok(ls)
        } else {
            set_value_model(ls, arg, ValView::Scalar(Seq::empty()), Some(layer), false)
        },
        Some(n) => set_value_model(
            ls,
            arg.subrange(0, n),
            ValView::Scalar(arg.skip(n + 1)),
            Some(layer),
            false,
        ),
    }
}

/// Binds a local variable at `layer` from one `local` argument.
pub fn set_local(arg: &str, core: &mut ShellCore, layer: usize) -> (r: Result<(), ExecError>)
    requires
        old(core).db.wf(),
        layer < old(core).db.layers_view().len(),
    ensures
        final(core).db.layers_view().len() == old(core).db.layers_view().len(),
        final(core).db.wf(),
        final(core).db.positions_view() == old(core).db.positions_view(),
        match set_local_model(old(core).db.layers_view(), arg@, layer) {
            Ok(ls2) => r is Ok && final(core).db.layers_view() =~= ls2,
            Err(v) => r matches Err(e) && e@ == v && final(core).db.layers_view() == old(
                core,
            ).db.layers_view(),
        },
{
    let cs = chars_vec(arg);
    let clen = cs.len();
    match find_index(&cs, '=') {
        None => {
            if core.db.has_value_layer(arg, layer) {
                Ok(())
            } else {
                proof {
                    reveal_strlit("");
                    assert(""@ =~= Seq::<char>::empty());
                }
                core.db.set_param(arg, "", Some(layer))
            }
        },
        Some(n) => {
            let name_s = string_of_range(&cs, 0, n);
            let value_s = string_of_range(&cs, n + 1, clen);
            core.db.set_param(name_s.as_str(), value_s.as_str(), Some(layer))
        },
    }
}

/// What one `local -a` argument does: a bare name binds an empty indexed
/// array; `name=value` binds a one-element array holding the parsed value.
pub open spec fn set_local_array_model(ls: Seq<FrameView>, arg: Seq<char>, layer: usize) -> Result<
    Seq<FrameView>,
    ErrView,
> {
    match first_index_of(arg, '=', 0) {
        None => set_value_model(ls, arg, ValView::Indexed(Seq::empty()), Some(layer), false),
        Some(n) => set_value_model(
            ls,
            arg.subrange(0, n),
            ValView::Indexed(dense_indexed(seq![arg.skip(n + 1)])),
            Some(layer),
            false,
        ),
    }
}

/// Binds a local indexed array at `layer` from one `local -a` argument.
pub fn set_local_array(arg: &str, core: &mut ShellCore, layer: usize) -> (r: Result<(), ExecError>)
    requires
        old(core).db.wf(),
        layer < old(core).db.layers_view().len(),
    ensures
        final(core).db.layers_view().len() == old(core).db.layers_view().len(),
        final(core).db.wf(),
        final(core).db.positions_view() == old(core).db.positions_view(),
        match set_local_array_model(old(core).db.layers_view(), arg@, layer) {
            Ok(ls2) => r is Ok && final(core).db.layers_view() =~= ls2,
            Err(v) => r matches Err(e) && e@ == v && final(core).db.layers_view() == old(
                core,
            ).db.layers_view(),
        },
{
    let cs = chars_vec(arg);
    let clen = cs.len();
    match find_index(&cs, '=') {
        None => {
            let vals: Vec<String> = Vec::new();
            proof {
                assert(dense_indexed(vals.deep_view()) =~= Seq::<(int, Seq<char>)>::empty());
            }
            core.db.set_array(arg, vals, Some(layer))
        },
        Some(n) => {
            let name_s = string_of_range(&cs, 0, n);
            let value_s = string_of_range(&cs, n + 1, clen);
            let mut vals: Vec<String> = Vec::new();
            vals.push(value_s);
            proof {
                assert(vals.deep_view() =~= seq![arg@.skip(n + 1)]);
            }
            core.db.set_array(name_s.as_str(), vals, Some(layer))
        },
    }
}

/// One step of a list builtin: the write its mode performs for one argument.
/// Mode 0 is `local`, 1 is `local -a`, 2 is `local -A`, 3 is `export`, 4 is
/// `readonly`; `layer` is the target for the local modes and the
/// current-depth-derived layer for `readonly`'s `name=value` form.
pub open spec fn builtin_step(ls: Seq<FrameView>, arg: Seq<char>, layer: usize, mode: int) -> Result<
    Seq<FrameView>,
    ErrView,
> {
    if mode == 1 {
        set_local_array_model(ls, arg, layer)
    } else if mode == 2 {
        set_value_model(ls, arg, ValView::Assoc(Seq::empty()), Some(layer), false)
    } else if mode == 3 {
        export_var_model(ls, arg)
    } else if mode == 4 {
        readonly_step_model(ls, arg, layer)
    } else {
        set_local_model(ls, arg, layer)
    }
}

/// A list builtin applied to its arguments in order, stopping at the first
/// error with the store as the earlier writes left it.
pub open spec fn builtin_fold(
    ls: Seq<FrameView>,
    args: Seq<Seq<char>>,
    i: int,
    layer: usize,
    mode: int,
) -> (Seq<FrameView>, Option<ErrView>)
    decreases args.len() - i,
{
    if i < 0 || i >= args.len() {
        (ls, None::<ErrView>)
    } else {
        match builtin_step(ls, args[i], layer, mode) {
            Err(e) => (ls, Some(e)),
            Ok(ls2) => builtin_fold(ls2, args, i + 1, layer, mode),
        }
    }
}

/// What `local` does with its argument list: `-a` and `-A` select the array
/// modes for the remaining words, else every word after the builtin's name is
/// bound as a scalar.
pub open spec fn local_model(ls: Seq<FrameView>, args: Seq<Seq<char>>, layer: usize) -> (
    Seq<FrameView>,
    Option<ErrView>,
) {
    if args.len() >= 3 && args[1] == seq!['-', 'a'] {
        builtin_fold(ls, args.skip(2), 0, layer, 1)
    } else if args.len() >= 3 && args[1] == seq!['-', 'A'] {
        builtin_fold(ls, args.skip(2), 0, layer, 2)
    } else {
        builtin_fold(ls, args.skip(1), 0, layer, 0)
    }
}

/// Runs the writes of one `local` invocation at `layer`.
pub fn local_(core: &mut ShellCore, args: &mut Vec<String>, layer: usize) -> (r: Result<
    (),
    ExecError,
>)
    requires
        old(core).db.wf(),
        layer < old(core).db.layers_view().len(),
        old(args)@.len() >= 1,
    ensures
        final(core).db.wf(),
        final(core).db.positions_view() == old(core).db.positions_view(),
        final(args)@ == old(args)@,
        ({
            let m = local_model(old(core).db.layers_view(), strs_view(old(args)@), layer);
            final(core).db.layers_view() =~= m.0 && (match m.1 {
                None => r is Ok,
                Some(v) => r matches Err(e) && e@ == v,
            })
        }),
{
    let ghost sv = strs_view(args@);
    let mut mode: i32 = 0;
    let mut start: usize = 1;
    if args.len() >= 3 {
        if crate::text::string_eq_str(&args[1], "-a") {
            proof {
                reveal_strlit("-a");
                assert(sv[1] =~= seq!['-', 'a']);
            }
            mode = 1;
            start = 2;
        } else if crate::text::string_eq_str(&args[1], "-A") {
            proof {
                reveal_strlit("-A");
                reveal_strlit("-a");
                assert(sv[1] == args@[1]@);
                assert("-a"@ =~= seq!['-', 'a']);
                assert(sv[1] =~= seq!['-', 'A']);
                assert(sv[1] != seq!['-', 'a']);
            }
            mode = 2;
            start = 2;
        } else {
            proof {
                reveal_strlit("-a");
                reveal_strlit("-A");
                assert(sv[1] == args@[1]@);
                assert("-a"@ =~= seq!['-', 'a']);
                assert("-A"@ =~= seq!['-', 'A']);
                assert(sv[1] != seq!['-', 'a'] && sv[1] != seq!['-', 'A']);
            }
        }
    }
    let ghost items = sv.skip(start as int);
    let ghost lv0 = core.db.layers_view();
    let mut k: usize = start;
    while k < args.len()
        invariant
            old(core).db.wf(),
            core.db.wf(),
            start <= k <= args@.len(),
            args@ == old(args)@,
            sv == strs_view(args@),
            items == sv.skip(start as int),
            lv0 == old(core).db.layers_view(),
            0 <= mode <= 2,
            layer < core.db.layers_view().len(),
            core.db.positions_view() == old(core).db.positions_view(),
            local_model(lv0, sv, layer) == builtin_fold(lv0, items, 0, layer, mode as int),
            builtin_fold(lv0, items, 0, layer, mode as int) == builtin_fold(
                core.db.layers_view(),
                items,
                k - start,
                layer,
                mode as int,
            ),
        decreases args@.len() - k,
    {
        proof {
            assert(items[k - start] == sv[k as int]);
            assert(sv[k as int] == args@[k as int]@);
        }
        let step = if mode == 1 {
            set_local_array(args[k].as_str(), core, layer)
        } else if mode == 2 {
            core.db.set_assoc(args[k].as_str(), Some(layer))
        } else {
            set_local(args[k].as_str(), core, layer)
        };
        match step {
            Err(e) => {
                proof {
                    assert(builtin_fold(
                        core.db.layers_view(),
                        items,
                        k - start,
                        layer,
                        mode as int,
                    ) == (core.db.layers_view(), Some(e@)));
                }
                return Err(e);
            },
            Ok(_) => {},
        }
        k = k + 1;
    }
    proof {
        assert(builtin_fold(core.db.layers_view(), items, k - start, layer, mode as int) == (
            core.db.layers_view(),
            None::<ErrView>,
        ));
    }
    Ok(())
}

/// The current function's local layer: two below the current depth (one
/// frame for the shell's own call into the builtin, one for the builtin's
/// dispatch frame); outside any function the operation fails.
pub fn local_layer(core: &ShellCore, builtin: &str) -> (r: Result<usize, ExecError>)
    ensures
        core.db.layers_view().len() > 2 ==> (r matches Ok(l) && l as int == core.db.layers_view().len()
            - 2),
        core.db.layers_view().len() <= 2 ==> (r matches Err(e) && e@ == ErrView::NotInFunction(
            builtin@,
        )),
{
    let depth = core.db.get_layer_num();
    if depth > 2 {
        Ok(depth - 2)
    } else {
        Err(ExecError::NotInFunction(builtin.to_owned()))
    }
}

/// Runs `local`: binds its arguments at the current function's local layer,
/// two below the current depth; outside a function the status is 1 and the
/// store unchanged.
pub fn local(core: &mut ShellCore, args: &mut Vec<String>) -> (r: i32)
    requires
        old(core).db.wf(),
        old(args)@.len() >= 1,
    ensures
        final(core).db.wf(),
        final(core).db.positions_view() == old(core).db.positions_view(),
        old(core).db.layers_view().len() <= 2 ==> r == 1 && final(core).db.layers_view() == old(
            core,
        ).db.layers_view(),
        old(core).db.layers_view().len() > 2 ==> ({
            let m = local_model(
                old(core).db.layers_view(),
                strs_view(old(args)@),
                (old(core).db.layers_view().len() - 2) as usize,
            );
            final(core).db.layers_view() =~= m.0 && r == (if m.1 is Some {
                1int
            } else {
                0int
            })
        }),
{
    let layer = match local_layer(core, "local") {
        Ok(l) => l,
        Err(_) => {
            return 1;
        },
    };
    match local_(core, args, layer) {
        Ok(_) => 0,
        Err(_) => 1,
    }
}

/// What `export` does for one argument: the binding is created (empty, at the
/// unscoped default layer) if absent, kept if present, and marked exported;
/// with `name=value` the scalar is written first.
pub open spec fn export_var_model(ls: Seq<FrameView>, arg: Seq<char>) -> Result<
    Seq<FrameView>,
    ErrView,
> {
    match first_index_of(arg, '=', 0) {
        None => {
            let step = if lookup(ls, arg) is Some {
                Ok(ls)
            } else {
                set_value_model(ls, arg, ValView::Scalar(Seq::empty()), None, false)
            };
            match step {
                Err(e) => Err(e),
                Ok(ls1) => Ok(set_flag_model(ls1, arg, 'x')),
            }
        },
        Some(n) => match set_value_model(
            ls,
            arg.subrange(0, n),
            ValView::Scalar(arg.skip(n + 1)),
            None,
            false,
        ) {
            Err(e) => Err(e),
            Ok(ls1) => Ok(set_flag_model(ls1, arg.subrange(0, n), 'x')),
        },
    }
}

/// Creates or updates one exported variable.
pub fn export_var(arg: &str, core: &mut ShellCore) -> (r: Result<(), ExecError>)
    requires
        old(core).db.wf(),
    ensures
        final(core).db.layers_view().len() == old(core).db.layers_view().len(),
        final(core).db.wf(),
        final(core).db.positions_view() == old(core).db.positions_view(),
        match export_var_model(old(core).db.layers_view(), arg@) {
            Ok(ls2) => r is Ok && final(core).db.layers_view() =~= ls2,
            Err(v) => r matches Err(e) && e@ == v && final(core).db.layers_view() == old(
                core,
            ).db.layers_view(),
        },
{
    let cs = chars_vec(arg);
    let clen = cs.len();
    match find_index(&cs, '=') {
        None => {
            if !core.db.has_value(arg) {
                proof {
                    reveal_strlit("");
                    assert(""@ =~= Seq::<char>::empty());
                }
                match core.db.set_param(arg, "", None) {
                    Err(e) => {
                        return Err(e);
                    },
                    Ok(_) => {},
                }
            }
            core.db.set_flag(arg, 'x');
            Ok(())
        },
        Some(n) => {
            let name_s = string_of_range(&cs, 0, n);
            let value_s = string_of_range(&cs, n + 1, clen);
            match core.db.set_param(name_s.as_str(), value_s.as_str(), None) {
                Err(e) => {
                    return Err(e);
                },
                Ok(_) => {},
            }
            core.db.set_flag(name_s.as_str(), 'x');
            Ok(())
        },
    }
}

/// Runs `export` over its arguments; the status is 1 at the first failing
/// argument, with the earlier writes kept.
pub fn export(core: &mut ShellCore, args: &mut Vec<String>) -> (r: i32)
    requires
        old(core).db.wf(),
        old(args)@.len() >= 1,
    ensures
        final(core).db.wf(),
        final(core).db.positions_view() == old(core).db.positions_view(),
        ({
            let m = builtin_fold(
                old(core).db.layers_view(),
                strs_view(old(args)@).skip(1),
                0,
                0,
                3,
            );
            final(core).db.layers_view() =~= m.0 && r == (if m.1 is Some {
                1int
            } else {
                0int
            })
        }),
{
    let ghost sv = strs_view(args@);
    let ghost items = sv.skip(1);
    let ghost lv0 = core.db.layers_view();
    let mut k: usize = 1;
    while k < args.len()
        invariant
            old(core).db.wf(),
            core.db.wf(),
            1 <= k <= args@.len(),
            args@ == old(args)@,
            sv == strs_view(args@),
            items == sv.skip(1),
            lv0 == old(core).db.layers_view(),
            core.db.positions_view() == old(core).db.positions_view(),
            builtin_fold(lv0, items, 0, 0, 3) == builtin_fold(
                core.db.layers_view(),
                items,
                k - 1,
                0,
                3,
            ),
        decreases args@.len() - k,
    {
        proof {
            assert(items[k - 1] == sv[k as int]);
            assert(sv[k as int] == args@[k as int]@);
        }
        match export_var(args[k].as_str(), core) {
            Err(e) => {
                proof {
                    assert(builtin_fold(core.db.layers_view(), items, k - 1, 0, 3) == (
                        core.db.layers_view(),
                        Some(e@),
                    ));
                }
                return 1;
            },
            Ok(_) => {},
        }
        k = k + 1;
    }
    proof {
        assert(builtin_fold(core.db.layers_view(), items, k - 1, 0, 3) == (
            core.db.layers_view(),
            None::<ErrView>,
        ));
    }
    0
}

/// What `readonly` does for one argument: `name=value` declares readonly
/// through the `declare` path; a bare legal name gets the readonly flag on
/// its visible binding; an illegal bare name is an error.
pub open spec fn readonly_step_model(ls: Seq<FrameView>, arg: Seq<char>, layer: usize) -> Result<
    Seq<FrameView>,
    ErrView,
> {
    if first_index_of(arg, '=', 0) is Some {
        declare_set_model(ls, arg, Seq::empty(), true, layer)
    } else if !is_name_chars(arg) {
        Err(ErrView::InvalidName(arg))
    } else {
        Ok(set_flag_model(ls, arg, 'r'))
    }
}

/// Runs `readonly` over its arguments; the status is 1 at the first failing
/// argument, with the earlier writes kept.
pub fn readonly(core: &mut ShellCore, args: &mut Vec<String>) -> (r: i32)
    requires
        old(core).db.wf(),
        old(args)@.len() >= 1,
        old(core).db.layers_view().len() >= 2,
    ensures
        final(core).db.wf(),
        final(core).db.positions_view() == old(core).db.positions_view(),
        ({
            let m = builtin_fold(
                old(core).db.layers_view(),
                strs_view(old(args)@).skip(1),
                0,
                (old(core).db.layers_view().len() - 2) as usize,
                4,
            );
            final(core).db.layers_view() =~= m.0 && r == (if m.1 is Some {
                1int
            } else {
                0int
            })
        }),
{
    let ghost sv = strs_view(args@);
    let ghost items = sv.skip(1);
    let ghost lv0 = core.db.layers_view();
    let layer = core.db.get_layer_num() - 2;
    let mut k: usize = 1;
    while k < args.len()
        invariant
            old(core).db.wf(),
            core.db.wf(),
            1 <= k <= args@.len(),
            args@ == old(args)@,
            sv == strs_view(args@),
            items == sv.skip(1),
            lv0 == old(core).db.layers_view(),
            layer == old(core).db.layers_view().len() - 2,
            core.db.layers_view().len() == old(core).db.layers_view().len(),
            core.db.positions_view() == old(core).db.positions_view(),
            builtin_fold(lv0, items, 0, layer, 4) == builtin_fold(
                core.db.layers_view(),
                items,
                k - 1,
                layer,
                4,
            ),
        decreases args@.len() - k,
    {
        proof {
            assert(items[k - 1] == sv[k as int]);
            assert(sv[k as int] == args@[k as int]@);
        }
        let cs = chars_vec(args[k].as_str());
        match find_index(&cs, '=') {
            Some(_) => {
                let mut no_opts: Vec<String> = Vec::new();
                proof {
                    assert(strs_view(no_opts@) =~= Seq::<Seq<char>>::empty());
                }
                let nv = args[k].clone();
                match declare_set(core, &nv, &mut no_opts, true) {
                    Err(_) => {
                        return 1;
                    },
                    Ok(_) => {},
                }
            },
            None => {
                if !is_name(args[k].as_str()) {
                    return 1;
                }
                core.db.set_flag(args[k].as_str(), 'r');
            },
        }
        k = k + 1;
    }
    0
}

/// Whether the word list holds the word `s`.
pub open spec fn args_contain(args: Seq<Seq<char>>, s: Seq<char>) -> bool {
    exists|i: int| 0 <= i < args.len() && #[trigger] args[i] == s
}

/// Whether `args` holds the word `s`.
fn args_contain_exec(args: &Vec<String>, s: &str) -> (r: bool)
    ensures
        r == args_contain(strs_view(args@), s@),
{
    let mut i: usize = 0;
    while i < args.len()
        invariant
            i <= args@.len(),
            forall|k: int| 0 <= k < i ==> #[trigger] strs_view(args@)[k] != s@,
        decreases args@.len() - i,
    {
        if crate::text::string_eq_str(&args[i], s) {
            proof {
                assert(strs_view(args@)[i as int] == s@);
            }
            return true;
        }
        proof {
            assert(strs_view(args@)[i as int] == args@[i as int]@);
        }
        i = i + 1;
    }
    false
}

/// What one `declare` write does: the word is split at `=`, the name
/// validated, and the value stored as an empty indexed array under `-a`, an
/// empty associative array under `-A`, a numeral under `-i`, else a scalar;
/// `-r` then marks the binding readonly.
pub open spec fn declare_set_model(
    ls: Seq<FrameView>,
    nv: Seq<char>,
    opts: Seq<Seq<char>>,
    ro: bool,
    layer: usize,
) -> Result<Seq<FrameView>, ErrView> {
    let p = split_eq(nv);
    if !is_name_chars(p.0) {
        Err(ErrView::InvalidName(p.0))
    } else {
        let step = if args_contain(opts, seq!['-', 'a']) {
            set_value_model(ls, p.0, ValView::Indexed(Seq::empty()), Some(layer), false)
        } else if args_contain(opts, seq!['-', 'A']) {
            set_value_model(ls, p.0, ValView::Assoc(Seq::empty()), Some(layer), false)
        } else if args_contain(opts, seq!['-', 'i']) {
            init_num_model(ls, p.0, p.1, Some(layer))
        } else {
            set_value_model(ls, p.0, ValView::Scalar(p.1), Some(layer), false)
        };
        match step {
            Err(e) => Err(e),
            Ok(ls2) => Ok(
                if ro {
                    set_flag_model(ls2, p.0, 'r')
                } else {
                    ls2
                },
            ),
        }
    }
}

/// The word list with every occurrence of `w` removed, order kept.
pub open spec fn remove_word(args: Seq<Seq<char>>, w: Seq<char>) -> Seq<Seq<char>>
    decreases args.len(),
{
    if args.len() == 0 {
        Seq::empty()
    } else {
        let r = remove_word(args.drop_last(), w);
        if args.last() == w {
            r
        } else {
            r.push(args.last())
        }
    }
}

/// Whether a word is option-like: it starts with `-`.
pub open spec fn starts_dash(s: Seq<char>) -> bool {
    s.len() > 0 && s[0] == '-'
}

/// Whether a word is option-like.
fn starts_dash_exec(s: &String) -> (r: bool)
    ensures
        r == starts_dash(s@),
{
    if s.as_str().unicode_len() == 0 {
        return false;
    }
    s.as_str().get_char(0) == '-'
}

/// The index after the last option-like word: everything from here on is a
/// `name=value` word for `declare` to process.
pub open spec fn cut_point(rest: Seq<Seq<char>>) -> int
    decreases rest.len(),
{
    if rest.len() == 0 {
        0
    } else if starts_dash(rest.last()) {
        rest.len() as int
    } else {
        cut_point(rest.drop_last())
    }
}

/// `declare` applied to its `name=value` words in order, stopping at the
/// first error with the store as the earlier writes left it.
pub open spec fn declare_fold(
    ls: Seq<FrameView>,
    nvs: Seq<Seq<char>>,
    i: int,
    opts: Seq<Seq<char>>,
    ro: bool,
    layer: usize,
) -> (Seq<FrameView>, Option<ErrView>)
    decreases nvs.len() - i,
{
    if i < 0 || i >= nvs.len() {
        (ls, None::<ErrView>)
    } else {
        match declare_set_model(ls, nvs[i], opts, ro, layer) {
            Err(e) => (ls, Some(e)),
            Ok(ls2) => declare_fold(ls2, nvs, i + 1, opts, ro, layer),
        }
    }
}

/// What `declare` does with its argument list: without arguments nothing (the
/// caller renders the bindings); else `-r` is consumed as the readonly
/// request, the trailing `name=value` words are each declared under the
/// remaining options, and the status is 1 at the first error.
pub open spec fn declare_model(ls: Seq<FrameView>, args: Seq<Seq<char>>, layer: usize) -> (
    Seq<FrameView>,
    int,
) {
    if args.len() <= 1 {
        (ls, 0)
    } else {
        let rest = remove_word(args.skip(1), seq!['-', 'r']);
        let ro = args_contain(args.skip(1), seq!['-', 'r']);
        let j = cut_point(rest);
        let opts = seq![args[0]] + rest.take(j);
        let f = declare_fold(ls, rest.skip(j), 0, opts, ro, layer);
        (f.0, if f.1 is Some {
            1int
        } else {
            0int
        })
    }
}

/// Runs `declare` over its argument list at the layer two below the current
/// depth.
pub fn declare(core: &mut ShellCore, args: &mut Vec<String>) -> (r: i32)
    requires
        old(core).db.wf(),
        old(args)@.len() >= 1,
        old(args)@.len() > 1 ==> old(core).db.layers_view().len() >= 2,
    ensures
        final(core).db.wf(),
        final(core).db.positions_view() == old(core).db.positions_view(),
        ({
            let m = declare_model(
                old(core).db.layers_view(),
                strs_view(old(args)@),
                (old(core).db.layers_view().len() - 2) as usize,
            );
            final(core).db.layers_view() =~= m.0 && r == m.1
        }),
{
    let ghost sv = strs_view(args@);
    let ghost lv0 = core.db.layers_view();
    let ghost w = seq!['-', 'r'];
    if args.len() <= 1 {
        return 0;
    }
    let layer = core.db.get_layer_num() - 2;
    let mut rest: Vec<String> = Vec::new();
    let mut ro = false;
    let mut i: usize = 1;
    proof {
        reveal_strlit("-r");
        assert("-r"@ =~= w);
        assert(sv.subrange(1, 1) =~= Seq::<Seq<char>>::empty());
        assert(strs_view(rest@) =~= remove_word(sv.subrange(1, 1), w));
    }
    while i < args.len()
        invariant
            1 <= i <= args@.len(),
            args@ == old(args)@,
            sv == strs_view(args@),
            w == seq!['-', 'r'],
            "-r"@ == w,
            strs_view(rest@) == remove_word(sv.subrange(1, i as int), w),
            ro == args_contain(sv.subrange(1, i as int), w),
        decreases args@.len() - i,
    {
        let ghost pre = sv.subrange(1, i as int);
        let ghost ext = sv.subrange(1, i + 1);
        proof {
            assert(ext.drop_last() =~= pre);
            assert(ext.last() == sv[i as int]);
            assert(sv[i as int] == args@[i as int]@);
        }
        if crate::text::string_eq_str(&args[i], "-r") {
            ro = true;
            proof {
                assert(ext[ext.len() - 1] == w);
                assert(args_contain(ext, w));
            }
        } else {
            rest.push(args[i].clone());
            proof {
                assert(strs_view(rest@) =~= remove_word(pre, w).push(sv[i as int]));
                assert(args_contain(ext, w) == ro) by {
                    if ro {
                        let x = choose|x: int| 0 <= x < pre.len() && #[trigger] pre[x] == w;
                        assert(ext[x] == w);
                    }
                    if args_contain(ext, w) {
                        let x = choose|x: int| 0 <= x < ext.len() && #[trigger] ext[x] == w;
                        if x < ext.len() - 1 {
                            assert(pre[x] == w);
                        }
                    }
                }
            }
        }
        i = i + 1;
    }
    proof {
        assert(sv.subrange(1, sv.len() as int) =~= sv.skip(1));
    }
    let ghost rv = strs_view(rest@);
    let mut j: usize = rest.len();
    proof {
        assert(rv.take(j as int) =~= rv);
    }
    while j > 0 && !starts_dash_exec(&rest[j - 1])
        invariant
            j <= rest@.len(),
            rv == strs_view(rest@),
            cut_point(rv) == cut_point(rv.take(j as int)),
        decreases j,
    {
        proof {
            assert(rv.take(j as int).drop_last() =~= rv.take(j - 1));
            assert(rv.take(j as int).last() == rv[j - 1]);
            assert(rv[j - 1] == rest@[j - 1]@);
        }
        j = j - 1;
    }
    proof {
        if j > 0 {
            assert(rv.take(j as int).last() == rv[j - 1]);
            assert(rv[j - 1] == rest@[j - 1]@);
            assert(cut_point(rv.take(j as int)) == j);
        } else {
            assert(rv.take(0) =~= Seq::<Seq<char>>::empty());
        }
        assert(cut_point(rv) == j);
    }
    let mut opts: Vec<String> = Vec::new();
    opts.push(args[0].clone());
    let mut t: usize = 0;
    while t < j
        invariant
            t <= j <= rest@.len(),
            rv == strs_view(rest@),
            opts@.len() == t + 1,
            opts@[0]@ == sv[0],
            sv == strs_view(args@),
            args@ == old(args)@,
            sv.len() >= 1,
            forall|m: int| 1 <= m <= t ==> (#[trigger] opts@[m])@ == rv[m - 1],
        decreases j - t,
    {
        opts.push(rest[t].clone());
        t = t + 1;
        proof {
            assert(rv[t - 1] == rest@[t - 1]@);
        }
    }
    proof {
        assert forall|m: int| 0 <= m < strs_view(opts@).len() implies strs_view(opts@)[m] == (
        seq![sv[0]] + rv.take(j as int))[m] by {
            assert(strs_view(opts@)[m] == opts@[m]@);
        }
        assert(strs_view(opts@) =~= seq![sv[0]] + rv.take(j as int));
    }
    let ghost nvs = rv.skip(j as int);
    let ghost ov = seq![sv[0]] + rv.take(j as int);
    let mut k: usize = j;
    while k < rest.len()
        invariant
            old(core).db.wf(),
            core.db.wf(),
            j <= k <= rest@.len(),
            args@ == old(args)@,
            sv == strs_view(args@),
            sv.len() > 1,
            w == seq!['-', 'r'],
            rv == strs_view(rest@),
            rv == remove_word(sv.skip(1), w),
            ro == args_contain(sv.skip(1), w),
            j as int == cut_point(rv),
            nvs == rv.skip(j as int),
            ov == seq![sv[0]] + rv.take(j as int),
            ov == strs_view(opts@),
            lv0 == old(core).db.layers_view(),
            core.db.layers_view().len() == old(core).db.layers_view().len(),
            old(core).db.layers_view().len() >= 2,
            layer == old(core).db.layers_view().len() - 2,
            core.db.positions_view() == old(core).db.positions_view(),
            declare_fold(lv0, nvs, 0, ov, ro, layer) == declare_fold(
                core.db.layers_view(),
                nvs,
                k - j,
                ov,
                ro,
                layer,
            ),
        decreases rest@.len() - k,
    {
        proof {
            assert(nvs[k - j] == rv[k as int]);
            assert(rv[k as int] == rest@[k as int]@);
        }
        let nv = rest[k].clone();
        match declare_set(core, &nv, &mut opts, ro) {
            Err(e) => {
                proof {
                    assert(declare_fold(core.db.layers_view(), nvs, k - j, ov, ro, layer) == (
                        core.db.layers_view(),
                        Some(e@),
                    ));
                }
                return 1;
            },
            Ok(_) => {},
        }
        k = k + 1;
    }
    proof {
        assert(declare_fold(core.db.layers_view(), nvs, k - j, ov, ro, layer) == (
            core.db.layers_view(),
            None::<ErrView>,
        ));
    }
    0
}

/// Declares one variable from a `name=value` word at the layer two below the
/// current depth, honouring the mode options in `args` and the readonly
/// request.
pub fn declare_set(
    core: &mut ShellCore,
    name_and_value: &String,
    args: &mut Vec<String>,
    read_only: bool,
) -> (r: Result<(), ExecError>)
    requires
        old(core).db.wf(),
        old(core).db.layers_view().len() >= 2,
    ensures
        final(core).db.layers_view().len() == old(core).db.layers_view().len(),
        final(core).db.wf(),
        final(core).db.positions_view() == old(core).db.positions_view(),
        final(args)@ == old(args)@,
        match declare_set_model(
            old(core).db.layers_view(),
            name_and_value@,
            strs_view(old(args)@),
            read_only,
            (old(core).db.layers_view().len() - 2) as usize,
        ) {
            Ok(ls2) => r is Ok && final(core).db.layers_view() =~= ls2,
            Err(v) => r matches Err(e) && e@ == v && final(core).db.layers_view() == old(
                core,
            ).db.layers_view(),
        },
{
    let cs = chars_vec(name_and_value.as_str());
    let clen = cs.len();
    let (name_s, value_s) = match find_index(&cs, '=') {
        Some(n) => (string_of_range(&cs, 0, n), string_of_range(&cs, n + 1, clen)),
        None => {
            proof {
                assert(cs@.subrange(0, cs@.len() as int) =~= cs@);
            }
            (string_of_range(&cs, 0, clen), String::new())
        },
    };
    if !is_name(name_s.as_str()) {
        return Err(ExecError::InvalidName(name_s));
    }
    let layer = core.db.get_layer_num() - 2;
    let step = if args_contain_exec(args, "-a") {
        proof {
            reveal_strlit("-a");
            assert("-a"@ =~= seq!['-', 'a']);
        }
        let vals: Vec<String> = Vec::new();
        proof {
            assert(dense_indexed(vals.deep_view()) =~= Seq::<(int, Seq<char>)>::empty());
        }
        core.db.set_array(name_s.as_str(), vals, Some(layer))
    } else if args_contain_exec(args, "-A") {
        proof {
            reveal_strlit("-a");
            reveal_strlit("-A");
            assert("-A"@ =~= seq!['-', 'A']);
            assert("-a"@ =~= seq!['-', 'a']);
        }
        core.db.set_assoc(name_s.as_str(), Some(layer))
    } else if args_contain_exec(args, "-i") {
        proof {
            reveal_strlit("-a");
            reveal_strlit("-A");
            reveal_strlit("-i");
            assert("-i"@ =~= seq!['-', 'i']);
            assert("-A"@ =~= seq!['-', 'A']);
            assert("-a"@ =~= seq!['-', 'a']);
        }
        core.db.init_as_num(name_s.as_str(), value_s.as_str(), Some(layer))
    } else {
        proof {
            reveal_strlit("-a");
            reveal_strlit("-A");
            reveal_strlit("-i");
            assert("-i"@ =~= seq!['-', 'i']);
            assert("-A"@ =~= seq!['-', 'A']);
            assert("-a"@ =~= seq!['-', 'a']);
        }
        core.db.set_param(name_s.as_str(), value_s.as_str(), Some(layer))
    };
    match step {
        Err(e) => {
            return Err(e);
        },
        Ok(_) => {},
    }
    if read_only {
        core.db.set_flag(name_s.as_str(), 'r');
    }
    Ok(())
}

} // verus!

//! Variable scope store: a stack of scope layers holding scalar,
//! indexed-array and associative-array values with per-name attribute flags,
//! and a parallel stack of positional-parameter lists. Lookup resolves from
//! the topmost layer downward (dynamic scoping); a write at a higher layer
//! shadows, and never alters, a binding at a lower layer.

use vstd::prelude::*;
use crate::error::ExecError;

verus! {

/// The value bound to a variable name.
pub enum VarValue {
    /// A plain string value.
    Scalar(String),
    /// A sparse array from non-negative indices to strings; entries are kept
    /// sorted by strictly increasing index.
    IndexedArray(Vec<(u64, String)>),
    /// A map from string keys to string values; keys are unique, in
    /// insertion order.
    AssocArray(Vec<(String, String)>),
}

/// A variable: its value and its attribute flags.
pub struct Variable {
    pub value: VarValue,
    pub readonly: bool,
    pub exported: bool,
    pub integer_typed: bool,
}

/// Mathematical image of a `VarValue`.
pub enum ValView {
    Scalar(Seq<char>),
    Indexed(Seq<(int, Seq<char>)>),
    Assoc(Seq<(Seq<char>, Seq<char>)>),
}

/// Mathematical image of a `Variable`.
pub struct VarView {
    pub val: ValView,
    pub readonly: bool,
    pub exported: bool,
    pub integer_typed: bool,
}

impl View for VarValue {
    type V = ValView;

    open spec fn view(&self) -> ValView {
        match self {
            VarValue::Scalar(s) => ValView::Scalar(s@),
            VarValue::IndexedArray(v) => (
                ValView::Indexed(v@.map_values(|p: (u64, String)| (p.0 as int, p.1@)))
            ),
            VarValue::AssocArray(v) => (
                ValView::Assoc(v@.map_values(|p: (String, String)| (p.0@, p.1@)))
            ),
        }
    }
}

impl View for Variable {
    type V = VarView;

    open spec fn view(&self) -> VarView {
        VarView {
            val: self.value@,
            readonly: self.readonly,
            exported: self.exported,
            integer_typed: self.integer_typed,
        }
    }
}

/// Whether `c` may appear in an identifier: a letter, a digit or `_`.
pub open spec fn is_name_char(c: char) -> bool {
    ||| 48 <= c as u32 && c as u32 <= 57
    ||| 65 <= c as u32 && c as u32 <= 90
    ||| 97 <= c as u32 && c as u32 <= 122
    ||| c == '_'
}

/// Whether `s` is a legal identifier: non-empty, not digit-first, made of
/// letters, digits and `_`.
pub open spec fn is_name_chars(s: Seq<char>) -> bool {
    &&& s.len() > 0
    &&& !(48 <= s[0] as u32 && s[0] as u32 <= 57)
    &&& forall|i: int| 0 <= i < s.len() ==> is_name_char(#[trigger] s[i])
}

/// Whether `s` is a legal identifier.
pub fn is_name(s: &str) -> (r: bool)
    ensures
        r == is_name_chars(s@),
{
    let n = s.unicode_len();
    if n == 0 {
        return false;
    }
    let c0 = s.get_char(0);
    let u0 = c0 as u32;
    if 48 <= u0 && u0 <= 57 {
        return false;
    }
    let mut i: usize = 0;
    while i < n
        invariant
            n == s@.len(),
            i <= n,
            forall|j: int| 0 <= j < i ==> is_name_char(#[trigger] s@[j]),
        decreases n - i,
    {
        let c = s.get_char(i);
        let u = c as u32;
        if !((48 <= u && u <= 57) || (65 <= u && u <= 90) || (97 <= u && u <= 122) || c == '_') {
            return false;
        }
        i = i + 1;
    }
    true
}

/// One scope frame, mathematically: names bound to variables, in insertion
/// order.
pub type FrameView = Seq<(Seq<char>, VarView)>;

/// Validity of an indexed-array entry list: indices strictly increasing.
pub open spec fn indexed_wf(s: Seq<(int, Seq<char>)>) -> bool {
    forall|i: int, j: int| 0 <= i < j < s.len() ==> s[i].0 < s[j].0
}

/// Validity of an associative-array entry list: keys unique.
pub open spec fn assoc_wf(s: Seq<(Seq<char>, Seq<char>)>) -> bool {
    forall|i: int, j: int| 0 <= i < j < s.len() ==> s[i].0 != s[j].0
}

/// Validity of a value: its entry list is well formed, and every
/// indexed-array index is non-negative.
pub open spec fn val_wf(v: ValView) -> bool {
    match v {
        ValView::Scalar(_) => true,
        ValView::Indexed(s) => indexed_wf(s) && forall|i: int|
            0 <= i < s.len() ==> (#[trigger] s[i]).0 >= 0,
        ValView::Assoc(s) => assoc_wf(s),
    }
}

/// Validity of a variable: its value is well formed.
pub open spec fn var_wf(v: VarView) -> bool {
    val_wf(v.val)
}

/// Validity of a frame: names unique and legal, variables well formed.
pub open spec fn frame_wf(f: FrameView) -> bool {
    &&& forall|i: int, j: int| 0 <= i < j < f.len() ==> f[i].0 != f[j].0
    &&& forall|i: int| 0 <= i < f.len() ==> is_name_chars((#[trigger] f[i]).0)
    &&& forall|i: int| 0 <= i < f.len() ==> var_wf((#[trigger] f[i]).1)
}

/// The variable bound to `name` in frame `f`, if any.
pub open spec fn frame_get(f: FrameView, name: Seq<char>) -> Option<VarView>
    decreases f.len(),
{
    if f.len() == 0 {
        None
    } else if f[0].0 == name {
        Some(f[0].1)
    } else {
        frame_get(f.skip(1), name)
    }
}

/// Frame `f` with `name` bound to `v`: an existing binding is replaced in
/// place, a new one appended.
pub open spec fn frame_set(f: FrameView, name: Seq<char>, v: VarView) -> FrameView
    decreases f.len(),
{
    if f.len() == 0 {
        seq![(name, v)]
    } else if f[0].0 == name {
        seq![(name, v)] + f.skip(1)
    } else {
        seq![f[0]] + frame_set(f.skip(1), name, v)
    }
}

/// The topmost layer in `ls` that binds `name`, if any: dynamic scoping.
pub open spec fn layer_of(ls: Seq<FrameView>, name: Seq<char>) -> Option<int>
    decreases ls.len(),
{
    if ls.len() == 0 {
        None
    } else if frame_get(ls.last(), name) is Some {
        Some(ls.len() - 1)
    } else {
        layer_of(ls.drop_last(), name)
    }
}

/// The binding of `name` visible under dynamic scoping, if any.
pub open spec fn lookup(ls: Seq<FrameView>, name: Seq<char>) -> Option<VarView>
    decreases ls.len(),
{
    if ls.len() == 0 {
        None
    } else if frame_get(ls.last(), name) is Some {
        frame_get(ls.last(), name)
    } else {
        lookup(ls.drop_last(), name)
    }
}

/// Whether any layer binds `name` readonly.
pub open spec fn any_readonly(ls: Seq<FrameView>, name: Seq<char>) -> bool {
    exists|i: int|
        0 <= i < ls.len() && ((#[trigger] frame_get(ls[i], name)) matches Some(v) && v.readonly)
}

/// The layer an unscoped write to `name` resolves to: the visible binding's
/// layer, or the global layer when `name` is unbound.
pub open spec fn default_layer(ls: Seq<FrameView>, name: Seq<char>) -> int {
    match layer_of(ls, name) {
        Some(l) => l,
        None => 0,
    }
}

/// The layer stack after a write of `v` to `name` at layer `l`.
pub open spec fn set_at(ls: Seq<FrameView>, l: int, name: Seq<char>, v: VarView) -> Seq<
    FrameView,
> {
    ls.update(l, frame_set(ls[l], name, v))
}

/// `frame_get` finds the entry at the first index binding `name`.
pub proof fn lemma_frame_get_at(f: FrameView, i: int)
    requires
        0 <= i < f.len(),
        forall|k: int| 0 <= k < i ==> (#[trigger] f[k]).0 != f[i].0,
    ensures
        frame_get(f, f[i].0) == Some(f[i].1),
    decreases f.len(),
{
    if i > 0 {
        lemma_frame_get_at(f.skip(1), i - 1);
        assert(f.skip(1)[i - 1] == f[i]);
        assert(forall|k: int| 0 <= k < i - 1 ==> (#[trigger] f.skip(1)[k]).0 != f.skip(1)[i - 1].0);
    }
}

/// A name bound at no index is not bound in the frame.
pub proof fn lemma_frame_get_none(f: FrameView, name: Seq<char>)
    requires
        forall|k: int| 0 <= k < f.len() ==> (#[trigger] f[k]).0 != name,
    ensures
        frame_get(f, name) is None,
    decreases f.len(),
{
    if f.len() > 0 {
        lemma_frame_get_none(f.skip(1), name);
    }
}

/// Replacing the first entry binding `name` is what `frame_set` does.
pub proof fn lemma_frame_set_update(f: FrameView, i: int, v: VarView)
    requires
        0 <= i < f.len(),
        forall|k: int| 0 <= k < i ==> (#[trigger] f[k]).0 != f[i].0,
    ensures
        frame_set(f, f[i].0, v) =~= f.update(i, (f[i].0, v)),
    decreases f.len(),
{
    if i > 0 {
        lemma_frame_set_update(f.skip(1), i - 1, v);
        assert(f.skip(1)[i - 1] == f[i]);
        assert(forall|k: int| 0 <= k < i - 1 ==> (#[trigger] f.skip(1)[k]).0 != f.skip(1)[i - 1].0);
        assert(frame_set(f, f[i].0, v) == seq![f[0]] + frame_set(f.skip(1), f[i].0, v));
        assert(f.update(i, (f[i].0, v)).skip(1) =~= f.skip(1).update(i - 1, (f[i].0, v)));
    }
}

/// Appending is what `frame_set` does for a name the frame does not bind.
pub proof fn lemma_frame_set_push(f: FrameView, name: Seq<char>, v: VarView)
    requires
        forall|k: int| 0 <= k < f.len() ==> (#[trigger] f[k]).0 != name,
    ensures
        frame_set(f, name, v) =~= f.push((name, v)),
    decreases f.len(),
{
    if f.len() > 0 {
        lemma_frame_set_push(f.skip(1), name, v);
        assert(frame_set(f, name, v) == seq![f[0]] + frame_set(f.skip(1), name, v));
        assert(f.push((name, v)).skip(1) =~= f.skip(1).push((name, v)));
    }
}

/// What `frame_set` leaves bound: the written name maps to the new variable,
/// every other name keeps its binding; well-formedness is preserved.
pub proof fn lemma_frame_set_get(f: FrameView, name: Seq<char>, v: VarView, other: Seq<char>)
    ensures
        frame_get(frame_set(f, name, v), name) == Some(v),
        other != name ==> frame_get(frame_set(f, name, v), other) == frame_get(f, other),
        frame_wf(f) && is_name_chars(name) && var_wf(v) ==> frame_wf(frame_set(f, name, v)),
    decreases f.len(),
{
    if f.len() == 0 {
        let g = frame_set(f, name, v);
        assert(g[0] == (name, v));
        assert(g.skip(1).len() == 0);
        if other != name {
            assert(frame_get(g.skip(1), other) is None);
            assert(frame_get(g, other) is None);
            assert(frame_get(g, other) == frame_get(f, other));
        }
    } else if f[0].0 == name {
        let g = frame_set(f, name, v);
        assert(g == seq![(name, v)] + f.skip(1));
        assert(g[0] == (name, v));
        assert(g.skip(1) =~= f.skip(1));
        if other != name {
            assert(frame_get(g, other) == frame_get(f.skip(1), other));
            assert(frame_get(g, other) == frame_get(f, other));
        }
    } else {
        lemma_frame_set_get(f.skip(1), name, v, other);
        let g = frame_set(f, name, v);
        assert(g == seq![f[0]] + frame_set(f.skip(1), name, v));
        assert(g[0] == f[0]);
        assert(g.skip(1) =~= frame_set(f.skip(1), name, v));
        if frame_wf(f) && is_name_chars(name) && var_wf(v) {
            lemma_frame_set_names(f.skip(1), name, v);
            assert(forall|k: int|
                0 <= k < f.skip(1).len() ==> (#[trigger] f.skip(1)[k]) == f[k + 1]);
            assert(frame_wf(f.skip(1)));
            assert(frame_wf(g.skip(1)));
            assert forall|i: int, j: int| 0 <= i < j < g.len() implies g[i].0 != g[j].0 by {
                if i == 0 {
                    lemma_frame_set_names(f.skip(1), name, v);
                    assert(g[j] == g.skip(1)[j - 1]);
                }
            }
        }
    }
}

/// Every name in `frame_set(f, name, v)` is `name` or a name of `f`.
pub proof fn lemma_frame_set_names(f: FrameView, name: Seq<char>, v: VarView)
    ensures
        forall|k: int|
            0 <= k < frame_set(f, name, v).len() ==> ((#[trigger] frame_set(f, name, v)[k]).0
                == name || exists|m: int| 0 <= m < f.len() && #[trigger] f[m].0 == frame_set(
                f,
                name,
                v,
            )[k].0),
    decreases f.len(),
{
    if f.len() == 0 {
    } else if f[0].0 == name {
        let g = frame_set(f, name, v);
        assert forall|k: int| 0 <= k < g.len() implies (g[k].0 == name || exists|m: int|
            0 <= m < f.len() && #[trigger] f[m].0 == g[k].0) by {
            if k > 0 {
                assert(g[k] == f.skip(1)[k - 1]);
                assert(f[k].0 == g[k].0);
            }
        }
    } else {
        lemma_frame_set_names(f.skip(1), name, v);
        let g = frame_set(f, name, v);
        let g1 = frame_set(f.skip(1), name, v);
        assert(g == seq![f[0]] + g1);
        assert forall|k: int| 0 <= k < g.len() implies (g[k].0 == name || exists|m: int|
            0 <= m < f.len() && #[trigger] f[m].0 == g[k].0) by {
            if k == 0 {
                assert(f[0].0 == g[0].0);
            } else {
                assert(g[k] == g1[k - 1]);
                if g1[k - 1].0 != name {
                    let m = choose|m: int| 0 <= m < f.skip(1).len() && #[trigger] f.skip(1)[m].0
                        == g1[k - 1].0;
                    assert(f[m + 1].0 == g[k].0);
                }
            }
        }
    }
}

/// The frame a vector of bindings denotes.
pub open spec fn fview(v: Seq<(String, Variable)>) -> FrameView {
    v.map_values(|p: (String, Variable)| (p.0@, p.1@))
}

/// The variable scope store: scope layers (index 0 is the global frame) and
/// the positional-parameter stack.
pub struct DataBase {
    pub layers: Vec<Vec<(String, Variable)>>,
    pub position_parameters: Vec<Vec<String>>,
}

/// The interpreter session context owning the store.
pub struct ShellCore {
    pub db: DataBase,
}

impl DataBase {
    /// The scope layers, mathematically, bottom (global) first.
    pub open spec fn layers_view(&self) -> Seq<FrameView> {
        Seq::new(self.layers@.len() as nat, |i: int| fview(self.layers@[i]@))
    }

    /// The positional-parameter stack, mathematically.
    pub open spec fn positions_view(&self) -> Seq<Seq<Seq<char>>> {
        self.position_parameters.deep_view()
    }

    /// Validity: at least the global layer, every frame well formed.
    pub open spec fn wf(&self) -> bool {
        &&& self.layers_view().len() >= 1
        &&& forall|i: int|
            0 <= i < self.layers_view().len() ==> frame_wf(#[trigger] self.layers_view()[i])
    }

    /// A fresh store: one empty global layer, one empty positional-parameter
    /// list.
    pub fn new() -> (r: DataBase)
        ensures
            r.wf(),
            r.layers_view() =~= seq![Seq::<(Seq<char>, VarView)>::empty()],
            r.positions_view() =~= seq![Seq::<Seq<char>>::empty()],
    {
        let mut layers: Vec<Vec<(String, Variable)>> = Vec::new();
        layers.push(Vec::new());
        let mut position_parameters: Vec<Vec<String>> = Vec::new();
        position_parameters.push(Vec::new());
        let r = DataBase { layers, position_parameters };
        proof {
            assert(r.layers_view()[0] =~= Seq::<(Seq<char>, VarView)>::empty());
            assert(r.positions_view()[0] =~= Seq::<Seq<char>>::empty());
            assert(r.layers_view() =~= seq![Seq::<(Seq<char>, VarView)>::empty()]);
            assert(r.positions_view() =~= seq![Seq::<Seq<char>>::empty()]);
        }
        r
    }

    /// The current stack depth, the global layer included.
    pub fn get_layer_num(&self) -> (r: usize)
        ensures
            r == self.layers_view().len(),
    {
        self.layers.len()
    }

    /// Opens a new scope layer, as a function call does.
    pub fn push_layer(&mut self)
        requires
            old(self).wf(),
        ensures
            final(self).wf(),
            final(self).layers_view() =~= old(self).layers_view().push(
                Seq::<(Seq<char>, VarView)>::empty(),
            ),
            final(self).positions_view() == old(self).positions_view(),
    {
        self.layers.push(Vec::new());
        proof {
            assert(final(self).layers_view()[old(self).layers@.len() as int] =~= Seq::<
                (Seq<char>, VarView),
            >::empty());
            assert(final(self).layers_view() =~= old(self).layers_view().push(
                Seq::<(Seq<char>, VarView)>::empty(),
            ));
        }
    }

    /// Destroys the topmost scope layer, dropping every name bound there and
    /// revealing any shadowed bindings. The global layer cannot be popped.
    pub fn pop_layer(&mut self) -> (r: Result<(), ExecError>)
        requires
            old(self).wf(),
        ensures
            final(self).wf(),
            final(self).positions_view() == old(self).positions_view(),
            match r {
                Ok(_) => old(self).layers_view().len() > 1 && final(self).layers_view() =~= old(
                    self,
                ).layers_view().drop_last(),
                Err(e) => old(self).layers_view().len() <= 1 && e@ == crate::error::ErrView::StackUnderflow
                    && final(self).layers_view() == old(self).layers_view(),
            },
    {
        if self.layers.len() <= 1 {
            return Err(ExecError::StackUnderflow);
        }
        let _ = self.layers.pop();
        proof {
            assert(final(self).layers_view() =~= old(self).layers_view().drop_last());
        }
        Ok(())
    }

    /// Pushes a positional-parameter list, as entering a function or a
    /// sourced script does.
    pub fn push_position_parameters(&mut self, args: Vec<String>)
        ensures
            final(self).positions_view() =~= old(self).positions_view().push(args.deep_view()),
            final(self).layers_view() == old(self).layers_view(),
            final(self).wf() == old(self).wf(),
    {
        self.position_parameters.push(args);
        proof {
            assert(final(self).positions_view() =~= old(self).positions_view().push(
                final(self).position_parameters@.last().deep_view(),
            ));
        }
    }

    /// Pops the topmost positional-parameter list; popping an empty stack is
    /// an error and changes nothing.
    pub fn pop_position_parameters(&mut self) -> (r: Result<Vec<String>, ExecError>)
        ensures
            final(self).layers_view() == old(self).layers_view(),
            final(self).wf() == old(self).wf(),
            match r {
                Ok(v) => old(self).positions_view().len() > 0 && v.deep_view() == old(
                    self,
                ).positions_view().last() && final(self).positions_view() =~= old(
                    self,
                ).positions_view().drop_last(),
                Err(e) => old(self).positions_view().len() == 0 && e@
                    == crate::error::ErrView::StackUnderflow && final(self).positions_view() == old(
                    self,
                ).positions_view(),
            },
    {
        match self.position_parameters.pop() {
            Some(v) => {
                proof {
                    assert(final(self).positions_view() =~= old(
                        self,
                    ).positions_view().drop_last());
                }
                Ok(v)
            },
            None => Err(ExecError::StackUnderflow),
        }
    }
}

/// The layer a write resolves to: the given layer, or the visible binding's
/// layer (the global layer for an unbound name) when none is given.
pub open spec fn resolve_layer(ls: Seq<FrameView>, name: Seq<char>, layer: Option<usize>) -> int {
    match layer {
        Some(l) => l as int,
        None => default_layer(ls, name),
    }
}

/// The variable a value write at layer `l` produces: the new value, with the
/// attribute flags of the binding the write replaces (none for a fresh
/// binding).
pub open spec fn write_var(ls: Seq<FrameView>, l: int, name: Seq<char>, val: ValView) -> VarView {
    match frame_get(ls[l], name) {
        Some(v0) => VarView {
            val: val,
            readonly: v0.readonly,
            exported: v0.exported,
            integer_typed: v0.integer_typed,
        },
        None => VarView { val: val, readonly: false, exported: false, integer_typed: false },
    }
}

/// The index of the first binding of `name` in a frame's vector, if any.
fn frame_find(entries: &Vec<(String, Variable)>, name: &str) -> (r: Option<usize>)
    ensures
        match r {
            Some(i) => i < entries@.len() && fview(entries@)[i as int].0 == name@ && (forall|
                k: int,
            |
                0 <= k < i ==> (#[trigger] fview(entries@)[k]).0 != name@),
            None => forall|k: int|
                0 <= k < entries@.len() ==> (#[trigger] fview(entries@)[k]).0 != name@,
        },
{
    let mut i: usize = 0;
    while i < entries.len()
        invariant
            i <= entries@.len(),
            forall|k: int| 0 <= k < i ==> (#[trigger] fview(entries@)[k]).0 != name@,
        decreases entries@.len() - i,
    {
        if crate::text::string_eq_str(&entries[i].0, name) {
            return Some(i);
        }
        i = i + 1;
    }
    None
}

impl DataBase {
    /// The topmost layer binding `name`, if any.
    pub fn visible_layer(&self, name: &str) -> (r: Option<usize>)
        ensures
            match r {
                Some(l) => layer_of(self.layers_view(), name@) == Some(l as int),
                None => layer_of(self.layers_view(), name@) is None,
            },
    {
        let ghost lv = self.layers_view();
        let mut i: usize = self.layers.len();
        proof {
            assert(lv.take(i as int) =~= lv);
        }
        while i > 0
            invariant
                i <= lv.len(),
                lv == self.layers_view(),
                layer_of(lv, name@) == layer_of(lv.take(i as int), name@),
            decreases i,
        {
            i = i - 1;
            let found = frame_find(&self.layers[i], name);
            proof {
                assert(lv.take(i + 1).last() == lv[i as int]);
                assert(lv.take(i + 1).drop_last() =~= lv.take(i as int));
            }
            match found {
                Some(j) => {
                    proof {
                        lemma_frame_get_at(lv[i as int], j as int);
                    }
                    return Some(i);
                },
                None => {
                    proof {
                        lemma_frame_get_none(lv[i as int], name@);
                    }
                },
            }
        }
        proof {
            assert(lv.take(0) =~= Seq::<FrameView>::empty());
        }
        None
    }

    /// Whether any layer binds `name` readonly.
    fn readonly_anywhere(&self, name: &str) -> (r: bool)
        ensures
            r == any_readonly(self.layers_view(), name@),
    {
        let ghost lv = self.layers_view();
        let mut i: usize = 0;
        while i < self.layers.len()
            invariant
                i <= lv.len(),
                lv == self.layers_view(),
                forall|l: int|
                    0 <= l < i ==> !((#[trigger] frame_get(lv[l], name@)) matches Some(v)
                        && v.readonly),
            decreases lv.len() - i,
        {
            let found = frame_find(&self.layers[i], name);
            match found {
                Some(j) => {
                    proof {
                        lemma_frame_get_at(lv[i as int], j as int);
                    }
                    if self.layers[i][j].1.readonly {
                        return true;
                    }
                },
                None => {
                    proof {
                        lemma_frame_get_none(lv[i as int], name@);
                    }
                },
            }
            i = i + 1;
        }
        false
    }

    /// Writes `var` for `name` at layer `layer`, replacing any binding there.
    fn set_var_at(&mut self, layer: usize, name: &str, var: Variable)
        requires
            old(self).wf(),
            layer < old(self).layers_view().len(),
            is_name_chars(name@),
            var_wf(var@),
        ensures
            final(self).layers_view().len() == old(self).layers_view().len(),
            final(self).wf(),
            final(self).layers_view() =~= set_at(
                old(self).layers_view(),
                layer as int,
                name@,
                var@,
            ),
            final(self).positions_view() == old(self).positions_view(),
    {
        let ghost lv = old(self).layers_view();
        let mut fr = self.layers.remove(layer);
        let ghost fv0 = fview(fr@);
        proof {
            assert(fv0 == lv[layer as int]);
        }
        let name_string = name.to_owned();
        match frame_find(&fr, name) {
            Some(i) => {
                fr[i] = (name_string, var);
                proof {
                    assert(fview(fr@) =~= fv0.update(i as int, (name@, var@)));
                    lemma_frame_set_update(fv0, i as int, var@);
                    assert(fv0[i as int].0 == name@);
                    assert(fview(fr@) =~= frame_set(fv0, name@, var@));
                }
            },
            None => {
                fr.push((name_string, var));
                proof {
                    assert(fview(fr@) =~= fv0.push((name@, var@)));
                    lemma_frame_set_push(fv0, name@, var@);
                    assert(fview(fr@) =~= frame_set(fv0, name@, var@));
                }
            },
        }
        proof {
            lemma_frame_set_get(fv0, name@, var@, name@);
        }
        self.layers.insert(layer, fr);
        proof {
            assert(final(self).layers@ =~= old(self).layers@.update(layer as int, fr));
            assert(final(self).layers_view() =~= set_at(lv, layer as int, name@, var@));
            assert forall|i: int| 0 <= i < final(self).layers_view().len() implies frame_wf(
                #[trigger] final(self).layers_view()[i],
            ) by {
                if i != layer {
                    assert(final(self).layers_view()[i] == lv[i]);
                }
            }
        }
    }
}

/// A found layer index is a valid index, and the visible binding is the one
/// at that layer.
pub proof fn lemma_layer_of_lookup(ls: Seq<FrameView>, name: Seq<char>)
    ensures
        match layer_of(ls, name) {
            Some(l) => 0 <= l < ls.len() && lookup(ls, name) == frame_get(ls[l], name) && frame_get(
                ls[l],
                name,
            ) is Some,
            None => lookup(ls, name) is None,
        },
    decreases ls.len(),
{
    if ls.len() > 0 && frame_get(ls.last(), name) is None {
        lemma_layer_of_lookup(ls.drop_last(), name);
        match layer_of(ls.drop_last(), name) {
            Some(l) => {
                assert(ls.drop_last()[l] == ls[l]);
            },
            None => {},
        }
    }
}

/// `v` with the flag named by `flag` set: `r` readonly, `x` exported, `i`
/// integer-typed; any other character changes nothing.
pub open spec fn flag_var(v: VarView, flag: char) -> VarView {
    if flag == 'r' {
        VarView { readonly: true, ..v }
    } else if flag == 'x' {
        VarView { exported: true, ..v }
    } else if flag == 'i' {
        VarView { integer_typed: true, ..v }
    } else {
        v
    }
}

/// The variable a value write produces: the new value with the replaced
/// binding's flags (`integer_typed` forced when `mark_int` holds), or fresh
/// flags for a fresh binding.
pub open spec fn mk_var(
    ls: Seq<FrameView>,
    l: int,
    name: Seq<char>,
    val: ValView,
    mark_int: bool,
) -> VarView {
    match frame_get(ls[l], name) {
        Some(v0) => VarView {
            val: val,
            readonly: v0.readonly,
            exported: v0.exported,
            integer_typed: mark_int || v0.integer_typed,
        },
        None => VarView { val: val, readonly: false, exported: false, integer_typed: mark_int },
    }
}

/// What a value write does to the layer stack: it fails on an illegal name or
/// a readonly binding, else it writes at the resolved layer, keeping the
/// replaced binding's flags.
pub open spec fn set_value_model(
    ls: Seq<FrameView>,
    name: Seq<char>,
    val: ValView,
    layer: Option<usize>,
    mark_int: bool,
) -> Result<Seq<FrameView>, crate::error::ErrView> {
    if !is_name_chars(name) {
        Err(crate::error::ErrView::InvalidName(name))
    } else if any_readonly(ls, name) {
        Err(crate::error::ErrView::ReadOnlyViolation(name))
    } else {
        let l = resolve_layer(ls, name, layer);
        Ok(set_at(ls, l, name, mk_var(ls, l, name, val, mark_int)))
    }
}

/// What setting a flag does to the layer stack: the nearest visible binding
/// gets the flag; an unbound name changes nothing.
pub open spec fn set_flag_model(ls: Seq<FrameView>, name: Seq<char>, flag: char) -> Seq<
    FrameView,
> {
    match layer_of(ls, name) {
        None => ls,
        Some(l) => set_at(ls, l, name, flag_var(frame_get(ls[l], name)->0, flag)),
    }
}

/// What a numeric initialization does: name syntax and the readonly attribute
/// are enforced, the literal parsed, its decimal form stored, the binding
/// marked integer-typed.
pub open spec fn init_num_model(
    ls: Seq<FrameView>,
    name: Seq<char>,
    literal: Seq<char>,
    layer: Option<usize>,
) -> Result<Seq<FrameView>, crate::error::ErrView> {
    if !is_name_chars(name) {
        Err(crate::error::ErrView::InvalidName(name))
    } else if any_readonly(ls, name) {
        Err(crate::error::ErrView::ReadOnlyViolation(name))
    } else {
        match crate::num::parse_spec(literal) {
            Err(v) => Err(v),
            Ok(n) => set_value_model(
                ls,
                name,
                ValView::Scalar(crate::text::dec_chars(n as int)),
                layer,
                true,
            ),
        }
    }
}

impl DataBase {
    /// Writes `value` (with `mark_int` forcing the integer-typed flag) for
    /// `name` at the given or resolved layer, enforcing name syntax and the
    /// readonly attribute.
    fn set_value(&mut self, name: &str, value: VarValue, layer: Option<usize>, mark_int: bool) -> (
        r: Result<(), ExecError>
    )
        requires
            old(self).wf(),
            layer matches Some(l) ==> l < old(self).layers_view().len(),
            val_wf(value@),
        ensures
            final(self).layers_view().len() == old(self).layers_view().len(),
            final(self).wf(),
            final(self).positions_view() == old(self).positions_view(),
            match set_value_model(old(self).layers_view(), name@, value@, layer, mark_int) {
                Ok(ls2) => r is Ok && final(self).layers_view() =~= ls2,
                Err(v) => r matches Err(e) && e@ == v && final(self).layers_view() == old(
                    self,
                ).layers_view(),
            },
    {
        let ghost lv = self.layers_view();
        if !is_name(name) {
            return Err(ExecError::InvalidName(name.to_owned()));
        }
        if self.readonly_anywhere(name) {
            return Err(ExecError::ReadOnlyViolation(name.to_owned()));
        }
        let tgt: usize = match layer {
            Some(l) => l,
            None => {
                proof {
                    lemma_layer_of_lookup(lv, name@);
                }
                match self.visible_layer(name) {
                    Some(l) => l,
                    None => 0,
                }
            },
        };
        let mut ro = false;
        let mut ex = false;
        let mut it = mark_int;
        match frame_find(&self.layers[tgt], name) {
            Some(i) => {
                proof {
                    lemma_frame_get_at(lv[tgt as int], i as int);
                }
                ro = self.layers[tgt][i].1.readonly;
                ex = self.layers[tgt][i].1.exported;
                it = mark_int || self.layers[tgt][i].1.integer_typed;
            },
            None => {
                proof {
                    lemma_frame_get_none(lv[tgt as int], name@);
                }
            },
        }
        let var = Variable { value, readonly: ro, exported: ex, integer_typed: it };
        self.set_var_at(tgt, name, var);
        Ok(())
    }

    /// Writes a scalar: `set_scalar` of the store design.
    pub fn set_param(&mut self, name: &str, value: &str, layer: Option<usize>) -> (r: Result<
        (),
        ExecError,
    >)
        requires
            old(self).wf(),
            layer matches Some(l) ==> l < old(self).layers_view().len(),
        ensures
            final(self).layers_view().len() == old(self).layers_view().len(),
            final(self).wf(),
            final(self).positions_view() == old(self).positions_view(),
            match set_value_model(
                old(self).layers_view(),
                name@,
                ValView::Scalar(value@),
                layer,
                false,
            ) {
                Ok(ls2) => r is Ok && final(self).layers_view() =~= ls2,
                Err(v) => r matches Err(e) && e@ == v && final(self).layers_view() == old(
                    self,
                ).layers_view(),
            },
    {
        self.set_value(name, VarValue::Scalar(value.to_owned()), layer, false)
    }

    /// Creates or replaces an indexed array holding `values` at indices
    /// `0..values.len()`.
    pub fn set_array(&mut self, name: &str, values: Vec<String>, layer: Option<usize>) -> (r:
        Result<(), ExecError>)
        requires
            old(self).wf(),
            layer matches Some(l) ==> l < old(self).layers_view().len(),
        ensures
            final(self).layers_view().len() == old(self).layers_view().len(),
            final(self).wf(),
            final(self).positions_view() == old(self).positions_view(),
            match set_value_model(
                old(self).layers_view(),
                name@,
                ValView::Indexed(dense_indexed(values.deep_view())),
                layer,
                false,
            ) {
                Ok(ls2) => r is Ok && final(self).layers_view() =~= ls2,
                Err(v) => r matches Err(e) && e@ == v && final(self).layers_view() == old(
                    self,
                ).layers_view(),
            },
    {
        let mut arr: Vec<(u64, String)> = Vec::new();
        let mut i: usize = 0;
        while i < values.len()
            invariant
                i <= values@.len(),
                arr@.len() == i,
                forall|k: int|
                    0 <= k < i ==> (#[trigger] arr@[k]).0 == k as u64 && arr@[k].1@ == values@[k]@,
            decreases values@.len() - i,
        {
            arr.push((i as u64, values[i].clone()));
            i = i + 1;
        }
        proof {
            let f = |p: (u64, String)| (p.0 as int, p.1@);
            let lhs = arr@.map_values(f);
            let rhs = dense_indexed(values.deep_view());
            assert forall|k: int| 0 <= k < lhs.len() implies lhs[k] == rhs[k] by {
                assert(lhs[k] == f(arr@[k]));
                assert(values.deep_view()[k] == values@[k]@);
            }
            assert(lhs =~= rhs);
            assert(VarValue::IndexedArray(arr)@ == ValView::Indexed(rhs));
        }
        self.set_value(name, VarValue::IndexedArray(arr), layer, false)
    }

    /// Creates or replaces an empty associative array.
    pub fn set_assoc(&mut self, name: &str, layer: Option<usize>) -> (r: Result<(), ExecError>)
        requires
            old(self).wf(),
            layer matches Some(l) ==> l < old(self).layers_view().len(),
        ensures
            final(self).layers_view().len() == old(self).layers_view().len(),
            final(self).wf(),
            final(self).positions_view() == old(self).positions_view(),
            match set_value_model(
                old(self).layers_view(),
                name@,
                ValView::Assoc(Seq::empty()),
                layer,
                false,
            ) {
                Ok(ls2) => r is Ok && final(self).layers_view() =~= ls2,
                Err(v) => r matches Err(e) && e@ == v && final(self).layers_view() == old(
                    self,
                ).layers_view(),
            },
    {
        let arr: Vec<(String, String)> = Vec::new();
        proof {
            assert(arr@.map_values(|p: (String, String)| (p.0@, p.1@)) =~= Seq::<
                (Seq<char>, Seq<char>),
            >::empty());
        }
        self.set_value(name, VarValue::AssocArray(arr), layer, false)
    }

    /// Parses `literal` as a shell numeral, stores its decimal string form,
    /// and marks the binding integer-typed: `set_numeric_init` of the store
    /// design.
    pub fn init_as_num(&mut self, name: &str, literal: &str, layer: Option<usize>) -> (r: Result<
        (),
        ExecError,
    >)
        requires
            old(self).wf(),
            layer matches Some(l) ==> l < old(self).layers_view().len(),
        ensures
            final(self).layers_view().len() == old(self).layers_view().len(),
            final(self).wf(),
            final(self).positions_view() == old(self).positions_view(),
            match init_num_model(old(self).layers_view(), name@, literal@, layer) {
                Ok(ls2) => r is Ok && final(self).layers_view() =~= ls2,
                Err(v) => r matches Err(e) && e@ == v && final(self).layers_view() == old(
                    self,
                ).layers_view(),
            },
    {
        if !is_name(name) {
            return Err(ExecError::InvalidName(name.to_owned()));
        }
        if self.readonly_anywhere(name) {
            return Err(ExecError::ReadOnlyViolation(name.to_owned()));
        }
        let n = match crate::num::parse(literal) {
            Ok(n) => n,
            Err(e) => {
                return Err(e);
            },
        };
        let rendered = crate::text::dec_string(n);
        self.set_value(name, VarValue::Scalar(rendered), layer, true)
    }

    /// Sets an attribute flag on the nearest visible binding of `name`;
    /// nothing happens when `name` is unbound.
    pub fn set_flag(&mut self, name: &str, flag: char)
        requires
            old(self).wf(),
        ensures
            final(self).layers_view().len() == old(self).layers_view().len(),
            final(self).wf(),
            final(self).positions_view() == old(self).positions_view(),
            final(self).layers_view() =~= set_flag_model(old(self).layers_view(), name@, flag),
    {
        let ghost lv = self.layers_view();
        let l = match self.visible_layer(name) {
            Some(l) => l,
            None => {
                return ;
            },
        };
        proof {
            lemma_layer_of_lookup(lv, name@);
        }
        let mut fr = self.layers.remove(l);
        let ghost fv0 = fview(fr@);
        proof {
            assert(fv0 == lv[l as int]);
        }
        let i = match frame_find(&fr, name) {
            Some(i) => i,
            None => {
                proof {
                    lemma_frame_get_none(fv0, name@);
                }
                // unreachable: the layer was found because it binds the name
                self.layers.insert(l, fr);
                proof {
                    assert(final(self).layers@ =~= old(self).layers@);
                    assert(final(self).layers_view() =~= lv);
                    assert(false);
                }
                return ;
            },
        };
        proof {
            lemma_frame_get_at(fv0, i as int);
        }
        let (nm, mut var) = fr.remove(i);
        if flag == 'r' {
            var.readonly = true;
        } else if flag == 'x' {
            var.exported = true;
        } else if flag == 'i' {
            var.integer_typed = true;
        }
        let ghost newv = var@;
        fr.insert(i, (nm, var));
        proof {
            assert(fview(fr@) =~= fv0.update(i as int, (name@, newv)));
            lemma_frame_set_update(fv0, i as int, newv);
            assert(fview(fr@) =~= frame_set(fv0, name@, newv));
            lemma_frame_set_get(fv0, name@, newv, name@);
        }
        self.layers.insert(l, fr);
        proof {
            assert(final(self).layers@ =~= old(self).layers@.update(l as int, fr));
            assert(final(self).layers_view() =~= set_at(lv, l as int, name@, newv));
            assert forall|k: int| 0 <= k < final(self).layers_view().len() implies frame_wf(
                #[trigger] final(self).layers_view()[k],
            ) by {
                if k != l {
                    assert(final(self).layers_view()[k] == lv[k]);
                }
            }
        }
    }

    /// Whether a binding of `name` is visible at any layer.
    pub fn has_value(&self, name: &str) -> (r: bool)
        ensures
            r == (lookup(self.layers_view(), name@) is Some),
    {
        proof {
            lemma_layer_of_lookup(self.layers_view(), name@);
        }
        match self.visible_layer(name) {
            Some(_) => true,
            None => false,
        }
    }

    /// Whether layer `layer` itself binds `name`.
    pub fn has_value_layer(&self, name: &str, layer: usize) -> (r: bool)
        requires
            layer < self.layers_view().len(),
        ensures
            r == (frame_get(self.layers_view()[layer as int], name@) is Some),
    {
        match frame_find(&self.layers[layer], name) {
            Some(i) => {
                proof {
                    lemma_frame_get_at(self.layers_view()[layer as int], i as int);
                }
                true
            },
            None => {
                proof {
                    lemma_frame_get_none(self.layers_view()[layer as int], name@);
                }
                false
            },
        }
    }

    /// Whether the visible binding of `name` carries the exported attribute.
    pub fn is_exported(&self, name: &str) -> (r: bool)
        ensures
            match lookup(self.layers_view(), name@) {
                Some(v) => r == v.exported,
                None => r == false,
            },
    {
        let ghost lv = self.layers_view();
        proof {
            lemma_layer_of_lookup(lv, name@);
        }
        let l = match self.visible_layer(name) {
            Some(l) => l,
            None => {
                return false;
            },
        };
        match frame_find(&self.layers[l], name) {
            Some(i) => {
                proof {
                    lemma_frame_get_at(lv[l as int], i as int);
                }
                self.layers[l][i].1.exported
            },
            None => {
                proof {
                    lemma_frame_get_none(lv[l as int], name@);
                }
                false
            },
        }
    }

    /// The scalar value visibly bound to `name`, if the visible binding is a
    /// scalar.
    pub fn get_param(&self, name: &str) -> (r: Option<String>)
        ensures
            match lookup(self.layers_view(), name@) {
                Some(v) => match v.val {
                    ValView::Scalar(s) => r matches Some(x) && x@ == s,
                    _ => r is None,
                },
                None => r is None,
            },
    {
        let ghost lv = self.layers_view();
        proof {
            lemma_layer_of_lookup(lv, name@);
        }
        let l = match self.visible_layer(name) {
            Some(l) => l,
            None => {
                return None;
            },
        };
        let i = match frame_find(&self.layers[l], name) {
            Some(i) => i,
            None => {
                proof {
                    lemma_frame_get_none(lv[l as int], name@);
                }
                return None;
            },
        };
        proof {
            lemma_frame_get_at(lv[l as int], i as int);
        }
        match &self.layers[l][i].1.value {
            VarValue::Scalar(s) => Some(s.clone()),
            _ => None,
        }
    }
}

/// The dense indexed-array entries for a value list: index `i` maps to the
/// `i`-th value.
pub open spec fn dense_indexed(vals: Seq<Seq<char>>) -> Seq<(int, Seq<char>)> {
    Seq::new(vals.len(), |i: int| (i, vals[i]))
}

/// The value at index `k` of an indexed array's entry list, if any.
pub open spec fn idx_get(s: Seq<(int, Seq<char>)>, k: int) -> Option<Seq<char>>
    decreases s.len(),
{
    if s.len() == 0 {
        None
    } else if s[0].0 == k {
        Some(s[0].1)
    } else {
        idx_get(s.skip(1), k)
    }
}

/// The entry list with index `k` set to `val`, keeping the entries sorted by
/// index.
pub open spec fn idx_set(s: Seq<(int, Seq<char>)>, k: int, val: Seq<char>) -> Seq<
    (int, Seq<char>),
>
    decreases s.len(),
{
    if s.len() == 0 {
        seq![(k, val)]
    } else if s[0].0 == k {
        seq![(k, val)] + s.skip(1)
    } else if k < s[0].0 {
        seq![(k, val)] + s
    } else {
        seq![s[0]] + idx_set(s.skip(1), k, val)
    }
}

/// Replacing the entry already at index `k` is what `idx_set` does when the
/// preceding indices are smaller.
proof fn lemma_idx_set_update(s: Seq<(int, Seq<char>)>, j: int, val: Seq<char>)
    requires
        0 <= j < s.len(),
        forall|m: int| 0 <= m < j ==> (#[trigger] s[m]).0 < s[j].0,
    ensures
        idx_set(s, s[j].0, val) =~= s.update(j, (s[j].0, val)),
    decreases s.len(),
{
    if j > 0 {
        lemma_idx_set_update(s.skip(1), j - 1, val);
        assert(s.skip(1)[j - 1] == s[j]);
        assert(forall|m: int| 0 <= m < j - 1 ==> (#[trigger] s.skip(1)[m]).0 < s.skip(1)[j - 1].0);
        assert(idx_set(s, s[j].0, val) == seq![s[0]] + idx_set(s.skip(1), s[j].0, val));
        assert(s.update(j, (s[j].0, val)).skip(1) =~= s.skip(1).update(j - 1, (s[j].0, val)));
    }
}

/// Inserting before the first larger index is what `idx_set` does for an
/// index the list does not hold.
proof fn lemma_idx_set_insert(s: Seq<(int, Seq<char>)>, j: int, k: int, val: Seq<char>)
    requires
        0 <= j <= s.len(),
        forall|m: int| 0 <= m < j ==> (#[trigger] s[m]).0 < k,
        j < s.len() ==> s[j].0 > k,
    ensures
        idx_set(s, k, val) =~= s.insert(j, (k, val)),
    decreases s.len(),
{
    if j == 0 {
        if s.len() == 0 {
            assert(idx_set(s, k, val) =~= s.insert(0, (k, val)));
        } else {
            assert(s[0].0 > k);
            assert(idx_set(s, k, val) == seq![(k, val)] + s);
            assert(idx_set(s, k, val) =~= s.insert(0, (k, val)));
        }
    } else {
        lemma_idx_set_insert(s.skip(1), j - 1, k, val);
        assert(forall|m: int| 0 <= m < j - 1 ==> (#[trigger] s.skip(1)[m]).0 < k);
        assert(j - 1 < s.skip(1).len() ==> s.skip(1)[j - 1].0 > k);
        assert(idx_set(s, k, val) == seq![s[0]] + idx_set(s.skip(1), k, val));
        assert(s.insert(j, (k, val)).skip(1) =~= s.skip(1).insert(j - 1, (k, val)));
    }
}

/// `idx_get` finds the entry at the first index holding `k`.
proof fn lemma_idx_get_at(s: Seq<(int, Seq<char>)>, j: int)
    requires
        0 <= j < s.len(),
        forall|m: int| 0 <= m < j ==> (#[trigger] s[m]).0 != s[j].0,
    ensures
        idx_get(s, s[j].0) == Some(s[j].1),
    decreases s.len(),
{
    if j > 0 {
        lemma_idx_get_at(s.skip(1), j - 1);
        assert(s.skip(1)[j - 1] == s[j]);
        assert(forall|m: int| 0 <= m < j - 1 ==> (#[trigger] s.skip(1)[m]).0 != s.skip(1)[j - 1].0);
    }
}

/// An index held by no entry has no value.
proof fn lemma_idx_get_none(s: Seq<(int, Seq<char>)>, k: int)
    requires
        forall|m: int| 0 <= m < s.len() ==> (#[trigger] s[m]).0 != k,
    ensures
        idx_get(s, k) is None,
    decreases s.len(),
{
    if s.len() > 0 {
        lemma_idx_get_none(s.skip(1), k);
    }
}

/// What an element write at `name[index]` does to the layer stack: an empty
/// index is a scalar write; otherwise the index must be a decimal numeral
/// denoting an unsigned 64-bit value, and the element is written into the
/// visible indexed array (a scalar, associative or absent binding is replaced
/// by a fresh one-element indexed array). Name syntax and the readonly
/// attribute are enforced as for every write.
pub open spec fn set_elem_model(
    ls: Seq<FrameView>,
    name: Seq<char>,
    index: Seq<char>,
    value: Seq<char>,
    layer: Option<usize>,
) -> Result<Seq<FrameView>, crate::error::ErrView> {
    if index.len() == 0 {
        set_value_model(ls, name, ValView::Scalar(value), layer, false)
    } else if !is_name_chars(name) {
        Err(crate::error::ErrView::InvalidName(name))
    } else if any_readonly(ls, name) {
        Err(crate::error::ErrView::ReadOnlyViolation(name))
    } else {
        match crate::num::parse_dec_int(index) {
            Some(k) => if 0 <= k <= u64::MAX {
                let l = resolve_layer(ls, name, layer);
                let arr0 = match frame_get(ls[l], name) {
                    Some(v0) => match v0.val {
                        ValView::Indexed(s) => s,
                        _ => Seq::empty(),
                    },
                    None => Seq::empty(),
                };
                Ok(set_at(ls, l, name, mk_var(ls, l, name, ValView::Indexed(idx_set(arr0, k, value)), false)))
            } else {
                Err(crate::error::ErrView::ParseError)
            },
            None => Err(crate::error::ErrView::ParseError),
        }
    }
}

impl DataBase {
    /// Writes `value` at `name`, or at `name[index]` when `index` is not
    /// empty: the write-back target of compound assignment.
    pub fn set_param2(&mut self, name: &str, index: &str, value: &str, layer: Option<usize>) -> (r:
        Result<(), ExecError>)
        requires
            old(self).wf(),
            layer matches Some(l) ==> l < old(self).layers_view().len(),
        ensures
            final(self).layers_view().len() == old(self).layers_view().len(),
            final(self).wf(),
            final(self).positions_view() == old(self).positions_view(),
            match set_elem_model(old(self).layers_view(), name@, index@, value@, layer) {
                Ok(ls2) => r is Ok && final(self).layers_view() =~= ls2,
                Err(v) => r matches Err(e) && e@ == v && final(self).layers_view() == old(
                    self,
                ).layers_view(),
            },
    {
        let ghost lv = self.layers_view();
        if index.unicode_len() == 0 {
            return self.set_param(name, value, layer);
        }
        if !is_name(name) {
            return Err(ExecError::InvalidName(name.to_owned()));
        }
        if self.readonly_anywhere(name) {
            return Err(ExecError::ReadOnlyViolation(name.to_owned()));
        }
        let k: u64 = match crate::num::parse_dec_u64(index) {
            Some(k) => k,
            None => {
                return Err(ExecError::ParseError);
            },
        };
        let tgt: usize = match layer {
            Some(l) => l,
            None => {
                proof {
                    lemma_layer_of_lookup(lv, name@);
                }
                match self.visible_layer(name) {
                    Some(l) => l,
                    None => 0,
                }
            },
        };
        let mut ro = false;
        let mut ex = false;
        let mut it = false;
        let mut arr: Vec<(u64, String)> = Vec::new();
        match frame_find(&self.layers[tgt], name) {
            Some(i) => {
                proof {
                    lemma_frame_get_at(lv[tgt as int], i as int);
                }
                ro = self.layers[tgt][i].1.readonly;
                ex = self.layers[tgt][i].1.exported;
                it = self.layers[tgt][i].1.integer_typed;
                match &self.layers[tgt][i].1.value {
                    VarValue::IndexedArray(a) => {
                        arr = copy_index_entries(a);
                        proof {
                            let f = |p: (u64, String)| (p.0 as int, p.1@);
                            assert(arr@.map_values(f) =~= a@.map_values(f));
                        }
                    },
                    _ => {},
                }
            },
            None => {
                proof {
                    lemma_frame_get_none(lv[tgt as int], name@);
                }
            },
        }
        let ghost base = arr@.map_values(|p: (u64, String)| (p.0 as int, p.1@));
        proof {
            if arr@.len() == 0 {
                assert(base =~= Seq::<(int, Seq<char>)>::empty());
            }
        }
        // position of the first entry with an index at least `k`
        let mut j: usize = 0;
        while j < arr.len() && arr[j].0 < k
            invariant
                j <= arr@.len(),
                base == arr@.map_values(|p: (u64, String)| (p.0 as int, p.1@)),
                forall|m: int| 0 <= m < j ==> (#[trigger] base[m]).0 < k as int,
            decreases arr@.len() - j,
    {
            proof {
                assert(base[j as int] == (arr@[j as int].0 as int, arr@[j as int].1@));
            }
            j = j + 1;
        }
        proof {
            if j < arr@.len() {
                assert(base[j as int] == (arr@[j as int].0 as int, arr@[j as int].1@));
            }
        }
        let vstring = value.to_owned();
        if j < arr.len() && arr[j].0 == k {
            arr[j] = (k, vstring);
            proof {
                lemma_idx_set_update(base, j as int, value@);
                assert(arr@.map_values(|p: (u64, String)| (p.0 as int, p.1@)) =~= base.update(
                    j as int,
                    (k as int, value@),
                ));
            }
        } else {
            arr.insert(j, (k, vstring));
            proof {
                lemma_idx_set_insert(base, j as int, k as int, value@);
                assert(arr@.map_values(|p: (u64, String)| (p.0 as int, p.1@)) =~= base.insert(
                    j as int,
                    (k as int, value@),
                ));
            }
        }
        let ghost newarr = idx_set(base, k as int, value@);
        proof {
            let lhs = arr@.map_values(|p: (u64, String)| (p.0 as int, p.1@));
            assert(lhs =~= newarr);
            assert forall|a: int, b: int| 0 <= a < b < newarr.len() implies newarr[a].0
                < newarr[b].0 by {
                lemma_idx_set_sorted_frame(base, k as int, value@);
            }
            assert forall|m: int| 0 <= m < newarr.len() implies (#[trigger] newarr[m]).0 >= 0 by {
                lemma_idx_set_sorted_frame(base, k as int, value@);
            }
        }
        let var = Variable {
            value: VarValue::IndexedArray(arr),
            readonly: ro,
            exported: ex,
            integer_typed: it,
        };
        self.set_var_at(tgt, name, var);
        Ok(())
    }

    /// The value at `name[index]` of the visible binding, when that binding
    /// is an indexed array holding the index.
    pub fn get_array_elem(&self, name: &str, index: u64) -> (r: Option<String>)
        ensures
            match lookup(self.layers_view(), name@) {
                Some(v) => match v.val {
                    ValView::Indexed(s) => (match idx_get(s, index as int) {
                        Some(val) => r matches Some(x) && x@ == val,
                        None => r is None,
                    }),
                    _ => r is None,
                },
                None => r is None,
            },
    {
        let ghost lv = self.layers_view();
        proof {
            lemma_layer_of_lookup(lv, name@);
        }
        let l = match self.visible_layer(name) {
            Some(l) => l,
            None => {
                return None;
            },
        };
        let i = match frame_find(&self.layers[l], name) {
            Some(i) => i,
            None => {
                proof {
                    lemma_frame_get_none(lv[l as int], name@);
                }
                return None;
            },
        };
        proof {
            lemma_frame_get_at(lv[l as int], i as int);
            assert(lv[l as int][i as int] == (
                self.layers@[l as int]@[i as int].0@,
                self.layers@[l as int]@[i as int].1@,
            ));
            assert(lookup(lv, name@) == Some(self.layers@[l as int]@[i as int].1@));
        }
        match &self.layers[l][i].1.value {
            VarValue::IndexedArray(a) => {
                let ghost s = a@.map_values(|p: (u64, String)| (p.0 as int, p.1@));
                proof {
                    assert(self.layers@[l as int]@[i as int].1@.val == ValView::Indexed(s));
                }
                let mut j: usize = 0;
                while j < a.len()
                    invariant
                        j <= a@.len(),
                        s == a@.map_values(|p: (u64, String)| (p.0 as int, p.1@)),
                        lookup(lv, name@) matches Some(v2) && v2.val == ValView::Indexed(s),
                        lv == self.layers_view(),
                        forall|m: int| 0 <= m < j ==> (#[trigger] s[m]).0 != index as int,
                    decreases a@.len() - j,
                {
                    proof {
                        assert(s[j as int] == (a@[j as int].0 as int, a@[j as int].1@));
                    }
                    if a[j].0 == index {
                        proof {
                            assert(s[j as int].0 == index as int);
                            lemma_idx_get_at(s, j as int);
                            assert(idx_get(s, index as int) == Some(a@[j as int].1@));
                        }
                        let x = a[j].1.clone();
                        proof {
                            assert(x@ == a@[j as int].1@);
                            assert(idx_get(s, index as int) == Some(x@));
                        }
                        return Some(x);
                    }
                    j = j + 1;
                }
                proof {
                    lemma_idx_get_none(s, index as int);
                }
                None
            },
            _ => None,
        }
    }
}

/// The rendering of one indexed-array entry list: `[i]="v"` for each entry,
/// space-separated.
pub open spec fn render_idx(es: Seq<(int, Seq<char>)>) -> Seq<char>
    decreases es.len(),
{
    if es.len() == 0 {
        Seq::empty()
    } else {
        seq!['['] + crate::text::dec_chars(es[0].0) + seq![']', '=', '"'] + es[0].1 + seq!['"'] + (
        if es.len() > 1 {
            seq![' ']
        } else {
            Seq::empty()
        }) + render_idx(es.skip(1))
    }
}

/// The rendering of one associative-array entry list: `[key]="v"` for each
/// entry, space-separated, in insertion order.
pub open spec fn render_assoc(es: Seq<(Seq<char>, Seq<char>)>) -> Seq<char>
    decreases es.len(),
{
    if es.len() == 0 {
        Seq::empty()
    } else {
        seq!['['] + es[0].0 + seq![']', '=', '"'] + es[0].1 + seq!['"'] + (
        if es.len() > 1 {
            seq![' ']
        } else {
            Seq::empty()
        }) + render_assoc(es.skip(1))
    }
}

/// The rendering of one binding, as the bare `declare` enumerates it:
/// `name=value` for a scalar, `name=(entries)` for an array.
pub open spec fn render_var(name: Seq<char>, v: VarView) -> Seq<char> {
    match v.val {
        ValView::Scalar(s) => name + seq!['='] + s,
        ValView::Indexed(es) => name + seq!['=', '('] + render_idx(es) + seq![')'],
        ValView::Assoc(es) => name + seq!['=', '('] + render_assoc(es) + seq![')'],
    }
}

impl DataBase {
    /// Renders the visible binding of `name`, if any.
    pub fn print(&self, name: &str) -> (r: Option<String>)
        ensures
            match lookup(self.layers_view(), name@) {
                Some(v) => r matches Some(x) && x@ == render_var(name@, v),
                None => r is None,
            },
    {
        let ghost lv = self.layers_view();
        proof {
            lemma_layer_of_lookup(lv, name@);
        }
        let l = match self.visible_layer(name) {
            Some(l) => l,
            None => {
                return None;
            },
        };
        let i = match frame_find(&self.layers[l], name) {
            Some(i) => i,
            None => {
                proof {
                    lemma_frame_get_none(lv[l as int], name@);
                }
                return None;
            },
        };
        proof {
            lemma_frame_get_at(lv[l as int], i as int);
            assert(lv[l as int][i as int] == (
                self.layers@[l as int]@[i as int].0@,
                self.layers@[l as int]@[i as int].1@,
            ));
        }
        Some(render_entry(name, &self.layers[l][i].1))
    }
}

/// Renders one binding.
fn render_entry(name: &str, var: &Variable) -> (r: String)
    ensures
        r@ == render_var(name@, var@),
{
    let mut out = name.to_owned();
    crate::text::push_char(&mut out, '=');
    match &var.value {
        VarValue::Scalar(s) => {
            out.append(s.as_str());
            proof {
                assert(out@ =~= render_var(name@, var@));
            }
        },
        VarValue::IndexedArray(a) => {
            let ghost es = a@.map_values(|p: (u64, String)| (p.0 as int, p.1@));
            proof {
                assert(var@.val == ValView::Indexed(es));
            }
            crate::text::push_char(&mut out, '(');
            let ghost head = out@;
            let mut k: usize = 0;
            proof {
                assert(es.skip(0) =~= es);
            }
            while k < a.len()
                invariant
                    k <= a@.len(),
                    es == a@.map_values(|p: (u64, String)| (p.0 as int, p.1@)),
                    head + render_idx(es) == out@ + render_idx(es.skip(k as int)),
                decreases a@.len() - k,
            {
                proof {
                    assert(es[k as int] == (a@[k as int].0 as int, a@[k as int].1@));
                    assert(es.skip(k as int)[0] == es[k as int]);
                    assert(es.skip(k as int).skip(1) =~= es.skip(k + 1));
                }
                crate::text::push_char(&mut out, '[');
                let ds = crate::text::dec_string(a[k].0 as i128);
                out.append(ds.as_str());
                crate::text::push_char(&mut out, ']');
                crate::text::push_char(&mut out, '=');
                crate::text::push_char(&mut out, '"');
                out.append(a[k].1.as_str());
                crate::text::push_char(&mut out, '"');
                if k + 1 < a.len() {
                    crate::text::push_char(&mut out, ' ');
                }
                k = k + 1;
                proof {
                    assert(head + render_idx(es) =~= out@ + render_idx(es.skip(k as int)));
                }
            }
            proof {
                assert(render_idx(es.skip(a@.len() as int)) =~= Seq::<char>::empty());
                assert(head + render_idx(es) =~= out@);
            }
            crate::text::push_char(&mut out, ')');
            proof {
                assert(out@ =~= render_var(name@, var@));
            }
        },
        VarValue::AssocArray(a) => {
            let ghost es = a@.map_values(|p: (String, String)| (p.0@, p.1@));
            proof {
                assert(var@.val == ValView::Assoc(es));
            }
            crate::text::push_char(&mut out, '(');
            let ghost head = out@;
            let mut k: usize = 0;
            proof {
                assert(es.skip(0) =~= es);
            }
            while k < a.len()
                invariant
                    k <= a@.len(),
                    es == a@.map_values(|p: (String, String)| (p.0@, p.1@)),
                    head + render_assoc(es) == out@ + render_assoc(es.skip(k as int)),
                decreases a@.len() - k,
            {
                proof {
                    assert(es[k as int] == (a@[k as int].0@, a@[k as int].1@));
                    assert(es.skip(k as int)[0] == es[k as int]);
                    assert(es.skip(k as int).skip(1) =~= es.skip(k + 1));
                }
                crate::text::push_char(&mut out, '[');
                out.append(a[k].0.as_str());
                crate::text::push_char(&mut out, ']');
                crate::text::push_char(&mut out, '=');
                crate::text::push_char(&mut out, '"');
                out.append(a[k].1.as_str());
                crate::text::push_char(&mut out, '"');
                if k + 1 < a.len() {
                    crate::text::push_char(&mut out, ' ');
                }
                k = k + 1;
                proof {
                    assert(head + render_assoc(es) =~= out@ + render_assoc(es.skip(k as int)));
                }
            }
            proof {
                assert(render_assoc(es.skip(a@.len() as int)) =~= Seq::<char>::empty());
                assert(head + render_assoc(es) =~= out@);
            }
            crate::text::push_char(&mut out, ')');
            proof {
                assert(out@ =~= render_var(name@, var@));
            }
        },
    }
    out
}

/// A copy of an indexed array's entries (indices and string contents equal).
fn copy_index_entries(a: &Vec<(u64, String)>) -> (r: Vec<(u64, String)>)
    ensures
        r@.len() == a@.len(),
        forall|j: int|
            0 <= j < a@.len() ==> (#[trigger] r@[j]).0 == a@[j].0 && r@[j].1@ == a@[j].1@,
{
    let mut r: Vec<(u64, String)> = Vec::new();
    let mut j: usize = 0;
    while j < a.len()
        invariant
            j <= a@.len(),
            r@.len() == j,
            forall|m: int|
                0 <= m < j ==> (#[trigger] r@[m]).0 == a@[m].0 && r@[m].1@ == a@[m].1@,
        decreases a@.len() - j,
    {
        r.push((a[j].0, a[j].1.clone()));
        j = j + 1;
    }
    r
}

/// Writing one element keeps an indexed entry list sorted with non-negative
/// indices.
proof fn lemma_idx_set_sorted_frame(s: Seq<(int, Seq<char>)>, k: int, val: Seq<char>)
    requires
        indexed_wf(s),
        forall|m: int| 0 <= m < s.len() ==> (#[trigger] s[m]).0 >= 0,
        k >= 0,
    ensures
        indexed_wf(idx_set(s, k, val)),
        forall|m: int|
            0 <= m < idx_set(s, k, val).len() ==> (#[trigger] idx_set(s, k, val)[m]).0 >= 0,
    decreases s.len(),
{
    let g = idx_set(s, k, val);
    if s.len() == 0 {
    } else if s[0].0 == k {
        assert(g == seq![(k, val)] + s.skip(1));
        assert(g =~= s.update(0, (k, val)));
    } else if k < s[0].0 {
        assert(g == seq![(k, val)] + s);
        assert(forall|m: int| 1 <= m < g.len() ==> g[m] == s[m - 1]);
    } else {
        lemma_idx_set_sorted_frame(s.skip(1), k, val);
        assert(g == seq![s[0]] + idx_set(s.skip(1), k, val));
        let g1 = idx_set(s.skip(1), k, val);
        assert(forall|m: int| 1 <= m < g.len() ==> g[m] == g1[m - 1]);
        lemma_idx_set_min(s.skip(1), k, val, s[0].0);
    }
}

/// Every index `idx_set` leaves in the list is the written one or one the
/// list already had, so a strict lower bound on both stays a lower bound.
proof fn lemma_idx_set_min(s: Seq<(int, Seq<char>)>, k: int, val: Seq<char>, b: int)
    requires
        b < k,
        forall|m: int| 0 <= m < s.len() ==> b < (#[trigger] s[m]).0,
    ensures
        forall|m: int| 0 <= m < idx_set(s, k, val).len() ==> b < (#[trigger] idx_set(s, k, val)[m]).0,
    decreases s.len(),
{
    let g = idx_set(s, k, val);
    if s.len() == 0 {
    } else if s[0].0 == k {
        assert(forall|m: int| 1 <= m < g.len() ==> g[m] == s.skip(1)[m - 1] && g[m] == s[m]);
    } else if k < s[0].0 {
        assert(forall|m: int| 1 <= m < g.len() ==> g[m] == s[m - 1]);
    } else {
        lemma_idx_set_min(s.skip(1), k, val, b);
        let g1 = idx_set(s.skip(1), k, val);
        assert(forall|m: int| 1 <= m < g.len() ==> g[m] == g1[m - 1]);
    }
}

} // verus!

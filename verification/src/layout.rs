//! Layered keymap engine.
//!
//! The engine consumes confirmed press/release events addressed by matrix
//! coordinate, resolves each press through the active-layer stack down to
//! the base layer, and fixes the resolved action for the whole duration of
//! the hold, so a release is never re-resolved against layers that changed
//! meanwhile. It exposes the held keycodes every tick, and surfaces one
//! queued custom action per tick.

use vstd::prelude::*;
use crate::types::{Action, KeyEvent};

verus! {

/// One held switch together with the action fixed for it at press time.
#[derive(Clone, Copy, Debug, PartialEq, Eq, Structural)]
pub struct PressEntry {
    pub row: usize,
    pub col: usize,
    pub action: Action,
}

/// Mathematical state of the layout engine: the momentary layer stack
/// (top last), the held switches with their press-time actions in press
/// order, and the pending custom action, if any.
pub struct LayoutModel {
    pub stack: Seq<usize>,
    pub pressed: Seq<PressEntry>,
    pub queued: Option<u8>,
}

/// Well-formedness of a layer table with the given dimensions: at least a
/// base layer, every layer a full rows-by-cols grid, no Transparent cell
/// in the base layer (so resolution always terminates in an action), and
/// every layer-shift target in range.
pub open spec fn layers_wf(layers: Seq<Seq<Seq<Action>>>, rows: int, cols: int) -> bool {
    &&& layers.len() >= 1
    &&& rows >= 1
    &&& cols >= 1
    &&& forall|l: int| 0 <= l < layers.len() ==> (#[trigger] layers[l]).len() == rows
    &&& forall|l: int, r: int|
        0 <= l < layers.len() && 0 <= r < rows ==> (#[trigger] layers[l][r]).len() == cols
    &&& forall|r: int, c: int|
        0 <= r < rows && 0 <= c < cols ==> (#[trigger] layers[0][r][c]) != Action::Transparent
    &&& forall|l: int, r: int, c: int|
        0 <= l < layers.len() && 0 <= r < rows && 0 <= c < cols
            ==> ((#[trigger] layers[l][r][c]) matches Action::LayerShift(n) ==> n < layers.len())
}

/// A layer table that is well formed for its own dimensions.
pub open spec fn layers_ok(layers: Seq<Seq<Seq<Action>>>) -> bool {
    &&& layers.len() >= 1
    &&& layers[0].len() >= 1
    &&& layers[0][0].len() >= 1
    &&& layers_wf(layers, layers[0].len() as int, layers[0][0].len() as int)
}

/// The layer table of an exec triple-nested vector, as sequences.
pub open spec fn layers_of(v: Seq<Vec<Vec<Action>>>) -> Seq<Seq<Seq<Action>>> {
    Seq::new(v.len(), |l: int| crate::debounce::grid_view(v[l]@))
}

/// The action a coordinate resolves to: the first non-Transparent cell at
/// that coordinate, walking the active stack from its top, then the base
/// layer. A pure function of the stack, the coordinate and the tables.
pub open spec fn spec_resolve(
    layers: Seq<Seq<Seq<Action>>>,
    stack: Seq<usize>,
    r: int,
    c: int,
) -> Action
    decreases stack.len(),
{
    if stack.len() == 0 {
        layers[0][r][c]
    } else {
        let a = layers[stack.last() as int][r][c];
        if a == Action::Transparent {
            spec_resolve(layers, stack.drop_last(), r, c)
        } else {
            a
        }
    }
}

/// Some entry of `ps` sits at coordinate (r, c).
pub open spec fn pressed_contains(ps: Seq<PressEntry>, r: usize, c: usize) -> bool {
    exists|i: int| 0 <= i < ps.len() && (#[trigger] ps[i]).row == r && ps[i].col == c
}

/// The index of the entry at coordinate (r, c); meaningful when the
/// coordinates of `ps` are unique and `pressed_contains` holds.
pub open spec fn pressed_index(ps: Seq<PressEntry>, r: usize, c: usize) -> int {
    choose|i: int| 0 <= i < ps.len() && (#[trigger] ps[i]).row == r && ps[i].col == c
}

/// No two entries share a coordinate.
pub open spec fn pressed_unique(ps: Seq<PressEntry>) -> bool {
    forall|i: int, j: int|
        #![trigger ps[i], ps[j]]
        0 <= i < j < ps.len() ==> !(ps[i].row == ps[j].row && ps[i].col == ps[j].col)
}

/// `s` with its last occurrence of `n` removed; `s` itself when `n` does
/// not occur. Releasing a layer-shift key pops the exact layer instance
/// its press pushed, which is the most recent live occurrence.
pub open spec fn remove_last_occurrence(s: Seq<usize>, n: usize) -> Seq<usize>
    decreases s.len(),
{
    if s.len() == 0 {
        s
    } else if s.last() == n {
        s.drop_last()
    } else {
        remove_last_occurrence(s.drop_last(), n).push(s.last())
    }
}

/// Structural invariant of an engine state against a layer table.
pub open spec fn model_wf(layers: Seq<Seq<Seq<Action>>>, m: LayoutModel) -> bool {
    &&& forall|i: int| 0 <= i < m.stack.len() ==> (#[trigger] m.stack[i]) < layers.len()
    &&& pressed_unique(m.pressed)
}

/// One transition of the engine state.
///
/// A press of a fresh coordinate resolves it against the current stack,
/// records the entry, and additionally pushes the layer when the action is
/// a layer shift; a press of a coordinate already held changes nothing.
/// A release looks the press-time action up: it removes the entry, pops
/// the matching layer instance for a layer shift, and queues the payload
/// of a custom action when no custom action is already pending; a release
/// of a coordinate not held changes nothing.
pub open spec fn spec_event(
    layers: Seq<Seq<Seq<Action>>>,
    m: LayoutModel,
    e: KeyEvent,
) -> LayoutModel {
    match e {
        KeyEvent::Press(r, c) => {
            if pressed_contains(m.pressed, r, c) {
                m
            } else {
                let a = spec_resolve(layers, m.stack, r as int, c as int);
                let stack1 = match a {
                    Action::LayerShift(n) => m.stack.push(n),
                    _ => m.stack,
                };
                LayoutModel {
                    stack: stack1,
                    pressed: m.pressed.push(PressEntry { row: r, col: c, action: a }),
                    queued: m.queued,
                }
            }
        },
        KeyEvent::Release(r, c) => {
            if !pressed_contains(m.pressed, r, c) {
                m
            } else {
                let i = pressed_index(m.pressed, r, c);
                let a = m.pressed[i].action;
                let stack1 = match a {
                    Action::LayerShift(n) => remove_last_occurrence(m.stack, n),
                    _ => m.stack,
                };
                let queued1 = match a {
                    Action::Custom(p) => if m.queued is None {
                        Some(p)
                    } else {
                        m.queued
                    },
                    _ => m.queued,
                };
                LayoutModel { stack: stack1, pressed: m.pressed.remove(i), queued: queued1 }
            }
        },
    }
}

/// The engine state after folding a whole sequence of events, in order.
pub open spec fn apply_events(
    layers: Seq<Seq<Seq<Action>>>,
    m: LayoutModel,
    evs: Seq<KeyEvent>,
) -> LayoutModel
    decreases evs.len(),
{
    if evs.len() == 0 {
        m
    } else {
        apply_events(layers, spec_event(layers, m, evs.first()), evs.drop_first())
    }
}

/// The keycodes of the held entries, in press order.
pub open spec fn held_keycodes(ps: Seq<PressEntry>) -> Seq<u8>
    decreases ps.len(),
{
    if ps.len() == 0 {
        Seq::empty()
    } else {
        let head = held_keycodes(ps.drop_last());
        match ps.last().action {
            Action::Keycode(k) => head.push(k),
            _ => head,
        }
    }
}

proof fn lemma_remove_last_in_range(s: Seq<usize>, n: usize, bound: int)
    requires
        forall|i: int| 0 <= i < s.len() ==> (#[trigger] s[i]) < bound,
    ensures
        forall|i: int|
            0 <= i < remove_last_occurrence(s, n).len()
                ==> (#[trigger] remove_last_occurrence(s, n)[i]) < bound,
    decreases s.len(),
{
    if s.len() == 0 {
    } else if s.last() == n {
        assert forall|i: int|
            0 <= i < remove_last_occurrence(s, n).len()
                implies (#[trigger] remove_last_occurrence(s, n)[i]) < bound by {
            assert(remove_last_occurrence(s, n) == s.drop_last());
            assert(s[i] < bound);
        }
    } else {
        assert forall|i: int|
            0 <= i < s.drop_last().len() implies (#[trigger] s.drop_last()[i]) < bound by {
            assert(s[i] < bound);
        }
        lemma_remove_last_in_range(s.drop_last(), n, bound);
        let rec = remove_last_occurrence(s.drop_last(), n);
        assert forall|i: int|
            0 <= i < remove_last_occurrence(s, n).len()
                implies (#[trigger] remove_last_occurrence(s, n)[i]) < bound by {
            assert(remove_last_occurrence(s, n) == rec.push(s.last()));
            if i < rec.len() {
                assert(rec[i] < bound);
            } else {
                assert(s[s.len() - 1] < bound);
            }
        }
    }
}

/// Static layered keymap: an ordered sequence of rows-by-cols action
/// grids, layer 0 the base.
pub struct Keymap {
    layers: Vec<Vec<Vec<Action>>>,
    rows: usize,
    cols: usize,
}

impl Keymap {
    /// Matrix height of every layer.
    pub closed spec fn spec_rows(self) -> int {
        self.rows as int
    }

    /// Matrix width of every layer.
    pub closed spec fn spec_cols(self) -> int {
        self.cols as int
    }

    /// The layer table as sequences.
    pub closed spec fn layers_view(self) -> Seq<Seq<Seq<Action>>> {
        layers_of(self.layers@)
    }

    /// The table is well formed for the stored dimensions.
    pub open spec fn wf(self) -> bool {
        &&& layers_wf(self.layers_view(), self.spec_rows(), self.spec_cols())
        &&& self.layers_view()[0].len() == self.spec_rows()
        &&& self.layers_view()[0][0].len() == self.spec_cols()
    }

    /// Matrix height of every layer.
    pub fn rows(&self) -> (r: usize)
        ensures
            r == self.spec_rows(),
    {
        self.rows
    }

    /// Matrix width of every layer.
    pub fn cols(&self) -> (c: usize)
        ensures
            c == self.spec_cols(),
    {
        self.cols
    }

    /// Validate a layer table and take ownership of it. Returns the keymap
    /// exactly when the table is well formed: nonempty grids, uniform
    /// dimensions, a total base layer, and in-range layer-shift targets.
    pub fn new(layers: Vec<Vec<Vec<Action>>>) -> (res: Option<Keymap>)
        ensures
            res is Some <==> layers_ok(layers_of(layers@)),
            res matches Some(km) ==> km.wf() && km.layers_view() == layers_of(layers@)
                && km.spec_rows() == layers_of(layers@)[0].len()
                && km.spec_cols() == layers_of(layers@)[0][0].len(),
    {
        let ghost lv = layers_of(layers@);
        let nlayers = layers.len();
        if nlayers == 0 {
            return None;
        }
        let rows = layers[0].len();
        if rows == 0 {
            return None;
        }
        let cols = layers[0][0].len();
        if cols == 0 {
            return None;
        }
        let mut l: usize = 0;
        while l < nlayers
            invariant
                nlayers == layers@.len(),
                lv == layers_of(layers@),
                lv.len() == nlayers,
                l <= nlayers,
                rows >= 1,
                cols >= 1,
                rows == lv[0].len(),
                cols == lv[0][0].len(),
                forall|a: int| 0 <= a < l ==> (#[trigger] lv[a]).len() == rows,
                forall|a: int, r: int|
                    0 <= a < l && 0 <= r < rows ==> (#[trigger] lv[a][r]).len() == cols,
                forall|r: int, c: int|
                    0 <= r < rows && 0 <= c < cols && l > 0
                        ==> (#[trigger] lv[0][r][c]) != Action::Transparent,
                forall|a: int, r: int, c: int|
                    0 <= a < l && 0 <= r < rows && 0 <= c < cols
                        ==> ((#[trigger] lv[a][r][c]) matches Action::LayerShift(n)
                            ==> n < nlayers),
            decreases nlayers - l,
        {
            if layers[l].len() != rows {
                proof {
                    assert(lv[l as int].len() != rows);
                    if layers_ok(lv) {
                        assert(lv[l as int].len() == rows);
                    }
                }
                return None;
            }
            let mut r: usize = 0;
            while r < rows
                invariant
                    nlayers == layers@.len(),
                    lv == layers_of(layers@),
                    lv.len() == nlayers,
                    l < nlayers,
                    r <= rows,
                    rows >= 1,
                    cols >= 1,
                    rows == lv[0].len(),
                    cols == lv[0][0].len(),
                    lv[l as int].len() == rows,
                    forall|rr: int|
                        0 <= rr < r ==> (#[trigger] lv[l as int][rr]).len() == cols,
                    forall|rr: int, c: int|
                        0 <= rr < r && 0 <= c < cols && l == 0
                            ==> (#[trigger] lv[0][rr][c]) != Action::Transparent,
                    forall|rr: int, c: int|
                        0 <= rr < r && 0 <= c < cols
                            ==> ((#[trigger] lv[l as int][rr][c]) matches Action::LayerShift(n)
                                ==> n < nlayers),
                decreases rows - r,
            {
                if layers[l][r].len() != cols {
                    proof {
                        assert(lv[l as int][r as int].len() != cols);
                        if layers_ok(lv) {
                            assert(lv[l as int][r as int].len() == cols);
                        }
                    }
                    return None;
                }
                let mut c: usize = 0;
                while c < cols
                    invariant
                        nlayers == layers@.len(),
                        lv == layers_of(layers@),
                        lv.len() == nlayers,
                        l < nlayers,
                        r < rows,
                        c <= cols,
                        rows == lv[0].len(),
                        cols == lv[0][0].len(),
                        lv[l as int].len() == rows,
                        lv[l as int][r as int].len() == cols,
                        forall|cc: int|
                            0 <= cc < c && l == 0
                                ==> (#[trigger] lv[0][r as int][cc]) != Action::Transparent,
                        forall|cc: int|
                            0 <= cc < c
                                ==> ((#[trigger] lv[l as int][r as int][cc]) matches
                                    Action::LayerShift(n) ==> n < nlayers),
                    decreases cols - c,
                {
                    let a = layers[l][r][c];
                    proof {
                        assert(lv[l as int][r as int][c as int] == a);
                    }
                    if l == 0 && a == Action::Transparent {
                        proof {
                            if layers_ok(lv) {
                                assert(lv[0][r as int][c as int] != Action::Transparent);
                            }
                        }
                        return None;
                    }
                    if let Action::LayerShift(n) = a {
                        if n >= nlayers {
                            proof {
                                if layers_ok(lv) {
                                    assert(lv[l as int][r as int][c as int] matches
                                        Action::LayerShift(nn) ==> nn < lv.len());
                                }
                            }
                            return None;
                        }
                    }
                    c += 1;
                }
                r += 1;
            }
            l += 1;
        }
        let km = Keymap { layers, rows, cols };
        proof {
            assert(km.layers_view() == lv);
            assert(layers_wf(lv, rows as int, cols as int));
        }
        Some(km)
    }
}

/// Runtime state of the layout engine: the keymap, the momentary layer
/// stack, the held switches with their press-time actions, and the pending
/// custom action.
pub struct LayoutEngine {
    keymap: Keymap,
    stack: Vec<usize>,
    pressed: Vec<PressEntry>,
    queued: Option<u8>,
}

impl View for LayoutEngine {
    type V = LayoutModel;

    closed spec fn view(&self) -> LayoutModel {
        LayoutModel { stack: self.stack@, pressed: self.pressed@, queued: self.queued }
    }
}

impl LayoutEngine {
    /// The keymap this engine resolves against; never changes.
    pub closed spec fn spec_keymap(self) -> Keymap {
        self.keymap
    }

    /// Structural invariant: well-formed keymap, in-range stack entries,
    /// unique held coordinates.
    pub open spec fn wf(self) -> bool {
        &&& self.spec_keymap().wf()
        &&& model_wf(self.spec_keymap().layers_view(), self@)
    }

    /// Fresh engine over the given keymap: base layer only, nothing held,
    /// nothing queued.
    pub fn new(keymap: Keymap) -> (e: LayoutEngine)
        requires
            keymap.wf(),
        ensures
            e.wf(),
            e.spec_keymap() == keymap,
            e@.stack == Seq::<usize>::empty(),
            e@.pressed == Seq::<PressEntry>::empty(),
            e@.queued is None,
    {
        let e = LayoutEngine { keymap, stack: Vec::new(), pressed: Vec::new(), queued: None };
        proof {
            assert(e@.stack =~= Seq::<usize>::empty());
            assert(e@.pressed =~= Seq::<PressEntry>::empty());
        }
        e
    }

    /// The index of the held entry at (r, c), if any.
    fn find_pressed(&self, r: usize, c: usize) -> (res: Option<usize>)
        requires
            self.wf(),
        ensures
            res is Some <==> pressed_contains(self@.pressed, r, c),
            res matches Some(i) ==> 0 <= i < self@.pressed.len()
                && i as int == pressed_index(self@.pressed, r, c)
                && self@.pressed[i as int].row == r && self@.pressed[i as int].col == c,
    {
        let mut i: usize = 0;
        let n = self.pressed.len();
        while i < n
            invariant
                self.wf(),
                n == self@.pressed.len(),
                i <= n,
                forall|a: int|
                    0 <= a < i ==> !((#[trigger] self@.pressed[a]).row == r
                        && self@.pressed[a].col == c),
            decreases n - i,
        {
            let e = self.pressed[i];
            if e.row == r && e.col == c {
                proof {
                    assert(pressed_contains(self@.pressed, r, c));
                    let j = pressed_index(self@.pressed, r, c);
                    assert(0 <= j < self@.pressed.len() && self@.pressed[j].row == r
                        && self@.pressed[j].col == c);
                    if j != i as int {
                        let lo = if j < i as int { j } else { i as int };
                        let hi = if j < i as int { i as int } else { j };
                        assert(!(self@.pressed[lo].row == self@.pressed[hi].row
                            && self@.pressed[lo].col == self@.pressed[hi].col));
                    }
                }
                return Some(i);
            }
            i += 1;
        }
        proof {
            if pressed_contains(self@.pressed, r, c) {
                let j = pressed_index(self@.pressed, r, c);
                assert(0 <= j < self@.pressed.len() && self@.pressed[j].row == r
                    && self@.pressed[j].col == c);
            }
        }
        None
    }

    /// Resolve a coordinate through the active stack, then the base layer.
    /// The result is `spec_resolve`, a pure function of the stack, the
    /// coordinate and the static tables, so repeated calls agree; with a
    /// well-formed keymap it is never Transparent.
    pub fn resolve(&self, row: usize, col: usize) -> (a: Action)
        requires
            self.wf(),
            row < self.spec_keymap().spec_rows(),
            col < self.spec_keymap().spec_cols(),
        ensures
            a == spec_resolve(
                self.spec_keymap().layers_view(),
                self@.stack,
                row as int,
                col as int,
            ),
            a != Action::Transparent,
            a matches Action::LayerShift(n) ==> n < self.spec_keymap().layers_view().len(),
    {
        let ghost layers = self.spec_keymap().layers_view();
        let mut i: usize = self.stack.len();
        proof {
            assert(self@.stack.subrange(0, i as int) =~= self@.stack);
        }
        while i > 0
            invariant
                self.wf(),
                i <= self@.stack.len(),
                row < self.spec_keymap().spec_rows(),
                col < self.spec_keymap().spec_cols(),
                layers == self.spec_keymap().layers_view(),
                spec_resolve(layers, self@.stack.subrange(0, i as int), row as int, col as int)
                    == spec_resolve(layers, self@.stack, row as int, col as int),
            decreases i,
        {
            let l = self.stack[i - 1];
            let a = self.keymap.layers[l][row][col];
            proof {
                let pre = self@.stack.subrange(0, i as int);
                assert(pre.last() == self@.stack[i - 1]);
                assert(pre.drop_last() =~= self@.stack.subrange(0, i as int - 1));
                assert(layers[l as int][row as int][col as int] == a);
            }
            if let Action::Transparent = a {
            } else {
                return a;
            }
            i -= 1;
        }
        let a = self.keymap.layers[0][row][col];
        proof {
            assert(self@.stack.subrange(0, 0) =~= Seq::<usize>::empty());
            assert(layers[0][row as int][col as int] == a);
        }
        a
    }

    /// Feed one confirmed event into the engine; the state advances by
    /// exactly `spec_event`.
    pub fn event(&mut self, e: KeyEvent)
        requires
            old(self).wf(),
            e.row() < old(self).spec_keymap().spec_rows(),
            e.col() < old(self).spec_keymap().spec_cols(),
        ensures
            final(self).wf(),
            final(self).spec_keymap() == old(self).spec_keymap(),
            final(self)@ == spec_event(old(self).spec_keymap().layers_view(), old(self)@, e),
    {
        let ghost layers = self.spec_keymap().layers_view();
        let ghost m0 = self@;
        match e {
            KeyEvent::Press(r, c) => {
                if let Some(_i) = self.find_pressed(r, c) {
                    return;
                }
                let a = self.resolve(r, c);
                if let Action::LayerShift(n) = a {
                    self.stack.push(n);
                }
                self.pressed.push(PressEntry { row: r, col: c, action: a });
                proof {
                    assert forall|i: int|
                        0 <= i < self@.stack.len() implies (#[trigger] self@.stack[i])
                            < layers.len() by {
                        if i < m0.stack.len() {
                            assert(m0.stack[i] < layers.len());
                        }
                    }
                    assert(self@.pressed == m0.pressed.push(
                        PressEntry { row: r, col: c, action: a },
                    ));
                    assert forall|i: int, j: int|
                        #![trigger self@.pressed[i], self@.pressed[j]]
                        0 <= i < j < self@.pressed.len() implies
                        !(self@.pressed[i].row == self@.pressed[j].row
                            && self@.pressed[i].col == self@.pressed[j].col) by {
                        if j < self@.pressed.len() - 1 {
                            assert(self@.pressed[i] == m0.pressed[i]);
                            assert(self@.pressed[j] == m0.pressed[j]);
                        } else {
                            assert(self@.pressed[i] == m0.pressed[i]);
                            assert(!(m0.pressed[i].row == r && m0.pressed[i].col == c));
                        }
                    }
                }
            },
            KeyEvent::Release(r, c) => {
                let found = self.find_pressed(r, c);
                if let Some(i) = found {
                    let entry = self.pressed[i];
                    self.pressed.remove(i);
                    match entry.action {
                        Action::LayerShift(n) => {
                            self.pop_layer(n);
                            proof {
                                lemma_remove_last_in_range(m0.stack, n, layers.len() as int);
                            }
                        },
                        Action::Custom(p) => {
                            if self.queued.is_none() {
                                self.queued = Some(p);
                            }
                        },
                        _ => {},
                    }
                    proof {
                        assert(self@.pressed == m0.pressed.remove(i as int));
                        assert forall|a: int, b: int|
                            #![trigger self@.pressed[a], self@.pressed[b]]
                            0 <= a < b < self@.pressed.len() implies
                            !(self@.pressed[a].row == self@.pressed[b].row
                                && self@.pressed[a].col == self@.pressed[b].col) by {
                            let a0 = if a < i as int { a } else { a + 1 };
                            let b0 = if b < i as int { b } else { b + 1 };
                            assert(self@.pressed[a] == m0.pressed[a0]);
                            assert(self@.pressed[b] == m0.pressed[b0]);
                            assert(!(m0.pressed[a0].row == m0.pressed[b0].row
                                && m0.pressed[a0].col == m0.pressed[b0].col));
                        }
                    }
                }
            },
        }
    }

    /// Remove the most recent occurrence of layer `n` from the stack;
    /// leave the stack alone when `n` is not on it.
    fn pop_layer(&mut self, n: usize)
        ensures
            final(self).spec_keymap() == old(self).spec_keymap(),
            final(self)@.pressed == old(self)@.pressed,
            final(self)@.queued == old(self)@.queued,
            final(self)@.stack == remove_last_occurrence(old(self)@.stack, n),
    {
        let ghost s0 = self@.stack;
        let ghost km0 = self.keymap;
        let ghost p0 = self@.pressed;
        let ghost q0 = self@.queued;
        let len = self.stack.len();
        let mut i: usize = len;
        proof {
            assert(s0.subrange(0, len as int) =~= s0);
            assert(s0.subrange(len as int, len as int) =~= Seq::<usize>::empty());
            assert(remove_last_occurrence(s0, n) + s0.subrange(len as int, len as int)
                =~= remove_last_occurrence(s0, n));
        }
        while i > 0
            invariant
                i <= len,
                len == self@.stack.len(),
                self@.stack == s0,
                s0 == old(self)@.stack,
                self.keymap == old(self).keymap,
                self@.pressed == old(self)@.pressed,
                self@.queued == old(self)@.queued,
                forall|j: int| i <= j < len ==> (#[trigger] s0[j]) != n,
                remove_last_occurrence(s0, n) == remove_last_occurrence(
                    s0.subrange(0, i as int),
                    n,
                ) + s0.subrange(i as int, len as int),
            decreases i,
        {
            proof {
                let pre = s0.subrange(0, i as int);
                assert(pre.last() == s0[i - 1]);
                assert(pre.drop_last() =~= s0.subrange(0, i as int - 1));
            }
            if self.stack[i - 1] == n {
                self.stack.remove(i - 1);
                proof {
                    assert(self@.stack =~= s0.subrange(0, i as int - 1)
                        + s0.subrange(i as int, len as int));
                    assert(self@.stack == remove_last_occurrence(s0, n));
                }
                return;
            }
            proof {
                assert(remove_last_occurrence(s0.subrange(0, i as int), n)
                    == remove_last_occurrence(s0.subrange(0, i as int - 1), n).push(s0[i - 1]));
                assert(remove_last_occurrence(s0.subrange(0, i as int - 1), n).push(s0[i - 1])
                    + s0.subrange(i as int, len as int)
                    =~= remove_last_occurrence(s0.subrange(0, i as int - 1), n)
                        + s0.subrange(i as int - 1, len as int));
            }
            i -= 1;
        }
        proof {
            assert(s0.subrange(0, 0) =~= Seq::<usize>::empty());
            assert(s0.subrange(0, len as int) =~= s0);
            assert(Seq::<usize>::empty() + s0 =~= s0);
            assert(remove_last_occurrence(s0, n) == s0);
        }
    }

    /// Surface the queued custom action, if any, and clear it; everything
    /// else is untouched.
    pub fn tick(&mut self) -> (ev: Option<u8>)
        requires
            old(self).wf(),
        ensures
            final(self).wf(),
            final(self).spec_keymap() == old(self).spec_keymap(),
            ev == old(self)@.queued,
            final(self)@.queued is None,
            final(self)@.stack == old(self)@.stack,
            final(self)@.pressed == old(self)@.pressed,
    {
        let ev = self.queued;
        self.queued = None;
        proof {
            assert(self.keymap == old(self).keymap);
            assert(self@.stack == old(self)@.stack);
            assert(self@.pressed == old(self)@.pressed);
            assert(model_wf(self.spec_keymap().layers_view(), self@));
        }
        ev
    }

    /// The held keycodes, in press order.
    pub fn keycodes(&self) -> (ks: Vec<u8>)
        requires
            self.wf(),
        ensures
            ks@ == held_keycodes(self@.pressed),
    {
        let mut ks: Vec<u8> = Vec::new();
        let mut i: usize = 0;
        let n = self.pressed.len();
        while i < n
            invariant
                i <= n,
                n == self@.pressed.len(),
                ks@ == held_keycodes(self@.pressed.subrange(0, i as int)),
            decreases n - i,
        {
            let e = self.pressed[i];
            proof {
                let pre = self@.pressed.subrange(0, i as int + 1);
                assert(pre.drop_last() =~= self@.pressed.subrange(0, i as int));
                assert(pre.last() == self@.pressed[i as int]);
            }
            if let Action::Keycode(k) = e.action {
                ks.push(k);
            }
            i += 1;
        }
        proof {
            assert(self@.pressed.subrange(0, n as int) =~= self@.pressed);
        }
        ks
    }

    /// The momentary layer stack, bottom first.
    pub fn layer_stack(&self) -> (s: &Vec<usize>)
        ensures
            s@ == self@.stack,
    {
        &self.stack
    }
}

/// One operation on the layer stack, as `spec_event` performs them: a
/// layer-shift press pushes its target, the matching release removes the
/// most recent occurrence of that target.
pub enum StackOp {
    Push(usize),
    Pop(usize),
}

/// How often `n` occurs in `s`.
pub open spec fn count_in(s: Seq<usize>, n: usize) -> int
    decreases s.len(),
{
    if s.len() == 0 {
        0
    } else {
        count_in(s.drop_last(), n) + if s.last() == n { 1int } else { 0int }
    }
}

/// The stack after a sequence of push/pop operations, in order.
pub open spec fn apply_ops(stack: Seq<usize>, ops: Seq<StackOp>) -> Seq<usize>
    decreases ops.len(),
{
    if ops.len() == 0 {
        stack
    } else {
        let rest = ops.drop_first();
        match ops.first() {
            StackOp::Push(n) => apply_ops(stack.push(n), rest),
            StackOp::Pop(n) => apply_ops(remove_last_occurrence(stack, n), rest),
        }
    }
}

/// `ops` is an interleaving of matching push/pop pairs over the live
/// pushed layers `live`: every pop takes a layer that a still-unmatched
/// push put there, and at the end every push has been matched.
pub open spec fn drains(live: Seq<usize>, ops: Seq<StackOp>) -> bool
    decreases ops.len(),
{
    if ops.len() == 0 {
        live.len() == 0
    } else {
        let rest = ops.drop_first();
        match ops.first() {
            StackOp::Push(n) => drains(live.push(n), rest),
            StackOp::Pop(n) => count_in(live, n) >= 1 && drains(
                remove_last_occurrence(live, n),
                rest,
            ),
        }
    }
}

/// Removing the last occurrence of a value present in the second part of a
/// concatenation never touches the first part.
proof fn lemma_remove_last_concat(a: Seq<usize>, b: Seq<usize>, n: usize)
    requires
        count_in(b, n) >= 1,
    ensures
        remove_last_occurrence(a + b, n) == a + remove_last_occurrence(b, n),
    decreases b.len(),
{
    let s = a + b;
    assert(b.len() > 0);
    assert(s.last() == b.last());
    assert(s.drop_last() =~= a + b.drop_last());
    if b.last() == n {
        assert(remove_last_occurrence(s, n) == s.drop_last());
    } else {
        assert(count_in(b.drop_last(), n) >= 1);
        lemma_remove_last_concat(a, b.drop_last(), n);
        assert((a + remove_last_occurrence(b.drop_last(), n)).push(b.last())
            =~= a + remove_last_occurrence(b.drop_last(), n).push(b.last()));
    }
}

proof fn lemma_apply_ops_drains(base: Seq<usize>, live: Seq<usize>, ops: Seq<StackOp>)
    requires
        drains(live, ops),
    ensures
        apply_ops(base + live, ops) == base,
    decreases ops.len(),
{
    if ops.len() == 0 {
        assert(base + live =~= base);
    } else {
        let rest = ops.drop_first();
        match ops.first() {
            StackOp::Push(n) => {
                assert((base + live).push(n) =~= base + live.push(n));
                lemma_apply_ops_drains(base, live.push(n), rest);
            },
            StackOp::Pop(n) => {
                lemma_remove_last_concat(base, live, n);
                lemma_apply_ops_drains(base, remove_last_occurrence(live, n), rest);
            },
        }
    }
}

/// Law (layer-stack balance): for any interleaving of matching layer-shift
/// press/release pairs — nested and overlapping included — the layer stack
/// returns exactly to its configuration from before the first press, once
/// every push has been matched by its release. The engine performs exactly
/// these operations: `spec_event` pushes on a layer-shift press and
/// removes the most recent occurrence on the matching release.
pub proof fn lemma_layer_stack_balance(stack: Seq<usize>, ops: Seq<StackOp>)
    requires
        drains(Seq::<usize>::empty(), ops),
    ensures
        apply_ops(stack, ops) == stack,
{
    assert(stack + Seq::<usize>::empty() =~= stack);
    lemma_apply_ops_drains(stack, Seq::<usize>::empty(), ops);
}

/// Removing the entry at `i`, which carries `Keycode(k)`, removes exactly
/// the occurrence of `k` that this entry contributed to the held keycodes.
proof fn lemma_held_remove(ps: Seq<PressEntry>, i: int)
    requires
        0 <= i < ps.len(),
        ps[i].action matches Action::Keycode(_),
    ensures
        ({
            let p = held_keycodes(ps.subrange(0, i)).len() as int;
            &&& 0 <= p < held_keycodes(ps).len()
            &&& (ps[i].action matches Action::Keycode(k) ==> held_keycodes(ps)[p] == k)
            &&& held_keycodes(ps.remove(i)) == held_keycodes(ps).remove(p)
        }),
    decreases ps.len(),
{
    let p = held_keycodes(ps.subrange(0, i)).len() as int;
    if i == ps.len() - 1 {
        assert(ps.subrange(0, i) =~= ps.drop_last());
        assert(ps.remove(i) =~= ps.drop_last());
        let head = held_keycodes(ps.drop_last());
        assert(held_keycodes(ps).remove(p) =~= head);
    } else {
        let q = ps.drop_last();
        assert(ps.subrange(0, i) =~= q.subrange(0, i));
        lemma_held_remove(q, i);
        assert(ps.remove(i) =~= q.remove(i).push(ps.last()));
        let hq = held_keycodes(q);
        let hqr = held_keycodes(q.remove(i));
        assert(q.remove(i).push(ps.last()).drop_last() =~= q.remove(i));
        match ps.last().action {
            Action::Keycode(k2) => {
                assert(held_keycodes(ps) == hq.push(k2));
                assert(held_keycodes(ps.remove(i)) == hqr.push(k2));
                assert(held_keycodes(ps)[p] == hq[p]);
                assert(hq.push(k2).remove(p) =~= hq.remove(p).push(k2));
            },
            _ => {
                assert(held_keycodes(ps) == hq);
                assert(held_keycodes(ps.remove(i)) == hqr);
            },
        }
    }
}

/// Law (press/release symmetry): a press whose coordinate resolves to
/// `Keycode(k)` appends exactly `k` to the held keycodes; and in any later
/// state in which that coordinate is still held with its press-time
/// action — whatever has happened to the layer stack meanwhile — the
/// matching release removes exactly that `k` and nothing else. The entry
/// survives unrelated events untouched, since `spec_event` only ever
/// appends entries or removes the entry of its own coordinate.
pub proof fn lemma_press_release_symmetry(
    layers: Seq<Seq<Seq<Action>>>,
    m: LayoutModel,
    r: usize,
    c: usize,
    k: u8,
    m2: LayoutModel,
)
    requires
        !pressed_contains(m.pressed, r, c),
        spec_resolve(layers, m.stack, r as int, c as int) == Action::Keycode(k),
        pressed_unique(m2.pressed),
        pressed_contains(m2.pressed, r, c),
        m2.pressed[pressed_index(m2.pressed, r, c)].action == Action::Keycode(k),
    ensures
        held_keycodes(spec_event(layers, m, KeyEvent::Press(r, c)).pressed)
            == held_keycodes(m.pressed).push(k),
        ({
            let i = pressed_index(m2.pressed, r, c);
            let p = held_keycodes(m2.pressed.subrange(0, i)).len() as int;
            &&& held_keycodes(m2.pressed)[p] == k
            &&& held_keycodes(spec_event(layers, m2, KeyEvent::Release(r, c)).pressed)
                == held_keycodes(m2.pressed).remove(p)
        }),
{
    let entry = PressEntry { row: r, col: c, action: Action::Keycode(k) };
    let pressed1 = spec_event(layers, m, KeyEvent::Press(r, c)).pressed;
    assert(pressed1 == m.pressed.push(entry));
    assert(pressed1.drop_last() =~= m.pressed);
    let i = pressed_index(m2.pressed, r, c);
    assert(0 <= i < m2.pressed.len() && m2.pressed[i].row == r && m2.pressed[i].col == c);
    lemma_held_remove(m2.pressed, i);
}

} // verus!

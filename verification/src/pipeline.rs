//! The per-tick pipeline, as the periodic timer handler runs it.
//!
//! Each tick folds the newest raw scan into the debouncer, feeds the
//! confirmed events to the layout engine in row-major order, surfaces the
//! custom action of the tick, encodes the held keycodes, and decides
//! whether the report differs from the last one handed out — only then
//! does the caller need to transmit. The hardware around this (the pin
//! scan that produces the raw grid, the USB write, the reset) stays with
//! the caller.

use vstd::prelude::*;
use crate::debounce::{Debouncer, RawState, grid_view, grid_events, next_confirmed,
    lemma_grid_events_bounds, lemma_debouncer_dims};
use crate::layout::{Keymap, LayoutEngine, LayoutModel, apply_events, held_keycodes};
use crate::report::{HidReport, spec_report};

verus! {

/// What one tick decides: the report to transmit — present exactly when
/// it differs from the previous one — and the custom action surfaced this
/// tick, if any.
pub struct TickOutput {
    pub report: Option<HidReport>,
    pub custom: Option<u8>,
}

/// Debouncer, layout engine and report comparison, driven once per timer
/// period.
pub struct Controller {
    debouncer: Debouncer,
    layout: LayoutEngine,
    last_report: HidReport,
}

impl Controller {
    /// The debouncer state.
    pub closed spec fn spec_debouncer(self) -> Debouncer {
        self.debouncer
    }

    /// The layout engine state.
    pub closed spec fn spec_layout(self) -> LayoutEngine {
        self.layout
    }

    /// The last report handed out for transmission.
    pub closed spec fn spec_last_report(self) -> HidReport {
        self.last_report
    }

    /// Components well formed and built for the same matrix.
    pub open spec fn wf(self) -> bool {
        &&& self.spec_debouncer().wf()
        &&& self.spec_layout().wf()
        &&& self.spec_last_report().wf()
        &&& self.spec_debouncer().spec_rows() == self.spec_layout().spec_keymap().spec_rows()
        &&& self.spec_debouncer().spec_cols() == self.spec_layout().spec_keymap().spec_cols()
    }

    /// A raw snapshot fits this controller's matrix.
    pub open spec fn raw_wf(self, raw: Seq<Vec<bool>>) -> bool {
        self.spec_debouncer().raw_wf(raw)
    }

    /// Fresh controller over a keymap: nothing confirmed pressed, base
    /// layer only, an all-released last report.
    pub fn new(keymap: Keymap, threshold: u8) -> (c: Controller)
        requires
            keymap.wf(),
            threshold >= 1,
        ensures
            c.wf(),
            c.spec_layout().spec_keymap() == keymap,
            c.spec_debouncer().spec_threshold() == threshold,
            c.spec_layout()@.stack == Seq::<usize>::empty(),
            c.spec_layout()@.pressed == Seq::<crate::layout::PressEntry>::empty(),
            c.spec_layout()@.queued is None,
            c.spec_last_report()@ == spec_report(Seq::<u8>::empty()),
    {
        let rows = keymap.rows();
        let cols = keymap.cols();
        let debouncer = Debouncer::new(rows, cols, threshold);
        let layout = LayoutEngine::new(keymap);
        let last_report = HidReport::empty();
        Controller { debouncer, layout, last_report }
    }

    /// One timer period: debounce the raw snapshot, fold the confirmed
    /// events into the layout in row-major order, surface the custom
    /// action of this tick, and encode the held keycodes; the encoded
    /// report is handed out exactly when it differs from the last one.
    pub fn tick(&mut self, raw: &RawState) -> (out: TickOutput)
        requires
            old(self).wf(),
            old(self).raw_wf(raw@),
        ensures
            final(self).wf(),
            final(self).spec_layout().spec_keymap() == old(self).spec_layout().spec_keymap(),
            final(self).spec_debouncer().spec_rows() == old(self).spec_debouncer().spec_rows(),
            final(self).spec_debouncer().spec_cols() == old(self).spec_debouncer().spec_cols(),
            final(self).spec_debouncer().spec_threshold()
                == old(self).spec_debouncer().spec_threshold(),
            final(self).spec_debouncer().confirmed_view() == next_confirmed(
                old(self).spec_debouncer().confirmed_view(),
                old(self).spec_debouncer().counters_view(),
                grid_view(raw@),
                old(self).spec_debouncer().spec_threshold(),
            ),
            ({
                let evs = grid_events(
                    old(self).spec_debouncer().confirmed_view(),
                    old(self).spec_debouncer().counters_view(),
                    grid_view(raw@),
                    old(self).spec_debouncer().spec_threshold(),
                );
                let m1 = apply_events(
                    old(self).spec_layout().spec_keymap().layers_view(),
                    old(self).spec_layout()@,
                    evs,
                );
                &&& out.custom == m1.queued
                &&& final(self).spec_layout()@ == (LayoutModel {
                    stack: m1.stack,
                    pressed: m1.pressed,
                    queued: None,
                })
                &&& final(self).spec_last_report()@ == spec_report(held_keycodes(m1.pressed))
                &&& (out.report is Some <==> spec_report(held_keycodes(m1.pressed))
                    != old(self).spec_last_report()@)
                &&& (out.report matches Some(rp) ==> rp.wf()
                    && rp@ == spec_report(held_keycodes(m1.pressed)))
            }),
    {
        let ghost layers = self.layout.spec_keymap().layers_view();
        let ghost m0 = self.layout@;
        let ghost oconf = self.debouncer.confirmed_view();
        let ghost ocnt = self.debouncer.counters_view();
        let ghost th = self.debouncer.spec_threshold();
        proof {
            lemma_debouncer_dims(self.debouncer);
        }
        let evs = self.debouncer.events(raw);
        let ghost gevs = grid_events(oconf, ocnt, grid_view(raw@), th);
        proof {
            lemma_grid_events_bounds(oconf, ocnt, grid_view(raw@), th);
            assert forall|x: int|
                0 <= x < gevs.len() implies
                0 <= (#[trigger] gevs[x]).row() < self.layout.spec_keymap().spec_rows()
                    && 0 <= gevs[x].col() < self.layout.spec_keymap().spec_cols() by {
                assert(0 <= gevs[x].row() < oconf.len());
                assert(oconf[gevs[x].row()].len() == old(self).spec_debouncer().spec_cols());
            }
        }
        let ghost deb1 = self.debouncer;
        let ghost lr0 = self.last_report;
        let n = evs.len();
        let mut i: usize = 0;
        while i < n
            invariant
                i <= n,
                n == evs@.len(),
                evs@ == gevs,
                self.debouncer == deb1,
                self.last_report == lr0,
                self.layout.wf(),
                self.layout.spec_keymap() == old(self).spec_layout().spec_keymap(),
                layers == self.layout.spec_keymap().layers_view(),
                self.layout@ == apply_events(layers, m0, gevs.subrange(0, i as int)),
                forall|x: int|
                    0 <= x < gevs.len()
                        ==> 0 <= (#[trigger] gevs[x]).row()
                            < self.layout.spec_keymap().spec_rows()
                            && 0 <= gevs[x].col() < self.layout.spec_keymap().spec_cols(),
            decreases n - i,
        {
            let e = evs[i];
            proof {
                let pre = gevs.subrange(0, i as int);
                let cur = gevs.subrange(0, i as int + 1);
                assert(cur.drop_last() =~= pre);
                assert(cur.last() == gevs[i as int]);
                lemma_apply_events_snoc(layers, m0, cur);
            }
            self.layout.event(e);
            i += 1;
        }
        proof {
            assert(gevs.subrange(0, n as int) =~= gevs);
        }
        let custom = self.layout.tick();
        let ks = self.layout.keycodes();
        let rep = HidReport::encode(&ks);
        let changed = !rep.same_as(&self.last_report);
        self.last_report = HidReport::encode(&ks);
        let report = if changed {
            Some(rep)
        } else {
            None
        };
        TickOutput { report, custom }
    }

    /// The held keycodes of this tick, in press order.
    pub fn keycodes(&self) -> (ks: Vec<u8>)
        requires
            self.wf(),
        ensures
            ks@ == held_keycodes(self.spec_layout()@.pressed),
    {
        self.layout.keycodes()
    }

    /// The last report handed out, in wire form.
    pub fn last_report_bytes(&self) -> (b: Vec<u8>)
        requires
            self.wf(),
        ensures
            b@.len() == 8,
            b@[0] == self.spec_last_report()@.0,
            b@[1] == 0,
            forall|j: int| 2 <= j < 8 ==> (#[trigger] b@[j]) == self.spec_last_report()@.1[j - 2],
    {
        self.last_report.bytes()
    }
}

/// Folding one more event is one more transition.
proof fn lemma_apply_events_snoc(
    layers: Seq<Seq<Seq<crate::types::Action>>>,
    m: LayoutModel,
    evs: Seq<crate::types::KeyEvent>,
)
    requires
        evs.len() > 0,
    ensures
        apply_events(layers, m, evs) == crate::layout::spec_event(
            layers,
            apply_events(layers, m, evs.drop_last()),
            evs.last(),
        ),
    decreases evs.len(),
{
    if evs.len() == 1 {
        assert(evs.drop_last() =~= Seq::<crate::types::KeyEvent>::empty());
        assert(evs.drop_first() =~= Seq::<crate::types::KeyEvent>::empty());
        assert(evs.first() == evs.last());
    } else {
        let m1 = crate::layout::spec_event(layers, m, evs.first());
        lemma_apply_events_snoc(layers, m1, evs.drop_first());
        assert(evs.drop_first().drop_last() =~= evs.drop_last().drop_first());
        assert(evs.drop_last().first() == evs.first());
        assert(evs.drop_first().last() == evs.last());
    }
}

} // verus!

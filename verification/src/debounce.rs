//! Integrator debouncer over the raw matrix grid.
//!
//! The debouncer keeps, per switch, the last confirmed state and a counter
//! of consecutive scans in which the raw sample disagreed with it. Only
//! after `threshold` consecutive disagreeing scans does the confirmed bit
//! flip and a single event come out; a shorter transient resets nothing
//! but its own counter.

use vstd::prelude::*;
use crate::types::KeyEvent;

verus! {

/// One raw snapshot of the matrix, `grid[row][col]` true when the switch
/// is electrically closed. Produced by the scanner once per tick.
pub type RawState = Vec<Vec<bool>>;

/// The rows of an exec grid, each as a mathematical sequence.
pub open spec fn grid_view<T>(g: Seq<Vec<T>>) -> Seq<Seq<T>> {
    Seq::new(g.len(), |i: int| g[i]@)
}

/// Confirmed bit of one cell after one scan.
pub open spec fn step_confirmed(conf: bool, cnt: int, raw: bool, th: int) -> bool {
    if raw == conf {
        conf
    } else if cnt + 1 >= th {
        raw
    } else {
        conf
    }
}

/// Disagreement counter of one cell after one scan.
pub open spec fn step_counter(conf: bool, cnt: int, raw: bool, th: int) -> int {
    if raw == conf {
        0
    } else if cnt + 1 >= th {
        0
    } else {
        cnt + 1
    }
}

/// Whether one scan of one cell flips the confirmed bit and emits an event.
pub open spec fn cell_emits(conf: bool, cnt: int, raw: bool, th: int) -> bool {
    raw != conf && cnt + 1 >= th
}

/// Events of one row for one scan, in ascending column order; `r` is the
/// row index the events carry.
pub open spec fn row_events(
    conf: Seq<bool>,
    cnt: Seq<u8>,
    raw: Seq<bool>,
    th: int,
    r: usize,
) -> Seq<KeyEvent>
    decreases conf.len(),
{
    if conf.len() == 0 {
        Seq::empty()
    } else {
        let j = (conf.len() - 1) as usize;
        let head = row_events(conf.drop_last(), cnt.drop_last(), raw.drop_last(), th, r);
        if cell_emits(conf.last(), cnt.last() as int, raw.last(), th) {
            if raw.last() {
                head.push(KeyEvent::Press(r, j))
            } else {
                head.push(KeyEvent::Release(r, j))
            }
        } else {
            head
        }
    }
}

/// Events of the whole grid for one scan, in row-major order.
pub open spec fn grid_events(
    conf: Seq<Seq<bool>>,
    cnt: Seq<Seq<u8>>,
    raw: Seq<Seq<bool>>,
    th: int,
) -> Seq<KeyEvent>
    decreases conf.len(),
{
    if conf.len() == 0 {
        Seq::empty()
    } else {
        grid_events(conf.drop_last(), cnt.drop_last(), raw.drop_last(), th)
            + row_events(conf.last(), cnt.last(), raw.last(), th, (conf.len() - 1) as usize)
    }
}

/// A rows-by-cols grid holding the same value everywhere.
pub open spec fn const_grid<T>(rows: int, cols: int, v: T) -> Seq<Seq<T>> {
    Seq::new(rows as nat, |i: int| Seq::new(cols as nat, |j: int| v))
}

/// Confirmed grid after one scan, cell by cell.
pub open spec fn next_confirmed(
    conf: Seq<Seq<bool>>,
    cnt: Seq<Seq<u8>>,
    raw: Seq<Seq<bool>>,
    th: int,
) -> Seq<Seq<bool>> {
    Seq::new(
        conf.len(),
        |i: int| Seq::new(conf[i].len(), |j: int| step_confirmed(conf[i][j], cnt[i][j] as int, raw[i][j], th)),
    )
}

/// Counter grid after one scan, cell by cell.
pub open spec fn next_counters(
    conf: Seq<Seq<bool>>,
    cnt: Seq<Seq<u8>>,
    raw: Seq<Seq<bool>>,
    th: int,
) -> Seq<Seq<int>> {
    Seq::new(
        conf.len(),
        |i: int| Seq::new(conf[i].len(), |j: int| step_counter(conf[i][j], cnt[i][j] as int, raw[i][j], th)),
    )
}

/// Per-switch settle filter for the whole matrix.
pub struct Debouncer {
    confirmed: Vec<Vec<bool>>,
    counters: Vec<Vec<u8>>,
    threshold: u8,
    rows: usize,
    cols: usize,
}

impl Debouncer {
    /// Matrix height this debouncer was built for.
    pub closed spec fn spec_rows(self) -> int {
        self.rows as int
    }

    /// Matrix width this debouncer was built for.
    pub closed spec fn spec_cols(self) -> int {
        self.cols as int
    }

    /// Number of consecutive disagreeing scans needed to confirm a change.
    pub closed spec fn spec_threshold(self) -> int {
        self.threshold as int
    }

    /// Last confirmed grid, as sequences.
    pub closed spec fn confirmed_view(self) -> Seq<Seq<bool>> {
        grid_view(self.confirmed@)
    }

    /// Current counter grid, as sequences.
    pub closed spec fn counters_view(self) -> Seq<Seq<u8>> {
        grid_view(self.counters@)
    }

    /// A raw snapshot fits this debouncer's matrix.
    pub open spec fn raw_wf(self, raw: Seq<Vec<bool>>) -> bool {
        &&& raw.len() == self.spec_rows()
        &&& forall|i: int| 0 <= i < raw.len() ==> (#[trigger] raw[i])@.len() == self.spec_cols()
    }

    /// Structural invariant: grids match the dimensions and every counter
    /// is strictly below the threshold.
    pub closed spec fn wf(self) -> bool {
        &&& self.threshold >= 1
        &&& self.confirmed@.len() == self.rows
        &&& self.counters@.len() == self.rows
        &&& forall|i: int| 0 <= i < self.rows ==> (#[trigger] self.confirmed@[i])@.len() == self.cols
        &&& forall|i: int| 0 <= i < self.rows ==> (#[trigger] self.counters@[i])@.len() == self.cols
        &&& forall|i: int, j: int|
            0 <= i < self.rows && 0 <= j < self.cols ==> (#[trigger] self.counters@[i]@[j]) < self.threshold
    }

    /// Fresh debouncer: everything confirmed released, all counters zero.
    pub fn new(rows: usize, cols: usize, threshold: u8) -> (d: Debouncer)
        requires
            threshold >= 1,
        ensures
            d.wf(),
            d.spec_rows() == rows,
            d.spec_cols() == cols,
            d.spec_threshold() == threshold,
            d.confirmed_view() == const_grid(rows as int, cols as int, false),
            d.counters_view() == const_grid(rows as int, cols as int, 0u8),
    {
        let mut confirmed: Vec<Vec<bool>> = Vec::new();
        let mut counters: Vec<Vec<u8>> = Vec::new();
        let mut i: usize = 0;
        while i < rows
            invariant
                i <= rows,
                confirmed@.len() == i,
                counters@.len() == i,
                forall|a: int| 0 <= a < i ==> (#[trigger] confirmed@[a])@.len() == cols,
                forall|a: int| 0 <= a < i ==> (#[trigger] counters@[a])@.len() == cols,
                forall|a: int, b: int|
                    0 <= a < i && 0 <= b < cols
                        ==> !(#[trigger] confirmed@[a]@[b]) && counters@[a]@[b] == 0,
            decreases rows - i,
        {
            let mut crow: Vec<bool> = Vec::new();
            let mut nrow: Vec<u8> = Vec::new();
            let mut j: usize = 0;
            while j < cols
                invariant
                    j <= cols,
                    crow@.len() == j,
                    nrow@.len() == j,
                    forall|b: int| 0 <= b < j ==> !(#[trigger] crow@[b]) && nrow@[b] == 0,
                decreases cols - j,
            {
                crow.push(false);
                nrow.push(0);
                j += 1;
            }
            confirmed.push(crow);
            counters.push(nrow);
            i += 1;
        }
        proof {
            assert forall|a: int, b: int|
                0 <= a < rows && 0 <= b < cols implies (#[trigger] counters@[a]@[b]) < threshold by {
                assert(!confirmed@[a]@[b]);
            }
        }
        let d = Debouncer { confirmed, counters, threshold, rows, cols };
        proof {
            assert forall|a: int| 0 <= a < rows implies
                #[trigger] d.confirmed_view()[a] == const_grid(rows as int, cols as int, false)[a] by {
                assert(d.confirmed_view()[a] == d.confirmed@[a]@);
                assert forall|b: int| 0 <= b < cols implies !(#[trigger] d.confirmed@[a]@[b]) by {
                    assert(!confirmed@[a]@[b]);
                }
                assert(d.confirmed@[a]@ =~= const_grid(rows as int, cols as int, false)[a]);
            }
            assert forall|a: int| 0 <= a < rows implies
                #[trigger] d.counters_view()[a] == const_grid(rows as int, cols as int, 0u8)[a] by {
                assert(d.counters_view()[a] == d.counters@[a]@);
                assert forall|b: int| 0 <= b < cols implies (#[trigger] d.counters@[a]@[b]) == 0 by {
                    assert(!confirmed@[a]@[b]);
                }
                assert(d.counters@[a]@ =~= const_grid(rows as int, cols as int, 0u8)[a]);
            }
            assert(d.confirmed_view() =~= const_grid(rows as int, cols as int, false));
            assert(d.counters_view() =~= const_grid(rows as int, cols as int, 0u8));
        }
        d
    }

    /// One scan: fold the raw snapshot into the per-cell counters, flip the
    /// cells whose change has settled, and hand back their events in
    /// row-major order.
    pub fn events(&mut self, raw: &RawState) -> (evs: Vec<KeyEvent>)
        requires
            old(self).wf(),
            old(self).raw_wf(raw@),
        ensures
            final(self).wf(),
            final(self).spec_rows() == old(self).spec_rows(),
            final(self).spec_cols() == old(self).spec_cols(),
            final(self).spec_threshold() == old(self).spec_threshold(),
            final(self).confirmed_view() == next_confirmed(
                old(self).confirmed_view(),
                old(self).counters_view(),
                grid_view(raw@),
                old(self).spec_threshold(),
            ),
            forall|i: int, j: int|
                0 <= i < final(self).spec_rows() && 0 <= j < final(self).spec_cols()
                    ==> (#[trigger] final(self).counters_view()[i][j]) as int == step_counter(
                        old(self).confirmed_view()[i][j],
                        old(self).counters_view()[i][j] as int,
                        grid_view(raw@)[i][j],
                        old(self).spec_threshold(),
                    ),
            evs@ == grid_events(
                old(self).confirmed_view(),
                old(self).counters_view(),
                grid_view(raw@),
                old(self).spec_threshold(),
            ),
    {
        let rows = self.rows;
        let cols = self.cols;
        let th = self.threshold;
        let ghost oconf = self.confirmed_view();
        let ghost ocnt = self.counters_view();
        let ghost graw = grid_view(raw@);
        let conf_grid = &self.confirmed;
        let cnt_grid = &self.counters;
        let mut new_conf: Vec<Vec<bool>> = Vec::new();
        let mut new_cnt: Vec<Vec<u8>> = Vec::new();
        let mut evs: Vec<KeyEvent> = Vec::new();
        let mut i: usize = 0;
        while i < rows
            invariant
                i <= rows,
                th >= 1,
                conf_grid@.len() == rows,
                cnt_grid@.len() == rows,
                raw@.len() == rows,
                forall|a: int| 0 <= a < rows ==> (#[trigger] conf_grid@[a])@.len() == cols,
                forall|a: int| 0 <= a < rows ==> (#[trigger] cnt_grid@[a])@.len() == cols,
                forall|a: int| 0 <= a < rows ==> (#[trigger] raw@[a])@.len() == cols,
                oconf == grid_view(conf_grid@),
                ocnt == grid_view(cnt_grid@),
                graw == grid_view(raw@),
                forall|a: int, b: int|
                    0 <= a < rows && 0 <= b < cols ==> (#[trigger] ocnt[a][b]) < th,
                new_conf@.len() == i,
                new_cnt@.len() == i,
                forall|a: int| 0 <= a < i ==> (#[trigger] new_conf@[a])@.len() == cols,
                forall|a: int| 0 <= a < i ==> (#[trigger] new_cnt@[a])@.len() == cols,
                forall|a: int, b: int|
                    0 <= a < i && 0 <= b < cols
                        ==> (#[trigger] new_conf@[a]@[b]) == step_confirmed(
                            oconf[a][b], ocnt[a][b] as int, graw[a][b], th as int),
                forall|a: int, b: int|
                    0 <= a < i && 0 <= b < cols
                        ==> (#[trigger] new_cnt@[a]@[b]) as int == step_counter(
                            oconf[a][b], ocnt[a][b] as int, graw[a][b], th as int),
                evs@ == grid_events(
                    oconf.subrange(0, i as int),
                    ocnt.subrange(0, i as int),
                    graw.subrange(0, i as int),
                    th as int,
                ),
            decreases rows - i,
        {
            let mut crow: Vec<bool> = Vec::new();
            let mut nrow: Vec<u8> = Vec::new();
            let mut j: usize = 0;
            while j < cols
                invariant
                    j <= cols,
                    i < rows,
                    th >= 1,
                    conf_grid@.len() == rows,
                    cnt_grid@.len() == rows,
                    raw@.len() == rows,
                    forall|a: int| 0 <= a < rows ==> (#[trigger] conf_grid@[a])@.len() == cols,
                    forall|a: int| 0 <= a < rows ==> (#[trigger] cnt_grid@[a])@.len() == cols,
                    forall|a: int| 0 <= a < rows ==> (#[trigger] raw@[a])@.len() == cols,
                    oconf == grid_view(conf_grid@),
                    ocnt == grid_view(cnt_grid@),
                    graw == grid_view(raw@),
                    forall|a: int, b: int|
                        0 <= a < rows && 0 <= b < cols ==> (#[trigger] ocnt[a][b]) < th,
                    crow@.len() == j,
                    nrow@.len() == j,
                    forall|b: int|
                        0 <= b < j ==> (#[trigger] crow@[b]) == step_confirmed(
                            oconf[i as int][b], ocnt[i as int][b] as int, graw[i as int][b], th as int),
                    forall|b: int|
                        0 <= b < j ==> (#[trigger] nrow@[b]) as int == step_counter(
                            oconf[i as int][b], ocnt[i as int][b] as int, graw[i as int][b], th as int),
                    evs@ == grid_events(
                        oconf.subrange(0, i as int),
                        ocnt.subrange(0, i as int),
                        graw.subrange(0, i as int),
                        th as int,
                    ) + row_events(
                        oconf[i as int].subrange(0, j as int),
                        ocnt[i as int].subrange(0, j as int),
                        graw[i as int].subrange(0, j as int),
                        th as int,
                        i,
                    ),
                decreases cols - j,
            {
                let conf_b = conf_grid[i][j];
                let cnt_b = cnt_grid[i][j];
                let raw_b = raw[i][j];
                proof {
                    assert(oconf[i as int][j as int] == conf_b);
                    assert(ocnt[i as int][j as int] == cnt_b);
                    assert(graw[i as int][j as int] == raw_b);
                }
                if raw_b == conf_b {
                    crow.push(conf_b);
                    nrow.push(0);
                } else if cnt_b + 1 >= th {
                    crow.push(raw_b);
                    nrow.push(0);
                    if raw_b {
                        evs.push(KeyEvent::Press(i, j));
                    } else {
                        evs.push(KeyEvent::Release(i, j));
                    }
                } else {
                    crow.push(conf_b);
                    nrow.push(cnt_b + 1);
                }
                proof {
                    let jj = j as int;
                    let ii = i as int;
                    assert(oconf[ii].subrange(0, jj + 1).drop_last() =~= oconf[ii].subrange(0, jj));
                    assert(ocnt[ii].subrange(0, jj + 1).drop_last() =~= ocnt[ii].subrange(0, jj));
                    assert(graw[ii].subrange(0, jj + 1).drop_last() =~= graw[ii].subrange(0, jj));
                    assert(oconf[ii].subrange(0, jj + 1).last() == oconf[ii][jj]);
                    assert(ocnt[ii].subrange(0, jj + 1).last() == ocnt[ii][jj]);
                    assert(graw[ii].subrange(0, jj + 1).last() == graw[ii][jj]);
                }
                j += 1;
            }
            proof {
                let ii = i as int;
                assert(oconf[ii].subrange(0, cols as int) =~= oconf[ii]);
                assert(ocnt[ii].subrange(0, cols as int) =~= ocnt[ii]);
                assert(graw[ii].subrange(0, cols as int) =~= graw[ii]);
                assert(oconf.subrange(0, ii + 1).drop_last() =~= oconf.subrange(0, ii));
                assert(ocnt.subrange(0, ii + 1).drop_last() =~= ocnt.subrange(0, ii));
                assert(graw.subrange(0, ii + 1).drop_last() =~= graw.subrange(0, ii));
                assert(oconf.subrange(0, ii + 1).last() == oconf[ii]);
                assert(ocnt.subrange(0, ii + 1).last() == ocnt[ii]);
                assert(graw.subrange(0, ii + 1).last() == graw[ii]);
            }
            new_conf.push(crow);
            new_cnt.push(nrow);
            i += 1;
        }
        proof {
            assert(oconf.subrange(0, rows as int) =~= oconf);
            assert(ocnt.subrange(0, rows as int) =~= ocnt);
            assert(graw.subrange(0, rows as int) =~= graw);
        }
        self.confirmed = new_conf;
        self.counters = new_cnt;
        proof {
            assert(self.confirmed_view() =~~= next_confirmed(oconf, ocnt, graw, th as int));
        }
        evs
    }
}


/// State of one cell after feeding it the given raw samples one scan at a
/// time, starting from confirmed state `conf` and counter `cnt`:
/// (confirmed state, counter, number of events emitted), each scan
/// advancing the cell exactly as `Debouncer::events` does.
pub open spec fn run_cell(conf: bool, cnt: int, th: int, samples: Seq<bool>) -> (bool, int, int)
    decreases samples.len(),
{
    if samples.len() == 0 {
        (conf, cnt, 0int)
    } else {
        let prev = run_cell(conf, cnt, th, samples.drop_last());
        let s = samples.last();
        (
            step_confirmed(prev.0, prev.1, s, th),
            step_counter(prev.0, prev.1, s, th),
            prev.2 + if cell_emits(prev.0, prev.1, s, th) { 1int } else { 0int },
        )
    }
}

/// Length of the longest suffix of `samples` in which every sample
/// disagrees with `conf`.
pub open spec fn trailing_run(samples: Seq<bool>, conf: bool) -> int
    decreases samples.len(),
{
    if samples.len() == 0 || samples.last() == conf {
        0
    } else {
        1 + trailing_run(samples.drop_last(), conf)
    }
}

proof fn lemma_row_events_idle(conf: Seq<bool>, cnt: Seq<u8>, th: int, r: usize)
    ensures
        row_events(conf, cnt, conf, th, r) == Seq::<KeyEvent>::empty(),
    decreases conf.len(),
{
    if conf.len() != 0 {
        lemma_row_events_idle(conf.drop_last(), cnt.drop_last(), th, r);
    }
}

/// Law (debounce idempotence): feeding the already-confirmed grid back in
/// emits no events and leaves the confirmed grid unchanged, with every
/// counter reset to zero; so repeating a confirmed state any number of
/// times emits nothing further.
pub proof fn lemma_debounce_idempotent(conf: Seq<Seq<bool>>, cnt: Seq<Seq<u8>>, th: int)
    ensures
        grid_events(conf, cnt, conf, th) == Seq::<KeyEvent>::empty(),
        next_confirmed(conf, cnt, conf, th) == conf,
        forall|i: int, j: int|
            0 <= i < conf.len() && 0 <= j < conf[i].len()
                ==> #[trigger] next_counters(conf, cnt, conf, th)[i][j] == 0,
    decreases conf.len(),
{
    if conf.len() != 0 {
        lemma_debounce_idempotent(conf.drop_last(), cnt.drop_last(), th);
        lemma_row_events_idle(conf.last(), cnt.last(), th, (conf.len() - 1) as usize);
        assert(grid_events(conf, cnt, conf, th) =~= Seq::<KeyEvent>::empty());
    }
    assert forall|i: int| 0 <= i < conf.len() implies
        #[trigger] next_confirmed(conf, cnt, conf, th)[i] == conf[i] by {
        assert(next_confirmed(conf, cnt, conf, th)[i] =~= conf[i]);
    }
    assert(next_confirmed(conf, cnt, conf, th) =~= conf);
}

/// Law (debounce stability, transient part): as long as no run of
/// consecutive samples disagreeing with the confirmed state reaches the
/// threshold, the confirmed state never flips and no event is emitted; the
/// counter merely tracks the current disagreeing run.
pub proof fn lemma_debounce_stability_quiet(conf: bool, th: int, samples: Seq<bool>)
    requires
        th >= 1,
        forall|i: int|
            0 <= i <= samples.len() ==> #[trigger] trailing_run(samples.subrange(0, i), conf) < th,
    ensures
        run_cell(conf, 0, th, samples) == (conf, trailing_run(samples, conf), 0int),
    decreases samples.len(),
{
    if samples.len() == 0 {
    } else {
        let head = samples.drop_last();
        assert forall|i: int| 0 <= i <= head.len() implies
            #[trigger] trailing_run(head.subrange(0, i), conf) < th by {
            assert(head.subrange(0, i) =~= samples.subrange(0, i));
            assert(trailing_run(samples.subrange(0, i), conf) < th);
        }
        lemma_debounce_stability_quiet(conf, th, head);
        let s = samples.last();
        if s != conf {
            assert(samples.subrange(0, samples.len() as int) =~= samples);
            assert(trailing_run(samples, conf) < th);
            assert(trailing_run(samples, conf) == 1 + trailing_run(head, conf));
        }
    }
}

/// Fewer than `threshold` consecutive disagreeing samples: no event, no
/// flip, the counter stands at their number.
pub proof fn lemma_debounce_counts_transient(conf: bool, th: int, k: int)
    requires
        th >= 1,
        0 <= k < th,
    ensures
        run_cell(conf, 0, th, Seq::new(k as nat, |i: int| !conf)) == (conf, k, 0int),
    decreases k,
{
    let samples = Seq::new(k as nat, |i: int| !conf);
    if k > 0 {
        lemma_debounce_counts_transient(conf, th, k - 1);
        assert(samples.drop_last() =~= Seq::new((k - 1) as nat, |i: int| !conf));
        assert(samples.last() == !conf);
    }
}

/// Law (debounce stability, settling part): exactly `threshold`
/// consecutive disagreeing samples flip the confirmed state, emitting one
/// event and resetting the counter.
pub proof fn lemma_debounce_settles(conf: bool, th: int)
    requires
        th >= 1,
    ensures
        run_cell(conf, 0, th, Seq::new(th as nat, |i: int| !conf)) == (!conf, 0int, 1int),
{
    let samples = Seq::new(th as nat, |i: int| !conf);
    lemma_debounce_counts_transient(conf, th, th - 1);
    assert(samples.drop_last() =~= Seq::new((th - 1) as nat, |i: int| !conf));
    assert(samples.last() == !conf);
}

/// Law (debounce stability, whole): once the new state has held for the
/// threshold, holding it longer emits nothing further: over `m >= threshold`
/// disagreeing samples exactly one event comes out.
pub proof fn lemma_debounce_exactly_once(conf: bool, th: int, m: int)
    requires
        th >= 1,
        m >= th,
    ensures
        run_cell(conf, 0, th, Seq::new(m as nat, |i: int| !conf)) == (!conf, 0int, 1int),
    decreases m,
{
    let samples = Seq::new(m as nat, |i: int| !conf);
    if m == th {
        lemma_debounce_settles(conf, th);
        assert(Seq::new(m as nat, |i: int| !conf) =~= Seq::new(th as nat, |i: int| !conf));
    } else {
        lemma_debounce_exactly_once(conf, th, m - 1);
        assert(samples.drop_last() =~= Seq::new((m - 1) as nat, |i: int| !conf));
        assert(samples.last() == !conf);
    }
}

/// Every event of one row carries that row index and an in-range column.
proof fn lemma_row_events_bounds(conf: Seq<bool>, cnt: Seq<u8>, raw: Seq<bool>, th: int, r: usize)
    requires
        conf.len() <= usize::MAX,
    ensures
        forall|x: int|
            0 <= x < row_events(conf, cnt, raw, th, r).len()
                ==> ((#[trigger] row_events(conf, cnt, raw, th, r)[x]).row() == r
                    && 0 <= row_events(conf, cnt, raw, th, r)[x].col() < conf.len()),
    decreases conf.len(),
{
    if conf.len() != 0 {
        lemma_row_events_bounds(conf.drop_last(), cnt.drop_last(), raw.drop_last(), th, r);
        let head = row_events(conf.drop_last(), cnt.drop_last(), raw.drop_last(), th, r);
        assert forall|x: int|
            0 <= x < row_events(conf, cnt, raw, th, r).len() implies
            ((#[trigger] row_events(conf, cnt, raw, th, r)[x]).row() == r
                && 0 <= row_events(conf, cnt, raw, th, r)[x].col() < conf.len()) by {
            if x < head.len() {
                assert(row_events(conf, cnt, raw, th, r)[x] == head[x]);
                assert(head[x].row() == r && 0 <= head[x].col() < conf.drop_last().len());
            }
        }
    }
}

/// Every event of one scan addresses a cell of the grid it came from.
pub proof fn lemma_grid_events_bounds(conf: Seq<Seq<bool>>, cnt: Seq<Seq<u8>>, raw: Seq<Seq<bool>>, th: int)
    requires
        conf.len() <= usize::MAX,
        forall|i: int| 0 <= i < conf.len() ==> (#[trigger] conf[i]).len() <= usize::MAX,
    ensures
        forall|x: int|
            0 <= x < grid_events(conf, cnt, raw, th).len()
                ==> (0 <= (#[trigger] grid_events(conf, cnt, raw, th)[x]).row() < conf.len()
                    && 0 <= grid_events(conf, cnt, raw, th)[x].col()
                        < conf[grid_events(conf, cnt, raw, th)[x].row()].len()),
    decreases conf.len(),
{
    if conf.len() != 0 {
        lemma_grid_events_bounds(conf.drop_last(), cnt.drop_last(), raw.drop_last(), th);
        assert(conf.last().len() <= usize::MAX);
        lemma_row_events_bounds(conf.last(), cnt.last(), raw.last(), th, (conf.len() - 1) as usize);
        let head = grid_events(conf.drop_last(), cnt.drop_last(), raw.drop_last(), th);
        let tail = row_events(conf.last(), cnt.last(), raw.last(), th, (conf.len() - 1) as usize);
        assert forall|x: int|
            0 <= x < grid_events(conf, cnt, raw, th).len() implies
            (0 <= (#[trigger] grid_events(conf, cnt, raw, th)[x]).row() < conf.len()
                && 0 <= grid_events(conf, cnt, raw, th)[x].col()
                    < conf[grid_events(conf, cnt, raw, th)[x].row()].len()) by {
            if x < head.len() {
                assert(grid_events(conf, cnt, raw, th)[x] == head[x]);
                let e = head[x];
                assert(0 <= e.row() < conf.drop_last().len()
                    && 0 <= e.col() < conf.drop_last()[e.row()].len());
                assert(conf.drop_last()[e.row()] == conf[e.row()]);
            } else {
                assert(grid_events(conf, cnt, raw, th)[x] == tail[x - head.len()]);
                let e = tail[x - head.len()];
                assert(e.row() == conf.len() - 1 && 0 <= e.col() < conf.last().len());
            }
        }
    }
}

/// Dimensions and bounds of the grids behind a well-formed debouncer's
/// public views.
pub proof fn lemma_debouncer_dims(d: Debouncer)
    requires
        d.wf(),
    ensures
        d.confirmed_view().len() == d.spec_rows(),
        d.counters_view().len() == d.spec_rows(),
        forall|i: int|
            0 <= i < d.spec_rows() ==> (#[trigger] d.confirmed_view()[i]).len() == d.spec_cols(),
        forall|i: int|
            0 <= i < d.spec_rows() ==> (#[trigger] d.counters_view()[i]).len() == d.spec_cols(),
        d.spec_threshold() >= 1,
        0 <= d.spec_rows() <= usize::MAX,
        0 <= d.spec_cols() <= usize::MAX,
{
    assert forall|i: int|
        0 <= i < d.spec_rows() implies (#[trigger] d.confirmed_view()[i]).len()
            == d.spec_cols() by {
        assert(d.confirmed_view()[i] == d.confirmed@[i]@);
    }
    assert forall|i: int|
        0 <= i < d.spec_rows() implies (#[trigger] d.counters_view()[i]).len()
            == d.spec_cols() by {
        assert(d.counters_view()[i] == d.counters@[i]@);
    }
}

} // verus!

//! Per-view state. Each plot tab owns, for every signal it shows, the index
//! range that was visible last frame; seeding the next search from it keeps
//! the per-frame cost of the viewport-to-index mapping amortized near
//! constant while the buffers grow.

use vstd::prelude::*;
use std::collections::HashMap;
use std::collections::HashSet;
use crate::downsampling::{
    coords_bounded, decimate_count, decimate_step, find_visible_index_range, lttb_index, lttb_len,
    visible_end, visible_start, DownsamplingMethod, LTTB_MAX_LEN,
};
use crate::names::push_str_piece;
use crate::signal::PlotSignal;

verus! {

broadcast use vstd::std_specs::hash::group_hash_axioms;

/// Looks up the visible index range for one signal, seeded from this view's
/// cached range for it, and remembers the result for the next frame.
fn cached_visible_range(
    cache: &mut HashMap<u64, (usize, usize)>,
    signal: &PlotSignal,
    lo: i64,
    hi: i64,
) -> (r: Option<(usize, usize)>)
    requires
        signal@.wf(),
        lo <= hi,
    ensures
        r is None <==> signal@.time.len() == 0,
        r is None ==> final(cache)@ == old(cache)@,
        r matches Some(q) ==> {
            &&& q.0 == visible_start(signal@.time, lo)
            &&& q.1 == visible_end(signal@.time, hi)
            &&& q.0 < q.1 <= signal@.time.len()
            &&& final(cache)@ == old(cache)@.insert(signal@.id, q)
        },
{
    let idv = signal.id().raw();
    let t = signal.time();
    let previous: Option<(usize, usize)> = match cache.get(&idv) {
        Some(p) => {
            let (s, e) = *p;
            if s < e && e <= t.len() {
                Some((s, e))
            } else {
                None
            }
        },
        None => None,
    };
    let r = find_visible_index_range(t, lo, hi, previous);
    if let Some(q) = r {
        cache.insert(idv, q);
    }
    r
}

/// A time-series plot tab: its pane id and its per-signal range cache.
pub struct TimeSeriesTab {
    tab_id: u64,
    cache: HashMap<u64, (usize, usize)>,
}

impl TimeSeriesTab {
    pub closed spec fn spec_tab_id(&self) -> u64 {
        self.tab_id
    }

    pub closed spec fn spec_cache(&self) -> Map<u64, (usize, usize)> {
        self.cache@
    }

    pub fn new(tab_id: u64) -> (r: Self)
        ensures
            r.spec_tab_id() == tab_id,
            r.spec_cache() == Map::<u64, (usize, usize)>::empty(),
    {
        TimeSeriesTab { tab_id, cache: HashMap::new() }
    }

    pub fn tab_id(&self) -> (r: u64)
        ensures
            r == self.spec_tab_id(),
    {
        self.tab_id
    }

    /// The index range of `signal` visible in the viewport `[lo, hi]`,
    /// seeded from what this tab remembered for it last frame; the result is
    /// remembered for the next one.
    pub fn visible_range(&mut self, signal: &PlotSignal, lo: i64, hi: i64) -> (r: Option<
        (usize, usize),
    >)
        requires
            signal@.wf(),
            lo <= hi,
        ensures
            final(self).spec_tab_id() == old(self).spec_tab_id(),
            r is None <==> signal@.time.len() == 0,
            r is None ==> final(self).spec_cache() == old(self).spec_cache(),
            r matches Some(q) ==> {
                &&& q.0 == visible_start(signal@.time, lo)
                &&& q.1 == visible_end(signal@.time, hi)
                &&& q.0 < q.1 <= signal@.time.len()
                &&& final(self).spec_cache() == old(self).spec_cache().insert(signal@.id, q)
            },
    {
        cached_visible_range(&mut self.cache, signal, lo, hi)
    }

    /// Forgets every remembered range, as after the buffers are cleared.
    pub fn clear_cache(&mut self)
        ensures
            final(self).spec_tab_id() == old(self).spec_tab_id(),
            final(self).spec_cache() == Map::<u64, (usize, usize)>::empty(),
    {
        self.cache.clear();
    }

    /// Reduces one visible slice to at most two indices per pixel of plot
    /// width, the sub-pixel density the drawn line needs.
    pub fn downsample(
        time: &Vec<i64>,
        data: &Vec<i64>,
        rec_width: usize,
        mode: DownsamplingMethod,
    ) -> (r: Vec<usize>)
        requires
            time@.len() == data@.len(),
            1 <= rec_width <= 0x7FFF_FFFF,
            mode == DownsamplingMethod::Lttb ==> time@.len() <= LTTB_MAX_LEN && coords_bounded(
                time@,
            ) && coords_bounded(data@),
        ensures
            mode == DownsamplingMethod::Decimation ==> r@.len() == decimate_count(
                time@.len() as int,
                2 * rec_width as int,
            ) && (forall|k: int|
                0 <= k < r@.len() ==> #[trigger] r@[k] == k * decimate_step(
                    time@.len() as int,
                    2 * rec_width as int,
                )),
            mode == DownsamplingMethod::Lttb ==> r@.len() == lttb_len(
                time@.len() as int,
                2 * rec_width as int,
            ) && (forall|k: int|
                0 <= k < r@.len() ==> #[trigger] r@[k] == lttb_index(
                    time@,
                    data@,
                    2 * rec_width as int,
                    k,
                )),
            forall|k: int| 0 <= k < r@.len() ==> #[trigger] r@[k] < time@.len(),
            forall|k1: int, k2: int|
                0 <= k1 < k2 < r@.len() ==> #[trigger] r@[k1] < #[trigger] r@[k2],
    {
        crate::downsampling::downsample(time, data, rec_width * 2, mode)
    }
}

/// An x/y plot tab: the same per-signal range cache, applied to the two
/// signals that give the x and the y coordinate.
pub struct XYPlotTab {
    tab_id: u64,
    cache: HashMap<u64, (usize, usize)>,
}

impl XYPlotTab {
    pub closed spec fn spec_tab_id(&self) -> u64 {
        self.tab_id
    }

    pub closed spec fn spec_cache(&self) -> Map<u64, (usize, usize)> {
        self.cache@
    }

    pub fn new(tab_id: u64) -> (r: Self)
        ensures
            r.spec_tab_id() == tab_id,
            r.spec_cache() == Map::<u64, (usize, usize)>::empty(),
    {
        XYPlotTab { tab_id, cache: HashMap::new() }
    }

    /// The index range of `signal` visible in the time window `[lo, hi]`,
    /// cached exactly as for a time-series tab.
    pub fn visible_range(&mut self, signal: &PlotSignal, lo: i64, hi: i64) -> (r: Option<
        (usize, usize),
    >)
        requires
            signal@.wf(),
            lo <= hi,
        ensures
            final(self).spec_tab_id() == old(self).spec_tab_id(),
            r is None <==> signal@.time.len() == 0,
            r is None ==> final(self).spec_cache() == old(self).spec_cache(),
            r matches Some(q) ==> {
                &&& q.0 == visible_start(signal@.time, lo)
                &&& q.1 == visible_end(signal@.time, hi)
                &&& q.0 < q.1 <= signal@.time.len()
                &&& final(self).spec_cache() == old(self).spec_cache().insert(signal@.id, q)
            },
    {
        cached_visible_range(&mut self.cache, signal, lo, hi)
    }

    pub fn clear_cache(&mut self)
        ensures
            final(self).spec_tab_id() == old(self).spec_tab_id(),
            final(self).spec_cache() == Map::<u64, (usize, usize)>::empty(),
    {
        self.cache.clear();
    }

    /// Pairs two signals' values index by index into the x/y points the
    /// plot draws, up to the shorter of the two buffers.
    pub fn xy_points(x: &PlotSignal, y: &PlotSignal) -> (r: Vec<(i64, i64)>)
        ensures
            r@.len() == (if x@.data.len() <= y@.data.len() {
                x@.data.len()
            } else {
                y@.data.len()
            }),
            forall|k: int|
                0 <= k < r@.len() ==> #[trigger] r@[k] == (x@.data[k], y@.data[k]),
    {
        let xs = x.data();
        let ys = y.data();
        let n = if xs.len() <= ys.len() {
            xs.len()
        } else {
            ys.len()
        };
        let mut r: Vec<(i64, i64)> = Vec::new();
        let mut k: usize = 0;
        while k < n
            invariant
                n <= xs@.len(),
                n <= ys@.len(),
                xs@ == x@.data,
                ys@ == y@.data,
                k <= n,
                r@.len() == k,
                forall|l: int| 0 <= l < k ==> #[trigger] r@[l] == (x@.data[l], y@.data[l]),
            decreases n - k,
        {
            r.push((xs[k], ys[k]));
            k = k + 1;
        }
        r
    }
}

/// The kinds of plot tab a pane can hold.
pub enum Tab {
    TimeSeries(TimeSeriesTab),
}

impl Tab {
    /// A fresh time-series tab for the given pane, with an unseeded cache.
    pub fn timeseries(tab_id: u64) -> (r: Self)
        ensures
            r matches Tab::TimeSeries(t) && t.spec_tab_id() == tab_id && t.spec_cache()
                == Map::<u64, (usize, usize)>::empty(),
    {
        Tab::TimeSeries(TimeSeriesTab::new(tab_id))
    }
}

/// A docked pane: its id and the tab it shows.
pub struct BaseTab {
    pub tab_id: u64,
    pub tab: Tab,
}

impl BaseTab {
    pub fn new(tab_id: u64, tab: Tab) -> (r: Self)
        ensures
            r.tab_id == tab_id,
            r.tab == tab,
    {
        BaseTab { tab_id, tab }
    }
}

/// The character for one decimal digit.
pub open spec fn digit_char(d: int) -> char {
    if d == 0 {
        '0'
    } else if d == 1 {
        '1'
    } else if d == 2 {
        '2'
    } else if d == 3 {
        '3'
    } else if d == 4 {
        '4'
    } else if d == 5 {
        '5'
    } else if d == 6 {
        '6'
    } else if d == 7 {
        '7'
    } else if d == 8 {
        '8'
    } else {
        '9'
    }
}

/// The decimal digits of a non-negative number, most significant first.
pub open spec fn dec_digits(n: int) -> Seq<char>
    decreases n,
{
    if n < 10 {
        seq![digit_char(n)]
    } else {
        dec_digits(n / 10).push(digit_char(n % 10))
    }
}

fn digit_str(d: usize) -> (r: &'static str)
    requires
        d < 10,
    ensures
        r@ =~= seq![digit_char(d as int)],
{
    proof {
        reveal_strlit("0");
        reveal_strlit("1");
        reveal_strlit("2");
        reveal_strlit("3");
        reveal_strlit("4");
        reveal_strlit("5");
        reveal_strlit("6");
        reveal_strlit("7");
        reveal_strlit("8");
        reveal_strlit("9");
    }
    match d {
        0 => "0",
        1 => "1",
        2 => "2",
        3 => "3",
        4 => "4",
        5 => "5",
        6 => "6",
        7 => "7",
        8 => "8",
        _ => "9",
    }
}

/// Renders a number in decimal.
fn format_usize(n: usize) -> (r: String)
    ensures
        r@ == dec_digits(n as int),
    decreases n,
{
    if n < 10 {
        digit_str(n).to_owned()
    } else {
        let mut s = format_usize(n / 10);
        push_str_piece(&mut s, digit_str(n % 10));
        proof {
            assert(s@ =~= dec_digits(n as int));
        }
        s
    }
}

/// A plot tab of the grouped layout: which signal paths it shows.
pub struct PlotTab {
    pub signals: HashSet<String>,
    index: usize,
}

impl PlotTab {
    pub closed spec fn spec_index(&self) -> usize {
        self.index
    }

    pub fn new(index: usize) -> (r: Self)
        ensures
            r.spec_index() == index,
    {
        PlotTab { index, signals: HashSet::new() }
    }

    /// The tab's display title: the word `Tab` and its number.
    pub fn title(&self) -> (r: String)
        ensures
            r@ == "Tab "@ + dec_digits(self.spec_index() as int),
    {
        let mut s = "Tab ".to_owned();
        push_str_piece(&mut s, format_usize(self.index).as_str());
        s
    }
}

} // verus!

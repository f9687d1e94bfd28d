//! Consumer-side aggregation, the name tree, and per-view range caches.

use rust_data_inspector::hashtree::HashTree;
use rust_data_inspector::signal::{PlotSignalSample, PlotSignals};
use rust_data_inspector::simpletree::SimpleTree;
use rust_data_inspector::state::{DataInspectorAPI, SignalData, XAxisMode};
use rust_data_inspector::tabs::{BaseTab, PlotTab, Tab, TimeSeriesTab, XYPlotTab};
use rust_data_inspector::vectree::VecTree;

fn sample(time: i64, value: i64) -> PlotSignalSample {
    PlotSignalSample { time, value }
}

#[test]
fn time_span_covers_all_signals() {
    let mut signals = PlotSignals::default();
    let (_, mut pa) = signals.add_signal("/a").unwrap();
    let (_, mut pb) = signals.add_signal("/b").unwrap();
    for t in [1000, 2000, 3000] {
        pa.send(sample(t, 0)).unwrap();
    }
    for t in [500, 1500, 2500] {
        pb.send(sample(t, 0)).unwrap();
    }
    let mut data = SignalData::new(signals);
    assert_eq!(data.time_span(), None);
    data.update();
    assert_eq!(data.time_span(), Some((500, 3000)));
    assert!(data.all_signals_have_data());
}

#[test]
fn time_span_right_edge_follows_new_samples() {
    let mut signals = PlotSignals::default();
    let (_, mut p) = signals.add_signal("/a").unwrap();
    p.send(sample(10, 0)).unwrap();
    let mut data = SignalData::new(signals);
    data.update();
    assert_eq!(data.time_span(), Some((10, 10)));
    p.send(sample(50, 0)).unwrap();
    data.update();
    assert_eq!(data.time_span(), Some((10, 50)));
}

#[test]
fn time_span_stays_empty_without_samples() {
    let mut signals = PlotSignals::default();
    let (_, _p) = signals.add_signal("/a").unwrap();
    let mut data = SignalData::new(signals);
    data.update();
    assert_eq!(data.time_span(), None);
    assert!(!data.all_signals_have_data());
}

#[test]
fn signal_tree_groups_names_by_path() {
    let mut signals = PlotSignals::default();
    let (id_b, _pb) = signals.add_signal("/a/b").unwrap();
    let (id_c, _pc) = signals.add_signal("/a/c").unwrap();
    let (id_s, _ps) = signals.add_signal("/status").unwrap();
    let data = SignalData::new(signals);
    let root = data.signal_tree();
    assert_eq!(root.value.name, "");
    assert_eq!(root.value.path, "/");
    assert_eq!(root.value.signal, None);
    assert_eq!(root.children.len(), 2);

    let a = &root.children[0];
    assert_eq!(a.value.name, "a");
    assert_eq!(a.value.path, "/a/");
    assert_eq!(a.value.signal, None);
    assert_eq!(a.children.len(), 2);
    let b = &a.children[0];
    assert_eq!(b.value.name, "b");
    assert_eq!(b.value.path, "/a/b");
    assert_eq!(b.value.signal, Some(id_b));
    assert!(b.children.is_empty());
    let c = &a.children[1];
    assert_eq!(c.value.name, "c");
    assert_eq!(c.value.path, "/a/c");
    assert_eq!(c.value.signal, Some(id_c));

    let s = &root.children[1];
    assert_eq!(s.value.name, "status");
    assert_eq!(s.value.path, "/status");
    assert_eq!(s.value.signal, Some(id_s));
    assert!(s.children.is_empty());
}

#[test]
fn signal_tree_children_are_sorted_by_name() {
    let mut signals = PlotSignals::default();
    signals.add_signal("/zeta").unwrap();
    signals.add_signal("/alpha/two").unwrap();
    signals.add_signal("/alpha/one").unwrap();
    signals.add_signal("/mid").unwrap();
    let data = SignalData::new(signals);
    let root = data.signal_tree();
    let names: Vec<&str> = root.children.iter().map(|n| n.value.name.as_str()).collect();
    assert_eq!(names, vec!["alpha", "mid", "zeta"]);
    let inner: Vec<&str> =
        root.children[0].children.iter().map(|n| n.value.name.as_str()).collect();
    assert_eq!(inner, vec!["one", "two"]);
    assert_eq!(root.children[0].children[0].value.path, "/alpha/one");
}

#[test]
fn timeseries_tab_caches_the_visible_range() {
    let mut signals = PlotSignals::default();
    let (id, mut p) = signals.add_signal("/a").unwrap();
    for t in 0..50 {
        p.send(sample(t * 10, t)).unwrap();
    }
    signals.update();
    let mut tab = TimeSeriesTab::new(7);
    assert_eq!(tab.tab_id(), 7);
    let sig = signals.get_signal(id);
    let first = tab.visible_range(sig, 95, 205);
    assert_eq!(first, Some((9, 22)));
    // Seeded from the cache, the same viewport maps to the same range.
    let second = tab.visible_range(sig, 95, 205);
    assert_eq!(second, first);
    tab.clear_cache();
    assert_eq!(tab.visible_range(sig, 95, 205), first);
}

#[test]
fn xy_tab_caches_like_a_timeseries_tab() {
    let mut signals = PlotSignals::default();
    let (id, mut p) = signals.add_signal("/a").unwrap();
    for t in 0..10 {
        p.send(sample(t, t)).unwrap();
    }
    signals.update();
    let mut tab = XYPlotTab::new(3);
    let sig = signals.get_signal(id);
    let r = tab.visible_range(sig, 2, 6);
    assert_eq!(r, Some((1, 8)));
}

#[test]
fn empty_signal_has_no_visible_range() {
    let mut signals = PlotSignals::default();
    let (id, _p) = signals.add_signal("/a").unwrap();
    signals.update();
    let mut tab = TimeSeriesTab::new(1);
    assert_eq!(tab.visible_range(signals.get_signal(id), 0, 10), None);
}

#[test]
fn tab_wrappers_carry_their_ids() {
    let tab = Tab::timeseries(4);
    let base = BaseTab::new(4, tab);
    assert_eq!(base.tab_id, 4);
    match base.tab {
        Tab::TimeSeries(t) => assert_eq!(t.tab_id(), 4),
    }
    let plot_tab = PlotTab::new(2);
    assert!(plot_tab.signals.is_empty());
    assert_eq!(plot_tab.title(), "Tab 2");
    assert_eq!(PlotTab::new(105).title(), "Tab 105");
}

#[test]
fn xy_points_pair_values_up_to_the_shorter_signal() {
    let mut signals = PlotSignals::default();
    let (id_x, mut px) = signals.add_signal("/x").unwrap();
    let (id_y, mut py) = signals.add_signal("/y").unwrap();
    for t in 0..3 {
        px.send(sample(t, t * 10)).unwrap();
    }
    for t in 0..2 {
        py.send(sample(t, t * 100)).unwrap();
    }
    signals.update();
    let points = XYPlotTab::xy_points(signals.get_signal(id_x), signals.get_signal(id_y));
    assert_eq!(points, vec![(0, 0), (10, 100)]);
}

#[test]
fn inspector_api_records_the_clear_request() {
    let mut api = DataInspectorAPI::default();
    assert!(!api.clear_timeseries_requested());
    api.clear_timeseries();
    assert!(api.clear_timeseries_requested());
}

#[test]
fn x_axis_mode_defaults_to_fit() {
    assert_eq!(XAxisMode::default(), XAxisMode::Fit);
}

#[test]
fn simple_tree_collects_children() {
    let mut tree: SimpleTree<u32> = SimpleTree::new(1);
    assert_eq!(tree.elem, 1);
    tree.add_child(2);
    let grand = tree.add_child(3);
    grand.add_child(4);
    assert_eq!(tree.get_children().len(), 2);
    assert_eq!(tree.get_children()[1].elem, 3);
    assert_eq!(tree.get_children()[1].get_children().len(), 1);
    tree.get_children_mut().clear();
    assert!(tree.get_children().is_empty());
}

#[test]
fn hash_tree_inserts_and_finds_by_key() {
    let mut tree: HashTree<u64, &str> = HashTree::new("root");
    assert_eq!(tree.count_children(), 0);
    assert_eq!(tree.insert(1, "one"), None);
    assert_eq!(tree.insert(2, "two"), None);
    assert!(tree.contains_key(&1));
    assert!(!tree.contains_key(&3));
    assert_eq!(tree.node(&2).unwrap().v, "two");
    assert_eq!(tree.node(&3).map(|n| n.v), None);
    // Re-inserting a key replaces the subtree and returns the old value.
    assert_eq!(tree.insert(1, "uno"), Some("one"));
    assert_eq!(tree.count_children(), 2);
    assert_eq!(tree.node(&1).unwrap().v, "uno");
}

#[test]
fn vec_tree_starts_as_a_leaf() {
    let tree: VecTree<i32> = VecTree::new(9);
    assert_eq!(tree.value, 9);
    assert!(tree.children.is_empty());
}

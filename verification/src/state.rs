//! Consumer-side state: the signal registry wrapped together with the
//! hierarchical name tree shown in the signal list and the running time span
//! of all buffered samples.

use vstd::prelude::*;
use crate::names::{
    all_separator_free, chain_to_name, is_path_prefix, join_with, lemma_chain_take_prefix,
    lemma_join_leading_empty, lemma_lex_total, lemma_lex_transitive, lex_lt, names_conflict,
    push_str_piece, str_eq, str_lt,
};
use crate::signal::{is_ingestion_of, PlotSignal, PlotSignalID, PlotSignalView, PlotSignals};
use crate::vectree::VecTree;

verus! {

/// How the plots' shared x axis follows the data.
#[derive(Clone, Copy, Debug, PartialEq, Eq, Structural)]
pub enum XAxisMode {
    Fit,
    Follow,
    Free,
}

impl Default for XAxisMode {
    fn default() -> (r: Self)
        ensures
            r == XAxisMode::Fit,
    {
        XAxisMode::Fit
    }
}

#[derive(Clone, Copy, Debug)]
pub struct DebugInfo {}

/// What custom toolbar code may ask of the inspector.
pub struct DataInspectorAPI {
    clear_timeseries: bool,
}

impl DataInspectorAPI {
    pub closed spec fn spec_clear_timeseries(&self) -> bool {
        self.clear_timeseries
    }

    /// Asks the inspector to clear every buffered time series.
    pub fn clear_timeseries(&mut self)
        ensures
            final(self).spec_clear_timeseries(),
    {
        self.clear_timeseries = true;
    }

    pub fn clear_timeseries_requested(&self) -> (r: bool)
        ensures
            r == self.spec_clear_timeseries(),
    {
        self.clear_timeseries
    }
}

impl Default for DataInspectorAPI {
    fn default() -> (r: Self)
        ensures
            !r.spec_clear_timeseries(),
    {
        DataInspectorAPI { clear_timeseries: false }
    }
}

/// One node of the signal name tree: a path segment, the full path down to
/// it, and the signal's id when the node is a leaf.
#[derive(Debug)]
pub struct SignalNode {
    pub name: String,
    pub path: String,
    pub signal: Option<PlotSignalID>,
}

/// Does the tree hold a chain of child nodes named `segs`?
pub open spec fn chain_in_tree(t: VecTree<SignalNode>, segs: Seq<Seq<char>>) -> bool
    decreases segs.len(),
{
    segs.len() > 0 && exists|j: int|
        0 <= j < t.children@.len() && {
            let c = #[trigger] t.children@[j];
            c.value.name@ == segs[0] && (segs.len() == 1 || chain_in_tree(c, segs.drop_first()))
        }
}

/// Does the tree hold a chain named `segs` whose last node carries a signal?
pub open spec fn marked_chain(t: VecTree<SignalNode>, segs: Seq<Seq<char>>) -> bool
    decreases segs.len(),
{
    segs.len() > 0 && exists|j: int|
        0 <= j < t.children@.len() && {
            let c = #[trigger] t.children@[j];
            &&& c.value.name@ == segs[0]
            &&& if segs.len() == 1 {
                c.value.signal is Some
            } else {
                marked_chain(c, segs.drop_first())
            }
        }
}

/// Does the tree hold, below a node whose accumulated path is `prefix`, the
/// chain of child names `segs`, every interior node of it carrying its
/// accumulated path with a trailing separator, and the leaf carrying the
/// signal id `id` and the full signal name as its path?
pub open spec fn tree_contains_path(
    t: VecTree<SignalNode>,
    prefix: Seq<char>,
    name: Seq<char>,
    segs: Seq<Seq<char>>,
    id: u64,
) -> bool
    decreases segs.len(),
{
    segs.len() > 0 && exists|j: int|
        0 <= j < t.children@.len() && {
            let c = #[trigger] t.children@[j];
            &&& c.value.name@ == segs[0]
            &&& if segs.len() == 1 {
                &&& c.value.signal matches Some(s) && s@ == id
                &&& c.value.path@ == name
            } else {
                &&& c.value.path@ == prefix + segs[0] + seq!['/']
                &&& tree_contains_path(c, prefix + segs[0] + seq!['/'], name, segs.drop_first(), id)
            }
        }
}

/// One node's children are strictly sorted by name (hence duplicate-free).
pub open spec fn children_sorted(t: VecTree<SignalNode>) -> bool {
    forall|p: int, q: int|
        0 <= p < q < t.children@.len() ==> lex_lt(
            (#[trigger] t.children@[p]).value.name@,
            (#[trigger] t.children@[q]).value.name@,
        )
}

/// Every node's children are strictly sorted by name.
pub open spec fn tree_sorted(t: VecTree<SignalNode>) -> bool
    decreases t,
{
    children_sorted(t) && (forall|j: int|
        0 <= j < t.children@.len() ==> tree_sorted(#[trigger] t.children@[j]))
}

/// Only leaves carry a signal id: a marked node has no children.
pub open spec fn tree_leaves_only(t: VecTree<SignalNode>) -> bool
    decreases t,
{
    forall|j: int|
        0 <= j < t.children@.len() ==> ((#[trigger] t.children@[j]).value.signal is Some
            ==> t.children@[j].children@.len() == 0) && tree_leaves_only(t.children@[j])
}

/// Every node's stored path is its accumulated path below `prefix`: interior
/// nodes end with the separator, leaves do not.
pub open spec fn tree_paths_ok(t: VecTree<SignalNode>, prefix: Seq<char>) -> bool
    decreases t,
{
    forall|j: int|
        0 <= j < t.children@.len() ==> {
            let c = #[trigger] t.children@[j];
            &&& (c.value.signal is Some ==> c.value.path@ == prefix + c.value.name@)
            &&& (c.value.signal is None ==> c.value.path@ == prefix + c.value.name@ + seq!['/'])
            &&& tree_paths_ok(c, prefix + c.value.name@ + seq!['/'])
        }
}

/// Is `a` a prefix of the sequence `b`?
pub open spec fn seq_prefix_of(a: Seq<Seq<char>>, b: Seq<Seq<char>>) -> bool {
    a.len() <= b.len() && a == b.take(a.len() as int)
}

/// The smallest first timestamp over every signal that has one.
pub open spec fn span_min(sigs: Seq<PlotSignalView>) -> Option<i64>
    decreases sigs.len(),
{
    if sigs.len() == 0 {
        None
    } else {
        let rest = span_min(sigs.drop_last());
        let s = sigs.last();
        if s.time.len() == 0 {
            rest
        } else {
            match rest {
                None => Some(s.time.first()),
                Some(m) => Some(
                    if s.time.first() < m {
                        s.time.first()
                    } else {
                        m
                    },
                ),
            }
        }
    }
}

/// The largest last timestamp over every signal that has one.
pub open spec fn span_max(sigs: Seq<PlotSignalView>) -> Option<i64>
    decreases sigs.len(),
{
    if sigs.len() == 0 {
        None
    } else {
        let rest = span_max(sigs.drop_last());
        let s = sigs.last();
        if s.time.len() == 0 {
            rest
        } else {
            match rest {
                None => Some(s.time.last()),
                Some(m) => Some(
                    if s.time.last() > m {
                        s.time.last()
                    } else {
                        m
                    },
                ),
            }
        }
    }
}

pub open spec fn opt_min_i64(a: Option<i64>, b: Option<i64>) -> Option<i64> {
    match (a, b) {
        (Some(x), Some(y)) => Some(
            if x < y {
                x
            } else {
                y
            },
        ),
        (Some(x), None) => Some(x),
        (None, Some(y)) => Some(y),
        (None, None) => None,
    }
}

pub open spec fn opt_max_i64(a: Option<i64>, b: Option<i64>) -> Option<i64> {
    match (a, b) {
        (Some(x), Some(y)) => Some(
            if x > y {
                x
            } else {
                y
            },
        ),
        (Some(x), None) => Some(x),
        (None, Some(y)) => Some(y),
        (None, None) => None,
    }
}

/// How one update cycle advances the recorded time span. The left edge stops
/// moving once every signal has produced data (`min_frozen`); the right edge
/// follows the newest sample. The span only takes a value once both edges
/// have one.
pub open spec fn updated_span(
    span: Option<(i64, i64)>,
    min_frozen: bool,
    sigs: Seq<PlotSignalView>,
) -> Option<(i64, i64)> {
    let old_min = match span {
        Some(s) => Some(s.0),
        None => None,
    };
    let old_max = match span {
        Some(s) => Some(s.1),
        None => None,
    };
    let mn = if min_frozen {
        old_min
    } else {
        opt_min_i64(old_min, span_min(sigs))
    };
    let mx = opt_max_i64(old_max, span_max(sigs));
    match (mn, mx) {
        (Some(a), Some(b)) => Some((a, b)),
        _ => span,
    }
}

/// The registry bundled with its name tree and the time span of everything
/// buffered so far, as the rendering layer consumes it.
pub struct SignalData {
    signals: PlotSignals,
    signal_tree: VecTree<SignalNode>,
    time_span: Option<(i64, i64)>,
    all_signals_have_data: bool,
}

impl SignalData {
    pub closed spec fn sigs(&self) -> Seq<PlotSignalView> {
        self.signals@
    }

    pub closed spec fn spec_signals(&self) -> PlotSignals {
        self.signals
    }

    pub closed spec fn spec_tree(&self) -> VecTree<SignalNode> {
        self.signal_tree
    }

    pub closed spec fn spec_time_span(&self) -> Option<(i64, i64)> {
        self.time_span
    }

    pub closed spec fn spec_all_have_data(&self) -> bool {
        self.all_signals_have_data
    }

    pub closed spec fn wf(&self) -> bool {
        self.signals.wf()
    }

    /// Wraps a registry, growing the name tree from its registered names.
    pub fn new(signals: PlotSignals) -> (r: Self)
        requires
            signals.wf(),
        ensures
            r.wf(),
            r.sigs() == signals@,
            r.spec_time_span() is None,
            !r.spec_all_have_data(),
            r.spec_tree().value.name@ == Seq::<char>::empty(),
            r.spec_tree().value.path@ == seq!['/'],
            r.spec_tree().value.signal is None,
            tree_sorted(r.spec_tree()),
            tree_leaves_only(r.spec_tree()),
            tree_paths_ok(r.spec_tree(), seq!['/']),
            forall|i: int|
                0 <= i < signals@.len() ==> signal_in_tree(
                    r.spec_tree(),
                    (#[trigger] signals@[i]).name,
                    signals@[i].id,
                ),
            forall|segs: Seq<Seq<char>>|
                #[trigger] marked_chain(r.spec_tree(), segs) ==> exists|j: int|
                    0 <= j < signals@.len() && chain_to_name(segs) == (#[trigger] signals@[j]).name,
    {
        let signal_tree = Self::grow_signal_tree(&signals);
        SignalData { signals, signal_tree, time_span: None, all_signals_have_data: false }
    }

    pub fn signals(&self) -> (r: &PlotSignals)
        ensures
            *r == self.spec_signals(),
            r@ == self.sigs(),
            self.wf() ==> r.wf(),
    {
        &self.signals
    }

    pub fn signal_tree(&self) -> (r: &VecTree<SignalNode>)
        ensures
            *r == self.spec_tree(),
    {
        &self.signal_tree
    }

    /// The smallest and largest timestamp buffered so far, when any.
    pub fn time_span(&self) -> (r: Option<(i64, i64)>)
        ensures
            r == self.spec_time_span(),
    {
        self.time_span
    }

    pub fn all_signals_have_data(&self) -> (r: bool)
        ensures
            r == self.spec_all_have_data(),
    {
        self.all_signals_have_data
    }

    /// Drains every signal's channel into its buffer, then moves the time
    /// span and the all-signals-active flag forward accordingly.
    pub fn update(&mut self)
        requires
            old(self).wf(),
        ensures
            final(self).wf(),
            final(self).sigs().len() == old(self).sigs().len(),
            forall|i: int|
                0 <= i < final(self).sigs().len() ==> is_ingestion_of(
                    #[trigger] final(self).sigs()[i],
                    old(self).sigs()[i],
                ),
            forall|i: int|
                0 <= i < final(self).sigs().len() ==> old(self).sigs()[i].time.is_prefix_of(
                    (#[trigger] final(self).sigs()[i]).time,
                ),
            final(self).spec_time_span() == updated_span(
                old(self).spec_time_span(),
                old(self).spec_all_have_data(),
                final(self).sigs(),
            ),
            final(self).spec_all_have_data() <==> (forall|i: int|
                0 <= i < final(self).sigs().len() ==> (#[trigger] final(self).sigs()[i]).time.len()
                    > 0),
            final(self).spec_tree() == old(self).spec_tree(),
    {
        self.signals.update();
        let frozen = self.all_signals_have_data;
        let mut mn: Option<i64> = match self.time_span {
            Some(s) => Some(s.0),
            None => None,
        };
        let mut mx: Option<i64> = match self.time_span {
            Some(s) => Some(s.1),
            None => None,
        };
        let ghost old_min = mn;
        let ghost old_max = mx;
        let mut all_data = true;
        let list = self.signals.get_signals();
        let n = list.len();
        let mut i: usize = 0;
        while i < n
            invariant
                n == list@.len(),
                list@.map_values(|s: PlotSignal| s@) == self.signals@,
                i <= n,
                mn == (if frozen {
                    old_min
                } else {
                    opt_min_i64(old_min, span_min(self.signals@.take(i as int)))
                }),
                mx == opt_max_i64(old_max, span_max(self.signals@.take(i as int))),
                all_data <==> (forall|j: int|
                    0 <= j < i ==> (#[trigger] self.signals@[j]).time.len() > 0),
            decreases n - i,
        {
            let ghost prefix = self.signals@.take(i as int);
            let t = list[i].time();
            proof {
                assert(list@[i as int]@ == self.signals@[i as int]);
                assert(self.signals@.take(i + 1).drop_last() =~= prefix);
                assert(self.signals@.take(i + 1).last() == self.signals@[i as int]);
            }
            if t.len() > 0 {
                let first = t[0];
                let last = t[t.len() - 1];
                if !frozen {
                    mn = match mn {
                        Some(m) => Some(
                            if first < m {
                                first
                            } else {
                                m
                            },
                        ),
                        None => Some(first),
                    };
                }
                mx = match mx {
                    Some(m) => Some(
                        if last > m {
                            last
                        } else {
                            m
                        },
                    ),
                    None => Some(last),
                };
            } else {
                all_data = false;
            }
            i = i + 1;
        }
        proof {
            assert(self.signals@.take(n as int) =~= self.signals@);
        }
        if let (Some(a), Some(b)) = (mn, mx) {
            self.time_span = Some((a, b));
        }
        self.all_signals_have_data = all_data;
    }

    /// Builds the name tree: one chain of nodes per registered signal, one
    /// node per path segment, sharing nodes with every signal that shares
    /// the path prefix. Every node carries its accumulated path (interior
    /// nodes with a trailing separator, leaves the full signal name),
    /// every node's children are strictly sorted by name, only leaves carry
    /// ids, and every marked leaf chain reads back as a registered name.
    #[verifier::loop_isolation(false)]
    fn grow_signal_tree(signals: &PlotSignals) -> (r: VecTree<SignalNode>)
        requires
            signals.wf(),
        ensures
            r.value.name@ == Seq::<char>::empty(),
            r.value.path@ == seq!['/'],
            r.value.signal is None,
            tree_sorted(r),
            tree_leaves_only(r),
            tree_paths_ok(r, seq!['/']),
            forall|i: int|
                0 <= i < signals@.len() ==> signal_in_tree(
                    r,
                    (#[trigger] signals@[i]).name,
                    signals@[i].id,
                ),
            forall|segs: Seq<Seq<char>>|
                #[trigger] marked_chain(r, segs) ==> exists|j: int|
                    0 <= j < signals@.len() && chain_to_name(segs) == (#[trigger] signals@[j]).name,
    {
        proof {
            signals.lemma_wf_view();
            reveal_strlit("/");
        }
        let root_prefix: &str = "/";
        let mut root = VecTree::new(
            SignalNode { name: String::new(), path: "/".to_owned(), signal: None },
        );
        proof {
            assert(root_prefix@ =~= seq!['/']);
            assert(root.value.path@ =~= seq!['/']);
            assert(root.value.name@ =~= Seq::<char>::empty());
        }
        let list = signals.get_signals();
        let n = list.len();
        let mut i: usize = 0;
        while i < n
            invariant
                n == list@.len(),
                list@.map_values(|s: PlotSignal| s@) == signals@,
                i <= n,
                root.value.name@ == Seq::<char>::empty(),
                root.value.path@ == seq!['/'],
                root.value.signal is None,
                tree_sorted(root),
                tree_leaves_only(root),
                tree_paths_ok(root, seq!['/']),
                forall|j: int|
                    0 <= j < i ==> signal_in_tree(
                        root,
                        (#[trigger] signals@[j]).name,
                        signals@[j].id,
                    ),
                forall|segs: Seq<Seq<char>>|
                    #[trigger] marked_chain(root, segs) ==> exists|j: int|
                        0 <= j < i && chain_to_name(segs) == (#[trigger] signals@[j]).name,
                forall|segs: Seq<Seq<char>>|
                    #[trigger] chain_in_tree(root, segs) ==> exists|j: int|
                        0 <= j < i && is_path_prefix(
                            chain_to_name(segs),
                            (#[trigger] signals@[j]).name,
                        ),
            decreases n - i,
        {
            let ghost name = signals@[i as int].name;
            proof {
                assert(list@[i as int]@ == signals@[i as int]);
                assert(crate::names::name_well_formed(name));
            }
            let parts = list[i].path_elements();
            let ghost full = parts@.map_values(|t: &str| t@);
            let ghost chain = seg_views(parts@, 1);
            proof {
                lemma_join_head(full, '/');
                assert(full.len() >= 2) by {
                    assert(name[0] == '/');
                    if full.len() == 1 {
                        assert(join_with(full, '/') == full[0]);
                        assert(full[0][0] != '/');
                    }
                }
                assert(full[0] =~= Seq::<char>::empty()) by {
                    assert(name[0] == '/');
                    if full[0].len() > 0 {
                        assert(full[0][0] != '/');
                    }
                }
                assert(chain =~= full.drop_first());
                lemma_join_leading_empty(chain, '/');
                assert(seq![Seq::<char>::empty()] + chain =~= full);
                assert(name == chain_to_name(chain));
                assert(all_separator_free(chain, '/')) by {
                    assert forall|x: int, c: int|
                        0 <= x < chain.len() && 0 <= c < chain[x].len() implies #[trigger] chain[x][c]
                        != '/' by {
                        assert(chain[x] == full[x + 1]);
                        assert(full[x + 1][c] != '/');
                    }
                }
                // The insert below succeeds: a chain or marked prefix already
                // in the tree would name a registered signal in conflict with
                // this one.
                assert forall|k: int| 1 <= k < chain.len() implies !marked_chain(
                    root,
                    #[trigger] chain.take(k),
                ) by {
                    if marked_chain(root, chain.take(k)) {
                        let j = choose|j: int|
                            0 <= j < i && chain_to_name(chain.take(k)) == (
                            #[trigger] signals@[j]).name;
                        lemma_chain_take_prefix(chain, k);
                        assert(is_path_prefix(signals@[j].name, name));
                        assert(names_conflict(signals@[j].name, name));
                    }
                }
                assert(!chain_in_tree(root, chain)) by {
                    if chain_in_tree(root, chain) {
                        let j = choose|j: int|
                            0 <= j < i && is_path_prefix(
                                chain_to_name(chain),
                                (#[trigger] signals@[j]).name,
                            );
                        assert(names_conflict(name, signals@[j].name));
                    }
                }
            }
            let id = list[i].id();
            let ghost before = root;
            let ok = tree_insert_path(&mut root, root_prefix, list[i].name(), &parts, 1, id);
            proof {
                assert(ok);
                assert(signal_in_tree(root, name, id@)) by {
                    assert(tree_contains_path(root, seq!['/'], name, chain, id@));
                    assert(chain_to_name(chain) == name);
                }
                assert forall|j: int| 0 <= j < i implies signal_in_tree(
                    root,
                    (#[trigger] signals@[j]).name,
                    signals@[j].id,
                ) by {
                    let name_j = signals@[j].name;
                    let segs_j = choose|segs: Seq<Seq<char>>|
                        {
                            &&& #[trigger] chain_to_name(segs) == name_j
                            &&& all_separator_free(segs, '/')
                            &&& segs.len() >= 1
                            &&& tree_contains_path(before, seq!['/'], name_j, segs, signals@[j].id)
                        };
                    assert(tree_contains_path(root, seq!['/'], name_j, segs_j, signals@[j].id));
                }
                assert forall|segs: Seq<Seq<char>>| #[trigger] marked_chain(root, segs) implies
                    exists|j: int|
                    0 <= j < i + 1 && chain_to_name(segs) == (#[trigger] signals@[j]).name by {
                    if marked_chain(before, segs) {
                    } else {
                        assert(segs == chain);
                        assert(chain_to_name(segs) == signals@[i as int].name);
                    }
                }
                assert forall|segs: Seq<Seq<char>>| #[trigger] chain_in_tree(root, segs) implies
                    exists|j: int|
                    0 <= j < i + 1 && is_path_prefix(
                        chain_to_name(segs),
                        (#[trigger] signals@[j]).name,
                    ) by {
                    if chain_in_tree(before, segs) {
                    } else {
                        assert(seq_prefix_of(segs, chain));
                        assert(segs.len() >= 1);
                        lemma_chain_take_prefix(chain, segs.len() as int);
                        assert(is_path_prefix(chain_to_name(segs), name));
                        assert(is_path_prefix(chain_to_name(segs), signals@[i as int].name));
                    }
                }
            }
            i = i + 1;
        }
        root
    }
}

/// The views of the path segments from position `depth` on.
pub open spec fn seg_views(parts: Seq<&str>, depth: int) -> Seq<Seq<char>> {
    parts.subrange(depth, parts.len() as int).map_values(|t: &str| t@)
}

/// The first segment is a prefix of the joined path, followed by the
/// separator when further segments follow.
proof fn lemma_join_head(segs: Seq<Seq<char>>, sep: char)
    requires
        segs.len() >= 1,
    ensures
        segs[0].len() <= join_with(segs, sep).len(),
        forall|c: int| 0 <= c < segs[0].len() ==> join_with(segs, sep)[c] == segs[0][c],
        segs.len() >= 2 ==> join_with(segs, sep).len() > segs[0].len() && join_with(segs, sep)[
            segs[0].len() as int
        ] == sep,
    decreases segs.len(),
{
    if segs.len() >= 2 {
        let t = segs.drop_last();
        lemma_join_head(t, sep);
        assert(t[0] == segs[0]);
        assert(join_with(segs, sep) == join_with(t, sep) + seq![sep] + segs.last());
    }
}

/// Joining splits off the first segment.
proof fn lemma_join_unfold_left(segs: Seq<Seq<char>>, sep: char)
    requires
        segs.len() >= 2,
    ensures
        join_with(segs, sep) =~= segs[0] + seq![sep] + join_with(segs.drop_first(), sep),
    decreases segs.len(),
{
    if segs.len() == 2 {
        assert(segs.drop_last() =~= seq![segs[0]]);
        assert(join_with(seq![segs[0]], sep) == segs[0]);
        assert(segs.drop_first() =~= seq![segs[1]]);
        assert(join_with(seq![segs[1]], sep) == segs[1]);
        assert(join_with(segs, sep) == join_with(segs.drop_last(), sep) + seq![sep] + segs.last());
    } else {
        lemma_join_unfold_left(segs.drop_last(), sep);
        assert(segs.drop_last()[0] == segs[0]);
        assert(segs.drop_last().drop_first() =~= segs.drop_first().drop_last());
        assert(join_with(segs, sep) == join_with(segs.drop_last(), sep) + seq![sep] + segs.last());
        assert(join_with(segs.drop_first(), sep) == join_with(
            segs.drop_first().drop_last(),
            sep,
        ) + seq![sep] + segs.drop_first().last());
        assert(segs.drop_first().last() == segs.last());
    }
}

/// The tree holds a leaf for the signal: below the root runs the chain of
/// the name's segments, each interior node carrying its accumulated path,
/// and the leaf carrying the id and the full name as its path.
pub open spec fn signal_in_tree(t: VecTree<SignalNode>, name: Seq<char>, id: u64) -> bool {
    exists|segs: Seq<Seq<char>>|
        {
            &&& #[trigger] chain_to_name(segs) == name
            &&& all_separator_free(segs, '/')
            &&& segs.len() >= 1
            &&& tree_contains_path(t, seq!['/'], name, segs, id)
        }
}

/// Inserts the segment chain `parts[depth..]` below `node`, whose
/// accumulated path is `prefix`, creating the missing nodes at their sorted
/// positions and recording the signal's id and full name at the leaf.
/// Refuses when the chain is already present or runs through a node that
/// already carries a signal.
#[verifier::loop_isolation(false)]
fn tree_insert_path(
    node: &mut VecTree<SignalNode>,
    prefix: &str,
    name: &str,
    parts: &Vec<&str>,
    depth: usize,
    id: PlotSignalID,
) -> (ok: bool)
    requires
        1 <= depth < parts@.len(),
        tree_sorted(*old(node)),
        tree_leaves_only(*old(node)),
        tree_paths_ok(*old(node), prefix@),
        name@ == prefix@ + join_with(seg_views(parts@, depth as int), '/'),
    ensures
        final(node).value == old(node).value,
        tree_sorted(*final(node)),
        tree_leaves_only(*final(node)),
        tree_paths_ok(*final(node), prefix@),
        ((forall|k: int|
            1 <= k < seg_views(parts@, depth as int).len() ==> !marked_chain(
                *old(node),
                #[trigger] seg_views(parts@, depth as int).take(k),
            )) && !chain_in_tree(*old(node), seg_views(parts@, depth as int))) ==> ok,
        ok ==> tree_contains_path(
            *final(node),
            prefix@,
            name@,
            seg_views(parts@, depth as int),
            id@,
        ),
        forall|pfx: Seq<char>, nm: Seq<char>, segs: Seq<Seq<char>>, id2: u64|
            #[trigger] tree_contains_path(*old(node), pfx, nm, segs, id2) ==> tree_contains_path(
                *final(node),
                pfx,
                nm,
                segs,
                id2,
            ),
        forall|segs: Seq<Seq<char>>|
            #[trigger] chain_in_tree(*final(node), segs) ==> chain_in_tree(*old(node), segs)
                || seq_prefix_of(segs, seg_views(parts@, depth as int)),
        forall|segs: Seq<Seq<char>>|
            #[trigger] marked_chain(*final(node), segs) ==> marked_chain(*old(node), segs) || segs
                == seg_views(parts@, depth as int),
    decreases parts@.len() - depth,
{
    let plen = parts.len();
    let ghost suffix = seg_views(parts@, depth as int);
    proof {
        assert(suffix.len() == parts@.len() - depth);
        assert(forall|x: int| 0 <= x < suffix.len() ==> #[trigger] suffix[x] == parts@[depth + x]@);
    }
    let seg: &str = parts[depth];
    let is_last = depth + 1 == plen;
    proof {
        if is_last {
            assert(suffix =~= seq![seg@]);
            assert(join_with(suffix, '/') == seg@);
        } else {
            lemma_join_unfold_left(suffix, '/');
        }
    }
    let n = node.children.len();
    let mut pos: usize = 0;
    while pos < n && str_lt(node.children[pos].value.name.as_str(), seg)
        invariant
            pos <= n,
            *node == *old(node),
            n == node.children@.len(),
            forall|l: int|
                0 <= l < pos ==> lex_lt((#[trigger] node.children@[l]).value.name@, seg@),
        decreases n - pos,
    {
        pos = pos + 1;
    }
    let found = if pos < n {
        str_eq(node.children[pos].value.name.as_str(), seg)
    } else {
        false
    };

    if found {
        if is_last {
            // The chain is already present: refuse.
            proof {
                assert(chain_in_tree(*old(node), suffix)) by {
                    let c = node.children@[pos as int];
                    assert(c.value.name@ == suffix[0]);
                }
            }
            return false;
        }
        if node.children[pos].value.signal.is_some() {
            // The chain runs through a leaf: refuse.
            proof {
                assert(marked_chain(*old(node), suffix.take(1))) by {
                    let c = node.children@[pos as int];
                    assert(suffix.take(1).len() == 1);
                    assert(suffix.take(1)[0] == seg@);
                    assert(c.value.name@ == suffix.take(1)[0]);
                }
                assert(1 < suffix.len());
            }
            return false;
        }
        // Descend into the matching interior node.
        let mut child_prefix = String::new();
        push_str_piece(&mut child_prefix, prefix);
        push_str_piece(&mut child_prefix, seg);
        push_str_piece(&mut child_prefix, "/");
        let ghost cp = prefix@ + seg@ + seq!['/'];
        proof {
            reveal_strlit("/");
            assert(child_prefix@ =~= cp);
        }
        let ghost before = *node;
        let ghost suffix2 = seg_views(parts@, depth + 1);
        proof {
            assert(suffix2 =~= suffix.drop_first());
            let c_old = before.children@[pos as int];
            assert(tree_sorted(c_old) && tree_leaves_only(c_old));
            assert(c_old.value.signal is None);
            assert(c_old.value.path@ == cp);
            assert(tree_paths_ok(c_old, cp));
            assert(name@ == cp + join_with(suffix2, '/')) by {
                assert(name@ =~= prefix@ + (seg@ + seq!['/'] + join_with(suffix.drop_first(), '/')));
            }
        }
        let ok = tree_insert_path(&mut node.children[pos], child_prefix.as_str(), name, parts, depth + 1, id);
        proof {
            let after = *node;
            let c_old = before.children@[pos as int];
            let c_new = after.children@[pos as int];
            assert(after.children@ =~= before.children@.update(pos as int, c_new));
            assert(c_new.value == c_old.value);
            // sortedness, leaves-only and paths: only the subtree at `pos`
            // changed, and its own clauses are the recursion's.
            assert(children_sorted(after)) by {
                assert(forall|l: int|
                    0 <= l < after.children@.len() ==> (#[trigger] after.children@[l]).value.name@
                        == before.children@[l].value.name@);
            }
            assert(tree_sorted(after));
            assert(tree_leaves_only(after));
            assert(tree_paths_ok(after, prefix@));
            if ok {
                assert(tree_contains_path(after, prefix@, name@, suffix, id@)) by {
                    assert(c_new.value.name@ == suffix[0]);
                    assert(c_new.value.path@ == prefix@ + suffix[0] + seq!['/']);
                    assert(tree_contains_path(c_new, cp, name@, suffix2, id@));
                    assert(cp == prefix@ + suffix[0] + seq!['/']);
                    assert(suffix2 == suffix.drop_first());
                }
            }
            // If nothing conflicting stood below `node`, nothing did below
            // the child either, so the recursion succeeded.
            if (forall|k: int|
                1 <= k < suffix.len() ==> !marked_chain(before, #[trigger] suffix.take(k)))
                && !chain_in_tree(before, suffix) {
                assert forall|k: int| 1 <= k < suffix2.len() implies !marked_chain(
                    c_old,
                    #[trigger] suffix2.take(k),
                ) by {
                    if marked_chain(c_old, suffix2.take(k)) {
                        assert(marked_chain(before, suffix.take(k + 1))) by {
                            assert(suffix.take(k + 1).len() == k + 1);
                            assert(suffix.take(k + 1)[0] == suffix[0]);
                            assert(suffix.take(k + 1).drop_first() =~= suffix2.take(k));
                            assert(c_old.value.name@ == suffix.take(k + 1)[0]);
                        }
                        assert(!marked_chain(before, suffix.take(k + 1)));
                    }
                }
                assert(!chain_in_tree(c_old, suffix2)) by {
                    if chain_in_tree(c_old, suffix2) {
                        assert(chain_in_tree(before, suffix)) by {
                            assert(c_old.value.name@ == suffix[0]);
                        }
                    }
                }
                assert(ok);
            }
            // Existing chains are preserved, and new ones run along the
            // inserted chain only.
            assert forall|pfx: Seq<char>, nm: Seq<char>, segs: Seq<Seq<char>>, id2: u64|
                #[trigger] tree_contains_path(before, pfx, nm, segs, id2) implies
                tree_contains_path(after, pfx, nm, segs, id2) by {
                let l = choose|l: int|
                    0 <= l < before.children@.len() && {
                        let c = #[trigger] before.children@[l];
                        &&& c.value.name@ == segs[0]
                        &&& if segs.len() == 1 {
                            c.value.signal matches Some(si) && si@ == id2 && c.value.path@ == nm
                        } else {
                            c.value.path@ == pfx + segs[0] + seq!['/'] && tree_contains_path(
                                c,
                                pfx + segs[0] + seq!['/'],
                                nm,
                                segs.drop_first(),
                                id2,
                            )
                        }
                    };
                if l != pos {
                    assert(after.children@[l] == before.children@[l]);
                } else {
                    if segs.len() == 1 {
                        assert(c_new.value == c_old.value);
                    } else {
                        assert(tree_contains_path(
                            c_new,
                            pfx + segs[0] + seq!['/'],
                            nm,
                            segs.drop_first(),
                            id2,
                        ));
                    }
                }
            }
            assert forall|segs: Seq<Seq<char>>| #[trigger] chain_in_tree(after, segs) implies
                chain_in_tree(before, segs) || seq_prefix_of(segs, suffix) by {
                let l = choose|l: int|
                    0 <= l < after.children@.len() && {
                        let c = #[trigger] after.children@[l];
                        c.value.name@ == segs[0] && (segs.len() == 1 || chain_in_tree(
                            c,
                            segs.drop_first(),
                        ))
                    };
                if l != pos {
                    assert(after.children@[l] == before.children@[l]);
                    assert(chain_in_tree(before, segs));
                } else if segs.len() == 1 {
                    assert(chain_in_tree(before, segs)) by {
                        assert(c_old.value.name@ == segs[0]);
                    }
                } else {
                    if chain_in_tree(c_old, segs.drop_first()) {
                        assert(chain_in_tree(before, segs)) by {
                            assert(c_old.value.name@ == segs[0]);
                        }
                    } else {
                        assert(seq_prefix_of(segs.drop_first(), suffix2));
                        assert(seq_prefix_of(segs, suffix)) by {
                            assert(segs.len() <= suffix.len());
                            assert(segs =~= suffix.take(segs.len() as int)) by {
                                assert(segs[0] == suffix[0]);
                                assert(segs.drop_first() == suffix2.take(segs.len() - 1));
                                assert forall|x: int| 0 <= x < segs.len() implies segs[x]
                                    == suffix.take(segs.len() as int)[x] by {
                                    if x > 0 {
                                        assert(segs[x] == segs.drop_first()[x - 1]);
                                        assert(suffix2.take(segs.len() - 1)[x - 1] == suffix2[x
                                            - 1]);
                                        assert(suffix2[x - 1] == suffix[x]);
                                    }
                                }
                            }
                        }
                    }
                }
            }
            assert forall|segs: Seq<Seq<char>>| #[trigger] marked_chain(after, segs) implies
                marked_chain(before, segs) || segs == suffix by {
                let l = choose|l: int|
                    0 <= l < after.children@.len() && {
                        let c = #[trigger] after.children@[l];
                        &&& c.value.name@ == segs[0]
                        &&& if segs.len() == 1 {
                            c.value.signal is Some
                        } else {
                            marked_chain(c, segs.drop_first())
                        }
                    };
                if l != pos {
                    assert(after.children@[l] == before.children@[l]);
                    assert(marked_chain(before, segs));
                } else if segs.len() == 1 {
                    assert(marked_chain(before, segs)) by {
                        assert(c_old.value.name@ == segs[0]);
                        assert(c_old.value.signal == c_new.value.signal);
                    }
                } else {
                    if marked_chain(c_old, segs.drop_first()) {
                        assert(marked_chain(before, segs)) by {
                            assert(c_old.value.name@ == segs[0]);
                        }
                    } else {
                        assert(segs.drop_first() == suffix2);
                        assert(segs =~= suffix) by {
                            assert(segs[0] == suffix[0]);
                            assert forall|x: int| 0 <= x < segs.len() implies segs[x]
                                == suffix[x] by {
                                if x > 0 {
                                    assert(segs[x] == segs.drop_first()[x - 1]);
                                    assert(suffix[x] == suffix2[x - 1]);
                                }
                            }
                            assert(segs.len() == suffix.len());
                        }
                    }
                }
            }
        }
        return ok;
    }
    // No child holds this segment: create the missing node at its sorted
    // position.
    let ghost before = *node;
    proof {
        if pos < n {
            assert(node.children@[pos as int].value.name@ != seg@);
            assert(!lex_lt(node.children@[pos as int].value.name@, seg@));
            assert(lex_lt(seg@, node.children@[pos as int].value.name@)) by {
                if !lex_lt(seg@, node.children@[pos as int].value.name@) {
                    lemma_lex_total(seg@, node.children@[pos as int].value.name@);
                }
            }
        }
    }
    if is_last {
        let child = VecTree::new(
            SignalNode { name: seg.to_owned(), path: name.to_owned(), signal: Some(id) },
        );
        node.children.insert(pos, child);
        proof {
            let after = *node;
            assert(after.children@ =~= before.children@.insert(pos as int, after.children@[pos as int]));
            let f = after.children@[pos as int];
            assert(f.value.name@ == seg@ && f.value.path@ == name@ && f.value.signal == Some(id)
                && f.children@.len() == 0);
            lemma_inserted_child(before, after, pos as int, prefix@, name@, suffix, id@, seg@);
            assert(tree_contains_path(after, prefix@, name@, suffix, id@)) by {
                assert(f.value.name@ == suffix[0]);
                assert(name@ =~= prefix@ + seg@);
            }
        }
        true
    } else {
        let mut child_prefix = String::new();
        push_str_piece(&mut child_prefix, prefix);
        push_str_piece(&mut child_prefix, seg);
        push_str_piece(&mut child_prefix, "/");
        let ghost cp = prefix@ + seg@ + seq!['/'];
        proof {
            reveal_strlit("/");
            assert(child_prefix@ =~= cp);
        }
        let child = VecTree::new(
            SignalNode { name: seg.to_owned(), path: child_prefix.clone(), signal: None },
        );
        node.children.insert(pos, child);
        let ghost mid = *node;
        let ghost suffix2 = seg_views(parts@, depth + 1);
        proof {
            assert(mid.children@ =~= before.children@.insert(pos as int, mid.children@[pos as int]));
            assert(suffix2 =~= suffix.drop_first());
            let f = mid.children@[pos as int];
            assert(f.value.name@ == seg@ && f.value.path@ == cp && f.value.signal is None
                && f.children@.len() == 0);
            assert(tree_sorted(f) && tree_leaves_only(f) && tree_paths_ok(f, cp));
            assert(name@ == cp + join_with(suffix2, '/')) by {
                assert(name@ =~= prefix@ + (seg@ + seq!['/'] + join_with(suffix.drop_first(), '/')));
            }
        }
        let ok = tree_insert_path(&mut node.children[pos], child_prefix.as_str(), name, parts, depth + 1, id);
        proof {
            let after = *node;
            let f_mid = mid.children@[pos as int];
            let f = after.children@[pos as int];
            assert(after.children@ =~= before.children@.insert(pos as int, f));
            assert(f.value == f_mid.value);
            // The fresh node is empty, so nothing below it could conflict
            // and the recursion succeeded.
            assert(ok) by {
                assert(forall|k: int|
                    1 <= k < suffix2.len() ==> !marked_chain(f_mid, #[trigger] suffix2.take(k)));
                assert(!chain_in_tree(f_mid, suffix2));
            }
            lemma_inserted_child(before, after, pos as int, prefix@, name@, suffix, id@, seg@);
            assert(tree_contains_path(after, prefix@, name@, suffix, id@)) by {
                assert(f.value.name@ == suffix[0]);
                assert(f.value.path@ == prefix@ + suffix[0] + seq!['/']);
                assert(tree_contains_path(f, cp, name@, suffix2, id@));
            }
        }
        ok
    }
}

/// What inserting one fresh child whose chains run along `suffix` does to a
/// node: sortedness, leaf-discipline, paths, old chains and old leaf chains
/// all carry over, and the new chains run along `suffix` only.
#[verifier::rlimit(60)]
proof fn lemma_inserted_child(
    before: VecTree<SignalNode>,
    after: VecTree<SignalNode>,
    pos: int,
    prefix: Seq<char>,
    name: Seq<char>,
    suffix: Seq<Seq<char>>,
    id: u64,
    seg: Seq<char>,
)
    requires
        0 <= pos <= before.children@.len(),
        after.children@ == before.children@.insert(pos, after.children@[pos]),
        after.value == before.value,
        suffix.len() >= 1,
        suffix[0] == seg,
        tree_sorted(before),
        tree_leaves_only(before),
        tree_paths_ok(before, prefix),
        forall|l: int| 0 <= l < pos ==> lex_lt((#[trigger] before.children@[l]).value.name@, seg),
        pos < before.children@.len() ==> lex_lt(seg, before.children@[pos].value.name@),
        ({
            let f = after.children@[pos];
            &&& f.value.name@ == seg
            &&& tree_sorted(f)
            &&& tree_leaves_only(f)
            &&& tree_paths_ok(f, prefix + seg + seq!['/'])
            &&& (f.value.signal is Some ==> f.value.path@ == prefix + seg && f.children@.len()
                == 0)
            &&& (f.value.signal is None ==> f.value.path@ == prefix + seg + seq!['/'])
            &&& (f.value.signal is Some ==> name == prefix + seg)
            &&& (f.value.signal is Some ==> suffix.len() == 1)
            &&& forall|segs: Seq<Seq<char>>|
                #[trigger] chain_in_tree(f, segs) ==> seq_prefix_of(
                    segs,
                    suffix.drop_first(),
                )
            &&& forall|segs: Seq<Seq<char>>|
                #[trigger] marked_chain(f, segs) ==> segs == suffix.drop_first()
        }),
    ensures
        tree_sorted(after),
        tree_leaves_only(after),
        tree_paths_ok(after, prefix),
        forall|pfx: Seq<char>, nm: Seq<char>, segs: Seq<Seq<char>>, id2: u64|
            #[trigger] tree_contains_path(before, pfx, nm, segs, id2) ==> tree_contains_path(
                after,
                pfx,
                nm,
                segs,
                id2,
            ),
        forall|segs: Seq<Seq<char>>|
            #[trigger] chain_in_tree(after, segs) ==> chain_in_tree(before, segs)
                || seq_prefix_of(segs, suffix),
        forall|segs: Seq<Seq<char>>|
            #[trigger] marked_chain(after, segs) ==> marked_chain(before, segs) || segs == suffix,
{
    let f = after.children@[pos];
    let n0 = before.children@.len();
    assert(after.children@.len() == n0 + 1);
    assert(forall|l: int| 0 <= l < pos ==> #[trigger] after.children@[l] == before.children@[l]);
    assert(forall|l: int|
        pos < l < n0 + 1 ==> #[trigger] after.children@[l] == before.children@[l - 1]);
    assert(children_sorted(after)) by {
        assert forall|p: int, q: int| 0 <= p < q < n0 + 1 implies lex_lt(
            (#[trigger] after.children@[p]).value.name@,
            (#[trigger] after.children@[q]).value.name@,
        ) by {
            if p == pos && q > pos + 1 {
                // seg < name at old `pos` < name at old `q - 1`
                lemma_lex_transitive(
                    seg,
                    before.children@[pos].value.name@,
                    before.children@[q - 1].value.name@,
                );
            } else if p < pos && q == pos + 1 && pos < n0 {
                // name at old `p` < seg < name at old `pos`
                lemma_lex_transitive(
                    before.children@[p].value.name@,
                    seg,
                    after.children@[q].value.name@,
                );
            }
        }
    }
    assert(tree_sorted(after));
    assert(tree_leaves_only(after));
    assert(tree_paths_ok(after, prefix));
    assert forall|pfx: Seq<char>, nm: Seq<char>, segs: Seq<Seq<char>>, id2: u64|
        #[trigger] tree_contains_path(before, pfx, nm, segs, id2) implies tree_contains_path(
        after,
        pfx,
        nm,
        segs,
        id2,
    ) by {
        let l = choose|l: int|
            0 <= l < before.children@.len() && {
                let c = #[trigger] before.children@[l];
                &&& c.value.name@ == segs[0]
                &&& if segs.len() == 1 {
                    c.value.signal matches Some(si) && si@ == id2 && c.value.path@ == nm
                } else {
                    c.value.path@ == pfx + segs[0] + seq!['/'] && tree_contains_path(
                        c,
                        pfx + segs[0] + seq!['/'],
                        nm,
                        segs.drop_first(),
                        id2,
                    )
                }
            };
        if l < pos {
            assert(after.children@[l] == before.children@[l]);
        } else {
            assert(after.children@[l + 1] == before.children@[l]);
        }
    }
    assert forall|segs: Seq<Seq<char>>| #[trigger] chain_in_tree(after, segs) implies
        chain_in_tree(before, segs) || seq_prefix_of(segs, suffix) by {
        let l = choose|l: int|
            0 <= l < after.children@.len() && {
                let c = #[trigger] after.children@[l];
                c.value.name@ == segs[0] && (segs.len() == 1 || chain_in_tree(
                    c,
                    segs.drop_first(),
                ))
            };
        if l < pos {
            assert(before.children@[l] == after.children@[l]);
            assert(chain_in_tree(before, segs));
        } else if l > pos {
            assert(before.children@[l - 1] == after.children@[l]);
            assert(chain_in_tree(before, segs));
        } else {
            if segs.len() == 1 {
                assert(segs =~= suffix.take(1));
                assert(seq_prefix_of(segs, suffix));
            } else {
                assert(seq_prefix_of(segs.drop_first(), suffix.drop_first()));
                assert(seq_prefix_of(segs, suffix)) by {
                    assert(segs.len() <= suffix.len());
                    assert(segs =~= suffix.take(segs.len() as int)) by {
                        assert(segs[0] == suffix[0]);
                        assert(segs.drop_first() == suffix.drop_first().take(segs.len() - 1));
                        assert forall|x: int| 0 <= x < segs.len() implies segs[x] == suffix.take(
                            segs.len() as int,
                        )[x] by {
                            if x > 0 {
                                assert(segs[x] == segs.drop_first()[x - 1]);
                                assert(suffix.drop_first().take(segs.len() - 1)[x - 1]
                                    == suffix.drop_first()[x - 1]);
                                assert(suffix.drop_first()[x - 1] == suffix[x]);
                            }
                        }
                    }
                }
            }
        }
    }
    assert forall|segs: Seq<Seq<char>>| #[trigger] marked_chain(after, segs) implies marked_chain(
        before,
        segs,
    ) || segs == suffix by {
        let l = choose|l: int|
            0 <= l < after.children@.len() && {
                let c = #[trigger] after.children@[l];
                &&& c.value.name@ == segs[0]
                &&& if segs.len() == 1 {
                    c.value.signal is Some
                } else {
                    marked_chain(c, segs.drop_first())
                }
            };
        if l < pos {
            assert(before.children@[l] == after.children@[l]);
            assert(marked_chain(before, segs));
        } else if l > pos {
            assert(before.children@[l - 1] == after.children@[l]);
            assert(marked_chain(before, segs));
        } else {
            if segs.len() == 1 {
                assert(f.value.signal is Some);
                assert(suffix.len() == 1);
                assert(segs =~= suffix);
            } else {
                assert(segs.drop_first() == suffix.drop_first());
                assert(segs =~= suffix) by {
                    assert(segs[0] == suffix[0]);
                    assert(segs.len() == suffix.len());
                    assert forall|x: int| 0 <= x < segs.len() implies segs[x] == suffix[x] by {
                        if x > 0 {
                            assert(segs[x] == segs.drop_first()[x - 1]);
                            assert(suffix[x] == suffix.drop_first()[x - 1]);
                        }
                    }
                }
            }
        }
    }
}

} // verus!

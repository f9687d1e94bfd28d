//! The signal registry: named, append-only scalar time series fed through
//! per-signal FIFO channels by any number of concurrent producers, and
//! drained by a single consumer once per update cycle.

use vstd::prelude::*;
use vstd::std_specs::hash::DefaultHasherAdditionalSpecFns;
use vstd::string::StringSliceAdditionalSpecFns;
use std::collections::hash_map::DefaultHasher;
use std::collections::HashMap;
use std::hash::Hasher;
use std::sync::mpsc::{Receiver, Sender};
use crate::channel::{clone_sender, new_sample_channel, send_pair, try_recv_pair};
use crate::downsampling::strictly_increasing;
use crate::names::{
    check_name_format, check_names_conflict, all_chars_allowed, all_separator_free,
    has_consecutive_separators, join_with, name_well_formed, names_conflict, split_separators,
    starts_with_separator, PlotSignalNameError,
};

verus! {

broadcast use vstd::std_specs::hash::group_hash_axioms;

/// The mathematical state of one signal: its identity, its name, its two
/// append-only columns, and whether ingestion for it has been halted by a
/// monotonicity fault.
pub struct PlotSignalView {
    pub id: u64,
    pub name: Seq<char>,
    pub time: Seq<i64>,
    pub data: Seq<i64>,
    pub faulted: bool,
}

impl PlotSignalView {
    /// The buffer invariant: the two columns are equally long and the time
    /// column is strictly increasing.
    pub open spec fn wf(self) -> bool {
        &&& self.time.len() == self.data.len()
        &&& strictly_increasing(self.time)
    }
}

/// A signal's identity, derived deterministically from its name by hashing.
#[derive(Clone, Copy, Debug, PartialEq, Eq, Structural)]
pub struct PlotSignalID {
    id: u64,
}

impl View for PlotSignalID {
    type V = u64;

    closed spec fn view(&self) -> u64 {
        self.id
    }
}

impl PlotSignalID {
    /// The raw hash value, for keying per-view caches.
    pub(crate) fn raw(&self) -> (r: u64)
        ensures
            r == self@,
    {
        self.id
    }
}

/// One sample: a timestamp and a value, both in fixed-point ticks.
#[derive(Clone, Copy, Debug)]
pub struct PlotSignalSample {
    pub time: i64,
    pub value: i64,
}

/// A named, append-only scalar time series.
pub struct PlotSignal {
    id: PlotSignalID,
    name: String,
    time: Vec<i64>,
    data: Vec<i64>,
    faulted: bool,
}

impl View for PlotSignal {
    type V = PlotSignalView;

    closed spec fn view(&self) -> PlotSignalView {
        PlotSignalView {
            id: self.id@,
            name: self.name@,
            time: self.time@,
            data: self.data@,
            faulted: self.faulted,
        }
    }
}

impl PlotSignal {
    pub fn new(name: String, id: PlotSignalID) -> (r: Self)
        ensures
            r@ == (PlotSignalView {
                id: id@,
                name: name@,
                time: Seq::<i64>::empty(),
                data: Seq::<i64>::empty(),
                faulted: false,
            }),
            r@.wf(),
    {
        let r = PlotSignal { id, name, time: Vec::new(), data: Vec::new(), faulted: false };
        proof {
            assert(r@.time =~= Seq::<i64>::empty());
            assert(r@.data =~= Seq::<i64>::empty());
        }
        r
    }

    pub fn id(&self) -> (r: PlotSignalID)
        ensures
            r@ == self@.id,
    {
        self.id
    }

    pub fn name(&self) -> (r: &str)
        ensures
            r@ == self@.name,
    {
        self.name.as_str()
    }

    /// The name's `/`-separated pieces, leading empty piece included.
    pub fn path_elements(&self) -> (r: Vec<&str>)
        ensures
            r@.len() >= 1,
            join_with(r@.map_values(|t: &str| t@), '/') == self@.name,
            all_separator_free(r@.map_values(|t: &str| t@), '/'),
    {
        split_separators(self.name.as_str())
    }

    pub fn time(&self) -> (r: &Vec<i64>)
        ensures
            r@ == self@.time,
    {
        &self.time
    }

    pub fn data(&self) -> (r: &Vec<i64>)
        ensures
            r@ == self@.data,
    {
        &self.data
    }

    /// Has ingestion for this signal been halted by a monotonicity fault?
    pub fn is_faulted(&self) -> (r: bool)
        ensures
            r == self@.faulted,
    {
        self.faulted
    }
}

/// What registration reports when it rejects a request.
#[derive(Debug)]
pub enum PlotSignalError {
    /// The name is malformed or conflicts with a registered name; the caller
    /// may retry with a corrected name.
    NameError { name: String, kind: PlotSignalNameError },
    /// A distinct registered name hashes to the same id.
    IdCollision { name: String },
}

/// A failed send: the channel's receiving half is gone, and the rejected
/// sample is handed back so the producer can stop.
#[derive(Debug)]
pub struct PlotSignalSendError<T> {
    pub t: T,
}

/// A cloneable producer handle: the only thing producer threads hold. Its
/// one operation, `send`, never blocks.
pub struct PlotSampleSender {
    sender: Sender<(i64, i64)>,
    id: PlotSignalID,
}

impl View for PlotSampleSender {
    type V = u64;

    closed spec fn view(&self) -> u64 {
        self.id@
    }
}

impl PlotSampleSender {
    /// Queues one sample for the signal this handle was created for. Fails,
    /// returning the rejected sample, exactly when the registry side of the
    /// channel has been torn down.
    pub fn send(&mut self, sample: PlotSignalSample) -> (r: Result<
        (),
        PlotSignalSendError<PlotSignalSample>,
    >)
        ensures
            final(self)@ == old(self)@,
            r matches Err(e) ==> e.t.time == sample.time && e.t.value == sample.value,
    {
        match send_pair(&self.sender, (sample.time, sample.value)) {
            None => Ok(()),
            Some(p) => Err(PlotSignalSendError { t: PlotSignalSample { time: p.0, value: p.1 } }),
        }
    }

    pub fn id(&self) -> (r: PlotSignalID)
        ensures
            r@ == self@,
    {
        self.id
    }
}

impl Clone for PlotSampleSender {
    /// The clone feeds the same signal as the original handle.
    fn clone(&self) -> (r: Self)
        ensures
            r@ == self@,
    {
        PlotSampleSender { sender: clone_sender(&self.sender), id: self.id }
    }
}

/// The id every name maps to: the standard hasher run over the name's bytes.
pub open spec fn name_id_hash(name_bytes: Seq<u8>) -> u64 {
    DefaultHasher::spec_finish(seq![name_bytes])
}

/// Hashes a signal name to its stable 64-bit id.
pub fn hash_name(name: &str) -> (r: u64)
    ensures
        r == name_id_hash(name.spec_bytes()),
{
    let mut hasher = DefaultHasher::new();
    hasher.write(name.as_bytes());
    let r = hasher.finish();
    proof {
        assert(hasher@ =~= seq![name.spec_bytes()]);
    }
    r
}

/// One ingestion step. A sample whose time is not strictly above the
/// buffer's last time is a fatal ingestion fault: the signal is marked
/// faulted and its buffer never changes again.
pub open spec fn ingest_one(s: PlotSignalView, sample: (i64, i64)) -> PlotSignalView {
    if s.faulted {
        s
    } else if s.time.len() == 0 || s.time.last() < sample.0 {
        PlotSignalView { time: s.time.push(sample.0), data: s.data.push(sample.1), ..s }
    } else {
        PlotSignalView { faulted: true, ..s }
    }
}

/// Ingesting a batch of samples, oldest first.
pub open spec fn ingest(s: PlotSignalView, samples: Seq<(i64, i64)>) -> PlotSignalView
    decreases samples.len(),
{
    if samples.len() == 0 {
        s
    } else {
        ingest(ingest_one(s, samples.first()), samples.drop_first())
    }
}

proof fn lemma_prefix_transitive(a: Seq<i64>, b: Seq<i64>, c: Seq<i64>)
    requires
        a.is_prefix_of(b),
        b.is_prefix_of(c),
    ensures
        a.is_prefix_of(c),
{
    assert(a =~= c.subrange(0, a.len() as int));
}

/// Ingestion never breaks the buffer invariant, never touches identity or
/// name, and only ever appends.
pub proof fn lemma_ingest_wf(s: PlotSignalView, samples: Seq<(i64, i64)>)
    requires
        s.wf(),
    ensures
        ingest(s, samples).wf(),
        ingest(s, samples).id == s.id,
        ingest(s, samples).name == s.name,
        s.time.is_prefix_of(ingest(s, samples).time),
        s.data.is_prefix_of(ingest(s, samples).data),
    decreases samples.len(),
{
    if samples.len() > 0 {
        let s1 = ingest_one(s, samples.first());
        assert(s1.wf() && s.time.is_prefix_of(s1.time) && s.data.is_prefix_of(s1.data)) by {
            if !s.faulted && (s.time.len() == 0 || s.time.last() < samples.first().0) {
                let t = samples.first().0;
                assert(strictly_increasing(s.time.push(t))) by {
                    assert forall|i: int, j: int|
                        0 <= i < j < s.time.push(t).len() implies #[trigger] s.time.push(t)[i]
                        < #[trigger] s.time.push(t)[j] by {
                        if j < s.time.len() {
                            assert(s.time[i] < s.time[j]);
                        } else {
                            if i < s.time.len() - 1 {
                                assert(s.time[i] < s.time[s.time.len() - 1]);
                            }
                        }
                    }
                }
                assert(s.time.is_prefix_of(s.time.push(t))) by {
                    assert(s.time =~= s.time.push(t).subrange(0, s.time.len() as int));
                }
                assert(s.data.is_prefix_of(s.data.push(samples.first().1))) by {
                    assert(s.data =~= s.data.push(samples.first().1).subrange(
                        0,
                        s.data.len() as int,
                    ));
                }
            }
        }
        lemma_ingest_wf(s1, samples.drop_first());
        lemma_prefix_transitive(s.time, s1.time, ingest(s, samples).time);
        lemma_prefix_transitive(s.data, s1.data, ingest(s, samples).data);
    } else {
        assert(s.time.is_prefix_of(s.time)) by {
            assert(s.time =~= s.time.subrange(0, s.time.len() as int));
        }
        assert(s.data.is_prefix_of(s.data)) by {
            assert(s.data =~= s.data.subrange(0, s.data.len() as int));
        }
    }
}

/// `new` is what some batch of samples turns `prior` into.
pub open spec fn is_ingestion_of(new: PlotSignalView, prior: PlotSignalView) -> bool {
    exists|samples: Seq<(i64, i64)>| new == #[trigger] ingest(prior, samples)
}

/// Ingesting a one-sample batch is one ingestion step.
pub proof fn lemma_ingest_singleton(s: PlotSignalView, sample: (i64, i64))
    ensures
        ingest(s, seq![sample]) == ingest_one(s, sample),
{
    let p = seq![sample];
    assert(p.first() == sample);
    assert(p.drop_first() =~= Seq::<(i64, i64)>::empty());
    assert(ingest(ingest_one(s, sample), p.drop_first()) == ingest_one(s, sample));
}

/// Ingesting one more sample after a batch is the same as ingesting the
/// extended batch.
pub proof fn lemma_ingest_push(s: PlotSignalView, samples: Seq<(i64, i64)>, sample: (i64, i64))
    ensures
        ingest(s, samples.push(sample)) == ingest_one(ingest(s, samples), sample),
    decreases samples.len(),
{
    let p = samples.push(sample);
    if samples.len() == 0 {
        assert(p.first() == sample);
        assert(p.drop_first() =~= Seq::<(i64, i64)>::empty());
        assert(ingest(s, p) == ingest(ingest_one(s, p.first()), p.drop_first()));
        assert(ingest(ingest_one(s, sample), p.drop_first()) == ingest_one(s, sample));
        assert(ingest(s, samples) == s);
    } else {
        assert(p.first() == samples.first());
        assert(p.drop_first() =~= samples.drop_first().push(sample));
        assert(ingest(s, p) == ingest(ingest_one(s, p.first()), p.drop_first()));
        lemma_ingest_push(ingest_one(s, samples.first()), samples.drop_first(), sample);
        assert(ingest(s, samples) == ingest(ingest_one(s, samples.first()), samples.drop_first()));
    }
}

/// Streaming ingestion accepts every batch whose times are strictly
/// increasing and start above the buffer's last time, appending it whole:
/// afterwards the time column is still strictly increasing and has grown by
/// exactly the batch's length.
pub proof fn lemma_ingest_accepts_monotonic(s: PlotSignalView, samples: Seq<(i64, i64)>)
    requires
        s.wf(),
        !s.faulted,
        strictly_increasing(samples.map_values(|p: (i64, i64)| p.0)),
        s.time.len() > 0 && samples.len() > 0 ==> s.time.last() < samples.first().0,
    ensures
        ingest(s, samples).time =~= s.time + samples.map_values(|p: (i64, i64)| p.0),
        ingest(s, samples).data =~= s.data + samples.map_values(|p: (i64, i64)| p.1),
        !ingest(s, samples).faulted,
        ingest(s, samples).wf(),
        ingest(s, samples).time.len() == s.time.len() + samples.len(),
    decreases samples.len(),
{
    lemma_ingest_wf(s, samples);
    if samples.len() == 0 {
        assert(samples.map_values(|p: (i64, i64)| p.0) =~= Seq::<i64>::empty());
        assert(samples.map_values(|p: (i64, i64)| p.1) =~= Seq::<i64>::empty());
    } else {
        let s1 = ingest_one(s, samples.first());
        assert(s1 == (PlotSignalView {
            time: s.time.push(samples.first().0),
            data: s.data.push(samples.first().1),
            ..s
        }));
        assert(s1.wf()) by {
            lemma_ingest_wf(s, seq![samples.first()]);
            lemma_ingest_singleton(s, samples.first());
        }
        let rest = samples.drop_first();
        assert(strictly_increasing(rest.map_values(|p: (i64, i64)| p.0))) by {
            let whole = samples.map_values(|p: (i64, i64)| p.0);
            let tail = rest.map_values(|p: (i64, i64)| p.0);
            assert(forall|i: int| 0 <= i < tail.len() ==> #[trigger] tail[i] == whole[i + 1]);
        }
        assert(s1.time.len() > 0 && rest.len() > 0 ==> s1.time.last() < rest.first().0) by {
            if rest.len() > 0 {
                let whole = samples.map_values(|p: (i64, i64)| p.0);
                assert(whole[0] < whole[1]);
            }
        }
        lemma_ingest_accepts_monotonic(s1, rest);
        assert(ingest(s, samples) == ingest(s1, rest));
        assert(ingest(s1, rest).time =~= s.time + samples.map_values(|p: (i64, i64)| p.0)) by {
            let whole = samples.map_values(|p: (i64, i64)| p.0);
            let tail = rest.map_values(|p: (i64, i64)| p.0);
            assert(forall|i: int| 0 <= i < tail.len() ==> #[trigger] tail[i] == whole[i + 1]);
            assert(ingest(s1, rest).time =~= s1.time + tail);
        }
        assert(ingest(s1, rest).data =~= s.data + samples.map_values(|p: (i64, i64)| p.1)) by {
            let whole = samples.map_values(|p: (i64, i64)| p.1);
            let tail = rest.map_values(|p: (i64, i64)| p.1);
            assert(forall|i: int| 0 <= i < tail.len() ==> #[trigger] tail[i] == whole[i + 1]);
            assert(ingest(s1, rest).data =~= s1.data + tail);
        }
    }
}

/// Appends one sample to a signal's buffer, or latches the fault flag when
/// the sample's time is not strictly above the buffer's last time.
fn ingest_sample(sig: &mut PlotSignal, sample: (i64, i64))
    requires
        old(sig)@.wf(),
    ensures
        final(sig)@ == ingest_one(old(sig)@, sample),
        final(sig)@.wf(),
{
    proof {
        lemma_ingest_wf(old(sig)@, seq![sample]);
        lemma_ingest_singleton(old(sig)@, sample);
    }
    if sig.faulted {
        return ;
    }
    let n = sig.time.len();
    if n == 0 || sig.time[n - 1] < sample.0 {
        sig.time.push(sample.0);
        sig.data.push(sample.1);
    } else {
        sig.faulted = true;
    }
}

/// Collects every sample currently queued on one channel, in arrival order,
/// without blocking. Which samples those are is decided by the producers, so
/// nothing is promised about the batch.
fn drain_receiver(rx: &mut Receiver<(i64, i64)>) -> (r: Vec<(i64, i64)>)
{
    let mut batch: Vec<(i64, i64)> = Vec::new();
    let mut fuel: usize = usize::MAX;
    loop
        decreases fuel,
    {
        if fuel == 0 {
            break ;
        }
        fuel = fuel - 1;
        match try_recv_pair(rx) {
            None => {
                break ;
            },
            Some(sample) => {
                batch.push(sample);
            },
        }
    }
    batch
}

/// Applies a drained batch to a signal's buffer, oldest sample first: each
/// sample is appended if its time is strictly above the buffer's last time;
/// the first one that is not halts ingestion for this signal for good.
pub fn ingest_batch(sig: &mut PlotSignal, batch: &Vec<(i64, i64)>)
    requires
        old(sig)@.wf(),
    ensures
        final(sig)@ == ingest(old(sig)@, batch@),
        final(sig)@.wf(),
        final(sig)@.id == old(sig)@.id,
        final(sig)@.name == old(sig)@.name,
        old(sig)@.time.is_prefix_of(final(sig)@.time),
{
    let ghost s0 = sig@;
    let n = batch.len();
    let mut i: usize = 0;
    while i < n
        invariant
            n == batch@.len(),
            i <= n,
            s0.wf(),
            sig@ == ingest(s0, batch@.subrange(0, i as int)),
        decreases n - i,
    {
        proof {
            lemma_ingest_wf(s0, batch@.subrange(0, i as int));
        }
        ingest_sample(sig, batch[i]);
        proof {
            lemma_ingest_push(s0, batch@.subrange(0, i as int), batch@[i as int]);
            assert(batch@.subrange(0, i + 1) =~= batch@.subrange(0, i as int).push(
                batch@[i as int],
            ));
        }
        i = i + 1;
    }
    proof {
        assert(batch@.subrange(0, n as int) =~= batch@);
        lemma_ingest_wf(s0, batch@);
    }
}

/// Is `name` free to register against the signals already in `sigs`: well
/// formed and in conflict with none of them?
pub open spec fn can_register(sigs: Seq<PlotSignalView>, name: Seq<char>) -> bool {
    &&& name_well_formed(name)
    &&& forall|i: int| 0 <= i < sigs.len() ==> !names_conflict(name, #[trigger] sigs[i].name)
}

/// The rule a rejected registration violates, checked in the order: leading
/// separator, doubled separator, character set, hierarchy conflict.
pub open spec fn name_rejection(sigs: Seq<PlotSignalView>, name: Seq<char>) -> Option<
    PlotSignalNameError,
> {
    if !starts_with_separator(name) {
        Some(PlotSignalNameError::DoesNotStartWithSeparator)
    } else if has_consecutive_separators(name) {
        Some(PlotSignalNameError::ConsecutiveSeparators)
    } else if !all_chars_allowed(name) {
        Some(PlotSignalNameError::IllegalCharacter)
    } else if exists|i: int| 0 <= i < sigs.len() && names_conflict(name, #[trigger] sigs[i].name) {
        Some(PlotSignalNameError::AncestorOrDescendantConflict)
    } else {
        None
    }
}

/// The registry: it exclusively owns every signal buffer and the receiving
/// half of every signal's channel.
pub struct PlotSignals {
    signals: Vec<PlotSignal>,
    receivers: Vec<Receiver<(i64, i64)>>,
    index: HashMap<u64, usize>,
}

impl View for PlotSignals {
    type V = Seq<PlotSignalView>;

    closed spec fn view(&self) -> Seq<PlotSignalView> {
        self.signals@.map_values(|s: PlotSignal| s@)
    }
}

/// The registry's name-space invariant, visible to callers: every buffer is
/// well formed, every name is valid, no two names conflict (so the name
/// space is a tree whose leaves are exactly the signals), and ids are
/// pairwise distinct.
pub open spec fn registry_view_wf(sigs: Seq<PlotSignalView>) -> bool {
    &&& forall|i: int| 0 <= i < sigs.len() ==> (#[trigger] sigs[i]).wf()
    &&& forall|i: int| 0 <= i < sigs.len() ==> name_well_formed((#[trigger] sigs[i]).name)
    &&& forall|i: int, j: int|
        0 <= i < sigs.len() && 0 <= j < sigs.len() && i != j ==> !names_conflict(
            (#[trigger] sigs[i]).name,
            (#[trigger] sigs[j]).name,
        )
    &&& forall|i: int, j: int|
        0 <= i < sigs.len() && 0 <= j < sigs.len() && i != j ==> (#[trigger] sigs[i]).id != (
        #[trigger] sigs[j]).id
}

impl PlotSignals {
    /// The full representation invariant: the visible name-space invariant
    /// plus the private bookkeeping that ties ids to buffer positions and
    /// every buffer to its channel.
    pub closed spec fn wf(&self) -> bool {
        &&& registry_view_wf(self@)
        &&& self.signals@.len() == self.receivers@.len()
        &&& forall|i: int|
            0 <= i < self.signals@.len() ==> self.index@.contains_key(
                (#[trigger] self.signals@[i])@.id,
            ) && self.index@[self.signals@[i]@.id] == i
        &&& forall|k: u64|
            self.index@.contains_key(k) ==> #[trigger] self.index@[k] < self.signals@.len()
                && self.signals@[self.index@[k] as int]@.id == k
    }

    /// The name-space invariant holds of everything a well-formed registry
    /// shows its callers.
    pub proof fn lemma_wf_view(&self)
        requires
            self.wf(),
        ensures
            registry_view_wf(self@),
    {
    }

    pub fn get_signals(&self) -> (r: &Vec<PlotSignal>)
        ensures
            r@.map_values(|s: PlotSignal| s@) == self@,
    {
        &self.signals
    }

    /// Returns the signal with the provided id, which must come from a
    /// successful `add_signal` on this registry.
    pub fn get_signal(&self, id: PlotSignalID) -> (r: &PlotSignal)
        requires
            self.wf(),
            exists|j: int| 0 <= j < self@.len() && (#[trigger] self@[j]).id == id@,
        ensures
            r@.id == id@,
            r@.wf(),
            exists|j: int| 0 <= j < self@.len() && #[trigger] self@[j] == r@,
    {
        proof {
            let j = choose|j: int| 0 <= j < self@.len() && (#[trigger] self@[j]).id == id@;
            assert(self.index@.contains_key(self.signals@[j]@.id));
        }
        match self.index.get(&id.id) {
            Some(idx) => &self.signals[*idx],
            None => vstd::pervasive::unreached(),
        }
    }

    /// Creates a new signal, returning its id and a producer handle for it.
    ///
    /// The name must start with `/`, may be divided into parts by further
    /// `/`s like a Unix path, must not contain two consecutive `/`s, and may
    /// otherwise use only letters, digits and underscores. It must not name
    /// an ancestor or a descendant of an already registered signal. On
    /// success the registry gains one empty buffer for the name; on failure
    /// it reports the violated rule and stays as it was.
    pub fn add_signal(&mut self, name: &str) -> (r: Result<
        (PlotSignalID, PlotSampleSender),
        PlotSignalError,
    >)
        requires
            old(self).wf(),
        ensures
            final(self).wf(),
            r is Ok <==> can_register(old(self)@, name@) && (forall|j: int|
                0 <= j < old(self)@.len() ==> (#[trigger] old(self)@[j]).id != name_id_hash(
                    name.spec_bytes(),
                )),
            r matches Ok((id, producer)) ==> {
                &&& id@ == name_id_hash(name.spec_bytes())
                &&& producer@ == id@
                &&& final(self)@ =~= old(self)@.push(
                    PlotSignalView {
                        id: id@,
                        name: name@,
                        time: Seq::<i64>::empty(),
                        data: Seq::<i64>::empty(),
                        faulted: false,
                    },
                )
            },
            r matches Err(e) ==> final(self)@ == old(self)@,
            r matches Err(PlotSignalError::NameError { name: n, kind }) ==> name_rejection(
                old(self)@,
                name@,
            ) == Some(kind) && n@ == name@,
            r matches Err(PlotSignalError::IdCollision { name: n }) ==> {
                &&& name_rejection(old(self)@, name@) is None
                &&& exists|j: int|
                    0 <= j < old(self)@.len() && (#[trigger] old(self)@[j]).id == name_id_hash(
                        name.spec_bytes(),
                    )
                &&& n@ == name@
            },
    {
        if let Err(kind) = check_name_format(name) {
            return Err(PlotSignalError::NameError { name: name.to_owned(), kind });
        }
        let n = self.signals.len();
        let mut i: usize = 0;
        while i < n
            invariant
                old(self).wf(),
                self == old(self),
                name_well_formed(name@),
                n == self.signals@.len(),
                i <= n,
                forall|j: int| 0 <= j < i ==> !names_conflict(name@, (#[trigger] self@[j]).name),
            decreases n - i,
        {
            if check_names_conflict(name, self.signals[i].name()) {
                proof {
                    assert(self@[i as int] == self.signals@[i as int]@);
                    assert(exists|j: int|
                        0 <= j < self@.len() && names_conflict(name@, #[trigger] self@[j].name));
                    assert(name_rejection(self@, name@) == Some(
                        PlotSignalNameError::AncestorOrDescendantConflict,
                    ));
                }
                return Err(
                    PlotSignalError::NameError {
                        name: name.to_owned(),
                        kind: PlotSignalNameError::AncestorOrDescendantConflict,
                    },
                );
            }
            proof {
                assert(self@[i as int] == self.signals@[i as int]@);
            }
            i = i + 1;
        }
        proof {
            assert(can_register(self@, name@));
        }
        let id_value = hash_name(name);
        if self.index.contains_key(&id_value) {
            proof {
                let j = self.index@[id_value] as int;
                assert(0 <= j < self@.len() && self@[j].id == id_value);
            }
            return Err(PlotSignalError::IdCollision { name: name.to_owned() });
        }
        proof {
            assert forall|j: int| 0 <= j < self@.len() implies (#[trigger] self@[j]).id != id_value by {
                assert(self.index@.contains_key(self.signals@[j]@.id));
            }
        }
        let id = PlotSignalID { id: id_value };
        let (sender, receiver) = new_sample_channel();
        let idx = self.signals.len();
        let sig = PlotSignal::new(name.to_owned(), id);
        self.signals.push(sig);
        self.receivers.push(receiver);
        self.index.insert(id_value, idx);
        proof {
            assert(self@ =~= old(self)@.push(
                PlotSignalView {
                    id: id@,
                    name: name@,
                    time: Seq::<i64>::empty(),
                    data: Seq::<i64>::empty(),
                    faulted: false,
                },
            ));
        }
        Ok((id, PlotSampleSender { sender, id }))
    }

    /// Drains, for every registered signal, all samples currently queued on
    /// its channel into its buffer, in arrival order, without blocking.
    /// Whatever the producers delivered, each buffer afterwards is an
    /// ingestion of its old state: identity and name are untouched, the old
    /// columns are a prefix of the new ones, and the buffer invariant holds.
    pub fn update(&mut self)
        requires
            old(self).wf(),
        ensures
            final(self).wf(),
            final(self)@.len() == old(self)@.len(),
            forall|i: int|
                0 <= i < final(self)@.len() ==> is_ingestion_of(
                    #[trigger] final(self)@[i],
                    old(self)@[i],
                ),
            forall|i: int|
                0 <= i < final(self)@.len() ==> (#[trigger] final(self)@[i]).id
                    == old(self)@[i].id,
            forall|i: int|
                0 <= i < final(self)@.len() ==> (#[trigger] final(self)@[i]).name
                    == old(self)@[i].name,
            forall|i: int|
                0 <= i < final(self)@.len() ==> old(self)@[i].time.is_prefix_of(
                    (#[trigger] final(self)@[i]).time,
                ),
    {
        let n = self.signals.len();
        proof {
            assert(old(self).signals@.len() == n);
            assert forall|j: int|
                0 <= j < n implies (#[trigger] old(self).signals@[j])@ == old(self)@[j] by {}
        }
        let mut i: usize = 0;
        while i < n
            invariant
                old(self).wf(),
                n == self.signals@.len(),
                n == old(self).signals@.len(),
                self.receivers@.len() == n,
                self.index == old(self).index,
                i <= n,
                forall|j: int|
                    i <= j < n ==> #[trigger] self.signals@[j] == old(self).signals@[j],
                forall|j: int|
                    0 <= j < i ==> is_ingestion_of(
                        (#[trigger] self.signals@[j])@,
                        old(self).signals@[j]@,
                    ),
                forall|j: int|
                    0 <= j < n ==> (#[trigger] self.signals@[j])@.id == old(self).signals@[j]@.id,
                forall|j: int|
                    0 <= j < n ==> (#[trigger] self.signals@[j])@.name
                        == old(self).signals@[j]@.name,
                forall|j: int| 0 <= j < n ==> (#[trigger] self.signals@[j])@.wf(),
                forall|j: int|
                    0 <= j < n ==> old(self).signals@[j]@.time.is_prefix_of(
                        (#[trigger] self.signals@[j])@.time,
                    ),
            decreases n - i,
        {
            let ghost prev = self.signals@;
            let batch = drain_receiver(&mut self.receivers[i]);
            proof {
                assert(self.signals@ == prev);
                assert(prev[i as int]@ == old(self).signals@[i as int]@);
            }
            ingest_batch(&mut self.signals[i], &batch);
            proof {
                assert(self.signals@ =~= prev.update(
                    i as int,
                    self.signals@[i as int],
                ));
                assert(self.signals@[i as int]@ == ingest(
                    old(self).signals@[i as int]@,
                    batch@,
                ));
                assert forall|j: int| 0 <= j <= i implies is_ingestion_of(
                    (#[trigger] self.signals@[j])@,
                    old(self).signals@[j]@,
                ) by {
                    if j < i {
                        assert(self.signals@[j] == prev[j]);
                        assert(is_ingestion_of(prev[j]@, old(self).signals@[j]@));
                    } else {
                        assert(self.signals@[j]@ == ingest(old(self).signals@[j]@, batch@));
                    }
                }
            }
            i = i + 1;
        }
        proof {
            assert forall|j: int| 0 <= j < n implies #[trigger] self@[j] == self.signals@[j]@ by {}
            assert forall|j: int| 0 <= j < n implies #[trigger] old(self)@[j]
                == old(self).signals@[j]@ by {}
            assert(self@.len() == n && old(self)@.len() == n);
            assert(self.wf()) by {
                assert(self.index@ == old(self).index@);
                assert forall|p: int|
                    0 <= p < self.signals@.len() implies self.index@.contains_key(
                    (#[trigger] self.signals@[p])@.id,
                ) && self.index@[self.signals@[p]@.id] == p by {
                    assert(old(self).index@.contains_key(old(self).signals@[p]@.id));
                    assert(old(self).index@[old(self).signals@[p]@.id] == p);
                }
                assert forall|k: u64|
                    self.index@.contains_key(k) implies #[trigger] self.index@[k]
                    < self.signals@.len() && self.signals@[self.index@[k] as int]@.id == k by {
                    assert(old(self).signals@[old(self).index@[k] as int]@.id == k);
                }
                assert forall|p: int, q: int|
                    0 <= p < self@.len() && 0 <= q < self@.len() && p != q implies !names_conflict(
                    (#[trigger] self@[p]).name,
                    (#[trigger] self@[q]).name,
                ) by {
                    assert(!names_conflict(old(self)@[p].name, old(self)@[q].name));
                }
                assert forall|p: int, q: int|
                    0 <= p < self@.len() && 0 <= q < self@.len() && p != q implies (
                #[trigger] self@[p]).id != (#[trigger] self@[q]).id by {
                    assert(old(self)@[p].id != old(self)@[q].id);
                }
                assert forall|p: int|
                    0 <= p < self@.len() implies name_well_formed(
                    (#[trigger] self@[p]).name,
                ) by {
                    assert(name_well_formed(old(self)@[p].name));
                }
            }
        }
    }
}

impl Default for PlotSignals {
    /// An empty registry: no signals, no channels.
    fn default() -> (r: Self)
        ensures
            r.wf(),
            r@ =~= Seq::<PlotSignalView>::empty(),
    {
        PlotSignals { signals: Vec::new(), receivers: Vec::new(), index: HashMap::new() }
    }
}

} // verus!

//! The ordered, key-addressable collection of download records.
//!
//! A [`Histories`] value owns every record the user has tracked, keyed by a
//! store-assigned `u32`.  Keys are unique, iteration order is ascending key
//! order, and the key counter only ever moves forward, so a key is never
//! assigned twice — not even after the record it named was removed.

use vstd::prelude::*;
use vstd::string::StringExecFns;

use crate::error::HistoryError;

verus! {

/// Lifecycle stage of one tracked download.
///
/// The store records whatever stage it is told; validity of a transition is
/// the download engine's business, not the store's.
#[allow(non_camel_case_types)]
#[derive(Debug, Clone, Copy, PartialEq, Eq, Structural)]
pub enum DownloadStage {
    READY,
    DOWNLOADING,
    MERGING,
    COMPLETE,
}

/// One tracked download: display name, source location, current stage.
#[derive(Debug)]
pub struct HistoryDownload {
    pub file_name: String,
    pub url: String,
    pub stage_download: DownloadStage,
}

/// The mathematical value of one record: the two text fields as character
/// sequences, plus the stage.
#[verifier::ext_equal]
pub struct RecordV {
    pub file_name: Seq<char>,
    pub url: Seq<char>,
    pub stage_download: DownloadStage,
}

impl View for HistoryDownload {
    type V = RecordV;

    open spec fn view(&self) -> RecordV {
        RecordV {
            file_name: self.file_name@,
            url: self.url@,
            stage_download: self.stage_download,
        }
    }
}

/// The mathematical value of the whole store: the entries in stored order,
/// plus the counter holding the key the next add will assign.
#[verifier::ext_equal]
pub struct StoreV {
    pub entries: Seq<(u32, RecordV)>,
    pub next_key: u64,
}

/// The mathematical value of a vector of keyed records.
pub open spec fn entries_view(v: Seq<(u32, HistoryDownload)>) -> Seq<(u32, RecordV)> {
    v.map_values(|p: (u32, HistoryDownload)| (p.0, p.1@))
}

/// Keys appear in strictly ascending order (which also makes them unique).
pub open spec fn sorted_keys(entries: Seq<(u32, RecordV)>) -> bool {
    forall|i: int, j: int| 0 <= i < j < entries.len() ==> entries[i].0 < entries[j].0
}

/// Every key in `entries` lies strictly below `bound`.
pub open spec fn keys_below(entries: Seq<(u32, RecordV)>, bound: u64) -> bool {
    forall|i: int| 0 <= i < entries.len() ==> (entries[i].0 as u64) < bound
}

/// Some entry carries key `k`.
pub open spec fn has_key(entries: Seq<(u32, RecordV)>, k: u32) -> bool {
    exists|i: int| 0 <= i < entries.len() && entries[i].0 == k
}

/// The position of the entry carrying key `k` (meaningful when `has_key`).
pub open spec fn key_index(entries: Seq<(u32, RecordV)>, k: u32) -> int {
    choose|i: int| 0 <= i < entries.len() && entries[i].0 == k
}

/// The record stored under key `k` (meaningful when `has_key`).
pub open spec fn record_of(entries: Seq<(u32, RecordV)>, k: u32) -> RecordV {
    entries[key_index(entries, k)].1
}

/// With sorted keys an index holding key `k` is unique, so `key_index`
/// picks exactly the index one exhibits.
pub proof fn lemma_key_index_is(entries: Seq<(u32, RecordV)>, k: u32, i: int)
    requires
        sorted_keys(entries),
        0 <= i < entries.len(),
        entries[i].0 == k,
    ensures
        has_key(entries, k),
        key_index(entries, k) == i,
        record_of(entries, k) == entries[i].1,
{
    assert(has_key(entries, k));
    let j = key_index(entries, k);
    if j < i {
        assert(entries[j].0 < entries[i].0);
    } else if i < j {
        assert(entries[i].0 < entries[j].0);
    }
}

impl StoreV {
    /// Well-formedness of a store value: ascending unique keys, every key
    /// strictly below the counter, and the counter within the range a `u32`
    /// key can ever force it to (at most one past `u32::MAX`).
    pub open spec fn wf(self) -> bool {
        &&& sorted_keys(self.entries)
        &&& keys_below(self.entries, self.next_key)
        &&& 1 <= self.next_key <= 0x1_0000_0000u64
    }
}

/// The persisted collection: records ordered by ascending key, plus the
/// key counter.  Only the records are written to disk; the counter is
/// re-derived on load as one past the largest stored key.
#[derive(Debug)]
pub struct Histories {
    history: Vec<(u32, HistoryDownload)>,
    next_key: u64,
}

impl View for Histories {
    type V = StoreV;

    closed spec fn view(&self) -> StoreV {
        StoreV { entries: entries_view(self.history@), next_key: self.next_key }
    }
}

impl Histories {
    /// Well-formedness of the store (see [`StoreV::wf`]).  Established by
    /// the constructors and preserved by every operation.
    pub open spec fn wf(&self) -> bool {
        self@.wf()
    }

    /// An empty store: no records, first key to assign is 1.
    pub fn new() -> (r: Histories)
        ensures
            r.wf(),
            r@.entries =~= Seq::<(u32, RecordV)>::empty(),
            r@.next_key == 1u64,
    {
        Histories { history: Vec::new(), next_key: 1 }
    }

    /// Appends `download_history` under a fresh key and returns that key.
    /// The key is the current counter value, strictly greater than every
    /// key present (and than every key ever assigned before); the record
    /// lands at the end of the iteration order.  Nothing is persisted here:
    /// saving is the caller's explicit, separate step.
    pub fn add_history(&mut self, download_history: HistoryDownload) -> (key: u32)
        requires
            old(self).wf(),
            old(self)@.next_key <= u32::MAX as u64,
        ensures
            final(self).wf(),
            key as u64 == old(self)@.next_key,
            final(self)@.next_key == old(self)@.next_key + 1,
            final(self)@.entries =~= old(self)@.entries.push((key, download_history@)),
            keys_below(old(self)@.entries, key as u64),
            final(self)@ == apply_op(old(self)@, HistoryOp::Add(download_history@)),
    {
        let key = self.next_key as u32;
        let ghost prev = self@.entries;
        self.history.push((key, download_history));
        self.next_key = self.next_key + 1;
        proof {
            assert(self@.entries =~= prev.push((key, download_history@)));
            assert(self@.entries =~= apply_op(old(self)@, HistoryOp::Add(download_history@)).entries);
            assert(self@ =~= apply_op(old(self)@, HistoryOp::Add(download_history@)));
        }
        key
    }

    /// Looks the record for key `num` up, read-only.  Succeeds exactly when
    /// the key is present; an absent key is reported as `NotFound(num)`.
    pub fn get_history(&self, num: u32) -> (r: Result<&HistoryDownload, HistoryError>)
        requires
            self.wf(),
        ensures
            match r {
                Ok(rec) => has_key(self@.entries, num) && rec@ == record_of(self@.entries, num),
                Err(e) => !has_key(self@.entries, num) && e == HistoryError::NotFound(num),
            },
    {
        let n = self.history.len();
        let mut i: usize = 0;
        while i < n
            invariant
                self.wf(),
                n == self.history.len(),
                0 <= i <= n,
                forall|j: int| 0 <= j < i ==> self@.entries[j].0 != num,
            decreases n - i,
        {
            if self.history[i].0 == num {
                proof {
                    lemma_key_index_is(self@.entries, num, i as int);
                }
                return Ok(&self.history[i].1);
            }
            i = i + 1;
        }
        Err(HistoryError::NotFound(num))
    }

    /// Replaces the stage of the record under key `num`, leaving its other
    /// fields, every other record, the order and the key counter untouched.
    /// A missing key is deliberately a silent no-op.
    pub fn update_stage(&mut self, num: u32, stage: DownloadStage)
        requires
            old(self).wf(),
        ensures
            final(self).wf(),
            final(self)@.next_key == old(self)@.next_key,
            final(self)@.entries.len() == old(self)@.entries.len(),
            forall|i: int| 0 <= i < old(self)@.entries.len() ==> final(self)@.entries[i] == (
                if old(self)@.entries[i].0 == num {
                    (num, (RecordV { stage_download: stage, ..old(self)@.entries[i].1 }))
                } else {
                    old(self)@.entries[i]
                }
            ),
            final(self)@ == apply_op(old(self)@, HistoryOp::UpdateStage(num, stage)),
    {
        let ia = match self.find_index(num) {
            Some(i) => i,
            None => {
                proof {
                    let target = apply_op(self@, HistoryOp::UpdateStage(num, stage));
                    assert(self@.entries =~= target.entries);
                    assert(self@ =~= target);
                }
                return ;
            },
        };
        let ghost prev = self@.entries;
        let ghost at = ia as int;
        let (k, mut rec) = self.history.remove(ia);
        rec.stage_download = stage;
        self.history.insert(ia, (k, rec));
        proof {
            assert(self@.entries =~= prev.update(at, (num, (RecordV {
                stage_download: stage,
                ..prev[at].1
            }))));
            assert forall|j: int| 0 <= j < prev.len() && j != at implies prev[j].0 != num by {
                if prev[j].0 == num {
                    if j < at {
                        assert(prev[j].0 < prev[at].0);
                    } else {
                        assert(prev[at].0 < prev[j].0);
                    }
                }
            }
            let target = apply_op(old(self)@, HistoryOp::UpdateStage(num, stage));
            assert(self@.entries =~= target.entries);
            assert(self@ =~= target);
        }
    }

    /// Exchanges the records stored under `num_a` and `num_b`; the keys
    /// themselves, and with them the iteration order, stay where they are.
    /// All or nothing: when either key is missing the store is unchanged
    /// and the missing key is reported, `num_a` checked first.
    pub fn swap_position(&mut self, num_a: u32, num_b: u32) -> (r: Result<(), HistoryError>)
        requires
            old(self).wf(),
        ensures
            final(self).wf(),
            final(self)@.next_key == old(self)@.next_key,
            final(self)@ == apply_op(old(self)@, HistoryOp::SwapPosition(num_a, num_b)),
            match r {
                Ok(()) => {
                    &&& has_key(old(self)@.entries, num_a)
                    &&& has_key(old(self)@.entries, num_b)
                    &&& final(self)@.entries.len() == old(self)@.entries.len()
                    &&& forall|i: int| 0 <= i < old(self)@.entries.len()
                        ==> final(self)@.entries[i] == (
                            if old(self)@.entries[i].0 == num_a {
                                (num_a, record_of(old(self)@.entries, num_b))
                            } else if old(self)@.entries[i].0 == num_b {
                                (num_b, record_of(old(self)@.entries, num_a))
                            } else {
                                old(self)@.entries[i]
                            }
                        )
                },
                Err(e) => {
                    &&& final(self)@ == old(self)@
                    &&& if !has_key(old(self)@.entries, num_a) {
                            e == HistoryError::NotFound(num_a)
                        } else {
                            !has_key(old(self)@.entries, num_b)
                                && e == HistoryError::NotFound(num_b)
                        }
                },
            },
    {
        let ia = match self.find_index(num_a) {
            Some(i) => i,
            None => {
                return Err(HistoryError::NotFound(num_a));
            },
        };
        let ib = match self.find_index(num_b) {
            Some(i) => i,
            None => {
                return Err(HistoryError::NotFound(num_b));
            },
        };
        let ghost target = apply_op(self@, HistoryOp::SwapPosition(num_a, num_b));
        let ghost prev = self@.entries;
        let ghost ga = ia as int;
        let ghost gb = ib as int;
        proof {
            assert forall|j: int, k: u32|
                0 <= j < prev.len() && (k == num_a || k == num_b)
                    && j != key_index(prev, k) implies prev[j].0 != k by {
                let at = key_index(prev, k);
                if prev[j].0 == k {
                    if j < at {
                        assert(prev[j].0 < prev[at].0);
                    } else {
                        assert(prev[at].0 < prev[j].0);
                    }
                }
            }
        }
        if ia == ib {
            proof {
                assert(self@.entries =~= target.entries);
                assert(self@ =~= target);
            }
            return Ok(());
        }
        let (lo, hi) = if ia < ib { (ia, ib) } else { (ib, ia) };
        let (k_hi, r_hi) = self.history.remove(hi);
        let (k_lo, r_lo) = self.history.remove(lo);
        self.history.insert(lo, (k_lo, r_hi));
        self.history.insert(hi, (k_hi, r_lo));
        proof {
            let glo = lo as int;
            let ghi = hi as int;
            assert(self@.entries =~= prev.update(glo, (prev[glo].0, prev[ghi].1)).update(
                ghi,
                (prev[ghi].0, prev[glo].1),
            ));
            assert(self@.entries =~= target.entries);
            assert(self@ =~= target);
        }
        Ok(())
    }

    /// Deletes the record under key `num` and hands it back; an absent key
    /// is not an error but an explicit "was not there".  Every other
    /// record keeps its key and relative order, and the key counter does
    /// not move back, so the removed key will never be assigned again.
    pub fn remove_history(&mut self, num: u32) -> (r: Option<HistoryDownload>)
        requires
            old(self).wf(),
        ensures
            final(self).wf(),
            final(self)@.next_key == old(self)@.next_key,
            final(self)@ == apply_op(old(self)@, HistoryOp::Remove(num)),
            match r {
                Some(rec) => {
                    &&& has_key(old(self)@.entries, num)
                    &&& rec@ == record_of(old(self)@.entries, num)
                    &&& final(self)@.entries =~= old(self)@.entries.remove(
                        key_index(old(self)@.entries, num))
                },
                None => {
                    &&& !has_key(old(self)@.entries, num)
                    &&& final(self)@ == old(self)@
                },
            },
    {
        let ia = match self.find_index(num) {
            Some(i) => i,
            None => {
                return None;
            },
        };
        let ghost prev = self@.entries;
        let (_, rec) = self.history.remove(ia);
        proof {
            lemma_key_index_is(prev, num, ia as int);
            assert(self@.entries =~= prev.remove(ia as int));
            assert(self@ =~= apply_op(old(self)@, HistoryOp::Remove(num)));
        }
        Some(rec)
    }

    /// The full collection as ascending (key, record) pairs, read-only.
    pub fn list(&self) -> (r: &Vec<(u32, HistoryDownload)>)
        ensures
            entries_view(r@) == self@.entries,
    {
        &self.history
    }

    /// The position of key `num` in the vector, or `None` when absent.
    fn find_index(&self, num: u32) -> (r: Option<usize>)
        requires
            self.wf(),
        ensures
            match r {
                Some(i) => i < self@.entries.len() && self@.entries[i as int].0 == num
                    && has_key(self@.entries, num) && key_index(self@.entries, num) == i,
                None => !has_key(self@.entries, num),
            },
    {
        let n = self.history.len();
        let mut i: usize = 0;
        while i < n
            invariant
                self.wf(),
                n == self.history.len(),
                0 <= i <= n,
                forall|j: int| 0 <= j < i ==> self@.entries[j].0 != num,
            decreases n - i,
        {
            if self.history[i].0 == num {
                proof {
                    lemma_key_index_is(self@.entries, num, i as int);
                }
                return Some(i);
            }
            i = i + 1;
        }
        None
    }
}

impl Histories {
    /// Builds the store from the history file's raw contents.  `None`
    /// stands for "no file yet": a valid first-run state that yields the
    /// empty store, not an error.  Bytes in the store's format with
    /// strictly ascending keys yield exactly those records, with the key
    /// counter one past the largest key; anything else fails with
    /// `DeserializeFailed`.  Reading the file (and resolving the
    /// configuration directory) is the caller's step.
    pub fn load(contents: Option<&Vec<u8>>) -> (r: Result<Histories, HistoryError>)
        ensures
            match contents {
                None => r matches Ok(h) && h.wf() && h@.entries == Seq::<(u32, RecordV)>::empty()
                    && h@.next_key == 1u64,
                Some(b) => match crate::codec::spec_load(b@) {
                    Some(es) => r matches Ok(h) && h.wf() && h@.entries == es,
                    None => r == Err::<Histories, HistoryError>(HistoryError::DeserializeFailed),
                },
            },
    {
        let b = match contents {
            None => {
                return Ok(Histories::new());
            },
            Some(b) => b,
        };
        let v = match crate::codec::parse_store(b) {
            Some(v) => v,
            None => {
                return Err(HistoryError::DeserializeFailed);
            },
        };
        let ghost es = entries_view(v@);
        proof {
            assert forall|j: int| 0 <= j < es.len() implies #[trigger] es[j].0 == v@[j].0 by {
                assert(es[j] == (v@[j].0, v@[j].1@));
            }
        }
        let n = v.len();
        let mut i: usize = 0;
        while i + 1 < n
            invariant
                n == v@.len(),
                i < n || i == 0,
                contents matches Some(bb) && crate::codec::spec_parse_entries(bb@, 0) == Some(es),
                es == entries_view(v@),
                forall|j: int| 0 <= j < es.len() ==> #[trigger] es[j].0 == v@[j].0,
                forall|j: int| 0 <= j < i ==> #[trigger] v@[j].0 < v@[j + 1].0,
            decreases n - i,
        {
            if v[i].0 >= v[i + 1].0 {
                proof {
                    assert(!sorted_keys(es)) by {
                        assert(es[i as int].0 == v@[i as int].0);
                        assert(es[i + 1].0 == v@[i + 1].0);
                        assert(es[i as int].0 >= es[i + 1].0);
                    }
                }
                return Err(HistoryError::DeserializeFailed);
            }
            i = i + 1;
        }
        proof {
            assert(forall|p: int| 0 <= p < es.len() - 1 ==> #[trigger] es[p].0 < es[p + 1].0);
            assert forall|p: int, q: int| 0 <= p < q < es.len() implies es[p].0 < es[q].0 by {
                lemma_ascending_from_adjacent(es, p, q);
            }
        }
        let next: u64 = if n == 0 {
            1
        } else {
            (v[n - 1].0 as u64) + 1
        };
        let h = Histories { history: v, next_key: next };
        proof {
            assert(h@.entries == es);
            assert(keys_below(h@.entries, next)) by {
                if n > 0 {
                    assert(forall|j: int| 0 <= j < n - 1 ==> #[trigger] es[j].0 < es[n - 1].0);
                }
            }
        }
        Ok(h)
    }

    /// Whether another record can still be added: the key counter has
    /// not yet outgrown `u32`.  Callers outside verified code test this
    /// before calling [`Histories::add_history`].
    pub fn can_add(&self) -> (r: bool)
        ensures
            r == (self@.next_key <= u32::MAX as u64),
    {
        self.next_key <= u32::MAX as u64
    }

    /// The full path of the history file inside the configuration
    /// directory `dir_path`, when the caller found such a file to exist;
    /// `None` when it does not (a fresh start, not an error).  Probing
    /// the file system is the caller's step, handed in as `file_exists`.
    pub fn check_config_file(dir_path: &str, history_filename: &str, file_exists: bool) -> (r:
        Option<String>)
        ensures
            match r {
                Some(p) => file_exists && p@ == dir_path@ + "/"@ + history_filename@,
                None => !file_exists,
            },
    {
        if file_exists {
            let mut p = dir_path.to_owned();
            p.append("/");
            p.append(history_filename);
            Some(p)
        } else {
            None
        }
    }

    /// Serializes the whole collection to the history file's bytes, in
    /// exactly the format [`crate::codec::store_bytes`] describes,
    /// overwriting semantics and the write itself being the caller's
    /// step.  The store is left untouched.
    pub fn save_history(&self) -> (out: Vec<u8>)
        ensures
            out@ == crate::codec::store_bytes(self@.entries),
            crate::codec::entries_fit(self@.entries),
    {
        crate::codec::entries_to_bytes(&self.history)
    }
}

/// Pairwise ascending adjacent keys make the whole sequence ascending.
proof fn lemma_ascending_from_adjacent(entries: Seq<(u32, RecordV)>, i: int, j: int)
    requires
        forall|p: int| 0 <= p < entries.len() - 1 ==> #[trigger] entries[p].0 < entries[p + 1].0,
        0 <= i < j < entries.len(),
    ensures
        entries[i].0 < entries[j].0,
    decreases j - i,
{
    if i + 1 < j {
        lemma_ascending_from_adjacent(entries, i, j - 1);
    }
}

/// After an add assigned key `k` to record `r`, the new store is still
/// sorted and a lookup of `k` yields exactly `r`: the returned key is
/// immediately usable.
pub proof fn lemma_add_then_get(pre: StoreV, r: RecordV, k: u32)
    requires
        pre.wf(),
        pre.next_key <= u32::MAX as u64,
        k as u64 == pre.next_key,
    ensures
        sorted_keys(pre.entries.push((k, r))),
        has_key(pre.entries.push((k, r)), k),
        record_of(pre.entries.push((k, r)), k) == r,
{
    let post = pre.entries.push((k, r));
    assert(sorted_keys(post)) by {
        assert(forall|i: int| 0 <= i < pre.entries.len() ==> post[i] == pre.entries[i]);
        assert(post[post.len() - 1].0 == k);
    }
    lemma_key_index_is(post, k, post.len() - 1);
}

/// Swap is a true exchange: after swapping the records of keys `a` and
/// `b`, `a` holds what `b` held, `b` holds what `a` held, and every
/// other key keeps its record.  `pre` and `post` are related exactly as
/// the contract of `swap_position` states.
pub proof fn lemma_swap_exchange(
    pre: Seq<(u32, RecordV)>,
    post: Seq<(u32, RecordV)>,
    a: u32,
    b: u32,
)
    requires
        sorted_keys(pre),
        has_key(pre, a),
        has_key(pre, b),
        post.len() == pre.len(),
        forall|i: int| 0 <= i < pre.len() ==> post[i] == (
            if pre[i].0 == a {
                (a, record_of(pre, b))
            } else if pre[i].0 == b {
                (b, record_of(pre, a))
            } else {
                pre[i]
            }
        ),
    ensures
        sorted_keys(post),
        has_key(post, a) && record_of(post, a) == record_of(pre, b),
        has_key(post, b) && record_of(post, b) == record_of(pre, a),
        forall|k: u32| k != a && k != b ==> (has_key(post, k) <==> has_key(pre, k)),
        forall|k: u32| k != a && k != b && has_key(pre, k) ==> record_of(post, k) == record_of(
            pre,
            k,
        ),
{
    assert(forall|i: int| 0 <= i < pre.len() ==> post[i].0 == pre[i].0);
    let ia = key_index(pre, a);
    lemma_key_index_is(pre, a, ia);
    lemma_key_index_is(post, a, ia);
    let ib = key_index(pre, b);
    lemma_key_index_is(pre, b, ib);
    lemma_key_index_is(post, b, ib);
    assert forall|k: u32| k != a && k != b && has_key(pre, k) implies has_key(post, k)
        && record_of(post, k) == record_of(pre, k) by {
        let ik = key_index(pre, k);
        lemma_key_index_is(pre, k, ik);
        lemma_key_index_is(post, k, ik);
    }
    assert forall|k: u32| k != a && k != b && has_key(post, k) implies has_key(pre, k) by {
        let ik = key_index(post, k);
        lemma_key_index_is(post, k, ik);
        lemma_key_index_is(pre, k, ik);
    }
}

/// Removing key `k` really removes it: a lookup of `k` afterwards finds
/// nothing (so `get_history` fails with `NotFound(k)` and a second
/// remove reports "was not there"), the order stays sorted, and every
/// other key keeps its record.
pub proof fn lemma_remove_then_get(pre: Seq<(u32, RecordV)>, k: u32)
    requires
        sorted_keys(pre),
        has_key(pre, k),
    ensures
        sorted_keys(pre.remove(key_index(pre, k))),
        !has_key(pre.remove(key_index(pre, k)), k),
        forall|k2: u32| k2 != k ==> (has_key(pre.remove(key_index(pre, k)), k2) <==> has_key(
            pre,
            k2,
        )),
        forall|k2: u32| k2 != k && has_key(pre, k2) ==> record_of(
            pre.remove(key_index(pre, k)),
            k2,
        ) == record_of(pre, k2),
{
    let i = key_index(pre, k);
    lemma_key_index_is(pre, k, i);
    let post = pre.remove(i);
    assert(forall|j: int| 0 <= j < i ==> post[j] == pre[j]);
    assert(forall|j: int| i <= j < post.len() ==> post[j] == pre[j + 1]);
    assert(sorted_keys(post));
    assert(!has_key(post, k)) by {
        if has_key(post, k) {
            let jj = choose|jj: int| 0 <= jj < post.len() && post[jj].0 == k;
            if jj < i {
                lemma_key_index_is(pre, k, jj);
            } else {
                lemma_key_index_is(pre, k, jj + 1);
            }
        }
    }
    assert forall|k2: u32| k2 != k && has_key(pre, k2) implies has_key(post, k2) && record_of(
        post,
        k2,
    ) == record_of(pre, k2) by {
        let j = key_index(pre, k2);
        lemma_key_index_is(pre, k2, j);
        if j < i {
            lemma_key_index_is(post, k2, j);
        } else {
            lemma_key_index_is(post, k2, j - 1);
        }
    }
    assert forall|k2: u32| k2 != k && has_key(post, k2) implies has_key(pre, k2) by {
        let j = key_index(post, k2);
        lemma_key_index_is(post, k2, j);
        if j < i {
            lemma_key_index_is(pre, k2, j);
        } else {
            lemma_key_index_is(pre, k2, j + 1);
        }
    }
}


/// One mutating operation on the store, as a value: what the four
/// mutating methods do to the store's mathematical value, so that laws
/// can speak about whole sequences of operations.
pub enum HistoryOp {
    Add(RecordV),
    UpdateStage(u32, DownloadStage),
    Remove(u32),
    SwapPosition(u32, u32),
}

/// The store value after one operation.  Each branch states exactly what
/// the contract of the corresponding method ensures, including the
/// do-nothing outcomes: an add with an exhausted counter, a stage update
/// or removal of a missing key, a swap with a missing key.
pub open spec fn apply_op(s: StoreV, op: HistoryOp) -> StoreV {
    match op {
        HistoryOp::Add(r) => if s.next_key <= u32::MAX as u64 {
            StoreV {
                entries: s.entries.push((s.next_key as u32, r)),
                next_key: (s.next_key + 1) as u64,
            }
        } else {
            s
        },
        HistoryOp::UpdateStage(k, st) => StoreV {
            entries: Seq::new(
                s.entries.len(),
                |i: int|
                    if s.entries[i].0 == k {
                        (k, (RecordV { stage_download: st, ..s.entries[i].1 }))
                    } else {
                        s.entries[i]
                    },
            ),
            next_key: s.next_key,
        },
        HistoryOp::Remove(k) => if has_key(s.entries, k) {
            StoreV {
                entries: s.entries.remove(key_index(s.entries, k)),
                next_key: s.next_key,
            }
        } else {
            s
        },
        HistoryOp::SwapPosition(a, b) => if has_key(s.entries, a) && has_key(s.entries, b) {
            StoreV {
                entries: Seq::new(
                    s.entries.len(),
                    |i: int|
                        if s.entries[i].0 == a {
                            (a, record_of(s.entries, b))
                        } else if s.entries[i].0 == b {
                            (b, record_of(s.entries, a))
                        } else {
                            s.entries[i]
                        },
                ),
                next_key: s.next_key,
            }
        } else {
            s
        },
    }
}

/// The store value after a whole sequence of operations, first first.
pub open spec fn apply_ops(s: StoreV, ops: Seq<HistoryOp>) -> StoreV
    decreases ops.len(),
{
    if ops.len() == 0 {
        s
    } else {
        apply_ops(apply_op(s, ops[0]), ops.drop_first())
    }
}

/// Every operation keeps the store well formed and never lowers the key
/// counter.
pub proof fn lemma_apply_op_wf(s: StoreV, op: HistoryOp)
    requires
        s.wf(),
    ensures
        apply_op(s, op).wf(),
        apply_op(s, op).next_key >= s.next_key,
{
    let post = apply_op(s, op);
    match op {
        HistoryOp::Add(r) => {
            if s.next_key <= u32::MAX as u64 {
                assert(forall|i: int| 0 <= i < s.entries.len()
                    ==> post.entries[i] == s.entries[i]);
                assert(post.entries[post.entries.len() - 1].0 as u64 == s.next_key);
            }
        },
        HistoryOp::UpdateStage(k, st) => {
            assert(forall|i: int| 0 <= i < s.entries.len()
                ==> #[trigger] post.entries[i].0 == s.entries[i].0);
        },
        HistoryOp::Remove(k) => {
            if has_key(s.entries, k) {
                lemma_remove_then_get(s.entries, k);
                let i = key_index(s.entries, k);
                lemma_key_index_is(s.entries, k, i);
                assert(forall|j: int| 0 <= j < i ==> post.entries[j] == s.entries[j]);
                assert(forall|j: int| i <= j < post.entries.len()
                    ==> post.entries[j] == s.entries[j + 1]);
            }
        },
        HistoryOp::SwapPosition(a, b) => {
            if has_key(s.entries, a) && has_key(s.entries, b) {
                assert(forall|i: int| 0 <= i < s.entries.len()
                    ==> #[trigger] post.entries[i].0 == s.entries[i].0);
                let ia = key_index(s.entries, a);
                lemma_key_index_is(s.entries, a, ia);
                let ib = key_index(s.entries, b);
                lemma_key_index_is(s.entries, b, ib);
            }
        },
    }
}

/// A whole sequence of operations keeps the store well formed and never
/// lowers the key counter.
pub proof fn lemma_apply_ops_wf(s: StoreV, ops: Seq<HistoryOp>)
    requires
        s.wf(),
    ensures
        apply_ops(s, ops).wf(),
        apply_ops(s, ops).next_key >= s.next_key,
    decreases ops.len(),
{
    if ops.len() > 0 {
        lemma_apply_op_wf(s, ops[0]);
        lemma_apply_ops_wf(apply_op(s, ops[0]), ops.drop_first());
    }
}

/// Key monotonicity.  An add assigns the current counter value and bumps
/// the counter past it, and no operation ever lowers the counter.  So
/// for any store, the key one add assigns is strictly smaller than the
/// key a later add assigns, whatever mix of adds, stage updates, swaps
/// and removals ran in between: keys are never reused, not even after
/// the record they named was removed.
pub proof fn lemma_key_monotonicity(s: StoreV, r1: RecordV, ops: Seq<HistoryOp>, r2: RecordV)
    requires
        s.wf(),
        s.next_key <= u32::MAX as u64,
        apply_ops(apply_op(s, HistoryOp::Add(r1)), ops).next_key <= u32::MAX as u64,
    ensures
        ({
            // the key the first add assigns, and the key a second add
            // assigns after the operations in between
            let k1 = s.next_key as u32;
            let k2 = apply_ops(apply_op(s, HistoryOp::Add(r1)), ops).next_key as u32;
            k2 > k1
        }),
{
    lemma_apply_op_wf(s, HistoryOp::Add(r1));
    lemma_apply_ops_wf(apply_op(s, HistoryOp::Add(r1)), ops);
}


} // verus!

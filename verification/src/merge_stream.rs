//! K-way merge of log-record streams.
//!
//! Records are ordered as their derived `Ord` orders them: by timestamp,
//! then stream id, then message (byte-wise).  The merge keeps one candidate
//! per stream and repeatedly emits the smallest candidate, refilling from the
//! stream it came from.  Its output is always a permutation of its input;
//! when every input stream is sorted, by timestamp or by the full record
//! order, so is the output.
use vstd::prelude::*;
use vstd::multiset::Multiset;
use vstd::utf8::encode_utf8;
use crate::text::{bytes_lt, lemma_bytes_lt_irrefl, lemma_bytes_lt_total, lemma_bytes_lt_trans, str_lt};

verus! {

broadcast use vstd::multiset::group_multiset_axioms, vstd::utf8::encode_utf8_decode_utf8;

/// One log record: the millisecond it was written, the stream it came from,
/// and its text.
#[derive(Debug, Clone, PartialEq, Eq, PartialOrd, Ord)]
pub struct LogRecord {
    pub timestamp: u64,
    pub stream_id: usize,
    pub message: String,
}

/// What a record is.
pub struct RecordView {
    pub timestamp: u64,
    pub stream_id: usize,
    pub message: Seq<char>,
}

impl View for LogRecord {
    type V = RecordView;

    open spec fn view(&self) -> RecordView {
        RecordView { timestamp: self.timestamp, stream_id: self.stream_id, message: self.message@ }
    }
}

/// The derived order on records: timestamp, then stream id, then the UTF-8
/// bytes of the message.
pub open spec fn record_lt(a: RecordView, b: RecordView) -> bool {
    ||| a.timestamp < b.timestamp
    ||| a.timestamp == b.timestamp && a.stream_id < b.stream_id
    ||| a.timestamp == b.timestamp && a.stream_id == b.stream_id && bytes_lt(
        encode_utf8(a.message),
        encode_utf8(b.message),
    )
}

/// Sorted by the record order.
pub open spec fn sorted_records(s: Seq<RecordView>) -> bool {
    forall|i: int, j: int| 0 <= i < j < s.len() ==> !record_lt(#[trigger] s[j], #[trigger] s[i])
}

/// Sorted by timestamp.
pub open spec fn sorted_by_time(s: Seq<RecordView>) -> bool {
    forall|i: int, j: int| 0 <= i < j < s.len() ==> #[trigger] s[i].timestamp <= #[trigger] s[j].timestamp
}

/// The views of a sequence of records.
pub open spec fn views(s: Seq<LogRecord>) -> Seq<RecordView> {
    s.map_values(|r: LogRecord| r@)
}

/// The views of a sequence of streams.
pub open spec fn stream_views(s: Seq<Vec<LogRecord>>) -> Seq<Seq<RecordView>> {
    s.map_values(|v: Vec<LogRecord>| views(v@))
}

/// Every record of every stream, counted with multiplicity.
pub open spec fn all_records(p: Seq<Seq<RecordView>>) -> Multiset<RecordView>
    decreases p.len(),
{
    if p.len() == 0 {
        Multiset::empty()
    } else {
        all_records(p.drop_last()).add(p.last().to_multiset())
    }
}

/// Stream `j` is the one whose head the merge takes next from `p`: its head
/// is the smallest, and strictly smaller than the head of any stream before it.
pub open spec fn is_pick(p: Seq<Seq<RecordView>>, j: int) -> bool {
    &&& 0 <= j < p.len()
    &&& p[j].len() > 0
    &&& forall|k: int|
        0 <= k < p.len() && #[trigger] p[k].len() > 0 ==> !record_lt(p[k][0], p[j][0]) && (k < j
            ==> record_lt(p[j][0], p[k][0]))
}

/// The record order is a strict total order.
pub proof fn lemma_record_order(a: RecordView, b: RecordView, c: RecordView)
    ensures
        !record_lt(a, a),
        record_lt(a, b) && record_lt(b, c) ==> record_lt(a, c),
        a == b || record_lt(a, b) || record_lt(b, a),
{
    lemma_bytes_lt_irrefl(encode_utf8(a.message));
    if record_lt(a, b) && record_lt(b, c) && a.timestamp == b.timestamp && b.timestamp
        == c.timestamp && a.stream_id == b.stream_id && b.stream_id == c.stream_id {
        lemma_bytes_lt_trans(encode_utf8(a.message), encode_utf8(b.message), encode_utf8(c.message));
    }
    lemma_bytes_lt_total(encode_utf8(a.message), encode_utf8(b.message));
    if encode_utf8(a.message) == encode_utf8(b.message) {
        assert(vstd::utf8::decode_utf8(encode_utf8(a.message)) == a.message);
        assert(vstd::utf8::decode_utf8(encode_utf8(b.message)) == b.message);
        assert(a.message == b.message);
    }
}

/// Taking the head of stream `j` out leaves one copy less of it in all.
pub proof fn lemma_all_records_take(p: Seq<Seq<RecordView>>, j: int)
    requires
        0 <= j < p.len(),
        p[j].len() > 0,
    ensures
        all_records(p) == all_records(p.update(j, p[j].drop_first())).insert(p[j][0]),
    decreases p.len(),
{
    let q = p.update(j, p[j].drop_first());
    p[j].to_multiset_ensures();
    assert(p[j].remove(0) =~= p[j].drop_first());
    if j == p.len() - 1 {
        assert(q.drop_last() =~= p.drop_last());
    } else {
        lemma_all_records_take(p.drop_last(), j);
        assert(q.drop_last() =~= p.drop_last().update(j, p[j].drop_first()));
    }
    assert(all_records(p) =~= all_records(q).insert(p[j][0]));
}

/// An empty sequence holds nothing.
pub proof fn lemma_empty_to_multiset<A>(s: Seq<A>)
    requires
        s.len() == 0,
    ensures
        s.to_multiset() == Multiset::<A>::empty(),
{
    s.to_multiset_ensures();
    assert forall|a: A| s.to_multiset().count(a) == 0 by {
        assert(!s.contains(a));
    }
    assert(s.to_multiset() =~= Multiset::<A>::empty());
}

/// No records at all when every stream is empty.
pub proof fn lemma_all_records_empty(p: Seq<Seq<RecordView>>)
    requires
        forall|k: int| 0 <= k < p.len() ==> #[trigger] p[k].len() == 0,
    ensures
        all_records(p) == Multiset::<RecordView>::empty(),
    decreases p.len(),
{
    if p.len() > 0 {
        lemma_all_records_empty(p.drop_last());
        lemma_empty_to_multiset(p.last());
        assert(all_records(p) =~= Multiset::<RecordView>::empty());
    }
}

/// At most one stream is the pick.
pub proof fn lemma_pick_unique(p: Seq<Seq<RecordView>>, a: int, b: int)
    requires
        is_pick(p, a),
        is_pick(p, b),
    ensures
        a == b,
{
    assert(p[a].len() > 0 && p[b].len() > 0);
}

/// The records in the order the merge emits them: the head of the picked
/// stream, then the merge of what is left; nothing once every stream is
/// exhausted.
pub open spec fn merged(p: Seq<Seq<RecordView>>) -> Seq<RecordView>
    decreases all_records(p).len(),
{
    if exists|j: int| is_pick(p, j) {
        let j = choose|j: int| is_pick(p, j);
        proof {
            lemma_all_records_take(p, j);
        }
        seq![p[j][0]] + merged(p.update(j, p[j].drop_first()))
    } else {
        Seq::empty()
    }
}

/// One step of the merge: taking the picked head leaves the merge of the rest.
pub proof fn lemma_merged_step(p: Seq<Seq<RecordView>>, j: int)
    requires
        is_pick(p, j),
    ensures
        merged(p) == seq![p[j][0]] + merged(p.update(j, p[j].drop_first())),
{
    let c = choose|i: int| is_pick(p, i);
    lemma_pick_unique(p, c, j);
}

/// With every stream exhausted the merge is empty.
pub proof fn lemma_merged_empty(p: Seq<Seq<RecordView>>)
    requires
        forall|k: int| 0 <= k < p.len() ==> #[trigger] p[k].len() == 0,
    ensures
        merged(p) == Seq::<RecordView>::empty(),
{
    assert forall|j: int| !is_pick(p, j) by {
        if 0 <= j < p.len() {
            assert(p[j].len() == 0);
        }
    }
}

/// One call of [`MergeIter::next`] that yields `rec`: the stream `j` that
/// [`is_pick`] names gives up its head `rec`, turning `p` into `q`.
pub open spec fn merge_step(p: Seq<Seq<RecordView>>, rec: RecordView, q: Seq<Seq<RecordView>>) -> bool {
    exists|j: int| #[trigger] is_pick(p, j) && rec == p[j][0] && q == p.update(j, p[j].drop_first())
}

/// Every stream is exhausted.
pub open spec fn exhausted(p: Seq<Seq<RecordView>>) -> bool {
    forall|k: int| 0 <= k < p.len() ==> #[trigger] p[k].len() == 0
}

/// Draining the lazy merge gives the batch merge: when calls of
/// [`MergeIter::next`] take the pending streams from `ps[0]` through `ps[i]`
/// to `ps[i + 1]`, yielding `rs[i]`, until every stream is exhausted, the
/// records yielded are [`merged`]`(ps[0])`, which is what
/// [`merge_k_streams`] returns for the same streams.
pub proof fn law_drain_gives_merged(ps: Seq<Seq<Seq<RecordView>>>, rs: Seq<RecordView>)
    requires
        ps.len() == rs.len() + 1,
        forall|i: int| 0 <= i < rs.len() ==> #[trigger] merge_step(ps[i], rs[i], ps[i + 1]),
        exhausted(ps.last()),
    ensures
        rs == merged(ps[0]),
    decreases rs.len(),
{
    if rs.len() == 0 {
        lemma_merged_empty(ps[0]);
    } else {
        let tps = ps.drop_first();
        let trs = rs.drop_first();
        assert forall|i: int| 0 <= i < trs.len() implies #[trigger] merge_step(tps[i], trs[i], tps[i + 1]) by {
            let i1 = i + 1;
            assert(merge_step(ps[i1], rs[i1], ps[i1 + 1]));
            assert(tps[i] == ps[i1] && trs[i] == rs[i1] && tps[i + 1] == ps[i1 + 1]);
        }
        law_drain_gives_merged(tps, trs);
        assert(merge_step(ps[0], rs[0], ps[1]));
        let j = choose|j: int|
            #[trigger] is_pick(ps[0], j) && rs[0] == ps[0][j][0] && ps[1] == ps[0].update(
                j,
                ps[0][j].drop_first(),
            );
        lemma_merged_step(ps[0], j);
        assert(rs =~= seq![rs[0]] + trs);
    }
}

/// Once every stream is exhausted the merge stays so: [`MergeIter::next`]
/// yields nothing more.
pub proof fn law_exhausted_stays_none(p: Seq<Seq<RecordView>>, rec: RecordView, q: Seq<Seq<RecordView>>)
    requires
        exhausted(p),
    ensures
        !merge_step(p, rec, q),
        merged(p) == Seq::<RecordView>::empty(),
{
    lemma_merged_empty(p);
    if merge_step(p, rec, q) {
        let j = choose|j: int|
            #[trigger] is_pick(p, j) && rec == p[j][0] && q == p.update(j, p[j].drop_first());
        assert(p[j].len() == 0);
    }
}

impl LogRecord {
    /// A record with a copy of `message`.
    pub fn new(timestamp: u64, stream_id: usize, message: &str) -> (r: Self)
        ensures
            r@ == (RecordView { timestamp, stream_id, message: message@ }),
    {
        LogRecord { timestamp, stream_id, message: message.to_string() }
    }
}

/// `a < b` in the record order.
fn record_less(a: &LogRecord, b: &LogRecord) -> (r: bool)
    ensures
        r == record_lt(a@, b@),
{
    if a.timestamp != b.timestamp {
        a.timestamp < b.timestamp
    } else if a.stream_id != b.stream_id {
        a.stream_id < b.stream_id
    } else {
        str_lt(a.message.as_str(), b.message.as_str())
    }
}

/// The views of `v` read from its last element to its first.
pub open spec fn rev_views(v: Seq<LogRecord>) -> Seq<RecordView> {
    Seq::new(v.len(), |i: int| v[v.len() - 1 - i]@)
}

/// The records of `s`, last first.
fn reversed(s: Vec<LogRecord>) -> (r: Vec<LogRecord>)
    ensures
        rev_views(r@) == views(s@),
{
    let ghost orig = s@;
    let mut s = s;
    let mut r: Vec<LogRecord> = Vec::new();
    while s.len() > 0
        invariant
            s@.len() + r@.len() == orig.len(),
            s@ == orig.subrange(0, s@.len() as int),
            forall|i: int| 0 <= i < r@.len() ==> #[trigger] r@[i] == orig[orig.len() - 1 - i],
        decreases s@.len(),
    {
        let x = s.pop().unwrap();
        r.push(x);
        assert(s@ =~= orig.subrange(0, s@.len() as int));
    }
    assert(rev_views(r@) =~= views(orig));
    r
}

/// A lazy merge of sorted streams: each call of [`MergeIter::next`] yields
/// the next record of the merge.
pub struct MergeIter {
    heads: Vec<Option<LogRecord>>,
    iters: Vec<Vec<LogRecord>>,
}

impl MergeIter {
    /// For each stream, the records not yet yielded, in stream order.
    pub closed spec fn pending(&self) -> Seq<Seq<RecordView>> {
        Seq::new(
            self.heads@.len(),
            |i: int|
                match self.heads@[i] {
                    Some(r) => seq![r@] + rev_views(self.iters@[i]@),
                    None => Seq::empty(),
                },
        )
    }

    /// The candidate slots and the stream remainders agree.
    pub closed spec fn wf(&self) -> bool {
        &&& self.heads@.len() == self.iters@.len()
        &&& forall|i: int|
            0 <= i < self.heads@.len() && #[trigger] self.heads@[i] is None ==> self.iters@[i]@.len()
                == 0
    }

    /// A merge of `streams`, with every record pending.
    pub fn new(streams: Vec<Vec<LogRecord>>) -> (r: Self)
        ensures
            r.wf(),
            r.pending() == stream_views(streams@),
    {
        let ghost orig = streams@;
        let mut streams = streams;
        let mut heads: Vec<Option<LogRecord>> = Vec::new();
        let mut iters: Vec<Vec<LogRecord>> = Vec::new();
        while streams.len() > 0
            invariant
                heads@.len() == iters@.len(),
                heads@.len() + streams@.len() == orig.len(),
                streams@ == orig.subrange(heads@.len() as int, orig.len() as int),
                forall|i: int|
                    0 <= i < heads@.len() && #[trigger] heads@[i] is None ==> iters@[i]@.len() == 0,
                forall|i: int|
                    0 <= i < heads@.len() ==> (match #[trigger] heads@[i] {
                        Some(r) => seq![r@] + rev_views(iters@[i]@),
                        None => Seq::empty(),
                    }) == views(orig[i]@),
            decreases streams@.len(),
        {
            let ghost n = heads@.len();
            let s = streams.remove(0);
            let mut rest = reversed(s);
            let ghost full = rest@;
            let head = rest.pop();
            let ghost gh = head;
            proof {
                match gh {
                    Some(h) => {
                        assert(seq![h@] + rev_views(rest@) =~= rev_views(full));
                    },
                    None => {
                        assert(rev_views(full) =~= Seq::<RecordView>::empty());
                    },
                }
            }
            heads.push(head);
            iters.push(rest);
            proof {
                assert(streams@ =~= orig.subrange(heads@.len() as int, orig.len() as int));
                assert(heads@[n as int] == gh);
                assert(iters@[n as int] == rest);
            }
        }
        let r = MergeIter { heads, iters };
        assert(r.pending() =~= stream_views(orig));
        r
    }

    /// Whether candidate `i` is strictly smaller than candidate `b`.
    fn head_less(&self, i: usize, b: usize) -> (r: bool)
        requires
            i < self.heads@.len(),
            b < self.heads@.len(),
            self.heads@[i as int] is Some,
            self.heads@[b as int] is Some,
        ensures
            r == record_lt(self.heads@[i as int]->0@, self.heads@[b as int]->0@),
    {
        match (&self.heads[i], &self.heads[b]) {
            (Some(x), Some(y)) => record_less(x, y),
            _ => false,
        }
    }

    /// The next record of the merge: the head of the stream that
    /// [`is_pick`] names, which that stream then loses; `None` once every
    /// stream is exhausted.  Drained to the end, the records come out in the
    /// order [`merged`] gives for the streams the iterator was made from.
    pub fn next(&mut self) -> (r: Option<LogRecord>)
        requires
            old(self).wf(),
        ensures
            final(self).wf(),
            match r {
                None => final(self).pending() == old(self).pending() && forall|k: int|
                    0 <= k < old(self).pending().len() ==> #[trigger] old(self).pending()[k].len()
                        == 0,
                Some(rec) => merge_step(old(self).pending(), rec@, final(self).pending()),
            },
            match r {
                None => merged(old(self).pending()) == Seq::<RecordView>::empty(),
                Some(rec) => merged(old(self).pending()) == seq![rec@] + merged(final(self).pending()),
            },
            r is None <==> exhausted(old(self).pending()),
    {
        let ghost p = self.pending();
        let n = self.heads.len();
        let mut best: usize = n;
        let mut i: usize = 0;
        while i < n
            invariant
                self.wf(),
                n == self.heads@.len(),
                p == self.pending(),
                i <= n,
                best == n || (best < i && p[best as int].len() > 0),
                best == n ==> forall|k: int| 0 <= k < i ==> #[trigger] p[k].len() == 0,
                best < n ==> forall|k: int|
                    0 <= k < i && #[trigger] p[k].len() > 0 ==> !record_lt(p[k][0], p[best as int][0])
                        && (k < best ==> record_lt(p[best as int][0], p[k][0])),
            decreases n - i,
        {
            proof {
                assert(p[i as int] == match self.heads@[i as int] {
                    Some(r) => seq![r@] + rev_views(self.iters@[i as int]@),
                    None => Seq::empty(),
                });
            }
            if self.heads[i].is_some() {
                proof {
                    assert(p[i as int][0] == self.heads@[i as int]->0@);
                }
                if best == n {
                    proof {
                        lemma_record_order(p[i as int][0], p[i as int][0], p[i as int][0]);
                    }
                    best = i;
                } else {
                    proof {
                        assert(p[best as int][0] == self.heads@[best as int]->0@);
                    }
                    if self.head_less(i, best) {
                        proof {
                            assert forall|k: int|
                                0 <= k < i + 1 && #[trigger] p[k].len() > 0 implies !record_lt(
                                p[k][0],
                                p[i as int][0],
                            ) && (k < i ==> record_lt(p[i as int][0], p[k][0])) by {
                                lemma_record_order(p[k][0], p[i as int][0], p[best as int][0]);
                                lemma_record_order(p[i as int][0], p[best as int][0], p[k][0]);
                                lemma_record_order(p[best as int][0], p[k][0], p[i as int][0]);
                            }
                        }
                        best = i;
                    } else {
                        proof {
                            lemma_record_order(p[i as int][0], p[best as int][0], p[i as int][0]);
                        }
                    }
                }
            }
            i = i + 1;
        }
        if best == n {
            proof {
                lemma_merged_empty(p);
            }
            return None;
        }
        proof {
            assert(is_pick(p, best as int));
            lemma_merged_step(p, best as int);
        }
        let slot = self.heads.remove(best);
        let mut rest = self.iters.remove(best);
        let ghost full = rest@;
        let refill = rest.pop();
        let ghost gr = refill;
        self.heads.insert(best, refill);
        self.iters.insert(best, rest);
        proof {
            let q = p.update(best as int, p[best as int].drop_first());
            assert(slot is Some);
            assert(p[best as int] == seq![slot->0@] + rev_views(full));
            match gr {
                Some(h) => {
                    assert(seq![h@] + rev_views(rest@) =~= rev_views(full));
                },
                None => {
                    assert(rev_views(full) =~= Seq::<RecordView>::empty());
                },
            }
            assert(p[best as int].drop_first() =~= rev_views(full));
            assert forall|k: int|
                0 <= k < self.heads@.len() && #[trigger] self.heads@[k] is None implies self.iters@[k]@.len()
                == 0 by {
                if k != best {
                    assert(self.heads@[k] == old(self).heads@[k]);
                    assert(self.iters@[k] == old(self).iters@[k]);
                }
            }
            assert forall|k: int| 0 <= k < q.len() implies #[trigger] self.pending()[k] == q[k] by {
                if k != best {
                    assert(self.heads@[k] == old(self).heads@[k]);
                    assert(self.iters@[k] == old(self).iters@[k]);
                }
            }
            assert(self.pending() =~= q);
        }
        slot
    }
}

/// All records of `streams` in one sequence, in the order [`merged`]
/// gives: smallest head first.  Always a permutation of the input; sorted by
/// timestamp when every stream is, and sorted by the record order when every
/// stream is.
pub fn merge_k_streams(streams: Vec<Vec<LogRecord>>) -> (r: Vec<LogRecord>)
    ensures
        views(r@) == merged(stream_views(streams@)),
        views(r@).to_multiset() == all_records(stream_views(streams@)),
        (forall|i: int| 0 <= i < streams@.len() ==> sorted_by_time(#[trigger] views(streams@[i]@)))
            ==> sorted_by_time(views(r@)),
        (forall|i: int| 0 <= i < streams@.len() ==> sorted_records(#[trigger] views(streams@[i]@)))
            ==> sorted_records(views(r@)),
{
    let ghost orig = stream_views(streams@);
    let ghost time_sorted = forall|i: int|
        0 <= i < streams@.len() ==> sorted_by_time(#[trigger] views(streams@[i]@));
    let ghost fully_sorted = forall|i: int|
        0 <= i < streams@.len() ==> sorted_records(#[trigger] views(streams@[i]@));
    proof {
        if time_sorted {
            assert forall|k: int| 0 <= k < orig.len() implies sorted_by_time(#[trigger] orig[k]) by {
                assert(orig[k] == views(streams@[k]@));
            }
        }
        if fully_sorted {
            assert forall|k: int| 0 <= k < orig.len() implies sorted_records(#[trigger] orig[k]) by {
                assert(orig[k] == views(streams@[k]@));
            }
        }
    }
    let mut it = MergeIter::new(streams);
    let mut out: Vec<LogRecord> = Vec::new();
    proof {
        assert(views(out@) =~= Seq::<RecordView>::empty());
        lemma_empty_to_multiset(views(out@));
        assert(views(out@).to_multiset().add(all_records(it.pending())) =~= all_records(orig));
        assert(views(out@) + merged(it.pending()) =~= merged(orig));
    }
    loop
        invariant_except_break
            it.wf(),
            views(out@) + merged(it.pending()) == merged(orig),
            views(out@).to_multiset().add(all_records(it.pending())) == all_records(orig),
            time_sorted ==> forall|k: int|
                0 <= k < it.pending().len() ==> sorted_by_time(#[trigger] it.pending()[k]),
            time_sorted ==> sorted_by_time(views(out@)),
            time_sorted && out@.len() > 0 ==> forall|k: int, m: int|
                0 <= k < it.pending().len() && 0 <= m < it.pending()[k].len()
                    ==> out@.last().timestamp <= #[trigger] it.pending()[k][m].timestamp,
            fully_sorted ==> forall|k: int|
                0 <= k < it.pending().len() ==> sorted_records(#[trigger] it.pending()[k]),
            fully_sorted ==> sorted_records(views(out@)),
            fully_sorted && out@.len() > 0 ==> forall|k: int, m: int|
                0 <= k < it.pending().len() && 0 <= m < it.pending()[k].len() ==> !record_lt(
                    #[trigger] it.pending()[k][m],
                    out@.last()@,
                ),
        ensures
            views(out@) == merged(orig),
            views(out@).to_multiset() == all_records(orig),
            time_sorted ==> sorted_by_time(views(out@)),
            fully_sorted ==> sorted_records(views(out@)),
        decreases all_records(it.pending()).len(),
    {
        let ghost p = it.pending();
        let ghost before = out@;
        match it.next() {
            Some(rec) => {
                let ghost j = choose|j: int|
                    #[trigger] is_pick(p, j) && rec@ == p[j][0] && it.pending() == p.update(
                        j,
                        p[j].drop_first(),
                    );
                proof {
                    lemma_all_records_take(p, j);
                }
                let ghost rv = rec@;
                out.push(rec);
                proof {
                    assert(views(out@) + merged(it.pending()) =~= views(before) + merged(p));
                    assert(out@.last()@ == rv);
                    assert(views(out@)[views(out@).len() - 1] == rv);
                    let q = it.pending();
                    assert(views(out@) =~= views(before).push(rec@));
                    views(before).to_multiset_ensures();
                    assert(views(out@).to_multiset().add(all_records(q)) =~= views(
                        before,
                    ).to_multiset().add(all_records(p)));
                    assert forall|k: int| 0 <= k < q.len() implies #[trigger] q[k] == (if k == j {
                        p[j].drop_first()
                    } else {
                        p[k]
                    }) by {}
                    if time_sorted {
                        assert forall|k: int| 0 <= k < q.len() implies sorted_by_time(
                            #[trigger] q[k],
                        ) by {
                            if k == j {
                                assert forall|a: int, b: int|
                                    0 <= a < b < q[k].len() implies #[trigger] q[k][a].timestamp
                                    <= #[trigger] q[k][b].timestamp by {
                                    assert(q[k][a] == p[j][a + 1]);
                                    assert(q[k][b] == p[j][b + 1]);
                                }
                            }
                        }
                        assert forall|k: int, m: int|
                            0 <= k < q.len() && 0 <= m < q[k].len() implies rec@.timestamp
                            <= #[trigger] q[k][m].timestamp by {
                            let m0 = if k == j { m + 1 } else { m };
                            assert(q[k][m] == p[k][m0]);
                            assert(p[k].len() > 0);
                            assert(!record_lt(p[k][0], p[j][0]));
                            if m0 > 0 {
                                assert(p[k][0].timestamp <= p[k][m0].timestamp);
                            }
                        }
                        assert forall|a: int, b: int|
                            0 <= a < b < views(out@).len() implies #[trigger] views(out@)[a].timestamp
                            <= #[trigger] views(out@)[b].timestamp by {
                            if b == views(out@).len() - 1 && before.len() > 0 {
                                assert(views(out@)[a] == views(before)[a]);
                                if a < before.len() - 1 {
                                    assert(views(before)[a].timestamp <= views(before)[before.len()
                                        - 1].timestamp);
                                }
                                assert(p[j].len() > 0);
                                assert(before.last().timestamp <= p[j][0].timestamp);
                            } else if b < views(out@).len() - 1 {
                                assert(views(out@)[a] == views(before)[a]);
                                assert(views(out@)[b] == views(before)[b]);
                            }
                        }
                    }
                    if fully_sorted {
                        assert forall|k: int| 0 <= k < q.len() implies sorted_records(#[trigger] q[k]) by {
                            if k == j {
                                assert forall|a: int, b: int|
                                    0 <= a < b < q[k].len() implies !record_lt(
                                    #[trigger] q[k][b],
                                    #[trigger] q[k][a],
                                ) by {
                                    assert(q[k][a] == p[j][a + 1]);
                                    assert(q[k][b] == p[j][b + 1]);
                                }
                            }
                        }
                        assert forall|k: int, m: int|
                            0 <= k < q.len() && 0 <= m < q[k].len() implies !record_lt(
                            #[trigger] q[k][m],
                            out@.last()@,
                        ) by {
                            let m0 = if k == j { m + 1 } else { m };
                            assert(q[k][m] == p[k][m0]);
                            assert(p[k].len() > 0);
                            assert(!record_lt(p[k][0], p[j][0]));
                            assert(rv == p[j][0]);
                            if m0 > 0 {
                                assert(sorted_records(p[k]));
                                assert(!record_lt(p[k][m0], p[k][0]));
                                lemma_record_order(p[k][0], p[k][m0], p[j][0]);
                                lemma_record_order(p[k][m0], p[k][0], p[j][0]);
                                lemma_record_order(p[k][0], p[j][0], p[k][m0]);
                            }
                        }
                        assert forall|a: int, b: int|
                            0 <= a < b < views(out@).len() implies !record_lt(
                            #[trigger] views(out@)[b],
                            #[trigger] views(out@)[a],
                        ) by {
                            if b == views(out@).len() - 1 && before.len() > 0 {
                                assert(views(out@)[a] == views(before)[a]);
                                assert(p[j].len() > 0);
                                assert(!record_lt(p[j][0], before.last()@));
                                if a < before.len() - 1 {
                                    assert(!record_lt(views(before)[before.len() - 1], views(
                                        before,
                                    )[a]));
                                    lemma_record_order(
                                        p[j][0],
                                        views(before)[a],
                                        views(before)[before.len() - 1],
                                    );
                                    lemma_record_order(
                                        views(before)[a],
                                        views(before)[before.len() - 1],
                                        p[j][0],
                                    );
                                    lemma_record_order(
                                        p[j][0],
                                        views(before)[before.len() - 1],
                                        views(before)[a],
                                    );
                                    lemma_record_order(
                                        views(before)[before.len() - 1],
                                        views(before)[a],
                                        p[j][0],
                                    );
                                    lemma_record_order(
                                        views(before)[a],
                                        p[j][0],
                                        views(before)[before.len() - 1],
                                    );
                                }
                            } else if b < views(out@).len() - 1 {
                                assert(views(out@)[a] == views(before)[a]);
                                assert(views(out@)[b] == views(before)[b]);
                            }
                        }
                    }
                }
            },
            None => {
                proof {
                    assert(views(out@) + merged(p) =~= views(out@));
                    lemma_all_records_empty(p);
                    assert(views(out@).to_multiset().add(Multiset::empty()) =~= views(
                        out@,
                    ).to_multiset());
                }
                break ;
            },
        }
    }
    out
}

/// A merge of `streams` to be drained one record at a time with
/// [`MergeIter::next`].
pub fn merge_streaming(streams: Vec<Vec<LogRecord>>) -> (r: MergeIter)
    ensures
        r.wf(),
        r.pending() == stream_views(streams@),
{
    MergeIter::new(streams)
}

} // verus!

//! The store's decisions: what each operation appends to the log, how the
//! index follows, when to compact and what a compaction copies.
//!
//! The contents of every live log are tracked as ghost state, so each
//! index entry is known to point at a record that holds the key's value.
use crate::codec::{
    decode, encode, encodable, lemma_decode_at_end, lemma_decode_encode, lemma_decode_extend, lemma_decode_sound, spec_decode, spec_encode,
    ActionView, Actions, DecodeView, Decoded,
};
use crate::error::TError;
use crate::index::{Index, RecordPos};
use crate::naming::sorted_strict;
use vstd::prelude::*;
use vstd::utf8::encode_utf8;

verus! {

/// Bytes of superseded records above which a mutation triggers a compaction.
pub const COMPACTION_THRESHOLD: u64 = 1048576;

/// The bytes that `p` designates in `logs`.
pub open spec fn record_bytes(logs: Map<u64, Seq<u8>>, p: RecordPos) -> Seq<u8> {
    logs[p.gen].subrange(p.pos as int, p.pos + p.len)
}

/// `p` lies inside a live log and holds a `Put` record for `k`.
pub open spec fn holds_key(logs: Map<u64, Seq<u8>>, p: RecordPos, k: Seq<char>) -> bool {
    &&& logs.contains_key(p.gen)
    &&& p.pos + p.len <= logs[p.gen].len()
    &&& spec_decode(record_bytes(logs, p), 0) matches DecodeView::Record(
        ActionView::Put { key, value: _ },
        end,
    ) && key == k && end == p.len
}

/// The value that a read of the record at `p` gives.
pub open spec fn value_at(logs: Map<u64, Seq<u8>>, p: RecordPos) -> Option<Seq<char>> {
    match spec_decode(record_bytes(logs, p), 0) {
        DecodeView::Record(ActionView::Put { key: _, value }, end) => if end == p.len {
            Some(value)
        } else {
            None
        },
        _ => None,
    }
}

/// The index after replaying the records of log `gen`, held in `buf`, from `start`
/// on; `None` where a record cannot be replayed.
pub open spec fn replay(m: Map<Seq<char>, RecordPos>, gen: u64, buf: Seq<u8>, start: int) -> Option<
    Map<Seq<char>, RecordPos>,
>
    decreases buf.len() - start,
{
    match spec_decode(buf, start) {
        DecodeView::Record(ActionView::Put { key, value: _ }, end) => if start < end <= buf.len() {
            replay(
                m.insert(key, RecordPos { gen, pos: start as u64, len: (end - start) as u64 }),
                gen,
                buf,
                end,
            )
        } else {
            None
        },
        DecodeView::Record(ActionView::Rm { key }, end) => if start < end <= buf.len() {
            replay(m.remove(key), gen, buf, end)
        } else {
            None
        },
        DecodeView::End => Some(m),
        DecodeView::Truncated => Some(m),
        _ => None,
    }
}

/// From `start` on, `buf` is a run of whole `Put` and `Rm` records.
pub open spec fn whole_records(buf: Seq<u8>, start: int) -> bool
    decreases buf.len() - start,
{
    if start >= buf.len() {
        start == buf.len()
    } else {
        match spec_decode(buf, start) {
            DecodeView::Record(ActionView::Put { key: _, value: _ }, end) => start < end <= buf.len() && whole_records(
                buf,
                end,
            ),
            DecodeView::Record(ActionView::Rm { key: _ }, end) => start < end <= buf.len() && whole_records(
                buf,
                end,
            ),
            _ => false,
        }
    }
}

/// The index after replaying the logs of `gens`, in that order, from an empty index.
pub open spec fn replay_logs(logs: Map<u64, Seq<u8>>, gens: Seq<u64>) -> Option<Map<Seq<char>, RecordPos>>
    decreases gens.len(),
{
    if gens.len() == 0 {
        Some(Map::empty())
    } else {
        match replay_logs(logs, gens.drop_last()) {
            Some(m) => replay(m, gens.last(), logs[gens.last()], 0),
            None => None,
        }
    }
}

/// Appending a `Put` or `Rm` record to a run of whole records: replay goes
/// through the run as before and then applies the new record.
proof fn lemma_replay_append(m: Map<Seq<char>, RecordPos>, g: u64, buf: Seq<u8>, a: ActionView, start: int)
    requires
        0 <= start,
        whole_records(buf, start),
        encodable(a),
        a is Put || a is Rm,
    ensures
        replay(m, g, buf, start) is Some,
        replay(m, g, buf + spec_encode(a), start) == replay(
            replay(m, g, buf, start)->Some_0,
            g,
            buf + spec_encode(a),
            buf.len() as int,
        ),
        whole_records(buf + spec_encode(a), start),
    decreases buf.len() - start,
{
    let full = buf + spec_encode(a);
    if start >= buf.len() {
        lemma_decode_at_end(buf, start);
        lemma_decode_at_end(full, full.len() as int);
        lemma_decode_encode(buf, a, Seq::empty());
        assert(buf + spec_encode(a) + Seq::<u8>::empty() =~= full);
        assert(whole_records(full, full.len() as int));
    } else {
        lemma_decode_extend(buf, spec_encode(a), start);
        lemma_decode_sound(buf, start);
        let end = spec_decode(buf, start)->Record_1;
        match spec_decode(buf, start)->Record_0 {
            ActionView::Put { key, value: _ } => {
                lemma_replay_append(
                    m.insert(key, RecordPos { gen: g, pos: start as u64, len: (end - start) as u64 }),
                    g,
                    buf,
                    a,
                    end,
                );
            },
            ActionView::Rm { key } => {
                lemma_replay_append(m.remove(key), g, buf, a, end);
            },
            ActionView::Get { key: _ } => {},
        }
    }
}

proof fn lemma_replay_logs_frame(logs: Map<u64, Seq<u8>>, gens: Seq<u64>, g: u64, b: Seq<u8>)
    requires
        !gens.contains(g),
    ensures
        replay_logs(logs.insert(g, b), gens) == replay_logs(logs, gens),
    decreases gens.len(),
{
    if gens.len() > 0 {
        assert(gens.drop_last().len() < gens.len());
        assert(!gens.drop_last().contains(g)) by {
            if gens.drop_last().contains(g) {
                let i = gens.drop_last().index_of(g);
                assert(gens[i] == g);
            }
        }
        lemma_replay_logs_frame(logs, gens.drop_last(), g, b);
        assert(gens.last() != g) by {
            assert(gens[gens.len() - 1] == g ==> gens.contains(g));
        }
    }
}

/// One step of a compaction's copy: appending the whole `Put` record `b` for
/// key `ks[i]` to the copy made so far extends its replay by that key.
proof fn lemma_copy_step(
    mi: Map<Seq<char>, RecordPos>,
    cg: u64,
    acc: Seq<u8>,
    b: Seq<u8>,
    a: ActionView,
    ks: Seq<Seq<char>>,
    i: int,
)
    requires
        replay(Map::empty(), cg, acc, 0) == Some(mi),
        whole_records(acc, 0),
        acc.len() <= u64::MAX,
        spec_decode(b, 0) == DecodeView::Record(a, b.len() as int),
        a == (ActionView::Put { key: ks[i], value: a->Put_value }),
        0 <= i < ks.len(),
        ks.no_duplicates(),
        forall|k: Seq<char>| #[trigger] mi.contains_key(k) <==> exists|j: int| 0 <= j < i && ks[j] == k,
    ensures
        ({
            let mi2 = mi.insert(ks[i], RecordPos { gen: cg, pos: acc.len() as u64, len: b.len() as u64 });
            &&& replay(Map::empty(), cg, acc + b, 0) == Some(mi2)
            &&& whole_records(acc + b, 0)
            &&& forall|k: Seq<char>| #[trigger] mi2.contains_key(k) <==> exists|j: int| 0 <= j < i + 1 && ks[j] == k
        }),
{
    lemma_decode_sound(b, 0);
    assert(b.subrange(0, b.len() as int) =~= b);
    lemma_replay_append(Map::empty(), cg, acc, a, 0);
    lemma_decode_encode(acc, a, Seq::empty());
    assert(acc + spec_encode(a) + Seq::<u8>::empty() =~= acc + b);
    let acc2 = acc + b;
    let mi2 = mi.insert(ks[i], RecordPos { gen: cg, pos: acc.len() as u64, len: b.len() as u64 });
    assert(replay(mi, cg, acc2, acc.len() as int) == replay(mi2, cg, acc2, acc2.len() as int));
    lemma_decode_at_end(acc2, acc2.len() as int);
    assert(replay(mi2, cg, acc2, acc2.len() as int) == Some(mi2));
    assert forall|k: Seq<char>| #[trigger] mi2.contains_key(k) <==> exists|j: int| 0 <= j < i + 1 && ks[j] == k by {
        if mi2.contains_key(k) && k != ks[i] {
            let j = choose|j: int| 0 <= j < i && ks[j] == k;
            assert(0 <= j < i + 1 && ks[j] == k);
        }
        if exists|j: int| 0 <= j < i + 1 && ks[j] == k {
            let j = choose|j: int| 0 <= j < i + 1 && ks[j] == k;
            if j < i {
                assert(mi.contains_key(k));
            }
        }
    }
}

/// What replay from `start` stops at: the end, a record cut short, or the
/// first thing in `buf` that it cannot replay.
pub open spec fn replay_stop(buf: Seq<u8>, start: int) -> DecodeView
    decreases buf.len() - start,
{
    match spec_decode(buf, start) {
        DecodeView::Record(ActionView::Put { key: _, value: _ }, end) => if start < end <= buf.len() {
            replay_stop(buf, end)
        } else {
            DecodeView::BadText
        },
        DecodeView::Record(ActionView::Rm { key: _ }, end) => if start < end <= buf.len() {
            replay_stop(buf, end)
        } else {
            DecodeView::BadText
        },
        other => other,
    }
}

/// The sum of the lengths of the records that `ks` designate through `m`.
pub open spec fn total_len(m: Map<Seq<char>, RecordPos>, ks: Seq<Seq<char>>) -> int
    decreases ks.len(),
{
    if ks.len() == 0 {
        0
    } else {
        total_len(m, ks.drop_last()) + m[ks.last()].len
    }
}

proof fn lemma_total_len_mono(m: Map<Seq<char>, RecordPos>, ks: Seq<Seq<char>>, i: int)
    requires
        0 <= i <= ks.len(),
    ensures
        0 <= total_len(m, ks.take(i)) <= total_len(m, ks),
    decreases ks.len() - i,
{
    if i < ks.len() {
        lemma_total_len_mono(m, ks, i + 1);
        assert(ks.take(i + 1).drop_last() =~= ks.take(i));
    } else {
        assert(ks.take(i) =~= ks);
    }
    lemma_total_len_nonneg(m, ks.take(i));
}

proof fn lemma_total_len_nonneg(m: Map<Seq<char>, RecordPos>, ks: Seq<Seq<char>>)
    ensures
        total_len(m, ks) >= 0,
    decreases ks.len(),
{
    if ks.len() > 0 {
        lemma_total_len_nonneg(m, ks.drop_last());
    }
}

/// What a compaction asks of the files: open an empty log for `active_gen`,
/// copy the byte ranges of `copies`, in order, into a new log `compaction_gen`,
/// then delete every log of a generation below `compaction_gen`.
pub struct CompactionPlan {
    pub compaction_gen: u64,
    pub active_gen: u64,
    pub copies: Vec<RecordPos>,
}

/// The engine's state, apart from its open files.
pub struct KvCore {
    cur_log: u64,
    writer_pos: u64,
    writing: bool,
    index: Index,
    uncompacted: u64,
    logs: Ghost<Map<u64, Seq<u8>>>,
    gens: Ghost<Seq<u64>>,
}

impl KvCore {
    /// The contents of every live log.
    pub closed spec fn logs(&self) -> Map<u64, Seq<u8>> {
        self.logs@
    }

    pub closed spec fn index_view(&self) -> Map<Seq<char>, RecordPos> {
        self.index@
    }

    pub closed spec fn spec_cur_log(&self) -> u64 {
        self.cur_log
    }

    pub closed spec fn spec_writing(&self) -> bool {
        self.writing
    }

    pub closed spec fn spec_uncompacted(&self) -> u64 {
        self.uncompacted
    }

    /// The keys in the order a compaction visits them.
    pub closed spec fn keys(&self) -> Seq<Seq<char>> {
        self.index.keys()
    }

    /// What `get` answers for each key: the value of the record its index entry points at.
    pub open spec fn spec_get(&self, k: Seq<char>) -> Option<Seq<char>> {
        if self.index_view().contains_key(k) {
            value_at(self.logs(), self.index_view()[k])
        } else {
            None
        }
    }

    /// The live generations, ascending.
    pub closed spec fn live_gens(&self) -> Seq<u64> {
        self.gens@
    }

    pub closed spec fn wf(&self) -> bool {
        &&& self.wf_core()
        &&& sorted_strict(self.gens@)
        &&& forall|g: u64| #[trigger] self.logs@.contains_key(g) <==> self.gens@.contains(g)
        &&& replay_logs(self.logs@, self.gens@) == Some(self.index@)
        &&& self.writing ==> self.gens@.len() > 0 && self.gens@.last() == self.cur_log && whole_records(
            self.logs@[self.cur_log],
            0,
        )
    }

    closed spec fn wf_core(&self) -> bool {
        &&& self.index.wf()
        &&& forall|g: u64| #[trigger] self.logs@.contains_key(g) ==> g <= self.cur_log
        &&& self.writing ==> self.logs@.contains_key(self.cur_log) && self.logs@[self.cur_log].len()
            == self.writer_pos
        &&& !self.writing ==> !self.logs@.contains_key(self.cur_log)
        &&& forall|k: Seq<char>| #[trigger]
            self.index@.contains_key(k) ==> holds_key(self.logs@, self.index@[k], k)
    }

    /// An engine that has loaded no log yet.
    pub fn new() -> (r: KvCore)
        ensures
            r.wf(),
            !r.spec_writing(),
            r.spec_cur_log() == 0,
            r.logs() == Map::<u64, Seq<u8>>::empty(),
            r.index_view() == Map::<Seq<char>, RecordPos>::empty(),
            r.spec_uncompacted() == 0,
            r.live_gens() == Seq::<u64>::empty(),
    {
        KvCore {
            cur_log: 0,
            writer_pos: 0,
            writing: false,
            index: Index::new(),
            uncompacted: 0,
            logs: Ghost(Map::empty()),
            gens: Ghost(Seq::empty()),
        }
    }

    /// The generation that the active writer appends to once writing has begun;
    /// while loading, the lowest generation that may still be loaded.
    pub fn cur_log(&self) -> (r: u64)
        ensures
            r == self.spec_cur_log(),
    {
        self.cur_log
    }

    pub fn is_writing(&self) -> (r: bool)
        ensures
            r == self.spec_writing(),
    {
        self.writing
    }

    /// Bytes of superseded and removal records in the live logs.
    pub fn uncompacted(&self) -> (r: u64)
        ensures
            r == self.spec_uncompacted(),
    {
        self.uncompacted
    }

    /// The position of the log's end, where the next record will be appended.
    pub fn writer_pos(&self) -> (r: u64)
        requires
            self.wf(),
            self.spec_writing(),
        ensures
            r == self.logs()[self.spec_cur_log()].len(),
    {
        self.writer_pos
    }

    /// Replays the records of log `gen`, whose contents are `bytes`, into the index.
    ///
    /// Replay stops at the end or at a record cut short. A `Put` points its
    /// key at the record, a `Rm` drops the key; a `Get` fails with
    /// `FaultyCommandInLog`, as the decoder's own failures do.
    pub fn load(&mut self, gen: u64, bytes: &Vec<u8>) -> (r: Result<(), TError>)
        requires
            old(self).wf(),
            !old(self).spec_writing(),
            old(self).spec_cur_log() <= gen < u64::MAX,
        ensures
            r is Ok <==> replay(old(self).index_view(), gen, bytes@, 0) is Some,
            r matches Err(TError::FaultyCommandInLog) <==> (replay_stop(bytes@, 0) is BadTag
                || replay_stop(bytes@, 0) matches DecodeView::Record(ActionView::Get { key: _ }, _)),
            r matches Err(TError::Codec) <==> replay_stop(bytes@, 0) is BadText,
            r is Err ==> r matches Err(TError::FaultyCommandInLog) || r matches Err(TError::Codec),
            r is Ok ==> {
                &&& final(self).wf()
                &&& !final(self).spec_writing()
                &&& final(self).spec_cur_log() == gen + 1
                &&& final(self).logs() == old(self).logs().insert(gen, bytes@)
                &&& final(self).index_view() == replay(old(self).index_view(), gen, bytes@, 0)->Some_0
                &&& final(self).spec_uncompacted() >= old(self).spec_uncompacted()
                &&& final(self).live_gens() == old(self).live_gens().push(gen)
            },
    {
        self.logs = Ghost(self.logs@.insert(gen, bytes@));
        self.cur_log = gen + 1;
        proof {
            assert(!old(self).gens@.contains(gen)) by {
                if old(self).gens@.contains(gen) {
                    assert(old(self).logs@.contains_key(gen));
                }
            }
            lemma_replay_logs_frame(old(self).logs@, old(self).gens@, gen, bytes@);
        }
        let ghost m0 = old(self).index@;
        assert forall|k: Seq<char>| #[trigger] self.index@.contains_key(k) implies holds_key(
            self.logs@,
            self.index@[k],
            k,
        ) by {
            let p = self.index@[k];
            assert(old(self).logs@.contains_key(p.gen));
            assert(record_bytes(self.logs@, p) == record_bytes(old(self).logs@, p));
        }
        let mut pos: usize = 0;
        loop
            invariant
                self.wf_core(),
                self.gens@ == old(self).gens@,
                old(self).wf(),
                !old(self).writing,
                old(self).cur_log <= gen,
                replay_logs(self.logs@, old(self).gens@) == replay_logs(old(self).logs@, old(self).gens@),
                !self.writing,
                self.cur_log == gen + 1,
                self.logs@ == old(self).logs@.insert(gen, bytes@),
                pos <= bytes@.len(),
                self.uncompacted >= old(self).uncompacted,
                m0 == old(self).index@,
                replay(m0, gen, bytes@, 0) == replay(self.index@, gen, bytes@, pos as int),
                replay_stop(bytes@, 0) == replay_stop(bytes@, pos as int),
            decreases bytes@.len() - pos,
        {
            let d = decode(bytes.as_slice(), pos);
            let ghost sd = spec_decode(bytes@, pos as int);
            match d {
                Err(e) => {
                    assert(sd is BadTag || sd is BadText);
                    assert(replay(self.index@, gen, bytes@, pos as int) is None);
                    assert(replay(old(self).index_view(), gen, bytes@, 0) is None);
                    return Err(e);
                },
                Ok(Decoded::End) => {
                    assert(sd is End);
                    assert(replay(self.index@, gen, bytes@, pos as int) == Some(self.index@));
                    assert(replay(old(self).index_view(), gen, bytes@, 0) == Some(self.index_view()));
                    self.gens = Ghost(self.gens@.push(gen));
                    proof {
                        self.lemma_load_done(*old(self), gen, bytes@);
                    }
                    return Ok(());
                },
                Ok(Decoded::Truncated) => {
                    assert(sd is Truncated);
                    assert(replay(self.index@, gen, bytes@, pos as int) == Some(self.index@));
                    assert(replay(old(self).index_view(), gen, bytes@, 0) == Some(self.index_view()));
                    self.gens = Ghost(self.gens@.push(gen));
                    proof {
                        self.lemma_load_done(*old(self), gen, bytes@);
                    }
                    return Ok(());
                },
                Ok(Decoded::Record(Actions::Put { key, value: _ }, end)) => {
                    proof {
                        lemma_decode_sound(bytes@, pos as int);
                    }
                    let p = RecordPos { gen, pos: pos as u64, len: (end - pos) as u64 };
                    let ghost k = key@;
                    let prev = self.index.insert(key, p);
                    if let Some(q) = prev {
                        self.uncompacted = self.uncompacted.saturating_add(q.len);
                    }
                    proof {
                        let a = spec_decode(bytes@, pos as int)->Record_0;
                        assert(record_bytes(self.logs@, p) =~= bytes@.subrange(pos as int, end as int));
                        lemma_decode_encode(Seq::empty(), a, Seq::empty());
                        assert(Seq::<u8>::empty() + spec_encode(a) + Seq::<u8>::empty() =~= spec_encode(a));
                        assert(holds_key(self.logs@, p, k));
                    }
                    pos = end;
                },
                Ok(Decoded::Record(Actions::Rm { key }, end)) => {
                    proof {
                        lemma_decode_sound(bytes@, pos as int);
                    }
                    let prev = self.index.remove(&key);
                    if let Some(q) = prev {
                        self.uncompacted = self.uncompacted.saturating_add(q.len);
                    }
                    self.uncompacted = self.uncompacted.saturating_add((end - pos) as u64);
                    pos = end;
                },
                Ok(Decoded::Record(Actions::Get { key: _ }, _)) => {
                    assert(replay(self.index@, gen, bytes@, pos as int) is None);
                    assert(replay(old(self).index_view(), gen, bytes@, 0) is None);
                    return Err(TError::FaultyCommandInLog);
                },
            }
        }
    }

    /// Ends loading: the active writer takes the generation after the last one
    /// loaded, or 1 when none was, and starts with an empty log.
    pub fn start_writing(&mut self)
        requires
            old(self).wf(),
            !old(self).spec_writing(),
        ensures
            final(self).wf(),
            final(self).spec_writing(),
            final(self).spec_cur_log() == if old(self).spec_cur_log() == 0 {
                1
            } else {
                old(self).spec_cur_log()
            },
            final(self).logs() == old(self).logs().insert(final(self).spec_cur_log(), Seq::empty()),
            final(self).index_view() == old(self).index_view(),
            final(self).spec_uncompacted() == old(self).spec_uncompacted(),
            forall|k: Seq<char>| #[trigger] final(self).spec_get(k) == old(self).spec_get(k),
            final(self).live_gens() == old(self).live_gens().push(final(self).spec_cur_log()),
    {
        if self.cur_log == 0 {
            self.cur_log = 1;
        }
        self.logs = Ghost(self.logs@.insert(self.cur_log, Seq::empty()));
        self.gens = Ghost(self.gens@.push(self.cur_log));
        self.writer_pos = 0;
        self.writing = true;
        proof {
            assert(!old(self).gens@.contains(self.cur_log)) by {
                if old(self).gens@.contains(self.cur_log) {
                    assert(old(self).logs@.contains_key(self.cur_log));
                }
            }
            lemma_replay_logs_frame(old(self).logs@, old(self).gens@, self.cur_log, Seq::empty());
            assert(whole_records(Seq::<u8>::empty(), 0));
            lemma_decode_at_end(Seq::empty(), 0);
            assert(replay(old(self).index@, self.cur_log, Seq::empty(), 0) == Some(self.index@));
        }
        assert forall|k: Seq<char>| #[trigger] self.index@.contains_key(k) implies holds_key(
            self.logs@,
            self.index@[k],
            k,
        ) && record_bytes(self.logs@, self.index@[k]) == record_bytes(old(self).logs@, self.index@[k]) by {
            let p = self.index@[k];
            assert(old(self).logs@.contains_key(p.gen));
            assert(p.gen != self.cur_log);
        }
        proof {
            self.lemma_load_done(*old(self), self.cur_log, Seq::empty());
        }
    }

    /// The length of the encoding of `a` can be appended to the active log.
    pub open spec fn fits(&self, a: ActionView) -> bool {
        self.logs()[self.spec_cur_log()].len() + spec_encode(a).len() <= u64::MAX
    }

    /// Whether the record of `set(key, value)` can be appended.
    pub fn can_put(&self, key: &String, value: &String) -> (r: bool)
        requires
            self.wf(),
            self.spec_writing(),
        ensures
            r == self.fits(ActionView::Put { key: key@, value: value@ }),
    {
        proof {
            lemma_encode_len(ActionView::Put { key: key@, value: value@ });
        }
        let k = key.as_str().as_bytes().len() as u64;
        let v = value.as_str().as_bytes().len() as u64;
        let room = u64::MAX - self.writer_pos;
        room >= 17 && room - 17 >= k && room - 17 - k >= v
    }

    /// Whether the record of `remove(key)` can be appended.
    pub fn can_rm(&self, key: &String) -> (r: bool)
        requires
            self.wf(),
            self.spec_writing(),
        ensures
            r == self.fits(ActionView::Rm { key: key@ }),
    {
        proof {
            lemma_encode_len(ActionView::Rm { key: key@ });
        }
        let k = key.as_str().as_bytes().len() as u64;
        let room = u64::MAX - self.writer_pos;
        room >= 9 && room - 9 >= k
    }

    /// The bytes that `set(key, value)` appends to the active log; fails with
    /// `LogFull` when they would carry the log past the range of `u64`.
    pub fn prepare_set(&self, key: &String, value: &String) -> (r: Result<Vec<u8>, TError>)
        requires
            self.wf(),
            self.spec_writing(),
        ensures
            r is Ok <==> self.fits(ActionView::Put { key: key@, value: value@ }),
            r is Err ==> r matches Err(TError::LogFull),
            r matches Ok(b) ==> b@ == spec_encode(ActionView::Put { key: key@, value: value@ }),
    {
        if !self.can_put(key, value) {
            return Err(TError::LogFull);
        }
        let a = Actions::set(key.clone(), value.clone());
        Ok(encode(&a))
    }

    /// Records that the bytes of `prepare_set(key, value)` were appended and
    /// flushed; answers whether a compaction is now due.
    pub fn commit_set(&mut self, key: String, value: &String) -> (compact: bool)
        requires
            old(self).wf(),
            old(self).spec_writing(),
            old(self).fits(ActionView::Put { key: key@, value: value@ }),
        ensures
            final(self).wf(),
            final(self).spec_writing(),
            final(self).spec_cur_log() == old(self).spec_cur_log(),
            final(self).logs() == old(self).logs().insert(
                old(self).spec_cur_log(),
                old(self).logs()[old(self).spec_cur_log()] + spec_encode(
                    ActionView::Put { key: key@, value: value@ },
                ),
            ),
            final(self).spec_get(key@) == Some(value@),
            forall|k: Seq<char>| k != key@ ==> #[trigger] final(self).spec_get(k) == old(self).spec_get(k),
            final(self).index_view().dom() == old(self).index_view().dom().insert(key@),
            final(self).spec_uncompacted() == if old(self).index_view().contains_key(key@) {
                crate::engine::sat_add(old(self).spec_uncompacted(), old(self).index_view()[key@].len)
            } else {
                old(self).spec_uncompacted()
            },
            compact == (final(self).spec_uncompacted() > COMPACTION_THRESHOLD),
            set_transition(*old(self), *final(self), key@, value@),
    {
        let ghost a = ActionView::Put { key: key@, value: value@ };
        let ghost cur = self.cur_log;
        let ghost rec = spec_encode(a);
        proof {
            lemma_encode_len(a);
        }
        proof {
            self.lemma_append_replay(a);
        }
        let len = 17 + key.as_str().as_bytes().len() as u64 + value.as_str().as_bytes().len() as u64;
        let p = RecordPos { gen: self.cur_log, pos: self.writer_pos, len };
        let ghost k = key@;
        self.logs = Ghost(self.logs@.insert(cur, old(self).logs@[cur] + rec));
        self.writer_pos = self.writer_pos + len;
        let prev = self.index.insert(key, p);
        if let Some(q) = prev {
            self.uncompacted = self.uncompacted.saturating_add(q.len);
        }
        proof {
            assert(record_bytes(self.logs@, p) =~= rec);
            lemma_decode_encode(Seq::empty(), a, Seq::empty());
            assert(Seq::<u8>::empty() + rec + Seq::<u8>::empty() =~= rec);
            let full = old(self).logs@[cur] + rec;
            assert(replay(old(self).index@, cur, full, old(self).logs@[cur].len() as int) == replay(
                self.index@,
                cur,
                full,
                full.len() as int,
            ));
            lemma_decode_at_end(full, full.len() as int);
            assert(replay(self.index@, cur, full, full.len() as int) == Some(self.index@));
            assert forall|q: Seq<char>| #[trigger] self.index@.contains_key(q) && q != k implies holds_key(
                self.logs@,
                self.index@[q],
                q,
            ) && record_bytes(self.logs@, self.index@[q]) == record_bytes(old(self).logs@, self.index@[q]) by {
                let r = self.index@[q];
                assert(holds_key(old(self).logs@, r, q));
                assert(record_bytes(self.logs@, r) =~= record_bytes(old(self).logs@, r));
            }
        }
        self.uncompacted > COMPACTION_THRESHOLD
    }

    /// The bytes that `remove(key)` appends to the active log. Fails with
    /// `NonExistentKey` when the key has no value, else with `LogFull` when the
    /// bytes would carry the log past the range of `u64`; the state is untouched.
    pub fn prepare_remove(&self, key: &String) -> (r: Result<Vec<u8>, TError>)
        requires
            self.wf(),
            self.spec_writing(),
        ensures
            r matches Err(TError::NonExistentKey) <==> self.spec_get(key@) is None,
            r matches Err(TError::LogFull) <==> self.spec_get(key@) is Some && !self.fits(
                ActionView::Rm { key: key@ },
            ),
            r is Err ==> r matches Err(TError::NonExistentKey) || r matches Err(TError::LogFull),
            r matches Ok(b) ==> b@ == spec_encode(ActionView::Rm { key: key@ }),
    {
        proof {
            self.lemma_get_some_iff(key@);
        }
        if !self.index.contains_key(key) {
            return Err(TError::NonExistentKey);
        }
        if !self.can_rm(key) {
            return Err(TError::LogFull);
        }
        let a = Actions::rm(key.clone());
        Ok(encode(&a))
    }

    /// Records that the bytes of `prepare_remove(key)` were appended and flushed.
    pub fn commit_remove(&mut self, key: &String)
        requires
            old(self).wf(),
            old(self).spec_writing(),
            old(self).spec_get(key@) is Some,
            old(self).fits(ActionView::Rm { key: key@ }),
        ensures
            final(self).wf(),
            final(self).spec_writing(),
            final(self).spec_cur_log() == old(self).spec_cur_log(),
            final(self).logs() == old(self).logs().insert(
                old(self).spec_cur_log(),
                old(self).logs()[old(self).spec_cur_log()] + spec_encode(ActionView::Rm { key: key@ }),
            ),
            final(self).spec_get(key@) is None,
            forall|k: Seq<char>| k != key@ ==> #[trigger] final(self).spec_get(k) == old(self).spec_get(k),
            final(self).index_view() == old(self).index_view().remove(key@),
            final(self).spec_uncompacted() == crate::engine::sat_add(
                old(self).spec_uncompacted(),
                old(self).index_view()[key@].len,
            ),
            remove_transition(*old(self), *final(self), key@),
    {
        let ghost a = ActionView::Rm { key: key@ };
        let ghost cur = self.cur_log;
        let ghost rec = spec_encode(a);
        proof {
            lemma_encode_len(a);
        }
        proof {
            self.lemma_append_replay(a);
        }
        let len = 9 + key.as_str().as_bytes().len() as u64;
        self.logs = Ghost(self.logs@.insert(cur, old(self).logs@[cur] + rec));
        self.writer_pos = self.writer_pos + len;
        let prev = self.index.remove(key);
        if let Some(q) = prev {
            self.uncompacted = self.uncompacted.saturating_add(q.len);
        }
        proof {
            let full = old(self).logs@[cur] + rec;
            assert(replay(old(self).index@, cur, full, old(self).logs@[cur].len() as int) == replay(
                self.index@,
                cur,
                full,
                full.len() as int,
            ));
            lemma_decode_at_end(full, full.len() as int);
            assert(replay(self.index@, cur, full, full.len() as int) == Some(self.index@));
        }
        proof {
            assert forall|q: Seq<char>| #[trigger] self.index@.contains_key(q) implies holds_key(
                self.logs@,
                self.index@[q],
                q,
            ) && record_bytes(self.logs@, self.index@[q]) == record_bytes(old(self).logs@, self.index@[q]) by {
                let r = self.index@[q];
                assert(holds_key(old(self).logs@, r, q));
                assert(record_bytes(self.logs@, r) =~= record_bytes(old(self).logs@, r));
            }
        }
    }

    /// Starts a compaction: the active writer moves two generations on, the
    /// generation between receives a copy of every live record in key
    /// iteration order, and the index is moved onto the copies. The returned
    /// plan says what the files must undergo for the state to hold; every log
    /// below the compaction's generation is then stale.
    ///
    /// Fails with `LogFull`, leaving the state as it was, when the generations
    /// or the size of the copy would leave the range of `u64`.
    #[verifier::rlimit(80)]
    #[verifier::spinoff_prover]
    pub fn compact(&mut self) -> (r: Result<CompactionPlan, TError>)
        requires
            old(self).wf(),
            old(self).spec_writing(),
        ensures
            r is Err <==> old(self).spec_cur_log() > u64::MAX - 2 || total_len(
                old(self).index_view(),
                old(self).keys(),
            ) > u64::MAX,
            r is Err ==> (r matches Err(TError::LogFull)) && *final(self) == *old(self),
            r matches Ok(plan) ==> {
                &&& final(self).wf()
                &&& final(self).spec_writing()
                &&& plan.compaction_gen == old(self).spec_cur_log() + 1
                &&& plan.active_gen == old(self).spec_cur_log() + 2
                &&& final(self).spec_cur_log() == plan.active_gen
                &&& plan.copies@ == old(self).keys().map_values(|k: Seq<char>| old(self).index_view()[k])
                &&& final(self).logs().dom() == set![plan.compaction_gen, plan.active_gen]
                &&& final(self).logs()[plan.active_gen] == Seq::<u8>::empty()
                &&& final(self).logs()[plan.compaction_gen] == copied(
                    old(self).logs(),
                    old(self).index_view(),
                    old(self).keys(),
                )
                &&& final(self).logs()[plan.compaction_gen].len() == total_len(
                    old(self).index_view(),
                    old(self).keys(),
                )
                &&& final(self).spec_uncompacted() == 0
                &&& final(self).index_view().dom() == old(self).index_view().dom()
                &&& forall|k: Seq<char>| #[trigger] final(self).spec_get(k) == old(self).spec_get(k)
            },
    {
        proof {
            self.index.lemma_keys();
        }
        let ghost m0 = self.index@;
        let ghost ks = self.index.keys();
        let ghost logs0 = self.logs@;
        if self.cur_log > u64::MAX - 2 {
            return Err(TError::LogFull);
        }
        let n = self.index.len();
        let mut total: u64 = 0;
        let mut i: usize = 0;
        while i < n
            invariant
                self.index.wf(),
                self.index@ == m0,
                self.index.keys() == ks,
                m0 == old(self).index@,
                ks == old(self).keys(),
                n == ks.len(),
                i <= n,
                total == total_len(m0, ks.take(i as int)),
            decreases n - i,
        {
            let p = self.index.pos_at(i);
            assert(ks.take(i + 1).drop_last() =~= ks.take(i as int));
            if total > u64::MAX - p.len {
                proof {
                    lemma_total_len_mono(m0, ks, i + 1);
                }
                return Err(TError::LogFull);
            }
            total = total + p.len;
            i = i + 1;
        }
        assert(ks.take(n as int) =~= ks);
        let cg = self.cur_log + 1;
        let active = self.cur_log + 2;
        let mut copies: Vec<RecordPos> = Vec::new();
        let mut new_pos: u64 = 0;
        let ghost mut acc: Seq<u8> = Seq::empty();
        let ghost mut mi: Map<Seq<char>, RecordPos> = Map::empty();
        proof {
            lemma_decode_at_end(Seq::empty(), 0);
        }
        i = 0;
        while i < n
            invariant
                self.index.wf(),
                self.index.keys() == ks,
                m0 == old(self).index@,
                ks == old(self).keys(),
                logs0 == old(self).logs@,
                self.cur_log == old(self).cur_log,
                cg == old(self).cur_log + 1,
                active == old(self).cur_log + 2,
                ks.no_duplicates(),
                ks.to_set() == m0.dom(),
                self.index@.dom() == m0.dom(),
                forall|k: Seq<char>| #[trigger] m0.contains_key(k) ==> holds_key(logs0, m0[k], k),
                n == ks.len(),
                i <= n,
                total == total_len(m0, ks),
                new_pos == total_len(m0, ks.take(i as int)),
                acc == copied(logs0, m0, ks.take(i as int)),
                acc.len() == new_pos,
                copies@ == ks.take(i as int).map_values(|k: Seq<char>| m0[k]),
                forall|j: int|
                    0 <= j < i ==> {
                        let q = self.index@[#[trigger] ks[j]];
                        &&& q.gen == cg
                        &&& q.len == m0[ks[j]].len
                        &&& q.pos + q.len <= acc.len()
                        &&& acc.subrange(q.pos as int, q.pos + q.len) == record_bytes(logs0, m0[ks[j]])
                    },
                forall|j: int| i <= j < n ==> self.index@[#[trigger] ks[j]] == m0[ks[j]],
                replay(Map::empty(), cg, acc, 0) == Some(mi),
                whole_records(acc, 0),
                forall|k: Seq<char>|
                    #[trigger] mi.contains_key(k) <==> exists|j: int| 0 <= j < i && ks[j] == k,
                forall|j: int| 0 <= j < i ==> mi[#[trigger] ks[j]] == self.index@[ks[j]],
            decreases n - i,
        {
            let p = self.index.pos_at(i);
            proof {
                assert(ks.take(i + 1).drop_last() =~= ks.take(i as int));
                assert(ks.take(i + 1).last() == ks[i as int]);
                lemma_total_len_mono(m0, ks, i + 1);
                assert(ks.to_set().contains(ks[i as int]));
                assert(holds_key(logs0, p, ks[i as int]));
            }
            let ghost b = record_bytes(logs0, p);
            let ghost a = spec_decode(b, 0)->Record_0;
            copies.push(p);
            self.index.set_pos_at(i, RecordPos { gen: cg, pos: new_pos, len: p.len });
            proof {
                let acc2 = acc + b;
                assert forall|j: int| 0 <= j < i + 1 implies {
                    let q = self.index@[#[trigger] ks[j]];
                    &&& q.gen == cg
                    &&& q.len == m0[ks[j]].len
                    &&& q.pos + q.len <= acc2.len()
                    &&& acc2.subrange(q.pos as int, q.pos + q.len) == record_bytes(logs0, m0[ks[j]])
                } by {
                    if j < i {
                        assert(ks[j] != ks[i as int]);
                        let q = self.index@[ks[j]];
                        assert(acc2.subrange(q.pos as int, q.pos + q.len) =~= acc.subrange(
                            q.pos as int,
                            q.pos + q.len,
                        ));
                    } else {
                        assert(acc2.subrange(new_pos as int, new_pos + p.len) =~= b);
                    }
                }
                assert forall|j: int| i + 1 <= j < n implies self.index@[#[trigger] ks[j]] == m0[ks[j]] by {
                    assert(ks[j] != ks[i as int]);
                }
                assert(copies@ =~= ks.take(i + 1).map_values(|k: Seq<char>| m0[k]));
                let mi2 = mi.insert(ks[i as int], RecordPos { gen: cg, pos: new_pos, len: p.len });
                lemma_copy_step(mi, cg, acc, b, a, ks, i as int);
                assert forall|j: int| 0 <= j < i + 1 implies mi2[#[trigger] ks[j]] == self.index@[ks[j]] by {
                    if j < i {
                        assert(ks[j] != ks[i as int]);
                    }
                }
                mi = mi2;
                acc = acc2;
            }
            new_pos = new_pos + p.len;
            i = i + 1;
        }
        assert(ks.take(n as int) =~= ks);
        self.logs = Ghost(Map::<u64, Seq<u8>>::empty().insert(cg, acc).insert(active, Seq::<u8>::empty()));
        self.cur_log = active;
        self.writer_pos = 0;
        self.uncompacted = 0;
        self.writing = true;
        proof {
            self.index.lemma_keys();
            assert(ks.take(n as int) =~= ks);
            assert forall|k: Seq<char>| #[trigger] self.index@.contains_key(k) implies holds_key(
                self.logs@,
                self.index@[k],
                k,
            ) && record_bytes(self.logs@, self.index@[k]) == record_bytes(logs0, m0[k])
                && self.index@[k].len == m0[k].len by {
                assert(ks.to_set().contains(k));
                let j = ks.index_of(k);
                assert(ks[j] == k);
                assert(holds_key(logs0, m0[k], k));
            }
            assert forall|k: Seq<char>| #[trigger] self.spec_get(k) == old(self).spec_get(k) by {
                if self.index@.contains_key(k) {
                    assert(record_bytes(self.logs@, self.index@[k]) == record_bytes(logs0, m0[k]));
                }
            }
            assert(self.logs@.dom() =~= set![cg, active]);
            assert(mi =~= self.index@) by {
                assert forall|k: Seq<char>| #[trigger] mi.contains_key(k) <==> self.index@.contains_key(k) by {
                    if self.index@.contains_key(k) {
                        assert(ks.to_set().contains(k));
                        let j = ks.index_of(k);
                        assert(ks[j] == k);
                    }
                    if mi.contains_key(k) {
                        let j = choose|j: int| 0 <= j < n && ks[j] == k;
                        assert(ks.to_set().contains(ks[j]));
                    }
                }
                assert forall|k: Seq<char>| #[trigger] mi.contains_key(k) implies mi[k] == self.index@[k] by {
                    let j = choose|j: int| 0 <= j < n && ks[j] == k;
                }
            }
            self.gens = Ghost(seq![cg, active]);
            assert(seq![cg, active].drop_last() =~= seq![cg]);
            assert(seq![cg].drop_last() =~= Seq::<u64>::empty());
            lemma_decode_at_end(Seq::empty(), 0);
            assert(replay(self.index@, active, Seq::empty(), 0) == Some(self.index@));
            assert(self.logs@[cg] == acc);
            assert(self.logs@[active] == Seq::<u8>::empty());
            assert(replay_logs(self.logs@, Seq::<u64>::empty()) == Some(Map::<Seq<char>, RecordPos>::empty()));
            assert(replay_logs(self.logs@, seq![cg]) == Some(mi));
            assert(replay_logs(self.logs@, seq![cg, active]) == Some(self.index@));
            assert(whole_records(Seq::<u8>::empty(), 0));
            assert(seq![cg, active].contains(cg) && seq![cg, active][1] == active);
            assert(copies@ =~= old(self).keys().map_values(|k: Seq<char>| old(self).index_view()[k]));
        }
        Ok(CompactionPlan { compaction_gen: cg, active_gen: active, copies })
    }

    /// Appending record `a` to the active log: replay of the live logs runs
    /// as before up to the old end of that log, then applies `a`.
    proof fn lemma_append_replay(&self, a: ActionView)
        requires
            self.wf(),
            self.writing,
            encodable(a),
            a is Put || a is Rm,
        ensures
            ({
                let cur = self.cur_log;
                let buf = self.logs@[cur];
                let full = buf + spec_encode(a);
                &&& replay_logs(self.logs@.insert(cur, full), self.gens@) == replay(
                    self.index@,
                    cur,
                    full,
                    buf.len() as int,
                )
                &&& whole_records(full, 0)
                &&& spec_decode(full, buf.len() as int) == DecodeView::Record(a, full.len() as int)
            }),
    {
        let cur = self.cur_log;
        let buf = self.logs@[cur];
        let full = buf + spec_encode(a);
        let gs = self.gens@;
        let logs2 = self.logs@.insert(cur, full);
        assert(!gs.drop_last().contains(cur)) by {
            if gs.drop_last().contains(cur) {
                let i = gs.drop_last().index_of(cur);
                assert(gs[i] < gs[gs.len() - 1]);
            }
        }
        lemma_replay_logs_frame(self.logs@, gs.drop_last(), cur, full);
        let m = replay_logs(self.logs@, gs.drop_last())->Some_0;
        lemma_replay_append(m, cur, buf, a, 0);
        lemma_decode_encode(buf, a, Seq::empty());
        assert(buf + spec_encode(a) + Seq::<u8>::empty() =~= full);
    }

    proof fn lemma_load_done(&self, before: KvCore, gen: u64, bytes: Seq<u8>)
        requires
            before.wf(),
            !before.writing,
            before.cur_log <= gen,
            self.wf_core(),
            self.writing ==> self.cur_log == gen && whole_records(bytes, 0),
            self.logs@ == before.logs@.insert(gen, bytes),
            self.gens@ == before.gens@.push(gen),
            replay_logs(self.logs@, before.gens@) == replay_logs(before.logs@, before.gens@),
            replay(before.index@, gen, bytes, 0) == Some(self.index@),
        ensures
            self.wf(),
    {
        let gs = self.gens@;
        assert(gs.drop_last() =~= before.gens@);
        assert forall|i: int, j: int| 0 <= i < j < gs.len() implies gs[i] < gs[j] by {
            if j == gs.len() - 1 {
                assert(before.logs@.contains_key(gs[i]));
            }
        }
        assert forall|g: u64| #[trigger] self.logs@.contains_key(g) <==> gs.contains(g) by {
            if g == gen {
                assert(gs[gs.len() - 1] == gen);
            } else if gs.contains(g) {
                let i = gs.index_of(g);
                assert(before.gens@[i] == g);
            } else if before.gens@.contains(g) {
                let i = before.gens@.index_of(g);
                assert(gs[i] == g);
            }
        }
    }

    pub proof fn lemma_live_gens(&self)
        requires
            self.wf(),
        ensures
            sorted_strict(self.live_gens()),
            forall|g: u64| self.live_gens().contains(g) <==> #[trigger] self.logs().contains_key(g),
            replay_logs(self.logs(), self.live_gens()) == Some(self.index_view()),
    {
    }

    proof fn lemma_holds(&self, k: Seq<char>)
        requires
            self.wf(),
            self.index_view().contains_key(k),
        ensures
            holds_key(self.logs(), self.index_view()[k], k),
    {
    }

    proof fn lemma_get_some_iff(&self, k: Seq<char>)
        requires
            self.wf(),
        ensures
            self.spec_get(k) is Some <==> self.index_view().contains_key(k),
    {
    }

    /// Where the record holding the value of `key` lies, if the key has one.
    pub fn lookup(&self, key: &String) -> (r: Option<RecordPos>)
        requires
            self.wf(),
        ensures
            r is Some <==> self.spec_get(key@) is Some,
            r matches Some(p) ==> p == self.index_view()[key@] && self.logs().contains_key(p.gen) && p.pos
                + p.len <= self.logs()[p.gen].len() && value_at(self.logs(), p) == self.spec_get(key@),
    {
        self.index.get(key)
    }
}

/// The bytes of the records that `ks` designate through `m`, end to end.
pub open spec fn copied(logs: Map<u64, Seq<u8>>, m: Map<Seq<char>, RecordPos>, ks: Seq<Seq<char>>) -> Seq<
    u8,
>
    decreases ks.len(),
{
    if ks.len() == 0 {
        Seq::empty()
    } else {
        copied(logs, m, ks.drop_last()) + record_bytes(logs, m[ks.last()])
    }
}

/// What `set(key, value)` does to the state: it appends the record to the
/// active log and points the key at it.
pub open spec fn set_transition(s: KvCore, t: KvCore, key: Seq<char>, value: Seq<char>) -> bool {
    let cur = s.spec_cur_log();
    let rec = spec_encode(ActionView::Put { key, value });
    &&& t.wf()
    &&& t.spec_writing()
    &&& t.spec_cur_log() == cur
    &&& t.logs() == s.logs().insert(cur, s.logs()[cur] + rec)
    &&& t.index_view() == s.index_view().insert(
        key,
        RecordPos { gen: cur, pos: s.logs()[cur].len() as u64, len: rec.len() as u64 },
    )
}

/// What `remove(key)` does to the state: it appends the removal record to the
/// active log and drops the key from the index.
pub open spec fn remove_transition(s: KvCore, t: KvCore, key: Seq<char>) -> bool {
    let cur = s.spec_cur_log();
    &&& t.wf()
    &&& t.spec_writing()
    &&& t.spec_cur_log() == cur
    &&& t.logs() == s.logs().insert(cur, s.logs()[cur] + spec_encode(ActionView::Rm { key }))
    &&& t.index_view() == s.index_view().remove(key)
}

proof fn lemma_sorted_unique(a: Seq<u64>, b: Seq<u64>)
    requires
        sorted_strict(a),
        sorted_strict(b),
        forall|g: u64| a.contains(g) <==> b.contains(g),
    ensures
        a == b,
    decreases a.len(),
{
    if a.len() == 0 {
        if b.len() > 0 {
            assert(b.contains(b[0]));
        }
        assert(a =~= b);
    } else {
        assert(a.contains(a[0]));
        assert(b.len() > 0);
        let la = a.last();
        let lb = b.last();
        assert(a.contains(la));
        assert(b.contains(lb));
        let i = b.index_of(la);
        let j = a.index_of(lb);
        assert(la <= lb) by {
            if i < b.len() - 1 {
                assert(b[i] < b[b.len() - 1]);
            }
        }
        assert(lb <= la) by {
            if j < a.len() - 1 {
                assert(a[j] < a[a.len() - 1]);
            }
        }
        let a2 = a.drop_last();
        let b2 = b.drop_last();
        assert forall|g: u64| a2.contains(g) <==> b2.contains(g) by {
            if a2.contains(g) {
                let k = a2.index_of(g);
                assert(a[k] == g && a[k] < la);
                assert(b.contains(g));
                let m = b.index_of(g);
                assert(m != b.len() - 1);
                assert(b2[m] == g);
            }
            if b2.contains(g) {
                let k = b2.index_of(g);
                assert(b[k] == g && b[k] < lb);
                assert(a.contains(g));
                let m = a.index_of(g);
                assert(m != a.len() - 1);
                assert(a2[m] == g);
            }
        }
        lemma_sorted_unique(a2, b2);
        assert(a =~= b2.push(lb));
        assert(b =~= b2.push(lb));
    }
}

/// Closing and reopening: replaying the live logs in ascending order of
/// generation, from an empty index, rebuilds the index exactly, so a store
/// reopened on the same logs answers every `get` as before.
pub proof fn lemma_reopen(s: KvCore, gens: Seq<u64>, t: KvCore)
    requires
        s.wf(),
        sorted_strict(gens),
        forall|g: u64| gens.contains(g) <==> s.logs().contains_key(g),
        t.wf(),
        t.index_view() == replay_logs(s.logs(), gens)->Some_0,
        forall|g: u64| #[trigger] s.logs().contains_key(g) ==> t.logs().contains_key(g) && t.logs()[g] == s.logs()[g],
    ensures
        replay_logs(s.logs(), gens) == Some(s.index_view()),
        forall|k: Seq<char>| #[trigger] t.spec_get(k) == s.spec_get(k),
{
    s.lemma_live_gens();
    lemma_sorted_unique(gens, s.live_gens());
    assert forall|k: Seq<char>| #[trigger] t.spec_get(k) == s.spec_get(k) by {
        if s.index_view().contains_key(k) {
            s.lemma_holds(k);
            let p = s.index_view()[k];
            assert(record_bytes(t.logs(), p) == record_bytes(s.logs(), p));
        }
    }
}

/// After `set(key, value)`, `get(key)` answers `value`.
pub proof fn lemma_set_then_get(s: KvCore, t: KvCore, key: Seq<char>, value: Seq<char>)
    requires
        s.wf(),
        s.spec_writing(),
        s.fits(ActionView::Put { key, value }),
        set_transition(s, t, key, value),
    ensures
        t.spec_get(key) == Some(value),
{
    let a = ActionView::Put { key, value };
    let rec = spec_encode(a);
    let p = t.index_view()[key];
    assert(record_bytes(t.logs(), p) =~= rec);
    lemma_encode_len(a);
    lemma_decode_encode(Seq::empty(), a, Seq::empty());
    assert(Seq::<u8>::empty() + rec + Seq::<u8>::empty() =~= rec);
}

/// After `remove(key)`, `get(key)` answers nothing.
pub proof fn lemma_remove_then_get(s: KvCore, t: KvCore, key: Seq<char>)
    requires
        remove_transition(s, t, key),
    ensures
        t.spec_get(key) is None,
{
}

/// Reading back the bytes of the record that the index holds for a key, as
/// `value_from_record` does, gives exactly what `get` answers for that key.
pub proof fn lemma_read_record(s: KvCore, key: Seq<char>)
    requires
        s.wf(),
        s.spec_get(key) is Some,
    ensures
        ({
            let p = s.index_view()[key];
            let b = record_bytes(s.logs(), p);
            &&& b.len() == p.len
            &&& spec_decode(b, 0) == DecodeView::Record(
                ActionView::Put { key, value: s.spec_get(key)->Some_0 },
                b.len() as int,
            )
        }),
{
    s.lemma_holds(key);
}

/// `a + b`, held at `u64::MAX`.
pub open spec fn sat_add(a: u64, b: u64) -> u64 {
    if a + b > u64::MAX {
        u64::MAX
    } else {
        (a + b) as u64
    }
}

proof fn lemma_encode_len(a: ActionView)
    ensures
        a matches ActionView::Put { key, value } ==> spec_encode(a).len() == 17 + encode_utf8(key).len()
            + encode_utf8(value).len(),
        a matches ActionView::Rm { key } ==> spec_encode(a).len() == 9 + encode_utf8(key).len(),
{
    vstd::bytes::lemma_auto_spec_u64_to_from_le_bytes();
    match a {
        ActionView::Put { key, value } => {
            assert(vstd::bytes::spec_u64_to_le_bytes(encode_utf8(key).len() as u64).len() == 8);
            assert(vstd::bytes::spec_u64_to_le_bytes(encode_utf8(value).len() as u64).len() == 8);
        },
        ActionView::Get { key } => {},
        ActionView::Rm { key } => {
            assert(vstd::bytes::spec_u64_to_le_bytes(encode_utf8(key).len() as u64).len() == 8);
        },
    }
}

/// The value held by a record read back from a log: the record must be a
/// whole `Put` and nothing more. Any other record fails with
/// `FaultyCommandInLog`; bytes that do not decode, or that hold more or less
/// than one record, fail with `Codec`.
pub fn value_from_record(bytes: &[u8]) -> (r: Result<String, TError>)
    ensures
        match spec_decode(bytes@, 0) {
            DecodeView::Record(ActionView::Put { key: _, value }, end) => if end == bytes@.len() {
                r matches Ok(v) && v@ == value
            } else {
                r matches Err(TError::Codec)
            },
            DecodeView::Record(_, _) => r matches Err(TError::FaultyCommandInLog),
            DecodeView::BadTag => r matches Err(TError::FaultyCommandInLog),
            _ => r matches Err(TError::Codec),
        },
{
    match decode(bytes, 0) {
        Ok(Decoded::Record(Actions::Put { key: _, value }, end)) => {
            if end == bytes.len() {
                Ok(value)
            } else {
                Err(TError::Codec)
            }
        },
        Ok(Decoded::Record(_, _)) => Err(TError::FaultyCommandInLog),
        Ok(_) => Err(TError::Codec),
        Err(e) => Err(e),
    }
}

} // verus!

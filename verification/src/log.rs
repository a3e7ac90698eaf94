//! The log model: what a segment's bytes mean.
//!
//! A segment is a run of whole frames.  Parsing splits the bytes into
//! records; replaying the records left to right yields the locators of the
//! live keys and the reclaimable byte count; the key-value mapping of a
//! segment is the effect of its operations played in order.

use crate::codec::frame_bytes;
use crate::codec::lemma_frame_round_trip;
use crate::codec::lemma_parse_frame_agree;
use crate::codec::lemma_parse_frame_len;
use crate::codec::lemma_parse_frame_prefix_incomplete;
use crate::codec::op_fits;
use crate::codec::parse_frame;
use crate::codec::FrameParse;
use crate::OpModel;
use vstd::prelude::*;
use vstd::set::fold::is_fun_commutative;
use vstd::set::fold::lemma_fold_empty;
use vstd::set::fold::lemma_fold_insert;

verus! {

/// One record of a segment: its operation, byte offset, and frame length.
pub struct LogRec {
    /// The operation the frame decodes to.
    pub op: OpModel,
    /// The byte offset of the frame in the segment.
    pub off: nat,
    /// The frame's length in bytes.
    pub len: nat,
}

/// How the byte sequence of a segment ends.
pub enum LogEnd {
    /// The bytes are whole frames and nothing follows.
    Clean,
    /// A partial trailing frame follows the whole frames.
    Partial,
    /// Bytes that are no frame follow the whole frames.
    Malformed,
}

/// The outcome of parsing a segment: the records of its whole frames, the
/// bytes they cover, and how the sequence ends.
pub struct LogParse {
    /// The records, in file order.
    pub recs: Seq<LogRec>,
    /// The bytes covered by whole frames.
    pub end: nat,
    /// How the sequence ends after the whole frames.
    pub status: LogEnd,
}

/// Parse the frames of `b` from `pos` on.
pub open spec fn parse_log_at(b: Seq<u8>, pos: nat) -> LogParse
    decreases b.len() - pos,
{
    if pos >= b.len() {
        LogParse { recs: seq![], end: pos, status: LogEnd::Clean }
    } else {
        match parse_frame(b.skip(pos as int)) {
            FrameParse::Parsed { op, len } => {
                if len == 0 || pos + len > b.len() {
                    // a parsed frame is never empty or out of bounds; this
                    // branch only keeps the recursion well-founded
                    LogParse { recs: seq![], end: pos, status: LogEnd::Malformed }
                } else {
                    let rest = parse_log_at(b, pos + len);
                    LogParse {
                        recs: seq![LogRec { op, off: pos, len }] + rest.recs,
                        end: rest.end,
                        status: rest.status,
                    }
                }
            },
            FrameParse::Incomplete => LogParse { recs: seq![], end: pos, status: LogEnd::Partial },
            FrameParse::Malformed => LogParse {
                recs: seq![],
                end: pos,
                status: LogEnd::Malformed,
            },
        }
    }
}

/// Parse the frames of `b`.
pub open spec fn parse_log(b: Seq<u8>) -> LogParse {
    parse_log_at(b, 0)
}

/// The replay state: the locator `(offset, length)` of each live key, and
/// the reclaimable byte count.
pub struct ReplayState {
    /// The locator of each live key.
    pub entries: Map<Seq<char>, (nat, nat)>,
    /// Bytes of the segment belonging to superseded or removed records.
    pub reclaim: nat,
}

/// The empty replay state.
pub open spec fn replay_init() -> ReplayState {
    ReplayState { entries: Map::empty(), reclaim: 0 }
}

/// Replay one record: a `Put` supersedes any prior record of its key and
/// installs its own locator; a `Remove` supersedes any prior record and is
/// itself reclaimable; a `Get` never stands in a log and changes nothing.
pub open spec fn replay_step(st: ReplayState, r: LogRec) -> ReplayState {
    match r.op {
        OpModel::Put { key, value } => ReplayState {
            entries: st.entries.insert(key, (r.off, r.len)),
            reclaim: if st.entries.dom().contains(key) {
                st.reclaim + st.entries[key].1
            } else {
                st.reclaim
            },
        },
        OpModel::Remove { key } => ReplayState {
            entries: st.entries.remove(key),
            reclaim: st.reclaim + (if st.entries.dom().contains(key) {
                st.entries[key].1
            } else {
                0
            }) + r.len,
        },
        OpModel::Get { .. } => st,
    }
}

/// Replay a record sequence from the empty state.
pub open spec fn replay_recs(recs: Seq<LogRec>) -> ReplayState
    decreases recs.len(),
{
    if recs.len() == 0 {
        replay_init()
    } else {
        replay_step(replay_recs(recs.drop_last()), recs.last())
    }
}

/// Play one operation on a key-value mapping.
pub open spec fn kv_step(m: Map<Seq<char>, Seq<char>>, op: OpModel) -> Map<Seq<char>, Seq<char>> {
    match op {
        OpModel::Put { key, value } => m.insert(key, value),
        OpModel::Remove { key } => m.remove(key),
        OpModel::Get { .. } => m,
    }
}

/// The key-value mapping a record sequence leaves behind.
pub open spec fn log_kv(recs: Seq<LogRec>) -> Map<Seq<char>, Seq<char>>
    decreases recs.len(),
{
    if recs.len() == 0 {
        Map::empty()
    } else {
        kv_step(log_kv(recs.drop_last()), recs.last().op)
    }
}

/// Play a sequence of operations on a mapping, oldest first.
pub open spec fn apply_ops(m: Map<Seq<char>, Seq<char>>, ops: Seq<OpModel>) -> Map<
    Seq<char>,
    Seq<char>,
>
    decreases ops.len(),
{
    if ops.len() == 0 {
        m
    } else {
        kv_step(apply_ops(m, ops.drop_last()), ops.last())
    }
}

/// Whether `op` writes to `key`: a `Put` or `Remove` of that key.
pub open spec fn mutates_key(op: OpModel, key: Seq<char>) -> bool {
    match op {
        OpModel::Put { key: k, .. } => k == key,
        OpModel::Remove { key: k } => k == key,
        OpModel::Get { .. } => false,
    }
}

/// Whether `op` binds `key`: a `Put` of that key.
pub open spec fn binds_key(op: OpModel, key: Seq<char>) -> bool {
    match op {
        OpModel::Put { key: k, .. } => k == key,
        _ => false,
    }
}

/// A completed `Put` persists: after binding `key` to `value`, any run of
/// operations none of which writes to `key` leaves `key` bound to
/// `value`.  An engine's `set` produces exactly the insertion this lemma
/// starts from, and each later operation the engine completes is one
/// [`kv_step`], so the mapping any such run leaves behind is
/// `apply_ops` of the run.
pub proof fn lemma_set_persists(
    m: Map<Seq<char>, Seq<char>>,
    key: Seq<char>,
    value: Seq<char>,
    ops: Seq<OpModel>,
)
    requires
        forall|i: int| 0 <= i < ops.len() ==> !mutates_key(#[trigger] ops[i], key),
    ensures
        apply_ops(m.insert(key, value), ops).dom().contains(key),
        apply_ops(m.insert(key, value), ops)[key] == value,
    decreases ops.len(),
{
    if ops.len() > 0 {
        lemma_set_persists(m, key, value, ops.drop_last());
    }
}

/// A completed `Remove` persists: after unbinding `key`, any run of
/// operations none of which is a `Put` of `key` leaves `key` unbound.
/// An engine's `remove` produces exactly the removal this lemma starts
/// from.
pub proof fn lemma_remove_persists(m: Map<Seq<char>, Seq<char>>, key: Seq<char>, ops: Seq<OpModel>)
    requires
        forall|i: int| 0 <= i < ops.len() ==> !binds_key(#[trigger] ops[i], key),
    ensures
        !apply_ops(m.remove(key), ops).dom().contains(key),
    decreases ops.len(),
{
    if ops.len() > 0 {
        lemma_remove_persists(m, key, ops.drop_last());
    }
}

/// Whether a record sequence holds only persistable operations: `Put` and
/// `Remove`, never `Get`.
pub open spec fn persistable(recs: Seq<LogRec>) -> bool {
    forall|i: int| 0 <= i < recs.len() ==> !(#[trigger] recs[i].op is Get)
}

/// Appending a persistable record keeps a record sequence persistable.
pub proof fn lemma_persistable_push(recs: Seq<LogRec>, rec: LogRec)
    requires
        persistable(recs),
        !(rec.op is Get),
    ensures
        persistable(recs.push(rec)),
{
    assert forall|j: int|
        0 <= j < recs.push(rec).len() implies !(#[trigger] recs.push(rec)[j].op is Get) by {
        if j < recs.len() {
            assert(recs.push(rec)[j] == recs[j]);
        }
    }
}

/// The summed frame length of the live records.
pub open spec fn live_bytes(m: Map<Seq<char>, (nat, nat)>) -> nat {
    m.dom().fold(0, |acc: nat, k: Seq<char>| acc + m[k].1)
}

proof fn lemma_fold_congruence(
    s: Set<Seq<char>>,
    f1: spec_fn(nat, Seq<char>) -> nat,
    f2: spec_fn(nat, Seq<char>) -> nat,
)
    requires
        s.finite(),
        is_fun_commutative(f1),
        is_fun_commutative(f2),
        forall|acc: nat, k: Seq<char>| s.contains(k) ==> #[trigger] f1(acc, k) == f2(acc, k),
    ensures
        s.fold(0nat, f1) == s.fold(0nat, f2),
    decreases s.len(),
{
    if s.is_empty() {
        assert(s =~= Set::empty());
        lemma_fold_empty(0nat, f1);
        lemma_fold_empty(0nat, f2);
    } else {
        let k = s.choose();
        let s0 = s.remove(k);
        assert(s0.insert(k) =~= s);
        lemma_fold_insert(s0, 0nat, f1, k);
        lemma_fold_insert(s0, 0nat, f2, k);
        lemma_fold_congruence(s0, f1, f2);
    }
}

/// Removing a live key removes exactly its frame length from the live
/// total.
pub proof fn lemma_live_bytes_remove(m: Map<Seq<char>, (nat, nat)>, k: Seq<char>)
    requires
        m.dom().finite(),
        m.dom().contains(k),
    ensures
        live_bytes(m) == live_bytes(m.remove(k)) + m[k].1,
{
    let f = |acc: nat, k2: Seq<char>| acc + m[k2].1;
    let f2 = |acc: nat, k2: Seq<char>| acc + m.remove(k)[k2].1;
    let s0 = m.dom().remove(k);
    assert(s0.insert(k) =~= m.dom());
    lemma_fold_insert(s0, 0nat, f, k);
    lemma_fold_congruence(s0, f, f2);
    assert(m.remove(k).dom() =~= s0);
}

/// Installing a key adds its new frame length to the live total and drops
/// any length it held before.
pub proof fn lemma_live_bytes_insert(m: Map<Seq<char>, (nat, nat)>, k: Seq<char>, loc: (nat, nat))
    requires
        m.dom().finite(),
    ensures
        live_bytes(m.insert(k, loc)) + (if m.dom().contains(k) {
            m[k].1
        } else {
            0
        }) == live_bytes(m) + loc.1,
{
    let m1 = m.insert(k, loc);
    assert(m1.dom().finite());
    assert(m1.remove(k) =~= m.remove(k));
    lemma_live_bytes_remove(m1, k);
    if m.dom().contains(k) {
        lemma_live_bytes_remove(m, k);
    } else {
        assert(m.remove(k) =~= m);
    }
}

/// Two locator maps with the same keys and the same frame lengths hold
/// the same number of live bytes, wherever their offsets point.
pub proof fn lemma_live_bytes_congruence(
    m1: Map<Seq<char>, (nat, nat)>,
    m2: Map<Seq<char>, (nat, nat)>,
)
    requires
        m1.dom().finite(),
        m1.dom() == m2.dom(),
        forall|k: Seq<char>| #![auto] m1.dom().contains(k) ==> m1[k].1 == m2[k].1,
    ensures
        live_bytes(m1) == live_bytes(m2),
{
    let f1 = |acc: nat, k2: Seq<char>| acc + m1[k2].1;
    let f2 = |acc: nat, k2: Seq<char>| acc + m2[k2].1;
    lemma_fold_congruence(m1.dom(), f1, f2);
}

/// The empty state holds no live bytes.
pub proof fn lemma_live_bytes_empty()
    ensures
        live_bytes(replay_init().entries) == 0,
{
    let f = |acc: nat, k2: Seq<char>| acc + replay_init().entries[k2].1;
    assert(replay_init().entries.dom() =~= Set::empty());
    lemma_fold_empty(0nat, f);
}

/// Appending the frame of `m` to a cleanly ending segment appends one
/// record and keeps the end clean.
pub proof fn lemma_parse_log_at_snoc(b: Seq<u8>, pos: nat, m: OpModel)
    requires
        pos <= b.len(),
        parse_log_at(b, pos).status is Clean,
        parse_log_at(b, pos).end == b.len(),
        op_fits(m),
    ensures
        parse_log_at(b + frame_bytes(m), pos) == (LogParse {
            recs: parse_log_at(b, pos).recs.push(
                LogRec { op: m, off: b.len(), len: frame_bytes(m).len() },
            ),
            end: b.len() + frame_bytes(m).len(),
            status: LogEnd::Clean,
        }),
    decreases b.len() - pos,
{
    let fb = frame_bytes(m);
    let b2 = b + fb;
    lemma_frame_round_trip(m, Seq::empty());
    assert(fb + Seq::<u8>::empty() =~= fb);
    assert(parse_frame(fb) == (FrameParse::Parsed { op: m, len: fb.len() }));
    lemma_parse_frame_len(fb);
    if pos >= b.len() {
        assert(b2.skip(pos as int) =~= fb);
        let rest = parse_log_at(b2, pos + fb.len());
        assert(rest.recs =~= Seq::<LogRec>::empty());
        assert(parse_log_at(b, pos).recs =~= Seq::<LogRec>::empty());
        assert(seq![LogRec { op: m, off: pos, len: fb.len() }] + rest.recs =~= parse_log_at(
            b,
            pos,
        ).recs.push(LogRec { op: m, off: b.len(), len: fb.len() }));
    } else {
        let s1 = b.skip(pos as int);
        if !(parse_frame(s1) is Parsed) {
            assert(false);
        }
        let op = parse_frame(s1)->Parsed_op;
        let len = parse_frame(s1)->Parsed_len;
        lemma_parse_frame_len(s1);
        let s2 = b2.skip(pos as int);
        assert(s1.subrange(0, len as int) =~= s2.subrange(0, len as int));
        lemma_parse_frame_agree(s1, s2);
        lemma_parse_log_at_snoc(b, pos + len, m);
        let rest = parse_log_at(b, pos + len);
        let rest2 = parse_log_at(b2, pos + len);
        assert(seq![LogRec { op, off: pos, len }] + rest.recs.push(
            LogRec { op: m, off: b.len(), len: fb.len() },
        ) =~= (seq![LogRec { op, off: pos, len }] + rest.recs).push(
            LogRec { op: m, off: b.len(), len: fb.len() },
        ));
    }
}

/// Every record of a parse is anchored: its frame parses at its offset,
/// and it lies between `pos` and the end, which lies within the bytes.
pub proof fn lemma_parse_log_at_anchor(b: Seq<u8>, pos: nat)
    requires
        pos <= b.len(),
    ensures
        pos <= parse_log_at(b, pos).end <= b.len(),
        forall|i: int|
            #![trigger parse_log_at(b, pos).recs[i]]
            0 <= i < parse_log_at(b, pos).recs.len() ==> {
                let r = parse_log_at(b, pos).recs[i];
                &&& pos <= r.off
                &&& r.off + r.len <= parse_log_at(b, pos).end
                &&& r.len >= 9
                &&& parse_frame(b.skip(r.off as int)) == (FrameParse::Parsed {
                    op: r.op,
                    len: r.len,
                })
            },
    decreases b.len() - pos,
{
    if pos >= b.len() {
    } else {
        match parse_frame(b.skip(pos as int)) {
            FrameParse::Parsed { op, len } => {
                lemma_parse_frame_len(b.skip(pos as int));
                lemma_parse_log_at_anchor(b, pos + len);
                let rest = parse_log_at(b, pos + len);
                let whole = parse_log_at(b, pos);
                assert forall|i: int|
                    #![trigger whole.recs[i]]
                0 <= i < whole.recs.len() implies {
                    let r = whole.recs[i];
                    &&& pos <= r.off
                    &&& r.off + r.len <= whole.end
                    &&& r.len >= 9
                    &&& parse_frame(b.skip(r.off as int)) == (FrameParse::Parsed {
                        op: r.op,
                        len: r.len,
                    })
                } by {
                    if i == 0 {
                    } else {
                        assert(whole.recs[i] == rest.recs[i - 1]);
                    }
                }
            },
            FrameParse::Incomplete => {},
            FrameParse::Malformed => {},
        }
    }
}

/// Cutting a segment at the end of its whole frames keeps exactly those
/// frames and leaves a clean end.
pub proof fn lemma_parse_log_at_take(b: Seq<u8>, pos: nat)
    requires
        pos <= b.len(),
    ensures
        parse_log_at(b.take(parse_log_at(b, pos).end as int), pos) == (LogParse {
            recs: parse_log_at(b, pos).recs,
            end: parse_log_at(b, pos).end,
            status: LogEnd::Clean,
        }),
    decreases b.len() - pos,
{
    lemma_parse_log_at_anchor(b, pos);
    let e = parse_log_at(b, pos).end;
    let bt = b.take(e as int);
    if pos >= b.len() {
        assert(parse_log_at(bt, pos).recs =~= parse_log_at(b, pos).recs);
    } else {
        match parse_frame(b.skip(pos as int)) {
            FrameParse::Parsed { op, len } => {
                lemma_parse_frame_len(b.skip(pos as int));
                lemma_parse_log_at_anchor(b, pos + len);
                assert(pos + len <= e);
                assert(b.skip(pos as int).subrange(0, len as int) =~= bt.skip(
                    pos as int,
                ).subrange(0, len as int));
                lemma_parse_frame_agree(b.skip(pos as int), bt.skip(pos as int));
                lemma_parse_log_at_take(b, pos + len);
                assert(parse_log_at(b, pos + len).end == e);
            },
            FrameParse::Incomplete => {
                assert(bt.len() == pos);
                assert(parse_log_at(bt, pos).recs =~= parse_log_at(b, pos).recs);
            },
            FrameParse::Malformed => {
                assert(bt.len() == pos);
                assert(parse_log_at(bt, pos).recs =~= parse_log_at(b, pos).recs);
            },
        }
    }
}

proof fn lemma_truncated_tail_at(b: Seq<u8>, pos: nat, cut: nat)
    requires
        pos <= b.len(),
        parse_log_at(b, pos).status is Clean,
        parse_log_at(b, pos).end == b.len(),
        parse_log_at(b, pos).recs.len() > 0,
        parse_log_at(b, pos).recs.last().off < cut < b.len(),
    ensures
        parse_log_at(b.take(cut as int), pos).recs == parse_log_at(b, pos).recs.drop_last(),
        parse_log_at(b.take(cut as int), pos).status is Partial,
        parse_log_at(b.take(cut as int), pos).end == parse_log_at(b, pos).recs.last().off,
    decreases b.len() - pos,
{
    let bt = b.take(cut as int);
    let whole = parse_log_at(b, pos);
    lemma_parse_log_at_anchor(b, pos);
    assert(pos < b.len());
    match parse_frame(b.skip(pos as int)) {
        FrameParse::Parsed { op, len } => {
            lemma_parse_frame_len(b.skip(pos as int));
            let rec = (LogRec { op, off: pos, len });
            let rest = parse_log_at(b, pos + len);
            if rest.recs.len() == 0 {
                // The frame at `pos` is the last one; `cut` falls inside it.
                assert(pos + len == b.len());
                assert(whole.recs =~= seq![rec]);
                assert(whole.recs.last() == rec);
                assert(bt.skip(pos as int) =~= b.skip(pos as int).subrange(0, (cut - pos) as int));
                lemma_parse_frame_prefix_incomplete(b.skip(pos as int), bt.skip(pos as int));
                assert(parse_log_at(bt, pos).recs =~= whole.recs.drop_last());
            } else {
                // The last frame lies beyond this one, which `cut` covers.
                lemma_parse_log_at_anchor(b, pos + len);
                assert(whole.recs =~= seq![rec] + rest.recs);
                assert(whole.recs.last() == rest.recs[rest.recs.len() - 1]);
                assert(rest.recs.last().off >= pos + len);
                assert(b.skip(pos as int).subrange(0, len as int) =~= bt.skip(
                    pos as int,
                ).subrange(0, len as int));
                lemma_parse_frame_agree(b.skip(pos as int), bt.skip(pos as int));
                lemma_truncated_tail_at(b, pos + len, cut);
                let rest_t = parse_log_at(bt, pos + len);
                assert(parse_log_at(bt, pos).recs =~= seq![rec] + rest_t.recs);
                assert(whole.recs.drop_last() =~= seq![rec] + rest.recs.drop_last());
            }
        },
        FrameParse::Incomplete => {
            assert(false);
        },
        FrameParse::Malformed => {
            assert(false);
        },
    }
}

/// A torn tail: cutting a cleanly parsed, non-empty segment anywhere
/// inside its last frame keeps exactly the earlier frames and leaves a
/// partial tail ending at the last frame's start.  This is what a write
/// torn mid-frame looks like to [`parse_log`] on reopen.
pub proof fn lemma_truncated_tail(b: Seq<u8>, cut: nat)
    requires
        parse_log(b).status is Clean,
        parse_log(b).end == b.len(),
        parse_log(b).recs.len() > 0,
        parse_log(b).recs.last().off < cut < b.len(),
    ensures
        parse_log(b.take(cut as int)).recs == parse_log(b).recs.drop_last(),
        parse_log(b.take(cut as int)).status is Partial,
        parse_log(b.take(cut as int)).end == parse_log(b).recs.last().off,
{
    lemma_truncated_tail_at(b, 0, cut);
}

/// The live keys of a replay are exactly the keys of the mapping, and each
/// live key's locator points at a `Put` record of that key carrying the
/// mapping's value.
pub proof fn lemma_replay_index(recs: Seq<LogRec>)
    ensures
        replay_recs(recs).entries.dom() == log_kv(recs).dom(),
        replay_recs(recs).entries.dom().finite(),
        forall|k: Seq<char>|
            #![auto]
            replay_recs(recs).entries.dom().contains(k) ==> exists|i: int|
                0 <= i < recs.len() && recs[i].op == (OpModel::Put {
                    key: k,
                    value: log_kv(recs)[k],
                }) && recs[i].off == replay_recs(recs).entries[k].0 && recs[i].len == replay_recs(
                    recs,
                ).entries[k].1,
    decreases recs.len(),
{
    if recs.len() == 0 {
        assert(replay_recs(recs).entries.dom() =~= log_kv(recs).dom());
    } else {
        let prev = recs.drop_last();
        let r = recs.last();
        lemma_replay_index(prev);
        let st0 = replay_recs(prev);
        let st1 = replay_recs(recs);
        let kv0 = log_kv(prev);
        let kv1 = log_kv(recs);
        assert(st1 == replay_step(st0, r));
        assert(kv1 == kv_step(kv0, r.op));
        match r.op {
            OpModel::Put { key, value } => {
                assert(st1.entries.dom() =~= kv1.dom());
                assert forall|k: Seq<char>| #![auto] st1.entries.dom().contains(k) implies exists|
                    i: int,
                |
                    0 <= i < recs.len() && recs[i].op == (OpModel::Put {
                        key: k,
                        value: kv1[k],
                    }) && recs[i].off == st1.entries[k].0 && recs[i].len == st1.entries[k].1 by {
                    if k == key {
                        let i = recs.len() - 1;
                        assert(0 <= i < recs.len() && recs[i].op == (OpModel::Put {
                            key: k,
                            value: kv1[k],
                        }) && recs[i].off == st1.entries[k].0 && recs[i].len == st1.entries[k].1);
                    } else {
                        let i = choose|i: int|
                            0 <= i < prev.len() && prev[i].op == (OpModel::Put {
                                key: k,
                                value: kv0[k],
                            }) && prev[i].off == st0.entries[k].0 && prev[i].len
                                == st0.entries[k].1;
                        assert(recs[i] == prev[i]);
                        assert(0 <= i < recs.len() && recs[i].op == (OpModel::Put {
                            key: k,
                            value: kv1[k],
                        }) && recs[i].off == st1.entries[k].0 && recs[i].len == st1.entries[k].1);
                    }
                }
            },
            OpModel::Remove { key } => {
                assert(st1.entries.dom() =~= kv1.dom());
                assert forall|k: Seq<char>| #![auto] st1.entries.dom().contains(k) implies exists|
                    i: int,
                |
                    0 <= i < recs.len() && recs[i].op == (OpModel::Put {
                        key: k,
                        value: kv1[k],
                    }) && recs[i].off == st1.entries[k].0 && recs[i].len == st1.entries[k].1 by {
                    let i = choose|i: int|
                        0 <= i < prev.len() && prev[i].op == (OpModel::Put {
                            key: k,
                            value: kv0[k],
                        }) && prev[i].off == st0.entries[k].0 && prev[i].len == st0.entries[k].1;
                    assert(recs[i] == prev[i]);
                    assert(0 <= i < recs.len() && recs[i].op == (OpModel::Put {
                        key: k,
                        value: kv1[k],
                    }) && recs[i].off == st1.entries[k].0 && recs[i].len == st1.entries[k].1);
                }
            },
            OpModel::Get { .. } => {
                assert forall|k: Seq<char>| #![auto] st1.entries.dom().contains(k) implies exists|
                    i: int,
                |
                    0 <= i < recs.len() && recs[i].op == (OpModel::Put {
                        key: k,
                        value: kv1[k],
                    }) && recs[i].off == st1.entries[k].0 && recs[i].len == st1.entries[k].1 by {
                    let i = choose|i: int|
                        0 <= i < prev.len() && prev[i].op == (OpModel::Put {
                            key: k,
                            value: kv0[k],
                        }) && prev[i].off == st0.entries[k].0 && prev[i].len == st0.entries[k].1;
                    assert(recs[i] == prev[i]);
                    assert(0 <= i < recs.len() && recs[i].op == (OpModel::Put {
                        key: k,
                        value: kv1[k],
                    }) && recs[i].off == st1.entries[k].0 && recs[i].len == st1.entries[k].1);
                }
            },
        }
    }
}

} // verus!

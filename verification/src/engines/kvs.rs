//! The log-structured store.
//!
//! All live data sits in one active segment: a byte sequence of `Put` and
//! `Remove` frames.  An index maps each live key to the locator of its
//! latest `Put` frame.  Writes append a frame and install the new locator;
//! reads decode the frame a locator points at; when enough bytes are
//! superseded, compaction rewrites the live frames into a fresh segment.

use crate::codec::all_digits;
use crate::codec::bytes_to_string;
use crate::codec::copy_range;
use crate::codec::dec_bytes;
use crate::codec::dec_val;
use crate::codec::is_digit;
use crate::codec::lemma_dec_bytes_digits;
use crate::codec::lemma_dec_bytes_len;
use crate::codec::lemma_dec_bytes_valid_utf8;
use crate::codec::lemma_dec_round_trip;
use crate::codec::lemma_pow10_20;
use crate::codec::lemma_pow256_8;
use crate::codec::pow10;
use crate::codec::u64_to_dec;
use crate::codec::decode_op;
use crate::codec::encode_op;
use crate::codec::frame_bytes;
use crate::codec::lemma_parse_frame_canonical;
use crate::codec::lemma_parse_frame_len;
use crate::codec::parse_frame;
use crate::codec::DecodeOutcome;
use crate::codec::FrameParse;
use crate::engines::KvsEngine;
use crate::error::KvsError;
use crate::error::KvsErrorType;
use crate::index::empty_index_view;
use crate::index::index_view;
use crate::index::Index;
use crate::log::lemma_live_bytes_congruence;
use crate::log::lemma_live_bytes_empty;
use crate::log::lemma_live_bytes_insert;
use crate::log::lemma_live_bytes_remove;
use crate::log::lemma_parse_log_at_anchor;
use crate::log::lemma_parse_log_at_snoc;
use crate::log::lemma_parse_log_at_take;
use crate::log::lemma_persistable_push;
use crate::log::lemma_replay_index;
use crate::log::live_bytes;
use crate::log::log_kv;
use crate::log::parse_log;
use crate::log::parse_log_at;
use crate::log::persistable;
use crate::log::replay_recs;
use crate::log::LogRec;
use crate::OpModel;
use crate::Operation;
use vstd::prelude::*;
use vstd::string::StrSliceExecFns;
use vstd::string::StringExecFns;
use vstd::utf8::decode_utf8;
use vstd::utf8::encode_utf8;

verus! {

/// Bytes of superseded records the store tolerates before compacting.
pub const COMPACT_THRESHOLD: u64 = 1048576;

/// The persisted engine state: the id of the active segment.
pub struct LogStatus {
    /// The id of the active segment.
    pub cur_file_id: u64,
}

impl LogStatus {
    /// The initial state: segment 0 is active.
    pub fn new() -> (s: LogStatus)
        ensures
            s.cur_file_id == 0,
    {
        LogStatus { cur_file_id: 0 }
    }
}

/// The bytes before the digits in the state file.
pub open spec fn status_prefix() -> Seq<u8> {
    encode_utf8("{\"cur_file_id\":"@)
}

/// The bytes after the digits in the state file.
pub open spec fn status_suffix() -> Seq<u8> {
    encode_utf8("}"@)
}

/// The state file's contents for active segment `id`: one small object
/// holding the id in decimal.
pub open spec fn status_bytes(id: u64) -> Seq<u8> {
    status_prefix() + dec_bytes(id as nat) + status_suffix()
}

/// Parse state-file contents: the exact prefix, decimal digits holding a
/// `u64` value, the exact suffix.  Anything else — in particular a torn
/// write — is rejected.
pub open spec fn parse_status(b: Seq<u8>) -> Option<u64> {
    let pre = status_prefix();
    let suf = status_suffix();
    if b.len() < pre.len() + suf.len() + 1 {
        None
    } else if b.subrange(0, pre.len() as int) != pre {
        None
    } else if b.subrange(b.len() - suf.len(), b.len() as int) != suf {
        None
    } else {
        let digits = b.subrange(pre.len() as int, b.len() - suf.len());
        if all_digits(digits) && digits.len() <= 20 && dec_val(digits) <= u64::MAX {
            Some(dec_val(digits) as u64)
        } else {
            None
        }
    }
}

/// Encode the engine state for its file.
pub fn encode_status(s: &LogStatus) -> (r: Vec<u8>)
    ensures
        r@ == status_bytes(s.cur_file_id),
{
    let mut r = "{\"cur_file_id\":".as_bytes_vec();
    let mut d = u64_to_dec(s.cur_file_id);
    r.append(&mut d);
    let mut t = "}".as_bytes_vec();
    r.append(&mut t);
    proof {
        assert(r@ =~= status_bytes(s.cur_file_id));
    }
    r
}

/// Decode state-file contents.
pub fn decode_status(bytes: &Vec<u8>) -> (r: Option<u64>)
    ensures
        r == parse_status(bytes@),
{
    let pre = "{\"cur_file_id\":".as_bytes_vec();
    let suf = "}".as_bytes_vec();
    let n = bytes.len();
    let plen = pre.len();
    let slen = suf.len();
    if n < plen || n - plen < slen || n - plen - slen < 1 {
        return None;
    }
    let mut j: usize = 0;
    while j < plen
        invariant
            j <= plen,
            plen == pre@.len(),
            slen == suf@.len(),
            n == bytes@.len(),
            plen + slen + 1 <= n,
            pre@ == status_prefix(),
            suf@ == status_suffix(),
            forall|t: int| 0 <= t < j ==> bytes@[t] == pre@[t],
        decreases plen - j,
    {
        if bytes[j] != pre[j] {
            proof {
                assert(bytes@.subrange(0, plen as int)[j as int] != pre@[j as int]);
            }
            return None;
        }
        j = j + 1;
    }
    proof {
        assert(bytes@.subrange(0, plen as int) =~= pre@);
    }
    let sstart = n - slen;
    let mut t: usize = 0;
    while t < slen
        invariant
            t <= slen,
            plen == pre@.len(),
            slen == suf@.len(),
            n == bytes@.len(),
            plen + slen + 1 <= n,
            sstart == n - slen,
            pre@ == status_prefix(),
            suf@ == status_suffix(),
            bytes@.subrange(0, plen as int) == pre@,
            forall|u: int| 0 <= u < t ==> bytes@[sstart + u] == suf@[u],
        decreases slen - t,
    {
        if bytes[sstart + t] != suf[t] {
            proof {
                assert(bytes@.subrange(sstart as int, n as int)[t as int] != suf@[t as int]);
            }
            return None;
        }
        t = t + 1;
    }
    proof {
        assert(bytes@.subrange(sstart as int, n as int) =~= suf@);
    }
    let dstart = plen;
    let dlen = n - plen - slen;
    let ghost digits = bytes@.subrange(plen as int, (n - slen) as int);
    if dlen > 20 {
        return None;
    }
    proof {
        reveal_with_fuel(pow10, 21);
    }
    let mut acc: u128 = 0;
    let mut i: usize = 0;
    while i < dlen
        invariant
            i <= dlen,
            dlen <= 20,
            plen == pre@.len(),
            slen == suf@.len(),
            n == bytes@.len(),
            dstart == plen,
            dlen == digits.len(),
            dlen == n - plen - slen,
            plen + slen + 1 <= n,
            pre@ == status_prefix(),
            suf@ == status_suffix(),
            bytes@.subrange(0, plen as int) == pre@,
            bytes@.subrange((n - slen) as int, n as int) == suf@,
            digits == bytes@.subrange(plen as int, (n - slen) as int),
            forall|u: int| 0 <= u < i ==> is_digit(digits[u]),
            acc as nat == dec_val(digits.take(i as int)),
            (acc as nat) < pow10(i as nat),
            pow10(20) == 100000000000000000000,
        decreases dlen - i,
    {
        let b = bytes[dstart + i];
        proof {
            assert(digits[i as int] == bytes@[(dstart + i) as int]);
        }
        if b < 48 || b > 57 {
            proof {
                assert(!is_digit(digits[i as int]));
            }
            return None;
        }
        proof {
            assert(digits.take(i + 1int).drop_last() =~= digits.take(i as int));
            assert(digits.take(i + 1int).last() == digits[i as int]);
            assert(pow10((i + 1) as nat) == 10 * pow10(i as nat));
            assert(pow10(i as nat) <= pow10(20)) by {
                lemma_pow10_le(i as nat, 20);
            };
        }
        acc = acc * 10 + ((b - 48) as u128);
        i = i + 1;
    }
    proof {
        assert(digits.take(dlen as int) =~= digits);
    }
    if acc > (u64::MAX as u128) {
        return None;
    }
    Some(acc as u64)
}

/// The decimal value of a `u64` has at most 20 digits, so the state file
/// of any segment id decodes to that id.
pub proof fn lemma_status_round_trip(id: u64)
    ensures
        parse_status(status_bytes(id)) == Some(id),
{
    let pre = status_prefix();
    let suf = status_suffix();
    let d = dec_bytes(id as nat);
    let b = status_bytes(id);
    lemma_dec_bytes_digits(id as nat);
    assert(b.len() == pre.len() + d.len() + suf.len());
    assert(b.subrange(0, pre.len() as int) =~= pre);
    assert(b.subrange(b.len() - suf.len(), b.len() as int) =~= suf);
    assert(b.subrange(pre.len() as int, b.len() - suf.len()) =~= d);
    lemma_dec_round_trip(id as nat);
    lemma_pow256_8();
    lemma_pow10_20();
    lemma_dec_bytes_len(id as nat, 20);
}

proof fn lemma_pow10_le(a: nat, b: nat)
    requires
        a <= b,
    ensures
        pow10(a) <= pow10(b),
    decreases b,
{
    if a < b && b > 0 {
        lemma_pow10_le(a, (b - 1) as nat);
    }
}

/// The characters of `n` written in decimal.
pub open spec fn dec_chars(n: nat) -> Seq<char> {
    decode_utf8(dec_bytes(n))
}

/// The name of the engine state file.
pub fn status_filename() -> (r: String)
    ensures
        r@ == "status.json"@,
{
    String::from_str("status.json")
}

/// The name of log segment `id`: its decimal id and the `.log` suffix.
pub fn log_filename(id: u64) -> (r: String)
    ensures
        r@ == dec_chars(id as nat) + ".log"@,
{
    let d = u64_to_dec(id);
    proof {
        lemma_dec_bytes_valid_utf8(id as nat);
    }
    let s = match bytes_to_string(d) {
        Some(s) => s,
        None => {
            proof {
                assert(false);
            }
            String::new()
        },
    };
    s.concat(".log")
}

/// Whether `ix` is the locator map of `entries` within segment `fid`.
pub open spec fn located(
    entries: Map<Seq<char>, (nat, nat)>,
    fid: u64,
    ix: Map<Seq<char>, (u64, u64, u64)>,
) -> bool {
    &&& ix.dom() == entries.dom()
    &&& forall|k: Seq<char>|
        #![auto]
        entries.dom().contains(k) ==> ix[k].0 == fid && ix[k].1 == entries[k].0 && ix[k].2
            == entries[k].1
}

/// The log-structured store: an append-only active segment, an index from
/// key to locator, and the bookkeeping that drives compaction.
pub struct KvStore {
    index: Index,
    segment: Vec<u8>,
    file_len: u64,
    cur_file_id: u64,
    reclaimable: u64,
    threshold: u64,
}

impl KvStore {
    /// The bytes of the active segment.
    pub closed spec fn seg(&self) -> Seq<u8> {
        self.segment@
    }

    /// The id of the active segment.
    pub closed spec fn active_id(&self) -> u64 {
        self.cur_file_id
    }

    /// The reclaimable byte counter.
    pub closed spec fn reclaim_count(&self) -> u64 {
        self.reclaimable
    }

    /// The compaction threshold in force.
    pub closed spec fn threshold_spec(&self) -> u64 {
        self.threshold
    }

    /// The records of the active segment.
    pub closed spec fn recs(&self) -> Seq<LogRec> {
        parse_log(self.segment@).recs
    }

    /// The locators of the live keys.
    pub closed spec fn entries(&self) -> Map<Seq<char>, (nat, nat)> {
        replay_recs(self.recs()).entries
    }

    /// The live footprint: the summed frame lengths of the live records.
    pub closed spec fn live_size(&self) -> nat {
        live_bytes(self.entries())
    }

    /// Well-formedness: the segment is wholly made of persistable frames;
    /// the index holds exactly the replay's locators for the active
    /// segment; the reclaimable counter is the replay's; reclaimable and
    /// live bytes together account for every byte of the segment.
    pub closed spec fn wf(&self) -> bool {
        let lp = parse_log(self.segment@);
        let st = replay_recs(lp.recs);
        &&& lp.status is Clean
        &&& lp.end == self.segment@.len()
        &&& self.file_len == self.segment@.len()
        &&& persistable(lp.recs)
        &&& st.entries.dom().finite()
        &&& located(st.entries, self.cur_file_id, index_view(self.index))
        &&& self.reclaimable == st.reclaim
        &&& st.reclaim + live_bytes(st.entries) == self.file_len
    }

    /// A fresh, empty store with an empty segment 0.
    pub fn new() -> (st: KvStore)
        ensures
            st.wf(),
            st.kv() == Map::<Seq<char>, Seq<char>>::empty(),
            st.active_id() == 0,
            st.seg() == Seq::<u8>::empty(),
            st.reclaim_count() == 0,
            st.threshold_spec() == COMPACT_THRESHOLD,
    {
        let st = KvStore {
            index: Index::new(),
            segment: Vec::new(),
            file_len: 0,
            cur_file_id: 0,
            reclaimable: 0,
            threshold: COMPACT_THRESHOLD,
        };
        proof {
            lemma_live_bytes_empty();
            assert(replay_recs(st.recs()).entries.dom() =~= empty_index_view().dom());
            assert(st.kv() =~= Map::<Seq<char>, Seq<char>>::empty());
        }
        st
    }

    /// Set the reclaimable-bytes threshold beyond which a write triggers
    /// compaction.
    pub fn set_compact_threshold(&mut self, threshold: u64)
        requires
            old(self).wf(),
        ensures
            final(self).wf(),
            final(self).threshold_spec() == threshold,
            final(self).kv() == old(self).kv(),
            final(self).seg() == old(self).seg(),
            final(self).active_id() == old(self).active_id(),
            final(self).reclaim_count() == old(self).reclaim_count(),
    {
        self.threshold = threshold;
    }

    /// The id of the active segment.
    pub fn active_segment_id(&self) -> (id: u64)
        ensures
            id == self.active_id(),
    {
        self.cur_file_id
    }

    /// The bytes of the active segment.
    pub fn segment_bytes(&self) -> (b: &Vec<u8>)
        ensures
            b@ == self.seg(),
    {
        &self.segment
    }

    /// The reclaimable byte counter.
    pub fn reclaimable_bytes(&self) -> (n: u64)
        ensures
            n == self.reclaim_count(),
    {
        self.reclaimable
    }

    /// Rebuild an index and the compaction bookkeeping by replaying the
    /// frames of `segment`, as the store does when it reopens: for a
    /// `Put`, any superseded frame becomes reclaimable and the new
    /// locator is installed; for a `Remove`, the superseded frame and the
    /// `Remove` frame itself become reclaimable.  Returns the index, the
    /// reclaimable count, and the bytes covered by whole frames.
    pub fn build_map(segment: &Vec<u8>, cur_file_id: u64) -> (r: Result<
        (Index, u64, usize),
        KvsError,
    >)
        ensures
            match r {
                Ok(out) => {
                    let lp = parse_log(segment@);
                    let st = replay_recs(lp.recs);
                    &&& !(lp.status is Malformed)
                    &&& persistable(lp.recs)
                    &&& out.2 == lp.end
                    &&& st.entries.dom().finite()
                    &&& located(st.entries, cur_file_id, index_view(out.0))
                    &&& out.1 == st.reclaim
                    &&& st.reclaim + live_bytes(st.entries) == lp.end
                },
                Err(e) => {
                    &&& e.kind() == KvsErrorType::SerdeError
                    &&& (parse_log(segment@).status is Malformed || !persistable(
                        parse_log(segment@).recs,
                    ))
                },
            },
            r is Ok <==> (!(parse_log(segment@).status is Malformed) && persistable(
                parse_log(segment@).recs,
            )),
    {
        let len = segment.len();
        let mut ix = Index::new();
        let mut reclaim: u64 = 0;
        let mut pos: usize = 0;
        let ghost mut done: Seq<LogRec> = Seq::empty();
        proof {
            lemma_live_bytes_empty();
            assert(replay_recs(done).entries.dom() =~= empty_index_view().dom());
            assert(parse_log(segment@).recs =~= done + parse_log_at(segment@, 0).recs);
        }
        while pos < len
            invariant
                len == segment@.len(),
                pos <= len,
                parse_log(segment@).recs == done + parse_log_at(segment@, pos as nat).recs,
                parse_log(segment@).end == parse_log_at(segment@, pos as nat).end,
                parse_log(segment@).status == parse_log_at(segment@, pos as nat).status,
                persistable(done),
                replay_recs(done).entries.dom().finite(),
                located(replay_recs(done).entries, cur_file_id, index_view(ix)),
                reclaim == replay_recs(done).reclaim,
                replay_recs(done).reclaim + live_bytes(replay_recs(done).entries) == pos,
            decreases len - pos,
        {
            match decode_op(segment, pos) {
                DecodeOutcome::Decoded { op, next } => {
                    proof {
                        lemma_parse_frame_len(segment@.skip(pos as int));
                    }
                    let ghost rec = (LogRec {
                        op: op@,
                        off: pos as nat,
                        len: (next - pos) as nat,
                    });
                    let ghost done2 = done.push(rec);
                    proof {
                        assert(parse_log_at(segment@, pos as nat).recs == seq![rec]
                            + parse_log_at(segment@, next as nat).recs);
                        assert(done + (seq![rec] + parse_log_at(segment@, next as nat).recs)
                            =~= done2 + parse_log_at(segment@, next as nat).recs);
                        assert(done2.drop_last() =~= done);
                    }
                    match op {
                        Operation::Put { key, value } => {
                            match ix.get(&key) {
                                Some(loc) => {
                                    proof {
                                        lemma_live_bytes_remove(replay_recs(done).entries, key@);
                                    }
                                    reclaim = reclaim + loc.2;
                                },
                                None => {},
                            }
                            proof {
                                lemma_live_bytes_insert(
                                    replay_recs(done).entries,
                                    key@,
                                    (pos as nat, (next - pos) as nat),
                                );
                            }
                            ix.insert(key, (cur_file_id, pos as u64, (next - pos) as u64));
                            proof {
                                assert(replay_recs(done2).entries.dom() =~= index_view(ix).dom());
                                lemma_persistable_push(done, rec);
                            }
                        },
                        Operation::Remove { key } => {
                            match ix.remove(&key) {
                                Some(loc) => {
                                    proof {
                                        lemma_live_bytes_remove(replay_recs(done).entries, key@);
                                    }
                                    reclaim = reclaim + loc.2;
                                },
                                None => {
                                    proof {
                                        assert(replay_recs(done).entries.remove(key@)
                                            =~= replay_recs(done).entries);
                                    }
                                },
                            }
                            reclaim = reclaim + ((next - pos) as u64);
                            proof {
                                assert(replay_recs(done2).entries == replay_recs(
                                    done,
                                ).entries.remove(key@));
                                assert(replay_recs(done2).entries.dom() =~= index_view(ix).dom());
                                lemma_persistable_push(done, rec);
                            }
                        },
                        Operation::Get { key: _ } => {
                            proof {
                                assert(parse_log_at(segment@, pos as nat).recs[0] == rec);
                                assert(parse_log(segment@).recs[done.len() as int]
                                    == parse_log_at(segment@, pos as nat).recs[0]);
                                assert(parse_log(segment@).recs[done.len() as int].op is Get);
                                assert(!persistable(parse_log(segment@).recs));
                            }
                            return Err(KvsError::from(KvsErrorType::SerdeError));
                        },
                    }
                    proof {
                        done = done2;
                    }
                    pos = next;
                },
                DecodeOutcome::Incomplete => {
                    proof {
                        assert(parse_log(segment@).recs =~= done);
                    }
                    return Ok((ix, reclaim, pos));
                },
                DecodeOutcome::Malformed => {
                    return Err(KvsError::from(KvsErrorType::SerdeError));
                },
            }
        }
        proof {
            assert(parse_log(segment@).recs =~= done);
        }
        Ok((ix, reclaim, pos))
    }

    /// Open a store over the bytes of active segment `cur_file_id`,
    /// replaying them to rebuild the index.  A partial trailing frame is
    /// treated as absent: the store keeps only the whole frames, and the
    /// caller should truncate the persisted file to the store's segment
    /// length.  A malformed frame, or a `Get` frame in the log, is a
    /// Serde error.
    pub fn open(cur_file_id: u64, segment: Vec<u8>) -> (r: Result<KvStore, KvsError>)
        ensures
            match r {
                Ok(st) => {
                    &&& st.wf()
                    &&& st.kv() == log_kv(parse_log(segment@).recs)
                    &&& st.seg() == segment@.take(parse_log(segment@).end as int)
                    &&& st.active_id() == cur_file_id
                    &&& st.reclaim_count() == replay_recs(parse_log(segment@).recs).reclaim
                    &&& st.threshold_spec() == COMPACT_THRESHOLD
                },
                Err(e) => e.kind() == KvsErrorType::SerdeError,
            },
            r is Ok <==> (!(parse_log(segment@).status is Malformed) && persistable(
                parse_log(segment@).recs,
            )),
    {
        let mut seg = segment;
        match Self::build_map(&seg, cur_file_id) {
            Err(e) => Err(e),
            Ok((ix, reclaim, end)) => {
                proof {
                    lemma_parse_log_at_anchor(seg@, 0);
                    lemma_parse_log_at_take(seg@, 0);
                }
                seg.truncate(end);
                Ok(
                    KvStore {
                        index: ix,
                        segment: seg,
                        file_len: end as u64,
                        cur_file_id,
                        reclaimable: reclaim,
                        threshold: COMPACT_THRESHOLD,
                    },
                )
            },
        }
    }

    /// Rewrite the live records into a fresh segment, step the segment
    /// id, and reset the reclaimable counter.  The mapping is unchanged,
    /// and afterwards the active segment holds exactly the live bytes.
    pub fn compact(&mut self)
        requires
            old(self).wf(),
            old(self).active_id() < u64::MAX,
        ensures
            final(self).wf(),
            final(self).kv() == old(self).kv(),
            final(self).reclaim_count() == 0,
            final(self).seg().len() == final(self).live_size(),
            final(self).live_size() == old(self).live_size(),
            final(self).active_id() == old(self).active_id() + 1,
            final(self).threshold_spec() == old(self).threshold_spec(),
    {
        let entry_list = self.index.entries();
        let n = entry_list.len();
        let new_id = self.cur_file_id + 1;
        let mut new_seg: Vec<u8> = Vec::new();
        let mut new_index = Index::new();
        let ghost old_entries = self.entries();
        let ghost old_kv = self.kv();
        proof {
            lemma_live_bytes_empty();
            assert(replay_recs(parse_log(new_seg@).recs).entries.dom()
                =~= empty_index_view().dom());
        }
        let mut i: usize = 0;
        while i < n
            invariant
                old(self).wf(),
                old(self).cur_file_id < u64::MAX,
                *self == *old(self),
                old_entries == self.entries(),
                old_kv == self.kv(),
                new_id == old(self).cur_file_id + 1,
                i <= n,
                n == entry_list@.len(),
                forall|j: int|
                    #![auto]
                    0 <= j < entry_list@.len() ==> index_view(self.index).dom().contains(
                        entry_list@[j].0@,
                    ) && index_view(self.index)[entry_list@[j].0@] == entry_list@[j].1,
                forall|k: Seq<char>|
                    #![auto]
                    index_view(self.index).dom().contains(k) ==> exists|j: int|
                        0 <= j < entry_list@.len() && entry_list@[j].0@ == k,
                forall|j1: int, j2: int|
                    #![auto]
                    0 <= j1 < j2 < entry_list@.len() ==> entry_list@[j1].0@ != entry_list@[j2].0@,
                parse_log(new_seg@).status is Clean,
                parse_log(new_seg@).end == new_seg@.len(),
                persistable(parse_log(new_seg@).recs),
                replay_recs(parse_log(new_seg@).recs).reclaim == 0,
                replay_recs(parse_log(new_seg@).recs).entries.dom().finite(),
                located(
                    replay_recs(parse_log(new_seg@).recs).entries,
                    new_id,
                    index_view(new_index),
                ),
                new_seg@.len() == live_bytes(replay_recs(parse_log(new_seg@).recs).entries),
                forall|k: Seq<char>|
                    #![auto]
                    replay_recs(parse_log(new_seg@).recs).entries.dom().contains(k) ==> exists|
                        j: int,
                    | 0 <= j < i && entry_list@[j].0@ == k,
                forall|j: int|
                    #![auto]
                    0 <= j < i ==> replay_recs(parse_log(new_seg@).recs).entries.dom().contains(
                        entry_list@[j].0@,
                    ) && replay_recs(parse_log(new_seg@).recs).entries[entry_list@[j].0@].1
                        == old_entries[entry_list@[j].0@].1 && log_kv(
                        parse_log(new_seg@).recs,
                    )[entry_list@[j].0@] == old_kv[entry_list@[j].0@],
            decreases n - i,
        {
            let ghost k = entry_list@[i as int].0@;
            let ghost new_recs0 = parse_log(new_seg@).recs;
            let loc = entry_list[i].1;
            proof {
                lemma_replay_index(self.recs());
                lemma_parse_log_at_anchor(self.seg(), 0);
            }
            let ghost m = (OpModel::Put { key: k, value: old_kv[k] });
            let ghost ri = choose|ri: int|
                0 <= ri < self.recs().len() && self.recs()[ri].op == m && self.recs()[ri].off
                    == old_entries[k].0 && self.recs()[ri].len == old_entries[k].1;
            proof {
                assert(parse_frame(self.seg().skip(loc.1 as int)) == (FrameParse::Parsed {
                    op: m,
                    len: loc.2 as nat,
                }));
                lemma_parse_frame_canonical(self.seg().skip(loc.1 as int));
            }
            let seg_len = self.segment.len();
            let off_us = loc.1 as usize;
            let len_us = loc.2 as usize;
            let frame = copy_range(&self.segment, off_us, len_us);
            proof {
                assert(frame@ =~= self.seg().skip(loc.1 as int).subrange(0, loc.2 as int));
                assert(frame@ == frame_bytes(m));
                lemma_parse_log_at_snoc(new_seg@, 0, m);
                lemma_live_bytes_insert(
                    replay_recs(parse_log(new_seg@).recs).entries,
                    k,
                    (new_seg@.len(), loc.2 as nat),
                );
                assert(!replay_recs(parse_log(new_seg@).recs).entries.dom().contains(k));
            }
            let new_off = new_seg.len();
            let mut fr = frame;
            new_seg.append(&mut fr);
            new_index.insert(entry_list[i].0.clone(), (new_id, new_off as u64, loc.2));
            proof {
                let rec = (LogRec { op: m, off: new_off as nat, len: loc.2 as nat });
                assert(parse_log(new_seg@).recs == new_recs0.push(rec));
                assert(parse_log(new_seg@).recs.drop_last() =~= new_recs0);
                let st1 = replay_recs(parse_log(new_seg@).recs);
                let st0 = replay_recs(new_recs0);
                assert(st1.entries == st0.entries.insert(k, (new_off as nat, loc.2 as nat)));
                assert(st1.entries.dom() =~= index_view(new_index).dom());
                lemma_persistable_push(new_recs0, rec);
            }
            i = i + 1;
        }
        proof {
            let new_entries = replay_recs(parse_log(new_seg@).recs).entries;
            assert(new_entries.dom() =~= old_entries.dom());
            lemma_replay_index(parse_log(new_seg@).recs);
            lemma_replay_index(self.recs());
            assert(log_kv(parse_log(new_seg@).recs) =~= old_kv) by {
                assert forall|k: Seq<char>|
                    #![auto]
                    log_kv(parse_log(new_seg@).recs).dom().contains(k) implies log_kv(
                    parse_log(new_seg@).recs,
                )[k] == old_kv[k] by {
                    let j = choose|j: int| 0 <= j < entry_list@.len() && entry_list@[j].0@ == k;
                    assert(log_kv(parse_log(new_seg@).recs)[entry_list@[j].0@] == old_kv[
                        entry_list@[j].0@]);
                }
                assert(log_kv(parse_log(new_seg@).recs).dom() =~= old_kv.dom());
            }
            lemma_live_bytes_congruence(new_entries, old_entries);
        }
        self.file_len = new_seg.len() as u64;
        self.segment = new_seg;
        self.index = new_index;
        self.cur_file_id = new_id;
        self.reclaimable = 0;
    }
}

impl KvStore {
    /// Bind `key` to `value`: append a `Put` frame, supersede any prior
    /// record of the key, install the new locator, and compact when the
    /// threshold is crossed.  Fails, changing nothing, exactly when the
    /// frame would overflow the segment's length counter.
    pub fn set(&mut self, key: String, value: String) -> (r: Result<(), KvsError>)
        requires
            old(self).wf(),
        ensures
            final(self).wf(),
            final(self).threshold_spec() == old(self).threshold_spec(),
            r is Err <==> old(self).set_may_fail(key@, value@),
            r matches Err(e) ==> *final(self) == *old(self) && e.kind() == KvsErrorType::IOError,
            r is Ok ==> ({
                let frame = frame_bytes(OpModel::Put { key: key@, value: value@ });
                let grown = old(self).reclaim_count() + (if old(self).entries().dom().contains(
                    key@,
                ) {
                    old(self).entries()[key@].1
                } else {
                    0
                });
                &&& final(self).kv() == old(self).kv().insert(key@, value@)
                &&& (final(self).active_id() == old(self).active_id() ==> {
                    &&& final(self).seg() == old(self).seg() + frame
                    &&& final(self).entries() == old(self).entries().insert(
                        key@,
                        (old(self).seg().len(), frame.len()),
                    )
                    &&& final(self).reclaim_count() == grown
                })
                &&& (final(self).active_id() != old(self).active_id() ==> {
                    &&& final(self).active_id() == old(self).active_id() + 1
                    &&& final(self).reclaim_count() == 0
                    &&& final(self).seg().len() == final(self).live_size()
                    &&& grown > final(self).threshold_spec()
                })
                &&& (final(self).active_id() == u64::MAX || final(self).reclaim_count()
                    <= final(self).threshold_spec())
            }),
    {
        let op = Operation::set(&key, value);
        let frame = encode_op(&op);
        let flen = frame.len();
        if self.file_len > u64::MAX - (flen as u64) {
            return Err(KvsError::from(KvsErrorType::IOError));
        }
        match self.index.get(&key) {
            Some(loc) => {
                proof {
                    lemma_live_bytes_remove(self.entries(), key@);
                }
                self.reclaimable = self.reclaimable + loc.2;
            },
            None => {},
        }
        let off = self.file_len;
        let ghost old_seg = self.segment@;
        let ghost old_recs = self.recs();
        let mut fr = frame;
        self.segment.append(&mut fr);
        self.file_len = self.file_len + (flen as u64);
        proof {
            lemma_parse_log_at_snoc(old_seg, 0, op@);
            assert(self.segment@ == old_seg + frame_bytes(op@));
            let rec = (LogRec { op: op@, off: off as nat, len: flen as nat });
            assert(parse_log(self.segment@).recs == old_recs.push(rec));
            assert(parse_log(self.segment@).recs.drop_last() =~= old_recs);
            lemma_live_bytes_insert(
                replay_recs(old_recs).entries,
                key@,
                (off as nat, flen as nat),
            );
        }
        self.index.insert(key, (self.cur_file_id, off, flen as u64));
        proof {
            let st1 = replay_recs(parse_log(self.segment@).recs);
            assert(st1.entries == replay_recs(old_recs).entries.insert(
                key@,
                (off as nat, flen as nat),
            ));
            assert(st1.entries.dom() =~= index_view(self.index).dom());
            lemma_persistable_push(old_recs, LogRec { op: op@, off: off as nat, len: flen as nat });
            assert(self.kv() =~= old(self).kv().insert(key@, value@));
        }
        if self.reclaimable > self.threshold && self.cur_file_id < u64::MAX {
            self.compact();
        }
        Ok(())
    }

    /// Return the value bound to `key`: look the locator up and decode the
    /// `Put` frame it points at.  A lookup never fails.
    pub fn get(&self, key: String) -> (r: Result<Option<String>, KvsError>)
        requires
            self.wf(),
        ensures
            match r {
                Ok(v) => match v {
                    Some(val) => self.kv().dom().contains(key@) && val@ == self.kv()[key@],
                    None => !self.kv().dom().contains(key@),
                },
                Err(_) => false,
            },
    {
        match self.index.get(&key) {
            None => {
                proof {
                    lemma_replay_index(self.recs());
                }
                Ok(None)
            },
            Some(loc) => {
                proof {
                    lemma_replay_index(self.recs());
                    lemma_parse_log_at_anchor(self.seg(), 0);
                }
                let ghost m = (OpModel::Put { key: key@, value: self.kv()[key@] });
                let ghost ri = choose|ri: int|
                    0 <= ri < self.recs().len() && self.recs()[ri].op == m && self.recs()[ri].off
                        == self.entries()[key@].0 && self.recs()[ri].len
                        == self.entries()[key@].1;
                proof {
                    assert(parse_frame(self.seg().skip(loc.1 as int)) == (FrameParse::Parsed {
                        op: m,
                        len: loc.2 as nat,
                    }));
                }
                let seg_len = self.segment.len();
                let off_us = loc.1 as usize;
                match decode_op(&self.segment, off_us) {
                    DecodeOutcome::Decoded { op, next } => {
                        match op {
                            Operation::Put { key: _, value } => Ok(Some(value)),
                            _ => {
                                proof {
                                    assert(false);
                                }
                                Err(KvsError::from(KvsErrorType::SerdeError))
                            },
                        }
                    },
                    _ => {
                        proof {
                            assert(false);
                        }
                        Err(KvsError::from(KvsErrorType::SerdeError))
                    },
                }
            },
        }
    }

    /// Unbind `key`: append a `Remove` frame, delete the locator, count
    /// the superseded frame and the `Remove` frame as reclaimable, and
    /// compact when the threshold is crossed.  Removing an absent key
    /// fails with `KeyNotFound`; a failed removal changes nothing.
    pub fn remove(&mut self, key: String) -> (r: Result<(), KvsError>)
        requires
            old(self).wf(),
        ensures
            final(self).wf(),
            final(self).threshold_spec() == old(self).threshold_spec(),
            r is Ok <==> (old(self).kv().dom().contains(key@) && !old(self).remove_may_fail(
                key@,
            )),
            r matches Err(e) ==> {
                &&& *final(self) == *old(self)
                &&& (e.kind() == KvsErrorType::KeyNotFound <==> !old(self).kv().dom().contains(
                    key@,
                ))
                &&& (e.kind() == KvsErrorType::KeyNotFound || e.kind() == KvsErrorType::IOError)
            },
            r is Ok ==> ({
                let frame = frame_bytes(OpModel::Remove { key: key@ });
                let grown = old(self).reclaim_count() + old(self).entries()[key@].1
                    + frame.len();
                &&& final(self).kv() == old(self).kv().remove(key@)
                &&& (final(self).active_id() == old(self).active_id() ==> {
                    &&& final(self).seg() == old(self).seg() + frame
                    &&& final(self).entries() == old(self).entries().remove(key@)
                    &&& final(self).reclaim_count() == grown
                })
                &&& (final(self).active_id() != old(self).active_id() ==> {
                    &&& final(self).active_id() == old(self).active_id() + 1
                    &&& final(self).reclaim_count() == 0
                    &&& final(self).seg().len() == final(self).live_size()
                    &&& grown > final(self).threshold_spec()
                })
                &&& (final(self).active_id() == u64::MAX || final(self).reclaim_count()
                    <= final(self).threshold_spec())
            }),
    {
        let prior = self.index.get(&key);
        proof {
            lemma_replay_index(self.recs());
        }
        let loc = match prior {
            None => {
                return Err(KvsError::from(KvsErrorType::KeyNotFound));
            },
            Some(loc) => loc,
        };
        let op = Operation::remove(&key);
        let frame = encode_op(&op);
        let flen = frame.len();
        if self.file_len > u64::MAX - (flen as u64) {
            return Err(KvsError::from(KvsErrorType::IOError));
        }
        proof {
            lemma_live_bytes_remove(self.entries(), key@);
        }
        self.reclaimable = self.reclaimable + loc.2;
        let ghost old_seg = self.segment@;
        let ghost old_recs = self.recs();
        let mut fr = frame;
        self.segment.append(&mut fr);
        self.file_len = self.file_len + (flen as u64);
        self.reclaimable = self.reclaimable + (flen as u64);
        proof {
            lemma_parse_log_at_snoc(old_seg, 0, op@);
            assert(self.segment@ == old_seg + frame_bytes(op@));
            let rec = (LogRec { op: op@, off: old_seg.len() as nat, len: flen as nat });
            assert(parse_log(self.segment@).recs == old_recs.push(rec));
            assert(parse_log(self.segment@).recs.drop_last() =~= old_recs);
        }
        self.index.remove(&key);
        proof {
            let st1 = replay_recs(parse_log(self.segment@).recs);
            assert(st1.entries == replay_recs(old_recs).entries.remove(key@));
            assert(st1.entries.dom() =~= index_view(self.index).dom());
            lemma_persistable_push(
                old_recs,
                LogRec { op: op@, off: old_seg.len() as nat, len: flen as nat },
            );
            assert(self.kv() =~= old(self).kv().remove(key@));
        }
        if self.reclaimable > self.threshold && self.cur_file_id < u64::MAX {
            self.compact();
        }
        Ok(())
    }
}

impl KvsEngine for KvStore {
    closed spec fn kv(&self) -> Map<Seq<char>, Seq<char>> {
        log_kv(parse_log(self.segment@).recs)
    }

    open spec fn modeled(&self) -> bool {
        true
    }

    open spec fn inv(&self) -> bool {
        self.wf()
    }

    open spec fn set_may_fail(&self, key: Seq<char>, value: Seq<char>) -> bool {
        self.seg().len() + frame_bytes(OpModel::Put { key, value }).len() > u64::MAX
    }

    open spec fn remove_may_fail(&self, key: Seq<char>) -> bool {
        self.seg().len() + frame_bytes(OpModel::Remove { key }).len() > u64::MAX
    }

    open spec fn get_may_fail(&self) -> bool {
        false
    }

    open spec fn kind_name() -> Seq<char> {
        "kvs"@
    }

    fn set(&mut self, key: String, value: String) -> (r: Result<(), KvsError>) {
        KvStore::set(self, key, value)
    }

    fn get(&self, key: String) -> (r: Result<Option<String>, KvsError>) {
        KvStore::get(self, key)
    }

    fn remove(&mut self, key: String) -> (r: Result<(), KvsError>) {
        KvStore::remove(self, key)
    }

    fn get_type(&self) -> (r: String) {
        String::from_str("kvs")
    }
}

/// Reopen idempotence: a well-formed store's active segment replays to
/// the store's own mapping, reclaimable count and index, so [`KvStore::open`]
/// on the segment's bytes succeeds and rebuilds an equal store.
pub proof fn lemma_reopen(st: KvStore)
    requires
        st.wf(),
    ensures
        parse_log(st.seg()).status is Clean,
        persistable(parse_log(st.seg()).recs),
        log_kv(parse_log(st.seg()).recs) == st.kv(),
        replay_recs(parse_log(st.seg()).recs).reclaim == st.reclaim_count(),
        st.seg().take(parse_log(st.seg()).end as int) == st.seg(),
{
    assert(st.seg().take(parse_log(st.seg()).end as int) =~= st.seg());
}

} // verus!

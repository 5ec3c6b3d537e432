use vstd::prelude::*;

use crate::bytes::{append_bytes, bytes_eq, copy_range, find_bytes, lemma_find_bounds};
use crate::error::ExchangeError;
use crate::fields::FieldMap;
use crate::frame::{carry, delimiter, lemma_packets_append, packets};
use crate::record::{
    decode_packet, field_of, lemma_line_without_separator, lines, packet_body, parse_record,
};

verus! {

/// The field name `type`.
pub open spec fn type_field_name() -> Seq<u8> {
    seq![116u8, 121, 112, 101]
}

/// The field name `key`.
pub open spec fn key_name() -> Seq<u8> {
    seq![107u8, 101, 121]
}

/// The field name `value`.
pub open spec fn value_name() -> Seq<u8> {
    seq![118u8, 97, 108, 117, 101]
}

/// The record type `entry`.
pub open spec fn entry_type() -> Seq<u8> {
    seq![101u8, 110, 116, 114, 121]
}

/// The record type `ack`.
pub open spec fn ack_type() -> Seq<u8> {
    seq![97u8, 99, 107]
}

/// The record type `err`.
pub open spec fn err_type() -> Seq<u8> {
    seq![101u8, 114, 114]
}

/// Where the reading of one response stands.
pub enum Progress {
    /// Entries seen so far; no `ack` yet.
    Collecting(Map<Seq<u8>, Seq<u8>>),
    /// An `ack` arrived after these entries.
    Complete(Map<Seq<u8>, Seq<u8>>),
    /// The response failed.
    Failed(ExchangeError),
}

/// The effect of one record on the entries collected so far.
pub open spec fn record_step(m: Map<Seq<u8>, Seq<u8>>, r: Map<Seq<u8>, Seq<u8>>) -> Progress {
    if !r.contains_key(type_field_name()) {
        Progress::Failed(ExchangeError::MalformedResponse)
    } else if r[type_field_name()] == err_type() {
        Progress::Failed(ExchangeError::ServerError)
    } else if r[type_field_name()] == ack_type() {
        Progress::Complete(m)
    } else if r[type_field_name()] == entry_type() {
        if r.contains_key(key_name()) && r.contains_key(value_name()) {
            Progress::Collecting(m.insert(r[key_name()], r[value_name()]))
        } else {
            Progress::Failed(ExchangeError::MalformedResponse)
        }
    } else {
        Progress::Collecting(m)
    }
}

/// The effect of one packet: only a response still collecting reads it, and
/// an empty packet changes nothing.
pub open spec fn step(p: Progress, packet: Seq<u8>) -> Progress {
    match p {
        Progress::Collecting(m) => match decode_packet(packet) {
            None => p,
            Some(Err(e)) => Progress::Failed(e),
            Some(Ok(r)) => record_step(m, r),
        },
        _ => p,
    }
}

/// The effect of a sequence of packets, read in order.
pub open spec fn run(p: Progress, ps: Seq<Seq<u8>>) -> Progress
    decreases ps.len(),
{
    if ps.len() == 0 {
        p
    } else {
        step(run(p, ps.drop_last()), ps.last())
    }
}

/// Reading two sequences of packets one after the other is reading their
/// concatenation.
pub proof fn lemma_run_append(p: Progress, a: Seq<Seq<u8>>, b: Seq<Seq<u8>>)
    ensures
        run(p, a + b) == run(run(p, a), b),
    decreases b.len(),
{
    if b.len() == 0 {
        assert(a + b =~= a);
    } else {
        lemma_run_append(p, a, b.drop_last());
        assert((a + b).drop_last() =~= a + b.drop_last());
    }
}

/// What an exchange holds after receiving `chunk` in state `p` with the
/// partial packet `pending`: its progress and the new partial packet.
pub open spec fn feed(p: Progress, pending: Seq<u8>, chunk: Seq<u8>) -> (Progress, Seq<u8>) {
    (run(p, packets(pending + chunk)), carry(pending + chunk))
}

/// Receiving a byte stream in two reads leaves an exchange exactly as
/// receiving it in one read does: a packet split across reads is reassembled.
pub proof fn lemma_split_read(p: Progress, pending: Seq<u8>, a: Seq<u8>, b: Seq<u8>)
    ensures
        feed(feed(p, pending, a).0, feed(p, pending, a).1, b) == feed(p, pending, a + b),
{
    let s = pending + a;
    lemma_packets_append(s, b);
    assert(pending + (a + b) =~= s + b);
    lemma_run_append(p, packets(s), packets(carry(s) + b));
}

/// A complete or failed response no longer changes.
pub proof fn lemma_terminal_stays(p: Progress, ps: Seq<Seq<u8>>)
    requires
        !(p is Collecting),
    ensures
        run(p, ps) == p,
    decreases ps.len(),
{
    if ps.len() > 0 {
        lemma_terminal_stays(p, ps.drop_last());
    }
}

/// Once the first `i + 1` packets end the response, no later packet changes it.
pub proof fn lemma_ends_at(p: Progress, ps: Seq<Seq<u8>>, i: int)
    requires
        0 <= i < ps.len(),
        !(run(p, ps.take(i + 1)) is Collecting),
    ensures
        forall|j: int| i < j <= ps.len() ==> #[trigger] run(p, ps.take(j)) == run(p, ps.take(i + 1)),
{
    assert forall|j: int| i < j <= ps.len() implies #[trigger] run(p, ps.take(j)) == run(
        p,
        ps.take(i + 1),
    ) by {
        let rest = ps.subrange(i + 1, j);
        assert(ps.take(j) =~= ps.take(i + 1) + rest);
        lemma_run_append(p, ps.take(i + 1), rest);
        lemma_terminal_stays(run(p, ps.take(i + 1)), rest);
    }
}

/// A record of type `err` read while entries are being collected ends the
/// response with `ServerError` at once, dropping the entries, whatever follows.
pub proof fn lemma_error_record_fails(
    p: Progress,
    ps: Seq<Seq<u8>>,
    i: int,
    r: Map<Seq<u8>, Seq<u8>>,
)
    requires
        0 <= i < ps.len(),
        run(p, ps.take(i)) is Collecting,
        decode_packet(ps[i]) == Some(Ok::<Map<Seq<u8>, Seq<u8>>, ExchangeError>(r)),
        r.contains_key(type_field_name()),
        r[type_field_name()] == err_type(),
    ensures
        forall|j: int|
            i < j <= ps.len() ==> #[trigger] run(p, ps.take(j)) == Progress::Failed(
                ExchangeError::ServerError,
            ),
{
    assert(ps.take(i + 1).drop_last() =~= ps.take(i));
    lemma_ends_at(p, ps, i);
}

/// A packet with a non-empty line that has no separator, read while entries
/// are being collected, ends the response with `MalformedRecord`, whatever
/// follows.
pub proof fn lemma_malformed_line_fails(p: Progress, ps: Seq<Seq<u8>>, i: int, l: int)
    requires
        0 <= i < ps.len(),
        run(p, ps.take(i)) is Collecting,
        0 <= l < lines(packet_body(ps[i])).len(),
        lines(packet_body(ps[i]))[l].len() > 0,
        field_of(lines(packet_body(ps[i]))[l]) is None,
    ensures
        forall|j: int|
            i < j <= ps.len() ==> #[trigger] run(p, ps.take(j)) == Progress::Failed(
                ExchangeError::MalformedRecord,
            ),
{
    lemma_line_without_separator(ps[i], l);
    assert(ps.take(i + 1).drop_last() =~= ps.take(i));
    lemma_ends_at(p, ps, i);
}

/// An `entry` record: its type is `entry` and it has a key and a value.
pub open spec fn is_entry(r: Map<Seq<u8>, Seq<u8>>) -> bool {
    &&& r.contains_key(type_field_name())
    &&& r[type_field_name()] == entry_type()
    &&& r.contains_key(key_name())
    &&& r.contains_key(value_name())
}

/// An `ack` record.
pub open spec fn is_ack(r: Map<Seq<u8>, Seq<u8>>) -> bool {
    r.contains_key(type_field_name()) && r[type_field_name()] == ack_type()
}

/// The entries of a sequence of `entry` records, a later value of a key
/// replacing an earlier one.
pub open spec fn collect(recs: Seq<Map<Seq<u8>, Seq<u8>>>) -> Map<Seq<u8>, Seq<u8>>
    decreases recs.len(),
{
    if recs.len() == 0 {
        Map::empty()
    } else {
        collect(recs.drop_last()).insert(recs.last()[key_name()], recs.last()[value_name()])
    }
}

proof fn lemma_collect_size(recs: Seq<Map<Seq<u8>, Seq<u8>>>)
    ensures
        collect(recs).dom().finite(),
        collect(recs).dom().len() <= recs.len(),
        forall|k: Seq<u8>| #[trigger]
            collect(recs).contains_key(k) ==> exists|i: int|
                0 <= i < recs.len() && recs[i][key_name()] == k,
        (forall|i: int, j: int|
            0 <= i < j < recs.len() ==> recs[i][key_name()] != recs[j][key_name()])
            ==> collect(recs).dom().len() == recs.len(),
    decreases recs.len(),
{
    if recs.len() > 0 {
        let front = recs.drop_last();
        lemma_collect_size(front);
        assert forall|k: Seq<u8>| #[trigger] collect(recs).contains_key(k) implies exists|i: int|
            0 <= i < recs.len() && recs[i][key_name()] == k by {
            if k != recs.last()[key_name()] {
                let i = choose|i: int| 0 <= i < front.len() && front[i][key_name()] == k;
                assert(recs[i] == front[i]);
            } else {
                assert(recs[recs.len() - 1][key_name()] == k);
            }
        }
        if forall|i: int, j: int|
            0 <= i < j < recs.len() ==> recs[i][key_name()] != recs[j][key_name()] {
            assert forall|i: int, j: int|
                0 <= i < j < front.len() implies front[i][key_name()] != front[j][key_name()] by {
                assert(front[i] == recs[i] && front[j] == recs[j]);
            }
            if collect(front).contains_key(recs.last()[key_name()]) {
                let i = choose|i: int|
                    0 <= i < front.len() && front[i][key_name()] == recs.last()[key_name()];
                assert(front[i] == recs[i]);
            }
        }
    }
}

proof fn lemma_entries_collect(
    p: Progress,
    ps: Seq<Seq<u8>>,
    recs: Seq<Map<Seq<u8>, Seq<u8>>>,
    k: int,
)
    requires
        p == Progress::Collecting(Map::empty()),
        0 <= k <= recs.len() < ps.len(),
        forall|i: int|
            0 <= i < recs.len() ==> decode_packet(#[trigger] ps[i]) == Some(
                Ok::<Map<Seq<u8>, Seq<u8>>, ExchangeError>(recs[i]),
            ) && is_entry(recs[i]),
    ensures
        run(p, ps.take(k)) == Progress::Collecting(collect(recs.take(k))),
    decreases k,
{
    if k == 0 {
        assert(ps.take(0) =~= Seq::<Seq<u8>>::empty());
        assert(recs.take(0) =~= Seq::<Map<Seq<u8>, Seq<u8>>>::empty());
    } else {
        lemma_entries_collect(p, ps, recs, k - 1);
        assert(ps.take(k).drop_last() =~= ps.take(k - 1));
        assert(recs.take(k).drop_last() =~= recs.take(k - 1));
        assert(ps[k - 1] == ps.take(k).last());
        assert(recs[k - 1] == recs.take(k).last());
        assert(entry_type() != err_type()) by {
            assert(entry_type().len() != err_type().len());
        }
        assert(entry_type() != ack_type()) by {
            assert(entry_type().len() != ack_type().len());
        }
    }
}

/// A response of `entry` records followed by one `ack`: it is complete only
/// at the `ack`, and then holds the entries in order, a later value of a key
/// replacing an earlier one; so it has at most as many keys as entries, and
/// exactly as many when their keys are distinct.
pub proof fn lemma_entries_then_ack(
    ps: Seq<Seq<u8>>,
    recs: Seq<Map<Seq<u8>, Seq<u8>>>,
    ack: Map<Seq<u8>, Seq<u8>>,
)
    requires
        ps.len() == recs.len() + 1,
        forall|i: int|
            0 <= i < recs.len() ==> decode_packet(#[trigger] ps[i]) == Some(
                Ok::<Map<Seq<u8>, Seq<u8>>, ExchangeError>(recs[i]),
            ) && is_entry(recs[i]),
        decode_packet(ps.last()) == Some(Ok::<Map<Seq<u8>, Seq<u8>>, ExchangeError>(ack)),
        is_ack(ack),
    ensures
        forall|k: int|
            0 <= k <= recs.len() ==> #[trigger] run(
                Progress::Collecting(Map::empty()),
                ps.take(k),
            ) == Progress::Collecting(collect(recs.take(k))),
        run(Progress::Collecting(Map::empty()), ps) == Progress::Complete(collect(recs)),
        collect(recs).dom().len() <= recs.len(),
        (forall|i: int, j: int|
            0 <= i < j < recs.len() ==> recs[i][key_name()] != recs[j][key_name()])
            ==> collect(recs).dom().len() == recs.len(),
{
    let p = Progress::Collecting(Map::empty());
    assert forall|k: int| 0 <= k <= recs.len() implies #[trigger] run(p, ps.take(k))
        == Progress::Collecting(collect(recs.take(k))) by {
        lemma_entries_collect(p, ps, recs, k);
    }
    let n = recs.len() as int;
    assert(ps.take(n + 1) =~= ps);
    assert(ps.drop_last() =~= ps.take(n));
    assert(recs.take(n) =~= recs);
    assert(ack_type() != err_type()) by {
        assert(ack_type()[0] != err_type()[0]);
    }
    assert(run(p, ps.take(n)) == Progress::Collecting(collect(recs.take(n))));
    assert(record_step(collect(recs), ack) == Progress::Complete(collect(recs)));
    assert(run(p, ps) == step(run(p, ps.drop_last()), ps.last()));
    lemma_collect_size(recs);
}

/// The state of one exchange: the bytes of a partial packet, the entries
/// collected, and whether the response is complete or failed.
pub struct Exchange {
    buffer: Vec<u8>,
    entries: FieldMap,
    status: Status,
}

enum Status {
    Collecting,
    Complete,
    Failed(ExchangeError),
}

impl Exchange {
    pub closed spec fn wf(&self) -> bool {
        self.entries.wf()
    }

    /// Where the response stands.
    pub closed spec fn progress(&self) -> Progress {
        match self.status {
            Status::Collecting => Progress::Collecting(self.entries@),
            Status::Complete => Progress::Complete(self.entries@),
            Status::Failed(e) => Progress::Failed(e),
        }
    }

    /// The bytes received after the last complete packet.
    pub closed spec fn pending(&self) -> Seq<u8> {
        self.buffer@
    }

    /// An exchange that has received nothing yet.
    pub fn new() -> (r: Exchange)
        ensures
            r.wf(),
            r.progress() == Progress::Collecting(Map::empty()),
            r.pending() == Seq::<u8>::empty(),
    {
        Exchange { buffer: Vec::new(), entries: FieldMap::new(), status: Status::Collecting }
    }

    /// Reads one complete packet.
    fn consume(&mut self, packet: &[u8])
        requires
            old(self).wf(),
        ensures
            final(self).wf(),
            final(self).pending() == old(self).pending(),
            final(self).progress() == step(old(self).progress(), packet@),
    {
        if !matches!(self.status, Status::Collecting) {
            return;
        }
        let rec = match parse_record(packet) {
            None => {
                return;
            },
            Some(Err(e)) => {
                self.status = Status::Failed(e);
                return;
            },
            Some(Ok(rec)) => rec,
        };
        let type_field: Vec<u8> = vec![116u8, 121, 112, 101];
        let err_word: Vec<u8> = vec![101u8, 114, 114];
        let ack_word: Vec<u8> = vec![97u8, 99, 107];
        let entry_word: Vec<u8> = vec![101u8, 110, 116, 114, 121];
        assert(type_field@ == type_field_name());
        assert(err_word@ == err_type());
        assert(ack_word@ == ack_type());
        assert(entry_word@ == entry_type());
        let t = match rec.get(type_field.as_slice()) {
            None => {
                self.status = Status::Failed(ExchangeError::MalformedResponse);
                return;
            },
            Some(t) => t,
        };
        if bytes_eq(t.as_slice(), err_word.as_slice()) {
            self.status = Status::Failed(ExchangeError::ServerError);
        } else if bytes_eq(t.as_slice(), ack_word.as_slice()) {
            self.status = Status::Complete;
        } else if bytes_eq(t.as_slice(), entry_word.as_slice()) {
            let key_field: Vec<u8> = vec![107u8, 101, 121];
            let value_field: Vec<u8> = vec![118u8, 97, 108, 117, 101];
            assert(key_field@ == key_name());
            assert(value_field@ == value_name());
            match (rec.get(key_field.as_slice()), rec.get(value_field.as_slice())) {
                (Some(k), Some(v)) => {
                    let key = copy_range(k.as_slice(), 0, k.len());
                    let value = copy_range(v.as_slice(), 0, v.len());
                    assert(key@ =~= k@);
                    assert(value@ =~= v@);
                    self.entries.insert(key, value);
                },
                _ => {
                    self.status = Status::Failed(ExchangeError::MalformedResponse);
                },
            }
        }
    }

    /// Takes in bytes read from the server: every packet that they complete
    /// is read in order, and what follows the last delimiter is kept.
    pub fn receive(&mut self, chunk: &[u8])
        requires
            old(self).wf(),
        ensures
            final(self).wf(),
            (final(self).progress(), final(self).pending()) == feed(
                old(self).progress(),
                old(self).pending(),
                chunk@,
            ),
    {
        let ghost p0 = self.progress();
        let ghost s0 = self.buffer@ + chunk@;
        append_bytes(&mut self.buffer, chunk);
        let delim: Vec<u8> = vec![45u8, 45, 45, 45, 45, 45, 45, 45, 45, 45, 10];
        loop
            invariant
                self.wf(),
                delim@ == delimiter(),
                run(p0, packets(s0)) == run(self.progress(), packets(self.buffer@)),
                carry(s0) == carry(self.buffer@),
            ensures
                packets(self.buffer@) =~= Seq::<Seq<u8>>::empty(),
            decreases self.buffer@.len(),
        {
            proof {
                lemma_find_bounds(self.buffer@, delim@);
            }
            match find_bytes(self.buffer.as_slice(), delim.as_slice()) {
                None => {
                    break;
                },
                Some(i) => {
                    let n = self.buffer.len();
                    let packet = copy_range(self.buffer.as_slice(), 0, i);
                    let rest = copy_range(self.buffer.as_slice(), i + 11, n);
                    let ghost before = self.progress();
                    let ghost buf = self.buffer@;
                    self.buffer = rest;
                    self.consume(packet.as_slice());
                    proof {
                        assert(packets(buf) =~= seq![packet@] + packets(rest@));
                        lemma_run_append(before, seq![packet@], packets(rest@));
                        assert(seq![packet@].drop_last() =~= Seq::<Seq<u8>>::empty());
                        assert(run(before, seq![packet@]) == step(run(before, Seq::<Seq<u8>>::empty()), packet@));
                    }
                },
            }
        }
    }

    /// Ends the stream: the bytes after the last delimiter are read as a final
    /// packet.
    pub fn finish(&mut self)
        requires
            old(self).wf(),
        ensures
            final(self).wf(),
            final(self).progress() == step(old(self).progress(), old(self).pending()),
            final(self).pending() == Seq::<u8>::empty(),
    {
        let last = copy_range(self.buffer.as_slice(), 0, self.buffer.len());
        assert(last@ =~= self.buffer@);
        self.buffer = Vec::new();
        self.consume(last.as_slice());
    }

    /// The outcome of the exchange: `None` while the response is still being
    /// collected, else the entries of a complete response or its error.
    pub fn outcome(&self) -> (r: Option<Result<&FieldMap, ExchangeError>>)
        requires
            self.wf(),
        ensures
            match self.progress() {
                Progress::Collecting(_) => r is None,
                Progress::Complete(m) => r matches Some(Ok(f)) && f.wf() && f@ == m,
                Progress::Failed(e) => r == Some(Err::<&FieldMap, ExchangeError>(e)),
            },
    {
        match self.status {
            Status::Collecting => None,
            Status::Complete => Some(Ok(&self.entries)),
            Status::Failed(e) => Some(Err(e)),
        }
    }
}

} // verus!

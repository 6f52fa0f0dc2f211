//! The journal: an append-only binary log of input events, prefixed with
//! the book config. A journal IS a market session: replay it anywhere
//! and the engine reproduces every output and the exact final state hash.
//! ("Production bug? Ship me the log.")

use crate::book::OrderBook;
use crate::buffer::EventBuffer;
use crate::bytes::{get_le, law_le_round_trip, le, lemma_le_len, lemma_pow256, put_le};
use crate::codec::{
    decode_input, decoded_input, encode_input, encode_output, input_record, law_input_round_trip,
    number, output_record, INPUT_RECORD, OUTPUT_RECORD,
};
use crate::config::BookConfig;
use crate::events::{InputEvent, OutputEvent};
use crate::hash::{book_hash, fnv, law_fnv_concat, Fnv1a, FNV_OFFSET};
use crate::laws::{
    law_buffer_suffices, law_empty_valid, law_run_valid, law_session_output_bound, run,
};
use crate::model::{step, BookModel};
use vstd::prelude::*;

verus! {

/// The size of a journal header.
pub const HEADER: usize = 32;

/// The first eight bytes of every journal: `TSRAJRN1`.
pub open spec fn magic() -> Seq<u8> {
    seq![84u8, 83, 82, 65, 74, 82, 78, 49]
}

/// The header of a journal.
pub open spec fn header_bytes(cfg: BookConfig) -> Seq<u8> {
    magic() + le((cfg.min_price as u64) as nat, 8) + le((cfg.tick_size as u64) as nat, 8) + le(
        cfg.num_levels as nat,
        4,
    ) + le(cfg.max_live_orders as nat, 4)
}

/// The records of a list of events.
pub open spec fn records(evs: Seq<InputEvent>) -> Seq<u8>
    decreases evs.len(),
{
    if evs.len() == 0 {
        Seq::empty()
    } else {
        records(evs.drop_last()) + input_record(evs.last())
    }
}

/// The bytes of a journal.
pub open spec fn journal_bytes(cfg: BookConfig, evs: Seq<InputEvent>) -> Seq<u8> {
    header_bytes(cfg) + records(evs)
}

/// What a header says, or what is wrong with it.
pub open spec fn decoded_header(b: Seq<u8>) -> Result<BookConfig, Seq<char>> {
    let cfg = BookConfig {
        min_price: (number(b, 8, 8) as u64) as i64,
        tick_size: (number(b, 16, 8) as u64) as i64,
        num_levels: number(b, 24, 4) as u32,
        max_live_orders: number(b, 28, 4) as u32,
    };
    if b.len() < HEADER {
        Err("truncated journal header"@)
    } else if b.subrange(0, 8) != magic() {
        Err("not a tessera journal"@)
    } else if cfg.tick_size < 1 || cfg.num_levels == 0 {
        Err("corrupt journal header"@)
    } else {
        Ok(cfg)
    }
}

/// The events in the bytes behind a header, or what is wrong with the first
/// record that cannot be read.
pub open spec fn parsed(b: Seq<u8>) -> Result<Seq<InputEvent>, Seq<char>>
    decreases b.len(),
{
    if b.len() == 0 {
        Ok(Seq::empty())
    } else if b.len() < INPUT_RECORD {
        Err("truncated journal record"@)
    } else {
        match decoded_input(b.take(INPUT_RECORD as int)) {
            Err(e) => Err(e),
            Ok(ev) => match parsed(b.skip(INPUT_RECORD as int)) {
                Err(e) => Err(e),
                Ok(rest) => Ok(seq![ev] + rest),
            },
        }
    }
}

/// Write a journal header.
pub fn encode_header(cfg: &BookConfig, out: &mut [u8; HEADER])
    ensures
        final(out)@ == header_bytes(*cfg),
{
    broadcast use lemma_le_len;

    out[0] = 84;
    out[1] = 83;
    out[2] = 82;
    out[3] = 65;
    out[4] = 74;
    out[5] = 82;
    out[6] = 78;
    out[7] = 49;
    put_le(out, 8, 8, cfg.min_price as u64);
    let ghost a = out@;
    put_le(out, 16, 8, cfg.tick_size as u64);
    let ghost b = out@;
    put_le(out, 24, 4, cfg.num_levels as u64);
    let ghost c = out@;
    put_le(out, 28, 4, cfg.max_live_orders as u64);
    proof {
        assert(out@.subrange(0, 8) =~= magic());
        assert(out@.subrange(8, 16) =~= a.subrange(8, 16));
        assert(out@.subrange(16, 24) =~= b.subrange(16, 24));
        assert(out@.subrange(24, 28) =~= c.subrange(24, 28));
        assert(out@ =~= out@.subrange(0, 8) + out@.subrange(8, 16) + out@.subrange(16, 24)
            + out@.subrange(24, 28) + out@.subrange(28, 32));
    }
}

/// Read the header at the start of a journal.
pub fn decode_header(b: &[u8]) -> (r: Result<BookConfig, &'static str>)
    ensures
        match r {
            Ok(cfg) => decoded_header(b@) == Ok::<_, Seq<char>>(cfg),
            Err(e) => decoded_header(b@) == Err::<BookConfig, _>(e@),
        },
{
    if b.len() < HEADER {
        return Err("truncated journal header");
    }
    let ours = b[0] == 84 && b[1] == 83 && b[2] == 82 && b[3] == 65 && b[4] == 74 && b[5] == 82
        && b[6] == 78 && b[7] == 49;
    proof {
        lemma_pow256();
        let m = b@.subrange(0, 8);
        if ours {
            assert(m =~= magic());
        } else {
            assert(m[0] == b@[0] && m[1] == b@[1] && m[2] == b@[2] && m[3] == b@[3] && m[4]
                == b@[4] && m[5] == b@[5] && m[6] == b@[6] && m[7] == b@[7]);
            assert(m != magic());
        }
    }
    if !ours {
        return Err("not a tessera journal");
    }
    let cfg = BookConfig {
        min_price: get_le(b, 8, 8) as i64,
        tick_size: get_le(b, 16, 8) as i64,
        num_levels: get_le(b, 24, 4) as u32,
        max_live_orders: get_le(b, 28, 4) as u32,
    };
    if cfg.tick_size < 1 || cfg.num_levels == 0 {
        return Err("corrupt journal header");
    }
    Ok(cfg)
}

/// A journal being written.
pub struct JournalWriter {
    bytes: Vec<u8>,
    events: u64,
    cfg: Ghost<BookConfig>,
    log: Ghost<Seq<InputEvent>>,
}

impl JournalWriter {
    /// The configuration of the book.
    pub closed spec fn config(&self) -> BookConfig {
        self.cfg@
    }

    /// The events appended so far.
    pub closed spec fn log(&self) -> Seq<InputEvent> {
        self.log@
    }

    /// The bytes are those of the journal, and its events are counted.
    pub closed spec fn wf(&self) -> bool {
        &&& self.bytes@ == journal_bytes(self.cfg@, self.log@)
        &&& self.events == self.log@.len()
    }

    /// Start a journal for a book.
    pub fn create(cfg: &BookConfig) -> (w: Self)
        ensures
            w.wf(),
            w.config() == *cfg,
            w.log() == Seq::<InputEvent>::empty(),
    {
        let mut header = [0u8; HEADER];
        encode_header(cfg, &mut header);
        let mut bytes: Vec<u8> = Vec::new();
        append_array(&mut bytes, &header);
        proof {
            assert(Seq::<u8>::empty() + header_bytes(*cfg) =~= header_bytes(*cfg));
            assert(header_bytes(*cfg) + records(Seq::empty()) =~= header_bytes(*cfg));
        }
        JournalWriter { bytes, events: 0, cfg: Ghost(*cfg), log: Ghost(Seq::empty()) }
    }

    /// Append one event.
    pub fn append(&mut self, ev: &InputEvent)
        requires
            old(self).wf(),
        ensures
            final(self).wf(),
            final(self).config() == old(self).config(),
            final(self).log() == old(self).log().push(*ev),
    {
        let ghost before = self.log@;
        let mut rec = [0u8; INPUT_RECORD];
        encode_input(ev, &mut rec);
        append_array(&mut self.bytes, &rec);
        let len = self.bytes.len();
        proof {
            self.log@ = before.push(*ev);
            assert(self.log@.drop_last() =~= before);
            assert(self.bytes@ =~= journal_bytes(self.cfg@, self.log@));
            lemma_records_len(self.log@);
            assert(len >= INPUT_RECORD * self.log@.len());
        }
        self.events += 1;
    }

    /// Hand the journal out, with the number of its events.
    pub fn finish(self) -> (r: (Vec<u8>, u64))
        requires
            self.wf(),
        ensures
            r.0@ == journal_bytes(self.config(), self.log()),
            r.1 == self.log().len(),
    {
        (self.bytes, self.events)
    }
}

/// Append the bytes of an array.
fn append_array<const N: usize>(v: &mut Vec<u8>, a: &[u8; N])
    ensures
        final(v)@ == old(v)@ + a@,
{
    let ghost before = v@;
    let mut i: usize = 0;
    while i < N
        invariant
            i <= N,
            v@ == before + a@.take(i as int),
        decreases N - i,
    {
        v.push(a[i]);
        i += 1;
        proof {
            assert(v@ =~= before + a@.take(i as int));
        }
    }
    proof {
        assert(a@.take(N as int) =~= a@);
    }
}

/// A journal being read.
pub struct JournalReader {
    bytes: Vec<u8>,
    pos: usize,
    pub cfg: BookConfig,
}

impl JournalReader {
    /// The bytes that are still to be read.
    pub closed spec fn rest(&self) -> Seq<u8> {
        self.bytes@.skip(self.pos as int)
    }

    /// The configuration in the header.
    pub closed spec fn config(&self) -> BookConfig {
        self.cfg
    }

    /// The reader stands inside its bytes.
    pub closed spec fn wf(&self) -> bool {
        self.pos <= self.bytes@.len()
    }

    /// Open a journal: read and check its header.
    pub fn open(bytes: Vec<u8>) -> (r: Result<Self, &'static str>)
        ensures
            match r {
                Ok(j) => {
                    &&& j.wf()
                    &&& decoded_header(bytes@) == Ok::<_, Seq<char>>(j.config())
                    &&& j.rest() == bytes@.skip(HEADER as int)
                },
                Err(e) => decoded_header(bytes@) == Err::<BookConfig, _>(e@),
            },
    {
        match decode_header(bytes.as_slice()) {
            Ok(cfg) => Ok(JournalReader { bytes, pos: HEADER, cfg }),
            Err(e) => Err(e),
        }
    }

    /// Next event, `Ok(None)` at clean end, error on truncation/corruption.
    pub fn next_event(&mut self) -> (r: Result<Option<InputEvent>, &'static str>)
        requires
            old(self).wf(),
        ensures
            final(self).wf(),
            final(self).config() == old(self).config(),
            ({
                let b = old(self).rest();
                if b.len() == 0 {
                    r == Ok::<Option<InputEvent>, &'static str>(None) && final(self).rest() == b
                } else if b.len() < INPUT_RECORD {
                    r is Err && r->Err_0@ == "truncated journal record"@ && final(self).rest() == b
                } else {
                    &&& final(self).rest() == b.skip(INPUT_RECORD as int)
                    &&& match decoded_input(b.take(INPUT_RECORD as int)) {
                        Ok(ev) => r == Ok::<Option<InputEvent>, &'static str>(Some(ev)),
                        Err(e) => r is Err && r->Err_0@ == e,
                    }
                }
            }),
    {
        let ghost b = self.rest();
        let len = self.bytes.len();
        let left = len - self.pos;
        if left == 0 {
            return Ok(None);
        }
        if left < INPUT_RECORD {
            return Err("truncated journal record");
        }
        let mut rec = [0u8; INPUT_RECORD];
        let mut i: usize = 0;
        while i < INPUT_RECORD
            invariant
                self.pos + INPUT_RECORD <= len == self.bytes@.len(),
                i <= INPUT_RECORD,
                forall|k: int| 0 <= k < i ==> rec@[k] == #[trigger] self.bytes@[self.pos + k],
            decreases INPUT_RECORD - i,
        {
            rec[i] = self.bytes[self.pos + i];
            i += 1;
        }
        proof {
            assert forall|k: int| 0 <= k < INPUT_RECORD implies rec@[k] == #[trigger] b[k] by {
                assert(b[k] == self.bytes@[self.pos + k]);
            }
            assert(rec@ =~= b.take(INPUT_RECORD as int));
            assert(self.bytes@.skip(self.pos + INPUT_RECORD) =~= b.skip(INPUT_RECORD as int));
        }
        self.pos += INPUT_RECORD;
        match decode_input(&rec) {
            Ok(ev) => Ok(Some(ev)),
            Err(e) => Err(e.0),
        }
    }
}

/// Result of replaying a journal through a fresh engine.
pub struct ReplayResult {
    pub events: u64,
    pub outputs: u64,
    /// FNV fingerprint of the full output stream.
    pub output_hash: u64,
    /// Canonical semantic hash of the final book.
    pub state_hash: u64,
}

impl ReplayResult {
    /// Whether two replays gave the same outputs and the same final book, as
    /// far as the fingerprints tell.
    pub fn same_fingerprint(&self, other: &ReplayResult) -> (r: bool)
        ensures
            r == (self.output_hash == other.output_hash && self.state_hash == other.state_hash),
    {
        self.output_hash == other.output_hash && self.state_hash == other.state_hash
    }
}

/// The records of a list of output events.
pub open spec fn output_records(evs: Seq<OutputEvent>) -> Seq<u8>
    decreases evs.len(),
{
    if evs.len() == 0 {
        Seq::empty()
    } else {
        output_records(evs.drop_last()) + output_record(evs.last())
    }
}

/// The fingerprint of an output stream.
pub open spec fn output_fingerprint(evs: Seq<OutputEvent>) -> u64 {
    fnv(FNV_OFFSET, output_records(evs))
}

/// What replaying the events of a session through a fresh engine gives.
pub open spec fn replay_of(cfg: BookConfig, evs: Seq<InputEvent>) -> ReplayResult {
    let end = run(BookModel::empty(cfg), evs);
    ReplayResult {
        events: evs.len() as u64,
        outputs: end.events.len() as u64,
        output_hash: output_fingerprint(end.events),
        state_hash: book_hash(end.book),
    }
}

/// What replaying the bytes of a journal gives.
pub open spec fn replayed(b: Seq<u8>) -> Result<ReplayResult, Seq<char>> {
    match decoded_header(b) {
        Err(e) => Err(e),
        Ok(cfg) => match parsed(b.skip(HEADER as int)) {
            Err(e) => Err(e),
            Ok(evs) => Ok(replay_of(cfg, evs)),
        },
    }
}

/// Feed a list of output events to a fingerprint.
pub fn feed_outputs(h: &mut Fnv1a, evs: &[OutputEvent])
    ensures
        final(h).state() == fnv(old(h).state(), output_records(evs@)),
{
    let ghost start = h.state();
    let mut rec = [0u8; OUTPUT_RECORD];
    let mut i: usize = 0;
    proof {
        assert(output_records(evs@.take(0)) =~= Seq::empty());
    }
    while i < evs.len()
        invariant
            i <= evs@.len(),
            h.state() == fnv(start, output_records(evs@.take(i as int))),
        decreases evs@.len() - i,
    {
        proof {
            assert(evs@.take(i + 1).drop_last() =~= evs@.take(i as int));
            law_fnv_concat(
                start,
                output_records(evs@.take(i as int)),
                output_record(evs@[i as int]),
            );
        }
        encode_output(&evs[i], &mut rec);
        h.write_bytes(rec.as_slice());
        i += 1;
    }
    proof {
        assert(evs@.take(i as int) =~= evs@);
    }
}

/// The records of two lists, one behind the other.
pub proof fn lemma_output_records_concat(a: Seq<OutputEvent>, b: Seq<OutputEvent>)
    ensures
        output_records(a + b) == output_records(a) + output_records(b),
    decreases b.len(),
{
    if b.len() == 0 {
        assert(a + b =~= a);
        assert(output_records(a) + output_records(b) =~= output_records(a));
    } else {
        assert((a + b).drop_last() =~= a + b.drop_last());
        lemma_output_records_concat(a, b.drop_last());
        assert(output_records(a + b) =~= output_records(a) + output_records(b));
    }
}

/// Replay a journal through a fresh engine.
pub fn replay(bytes: Vec<u8>) -> (r: Result<ReplayResult, &'static str>)
    requires
        decoded_header(bytes@) matches Ok(cfg) ==> cfg.wf(),
    ensures
        match r {
            Ok(x) => replayed(bytes@) == Ok::<_, Seq<char>>(x),
            Err(e) => replayed(bytes@) == Err::<ReplayResult, _>(e@),
        },
{
    let ghost all = bytes@;
    let len = bytes.len();
    let mut j = match JournalReader::open(bytes) {
        Ok(j) => j,
        Err(e) => return Err(e),
    };
    let cfg = j.cfg;
    let ghost body = j.rest();
    let mut book = OrderBook::new(cfg);
    let mut buf = EventBuffer::for_book(&cfg);
    let mut out_hash = Fnv1a::new();
    let mut events: u64 = 0;
    let mut outputs: u64 = 0;
    let ghost start = BookModel::empty(cfg);
    let ghost mut evs: Seq<InputEvent> = Seq::empty();
    proof {
        law_empty_valid(cfg);
        assert(output_records(run(start, evs).events) =~= Seq::empty());
        match parsed(body) {
            Ok(p) => assert(evs + p =~= p),
            Err(_) => {},
        }
    }
    loop
        invariant
            j.wf(),
            j.cfg == cfg,
            cfg.wf(),
            start == BookModel::empty(cfg),
            start.wf(),
            start.live() == 0,
            decoded_header(all) == Ok::<_, Seq<char>>(cfg),
            body == all.skip(HEADER as int),
            all == bytes@,
            all.len() == len,
            all.len() >= HEADER,
            book.wf(),
            buf.wf(),
            buf.limit() == cfg.max_live_orders + 8,
            book@ == run(start, evs).book,
            out_hash.state() == output_fingerprint(run(start, evs).events),
            events == evs.len(),
            outputs == run(start, evs).events.len(),
            INPUT_RECORD * evs.len() + j.rest().len() == body.len(),
            parsed(body) == (match parsed(j.rest()) {
                Ok(p) => Ok::<_, Seq<char>>(evs + p),
                Err(e) => Err(e),
            }),
        decreases j.rest().len(),
    {
        let ghost before = j.rest();
        match j.next_event() {
            Err(e) => {
                return Err(e);
            },
            Ok(None) => {
                proof {
                    assert(evs + Seq::<InputEvent>::empty() =~= evs);
                }
                return Ok(
                    ReplayResult {
                        events,
                        outputs,
                        output_hash: out_hash.finish(),
                        state_hash: book.state_hash(),
                    },
                );
            },
            Ok(Some(ev)) => {
                let ghost old_run = run(start, evs);
                let ghost next = evs.push(ev);
                proof {
                    assert(next.drop_last() =~= evs);
                    law_session_output_bound(start, next);
                    law_run_valid(start, evs);
                    law_buffer_suffices(old_run.book, ev, buf.limit());
                    lemma_output_records_concat(
                        old_run.events,
                        step(old_run.book, ev).events,
                    );
                    law_fnv_concat(
                        FNV_OFFSET,
                        output_records(old_run.events),
                        output_records(step(old_run.book, ev).events),
                    );
                    match parsed(j.rest()) {
                        Ok(p) => assert(next + p =~= evs + (seq![ev] + p)),
                        Err(_) => {},
                    }
                }
                buf.clear();
                book.apply(ev, &mut buf);
                events += 1;
                outputs += buf.len() as u64;
                feed_outputs(&mut out_hash, buf.as_slice());
                proof {
                    evs = next;
                }
            },
        }
    }
}

/// A header can be read back.
pub proof fn law_header_round_trip(cfg: BookConfig, rest: Seq<u8>)
    requires
        cfg.tick_size >= 1,
        cfg.num_levels > 0,
    ensures
        header_bytes(cfg).len() == HEADER,
        decoded_header(header_bytes(cfg) + rest) == Ok::<_, Seq<char>>(cfg),
        (header_bytes(cfg) + rest).skip(HEADER as int) == rest,
{
    broadcast use lemma_le_len;

    lemma_pow256();
    let h = header_bytes(cfg);
    let b = h + rest;
    assert(b.subrange(0, 8) =~= magic());
    assert(b.subrange(8, 16) =~= le((cfg.min_price as u64) as nat, 8));
    assert(b.subrange(16, 24) =~= le((cfg.tick_size as u64) as nat, 8));
    assert(b.subrange(24, 28) =~= le(cfg.num_levels as nat, 4));
    assert(b.subrange(28, 32) =~= le(cfg.max_live_orders as nat, 4));
    law_le_round_trip((cfg.min_price as u64) as nat, 8);
    law_le_round_trip((cfg.tick_size as u64) as nat, 8);
    law_le_round_trip(cfg.num_levels as nat, 4);
    law_le_round_trip(cfg.max_live_orders as nat, 4);
    crate::codec::lemma_price_bits(cfg.min_price);
    crate::codec::lemma_price_bits(cfg.tick_size);
    assert(b.skip(HEADER as int) =~= rest);
}

/// Records can be read back, whatever stood before them.
proof fn lemma_parsed_records(evs: Seq<InputEvent>)
    ensures
        parsed(records(evs)) == Ok::<_, Seq<char>>(evs),
    decreases evs.len(),
{
    if evs.len() > 0 {
        let n = INPUT_RECORD as int;
        let t = evs.skip(1);
        lemma_records_front(evs);
        lemma_parsed_records(t);
        law_input_round_trip(evs[0]);
        let b = records(evs);
        assert(b.take(n) =~= input_record(evs[0]));
        assert(b.skip(n) =~= records(t));
        assert(seq![evs[0]] + t =~= evs);
    } else {
        assert(evs =~= Seq::empty());
    }
}

/// The first record of a list.
pub(crate) proof fn lemma_records_front(evs: Seq<InputEvent>)
    requires
        evs.len() > 0,
    ensures
        records(evs) == input_record(evs[0]) + records(evs.skip(1)),
    decreases evs.len(),
{
    let t = evs.skip(1);
    if evs.len() == 1 {
        assert(records(evs.drop_last()) =~= Seq::empty());
        assert(records(t) =~= Seq::empty());
        assert(records(evs) =~= input_record(evs[0]) + records(t));
    } else {
        lemma_records_front(evs.drop_last());
        assert(evs.drop_last().skip(1) =~= t.drop_last());
        assert(t.last() == evs.last());
        assert(records(evs) =~= input_record(evs[0]) + records(t));
    }
}

/// A journal IS a session: its bytes give back the configuration and every
/// event, and replaying it gives the outputs and the final state hash of the
/// live run.
pub proof fn law_journal_round_trip(cfg: BookConfig, evs: Seq<InputEvent>)
    requires
        cfg.tick_size >= 1,
        cfg.num_levels > 0,
    ensures
        decoded_header(journal_bytes(cfg, evs)) == Ok::<_, Seq<char>>(cfg),
        parsed(journal_bytes(cfg, evs).skip(HEADER as int)) == Ok::<_, Seq<char>>(evs),
        replayed(journal_bytes(cfg, evs)) == Ok::<_, Seq<char>>(replay_of(cfg, evs)),
{
    law_header_round_trip(cfg, records(evs));
    lemma_parsed_records(evs);
}

/// Event number `n` of a journal lives at a computable offset.
pub proof fn law_journal_is_seekable(cfg: BookConfig, evs: Seq<InputEvent>, n: int)
    requires
        0 <= n < evs.len(),
    ensures
        ({
            let at = HEADER + n * INPUT_RECORD;
            &&& journal_bytes(cfg, evs).len() == HEADER + evs.len() * INPUT_RECORD
            &&& journal_bytes(cfg, evs).subrange(at, at + INPUT_RECORD) == input_record(evs[n])
        }),
    decreases evs.len(),
{
    broadcast use lemma_le_len;

    let d = evs.drop_last();
    law_input_round_trip(evs.last());
    lemma_records_len(d);
    lemma_records_len(evs);
    let at = HEADER + n * INPUT_RECORD;
    if n < evs.len() - 1 {
        law_journal_is_seekable(cfg, d, n);
        assert(journal_bytes(cfg, evs) =~= journal_bytes(cfg, d) + input_record(evs.last()));
        assert(journal_bytes(cfg, evs).subrange(at, at + INPUT_RECORD) =~= journal_bytes(
            cfg,
            d,
        ).subrange(at, at + INPUT_RECORD));
        assert(d[n] == evs[n]);
    } else {
        assert(journal_bytes(cfg, evs).subrange(at, at + INPUT_RECORD) =~= input_record(evs[n]));
    }
}

proof fn lemma_records_len(evs: Seq<InputEvent>)
    ensures
        records(evs).len() == evs.len() * INPUT_RECORD,
    decreases evs.len(),
{
    if evs.len() > 0 {
        lemma_records_len(evs.drop_last());
        law_input_round_trip(evs.last());
    }
}

} // verus!

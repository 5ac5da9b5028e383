//! Output of the recorded program: reading it whole, watching it, and turning it into events.
//!
//! Instants are nanoseconds of one clock that never runs backwards.

use crate::cast::{event_views, in_order, Event, EventView};
use crate::queries::{strip_terminal_queries, stripped};
use crate::text::{
    append_bytes, append_chars, chars_of, contains_chars, lower, lower_char, lower_chars, occurs_at,
    occurs_in, utf8_bytes, views,
};
use crate::utf8::{
    law_valid_stream_passes_as_valid, lemma_passable, lossy, lossy_text, passable,
    valid_utf8_prefix_len,
};
use vstd::prelude::*;
use vstd::utf8::{decode_utf8, encode_scalar, encode_utf8, valid_utf8};

verus! {

/// Bytes of output, with the instant at which they were read.
#[derive(Debug, PartialEq)]
pub struct OutputChunk {
    pub instant: u64,
    pub bytes: Vec<u8>,
}

/// A chunk as mathematics.
#[verifier::ext_equal]
pub struct ChunkView {
    pub instant: u64,
    pub bytes: Seq<u8>,
}

impl View for OutputChunk {
    type V = ChunkView;

    open spec fn view(&self) -> ChunkView {
        ChunkView { instant: self.instant, bytes: self.bytes@ }
    }
}

/// The views of a list of chunks.
pub open spec fn chunk_views(chunks: Seq<OutputChunk>) -> Seq<ChunkView> {
    chunks.map_values(|c: OutputChunk| c@)
}

/// The text that bytes stand for; where they are not valid, with replacement characters.
pub open spec fn text_of(bytes: Seq<u8>) -> Seq<char> {
    if valid_utf8(bytes) {
        decode_utf8(bytes)
    } else {
        lossy(bytes)
    }
}

/// Puts reads together so that no character is cut in two.
pub struct Reassembler {
    carry: Vec<u8>,
}

impl Reassembler {
    /// What is kept for the next read.
    pub closed spec fn kept(self) -> Seq<u8> {
        self.carry@
    }

    /// Nothing has been read.
    pub fn new() -> (r: Reassembler)
        ensures
            r.kept() == Seq::<u8>::empty(),
    {
        Reassembler { carry: Vec::new() }
    }

    /// Takes in a read, and gives what can be passed on. A character cut short at the end is kept
    /// for the next read.
    pub fn read(&mut self, bytes: &[u8], instant: u64) -> (r: Option<OutputChunk>)
        ensures
            ({
                let all = old(self).kept() + bytes@;
                let n = passable(all);
                match r {
                    Some(chunk) => {
                        &&& n > 0
                        &&& chunk@ == (ChunkView { instant, bytes: all.take(n) })
                        &&& final(self).kept() == all.skip(n)
                    },
                    None => n == 0 && final(self).kept() == all,
                }
            }),
    {
        append_bytes(&mut self.carry, bytes);
        let n = valid_utf8_prefix_len(self.carry.as_slice());
        if n == 0 {
            return None;
        }
        let front = vstd::slice::slice_to_vec(
            vstd::slice::slice_subrange(self.carry.as_slice(), 0, n),
        );
        let rest = vstd::slice::slice_to_vec(
            vstd::slice::slice_subrange(self.carry.as_slice(), n, self.carry.len()),
        );
        proof {
            assert(front@ =~= self.carry@.take(n as int));
            assert(rest@ =~= self.carry@.skip(n as int));
        }
        self.carry = rest;
        Some(OutputChunk { instant, bytes: front })
    }

    /// Gives what is left when the output ends.
    pub fn finish(self, instant: u64) -> (r: Option<OutputChunk>)
        ensures
            match r {
                Some(chunk) => self.kept().len() > 0 && chunk@ == (ChunkView {
                    instant,
                    bytes: self.kept(),
                }),
                None => self.kept().len() == 0,
            },
    {
        if self.carry.len() == 0 {
            None
        } else {
            Some(OutputChunk { instant, bytes: self.carry })
        }
    }
}

/// Byte strings one after the other.
pub open spec fn joined_bytes(list: Seq<Seq<u8>>) -> Seq<u8>
    decreases list.len(),
{
    if list.len() == 0 {
        Seq::empty()
    } else {
        joined_bytes(list.drop_last()) + list.last()
    }
}

/// What a reassembler has passed on after some reads, and what it keeps.
pub open spec fn passed_on(reads: Seq<Seq<u8>>) -> (Seq<Seq<u8>>, Seq<u8>)
    decreases reads.len(),
{
    if reads.len() == 0 {
        (Seq::empty(), Seq::empty())
    } else {
        let before = passed_on(reads.drop_last());
        let all = before.1 + reads.last();
        let n = passable(all);
        if n == 0 {
            (before.0, all)
        } else {
            (before.0.push(all.take(n)), all.skip(n))
        }
    }
}

/// Reassembling loses no byte, adds none and keeps their order.
pub proof fn law_reads_are_kept(reads: Seq<Seq<u8>>)
    ensures
        joined_bytes(passed_on(reads).0) + passed_on(reads).1 == joined_bytes(reads),
    decreases reads.len(),
{
    if reads.len() > 0 {
        law_reads_are_kept(reads.drop_last());
        let before = passed_on(reads.drop_last());
        let all = before.1 + reads.last();
        let n = passable(all);
        lemma_passable(all);
        if n > 0 {
            let out = before.0.push(all.take(n));
            assert(out.drop_last() =~= before.0);
            assert(all.take(n) + all.skip(n) =~= all);
            assert(joined_bytes(out) + all.skip(n) =~= joined_bytes(before.0) + all);
        }
        assert(joined_bytes(before.0) + all =~= joined_bytes(before.0) + before.1 + reads.last());
    } else {
        assert(passed_on(reads).0 =~= Seq::<Seq<u8>>::empty());
        assert(joined_bytes(passed_on(reads).0) + passed_on(reads).1 =~= joined_bytes(reads));
    }
}

/// Where the output is valid as a whole, every chunk of it that is passed on is valid, however
/// the reads cut it.
pub proof fn law_valid_output_gives_valid_chunks(reads: Seq<Seq<u8>>, later: Seq<u8>)
    requires
        valid_utf8(joined_bytes(reads) + later),
    ensures
        forall|i: int|
            0 <= i < passed_on(reads).0.len() ==> valid_utf8(#[trigger] passed_on(reads).0[i]),
        valid_utf8(passed_on(reads).1 + later),
    decreases reads.len(),
{
    if reads.len() > 0 {
        let front = reads.drop_last();
        let more = reads.last() + later;
        assert(joined_bytes(front) + more =~= joined_bytes(reads) + later);
        law_valid_output_gives_valid_chunks(front, more);
        let before = passed_on(front);
        let all = before.1 + reads.last();
        let n = passable(all);
        lemma_passable(all);
        assert(before.1 + more =~= all + later);
        law_valid_stream_passes_as_valid(all, later);
        if n == 0 {
            assert(all.skip(0) =~= all);
        }
        let out = passed_on(reads).0;
        assert forall|i: int| 0 <= i < out.len() implies valid_utf8(#[trigger] out[i]) by {
            if i < before.0.len() {
                assert(out[i] == before.0[i]);
            }
        }
    } else {
        assert(joined_bytes(reads) + later =~= passed_on(reads).1 + later);
    }
}

/// Whether any needle stands in a text.
pub open spec fn any_occurs(hay: Seq<char>, needles: Seq<Seq<char>>) -> bool {
    exists|i: int| 0 <= i < needles.len() && occurs_in(hay, #[trigger] needles[i])
}

/// Texts in lower case.
pub open spec fn all_lower(list: Seq<Seq<char>>) -> Seq<Seq<char>> {
    list.map_values(|s: Seq<char>| lower(s))
}

/// The number of bytes of a text that are searched at most.
pub const WINDOW: usize = 4096;

/// The end of a text, as much of it as fits the window.
pub open spec fn windowed(text: Seq<char>) -> Seq<char>
    decreases text.len(),
{
    if text.len() > 0 && encode_utf8(text).len() > WINDOW {
        windowed(text.drop_first())
    } else {
        text
    }
}

/// The bytes of chunks one after the other.
pub open spec fn all_bytes(chunks: Seq<ChunkView>) -> Seq<u8>
    decreases chunks.len(),
{
    if chunks.len() == 0 {
        Seq::empty()
    } else {
        all_bytes(chunks.drop_last()) + chunks.last().bytes
    }
}

/// The characters of each text, in lower case.
fn lower_list(list: &Vec<String>) -> (r: Vec<Vec<char>>)
    ensures
        r@.len() == list@.len(),
        forall|i: int| 0 <= i < r@.len() ==> (#[trigger] r@[i])@ == lower(list@[i]@),
{
    let mut out: Vec<Vec<char>> = Vec::new();
    let mut i: usize = 0;
    while i < list.len()
        invariant
            i <= list@.len(),
            out@.len() == i,
            forall|k: int| 0 <= k < i ==> (#[trigger] out@[k])@ == lower(list@[k]@),
        decreases list@.len() - i,
    {
        let chars = chars_of(list[i].as_str());
        out.push(lower_chars(chars.as_slice()));
        i += 1;
    }
    out
}

/// Whether any needle stands in a text.
fn contains_any(hay: &[char], needles: &Vec<Vec<char>>) -> (r: bool)
    ensures
        r == exists|i: int| 0 <= i < needles@.len() && occurs_in(hay@, (#[trigger] needles@[i])@),
{
    let mut i: usize = 0;
    while i < needles.len()
        invariant
            i <= needles@.len(),
            forall|k: int| 0 <= k < i ==> !occurs_in(hay@, (#[trigger] needles@[k])@),
        decreases needles@.len() - i,
    {
        if contains_chars(hay, needles[i].as_slice()) {
            return true;
        }
        i += 1;
    }
    false
}

/// Whether any of the needles stands in a text, in any letter case.
pub fn text_contains_any(text: &str, needles: &Vec<String>) -> (r: bool)
    ensures
        r == any_occurs(lower(text@), all_lower(views(needles@))),
{
    let chars = chars_of(text);
    let low = lower_chars(chars.as_slice());
    let list = lower_list(needles);
    let r = contains_any(low.as_slice(), &list);
    proof {
        let want = all_lower(views(needles@));
        assert forall|i: int| 0 <= i < want.len() implies #[trigger] want[i] == list@[i]@ by {}
        if r {
            let i = choose|i: int|
                0 <= i < list@.len() && occurs_in(low@, (#[trigger] list@[i])@);
            assert(occurs_in(low@, want[i]));
        } else {
            assert forall|i: int| 0 <= i < want.len() implies !occurs_in(
                low@,
                #[trigger] want[i],
            ) by {
                assert(!occurs_in(low@, list@[i]@));
            }
        }
    }
    r
}

/// The bytes of all chunks.
fn gather_bytes(chunks: &Vec<OutputChunk>) -> (r: Vec<u8>)
    ensures
        r@ == all_bytes(chunk_views(chunks@)),
{
    let ghost all = chunk_views(chunks@);
    let mut out: Vec<u8> = Vec::new();
    let mut i: usize = 0;
    proof {
        assert(all.take(0) =~= Seq::<ChunkView>::empty());
        assert(out@ =~= all_bytes(all.take(0)));
    }
    while i < chunks.len()
        invariant
            i <= chunks@.len(),
            all == chunk_views(chunks@),
            out@ == all_bytes(all.take(i as int)),
        decreases chunks@.len() - i,
    {
        proof {
            assert(all.take(i + 1).drop_last() =~= all.take(i as int));
            assert(all.take(i + 1).last() == chunks@[i as int]@);
        }
        append_bytes(&mut out, chunks[i].bytes.as_slice());
        i += 1;
    }
    proof {
        assert(all.take(i as int) =~= all);
    }
    out
}

/// Whether the output holds any of the needles, in any letter case and also across chunks. Without
/// output it holds none.
pub fn chunks_contain_any(chunks: &Vec<OutputChunk>, needles: &Vec<String>) -> (r: bool)
    ensures
        r == (chunks@.len() > 0 && any_occurs(
            lower(text_of(all_bytes(chunk_views(chunks@)))),
            all_lower(views(needles@)),
        )),
{
    if chunks.len() == 0 {
        return false;
    }
    let bytes = gather_bytes(chunks);
    let text = lossy_text(bytes.as_slice());
    text_contains_any(text.as_str(), needles)
}

/// How a wait for output ended.
#[derive(Debug, Clone, Copy, PartialEq, Eq, Structural)]
pub enum WaitEnd {
    /// The output came.
    Matched,
    /// It did not come in time.
    TimedOut,
    /// The program ended first.
    Disconnected,
}

/// The output did not come in time.
#[derive(Debug, Clone, Copy, PartialEq, Eq, Structural)]
pub struct TimedOut;

/// Watches output for needles. Of what it has seen it searches the end only.
pub struct OutputWatch {
    needles: Vec<Vec<char>>,
    tail: Vec<char>,
    consumed: Vec<OutputChunk>,
}

impl OutputWatch {
    /// The needles, in lower case.
    pub closed spec fn wanted(self) -> Seq<Seq<char>> {
        self.needles@.map_values(|n: Vec<char>| n@)
    }

    /// The end of the text seen so far.
    pub closed spec fn seen(self) -> Seq<char> {
        self.tail@
    }

    /// The chunks seen so far.
    pub closed spec fn taken(self) -> Seq<ChunkView> {
        chunk_views(self.consumed@)
    }

    /// A watch that has seen nothing.
    pub fn new(needles: &Vec<String>) -> (r: OutputWatch)
        ensures
            r.wanted() == all_lower(views(needles@)),
            r.seen() == Seq::<char>::empty(),
            r.taken() == Seq::<ChunkView>::empty(),
    {
        let list = lower_list(needles);
        let r = OutputWatch { needles: list, tail: Vec::new(), consumed: Vec::new() };
        proof {
            assert(r.wanted() =~= all_lower(views(needles@)));
            assert(chunk_views(r.consumed@) =~= Seq::<ChunkView>::empty());
        }
        r
    }

    /// Takes in a chunk, given the text that it is decoded as, and says whether a needle has been
    /// seen, in any letter case and also across chunks.
    pub fn offer_text(&mut self, chunk: OutputChunk, text: &str) -> (r: bool)
        ensures
            r == any_occurs(lower(old(self).seen() + text@), old(self).wanted()),
            final(self).seen() == (if r {
                old(self).seen() + text@
            } else {
                windowed(old(self).seen() + text@)
            }),
            final(self).wanted() == old(self).wanted(),
            final(self).taken() == old(self).taken().push(chunk@),
    {
        let ghost taken = self.taken();
        let more = chars_of(text);
        append_chars(&mut self.tail, more.as_slice());
        self.consumed.push(chunk);
        proof {
            assert(chunk_views(self.consumed@) =~= taken.push(chunk@));
        }
        let low = lower_chars(self.tail.as_slice());
        let found = contains_any(low.as_slice(), &self.needles);
        proof {
            let want = self.wanted();
            if found {
                let i = choose|i: int|
                    0 <= i < self.needles@.len() && occurs_in(low@, (#[trigger] self.needles@[i])@);
                assert(want[i] == self.needles@[i]@);
                assert(occurs_in(low@, want[i]));
            } else {
                assert forall|i: int| 0 <= i < want.len() implies !occurs_in(
                    low@,
                    #[trigger] want[i],
                ) by {
                    assert(!occurs_in(low@, self.needles@[i]@));
                }
            }
        }
        if found {
            return true;
        }
        let kept = keep_window(self.tail.as_slice());
        self.tail = kept;
        false
    }

    /// Takes in a chunk, and says whether a needle has been seen, in any letter case and also
    /// across chunks.
    pub fn offer(&mut self, chunk: OutputChunk) -> (r: bool)
        ensures
            ({
                let all = old(self).seen() + text_of(chunk@.bytes);
                &&& r == any_occurs(lower(all), old(self).wanted())
                &&& final(self).seen() == (if r {
                    all
                } else {
                    windowed(all)
                })
            }),
            final(self).wanted() == old(self).wanted(),
            final(self).taken() == old(self).taken().push(chunk@),
    {
        let text = lossy_text(chunk.bytes.as_slice());
        self.offer_text(chunk, text.as_str())
    }

    /// The chunks seen.
    pub fn into_chunks(self) -> (r: Vec<OutputChunk>)
        ensures
            chunk_views(r@) == self.taken(),
    {
        self.consumed
    }

    /// Ends the watch: the chunks seen, unless the time ran out. That the program ended is no
    /// error.
    pub fn conclude(self, end: WaitEnd) -> (r: Result<Vec<OutputChunk>, TimedOut>)
        ensures
            match r {
                Ok(chunks) => end != WaitEnd::TimedOut && chunk_views(chunks@) == self.taken(),
                Err(_) => end == WaitEnd::TimedOut,
            },
    {
        match end {
            WaitEnd::TimedOut => Err(TimedOut),
            _ => Ok(self.consumed),
        }
    }
}

proof fn lemma_encoded_len(text: Seq<char>)
    requires
        text.len() > 0,
    ensures
        encode_utf8(text).len() == encode_scalar(text[0] as u32).len() + encode_utf8(
            text.drop_first(),
        ).len(),
{
}

/// The end of a text, as much of it as fits the window.
fn keep_window(text: &[char]) -> (r: Vec<char>)
    ensures
        r@ == windowed(text@),
{
    let mut left: usize = utf8_bytes(text).len();
    let mut i: usize = 0;
    proof {
        assert(text@.skip(0) =~= text@);
    }
    while i < text.len() && left > WINDOW
        invariant
            i <= text@.len(),
            left == encode_utf8(text@.skip(i as int)).len(),
            windowed(text@.skip(i as int)) == windowed(text@),
        decreases text@.len() - i,
    {
        let one = [text[i]];
        let ghost rest = text@.skip(i as int);
        proof {
            assert(rest.drop_first() =~= text@.skip(i + 1));
            lemma_encoded_len(rest);
            assert(one@ =~= seq![rest[0]]);
            lemma_encoded_len(one@);
            assert(one@.drop_first() =~= Seq::<char>::empty());
            assert(encode_utf8(one@.drop_first()).len() == 0);
        }
        let size: usize = utf8_bytes(one.as_slice()).len();
        left -= size;
        i += 1;
    }
    let kept = vstd::slice::slice_to_vec(vstd::slice::slice_subrange(text, i, text.len()));
    proof {
        assert(kept@ =~= text@.skip(i as int));
    }
    kept
}

/// The time between two instants; none if the second is not later.
pub open spec fn since(start: u64, instant: u64) -> i64 {
    if instant <= start {
        0
    } else if instant - start > i64::MAX {
        i64::MAX
    } else {
        (instant - start) as i64
    }
}

/// The output events of chunks: what they hold without terminal queries, each at its time since
/// the start. A chunk of queries alone gives none.
pub open spec fn output_events(start: u64, chunks: Seq<ChunkView>) -> Seq<EventView>
    decreases chunks.len(),
{
    if chunks.len() == 0 {
        Seq::empty()
    } else {
        let before = output_events(start, chunks.drop_last());
        let c = chunks.last();
        let clean = stripped(c.bytes);
        if clean.len() == 0 {
            before
        } else {
            before.push(EventView::Output { time: since(start, c.instant), data: text_of(clean) })
        }
    }
}

/// The time between two instants.
pub fn time_since(start: u64, instant: u64) -> (r: i64)
    ensures
        r == since(start, instant),
{
    if instant <= start {
        0
    } else if instant - start > 0x7fff_ffff_ffff_ffff {
        0x7fff_ffff_ffff_ffff
    } else {
        (instant - start) as i64
    }
}

/// Turns chunks into output events with times since `start`.
pub fn chunks_to_events(start: u64, chunks: &Vec<OutputChunk>) -> (r: Vec<Event>)
    ensures
        event_views(r@) == output_events(start, chunk_views(chunks@)),
{
    let ghost all = chunk_views(chunks@);
    let mut out: Vec<Event> = Vec::new();
    let mut i: usize = 0;
    proof {
        assert(all.take(0) =~= Seq::<ChunkView>::empty());
        assert(event_views(out@) =~= Seq::<EventView>::empty());
    }
    while i < chunks.len()
        invariant
            i <= chunks@.len(),
            all == chunk_views(chunks@),
            event_views(out@) == output_events(start, all.take(i as int)),
        decreases chunks@.len() - i,
    {
        let ghost before = event_views(out@);
        proof {
            assert(all.take(i + 1).drop_last() =~= all.take(i as int));
            assert(all.take(i + 1).last() == chunks@[i as int]@);
        }
        let clean = strip_terminal_queries(chunks[i].bytes.as_slice());
        if clean.len() > 0 {
            let time = time_since(start, chunks[i].instant);
            let data = lossy_text(clean.as_slice());
            out.push(Event::Output { time, data });
            proof {
                assert(event_views(out@) =~= before.push(
                    EventView::Output { time, data: text_of(clean@) },
                ));
            }
        }
        i += 1;
    }
    proof {
        assert(all.take(i as int) =~= all);
    }
    out
}

/// What is shown live of chunks: their bytes without terminal queries.
pub open spec fn shown_live(chunks: Seq<ChunkView>) -> Seq<u8>
    decreases chunks.len(),
{
    if chunks.len() == 0 {
        Seq::empty()
    } else {
        shown_live(chunks.drop_last()) + stripped(chunks.last().bytes)
    }
}

/// Appends what is shown live of chunks to `sink`.
pub fn write_chunks_to(sink: &mut Vec<u8>, chunks: &Vec<OutputChunk>)
    ensures
        final(sink)@ == old(sink)@ + shown_live(chunk_views(chunks@)),
{
    let ghost all = chunk_views(chunks@);
    let ghost start = sink@;
    let mut i: usize = 0;
    proof {
        assert(all.take(0) =~= Seq::<ChunkView>::empty());
        assert(sink@ =~= start + shown_live(all.take(0)));
    }
    while i < chunks.len()
        invariant
            i <= chunks@.len(),
            all == chunk_views(chunks@),
            sink@ == start + shown_live(all.take(i as int)),
        decreases chunks@.len() - i,
    {
        proof {
            assert(all.take(i + 1).drop_last() =~= all.take(i as int));
            assert(all.take(i + 1).last() == chunks@[i as int]@);
        }
        let clean = strip_terminal_queries(chunks[i].bytes.as_slice());
        append_bytes(sink, clean.as_slice());
        proof {
            assert(sink@ =~= start + shown_live(all.take(i + 1)));
        }
        i += 1;
    }
    proof {
        assert(all.take(i as int) =~= all);
    }
}

/// Captures drained chunks as they are, and gives what is to be shown live: nothing unless
/// `watch` is set.
pub fn mirror_and_capture(
    out: &mut Vec<OutputChunk>,
    drained: Vec<OutputChunk>,
    watch: bool,
) -> (r: Vec<u8>)
    ensures
        chunk_views(final(out)@) == chunk_views(old(out)@) + chunk_views(drained@),
        r@ == (if watch {
            shown_live(chunk_views(drained@))
        } else {
            Seq::empty()
        }),
{
    let mut live: Vec<u8> = Vec::new();
    if watch {
        write_chunks_to(&mut live, &drained);
        proof {
            assert(live@ =~= shown_live(chunk_views(drained@)));
        }
    }
    let mut more = drained;
    let ghost all = more@;
    out.append(&mut more);
    proof {
        assert(chunk_views(out@) =~= chunk_views(old(out)@) + chunk_views(all));
    }
    live
}

/// Events get times in the order of their chunks.
pub proof fn law_output_stays_in_order(start: u64, chunks: Seq<ChunkView>)
    requires
        forall|i: int, j: int|
            0 <= i <= j < chunks.len() ==> (#[trigger] chunks[i]).instant <= (
            #[trigger] chunks[j]).instant,
    ensures
        in_order(output_events(start, chunks)),
        forall|i: int|
            0 <= i < output_events(start, chunks).len() ==> chunks.len() > 0 && (
            #[trigger] output_events(start, chunks)[i]).time() <= since(
                start,
                chunks.last().instant,
            ),
    decreases chunks.len(),
{
    if chunks.len() > 0 {
        let front = chunks.drop_last();
        assert forall|i: int, j: int| 0 <= i <= j < front.len() implies (
        #[trigger] front[i]).instant <= (#[trigger] front[j]).instant by {
            assert(chunks[i].instant <= chunks[j].instant);
        }
        law_output_stays_in_order(start, front);
        let before = output_events(start, front);
        let all = output_events(start, chunks);
        if front.len() > 0 {
            assert(front.last() == chunks[chunks.len() - 2]);
            assert(chunks[chunks.len() - 2].instant <= chunks[chunks.len() - 1].instant);
        }
        assert forall|i: int| 0 <= i < all.len() implies (#[trigger] all[i]).time() <= since(
            start,
            chunks.last().instant,
        ) by {
            if i < before.len() {
                assert(all[i] == before[i]);
            }
        }
        assert forall|i: int, j: int| 0 <= i <= j < all.len() implies (#[trigger] all[i]).time()
            <= (#[trigger] all[j]).time() by {
            if j < before.len() {
                assert(before[i].time() <= before[j].time());
            } else if i < before.len() {
                assert(before[i].time() <= since(start, front.last().instant));
            }
        }
    }
}

proof fn lemma_encoded_concat(a: Seq<char>, b: Seq<char>)
    ensures
        encode_utf8(a + b).len() == encode_utf8(a).len() + encode_utf8(b).len(),
    decreases a.len(),
{
    if a.len() == 0 {
        assert(a + b =~= b);
    } else {
        lemma_encoded_concat(a.drop_first(), b);
        assert((a + b).drop_first() =~= a.drop_first() + b);
        lemma_encoded_len(a);
        lemma_encoded_len(a + b);
    }
}

proof fn lemma_lower_char_size(c: char)
    ensures
        encode_scalar(lower_char(c) as u32).len() == encode_scalar(c as u32).len(),
{
    crate::utf8::lemma_char_bytes(c);
    crate::utf8::lemma_char_bytes(lower_char(c));
}

proof fn lemma_lower_size(text: Seq<char>)
    ensures
        encode_utf8(lower(text)).len() == encode_utf8(text).len(),
    decreases text.len(),
{
    if text.len() > 0 {
        lemma_lower_size(text.drop_first());
        assert(lower(text).drop_first() =~= lower(text.drop_first()));
        lemma_lower_char_size(text[0]);
        lemma_encoded_len(text);
        lemma_encoded_len(lower(text));
    } else {
        assert(lower(text) =~= text);
    }
}

/// The window holds every end of the text that fits it.
proof fn lemma_window(text: Seq<char>) -> (k: int)
    ensures
        0 <= k <= text.len(),
        windowed(text) == text.skip(k),
        forall|j: int|
            0 <= j <= text.len() && encode_utf8(#[trigger] text.skip(j)).len() <= WINDOW ==> j >= k,
    decreases text.len(),
{
    if text.len() > 0 && encode_utf8(text).len() > WINDOW {
        let rest = text.drop_first();
        let k = lemma_window(rest);
        assert(rest.skip(k) =~= text.skip(k + 1));
        assert forall|j: int|
            0 <= j <= text.len() && encode_utf8(#[trigger] text.skip(j)).len() <= WINDOW implies j
            >= k + 1 by {
            if j == 0 {
                assert(text.skip(0) =~= text);
            } else {
                assert(text.skip(j) =~= rest.skip(j - 1));
            }
        }
        k + 1
    } else {
        assert(text.skip(0) =~= text);
        0
    }
}

/// Keeping the end of what was seen does not change what is kept later on.
pub proof fn law_window_of_window(all: Seq<char>, more: Seq<char>)
    ensures
        windowed(windowed(all) + more) == windowed(all + more),
    decreases all.len(),
{
    if all.len() > 0 && encode_utf8(all).len() > WINDOW {
        let rest = all.drop_first();
        law_window_of_window(rest, more);
        lemma_encoded_concat(all, more);
        assert((all + more).drop_first() =~= rest + more);
    }
}

/// Where a needle begins in what was seen and ends behind it, what was seen of it fits the window.
proof fn lemma_begun_needle(all: Seq<char>, more: Seq<char>, needle: Seq<char>, i: int)
    requires
        encode_utf8(needle).len() <= WINDOW,
        occurs_at(lower(all + more), needle, i),
        i < all.len() < i + needle.len(),
    ensures
        encode_utf8(all.skip(i)).len() <= WINDOW,
{
    let whole = all + more;
    let n = needle.len() as int;
    let part = all.skip(i);
    let m = part.len() as int;
    assert forall|j: int| 0 <= j < m implies lower(part)[j] == needle.take(m)[j] by {
        assert(lower(whole).subrange(i, i + n)[j] == lower(whole)[i + j]);
        assert(part[j] == whole[i + j]);
    }
    assert(lower(part) =~= needle.take(m));
    assert(needle =~= needle.take(m) + needle.skip(m));
    lemma_encoded_concat(needle.take(m), needle.skip(m));
    lemma_lower_size(part);
}

/// A watch misses nothing that fits its window: where a needle has not been seen, searching the
/// kept end with what comes next finds it just when searching everything would.
pub proof fn law_watch_misses_nothing(all: Seq<char>, more: Seq<char>, needle: Seq<char>)
    requires
        encode_utf8(needle).len() <= WINDOW,
        !occurs_in(lower(all), needle),
    ensures
        occurs_in(lower(windowed(all) + more), needle) == occurs_in(lower(all + more), needle),
{
    let k = lemma_window(all);
    let kept = windowed(all) + more;
    let whole = all + more;
    let n = needle.len() as int;
    assert(kept =~= whole.skip(k));
    assert(lower(kept) =~= lower(whole).skip(k));
    if occurs_in(lower(kept), needle) {
        let i = choose|i: int| occurs_at(lower(kept), needle, i);
        assert(lower(whole).subrange(i + k, i + k + n) =~= lower(kept).subrange(i, i + n));
        assert(occurs_at(lower(whole), needle, i + k));
    }
    if occurs_in(lower(whole), needle) {
        let i = choose|i: int| occurs_at(lower(whole), needle, i);
        if i + n <= all.len() {
            assert(lower(all).subrange(i, i + n) =~= lower(whole).subrange(i, i + n));
            assert(occurs_at(lower(all), needle, i));
        }
        if i < all.len() {
            lemma_begun_needle(all, more, needle, i);
        } else {
            assert(all.skip(all.len() as int) =~= Seq::<char>::empty());
            assert(encode_utf8(all.skip(all.len() as int)).len() <= WINDOW);
        }
        assert(i >= k);
        assert(lower(kept).subrange(i - k, i - k + n) =~= lower(whole).subrange(i, i + n));
        assert(occurs_at(lower(kept), needle, i - k));
    }
}

/// Each needle counts: where any one of them stands in a text, in whatever letter case, the text
/// holds one of the needles.
pub proof fn law_each_needle_counts(
    text: Seq<char>,
    needles: Seq<Seq<char>>,
    i: int,
    at: int,
)
    requires
        0 <= i < needles.len(),
        0 <= at,
        at + needles[i].len() <= text.len(),
        forall|j: int|
            0 <= j < needles[i].len() ==> lower_char(text[at + j]) == lower_char(
                #[trigger] needles[i][j],
            ),
    ensures
        any_occurs(lower(text), all_lower(needles)),
{
    let needle = lower(needles[i]);
    assert(all_lower(needles)[i] == needle);
    assert(lower(text).subrange(at, at + needle.len()) =~= needle) by {
        assert forall|j: int| 0 <= j < needle.len() implies lower(text).subrange(
            at,
            at + needle.len(),
        )[j] == needle[j] by {
            assert(lower_char(text[at + j]) == lower_char(needles[i][j]));
        }
    }
    assert(occurs_at(lower(text), needle, at));
    assert(occurs_in(lower(text), all_lower(needles)[i]));
}

/// Nothing else counts: where a text holds one of the needles, one of them stands in it somewhere,
/// up to letter case. Without needles there is no match.
pub proof fn law_a_match_is_a_needle(text: Seq<char>, needles: Seq<Seq<char>>) -> (r: (int, int))
    requires
        any_occurs(lower(text), all_lower(needles)),
    ensures
        0 <= r.0 < needles.len(),
        0 <= r.1,
        r.1 + needles[r.0].len() <= text.len(),
        forall|j: int|
            0 <= j < needles[r.0].len() ==> lower_char(text[r.1 + j]) == lower_char(
                #[trigger] needles[r.0][j],
            ),
{
    let list = all_lower(needles);
    let i = choose|i: int| 0 <= i < list.len() && occurs_in(lower(text), #[trigger] list[i]);
    let needle = list[i];
    let at = choose|at: int| occurs_at(lower(text), needle, at);
    assert forall|j: int| 0 <= j < needles[i].len() implies lower_char(text[at + j]) == lower_char(
        #[trigger] needles[i][j],
    ) by {
        assert(lower(text).subrange(at, at + needle.len())[j] == needle[j]);
    }
    (i, at)
}

/// Adding needles, in front or behind, never makes a match go away, and adds only the matches of
/// the needles added. More text never makes a match go away either.
pub proof fn law_more_needles_keep_matches(
    hay: Seq<char>,
    a: Seq<Seq<char>>,
    b: Seq<Seq<char>>,
    before: Seq<char>,
    after: Seq<char>,
)
    ensures
        any_occurs(hay, a + b) == (any_occurs(hay, a) || any_occurs(hay, b)),
        any_occurs(hay, a) ==> any_occurs(before + hay + after, a),
        all_lower(a + b) == all_lower(a) + all_lower(b),
{
    let all = a + b;
    if any_occurs(hay, a) {
        let i = choose|i: int| 0 <= i < a.len() && occurs_in(hay, #[trigger] a[i]);
        assert(all[i] == a[i]);
        let at = choose|at: int| occurs_at(hay, a[i], at);
        let more = before + hay + after;
        let n = before.len() as int;
        assert(more.subrange(n + at, n + at + a[i].len()) =~= hay.subrange(at, at + a[i].len()));
        assert(occurs_at(more, a[i], n + at));
        assert(occurs_in(more, a[i]));
    }
    if any_occurs(hay, b) {
        let i = choose|i: int| 0 <= i < b.len() && occurs_in(hay, #[trigger] b[i]);
        assert(all[a.len() + i] == b[i]);
    }
    if any_occurs(hay, all) {
        let i = choose|i: int| 0 <= i < all.len() && occurs_in(hay, #[trigger] all[i]);
        if i < a.len() {
            assert(all[i] == a[i]);
        } else {
            assert(all[i] == b[i - a.len()]);
        }
    }
    assert(all_lower(a + b) =~= all_lower(a) + all_lower(b));
}

/// The window is the end of a text: it takes no more than 4096 bytes, and one more character
/// would not fit. A text that fits is kept whole.
pub proof fn law_window_is_the_longest_end(text: Seq<char>) -> (k: int)
    ensures
        0 <= k <= text.len(),
        windowed(text) == text.skip(k),
        encode_utf8(windowed(text)).len() <= 4096,
        k > 0 ==> encode_utf8(text.skip(k - 1)).len() > 4096,
        encode_utf8(text).len() <= 4096 ==> windowed(text) == text,
    decreases text.len(),
{
    if text.len() > 0 && encode_utf8(text).len() > WINDOW {
        let rest = text.drop_first();
        let k = law_window_is_the_longest_end(rest);
        assert(rest.skip(k) =~= text.skip(k + 1));
        if k > 0 {
            assert(rest.skip(k - 1) =~= text.skip(k));
        } else {
            assert(text.skip(0) =~= text);
        }
        k + 1
    } else {
        assert(text.skip(0) =~= text);
        if text.len() == 0 {
            reveal_with_fuel(encode_utf8, 1);
            assert(encode_utf8(text).len() == 0);
        }
        0
    }
}

/// A watch with several needles misses none that fits its window: where none has been seen,
/// searching the kept end with what comes next finds one just when searching everything would.
pub proof fn law_watch_misses_no_needle(
    all: Seq<char>,
    more: Seq<char>,
    needles: Seq<Seq<char>>,
)
    requires
        forall|i: int| 0 <= i < needles.len() ==> encode_utf8(#[trigger] needles[i]).len() <= 4096,
        !any_occurs(lower(all), needles),
    ensures
        any_occurs(lower(windowed(all) + more), needles) == any_occurs(lower(all + more), needles),
{
    assert forall|i: int| 0 <= i < needles.len() implies occurs_in(
        lower(windowed(all) + more),
        #[trigger] needles[i],
    ) == occurs_in(lower(all + more), needles[i]) by {
        assert(!occurs_in(lower(all), needles[i]));
        law_watch_misses_nothing(all, more, needles[i]);
    }
}

/// Bytes that encode a text stand for that text; others for what they are decoded as with
/// replacement characters.
pub proof fn law_bytes_stand_for_their_text(text: Seq<char>, bytes: Seq<u8>)
    ensures
        text_of(encode_utf8(text)) == text,
        !valid_utf8(bytes) ==> text_of(bytes) == lossy(bytes),
{
    vstd::utf8::encode_utf8_valid_utf8(text);
    vstd::utf8::encode_utf8_decode_utf8(text);
}

/// The bytes of chunks are gathered chunk by chunk, all of them, in order; and so is what is shown
/// live of them, each chunk without its terminal queries.
pub proof fn law_chunks_are_gathered(a: Seq<ChunkView>, c: ChunkView, b: Seq<ChunkView>)
    ensures
        all_bytes(a + b) == all_bytes(a) + all_bytes(b),
        all_bytes(seq![c]) == c.bytes,
        shown_live(a + b) == shown_live(a) + shown_live(b),
        shown_live(seq![c]) == stripped(c.bytes),
    decreases b.len(),
{
    reveal_with_fuel(all_bytes, 2);
    reveal_with_fuel(shown_live, 2);
    assert(seq![c].drop_last() =~= Seq::<ChunkView>::empty());
    assert(all_bytes(seq![c]) =~= c.bytes);
    assert(shown_live(seq![c]) =~= stripped(c.bytes));
    if b.len() == 0 {
        assert(a + b =~= a);
        assert(all_bytes(a) + all_bytes(b) =~= all_bytes(a));
        assert(shown_live(a) + shown_live(b) =~= shown_live(a));
    } else {
        law_chunks_are_gathered(a, c, b.drop_last());
        assert((a + b).drop_last() =~= a + b.drop_last());
        assert((a + b).last() == b.last());
        assert(all_bytes(a + b) =~= all_bytes(a) + all_bytes(b));
        assert(shown_live(a + b) =~= shown_live(a) + shown_live(b));
    }
}

/// Output becomes events chunk by chunk, in order. A chunk with nothing but terminal queries gives
/// none; any other gives one, whose data is the text of the chunk without its queries and whose
/// time is what has passed since the start.
pub proof fn law_each_chunk_is_an_event(
    start: u64,
    a: Seq<ChunkView>,
    c: ChunkView,
    b: Seq<ChunkView>,
)
    ensures
        output_events(start, a + b) == output_events(start, a) + output_events(start, b),
        stripped(c.bytes).len() == 0 ==> output_events(start, seq![c]).len() == 0,
        stripped(c.bytes).len() > 0 ==> output_events(start, seq![c]) == seq![
            EventView::Output {
                time: since(start, c.instant),
                data: text_of(stripped(c.bytes)),
            },
        ],
    decreases b.len(),
{
    reveal_with_fuel(output_events, 2);
    assert(seq![c].drop_last() =~= Seq::<ChunkView>::empty());
    if stripped(c.bytes).len() > 0 {
        assert(output_events(start, seq![c]) =~= seq![
            EventView::Output {
                time: since(start, c.instant),
                data: text_of(stripped(c.bytes)),
            },
        ]);
    }
    if b.len() == 0 {
        assert(a + b =~= a);
        assert(output_events(start, a) + output_events(start, b) =~= output_events(start, a));
    } else {
        law_each_chunk_is_an_event(start, a, c, b.drop_last());
        assert((a + b).drop_last() =~= a + b.drop_last());
        assert((a + b).last() == b.last());
        assert(output_events(start, a + b) =~= output_events(start, a) + output_events(start, b));
    }
}

/// Text without an escape character, not empty, is recorded just as it is, at the time at which it
/// was read.
pub proof fn law_plain_text_is_recorded(start: u64, instant: u64, text: Seq<char>)
    requires
        text.len() > 0,
        forall|i: int|
            0 <= i < encode_utf8(text).len() ==> #[trigger] encode_utf8(text)[i] != 0x1b,
        start <= instant <= i64::MAX,
    ensures
        output_events(start, seq![ChunkView { instant, bytes: encode_utf8(text) }]) == seq![
            EventView::Output { time: (instant - start) as i64, data: text },
        ],
{
    let bytes = encode_utf8(text);
    let c = ChunkView { instant, bytes };
    crate::queries::law_plain_output_untouched(bytes);
    law_bytes_stand_for_their_text(text, bytes);
    law_each_chunk_is_an_event(start, Seq::empty(), c, Seq::empty());
    lemma_encoded_len(text);
    crate::utf8::lemma_char_bytes(text[0]);
}

/// The time between two instants is their distance, as far as a time can hold it; an instant that
/// is not later is at no distance.
pub proof fn law_time_passes(start: u64, instant: u64)
    ensures
        start <= instant <= start + i64::MAX ==> start + since(start, instant) == instant,
        instant < start ==> since(start, instant) == 0,
        instant > start + i64::MAX ==> since(start, instant) == i64::MAX,
{
}

} // verus!

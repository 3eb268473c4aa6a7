//! The stream decoder: a frame buffer and a two-state lifecycle.
use vstd::prelude::*;

use crate::error::AiError;
use crate::frame::{
    classify_frame, first_delim, first_delim_from, frame_of, is_delim, lemma_scan_append, scan,
    scan_frames, FrameSpec, Frame, LINE_FEED,
};

verus! {

/// Turns byte chunks, in arrival order, into frames.
///
/// The buffer holds the bytes received that do not yet form a complete
/// frame. After the termination sentinel the decoder is done and takes no
/// further frames.
pub struct StreamFrameDecoder {
    buffer: Vec<u8>,
    done: bool,
}

/// Abstract state of a decoder: pending bytes, and whether it is done.
pub ghost struct DecoderState {
    pub pending: Seq<u8>,
    pub done: bool,
}

/// The state before any chunk.
pub open spec fn initial_state() -> DecoderState {
    DecoderState { pending: seq![], done: false }
}

/// State and frames after feeding one chunk.
pub open spec fn feed(st: DecoderState, chunk: Seq<u8>) -> (DecoderState, Seq<FrameSpec>) {
    if st.done {
        (st, seq![])
    } else {
        let sc = scan(st.pending + chunk);
        (
            DecoderState { pending: sc.rest, done: sc.ended },
            sc.frames.map_values(|b: Seq<u8>| frame_of(b)),
        )
    }
}

impl View for StreamFrameDecoder {
    type V = DecoderState;

    closed spec fn view(&self) -> DecoderState {
        DecoderState { pending: self.buffer@, done: self.done }
    }
}

/// Position of the first delimiter in `buf` at or after `from`.
fn find_delim(buf: &Vec<u8>, from: usize) -> (r: Option<usize>)
    requires
        from <= buf@.len(),
    ensures
        match r {
            Some(p) => {
                &&& from <= p
                &&& is_delim(buf@, p as int)
                &&& first_delim(buf@.subrange(from as int, buf@.len() as int)) == p - from
            },
            None => first_delim(buf@.subrange(from as int, buf@.len() as int)) == -1,
        },
{
    let ghost t = buf@.subrange(from as int, buf@.len() as int);
    let mut j: usize = from;
    while buf.len() - j >= 2
        invariant
            from <= j <= buf@.len(),
            t == buf@.subrange(from as int, buf@.len() as int),
            first_delim(t) == first_delim_from(t, j - from),
        decreases buf@.len() - j,
    {
        if buf[j] == LINE_FEED && buf[j + 1] == LINE_FEED {
            assert(is_delim(t, j - from));
            return Some(j);
        }
        assert(!is_delim(t, j - from));
        j = j + 1;
    }
    None
}

impl StreamFrameDecoder {
    /// A decoder in the streaming state with an empty buffer.
    pub fn new() -> (r: Self)
        ensures
            r@ == initial_state(),
    {
        StreamFrameDecoder { buffer: Vec::new(), done: false }
    }

    /// Whether the termination sentinel has been seen.
    pub fn is_done(&self) -> (r: bool)
        ensures
            r == self@.done,
    {
        self.done
    }

    /// Reports how the stream ended once the transport has no more bytes: a
    /// clean end after the termination sentinel, or `AbnormalTermination`.
    pub fn finish(&self) -> (r: Result<(), AiError>)
        ensures
            self@.done ==> r == Ok::<(), AiError>(()),
            !self@.done ==> r == Err::<(), AiError>(AiError::AbnormalTermination),
    {
        if self.done {
            Ok(())
        } else {
            Err(AiError::AbnormalTermination)
        }
    }

    /// Appends `chunk` to the buffer and cuts off every complete frame, left
    /// to right, stopping after the termination sentinel. The bytes after the
    /// last frame taken stay in the buffer. Once done, a chunk is ignored.
    pub fn ingest(&mut self, chunk: &[u8]) -> (r: Vec<Frame>)
        ensures
            (final(self)@, r@.map_values(|f: Frame| f@)) == feed(old(self)@, chunk@),
            !final(self)@.done ==> first_delim(final(self)@.pending) < 0,
    {
        let mut frames: Vec<Frame> = Vec::new();
        if self.done {
            assert(frames@.map_values(|f: Frame| f@) =~= seq![]);
            return frames;
        }
        let ghost before = self.buffer@;
        self.buffer.extend_from_slice(chunk);
        let ghost s = self.buffer@;
        assert(s =~= before + chunk@);
        let len = self.buffer.len();
        let mut start: usize = 0;
        let mut ended = false;
        assert(s.subrange(0, s.len() as int) =~= s);
        assert(frames@.map_values(|f: Frame| f@) + scan(s).frames.map_values(
            |b: Seq<u8>| frame_of(b),
        ) =~= scan(s).frames.map_values(|b: Seq<u8>| frame_of(b)));
        loop
            invariant_except_break
                !ended,
                self.buffer@ == s,
                len == s.len(),
                start <= s.len(),
                scan(s).frames.map_values(|b: Seq<u8>| frame_of(b)) == frames@.map_values(
                    |f: Frame| f@,
                ) + scan(s.subrange(start as int, s.len() as int)).frames.map_values(
                    |b: Seq<u8>| frame_of(b),
                ),
                scan(s).rest == scan(s.subrange(start as int, s.len() as int)).rest,
                scan(s).ended == scan(s.subrange(start as int, s.len() as int)).ended,
            ensures
                self.buffer@ == s,
                start <= s.len(),
                scan(s).frames.map_values(|b: Seq<u8>| frame_of(b)) == frames@.map_values(
                    |f: Frame| f@,
                ),
                scan(s).rest == s.subrange(start as int, s.len() as int),
                scan(s).ended == ended,
            decreases s.len() - start,
        {
            let ghost t = s.subrange(start as int, s.len() as int);
            match find_delim(&self.buffer, start) {
                None => {
                    assert(scan(t).frames.map_values(|b: Seq<u8>| frame_of(b)) =~= seq![]);
                    assert(frames@.map_values(|f: Frame| f@) + seq![] =~= frames@.map_values(
                        |f: Frame| f@,
                    ));
                    break;
                },
                Some(p) => {
                    let ghost q = p - start;
                    assert(t.subrange(0, q) =~= s.subrange(start as int, p as int));
                    assert(t.subrange(q + 2, t.len() as int) =~= s.subrange(
                        p + 2,
                        s.len() as int,
                    ));
                    let frame = classify_frame(
                        vstd::slice::slice_subrange(self.buffer.as_slice(), start, p),
                    );
                    let ghost old_frames = frames@;
                    let is_end = matches!(frame, Frame::End);
                    frames.push(frame);
                    assert(frames@.map_values(|f: Frame| f@) =~= old_frames.map_values(
                        |f: Frame| f@,
                    ).push(frame_of(t.subrange(0, q))));
                    assert(p + 2 <= s.len());
                    start = p + 2;
                    let ghost tail = s.subrange(start as int, s.len() as int);
                    if is_end {
                        assert(t.subrange(0, q) == crate::frame::sentinel());
                        assert(scan(t).frames.map_values(|b: Seq<u8>| frame_of(b)) =~= seq![
                            frame_of(t.subrange(0, q)),
                        ]);
                        ended = true;
                        break;
                    }
                    assert(scan(t).frames.map_values(|b: Seq<u8>| frame_of(b)) =~= seq![
                        frame_of(t.subrange(0, q)),
                    ] + scan(tail).frames.map_values(|b: Seq<u8>| frame_of(b)));
                    assert(old_frames.map_values(|f: Frame| f@) + (seq![
                        frame_of(t.subrange(0, q)),
                    ] + scan(tail).frames.map_values(|b: Seq<u8>| frame_of(b)))
                        =~= frames@.map_values(|f: Frame| f@) + scan(tail).frames.map_values(
                        |b: Seq<u8>| frame_of(b),
                    ));
                },
            }
        }
        proof {
            lemma_scan_rest(s);
        }
        self.buffer = self.buffer.split_off(start);
        self.done = ended;
        frames
    }
}

/// State and frames after feeding each chunk in turn.
pub open spec fn run(st: DecoderState, chunks: Seq<Seq<u8>>) -> (DecoderState, Seq<FrameSpec>)
    decreases chunks.len(),
{
    if chunks.len() == 0 {
        (st, seq![])
    } else {
        let first = feed(st, chunks[0]);
        let others = run(first.0, chunks.drop_first());
        (others.0, first.1 + others.1)
    }
}

proof fn lemma_first_delim_none(s: Seq<u8>)
    requires
        s.len() < 2,
    ensures
        first_delim(s) < 0,
{
}

proof fn lemma_map_concat(a: Seq<Seq<u8>>, b: Seq<Seq<u8>>)
    ensures
        (a + b).map_values(|x: Seq<u8>| frame_of(x)) == a.map_values(|x: Seq<u8>| frame_of(x))
            + b.map_values(|x: Seq<u8>| frame_of(x)),
{
    assert((a + b).map_values(|x: Seq<u8>| frame_of(x)) =~= a.map_values(
        |x: Seq<u8>| frame_of(x),
    ) + b.map_values(|x: Seq<u8>| frame_of(x)));
}

/// Feeding chunks to a streaming decoder with pending bytes `pending` gives
/// the frames of one scan over `pending` followed by all the chunks.
pub proof fn lemma_run_scans(pending: Seq<u8>, chunks: Seq<Seq<u8>>)
    requires
        first_delim(pending) < 0,
    ensures
        ({
            let out = run(DecoderState { pending, done: false }, chunks);
            let sc = scan(pending + chunks.flatten());
            &&& out.1 == scan_frames(pending + chunks.flatten())
            &&& out.0.done == sc.ended
            &&& !sc.ended ==> out.0.pending == sc.rest
        }),
    decreases chunks.len(),
{
    let total = pending + chunks.flatten();
    if chunks.len() == 0 {
        assert(total =~= pending);
        assert(scan(pending).frames.map_values(|x: Seq<u8>| frame_of(x)) =~= seq![]);
    } else {
        let c = chunks[0];
        let more = chunks.drop_first().flatten();
        assert(chunks.flatten() == c + more);
        assert(total =~= (pending + c) + more);
        lemma_scan_append(pending + c, more);
        let sc1 = scan(pending + c);
        if sc1.ended {
            lemma_run_done(DecoderState { pending: sc1.rest, done: true }, chunks.drop_first());
            assert(scan_frames(pending + c) + seq![] =~= scan_frames(pending + c));
        } else {
            lemma_scan_rest(pending + c);
            lemma_run_scans(sc1.rest, chunks.drop_first());
            lemma_map_concat(sc1.frames, scan(sc1.rest + more).frames);
        }
    }
}

/// Unless the sentinel ended the scan, no delimiter is left over.
pub proof fn lemma_scan_rest(s: Seq<u8>)
    ensures
        !scan(s).ended ==> first_delim(scan(s).rest) < 0,
    decreases s.len(),
{
    let p = first_delim(s);
    if p >= 0 {
        crate::frame::lemma_first_delim_bounds(s, 0);
        if s.subrange(0, p) != crate::frame::sentinel() {
            lemma_scan_rest(s.subrange(p + 2, s.len() as int));
        }
    }
}

/// A done decoder stays as it is and yields nothing.
pub proof fn lemma_run_done(st: DecoderState, chunks: Seq<Seq<u8>>)
    requires
        st.done,
    ensures
        run(st, chunks) == (st, Seq::<FrameSpec>::empty()),
    decreases chunks.len(),
{
    if chunks.len() > 0 {
        lemma_run_done(st, chunks.drop_first());
        assert(seq![] + Seq::<FrameSpec>::empty() =~= Seq::<FrameSpec>::empty());
    }
}

/// Split invariance: two ways of cutting the same bytes into chunks give a
/// fresh decoder the same frames, in the same order, and the same final
/// lifecycle state.
pub proof fn law_split_invariance(a: Seq<Seq<u8>>, b: Seq<Seq<u8>>)
    requires
        a.flatten() == b.flatten(),
    ensures
        run(initial_state(), a).1 == run(initial_state(), b).1,
        run(initial_state(), a).0.done == run(initial_state(), b).0.done,
{
    lemma_first_delim_none(seq![]);
    lemma_run_scans(seq![], a);
    lemma_run_scans(seq![], b);
}

/// The frames a fresh decoder yields over any chunking are those of the
/// whole byte stream taken at once.
pub proof fn law_chunked_equals_whole(chunks: Seq<Seq<u8>>)
    ensures
        run(initial_state(), chunks).1 == scan_frames(chunks.flatten()),
{
    lemma_first_delim_none(seq![]);
    lemma_run_scans(seq![], chunks);
    assert(Seq::<u8>::empty() + chunks.flatten() =~= chunks.flatten());
}

/// Feeding one more chunk after a run extends that run.
pub proof fn lemma_run_push(st: DecoderState, chunks: Seq<Seq<u8>>, c: Seq<u8>)
    ensures
        run(st, chunks.push(c)) == ({
            let before = run(st, chunks);
            let last = feed(before.0, c);
            (last.0, before.1 + last.1)
        }),
    decreases chunks.len(),
{
    if chunks.len() == 0 {
        assert(chunks.push(c).drop_first() =~= Seq::<Seq<u8>>::empty());
        assert(chunks.push(c)[0] == c);
        assert(run(feed(st, c).0, Seq::<Seq<u8>>::empty()).1 == Seq::<FrameSpec>::empty());
        assert(feed(st, c).1 + Seq::<FrameSpec>::empty() =~= feed(st, c).1);
        assert(Seq::<FrameSpec>::empty() + feed(st, c).1 =~= feed(st, c).1);
    } else {
        let first = feed(st, chunks[0]);
        assert(chunks.push(c)[0] == chunks[0]);
        assert(chunks.push(c).drop_first() =~= chunks.drop_first().push(c));
        lemma_run_push(first.0, chunks.drop_first(), c);
        let rest = run(first.0, chunks.drop_first());
        let last = feed(rest.0, c);
        assert(first.1 + (rest.1 + last.1) =~= (first.1 + rest.1) + last.1);
    }
}

/// Feeds every chunk, in order, to a fresh decoder; returns all the frames
/// taken and whether the stream ended cleanly.
pub fn decode_chunks(chunks: &Vec<Vec<u8>>) -> (r: (Vec<Frame>, Result<(), AiError>))
    ensures
        r.0@.map_values(|f: Frame| f@) == run(
            initial_state(),
            chunks@.map_values(|c: Vec<u8>| c@),
        ).1,
        r.0@.map_values(|f: Frame| f@) == scan_frames(
            chunks@.map_values(|c: Vec<u8>| c@).flatten(),
        ),
        (r.1 is Ok) == run(initial_state(), chunks@.map_values(|c: Vec<u8>| c@)).0.done,
        r.1 is Err ==> r.1 == Err::<(), AiError>(AiError::AbnormalTermination),
{
    let ghost cs = chunks@.map_values(|c: Vec<u8>| c@);
    let mut decoder = StreamFrameDecoder::new();
    let mut out: Vec<Frame> = Vec::new();
    let mut i: usize = 0;
    while i < chunks.len()
        invariant
            i <= chunks@.len(),
            cs == chunks@.map_values(|c: Vec<u8>| c@),
            decoder@ == run(initial_state(), cs.take(i as int)).0,
            out@.map_values(|f: Frame| f@) == run(initial_state(), cs.take(i as int)).1,
        decreases chunks@.len() - i,
    {
        let mut frames = decoder.ingest(chunks[i].as_slice());
        proof {
            assert(cs.take(i + 1) =~= cs.take(i as int).push(chunks@[i as int]@));
            lemma_run_push(initial_state(), cs.take(i as int), chunks@[i as int]@);
        }
        let ghost before = out@;
        let ghost added = frames@;
        out.append(&mut frames);
        assert(out@.map_values(|f: Frame| f@) =~= before.map_values(|f: Frame| f@)
            + added.map_values(|f: Frame| f@));
        i = i + 1;
    }
    proof {
        assert(cs.take(chunks@.len() as int) =~= cs);
        law_chunked_equals_whole(cs);
    }
    let status = decoder.finish();
    (out, status)
}

/// The text that data frames contribute, given what each payload yields.
pub open spec fn text_of(
    frames: Seq<FrameSpec>,
    fragment: spec_fn(Seq<char>) -> Seq<char>,
) -> Seq<char>
    decreases frames.len(),
{
    if frames.len() == 0 {
        seq![]
    } else {
        let head = match frames[0] {
            FrameSpec::Data(p) => fragment(p),
            _ => seq![],
        };
        head + text_of(frames.drop_first(), fragment)
    }
}

/// No text is lost or duplicated by chunking: whatever each payload yields,
/// the text over all frames a fresh decoder takes from any chunking equals
/// the text over the frames of the whole byte stream.
pub proof fn law_text_independent_of_chunking(
    chunks: Seq<Seq<u8>>,
    fragment: spec_fn(Seq<char>) -> Seq<char>,
)
    ensures
        text_of(run(initial_state(), chunks).1, fragment) == text_of(
            scan_frames(chunks.flatten()),
            fragment,
        ),
{
    law_chunked_equals_whole(chunks);
}

/// After the termination sentinel nothing is taken, whatever bytes follow.
pub proof fn law_done_takes_nothing(st: DecoderState, chunk: Seq<u8>)
    requires
        st.done,
    ensures
        feed(st, chunk) == (st, Seq::<FrameSpec>::empty()),
{
}

} // verus!

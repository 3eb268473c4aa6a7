//! Frames of the event stream and their classification.
use vstd::prelude::*;

verus! {

/// Byte value of a line break.
pub const LINE_FEED: u8 = 10;

/// `true` when a frame delimiter (two consecutive line breaks) starts at `i`.
pub open spec fn is_delim(s: Seq<u8>, i: int) -> bool {
    0 <= i && i + 1 < s.len() && s[i] == LINE_FEED && s[i + 1] == LINE_FEED
}

/// Index of the first delimiter at or after `i`, or -1 when there is none.
pub open spec fn first_delim_from(s: Seq<u8>, i: int) -> int
    decreases s.len() - i,
{
    if i < 0 || i + 1 >= s.len() {
        -1
    } else if is_delim(s, i) {
        i
    } else {
        first_delim_from(s, i + 1)
    }
}

/// Index of the first delimiter of `s`, or -1 when there is none.
pub open spec fn first_delim(s: Seq<u8>) -> int {
    first_delim_from(s, 0)
}

/// The literal bytes `data: `, which open a data frame.
pub open spec fn data_prefix() -> Seq<u8> {
    seq![100u8, 97, 116, 97, 58, 32]
}

/// The literal bytes `data: [DONE]`, the frame that ends the stream.
pub open spec fn sentinel() -> Seq<u8> {
    data_prefix() + seq![91u8, 68, 79, 78, 69, 93]
}

/// Name for what `String::from_utf8_lossy` makes of a byte sequence.
pub uninterp spec fn lossy_utf8(b: Seq<u8>) -> Seq<char>;

/// Relies on `String::from_utf8_lossy`: decodes the bytes as UTF-8, each
/// invalid sequence replaced by U+FFFD; the text depends on the bytes alone.
#[verifier::external_body]
pub(crate) fn decode_lossy(b: &[u8]) -> (r: String)
    ensures
        r@ == lossy_utf8(b@),
{
    String::from_utf8_lossy(b).into_owned()
}

/// What a frame means, independent of its representation.
pub ghost enum FrameSpec {
    End,
    Data(Seq<char>),
    Other,
}

/// A classified frame.
#[derive(Debug, PartialEq, Eq)]
pub enum Frame {
    /// The termination sentinel `data: [DONE]`.
    End,
    /// A data frame: the text after the `data: ` marker, decoded permissively.
    Data(String),
    /// Any other frame; it carries nothing the decoder uses.
    Other,
}

impl View for Frame {
    type V = FrameSpec;

    open spec fn view(&self) -> FrameSpec {
        match self {
            Frame::End => FrameSpec::End,
            Frame::Data(s) => FrameSpec::Data(s@),
            Frame::Other => FrameSpec::Other,
        }
    }
}

/// The meaning of the bytes of one frame (delimiter excluded).
pub open spec fn frame_of(b: Seq<u8>) -> FrameSpec {
    if b == sentinel() {
        FrameSpec::End
    } else if b.len() >= data_prefix().len() && b.subrange(0, data_prefix().len() as int)
        == data_prefix() {
        FrameSpec::Data(lossy_utf8(b.subrange(data_prefix().len() as int, b.len() as int)))
    } else {
        FrameSpec::Other
    }
}

/// The bytes of `data: [DONE]`.
fn sentinel_bytes() -> (r: Vec<u8>)
    ensures
        r@ == sentinel(),
{
    let r = vec![100u8, 97, 116, 97, 58, 32, 91, 68, 79, 78, 69, 93];
    assert(r@ =~= sentinel());
    r
}

/// Whether `b` starts with `pat`.
fn starts_with(b: &[u8], pat: &[u8]) -> (r: bool)
    ensures
        r == (pat@.len() <= b@.len() && b@.subrange(0, pat@.len() as int) == pat@),
{
    if pat.len() > b.len() {
        return false;
    }
    let mut i: usize = 0;
    while i < pat.len()
        invariant
            pat@.len() <= b@.len(),
            i <= pat@.len(),
            b@.subrange(0, i as int) == pat@.subrange(0, i as int),
        decreases pat@.len() - i,
    {
        if b[i] != pat[i] {
            assert(b@.subrange(0, pat@.len() as int)[i as int] != pat@[i as int]);
            return false;
        }
        i = i + 1;
        assert(b@.subrange(0, i as int) =~= pat@.subrange(0, i as int));
    }
    assert(pat@.subrange(0, i as int) =~= pat@);
    true
}

/// Classifies the bytes of one frame: the termination sentinel, a data
/// frame (its payload after `data: ` decoded permissively), or anything else.
pub fn classify_frame(b: &[u8]) -> (r: Frame)
    ensures
        r@ == frame_of(b@),
{
    let end_marker = sentinel_bytes();
    let prefix_len: usize = 6;
    if b.len() == end_marker.len() && starts_with(b, end_marker.as_slice()) {
        assert(b@ =~= b@.subrange(0, end_marker@.len() as int));
        return Frame::End;
    }
    assert(b@ != sentinel()) by {
        if b@ == sentinel() {
            assert(b@.subrange(0, b@.len() as int) =~= b@);
        }
    }
    let prefix = vstd::slice::slice_subrange(end_marker.as_slice(), 0, prefix_len);
    assert(prefix@ =~= data_prefix());
    if starts_with(b, prefix) {
        let payload = vstd::slice::slice_subrange(b, prefix_len, b.len());
        Frame::Data(decode_lossy(payload))
    } else {
        Frame::Other
    }
}

/// Result of scanning a byte sequence for frames.
pub ghost struct Scan {
    /// The bytes of each complete frame found, in order, delimiters excluded.
    pub frames: Seq<Seq<u8>>,
    /// The bytes after the last frame taken.
    pub rest: Seq<u8>,
    /// Whether the last frame taken is the termination sentinel.
    pub ended: bool,
}

/// Cuts complete frames off the front of `s`, left to right, and stops after
/// the termination sentinel or where no delimiter is left.
pub open spec fn scan(s: Seq<u8>) -> Scan
    decreases s.len(),
    via scan_decreases
{
    let p = first_delim(s);
    if p < 0 {
        Scan { frames: seq![], rest: s, ended: false }
    } else {
        let b = s.subrange(0, p);
        let tail = s.subrange(p + 2, s.len() as int);
        if b == sentinel() {
            Scan { frames: seq![b], rest: tail, ended: true }
        } else {
            let r = scan(tail);
            Scan { frames: seq![b] + r.frames, rest: r.rest, ended: r.ended }
        }
    }
}

/// The classified frames of a scan.
pub open spec fn scan_frames(s: Seq<u8>) -> Seq<FrameSpec> {
    scan(s).frames.map_values(|b: Seq<u8>| frame_of(b))
}

#[via_fn]
proof fn scan_decreases(s: Seq<u8>) {
    lemma_first_delim_bounds(s, 0);
}

pub(crate) proof fn lemma_first_delim_bounds(s: Seq<u8>, i: int)
    requires
        0 <= i,
    ensures
        first_delim_from(s, i) == -1 || (i <= first_delim_from(s, i) && is_delim(
            s,
            first_delim_from(s, i),
        )),
        first_delim_from(s, i) >= 0 ==> forall|k: int|
            i <= k < first_delim_from(s, i) ==> !is_delim(s, k),
        first_delim_from(s, i) == -1 ==> forall|k: int| i <= k ==> !is_delim(s, k),
    decreases s.len() - i,
{
    if i < 0 || i + 1 >= s.len() {
    } else if is_delim(s, i) {
    } else {
        lemma_first_delim_bounds(s, i + 1);
    }
}

/// A delimiter found in `t` is found at the same place in `t + u`.
pub(crate) proof fn lemma_first_delim_extend(t: Seq<u8>, u: Seq<u8>, i: int)
    requires
        0 <= i,
        first_delim_from(t, i) >= 0,
    ensures
        first_delim_from(t + u, i) == first_delim_from(t, i),
    decreases t.len() - i,
{
    if is_delim(t, i) {
        assert(is_delim(t + u, i));
    } else {
        assert(!is_delim(t + u, i)) by {
            lemma_first_delim_bounds(t, i);
        }
        lemma_first_delim_extend(t, u, i + 1);
    }
}

/// Scanning `t + u` takes the frames of `t`, then, unless `t` ended the
/// stream, scans what `t` left over followed by `u`.
pub proof fn lemma_scan_append(t: Seq<u8>, u: Seq<u8>)
    ensures
        scan(t).ended ==> scan(t + u) == (Scan {
            frames: scan(t).frames,
            rest: scan(t).rest + u,
            ended: true,
        }),
        !scan(t).ended ==> scan(t + u) == (Scan {
            frames: scan(t).frames + scan(scan(t).rest + u).frames,
            rest: scan(scan(t).rest + u).rest,
            ended: scan(scan(t).rest + u).ended,
        }),
    decreases t.len(),
{
    let p = first_delim(t);
    if p < 0 {
        assert(scan(t).frames + scan(t + u).frames =~= scan(t + u).frames);
    } else {
        lemma_first_delim_bounds(t, 0);
        lemma_first_delim_extend(t, u, 0);
        let s = t + u;
        assert(s.subrange(0, p) =~= t.subrange(0, p));
        let tail = t.subrange(p + 2, t.len() as int);
        assert(s.subrange(p + 2, s.len() as int) =~= tail + u);
        if t.subrange(0, p) == sentinel() {
        } else {
            lemma_scan_append(tail, u);
            let b = t.subrange(0, p);
            if !scan(tail).ended {
                assert(seq![b] + scan(tail).frames + scan(scan(tail).rest + u).frames
                    =~= seq![b] + (scan(tail).frames + scan(scan(tail).rest + u).frames));
            }
        }
    }
}

/// Two line breaks: the frame delimiter.
pub open spec fn delimiter() -> Seq<u8> {
    seq![LINE_FEED, LINE_FEED]
}

/// `b` followed by a delimiter makes exactly one frame: `b` holds no
/// delimiter, and does not end with a line break.
pub open spec fn is_whole_frame(b: Seq<u8>) -> bool {
    first_delim(b + delimiter()) == b.len()
}

/// The bytes of frames, each followed by its delimiter.
pub open spec fn join_frames(frames: Seq<Seq<u8>>) -> Seq<u8>
    decreases frames.len(),
{
    if frames.len() == 0 {
        seq![]
    } else {
        frames[0] + delimiter() + join_frames(frames.drop_first())
    }
}

/// No byte is dropped or taken twice: the frames found, each with its
/// delimiter, followed by the bytes left over, are the input exactly.
pub proof fn law_scan_keeps_every_byte(s: Seq<u8>)
    ensures
        join_frames(scan(s).frames) + scan(s).rest == s,
    decreases s.len(),
{
    let p = first_delim(s);
    if p < 0 {
        assert(join_frames(scan(s).frames) + scan(s).rest =~= s);
    } else {
        lemma_first_delim_bounds(s, 0);
        let b = s.subrange(0, p);
        let tail = s.subrange(p + 2, s.len() as int);
        assert(s =~= b + delimiter() + tail);
        if b == sentinel() {
            assert(seq![b].drop_first() =~= seq![]);
            assert(join_frames(seq![b]) == b + delimiter() + join_frames(seq![]));
            assert(join_frames(scan(s).frames) + scan(s).rest =~= s);
        } else {
            law_scan_keeps_every_byte(tail);
            let fs = seq![b] + scan(tail).frames;
            assert(fs.drop_first() =~= scan(tail).frames);
            assert(join_frames(fs) + scan(tail).rest =~= b + delimiter() + (join_frames(
                scan(tail).frames,
            ) + scan(tail).rest));
        }
    }
}

/// After the frames of `s`, a whole frame `b` that is a data frame (with any
/// payload, well formed or not, with text or without) does not stop
/// decoding: the frames of `more` follow it.
pub proof fn law_data_frame_continues(s: Seq<u8>, b: Seq<u8>, more: Seq<u8>)
    requires
        !scan(s).ended,
        scan(s).rest.len() == 0,
        is_whole_frame(b),
        frame_of(b) is Data,
    ensures
        scan(s + b + delimiter() + more).frames == scan(s).frames + seq![b] + scan(more).frames,
        scan(s + b + delimiter() + more).ended == scan(more).ended,
{
    let u = b + delimiter() + more;
    assert(s + b + delimiter() + more =~= s + u);
    lemma_scan_append(s, u);
    assert(scan(s).rest + u =~= u);
    assert(u =~= (b + delimiter()) + more);
    lemma_first_delim_extend(b + delimiter(), more, 0);
    assert(u.subrange(0, b.len() as int) =~= b);
    assert(u.subrange(b.len() as int + 2, u.len() as int) =~= more);
    assert(scan(s).frames + (seq![b] + scan(more).frames) =~= scan(s).frames + seq![b] + scan(
        more,
    ).frames);
}

/// After the frames of `s`, the termination sentinel ends decoding: it is
/// the last frame taken, and none of the bytes after it is.
pub proof fn law_sentinel_stops(s: Seq<u8>, more: Seq<u8>)
    requires
        !scan(s).ended,
        scan(s).rest.len() == 0,
    ensures
        scan(s + sentinel() + delimiter() + more).frames == scan(s).frames + seq![sentinel()],
        scan(s + sentinel() + delimiter() + more).ended,
        scan(s + sentinel() + delimiter() + more).rest == more,
        frame_of(sentinel()) == FrameSpec::End,
{
    let u = sentinel() + delimiter() + more;
    assert(s + sentinel() + delimiter() + more =~= s + u);
    lemma_scan_append(s, u);
    assert(scan(s).rest + u =~= u);
    assert(u =~= (sentinel() + delimiter()) + more);
    let w = sentinel() + delimiter();
    assert(first_delim(w) == 12) by {
        assert forall|k: int| 0 <= k < 12 implies first_delim_from(w, k) == 12 by {
            lemma_first_delim_walk(w, k, 12);
        }
    }
    lemma_first_delim_extend(w, more, 0);
    assert(u.subrange(0, 12) =~= sentinel());
    assert(u.subrange(14, u.len() as int) =~= more);
}

/// With no delimiter in `[i, p)` and one at `p`, the search from `i` finds `p`.
proof fn lemma_first_delim_walk(s: Seq<u8>, i: int, p: int)
    requires
        0 <= i <= p,
        is_delim(s, p),
        forall|k: int| i <= k < p ==> !is_delim(s, k),
    ensures
        first_delim_from(s, i) == p,
    decreases p - i,
{
    if i < p {
        lemma_first_delim_walk(s, i + 1, p);
    }
}

/// A sequence that ended stays ended, with the same frames, whatever bytes
/// are appended.
pub proof fn law_end_is_final(s: Seq<u8>, more: Seq<u8>)
    requires
        scan(s).ended,
    ensures
        scan(s + more).ended,
        scan(s + more).frames == scan(s).frames,
{
    lemma_scan_append(s, more);
}

} // verus!

use vstd::prelude::*;

use crate::num::dec_i;
use crate::num::dec_u;
use crate::num::push_dec_i64;
use crate::num::push_dec_u64;

verus! {

/// One typed unit of the wire protocol: the unit of parse and encode.
///
/// Text-like payloads are kept as raw bytes: the protocol frames bytes, and
/// keys are compared as byte sequences. A `Double` keeps the decimal text of
/// the number exactly as it stood on the wire, so encoding is bit-exact.
pub enum Frame {
    SimpleString(Vec<u8>),
    Error(Vec<u8>),
    Integer(i64),
    BulkString(Option<Vec<u8>>),
    Array(Option<Vec<Frame>>),
    Null,
    Boolean(bool),
    Double(Vec<u8>),
    BigNumber(Vec<u8>),
    BulkError(Vec<u8>),
    VerbatimString { subtype: Vec<u8>, data: Vec<u8> },
    MapFrame(Option<Vec<(Frame, Frame)>>),
    SetFrame(Option<Vec<Frame>>),
    Attribute(Option<Vec<(Frame, Frame)>>),
    Push(Option<Vec<Frame>>),
}

/// The mathematical shape of a frame: what the contracts speak of.
pub enum FrameView {
    SimpleString(Seq<u8>),
    Error(Seq<u8>),
    Integer(i64),
    BulkString(Option<Seq<u8>>),
    Array(Option<Seq<FrameView>>),
    Null,
    Boolean(bool),
    Double(Seq<u8>),
    BigNumber(Seq<u8>),
    BulkError(Seq<u8>),
    VerbatimString { subtype: Seq<u8>, data: Seq<u8> },
    MapFrame(Option<Seq<(FrameView, FrameView)>>),
    SetFrame(Option<Seq<FrameView>>),
    Attribute(Option<Seq<(FrameView, FrameView)>>),
    Push(Option<Seq<FrameView>>),
}

/// Holds of a shorter sequence whose elements all come from a longer one:
/// the shorter stands lower in the termination order.
proof fn lemma_drop_first_decreases<A>(s: Seq<A>)
    requires
        s.len() > 0,
    ensures
        decreases_to!(s => s.drop_first()),
{
    assert forall|i2: int|
        0 <= i2 < s.drop_first().len() && #[trigger] vstd::pervasive::trigger(
            s.drop_first()[i2],
        ) implies exists|i1: int| 0 <= i1 < s.len() && s[i1] == s.drop_first()[i2] by {
        assert(s[i2 + 1] == s.drop_first()[i2]);
    }
    vstd::seq::axiom_seq_len_decreases(s, s.drop_first());
}

/// The views of a sequence of frames, element by element.
pub open spec fn frames_view(s: Seq<Frame>) -> Seq<FrameView>
    decreases s,
        via frames_view_dec
{
    if s.len() == 0 {
        Seq::empty()
    } else {
        seq![s[0]@] + frames_view(s.drop_first())
    }
}

#[via_fn]
proof fn frames_view_dec(s: Seq<Frame>) {
    if s.len() > 0 {
        vstd::seq::axiom_seq_index_decreases(s, 0);
        lemma_drop_first_decreases(s);
    }
}

/// The views of a sequence of frame pairs, element by element.
pub open spec fn pairs_view(s: Seq<(Frame, Frame)>) -> Seq<(FrameView, FrameView)>
    decreases s,
        via pairs_view_dec
{
    if s.len() == 0 {
        Seq::empty()
    } else {
        seq![(s[0].0@, s[0].1@)] + pairs_view(s.drop_first())
    }
}

#[via_fn]
proof fn pairs_view_dec(s: Seq<(Frame, Frame)>) {
    if s.len() > 0 {
        vstd::seq::axiom_seq_index_decreases(s, 0);
        lemma_drop_first_decreases(s);
    }
}

impl View for Frame {
    type V = FrameView;

    open spec fn view(&self) -> FrameView
        decreases self,
    {
        match self {
            Frame::SimpleString(s) => FrameView::SimpleString(s@),
            Frame::Error(s) => FrameView::Error(s@),
            Frame::Integer(i) => FrameView::Integer(*i),
            Frame::BulkString(b) => FrameView::BulkString(
                match b {
                    Some(v) => Some(v@),
                    None => None,
                },
            ),
            Frame::Array(items) => FrameView::Array(
                match items {
                    Some(v) => Some(frames_view(v@)),
                    None => None,
                },
            ),
            Frame::Null => FrameView::Null,
            Frame::Boolean(b) => FrameView::Boolean(*b),
            Frame::Double(t) => FrameView::Double(t@),
            Frame::BigNumber(t) => FrameView::BigNumber(t@),
            Frame::BulkError(t) => FrameView::BulkError(t@),
            Frame::VerbatimString { subtype, data } => FrameView::VerbatimString {
                subtype: subtype@,
                data: data@,
            },
            Frame::MapFrame(pairs) => FrameView::MapFrame(
                match pairs {
                    Some(v) => Some(pairs_view(v@)),
                    None => None,
                },
            ),
            Frame::SetFrame(items) => FrameView::SetFrame(
                match items {
                    Some(v) => Some(frames_view(v@)),
                    None => None,
                },
            ),
            Frame::Attribute(pairs) => FrameView::Attribute(
                match pairs {
                    Some(v) => Some(pairs_view(v@)),
                    None => None,
                },
            ),
            Frame::Push(items) => FrameView::Push(
                match items {
                    Some(v) => Some(frames_view(v@)),
                    None => None,
                },
            ),
        }
    }
}

/// The views of a frame sequence, indexed: element `i` of the view sequence
/// is the view of element `i`.
pub broadcast proof fn lemma_frames_view_index(s: Seq<Frame>)
    ensures
        (#[trigger] frames_view(s)).len() == s.len(),
        forall|i: int| 0 <= i < s.len() ==> frames_view(s)[i] == s[i]@,
    decreases s.len(),
{
    if s.len() > 0 {
        lemma_frames_view_index(s.drop_first());
        assert(frames_view(s) == seq![s[0]@] + frames_view(s.drop_first()));
        assert forall|i: int| 0 <= i < s.len() implies frames_view(s)[i] == s[i]@ by {
            if i > 0 {
                assert(frames_view(s)[i] == frames_view(s.drop_first())[i - 1]);
                assert(frames_view(s.drop_first())[i - 1] == s.drop_first()[i - 1]@);
                assert(s.drop_first()[i - 1] == s[i]);
            }
        }
    }
}

/// The views of a pair sequence, indexed likewise.
pub broadcast proof fn lemma_pairs_view_index(s: Seq<(Frame, Frame)>)
    ensures
        (#[trigger] pairs_view(s)).len() == s.len(),
        forall|i: int| 0 <= i < s.len() ==> pairs_view(s)[i] == (s[i].0@, s[i].1@),
    decreases s.len(),
{
    if s.len() > 0 {
        lemma_pairs_view_index(s.drop_first());
        assert(pairs_view(s) == seq![(s[0].0@, s[0].1@)] + pairs_view(s.drop_first()));
        assert forall|i: int| 0 <= i < s.len() implies pairs_view(s)[i] == (s[i].0@, s[i].1@) by {
            if i > 0 {
                assert(pairs_view(s)[i] == pairs_view(s.drop_first())[i - 1]);
                assert(pairs_view(s.drop_first())[i - 1] == (
                    s.drop_first()[i - 1].0@,
                    s.drop_first()[i - 1].1@,
                ));
                assert(s.drop_first()[i - 1] == s[i]);
            }
        }
    }
}

/// The frame terminator: CR LF.
pub open spec fn crlf() -> Seq<u8> {
    seq![13u8, 10u8]
}

/// Bytes that may stand in a line-framed payload: anything but CR and LF.
pub open spec fn line_ok(s: Seq<u8>) -> bool {
    forall|i: int| 0 <= i < s.len() ==> #[trigger] s[i] != 13 && s[i] != 10
}

/// The wire bytes of a frame: one tag byte, a body, and a terminator, with
/// aggregates carrying their children in order. Null aggregates carry the
/// sentinel length -1.
pub open spec fn spec_encode(f: FrameView) -> Seq<u8>
    decreases f,
{
    match f {
        FrameView::SimpleString(s) => seq![43u8] + s + crlf(),
        FrameView::Error(s) => seq![45u8] + s + crlf(),
        FrameView::Integer(i) => seq![58u8] + dec_i(i as int) + crlf(),
        FrameView::BulkString(Some(b)) => seq![36u8] + dec_u(b.len()) + crlf() + b + crlf(),
        FrameView::BulkString(None) => seq![36u8, 45u8, 49u8] + crlf(),
        FrameView::Array(Some(items)) => seq![42u8] + dec_u(items.len()) + crlf() + encode_frames(
            items,
        ),
        FrameView::Array(None) => seq![42u8, 45u8, 49u8] + crlf(),
        FrameView::Null => seq![95u8] + crlf(),
        FrameView::Boolean(b) => seq![35u8, if b { 116u8 } else { 102u8 }] + crlf(),
        FrameView::Double(t) => seq![44u8] + t + crlf(),
        FrameView::BigNumber(t) => seq![40u8] + t + crlf(),
        FrameView::BulkError(t) => seq![33u8] + dec_u(t.len()) + crlf() + t + crlf(),
        FrameView::VerbatimString { subtype, data } => seq![61u8] + subtype + seq![32u8] + dec_u(
            data.len(),
        ) + crlf() + data + crlf(),
        FrameView::MapFrame(Some(pairs)) => seq![37u8] + dec_u(pairs.len()) + crlf() + encode_pairs(
            pairs,
        ),
        FrameView::MapFrame(None) => seq![37u8, 45u8, 49u8] + crlf(),
        FrameView::SetFrame(Some(items)) => seq![126u8] + dec_u(items.len()) + crlf()
            + encode_frames(items),
        FrameView::SetFrame(None) => seq![126u8, 45u8, 49u8] + crlf(),
        FrameView::Attribute(Some(pairs)) => seq![124u8] + dec_u(pairs.len()) + crlf()
            + encode_pairs(pairs),
        FrameView::Attribute(None) => seq![124u8, 45u8, 49u8] + crlf(),
        FrameView::Push(Some(items)) => seq![62u8] + dec_u(items.len()) + crlf() + encode_frames(
            items,
        ),
        FrameView::Push(None) => seq![62u8, 45u8, 49u8] + crlf(),
    }
}

/// The concatenated encodings of a sequence of frames.
pub open spec fn encode_frames(s: Seq<FrameView>) -> Seq<u8>
    decreases s,
        via encode_frames_dec
{
    if s.len() == 0 {
        Seq::empty()
    } else {
        spec_encode(s[0]).add(encode_frames(s.drop_first()))
    }
}

#[via_fn]
proof fn encode_frames_dec(s: Seq<FrameView>) {
    if s.len() > 0 {
        vstd::seq::axiom_seq_index_decreases(s, 0);
        lemma_drop_first_decreases(s);
    }
}

/// The concatenated encodings of a sequence of key/value pairs: each key
/// directly before its value.
pub open spec fn encode_pairs(s: Seq<(FrameView, FrameView)>) -> Seq<u8>
    decreases s,
        via encode_pairs_dec
{
    if s.len() == 0 {
        Seq::empty()
    } else {
        (spec_encode(s[0].0) + spec_encode(s[0].1)).add(encode_pairs(s.drop_first()))
    }
}

#[via_fn]
proof fn encode_pairs_dec(s: Seq<(FrameView, FrameView)>) {
    if s.len() > 0 {
        vstd::seq::axiom_seq_index_decreases(s, 0);
        lemma_drop_first_decreases(s);
    }
}

/// Appends a copy of `src` to `out`.
pub fn push_bytes(out: &mut Vec<u8>, src: &[u8])
    ensures
        final(out)@ == old(out)@ + src@,
{
    let mut i: usize = 0;
    while i < src.len()
        invariant
            i <= src@.len(),
            out@ == old(out)@ + src@.take(i as int),
        decreases src@.len() - i,
    {
        out.push(src[i]);
        proof {
            assert(old(out)@ + src@.take(i + 1) =~= (old(out)@ + src@.take(i as int)).push(
                src@[i as int],
            ));
        }
        i = i + 1;
    }
    proof {
        assert(src@.take(src@.len() as int) =~= src@);
    }
}

/// Appends the CR LF terminator to `out`.
fn push_crlf(out: &mut Vec<u8>)
    ensures
        final(out)@ == old(out)@ + crlf(),
{
    out.push(13);
    out.push(10);
    proof {
        assert(out@ =~= old(out)@ + crlf());
    }
}

/// Appends tag, payload and terminator: the wire form of every line frame.
fn push_line(out: &mut Vec<u8>, tag: u8, body: &Vec<u8>)
    ensures
        final(out)@ == old(out)@ + seq![tag] + body@ + crlf(),
{
    out.push(tag);
    push_bytes(out, body.as_slice());
    push_crlf(out);
}

/// Appends tag, decimal length, terminator, payload, terminator: the wire
/// form of a length-prefixed blob.
fn push_blob(out: &mut Vec<u8>, tag: u8, body: &Vec<u8>)
    ensures
        final(out)@ == old(out)@ + seq![tag] + dec_u(body@.len()) + crlf() + body@ + crlf(),
{
    out.push(tag);
    push_dec_u64(out, body.len() as u64);
    push_crlf(out);
    push_bytes(out, body.as_slice());
    push_crlf(out);
}

/// Appends the null form of an aggregate or bulk: tag then `-1`.
fn push_null_of(out: &mut Vec<u8>, tag: u8)
    ensures
        final(out)@ == old(out)@ + seq![tag, 45u8, 49u8] + crlf(),
{
    out.push(tag);
    out.push(45);
    out.push(49);
    push_crlf(out);
    proof {
        assert(out@ =~= old(out)@ + seq![tag, 45u8, 49u8] + crlf());
    }
}

/// Appends the header of a non-null aggregate: tag then the decimal count.
fn push_agg_header(out: &mut Vec<u8>, tag: u8, count: usize)
    ensures
        final(out)@ == old(out)@ + seq![tag] + dec_u(count as nat) + crlf(),
{
    out.push(tag);
    push_dec_u64(out, count as u64);
    push_crlf(out);
}

impl Frame {
    /// Serialises the frame into its exact wire bytes.
    pub fn encode(&self) -> (r: Vec<u8>)
        ensures
            r@ == spec_encode(self@),
    {
        let mut out: Vec<u8> = Vec::new();
        self.encode_into(&mut out);
        proof {
            assert(Seq::<u8>::empty() + spec_encode(self@) =~= spec_encode(self@));
        }
        out
    }

    /// Appends the frame's wire bytes to `out`.
    fn encode_into(&self, out: &mut Vec<u8>)
        ensures
            final(out)@ == old(out)@ + spec_encode(self@),
        decreases self,
    {
        match self {
            Frame::SimpleString(s) => push_line(out, 43, s),
            Frame::Error(s) => push_line(out, 45, s),
            Frame::Integer(i) => {
                out.push(58);
                push_dec_i64(out, *i);
                push_crlf(out);
            },
            Frame::BulkString(Some(b)) => push_blob(out, 36, b),
            Frame::BulkString(None) => push_null_of(out, 36),
            Frame::Array(Some(items)) => {
                push_agg_header(out, 42, items.len());
                encode_items(items, out);
            },
            Frame::Array(None) => push_null_of(out, 42),
            Frame::Null => {
                out.push(95);
                push_crlf(out);
            },
            Frame::Boolean(b) => {
                out.push(35);
                out.push(if *b { 116 } else { 102 });
                push_crlf(out);
            },
            Frame::Double(t) => push_line(out, 44, t),
            Frame::BigNumber(t) => push_line(out, 40, t),
            Frame::BulkError(t) => push_blob(out, 33, t),
            Frame::VerbatimString { subtype, data } => {
                out.push(61);
                push_bytes(out, subtype.as_slice());
                out.push(32);
                push_dec_u64(out, data.len() as u64);
                push_crlf(out);
                push_bytes(out, data.as_slice());
                push_crlf(out);
            },
            Frame::MapFrame(Some(pairs)) => {
                push_agg_header(out, 37, pairs.len());
                encode_pair_items(pairs, out);
            },
            Frame::MapFrame(None) => push_null_of(out, 37),
            Frame::SetFrame(Some(items)) => {
                push_agg_header(out, 126, items.len());
                encode_items(items, out);
            },
            Frame::SetFrame(None) => push_null_of(out, 126),
            Frame::Attribute(Some(pairs)) => {
                push_agg_header(out, 124, pairs.len());
                encode_pair_items(pairs, out);
            },
            Frame::Attribute(None) => push_null_of(out, 124),
            Frame::Push(Some(items)) => {
                push_agg_header(out, 62, items.len());
                encode_items(items, out);
            },
            Frame::Push(None) => push_null_of(out, 62),
        }
        proof {
            match self {
                Frame::SimpleString(s) => assert(out@ =~= old(out)@ + spec_encode(self@)),
                Frame::Error(s) => assert(out@ =~= old(out)@ + spec_encode(self@)),
                Frame::Integer(i) => assert(out@ =~= old(out)@ + spec_encode(self@)),
                Frame::BulkString(b) => assert(out@ =~= old(out)@ + spec_encode(self@)),
                Frame::Array(items) => {
                    if let Some(v) = items {
                        lemma_frames_view_index(v@);
                    }
                    assert(out@ =~= old(out)@ + spec_encode(self@));
                },
                Frame::Null => assert(out@ =~= old(out)@ + spec_encode(self@)),
                Frame::Boolean(b) => assert(out@ =~= old(out)@ + spec_encode(self@)),
                Frame::Double(t) => assert(out@ =~= old(out)@ + spec_encode(self@)),
                Frame::BigNumber(t) => assert(out@ =~= old(out)@ + spec_encode(self@)),
                Frame::BulkError(t) => assert(out@ =~= old(out)@ + spec_encode(self@)),
                Frame::VerbatimString { subtype, data } => assert(out@ =~= old(out)@ + spec_encode(
                    self@,
                )),
                Frame::MapFrame(pairs) => {
                    if let Some(v) = pairs {
                        lemma_pairs_view_index(v@);
                    }
                    assert(out@ =~= old(out)@ + spec_encode(self@));
                },
                Frame::SetFrame(items) => {
                    if let Some(v) = items {
                        lemma_frames_view_index(v@);
                    }
                    assert(out@ =~= old(out)@ + spec_encode(self@));
                },
                Frame::Attribute(pairs) => {
                    if let Some(v) = pairs {
                        lemma_pairs_view_index(v@);
                    }
                    assert(out@ =~= old(out)@ + spec_encode(self@));
                },
                Frame::Push(items) => {
                    if let Some(v) = items {
                        lemma_frames_view_index(v@);
                    }
                    assert(out@ =~= old(out)@ + spec_encode(self@));
                },
            }
        }
    }
}

/// Appends the encodings of all frames in `v`, in order.
fn encode_items(v: &Vec<Frame>, out: &mut Vec<u8>)
    ensures
        final(out)@ == old(out)@ + encode_frames(frames_view(v@)),
    decreases v,
{
    proof {
        lemma_frames_view_index(v@);
        assert(frames_view(v@).skip(0) =~= frames_view(v@));
    }
    let ghost fvs = frames_view(v@);
    let mut i: usize = 0;
    while i < v.len()
        invariant
            i <= v@.len(),
            fvs == frames_view(v@),
            fvs.len() == v@.len(),
            forall|j: int| 0 <= j < v@.len() ==> fvs[j] == v@[j]@,
            out@ + encode_frames(fvs.skip(i as int)) == old(out)@ + encode_frames(fvs),
        decreases v@.len() - i,
    {
        proof {
            assert(fvs.skip(i as int).drop_first() =~= fvs.skip(i + 1));
            assert(fvs.skip(i as int)[0] == fvs[i as int]);
            assert(encode_frames(fvs.skip(i as int)) == spec_encode(fvs[i as int]) + encode_frames(
                fvs.skip(i + 1),
            ));
        }
        let f = &v[i];
        f.encode_into(out);
        i = i + 1;
    }
    proof {
        assert(fvs.skip(v@.len() as int) =~= Seq::<FrameView>::empty());
        assert(out@ + Seq::<u8>::empty() =~= out@);
    }
}

/// Appends the encodings of all pairs in `v`: each key then its value.
fn encode_pair_items(v: &Vec<(Frame, Frame)>, out: &mut Vec<u8>)
    ensures
        final(out)@ == old(out)@ + encode_pairs(pairs_view(v@)),
    decreases v,
{
    proof {
        lemma_pairs_view_index(v@);
        assert(pairs_view(v@).skip(0) =~= pairs_view(v@));
    }
    let ghost pvs = pairs_view(v@);
    let mut i: usize = 0;
    while i < v.len()
        invariant
            i <= v@.len(),
            pvs == pairs_view(v@),
            pvs.len() == v@.len(),
            forall|j: int| 0 <= j < v@.len() ==> pvs[j] == (v@[j].0@, v@[j].1@),
            out@ + encode_pairs(pvs.skip(i as int)) == old(out)@ + encode_pairs(pvs),
        decreases v@.len() - i,
    {
        proof {
            assert(pvs.skip(i as int).drop_first() =~= pvs.skip(i + 1));
            assert(pvs.skip(i as int)[0] == pvs[i as int]);
            assert(encode_pairs(pvs.skip(i as int)) == (spec_encode(pvs[i as int].0) + spec_encode(
                pvs[i as int].1,
            )) + encode_pairs(pvs.skip(i + 1)));
        }
        let pair = &v[i];
        pair.0.encode_into(out);
        pair.1.encode_into(out);
        i = i + 1;
    }
    proof {
        assert(pvs.skip(v@.len() as int) =~= Seq::<(FrameView, FrameView)>::empty());
        assert(out@ + Seq::<u8>::empty() =~= out@);
    }
}

} // verus!

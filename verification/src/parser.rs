use vstd::prelude::*;

use crate::frame::Frame;
use crate::frame::FrameView;
use crate::num::all_digits;
use crate::num::dec_value;

verus! {

/// What one attempt to read a frame says: a frame and the position after its
/// terminator; too few bytes so far; or a malformed stream.
pub enum ParseOutcome {
    Done(FrameView, nat),
    Incomplete,
    Fail,
}

/// What reading a run of frames says.
pub enum ItemsOutcome {
    Done(Seq<FrameView>, nat),
    Incomplete,
    Fail,
}

/// What reading a run of key/value pairs says.
pub enum PairsOutcome {
    Done(Seq<(FrameView, FrameView)>, nat),
    Incomplete,
    Fail,
}

/// The position of the first CR LF at or after `from`.
pub open spec fn find_crlf(d: Seq<u8>, from: nat) -> Option<nat>
    decreases d.len() - from,
{
    if from + 2 > d.len() {
        None
    } else if d[from as int] == 13 && d[from as int + 1] == 10 {
        Some(from)
    } else {
        find_crlf(d, from + 1)
    }
}

/// Finds the first CR LF at or after `from`.
pub fn find_crlf_at(d: &[u8], from: usize) -> (r: Option<usize>)
    requires
        from <= d@.len(),
    ensures
        match r {
            Some(i) => find_crlf(d@, from as nat) == Some(i as nat) && from <= i && i + 2 <= d@.len(),
            None => find_crlf(d@, from as nat) is None,
        },
{
    let dlen = d.len();
    if dlen < 2 {
        return None;
    }
    let mut i: usize = from;
    while i <= dlen - 2
        invariant
            from <= i <= dlen,
            2 <= dlen == d@.len(),
            find_crlf(d@, from as nat) == find_crlf(d@, i as nat),
        decreases dlen - i,
    {
        if d[i] == 13 && d[i + 1] == 10 {
            return Some(i);
        }
        i = i + 1;
    }
    None
}

/// The signed 64-bit number a text denotes: an optional minus sign, then
/// decimal digits, within the range of `i64`.
pub open spec fn i64_text_value(s: Seq<u8>) -> Option<i64> {
    if s.len() >= 1 && s[0] == 45 {
        let digits = s.skip(1);
        if all_digits(digits) && dec_value(digits) <= 0x8000000000000000 {
            Some((-(dec_value(digits) as int)) as i64)
        } else {
            None
        }
    } else {
        if all_digits(s) && dec_value(s) <= i64::MAX {
            Some(dec_value(s) as i64)
        } else {
            None
        }
    }
}

/// Reads a signed decimal from `d[start..end]`.
pub fn parse_i64_text(d: &[u8], start: usize, end: usize) -> (r: Option<i64>)
    requires
        start <= end <= d@.len(),
    ensures
        r == i64_text_value(d@.subrange(start as int, end as int)),
{
    let ghost whole = d@.subrange(start as int, end as int);
    if start < end && d[start] == 45 {
        proof {
            assert(whole.skip(1) =~= d@.subrange(start as int + 1, end as int));
        }
        match crate::num::parse_u64_digits(d, start + 1, end) {
            Some(v) => {
                if v <= 0x8000000000000000 {
                    let r: i64 = if v == 0x8000000000000000 {
                        i64::MIN
                    } else {
                        -(v as i64)
                    };
                    Some(r)
                } else {
                    None
                }
            },
            None => None,
        }
    } else {
        match crate::num::parse_u64_digits(d, start, end) {
            Some(v) => {
                if v <= i64::MAX as u64 {
                    Some(v as i64)
                } else {
                    None
                }
            },
            None => None,
        }
    }
}

/// How many ASCII digits stand in a row at `i`.
pub open spec fn scan_digits(s: Seq<u8>, i: nat) -> nat
    decreases s.len() - i,
{
    if i < s.len() && 48 <= s[i as int] <= 57 {
        1 + scan_digits(s, i + 1)
    } else {
        0
    }
}

/// Whether a text reads as a decimal floating-point number: an optional
/// sign, then digits with at most one point among them (at least one digit
/// in all), then an optional exponent of `e` or `E`, an optional sign and at
/// least one digit.
pub open spec fn float_text(s: Seq<u8>) -> bool {
    let i0: nat = if s.len() >= 1 && (s[0] == 43 || s[0] == 45) {
        1
    } else {
        0
    };
    let d1 = scan_digits(s, i0);
    let i1 = i0 + d1;
    let has_dot = i1 < s.len() && s[i1 as int] == 46;
    let d2 = if has_dot {
        scan_digits(s, i1 + 1)
    } else {
        0
    };
    let i2: nat = if has_dot {
        i1 + 1 + d2
    } else {
        i1
    };
    let mant_ok = d1 + d2 > 0;
    if !mant_ok {
        false
    } else if i2 == s.len() {
        true
    } else if s[i2 as int] == 101 || s[i2 as int] == 69 {
        let i3: nat = if i2 + 1 < s.len() && (s[i2 as int + 1] == 43 || s[i2 as int + 1] == 45) {
            i2 + 2
        } else {
            i2 + 1
        };
        let d3 = scan_digits(s, i3);
        d3 > 0 && i3 + d3 == s.len()
    } else {
        false
    }
}

/// Counts the ASCII digits standing in a row at `i`.
fn scan_digits_at(s: &[u8], i: usize) -> (r: usize)
    requires
        i <= s@.len(),
    ensures
        r == scan_digits(s@, i as nat),
        i + r <= s@.len(),
    decreases s@.len() - i,
{
    if i < s.len() && 48 <= s[i] && s[i] <= 57 {
        1 + scan_digits_at(s, i + 1)
    } else {
        0
    }
}

/// Whether the bytes read as a decimal floating-point number.
fn is_float_text(s: &[u8]) -> (r: bool)
    ensures
        r == float_text(s@),
{
    let slen = s.len();
    let i0: usize = if slen >= 1 && (s[0] == 43 || s[0] == 45) {
        1
    } else {
        0
    };
    let d1 = scan_digits_at(s, i0);
    let i1 = i0 + d1;
    let has_dot = i1 < slen && s[i1] == 46;
    let d2: usize = if has_dot {
        scan_digits_at(s, i1 + 1)
    } else {
        0
    };
    let i2: usize = if has_dot {
        i1 + 1 + d2
    } else {
        i1
    };
    if d1 + d2 == 0 {
        return false;
    }
    if i2 == slen {
        return true;
    }
    if s[i2] == 101 || s[i2] == 69 {
        let i3: usize = if i2 + 1 < slen && (s[i2 + 1] == 43 || s[i2 + 1] == 45) {
            i2 + 2
        } else {
            i2 + 1
        };
        let d3 = scan_digits_at(s, i3);
        d3 > 0 && i3 + d3 == slen
    } else {
        false
    }
}

/// What the wire at `pos` denotes, reading at most `fuel` levels of nesting:
/// a tag byte picks the variant; line frames run to the next CR LF; bulk
/// payloads carry their length first; aggregates carry a count and then
/// their children in order. A count or bulk length of -1 gives the null
/// form; any other negative length is malformed, as is an unknown tag.
pub open spec fn spec_parse(d: Seq<u8>, pos: nat, fuel: nat) -> ParseOutcome
    decreases fuel, 0nat,
{
    if fuel == 0 {
        ParseOutcome::Incomplete
    } else if pos >= d.len() {
        ParseOutcome::Incomplete
    } else {
        let tag = d[pos as int];
        match find_crlf(d, pos + 1) {
            None => ParseOutcome::Incomplete,
            Some(eol) => {
                let body = d.subrange(pos as int + 1, eol as int);
                let next = eol + 2;
                if tag == 43 {
                    ParseOutcome::Done(FrameView::SimpleString(body), next)
                } else if tag == 45 {
                    ParseOutcome::Done(FrameView::Error(body), next)
                } else if tag == 58 {
                    match i64_text_value(body) {
                        Some(i) => ParseOutcome::Done(FrameView::Integer(i), next),
                        None => ParseOutcome::Fail,
                    }
                } else if tag == 95 {
                    ParseOutcome::Done(FrameView::Null, next)
                } else if tag == 35 {
                    if body == seq![116u8] {
                        ParseOutcome::Done(FrameView::Boolean(true), next)
                    } else if body == seq![102u8] {
                        ParseOutcome::Done(FrameView::Boolean(false), next)
                    } else {
                        ParseOutcome::Fail
                    }
                } else if tag == 44 {
                    if float_text(body) {
                        ParseOutcome::Done(FrameView::Double(body), next)
                    } else {
                        ParseOutcome::Fail
                    }
                } else if tag == 40 {
                    ParseOutcome::Done(FrameView::BigNumber(body), next)
                } else if tag == 36 || tag == 33 {
                    if tag == 36 && body == seq![45u8, 49u8] {
                        ParseOutcome::Done(FrameView::BulkString(None), next)
                    } else if all_digits(body) && dec_value(body) <= u64::MAX {
                        let len = dec_value(body);
                        if next + len + 2 > d.len() {
                            ParseOutcome::Incomplete
                        } else {
                            let data = d.subrange(next as int, (next + len) as int);
                            if tag == 36 {
                                ParseOutcome::Done(FrameView::BulkString(Some(data)), next + len + 2)
                            } else {
                                ParseOutcome::Done(FrameView::BulkError(data), next + len + 2)
                            }
                        }
                    } else {
                        ParseOutcome::Fail
                    }
                } else if tag == 61 {
                    match find_byte(d, pos + 1, eol, 32) {
                        None => ParseOutcome::Fail,
                        Some(sp) => {
                            let subtype = d.subrange(pos as int + 1, sp as int);
                            let lenpart = d.subrange(sp as int + 1, eol as int);
                            if all_digits(lenpart) && dec_value(lenpart) <= u64::MAX {
                                let len = dec_value(lenpart);
                                if next + len + 2 > d.len() {
                                    ParseOutcome::Incomplete
                                } else {
                                    ParseOutcome::Done(
                                        FrameView::VerbatimString {
                                            subtype,
                                            data: d.subrange(next as int, (next + len) as int),
                                        },
                                        next + len + 2,
                                    )
                                }
                            } else {
                                ParseOutcome::Fail
                            }
                        },
                    }
                } else if tag == 42 || tag == 126 || tag == 62 {
                    if body == seq![45u8, 49u8] {
                        let f = if tag == 42 {
                            FrameView::Array(None)
                        } else if tag == 126 {
                            FrameView::SetFrame(None)
                        } else {
                            FrameView::Push(None)
                        };
                        ParseOutcome::Done(f, next)
                    } else if all_digits(body) && dec_value(body) <= u64::MAX {
                        match spec_parse_items(d, next, dec_value(body) as u64, (fuel - 1) as nat) {
                            ItemsOutcome::Done(items, after) => {
                                let f = if tag == 42 {
                                    FrameView::Array(Some(items))
                                } else if tag == 126 {
                                    FrameView::SetFrame(Some(items))
                                } else {
                                    FrameView::Push(Some(items))
                                };
                                ParseOutcome::Done(f, after)
                            },
                            ItemsOutcome::Incomplete => ParseOutcome::Incomplete,
                            ItemsOutcome::Fail => ParseOutcome::Fail,
                        }
                    } else {
                        ParseOutcome::Fail
                    }
                } else if tag == 37 || tag == 124 {
                    if body == seq![45u8, 49u8] {
                        let f = if tag == 37 {
                            FrameView::MapFrame(None)
                        } else {
                            FrameView::Attribute(None)
                        };
                        ParseOutcome::Done(f, next)
                    } else if all_digits(body) && dec_value(body) <= u64::MAX {
                        match spec_parse_pairs(d, next, dec_value(body) as u64, (fuel - 1) as nat) {
                            PairsOutcome::Done(pairs, after) => {
                                let f = if tag == 37 {
                                    FrameView::MapFrame(Some(pairs))
                                } else {
                                    FrameView::Attribute(Some(pairs))
                                };
                                ParseOutcome::Done(f, after)
                            },
                            PairsOutcome::Incomplete => ParseOutcome::Incomplete,
                            PairsOutcome::Fail => ParseOutcome::Fail,
                        }
                    } else {
                        ParseOutcome::Fail
                    }
                } else {
                    ParseOutcome::Fail
                }
            },
        }
    }
}

/// `count` frames in a row, starting at `pos`.
pub open spec fn spec_parse_items(d: Seq<u8>, pos: nat, count: u64, fuel: nat) -> ItemsOutcome
    decreases fuel, count + 1nat,
{
    if count == 0 {
        ItemsOutcome::Done(Seq::empty(), pos)
    } else {
        match spec_parse(d, pos, fuel) {
            ParseOutcome::Done(f, p1) => match spec_parse_items(
                d,
                p1,
                (count - 1) as u64,
                fuel,
            ) {
                ItemsOutcome::Done(rest, after) => ItemsOutcome::Done(seq![f] + rest, after),
                ItemsOutcome::Incomplete => ItemsOutcome::Incomplete,
                ItemsOutcome::Fail => ItemsOutcome::Fail,
            },
            ParseOutcome::Incomplete => ItemsOutcome::Incomplete,
            ParseOutcome::Fail => ItemsOutcome::Fail,
        }
    }
}

/// `count` key/value pairs in a row, starting at `pos`.
pub open spec fn spec_parse_pairs(d: Seq<u8>, pos: nat, count: u64, fuel: nat) -> PairsOutcome
    decreases fuel, count + 1nat,
{
    if count == 0 {
        PairsOutcome::Done(Seq::empty(), pos)
    } else {
        match spec_parse(d, pos, fuel) {
            ParseOutcome::Done(k, p1) => match spec_parse(d, p1, fuel) {
                ParseOutcome::Done(v, p2) => match spec_parse_pairs(
                    d,
                    p2,
                    (count - 1) as u64,
                    fuel,
                ) {
                    PairsOutcome::Done(rest, after) => PairsOutcome::Done(
                        seq![(k, v)] + rest,
                        after,
                    ),
                    PairsOutcome::Incomplete => PairsOutcome::Incomplete,
                    PairsOutcome::Fail => PairsOutcome::Fail,
                },
                ParseOutcome::Incomplete => PairsOutcome::Incomplete,
                ParseOutcome::Fail => PairsOutcome::Fail,
            },
            ParseOutcome::Incomplete => PairsOutcome::Incomplete,
            ParseOutcome::Fail => PairsOutcome::Fail,
        }
    }
}

/// What one exec attempt to read a frame produced.
pub enum Parsed {
    Done(Frame, usize),
    Incomplete,
    Fail,
}

/// What an exec attempt says, as the specification speaks of it.
pub open spec fn parsed_outcome(r: Parsed) -> ParseOutcome {
    match r {
        Parsed::Done(f, next) => ParseOutcome::Done(f@, next as nat),
        Parsed::Incomplete => ParseOutcome::Incomplete,
        Parsed::Fail => ParseOutcome::Fail,
    }
}

/// What an exec attempt to read a run of frames produced.
pub enum ItemsParsed {
    Done(Vec<Frame>, usize),
    Incomplete,
    Fail,
}

/// What an exec items attempt says.
pub open spec fn items_outcome(r: ItemsParsed) -> ItemsOutcome {
    match r {
        ItemsParsed::Done(items, next) => ItemsOutcome::Done(
            crate::frame::frames_view(items@),
            next as nat,
        ),
        ItemsParsed::Incomplete => ItemsOutcome::Incomplete,
        ItemsParsed::Fail => ItemsOutcome::Fail,
    }
}

/// What an exec attempt to read a run of pairs produced.
pub enum PairsParsed {
    Done(Vec<(Frame, Frame)>, usize),
    Incomplete,
    Fail,
}

/// What an exec pairs attempt says.
pub open spec fn pairs_outcome(r: PairsParsed) -> PairsOutcome {
    match r {
        PairsParsed::Done(pairs, next) => PairsOutcome::Done(
            crate::frame::pairs_view(pairs@),
            next as nat,
        ),
        PairsParsed::Incomplete => PairsOutcome::Incomplete,
        PairsParsed::Fail => PairsOutcome::Fail,
    }
}

/// A run of frames with the outcome of the rest prepended.
pub open spec fn items_prepend(prefix: Seq<FrameView>, o: ItemsOutcome) -> ItemsOutcome {
    match o {
        ItemsOutcome::Done(s, n) => ItemsOutcome::Done(prefix + s, n),
        ItemsOutcome::Incomplete => ItemsOutcome::Incomplete,
        ItemsOutcome::Fail => ItemsOutcome::Fail,
    }
}

/// A run of pairs with the outcome of the rest prepended.
pub open spec fn pairs_prepend(prefix: Seq<(FrameView, FrameView)>, o: PairsOutcome) -> PairsOutcome {
    match o {
        PairsOutcome::Done(s, n) => PairsOutcome::Done(prefix + s, n),
        PairsOutcome::Incomplete => PairsOutcome::Incomplete,
        PairsOutcome::Fail => PairsOutcome::Fail,
    }
}

/// The position of the first `b` in `d[from..end]`.
pub open spec fn find_byte(d: Seq<u8>, from: nat, end: nat, b: u8) -> Option<nat>
    decreases end - from,
{
    if from >= end || from >= d.len() {
        None
    } else if d[from as int] == b {
        Some(from)
    } else {
        find_byte(d, from + 1, end, b)
    }
}

/// Finds the first `b` in `d[from..end]`.
pub fn find_byte_at(d: &[u8], from: usize, end: usize, b: u8) -> (r: Option<usize>)
    requires
        from <= end <= d@.len(),
    ensures
        match r {
            Some(i) => find_byte(d@, from as nat, end as nat, b) == Some(i as nat) && from <= i
                < end,
            None => find_byte(d@, from as nat, end as nat, b) is None,
        },
{
    let mut i: usize = from;
    while i < end
        invariant
            from <= i <= end <= d@.len(),
            find_byte(d@, from as nat, end as nat, b) == find_byte(d@, i as nat, end as nat, b),
        decreases end - i,
    {
        if d[i] == b {
            return Some(i);
        }
        i = i + 1;
    }
    None
}


/// Reads one frame at `pos`, exactly as `spec_parse` says at every
/// sufficient nesting allowance.
#[verifier::rlimit(100)]
fn parse_at(d: &[u8], pos: usize) -> (r: Parsed)
    requires
        pos <= d@.len(),
    ensures
        forall|fuel: nat|
            fuel >= d@.len() - pos + 1 ==> spec_parse(d@, pos as nat, fuel) == parsed_outcome(r),
        r matches Parsed::Done(f, next) ==> pos < next <= d@.len(),
    decreases d@.len() - pos, 0int,
{
    let dlen = d.len();
    if pos >= dlen {
        return Parsed::Incomplete;
    }
    let tag = d[pos];
    let eol = match find_crlf_at(d, pos + 1) {
        Some(e) => e,
        None => {
            return Parsed::Incomplete;
        },
    };
    let next = eol + 2;
    let ghost bodyg = d@.subrange(pos as int + 1, eol as int);
    if tag == 43 || tag == 45 || tag == 40 {
        let body = crate::num::copy_range(d, pos + 1, eol);
        let f = if tag == 43 {
            Frame::SimpleString(body)
        } else if tag == 45 {
            Frame::Error(body)
        } else {
            Frame::BigNumber(body)
        };
        proof {
            assert forall|fuel: nat| fuel >= d@.len() - pos + 1 implies #[trigger] spec_parse(
                d@,
                pos as nat,
                fuel,
            ) == ParseOutcome::Done(f@, next as nat) by {}
        }
        Parsed::Done(f, next)
    } else if tag == 58 {
        match parse_i64_text(d, pos + 1, eol) {
            Some(i) => {
                proof {
                    assert forall|fuel: nat| fuel >= d@.len() - pos + 1 implies #[trigger] spec_parse(
                        d@,
                        pos as nat,
                        fuel,
                    ) == ParseOutcome::Done(FrameView::Integer(i), next as nat) by {}
                }
                Parsed::Done(Frame::Integer(i), next)
            },
            None => {
                proof {
                    assert forall|fuel: nat| fuel >= d@.len() - pos + 1 implies #[trigger] spec_parse(
                        d@,
                        pos as nat,
                        fuel,
                    ) == ParseOutcome::Fail by {}
                }
                Parsed::Fail
            },
        }
    } else if tag == 95 {
        proof {
            assert forall|fuel: nat| fuel >= d@.len() - pos + 1 implies #[trigger] spec_parse(
                d@,
                pos as nat,
                fuel,
            ) == ParseOutcome::Done(FrameView::Null, next as nat) by {}
        }
        Parsed::Done(Frame::Null, next)
    } else if tag == 35 {
        if eol == pos + 2 && d[pos + 1] == 116 {
            proof {
                assert(bodyg =~= seq![116u8]);
                assert forall|fuel: nat| fuel >= d@.len() - pos + 1 implies #[trigger] spec_parse(
                    d@,
                    pos as nat,
                    fuel,
                ) == ParseOutcome::Done(FrameView::Boolean(true), next as nat) by {}
            }
            Parsed::Done(Frame::Boolean(true), next)
        } else if eol == pos + 2 && d[pos + 1] == 102 {
            proof {
                assert(bodyg =~= seq![102u8]);
                assert forall|fuel: nat| fuel >= d@.len() - pos + 1 implies #[trigger] spec_parse(
                    d@,
                    pos as nat,
                    fuel,
                ) == ParseOutcome::Done(FrameView::Boolean(false), next as nat) by {}
            }
            Parsed::Done(Frame::Boolean(false), next)
        } else {
            proof {
                if bodyg == seq![116u8] {
                    assert(bodyg.len() == 1 && bodyg[0] == 116);
                }
                if bodyg == seq![102u8] {
                    assert(bodyg.len() == 1 && bodyg[0] == 102);
                }
                assert forall|fuel: nat| fuel >= d@.len() - pos + 1 implies #[trigger] spec_parse(
                    d@,
                    pos as nat,
                    fuel,
                ) == ParseOutcome::Fail by {}
            }
            Parsed::Fail
        }
    } else if tag == 44 {
        let body = crate::num::copy_range(d, pos + 1, eol);
        if is_float_text(body.as_slice()) {
            proof {
                assert forall|fuel: nat| fuel >= d@.len() - pos + 1 implies #[trigger] spec_parse(
                    d@,
                    pos as nat,
                    fuel,
                ) == ParseOutcome::Done(FrameView::Double(bodyg), next as nat) by {}
            }
            Parsed::Done(Frame::Double(body), next)
        } else {
            proof {
                assert forall|fuel: nat| fuel >= d@.len() - pos + 1 implies #[trigger] spec_parse(
                    d@,
                    pos as nat,
                    fuel,
                ) == ParseOutcome::Fail by {}
            }
            Parsed::Fail
        }
    } else if tag == 36 || tag == 33 {
        if tag == 36 && eol == pos + 3 && d[pos + 1] == 45 && d[pos + 2] == 49 {
            proof {
                assert(bodyg =~= seq![45u8, 49u8]);
                assert forall|fuel: nat| fuel >= d@.len() - pos + 1 implies #[trigger] spec_parse(
                    d@,
                    pos as nat,
                    fuel,
                ) == ParseOutcome::Done(FrameView::BulkString(None), next as nat) by {}
            }
            return Parsed::Done(Frame::BulkString(None), next);
        }
        proof {
            if bodyg == seq![45u8, 49u8] {
                assert(bodyg.len() == 2 && bodyg[0] == 45 && bodyg[1] == 49);
            }
        }
        match crate::num::parse_u64_digits(d, pos + 1, eol) {
            Some(len64) => {
                let rem = dlen - next;
                if len64 > rem as u64 || (rem as u64 - len64) < 2 {
                    proof {
                        assert forall|fuel: nat|
                            fuel >= d@.len() - pos + 1 implies #[trigger] spec_parse(
                            d@,
                            pos as nat,
                            fuel,
                        ) == ParseOutcome::Incomplete by {}
                    }
                    return Parsed::Incomplete;
                }
                let len = len64 as usize;
                let data = crate::num::copy_range(d, next, next + len);
                let f = if tag == 36 {
                    Frame::BulkString(Some(data))
                } else {
                    Frame::BulkError(data)
                };
                proof {
                    assert forall|fuel: nat| fuel >= d@.len() - pos + 1 implies #[trigger] spec_parse(
                        d@,
                        pos as nat,
                        fuel,
                    ) == ParseOutcome::Done(f@, (next + len + 2) as nat) by {}
                }
                Parsed::Done(f, next + len + 2)
            },
            None => {
                proof {
                    assert forall|fuel: nat| fuel >= d@.len() - pos + 1 implies #[trigger] spec_parse(
                        d@,
                        pos as nat,
                        fuel,
                    ) == ParseOutcome::Fail by {}
                }
                Parsed::Fail
            },
        }
    } else if tag == 61 {
        let sp = match find_byte_at(d, pos + 1, eol, 32) {
            Some(sp) => sp,
            None => {
                proof {
                    assert forall|fuel: nat| fuel >= d@.len() - pos + 1 implies #[trigger] spec_parse(
                        d@,
                        pos as nat,
                        fuel,
                    ) == ParseOutcome::Fail by {}
                }
                return Parsed::Fail;
            },
        };
        match crate::num::parse_u64_digits(d, sp + 1, eol) {
            Some(len64) => {
                let rem = dlen - next;
                if len64 > rem as u64 || (rem as u64 - len64) < 2 {
                    proof {
                        assert forall|fuel: nat|
                            fuel >= d@.len() - pos + 1 implies #[trigger] spec_parse(
                            d@,
                            pos as nat,
                            fuel,
                        ) == ParseOutcome::Incomplete by {}
                    }
                    return Parsed::Incomplete;
                }
                let len = len64 as usize;
                let subtype = crate::num::copy_range(d, pos + 1, sp);
                let data = crate::num::copy_range(d, next, next + len);
                let f = Frame::VerbatimString { subtype, data };
                proof {
                    assert forall|fuel: nat| fuel >= d@.len() - pos + 1 implies #[trigger] spec_parse(
                        d@,
                        pos as nat,
                        fuel,
                    ) == ParseOutcome::Done(f@, (next + len + 2) as nat) by {}
                }
                Parsed::Done(f, next + len + 2)
            },
            None => {
                proof {
                    assert forall|fuel: nat| fuel >= d@.len() - pos + 1 implies #[trigger] spec_parse(
                        d@,
                        pos as nat,
                        fuel,
                    ) == ParseOutcome::Fail by {}
                }
                Parsed::Fail
            },
        }
    } else if tag == 42 || tag == 126 || tag == 62 {
        if eol == pos + 3 && d[pos + 1] == 45 && d[pos + 2] == 49 {
            let f = if tag == 42 {
                Frame::Array(None)
            } else if tag == 126 {
                Frame::SetFrame(None)
            } else {
                Frame::Push(None)
            };
            proof {
                assert(bodyg =~= seq![45u8, 49u8]);
                assert forall|fuel: nat| fuel >= d@.len() - pos + 1 implies #[trigger] spec_parse(
                    d@,
                    pos as nat,
                    fuel,
                ) == ParseOutcome::Done(f@, next as nat) by {}
            }
            return Parsed::Done(f, next);
        }
        proof {
            if bodyg == seq![45u8, 49u8] {
                assert(bodyg.len() == 2 && bodyg[0] == 45 && bodyg[1] == 49);
            }
        }
        match crate::num::parse_u64_digits(d, pos + 1, eol) {
            Some(count) => {
                let sub = parse_items_at(d, next, count);
                let ghost subg = sub;
                proof {
                    assert forall|fuel: nat|
                        fuel >= d@.len() - pos + 1 implies #[trigger] spec_parse_items(
                        d@,
                        next as nat,
                        count,
                        (fuel - 1) as nat,
                    ) == items_outcome(sub) by {
                        assert((fuel - 1) as nat >= d@.len() - next + 1);
                    }
                }
                match sub {
                    ItemsParsed::Done(items, after) => {
                        let f = if tag == 42 {
                            Frame::Array(Some(items))
                        } else if tag == 126 {
                            Frame::SetFrame(Some(items))
                        } else {
                            Frame::Push(Some(items))
                        };
                        proof {
                            assert forall|fuel: nat|
                                fuel >= d@.len() - pos + 1 implies #[trigger] spec_parse(
                                d@,
                                pos as nat,
                                fuel,
                            ) == ParseOutcome::Done(f@, after as nat) by {
                                assert(spec_parse_items(
                                    d@,
                                    next as nat,
                                    count,
                                    (fuel - 1) as nat,
                                ) == items_outcome(subg));
                            }
                        }
                        Parsed::Done(f, after)
                    },
                    ItemsParsed::Incomplete => {
                        proof {
                            assert forall|fuel: nat|
                                fuel >= d@.len() - pos + 1 implies #[trigger] spec_parse(
                                d@,
                                pos as nat,
                                fuel,
                            ) == ParseOutcome::Incomplete by {
                                assert(spec_parse_items(
                                    d@,
                                    next as nat,
                                    count,
                                    (fuel - 1) as nat,
                                ) == items_outcome(subg));
                            }
                        }
                        Parsed::Incomplete
                    },
                    ItemsParsed::Fail => {
                        proof {
                            assert forall|fuel: nat|
                                fuel >= d@.len() - pos + 1 implies #[trigger] spec_parse(
                                d@,
                                pos as nat,
                                fuel,
                            ) == ParseOutcome::Fail by {
                                assert(spec_parse_items(
                                    d@,
                                    next as nat,
                                    count,
                                    (fuel - 1) as nat,
                                ) == items_outcome(subg));
                            }
                        }
                        Parsed::Fail
                    },
                }
            },
            None => {
                proof {
                    assert forall|fuel: nat| fuel >= d@.len() - pos + 1 implies #[trigger] spec_parse(
                        d@,
                        pos as nat,
                        fuel,
                    ) == ParseOutcome::Fail by {}
                }
                Parsed::Fail
            },
        }
    } else if tag == 37 || tag == 124 {
        if eol == pos + 3 && d[pos + 1] == 45 && d[pos + 2] == 49 {
            let f = if tag == 37 {
                Frame::MapFrame(None)
            } else {
                Frame::Attribute(None)
            };
            proof {
                assert(bodyg =~= seq![45u8, 49u8]);
                assert forall|fuel: nat| fuel >= d@.len() - pos + 1 implies #[trigger] spec_parse(
                    d@,
                    pos as nat,
                    fuel,
                ) == ParseOutcome::Done(f@, next as nat) by {}
            }
            return Parsed::Done(f, next);
        }
        proof {
            if bodyg == seq![45u8, 49u8] {
                assert(bodyg.len() == 2 && bodyg[0] == 45 && bodyg[1] == 49);
            }
        }
        match crate::num::parse_u64_digits(d, pos + 1, eol) {
            Some(count) => {
                let sub = parse_pairs_at(d, next, count);
                let ghost subg = sub;
                proof {
                    assert forall|fuel: nat|
                        fuel >= d@.len() - pos + 1 implies #[trigger] spec_parse_pairs(
                        d@,
                        next as nat,
                        count,
                        (fuel - 1) as nat,
                    ) == pairs_outcome(sub) by {
                        assert((fuel - 1) as nat >= d@.len() - next + 1);
                    }
                }
                match sub {
                    PairsParsed::Done(pairs, after) => {
                        let f = if tag == 37 {
                            Frame::MapFrame(Some(pairs))
                        } else {
                            Frame::Attribute(Some(pairs))
                        };
                        proof {
                            assert forall|fuel: nat|
                                fuel >= d@.len() - pos + 1 implies #[trigger] spec_parse(
                                d@,
                                pos as nat,
                                fuel,
                            ) == ParseOutcome::Done(f@, after as nat) by {
                                assert(spec_parse_pairs(
                                    d@,
                                    next as nat,
                                    count,
                                    (fuel - 1) as nat,
                                ) == pairs_outcome(subg));
                            }
                        }
                        Parsed::Done(f, after)
                    },
                    PairsParsed::Incomplete => {
                        proof {
                            assert forall|fuel: nat|
                                fuel >= d@.len() - pos + 1 implies #[trigger] spec_parse(
                                d@,
                                pos as nat,
                                fuel,
                            ) == ParseOutcome::Incomplete by {
                                assert(spec_parse_pairs(
                                    d@,
                                    next as nat,
                                    count,
                                    (fuel - 1) as nat,
                                ) == pairs_outcome(subg));
                            }
                        }
                        Parsed::Incomplete
                    },
                    PairsParsed::Fail => {
                        proof {
                            assert forall|fuel: nat|
                                fuel >= d@.len() - pos + 1 implies #[trigger] spec_parse(
                                d@,
                                pos as nat,
                                fuel,
                            ) == ParseOutcome::Fail by {
                                assert(spec_parse_pairs(
                                    d@,
                                    next as nat,
                                    count,
                                    (fuel - 1) as nat,
                                ) == pairs_outcome(subg));
                            }
                        }
                        Parsed::Fail
                    },
                }
            },
            None => {
                proof {
                    assert forall|fuel: nat| fuel >= d@.len() - pos + 1 implies #[trigger] spec_parse(
                        d@,
                        pos as nat,
                        fuel,
                    ) == ParseOutcome::Fail by {}
                }
                Parsed::Fail
            },
        }
    } else {
        proof {
            assert forall|fuel: nat| fuel >= d@.len() - pos + 1 implies #[trigger] spec_parse(
                d@,
                pos as nat,
                fuel,
            ) == ParseOutcome::Fail by {}
        }
        Parsed::Fail
    }
}

/// Reads `count` frames in a row at `pos`, exactly as `spec_parse_items`
/// says at every sufficient nesting allowance.
fn parse_items_at(d: &[u8], pos: usize, count: u64) -> (r: ItemsParsed)
    requires
        pos <= d@.len(),
    ensures
        forall|fuel: nat|
            fuel >= d@.len() - pos + 1 ==> spec_parse_items(d@, pos as nat, count, fuel)
                == items_outcome(r),
        r matches ItemsParsed::Done(items, next) ==> pos <= next <= d@.len(),
    decreases d@.len() - pos, 1int,
{
    let ghost b0: nat = (d@.len() - pos + 1) as nat;
    let mut items: Vec<Frame> = Vec::new();
    let mut p: usize = pos;
    let mut k: u64 = 0;
    proof {
        crate::frame::lemma_frames_view_index(items@);
        assert forall|fuel: nat| fuel >= b0 implies spec_parse_items(d@, pos as nat, count, fuel)
            == items_prepend(
            crate::frame::frames_view(items@),
            spec_parse_items(d@, pos as nat, count, fuel),
        ) by {
            assert(crate::frame::frames_view(items@) =~= Seq::<FrameView>::empty());
            match spec_parse_items(d@, pos as nat, count, fuel) {
                ItemsOutcome::Done(sq, n) => {
                    assert(Seq::<FrameView>::empty() + sq =~= sq);
                },
                _ => {},
            }
        }
    }
    while k < count
        invariant
            pos <= p <= d@.len(),
            k <= count,
            b0 == d@.len() - pos + 1,
            items@.len() == k,
            forall|fuel: nat|
                fuel >= b0 ==> spec_parse_items(d@, pos as nat, count, fuel) == items_prepend(
                    crate::frame::frames_view(items@),
                    spec_parse_items(d@, p as nat, (count - k) as u64, fuel),
                ),
        decreases count - k,
    {
        let ghost items0 = items@;
        let ghost p0 = p;
        match parse_at(d, p) {
            Parsed::Done(f, np) => {
                let ghost fv = f@;
                items.push(f);
                p = np;
                k = k + 1;
                proof {
                    crate::frame::lemma_frames_view_index(items0);
                    crate::frame::lemma_frames_view_index(items@);
                    assert(crate::frame::frames_view(items@) =~= crate::frame::frames_view(items0)
                        + seq![fv]);
                    assert forall|fuel: nat| fuel >= b0 implies spec_parse_items(
                        d@,
                        pos as nat,
                        count,
                        fuel,
                    ) == items_prepend(
                        crate::frame::frames_view(items@),
                        spec_parse_items(d@, p as nat, (count - k) as u64, fuel),
                    ) by {
                        assert(spec_parse(d@, p0 as nat, fuel) == ParseOutcome::Done(fv, np as nat));
                        assert(spec_parse_items(d@, p0 as nat, (count - k + 1) as u64, fuel)
                            == match spec_parse_items(d@, np as nat, (count - k) as u64, fuel) {
                            ItemsOutcome::Done(rest, after) => ItemsOutcome::Done(
                                seq![fv] + rest,
                                after,
                            ),
                            ItemsOutcome::Incomplete => ItemsOutcome::Incomplete,
                            ItemsOutcome::Fail => ItemsOutcome::Fail,
                        });
                        match spec_parse_items(d@, np as nat, (count - k) as u64, fuel) {
                            ItemsOutcome::Done(rest, after) => {
                                assert(crate::frame::frames_view(items0) + (seq![fv] + rest) =~= (
                                crate::frame::frames_view(items0) + seq![fv]) + rest);
                            },
                            _ => {},
                        }
                    }
                }
            },
            Parsed::Incomplete => {
                proof {
                    assert forall|fuel: nat| fuel >= b0 implies spec_parse_items(
                        d@,
                        pos as nat,
                        count,
                        fuel,
                    ) == ItemsOutcome::Incomplete by {
                        assert(spec_parse(d@, p as nat, fuel) == ParseOutcome::Incomplete);
                        assert(spec_parse_items(d@, p as nat, (count - k) as u64, fuel)
                            == ItemsOutcome::Incomplete);
                    }
                }
                return ItemsParsed::Incomplete;
            },
            Parsed::Fail => {
                proof {
                    assert forall|fuel: nat| fuel >= b0 implies spec_parse_items(
                        d@,
                        pos as nat,
                        count,
                        fuel,
                    ) == ItemsOutcome::Fail by {
                        assert(spec_parse(d@, p as nat, fuel) == ParseOutcome::Fail);
                        assert(spec_parse_items(d@, p as nat, (count - k) as u64, fuel)
                            == ItemsOutcome::Fail);
                    }
                }
                return ItemsParsed::Fail;
            },
        }
    }
    proof {
        assert forall|fuel: nat| fuel >= b0 implies spec_parse_items(d@, pos as nat, count, fuel)
            == items_outcome(ItemsParsed::Done(items, p)) by {
            assert(spec_parse_items(d@, p as nat, 0, fuel) == ItemsOutcome::Done(
                Seq::<FrameView>::empty(),
                p as nat,
            ));
            assert(crate::frame::frames_view(items@) + Seq::<FrameView>::empty()
                =~= crate::frame::frames_view(items@));
        }
    }
    ItemsParsed::Done(items, p)
}

/// Reads `count` key/value pairs in a row at `pos`, exactly as
/// `spec_parse_pairs` says at every sufficient nesting allowance.
fn parse_pairs_at(d: &[u8], pos: usize, count: u64) -> (r: PairsParsed)
    requires
        pos <= d@.len(),
    ensures
        forall|fuel: nat|
            fuel >= d@.len() - pos + 1 ==> spec_parse_pairs(d@, pos as nat, count, fuel)
                == pairs_outcome(r),
        r matches PairsParsed::Done(pairs, next) ==> pos <= next <= d@.len(),
    decreases d@.len() - pos, 1int,
{
    let ghost b0: nat = (d@.len() - pos + 1) as nat;
    let mut pairs: Vec<(Frame, Frame)> = Vec::new();
    let mut p: usize = pos;
    let mut k: u64 = 0;
    proof {
        crate::frame::lemma_pairs_view_index(pairs@);
        assert forall|fuel: nat| fuel >= b0 implies spec_parse_pairs(d@, pos as nat, count, fuel)
            == pairs_prepend(
            crate::frame::pairs_view(pairs@),
            spec_parse_pairs(d@, pos as nat, count, fuel),
        ) by {
            assert(crate::frame::pairs_view(pairs@) =~= Seq::<(FrameView, FrameView)>::empty());
            match spec_parse_pairs(d@, pos as nat, count, fuel) {
                PairsOutcome::Done(sq, n) => {
                    assert(Seq::<(FrameView, FrameView)>::empty() + sq =~= sq);
                },
                _ => {},
            }
        }
    }
    while k < count
        invariant
            pos <= p <= d@.len(),
            k <= count,
            b0 == d@.len() - pos + 1,
            pairs@.len() == k,
            forall|fuel: nat|
                fuel >= b0 ==> spec_parse_pairs(d@, pos as nat, count, fuel) == pairs_prepend(
                    crate::frame::pairs_view(pairs@),
                    spec_parse_pairs(d@, p as nat, (count - k) as u64, fuel),
                ),
        decreases count - k,
    {
        let ghost pairs0 = pairs@;
        let ghost p0 = p;
        let kf = match parse_at(d, p) {
            Parsed::Done(f, np) => {
                p = np;
                f
            },
            Parsed::Incomplete => {
                proof {
                    assert forall|fuel: nat| fuel >= b0 implies spec_parse_pairs(
                        d@,
                        pos as nat,
                        count,
                        fuel,
                    ) == PairsOutcome::Incomplete by {
                        assert(spec_parse(d@, p as nat, fuel) == ParseOutcome::Incomplete);
                        assert(spec_parse_pairs(d@, p as nat, (count - k) as u64, fuel)
                            == PairsOutcome::Incomplete);
                    }
                }
                return PairsParsed::Incomplete;
            },
            Parsed::Fail => {
                proof {
                    assert forall|fuel: nat| fuel >= b0 implies spec_parse_pairs(
                        d@,
                        pos as nat,
                        count,
                        fuel,
                    ) == PairsOutcome::Fail by {
                        assert(spec_parse(d@, p as nat, fuel) == ParseOutcome::Fail);
                        assert(spec_parse_pairs(d@, p as nat, (count - k) as u64, fuel)
                            == PairsOutcome::Fail);
                    }
                }
                return PairsParsed::Fail;
            },
        };
        let ghost p1 = p;
        let vf = match parse_at(d, p) {
            Parsed::Done(f, np) => {
                p = np;
                f
            },
            Parsed::Incomplete => {
                proof {
                    assert forall|fuel: nat| fuel >= b0 implies spec_parse_pairs(
                        d@,
                        pos as nat,
                        count,
                        fuel,
                    ) == PairsOutcome::Incomplete by {
                        assert(spec_parse(d@, p0 as nat, fuel) == ParseOutcome::Done(
                            kf@,
                            p1 as nat,
                        ));
                        assert(spec_parse(d@, p1 as nat, fuel) == ParseOutcome::Incomplete);
                        assert(spec_parse_pairs(d@, p0 as nat, (count - k) as u64, fuel)
                            == PairsOutcome::Incomplete);
                    }
                }
                return PairsParsed::Incomplete;
            },
            Parsed::Fail => {
                proof {
                    assert forall|fuel: nat| fuel >= b0 implies spec_parse_pairs(
                        d@,
                        pos as nat,
                        count,
                        fuel,
                    ) == PairsOutcome::Fail by {
                        assert(spec_parse(d@, p0 as nat, fuel) == ParseOutcome::Done(
                            kf@,
                            p1 as nat,
                        ));
                        assert(spec_parse(d@, p1 as nat, fuel) == ParseOutcome::Fail);
                        assert(spec_parse_pairs(d@, p0 as nat, (count - k) as u64, fuel)
                            == PairsOutcome::Fail);
                    }
                }
                return PairsParsed::Fail;
            },
        };
        let ghost kv = kf@;
        let ghost vv = vf@;
        pairs.push((kf, vf));
        k = k + 1;
        proof {
            crate::frame::lemma_pairs_view_index(pairs0);
            crate::frame::lemma_pairs_view_index(pairs@);
            assert(crate::frame::pairs_view(pairs@) =~= crate::frame::pairs_view(pairs0) + seq![
                (kv, vv),
            ]);
            assert forall|fuel: nat| fuel >= b0 implies spec_parse_pairs(
                d@,
                pos as nat,
                count,
                fuel,
            ) == pairs_prepend(
                crate::frame::pairs_view(pairs@),
                spec_parse_pairs(d@, p as nat, (count - k) as u64, fuel),
            ) by {
                assert(spec_parse(d@, p0 as nat, fuel) == ParseOutcome::Done(kv, p1 as nat));
                assert(spec_parse(d@, p1 as nat, fuel) == ParseOutcome::Done(vv, p as nat));
                assert(spec_parse_pairs(d@, p0 as nat, (count - k + 1) as u64, fuel)
                    == match spec_parse_pairs(d@, p as nat, (count - k) as u64, fuel) {
                    PairsOutcome::Done(rest, after) => PairsOutcome::Done(
                        seq![(kv, vv)] + rest,
                        after,
                    ),
                    PairsOutcome::Incomplete => PairsOutcome::Incomplete,
                    PairsOutcome::Fail => PairsOutcome::Fail,
                });
                match spec_parse_pairs(d@, p as nat, (count - k) as u64, fuel) {
                    PairsOutcome::Done(rest, after) => {
                        assert(crate::frame::pairs_view(pairs0) + (seq![(kv, vv)] + rest) =~= (
                        crate::frame::pairs_view(pairs0) + seq![(kv, vv)]) + rest);
                    },
                    _ => {},
                }
            }
        }
    }
    proof {
        assert forall|fuel: nat| fuel >= b0 implies spec_parse_pairs(d@, pos as nat, count, fuel)
            == pairs_outcome(PairsParsed::Done(pairs, p)) by {
            assert(spec_parse_pairs(d@, p as nat, 0, fuel) == PairsOutcome::Done(
                Seq::<(FrameView, FrameView)>::empty(),
                p as nat,
            ));
            assert(crate::frame::pairs_view(pairs@) + Seq::<(FrameView, FrameView)>::empty()
                =~= crate::frame::pairs_view(pairs@));
        }
    }
    PairsParsed::Done(pairs, p)
}


/// The one frame a whole buffer begins with, at the nesting allowance that
/// the buffer's own length bounds: the public meaning of one parse attempt.
pub open spec fn frame_parse(d: Seq<u8>) -> ParseOutcome {
    spec_parse(d, 0, d.len() + 1)
}

/// A malformed stream: the connection it came over is beyond recovery.
#[derive(PartialEq, Eq, Structural, Clone, Copy, Debug)]
pub enum ParseError {
    Protocol,
}

/// An incremental reader of wire frames: bytes are fed in as they arrive,
/// and whole frames are taken off the front of the buffer as they become
/// available. An attempt that finds too few bytes leaves the buffer exactly
/// as it stood, so a later attempt after more bytes starts fresh.
pub struct FrameParser {
    buf: Vec<u8>,
}

impl FrameParser {
    /// The bytes fed in and not yet consumed.
    pub closed spec fn contents(&self) -> Seq<u8> {
        self.buf@
    }

    /// An empty reader.
    pub fn new() -> (r: FrameParser)
        ensures
            r.contents() == Seq::<u8>::empty(),
    {
        FrameParser { buf: Vec::new() }
    }

    /// Appends newly arrived bytes to the buffer.
    pub fn feed(&mut self, data: &[u8])
        ensures
            final(self).contents() == old(self).contents() + data@,
    {
        crate::frame::push_bytes(&mut self.buf, data);
    }

    /// Attempts to read one frame off the front of the buffer, exactly as
    /// `frame_parse` says of the buffered bytes: a whole frame is consumed
    /// up to and including its terminator; too few bytes change nothing and
    /// ask for another attempt later; a malformed stream is refused.
    pub fn parse(&mut self) -> (r: Result<Option<Frame>, ParseError>)
        ensures
            (frame_parse(old(self).contents()) is Incomplete <==> r == Ok::<
                Option<Frame>,
                ParseError,
            >(None)) && (r == Ok::<Option<Frame>, ParseError>(None)
                ==> final(self).contents() == old(self).contents()),
            (frame_parse(old(self).contents()) is Fail <==> r == Err::<
                Option<Frame>,
                ParseError,
            >(ParseError::Protocol)) && (r is Err ==> final(self).contents()
                == old(self).contents()),
            frame_parse(old(self).contents()) matches ParseOutcome::Done(fv, n)
                ==> r matches Ok(Some(f)) && f@ == fv && n <= old(self).contents().len()
                && final(self).contents() == old(self).contents().skip(n as int),
    {
        let blen = self.buf.len();
        match parse_at(self.buf.as_slice(), 0) {
            Parsed::Done(f, next) => {
                proof {
                    assert(spec_parse(self.buf@, 0, (self.buf@.len() + 1) as nat)
                        == ParseOutcome::Done(f@, next as nat));
                }
                let rest = crate::num::copy_range(self.buf.as_slice(), next, blen);
                proof {
                    assert(rest@ =~= self.buf@.skip(next as int));
                }
                self.buf = rest;
                Ok(Some(f))
            },
            Parsed::Incomplete => {
                proof {
                    assert(spec_parse(self.buf@, 0, (self.buf@.len() + 1) as nat)
                        == ParseOutcome::Incomplete);
                }
                Ok(None)
            },
            Parsed::Fail => {
                proof {
                    assert(spec_parse(self.buf@, 0, (self.buf@.len() + 1) as nat)
                        == ParseOutcome::Fail);
                }
                Err(ParseError::Protocol)
            },
        }
    }
}


/// A frame that encodes and reads back: line-framed text carries no CR or
/// LF; a double's text reads as a number; a verbatim subtype is three bytes
/// with no space; children of aggregates are well formed in turn.
pub open spec fn wf_frame(f: FrameView) -> bool
    decreases f,
{
    match f {
        FrameView::SimpleString(s) => crate::frame::line_ok(s),
        FrameView::Error(s) => crate::frame::line_ok(s),
        FrameView::Integer(_) => true,
        FrameView::BulkString(_) => true,
        FrameView::Array(items) => match items {
            Some(s) => wf_items(s),
            None => true,
        },
        FrameView::Null => true,
        FrameView::Boolean(_) => true,
        FrameView::Double(t) => crate::frame::line_ok(t) && float_text(t),
        FrameView::BigNumber(t) => crate::frame::line_ok(t),
        FrameView::BulkError(_) => true,
        FrameView::VerbatimString { subtype, data } => subtype.len() == 3 && crate::frame::line_ok(
            subtype,
        ) && (forall|i: int| 0 <= i < subtype.len() ==> #[trigger] subtype[i] != 32),
        FrameView::MapFrame(pairs) => match pairs {
            Some(s) => wf_pairs(s),
            None => true,
        },
        FrameView::SetFrame(items) => match items {
            Some(s) => wf_items(s),
            None => true,
        },
        FrameView::Attribute(pairs) => match pairs {
            Some(s) => wf_pairs(s),
            None => true,
        },
        FrameView::Push(items) => match items {
            Some(s) => wf_items(s),
            None => true,
        },
    }
}

/// Every frame of the run is well formed.
pub open spec fn wf_items(s: Seq<FrameView>) -> bool
    decreases s,
        via wf_items_dec
{
    if s.len() == 0 {
        true
    } else {
        wf_frame(s[0]) && wf_items(s.drop_first())
    }
}

#[via_fn]
proof fn wf_items_dec(s: Seq<FrameView>) {
    if s.len() > 0 {
        vstd::seq::axiom_seq_index_decreases(s, 0);
        lemma_seq_drop_first_decreases(s);
    }
}

/// Every pair of the run is well formed.
pub open spec fn wf_pairs(s: Seq<(FrameView, FrameView)>) -> bool
    decreases s,
        via wf_pairs_dec
{
    if s.len() == 0 {
        true
    } else {
        wf_frame(s[0].0) && wf_frame(s[0].1) && wf_pairs(s.drop_first())
    }
}

#[via_fn]
proof fn wf_pairs_dec(s: Seq<(FrameView, FrameView)>) {
    if s.len() > 0 {
        vstd::seq::axiom_seq_index_decreases(s, 0);
        lemma_seq_drop_first_decreases(s);
    }
}

/// Holds of a shorter sequence whose elements all come from a longer one:
/// the shorter stands lower in the termination order.
proof fn lemma_seq_drop_first_decreases<A>(s: Seq<A>)
    requires
        s.len() > 0,
    ensures
        decreases_to!(s => s.drop_first()),
{
    assert forall|i2: int|
        0 <= i2 < s.drop_first().len() && #[trigger] vstd::pervasive::trigger(
            s.drop_first()[i2],
        ) implies exists|i1: int| 0 <= i1 < s.len() && s[i1] == s.drop_first()[i2] by {
        assert(s[i2 + 1] == s.drop_first()[i2]);
    }
    vstd::seq::axiom_seq_len_decreases(s, s.drop_first());
}

/// Where a line body free of CR and LF ends, the terminator follows and the
/// first CR LF stands exactly there.
proof fn lemma_find_crlf_after(d: Seq<u8>, from: nat, body: Seq<u8>)
    requires
        from + body.len() + 2 <= d.len(),
        d.subrange(from as int, (from + body.len()) as int) == body,
        crate::frame::line_ok(body),
        d[(from + body.len()) as int] == 13,
        d[(from + body.len()) as int + 1] == 10,
    ensures
        find_crlf(d, from) == Some((from + body.len()) as nat),
    decreases body.len(),
{
    if body.len() == 0 {
    } else {
        assert(d[from as int] == body[0]);
        assert(body[0] != 13);
        assert(d.subrange(from as int + 1, (from + body.len()) as int) =~= body.drop_first());
        lemma_find_crlf_after(d, from + 1, body.drop_first());
    }
}

/// Where a body free of the byte ends inside a window, and the byte stands
/// right after, the first occurrence stands exactly there.
proof fn lemma_find_byte_after(d: Seq<u8>, from: nat, body: Seq<u8>, end: nat, b: u8)
    requires
        from + body.len() < end <= d.len(),
        d.subrange(from as int, (from + body.len()) as int) == body,
        forall|i: int| 0 <= i < body.len() ==> #[trigger] body[i] != b,
        d[(from + body.len()) as int] == b,
    ensures
        find_byte(d, from, end, b) == Some((from + body.len()) as nat),
    decreases body.len(),
{
    if body.len() == 0 {
    } else {
        assert(d[from as int] == body[0]);
        assert(body[0] != b);
        assert(d.subrange(from as int + 1, (from + body.len()) as int) =~= body.drop_first());
        lemma_find_byte_after(d, from + 1, body.drop_first(), end, b);
    }
}

/// The decimal text of a signed number carries no CR and no LF.
proof fn lemma_dec_i_line_ok(i: int)
    ensures
        crate::frame::line_ok(crate::num::dec_i(i)),
{
    if i < 0 {
        crate::num::lemma_dec_u_digits((-i) as nat);
        assert forall|j: int|
            0 <= j < crate::num::dec_i(i).len() implies #[trigger] crate::num::dec_i(i)[j] != 13
            && crate::num::dec_i(i)[j] != 10 by {
            if j > 0 {
                assert(crate::num::dec_i(i)[j] == crate::num::dec_u((-i) as nat)[j - 1]);
            }
        }
    } else {
        crate::num::lemma_dec_u_digits(i as nat);
    }
}

/// The decimal text of a signed 64-bit number reads back as that number.
proof fn lemma_dec_i_roundtrip(i: i64)
    ensures
        i64_text_value(crate::num::dec_i(i as int)) == Some(i),
{
    if i < 0 {
        let mag = (-(i as int)) as nat;
        crate::num::lemma_dec_u_digits(mag);
        crate::num::lemma_dec_u_value(mag);
        let s = crate::num::dec_i(i as int);
        assert(s[0] == 45);
        assert(s.skip(1) =~= crate::num::dec_u(mag));
    } else {
        crate::num::lemma_dec_u_digits(i as nat);
        crate::num::lemma_dec_u_value(i as nat);
        let s = crate::num::dec_i(i as int);
        assert(s == crate::num::dec_u(i as nat));
        crate::num::lemma_dec_u_digits(i as nat);
        if s[0] == 45 {
            assert(48 <= s[0] <= 57);
        }
    }
}

/// Every encoding is at least three bytes long.
proof fn lemma_encode_min_len(f: FrameView)
    ensures
        crate::frame::spec_encode(f).len() >= 3,
{
    match f {
        FrameView::Integer(i) => {
            crate::num::lemma_dec_u_digits(if i >= 0 {
                i as nat
            } else {
                (-(i as int)) as nat
            });
        },
        FrameView::BulkString(Some(b)) => {
            crate::num::lemma_dec_u_digits(b.len());
        },
        FrameView::BulkError(t) => {
            crate::num::lemma_dec_u_digits(t.len());
        },
        FrameView::VerbatimString { subtype, data } => {
            crate::num::lemma_dec_u_digits(data.len());
        },
        FrameView::Array(Some(items)) => {
            crate::num::lemma_dec_u_digits(items.len());
        },
        FrameView::SetFrame(Some(items)) => {
            crate::num::lemma_dec_u_digits(items.len());
        },
        FrameView::Push(Some(items)) => {
            crate::num::lemma_dec_u_digits(items.len());
        },
        FrameView::MapFrame(Some(pairs)) => {
            crate::num::lemma_dec_u_digits(pairs.len());
        },
        FrameView::Attribute(Some(pairs)) => {
            crate::num::lemma_dec_u_digits(pairs.len());
        },
        _ => {},
    }
}

/// A run of encodings is at least as long as the run.
proof fn lemma_encode_frames_min_len(s: Seq<FrameView>)
    ensures
        crate::frame::encode_frames(s).len() >= s.len(),
    decreases s.len(),
{
    if s.len() > 0 {
        lemma_encode_min_len(s[0]);
        lemma_encode_frames_min_len(s.drop_first());
    }
}

/// A run of pair encodings is at least as long as the run.
proof fn lemma_encode_pairs_min_len(s: Seq<(FrameView, FrameView)>)
    ensures
        crate::frame::encode_pairs(s).len() >= s.len(),
    decreases s.len(),
{
    if s.len() > 0 {
        lemma_encode_min_len(s[0].0);
        lemma_encode_pairs_min_len(s.drop_first());
    }
}


/// A region's bytes, read through the stream, byte for byte.
proof fn lemma_region_pointwise(d: Seq<u8>, pos: nat, e: Seq<u8>)
    requires
        pos + e.len() <= d.len(),
        d.subrange(pos as int, (pos + e.len()) as int) == e,
    ensures
        forall|j: int| 0 <= j < e.len() ==> #[trigger] d[pos + j] == e[j],
{
    assert forall|j: int| 0 <= j < e.len() implies #[trigger] d[pos + j] == e[j] by {
        assert(d.subrange(pos as int, (pos + e.len()) as int)[j] == d[pos + j]);
    }
}

/// A line frame's header read back: the tag, the first terminator exactly
/// after the body, and the body itself.
proof fn lemma_line_header(d: Seq<u8>, pos: nat, tag: u8, lbody: Seq<u8>)
    requires
        crate::frame::line_ok(lbody),
        pos + 3 + lbody.len() <= d.len(),
        forall|j: int|
            0 <= j < 3 + lbody.len() ==> #[trigger] d[pos + j] == (seq![tag] + lbody
                + crate::frame::crlf())[j],
    ensures
        d[pos as int] == tag,
        find_crlf(d, pos + 1) == Some((pos + 1 + lbody.len()) as nat),
        d.subrange(pos as int + 1, (pos + 1 + lbody.len()) as int) == lbody,
{
    let e = seq![tag] + lbody + crate::frame::crlf();
    assert(d[pos as int + 0] == e[0]);
    assert forall|i: int| 0 <= i < lbody.len() implies d[pos as int + 1 + i] == lbody[i] by {
        assert(d[pos + (i + 1)] == e[i + 1]);
    }
    assert(d.subrange(pos as int + 1, (pos + 1 + lbody.len()) as int) =~= lbody);
    assert(d[pos as int + (1 + lbody.len() as int)] == e[1 + lbody.len() as int]);
    assert(d[pos as int + (2 + lbody.len() as int)] == e[2 + lbody.len() as int]);
    assert(d[(pos + 1 + lbody.len()) as int] == 13);
    assert(d[(pos + 1 + lbody.len()) as int + 1] == 10);
    lemma_find_crlf_after(d, pos + 1, lbody);
}

/// Decimal digits carry no CR and no LF.
proof fn lemma_digits_line_ok(s: Seq<u8>)
    requires
        crate::num::all_digits(s),
    ensures
        crate::frame::line_ok(s),
{
}

/// What the encoder wrote at `pos`, the reader gives back: the same frame,
/// ending exactly where the encoding ends.
pub proof fn lemma_parse_encode(d: Seq<u8>, pos: nat, f: FrameView, fuel: nat)
    requires
        wf_frame(f),
        pos + crate::frame::spec_encode(f).len() <= d.len(),
        d.len() <= u64::MAX,
        d.subrange(pos as int, (pos + crate::frame::spec_encode(f).len()) as int)
            == crate::frame::spec_encode(f),
        fuel >= d.len() - pos + 1,
    ensures
        spec_parse(d, pos, fuel) == ParseOutcome::Done(
            f,
            (pos + crate::frame::spec_encode(f).len()) as nat,
        ),
    decreases f, 0nat,
{
    let e = crate::frame::spec_encode(f);
    lemma_region_pointwise(d, pos, e);
    match f {
        FrameView::SimpleString(s) => {
            lemma_line_header(d, pos, 43, s);
        },
        FrameView::Error(s) => {
            lemma_line_header(d, pos, 45, s);
        },
        FrameView::BigNumber(s) => {
            lemma_line_header(d, pos, 40, s);
        },
        FrameView::Double(s) => {
            lemma_line_header(d, pos, 44, s);
        },
        FrameView::Null => {
            lemma_line_header(d, pos, 95, Seq::empty());
            assert(d.subrange(pos as int + 1, pos as int + 1) =~= Seq::<u8>::empty());
        },
        FrameView::Boolean(b) => {
            let lbody = if b {
                seq![116u8]
            } else {
                seq![102u8]
            };
            lemma_line_header(d, pos, 35, lbody);
        },
        FrameView::Integer(i) => {
            let lbody = crate::num::dec_i(i as int);
            lemma_dec_i_line_ok(i as int);
            lemma_line_header(d, pos, 58, lbody);
            lemma_dec_i_roundtrip(i);
        },
        FrameView::BulkString(None) => {
            lemma_line_header(d, pos, 36, seq![45u8, 49u8]);
        },
        FrameView::BulkString(Some(b)) => {
            let lbody = crate::num::dec_u(b.len());
            crate::num::lemma_dec_u_digits(b.len());
            crate::num::lemma_dec_u_value(b.len());
            lemma_digits_line_ok(lbody);
            lemma_line_header(d, pos, 36, lbody);
            let next = pos + 1 + lbody.len() + 2;
            assert(lbody[0] != 45);
            assert forall|i: int| 0 <= i < b.len() implies d[next + i] == b[i] by {
                assert(d[pos + (3 + lbody.len() + i)] == e[3 + lbody.len() + i]);
            }
            assert(d.subrange(next as int, (next + b.len()) as int) =~= b);
        },
        FrameView::BulkError(b) => {
            let lbody = crate::num::dec_u(b.len());
            crate::num::lemma_dec_u_digits(b.len());
            crate::num::lemma_dec_u_value(b.len());
            lemma_digits_line_ok(lbody);
            lemma_line_header(d, pos, 33, lbody);
            let next = pos + 1 + lbody.len() + 2;
            assert forall|i: int| 0 <= i < b.len() implies d[next + i] == b[i] by {
                assert(d[pos + (3 + lbody.len() + i)] == e[3 + lbody.len() + i]);
            }
            assert(d.subrange(next as int, (next + b.len()) as int) =~= b);
        },
        FrameView::VerbatimString { subtype, data } => {
            let digits = crate::num::dec_u(data.len());
            crate::num::lemma_dec_u_digits(data.len());
            crate::num::lemma_dec_u_value(data.len());
            let lbody = subtype + seq![32u8] + digits;
            assert forall|i: int| 0 <= i < lbody.len() implies #[trigger] lbody[i] != 13
                && lbody[i] != 10 by {
                if i < subtype.len() {
                    assert(lbody[i] == subtype[i]);
                } else if i == subtype.len() {
                } else {
                    assert(lbody[i] == digits[i - subtype.len() - 1]);
                }
            }
            lemma_line_header(d, pos, 61, lbody);
            let eol = pos + 1 + lbody.len();
            assert forall|i: int| 0 <= i < subtype.len() implies d[pos as int + 1 + i]
                == subtype[i] by {
                assert(d[pos + (1 + i)] == e[1 + i]);
            }
            assert(d.subrange(pos as int + 1, (pos + 1 + subtype.len()) as int) =~= subtype);
            assert(d[pos as int + (1 + subtype.len() as int)] == e[1 + subtype.len() as int]);
            assert(d[(pos + 1 + subtype.len()) as int] == 32);
            lemma_find_byte_after(d, pos + 1, subtype, eol, 32);
            let sp = pos + 1 + subtype.len();
            assert forall|i: int| 0 <= i < digits.len() implies d[sp as int + 1 + i]
                == digits[i] by {
                assert(d[pos + (2 + subtype.len() + i)] == e[2 + subtype.len() + i]);
            }
            assert(d.subrange(sp as int + 1, eol as int) =~= digits);
            let next = eol + 2;
            assert forall|i: int| 0 <= i < data.len() implies d[next + i] == data[i] by {
                assert(d[pos + (3 + lbody.len() + i)] == e[3 + lbody.len() + i]);
            }
            assert(d.subrange(next as int, (next + data.len()) as int) =~= data);
        },
        FrameView::Array(None) => {
            lemma_line_header(d, pos, 42, seq![45u8, 49u8]);
        },
        FrameView::SetFrame(None) => {
            lemma_line_header(d, pos, 126, seq![45u8, 49u8]);
        },
        FrameView::Push(None) => {
            lemma_line_header(d, pos, 62, seq![45u8, 49u8]);
        },
        FrameView::MapFrame(None) => {
            lemma_line_header(d, pos, 37, seq![45u8, 49u8]);
        },
        FrameView::Attribute(None) => {
            lemma_line_header(d, pos, 124, seq![45u8, 49u8]);
        },
        FrameView::Array(Some(items)) => {
            lemma_agg_items(d, pos, f, 42, items, fuel);
        },
        FrameView::SetFrame(Some(items)) => {
            lemma_agg_items(d, pos, f, 126, items, fuel);
        },
        FrameView::Push(Some(items)) => {
            lemma_agg_items(d, pos, f, 62, items, fuel);
        },
        FrameView::MapFrame(Some(pairs)) => {
            lemma_agg_pairs(d, pos, f, 37, pairs, fuel);
        },
        FrameView::Attribute(Some(pairs)) => {
            lemma_agg_pairs(d, pos, f, 124, pairs, fuel);
        },
    }
}

/// An aggregate of frames read back: the count line, then the children.
proof fn lemma_agg_items(d: Seq<u8>, pos: nat, f: FrameView, tag: u8, items: Seq<FrameView>, fuel: nat)
    requires
        wf_items(items),
        crate::frame::spec_encode(f) == seq![tag] + crate::num::dec_u(items.len())
            + crate::frame::crlf() + crate::frame::encode_frames(items),
        f == FrameView::Array(Some(items)) || f == FrameView::SetFrame(Some(items)) || f
            == FrameView::Push(Some(items)),
        tag == 42 || tag == 126 || tag == 62,
        (f is Array ==> tag == 42) && (f is SetFrame ==> tag == 126) && (f is Push ==> tag == 62),
        pos + crate::frame::spec_encode(f).len() <= d.len(),
        d.len() <= u64::MAX,
        d.subrange(pos as int, (pos + crate::frame::spec_encode(f).len()) as int)
            == crate::frame::spec_encode(f),
        fuel >= d.len() - pos + 1,
    ensures
        spec_parse(d, pos, fuel) == ParseOutcome::Done(
            f,
            (pos + crate::frame::spec_encode(f).len()) as nat,
        ),
    decreases items, 2nat,
{
    let e = crate::frame::spec_encode(f);
    lemma_region_pointwise(d, pos, e);
    let digits = crate::num::dec_u(items.len());
    crate::num::lemma_dec_u_digits(items.len());
    crate::num::lemma_dec_u_value(items.len());
    lemma_digits_line_ok(digits);
    lemma_line_header(d, pos, tag, digits);
    assert(digits[0] != 45);
    lemma_encode_frames_min_len(items);
    let next = pos + 1 + digits.len() + 2;
    let region = crate::frame::encode_frames(items);
    assert forall|i: int| 0 <= i < region.len() implies d[next + i] == region[i] by {
        assert(d[pos + (3 + digits.len() + i)] == e[3 + digits.len() + i]);
    }
    assert(d.subrange(next as int, (next + region.len()) as int) =~= region);
    lemma_parse_items_encode(d, next, items, (fuel - 1) as nat);
}

/// An aggregate of pairs read back likewise.
proof fn lemma_agg_pairs(
    d: Seq<u8>,
    pos: nat,
    f: FrameView,
    tag: u8,
    pairs: Seq<(FrameView, FrameView)>,
    fuel: nat,
)
    requires
        wf_pairs(pairs),
        crate::frame::spec_encode(f) == seq![tag] + crate::num::dec_u(pairs.len())
            + crate::frame::crlf() + crate::frame::encode_pairs(pairs),
        f == FrameView::MapFrame(Some(pairs)) || f == FrameView::Attribute(Some(pairs)),
        tag == 37 || tag == 124,
        (f is MapFrame ==> tag == 37) && (f is Attribute ==> tag == 124),
        pos + crate::frame::spec_encode(f).len() <= d.len(),
        d.len() <= u64::MAX,
        d.subrange(pos as int, (pos + crate::frame::spec_encode(f).len()) as int)
            == crate::frame::spec_encode(f),
        fuel >= d.len() - pos + 1,
    ensures
        spec_parse(d, pos, fuel) == ParseOutcome::Done(
            f,
            (pos + crate::frame::spec_encode(f).len()) as nat,
        ),
    decreases pairs, 2nat,
{
    let e = crate::frame::spec_encode(f);
    lemma_region_pointwise(d, pos, e);
    let digits = crate::num::dec_u(pairs.len());
    crate::num::lemma_dec_u_digits(pairs.len());
    crate::num::lemma_dec_u_value(pairs.len());
    lemma_digits_line_ok(digits);
    lemma_line_header(d, pos, tag, digits);
    assert(digits[0] != 45);
    lemma_encode_pairs_min_len(pairs);
    let next = pos + 1 + digits.len() + 2;
    let region = crate::frame::encode_pairs(pairs);
    assert forall|i: int| 0 <= i < region.len() implies d[next + i] == region[i] by {
        assert(d[pos + (3 + digits.len() + i)] == e[3 + digits.len() + i]);
    }
    assert(d.subrange(next as int, (next + region.len()) as int) =~= region);
    lemma_parse_pairs_encode(d, next, pairs, (fuel - 1) as nat);
}

/// A run of encoded frames read back, child by child.
proof fn lemma_parse_items_encode(d: Seq<u8>, pos: nat, items: Seq<FrameView>, fuel: nat)
    requires
        wf_items(items),
        pos + crate::frame::encode_frames(items).len() <= d.len(),
        d.len() <= u64::MAX,
        d.subrange(pos as int, (pos + crate::frame::encode_frames(items).len()) as int)
            == crate::frame::encode_frames(items),
        fuel >= d.len() - pos + 1,
    ensures
        spec_parse_items(d, pos, items.len() as u64, fuel) == ItemsOutcome::Done(
            items,
            (pos + crate::frame::encode_frames(items).len()) as nat,
        ),
    decreases items, 1nat,
{
    lemma_encode_frames_min_len(items);
    if items.len() == 0 {
        assert(items =~= Seq::<FrameView>::empty());
        assert(crate::frame::encode_frames(items).len() == 0);
    } else {
        let region = crate::frame::encode_frames(items);
        lemma_region_pointwise(d, pos, region);
        let e0 = crate::frame::spec_encode(items[0]);
        let rest = crate::frame::encode_frames(items.drop_first());
        assert(region == e0 + rest);
        assert forall|i: int| 0 <= i < e0.len() implies d[pos + i] == e0[i] by {
            assert(region[i] == e0[i]);
        }
        assert(d.subrange(pos as int, (pos + e0.len()) as int) =~= e0);
        vstd::seq::axiom_seq_index_decreases(items, 0);
        lemma_parse_encode(d, pos, items[0], fuel);
        let p1 = pos + e0.len();
        assert forall|i: int| 0 <= i < rest.len() implies d[p1 + i] == rest[i] by {
            assert(d[pos + (e0.len() + i)] == region[e0.len() + i]);
        }
        assert(d.subrange(p1 as int, (p1 + rest.len()) as int) =~= rest);
        lemma_seq_drop_first_decreases(items);
        lemma_parse_items_encode(d, p1, items.drop_first(), fuel);
        assert(items.len() <= region.len());
        assert(items.len() as u64 >= 1);
        assert((items.len() as u64 - 1) as u64 == items.drop_first().len() as u64);
        assert(seq![items[0]] + items.drop_first() =~= items);
        assert(spec_parse(d, pos, fuel) == ParseOutcome::Done(items[0], (pos + e0.len()) as nat));
        assert(spec_parse_items(d, p1, items.drop_first().len() as u64, fuel)
            == ItemsOutcome::Done(items.drop_first(), (p1 + rest.len()) as nat));
        assert(spec_parse_items(d, pos, items.len() as u64, fuel) == ItemsOutcome::Done(
            seq![items[0]] + items.drop_first(),
            (p1 + rest.len()) as nat,
        ));
    }
}

/// A run of encoded pairs read back, pair by pair.
proof fn lemma_parse_pairs_encode(d: Seq<u8>, pos: nat, pairs: Seq<(FrameView, FrameView)>, fuel: nat)
    requires
        wf_pairs(pairs),
        pos + crate::frame::encode_pairs(pairs).len() <= d.len(),
        d.len() <= u64::MAX,
        d.subrange(pos as int, (pos + crate::frame::encode_pairs(pairs).len()) as int)
            == crate::frame::encode_pairs(pairs),
        fuel >= d.len() - pos + 1,
    ensures
        spec_parse_pairs(d, pos, pairs.len() as u64, fuel) == PairsOutcome::Done(
            pairs,
            (pos + crate::frame::encode_pairs(pairs).len()) as nat,
        ),
    decreases pairs, 1nat,
{
    lemma_encode_pairs_min_len(pairs);
    if pairs.len() == 0 {
        assert(pairs =~= Seq::<(FrameView, FrameView)>::empty());
        assert(crate::frame::encode_pairs(pairs).len() == 0);
    } else {
        let region = crate::frame::encode_pairs(pairs);
        lemma_region_pointwise(d, pos, region);
        let ek = crate::frame::spec_encode(pairs[0].0);
        let ev = crate::frame::spec_encode(pairs[0].1);
        let rest = crate::frame::encode_pairs(pairs.drop_first());
        assert(region == (ek + ev) + rest);
        assert forall|i: int| 0 <= i < ek.len() implies d[pos + i] == ek[i] by {
            assert(region[i] == ek[i]);
        }
        assert(d.subrange(pos as int, (pos + ek.len()) as int) =~= ek);
        vstd::seq::axiom_seq_index_decreases(pairs, 0);
        lemma_parse_encode(d, pos, pairs[0].0, fuel);
        let p1 = pos + ek.len();
        assert forall|i: int| 0 <= i < ev.len() implies d[p1 + i] == ev[i] by {
            assert(d[pos + (ek.len() + i)] == region[ek.len() + i]);
        }
        assert(d.subrange(p1 as int, (p1 + ev.len()) as int) =~= ev);
        lemma_parse_encode(d, p1, pairs[0].1, fuel);
        let p2 = p1 + ev.len();
        assert forall|i: int| 0 <= i < rest.len() implies d[p2 + i] == rest[i] by {
            assert(d[pos + (ek.len() + ev.len() + i)] == region[ek.len() + ev.len() + i]);
        }
        assert(d.subrange(p2 as int, (p2 + rest.len()) as int) =~= rest);
        lemma_seq_drop_first_decreases(pairs);
        lemma_parse_pairs_encode(d, p2, pairs.drop_first(), fuel);
        assert(pairs.len() <= region.len());
        assert(pairs.len() as u64 >= 1);
        assert((pairs.len() as u64 - 1) as u64 == pairs.drop_first().len() as u64);
        assert(seq![pairs[0]] + pairs.drop_first() =~= pairs);
        assert(spec_parse(d, pos, fuel) == ParseOutcome::Done(pairs[0].0, (pos + ek.len()) as nat));
        assert(spec_parse(d, p1, fuel) == ParseOutcome::Done(pairs[0].1, (p1 + ev.len()) as nat));
        assert(spec_parse_pairs(d, p2, pairs.drop_first().len() as u64, fuel)
            == PairsOutcome::Done(pairs.drop_first(), (p2 + rest.len()) as nat));
        assert(spec_parse_pairs(d, pos, pairs.len() as u64, fuel) == PairsOutcome::Done(
            seq![pairs[0]] + pairs.drop_first(),
            (p2 + rest.len()) as nat,
        ));
    }
}

/// The codec round trip: what `encode` writes, one parse attempt reads back
/// as the same frame, consuming exactly the encoding, whatever bytes follow
/// it in the buffer.
pub proof fn lemma_codec_roundtrip(f: FrameView, rest: Seq<u8>)
    requires
        wf_frame(f),
        crate::frame::spec_encode(f).len() + rest.len() <= u64::MAX,
    ensures
        frame_parse(crate::frame::spec_encode(f) + rest) == ParseOutcome::Done(
            f,
            crate::frame::spec_encode(f).len(),
        ),
{
    let d = crate::frame::spec_encode(f) + rest;
    assert(d.subrange(0, crate::frame::spec_encode(f).len() as int) =~= crate::frame::spec_encode(
        f,
    ));
    lemma_parse_encode(d, 0, f, d.len() + 1);
}


/// A buffer that ends inside a line region holds no terminator: every byte
/// is a body byte, except possibly a final CR.
proof fn lemma_no_crlf_in_prefix(d: Seq<u8>, from: nat, lbody: Seq<u8>)
    requires
        crate::frame::line_ok(lbody),
        d.len() <= from + lbody.len() + 1,
        forall|j: int| from <= j < d.len() && j - from < lbody.len() ==> #[trigger] d[j] == lbody[j - from],
    ensures
        find_crlf(d, from) is None,
    decreases d.len() - from,
{
    if from + 2 <= d.len() {
        assert(d[from as int] == lbody[from as int - from]);
        assert(d[from as int] != 13);
        lemma_no_crlf_in_prefix(d, from + 1, lbody.drop_first());
    }
}

/// A strict prefix of one frame's encoding asks for more bytes: nothing is
/// consumed, nothing is refused.
#[verifier::rlimit(100)]
pub proof fn lemma_parse_prefix(d: Seq<u8>, pos: nat, f: FrameView, fuel: nat)
    requires
        wf_frame(f),
        pos <= d.len(),
        d.len() <= u64::MAX,
        crate::frame::spec_encode(f).len() <= u64::MAX,
        d.len() < pos + crate::frame::spec_encode(f).len(),
        d.subrange(pos as int, d.len() as int) == crate::frame::spec_encode(f).take(
            d.len() - pos,
        ),
        fuel >= d.len() - pos + 1,
    ensures
        spec_parse(d, pos, fuel) == ParseOutcome::Incomplete,
    decreases f, 0nat,
{
    let e = crate::frame::spec_encode(f);
    let avail = d.len() - pos;
    assert forall|j: int| 0 <= j < avail implies #[trigger] d[pos + j] == e[j] by {
        assert(d.subrange(pos as int, d.len() as int)[j] == d[pos + j]);
        assert(e.take(avail as int)[j] == e[j]);
    }
    if pos == d.len() {
    } else {
        lemma_encode_min_len(f);
        assert(d[pos as int + 0] == e[0]);
        match f {
            FrameView::SimpleString(s) => {
                lemma_prefix_line(d, pos, e, s);
            },
            FrameView::Error(s) => {
                lemma_prefix_line(d, pos, e, s);
            },
            FrameView::BigNumber(s) => {
                lemma_prefix_line(d, pos, e, s);
            },
            FrameView::Double(s) => {
                lemma_prefix_line(d, pos, e, s);
            },
            FrameView::Null => {
                lemma_prefix_line(d, pos, e, Seq::empty());
            },
            FrameView::Boolean(b) => {
                lemma_prefix_line(
                    d,
                    pos,
                    e,
                    if b {
                        seq![116u8]
                    } else {
                        seq![102u8]
                    },
                );
            },
            FrameView::Integer(i) => {
                lemma_dec_i_line_ok(i as int);
                lemma_prefix_line(d, pos, e, crate::num::dec_i(i as int));
            },
            FrameView::BulkString(None) => {
                lemma_prefix_line(d, pos, e, seq![45u8, 49u8]);
            },
            FrameView::BulkString(Some(b)) => {
                crate::num::lemma_dec_u_digits(b.len());
                crate::num::lemma_dec_u_value(b.len());
                assert(crate::num::dec_u(b.len())[0] != 45);
                lemma_prefix_bulk(d, pos, e, crate::num::dec_u(b.len()), b.len());
            },
            FrameView::BulkError(b) => {
                crate::num::lemma_dec_u_digits(b.len());
                crate::num::lemma_dec_u_value(b.len());
                assert(crate::num::dec_u(b.len())[0] != 45);
                lemma_prefix_bulk(d, pos, e, crate::num::dec_u(b.len()), b.len());
            },
            FrameView::VerbatimString { subtype, data } => {
                crate::num::lemma_dec_u_digits(data.len());
                crate::num::lemma_dec_u_value(data.len());
                let lbody = subtype + seq![32u8] + crate::num::dec_u(data.len());
                assert forall|i: int| 0 <= i < lbody.len() implies #[trigger] lbody[i] != 13
                    && lbody[i] != 10 by {
                    if i < subtype.len() {
                        assert(lbody[i] == subtype[i]);
                    } else if i > subtype.len() {
                        assert(lbody[i] == crate::num::dec_u(data.len())[i - subtype.len() - 1]);
                    }
                }
                if d.len() <= pos + 1 + lbody.len() + 1 {
                    assert forall|j: int|
                        pos + 1 <= j < d.len() && j - (pos + 1) < lbody.len() implies #[trigger] d[j]
                        == lbody[j - (pos + 1)] by {
                        assert(d[pos + (j - pos)] == e[j - pos]);
                    }
                    lemma_no_crlf_in_prefix(d, pos + 1, lbody);
                } else {
                    assert forall|j: int| 0 <= j < 3 + lbody.len() implies #[trigger] d[pos + j]
                        == (seq![61u8] + lbody + crate::frame::crlf())[j] by {
                        assert(d[pos + j] == e[j]);
                    }
                    lemma_line_header(d, pos, 61, lbody);
                    assert(d[pos + (1 + subtype.len() as int)] == e[1 + subtype.len() as int]);
                    assert(d[(pos + 1 + subtype.len()) as int] == 32);
                    assert forall|i: int| 0 <= i < subtype.len() implies #[trigger] d.subrange(
                        pos as int + 1,
                        (pos + 1 + subtype.len()) as int,
                    )[i] == subtype[i] by {
                        assert(d[pos + (i + 1)] == e[i + 1]);
                        assert(d.subrange(pos as int + 1, (pos + 1 + subtype.len()) as int)[i]
                            == d[pos as int + 1 + i]);
                    }
                    assert(d.subrange(pos as int + 1, (pos + 1 + subtype.len()) as int)
                        =~= subtype);
                    lemma_find_byte_after(d, pos + 1, subtype, pos + 1 + lbody.len(), 32);
                    let sp = pos + 1 + subtype.len();
                    let eol = pos + 1 + lbody.len();
                    assert forall|i: int|
                        0 <= i < crate::num::dec_u(data.len()).len() implies #[trigger] d.subrange(
                        sp as int + 1,
                        eol as int,
                    )[i] == crate::num::dec_u(data.len())[i] by {
                        assert(d[pos + (i + 2 + subtype.len())] == e[i + 2 + subtype.len()]);
                        assert(lbody[i + 1 + subtype.len()] == crate::num::dec_u(data.len())[i]);
                        assert(d.subrange(sp as int + 1, eol as int)[i] == d[sp + 1 + i]);
                        assert(sp + 1 + i == pos + (i + 2 + subtype.len()));
                    }
                    assert(d.subrange(sp as int + 1, eol as int) =~= crate::num::dec_u(data.len()));
                }
            },
            FrameView::Array(None) => {
                lemma_prefix_line(d, pos, e, seq![45u8, 49u8]);
            },
            FrameView::SetFrame(None) => {
                lemma_prefix_line(d, pos, e, seq![45u8, 49u8]);
            },
            FrameView::Push(None) => {
                lemma_prefix_line(d, pos, e, seq![45u8, 49u8]);
            },
            FrameView::MapFrame(None) => {
                lemma_prefix_line(d, pos, e, seq![45u8, 49u8]);
            },
            FrameView::Attribute(None) => {
                lemma_prefix_line(d, pos, e, seq![45u8, 49u8]);
            },
            FrameView::Array(Some(items)) => {
                crate::num::lemma_dec_u_digits(items.len());
                crate::num::lemma_dec_u_value(items.len());
                lemma_encode_frames_min_len(items);
                assert(crate::num::dec_u(items.len())[0] != 45);
                lemma_prefix_agg_items(d, pos, e, items, fuel);
            },
            FrameView::SetFrame(Some(items)) => {
                crate::num::lemma_dec_u_digits(items.len());
                crate::num::lemma_dec_u_value(items.len());
                lemma_encode_frames_min_len(items);
                assert(crate::num::dec_u(items.len())[0] != 45);
                lemma_prefix_agg_items(d, pos, e, items, fuel);
            },
            FrameView::Push(Some(items)) => {
                crate::num::lemma_dec_u_digits(items.len());
                crate::num::lemma_dec_u_value(items.len());
                lemma_encode_frames_min_len(items);
                assert(crate::num::dec_u(items.len())[0] != 45);
                lemma_prefix_agg_items(d, pos, e, items, fuel);
            },
            FrameView::MapFrame(Some(pairs)) => {
                crate::num::lemma_dec_u_digits(pairs.len());
                crate::num::lemma_dec_u_value(pairs.len());
                lemma_encode_pairs_min_len(pairs);
                assert(crate::num::dec_u(pairs.len())[0] != 45);
                lemma_prefix_agg_pairs(d, pos, e, pairs, fuel);
            },
            FrameView::Attribute(Some(pairs)) => {
                crate::num::lemma_dec_u_digits(pairs.len());
                crate::num::lemma_dec_u_value(pairs.len());
                lemma_encode_pairs_min_len(pairs);
                assert(crate::num::dec_u(pairs.len())[0] != 45);
                lemma_prefix_agg_pairs(d, pos, e, pairs, fuel);
            },
        }
    }
}

/// The cut falls inside a pure line frame: no terminator is there yet.
proof fn lemma_prefix_line(d: Seq<u8>, pos: nat, e: Seq<u8>, lbody: Seq<u8>)
    requires
        crate::frame::line_ok(lbody),
        e.len() == 3 + lbody.len(),
        pos < d.len() < pos + e.len(),
        forall|j: int| 0 <= j < d.len() - pos ==> #[trigger] d[pos + j] == e[j],
        forall|i: int| 0 <= i < lbody.len() ==> e[i + 1] == lbody[i],
        e[1 + lbody.len() as int] == 13,
    ensures
        find_crlf(d, pos + 1) is None,
    decreases d.len() - pos,
{
    assert forall|j: int|
        pos + 1 <= j < d.len() && j - (pos + 1) < lbody.len() implies #[trigger] d[j] == lbody[j
        - (pos + 1)] by {
        assert(d[pos + (j - pos)] == e[j - pos]);
    }
    lemma_no_crlf_in_prefix(d, pos + 1, lbody);
}

/// The cut falls in a length-prefixed frame: either still inside the header
/// line, or inside the payload, which is then too short.
proof fn lemma_prefix_bulk(d: Seq<u8>, pos: nat, e: Seq<u8>, digits: Seq<u8>, len: nat)
    requires
        crate::num::all_digits(digits),
        crate::num::dec_value(digits) == len,
        e.len() == 1 + digits.len() + 2 + len + 2,
        pos < d.len() < pos + e.len(),
        forall|j: int| 0 <= j < d.len() - pos ==> #[trigger] d[pos + j] == e[j],
        forall|i: int| 0 <= i < digits.len() ==> e[i + 1] == digits[i],
        e[1 + digits.len() as int] == 13,
        e[2 + digits.len() as int] == 10,
    ensures
        ({
            ||| find_crlf(d, pos + 1) is None
            ||| (find_crlf(d, pos + 1) == Some((pos + 1 + digits.len()) as nat) && d.subrange(
                pos as int + 1,
                (pos + 1 + digits.len()) as int,
            ) == digits && pos + 3 + digits.len() + len + 2 > d.len())
        }),
{
    lemma_digits_line_ok(digits);
    if d.len() <= pos + 1 + digits.len() + 1 {
        assert forall|j: int|
            pos + 1 <= j < d.len() && j - (pos + 1) < digits.len() implies #[trigger] d[j]
            == digits[j - (pos + 1)] by {
            assert(d[pos + (j - pos)] == e[j - pos]);
        }
        lemma_no_crlf_in_prefix(d, pos + 1, digits);
    } else {
        assert forall|i: int| 0 <= i < digits.len() implies d[pos as int + 1 + i] == digits[i] by {
            assert(d[pos + (i + 1)] == e[i + 1]);
        }
        assert(d.subrange(pos as int + 1, (pos + 1 + digits.len()) as int) =~= digits);
        assert(d[pos + (1 + digits.len() as int)] == e[1 + digits.len() as int]);
        assert(d[pos + (2 + digits.len() as int)] == e[2 + digits.len() as int]);
        assert(d[(pos + 1 + digits.len()) as int] == 13);
        assert(d[(pos + 1 + digits.len()) as int + 1] == 10);
        lemma_find_crlf_after(d, pos + 1, digits);
    }
}

/// The cut falls in an aggregate: in the count line, or among the children,
/// where the run of items is then incomplete.
proof fn lemma_prefix_agg_items(d: Seq<u8>, pos: nat, e: Seq<u8>, items: Seq<FrameView>, fuel: nat)
    requires
        wf_items(items),
        e == seq![e[0]] + crate::num::dec_u(items.len()) + crate::frame::crlf()
            + crate::frame::encode_frames(items),
        pos < d.len() < pos + e.len(),
        d.len() <= u64::MAX,
        e.len() <= u64::MAX,
        forall|j: int| 0 <= j < d.len() - pos ==> #[trigger] d[pos + j] == e[j],
        fuel >= d.len() - pos + 1,
        fuel >= 1,
    ensures
        ({
            ||| find_crlf(d, pos + 1) is None
            ||| (find_crlf(d, pos + 1) == Some((pos + 1 + crate::num::dec_u(items.len()).len()) as nat)
                && d.subrange(
                pos as int + 1,
                (pos + 1 + crate::num::dec_u(items.len()).len()) as int,
            ) == crate::num::dec_u(items.len()) && spec_parse_items(
                d,
                pos + 3 + crate::num::dec_u(items.len()).len(),
                items.len() as u64,
                (fuel - 1) as nat,
            ) == ItemsOutcome::Incomplete)
        }),
    decreases items, 2nat,
{
    let digits = crate::num::dec_u(items.len());
    crate::num::lemma_dec_u_digits(items.len());
    crate::num::lemma_dec_u_value(items.len());
    lemma_digits_line_ok(digits);
    lemma_encode_frames_min_len(items);
    if d.len() <= pos + 1 + digits.len() + 1 {
        assert forall|j: int|
            pos + 1 <= j < d.len() && j - (pos + 1) < digits.len() implies #[trigger] d[j]
            == digits[j - (pos + 1)] by {
            assert(d[pos + (j - pos)] == e[j - pos]);
        }
        lemma_no_crlf_in_prefix(d, pos + 1, digits);
    } else {
        assert forall|i: int| 0 <= i < digits.len() implies d[pos as int + 1 + i] == digits[i] by {
            assert(d[pos + (i + 1)] == e[i + 1]);
        }
        assert(d.subrange(pos as int + 1, (pos + 1 + digits.len()) as int) =~= digits);
        assert(d[pos + (1 + digits.len() as int)] == e[1 + digits.len() as int]);
        assert(d[pos + (2 + digits.len() as int)] == e[2 + digits.len() as int]);
        assert(d[(pos + 1 + digits.len()) as int] == 13);
        assert(d[(pos + 1 + digits.len()) as int + 1] == 10);
        lemma_find_crlf_after(d, pos + 1, digits);
        let next = pos + 3 + digits.len();
        let region = crate::frame::encode_frames(items);
        assert forall|j: int| 0 <= j < d.len() - next implies #[trigger] d[next + j]
            == region[j] by {
            assert(d[pos + (j + 3 + digits.len())] == e[j + 3 + digits.len()]);
        }
        lemma_prefix_items(d, next, items, (fuel - 1) as nat);
    }
}

/// The cut falls among the children of a run: some lead children are whole,
/// then one is cut short.
proof fn lemma_prefix_items(d: Seq<u8>, pos: nat, items: Seq<FrameView>, fuel: nat)
    requires
        wf_items(items),
        pos <= d.len(),
        d.len() < pos + crate::frame::encode_frames(items).len(),
        d.len() <= u64::MAX,
        crate::frame::encode_frames(items).len() <= u64::MAX,
        forall|j: int|
            0 <= j < d.len() - pos ==> #[trigger] d[pos + j] == crate::frame::encode_frames(
                items,
            )[j],
        fuel >= d.len() - pos + 1,
    ensures
        spec_parse_items(d, pos, items.len() as u64, fuel) == ItemsOutcome::Incomplete,
    decreases items, 1nat,
{
    lemma_encode_frames_min_len(items);
    let region = crate::frame::encode_frames(items);
    if items.len() == 0 {
        assert(region.len() == 0);
        assert(false);
    }
    let e0 = crate::frame::spec_encode(items[0]);
    let rest = crate::frame::encode_frames(items.drop_first());
    assert(region == e0 + rest);
    vstd::seq::axiom_seq_index_decreases(items, 0);
    lemma_seq_drop_first_decreases(items);
    if d.len() < pos + e0.len() {
        assert forall|i: int| 0 <= i < d.len() - pos implies #[trigger] d.subrange(
            pos as int,
            d.len() as int,
        )[i] == e0.take(d.len() - pos)[i] by {
            assert(d[pos + i] == region[i]);
        }
        assert(d.subrange(pos as int, d.len() as int) =~= e0.take(d.len() - pos));
        lemma_parse_prefix(d, pos, items[0], fuel);
    } else {
        assert forall|j: int| 0 <= j < e0.len() implies #[trigger] d.subrange(
            pos as int,
            (pos + e0.len()) as int,
        )[j] == e0[j] by {
            assert(d[pos + j] == region[j]);
        }
        assert(d.subrange(pos as int, (pos + e0.len()) as int) =~= e0);
        lemma_parse_encode(d, pos, items[0], fuel);
        let p1 = pos + e0.len();
        assert forall|j: int| 0 <= j < d.len() - p1 implies #[trigger] d[p1 + j] == rest[j] by {
            assert(d[pos + (j + e0.len() as int)] == region[j + e0.len() as int]);
            assert(p1 + j == pos + (j + e0.len() as int));
        }
        lemma_prefix_items(d, p1, items.drop_first(), fuel);
        assert((items.len() as u64 - 1) as u64 == items.drop_first().len() as u64);
    }
}

/// The pair form of the aggregate-cut lemma.
proof fn lemma_prefix_agg_pairs(
    d: Seq<u8>,
    pos: nat,
    e: Seq<u8>,
    pairs: Seq<(FrameView, FrameView)>,
    fuel: nat,
)
    requires
        wf_pairs(pairs),
        e == seq![e[0]] + crate::num::dec_u(pairs.len()) + crate::frame::crlf()
            + crate::frame::encode_pairs(pairs),
        pos < d.len() < pos + e.len(),
        d.len() <= u64::MAX,
        e.len() <= u64::MAX,
        forall|j: int| 0 <= j < d.len() - pos ==> #[trigger] d[pos + j] == e[j],
        fuel >= d.len() - pos + 1,
        fuel >= 1,
    ensures
        ({
            ||| find_crlf(d, pos + 1) is None
            ||| (find_crlf(d, pos + 1) == Some((pos + 1 + crate::num::dec_u(pairs.len()).len()) as nat)
                && d.subrange(
                pos as int + 1,
                (pos + 1 + crate::num::dec_u(pairs.len()).len()) as int,
            ) == crate::num::dec_u(pairs.len()) && spec_parse_pairs(
                d,
                pos + 3 + crate::num::dec_u(pairs.len()).len(),
                pairs.len() as u64,
                (fuel - 1) as nat,
            ) == PairsOutcome::Incomplete)
        }),
    decreases pairs, 2nat,
{
    let digits = crate::num::dec_u(pairs.len());
    crate::num::lemma_dec_u_digits(pairs.len());
    crate::num::lemma_dec_u_value(pairs.len());
    lemma_digits_line_ok(digits);
    lemma_encode_pairs_min_len(pairs);
    if d.len() <= pos + 1 + digits.len() + 1 {
        assert forall|j: int|
            pos + 1 <= j < d.len() && j - (pos + 1) < digits.len() implies #[trigger] d[j]
            == digits[j - (pos + 1)] by {
            assert(d[pos + (j - pos)] == e[j - pos]);
        }
        lemma_no_crlf_in_prefix(d, pos + 1, digits);
    } else {
        assert forall|i: int| 0 <= i < digits.len() implies d[pos as int + 1 + i] == digits[i] by {
            assert(d[pos + (i + 1)] == e[i + 1]);
        }
        assert(d.subrange(pos as int + 1, (pos + 1 + digits.len()) as int) =~= digits);
        assert(d[pos + (1 + digits.len() as int)] == e[1 + digits.len() as int]);
        assert(d[pos + (2 + digits.len() as int)] == e[2 + digits.len() as int]);
        assert(d[(pos + 1 + digits.len()) as int] == 13);
        assert(d[(pos + 1 + digits.len()) as int + 1] == 10);
        lemma_find_crlf_after(d, pos + 1, digits);
        let next = pos + 3 + digits.len();
        let region = crate::frame::encode_pairs(pairs);
        assert forall|j: int| 0 <= j < d.len() - next implies #[trigger] d[next + j]
            == region[j] by {
            assert(d[pos + (j + 3 + digits.len())] == e[j + 3 + digits.len()]);
        }
        lemma_prefix_pairs(d, next, pairs, (fuel - 1) as nat);
    }
}

/// The cut falls among the pairs of a run.
proof fn lemma_prefix_pairs(d: Seq<u8>, pos: nat, pairs: Seq<(FrameView, FrameView)>, fuel: nat)
    requires
        wf_pairs(pairs),
        pos <= d.len(),
        d.len() < pos + crate::frame::encode_pairs(pairs).len(),
        d.len() <= u64::MAX,
        crate::frame::encode_pairs(pairs).len() <= u64::MAX,
        forall|j: int|
            0 <= j < d.len() - pos ==> #[trigger] d[pos + j] == crate::frame::encode_pairs(
                pairs,
            )[j],
        fuel >= d.len() - pos + 1,
    ensures
        spec_parse_pairs(d, pos, pairs.len() as u64, fuel) == PairsOutcome::Incomplete,
    decreases pairs, 1nat,
{
    lemma_encode_pairs_min_len(pairs);
    let region = crate::frame::encode_pairs(pairs);
    if pairs.len() == 0 {
        assert(region.len() == 0);
        assert(false);
    }
    let ek = crate::frame::spec_encode(pairs[0].0);
    let ev = crate::frame::spec_encode(pairs[0].1);
    let rest = crate::frame::encode_pairs(pairs.drop_first());
    assert(region == (ek + ev) + rest);
    vstd::seq::axiom_seq_index_decreases(pairs, 0);
    lemma_seq_drop_first_decreases(pairs);
    if d.len() < pos + ek.len() {
        assert forall|i: int| 0 <= i < d.len() - pos implies #[trigger] d.subrange(
            pos as int,
            d.len() as int,
        )[i] == ek.take(d.len() - pos)[i] by {
            assert(d[pos + i] == region[i]);
        }
        assert(d.subrange(pos as int, d.len() as int) =~= ek.take(d.len() - pos));
        lemma_parse_prefix(d, pos, pairs[0].0, fuel);
    } else {
        assert forall|j: int| 0 <= j < ek.len() implies #[trigger] d.subrange(
            pos as int,
            (pos + ek.len()) as int,
        )[j] == ek[j] by {
            assert(d[pos + j] == region[j]);
        }
        assert(d.subrange(pos as int, (pos + ek.len()) as int) =~= ek);
        lemma_parse_encode(d, pos, pairs[0].0, fuel);
        let p1 = pos + ek.len();
        if d.len() < p1 + ev.len() {
            assert forall|j: int| 0 <= j < d.len() - p1 implies #[trigger] d.subrange(
                p1 as int,
                d.len() as int,
            )[j] == ev.take(d.len() - p1)[j] by {
                assert(d[pos + (j + ek.len() as int)] == region[j + ek.len() as int]);
                assert(p1 + j == pos + (j + ek.len() as int));
            }
            assert(d.subrange(p1 as int, d.len() as int) =~= ev.take(d.len() - p1));
            lemma_parse_prefix(d, p1, pairs[0].1, fuel);
        } else {
            assert forall|j: int| 0 <= j < ev.len() implies #[trigger] d.subrange(
                p1 as int,
                (p1 + ev.len()) as int,
            )[j] == ev[j] by {
                assert(d[pos + (j + ek.len() as int)] == region[j + ek.len() as int]);
                assert(d.subrange(p1 as int, (p1 + ev.len()) as int)[j] == d[p1 + j]);
                assert(p1 + j == pos + (j + ek.len() as int));
            }
            assert(d.subrange(p1 as int, (p1 + ev.len()) as int) =~= ev);
            lemma_parse_encode(d, p1, pairs[0].1, fuel);
            let p2 = p1 + ev.len();
            assert forall|j: int| 0 <= j < d.len() - p2 implies #[trigger] d[p2 + j]
                == rest[j] by {
                assert(d[pos + (j + ek.len() as int + ev.len() as int)] == region[j
                    + ek.len() as int + ev.len() as int]);
                assert(p2 + j == pos + (j + ek.len() as int + ev.len() as int));
            }
            lemma_prefix_pairs(d, p2, pairs.drop_first(), fuel);
            assert((pairs.len() as u64 - 1) as u64 == pairs.drop_first().len() as u64);
        }
    }
}

/// The partial-parse law: one attempt over any strict prefix of a frame's
/// encoding asks for more bytes, and the reader's buffer is then unchanged.
pub proof fn lemma_parse_strict_prefix(f: FrameView, cut: nat)
    requires
        wf_frame(f),
        cut < crate::frame::spec_encode(f).len(),
        crate::frame::spec_encode(f).len() <= u64::MAX,
    ensures
        frame_parse(crate::frame::spec_encode(f).take(cut as int)) == ParseOutcome::Incomplete,
{
    let d = crate::frame::spec_encode(f).take(cut as int);
    assert(d.subrange(0, d.len() as int) =~= crate::frame::spec_encode(f).take(d.len() as int));
    lemma_parse_prefix(d, 0, f, d.len() + 1);
}

} // verus!

use vstd::prelude::*;
use vstd::string::StringSliceAdditionalSpecFns;

use crate::config::Config;
use crate::frame::spec_encode;
use crate::frame::Frame;
use crate::frame::FrameView;
use crate::num::all_digits;
use crate::num::dec_value;
use crate::rdb::bool_text;
use crate::rdb::save_ok;
use crate::rdb::spec_save;
use crate::store::entries_map;
use crate::store::live_at;
use crate::store::spec_deadline;
use crate::store::spec_set_error;
use crate::store::EntryView;
use crate::store::Entry;
use crate::store::RedisValue;
use crate::store::SetOutcome;
use crate::store::Store;
use crate::store::ValueView;
use crate::store::key_matches;

verus! {

/// An ASCII letter folded to lower case; any other byte kept.
pub open spec fn lower_byte(c: u8) -> u8 {
    if 65 <= c <= 90 {
        (c + 32) as u8
    } else {
        c
    }
}

/// The byte string folded to lower case, letter by letter.
pub open spec fn lower_bytes(s: Seq<u8>) -> Seq<u8> {
    Seq::new(s.len(), |i: int| lower_byte(s[i]))
}

/// Folds ASCII letters of `s` to lower case.
pub fn to_lower(s: &[u8]) -> (r: Vec<u8>)
    ensures
        r@ == lower_bytes(s@),
{
    let mut out: Vec<u8> = Vec::new();
    let mut i: usize = 0;
    while i < s.len()
        invariant
            i <= s@.len(),
            out@.len() == i,
            forall|j: int| 0 <= j < i ==> #[trigger] out@[j] == lower_byte(s@[j]),
        decreases s@.len() - i,
    {
        let b = s[i];
        if 65 <= b && b <= 90 {
            out.push(b + 32);
        } else {
            out.push(b);
        }
        i = i + 1;
    }
    proof {
        assert(out@ =~= lower_bytes(s@));
    }
    out
}

/// The reply an accepted command answers with.
pub open spec fn ok_reply() -> Seq<u8> {
    spec_encode(FrameView::SimpleString(seq![79u8, 75u8]))
}

/// The null bulk reply: what a missing key, or a SET whose condition failed,
/// answers with.
pub open spec fn null_bulk_reply() -> Seq<u8> {
    spec_encode(FrameView::BulkString(None))
}

/// An error reply whose text begins with `ERR `.
pub open spec fn is_err_reply(r: Seq<u8>) -> bool {
    exists|m: Seq<u8>|
        r == spec_encode(FrameView::Error(m)) && m.len() >= 4 && m.subrange(0, 4) == seq![
            69u8,
            82u8,
            82u8,
            32u8,
        ]
}

/// Encodes an error reply from its text.
pub fn error(msg: &str) -> (r: Vec<u8>)
    ensures
        r@ == spec_encode(FrameView::Error(msg.spec_bytes())),
{
    let mut text: Vec<u8> = Vec::new();
    crate::frame::push_bytes(&mut text, msg.as_bytes());
    proof {
        assert(text@ =~= msg.spec_bytes());
    }
    Frame::Error(text).encode()
}

/// Encodes an error reply: `ERR `, then the given text.
pub fn err_reply(msg: &str) -> (r: Vec<u8>)
    ensures
        is_err_reply(r@),
{
    let mut text: Vec<u8> = Vec::new();
    text.push(69);
    text.push(82);
    text.push(82);
    text.push(32);
    crate::frame::push_bytes(&mut text, msg.as_bytes());
    let r = Frame::Error(text).encode();
    proof {
        assert(r@ == spec_encode(FrameView::Error(text@)));
        assert(text@.subrange(0, 4) =~= seq![69u8, 82u8, 82u8, 32u8]);
    }
    r
}

/// Answers PONG, whatever the arguments.
pub fn ping(_args: Vec<Frame>) -> (r: Vec<u8>)
    ensures
        r@ == spec_encode(FrameView::SimpleString(seq![80u8, 79u8, 78u8, 71u8])),
{
    let mut text: Vec<u8> = Vec::new();
    text.push(80);
    text.push(79);
    text.push(78);
    text.push(71);
    proof {
        assert(text@ =~= seq![80u8, 79u8, 78u8, 71u8]);
    }
    Frame::SimpleString(text).encode()
}

/// What ECHO answers: the same bulk payload back, or an error for any other
/// shape of argument.
pub open spec fn echo_post(args: Seq<Frame>, r: Seq<u8>) -> bool {
    if args.len() == 1 {
        match args[0]@ {
            FrameView::BulkString(Some(b)) => r == spec_encode(FrameView::BulkString(Some(b))),
            _ => is_err_reply(r),
        }
    } else {
        is_err_reply(r)
    }
}

/// Answers the same bulk string back.
pub fn echo(args: Vec<Frame>) -> (r: Vec<u8>)
    ensures
        echo_post(args@, r@),
{
    if args.len() != 1 {
        return err_reply("wrong number of arguments for 'echo'");
    }
    match &args[0] {
        Frame::BulkString(Some(bs)) => {
            let mut data: Vec<u8> = Vec::new();
            crate::frame::push_bytes(&mut data, bs.as_slice());
            proof {
                assert(data@ =~= bs@);
            }
            Frame::BulkString(Some(data)).encode()
        },
        _ => err_reply("invalid argument for 'echo'"),
    }
}

/// The SET options read left to right from `args[i..]`: each EX or PX takes
/// a positive decimal value and overrides an earlier one; NX and XX are
/// flags; anything else is a syntax error, told by `None`.
pub open spec fn opts_from(
    args: Seq<Frame>,
    i: nat,
    ex: Option<u64>,
    px: Option<u64>,
    nx: bool,
    xx: bool,
) -> Option<(Option<u64>, Option<u64>, bool, bool)>
    decreases args.len() - i,
{
    if i >= args.len() {
        Some((ex, px, nx, xx))
    } else {
        match args[i as int]@ {
            FrameView::BulkString(Some(opt)) => {
                let o = lower_bytes(opt);
                if o == seq![101u8, 120u8] {
                    if i + 1 >= args.len() {
                        None
                    } else {
                        match args[i as int + 1]@ {
                            FrameView::BulkString(Some(sec)) => if all_digits(sec) && dec_value(sec)
                                <= u64::MAX && dec_value(sec) > 0 {
                                opts_from(args, i + 2, Some(dec_value(sec) as u64), px, nx, xx)
                            } else {
                                None
                            },
                            _ => None,
                        }
                    }
                } else if o == seq![112u8, 120u8] {
                    if i + 1 >= args.len() {
                        None
                    } else {
                        match args[i as int + 1]@ {
                            FrameView::BulkString(Some(ms)) => if all_digits(ms) && dec_value(ms)
                                <= u64::MAX && dec_value(ms) > 0 {
                                opts_from(args, i + 2, ex, Some(dec_value(ms) as u64), nx, xx)
                            } else {
                                None
                            },
                            _ => None,
                        }
                    }
                } else if o == seq![110u8, 120u8] {
                    opts_from(args, i + 1, ex, px, true, xx)
                } else if o == seq![120u8, 120u8] {
                    opts_from(args, i + 1, ex, px, nx, true)
                } else {
                    None
                }
            },
            _ => None,
        }
    }
}

/// What SET answers and what it does to the keyspace: errors for a short or
/// ill-typed argument list, for a syntax error among the options, and for
/// the conflicts the keyspace refuses; a null bulk when an NX or XX
/// condition fails, with nothing changed; OK with the key re-bound
/// otherwise.
pub open spec fn set_post(
    args: Seq<Frame>,
    old_m: Map<Seq<u8>, EntryView>,
    new_m: Map<Seq<u8>, EntryView>,
    r: Seq<u8>,
    now: u64,
) -> bool {
    if args.len() < 2 {
        is_err_reply(r) && new_m == old_m
    } else {
        match (args[0]@, args[1]@) {
            (FrameView::BulkString(Some(key)), FrameView::BulkString(Some(value))) => {
                match opts_from(args, 2, None, None, false, false) {
                    None => is_err_reply(r) && new_m == old_m,
                    Some((ex, px, nx, xx)) => {
                        if spec_set_error(ex, px, nx, xx) is Some {
                            is_err_reply(r) && new_m == old_m
                        } else if (nx && old_m.contains_key(key)) || (xx && !old_m.contains_key(
                            key,
                        )) {
                            r == null_bulk_reply() && new_m == old_m
                        } else {
                            r == ok_reply() && new_m == old_m.insert(
                                key,
                                EntryView {
                                    value: ValueView::String(value),
                                    expires_at: spec_deadline(ex, px, now),
                                },
                            )
                        }
                    },
                }
            },
            _ => is_err_reply(r) && new_m == old_m,
        }
    }
}

/// Runs SET against the keyspace.
pub fn set(args: Vec<Frame>, store: &mut Store, now: u64) -> (r: Vec<u8>)
    requires
        old(store).wf(),
    ensures
        final(store).wf(),
        set_post(args@, old(store)@, final(store)@, r@, now),
{
    if args.len() < 2 {
        return err_reply("wrong number of arguments for 'set'");
    }
    let key: Vec<u8> = match &args[0] {
        Frame::BulkString(Some(bs)) => {
            let mut k: Vec<u8> = Vec::new();
            crate::frame::push_bytes(&mut k, bs.as_slice());
            proof {
                assert(k@ =~= bs@);
            }
            k
        },
        _ => {
            return err_reply("invalid key for 'set'");
        },
    };
    let value: Vec<u8> = match &args[1] {
        Frame::BulkString(Some(bs)) => {
            let mut v: Vec<u8> = Vec::new();
            crate::frame::push_bytes(&mut v, bs.as_slice());
            proof {
                assert(v@ =~= bs@);
            }
            v
        },
        _ => {
            return err_reply("invalid value for 'set'");
        },
    };
    let mut ex: Option<u64> = None;
    let mut px: Option<u64> = None;
    let mut nx = false;
    let mut xx = false;
    let mut i: usize = 2;
    while i < args.len()
        invariant
            2 <= i,
            old(store) == store,
            store.wf(),
            opts_from(args@, 2, None, None, false, false) == opts_from(args@, i as nat, ex, px, nx, xx),
        decreases args@.len() - i,
    {
        let opt: &Vec<u8> = match &args[i] {
            Frame::BulkString(Some(opt)) => opt,
            _ => {
                return err_reply("syntax error in 'set' options");
            },
        };
        let o = to_lower(opt.as_slice());
        if bytes_eq_lit2(&o, 101, 120) {
            if i + 1 >= args.len() {
                return err_reply("syntax error: EX requires seconds");
            }
            match &args[i + 1] {
                Frame::BulkString(Some(sec)) => {
                    match crate::num::parse_u64_digits(sec.as_slice(), 0, sec.len()) {
                        Some(v) => {
                            proof {
                                assert(sec@.subrange(0, sec@.len() as int) =~= sec@);
                            }
                            if v == 0 {
                                return err_reply("EX value must be a positive integer");
                            }
                            ex = Some(v);
                        },
                        None => {
                            proof {
                                assert(sec@.subrange(0, sec@.len() as int) =~= sec@);
                            }
                            return err_reply("EX value must be a positive integer");
                        },
                    }
                },
                _ => {
                    return err_reply("EX value must be a positive integer");
                },
            }
            i = i + 2;
        } else if bytes_eq_lit2(&o, 112, 120) {
            if i + 1 >= args.len() {
                return err_reply("syntax error: PX requires milliseconds");
            }
            match &args[i + 1] {
                Frame::BulkString(Some(ms)) => {
                    match crate::num::parse_u64_digits(ms.as_slice(), 0, ms.len()) {
                        Some(v) => {
                            proof {
                                assert(ms@.subrange(0, ms@.len() as int) =~= ms@);
                            }
                            if v == 0 {
                                return err_reply("PX value must be a positive integer");
                            }
                            px = Some(v);
                        },
                        None => {
                            proof {
                                assert(ms@.subrange(0, ms@.len() as int) =~= ms@);
                            }
                            return err_reply("PX value must be a positive integer");
                        },
                    }
                },
                _ => {
                    return err_reply("PX value must be a positive integer");
                },
            }
            i = i + 2;
        } else if bytes_eq_lit2(&o, 110, 120) {
            nx = true;
            i = i + 1;
        } else if bytes_eq_lit2(&o, 120, 120) {
            xx = true;
            i = i + 1;
        } else {
            return err_reply("syntax error in 'set' options");
        }
    }
    match store.set(key, value, ex, px, nx, xx, now) {
        Ok(SetOutcome::Done) => {
            let mut text: Vec<u8> = Vec::new();
            text.push(79);
            text.push(75);
            proof {
                assert(text@ =~= seq![79u8, 75u8]);
            }
            Frame::SimpleString(text).encode()
        },
        Ok(SetOutcome::NotSet) => Frame::BulkString(None).encode(),
        Err(crate::store::SetError::ConflictingConditions) => err_reply(
            "syntax error: NX and XX options are mutually exclusive",
        ),
        Err(crate::store::SetError::ConflictingDurations) => err_reply(
            "syntax error: EX and PX options are mutually exclusive",
        ),
        Err(crate::store::SetError::NonPositiveDuration) => err_reply(
            "EX value must be a positive integer",
        ),
    }
}

/// Whether a short vector holds exactly the two given bytes.
fn bytes_eq_lit2(v: &Vec<u8>, a: u8, b: u8) -> (r: bool)
    ensures
        r == (v@ == seq![a, b]),
{
    if v.len() == 2 && v[0] == a && v[1] == b {
        proof {
            assert(v@ =~= seq![a, b]);
        }
        true
    } else {
        proof {
            if v@ == seq![a, b] {
                assert(v@.len() == 2 && v@[0] == a && v@[1] == b);
            }
        }
        false
    }
}

/// The frame a stored value reads back as: strings as bulks, numbers and
/// booleans as their text, lists and sets as arrays of bulks, sorted sets
/// and hashes as arrays of two-element arrays, and opaque container payloads
/// as bulks, verbatim.
pub open spec fn frame_of_value(v: ValueView) -> FrameView {
    match v {
        ValueView::String(b) => FrameView::BulkString(Some(b)),
        ValueView::Integer(i) => FrameView::Integer(i),
        ValueView::Float(t) => FrameView::BulkString(Some(t)),
        ValueView::Boolean(b) => FrameView::BulkString(Some(bool_text(b))),
        ValueView::Null => FrameView::Null,
        ValueView::List(items) => FrameView::Array(
            Some(Seq::new(items.len(), |i: int| FrameView::BulkString(Some(items[i])))),
        ),
        ValueView::SetVal(items) => FrameView::Array(
            Some(Seq::new(items.len(), |i: int| FrameView::BulkString(Some(items[i])))),
        ),
        ValueView::SortedSet(pairs) => FrameView::Array(
            Some(
                Seq::new(
                    pairs.len(),
                    |i: int|
                        FrameView::Array(
                            Some(
                                seq![
                                    FrameView::BulkString(Some(pairs[i].0)),
                                    FrameView::BulkString(Some(pairs[i].1)),
                                ],
                            ),
                        ),
                ),
            ),
        ),
        ValueView::Hash(pairs) => FrameView::Array(
            Some(
                Seq::new(
                    pairs.len(),
                    |i: int|
                        FrameView::Array(
                            Some(
                                seq![
                                    FrameView::BulkString(Some(pairs[i].0)),
                                    FrameView::BulkString(Some(pairs[i].1)),
                                ],
                            ),
                        ),
                ),
            ),
        ),
        ValueView::Zipmap(d) => FrameView::BulkString(Some(d)),
        ValueView::Ziplist(d) => FrameView::BulkString(Some(d)),
        ValueView::Intset(d) => FrameView::BulkString(Some(d)),
        ValueView::Quicklist(d) => FrameView::BulkString(Some(d)),
    }
}

/// Bulk frames built from items read back as the bulks of the items' views.
proof fn lemma_bulk_views(items: Seq<Vec<u8>>, fs: Seq<Frame>)
    requires
        crate::frame::frames_view(fs) == Seq::new(
            items.len(),
            |i: int| FrameView::BulkString(Some(items[i]@)),
        ),
    ensures
        crate::frame::frames_view(fs) == Seq::new(
            Seq::new(items.len(), |i: int| items[i]@).len(),
            |i: int| FrameView::BulkString(Some(Seq::new(items.len(), |j: int| items[j]@)[i])),
        ),
{
    let iv = Seq::new(items.len(), |i: int| items[i]@);
    assert(crate::frame::frames_view(fs) =~= Seq::new(
        iv.len(),
        |i: int| FrameView::BulkString(Some(iv[i])),
    ));
}

/// Pair frames built from pairs read back as two-element arrays of the
/// pairs' views.
proof fn lemma_pair_views(pairs: Seq<(Vec<u8>, Vec<u8>)>, fs: Seq<Frame>)
    requires
        crate::frame::frames_view(fs) == Seq::new(
            pairs.len(),
            |i: int|
                FrameView::Array(
                    Some(
                        seq![
                            FrameView::BulkString(Some(pairs[i].0@)),
                            FrameView::BulkString(Some(pairs[i].1@)),
                        ],
                    ),
                ),
        ),
    ensures
        crate::frame::frames_view(fs) == Seq::new(
            Seq::new(pairs.len(), |i: int| (pairs[i].0@, pairs[i].1@)).len(),
            |i: int|
                FrameView::Array(
                    Some(
                        seq![
                            FrameView::BulkString(
                                Some(Seq::new(pairs.len(), |j: int| (pairs[j].0@, pairs[j].1@))[i].0),
                            ),
                            FrameView::BulkString(
                                Some(Seq::new(pairs.len(), |j: int| (pairs[j].0@, pairs[j].1@))[i].1),
                            ),
                        ],
                    ),
                ),
        ),
{
    let pv = Seq::new(pairs.len(), |i: int| (pairs[i].0@, pairs[i].1@));
    assert(crate::frame::frames_view(fs) =~= Seq::new(
        pv.len(),
        |i: int|
            FrameView::Array(
                Some(
                    seq![
                        FrameView::BulkString(Some(pv[i].0)),
                        FrameView::BulkString(Some(pv[i].1)),
                    ],
                ),
            ),
    ));
}

/// Builds the frame a stored value reads back as.
fn value_to_frame(v: &RedisValue) -> (r: Frame)
    ensures
        r@ == frame_of_value(v@),
{
    match v {
        RedisValue::String(b) => Frame::BulkString(Some(copy_vec(b))),
        RedisValue::Integer(i) => Frame::Integer(*i),
        RedisValue::Float(t) => Frame::BulkString(Some(copy_vec(t))),
        RedisValue::Boolean(b) => {
            let mut text: Vec<u8> = Vec::new();
            if *b {
                text.push(116);
                text.push(114);
                text.push(117);
                text.push(101);
            } else {
                text.push(102);
                text.push(97);
                text.push(108);
                text.push(115);
                text.push(101);
            }
            proof {
                assert(text@ =~= bool_text(*b));
            }
            Frame::BulkString(Some(text))
        },
        RedisValue::Null => Frame::Null,
        RedisValue::List(items) => {
            let fs = bulks_of(items);
            proof {
                lemma_bulk_views(items@, fs@);
            }
            Frame::Array(Some(fs))
        },
        RedisValue::SetVal(items) => {
            let fs = bulks_of(items);
            proof {
                lemma_bulk_views(items@, fs@);
            }
            Frame::Array(Some(fs))
        },
        RedisValue::SortedSet(pairs) => {
            let fs = pair_arrays_of(pairs);
            proof {
                lemma_pair_views(pairs@, fs@);
            }
            Frame::Array(Some(fs))
        },
        RedisValue::Hash(pairs) => {
            let fs = pair_arrays_of(pairs);
            proof {
                lemma_pair_views(pairs@, fs@);
            }
            Frame::Array(Some(fs))
        },
        RedisValue::Zipmap(d) => Frame::BulkString(Some(copy_vec(d))),
        RedisValue::Ziplist(d) => Frame::BulkString(Some(copy_vec(d))),
        RedisValue::Intset(d) => Frame::BulkString(Some(copy_vec(d))),
        RedisValue::Quicklist(d) => Frame::BulkString(Some(copy_vec(d))),
    }
}

/// A copy of a byte string.
fn copy_vec(v: &Vec<u8>) -> (r: Vec<u8>)
    ensures
        r@ == v@,
{
    let mut out: Vec<u8> = Vec::new();
    crate::frame::push_bytes(&mut out, v.as_slice());
    proof {
        assert(out@ =~= v@);
    }
    out
}

/// One bulk frame per item.
fn bulks_of(items: &Vec<Vec<u8>>) -> (r: Vec<Frame>)
    ensures
        crate::frame::frames_view(r@) == Seq::new(
            items@.len(),
            |i: int| FrameView::BulkString(Some(items@[i]@)),
        ),
{
    let mut out: Vec<Frame> = Vec::new();
    let mut i: usize = 0;
    while i < items.len()
        invariant
            i <= items@.len(),
            out@.len() == i,
            forall|j: int|
                0 <= j < i ==> #[trigger] out@[j]@ == FrameView::BulkString(Some(items@[j]@)),
        decreases items@.len() - i,
    {
        out.push(Frame::BulkString(Some(copy_vec(&items[i]))));
        i = i + 1;
    }
    proof {
        crate::frame::lemma_frames_view_index(out@);
        assert(crate::frame::frames_view(out@) =~= Seq::new(
            items@.len(),
            |i: int| FrameView::BulkString(Some(items@[i]@)),
        ));
    }
    out
}

/// One two-element array frame per pair.
fn pair_arrays_of(pairs: &Vec<(Vec<u8>, Vec<u8>)>) -> (r: Vec<Frame>)
    ensures
        crate::frame::frames_view(r@) == Seq::new(
            pairs@.len(),
            |i: int|
                FrameView::Array(
                    Some(
                        seq![
                            FrameView::BulkString(Some(pairs@[i].0@)),
                            FrameView::BulkString(Some(pairs@[i].1@)),
                        ],
                    ),
                ),
        ),
{
    let mut out: Vec<Frame> = Vec::new();
    let mut i: usize = 0;
    while i < pairs.len()
        invariant
            i <= pairs@.len(),
            out@.len() == i,
            forall|j: int|
                0 <= j < i ==> #[trigger] out@[j]@ == FrameView::Array(
                    Some(
                        seq![
                            FrameView::BulkString(Some(pairs@[j].0@)),
                            FrameView::BulkString(Some(pairs@[j].1@)),
                        ],
                    ),
                ),
        decreases pairs@.len() - i,
    {
        let pair = &pairs[i];
        let mut inner: Vec<Frame> = Vec::new();
        inner.push(Frame::BulkString(Some(copy_vec(&pair.0))));
        inner.push(Frame::BulkString(Some(copy_vec(&pair.1))));
        proof {
            crate::frame::lemma_frames_view_index(inner@);
            assert(crate::frame::frames_view(inner@) =~= seq![
                FrameView::BulkString(Some(pairs@[i as int].0@)),
                FrameView::BulkString(Some(pairs@[i as int].1@)),
            ]);
        }
        out.push(Frame::Array(Some(inner)));
        i = i + 1;
    }
    proof {
        crate::frame::lemma_frames_view_index(out@);
        assert(crate::frame::frames_view(out@) =~= Seq::new(
            pairs@.len(),
            |i: int|
                FrameView::Array(
                    Some(
                        seq![
                            FrameView::BulkString(Some(pairs@[i].0@)),
                            FrameView::BulkString(Some(pairs@[i].1@)),
                        ],
                    ),
                ),
        ));
    }
    out
}

/// What GET answers: the frame the stored value reads back as, a null bulk
/// for a key that is absent or expired, and an error for a bad argument
/// list.
pub open spec fn get_post(args: Seq<Frame>, m: Map<Seq<u8>, EntryView>, r: Seq<u8>, now: u64) -> bool {
    if args.len() == 1 {
        match args[0]@ {
            FrameView::BulkString(Some(key)) => match crate::store::spec_lookup(m, key, now) {
                Some(v) => r == spec_encode(frame_of_value(v)),
                None => r == null_bulk_reply(),
            },
            _ => is_err_reply(r),
        }
    } else {
        is_err_reply(r)
    }
}

/// Runs GET against the keyspace.
pub fn get(args: Vec<Frame>, store: &Store, now: u64) -> (r: Vec<u8>)
    requires
        store.wf(),
    ensures
        get_post(args@, store@, r@, now),
{
    if args.len() != 1 {
        return err_reply("wrong number of arguments for 'get'");
    }
    let key: &Vec<u8> = match &args[0] {
        Frame::BulkString(Some(bs)) => bs,
        _ => {
            return err_reply("invalid key for 'get'");
        },
    };
    match store.get(key.as_slice(), now) {
        Some(v) => value_to_frame(v).encode(),
        None => Frame::BulkString(None).encode(),
    }
}

/// What KEYS answers: an array holding, as bulks, exactly the live keys that
/// match the pattern, each once, in no promised order; an error for a bad
/// argument list.
pub open spec fn keys_post(args: Seq<Frame>, m: Map<Seq<u8>, EntryView>, r: Seq<u8>, now: u64) -> bool {
    if args.len() == 1 && args[0]@ is BulkString && args[0]@->BulkString_0 is Some {
        let pattern = args[0]@->BulkString_0->0;
        exists|ks: Seq<Seq<u8>>|
            #![trigger ks.len()]
            {
                &&& r == spec_encode(
                    FrameView::Array(
                        Some(Seq::new(ks.len(), |i: int| FrameView::BulkString(Some(ks[i])))),
                    ),
                )
                &&& forall|i: int, j: int| 0 <= i < j < ks.len() ==> ks[i] != ks[j]
                &&& forall|i: int|
                    0 <= i < ks.len() ==> m.contains_key(#[trigger] ks[i]) && live_at(m[ks[i]], now)
                        && key_matches(pattern, ks[i])
                &&& forall|k: Seq<u8>|
                    m.contains_key(k) && live_at(#[trigger] m[k], now) && key_matches(pattern, k)
                        ==> ks.contains(k)
            }
    } else {
        is_err_reply(r)
    }
}

/// Runs KEYS against the keyspace.
pub fn keys(args: Vec<Frame>, store: &Store, now: u64) -> (r: Vec<u8>)
    requires
        store.wf(),
    ensures
        keys_post(args@, store@, r@, now),
{
    if args.len() != 1 {
        return err_reply("wrong number of arguments for 'keys' command");
    }
    let pattern: &Vec<u8> = match &args[0] {
        Frame::BulkString(Some(bs)) => bs,
        _ => {
            return err_reply("invalid pattern for 'keys' command");
        },
    };
    let found = store.get_keys_matching_pattern(pattern.as_slice(), now);
    let ghost ks = Seq::new(found@.len(), |i: int| found@[i]@);
    let items = frames_of_keys(found);
    let resp = Frame::Array(Some(items)).encode();
    proof {
        assert forall|k: Seq<u8>|
            store@.contains_key(k) && live_at(#[trigger] store@[k], now) && key_matches(
                pattern@,
                k,
            ) implies ks.contains(k) by {
            let i = choose|i: int| 0 <= i < found@.len() && found@[i]@ == k;
            assert(ks[i] == k);
        }
        assert(Seq::new(ks.len(), |i: int| FrameView::BulkString(Some(ks[i]))) =~= Seq::new(
            found@.len(),
            |i: int| FrameView::BulkString(Some(found@[i]@)),
        ));
        assert(ks.len() == found@.len());
        assert(keys_post(args@, store@, resp@, now));
    }
    resp
}

/// What SAVE did: either a snapshot image to persist, with the keyspace
/// swept first and the image the exact serialisation of the swept keyspace,
/// or an error reply.
pub enum SaveAction {
    /// Write this image to the snapshot file and answer OK.
    Persist(Vec<u8>),
    /// Answer this error.
    Reply(Vec<u8>),
}

/// Runs SAVE: sweeps expired keys, then serialises the keyspace. Success is
/// owed whenever the arguments are empty and the swept keyspace fits the
/// on-disk length encoding; an error reply comes exactly from a wrong
/// argument count, with nothing changed, or from a keyspace that cannot be
/// serialised, left swept. The caller writes the image to disk and answers
/// OK, or answers its own error if the write fails.
pub fn save(args: Vec<Frame>, store: &mut Store, now_wall: u64, now_mono: u64) -> (r: SaveAction)
    requires
        old(store).wf(),
    ensures
        final(store).wf(),
        match r {
            SaveAction::Persist(image) => args@.len() == 0 && crate::store::is_purge_of(
                final(store)@,
                old(store)@,
                now_mono,
            ) && crate::rdb::map_save_ok(final(store)@) && exists|rows: Seq<Entry>|
                {
                    &&& #[trigger] entries_map(rows) == final(store)@
                    &&& forall|i: int, j: int| 0 <= i < j < rows.len() ==> rows[i].key@ != rows[j].key@
                    &&& save_ok(rows)
                    &&& image@ == spec_save(rows, now_wall, now_mono)
                },
            SaveAction::Reply(resp) => is_err_reply(resp@) && (if args@.len() != 0 {
                final(store)@ == old(store)@
            } else {
                crate::store::is_purge_of(final(store)@, old(store)@, now_mono)
                    && !crate::rdb::map_save_ok(final(store)@)
            }),
        },
{
    if args.len() != 0 {
        return SaveAction::Reply(err_reply("wrong number of arguments for 'save'"));
    }
    store.purge_expired_keys(now_mono);
    let rows = store.export();
    match crate::rdb::save(rows, now_wall, now_mono) {
        Ok(image) => {
            proof {
                assert(entries_map(rows@) == store@);
                crate::rdb::lemma_rows_save_ok(rows@);
            }
            SaveAction::Persist(image)
        },
        Err(_) => {
            proof {
                crate::rdb::lemma_rows_save_ok(rows@);
            }
            SaveAction::Reply(err_reply("failed to serialise the dataset"))
        },
    }
}

/// What CONFIG GET answers: a two-element array of the lower-cased parameter
/// and its value, the empty string for a parameter it does not know.
pub open spec fn config_get_post(args: Seq<Frame>, dir: Seq<u8>, dbfilename: Seq<u8>, r: Seq<u8>) -> bool {
    if args.len() == 1 {
        match args[0]@ {
            FrameView::BulkString(Some(p)) => {
                let param = lower_bytes(p);
                let value = if param == seq![100u8, 105u8, 114u8] {
                    dir
                } else if param == seq![
                    100u8,
                    98u8,
                    102u8,
                    105u8,
                    108u8,
                    101u8,
                    110u8,
                    97u8,
                    109u8,
                    101u8,
                ] {
                    dbfilename
                } else {
                    Seq::<u8>::empty()
                };
                r == spec_encode(
                    FrameView::Array(
                        Some(
                            seq![
                                FrameView::BulkString(Some(param)),
                                FrameView::BulkString(Some(value)),
                            ],
                        ),
                    ),
                )
            },
            _ => is_err_reply(r),
        }
    } else {
        is_err_reply(r)
    }
}

/// Answers a configuration parameter's value.
pub fn config_get(args: Vec<Frame>, config: &Config) -> (r: Vec<u8>)
    ensures
        config_get_post(args@, config.dir@, config.dbfilename@, r@),
{
    if args.len() != 1 {
        return err_reply("wrong number of arguments for 'config get'");
    }
    let p: &Vec<u8> = match &args[0] {
        Frame::BulkString(Some(bs)) => bs,
        _ => {
            return err_reply("invalid argument for 'config get'");
        },
    };
    let param = to_lower(p.as_slice());
    let is_dir = param.len() == 3 && param[0] == 100 && param[1] == 105 && param[2] == 114;
    let is_name = param.len() == 10 && param[0] == 100 && param[1] == 98 && param[2] == 102
        && param[3] == 105 && param[4] == 108 && param[5] == 101 && param[6] == 110 && param[7]
        == 97 && param[8] == 109 && param[9] == 101;
    proof {
        if is_dir {
            assert(param@ =~= seq![100u8, 105u8, 114u8]);
        } else {
            if param@ == seq![100u8, 105u8, 114u8] {
                assert(param@.len() == 3 && param@[0] == 100 && param@[1] == 105 && param@[2]
                    == 114);
            }
        }
        if is_name {
            assert(param@ =~= seq![100u8, 98u8, 102u8, 105u8, 108u8, 101u8, 110u8, 97u8, 109u8, 101u8]);
        } else {
            if param@ == seq![100u8, 98u8, 102u8, 105u8, 108u8, 101u8, 110u8, 97u8, 109u8, 101u8] {
                assert(param@.len() == 10 && param@[0] == 100 && param@[1] == 98 && param@[2]
                    == 102 && param@[3] == 105 && param@[4] == 108 && param@[5] == 101 && param@[6]
                    == 110 && param@[7] == 97 && param@[8] == 109 && param@[9] == 101);
            }
        }
    }
    let value: Vec<u8> = if is_dir {
        copy_vec(&config.dir)
    } else if is_name {
        copy_vec(&config.dbfilename)
    } else {
        Vec::new()
    };
    let mut items: Vec<Frame> = Vec::new();
    items.push(Frame::BulkString(Some(param)));
    items.push(Frame::BulkString(Some(value)));
    let resp = Frame::Array(Some(items)).encode();
    proof {
        crate::frame::lemma_frames_view_index(items@);
        assert(crate::frame::frames_view(items@) =~= seq![
            FrameView::BulkString(Some(items@[0]->BulkString_0->0@)),
            FrameView::BulkString(Some(items@[1]->BulkString_0->0@)),
        ]);
    }
    resp
}

/// What CONFIG SET answers and does: `dir` and `dbfilename` are accepted and
/// take the given value; anything else is refused with the configuration
/// unchanged.
pub open spec fn config_set_post(
    args: Seq<Frame>,
    old_dir: Seq<u8>,
    old_name: Seq<u8>,
    new_dir: Seq<u8>,
    new_name: Seq<u8>,
    r: Seq<u8>,
) -> bool {
    if args.len() == 2 {
        match (args[0]@, args[1]@) {
            (FrameView::BulkString(Some(p)), FrameView::BulkString(Some(v))) => {
                let param = lower_bytes(p);
                if param == seq![100u8, 105u8, 114u8] {
                    r == ok_reply() && new_dir == v && new_name == old_name
                } else if param == seq![
                    100u8,
                    98u8,
                    102u8,
                    105u8,
                    108u8,
                    101u8,
                    110u8,
                    97u8,
                    109u8,
                    101u8,
                ] {
                    r == ok_reply() && new_name == v && new_dir == old_dir
                } else {
                    is_err_reply(r) && new_dir == old_dir && new_name == old_name
                }
            },
            _ => is_err_reply(r) && new_dir == old_dir && new_name == old_name,
        }
    } else {
        is_err_reply(r) && new_dir == old_dir && new_name == old_name
    }
}

/// Sets a configuration parameter.
pub fn config_set(args: Vec<Frame>, config: &mut Config) -> (r: Vec<u8>)
    ensures
        config_set_post(
            args@,
            old(config).dir@,
            old(config).dbfilename@,
            final(config).dir@,
            final(config).dbfilename@,
            r@,
        ),
{
    if args.len() != 2 {
        return err_reply("wrong number of arguments for 'config set'");
    }
    let p: &Vec<u8> = match &args[0] {
        Frame::BulkString(Some(bs)) => bs,
        _ => {
            return err_reply("invalid argument for 'config set'");
        },
    };
    let value: Vec<u8> = match &args[1] {
        Frame::BulkString(Some(bs)) => copy_vec(bs),
        _ => {
            return err_reply("invalid value for 'config set'");
        },
    };
    let param = to_lower(p.as_slice());
    let is_dir = param.len() == 3 && param[0] == 100 && param[1] == 105 && param[2] == 114;
    let is_name = param.len() == 10 && param[0] == 100 && param[1] == 98 && param[2] == 102
        && param[3] == 105 && param[4] == 108 && param[5] == 101 && param[6] == 110 && param[7]
        == 97 && param[8] == 109 && param[9] == 101;
    proof {
        if is_dir {
            assert(param@ =~= seq![100u8, 105u8, 114u8]);
        } else {
            if param@ == seq![100u8, 105u8, 114u8] {
                assert(param@.len() == 3 && param@[0] == 100 && param@[1] == 105 && param@[2]
                    == 114);
            }
        }
        if is_name {
            assert(param@ =~= seq![100u8, 98u8, 102u8, 105u8, 108u8, 101u8, 110u8, 97u8, 109u8, 101u8]);
        } else {
            if param@ == seq![100u8, 98u8, 102u8, 105u8, 108u8, 101u8, 110u8, 97u8, 109u8, 101u8] {
                assert(param@.len() == 10 && param@[0] == 100 && param@[1] == 98 && param@[2]
                    == 102 && param@[3] == 105 && param@[4] == 108 && param@[5] == 101 && param@[6]
                    == 110 && param@[7] == 97 && param@[8] == 109 && param@[9] == 101);
            }
        }
    }
    if is_dir {
        crate::config::set_dir(config, value);
    } else if is_name {
        crate::config::set_dbfilename(config, value);
    } else {
        return err_reply("unknown configuration parameter");
    }
    let mut text: Vec<u8> = Vec::new();
    text.push(79);
    text.push(75);
    proof {
        assert(text@ =~= seq![79u8, 75u8]);
    }
    Frame::SimpleString(text).encode()
}

/// Answers the reply for a command this server does not know.
pub fn unknown() -> (r: Vec<u8>)
    ensures
        is_err_reply(r@),
{
    err_reply("unknown command")
}

/// An error reply of any text.
pub open spec fn is_error_reply(r: Seq<u8>) -> bool {
    exists|m: Seq<u8>| r == spec_encode(FrameView::Error(m))
}

/// What one dispatched command leaves behind: the reply to send back, and,
/// for SAVE, the snapshot image to persist before the reply goes out.
pub struct DispatchOutcome {
    pub response: Vec<u8>,
    pub save_image: Option<Vec<u8>>,
}

/// The lower-cased command names the dispatcher routes.
pub open spec fn name_ping() -> Seq<u8> {
    seq![112u8, 105u8, 110u8, 103u8]
}

pub open spec fn name_echo() -> Seq<u8> {
    seq![101u8, 99u8, 104u8, 111u8]
}

pub open spec fn name_set() -> Seq<u8> {
    seq![115u8, 101u8, 116u8]
}

pub open spec fn name_get() -> Seq<u8> {
    seq![103u8, 101u8, 116u8]
}

pub open spec fn name_keys() -> Seq<u8> {
    seq![107u8, 101u8, 121u8, 115u8]
}

pub open spec fn name_save() -> Seq<u8> {
    seq![115u8, 97u8, 118u8, 101u8]
}

pub open spec fn name_config() -> Seq<u8> {
    seq![99u8, 111u8, 110u8, 102u8, 105u8, 103u8]
}

/// What the dispatcher promises, command by command. A request that is not a
/// nonempty array headed by a bulk string is answered with an error frame
/// and changes nothing; a known command behaves as its handler's own
/// statement says; an unknown one is refused. Only SAVE produces an image.
pub open spec fn dispatch_post(
    frame: Frame,
    m0: Map<Seq<u8>, EntryView>,
    m1: Map<Seq<u8>, EntryView>,
    d0: Seq<u8>,
    n0: Seq<u8>,
    d1: Seq<u8>,
    n1: Seq<u8>,
    now_mono: u64,
    now_wall: u64,
    r: DispatchOutcome,
) -> bool {
    match frame {
        Frame::Array(Some(v)) => {
            if v@.len() == 0 {
                is_error_reply(r.response@) && m1 == m0 && d1 == d0 && n1 == n0 && r.save_image
                    is None
            } else {
                match v@[0] {
                    Frame::BulkString(Some(c)) => {
                        let name = lower_bytes(c@);
                        let args = v@.skip(1);
                        if name == name_ping() {
                            r.response@ == spec_encode(
                                FrameView::SimpleString(seq![80u8, 79u8, 78u8, 71u8]),
                            ) && m1 == m0 && d1 == d0 && n1 == n0 && r.save_image is None
                        } else if name == name_echo() {
                            echo_post(args, r.response@) && m1 == m0 && d1 == d0 && n1 == n0
                                && r.save_image is None
                        } else if name == name_set() {
                            set_post(args, m0, m1, r.response@, now_mono) && d1 == d0 && n1 == n0
                                && r.save_image is None
                        } else if name == name_get() {
                            get_post(args, m0, r.response@, now_mono) && m1 == m0 && d1 == d0 && n1
                                == n0 && r.save_image is None
                        } else if name == name_keys() {
                            keys_post(args, m0, r.response@, now_mono) && m1 == m0 && d1 == d0 && n1
                                == n0 && r.save_image is None
                        } else if name == name_save() {
                            d1 == d0 && n1 == n0 && match r.save_image {
                                Some(image) => args.len() == 0 && crate::store::is_purge_of(
                                    m1,
                                    m0,
                                    now_mono,
                                ) && crate::rdb::map_save_ok(m1) && (exists|rows: Seq<Entry>|
                                    {
                                        &&& #[trigger] entries_map(rows) == m1
                                        &&& forall|i: int, j: int|
                                            0 <= i < j < rows.len() ==> rows[i].key@ != rows[j].key@
                                        &&& save_ok(rows)
                                        &&& image@ == spec_save(rows, now_wall, now_mono)
                                    }) && r.response@ == ok_reply(),
                                None => is_err_reply(r.response@) && (if args.len() != 0 {
                                    m1 == m0
                                } else {
                                    crate::store::is_purge_of(m1, m0, now_mono)
                                        && !crate::rdb::map_save_ok(m1)
                                }),
                            }
                        } else if name == name_config() {
                            r.save_image is None && m1 == m0 && if args.len() == 0 {
                                is_err_reply(r.response@) && d1 == d0 && n1 == n0
                            } else {
                                match args[0] {
                                    Frame::BulkString(Some(sub)) => {
                                        let subname = lower_bytes(sub@);
                                        if subname == name_get() {
                                            config_get_post(args.skip(1), d0, n0, r.response@) && d1
                                                == d0 && n1 == n0
                                        } else if subname == name_set() {
                                            config_set_post(args.skip(1), d0, n0, d1, n1, r.response@)
                                        } else {
                                            is_err_reply(r.response@) && d1 == d0 && n1 == n0
                                        }
                                    },
                                    _ => is_err_reply(r.response@) && d1 == d0 && n1 == n0,
                                }
                            }
                        } else {
                            is_err_reply(r.response@) && m1 == m0 && d1 == d0 && n1 == n0
                                && r.save_image is None
                        }
                    },
                    _ => is_error_reply(r.response@) && m1 == m0 && d1 == d0 && n1 == n0
                        && r.save_image is None,
                }
            }
        },
        _ => is_error_reply(r.response@) && m1 == m0 && d1 == d0 && n1 == n0 && r.save_image
            is None,
    }
}

/// Routes one request frame to its handler. A command name is read without
/// regard to case. The keyspace and the configuration change only as the
/// command's own statement allows.
pub fn dispatch(
    frame: Frame,
    store: &mut Store,
    config: &mut Config,
    now_mono: u64,
    now_wall: u64,
) -> (r: DispatchOutcome)
    requires
        old(store).wf(),
    ensures
        final(store).wf(),
        dispatch_post(
            frame,
            old(store)@,
            final(store)@,
            old(config).dir@,
            old(config).dbfilename@,
            final(config).dir@,
            final(config).dbfilename@,
            now_mono,
            now_wall,
            r,
        ),
{
    let mut v: Vec<Frame> = match frame {
        Frame::Array(Some(v)) => v,
        _ => {
            return DispatchOutcome { response: error("Protocol error: expected array"), save_image: None };
        },
    };
    if v.len() == 0 {
        return DispatchOutcome {
            response: error("Protocol error: invalid command"),
            save_image: None,
        };
    }
    let ghost v0 = v@;
    let head = v.remove(0);
    proof {
        assert(v@ =~= v0.skip(1));
    }
    let c: Vec<u8> = match head {
        Frame::BulkString(Some(c)) => c,
        _ => {
            return DispatchOutcome {
                response: error("Protocol error: invalid command"),
                save_image: None,
            };
        },
    };
    let name = to_lower(c.as_slice());
    if eq_lit(&name, &[112, 105, 110, 103]) {
        DispatchOutcome { response: ping(v), save_image: None }
    } else if eq_lit(&name, &[101, 99, 104, 111]) {
        DispatchOutcome { response: echo(v), save_image: None }
    } else if eq_lit(&name, &[115, 101, 116]) {
        DispatchOutcome { response: set(v, store, now_mono), save_image: None }
    } else if eq_lit(&name, &[103, 101, 116]) {
        DispatchOutcome { response: get(v, store, now_mono), save_image: None }
    } else if eq_lit(&name, &[107, 101, 121, 115]) {
        DispatchOutcome { response: keys(v, store, now_mono), save_image: None }
    } else if eq_lit(&name, &[115, 97, 118, 101]) {
        match save(v, store, now_wall, now_mono) {
            SaveAction::Persist(image) => {
                let mut text: Vec<u8> = Vec::new();
                text.push(79);
                text.push(75);
                proof {
                    assert(text@ =~= seq![79u8, 75u8]);
                }
                DispatchOutcome {
                    response: Frame::SimpleString(text).encode(),
                    save_image: Some(image),
                }
            },
            SaveAction::Reply(resp) => DispatchOutcome { response: resp, save_image: None },
        }
    } else if eq_lit(&name, &[99, 111, 110, 102, 105, 103]) {
        if v.len() == 0 {
            return DispatchOutcome {
                response: err_reply("wrong number of arguments for 'config'"),
                save_image: None,
            };
        }
        let ghost v1 = v@;
        let subhead = v.remove(0);
        proof {
            assert(v@ =~= v1.skip(1));
        }
        let sub: Vec<u8> = match subhead {
            Frame::BulkString(Some(s)) => s,
            _ => {
                return DispatchOutcome {
                    response: err_reply("invalid subcommand for 'config'"),
                    save_image: None,
                };
            },
        };
        let subname = to_lower(sub.as_slice());
        if eq_lit(&subname, &[103, 101, 116]) {
            DispatchOutcome { response: config_get(v, config), save_image: None }
        } else if eq_lit(&subname, &[115, 101, 116]) {
            DispatchOutcome { response: config_set(v, config), save_image: None }
        } else {
            DispatchOutcome {
                response: err_reply("unknown subcommand for 'config'"),
                save_image: None,
            }
        }
    } else {
        DispatchOutcome { response: unknown(), save_image: None }
    }
}

/// Whether a vector holds exactly the given bytes.
fn eq_lit(v: &Vec<u8>, lit: &[u8]) -> (r: bool)
    ensures
        r == (v@ == lit@),
{
    crate::store::bytes_eq(v.as_slice(), lit)
}

/// Wraps each key in a bulk frame, consuming the list.
fn frames_of_keys(found: Vec<Vec<u8>>) -> (r: Vec<Frame>)
    ensures
        crate::frame::frames_view(r@) == Seq::new(
            found@.len(),
            |i: int| FrameView::BulkString(Some(found@[i]@)),
        ),
{
    let mut out: Vec<Frame> = Vec::new();
    let mut rest = found;
    let ghost orig = rest@;
    proof {
        assert(orig.take(0) =~= Seq::<Vec<u8>>::empty());
    }
    let mut i: usize = 0;
    while i < rest.len()
        invariant
            i <= rest@.len(),
            rest@ == orig,
            out@.len() == i,
            forall|j: int|
                0 <= j < i ==> #[trigger] out@[j]@ == FrameView::BulkString(Some(orig[j]@)),
        decreases rest@.len() - i,
    {
        out.push(Frame::BulkString(Some(copy_vec(&rest[i]))));
        i = i + 1;
    }
    proof {
        crate::frame::lemma_frames_view_index(out@);
        assert(crate::frame::frames_view(out@) =~= Seq::new(
            orig.len(),
            |i: int| FrameView::BulkString(Some(orig[i]@)),
        ));
    }
    out
}

} // verus!

//! The escape codec and the line framing.
//!
//! A message may contain any byte, including carriage returns and line
//! feeds.  On the wire every carriage return becomes the two bytes `\r`,
//! every line feed the two bytes `\n`, and a frame is the encoded message
//! followed by one unescaped line feed.  A frame therefore contains exactly
//! one unescaped line feed, at its end, which makes the line feed usable as
//! a frame delimiter.

use vstd::prelude::*;

verus! {

/// Line feed, the frame delimiter.
pub const LF: u8 = 10;
/// Carriage return.
pub const CR: u8 = 13;
/// Backslash, the escape lead byte.
pub const ESC: u8 = 92;
/// The byte `r`, which follows a backslash in an escaped carriage return.
pub const ESC_CR: u8 = 114;
/// The byte `n`, which follows a backslash in an escaped line feed.
pub const ESC_LF: u8 = 110;

/// The wire image of one byte: carriage return and line feed are escaped,
/// every other byte, a lone backslash among them, passes through
/// unchanged.
pub open spec fn encode_byte(b: u8) -> Seq<u8> {
    if b == CR {
        seq![ESC, ESC_CR]
    } else if b == LF {
        seq![ESC, ESC_LF]
    } else {
        seq![b]
    }
}

/// The wire image of a whole message.
pub open spec fn encode_spec(s: Seq<u8>) -> Seq<u8>
    decreases s.len(),
{
    if s.len() == 0 {
        Seq::empty()
    } else {
        encode_byte(s[0]) + encode_spec(s.skip(1))
    }
}

/// The reverse mapping: a backslash followed by `r` or `n` becomes a
/// carriage return or a line feed; a backslash followed by any other byte
/// is emitted verbatim together with that byte; a trailing unpaired
/// backslash is emitted as a literal backslash.
pub open spec fn decode_spec(s: Seq<u8>) -> Seq<u8>
    decreases s.len(),
{
    if s.len() == 0 {
        Seq::empty()
    } else if s[0] == ESC {
        if s.len() == 1 {
            seq![ESC]
        } else if s[1] == ESC_CR {
            seq![CR] + decode_spec(s.skip(2))
        } else if s[1] == ESC_LF {
            seq![LF] + decode_spec(s.skip(2))
        } else {
            seq![ESC, s[1]] + decode_spec(s.skip(2))
        }
    } else {
        seq![s[0]] + decode_spec(s.skip(1))
    }
}

/// The messages that survive the codec unchanged.  Decoding gives escaping
/// meaning to a backslash that the encoder passed through unchanged, so a
/// literal backslash immediately followed by a carriage return, a line
/// feed, an `r` or an `n` is altered by a round trip; pairs of consecutive
/// backslashes are consumed two at a time and are harmless.
pub open spec fn round_trip_safe(s: Seq<u8>) -> bool
    decreases s.len(),
{
    if s.len() == 0 {
        true
    } else if s[0] == ESC {
        if s.len() == 1 {
            true
        } else if s[1] == CR || s[1] == LF || s[1] == ESC_CR || s[1] == ESC_LF {
            false
        } else {
            round_trip_safe(s.skip(2))
        }
    } else {
        round_trip_safe(s.skip(1))
    }
}

/// Encoding distributes over concatenation.
pub proof fn lemma_encode_append(a: Seq<u8>, b: Seq<u8>)
    ensures
        encode_spec(a + b) == encode_spec(a) + encode_spec(b),
    decreases a.len(),
{
    if a.len() == 0 {
        assert(a + b =~= b);
        assert(encode_spec(a) + encode_spec(b) =~= encode_spec(b));
    } else {
        assert((a + b).skip(1) =~= a.skip(1) + b);
        lemma_encode_append(a.skip(1), b);
        assert(encode_byte((a + b)[0]) + (encode_spec(a.skip(1)) + encode_spec(b)) =~= (
        encode_byte(a[0]) + encode_spec(a.skip(1))) + encode_spec(b));
    }
}

/// The wire image of a message contains no unescaped line feed.
pub proof fn lemma_encode_no_lf(s: Seq<u8>)
    ensures
        forall|i: int| 0 <= i < encode_spec(s).len() ==> encode_spec(s)[i] != LF,
    decreases s.len(),
{
    if s.len() > 0 {
        lemma_encode_no_lf(s.skip(1));
        assert forall|i: int| 0 <= i < encode_spec(s).len() implies encode_spec(s)[i] != LF by {
            if i >= encode_byte(s[0]).len() {
                assert(encode_spec(s)[i] == encode_spec(s.skip(1))[i - encode_byte(
                    s[0],
                ).len()]);
            }
        }
    }
}

/// Round trip: decoding the wire image of a safe message gives the message
/// back.
pub proof fn lemma_decode_encode(s: Seq<u8>)
    requires
        round_trip_safe(s),
    ensures
        decode_spec(encode_spec(s)) == s,
    decreases s.len(),
{
    let e = encode_spec(s);
    if s.len() == 0 {
        assert(decode_spec(e) =~= s);
    } else if s[0] == CR {
        assert(e =~= seq![ESC, ESC_CR] + encode_spec(s.skip(1)));
        assert(e.skip(2) =~= encode_spec(s.skip(1)));
        lemma_decode_encode(s.skip(1));
        assert(decode_spec(e) =~= seq![CR] + s.skip(1));
        assert(seq![CR] + s.skip(1) =~= s);
    } else if s[0] == LF {
        assert(e =~= seq![ESC, ESC_LF] + encode_spec(s.skip(1)));
        assert(e.skip(2) =~= encode_spec(s.skip(1)));
        lemma_decode_encode(s.skip(1));
        assert(decode_spec(e) =~= seq![LF] + s.skip(1));
        assert(seq![LF] + s.skip(1) =~= s);
    } else if s[0] == ESC {
        if s.len() == 1 {
            assert(s.skip(1).len() == 0);
            assert(encode_spec(s.skip(1)) =~= Seq::<u8>::empty());
            assert(encode_byte(s[0]) =~= seq![ESC]);
            assert(e =~= seq![ESC]);
            assert(decode_spec(e) =~= s);
        } else {
            // s[1] is none of CR, LF, `r`, `n`, so the encoder leaves it in
            // place right after the backslash and the decoder emits both
            // verbatim.
            assert(encode_byte(s[1]) =~= seq![s[1]]);
            assert(s.skip(1).len() > 0 && s.skip(1)[0] == s[1]);
            assert(encode_spec(s.skip(1)) =~= seq![s[1]] + encode_spec(s.skip(1).skip(1)));
            assert(s.skip(1).skip(1) =~= s.skip(2));
            assert(e =~= seq![ESC, s[1]] + encode_spec(s.skip(2)));
            assert(e.skip(2) =~= encode_spec(s.skip(2)));
            lemma_decode_encode(s.skip(2));
            assert(decode_spec(e) =~= seq![ESC, s[1]] + s.skip(2));
            assert(seq![ESC, s[1]] + s.skip(2) =~= s);
        }
    } else {
        assert(e =~= seq![s[0]] + encode_spec(s.skip(1)));
        assert(e[0] != ESC);
        assert(e.skip(1) =~= encode_spec(s.skip(1)));
        lemma_decode_encode(s.skip(1));
        assert(decode_spec(e) =~= seq![s[0]] + s.skip(1));
        assert(seq![s[0]] + s.skip(1) =~= s);
    }
}

/// A message without a backslash always survives the codec unchanged.
pub proof fn lemma_no_esc_round_trip_safe(s: Seq<u8>)
    requires
        forall|i: int| 0 <= i < s.len() ==> (#[trigger] s[i]) != ESC,
    ensures
        round_trip_safe(s),
    decreases s.len(),
{
    if s.len() > 0 {
        assert forall|i: int| 0 <= i < s.skip(1).len() implies (#[trigger] s.skip(1)[i]) != ESC by {
            assert(s.skip(1)[i] == s[i + 1]);
        }
        lemma_no_esc_round_trip_safe(s.skip(1));
    }
}

/// Escape a message for the wire.
pub fn encode(data: &[u8]) -> (r: Vec<u8>)
    ensures
        r@ == encode_spec(data@),
{
    let mut r: Vec<u8> = Vec::new();
    let mut i: usize = 0;
    while i < data.len()
        invariant
            i <= data@.len(),
            r@ == encode_spec(data@.take(i as int)),
        decreases data@.len() - i,
    {
        let b = data[i];
        proof {
            lemma_encode_append(data@.take(i as int), seq![data@[i as int]]);
            assert(data@.take(i + 1) =~= data@.take(i as int) + seq![data@[i as int]]);
            assert(seq![data@[i as int]].skip(1) =~= Seq::<u8>::empty());
            assert(encode_spec(seq![data@[i as int]]) =~= encode_byte(data@[i as int])
                + encode_spec(Seq::<u8>::empty()));
            assert(encode_spec(seq![data@[i as int]]) =~= encode_byte(data@[i as int]));
        }
        if b == CR {
            r.push(ESC);
            r.push(ESC_CR);
        } else if b == LF {
            r.push(ESC);
            r.push(ESC_LF);
        } else {
            r.push(b);
        }
        assert(r@ =~= encode_spec(data@.take(i + 1)));
        i = i + 1;
    }
    proof {
        assert(data@.take(data@.len() as int) =~= data@);
    }
    r
}

/// Undo the escaping of a received line.
pub fn decode(data: &[u8]) -> (r: Vec<u8>)
    ensures
        r@ == decode_spec(data@),
{
    let mut r: Vec<u8> = Vec::new();
    let mut i: usize = 0;
    proof {
        assert(data@.skip(0) =~= data@);
        assert(r@ + decode_spec(data@) =~= decode_spec(data@));
    }
    while i < data.len()
        invariant
            i <= data@.len(),
            decode_spec(data@) == r@ + decode_spec(data@.skip(i as int)),
        decreases data@.len() - i,
    {
        let b = data[i];
        proof {
            assert(data@.skip(i as int)[0] == data@[i as int]);
            if i + 1 < data@.len() {
                assert(data@.skip(i as int)[1] == data@[i + 1]);
                assert(data@.skip(i as int).skip(2) =~= data@.skip(i + 2));
            }
            assert(data@.skip(i as int).skip(1) =~= data@.skip(i + 1));
        }
        if b == ESC {
            if i + 1 < data.len() {
                let c = data[i + 1];
                if c == ESC_CR {
                    r.push(CR);
                } else if c == ESC_LF {
                    r.push(LF);
                } else {
                    r.push(ESC);
                    r.push(c);
                }
                assert(decode_spec(data@) =~= r@ + decode_spec(data@.skip(i + 2)));
                i = i + 2;
            } else {
                r.push(ESC);
                assert(decode_spec(data@.skip(i as int)) =~= seq![ESC]);
                assert(decode_spec(data@) =~= r@ + decode_spec(data@.skip(i + 1)));
                i = i + 1;
            }
        } else {
            r.push(b);
            assert(decode_spec(data@) =~= r@ + decode_spec(data@.skip(i + 1)));
            i = i + 1;
        }
    }
    proof {
        assert(data@.skip(data@.len() as int) =~= Seq::<u8>::empty());
        assert(r@ + decode_spec(Seq::<u8>::empty()) =~= r@);
    }
    r
}

/// The frame carrying a message: its wire image followed by one unescaped
/// line feed.
pub open spec fn frame_spec(m: Seq<u8>) -> Seq<u8> {
    encode_spec(m) + seq![LF]
}

/// `i` is the position of the first line feed in `s`.
pub open spec fn is_first_lf(s: Seq<u8>, i: int) -> bool {
    &&& 0 <= i < s.len()
    &&& s[i] == LF
    &&& forall|j: int| 0 <= j < i ==> s[j] != LF
}

/// One framed message was taken off the front of the incoming byte stream.
/// `pend0` are the bytes that were already buffered, `extra` the bytes the
/// carrier delivered during the call; together they form the raw stream,
/// whose first line decodes to the message `m`, and whose remainder past
/// the delimiter is the new buffer `pend1`.
pub open spec fn line_taken(pend0: Seq<u8>, extra: Seq<u8>, m: Seq<u8>, pend1: Seq<u8>) -> bool {
    exists|i: int|
        {
            &&& #[trigger] is_first_lf(pend0 + extra, i)
            &&& m == decode_spec((pend0 + extra).take(i))
            &&& pend1 == (pend0 + extra).skip(i + 1)
        }
}

/// The position of the first line feed is unique.
pub proof fn lemma_first_lf_unique(s: Seq<u8>, i: int, j: int)
    requires
        is_first_lf(s, i),
        is_first_lf(s, j),
    ensures
        i == j,
{
}

/// Position of the first line feed in the buffer, if there is one.
pub fn find_newline(data: &Vec<u8>) -> (r: Option<usize>)
    ensures
        match r {
            Some(i) => is_first_lf(data@, i as int),
            None => forall|j: int| 0 <= j < data@.len() ==> data@[j] != LF,
        },
{
    let mut i: usize = 0;
    while i < data.len()
        invariant
            i <= data@.len(),
            forall|j: int| 0 <= j < i ==> data@[j] != LF,
        decreases data@.len() - i,
    {
        if data[i] == LF {
            return Some(i);
        }
        i = i + 1;
    }
    None
}

/// Build the frame for a message: escape it and add the delimiter.
pub fn build_frame(data: &[u8]) -> (r: Vec<u8>)
    ensures
        r@ == frame_spec(data@),
{
    let mut r = encode(data);
    r.push(LF);
    r
}

/// Take the first line out of the buffer and decode it.  The delimiter is
/// dropped; the bytes past it stay buffered for later calls.
pub fn take_line(buf: &mut Vec<u8>, i: usize) -> (m: Vec<u8>)
    requires
        is_first_lf(old(buf)@, i as int),
    ensures
        m@ == decode_spec(old(buf)@.take(i as int)),
        final(buf)@ == old(buf)@.skip(i as int + 1),
{
    let n = buf.len();
    assert(i < n);
    let tail = buf.split_off(i + 1);
    buf.truncate(i);
    let m = decode(buf.as_slice());
    proof {
        assert(old(buf)@.subrange(0, i + 1).subrange(0, i as int) =~= old(buf)@.take(i as int));
        assert(old(buf)@.subrange(i + 1, old(buf)@.len() as int) =~= old(buf)@.skip(i + 1));
    }
    *buf = tail;
    m
}

/// Taking a line from a stream that starts with the frame of `m` finds the
/// delimiter exactly at the end of the frame: the line is the wire image
/// of `m` and the remainder is everything past the frame.
pub proof fn lemma_frame_extraction(m: Seq<u8>, rest: Seq<u8>)
    ensures
        is_first_lf(frame_spec(m) + rest, encode_spec(m).len() as int),
        (frame_spec(m) + rest).take(encode_spec(m).len() as int) == encode_spec(m),
        (frame_spec(m) + rest).skip(encode_spec(m).len() as int + 1) == rest,
{
    lemma_encode_no_lf(m);
    let raw = frame_spec(m) + rest;
    let n = encode_spec(m).len() as int;
    assert(raw[n] == LF);
    assert forall|j: int| 0 <= j < n implies raw[j] != LF by {
        assert(raw[j] == encode_spec(m)[j]);
    }
    assert(raw.take(n) =~= encode_spec(m));
    assert(raw.skip(n + 1) =~= rest);
}

/// Law (message round trip): one send puts `frame_spec(m)` on the wire,
/// and taking one line off a stream that begins with that frame yields
/// exactly `m`, leaving any later bytes untouched.
pub proof fn lemma_message_round_trip(m: Seq<u8>, rest: Seq<u8>)
    requires
        round_trip_safe(m),
    ensures
        line_taken(Seq::empty(), frame_spec(m) + rest, m, rest),
{
    lemma_frame_extraction(m, rest);
    lemma_decode_encode(m);
    let raw = Seq::<u8>::empty() + (frame_spec(m) + rest);
    assert(raw =~= frame_spec(m) + rest);
    let n = encode_spec(m).len() as int;
    assert(is_first_lf(raw, n));
    assert(m == decode_spec(raw.take(n)));
    assert(rest == raw.skip(n + 1));
}

/// Law (determinism): one raw stream yields one message.  Whatever was
/// buffered and whatever arrived, taking a line off the stream determines
/// both the message and the bytes that stay buffered.
pub proof fn lemma_line_taken_deterministic(
    pend0: Seq<u8>,
    extra: Seq<u8>,
    m1: Seq<u8>,
    pend1: Seq<u8>,
    m2: Seq<u8>,
    pend2: Seq<u8>,
)
    requires
        line_taken(pend0, extra, m1, pend1),
        line_taken(pend0, extra, m2, pend2),
    ensures
        m1 == m2,
        pend1 == pend2,
{
    let raw = pend0 + extra;
    let i1 = choose|i: int|
        is_first_lf(raw, i) && m1 == decode_spec(raw.take(i)) && pend1 == raw.skip(i + 1);
    let i2 = choose|i: int|
        is_first_lf(raw, i) && m2 == decode_spec(raw.take(i)) && pend2 == raw.skip(i + 1);
    lemma_first_lf_unique(raw, i1, i2);
}

/// The wire image of a sequence of messages: their frames, back to back.
pub open spec fn frames_concat(ms: Seq<Seq<u8>>) -> Seq<u8>
    decreases ms.len(),
{
    if ms.len() == 0 {
        Seq::empty()
    } else {
        frame_spec(ms[0]) + frames_concat(ms.skip(1))
    }
}

/// The bytes of a record of carrier chunks, back to back.
pub open spec fn chunks_concat(cs: Seq<Seq<u8>>) -> Seq<u8>
    decreases cs.len(),
{
    if cs.len() == 0 {
        Seq::empty()
    } else {
        cs[0] + chunks_concat(cs.skip(1))
    }
}

/// What one receive takes off the front of a raw stream: the decoded first
/// line and the remainder, if a delimiter is present at all.
pub open spec fn take_line_spec(raw: Seq<u8>) -> Option<(Seq<u8>, Seq<u8>)> {
    if exists|i: int| is_first_lf(raw, i) {
        let i = choose|i: int| is_first_lf(raw, i);
        Some((decode_spec(raw.take(i)), raw.skip(i + 1)))
    } else {
        None
    }
}

/// The messages obtained by `n` successive receives from a raw stream.
pub open spec fn drain_spec(raw: Seq<u8>, n: nat) -> Option<Seq<Seq<u8>>>
    decreases n,
{
    if n == 0 {
        Some(Seq::empty())
    } else {
        match take_line_spec(raw) {
            Some((m, rest)) => match drain_spec(rest, (n - 1) as nat) {
                Some(ms) => Some(seq![m] + ms),
                None => None,
            },
            None => None,
        }
    }
}

/// Law (ordering): reading the wire image of a sequence of safe messages
/// back line by line yields exactly those messages, in their original
/// order, with the frame boundaries preserved.
pub proof fn lemma_messages_in_order(ms: Seq<Seq<u8>>)
    requires
        forall|k: int| 0 <= k < ms.len() ==> round_trip_safe(#[trigger] ms[k]),
    ensures
        drain_spec(frames_concat(ms), ms.len()) == Some(ms),
    decreases ms.len(),
{
    if ms.len() == 0 {
        assert(drain_spec(frames_concat(ms), 0) == Some(Seq::<Seq<u8>>::empty()));
        assert(Seq::<Seq<u8>>::empty() =~= ms);
    } else {
        let raw = frames_concat(ms);
        let rest = frames_concat(ms.skip(1));
        lemma_frame_extraction(ms[0], rest);
        lemma_decode_encode(ms[0]);
        let n = encode_spec(ms[0]).len() as int;
        assert(is_first_lf(raw, n));
        let i = choose|i: int| is_first_lf(raw, i);
        lemma_first_lf_unique(raw, i, n);
        assert(take_line_spec(raw) == Some((ms[0], rest)));
        assert(forall|k: int| 0 <= k < ms.skip(1).len() ==> round_trip_safe(
            #[trigger] ms.skip(1)[k],
        ));
        lemma_messages_in_order(ms.skip(1));
        assert(drain_spec(rest, ms.skip(1).len()) == Some(ms.skip(1)));
        assert(seq![ms[0]] + ms.skip(1) =~= ms);
    }
}

/// Law (wire image of a send history): when each chunk a sender handed to
/// the carrier is the frame of the corresponding safe message, the
/// history's bytes are those frames back to back, and reading them line
/// by line yields exactly the messages, in the order they were sent.
pub proof fn lemma_sent_history_in_order(cs: Seq<Seq<u8>>, ms: Seq<Seq<u8>>)
    requires
        cs.len() == ms.len(),
        forall|k: int| 0 <= k < cs.len() ==> cs[k] == frame_spec(#[trigger] ms[k]),
        forall|k: int| 0 <= k < ms.len() ==> round_trip_safe(#[trigger] ms[k]),
    ensures
        chunks_concat(cs) == frames_concat(ms),
        drain_spec(chunks_concat(cs), ms.len()) == Some(ms),
    decreases cs.len(),
{
    if cs.len() == 0 {
        assert(chunks_concat(cs) =~= frames_concat(ms));
    } else {
        assert(cs[0] == frame_spec(ms[0]));
        assert forall|k: int| 0 <= k < cs.skip(1).len() implies cs.skip(1)[k] == frame_spec(
            #[trigger] ms.skip(1)[k],
        ) by {
            assert(cs.skip(1)[k] == cs[1 + k]);
            assert(ms.skip(1)[k] == ms[1 + k]);
        }
        assert forall|k: int| 0 <= k < ms.skip(1).len() implies round_trip_safe(
            #[trigger] ms.skip(1)[k],
        ) by {
            assert(ms.skip(1)[k] == ms[1 + k]);
        }
        lemma_sent_history_in_order(cs.skip(1), ms.skip(1));
        assert(chunks_concat(cs) == frames_concat(ms));
    }
    lemma_messages_in_order(ms);
}

} // verus!

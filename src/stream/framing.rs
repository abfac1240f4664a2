//! The naive framing format: a payload, with terminator and escape bytes
//! escaped when an escape byte is configured, followed by one terminator.

use vstd::prelude::*;

verus! {

/// The encoding of one payload byte.
pub open spec fn enc_byte(b: u8, term: u8, esc: Option<u8>) -> Seq<u8> {
    match esc {
        Some(e) => if b == e || b == term { seq![e, b] } else { seq![b] },
        None => seq![b],
    }
}

/// The encoding of a payload, without the trailing terminator.
pub open spec fn enc(s: Seq<u8>, term: u8, esc: Option<u8>) -> Seq<u8>
    decreases s.len(),
{
    if s.len() == 0 {
        Seq::empty()
    } else {
        enc(s.drop_last(), term, esc) + enc_byte(s.last(), term, esc)
    }
}

/// The full frame of a payload.
pub open spec fn encode(s: Seq<u8>, term: u8, esc: Option<u8>) -> Seq<u8> {
    enc(s, term, esc).push(term)
}

/// Where a decoder stands.
#[derive(Clone, Copy, Debug, PartialEq, Eq, Structural)]
pub enum Phase {
    Reading,
    Escaped,
    Done,
}

/// One decoding step on byte `b`: the next phase and the payload byte, if
/// any. After the terminator, nothing is consumed.
pub open spec fn dec_step(p: Phase, b: u8, term: u8, esc: Option<u8>) -> (Phase, Seq<u8>) {
    match p {
        Phase::Reading => if b == term {
            (Phase::Done, Seq::empty())
        } else if esc == Some(b) {
            (Phase::Escaped, Seq::empty())
        } else {
            (Phase::Reading, seq![b])
        },
        Phase::Escaped => (Phase::Reading, seq![b]),
        Phase::Done => (Phase::Done, Seq::empty()),
    }
}

/// Decoding `s` from phase `p`: the phase reached and the payload produced.
pub open spec fn dec_run(s: Seq<u8>, p: Phase, term: u8, esc: Option<u8>) -> (Phase, Seq<u8>)
    decreases s.len(),
{
    if s.len() == 0 {
        (p, Seq::empty())
    } else {
        let prev = dec_run(s.drop_last(), p, term, esc);
        let step = dec_step(prev.0, s.last(), term, esc);
        (step.0, prev.1 + step.1)
    }
}

/// Decoding a concatenation decodes the second part from where the first
/// one left off.
pub proof fn lemma_dec_run_concat(x: Seq<u8>, y: Seq<u8>, p: Phase, term: u8, esc: Option<u8>)
    ensures
        dec_run(x + y, p, term, esc) == (
            dec_run(y, dec_run(x, p, term, esc).0, term, esc).0,
            dec_run(x, p, term, esc).1 + dec_run(y, dec_run(x, p, term, esc).0, term, esc).1,
        ),
    decreases y.len(),
{
    if y.len() == 0 {
        assert(x + y =~= x);
        assert(dec_run(x, p, term, esc).1 + Seq::<u8>::empty() =~= dec_run(x, p, term, esc).1);
    } else {
        lemma_dec_run_concat(x, y.drop_last(), p, term, esc);
        assert((x + y).drop_last() =~= x + y.drop_last());
        assert((x + y).last() == y.last());
        let a = dec_run(x, p, term, esc);
        let b = dec_run(y.drop_last(), a.0, term, esc);
        let st = dec_step(b.0, y.last(), term, esc);
        assert(a.1 + b.1 + st.1 =~= a.1 + (b.1 + st.1));
    }
}

proof fn lemma_dec_one(b: u8, p: Phase, term: u8, esc: Option<u8>)
    ensures
        dec_run(seq![b], p, term, esc) == dec_step(p, b, term, esc),
{
    assert(seq![b].drop_last() =~= Seq::<u8>::empty());
    assert(seq![b].last() == b);
    assert(dec_run(Seq::<u8>::empty(), p, term, esc) == (p, Seq::<u8>::empty()));
    assert(Seq::<u8>::empty() + dec_step(p, b, term, esc).1 =~= dec_step(p, b, term, esc).1);
}

proof fn lemma_dec_two(a: u8, b: u8, p: Phase, term: u8, esc: Option<u8>)
    ensures
        dec_run(seq![a, b], p, term, esc) == (
            dec_step(dec_step(p, a, term, esc).0, b, term, esc).0,
            dec_step(p, a, term, esc).1 + dec_step(dec_step(p, a, term, esc).0, b, term, esc).1,
        ),
{
    assert(seq![a, b] =~= seq![a] + seq![b]);
    lemma_dec_run_concat(seq![a], seq![b], p, term, esc);
    lemma_dec_one(a, p, term, esc);
    lemma_dec_one(b, dec_step(p, a, term, esc).0, term, esc);
}

/// After the terminator, decoding consumes nothing more.
pub proof fn lemma_dec_run_done(s: Seq<u8>, term: u8, esc: Option<u8>)
    ensures
        dec_run(s, Phase::Done, term, esc) == (Phase::Done, Seq::<u8>::empty()),
    decreases s.len(),
{
    if s.len() > 0 {
        lemma_dec_run_done(s.drop_last(), term, esc);
        assert(Seq::<u8>::empty() + Seq::<u8>::empty() =~= Seq::<u8>::empty());
    }
}

/// Decoding nothing stays in the phase it started from.
pub proof fn lemma_dec_run_empty(p: Phase, term: u8, esc: Option<u8>)
    ensures
        dec_run(Seq::<u8>::empty(), p, term, esc) == (p, Seq::<u8>::empty()),
{
}

/// Encoding a payload extended by one byte extends its encoding.
pub proof fn lemma_enc_push(s: Seq<u8>, b: u8, term: u8, esc: Option<u8>)
    ensures
        enc(s.push(b), term, esc) == enc(s, term, esc) + enc_byte(b, term, esc),
{
    assert(s.push(b).drop_last() =~= s);
}

/// Encoding a concatenation concatenates the encodings.
pub proof fn lemma_enc_concat(a: Seq<u8>, b: Seq<u8>, term: u8, esc: Option<u8>)
    ensures
        enc(a + b, term, esc) == enc(a, term, esc) + enc(b, term, esc),
    decreases b.len(),
{
    if b.len() == 0 {
        assert(a + b =~= a);
        assert(enc(b, term, esc) =~= Seq::<u8>::empty());
        assert(enc(a, term, esc) + Seq::<u8>::empty() =~= enc(a, term, esc));
    } else {
        lemma_enc_concat(a, b.drop_last(), term, esc);
        assert((a + b).drop_last() =~= a + b.drop_last());
        assert((a + b).last() == b.last());
        assert(enc(a, term, esc) + enc(b.drop_last(), term, esc) + enc_byte(b.last(), term, esc) =~= enc(a, term, esc)
            + (enc(b.drop_last(), term, esc) + enc_byte(b.last(), term, esc)));
    }
}

/// The encoding of a non-empty payload starts with that of its first byte.
pub proof fn lemma_enc_front(s: Seq<u8>, term: u8, esc: Option<u8>)
    requires
        s.len() > 0,
    ensures
        enc(s, term, esc) == enc_byte(s[0], term, esc) + enc(s.drop_first(), term, esc),
{
    assert(s =~= seq![s[0]] + s.drop_first());
    lemma_enc_concat(seq![s[0]], s.drop_first(), term, esc);
    assert(seq![s[0]].drop_last() =~= Seq::<u8>::empty());
    assert(enc(Seq::<u8>::empty(), term, esc) =~= Seq::<u8>::empty());
    assert(Seq::<u8>::empty() + enc_byte(s[0], term, esc) =~= enc_byte(s[0], term, esc));
}

/// Decoding the encoding of a payload from the reading phase gives the
/// payload back and stays in the reading phase.
pub proof fn lemma_dec_enc(s: Seq<u8>, term: u8, esc: Option<u8>)
    requires
        esc != Some(term),
        esc is None ==> !s.contains(term),
    ensures
        dec_run(enc(s, term, esc), Phase::Reading, term, esc) == (Phase::Reading, s),
    decreases s.len(),
{
    if s.len() == 0 {
        assert(enc(s, term, esc) =~= Seq::<u8>::empty());
        assert(s =~= Seq::<u8>::empty());
    } else {
        let init = s.drop_last();
        let b = s.last();
        assert(s == init.push(b));
        if esc is None {
            assert forall|i: int| 0 <= i < init.len() implies init[i] != term by {
                assert(init[i] == s[i]);
            }
            assert(!s.contains(term) ==> b != term) by {
                if b == term {
                    assert(s[s.len() - 1] == term);
                }
            }
        }
        lemma_dec_enc(init, term, esc);
        lemma_enc_push(init, b, term, esc);
        let eb = enc_byte(b, term, esc);
        lemma_dec_run_concat(enc(init, term, esc), eb, Phase::Reading, term, esc);
        match esc {
            Some(e) => {
                if b == e || b == term {
                    lemma_dec_two(e, b, Phase::Reading, term, esc);
                    assert(Seq::<u8>::empty() + seq![b] =~= seq![b]);
                } else {
                    lemma_dec_one(b, Phase::Reading, term, esc);
                }
            },
            None => {
                lemma_dec_one(b, Phase::Reading, term, esc);
            },
        }
        assert(init + seq![b] =~= s);
    }
}

/// Naive framing round trip: decoding the frame of a payload ends in the
/// done phase with the payload, having consumed the whole frame. Without
/// an escape byte the payload must not hold the terminator, and the escape
/// byte must differ from the terminator.
pub proof fn lemma_round_trip(s: Seq<u8>, term: u8, esc: Option<u8>)
    requires
        esc != Some(term),
        esc is None ==> !s.contains(term),
    ensures
        dec_run(encode(s, term, esc), Phase::Reading, term, esc) == (Phase::Done, s),
        forall|k: int|
            0 <= k < encode(s, term, esc).len() ==> dec_run(
                #[trigger] encode(s, term, esc).take(k),
                Phase::Reading,
                term,
                esc,
            ).0 != Phase::Done,
{
    lemma_dec_enc(s, term, esc);
    let e = enc(s, term, esc);
    assert(encode(s, term, esc).drop_last() =~= e);
    assert(s + Seq::<u8>::empty() =~= s);
    assert forall|k: int| 0 <= k < encode(s, term, esc).len() implies dec_run(
        #[trigger] encode(s, term, esc).take(k),
        Phase::Reading,
        term,
        esc,
    ).0 != Phase::Done by {
        lemma_no_done_prefix(s, term, esc, k);
        assert(encode(s, term, esc).take(k) =~= e.take(k));
    }
}

/// No proper prefix of an encoded payload reaches the done phase.
proof fn lemma_no_done_prefix(s: Seq<u8>, term: u8, esc: Option<u8>, k: int)
    requires
        esc != Some(term),
        esc is None ==> !s.contains(term),
        0 <= k <= enc(s, term, esc).len(),
    ensures
        dec_run(enc(s, term, esc).take(k), Phase::Reading, term, esc).0 != Phase::Done,
    decreases s.len(),
{
    if s.len() == 0 {
        assert(enc(s, term, esc).take(k) =~= Seq::<u8>::empty());
    } else {
        let init = s.drop_last();
        let b = s.last();
        assert(s == init.push(b));
        if esc is None {
            assert forall|i: int| 0 <= i < init.len() implies init[i] != term by {
                assert(init[i] == s[i]);
            }
            if b == term {
                assert(s[s.len() - 1] == term);
            }
        }
        lemma_enc_push(init, b, term, esc);
        let ei = enc(init, term, esc);
        let eb = enc_byte(b, term, esc);
        if k <= ei.len() {
            lemma_no_done_prefix(init, term, esc, k);
            assert(enc(s, term, esc).take(k) =~= ei.take(k));
        } else {
            lemma_dec_enc(init, term, esc);
            let j = k - ei.len();
            assert(enc(s, term, esc).take(k) =~= ei + eb.take(j));
            lemma_dec_run_concat(ei, eb.take(j), Phase::Reading, term, esc);
            match esc {
                Some(e) => {
                    if b == e || b == term {
                        if j == 1 {
                            assert(eb.take(j) =~= seq![e]);
                            lemma_dec_one(e, Phase::Reading, term, esc);
                        } else {
                            assert(eb.take(j) =~= seq![e, b]);
                            lemma_dec_two(e, b, Phase::Reading, term, esc);
                        }
                    } else {
                        assert(eb.take(j) =~= seq![b]);
                        lemma_dec_one(b, Phase::Reading, term, esc);
                    }
                },
                None => {
                    assert(eb.take(j) =~= seq![b]);
                    lemma_dec_one(b, Phase::Reading, term, esc);
                },
            }
        }
    }
}

} // verus!

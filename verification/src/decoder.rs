//! Boundary-safe decoder.
//!
//! Raw chunks may cut a multi-byte character sequence anywhere.  The
//! [`Utf8Fixer`] buffers incoming bytes and, on each poll, hands out the
//! longest prefix that is a whole number of complete units, holding back an
//! incomplete trailing sequence until the rest of it arrives.  Orphaned
//! continuation bytes at the front of the buffer (a stream that starts in the
//! middle of a character) are discarded silently.

use vstd::prelude::*;

use crate::bytes::{vec_skip, vec_take};

verus! {

/// Number of leading one bits of `b`.
pub open spec fn leading_ones_of(b: u8) -> int {
    if b & 0x80 == 0 {
        0
    } else if b & 0x40 == 0 {
        1
    } else if b & 0x20 == 0 {
        2
    } else if b & 0x10 == 0 {
        3
    } else if b & 0x08 == 0 {
        4
    } else if b & 0x04 == 0 {
        5
    } else if b & 0x02 == 0 {
        6
    } else if b & 0x01 == 0 {
        7
    } else {
        8
    }
}

/// A single-byte unit: top bit clear.
pub open spec fn is_single_byte(b: u8) -> bool {
    b & 0x80 == 0
}

/// A continuation byte: top two bits are `10`.
pub open spec fn is_cont_byte(b: u8) -> bool {
    b & 0xC0 == 0x80
}

/// A multi-byte leader: top two bits are `11`.
pub open spec fn is_leader_byte(b: u8) -> bool {
    b & 0xC0 == 0xC0
}

/// Every byte falls in exactly one class, and the class determines the range
/// of its leading-ones count.
pub proof fn lemma_byte_class(b: u8)
    ensures
        is_single_byte(b) || is_cont_byte(b) || is_leader_byte(b),
        is_single_byte(b) ==> !is_cont_byte(b) && !is_leader_byte(b),
        is_cont_byte(b) ==> !is_single_byte(b) && !is_leader_byte(b),
        is_leader_byte(b) ==> !is_single_byte(b) && !is_cont_byte(b),
        is_single_byte(b) ==> leading_ones_of(b) == 0,
        is_cont_byte(b) ==> leading_ones_of(b) == 1,
        is_leader_byte(b) ==> 2 <= leading_ones_of(b) <= 8,
{
    assert((b & 0xC0 == 0x80) == (b & 0x80 != 0 && b & 0x40 == 0)) by (bit_vector);
    assert((b & 0xC0 == 0xC0) == (b & 0x80 != 0 && b & 0x40 != 0)) by (bit_vector);
}

/// Length of the longest prefix of `s` that is a whole number of complete
/// units: single bytes, and leader bytes whose full claimed run is buffered.
/// The scan stops at a leader whose run is not yet fully present, and at a
/// bare continuation byte.
pub open spec fn complete_prefix_len(s: Seq<u8>) -> int
    decreases s.len(),
{
    if s.len() == 0 {
        0
    } else if is_single_byte(s[0]) {
        1 + complete_prefix_len(s.skip(1))
    } else if is_leader_byte(s[0]) && 2 <= leading_ones_of(s[0]) && leading_ones_of(s[0])
        <= s.len() {
        leading_ones_of(s[0]) + complete_prefix_len(s.skip(leading_ones_of(s[0])))
    } else {
        0
    }
}

/// `s` with its maximal run of leading continuation bytes removed.
pub open spec fn drop_leading_conts(s: Seq<u8>) -> Seq<u8>
    decreases s.len(),
{
    if s.len() > 0 && is_cont_byte(s[0]) {
        drop_leading_conts(s.skip(1))
    } else {
        s
    }
}

/// What one poll returns when the pending buffer holds `pending`.
pub open spec fn decoder_emit(pending: Seq<u8>) -> Seq<u8> {
    let c = drop_leading_conts(pending);
    c.take(complete_prefix_len(c))
}

/// What one poll leaves pending.
pub open spec fn decoder_rest(pending: Seq<u8>) -> Seq<u8> {
    let c = drop_leading_conts(pending);
    c.skip(complete_prefix_len(c))
}

pub proof fn lemma_complete_prefix_len_bounds(s: Seq<u8>)
    ensures
        0 <= complete_prefix_len(s) <= s.len(),
    decreases s.len(),
{
    if s.len() == 0 {
    } else if is_single_byte(s[0]) {
        lemma_complete_prefix_len_bounds(s.skip(1));
    } else if is_leader_byte(s[0]) && 2 <= leading_ones_of(s[0]) && leading_ones_of(s[0])
        <= s.len() {
        lemma_complete_prefix_len_bounds(s.skip(leading_ones_of(s[0])));
    }
}

/// A stream that is a whole number of complete units.
pub open spec fn well_formed_stream(s: Seq<u8>) -> bool {
    complete_prefix_len(s) == s.len()
}

/// Completing data in front does not change how the data behind it is read.
pub proof fn lemma_complete_prefix_len_append(a: Seq<u8>, b: Seq<u8>)
    requires
        well_formed_stream(a),
    ensures
        complete_prefix_len(a + b) == a.len() + complete_prefix_len(b),
    decreases a.len(),
{
    if a.len() == 0 {
        assert(a + b =~= b);
    } else if is_single_byte(a[0]) {
        assert(complete_prefix_len(a.skip(1)) == a.len() - 1);
        lemma_complete_prefix_len_append(a.skip(1), b);
        assert((a + b).skip(1) =~= a.skip(1) + b);
        assert((a + b)[0] == a[0]);
    } else if is_leader_byte(a[0]) && 2 <= leading_ones_of(a[0]) && leading_ones_of(a[0])
        <= a.len() {
        let run = leading_ones_of(a[0]);
        lemma_complete_prefix_len_bounds(a.skip(run));
        assert(complete_prefix_len(a.skip(run)) == a.len() - run);
        lemma_complete_prefix_len_append(a.skip(run), b);
        assert((a + b).skip(run) =~= a.skip(run) + b);
        assert((a + b)[0] == a[0]);
    } else {
        assert(complete_prefix_len(a) == 0);
    }
}

/// The complete prefix is itself a whole number of complete units.
pub proof fn lemma_complete_prefix_is_well_formed(s: Seq<u8>)
    ensures
        well_formed_stream(s.take(complete_prefix_len(s))),
    decreases s.len(),
{
    let k = complete_prefix_len(s);
    lemma_complete_prefix_len_bounds(s);
    if s.len() == 0 || k == 0 {
        assert(s.take(k) =~= Seq::<u8>::empty());
    } else if is_single_byte(s[0]) {
        let k2 = complete_prefix_len(s.skip(1));
        lemma_complete_prefix_is_well_formed(s.skip(1));
        lemma_complete_prefix_len_bounds(s.skip(1));
        assert(s.take(k)[0] == s[0]);
        assert(s.take(k).skip(1) =~= s.skip(1).take(k2));
    } else {
        let run = leading_ones_of(s[0]);
        let k2 = complete_prefix_len(s.skip(run));
        lemma_complete_prefix_is_well_formed(s.skip(run));
        lemma_complete_prefix_len_bounds(s.skip(run));
        assert(s.take(k)[0] == s[0]);
        assert(s.take(k).skip(run) =~= s.skip(run).take(k2));
    }
}

/// Nothing behind the complete prefix can be read without more data.
pub proof fn lemma_rest_has_no_complete_unit(s: Seq<u8>)
    ensures
        complete_prefix_len(s.skip(complete_prefix_len(s))) == 0,
    decreases s.len(),
{
    let k = complete_prefix_len(s);
    lemma_complete_prefix_len_bounds(s);
    if s.len() == 0 || k == 0 {
        assert(s.skip(0) =~= s);
    } else if is_single_byte(s[0]) {
        lemma_rest_has_no_complete_unit(s.skip(1));
        let k2 = complete_prefix_len(s.skip(1));
        lemma_complete_prefix_len_bounds(s.skip(1));
        assert(s.skip(k) =~= s.skip(1).skip(k2));
    } else {
        let run = leading_ones_of(s[0]);
        lemma_rest_has_no_complete_unit(s.skip(run));
        let k2 = complete_prefix_len(s.skip(run));
        lemma_complete_prefix_len_bounds(s.skip(run));
        assert(s.skip(k) =~= s.skip(run).skip(k2));
    }
}

/// Dropping leading continuation bytes is idempotent.
pub proof fn lemma_drop_conts_fixed(s: Seq<u8>)
    ensures
        drop_leading_conts(s).len() > 0 ==> !is_cont_byte(drop_leading_conts(s)[0]),
        drop_leading_conts(drop_leading_conts(s)) == drop_leading_conts(s),
    decreases s.len(),
{
    if s.len() > 0 && is_cont_byte(s[0]) {
        lemma_drop_conts_fixed(s.skip(1));
    }
}

/// The decoder never emits a partial or malformed multi-byte sequence: every
/// poll result is a whole number of complete units, whatever the split
/// points were.
pub proof fn lemma_poll_emits_whole_units(pending: Seq<u8>)
    ensures
        well_formed_stream(decoder_emit(pending)),
{
    let c = drop_leading_conts(pending);
    lemma_complete_prefix_is_well_formed(c);
}

/// Once a poll has come back empty, polling again returns nothing and leaves
/// the pending buffer as it is, until more data is pushed.
pub proof fn lemma_drained_stays_drained(pending: Seq<u8>)
    requires
        decoder_emit(pending).len() == 0,
    ensures
        decoder_rest(pending) == drop_leading_conts(pending),
        decoder_emit(decoder_rest(pending)) == Seq::<u8>::empty(),
        decoder_rest(decoder_rest(pending)) == decoder_rest(pending),
{
    let c = drop_leading_conts(pending);
    lemma_complete_prefix_len_bounds(c);
    assert(complete_prefix_len(c) == 0);
    assert(c.skip(0) =~= c);
    lemma_drop_conts_fixed(pending);
    assert(drop_leading_conts(c) == c);
    assert(c.take(0) =~= Seq::<u8>::empty());
}

/// The concatenation of a sequence of chunks.
pub open spec fn concat_chunks(cs: Seq<Seq<u8>>) -> Seq<u8>
    decreases cs.len(),
{
    if cs.len() == 0 {
        Seq::empty()
    } else {
        concat_chunks(cs.drop_last()) + cs.last()
    }
}

/// The pending buffer after pushing the chunks of `cs` in order, with one
/// poll after each push.
pub open spec fn run_pending(cs: Seq<Seq<u8>>) -> Seq<u8>
    decreases cs.len(),
{
    if cs.len() == 0 {
        Seq::empty()
    } else {
        decoder_rest(run_pending(cs.drop_last()) + cs.last())
    }
}

/// The concatenation of everything those polls returned.
pub open spec fn run_emitted(cs: Seq<Seq<u8>>) -> Seq<u8>
    decreases cs.len(),
{
    if cs.len() == 0 {
        Seq::empty()
    } else {
        run_emitted(cs.drop_last()) + decoder_emit(run_pending(cs.drop_last()) + cs.last())
    }
}

proof fn lemma_run_invariant(cs: Seq<Seq<u8>>, ext: Seq<u8>)
    requires
        well_formed_stream(concat_chunks(cs) + ext),
    ensures
        run_emitted(cs) + run_pending(cs) == concat_chunks(cs),
        well_formed_stream(run_emitted(cs)),
        well_formed_stream(run_pending(cs) + ext),
        complete_prefix_len(run_pending(cs)) == 0,
    decreases cs.len(),
{
    if cs.len() == 0 {
        assert(run_emitted(cs) + run_pending(cs) =~= concat_chunks(cs));
        assert(run_emitted(cs) =~= Seq::<u8>::empty());
        assert(run_pending(cs) + ext =~= concat_chunks(cs) + ext);
    } else {
        let cs0 = cs.drop_last();
        let c = cs.last();
        assert((concat_chunks(cs0) + c) + ext =~= concat_chunks(cs0) + (c + ext));
        lemma_run_invariant(cs0, c + ext);
        let p = run_pending(cs0);
        let cur = p + c;
        assert(p + (c + ext) =~= cur + ext);
        // the front of `cur` is the front of a well-formed stream, so it is
        // not a continuation byte and nothing is discarded
        if cur.len() > 0 {
            assert((cur + ext)[0] == cur[0]);
            assert(complete_prefix_len(cur + ext) == (cur + ext).len() > 0);
            lemma_byte_class(cur[0]);
            assert(!is_cont_byte(cur[0]));
        }
        assert(drop_leading_conts(cur) == cur);
        let k = complete_prefix_len(cur);
        lemma_complete_prefix_len_bounds(cur);
        assert(decoder_emit(cur) == cur.take(k));
        assert(decoder_rest(cur) == cur.skip(k));
        assert(cur.take(k) + cur.skip(k) =~= cur);
        // conservation: emitted plus pending is everything pushed
        assert(run_emitted(cs) + run_pending(cs) =~= (run_emitted(cs0) + p) + c);
        // the emitted stream stays well formed
        lemma_complete_prefix_is_well_formed(cur);
        lemma_complete_prefix_len_append(run_emitted(cs0), cur.take(k));
        assert(run_emitted(cs) == run_emitted(cs0) + cur.take(k));
        // the pending tail still heads a well-formed stream
        lemma_complete_prefix_len_append(cur.take(k), cur.skip(k) + ext);
        assert(cur.take(k) + (cur.skip(k) + ext) =~= cur + ext);
        lemma_rest_has_no_complete_unit(cur);
    }
}

/// Round trip: a well-formed stream, split into chunks at arbitrary byte
/// offsets and pushed chunk by chunk with a poll after each push, is handed
/// out exactly, in order, and nothing stays pending at the end.
pub proof fn lemma_decoder_round_trip(cs: Seq<Seq<u8>>)
    requires
        well_formed_stream(concat_chunks(cs)),
    ensures
        run_emitted(cs) == concat_chunks(cs),
        run_pending(cs) == Seq::<u8>::empty(),
{
    assert(concat_chunks(cs) + Seq::<u8>::empty() =~= concat_chunks(cs));
    lemma_run_invariant(cs, Seq::empty());
    assert(run_pending(cs).len() == 0);
    assert(run_pending(cs) =~= Seq::<u8>::empty());
    assert(run_emitted(cs) + run_pending(cs) =~= run_emitted(cs));
}

proof fn lemma_drop_conts_at(s: Seq<u8>, j: int)
    requires
        0 <= j <= s.len(),
        forall|i: int| 0 <= i < j ==> is_cont_byte(#[trigger] s[i]),
        j == s.len() || !is_cont_byte(s[j]),
    ensures
        drop_leading_conts(s) == s.skip(j),
    decreases j,
{
    if j == 0 {
        assert(s.skip(0) =~= s);
    } else {
        assert(is_cont_byte(s[0]));
        lemma_drop_conts_at(s.skip(1), j - 1);
        assert(s.skip(1).skip(j - 1) =~= s.skip(j));
    }
}

/// Exact count of the leading one bits of `b`.
fn leading_ones_count(b: u8) -> (r: usize)
    ensures
        r as int == leading_ones_of(b),
{
    if b & 0x80 == 0 {
        0
    } else if b & 0x40 == 0 {
        1
    } else if b & 0x20 == 0 {
        2
    } else if b & 0x10 == 0 {
        3
    } else if b & 0x08 == 0 {
        4
    } else if b & 0x04 == 0 {
        5
    } else if b & 0x02 == 0 {
        6
    } else if b & 0x01 == 0 {
        7
    } else {
        8
    }
}

/// Repairs character sequences split across chunk boundaries: buffers raw
/// bytes and releases only complete, boundary-aligned data.
pub struct Utf8Fixer {
    data: Vec<u8>,
}

impl Utf8Fixer {
    /// The bytes not yet proven to form complete units.
    pub closed spec fn pending(&self) -> Seq<u8> {
        self.data@
    }

    pub fn new() -> (f: Self)
        ensures
            f.pending() == Seq::<u8>::empty(),
    {
        Utf8Fixer { data: Vec::new() }
    }

    /// Appends a raw chunk to the pending buffer.
    pub fn push(&mut self, data: &[u8])
        ensures
            final(self).pending() == old(self).pending() + data@,
    {
        let mut i: usize = 0;
        while i < data.len()
            invariant
                i <= data@.len(),
                self.data@ == old(self).data@ + data@.take(i as int),
            decreases data@.len() - i,
        {
            self.data.push(data[i]);
            proof {
                assert(data@.take(i as int + 1) =~= data@.take(i as int).push(data@[i as int]));
            }
            i += 1;
        }
        proof {
            assert(data@.take(data@.len() as int) =~= data@);
        }
    }

    /// Removes and returns the longest complete, boundary-aligned prefix of
    /// the pending buffer; orphaned leading continuation bytes are discarded.
    pub fn poll(&mut self) -> (r: Vec<u8>)
        ensures
            r@ == decoder_emit(old(self).pending()),
            final(self).pending() == decoder_rest(old(self).pending()),
    {
        let ghost orig: Seq<u8> = self.data@;
        // discard orphaned continuation bytes at the front
        let mut start: usize = 0;
        while start < self.data.len() && self.data[start] & 0xC0 == 0x80
            invariant
                start <= self.data@.len(),
                self.data@ == orig,
                forall|i: int| 0 <= i < start ==> is_cont_byte(#[trigger] orig[i]),
            decreases self.data@.len() - start,
        {
            start += 1;
        }
        proof {
            lemma_drop_conts_at(orig, start as int);
        }
        let pend = vec_skip(&self.data, start);
        // scan forward over complete units
        let mut valid: usize = 0;
        let mut stopped = false;
        proof {
            assert(pend@.skip(0) =~= pend@);
        }
        while !stopped && valid < pend.len()
            invariant
                valid <= pend@.len(),
                complete_prefix_len(pend@) == valid + complete_prefix_len(
                    pend@.skip(valid as int),
                ),
                stopped ==> complete_prefix_len(pend@.skip(valid as int)) == 0,
            decreases pend@.len() - valid + (if stopped { 0int } else { 1int }),
    {
            let b = pend[valid];
            let ghost tail = pend@.skip(valid as int);
            assert(tail[0] == b);
            if b & 0x80 == 0 {
                // single byte, always complete
                proof {
                    assert(tail.skip(1) =~= pend@.skip(valid as int + 1));
                }
                valid += 1;
            } else if b & 0xC0 == 0xC0 {
                // leader of a multi-byte run
                let run = leading_ones_count(b);
                proof {
                    lemma_byte_class(b);
                }
                if run <= pend.len() - valid {
                    proof {
                        assert(tail.skip(run as int) =~= pend@.skip(valid as int + run as int));
                    }
                    valid += run;
                } else {
                    // the run is not fully buffered yet
                    stopped = true;
                }
            } else {
                // continuation byte without a start: the next poll discards it
                proof {
                    lemma_byte_class(b);
                }
                stopped = true;
            }
        }
        assert(complete_prefix_len(pend@) == valid as int);
        let r = vec_take(&pend, valid);
        let rest = vec_skip(&pend, valid);
        self.data = rest;
        r
    }
}

} // verus!

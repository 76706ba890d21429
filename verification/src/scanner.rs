//! Multi-token scanner.
//!
//! Character data arrives in arbitrary pieces; a small fixed set of literal
//! tokens must be recognized even when a token straddles many pushes.  The
//! scanner keeps an in-flight buffer and a safe-emit boundary: the offset up
//! to which no buffered suffix can still grow into a token match.  Each poll
//! consumes either one recognized token or one span of plain text that can no
//! longer be part of any token.

use vstd::prelude::*;

use crate::bytes::{vec_copy, vec_skip, vec_take};

verus! {

/// `tok`'s proper, non-empty prefix of length `l` is exactly the tail of
/// `buf`: the buffered data may still grow into a match of `tok`.
pub open spec fn tail_holds_token_prefix(buf: Seq<u8>, tok: Seq<u8>, l: int) -> bool {
    &&& 1 <= l
    &&& l < tok.len()
    &&& l <= buf.len()
    &&& buf.skip(buf.len() - l) == tok.take(l)
}

/// The longest `l <= bound` such that `tok`'s prefix of length `l` ends
/// `buf`; 0 if there is none.
pub open spec fn token_keep_len(buf: Seq<u8>, tok: Seq<u8>, bound: int) -> int
    decreases bound,
{
    if bound < 1 {
        0
    } else if tail_holds_token_prefix(buf, tok, bound) {
        bound
    } else {
        token_keep_len(buf, tok, bound - 1)
    }
}

/// How many trailing bytes of `buf` must be retained: the length of the
/// longest tail of `buf` that is still a proper prefix of one of `toks`.
pub open spec fn keep_len(buf: Seq<u8>, toks: Seq<Seq<u8>>) -> int
    decreases toks.len(),
{
    if toks.len() == 0 {
        0
    } else {
        let rest = keep_len(buf, toks.drop_last());
        let last = token_keep_len(buf, toks.last(), toks.last().len() - 1);
        if last >= rest {
            last
        } else {
            rest
        }
    }
}

/// `needle` occurs in `hay` starting at offset `j`.
pub open spec fn occurs_at(hay: Seq<u8>, needle: Seq<u8>, j: int) -> bool {
    &&& 0 <= j
    &&& j + needle.len() <= hay.len()
    &&& hay.subrange(j, j + needle.len()) == needle
}

/// Some token of `toks` occurs in `hay` at offset `j`.
pub open spec fn any_token_at(hay: Seq<u8>, toks: Seq<Seq<u8>>, j: int) -> bool {
    exists|i: int| 0 <= i < toks.len() && occurs_at(hay, toks[i], j)
}

/// Ordered by descending length, so that the longest of two tokens sharing a
/// prefix is considered first.
pub open spec fn sorted_by_len_desc(toks: Seq<Seq<u8>>) -> bool {
    forall|i: int, j: int| 0 <= i < j < toks.len() ==> toks[i].len() >= toks[j].len()
}

pub proof fn lemma_token_keep_len(buf: Seq<u8>, tok: Seq<u8>, bound: int)
    ensures
        0 <= token_keep_len(buf, tok, bound),
        token_keep_len(buf, tok, bound) <= bound || token_keep_len(buf, tok, bound) == 0,
        token_keep_len(buf, tok, bound) == 0 || tail_holds_token_prefix(
            buf,
            tok,
            token_keep_len(buf, tok, bound),
        ),
        forall|l: int|
            1 <= l <= bound && tail_holds_token_prefix(buf, tok, l) ==> l <= token_keep_len(
                buf,
                tok,
                bound,
            ),
    decreases bound,
{
    if bound >= 1 {
        lemma_token_keep_len(buf, tok, bound - 1);
    }
}

pub proof fn lemma_keep_len(buf: Seq<u8>, toks: Seq<Seq<u8>>)
    ensures
        0 <= keep_len(buf, toks) <= buf.len(),
        keep_len(buf, toks) == 0 || exists|i: int|
            0 <= i < toks.len() && tail_holds_token_prefix(buf, toks[i], keep_len(buf, toks)),
        forall|i: int, l: int|
            0 <= i < toks.len() && tail_holds_token_prefix(buf, toks[i], l) ==> l <= keep_len(
                buf,
                toks,
            ),
    decreases toks.len(),
{
    if toks.len() > 0 {
        let pre = toks.drop_last();
        lemma_keep_len(buf, pre);
        lemma_token_keep_len(buf, toks.last(), toks.last().len() - 1);
        let k = keep_len(buf, toks);
        if k > 0 && keep_len(buf, pre) < k {
            // the maximum comes from the last token
            assert(tail_holds_token_prefix(buf, toks[toks.len() - 1], k));
        } else if k > 0 {
            let i = choose|i: int|
                0 <= i < pre.len() && tail_holds_token_prefix(buf, pre[i], keep_len(buf, pre));
            assert(tail_holds_token_prefix(buf, toks[i], k));
        }
        assert forall|i: int, l: int|
            0 <= i < toks.len() && tail_holds_token_prefix(buf, toks[i], l) implies l <= keep_len(
            buf,
            toks,
        ) by {
            if i < toks.len() - 1 {
                assert(pre[i] == toks[i]);
            } else {
                assert(toks.last() == toks[i]);
                assert(l <= toks[i].len() - 1);
            }
        }
    }
}

proof fn lemma_tail_holds_after_drop(buf: Seq<u8>, n: int, tok: Seq<u8>, l: int)
    requires
        0 <= n <= buf.len(),
        1 <= l <= buf.len() - n,
    ensures
        tail_holds_token_prefix(buf.skip(n), tok, l) <==> tail_holds_token_prefix(buf, tok, l),
{
    assert(buf.skip(n).skip(buf.len() - n - l) =~= buf.skip(buf.len() - l));
}

/// Consuming a prefix that stays clear of the retained tail does not change
/// what must be retained.
pub proof fn lemma_keep_len_after_drop(buf: Seq<u8>, toks: Seq<Seq<u8>>, n: int)
    requires
        0 <= n <= buf.len(),
        keep_len(buf, toks) <= buf.len() - n,
    ensures
        keep_len(buf.skip(n), toks) == keep_len(buf, toks),
{
    lemma_keep_len(buf, toks);
    lemma_keep_len(buf.skip(n), toks);
    let k1 = keep_len(buf, toks);
    let k2 = keep_len(buf.skip(n), toks);
    if k1 > 0 {
        let i = choose|i: int| 0 <= i < toks.len() && tail_holds_token_prefix(buf, toks[i], k1);
        lemma_tail_holds_after_drop(buf, n, toks[i], k1);
        assert(tail_holds_token_prefix(buf.skip(n), toks[i], k1));
    }
    if k2 > 0 {
        let i = choose|i: int|
            0 <= i < toks.len() && tail_holds_token_prefix(buf.skip(n), toks[i], k2);
        lemma_tail_holds_after_drop(buf, n, toks[i], k2);
        assert(tail_holds_token_prefix(buf, toks[i], k2));
    }
}

proof fn lemma_insert_to_multiset(s: Seq<Seq<u8>>, p: int, x: Seq<u8>)
    requires
        0 <= p <= s.len(),
    ensures
        s.insert(p, x).to_multiset() == s.to_multiset().insert(x),
{
    broadcast use vstd::multiset::group_multiset_axioms;

    let t = s.insert(p, x);
    t.to_multiset_ensures();
    assert(t.remove(p) =~= s);
    assert(t[p] == x);
    assert(s.to_multiset() =~= t.to_multiset().remove(x));
    assert(t.to_multiset().count(x) > 0) by {
        assert(t.contains(x));
    }
    assert(t.to_multiset() =~= s.to_multiset().insert(x));
}

/// One result of polling the scanner.
#[derive(Debug, PartialEq, Eq)]
pub enum TokkerPollResult {
    /// Nothing can be classified yet; more input is needed.
    NoData,
    /// A span of plain text, free of any token.
    Data(Vec<u8>),
    /// A recognized token.
    Token(Vec<u8>),
}

/// Incremental scanner for a fixed set of literal tokens.
pub struct Tokker {
    in_flight: Vec<u8>,
    data_end: usize,
    token: Vec<Vec<u8>>,
}

impl Tokker {
    /// The buffered data not yet classified.
    pub closed spec fn buf(&self) -> Seq<u8> {
        self.in_flight@
    }

    /// The configured tokens, in matching order.
    pub closed spec fn toks(&self) -> Seq<Seq<u8>> {
        self.token.deep_view()
    }

    /// The safe-emit boundary: data before it can no longer be part of a
    /// token match that needs more input.
    pub closed spec fn safe_end(&self) -> int {
        self.data_end as int
    }

    /// Established by `new`, preserved by `push` and `poll`.
    pub open spec fn wf(&self) -> bool {
        &&& sorted_by_len_desc(self.toks())
        &&& self.safe_end() == self.buf().len() - keep_len(self.buf(), self.toks())
        &&& 0 <= self.safe_end() <= self.buf().len()
    }

    /// A scanner for the given token set.  Tokens are kept ordered by
    /// descending length so that the longest possible match always wins.
    pub fn new(token: Vec<Vec<u8>>) -> (s: Self)
        ensures
            s.wf(),
            s.buf() == Seq::<u8>::empty(),
            s.safe_end() == 0,
            s.toks().to_multiset() == token.deep_view().to_multiset(),
    {
        let ghost input = token.deep_view();
        let mut sorted: Vec<Vec<u8>> = Vec::new();
        let mut idx: usize = 0;
        proof {
            assert(input.take(0) =~= Seq::<Seq<u8>>::empty());
            Seq::<Seq<u8>>::empty().to_multiset_ensures();
            assert(sorted.deep_view() =~= Seq::<Seq<u8>>::empty());
        }
        while idx < token.len()
            invariant
                idx <= token@.len(),
                token.deep_view() == input,
                token@.len() == input.len(),
                sorted_by_len_desc(sorted.deep_view()),
                sorted.deep_view().to_multiset() == input.take(idx as int).to_multiset(),
            decreases token@.len() - idx,
        {
            let t = vec_copy(&token[idx]);
            let ghost tv = t@;
            proof {
                assert(token@[idx as int].deep_view() =~= token@[idx as int]@);
                assert(tv == input[idx as int]);
            }
            let mut p: usize = 0;
            while p < sorted.len() && sorted[p].len() >= t.len()
                invariant
                    p <= sorted@.len(),
                    t@ == tv,
                    forall|q: int|
                        0 <= q < p ==> #[trigger] sorted.deep_view()[q].len() >= tv.len(),
                decreases sorted@.len() - p,
            {
                proof {
                    assert(sorted.deep_view()[p as int] =~= sorted@[p as int]@);
                }
                p += 1;
            }
            let ghost old_dv = sorted.deep_view();
            let ghost pp = p as int;
            proof {
                if pp < old_dv.len() {
                    assert(sorted.deep_view()[pp] =~= sorted@[pp]@);
                    assert(old_dv[pp].len() < tv.len());
                }
            }
            sorted.insert(p, t);
            proof {
                assert(sorted.deep_view() =~= old_dv.insert(pp, tv));
                lemma_insert_to_multiset(old_dv, pp, tv);
                assert(input.take(idx as int + 1) =~= input.take(idx as int).push(
                    input[idx as int],
                ));
                input.take(idx as int).to_multiset_ensures();
                let dv = sorted.deep_view();
                assert forall|a: int, b: int| 0 <= a < b < dv.len() implies dv[a].len()
                    >= dv[b].len() by {
                    if b < pp {
                        assert(dv[a] == old_dv[a] && dv[b] == old_dv[b]);
                    } else if a > pp {
                        assert(dv[a] == old_dv[a - 1] && dv[b] == old_dv[b - 1]);
                    } else if a == pp {
                        assert(dv[a] == tv && dv[b] == old_dv[b - 1]);
                        assert(old_dv[pp].len() < tv.len());
                        assert(old_dv[b - 1].len() <= old_dv[pp].len());
                    } else if b == pp {
                        assert(dv[a] == old_dv[a] && dv[b] == tv);
                    } else {
                        assert(dv[a] == old_dv[a] && dv[b] == old_dv[b - 1]);
                        assert(old_dv[b - 1].len() <= old_dv[pp].len());
                        assert(old_dv[pp].len() < tv.len());
                        assert(dv[a].len() >= tv.len());
                    }
                }
            }
            idx += 1;
        }
        proof {
            assert(input.take(input.len() as int) =~= input);
        }
        let s = Tokker { in_flight: Vec::new(), data_end: 0, token: sorted };
        proof {
            lemma_keep_len(Seq::<u8>::empty(), s.toks());
        }
        s
    }

    /// Appends character data to the in-flight buffer and recomputes the
    /// safe-emit boundary: the boundary retreats past any buffer tail that is
    /// still a proper prefix of a configured token.
    pub fn push(&mut self, data: &[u8])
        requires
            old(self).wf(),
        ensures
            final(self).wf(),
            final(self).toks() == old(self).toks(),
            final(self).buf() == old(self).buf() + data@,
    {
        let mut i: usize = 0;
        while i < data.len()
            invariant
                i <= data@.len(),
                self.in_flight@ == old(self).in_flight@ + data@.take(i as int),
                self.token == old(self).token,
                self.data_end == old(self).data_end,
            decreases data@.len() - i,
        {
            self.in_flight.push(data[i]);
            proof {
                assert(data@.take(i as int + 1) =~= data@.take(i as int).push(data@[i as int]));
            }
            i += 1;
        }
        proof {
            assert(data@.take(data@.len() as int) =~= data@);
        }
        let ghost buf = self.in_flight@;
        let ghost toks = self.toks();
        let mut keep_end: usize = 0;
        let mut ti: usize = 0;
        proof {
            assert(toks.take(0) =~= Seq::<Seq<u8>>::empty());
        }
        while ti < self.token.len()
            invariant
                self.in_flight@ == buf,
                self.token.deep_view() == toks,
                self.token@.len() == toks.len(),
                ti <= toks.len(),
                keep_end as int == keep_len(buf, toks.take(ti as int)),
                keep_end <= buf.len(),
            decreases toks.len() - ti,
        {
            let tlen = self.token[ti].len();
            let ghost tv = toks[ti as int];
            proof {
                assert(self.token@[ti as int].deep_view() =~= self.token@[ti as int]@);
                assert(tv == self.token@[ti as int]@);
            }
            let ghost base = keep_len(buf, toks.take(ti as int));
            let mut l: usize = 1;
            while l < tlen
                invariant
                    1 <= l,
                    tlen == 0 || l <= tlen,
                    tlen == 0 ==> l == 1,
                    self.in_flight@ == buf,
                    self.token.deep_view() == toks,
                    self.token@.len() == toks.len(),
                    ti < toks.len(),
                    tv == toks[ti as int],
                    tv == self.token@[ti as int]@,
                    tlen == tv.len(),
                    base == keep_len(buf, toks.take(ti as int)),
                    0 <= base <= buf.len(),
                    keep_end as int == (if base >= token_keep_len(buf, tv, l as int - 1) {
                        base
                    } else {
                        token_keep_len(buf, tv, l as int - 1)
                    }),
                    keep_end <= buf.len(),
                decreases tlen - l,
            {
                let hit = tail_matches(&self.in_flight, &self.token[ti], l);
                proof {
                    lemma_token_keep_len(buf, tv, l as int - 1);
                    if hit {
                        assert(tail_holds_token_prefix(buf, tv, l as int));
                        assert(token_keep_len(buf, tv, l as int) == l as int);
                    } else {
                        assert(!tail_holds_token_prefix(buf, tv, l as int));
                        assert(token_keep_len(buf, tv, l as int) == token_keep_len(
                            buf,
                            tv,
                            l as int - 1,
                        ));
                    }
                }
                if hit {
                    if l > keep_end {
                        keep_end = l;
                    }
                }
                l += 1;
            }
            proof {
                // the inner scan computed this token's contribution in full
                if tlen < 1 {
                    assert(token_keep_len(buf, tv, tv.len() - 1) == 0);
                } else {
                    assert(l as int - 1 == tv.len() - 1);
                }
                assert(keep_end as int == (if base >= token_keep_len(buf, tv, tv.len() - 1) {
                    base
                } else {
                    token_keep_len(buf, tv, tv.len() - 1)
                }));
                assert(toks.take(ti as int + 1).drop_last() =~= toks.take(ti as int));
                assert(toks.take(ti as int + 1).last() == tv);
            }
            ti += 1;
        }
        proof {
            assert(toks.take(toks.len() as int) =~= toks);
            lemma_keep_len(buf, toks);
        }
        self.data_end = self.in_flight.len() - keep_end;
    }

    /// Returns exactly one result, consuming the matching prefix of the
    /// buffer: a token standing at the front of the safe region (the longest
    /// such match), else the plain text up to the earliest token occurrence
    /// in the safe region, else the whole safe region as plain text, else
    /// nothing when the safe region is empty.
    pub fn poll(&mut self) -> (r: TokkerPollResult)
        requires
            old(self).wf(),
        ensures
            final(self).wf(),
            final(self).toks() == old(self).toks(),
            ({
                let buf = old(self).buf();
                let de = old(self).safe_end();
                let toks = old(self).toks();
                let region = buf.take(de);
                match r {
                    TokkerPollResult::NoData => {
                        &&& de == 0
                        &&& final(self).buf() == buf
                        &&& final(self).safe_end() == de
                    },
                    TokkerPollResult::Token(t) => {
                        &&& de > 0
                        &&& (exists|i: int| 0 <= i < toks.len() && toks[i] == t@)
                        &&& occurs_at(region, t@, 0)
                        &&& (forall|i: int|
                            0 <= i < toks.len() && occurs_at(region, toks[i], 0)
                                ==> toks[i].len() <= t@.len())
                        &&& final(self).buf() == buf.skip(t@.len() as int)
                        &&& final(self).safe_end() == de - t@.len()
                    },
                    TokkerPollResult::Data(d) => {
                        &&& de > 0
                        &&& (forall|i: int| 0 <= i < toks.len() ==> !occurs_at(region, toks[i], 0))
                        &&& 1 <= d@.len() <= de
                        &&& d@ == buf.take(d@.len() as int)
                        &&& (forall|j2: int| 0 <= j2 < d@.len() ==> !any_token_at(region, toks, j2))
                        &&& (d@.len() < de ==> any_token_at(region, toks, d@.len() as int))
                        &&& final(self).buf() == buf.skip(d@.len() as int)
                        &&& final(self).safe_end() == de - d@.len()
                    },
                }
            }),
    {
        if self.data_end == 0 {
            return TokkerPollResult::NoData;
        }
        let ghost buf = self.in_flight@;
        let ghost toks = self.toks();
        let de = self.data_end;
        let ghost region = buf.take(de as int);
        // an exact token at the front of the safe region takes precedence
        let mut i: usize = 0;
        while i < self.token.len()
            invariant
                self.in_flight@ == buf,
                self.token.deep_view() == toks,
                self.token@.len() == toks.len(),
                self.data_end == de,
                0 < de as int <= buf.len(),
                sorted_by_len_desc(toks),
                de as int == buf.len() - keep_len(buf, toks),
                region == buf.take(de as int),
                buf == old(self).buf(),
                toks == old(self).toks(),
                de as int == old(self).safe_end(),
                i <= toks.len(),
                forall|i2: int| 0 <= i2 < i ==> !occurs_at(region, toks[i2], 0),
            decreases toks.len() - i,
        {
            proof {
                assert(self.token@[i as int].deep_view() =~= self.token@[i as int]@);
            }
            let tl = self.token[i].len();
            if tl <= de && match_at(&self.in_flight, &self.token[i], 0) {
                let t = vec_copy(&self.token[i]);
                proof {
                    assert(region.subrange(0, tl as int) =~= buf.subrange(0, tl as int));
                    assert(occurs_at(region, t@, 0));
                }
                self.in_flight = vec_skip(&self.in_flight, tl);
                self.data_end = de - tl;
                proof {
                    lemma_keep_len(buf, toks);
                    lemma_keep_len_after_drop(buf, toks, tl as int);
                    assert(toks[i as int] == t@);
                    assert(exists|i2: int| 0 <= i2 < toks.len() && toks[i2] == t@);
                    assert forall|i2: int|
                        0 <= i2 < toks.len() && occurs_at(region, toks[i2], 0) implies
                        toks[i2].len() <= t@.len() by {
                        if i2 >= i as int {
                            assert(toks[i as int].len() >= toks[i2].len());
                        }
                    }
                }
                return TokkerPollResult::Token(t);
            }
            proof {
                if tl <= de {
                    assert(region.subrange(0, tl as int) =~= buf.subrange(0, tl as int));
                }
                assert(!occurs_at(region, toks[i as int], 0));
            }
            i += 1;
        }
        // earliest occurrence of any token in the safe region
        let mut found: Option<usize> = Option::None;
        let mut ti: usize = 0;
        while ti < self.token.len()
            invariant
                self.in_flight@ == buf,
                self.token.deep_view() == toks,
                self.token@.len() == toks.len(),
                self.data_end == de,
                0 < de as int <= buf.len(),
                sorted_by_len_desc(toks),
                de as int == buf.len() - keep_len(buf, toks),
                region == buf.take(de as int),
                ti <= toks.len(),
                forall|i2: int| 0 <= i2 < toks.len() ==> !occurs_at(region, toks[i2], 0),
                match found {
                    Option::Some(m) => {
                        &&& m as int <= de
                        &&& (exists|i2: int| 0 <= i2 < ti && occurs_at(region, toks[i2], m as int))
                        &&& (forall|i2: int, j2: int|
                            0 <= i2 < ti && 0 <= j2 < m ==> !occurs_at(region, toks[i2], j2))
                    },
                    Option::None => forall|i2: int, j2: int|
                        0 <= i2 < ti ==> !occurs_at(region, toks[i2], j2),
                },
            decreases toks.len() - ti,
        {
            proof {
                assert(self.token@[ti as int].deep_view() =~= self.token@[ti as int]@);
                if toks[ti as int].len() == 0 {
                    assert(region.subrange(0, 0) =~= toks[ti as int]);
                    assert(occurs_at(region, toks[ti as int], 0));
                }
            }
            let fr = find_first(&self.in_flight, de, &self.token[ti]);
            match fr {
                Option::Some(jj) => {
                    match found {
                        Option::Some(m) => {
                            if jj < m {
                                found = Option::Some(jj);
                            }
                        },
                        Option::None => {
                            found = Option::Some(jj);
                        },
                    }
                },
                Option::None => {},
            }
            ti += 1;
        }
        match found {
            Option::Some(j) => {
                proof {
                    let w = choose|i2: int|
                        0 <= i2 < toks.len() && occurs_at(region, toks[i2], j as int);
                    if toks[w].len() == 0 {
                        assert(region.subrange(0, 0) =~= toks[w]);
                        assert(occurs_at(region, toks[w], 0));
                    }
                    assert(1 <= j as int);
                    assert((j as int) < de);
                }
                let head = vec_take(&self.in_flight, j);
                self.in_flight = vec_skip(&self.in_flight, j);
                self.data_end = de - j;
                proof {
                    lemma_keep_len(buf, toks);
                    lemma_keep_len_after_drop(buf, toks, j as int);
                    assert forall|j2: int| 0 <= j2 < j implies !any_token_at(region, toks, j2) by {
                        if any_token_at(region, toks, j2) {
                            let i2 = choose|i2: int|
                                0 <= i2 < toks.len() && occurs_at(region, toks[i2], j2);
                            assert(!occurs_at(region, toks[i2], j2));
                        }
                    }
                    assert(any_token_at(region, toks, j as int));
                }
                TokkerPollResult::Data(head)
            },
            Option::None => {
                let head = vec_take(&self.in_flight, de);
                self.in_flight = vec_skip(&self.in_flight, de);
                self.data_end = 0;
                proof {
                    lemma_keep_len(buf, toks);
                    lemma_keep_len_after_drop(buf, toks, de as int);
                    assert forall|j2: int| 0 <= j2 < de implies !any_token_at(region, toks, j2) by {
                        if any_token_at(region, toks, j2) {
                            let i2 = choose|i2: int|
                                0 <= i2 < toks.len() && occurs_at(region, toks[i2], j2);
                            assert(!occurs_at(region, toks[i2], j2));
                        }
                    }
                }
                TokkerPollResult::Data(head)
            },
        }
    }
}

/// Does `tok` stand in `buf` at offset `j`?
fn match_at(buf: &Vec<u8>, tok: &Vec<u8>, j: usize) -> (r: bool)
    requires
        j + tok@.len() <= buf@.len(),
    ensures
        r == (buf@.subrange(j as int, j as int + tok@.len()) == tok@),
{
    let mut i: usize = 0;
    while i < tok.len()
        invariant
            i <= tok@.len(),
            j + tok@.len() <= buf@.len(),
            forall|q: int| 0 <= q < i ==> buf@[j + q] == tok@[q],
        decreases tok@.len() - i,
    {
        let n = buf.len();
        assert(j + i < n);
        if buf[j + i] != tok[i] {
            proof {
                assert(buf@.subrange(j as int, j as int + tok@.len())[i as int] == buf@[j as int
                    + i as int]);
            }
            return false;
        }
        i += 1;
    }
    proof {
        assert(buf@.subrange(j as int, j as int + tok@.len()) =~= tok@);
    }
    true
}

/// The earliest offset in `buf[..de]` at which `tok` occurs in full.
fn find_first(buf: &Vec<u8>, de: usize, tok: &Vec<u8>) -> (r: Option<usize>)
    requires
        de <= buf@.len(),
        1 <= tok@.len(),
    ensures
        ({
            let region = buf@.take(de as int);
            match r {
                Option::Some(j) => occurs_at(region, tok@, j as int) && forall|j2: int|
                    0 <= j2 < j ==> !occurs_at(region, tok@, j2),
                Option::None => forall|j2: int| !occurs_at(region, tok@, j2),
            }
        }),
{
    let ghost region = buf@.take(de as int);
    if tok.len() > de {
        return Option::None;
    }
    let last = de - tok.len();
    let mut j: usize = 0;
    while j <= last
        invariant
            de <= buf@.len(),
            1 <= tok@.len(),
            tok@.len() <= de,
            last == de - tok@.len(),
            j <= last + 1,
            region == buf@.take(de as int),
            forall|j2: int| 0 <= j2 < j ==> !occurs_at(region, tok@, j2),
        decreases last + 1 - j,
    {
        let hit = match_at(buf, tok, j);
        proof {
            assert(region.subrange(j as int, j as int + tok@.len()) =~= buf@.subrange(
                j as int,
                j as int + tok@.len(),
            ));
        }
        if hit {
            return Option::Some(j);
        }
        j += 1;
    }
    Option::None
}

/// Does `buf` end with `tok`'s prefix of length `l`?
fn tail_matches(buf: &Vec<u8>, tok: &Vec<u8>, l: usize) -> (r: bool)
    requires
        1 <= l <= tok@.len(),
    ensures
        r == (l <= buf@.len() && buf@.skip(buf@.len() - l as int) == tok@.take(l as int)),
{
    if l > buf.len() {
        return false;
    }
    let off = buf.len() - l;
    let mut i: usize = 0;
    while i < l
        invariant
            i <= l,
            1 <= l,
            l <= buf@.len(),
            l <= tok@.len(),
            off == buf@.len() - l,
            forall|q: int| 0 <= q < i ==> buf@[off + q] == tok@[q],
        decreases l - i,
    {
        let n = buf.len();
        assert(off + i < n);
        if buf[off + i] != tok[i] {
            proof {
                assert(buf@.skip(off as int)[i as int] == buf@[off + i as int]);
                assert(tok@.take(l as int)[i as int] == tok@[i as int]);
            }
            return false;
        }
        i += 1;
    }
    proof {
        assert(buf@.skip(off as int) =~= tok@.take(l as int));
    }
    true
}

/// While only part of one configured token has arrived, everything is
/// retained: the safe region is empty, so no fragment of a token split
/// across any number of pushes can come out as plain text.
pub proof fn lemma_partial_token_retained(toks: Seq<Seq<u8>>, i: int, m: int)
    requires
        0 <= i < toks.len(),
        0 <= m < toks[i].len(),
    ensures
        keep_len(toks[i].take(m), toks) == m,
{
    let buf = toks[i].take(m);
    lemma_keep_len(buf, toks);
    if m >= 1 {
        assert(buf.skip(buf.len() - m) =~= toks[i].take(m));
        assert(tail_holds_token_prefix(buf, toks[i], m));
    }
}

/// Once one token has arrived in full, and no configured token's proper
/// prefix ends it, nothing is retained: the safe region is the whole token,
/// it matches at the front, and every front match of its length is the token
/// itself, so the next poll returns exactly this token.
pub proof fn lemma_full_token_ready(toks: Seq<Seq<u8>>, i: int)
    requires
        0 <= i < toks.len(),
        1 <= toks[i].len(),
        forall|i2: int, l: int|
            0 <= i2 < toks.len() ==> !tail_holds_token_prefix(toks[i], toks[i2], l),
    ensures
        keep_len(toks[i], toks) == 0,
        occurs_at(toks[i], toks[i], 0),
        forall|i2: int|
            0 <= i2 < toks.len() && occurs_at(toks[i], toks[i2], 0) && toks[i2].len()
                >= toks[i].len() ==> toks[i2] == toks[i],
{
    lemma_keep_len(toks[i], toks);
    let k = keep_len(toks[i], toks);
    if k > 0 {
        let w = choose|w: int| 0 <= w < toks.len() && tail_holds_token_prefix(toks[i], toks[w], k);
        assert(!tail_holds_token_prefix(toks[i], toks[w], k));
    }
    assert(toks[i].subrange(0, toks[i].len() as int) =~= toks[i]);
    assert forall|i2: int|
        0 <= i2 < toks.len() && occurs_at(toks[i], toks[i2], 0) && toks[i2].len()
            >= toks[i].len() implies toks[i2] == toks[i] by {
        assert(toks[i2].len() == toks[i].len());
        assert(toks[i].subrange(0, toks[i2].len() as int) == toks[i2]);
    }
}

/// Plain text in which no configured token occurs anywhere can never be
/// reported as a token, and consuming the safe region loses nothing: the
/// concatenation of the emitted span and the retained tail is the buffer.
pub proof fn lemma_plain_text_passthrough(buf: Seq<u8>, toks: Seq<Seq<u8>>)
    requires
        forall|i: int, j: int| 0 <= i < toks.len() ==> !occurs_at(buf, toks[i], j),
    ensures
        ({
            let de = buf.len() - keep_len(buf, toks);
            &&& (forall|i: int, j: int|
                0 <= i < toks.len() ==> !occurs_at(buf.take(de), toks[i], j))
            &&& buf.take(de) + buf.skip(de) == buf
        }),
{
    lemma_keep_len(buf, toks);
    let de = buf.len() - keep_len(buf, toks);
    assert forall|i: int, j: int| 0 <= i < toks.len() implies !occurs_at(
        buf.take(de),
        toks[i],
        j,
    ) by {
        if occurs_at(buf.take(de), toks[i], j) {
            assert(buf.subrange(j, j + toks[i].len()) =~= buf.take(de).subrange(
                j,
                j + toks[i].len(),
            ));
            assert(occurs_at(buf, toks[i], j));
        }
    }
    assert(buf.take(de) + buf.skip(de) =~= buf);
}

/// What a poll hands out and what it keeps partition the buffer exactly:
/// nothing is lost, duplicated or reordered by draining the scanner.
pub proof fn lemma_consume_is_exact(buf: Seq<u8>, n: int)
    requires
        0 <= n <= buf.len(),
    ensures
        buf.take(n) + buf.skip(n) == buf,
{
    assert(buf.take(n) + buf.skip(n) =~= buf);
}

/// The in-flight buffer after pushing the chunks of `cs` in order and
/// draining after each push, in a run in which every poll consumes the whole
/// safe region as plain text.  By `poll`'s contract this is exactly what
/// happens whenever no token occurs anywhere in the data pushed so far.
pub open spec fn scan_run_pending(toks: Seq<Seq<u8>>, cs: Seq<Seq<u8>>) -> Seq<u8>
    decreases cs.len(),
{
    if cs.len() == 0 {
        Seq::empty()
    } else {
        let b = scan_run_pending(toks, cs.drop_last()) + cs.last();
        b.skip(b.len() - keep_len(b, toks))
    }
}

/// The concatenation of the plain-text spans those polls hand out.
pub open spec fn scan_run_emitted(toks: Seq<Seq<u8>>, cs: Seq<Seq<u8>>) -> Seq<u8>
    decreases cs.len(),
{
    if cs.len() == 0 {
        Seq::empty()
    } else {
        let b = scan_run_pending(toks, cs.drop_last()) + cs.last();
        scan_run_emitted(toks, cs.drop_last()) + b.take(b.len() - keep_len(b, toks))
    }
}

/// Plain text in which no configured token occurs anywhere, pushed in
/// arbitrarily many chunks, comes through exactly: the concatenated
/// plain-text outputs followed by the retained tail are the input, with no
/// byte lost, duplicated or reordered, and no poll can have returned a
/// token, since no token ever stands in the buffer.
pub proof fn lemma_plain_run_exact(toks: Seq<Seq<u8>>, cs: Seq<Seq<u8>>)
    requires
        forall|i: int, j: int|
            0 <= i < toks.len() ==> !occurs_at(
                crate::decoder::concat_chunks(cs),
                toks[i],
                j,
            ),
    ensures
        scan_run_emitted(toks, cs) + scan_run_pending(toks, cs) == crate::decoder::concat_chunks(
            cs,
        ),
        forall|i: int, j: int|
            0 <= i < toks.len() ==> !occurs_at(scan_run_pending(toks, cs), toks[i], j),
    decreases cs.len(),
{
    let s = crate::decoder::concat_chunks(cs);
    if cs.len() == 0 {
        assert(scan_run_emitted(toks, cs) + scan_run_pending(toks, cs) =~= s);
    } else {
        let cs0 = cs.drop_last();
        let c = cs.last();
        let s0 = crate::decoder::concat_chunks(cs0);
        assert(s == s0 + c);
        assert forall|i: int, j: int| 0 <= i < toks.len() implies !occurs_at(s0, toks[i], j) by {
            if occurs_at(s0, toks[i], j) {
                assert(s.subrange(j, j + toks[i].len()) =~= s0.subrange(j, j + toks[i].len()));
                assert(occurs_at(s, toks[i], j));
            }
        }
        lemma_plain_run_exact(toks, cs0);
        let e0 = scan_run_emitted(toks, cs0);
        let p0 = scan_run_pending(toks, cs0);
        let b = p0 + c;
        lemma_keep_len(b, toks);
        let de = b.len() - keep_len(b, toks);
        assert(b.take(de) + b.skip(de) =~= b);
        assert(scan_run_emitted(toks, cs) + scan_run_pending(toks, cs) =~= (e0 + p0) + c);
        // the new pending tail is a contiguous piece of the input, so no
        // token occurs in it either
        let off = s.len() - scan_run_pending(toks, cs).len();
        assert(scan_run_pending(toks, cs) =~= s.skip(off));
        assert forall|i: int, j: int| 0 <= i < toks.len() implies !occurs_at(
            scan_run_pending(toks, cs),
            toks[i],
            j,
        ) by {
            let p = scan_run_pending(toks, cs);
            if occurs_at(p, toks[i], j) {
                assert(p.subrange(j, j + toks[i].len()) =~= s.subrange(
                    off + j,
                    off + j + toks[i].len(),
                ));
                assert(occurs_at(s, toks[i], off + j));
            }
        }
    }
}

/// A token split across any number of pushes is never emitted as plain
/// text: while the data pushed so far is a proper prefix of a configured
/// token, every poll of the run has returned nothing, and the whole prefix
/// is still buffered.  Once the rest of the token arrives,
/// `lemma_full_token_ready` and `poll`'s contract make the next poll return
/// exactly this token, once.
pub proof fn lemma_token_split_run(toks: Seq<Seq<u8>>, i: int, m: int, cs: Seq<Seq<u8>>)
    requires
        0 <= i < toks.len(),
        0 <= m < toks[i].len(),
        crate::decoder::concat_chunks(cs) == toks[i].take(m),
    ensures
        scan_run_emitted(toks, cs) == Seq::<u8>::empty(),
        scan_run_pending(toks, cs) == crate::decoder::concat_chunks(cs),
    decreases cs.len(),
{
    let s = crate::decoder::concat_chunks(cs);
    if cs.len() == 0 {
        assert(scan_run_emitted(toks, cs) =~= Seq::<u8>::empty());
        assert(scan_run_pending(toks, cs) =~= s);
    } else {
        let cs0 = cs.drop_last();
        let c = cs.last();
        let s0 = crate::decoder::concat_chunks(cs0);
        assert(s == s0 + c);
        let m0 = s0.len() as int;
        assert(s0 =~= toks[i].take(m0));
        lemma_token_split_run(toks, i, m0, cs0);
        let b = scan_run_pending(toks, cs0) + c;
        assert(b =~= toks[i].take(m));
        if m >= 1 {
            lemma_partial_token_retained(toks, i, m);
            assert(keep_len(b, toks) == m);
        } else {
            lemma_keep_len(b, toks);
        }
        assert(b.len() - keep_len(b, toks) == 0);
        assert(b.take(0) =~= Seq::<u8>::empty());
        assert(b.skip(0) =~= b);
        assert(scan_run_emitted(toks, cs) =~= Seq::<u8>::empty());
    }
}

} // verus!

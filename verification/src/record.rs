//! One FASTA entry: the raw header line (with its leading `>` and trailing
//! terminator, as accumulated by the reader) and the concatenated sequence
//! bytes with terminators stripped. A record is either empty — both fields
//! empty, the end-of-stream sentinel — or well-formed: the header starts with
//! `>` and holds at least an id token.

use vstd::prelude::*;

use crate::bytes::is_ws;
use crate::error::Error;

verus! {

broadcast use vstd::seq_lib::lemma_seq_skip_index, vstd::seq_lib::lemma_seq_take_index,
    vstd::seq_lib::lemma_seq_skip_len, vstd::seq_lib::lemma_seq_take_len;

/// Length of the whitespace-free token at the head of `s` (zero when `s`
/// starts with whitespace or is empty).
pub open spec fn tok_len(s: Seq<u8>) -> nat
    decreases s.len(),
{
    if s.len() == 0 || is_ws(s[0]) {
        0
    } else {
        1 + tok_len(s.skip(1))
    }
}

pub proof fn lemma_tok_len_le(s: Seq<u8>)
    ensures
        tok_len(s) <= s.len(),
    decreases s.len(),
{
    if s.len() > 0 && !is_ws(s[0]) {
        lemma_tok_len_le(s.skip(1));
    }
}

/// The whitespace-delimited tokens of `s`, in order.
pub open spec fn tokens(s: Seq<u8>) -> Seq<Seq<u8>>
    decreases s.len(),
    via tokens_decreases
{
    if s.len() == 0 {
        Seq::empty()
    } else if is_ws(s[0]) {
        tokens(s.skip(1))
    } else {
        seq![s.take(tok_len(s) as int)] + tokens(s.skip(tok_len(s) as int))
    }
}

#[via_fn]
proof fn tokens_decreases(s: Seq<u8>) {
    if s.len() > 0 && !is_ws(s[0]) {
        lemma_tok_len_le(s);
        assert(tok_len(s) == 1 + tok_len(s.skip(1)));
    }
}

/// `tok_len` is pinned down by a witness `t`: no whitespace before `t`, and
/// either `t` is the end or `s[t]` is whitespace.
pub proof fn lemma_tok_len_at(s: Seq<u8>, t: int)
    requires
        0 <= t <= s.len(),
        forall|j: int| 0 <= j < t ==> !is_ws(s[j]),
        t < s.len() ==> is_ws(s[t]),
    ensures
        tok_len(s) == t,
    decreases t,
{
    if t == 0 {
    } else {
        assert(!is_ws(s[0]));
        lemma_tok_len_at(s.skip(1), t - 1);
    }
}

/// The id of a record with header `h`: the first whitespace-delimited token
/// after the leading `>`, if any.
pub open spec fn spec_id(h: Seq<u8>) -> Option<Seq<u8>> {
    if h.len() == 0 {
        None
    } else if tokens(h.skip(1)).len() == 0 {
        None
    } else {
        Some(tokens(h.skip(1))[0])
    }
}

/// The descriptions of a record with header `h`: every header token after
/// the id.
pub open spec fn spec_desc(h: Seq<u8>) -> Seq<Seq<u8>> {
    if h.len() == 0 || tokens(h.skip(1)).len() <= 1 {
        Seq::empty()
    } else {
        tokens(h.skip(1)).skip(1)
    }
}

/// All bytes of `s` are ASCII.
pub open spec fn ascii_seq(s: Seq<u8>) -> bool {
    forall|i: int| 0 <= i < s.len() ==> s[i] < 128
}

/// First position at or after `from` where `v` holds ASCII whitespace, or
/// `v.len()` when there is none.
fn scan_ws(v: &[u8], from: usize) -> (r: usize)
    requires
        from <= v@.len(),
    ensures
        from <= r <= v@.len(),
        forall|m: int| from <= m < r ==> !is_ws(v@[m]),
        r < v@.len() ==> is_ws(v@[r as int]),
{
    let mut j: usize = from;
    loop
        invariant
            from <= j <= v@.len(),
            forall|m: int| from <= m < j ==> !is_ws(v@[m]),
        decreases v@.len() - j,
    {
        if j == v.len() {
            return j;
        }
        let c = v[j];
        if c == 32 || c == 9 || c == 10 || c == 13 {
            return j;
        }
        j = j + 1;
    }
}

/// The whitespace-delimited tokens of `v[from..]`, as owned byte strings.
fn tokenize_from(v: &[u8], from: usize) -> (r: Vec<Vec<u8>>)
    requires
        from <= v@.len(),
    ensures
        r.deep_view() == tokens(v@.skip(from as int)),
{
    let mut toks: Vec<Vec<u8>> = Vec::new();
    let mut i: usize = from;
    proof {
        assert(toks.deep_view() + tokens(v@.skip(from as int)) =~= tokens(v@.skip(from as int)));
    }
    loop
        invariant
            from <= i <= v@.len(),
            tokens(v@.skip(from as int)) == toks.deep_view() + tokens(v@.skip(i as int)),
        decreases v@.len() - i,
    {
        if i == v.len() {
            proof {
                assert(v@.skip(i as int) =~= Seq::<u8>::empty());
                assert(toks.deep_view() + tokens(v@.skip(i as int)) =~= toks.deep_view());
            }
            return toks;
        }
        let b = v[i];
        if b == 32 || b == 9 || b == 10 || b == 13 {
            proof {
                assert(v@.skip(i as int)[0] == v@[i as int]);
                assert(v@.skip(i as int).skip(1) =~= v@.skip(i + 1));
            }
            i = i + 1;
        } else {
            let j = scan_ws(v, i);
            proof {
                assert(!is_ws(v@[i as int]));
            }
            let mut tok: Vec<u8> = Vec::new();
            crate::bytes::push_range(&mut tok, v, i, j);
            proof {
                assert(tok@ =~= v@.subrange(i as int, j as int));
                let tail = v@.skip(i as int);
                assert forall|m: int| 0 <= m < j - i implies !is_ws(tail[m]) by {
                    assert(tail[m] == v@[i + m]);
                }
                if j < v@.len() {
                    assert(tail[j - i] == v@[j as int]);
                }
                lemma_tok_len_at(tail, j - i);
                assert(tail.take(j - i) =~= v@.subrange(i as int, j as int));
                assert(tail.skip(j - i) =~= v@.skip(j as int));
                assert(tokens(tail) == seq![v@.subrange(i as int, j as int)] + tokens(
                    v@.skip(j as int),
                ));
            }
            let ghost old_toks = toks.deep_view();
            toks.push(tok);
            proof {
                assert(tok.deep_view() =~= v@.subrange(i as int, j as int));
                assert(toks.deep_view() =~~= old_toks.push(v@.subrange(i as int, j as int)));
                assert(toks.deep_view() + tokens(v@.skip(j as int)) =~~= old_toks + (seq![
                    v@.subrange(i as int, j as int),
                ] + tokens(v@.skip(j as int))));
            }
            i = j;
        }
    }
}


/// A non-empty whitespace-free token at the front of a stream that continues
/// with whitespace (or ends) is the stream's first token.
pub proof fn lemma_tokens_token_prefix(tk: Seq<u8>, rest: Seq<u8>)
    requires
        tk.len() > 0,
        forall|j: int| 0 <= j < tk.len() ==> !is_ws(tk[j]),
        rest.len() > 0 ==> is_ws(rest[0]),
    ensures
        tokens(tk + rest) == seq![tk] + tokens(rest),
{
    let s = tk + rest;
    assert forall|j: int| 0 <= j < tk.len() implies !is_ws(s[j]) by {
        assert(s[j] == tk[j]);
    }
    if tk.len() < s.len() {
        assert(s[tk.len() as int] == rest[0]);
    }
    lemma_tok_len_at(s, tk.len() as int);
    assert(s.take(tk.len() as int) =~= tk);
    assert(s.skip(tk.len() as int) =~= rest);
    assert(!is_ws(s[0]));
}

/// One FASTA entry.
pub struct Record {
    /// The raw header line, including the leading `>` and the trailing line
    /// terminator as read; empty for the end-of-stream sentinel.
    pub header: Vec<u8>,
    /// The sequence bytes, with line terminators stripped.
    pub seq: Vec<u8>,
}

impl Record {
    /// An empty record.
    pub fn new() -> (r: Self)
        ensures
            r.header@ == Seq::<u8>::empty(),
            r.seq@ == Seq::<u8>::empty(),
    {
        Record { header: Vec::new(), seq: Vec::new() }
    }

    /// An empty record marks the end of a stream.
    pub fn is_empty(&self) -> (r: bool)
        ensures
            r == (self.header@.len() == 0 && self.seq@.len() == 0),
    {
        self.header.len() == 0 && self.seq.len() == 0
    }

    pub(crate) fn clear(&mut self)
        ensures
            final(self).header@ == Seq::<u8>::empty(),
            final(self).seq@ == Seq::<u8>::empty(),
    {
        self.header.clear();
        self.seq.clear();
    }

    /// The record's id: the first whitespace-delimited token of the header,
    /// after the leading `>`.
    pub fn id(&self) -> (r: Option<Vec<u8>>)
        ensures
            (r is Some) == (spec_id(self.header@) is Some),
            r matches Some(v) ==> spec_id(self.header@) == Some(v@),
    {
        if self.header.len() == 0 {
            return None;
        }
        let mut toks = tokenize_from(self.header.as_slice(), 1);
        if toks.len() == 0 {
            None
        } else {
            proof {
                assert(toks.deep_view()[0] == toks@[0].deep_view());
            }
            Some(toks.remove(0))
        }
    }

    /// The record's descriptions: every header token after the id.
    pub fn desc(&self) -> (r: Vec<Vec<u8>>)
        ensures
            r.deep_view() == spec_desc(self.header@),
    {
        if self.header.len() == 0 {
            let r: Vec<Vec<u8>> = Vec::new();
            proof {
                assert(r.deep_view() =~= spec_desc(self.header@));
            }
            return r;
        }
        let mut toks = tokenize_from(self.header.as_slice(), 1);
        if toks.len() == 0 {
            proof {
                assert(toks.deep_view() =~= spec_desc(self.header@));
            }
            toks
        } else {
            let ghost before = toks.deep_view();
            toks.remove(0);
            proof {
                assert(toks.deep_view() =~= before.skip(1));
                if before.len() <= 1 {
                    assert(toks.deep_view() =~= spec_desc(self.header@));
                }
            }
            toks
        }
    }

    /// The sequence bytes of the record.
    pub fn seq(&self) -> (r: &[u8])
        ensures
            r@ == self.seq@,
    {
        self.seq.as_slice()
    }

    /// Checks that the record is well-formed: it has an id token and its
    /// sequence is ASCII.
    pub fn check(&self) -> (r: Result<(), Error>)
        ensures
            (r is Ok) == (spec_id(self.header@) is Some && ascii_seq(self.seq@)),
            r matches Err(e) ==> e == Error::Format,
    {
        match self.id() {
            None => Err(Error::Format),
            Some(_) => {
                let mut i: usize = 0;
                while i < self.seq.len()
                    invariant
                        i <= self.seq@.len(),
                        forall|j: int| 0 <= j < i ==> self.seq@[j] < 128,
                    decreases self.seq@.len() - i,
                {
                    if self.seq[i] >= 128 {
                        return Err(Error::Format);
                    }
                    i = i + 1;
                }
                Ok(())
            },
        }
    }
}

} // verus!

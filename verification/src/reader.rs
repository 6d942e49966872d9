//! The streaming record parser: consumes a byte stream one line at a time,
//! filling records. A record is a header line starting with `>` followed by
//! sequence lines up to the next header or the end of the stream; the next
//! header line stays buffered for the following call. End of stream is not
//! an error: it leaves the record empty.

use vstd::prelude::*;

use crate::bytes::CR;
use crate::bytes::GT;
use crate::bytes::NL;
use crate::bytes::find_byte;
use crate::bytes::lemma_find_byte_at;
use crate::bytes::lemma_find_byte_props;
use crate::bytes::push_range;
use crate::bytes::scan_byte;
use crate::error::Error;
use crate::index::strip_cr;
use crate::record::Record;

verus! {

broadcast use vstd::seq_lib::lemma_seq_skip_index, vstd::seq_lib::lemma_seq_take_index,
    vstd::seq_lib::lemma_seq_skip_len, vstd::seq_lib::lemma_seq_take_len;

/// A line with its terminator stripped: one trailing `\n` goes, then one
/// trailing `\r`.
pub open spec fn chomp(l: Seq<u8>) -> Seq<u8> {
    strip_cr(
        if l.len() > 0 && l.last() == NL {
            l.drop_last()
        } else {
            l
        },
    )
}

/// Splits off the first line of `s`: everything up to and including the
/// first terminator, or all of `s` when it has none.
pub open spec fn take_line(s: Seq<u8>) -> (Seq<u8>, Seq<u8>) {
    let e = find_byte(s, NL);
    if e < s.len() {
        (s.take(e + 1), s.skip(e + 1))
    } else {
        (s, Seq::empty())
    }
}

pub proof fn lemma_take_line_shape(s: Seq<u8>)
    ensures
        take_line(s).0 + take_line(s).1 == s,
        take_line(s).0.len() + take_line(s).1.len() == s.len(),
        s.len() > 0 ==> take_line(s).0.len() > 0 && take_line(s).0[0] == s[0],
        s.len() == 0 ==> take_line(s).0.len() == 0 && take_line(s).1.len() == 0,
{
    lemma_find_byte_props(s, NL);
    let e = find_byte(s, NL);
    if e < s.len() {
        assert(s.take(e + 1) + s.skip(e + 1) =~= s);
    } else {
        assert(s + Seq::<u8>::empty() =~= s);
    }
}

/// A complete buffered line — no interior terminator, and terminated unless
/// the stream behind it is exhausted — is exactly what `take_line` splits
/// off the front of the stream.
pub proof fn lemma_take_line_buffered(line: Seq<u8>, tail: Seq<u8>)
    requires
        line.len() > 0,
        forall|j: int| 0 <= j < line.len() - 1 ==> line[j] != NL,
        line.last() == NL || tail.len() == 0,
    ensures
        take_line(line + tail).0 == line,
        take_line(line + tail).1 == tail,
{
    let s = line + tail;
    if line.last() == NL {
        assert forall|j: int| 0 <= j < line.len() - 1 implies s[j] != NL by {
            assert(s[j] == line[j]);
        }
        assert(s[line.len() - 1] == NL);
        lemma_find_byte_at(s, NL, line.len() - 1);
        assert(s.take(line.len() as int) =~= line);
        assert(s.skip(line.len() as int) =~= tail);
    } else {
        assert forall|j: int| 0 <= j < s.len() implies s[j] != NL by {
            assert(s[j] == line[j]);
        }
        lemma_find_byte_at(s, NL, s.len() as int);
        assert(s =~= line);
        assert(take_line(s).1 =~= tail);
    }
}

/// Consumes sequence lines until the next header line or the end: returns
/// the concatenated chomped lines and the rest of the stream, which is empty
/// or starts with a buffered-back header line.
pub open spec fn take_body(s: Seq<u8>) -> (Seq<u8>, Seq<u8>)
    decreases s.len(),
    via take_body_decreases
{
    if s.len() == 0 {
        (Seq::empty(), Seq::empty())
    } else {
        let l = take_line(s).0;
        if l[0] == GT {
            (Seq::empty(), s)
        } else {
            let b = take_body(take_line(s).1);
            (chomp(l) + b.0, b.1)
        }
    }
}

#[via_fn]
proof fn take_body_decreases(s: Seq<u8>) {
    if s.len() > 0 {
        lemma_take_line_shape(s);
    }
}

/// What one parsing step does to a stream.
pub enum ParseStep {
    /// The stream is exhausted: the record is left empty, with no error.
    AtEnd,
    /// The stream does not start with a `>` header line.
    BadHeader,
    /// One record: its raw header line, its concatenated chomped sequence
    /// lines, and the unconsumed rest of the stream.
    Rec { header: Seq<u8>, body: Seq<u8>, rest: Seq<u8> },
}

/// One parsing step on a stream.
pub open spec fn parse_one(s: Seq<u8>) -> ParseStep {
    if s.len() == 0 {
        ParseStep::AtEnd
    } else if take_line(s).0[0] != GT {
        ParseStep::BadHeader
    } else {
        ParseStep::Rec {
            header: take_line(s).0,
            body: take_body(take_line(s).1).0,
            rest: take_body(take_line(s).1).1,
        }
    }
}

/// The streaming FASTA reader: the stream's bytes, the read position, and
/// the line buffered between calls.
pub struct Reader {
    /// The stream's bytes.
    pub data: Vec<u8>,
    /// How far the stream has been consumed.
    pub pos: usize,
    /// The line buffered between calls (a header line seen while reading the
    /// previous record).
    pub line: Vec<u8>,
}

impl Reader {
    /// What is left to parse: the buffered line, then the unread bytes.
    pub open spec fn remaining(self) -> Seq<u8> {
        self.line@ + self.data@.skip(self.pos as int)
    }

    /// The position is inside the data and the buffered line is one complete
    /// line: no interior terminator, and terminated unless the stream behind
    /// it is exhausted.
    pub open spec fn wf(self) -> bool {
        &&& self.pos <= self.data@.len()
        &&& (self.line@.len() > 0 ==> ({
            &&& forall|j: int| 0 <= j < self.line@.len() - 1 ==> self.line@[j] != NL
            &&& (self.line@.last() == NL || self.pos == self.data@.len())
        }))
    }

    /// A reader over a byte stream.
    pub fn new(data: Vec<u8>) -> (r: Self)
        ensures
            r.wf(),
            r.remaining() == data@,
            r.data == data,
    {
        let r = Reader { data, pos: 0, line: Vec::new() };
        proof {
            assert(r.remaining() =~= r.data@);
        }
        r
    }

    /// Moves the next line of the stream into the empty line buffer.
    fn fill_line(&mut self)
        requires
            old(self).wf(),
            old(self).line@.len() == 0,
        ensures
            final(self).wf(),
            final(self).data == old(self).data,
            final(self).line@ == take_line(old(self).remaining()).0,
            final(self).data@.skip(final(self).pos as int) == take_line(old(self).remaining()).1,
            final(self).pos - old(self).pos == final(self).line@.len(),
    {
        let ghost t = self.data@.skip(self.pos as int);
        proof {
            assert(old(self).remaining() =~= t);
        }
        let nl = scan_byte(self.data.as_slice(), self.pos, NL);
        let end = if nl < self.data.len() {
            nl + 1
        } else {
            nl
        };
        let mut buf: Vec<u8> = Vec::new();
        push_range(&mut buf, self.data.as_slice(), self.pos, end);
        proof {
            assert(buf@ =~= self.data@.subrange(self.pos as int, end as int));
            assert(find_byte(t, NL) == nl - self.pos);
            if nl < self.data@.len() {
                assert(t.take(nl - self.pos + 1) =~= self.data@.subrange(
                    self.pos as int,
                    end as int,
                ));
                assert(t.skip(nl - self.pos + 1) =~= self.data@.skip(end as int));
            } else {
                assert(t.take(nl - self.pos) =~= t);
                assert(t =~= self.data@.subrange(self.pos as int, end as int));
                assert(self.data@.skip(end as int) =~= Seq::<u8>::empty());
            }
        }
        let ghost oldpos = self.pos;
        self.line = buf;
        self.pos = end;
        proof {
            assert(take_line(t).0 == self.line@);
            assert(take_line(t).1 == self.data@.skip(self.pos as int));
            if self.line@.len() > 0 {
                assert forall|j: int| 0 <= j < self.line@.len() - 1 implies self.line@[j]
                    != NL by {
                    assert(self.line@[j] == self.data@[oldpos + j]);
                }
                if nl < self.data@.len() {
                    assert(self.line@.last() == self.data@[nl as int]);
                }
            }
        }
    }

    /// Reads the next record into `record`, replacing its contents. At the
    /// end of the stream the record is left empty and the call succeeds; a
    /// stream that does not continue with a `>` header line is a format
    /// error and is left unconsumed.
    pub fn read(&mut self, record: &mut Record) -> (r: Result<(), Error>)
        requires
            old(self).wf(),
        ensures
            final(self).wf(),
            final(self).data == old(self).data,
            parse_one(old(self).remaining()) is AtEnd ==> (r is Ok && final(record).header@
                == Seq::<u8>::empty() && final(record).seq@ == Seq::<u8>::empty() && final(self).remaining() == Seq::<u8>::empty()),
            parse_one(old(self).remaining()) is BadHeader ==> (r == Result::<(), Error>::Err(
                Error::Format,
            ) && final(record).header@ == Seq::<u8>::empty() && final(record).seq@ == Seq::<
                u8,
            >::empty() && final(self).remaining() == old(self).remaining()),
            parse_one(old(self).remaining()) matches ParseStep::Rec { header, body, rest } ==> (r
                is Ok && final(record).header@ == header && final(record).seq@ == body
                && final(self).remaining() == rest),
    {
        let ghost rem0 = old(self).remaining();
        record.clear();
        if self.line.len() == 0 {
            self.fill_line();
            if self.line.len() == 0 {
                proof {
                    lemma_take_line_shape(rem0);
                    assert(rem0.len() == 0);
                    assert(final(self).remaining() =~= Seq::<u8>::empty());
                }
                return Ok(());
            }
        }
        proof {
            if old(self).line@.len() > 0 {
                lemma_take_line_buffered(self.line@, self.data@.skip(self.pos as int));
                assert(rem0 == self.line@ + self.data@.skip(self.pos as int));
            }
            assert(self.line@ == take_line(rem0).0);
            assert(self.data@.skip(self.pos as int) == take_line(rem0).1);
            lemma_take_line_shape(rem0);
            assert(rem0.len() > 0);
        }
        let h0 = self.line[0];
        if h0 != GT {
            proof {
                assert(take_line(rem0).0[0] != GT);
                assert(parse_one(rem0) is BadHeader);
                assert(final(self).remaining() == rem0);
            }
            return Err(Error::Format);
        }
        record.header.append(&mut self.line);
        proof {
            assert(record.header@ =~= take_line(rem0).0);
            assert(record.seq@ + take_body(self.data@.skip(self.pos as int)).0 =~= take_body(
                take_line(rem0).1,
            ).0);
        }
        loop
            invariant
                self.wf(),
                self.line@.len() == 0,
                self.data == old(self).data,
                record.header@ == take_line(rem0).0,
                rem0.len() > 0,
                take_line(rem0).0[0] == GT,
                rem0 == old(self).remaining(),
                take_body(take_line(rem0).1).0 == record.seq@ + take_body(
                    self.data@.skip(self.pos as int),
                ).0,
                take_body(take_line(rem0).1).1 == take_body(self.data@.skip(self.pos as int)).1,
            decreases self.data@.len() - self.pos,
        {
            let ghost cur = self.data@.skip(self.pos as int);
            self.fill_line();
            proof {
                lemma_take_line_shape(cur);
            }
            if self.line.len() == 0 {
                proof {
                    assert(cur.len() == 0);
                    assert(take_body(cur) == (Seq::<u8>::empty(), Seq::<u8>::empty()));
                    assert(record.seq@ + Seq::<u8>::empty() =~= record.seq@);
                    assert(parse_one(rem0) matches ParseStep::Rec { header, body, rest }
                        && record.header@ == header && record.seq@ == body && rest
                        == Seq::<u8>::empty());
                    assert(final(self).remaining() =~= Seq::<u8>::empty());
                }
                return Ok(());
            }
            let c = self.line[0];
            if c == GT {
                proof {
                    assert(cur.len() > 0);
                    assert(take_line(cur).0[0] == GT);
                    assert(take_body(cur) == (Seq::<u8>::empty(), cur));
                    assert(record.seq@ + Seq::<u8>::empty() =~= record.seq@);
                    assert(final(self).remaining() == self.line@ + self.data@.skip(
                        self.pos as int,
                    ));
                    assert(final(self).remaining() == take_line(cur).0 + take_line(cur).1);
                    assert(take_line(cur).0 + take_line(cur).1 == cur);
                }
                return Ok(());
            }
            let n0 = self.line.len();
            let n1 = if self.line[n0 - 1] == NL {
                n0 - 1
            } else {
                n0
            };
            let n2 = if n1 > 0 && self.line[n1 - 1] == CR {
                n1 - 1
            } else {
                n1
            };
            let ghost seq_before = record.seq@;
            push_range(&mut record.seq, self.line.as_slice(), 0, n2);
            proof {
                let l = self.line@;
                if n1 < n0 {
                    assert(l.drop_last() =~= l.take(n0 - 1));
                }
                if n2 < n1 {
                    assert(l.take(n1 as int).drop_last() =~= l.take(n2 as int));
                }
                assert(chomp(l) =~= l.subrange(0, n2 as int));
                assert(cur.len() > 0);
                assert(take_line(cur).0[0] != GT);
                assert(take_body(cur) == (
                    chomp(l) + take_body(take_line(cur).1).0,
                    take_body(take_line(cur).1).1,
                ));
                assert(record.seq@ =~= seq_before + chomp(l));
                assert(record.seq@ + take_body(take_line(cur).1).0 =~= seq_before + (chomp(l)
                    + take_body(take_line(cur).1).0));
            }
            self.line.clear();
        }
    }

    /// The lazy sequence of this stream's records.
    pub fn records(self) -> (r: Records)
        ensures
            r.reader == self,
            !r.done,
    {
        Records { reader: self, done: false }
    }
}

/// A lazy, forward-only sequence of records. It ends permanently once the
/// stream is exhausted or an error has been returned.
pub struct Records {
    /// The reader that is being consumed.
    pub reader: Reader,
    /// Whether the sequence has ended.
    pub done: bool,
}

impl Records {
    /// The next record: nothing at the end of the sequence, otherwise one
    /// parsed record or the error that ends the sequence.
    pub fn next(&mut self) -> (r: Option<Result<Record, Error>>)
        requires
            old(self).reader.wf(),
        ensures
            final(self).reader.wf(),
            old(self).done ==> (r is None && *final(self) == *old(self)),
            (!old(self).done && parse_one(old(self).reader.remaining()) is AtEnd) ==> (r is None
                && final(self).done),
            (!old(self).done && parse_one(old(self).reader.remaining()) is BadHeader) ==> (r
                == Option::<Result<Record, Error>>::Some(Err(Error::Format)) && final(self).done),
            !old(self).done ==> (parse_one(old(self).reader.remaining()) matches ParseStep::Rec {
                header,
                body,
                rest,
            } ==> ({
                &&& r matches Some(rr)
                &&& rr matches Ok(rec)
                &&& rec.header@ == header
                &&& rec.seq@ == body
                &&& final(self).reader.remaining() == rest
                &&& !final(self).done
            })),
    {
        if self.done {
            return None;
        }
        let mut record = Record::new();
        match self.reader.read(&mut record) {
            Ok(()) => {
                proof {
                    if parse_one(old(self).reader.remaining()) matches ParseStep::Rec {
                        header,
                        body,
                        rest,
                    } {
                        lemma_take_line_shape(old(self).reader.remaining());
                    }
                }
                if record.is_empty() {
                    self.done = true;
                    None
                } else {
                    Some(Ok(record))
                }
            },
            Err(e) => {
                self.done = true;
                Some(Err(e))
            },
        }
    }
}


/// The unconsumed rest that `take_body` leaves is part of the stream it was
/// given.
pub proof fn lemma_take_body_rest_len(s: Seq<u8>)
    ensures
        take_body(s).1.len() <= s.len(),
    decreases s.len(),
{
    if s.len() > 0 {
        lemma_take_line_shape(s);
        if take_line(s).0[0] != GT {
            lemma_take_body_rest_len(take_line(s).1);
        }
    }
}

/// Parses a whole stream: every record in order, or nothing when any record
/// fails. Each element pairs a raw header line with its sequence bytes.
pub open spec fn parse_all(s: Seq<u8>) -> Option<Seq<(Seq<u8>, Seq<u8>)>>
    decreases s.len(),
    via parse_all_decreases
{
    match parse_one(s) {
        ParseStep::AtEnd => Some(Seq::empty()),
        ParseStep::BadHeader => None,
        ParseStep::Rec { header, body, rest } => match parse_all(rest) {
            None => None,
            Some(rs) => Some(seq![(header, body)] + rs),
        },
    }
}

#[via_fn]
proof fn parse_all_decreases(s: Seq<u8>) {
    if s.len() > 0 {
        lemma_take_line_shape(s);
        lemma_take_body_rest_len(take_line(s).1);
    }
}

/// One well-formed FASTA block: the header line's text after `>`, and the
/// sequence lines as the block stores them.
pub struct FastaBlock {
    /// The header line between the leading `>` and the terminator.
    pub header_rest: Seq<u8>,
    /// The sequence lines, each without its terminator.
    pub lines: Seq<Seq<u8>>,
}

/// A sequence line of a block: no terminator inside, not a header line, and
/// not ending in a carriage return (which reading would strip).
pub open spec fn body_line_wf(l: Seq<u8>) -> bool {
    &&& forall|j: int| 0 <= j < l.len() ==> l[j] != NL
    &&& (l.len() > 0 ==> l[0] != GT)
    &&& (l.len() > 0 ==> l.last() != CR)
}

/// A well-formed block: a single header line and well-formed sequence lines.
pub open spec fn block_wf(b: FastaBlock) -> bool {
    &&& forall|j: int| 0 <= j < b.header_rest.len() ==> b.header_rest[j] != NL
    &&& forall|i: int| 0 <= i < b.lines.len() ==> body_line_wf(#[trigger] b.lines[i])
}

/// The raw header line of a block.
pub open spec fn block_header(b: FastaBlock) -> Seq<u8> {
    seq![GT] + b.header_rest + seq![NL]
}

/// The bytes of a block's sequence lines, each line terminated.
pub open spec fn body_bytes(ls: Seq<Seq<u8>>) -> Seq<u8>
    decreases ls.len(),
{
    if ls.len() == 0 {
        Seq::empty()
    } else {
        ls.first() + seq![NL] + body_bytes(ls.drop_first())
    }
}

/// The logical sequence of a block: its lines concatenated.
pub open spec fn block_seq_bytes(ls: Seq<Seq<u8>>) -> Seq<u8>
    decreases ls.len(),
{
    if ls.len() == 0 {
        Seq::empty()
    } else {
        ls.first() + block_seq_bytes(ls.drop_first())
    }
}

/// The bytes of one block as they stand in a stream.
pub open spec fn block_bytes(b: FastaBlock) -> Seq<u8> {
    block_header(b) + body_bytes(b.lines)
}

/// The bytes of a stream made of blocks.
pub open spec fn stream_bytes(bs: Seq<FastaBlock>) -> Seq<u8>
    decreases bs.len(),
{
    if bs.len() == 0 {
        Seq::empty()
    } else {
        block_bytes(bs.first()) + stream_bytes(bs.drop_first())
    }
}

/// Consuming a block's sequence lines takes exactly its logical sequence and
/// leaves the following stream untouched.
pub proof fn lemma_take_body_lines(ls: Seq<Seq<u8>>, t: Seq<u8>)
    requires
        forall|i: int| 0 <= i < ls.len() ==> body_line_wf(#[trigger] ls[i]),
        t.len() > 0 ==> t[0] == GT,
    ensures
        take_body(body_bytes(ls) + t).0 == block_seq_bytes(ls),
        take_body(body_bytes(ls) + t).1 == t,
    decreases ls.len(),
{
    if ls.len() == 0 {
        assert(body_bytes(ls) + t =~= t);
        if t.len() > 0 {
            lemma_take_line_shape(t);
        }
        assert(take_body(body_bytes(ls) + t).0 =~= block_seq_bytes(ls));
    } else {
        let l0 = ls.first();
        let line = l0 + seq![NL];
        let rest = body_bytes(ls.drop_first()) + t;
        assert(body_line_wf(ls[0]));
        assert(body_bytes(ls) + t =~= line + rest);
        assert forall|j: int| 0 <= j < line.len() - 1 implies line[j] != NL by {
            assert(line[j] == l0[j]);
        }
        assert(line.last() == NL);
        lemma_take_line_buffered(line, rest);
        if l0.len() > 0 {
            assert(line[0] == l0[0]);
        } else {
            assert(line[0] == NL);
        }
        assert(line[0] != GT);
        assert(line.drop_last() =~= l0);
        assert(chomp(line) == l0);
        assert forall|i: int| 0 <= i < ls.drop_first().len() implies body_line_wf(
            #[trigger] ls.drop_first()[i],
        ) by {
            assert(ls.drop_first()[i] == ls[i + 1]);
        }
        lemma_take_body_lines(ls.drop_first(), t);
        assert(take_body(line + rest).0 == chomp(line) + take_body(rest).0);
        assert(take_body(body_bytes(ls) + t).0 =~= block_seq_bytes(ls));
    }
}

/// Parsing a stream that starts with a well-formed block takes exactly that
/// block's record off the front.
pub proof fn lemma_parse_one_block(b: FastaBlock, t: Seq<u8>)
    requires
        block_wf(b),
        t.len() > 0 ==> t[0] == GT,
    ensures
        parse_one(block_bytes(b) + t) == (ParseStep::Rec {
            header: block_header(b),
            body: block_seq_bytes(b.lines),
            rest: t,
        }),
{
    let h = block_header(b);
    let rest = body_bytes(b.lines) + t;
    assert(block_bytes(b) + t =~= h + rest);
    assert forall|j: int| 0 <= j < h.len() - 1 implies h[j] != NL by {
        if j > 0 {
            assert(h[j] == b.header_rest[j - 1]);
        }
    }
    assert(h.last() == NL);
    lemma_take_line_buffered(h, rest);
    assert(h[0] == GT);
    assert((h + rest).len() > 0);
    lemma_take_body_lines(b.lines, t);
}

/// Law: a stream composed of zero or more well-formed blocks parses without
/// error into exactly one record per block — the block's raw header line and
/// its concatenated sequence lines.
pub proof fn lemma_parse_stream_of_blocks(bs: Seq<FastaBlock>)
    requires
        forall|i: int| 0 <= i < bs.len() ==> block_wf(#[trigger] bs[i]),
    ensures
        parse_all(stream_bytes(bs)) is Some,
        parse_all(stream_bytes(bs))->Some_0.len() == bs.len(),
        forall|i: int|
            0 <= i < bs.len() ==> #[trigger] parse_all(stream_bytes(bs))->Some_0[i] == (
            block_header(bs[i]),
            block_seq_bytes(bs[i].lines),
            ),
    decreases bs.len(),
{
    if bs.len() == 0 {
        assert(stream_bytes(bs).len() == 0);
    } else {
        let b0 = bs.first();
        let t = stream_bytes(bs.drop_first());
        if bs.drop_first().len() > 0 {
            let b1 = bs.drop_first().first();
            assert(t == block_bytes(b1) + stream_bytes(bs.drop_first().drop_first()));
            assert(block_bytes(b1)[0] == GT);
            assert(t[0] == GT);
        }
        assert(block_wf(bs[0]));
        lemma_parse_one_block(b0, t);
        assert(stream_bytes(bs) == block_bytes(b0) + t);
        assert forall|i: int| 0 <= i < bs.drop_first().len() implies block_wf(
            #[trigger] bs.drop_first()[i],
        ) by {
            assert(bs.drop_first()[i] == bs[i + 1]);
        }
        lemma_parse_stream_of_blocks(bs.drop_first());
        let rs = parse_all(t)->Some_0;
        assert(parse_all(stream_bytes(bs)) == Some(
            seq![(block_header(b0), block_seq_bytes(b0.lines))] + rs,
        ));
        let whole = seq![(block_header(b0), block_seq_bytes(b0.lines))] + rs;
        assert forall|i: int| 0 <= i < bs.len() implies #[trigger] whole[i] == (
            block_header(bs[i]),
            block_seq_bytes(bs[i].lines),
        ) by {
            if i > 0 {
                assert(whole[i] == rs[i - 1]);
                assert(bs.drop_first()[i - 1] == bs[i]);
            }
        }
    }
}

} // verus!

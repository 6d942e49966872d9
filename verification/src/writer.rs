//! Serialization of records back to FASTA text. The emitted form is always
//! `>`, the id, a space before each description, a line terminator, the raw
//! sequence bytes on a single unwrapped line, and a final terminator.

use vstd::prelude::*;

use crate::bytes::CR;
use crate::bytes::GT;
use crate::bytes::NL;
use crate::bytes::SP;
use crate::bytes::is_ws;
use crate::reader::FastaBlock;
use crate::reader::ParseStep;
use crate::reader::block_bytes;
use crate::reader::block_header;
use crate::reader::block_seq_bytes;
use crate::reader::block_wf;
use crate::reader::body_bytes;
use crate::reader::body_line_wf;
use crate::reader::lemma_parse_one_block;
use crate::reader::parse_one;
use crate::record::lemma_tokens_token_prefix;
use crate::record::tokens;
use crate::bytes::push_range;
use crate::error::Error;
use crate::record::Record;
use crate::record::spec_desc;
use crate::record::spec_id;

verus! {

broadcast use vstd::seq_lib::lemma_seq_skip_index, vstd::seq_lib::lemma_seq_take_index,
    vstd::seq_lib::lemma_seq_skip_len, vstd::seq_lib::lemma_seq_take_len;

/// The bytes a description list contributes to a header line: a space before
/// each description.
pub open spec fn desc_bytes(ds: Seq<Seq<u8>>) -> Seq<u8>
    decreases ds.len(),
{
    if ds.len() == 0 {
        Seq::empty()
    } else {
        seq![SP] + ds.first() + desc_bytes(ds.drop_first())
    }
}

pub proof fn lemma_desc_bytes_snoc(ds: Seq<Seq<u8>>, x: Seq<u8>)
    ensures
        desc_bytes(ds.push(x)) == desc_bytes(ds) + seq![SP] + x,
    decreases ds.len(),
{
    let p = ds.push(x);
    assert(p.len() == ds.len() + 1);
    if ds.len() == 0 {
        assert(p.first() == x);
        assert(p.drop_first() =~= Seq::<Seq<u8>>::empty());
        assert(desc_bytes(p) == seq![SP] + p.first() + desc_bytes(p.drop_first()));
        assert(desc_bytes(p.drop_first()) =~= Seq::<u8>::empty());
        assert(desc_bytes(ds) =~= Seq::<u8>::empty());
        assert(desc_bytes(p) =~= desc_bytes(ds) + seq![SP] + x);
    } else {
        assert(p.first() == ds.first());
        assert(p.drop_first() =~= ds.drop_first().push(x));
        lemma_desc_bytes_snoc(ds.drop_first(), x);
        assert(desc_bytes(p) == seq![SP] + p.first() + desc_bytes(p.drop_first()));
        assert(desc_bytes(p.drop_first()) == desc_bytes(ds.drop_first()) + seq![SP] + x);
        assert(desc_bytes(ds) == seq![SP] + ds.first() + desc_bytes(ds.drop_first()));
        assert(desc_bytes(p) =~= desc_bytes(ds) + seq![SP] + x);
    }
}

/// The exact bytes the writer emits for one record.
pub open spec fn rendered(id: Seq<u8>, ds: Seq<Seq<u8>>, sq: Seq<u8>) -> Seq<u8> {
    seq![GT] + id + desc_bytes(ds) + seq![NL] + sq + seq![NL]
}

/// The record id a writer falls back on: the header's id token, or nothing.
pub open spec fn id_or_empty(h: Seq<u8>) -> Seq<u8> {
    match spec_id(h) {
        Some(i) => i,
        None => Seq::empty(),
    }
}

/// A FASTA writer around an in-memory byte sink.
pub struct Writer {
    /// Everything written so far.
    pub out: Vec<u8>,
}

impl Writer {
    /// A writer with an empty sink.
    pub fn new() -> (r: Self)
        ensures
            r.out@ == Seq::<u8>::empty(),
    {
        Writer { out: Vec::new() }
    }

    /// Writes one record from explicit id, description and sequence values.
    pub fn write(&mut self, id: &[u8], desc: &Vec<Vec<u8>>, seq: &[u8]) -> (r: Result<(), Error>)
        ensures
            r is Ok,
            final(self).out@ == old(self).out@ + rendered(id@, desc.deep_view(), seq@),
    {
        let ghost base = self.out@;
        self.out.push(GT);
        push_range(&mut self.out, id, 0, id.len());
        proof {
            assert(id@.subrange(0, id@.len() as int) =~= id@);
            assert(self.out@ =~= base + seq![GT] + id@);
            assert(desc.deep_view().take(0) =~= Seq::<Seq<u8>>::empty());
            assert(base + seq![GT] + id@ + desc_bytes(desc.deep_view().take(0)) =~= base
                + seq![GT] + id@);
        }
        let mut d: usize = 0;
        while d < desc.len()
            invariant
                d <= desc@.len(),
                self.out@ == base + seq![GT] + id@ + desc_bytes(desc.deep_view().take(d as int)),
            decreases desc@.len() - d,
        {
            self.out.push(SP);
            let dd = &desc[d];
            push_range(&mut self.out, dd.as_slice(), 0, dd.len());
            proof {
                assert(dd@.subrange(0, dd@.len() as int) =~= dd@);
                assert(desc.deep_view()[d as int] == desc@[d as int].deep_view());
                assert(desc@[d as int].deep_view() =~= dd@);
                assert(desc.deep_view().take(d + 1) =~= desc.deep_view().take(d as int).push(dd@));
                lemma_desc_bytes_snoc(desc.deep_view().take(d as int), dd@);
                assert(self.out@ =~= base + seq![GT] + id@ + desc_bytes(
                    desc.deep_view().take(d + 1),
                ));
            }
            d = d + 1;
        }
        proof {
            assert(desc.deep_view().take(desc@.len() as int) =~= desc.deep_view());
        }
        self.out.push(NL);
        push_range(&mut self.out, seq, 0, seq.len());
        self.out.push(NL);
        proof {
            assert(seq@.subrange(0, seq@.len() as int) =~= seq@);
            assert(self.out@ =~= old(self).out@ + rendered(id@, desc.deep_view(), seq@));
        }
        Ok(())
    }

    /// Writes one record, deriving id, descriptions and sequence from its
    /// accessors; a record without an id token is written with an empty id.
    pub fn write_record(&mut self, record: Record) -> (r: Result<(), Error>)
        ensures
            r is Ok,
            final(self).out@ == old(self).out@ + rendered(
                id_or_empty(record.header@),
                spec_desc(record.header@),
                record.seq@,
            ),
    {
        let id = match record.id() {
            Some(v) => v,
            None => Vec::new(),
        };
        let ds = record.desc();
        proof {
            assert(id@ =~= id_or_empty(record.header@));
        }
        self.write(id.as_slice(), &ds, record.seq())
    }

    /// Forces buffered bytes out. The in-memory sink holds everything as soon
    /// as it is written, so this changes nothing.
    pub fn flush(&mut self) -> (r: Result<(), Error>)
        ensures
            r is Ok,
            final(self).out@ == old(self).out@,
    {
        Ok(())
    }
}


/// The description bytes hold no terminator when no description does.
proof fn lemma_desc_bytes_no_nl(ds: Seq<Seq<u8>>)
    requires
        forall|i: int, j: int| 0 <= i < ds.len() && 0 <= j < ds[i].len() ==> !is_ws(#[trigger] ds[i][j]),
    ensures
        forall|j: int| 0 <= j < desc_bytes(ds).len() ==> desc_bytes(ds)[j] != NL,
    decreases ds.len(),
{
    if ds.len() > 0 {
        assert forall|i: int, j: int|
            0 <= i < ds.drop_first().len() && 0 <= j < ds.drop_first()[i].len() implies !is_ws(
            #[trigger] ds.drop_first()[i][j],
        ) by {
            assert(ds.drop_first()[i] == ds[i + 1]);
        }
        lemma_desc_bytes_no_nl(ds.drop_first());
        assert forall|j: int| 0 <= j < desc_bytes(ds).len() implies desc_bytes(ds)[j] != NL by {
            let d0 = ds.first();
            if j == 0 {
            } else if j < 1 + d0.len() {
                assert(desc_bytes(ds)[j] == d0[j - 1]);
                assert(!is_ws(ds[0][j - 1]));
            } else {
                assert(desc_bytes(ds)[j] == desc_bytes(ds.drop_first())[j - 1 - d0.len()]);
            }
        }
    }
}

/// Tokenizing the description bytes followed by the terminator gives back
/// exactly the descriptions.
proof fn lemma_tokens_desc(ds: Seq<Seq<u8>>)
    requires
        forall|i: int| 0 <= i < ds.len() ==> #[trigger] ds[i].len() > 0,
        forall|i: int, j: int| 0 <= i < ds.len() && 0 <= j < ds[i].len() ==> !is_ws(#[trigger] ds[i][j]),
    ensures
        tokens(desc_bytes(ds) + seq![NL]) == ds,
    decreases ds.len(),
{
    if ds.len() == 0 {
        let s = desc_bytes(ds) + seq![NL];
        assert(s =~= seq![NL]);
        assert(is_ws(s[0]));
        assert(s.skip(1) =~= Seq::<u8>::empty());
        assert(s.skip(1).len() == 0);
        assert(tokens(s) == tokens(s.skip(1)));
        assert(tokens(s.skip(1)) =~= Seq::<Seq<u8>>::empty());
        assert(tokens(s) =~= ds);
    } else {
        let d0 = ds.first();
        let tail = desc_bytes(ds.drop_first()) + seq![NL];
        let s = desc_bytes(ds) + seq![NL];
        assert(s =~= seq![SP] + (d0 + tail));
        assert(is_ws(s[0]));
        assert(s.skip(1) =~= d0 + tail);
        assert(ds[0].len() > 0);
        assert forall|j: int| 0 <= j < d0.len() implies !is_ws(d0[j]) by {
            assert(!is_ws(ds[0][j]));
        }
        if ds.drop_first().len() == 0 {
            assert(tail =~= seq![NL]);
            assert(is_ws(tail[0]));
        } else {
            assert(desc_bytes(ds.drop_first())[0] == SP);
            assert(tail[0] == SP);
        }
        lemma_tokens_token_prefix(d0, tail);
        assert forall|i: int| 0 <= i < ds.drop_first().len() implies #[trigger] ds.drop_first()[i].len()
            > 0 by {
            assert(ds.drop_first()[i] == ds[i + 1]);
        }
        assert forall|i: int, j: int|
            0 <= i < ds.drop_first().len() && 0 <= j < ds.drop_first()[i].len() implies !is_ws(
            #[trigger] ds.drop_first()[i][j],
        ) by {
            assert(ds.drop_first()[i] == ds[i + 1]);
        }
        lemma_tokens_desc(ds.drop_first());
        assert(tokens(s) == seq![d0] + ds.drop_first());
        assert(seq![d0] + ds.drop_first() =~= ds);
    }
}

/// Law: writing a record and parsing the emitted bytes gives back the same
/// id, descriptions and sequence bytes, and consumes the whole emission.
/// Wrapping is not preserved — the writer emits the sequence on one line —
/// and the law asks what a FASTA header can carry: a non-empty id and
/// descriptions without whitespace, and a sequence without terminators that
/// does not start with `>` (such a line would read as a header) and does not
/// end in a carriage return (which reading strips).
pub proof fn lemma_write_read_round_trip(id: Seq<u8>, ds: Seq<Seq<u8>>, sq: Seq<u8>)
    requires
        id.len() > 0,
        forall|j: int| 0 <= j < id.len() ==> !is_ws(#[trigger] id[j]),
        forall|i: int| 0 <= i < ds.len() ==> #[trigger] ds[i].len() > 0,
        forall|i: int, j: int| 0 <= i < ds.len() && 0 <= j < ds[i].len() ==> !is_ws(#[trigger] ds[i][j]),
        forall|k: int| 0 <= k < sq.len() ==> sq[k] != NL,
        sq.len() > 0 ==> sq[0] != GT,
        sq.len() > 0 ==> sq.last() != CR,
    ensures
        ({
            &&& parse_one(rendered(id, ds, sq)) matches ParseStep::Rec { header, body, rest }
            &&& spec_id(header) == Some(id)
            &&& spec_desc(header) == ds
            &&& body == sq
            &&& rest == Seq::<u8>::empty()
        }),
{
    let hr = id + desc_bytes(ds);
    let b = FastaBlock { header_rest: hr, lines: seq![sq] };
    assert(block_wf(b)) by {
        lemma_desc_bytes_no_nl(ds);
        assert forall|j: int| 0 <= j < hr.len() implies hr[j] != NL by {
            if j < id.len() {
                assert(hr[j] == id[j]);
                assert(!is_ws(id[j]));
            } else {
                assert(hr[j] == desc_bytes(ds)[j - id.len()]);
            }
        }
        assert(body_line_wf(b.lines[0]));
    }
    assert(b.lines.first() == sq);
    assert(b.lines.drop_first() =~= Seq::<Seq<u8>>::empty());
    assert(body_bytes(b.lines.drop_first()) =~= Seq::<u8>::empty());
    assert(block_seq_bytes(b.lines.drop_first()) =~= Seq::<u8>::empty());
    assert(body_bytes(b.lines) =~= sq + seq![NL]);
    assert(block_bytes(b) + Seq::<u8>::empty() =~= rendered(id, ds, sq));
    lemma_parse_one_block(b, Seq::empty());
    assert(block_seq_bytes(b.lines) =~= sq);
    let h = block_header(b);
    assert(h.skip(1) =~= id + (desc_bytes(ds) + seq![NL]));
    let tail = desc_bytes(ds) + seq![NL];
    if ds.len() == 0 {
        assert(tail =~= seq![NL]);
        assert(is_ws(tail[0]));
    } else {
        assert(desc_bytes(ds)[0] == SP);
        assert(tail[0] == SP);
    }
    lemma_tokens_token_prefix(id, tail);
    lemma_tokens_desc(ds);
    assert(tokens(h.skip(1)) == seq![id] + ds);
    assert((seq![id] + ds)[0] == id);
    assert(spec_id(h) == Some(id));
    if ds.len() == 0 {
        assert(spec_desc(h) =~= ds);
    } else {
        assert(spec_desc(h) =~= (seq![id] + ds).skip(1));
        assert((seq![id] + ds).skip(1) =~= ds);
    }
}

} // verus!

//! Random access over an indexed FASTA file: a logical base-pair coordinate
//! is mapped to a physical byte position by pure arithmetic over the entry's
//! line-wrapping layout, so a range read never scans the file.

use vstd::prelude::*;
use vstd::arithmetic::overflow::CheckedU64;

use crate::error::Error;
use crate::index::Index;
use crate::index::IndexRecord;
use crate::index::entry_ok;
use crate::index::find_entry;
use crate::index::parse_fai;
use crate::index::rows_lookup;

verus! {

broadcast use vstd::seq_lib::lemma_seq_skip_index, vstd::seq_lib::lemma_seq_take_index,
    vstd::seq_lib::lemma_seq_skip_len, vstd::seq_lib::lemma_seq_take_len;

/// The physical byte position of base `k` of a sequence laid out as `e`
/// says: whole wrapped lines of `line_bytes` bytes, then the column within
/// the line.
pub open spec fn phys(e: IndexRecord, k: int) -> int {
    e.offset + (k / e.line_bases as int) * e.line_bytes + k % e.line_bases as int
}

/// Every base of `[start, stop)` lies inside the data.
pub open spec fn range_in_file(data: Seq<u8>, e: IndexRecord, start: int, stop: int) -> bool {
    forall|k: int| start <= k < stop ==> phys(e, k) < data.len()
}

/// The bytes of bases `[start, stop)` in file order.
pub open spec fn extracted(data: Seq<u8>, e: IndexRecord, start: int, stop: int) -> Seq<u8> {
    Seq::new((stop - start) as nat, |i: int| data[phys(e, start + i)])
}

/// Law: when an entry correctly places every base of a stored sequence —
/// base `k` lies at `phys(e, k)` — a successful range read returns exactly
/// `logical[start..stop]`; in particular, terminator bytes never reach the
/// result, however the range crosses wrapped lines.
pub proof fn lemma_read_range_exact(
    data: Seq<u8>,
    e: IndexRecord,
    logical: Seq<u8>,
    start: int,
    stop: int,
)
    requires
        logical.len() == e.len,
        forall|k: int|
            0 <= k < e.len ==> phys(e, k) < data.len() && data[phys(e, k)] == logical[k],
        0 <= start <= stop <= e.len,
    ensures
        range_in_file(data, e, start, stop),
        extracted(data, e, start, stop) == logical.subrange(start, stop),
{
    assert forall|k: int| start <= k < stop implies phys(e, k) < data.len() by {
        assert(data[phys(e, k)] == logical[k]);
    }
    assert forall|i: int| 0 <= i < stop - start implies extracted(data, e, start, stop)[i]
        == logical.subrange(start, stop)[i] by {
        assert(data[phys(e, start + i)] == logical[start + i]);
    }
    assert(extracted(data, e, start, stop) =~= logical.subrange(start, stop));
}

/// A reader that owns an indexed FASTA file's bytes together with its index
/// and answers range queries by offset arithmetic.
pub struct IndexedReader {
    /// The data file's bytes.
    pub data: Vec<u8>,
    /// The index over those bytes.
    pub index: Index,
}

impl IndexedReader {
    /// A reader over `fasta` with an already-built index.
    pub fn with_index(fasta: Vec<u8>, index: Index) -> (r: Self)
        ensures
            r.data == fasta,
            r.index == index,
    {
        IndexedReader { data: fasta, index }
    }

    /// A reader over `fasta` whose index is built from the side-file bytes
    /// `fai`; a malformed side-file fails the whole construction.
    pub fn new(fasta: Vec<u8>, fai: &[u8]) -> (r: Result<Self, Error>)
        ensures
            (r is Ok) == (parse_fai(fai@) is Some),
            r matches Ok(ir) ==> ({
                &&& ir.data == fasta
                &&& ir.index.wf()
                &&& parse_fai(fai@) matches Some(rows)
                &&& forall|nm: Seq<u8>| find_entry(ir.index@, nm) == rows_lookup(rows, nm)
            }),
            r matches Err(e) ==> e == Error::Format,
    {
        match Index::new(fai) {
            Ok(index) => Ok(IndexedReader { data: fasta, index }),
            Err(e) => Err(e),
        }
    }

    /// Reads bases `[start, stop)` of the named sequence into `seq`,
    /// replacing its contents. `start` and `stop` are zero-based and the
    /// range is half-open. An entry whose layout columns cannot place a base
    /// is answered with a format error. On any error `seq` is left unchanged.
    pub fn read(&mut self, seqname: &[u8], start: u64, stop: u64, seq: &mut Vec<u8>) -> (r: Result<
        (),
        Error,
    >)
        ensures
            final(self).data == old(self).data,
            final(self).index == old(self).index,
            find_entry(old(self).index@, seqname@) is None ==> (r == Result::<(), Error>::Err(
                Error::UnknownSequence,
            ) && final(seq)@ == old(seq)@),
            find_entry(old(self).index@, seqname@) matches Some(e) ==> ({
                &&& !(start <= stop && stop <= e.len) ==> (r == Result::<(), Error>::Err(
                    Error::RangeOutOfBounds,
                ) && final(seq)@ == old(seq)@)
                &&& (start == stop && stop <= e.len) ==> (r == Result::<(), Error>::Ok(())
                    && final(seq)@ == Seq::<u8>::empty())
                &&& (start < stop && stop <= e.len && !entry_ok(e)) ==> (r == Result::<
                    (),
                    Error,
                >::Err(Error::Format) && final(seq)@ == old(seq)@)
                &&& (start < stop && stop <= e.len && entry_ok(e) && range_in_file(
                    old(self).data@,
                    e,
                    start as int,
                    stop as int,
                )) ==> (r == Result::<(), Error>::Ok(()) && final(seq)@ == extracted(
                    old(self).data@,
                    e,
                    start as int,
                    stop as int,
                ))
                &&& (start < stop && stop <= e.len && entry_ok(e) && !range_in_file(
                    old(self).data@,
                    e,
                    start as int,
                    stop as int,
                )) ==> (r == Result::<(), Error>::Err(Error::Truncated) && final(seq)@ == old(
                    seq,
                )@)
            }),
    {
        let ent = self.index.lookup(seqname);
        match ent {
            None => Err(Error::UnknownSequence),
            Some(e) => {
                if start > stop || stop > e.len {
                    return Err(Error::RangeOutOfBounds);
                }
                if start < stop && (e.line_bases == 0 || e.line_bases > e.line_bytes) {
                    return Err(Error::Format);
                }
                let dlen = self.data.len();
                let mut out: Vec<u8> = Vec::new();
                let mut k = start;
                while k < stop
                    invariant
                        start <= k <= stop,
                        stop <= e.len,
                        start < stop ==> entry_ok(e),
                        find_entry(old(self).index@, seqname@) == Some(e),
                        out@.len() == k - start,
                        forall|i: int|
                            0 <= i < k - start ==> #[trigger] phys(e, start + i)
                                < self.data@.len(),
                        forall|i: int|
                            0 <= i < k - start ==> #[trigger] out@[i] == self.data@[phys(
                                e,
                                start + i,
                            )],
                        self.data@ == old(self).data@,
                        self.index == old(self).index,
                        dlen == self.data@.len(),
                        dlen <= usize::MAX,
                    decreases stop - k,
                {
                    let q = k / e.line_bases;
                    let rm = k % e.line_bases;
                    let pos_c = CheckedU64::new(q).mul_value(e.line_bytes).add_value(
                        e.offset,
                    ).add_value(rm);
                    proof {
                        assert(pos_c@ == phys(e, k as int));
                        assert(usize::MAX as int <= u64::MAX as int);
                    }
                    match pos_c.to_option() {
                        None => {
                            proof {
                                assert(phys(e, k as int) > u64::MAX);
                                assert(phys(e, k as int) >= old(self).data@.len());
                                assert(!range_in_file(
                                    old(self).data@,
                                    e,
                                    start as int,
                                    stop as int,
                                ));
                            }
                            return Err(Error::Truncated);
                        },
                        Some(p) => {
                            if p >= (dlen as u64) {
                                proof {
                                    assert(phys(e, k as int) >= self.data@.len());
                                    assert(!range_in_file(
                                        old(self).data@,
                                        e,
                                        start as int,
                                        stop as int,
                                    ));
                                }
                                return Err(Error::Truncated);
                            }
                            let b = self.data[p as usize];
                            let ghost prev_out = out@;
                            out.push(b);
                            proof {
                                assert(p as int == phys(e, k as int));
                                assert forall|i: int| 0 <= i < k + 1 - start implies #[trigger] phys(
                                    e,
                                    start + i,
                                ) < self.data@.len() by {
                                    if i == k - start {
                                        assert(start + i == k as int);
                                    }
                                }
                                assert forall|i: int| 0 <= i < k + 1 - start implies #[trigger] out@[i]
                                    == self.data@[phys(e, start + i)] by {
                                    if i < k - start {
                                        assert(out@[i] == prev_out[i]);
                                        assert(phys(e, start + i) < self.data@.len());
                                    } else {
                                        assert(start + i == k as int);
                                    }
                                }
                            }
                        },
                    }
                    k = k + 1;
                }
                proof {
                    assert forall|kk: int| start <= kk < stop implies phys(e, kk) < old(
                        self,
                    ).data@.len() by {
                        let i = kk - start;
                        assert(phys(e, start + i) < self.data@.len());
                    }
                    assert(out@ =~= extracted(old(self).data@, e, start as int, stop as int));
                }
                seq.clear();
                seq.append(&mut out);
                proof {
                    assert(seq@ =~= extracted(old(self).data@, e, start as int, stop as int));
                }
                Ok(())
            },
        }
    }

    /// Reads the whole named sequence into `seq`, replacing its contents.
    pub fn read_all(&mut self, seqname: &[u8], seq: &mut Vec<u8>) -> (r: Result<(), Error>)
        ensures
            final(self).data == old(self).data,
            final(self).index == old(self).index,
            find_entry(old(self).index@, seqname@) is None ==> (r == Result::<(), Error>::Err(
                Error::UnknownSequence,
            ) && final(seq)@ == old(seq)@),
            find_entry(old(self).index@, seqname@) matches Some(e) ==> ({
                &&& e.len == 0 ==> (r == Result::<(), Error>::Ok(()) && final(seq)@ == Seq::<
                    u8,
                >::empty())
                &&& (e.len > 0 && !entry_ok(e)) ==> (r == Result::<(), Error>::Err(Error::Format)
                    && final(seq)@ == old(seq)@)
                &&& (e.len > 0 && entry_ok(e) && range_in_file(old(self).data@, e, 0, e.len as int))
                    ==> (r == Result::<(), Error>::Ok(()) && final(seq)@ == extracted(
                    old(self).data@,
                    e,
                    0,
                    e.len as int,
                ))
                &&& (e.len > 0 && entry_ok(e) && !range_in_file(old(self).data@, e, 0, e.len as int))
                    ==> (r == Result::<(), Error>::Err(Error::Truncated) && final(seq)@ == old(
                    seq,
                )@)
            }),
    {
        let ent = self.index.lookup(seqname);
        match ent {
            None => Err(Error::UnknownSequence),
            Some(e) => self.read(seqname, 0, e.len, seq),
        }
    }
}

} // verus!

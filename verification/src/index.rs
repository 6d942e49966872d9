//! The index side-file: a tab-separated table with one row per sequence —
//! `name, length, offset, line_bases, line_bytes` — that records where each
//! sequence's bases lie in the data file and how they are line-wrapped.
//! A malformed row fails the whole build; lookups never see a partial index.

use vstd::prelude::*;
use vstd::pervasive::VecAdditionalExecFns;

use crate::bytes::CR;
use crate::bytes::NL;
use crate::bytes::TAB;
use crate::bytes::find_byte;
use crate::bytes::lemma_find_byte_props;
use crate::bytes::lemma_lex_lt_irrefl;
use crate::bytes::lemma_lex_lt_trans;
use crate::bytes::lex_cmp;
use crate::bytes::lex_lt;
use crate::bytes::NameOrder;
use crate::bytes::push_range;
use crate::bytes::scan_byte;
use crate::error::Error;

verus! {

broadcast use vstd::seq_lib::lemma_seq_skip_index, vstd::seq_lib::lemma_seq_take_index,
    vstd::seq_lib::lemma_seq_skip_len, vstd::seq_lib::lemma_seq_take_len;

/// The layout of one indexed sequence: its total number of bases, the byte
/// offset of its first base in the data file, the bases per wrapped line and
/// the bytes per wrapped line (terminator included).
#[derive(Clone, Copy, Debug, PartialEq, Eq, Structural)]
pub struct IndexRecord {
    /// Total bases of the sequence.
    pub len: u64,
    /// Byte offset of the first base in the data file.
    pub offset: u64,
    /// Bases per wrapped line, the terminator excluded.
    pub line_bases: u64,
    /// Bytes per wrapped line, the terminator included.
    pub line_bytes: u64,
}

/// A record can only place bases in a file when a non-empty sequence has a
/// positive wrap width that is no wider than the physical line. A row that
/// violates this is still stored; range reads answer it with a format error.
pub open spec fn entry_ok(e: IndexRecord) -> bool {
    e.len > 0 ==> 1 <= e.line_bases && e.line_bases <= e.line_bytes
}

/// One line of the sequence listing: a name and the sequence's length.
pub struct Sequence {
    /// The sequence name.
    pub name: Vec<u8>,
    /// Total bases of the sequence.
    pub len: u64,
}

/// The named rows an index holds, in storage order.
pub open spec fn entries_view(es: Seq<(Vec<u8>, IndexRecord)>) -> Seq<(Seq<u8>, IndexRecord)> {
    Seq::new(es.len(), |i: int| (es[i].0@, es[i].1))
}

/// The record stored under `name`, by first match in storage order.
pub open spec fn find_entry(s: Seq<(Seq<u8>, IndexRecord)>, name: Seq<u8>) -> Option<IndexRecord>
    decreases s.len(),
{
    if s.len() == 0 {
        None
    } else if s[0].0 == name {
        Some(s[0].1)
    } else {
        find_entry(s.skip(1), name)
    }
}

/// Names strictly ascending in lexicographic order; this also makes them
/// pairwise distinct.
pub open spec fn names_sorted(s: Seq<(Seq<u8>, IndexRecord)>) -> bool {
    forall|i: int, j: int| 0 <= i < j < s.len() ==> lex_lt(s[i].0, s[j].0)
}

pub proof fn lemma_find_entry_none_iff(s: Seq<(Seq<u8>, IndexRecord)>, name: Seq<u8>)
    ensures
        (find_entry(s, name) is None) == (forall|k: int| 0 <= k < s.len() ==> s[k].0 != name),
    decreases s.len(),
{
    if s.len() > 0 && s[0].0 != name {
        lemma_find_entry_none_iff(s.skip(1), name);
        if find_entry(s, name) is None {
            assert forall|k: int| 0 <= k < s.len() implies s[k].0 != name by {
                if k > 0 {
                    assert(s.skip(1)[k - 1] == s[k]);
                }
            }
        } else {
            let k = choose|k: int| 0 <= k < s.skip(1).len() && s.skip(1)[k].0 == name;
            assert(s[k + 1] == s.skip(1)[k]);
        }
    }
}

pub proof fn lemma_find_entry_append(
    a: Seq<(Seq<u8>, IndexRecord)>,
    b: Seq<(Seq<u8>, IndexRecord)>,
    name: Seq<u8>,
)
    ensures
        find_entry(a + b, name) == (if find_entry(a, name) is Some {
            find_entry(a, name)
        } else {
            find_entry(b, name)
        }),
    decreases a.len(),
{
    if a.len() == 0 {
        assert(a + b =~= b);
    } else {
        assert((a + b)[0] == a[0]);
        assert((a + b).skip(1) =~= a.skip(1) + b);
        lemma_find_entry_append(a.skip(1), b, name);
    }
}

/// A decimal digit.
pub open spec fn is_digit(b: u8) -> bool {
    48 <= b <= 57
}

/// Every byte of `s` is a decimal digit.
pub open spec fn all_digits(s: Seq<u8>) -> bool {
    forall|i: int| 0 <= i < s.len() ==> is_digit(s[i])
}

/// The number that the digit string `s` denotes.
pub open spec fn dec_value(s: Seq<u8>) -> int
    decreases s.len(),
{
    if s.len() == 0 {
        0
    } else {
        dec_value(s.drop_last()) * 10 + (s.last() - 48)
    }
}

pub proof fn lemma_dec_value_nonneg(s: Seq<u8>)
    requires
        all_digits(s),
    ensures
        dec_value(s) >= 0,
    decreases s.len(),
{
    if s.len() > 0 {
        assert(all_digits(s.drop_last())) by {
            assert(forall|i: int| 0 <= i < s.len() - 1 ==> s.drop_last()[i] == s[i]);
        }
        lemma_dec_value_nonneg(s.drop_last());
    }
}

/// A digit string denotes at least as much as any of its prefixes.
pub proof fn lemma_dec_value_prefix_le(s: Seq<u8>, i: int)
    requires
        all_digits(s),
        0 <= i <= s.len(),
    ensures
        dec_value(s.take(i)) <= dec_value(s),
    decreases s.len() - i,
{
    assert(all_digits(s.take(i)));
    if i == s.len() {
        assert(s.take(i) =~= s);
    } else {
        assert(s.take(i + 1).drop_last() =~= s.take(i));
        assert(s.take(i + 1).last() == s[i]);
        assert(dec_value(s.take(i + 1)) == dec_value(s.take(i)) * 10 + (s[i] - 48));
        lemma_dec_value_nonneg(s.take(i));
        lemma_dec_value_prefix_le(s, i + 1);
    }
}

/// What a numeric field denotes: its value when it is a non-empty digit
/// string whose value fits in 64 bits, nothing otherwise.
pub open spec fn parse_u64_spec(s: Seq<u8>) -> Option<u64> {
    if s.len() > 0 && all_digits(s) && dec_value(s) <= u64::MAX {
        Some(dec_value(s) as u64)
    } else {
        None
    }
}

/// Parses an unsigned decimal field.
pub fn parse_u64(s: &[u8]) -> (r: Option<u64>)
    ensures
        r == parse_u64_spec(s@),
{
    if s.len() == 0 {
        return None;
    }
    let mut acc: u64 = 0;
    let mut i: usize = 0;
    proof {
        assert(s@.take(0) =~= Seq::<u8>::empty());
    }
    loop
        invariant
            0 <= i <= s@.len(),
            s@.len() > 0,
            forall|j: int| 0 <= j < i ==> is_digit(s@[j]),
            acc == dec_value(s@.take(i as int)),
        decreases s@.len() - i,
    {
        if i == s.len() {
            proof {
                assert(s@.take(i as int) =~= s@);
            }
            return Some(acc);
        }
        let b = s[i];
        if b < 48 || b > 57 {
            return None;
        }
        let d = (b - 48) as u64;
        proof {
            assert(s@.take(i + 1).drop_last() =~= s@.take(i as int));
            assert(s@.take(i + 1).last() == s@[i as int]);
            assert(dec_value(s@.take(i + 1)) == acc * 10 + d);
        }
        if acc > (u64::MAX - d) / 10 {
            proof {
                let m = (u64::MAX - d) as int;
                assert(m == 10 * (m / 10) + m % 10) by {
                    vstd::arithmetic::div_mod::lemma_fundamental_div_mod(m, 10);
                }
                assert(acc * 10 + d > u64::MAX);
                assert(all_digits(s@.take(i + 1)));
                if all_digits(s@) {
                    lemma_dec_value_prefix_le(s@, i + 1);
                    assert(dec_value(s@) > u64::MAX);
                }
            }
            return None;
        }
        proof {
            let m = (u64::MAX - d) as int;
            assert(m == 10 * (m / 10) + m % 10) by {
                vstd::arithmetic::div_mod::lemma_fundamental_div_mod(m, 10);
            }
            assert(acc * 10 <= m);
        }
        acc = acc * 10 + d;
        i = i + 1;
    }
}

/// `s` with one trailing carriage return removed.
pub open spec fn strip_cr(s: Seq<u8>) -> Seq<u8> {
    if s.len() > 0 && s.last() == CR {
        s.drop_last()
    } else {
        s
    }
}

/// The tab-separated fields of a line (which never holds a terminator).
pub open spec fn split_fields(s: Seq<u8>) -> Seq<Seq<u8>>
    decreases s.len(),
    via split_fields_decreases
{
    let t = find_byte(s, TAB);
    if t == s.len() {
        seq![s]
    } else {
        seq![s.take(t)] + split_fields(s.skip(t + 1))
    }
}

#[via_fn]
proof fn split_fields_decreases(s: Seq<u8>) {
    lemma_find_byte_props(s, TAB);
}

/// What one index row denotes: a name and a record, or nothing when the row
/// does not have exactly five columns or a numeric field is not a plain
/// decimal number. The layout columns are stored as given; whether they can
/// place a base is judged when a range is read.
pub open spec fn parse_row_spec(line: Seq<u8>) -> Option<(Seq<u8>, IndexRecord)> {
    let fs = split_fields(strip_cr(line));
    if fs.len() != 5 {
        None
    } else if parse_u64_spec(fs[1]) is Some && parse_u64_spec(fs[2]) is Some && parse_u64_spec(
        fs[3],
    ) is Some && parse_u64_spec(fs[4]) is Some {
        Some(
            (
                fs[0],
                IndexRecord {
                    len: parse_u64_spec(fs[1])->Some_0,
                    offset: parse_u64_spec(fs[2])->Some_0,
                    line_bases: parse_u64_spec(fs[3])->Some_0,
                    line_bytes: parse_u64_spec(fs[4])->Some_0,
                },
            ),
        )
    } else {
        None
    }
}

/// What a whole side-file denotes: its rows in file order, or nothing when
/// any row is malformed.
pub open spec fn parse_fai(s: Seq<u8>) -> Option<Seq<(Seq<u8>, IndexRecord)>>
    decreases s.len(),
    via parse_fai_decreases
{
    if s.len() == 0 {
        Some(Seq::empty())
    } else {
        let e = find_byte(s, NL);
        let line = s.take(e);
        let rest = if e < s.len() {
            s.skip(e + 1)
        } else {
            Seq::empty()
        };
        match parse_row_spec(line) {
            None => None,
            Some(row) => match parse_fai(rest) {
                None => None,
                Some(rows) => Some(seq![row] + rows),
            },
        }
    }
}

#[via_fn]
proof fn parse_fai_decreases(s: Seq<u8>) {
    lemma_find_byte_props(s, NL);
}

/// The record that a row list leaves under `name`: the last row with that
/// name wins, as later rows overwrite earlier ones.
pub open spec fn rows_lookup(
    rows: Seq<(Seq<u8>, IndexRecord)>,
    name: Seq<u8>,
) -> Option<IndexRecord>
    decreases rows.len(),
{
    if rows.len() == 0 {
        None
    } else if rows.last().0 == name {
        Some(rows.last().1)
    } else {
        rows_lookup(rows.drop_last(), name)
    }
}

/// The tab-separated fields of `line`, as owned byte strings.
fn split_row(line: &[u8]) -> (r: Vec<Vec<u8>>)
    ensures
        r.deep_view() == split_fields(line@),
{
    let mut fields: Vec<Vec<u8>> = Vec::new();
    let mut start: usize = 0;
    proof {
        assert(line@.skip(0) =~= line@);
        assert(fields.deep_view() + split_fields(line@) =~= split_fields(line@));
    }
    loop
        invariant
            start <= line@.len(),
            split_fields(line@) == fields.deep_view() + split_fields(line@.skip(start as int)),
        decreases line@.len() - start + 1,
    {
        let t = scan_byte(line, start, TAB);
        let mut f: Vec<u8> = Vec::new();
        push_range(&mut f, line, start, t);
        proof {
            assert(f@ =~= line@.subrange(start as int, t as int));
            assert(f.deep_view() =~= line@.subrange(start as int, t as int));
            assert(line@.skip(start as int).take(t - start) =~= line@.subrange(
                start as int,
                t as int,
            ));
        }
        let ghost old_fields = fields.deep_view();
        let ghost tail = line@.skip(start as int);
        fields.push(f);
        proof {
            assert(fields.deep_view() =~~= old_fields.push(line@.subrange(start as int, t as int)));
        }
        if t == line.len() {
            proof {
                assert(find_byte(tail, TAB) == tail.len());
                assert(split_fields(tail) == seq![tail]);
                assert(tail.take(t - start) =~= tail);
                assert(fields.deep_view() =~~= old_fields + seq![tail]);
            }
            return fields;
        }
        proof {
            assert(find_byte(tail, TAB) == t - start < tail.len());
            assert(tail.skip(t - start + 1) =~= line@.skip(t + 1));
            assert(split_fields(tail) == seq![tail.take(t - start)] + split_fields(
                line@.skip(t + 1),
            ));
            assert(fields.deep_view() + split_fields(line@.skip(t + 1)) =~~= old_fields + (seq![
                tail.take(t - start),
            ] + split_fields(line@.skip(t + 1))));
        }
        start = t + 1;
    }
}

/// Parses one index row into a name and a record.
fn parse_row(line: &[u8]) -> (r: Option<(Vec<u8>, IndexRecord)>)
    ensures
        (r is Some) == (parse_row_spec(line@) is Some),
        r matches Some(p) ==> parse_row_spec(line@) == Some((p.0@, p.1)),
{
    let n = line.len();
    let stripped: &[u8] = if n > 0 && line[n - 1] == CR {
        vstd::slice::slice_subrange(line, 0, n - 1)
    } else {
        line
    };
    proof {
        assert(stripped@ =~= strip_cr(line@));
    }
    let mut fields = split_row(stripped);
    if fields.len() != 5 {
        return None;
    }
    proof {
        assert(fields.deep_view()[0] =~= fields@[0]@);
        assert(fields.deep_view()[1] =~= fields@[1]@);
        assert(fields.deep_view()[2] =~= fields@[2]@);
        assert(fields.deep_view()[3] =~= fields@[3]@);
        assert(fields.deep_view()[4] =~= fields@[4]@);
    }
    let len = match parse_u64(fields[1].as_slice()) {
        Some(v) => v,
        None => {
            return None;
        },
    };
    let offset = match parse_u64(fields[2].as_slice()) {
        Some(v) => v,
        None => {
            return None;
        },
    };
    let line_bases = match parse_u64(fields[3].as_slice()) {
        Some(v) => v,
        None => {
            return None;
        },
    };
    let line_bytes = match parse_u64(fields[4].as_slice()) {
        Some(v) => v,
        None => {
            return None;
        },
    };
    let rec = IndexRecord { len, offset, line_bases, line_bytes };
    let name = fields.remove(0);
    Some((name, rec))
}

/// A mapping from sequence name to its layout record, built once from the
/// side-file and kept sorted by name.
#[derive(Debug)]
pub struct Index {
    /// The rows, sorted strictly ascending by name.
    pub entries: Vec<(Vec<u8>, IndexRecord)>,
}

impl View for Index {
    type V = Seq<(Seq<u8>, IndexRecord)>;

    open spec fn view(&self) -> Seq<(Seq<u8>, IndexRecord)> {
        entries_view(self.entries@)
    }
}

/// First position whose name is not lexicographically before `name`, and
/// whether the name there is `name` itself.
fn find_slot(entries: &Vec<(Vec<u8>, IndexRecord)>, name: &[u8]) -> (r: (usize, bool))
    ensures
        r.0 <= entries@.len(),
        forall|j: int| 0 <= j < r.0 ==> lex_lt(entries_view(entries@)[j].0, name@),
        r.1 ==> r.0 < entries@.len() && entries_view(entries@)[r.0 as int].0 == name@,
        (!r.1 && r.0 < entries@.len()) ==> lex_lt(name@, entries_view(entries@)[r.0 as int].0),
{
    let mut i: usize = 0;
    loop
        invariant
            i <= entries@.len(),
            forall|j: int| 0 <= j < i ==> lex_lt(entries_view(entries@)[j].0, name@),
        decreases entries@.len() - i,
    {
        if i == entries.len() {
            return (i, false);
        }
        match lex_cmp(entries[i].0.as_slice(), name) {
            NameOrder::Before => {
                i = i + 1;
            },
            NameOrder::Same => {
                return (i, true);
            },
            NameOrder::After => {
                return (i, false);
            },
        }
    }
}

impl Index {
    /// Stores `rec` under `name`, replacing what an earlier row put there.
    fn insert_row(&mut self, name: Vec<u8>, rec: IndexRecord)
        requires
            names_sorted(old(self)@),
        ensures
            names_sorted(final(self)@),
            forall|nm: Seq<u8>|
                find_entry(final(self)@, nm) == (if nm == name@ {
                    Some(rec)
                } else {
                    find_entry(old(self)@, nm)
                }),
    {
        let ghost pre = entries_view(self.entries@);
        let (i, found) = find_slot(&self.entries, name.as_slice());
        let ghost pair = (name@, rec);
        if found {
            self.entries.set(i, (name, rec));
        } else {
            self.entries.insert(i, (name, rec));
        }
        proof {
            let nv = entries_view(self.entries@);
            let gi = i as int;
            if found {
                assert(nv =~= pre.update(gi, pair));
            } else {
                assert(nv =~= pre.take(gi) + seq![pair] + pre.skip(gi));
            }
            // Sortedness of the result.
            assert forall|x: int, y: int| 0 <= x < y < nv.len() implies lex_lt(
                nv[x].0,
                nv[y].0,
            ) by {
                if found {
                    assert(pre[gi].0 == name@);
                } else {
                    if x < gi && y > gi {
                        assert(lex_lt(pre[x].0, name@));
                        if y - 1 > gi {
                        }
                    }
                    if x == gi && y > gi {
                        assert(lex_lt(name@, pre[gi].0));
                        if y - 1 > gi {
                            lemma_lex_lt_trans(name@, pre[gi].0, pre[y - 1].0);
                        }
                    }
                }
            }
            // The lookup table of the result.
            assert forall|nm: Seq<u8>|
                find_entry(nv, nm) == (if nm == name@ {
                    Some(rec)
                } else {
                    find_entry(pre, nm)
                }) by {
                let front = pre.take(gi);
                assert forall|k: int| 0 <= k < front.len() implies front[k].0 != name@ by {
                    assert(lex_lt(pre[k].0, name@));
                    if pre[k].0 == name@ {
                        lemma_lex_lt_irrefl(name@);
                    }
                }
                if found {
                    let back = pre.skip(gi + 1);
                    assert(nv =~= front + (seq![pair] + back));
                    assert(pre =~= front + (seq![pre[gi]] + back));
                    lemma_find_entry_append(front, seq![pair] + back, nm);
                    lemma_find_entry_append(front, seq![pre[gi]] + back, nm);
                    assert((seq![pair] + back).skip(1) =~= back);
                    assert((seq![pre[gi]] + back).skip(1) =~= back);
                    if nm == name@ {
                        lemma_find_entry_none_iff(front, nm);
                        assert(find_entry(nv, nm) == Some(rec));
                    } else {
                        assert(find_entry(nv, nm) == find_entry(pre, nm));
                    }
                } else {
                    let back = pre.skip(gi);
                    assert(nv =~= front + (seq![pair] + back));
                    assert(pre =~= front + back);
                    lemma_find_entry_append(front, seq![pair] + back, nm);
                    lemma_find_entry_append(front, back, nm);
                    assert((seq![pair] + back).skip(1) =~= back);
                    if nm == name@ {
                        lemma_find_entry_none_iff(front, nm);
                        assert(find_entry(nv, nm) == Some(rec));
                    } else {
                        assert(find_entry(nv, nm) == find_entry(pre, nm));
                    }
                }
            }
        }
    }

    /// Builds an index from the side-file's bytes. Any malformed row — wrong
    /// column count, or a non-numeric or oversized numeric field — fails the
    /// whole build, and a later row for a name already seen replaces the
    /// earlier one.
    pub fn new(fai: &[u8]) -> (r: Result<Index, Error>)
        ensures
            (r is Ok) == (parse_fai(fai@) is Some),
            r matches Ok(idx) ==> ({
                &&& idx.wf()
                &&& parse_fai(fai@) matches Some(rows)
                &&& forall|nm: Seq<u8>| find_entry(idx@, nm) == rows_lookup(rows, nm)
            }),
            r matches Err(e) ==> e == Error::Format,
    {
        let mut idx = Index { entries: Vec::new() };
        let mut pos: usize = 0;
        let ghost mut done: Seq<(Seq<u8>, IndexRecord)> = Seq::empty();
        proof {
            assert(entries_view(idx.entries@) =~= Seq::<(Seq<u8>, IndexRecord)>::empty());
            assert(fai@.skip(0) =~= fai@);
            let p0 = parse_fai(fai@);
            if p0 is Some {
                assert(done + p0->Some_0 =~= p0->Some_0);
            }
        }
        loop
            invariant
                pos <= fai@.len(),
                names_sorted(idx@),
                forall|nm: Seq<u8>| find_entry(idx@, nm) == rows_lookup(done, nm),
                parse_fai(fai@) == (match parse_fai(fai@.skip(pos as int)) {
                    None => None::<Seq<(Seq<u8>, IndexRecord)>>,
                    Some(rest) => Some(done + rest),
                }),
            decreases fai@.len() - pos + 1,
        {
            let ghost tail = fai@.skip(pos as int);
            if pos == fai.len() {
                proof {
                    assert(tail =~= Seq::<u8>::empty());
                    assert(parse_fai(tail) == Some(Seq::<(Seq<u8>, IndexRecord)>::empty()));
                    assert(done + Seq::<(Seq<u8>, IndexRecord)>::empty() =~= done);
                }
                return Ok(idx);
            }
            let nl = scan_byte(fai, pos, NL);
            proof {
                assert(find_byte(tail, NL) == nl - pos);
                assert(tail.take(nl - pos) =~= fai@.subrange(pos as int, nl as int));
            }
            let mut line: Vec<u8> = Vec::new();
            push_range(&mut line, fai, pos, nl);
            proof {
                assert(line@ =~= fai@.subrange(pos as int, nl as int));
            }
            match parse_row(line.as_slice()) {
                None => {
                    proof {
                        assert(parse_fai(tail) is None);
                    }
                    return Err(Error::Format);
                },
                Some((name, rec)) => {
                    let ghost row = (name@, rec);
                    let ghost prev = done;
                    proof {
                        assert(parse_row_spec(tail.take(nl - pos)) == Some(row));
                    }
                    idx.insert_row(name, rec);
                    proof {
                        let done2 = done.push(row);
                        assert(done2.drop_last() =~= done);
                        assert(done2.last() == row);
                        assert forall|nm: Seq<u8>|
                            find_entry(idx@, nm) == rows_lookup(done2, nm) by {
                            if nm == row.0 {
                                assert(rows_lookup(done2, nm) == Some(rec));
                            } else {
                                assert(rows_lookup(done2, nm) == rows_lookup(done, nm));
                            }
                        }
                        done = done2;
                    }
                    let next = if nl < fai.len() {
                        nl + 1
                    } else {
                        nl
                    };
                    proof {
                        assert(parse_fai(fai@) == (match parse_fai(tail) {
                            None => None::<Seq<(Seq<u8>, IndexRecord)>>,
                            Some(rest) => Some(prev + rest),
                        }));
                        if nl < fai@.len() {
                            assert(tail.skip(nl - pos + 1) =~= fai@.skip(nl + 1));
                            assert(parse_fai(tail) == (match parse_fai(fai@.skip(next as int)) {
                                None => None::<Seq<(Seq<u8>, IndexRecord)>>,
                                Some(rows) => Some(seq![row] + rows),
                            }));
                        } else {
                            assert(find_byte(tail, NL) == tail.len());
                            assert(parse_fai(tail) == (match parse_fai(Seq::<u8>::empty()) {
                                None => None::<Seq<(Seq<u8>, IndexRecord)>>,
                                Some(rows) => Some(seq![row] + rows),
                            }));
                            assert(fai@.skip(next as int) =~= Seq::<u8>::empty());
                        }
                        let po = parse_fai(fai@.skip(next as int));
                        if po is Some {
                            let rows = po->Some_0;
                            assert(prev + (seq![row] + rows) =~= prev.push(row) + rows);
                        }
                        assert(done == prev.push(row));
                        assert(parse_fai(fai@) == (match parse_fai(fai@.skip(next as int)) {
                            None => None::<Seq<(Seq<u8>, IndexRecord)>>,
                            Some(rest) => Some(done + rest),
                        }));
                    }
                    pos = next;
                    if pos == fai.len() {
                        proof {
                            assert(fai@.skip(pos as int) =~= Seq::<u8>::empty());
                            assert(parse_fai(fai@.skip(pos as int)) == Some(
                                Seq::<(Seq<u8>, IndexRecord)>::empty(),
                            ));
                            assert(done + Seq::<(Seq<u8>, IndexRecord)>::empty() =~= done);
                        }
                        return Ok(idx);
                    }
                },
            }
        }
    }

    /// A well-formed index: names strictly sorted, hence unique.
    pub open spec fn wf(self) -> bool {
        names_sorted(self@)
    }

    /// The record stored under `name`.
    pub fn lookup(&self, name: &[u8]) -> (r: Option<IndexRecord>)
        ensures
            r == find_entry(self@, name@),
    {
        let mut i: usize = 0;
        proof {
            assert(self@.skip(0) =~= self@);
        }
        loop
            invariant
                i <= self.entries@.len(),
                find_entry(self@, name@) == find_entry(self@.skip(i as int), name@),
            decreases self.entries@.len() - i,
        {
            if i == self.entries.len() {
                proof {
                    assert(self@.skip(i as int) =~= Seq::<(Seq<u8>, IndexRecord)>::empty());
                }
                return None;
            }
            match lex_cmp(self.entries[i].0.as_slice(), name) {
                NameOrder::Same => {
                    proof {
                        assert(self@.skip(i as int)[0] == self@[i as int]);
                    }
                    return Some(self.entries[i].1);
                },
                _ => {
                    proof {
                        assert(self@.skip(i as int)[0] == self@[i as int]);
                        assert(self@.skip(i as int).skip(1) =~= self@.skip(i + 1));
                    }
                    i = i + 1;
                },
            }
        }
    }

    /// The sequence listing: every indexed name with its length, in the
    /// index's sorted storage order.
    pub fn sequences(&self) -> (r: Vec<Sequence>)
        ensures
            r@.len() == self@.len(),
            forall|i: int|
                0 <= i < r@.len() ==> r@[i].name@ == self@[i].0 && r@[i].len == self@[i].1.len,
    {
        let mut out: Vec<Sequence> = Vec::new();
        let mut i: usize = 0;
        while i < self.entries.len()
            invariant
                i <= self.entries@.len(),
                out@.len() == i,
                forall|j: int|
                    0 <= j < i ==> out@[j].name@ == self@[j].0 && out@[j].len == self@[j].1.len,
            decreases self.entries@.len() - i,
        {
            let ent = &self.entries[i];
            let mut name: Vec<u8> = Vec::new();
            push_range(&mut name, ent.0.as_slice(), 0, ent.0.len());
            proof {
                assert(name@ =~= ent.0@);
            }
            out.push(Sequence { name, len: ent.1.len });
            i = i + 1;
        }
        out
    }
}

} // verus!

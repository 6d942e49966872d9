//! Byte-string vocabulary shared by the whole library: the characters the
//! FASTA format gives meaning to, searching for a byte, lexicographic order
//! on byte strings, and small executable helpers over byte buffers.

use vstd::prelude::*;

verus! {

broadcast use vstd::seq_lib::lemma_seq_skip_index, vstd::seq_lib::lemma_seq_take_index,
    vstd::seq_lib::lemma_seq_skip_len, vstd::seq_lib::lemma_seq_take_len;

/// Line terminator.
pub const NL: u8 = 10;

/// Carriage return, tolerated before a line terminator.
pub const CR: u8 = 13;

/// Space, the separator between header tokens.
pub const SP: u8 = 32;

/// Tab, the column separator of the index side-file.
pub const TAB: u8 = 9;

/// `>`, the first byte of a header line.
pub const GT: u8 = 62;

/// ASCII whitespace, as the header tokenizer understands it.
pub open spec fn is_ws(b: u8) -> bool {
    b == SP || b == TAB || b == NL || b == CR
}

/// Index of the first occurrence of `b` in `s`, or `s.len()` when absent.
pub open spec fn find_byte(s: Seq<u8>, b: u8) -> int
    decreases s.len(),
{
    if s.len() == 0 {
        0
    } else if s[0] == b {
        0
    } else {
        1 + find_byte(s.skip(1), b)
    }
}

pub proof fn lemma_find_byte_props(s: Seq<u8>, b: u8)
    ensures
        0 <= find_byte(s, b) <= s.len(),
        forall|j: int| 0 <= j < find_byte(s, b) ==> s[j] != b,
        find_byte(s, b) < s.len() ==> s[find_byte(s, b)] == b,
    decreases s.len(),
{
    if s.len() == 0 {
    } else if s[0] == b {
    } else {
        lemma_find_byte_props(s.skip(1), b);
        let f = find_byte(s, b);
        assert forall|j: int| 0 <= j < f implies s[j] != b by {
            if j > 0 {
                assert(s.skip(1)[j - 1] == s[j]);
            }
        }
        if f < s.len() {
            assert(s.skip(1)[f - 1] == s[f]);
        }
    }
}

/// `find_byte` is pinned down by any witness position `i`: everything before
/// `i` differs from `b`, and either `i` is the end or `s[i] == b`.
pub proof fn lemma_find_byte_at(s: Seq<u8>, b: u8, i: int)
    requires
        0 <= i <= s.len(),
        forall|j: int| 0 <= j < i ==> s[j] != b,
        i < s.len() ==> s[i] == b,
    ensures
        find_byte(s, b) == i,
    decreases i,
{
    if i == 0 {
    } else {
        assert(s[0] != b);
        lemma_find_byte_at(s.skip(1), b, i - 1);
    }
}

/// First position of `b` in `v` at or after `from`, or `v.len()` when `b`
/// does not occur there.
pub fn scan_byte(v: &[u8], from: usize, b: u8) -> (r: usize)
    requires
        from <= v@.len(),
    ensures
        from <= r <= v@.len(),
        r - from == find_byte(v@.skip(from as int), b),
        r < v@.len() ==> v@[r as int] == b,
        forall|j: int| from <= j < r ==> v@[j] != b,
{
    let mut i: usize = from;
    loop
        invariant
            from <= i <= v@.len(),
            forall|j: int| from <= j < i ==> v@[j] != b,
        decreases v@.len() - i,
    {
        if i == v.len() {
            proof {
                assert forall|j: int| 0 <= j < i - from implies v@.skip(from as int)[j] != b by {
                    assert(v@.skip(from as int)[j] == v@[from + j]);
                }
                lemma_find_byte_at(v@.skip(from as int), b, i - from);
            }
            return i;
        }
        if v[i] == b {
            proof {
                assert forall|j: int| 0 <= j < i - from implies v@.skip(from as int)[j] != b by {
                    assert(v@.skip(from as int)[j] == v@[from + j]);
                }
                assert(v@.skip(from as int)[i - from] == v@[i as int]);
                lemma_find_byte_at(v@.skip(from as int), b, i - from);
            }
            return i;
        }
        i = i + 1;
    }
}

/// Strict lexicographic order on byte strings: a proper prefix comes first,
/// otherwise the first differing byte decides.
pub open spec fn lex_lt(a: Seq<u8>, b: Seq<u8>) -> bool
    decreases a.len(),
{
    if b.len() == 0 {
        false
    } else if a.len() == 0 {
        true
    } else if a[0] < b[0] {
        true
    } else if a[0] > b[0] {
        false
    } else {
        lex_lt(a.skip(1), b.skip(1))
    }
}

pub proof fn lemma_lex_lt_irrefl(a: Seq<u8>)
    ensures
        !lex_lt(a, a),
    decreases a.len(),
{
    if a.len() > 0 {
        lemma_lex_lt_irrefl(a.skip(1));
    }
}

pub proof fn lemma_lex_lt_trans(a: Seq<u8>, b: Seq<u8>, c: Seq<u8>)
    requires
        lex_lt(a, b),
        lex_lt(b, c),
    ensures
        lex_lt(a, c),
    decreases a.len(),
{
    if a.len() == 0 {
    } else if a[0] == b[0] && b[0] == c[0] {
        lemma_lex_lt_trans(a.skip(1), b.skip(1), c.skip(1));
    }
}

/// With equal prefixes of length `i`, the order is decided by the tails.
proof fn lemma_lex_lt_common_prefix(a: Seq<u8>, b: Seq<u8>, i: int)
    requires
        0 <= i <= a.len(),
        i <= b.len(),
        forall|j: int| 0 <= j < i ==> a[j] == b[j],
    ensures
        lex_lt(a, b) == lex_lt(a.skip(i), b.skip(i)),
    decreases i,
{
    if i == 0 {
        assert(a.skip(0) =~= a);
        assert(b.skip(0) =~= b);
    } else {
        assert(a[0] == b[0]);
        assert(forall|j: int| 0 <= j < i - 1 ==> a.skip(1)[j] == b.skip(1)[j]);
        lemma_lex_lt_common_prefix(a.skip(1), b.skip(1), i - 1);
        assert(a.skip(1).skip(i - 1) =~= a.skip(i));
        assert(b.skip(1).skip(i - 1) =~= b.skip(i));
    }
}

/// Result of a three-way comparison of two byte strings.
pub enum NameOrder {
    Before,
    Same,
    After,
}

/// Three-way lexicographic comparison of byte strings.
pub fn lex_cmp(a: &[u8], b: &[u8]) -> (r: NameOrder)
    ensures
        (r is Before) == lex_lt(a@, b@),
        (r is After) == lex_lt(b@, a@),
        (r is Same) == (a@ == b@),
{
    let mut i: usize = 0;
    loop
        invariant
            i <= a@.len(),
            i <= b@.len(),
            forall|j: int| 0 <= j < i ==> a@[j] == b@[j],
        decreases a@.len() - i,
    {
        proof {
            lemma_lex_lt_common_prefix(a@, b@, i as int);
            lemma_lex_lt_common_prefix(b@, a@, i as int);
        }
        if i == a.len() && i == b.len() {
            proof {
                assert(a@ =~= b@);
                lemma_lex_lt_irrefl(a@);
            }
            return NameOrder::Same;
        }
        if i == a.len() {
            proof {
                assert(a@.skip(i as int).len() == 0);
                assert(b@.skip(i as int).len() > 0);
                assert(a@.len() != b@.len());
            }
            return NameOrder::Before;
        }
        if i == b.len() {
            proof {
                assert(b@.skip(i as int).len() == 0);
                assert(a@.skip(i as int).len() > 0);
                assert(a@.len() != b@.len());
            }
            return NameOrder::After;
        }
        let x = a[i];
        let y = b[i];
        proof {
            assert(a@.skip(i as int)[0] == a@[i as int]);
            assert(b@.skip(i as int)[0] == b@[i as int]);
        }
        if x < y {
            proof {
                assert(a@[i as int] != b@[i as int]);
            }
            return NameOrder::Before;
        }
        if x > y {
            proof {
                assert(a@[i as int] != b@[i as int]);
            }
            return NameOrder::After;
        }
        i = i + 1;
    }
}

/// Appends `src[from..to]` to `dst`.
pub fn push_range(dst: &mut Vec<u8>, src: &[u8], from: usize, to: usize)
    requires
        from <= to <= src@.len(),
    ensures
        final(dst)@ == old(dst)@ + src@.subrange(from as int, to as int),
{
    let mut i: usize = from;
    while i < to
        invariant
            from <= i <= to <= src@.len(),
            dst@ == old(dst)@ + src@.subrange(from as int, i as int),
        decreases to - i,
    {
        let b = src[i];
        dst.push(b);
        proof {
            assert(src@.subrange(from as int, i + 1) =~= src@.subrange(
                from as int,
                i as int,
            ).push(src@[i as int]));
            assert(dst@ =~= old(dst)@ + src@.subrange(from as int, i + 1));
        }
        i = i + 1;
    }
    proof {
        assert(dst@ =~= old(dst)@ + src@.subrange(from as int, to as int));
    }
}

} // verus!

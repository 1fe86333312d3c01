//! Byte-level walking of UTF-8 text: character widths, boundaries, line
//! numbers and byte-string comparisons.
use vstd::prelude::*;
use vstd::utf8::*;

verus! {

broadcast use {
    vstd::utf8::is_char_boundary_iff_not_is_continuation_byte,
    vstd::utf8::is_char_boundary_start_end_of_seq,
    vstd::utf8::encode_utf8_valid_utf8,
};

/// The UTF-8 encoding of a text.
pub open spec fn bytes_of(s: Seq<char>) -> Seq<u8> {
    encode_utf8(s)
}

/// The length of the run of set high bits of a byte.
pub open spec fn high_bit_run(b: u8) -> nat {
    if b < 0x80 {
        0
    } else if b < 0xc0 {
        1
    } else if b < 0xe0 {
        2
    } else if b < 0xf0 {
        3
    } else if b < 0xf8 {
        4
    } else if b < 0xfc {
        5
    } else if b < 0xfe {
        6
    } else if b < 0xff {
        7
    } else {
        8
    }
}

/// The number of bytes a character takes, read from its leading byte: the
/// run of set high bits, and at least one.
pub open spec fn char_width(b: u8) -> nat {
    if high_bit_run(b) == 0 {
        1
    } else {
        high_bit_run(b)
    }
}

/// The number of newline bytes in a byte sequence.
pub open spec fn count_newlines(b: Seq<u8>) -> nat
    decreases b.len(),
{
    if b.len() == 0 {
        0
    } else {
        count_newlines(b.drop_last()) + if b.last() == 10u8 {
            1nat
        } else {
            0nat
        }
    }
}

/// The 1-based line on which byte offset `pos` stands.
pub open spec fn line_at(b: Seq<u8>, pos: int) -> nat {
    count_newlines(b.subrange(0, pos)) + 1
}

/// Whether `needle` occurs as a contiguous part of `hay`.
pub open spec fn occurs_in(hay: Seq<u8>, needle: Seq<u8>) -> bool {
    exists|i: int|
        0 <= i && i + needle.len() <= hay.len() && #[trigger] hay.subrange(i, i + needle.len())
            == needle
}

/// Past a character boundary that is not the end, the next boundary is one
/// character width further on.
pub proof fn lemma_next_boundary(b: Seq<u8>, i: int)
    requires
        valid_utf8(b),
        is_char_boundary(b, i),
        0 <= i < b.len(),
    ensures
        i + char_width(b[i]) <= b.len(),
        is_char_boundary(b, i + char_width(b[i])),
{
    let s = b.subrange(i, b.len() as int);
    valid_utf8_split(b, i);
    assert(s[0] == b[i]);
    assert(valid_first_scalar(s));
    let w = length_of_first_scalar(s);
    assert(w == char_width(b[i]));
    if i + w < b.len() {
        reveal_with_fuel(is_char_boundary, 2);
        assert(is_char_boundary(pop_first_scalar(s), 0));
        assert(is_char_boundary(s, w));
        assert(s[w] == b[i + w]);
        is_char_boundary_iff_not_is_continuation_byte(s, w);
        is_char_boundary_iff_not_is_continuation_byte(b, i + w);
    } else {
        is_char_boundary_start_end_of_seq(b);
    }
}

/// No boundary falls inside a character.
pub proof fn lemma_inside_char(b: Seq<u8>, i: int, q: int)
    requires
        valid_utf8(b),
        is_char_boundary(b, i),
        0 <= i < q < i + char_width(b[i]),
        q <= b.len(),
    ensures
        !is_char_boundary(b, q),
{
    let s = b.subrange(i, b.len() as int);
    valid_utf8_split(b, i);
    assert(s[0] == b[i]);
    assert(valid_first_scalar(s));
    lemma_next_boundary(b, i);
    assert(q < b.len());
    assert(s[q - i] == b[q]);
    assert(is_continuation_byte(b[q]));
    is_char_boundary_iff_not_is_continuation_byte(b, q);
}

/// A boundary of a text is a boundary of every prefix that still holds it.
pub proof fn lemma_prefix_boundary(b: Seq<u8>, i: int, e: int)
    requires
        valid_utf8(b),
        is_char_boundary(b, i),
        is_char_boundary(b, e),
        0 <= i <= e <= b.len(),
    ensures
        valid_utf8(b.subrange(0, e)),
        is_char_boundary(b.subrange(0, e), i),
{
    valid_utf8_split(b, e);
    let p = b.subrange(0, e);
    if i < e {
        assert(p[i] == b[i]);
        is_char_boundary_iff_not_is_continuation_byte(b, i);
        is_char_boundary_iff_not_is_continuation_byte(p, i);
    } else {
        is_char_boundary_start_end_of_seq(p);
    }
}

/// The width of a character from its leading byte.
pub fn char_width_of(b: u8) -> (r: usize)
    ensures
        r == char_width(b),
{
    if b < 0x80 {
        1
    } else if b < 0xc0 {
        1
    } else if b < 0xe0 {
        2
    } else if b < 0xf0 {
        3
    } else if b < 0xf8 {
        4
    } else if b < 0xfc {
        5
    } else if b < 0xfe {
        6
    } else if b < 0xff {
        7
    } else {
        8
    }
}

/// Counts the newline bytes before `pos` and adds one.
pub fn line_number(b: &[u8], pos: usize) -> (r: usize)
    requires
        pos <= b@.len(),
        b@.len() < usize::MAX,
    ensures
        r == line_at(b@, pos as int),
{
    let mut count: usize = 0;
    let mut i: usize = 0;
    while i < pos
        invariant
            pos <= b@.len(),
            i <= pos,
            b@.len() < usize::MAX,
            count == count_newlines(b@.subrange(0, i as int)),
            count <= i,
        decreases pos - i,
    {
        assert(b@.subrange(0, i + 1).drop_last() =~= b@.subrange(0, i as int));
        if b[i] == 10u8 {
            count = count + 1;
        }
        i = i + 1;
    }
    count + 1
}

/// Whether two strings hold the same characters.
pub fn str_eq(a: &str, b: &str) -> (r: bool)
    ensures
        r == (a@ == b@),
{
    broadcast use vstd::utf8::encode_utf8_decode_utf8;

    let x = a.as_bytes();
    let y = b.as_bytes();
    assert(x@ == encode_utf8(a@));
    assert(y@ == encode_utf8(b@));
    if x.len() != y.len() {
        return false;
    }
    let mut i: usize = 0;
    while i < x.len()
        invariant
            x@.len() == y@.len(),
            x@ == encode_utf8(a@),
            y@ == encode_utf8(b@),
            i <= x@.len(),
            forall|j: int| 0 <= j < i ==> x@[j] == y@[j],
        decreases x@.len() - i,
    {
        if x[i] != y[i] {
            assert(x@[i as int] != y@[i as int]);
            return false;
        }
        i = i + 1;
    }
    assert(x@ =~= y@);
    assert(decode_utf8(encode_utf8(a@)) == decode_utf8(encode_utf8(b@)));
    true
}

/// Whether the bytes `text[s..e]` occur in `hay`.
pub fn occurs_at(hay: &[u8], text: &[u8], s: usize, e: usize) -> (r: bool)
    requires
        s <= e <= text@.len(),
    ensures
        r == occurs_in(hay@, text@.subrange(s as int, e as int)),
{
    let n = e - s;
    let ghost needle = text@.subrange(s as int, e as int);
    if n > hay.len() {
        return false;
    }
    let hl = hay.len();
    let mut i: usize = 0;
    while i <= hl - n
        invariant
            hl == hay@.len(),
            n == needle.len(),
            n == e - s,
            n <= hay@.len(),
            s <= e <= text@.len(),
            needle == text@.subrange(s as int, e as int),
            i <= hay@.len() - n + 1,
            forall|k: int| 0 <= k < i ==> #[trigger] hay@.subrange(k, k + n) != needle,
        decreases hay@.len() + 1 - i,
    {
        let mut j: usize = 0;
        let mut same = true;
        while j < n
            invariant
                n == needle.len(),
                n == e - s,
                hl == hay@.len(),
                i + n <= hay@.len(),
                s <= e <= text@.len(),
                needle == text@.subrange(s as int, e as int),
                j <= n,
                same == forall|m: int| 0 <= m < j ==> hay@[i + m] == needle[m],
            decreases n - j,
        {
            assert(i + j < hay@.len());
            assert(needle[j as int] == text@[s + j]);
            let k: usize = i + j;
            let t: usize = s + j;
            if hay[k] != text[t] {
                same = false;
            }
            j = j + 1;
            assert(same == forall|m: int| 0 <= m < j ==> hay@[i + m] == needle[m]) by {
                if !same {
                    assert(exists|m: int| 0 <= m < j && hay@[i + m] != needle[m]);
                }
            }
        }
        if same {
            assert(hay@.subrange(i as int, i + n) =~= needle);
            return true;
        }
        assert(hay@.subrange(i as int, i + n)[(choose|m: int| 0 <= m < n && hay@[i + m] != needle[m])]
            != needle[(choose|m: int| 0 <= m < n && hay@[i + m] != needle[m])]);
        i = i + 1;
    }
    assert forall|k: int| 0 <= k && k + n <= hay@.len() implies #[trigger] hay@.subrange(k, k + n) != needle by {
        assert(k < i);
    }
    false
}

} // verus!

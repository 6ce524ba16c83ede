//! Byte-level helpers shared by the scanner, the symbol index and the query
//! engine: identifier-character classification, word spans around a cursor
//! offset, equality, prefix and lexicographic comparison of byte strings.

use vstd::prelude::*;

verus! {

/// Bytes that may form an identifier word: ASCII letters, digits, underscore.
pub open spec fn is_word_byte(b: u8) -> bool {
    (97 <= b && b <= 122) || (65 <= b && b <= 90) || (48 <= b && b <= 57) || b == 95
}

/// Bytes that begin a constant name: ASCII uppercase letters.
pub open spec fn is_upper_byte(b: u8) -> bool {
    65 <= b && b <= 90
}

pub fn word_byte(b: u8) -> (r: bool)
    ensures
        r == is_word_byte(b),
{
    (97 <= b && b <= 122) || (65 <= b && b <= 90) || (48 <= b && b <= 57) || b == 95
}

pub fn upper_byte(b: u8) -> (r: bool)
    ensures
        r == is_upper_byte(b),
{
    65 <= b && b <= 90
}

/// Equality of two byte strings.
pub fn bytes_eq(a: &Vec<u8>, b: &Vec<u8>) -> (r: bool)
    ensures
        r == (a@ == b@),
{
    if a.len() != b.len() {
        assert(a@ != b@) by {
            assert(a@.len() != b@.len());
        }
        return false;
    }
    let n = a.len();
    let mut i: usize = 0;
    while i < n
        invariant
            n == a@.len(),
            n == b@.len(),
            i <= n,
            forall|j: int| 0 <= j < i ==> a@[j] == b@[j],
        decreases n - i,
    {
        if a[i] != b[i] {
            return false;
        }
        i += 1;
    }
    assert(a@ =~= b@);
    true
}

/// A fresh copy of a byte string.
pub fn copy_bytes(a: &Vec<u8>) -> (r: Vec<u8>)
    ensures
        r@ == a@,
{
    let n = a.len();
    let mut r: Vec<u8> = Vec::new();
    let mut i: usize = 0;
    while i < n
        invariant
            n == a@.len(),
            i <= n,
            r@ =~= a@.subrange(0, i as int),
        decreases n - i,
    {
        r.push(a[i]);
        i += 1;
    }
    assert(r@ =~= a@);
    r
}

/// Appends a copy of `src` to `dst`.
pub fn append_bytes(dst: &mut Vec<u8>, src: &Vec<u8>)
    ensures
        final(dst)@ == old(dst)@ + src@,
{
    let n = src.len();
    let mut i: usize = 0;
    while i < n
        invariant
            n == src@.len(),
            i <= n,
            dst@ =~= old(dst)@ + src@.subrange(0, i as int),
        decreases n - i,
    {
        dst.push(src[i]);
        i += 1;
    }
    assert(dst@ =~= old(dst)@ + src@);
}

/// The bytes of `src` between `from` (inclusive) and `to` (exclusive).
pub fn sub_bytes(src: &Vec<u8>, from: usize, to: usize) -> (r: Vec<u8>)
    requires
        from <= to <= src@.len(),
    ensures
        r@ == src@.subrange(from as int, to as int),
{
    let mut r: Vec<u8> = Vec::new();
    let mut i: usize = from;
    while i < to
        invariant
            from <= i <= to <= src@.len(),
            r@ =~= src@.subrange(from as int, i as int),
        decreases to - i,
    {
        r.push(src[i]);
        i += 1;
    }
    assert(r@ =~= src@.subrange(from as int, to as int));
    r
}

/// Whether `p` is a prefix of `a`.
pub open spec fn is_prefix(p: Seq<u8>, a: Seq<u8>) -> bool {
    p.len() <= a.len() && a.subrange(0, p.len() as int) == p
}

pub fn starts_with(a: &Vec<u8>, p: &Vec<u8>) -> (r: bool)
    ensures
        r == is_prefix(p@, a@),
{
    if p.len() > a.len() {
        return false;
    }
    let n = p.len();
    let mut i: usize = 0;
    while i < n
        invariant
            n == p@.len() <= a@.len(),
            i <= n,
            forall|j: int| 0 <= j < i ==> a@[j] == p@[j],
        decreases n - i,
    {
        if a[i] != p[i] {
            assert(a@.subrange(0, n as int)[i as int] != p@[i as int]);
            return false;
        }
        i += 1;
    }
    assert(a@.subrange(0, n as int) =~= p@);
    true
}

/// Whether a path names a source file of the indexed language: it ends in
/// `.rb`.
pub open spec fn has_source_extension(p: Seq<u8>) -> bool {
    p.len() >= 3 && p.subrange(p.len() - 3, p.len() as int) == seq![46u8, 114u8, 98u8]
}

/// Discovery's extension filter: keep exactly the `.rb` files.
pub fn is_source_path(p: &Vec<u8>) -> (r: bool)
    ensures
        r == has_source_extension(p@),
{
    let n = p.len();
    if n < 3 {
        return false;
    }
    let r = p[n - 3] == 46 && p[n - 2] == 114 && p[n - 1] == 98;
    proof {
        let tail = p@.subrange(n - 3, n as int);
        assert(tail.len() == 3);
        assert(tail[0] == p@[n - 3] && tail[1] == p@[n - 2] && tail[2] == p@[n - 1]);
        if r {
            assert(tail =~= seq![46u8, 114u8, 98u8]);
        }
        if has_source_extension(p@) {
            assert(tail == seq![46u8, 114u8, 98u8]);
            assert(tail[0] == 46 && tail[1] == 114 && tail[2] == 98);
        }
    }
    r
}

/// Lexicographic order (less-or-equal) on byte strings: shorter prefixes come
/// first, bytes compare as unsigned values.
pub open spec fn lex_le(a: Seq<u8>, b: Seq<u8>) -> bool
    decreases a.len(),
{
    if a.len() == 0 {
        true
    } else if b.len() == 0 {
        false
    } else if a[0] < b[0] {
        true
    } else if a[0] > b[0] {
        false
    } else {
        lex_le(a.skip(1), b.skip(1))
    }
}

proof fn lemma_lex_le_skip(a: Seq<u8>, b: Seq<u8>, i: int)
    requires
        0 <= i <= a.len(),
        i <= b.len(),
        forall|j: int| 0 <= j < i ==> a[j] == b[j],
    ensures
        lex_le(a, b) == lex_le(a.skip(i), b.skip(i)),
    decreases i,
{
    if i == 0 {
        assert(a.skip(0) =~= a);
        assert(b.skip(0) =~= b);
    } else {
        assert(a.len() > 0);
        assert(b.len() > 0);
        {
            assert(a[0] == b[0]);
            assert(lex_le(a, b) == lex_le(a.skip(1), b.skip(1)));
            assert(a.skip(1).len() == a.len() - 1);
            assert(forall|j: int| 0 <= j < i - 1 ==> a.skip(1)[j] == b.skip(1)[j]);
            lemma_lex_le_skip(a.skip(1), b.skip(1), i - 1);
            assert(a.skip(1).skip(i - 1) =~= a.skip(i));
            assert(b.skip(1).skip(i - 1) =~= b.skip(i));
        }
    }
}

pub fn lex_le_exec(a: &Vec<u8>, b: &Vec<u8>) -> (r: bool)
    ensures
        r == lex_le(a@, b@),
{
    let mut i: usize = 0;
    proof {
        assert(a@.skip(0) =~= a@);
        assert(b@.skip(0) =~= b@);
    }
    loop
        invariant
            i <= a@.len(),
            i <= b@.len(),
            forall|j: int| 0 <= j < i ==> a@[j] == b@[j],
            lex_le(a@, b@) == lex_le(a@.skip(i as int), b@.skip(i as int)),
        decreases a@.len() - i,
    {
        proof {
            lemma_lex_le_skip(a@, b@, i as int);
        }
        if i >= a.len() {
            assert(a@.skip(i as int).len() == 0);
            return true;
        }
        if i >= b.len() {
            assert(b@.skip(i as int).len() == 0);
            assert(a@.skip(i as int).len() > 0);
            return false;
        }
        let x = a[i];
        let y = b[i];
        assert(a@.skip(i as int)[0] == a@[i as int]);
        assert(b@.skip(i as int)[0] == b@[i as int]);
        if x < y {
            return true;
        }
        if x > y {
            return false;
        }
        i += 1;
        proof {
            lemma_lex_le_skip(a@, b@, i as int);
        }
    }
}

/// Start of the identifier word whose interior contains position `i`:
/// scans left while the previous byte is a word byte.
pub open spec fn word_start(s: Seq<u8>, i: int) -> int
    decreases i,
{
    if 0 < i <= s.len() && is_word_byte(s[i - 1]) {
        word_start(s, i - 1)
    } else {
        i
    }
}

/// End (exclusive) of the identifier word starting at or containing `i`:
/// scans right while the current byte is a word byte.
pub open spec fn word_end(s: Seq<u8>, i: int) -> int
    decreases s.len() - i,
{
    if 0 <= i < s.len() && is_word_byte(s[i]) {
        word_end(s, i + 1)
    } else {
        i
    }
}

/// The byte position anchoring the word at cursor offset `off`: the offset
/// itself when it sits on a word byte, else the byte just before it, else
/// no word.
pub open spec fn word_anchor(s: Seq<u8>, off: int) -> Option<int> {
    if 0 <= off < s.len() && is_word_byte(s[off]) {
        Some(off)
    } else if 0 < off <= s.len() && is_word_byte(s[off - 1]) {
        Some(off - 1)
    } else {
        None
    }
}

/// The identifier word under cursor offset `off`, as a half-open byte span.
pub open spec fn word_span_at(s: Seq<u8>, off: int) -> Option<(int, int)> {
    match word_anchor(s, off) {
        Some(a) => Some((word_start(s, a), word_end(s, a + 1))),
        None => None,
    }
}

/// Locates the identifier word under a cursor offset.
pub fn word_at(src: &Vec<u8>, off: usize) -> (r: Option<(usize, usize)>)
    ensures
        match r {
            Some((ws, we)) => {
                &&& word_span_at(src@, off as int) == Some((ws as int, we as int))
                &&& ws <= we <= src@.len()
            },
            None => word_span_at(src@, off as int) is None,
        },
{
    let anchor: usize = if off < src.len() && word_byte(src[off]) {
        off
    } else if off > 0 && off <= src.len() && word_byte(src[off - 1]) {
        off - 1
    } else {
        return None;
    };
    let ghost a = anchor as int;
    assert(word_anchor(src@, off as int) == Some(a));
    assert(anchor < src@.len());
    let mut ws: usize = anchor;
    while ws > 0 && word_byte(src[ws - 1])
        invariant
            ws <= anchor,
            anchor < src@.len(),
            word_start(src@, a) == word_start(src@, ws as int),
        decreases ws,
    {
        ws -= 1;
    }
    assert(word_start(src@, ws as int) == ws as int);
    let mut we: usize = anchor + 1;
    while we < src.len() && word_byte(src[we])
        invariant
            a + 1 <= we <= src@.len(),
            word_end(src@, a + 1) == word_end(src@, we as int),
        decreases src@.len() - we,
    {
        we += 1;
    }
    assert(word_end(src@, we as int) == we as int);
    proof {
        lemma_word_end_bound(src@, a + 1);
    }
    Some((ws, we))
}

pub proof fn lemma_word_end_bound(s: Seq<u8>, i: int)
    requires
        0 <= i <= s.len(),
    ensures
        i <= word_end(s, i) <= s.len(),
    decreases s.len() - i,
{
    if 0 <= i < s.len() && is_word_byte(s[i]) {
        lemma_word_end_bound(s, i + 1);
    }
}

} // verus!

use vstd::prelude::*;
use vstd::utf8::*;

verus! {

broadcast use vstd::std_specs::iter::group_iter_axioms;

/// Number of UTF-8 bytes of a char sequence.
pub open spec fn blen(s: Seq<char>) -> int {
    encode_utf8(s).len() as int
}

/// Number of UTF-8 bytes of one char.
pub open spec fn char_width(c: char) -> int {
    encode_scalar(c as u32).len() as int
}

/// Byte offset at which char `k` of `s` starts (or the total length when `k == s.len()`).
pub open spec fn offset(s: Seq<char>, k: int) -> int {
    blen(s.take(k))
}

/// `i` is a char boundary of the UTF-8 encoding of `s`.
pub open spec fn is_boundary(s: Seq<char>, i: int) -> bool {
    exists|k: int| 0 <= k <= s.len() && #[trigger] offset(s, k) == i
}

pub proof fn lemma_encode_concat(a: Seq<char>, b: Seq<char>)
    ensures
        encode_utf8(a + b) == encode_utf8(a) + encode_utf8(b),
    decreases a.len(),
{
    if a.len() == 0 {
        assert(a + b =~= b);
        assert(encode_utf8(a) =~= Seq::<u8>::empty());
        assert(encode_utf8(a) + encode_utf8(b) =~= encode_utf8(b));
    } else {
        lemma_encode_concat(a.drop_first(), b);
        assert((a + b).drop_first() =~= a.drop_first() + b);
        assert((a + b)[0] == a[0]);
        assert(encode_utf8(a + b) =~= encode_scalar(a[0] as u32) + encode_utf8(a.drop_first())
            + encode_utf8(b));
    }
}

pub proof fn lemma_width_range(c: char)
    ensures
        1 <= char_width(c) <= 4,
        (c as u32) <= 0x7f ==> char_width(c) == 1,
        0x7f < (c as u32) <= 0x7ff ==> char_width(c) == 2,
        0x7ff < (c as u32) <= 0xffff ==> char_width(c) == 3,
        0xffff < (c as u32) ==> char_width(c) == 4,
        c == '\n' ==> char_width(c) == 1,
{
    char_is_scalar(c);
}

pub proof fn lemma_blen_single(c: char)
    ensures
        blen(seq![c]) == char_width(c),
{
    assert(seq![c].drop_first() =~= Seq::<char>::empty());
    assert(encode_utf8(seq![c]) =~= encode_scalar(c as u32) + encode_utf8(Seq::<char>::empty()));
}

pub proof fn lemma_blen_push(s: Seq<char>, c: char)
    ensures
        blen(s.push(c)) == blen(s) + char_width(c),
{
    lemma_encode_concat(s, seq![c]);
    assert(s.push(c) =~= s + seq![c]);
    lemma_blen_single(c);
}

pub proof fn lemma_blen_concat(a: Seq<char>, b: Seq<char>)
    ensures
        blen(a + b) == blen(a) + blen(b),
{
    lemma_encode_concat(a, b);
}

pub proof fn lemma_blen_nonneg(s: Seq<char>)
    ensures
        blen(s) >= s.len(),
        blen(s) <= 4 * s.len(),
    decreases s.len(),
{
    if s.len() > 0 {
        lemma_blen_nonneg(s.drop_last());
        lemma_blen_push(s.drop_last(), s.last());
        assert(s.drop_last().push(s.last()) =~= s);
        lemma_width_range(s.last());
    }
}

/// Successive char offsets.
pub proof fn lemma_offset_step(s: Seq<char>, k: int)
    requires
        0 <= k < s.len(),
    ensures
        offset(s, k + 1) == offset(s, k) + char_width(s[k]),
        offset(s, k) < offset(s, k + 1),
{
    assert(s.take(k + 1) =~= s.take(k).push(s[k]));
    lemma_blen_push(s.take(k), s[k]);
    lemma_width_range(s[k]);
}

pub proof fn lemma_offset_zero_full(s: Seq<char>)
    ensures
        offset(s, 0) == 0,
        offset(s, s.len() as int) == blen(s),
{
    assert(s.take(0) =~= Seq::<char>::empty());
    assert(s.take(s.len() as int) =~= s);
}

/// Offsets strictly increase with the char index.
pub proof fn lemma_offset_strict(s: Seq<char>, j: int, k: int)
    requires
        0 <= j < k <= s.len(),
    ensures
        offset(s, j) < offset(s, k),
        offset(s, k) - offset(s, j) >= k - j,
    decreases k - j,
{
    lemma_offset_step(s, k - 1);
    if j < k - 1 {
        lemma_offset_strict(s, j, k - 1);
    }
}

pub proof fn lemma_offset_mono(s: Seq<char>, j: int, k: int)
    requires
        0 <= j <= k <= s.len(),
    ensures
        offset(s, j) <= offset(s, k),
{
    if j < k {
        lemma_offset_strict(s, j, k);
    }
}

pub proof fn lemma_offset_bounds(s: Seq<char>, k: int)
    requires
        0 <= k <= s.len(),
    ensures
        0 <= offset(s, k) <= blen(s),
        k <= offset(s, k),
{
    lemma_offset_zero_full(s);
    lemma_offset_mono(s, 0, k);
    lemma_offset_mono(s, k, s.len() as int);
    if k > 0 {
        lemma_offset_strict(s, 0, k);
    }
}

/// Offsets are injective on char indices.
pub proof fn lemma_offset_inj(s: Seq<char>, j: int, k: int)
    requires
        0 <= j <= s.len(),
        0 <= k <= s.len(),
        offset(s, j) == offset(s, k),
    ensures
        j == k,
{
    if j < k {
        lemma_offset_strict(s, j, k);
    } else if k < j {
        lemma_offset_strict(s, k, j);
    }
}

/// Offsets of a prefix agree with those of the whole sequence.
pub proof fn lemma_offset_prefix(s: Seq<char>, n: int, k: int)
    requires
        0 <= k <= n <= s.len(),
    ensures
        offset(s.take(n), k) == offset(s, k),
{
    assert(s.take(n).take(k) =~= s.take(k));
}

/// The UTF-8 width of a char, computed from its scalar value.
pub fn char_len(c: char) -> (r: usize)
    ensures
        r == char_width(c),
        1 <= r <= 4,
{
    proof {
        lemma_width_range(c);
    }
    let v = c as u32;
    if v <= 0x7f {
        1
    } else if v <= 0x7ff {
        2
    } else if v <= 0xffff {
        3
    } else {
        4
    }
}

/// The chars of a string slice, in order.
pub fn chars_of(s: &str) -> (r: Vec<char>)
    ensures
        r@ == s@,
{
    let mut out: Vec<char> = Vec::new();
    for c in it: s.chars()
        invariant
            out@ == it.seq().take(it.index() as int),
    {
        out.push(c);
    }
    out
}

/// `String::push` appends one char.
#[verifier::external_body]
pub fn push_char(s: &mut String, c: char)
    ensures
        final(s)@ == old(s)@.push(c),
{
    s.push(c);
}

/// Builds a `String` holding the given chars.
pub fn string_of(v: &Vec<char>) -> (r: String)
    ensures
        r@ == v@,
{
    let mut out = String::new();
    let mut i: usize = 0;
    while i < v.len()
        invariant
            i <= v.len(),
            out@ == v@.take(i as int),
        decreases v.len() - i,
    {
        push_char(&mut out, v[i]);
        i = i + 1;
        assert(out@ =~= v@.take(i as int));
    }
    assert(v@.take(i as int) =~= v@);
    out
}

/// Byte length of a string slice.
pub fn byte_len(s: &str) -> (r: usize)
    ensures
        r == blen(s@),
{
    let b = s.as_bytes();
    b.len()
}

} // verus!

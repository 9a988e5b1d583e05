use vstd::prelude::*;
use crate::text::{
    blen, byte_len, char_len, chars_of, is_boundary, lemma_offset_bounds, lemma_offset_inj,
    lemma_offset_mono, lemma_offset_step, lemma_offset_strict, lemma_offset_zero_full,
    lemma_width_range, offset,
};

verus! {

/// Char index of the start of the line holding char index `k`: just past the last
/// newline before `k`, or 0.
pub open spec fn line_begin(s: Seq<char>, k: int) -> int
    decreases k,
{
    if k <= 0 {
        0
    } else if s[k - 1] == '\n' {
        k
    } else {
        line_begin(s, k - 1)
    }
}

/// Char index of the first newline at or after `k`, or `s.len()` when there is none.
pub open spec fn line_finish(s: Seq<char>, k: int) -> int
    decreases s.len() - k,
{
    if k >= s.len() {
        s.len() as int
    } else if s[k] == '\n' {
        k
    } else {
        line_finish(s, k + 1)
    }
}

/// The char index whose offset is `i` (meaningful when `i` is a boundary).
pub open spec fn index_at(s: Seq<char>, i: int) -> int {
    choose|k: int| 0 <= k <= s.len() && offset(s, k) == i
}

/// Char `k` is the last char starting strictly before byte `cursor` (0 when none does).
pub open spec fn prev_char_index(s: Seq<char>, cursor: int, k: int) -> bool {
    if s.len() == 0 || cursor <= 0 {
        k == 0
    } else {
        &&& 0 <= k < s.len()
        &&& offset(s, k) < cursor
        &&& (k + 1 == s.len() || cursor <= offset(s, k + 1))
    }
}

/// Char index `k` is the first one starting strictly after byte `cursor`, or the end.
pub open spec fn next_char_index(s: Seq<char>, cursor: int, k: int) -> bool {
    &&& 0 <= k <= s.len()
    &&& (k == s.len() || offset(s, k) > cursor)
    &&& (k == 0 || offset(s, k - 1) <= cursor)
}

/// Char index `k` is the last one whose start is at or before byte `b`.
pub open spec fn floor_char_index(s: Seq<char>, b: int, k: int) -> bool {
    &&& 0 <= k <= s.len()
    &&& offset(s, k) <= b
    &&& (k == s.len() || b < offset(s, k + 1))
}

pub proof fn lemma_index_at(s: Seq<char>, k: int)
    requires
        0 <= k <= s.len(),
    ensures
        index_at(s, offset(s, k)) == k,
        is_boundary(s, offset(s, k)),
{
    assert(is_boundary(s, offset(s, k)));
    let j = index_at(s, offset(s, k));
    lemma_offset_inj(s, j, k);
}

pub proof fn lemma_boundary_index(s: Seq<char>, i: int)
    requires
        is_boundary(s, i),
    ensures
        0 <= index_at(s, i) <= s.len(),
        offset(s, index_at(s, i)) == i,
{
}

pub proof fn lemma_line_begin_range(s: Seq<char>, k: int)
    requires
        0 <= k <= s.len(),
    ensures
        0 <= line_begin(s, k) <= k,
        line_begin(s, k) == 0 || s[line_begin(s, k) - 1] == '\n',
        forall|j: int| line_begin(s, k) <= j < k ==> s[j] != '\n',
    decreases k,
{
    if k > 0 && s[k - 1] != '\n' {
        lemma_line_begin_range(s, k - 1);
    }
}

pub proof fn lemma_line_finish_range(s: Seq<char>, k: int)
    requires
        0 <= k <= s.len(),
    ensures
        k <= line_finish(s, k) <= s.len(),
        line_finish(s, k) == s.len() || s[line_finish(s, k)] == '\n',
        forall|j: int| k <= j < line_finish(s, k) ==> s[j] != '\n',
    decreases s.len() - k,
{
    if k < s.len() && s[k] != '\n' {
        lemma_line_finish_range(s, k + 1);
    }
}

/// The char index at a byte boundary.
pub fn index_of_offset(v: &Vec<char>, c: usize) -> (k: usize)
    requires
        is_boundary(v@, c as int),
    ensures
        k <= v.len(),
        offset(v@, k as int) == c,
        k == index_at(v@, c as int),
{
    let ghost t = index_at(v@, c as int);
    proof {
        lemma_boundary_index(v@, c as int);
        lemma_offset_zero_full(v@);
        lemma_index_at(v@, t);
    }
    let mut i: usize = 0;
    let mut off: usize = 0;
    while off < c
        invariant
            0 <= t <= v.len(),
            offset(v@, t) == c,
            i <= t,
            off == offset(v@, i as int),
        decreases t - i,
    {
        proof {
            if i == t {
                assert(false);
            }
            lemma_offset_step(v@, i as int);
            lemma_offset_mono(v@, i + 1, t);
        }
        off = off + char_len(v[i]);
        i = i + 1;
    }
    proof {
        if i < t {
            lemma_offset_strict(v@, i as int, t);
        }
    }
    i
}

/// The last char index whose start is at or before byte `b`.
pub fn floor_index(v: &Vec<char>, b: usize) -> (k: usize)
    ensures
        floor_char_index(v@, b as int, k as int),
{
    proof {
        lemma_offset_zero_full(v@);
    }
    let mut i: usize = 0;
    let mut off: usize = 0;
    while i < v.len() && char_len(v[i]) <= b - off
        invariant
            i <= v.len(),
            off == offset(v@, i as int),
            off <= b,
        decreases v.len() - i,
    {
        proof {
            lemma_offset_step(v@, i as int);
        }
        off = off + char_len(v[i]);
        i = i + 1;
    }
    proof {
        if i < v.len() {
            lemma_offset_step(v@, i as int);
        }
    }
    i
}

/// Byte offset of char index `k`.
pub fn offset_of(v: &Vec<char>, k: usize) -> (r: usize)
    requires
        k <= v.len(),
        blen(v@) <= usize::MAX,
    ensures
        r == offset(v@, k as int),
{
    proof {
        lemma_offset_zero_full(v@);
    }
    let mut i: usize = 0;
    let mut off: usize = 0;
    while i < k
        invariant
            i <= k <= v.len(),
            off == offset(v@, i as int),
            blen(v@) <= usize::MAX,
        decreases k - i,
    {
        proof {
            lemma_offset_step(v@, i as int);
            lemma_offset_bounds(v@, i + 1);
        }
        off = off + char_len(v[i]);
        i = i + 1;
    }
    off
}

/// The start of the char before `cursor`: the greatest char start below `cursor`, or 0.
pub fn previous_boundary(s: &str, cursor: usize) -> (r: usize)
    ensures
        exists|k: int| prev_char_index(s@, cursor as int, k) && r == offset(s@, k),
{
    let v = chars_of(s);
    proof {
        lemma_offset_zero_full(v@);
    }
    if v.len() == 0 || cursor == 0 {
        return 0;
    }
    let mut i: usize = 0;
    let mut off: usize = 0;
    while i + 1 < v.len() && char_len(v[i]) < cursor - off
        invariant
            0 < v.len(),
            i < v.len(),
            off == offset(v@, i as int),
            off < cursor,
        decreases v.len() - i,
    {
        proof {
            lemma_offset_step(v@, i as int);
        }
        off = off + char_len(v[i]);
        i = i + 1;
    }
    proof {
        lemma_offset_step(v@, i as int);
        assert(prev_char_index(s@, cursor as int, i as int));
    }
    off
}

/// The start of the char after the one at `cursor`: the least char start above `cursor`,
/// or the byte length of `s`.
pub fn next_boundary(s: &str, cursor: usize) -> (r: usize)
    ensures
        exists|k: int| next_char_index(s@, cursor as int, k) && r == offset(s@, k),
{
    let v = chars_of(s);
    let total = byte_len(s);
    proof {
        lemma_offset_zero_full(v@);
    }
    let mut i: usize = 0;
    let mut off: usize = 0;
    while i < v.len() && off <= cursor
        invariant
            i <= v.len(),
            off == offset(v@, i as int),
            total == blen(v@),
            i == 0 || offset(v@, i - 1) <= cursor,
        decreases v.len() - i,
    {
        proof {
            lemma_offset_step(v@, i as int);
            lemma_offset_bounds(v@, i + 1);
        }
        off = off + char_len(v[i]);
        i = i + 1;
    }
    proof {
        assert(next_char_index(s@, cursor as int, i as int));
    }
    off
}

/// Byte offset of the start of the line holding `cursor` (clamped to the end of `s`).
pub fn line_start(s: &str, cursor: usize) -> (r: usize)
    requires
        is_boundary(s@, vstd::math::min(cursor as int, blen(s@))),
    ensures
        r == offset(s@, line_begin(s@, index_at(s@, vstd::math::min(cursor as int, blen(s@))))),
{
    let v = chars_of(s);
    let total = byte_len(s);
    let c = if cursor < total { cursor } else { total };
    let k = index_of_offset(&v, c);
    proof {
        lemma_offset_zero_full(v@);
    }
    let mut i: usize = 0;
    let mut start: usize = 0;
    while i < k
        invariant
            k <= v.len(),
            i <= k,
            total == blen(v@),
            start == offset(v@, line_begin(v@, i as int)),
        decreases k - i,
    {
        proof {
            lemma_offset_step(v@, i as int);
            lemma_offset_bounds(v@, i + 1);
            lemma_width_range(v@[i as int]);
        }
        if v[i] == '\n' {
            start = offset_of(&v, i) + 1;
        }
        i = i + 1;
    }
    start
}

/// Byte offset of the newline ending the line holding `cursor`, or the byte length of `s`.
pub fn line_end(s: &str, cursor: usize) -> (r: usize)
    requires
        is_boundary(s@, vstd::math::min(cursor as int, blen(s@))),
    ensures
        r == offset(s@, line_finish(s@, index_at(s@, vstd::math::min(cursor as int, blen(s@))))),
{
    let v = chars_of(s);
    let total = byte_len(s);
    let c = if cursor < total { cursor } else { total };
    let k = index_of_offset(&v, c);
    let mut i: usize = k;
    let mut off: usize = c;
    proof {
        lemma_offset_zero_full(v@);
    }
    while i < v.len() && v[i] != '\n'
        invariant
            k <= i <= v.len(),
            total == blen(v@),
            off == offset(v@, i as int),
            line_finish(v@, i as int) == line_finish(v@, k as int),
        decreases v.len() - i,
    {
        proof {
            lemma_offset_step(v@, i as int);
            lemma_offset_bounds(v@, i + 1);
        }
        off = off + char_len(v[i]);
        i = i + 1;
    }
    off
}


/// The char index at byte `b`, when `b` is a char boundary.
pub fn find_boundary(v: &Vec<char>, b: usize) -> (r: Option<usize>)
    ensures
        match r {
            Some(k) => k <= v.len() && offset(v@, k as int) == b && k == index_at(v@, b as int),
            None => !is_boundary(v@, b as int),
        },
{
    proof {
        lemma_offset_zero_full(v@);
    }
    let mut i: usize = 0;
    let mut off: usize = 0;
    while i < v.len() && off < b
        invariant
            i <= v.len(),
            off == offset(v@, i as int),
            off <= b,
        decreases v.len() - i,
    {
        proof {
            lemma_offset_step(v@, i as int);
        }
        if char_len(v[i]) > b - off {
            proof {
                assert forall|k: int| 0 <= k <= v@.len() implies #[trigger] offset(v@, k) != b by {
                    if k <= i {
                        lemma_offset_mono(v@, k, i as int);
                    } else {
                        lemma_offset_mono(v@, i + 1, k);
                    }
                }
            }
            return None;
        }
        off = off + char_len(v[i]);
        i = i + 1;
    }
    if off == b {
        proof {
            lemma_index_at(v@, i as int);
        }
        Some(i)
    } else {
        proof {
            assert forall|k: int| 0 <= k <= v@.len() implies #[trigger] offset(v@, k) != b by {
                lemma_offset_mono(v@, k, i as int);
            }
        }
        None
    }
}

} // verus!

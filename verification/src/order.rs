use vstd::prelude::*;
use crate::paths::{components, cur_dir, parent_dir, path_components, path_eq, root_dir};
use crate::preview::views;
use crate::text::chars_of;

verus! {

/// Code-point order on chars, which is also the byte order of their UTF-8 encodings.
pub open spec fn char_below(a: char, b: char) -> bool {
    (a as u32) < (b as u32)
}

/// Lexicographic order on char sequences.
pub open spec fn chars_less(a: Seq<char>, b: Seq<char>) -> bool
    decreases a.len(),
{
    if a.len() == 0 {
        b.len() > 0
    } else if b.len() == 0 {
        false
    } else if a[0] != b[0] {
        char_below(a[0], b[0])
    } else {
        chars_less(a.drop_first(), b.drop_first())
    }
}

/// Rank of a path component: the root, then `.`, then `..`, then names.
pub open spec fn comp_rank(c: Seq<char>) -> int {
    if c == root_dir() {
        0
    } else if c == cur_dir() {
        1
    } else if c == parent_dir() {
        2
    } else {
        3
    }
}

/// Order on components: by rank, names among themselves by their chars.
pub open spec fn comp_less(a: Seq<char>, b: Seq<char>) -> bool {
    comp_rank(a) < comp_rank(b) || (comp_rank(a) == 3 && comp_rank(b) == 3 && chars_less(a, b))
}

/// Lexicographic order on component sequences.
pub open spec fn comps_less(a: Seq<Seq<char>>, b: Seq<Seq<char>>) -> bool
    decreases a.len(),
{
    if a.len() == 0 {
        b.len() > 0
    } else if b.len() == 0 {
        false
    } else if a[0] != b[0] {
        comp_less(a[0], b[0])
    } else {
        comps_less(a.drop_first(), b.drop_first())
    }
}

/// The order `Path` sorts by: its components compared one by one.
pub open spec fn path_less(a: Seq<char>, b: Seq<char>) -> bool {
    comps_less(path_components(a), path_components(b))
}

pub proof fn lemma_chars_irrefl(a: Seq<char>)
    ensures
        !chars_less(a, a),
    decreases a.len(),
{
    if a.len() > 0 {
        lemma_chars_irrefl(a.drop_first());
    }
}

pub proof fn lemma_chars_trans(a: Seq<char>, b: Seq<char>, c: Seq<char>)
    requires
        chars_less(a, b),
        chars_less(b, c),
    ensures
        chars_less(a, c),
    decreases a.len(),
{
    if a.len() > 0 && b.len() > 0 && c.len() > 0 && a[0] == b[0] && b[0] == c[0] {
        lemma_chars_trans(a.drop_first(), b.drop_first(), c.drop_first());
    }
}

pub proof fn lemma_chars_total(a: Seq<char>, b: Seq<char>)
    requires
        a != b,
    ensures
        chars_less(a, b) || chars_less(b, a),
    decreases a.len(),
{
    if a.len() == 0 && b.len() == 0 {
        assert(a =~= b);
    }
    if a.len() > 0 && b.len() > 0 && a[0] == b[0] {
        if a.drop_first() == b.drop_first() {
            assert(a =~= seq![a[0]] + a.drop_first());
            assert(b =~= seq![b[0]] + b.drop_first());
        } else {
            lemma_chars_total(a.drop_first(), b.drop_first());
        }
    }
    if a.len() > 0 && b.len() > 0 && a[0] != b[0] {
        vstd::utf8::char_u32_cast(a[0], a[0] as u32);
        vstd::utf8::char_u32_cast(b[0], b[0] as u32);
    }
}

pub proof fn lemma_comp_order(a: Seq<char>, b: Seq<char>, c: Seq<char>)
    ensures
        !comp_less(a, a),
        comp_less(a, b) && comp_less(b, c) ==> comp_less(a, c),
        a != b ==> comp_less(a, b) || comp_less(b, a),
{
    lemma_chars_irrefl(a);
    if comp_rank(a) == 3 && comp_rank(b) == 3 && comp_rank(c) == 3 && chars_less(a, b) && chars_less(b, c) {
        lemma_chars_trans(a, b, c);
    }
    if a != b && comp_rank(a) == 3 && comp_rank(b) == 3 {
        lemma_chars_total(a, b);
    }
}

pub proof fn lemma_comps_irrefl(a: Seq<Seq<char>>)
    ensures
        !comps_less(a, a),
    decreases a.len(),
{
    if a.len() > 0 {
        lemma_comps_irrefl(a.drop_first());
    }
}

pub proof fn lemma_comps_trans(a: Seq<Seq<char>>, b: Seq<Seq<char>>, c: Seq<Seq<char>>)
    requires
        comps_less(a, b),
        comps_less(b, c),
    ensures
        comps_less(a, c),
    decreases a.len(),
{
    if a.len() > 0 && b.len() > 0 && c.len() > 0 {
        lemma_comp_order(a[0], b[0], c[0]);
        if a[0] == b[0] && b[0] == c[0] {
            lemma_comps_trans(a.drop_first(), b.drop_first(), c.drop_first());
        }
    }
}

pub proof fn lemma_comps_total(a: Seq<Seq<char>>, b: Seq<Seq<char>>)
    requires
        a != b,
    ensures
        comps_less(a, b) || comps_less(b, a),
    decreases a.len(),
{
    if a.len() == 0 && b.len() == 0 {
        assert(a =~= b);
    }
    if a.len() > 0 && b.len() > 0 {
        lemma_comp_order(a[0], b[0], b[0]);
        if a[0] == b[0] {
            if a.drop_first() == b.drop_first() {
                assert(a =~= seq![a[0]] + a.drop_first());
                assert(b =~= seq![b[0]] + b.drop_first());
            } else {
                lemma_comps_total(a.drop_first(), b.drop_first());
            }
        }
    }
}

pub proof fn lemma_comps_order(a: Seq<Seq<char>>, b: Seq<Seq<char>>, c: Seq<Seq<char>>)
    ensures
        !comps_less(a, a),
        comps_less(a, b) && comps_less(b, c) ==> comps_less(a, c),
        a != b ==> comps_less(a, b) || comps_less(b, a),
{
    lemma_comps_irrefl(a);
    if comps_less(a, b) && comps_less(b, c) {
        lemma_comps_trans(a, b, c);
    }
    if a != b {
        lemma_comps_total(a, b);
    }
}

/// `path_less` is a strict order, total up to path equality.
pub proof fn lemma_path_order(a: Seq<char>, b: Seq<char>, c: Seq<char>)
    ensures
        !path_less(a, a),
        path_less(a, b) && path_less(b, c) ==> path_less(a, c),
        !path_eq(a, b) ==> path_less(a, b) || path_less(b, a),
        path_eq(a, b) ==> !path_less(a, b) && !path_less(b, a),
        path_eq(a, b) ==> (path_less(a, c) <==> path_less(b, c)),
        path_eq(a, b) ==> (path_less(c, a) <==> path_less(c, b)),
{
    lemma_comps_order(path_components(a), path_components(b), path_components(c));
    lemma_comps_order(path_components(b), path_components(a), path_components(c));
}

fn char_vec_less(a: &Vec<char>, b: &Vec<char>) -> (r: bool)
    ensures
        r == chars_less(a@, b@),
{
    let mut i: usize = 0;
    assert(a@.skip(0) =~= a@);
    assert(b@.skip(0) =~= b@);
    while i < a.len() && i < b.len() && a[i] == b[i]
        invariant
            i <= a.len(),
            i <= b.len(),
            chars_less(a@, b@) == chars_less(a@.skip(i as int), b@.skip(i as int)),
        decreases a.len() - i,
    {
        assert(a@.skip(i as int).drop_first() =~= a@.skip(i + 1));
        assert(b@.skip(i as int).drop_first() =~= b@.skip(i + 1));
        i = i + 1;
    }
    if i == a.len() {
        i < b.len()
    } else if i == b.len() {
        false
    } else {
        (a[i] as u32) < (b[i] as u32)
    }
}

fn rank_of(c: &Vec<char>) -> (r: u8)
    ensures
        r as int == comp_rank(c@),
{
    let one = c.len() == 1;
    let two = c.len() == 2;
    proof {
        if c@ == root_dir() || c@ == cur_dir() {
            assert(c@.len() == 1 && c@[0] == c@[0]);
        }
        if c@ == parent_dir() {
            assert(c@.len() == 2);
        }
        if one && c@[0] == '/' {
            assert(c@ =~= root_dir());
        }
        if one && c@[0] == '.' {
            assert(c@ =~= cur_dir());
        }
        if two && c@[0] == '.' && c@[1] == '.' {
            assert(c@ =~= parent_dir());
        }
    }
    if one && c[0] == '/' {
        0
    } else if one && c[0] == '.' {
        1
    } else if two && c[0] == '.' && c[1] == '.' {
        2
    } else {
        3
    }
}

/// Whether path `a` sorts before path `b`.
pub fn path_before(a: &str, b: &str) -> (r: bool)
    ensures
        r == path_less(a@, b@),
{
    let av = chars_of(a);
    let bv = chars_of(b);
    let ac = components(&av);
    let bc = components(&bv);
    let ghost x = views(ac@);
    let ghost y = views(bc@);
    let mut i: usize = 0;
    assert(x.skip(0) =~= x);
    assert(y.skip(0) =~= y);
    while i < ac.len() && i < bc.len() && crate::paths::chars_equal(&ac[i], &bc[i])
        invariant
            x == views(ac@),
            y == views(bc@),
            i <= ac.len(),
            i <= bc.len(),
            comps_less(x, y) == comps_less(x.skip(i as int), y.skip(i as int)),
        decreases ac.len() - i,
    {
        assert(x.skip(i as int).drop_first() =~= x.skip(i + 1));
        assert(y.skip(i as int).drop_first() =~= y.skip(i + 1));
        i = i + 1;
    }
    if i == ac.len() {
        i < bc.len()
    } else if i == bc.len() {
        false
    } else {
        assert(x.skip(i as int)[0] == ac@[i as int]@);
        assert(y.skip(i as int)[0] == bc@[i as int]@);
        let ra = rank_of(&ac[i]);
        let rb = rank_of(&bc[i]);
        ra < rb || (ra == 3 && rb == 3 && char_vec_less(&ac[i], &bc[i]))
    }
}

} // verus!

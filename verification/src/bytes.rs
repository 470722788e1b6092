//! Small verified helpers on byte strings: equality, copying, ordering,
//! splitting and joining around a separator, and whitespace trimming.
//! Paths and stored records are byte strings throughout the engine.

use vstd::prelude::*;

verus! {

/// Compare two byte strings for equality.
pub fn bytes_eq(a: &Vec<u8>, b: &Vec<u8>) -> (r: bool)
    ensures
        r == (a@ == b@),
{
    if a.len() != b.len() {
        return false;
    }
    let mut i: usize = 0;
    while i < a.len()
        invariant
            i <= a.len(),
            a.len() == b.len(),
            forall|j: int| 0 <= j < i ==> a@[j] == b@[j],
        decreases a.len() - i,
    {
        if a[i] != b[i] {
            return false;
        }
        i = i + 1;
    }
    proof {
        assert(a@ =~= b@);
    }
    true
}

/// Copy a byte string.
pub fn copy_bytes(v: &Vec<u8>) -> (r: Vec<u8>)
    ensures
        r@ == v@,
{
    let mut r: Vec<u8> = Vec::new();
    let mut i: usize = 0;
    while i < v.len()
        invariant
            i <= v.len(),
            r@ == v@.subrange(0, i as int),
        decreases v.len() - i,
    {
        r.push(v[i]);
        proof {
            assert(r@ =~= v@.subrange(0, i + 1 as int));
        }
        i = i + 1;
    }
    proof {
        assert(r@ =~= v@);
    }
    r
}

/// Append a copy of `src` to `dst`.
pub fn append_bytes(dst: &mut Vec<u8>, src: &Vec<u8>)
    ensures
        final(dst)@ == old(dst)@ + src@,
{
    let ghost d0 = dst@;
    let mut i: usize = 0;
    while i < src.len()
        invariant
            i <= src.len(),
            dst@ == d0 + src@.subrange(0, i as int),
        decreases src.len() - i,
    {
        dst.push(src[i]);
        proof {
            assert(dst@ =~= d0 + src@.subrange(0, i + 1 as int));
        }
        i = i + 1;
    }
    proof {
        assert(dst@ =~= d0 + src@);
    }
}

/// Whether a byte occurs in a byte string.
pub open spec fn has_byte(s: Seq<u8>, b: u8) -> bool {
    exists|i: int| 0 <= i < s.len() && s[i] == b
}

/// Decide whether a byte occurs in a byte string.
pub fn contains_byte(v: &Vec<u8>, b: u8) -> (r: bool)
    ensures
        r == has_byte(v@, b),
{
    let mut i: usize = 0;
    while i < v.len()
        invariant
            i <= v.len(),
            forall|j: int| 0 <= j < i ==> v@[j] != b,
        decreases v.len() - i,
    {
        if v[i] == b {
            return true;
        }
        i = i + 1;
    }
    proof {
        if has_byte(v@, b) {
            let j = choose|j: int| 0 <= j < v@.len() && v@[j] == b;
            assert(v@[j] != b);
        }
    }
    false
}

/// Copy the suffix of a byte string from a position on.
pub fn copy_tail(v: &Vec<u8>, from: usize) -> (r: Vec<u8>)
    requires
        from <= v@.len(),
    ensures
        r@ == v@.skip(from as int),
{
    let mut r: Vec<u8> = Vec::new();
    let mut i: usize = from;
    while i < v.len()
        invariant
            from <= i <= v.len(),
            r@ == v@.subrange(from as int, i as int),
        decreases v.len() - i,
    {
        r.push(v[i]);
        proof {
            assert(r@ =~= v@.subrange(from as int, i + 1 as int));
        }
        i = i + 1;
    }
    proof {
        assert(r@ =~= v@.skip(from as int));
    }
    r
}

/// Byte-wise lexicographic order: `a` is no later than `b`.
pub open spec fn lex_le(a: Seq<u8>, b: Seq<u8>) -> bool
    decreases a.len(),
{
    if a.len() == 0 {
        true
    } else if b.len() == 0 {
        false
    } else if a[0] < b[0] {
        true
    } else if a[0] > b[0] {
        false
    } else {
        lex_le(a.skip(1), b.skip(1))
    }
}

pub proof fn lemma_lex_le_total(a: Seq<u8>, b: Seq<u8>)
    ensures
        lex_le(a, b) || lex_le(b, a),
    decreases a.len(),
{
    if a.len() == 0 || b.len() == 0 {
    } else if a[0] == b[0] {
        lemma_lex_le_total(a.skip(1), b.skip(1));
    }
}

pub proof fn lemma_lex_le_antisym(a: Seq<u8>, b: Seq<u8>)
    requires
        lex_le(a, b),
        lex_le(b, a),
    ensures
        a == b,
    decreases a.len(),
{
    if a.len() == 0 {
        assert(b.len() == 0);
        assert(a =~= b);
    } else {
        assert(b.len() > 0);
        assert(a[0] == b[0]);
        lemma_lex_le_antisym(a.skip(1), b.skip(1));
        assert(forall|i: int| 1 <= i < a.len() ==> a[i] == a.skip(1)[i - 1]);
        assert(forall|i: int| 1 <= i < b.len() ==> b[i] == b.skip(1)[i - 1]);
        assert(a =~= b);
    }
}

pub proof fn lemma_lex_le_trans(a: Seq<u8>, b: Seq<u8>, c: Seq<u8>)
    requires
        lex_le(a, b),
        lex_le(b, c),
    ensures
        lex_le(a, c),
    decreases a.len(),
{
    if a.len() == 0 || b.len() == 0 || c.len() == 0 {
    } else if a[0] == b[0] && b[0] == c[0] {
        lemma_lex_le_trans(a.skip(1), b.skip(1), c.skip(1));
    }
}

/// Decide `lex_le` on byte vectors.
pub fn lex_le_bytes(a: &Vec<u8>, b: &Vec<u8>) -> (r: bool)
    ensures
        r == lex_le(a@, b@),
{
    proof {
        assert(a@.skip(0) =~= a@);
        assert(b@.skip(0) =~= b@);
    }
    let mut i: usize = 0;
    loop
        invariant
            i <= a.len(),
            i <= b.len(),
            lex_le(a@, b@) == lex_le(a@.skip(i as int), b@.skip(i as int)),
        decreases a.len() - i,
    {
        if i == a.len() {
            assert(a@.skip(i as int).len() == 0);
            return true;
        }
        if i == b.len() {
            assert(b@.skip(i as int).len() == 0);
            assert(a@.skip(i as int).len() > 0);
            return false;
        }
        let x = a[i];
        let y = b[i];
        assert(a@.skip(i as int)[0] == a@[i as int]);
        assert(b@.skip(i as int)[0] == b@[i as int]);
        if x < y {
            return true;
        }
        if x > y {
            return false;
        }
        proof {
            assert(a@.skip(i as int).skip(1) =~= a@.skip(i + 1));
            assert(b@.skip(i as int).skip(1) =~= b@.skip(i + 1));
        }
        i = i + 1;
    }
}

/// The blank characters that `trim` strips: space, tab, carriage return,
/// line feed.
pub open spec fn is_blank(b: u8) -> bool {
    b == 32 || b == 9 || b == 13 || b == 10
}

/// The suffix of `s` that starts at the first non-blank character.
pub open spec fn trim_front_spec(s: Seq<u8>) -> Seq<u8>
    decreases s.len(),
{
    if s.len() == 0 {
        s
    } else if is_blank(s[0]) {
        trim_front_spec(s.skip(1))
    } else {
        s
    }
}

/// The prefix of `s` that ends at the last non-blank character.
pub open spec fn trim_back_spec(s: Seq<u8>) -> Seq<u8>
    decreases s.len(),
{
    if s.len() == 0 {
        s
    } else if is_blank(s[s.len() - 1]) {
        trim_back_spec(s.take(s.len() - 1))
    } else {
        s
    }
}

/// `s` with blank characters removed from both ends.
pub open spec fn trim_spec(s: Seq<u8>) -> Seq<u8> {
    trim_back_spec(trim_front_spec(s))
}

/// Strip blanks from both ends of a byte string.
pub fn trim(s: &Vec<u8>) -> (r: Vec<u8>)
    ensures
        r@ == trim_spec(s@),
{
    proof {
        assert(s@.skip(0) =~= s@);
    }
    let mut lo: usize = 0;
    while lo < s.len() && (s[lo] == 32 || s[lo] == 9 || s[lo] == 13 || s[lo] == 10)
        invariant
            lo <= s.len(),
            trim_front_spec(s@) == trim_front_spec(s@.skip(lo as int)),
        decreases s.len() - lo,
    {
        proof {
            assert(s@.skip(lo as int)[0] == s@[lo as int]);
            assert(s@.skip(lo as int).skip(1) =~= s@.skip(lo + 1));
        }
        lo = lo + 1;
    }
    proof {
        if lo < s.len() {
            assert(s@.skip(lo as int)[0] == s@[lo as int]);
        }
        assert(trim_front_spec(s@) == s@.skip(lo as int));
        assert(s@.skip(lo as int).take(s@.skip(lo as int).len() as int) =~= s@.skip(lo as int));
    }
    let mut hi: usize = s.len();
    while hi > lo && (s[hi - 1] == 32 || s[hi - 1] == 9 || s[hi - 1] == 13 || s[hi - 1] == 10)
        invariant
            lo <= hi <= s.len(),
            trim_back_spec(s@.skip(lo as int)) == trim_back_spec(
                s@.skip(lo as int).take(hi - lo),
            ),
        decreases hi,
    {
        proof {
            let cur = s@.skip(lo as int).take(hi - lo);
            assert(cur[cur.len() - 1] == s@[hi - 1]);
            assert(cur.take(cur.len() - 1) =~= s@.skip(lo as int).take(hi - 1 - lo));
        }
        hi = hi - 1;
    }
    proof {
        let cur = s@.skip(lo as int).take(hi - lo);
        if hi > lo {
            assert(cur[cur.len() - 1] == s@[hi - 1]);
        }
        assert(trim_back_spec(s@.skip(lo as int)) == cur);
    }
    let mut r: Vec<u8> = Vec::new();
    let mut i: usize = lo;
    while i < hi
        invariant
            lo <= i <= hi <= s.len(),
            r@ == s@.subrange(lo as int, i as int),
        decreases hi - i,
    {
        r.push(s[i]);
        proof {
            assert(r@ =~= s@.subrange(lo as int, i + 1 as int));
        }
        i = i + 1;
    }
    proof {
        assert(r@ =~= s@.skip(lo as int).take(hi - lo));
    }
    r
}

/// The pieces of `s` between occurrences of the separator `sep`, defined
/// character by character from the end.  Splitting the empty string
/// yields one empty piece, the way line and field splitting expect it.
pub open spec fn split_spec(s: Seq<u8>, sep: u8) -> Seq<Seq<u8>>
    decreases s.len(),
{
    if s.len() == 0 {
        seq![s]
    } else {
        let rest = split_spec(s.take(s.len() - 1), sep);
        if s[s.len() - 1] == sep {
            rest + seq![Seq::<u8>::empty()]
        } else {
            rest.update(rest.len() - 1, rest.last().push(s[s.len() - 1]))
        }
    }
}

pub proof fn lemma_split_spec_len(s: Seq<u8>, sep: u8)
    ensures
        split_spec(s, sep).len() >= 1,
    decreases s.len(),
{
    if s.len() > 0 {
        lemma_split_spec_len(s.take(s.len() - 1), sep);
    }
}

/// Split a byte string at every occurrence of `sep`.
pub fn split(s: &Vec<u8>, sep: u8) -> (r: Vec<Vec<u8>>)
    ensures
        r@.map_values(|p: Vec<u8>| p@) == split_spec(s@, sep),
        r@.len() >= 1,
{
    let mut pieces: Vec<Vec<u8>> = Vec::new();
    let mut cur: Vec<u8> = Vec::new();
    let mut i: usize = 0;
    proof {
        assert(s@.take(0) =~= Seq::<u8>::empty());
        assert((pieces@.map_values(|p: Vec<u8>| p@) + seq![cur@])[0] =~= Seq::<u8>::empty());
        assert(pieces@.map_values(|p: Vec<u8>| p@) + seq![cur@] =~= split_spec(s@.take(0), sep));
    }
    while i < s.len()
        invariant
            i <= s.len(),
            pieces@.map_values(|p: Vec<u8>| p@) + seq![cur@] == split_spec(s@.take(i as int), sep),
        decreases s.len() - i,
    {
        let ghost prev = pieces@.map_values(|p: Vec<u8>| p@) + seq![cur@];
        let c = s[i];
        proof {
            let t = s@.take(i + 1);
            assert(t.take(t.len() - 1) =~= s@.take(i as int));
            assert(t[t.len() - 1] == s@[i as int]);
        }
        if c == sep {
            pieces.push(cur);
            cur = Vec::new();
            proof {
                assert(pieces@.map_values(|p: Vec<u8>| p@) + seq![cur@] =~= prev + seq![
                    Seq::<u8>::empty(),
                ]);
            }
        } else {
            cur.push(c);
            proof {
                assert(prev.last() == prev[prev.len() - 1]);
                assert(pieces@.map_values(|p: Vec<u8>| p@) + seq![cur@] =~= prev.update(
                    prev.len() - 1,
                    prev.last().push(c),
                ));
            }
        }
        i = i + 1;
    }
    proof {
        assert(s@.take(i as int) =~= s@);
    }
    pieces.push(cur);
    proof {
        assert(pieces@.map_values(|p: Vec<u8>| p@) =~= split_spec(s@, sep));
    }
    pieces
}

/// Join pieces with a separator between them, defined piece by piece from
/// the end: the inverse of `split_spec` when no piece holds the separator.
pub open spec fn join_spec(ps: Seq<Seq<u8>>, sep: u8) -> Seq<u8>
    decreases ps.len(),
{
    if ps.len() == 0 {
        Seq::empty()
    } else if ps.len() == 1 {
        ps[0]
    } else {
        join_spec(ps.take(ps.len() - 1), sep) + seq![sep] + ps.last()
    }
}

/// Join byte strings with `sep` between them.
pub fn join(ps: &Vec<Vec<u8>>, sep: u8) -> (r: Vec<u8>)
    ensures
        r@ == join_spec(ps@.map_values(|p: Vec<u8>| p@), sep),
{
    let ghost m = ps@.map_values(|p: Vec<u8>| p@);
    let mut r: Vec<u8> = Vec::new();
    let mut i: usize = 0;
    proof {
        assert(m.take(0) =~= Seq::<Seq<u8>>::empty());
    }
    while i < ps.len()
        invariant
            i <= ps.len(),
            m == ps@.map_values(|p: Vec<u8>| p@),
            r@ == join_spec(m.take(i as int), sep),
        decreases ps.len() - i,
    {
        if i > 0 {
            r.push(sep);
        }
        let ghost r0 = r@;
        let mut j: usize = 0;
        while j < ps[i].len()
            invariant
                i < ps.len(),
                j <= ps@[i as int]@.len(),
                r@ == r0 + ps@[i as int]@.subrange(0, j as int),
            decreases ps@[i as int]@.len() - j,
        {
            r.push(ps[i][j]);
            proof {
                assert(r@ =~= r0 + ps@[i as int]@.subrange(0, j + 1 as int));
            }
            j = j + 1;
        }
        proof {
            let t = m.take(i + 1);
            assert(ps@[i as int]@.subrange(0, ps@[i as int]@.len() as int) =~= m[i as int]);
            assert(t.take(t.len() - 1) =~= m.take(i as int));
            assert(t.last() == m[i as int]);
            if i == 0 {
                assert(r@ =~= m[0]);
                assert(join_spec(t, sep) == t[0]);
            } else {
                assert(r@ =~= join_spec(m.take(i as int), sep) + seq![sep] + m[i as int]);
            }
        }
        i = i + 1;
    }
    proof {
        assert(m.take(i as int) =~= m);
    }
    r
}

/// Whether `pre` is a prefix of `s`.
pub open spec fn is_prefix(pre: Seq<u8>, s: Seq<u8>) -> bool {
    pre.len() <= s.len() && s.take(pre.len() as int) == pre
}

/// Decide whether `pre` is a prefix of `s`.
pub fn starts_with(s: &Vec<u8>, pre: &Vec<u8>) -> (r: bool)
    ensures
        r == is_prefix(pre@, s@),
{
    if pre.len() > s.len() {
        assert(!is_prefix(pre@, s@));
        return false;
    }
    let mut i: usize = 0;
    while i < pre.len()
        invariant
            i <= pre.len() <= s.len(),
            forall|j: int| 0 <= j < i ==> s@[j] == pre@[j],
        decreases pre.len() - i,
    {
        if s[i] != pre[i] {
            assert(s@.take(pre@.len() as int)[i as int] != pre@[i as int]);
            return false;
        }
        i = i + 1;
    }
    proof {
        assert(s@.take(pre@.len() as int) =~= pre@);
    }
    true
}


/// Appending separator-free bytes extends the last piece of a split.
pub proof fn lemma_split_append_no_sep(x: Seq<u8>, y: Seq<u8>, sep: u8)
    requires
        forall|i: int| 0 <= i < y.len() ==> y[i] != sep,
    ensures
        split_spec(x + y, sep) == split_spec(x, sep).update(
            split_spec(x, sep).len() - 1,
            split_spec(x, sep).last() + y,
        ),
    decreases y.len(),
{
    lemma_split_spec_len(x, sep);
    let sx = split_spec(x, sep);
    if y.len() == 0 {
        assert(x + y =~= x);
        assert(sx.last() + y =~= sx.last());
        assert(sx.update(sx.len() - 1, sx.last()) =~= sx);
    } else {
        let y2 = y.drop_last();
        let c = y.last();
        assert(forall|i: int| 0 <= i < y2.len() ==> y2[i] == y[i]);
        lemma_split_append_no_sep(x, y2, sep);
        let s = x + y;
        assert(s.len() > 0);
        assert(s[s.len() - 1] == c);
        assert(c != sep);
        assert(s.take(s.len() - 1) =~= x + y2);
        let prev = split_spec(x + y2, sep);
        assert(split_spec(s, sep) == prev.update(prev.len() - 1, prev.last().push(c)));
        assert(prev == sx.update(sx.len() - 1, sx.last() + y2));
        assert(prev.len() == sx.len());
        assert(prev.last() == sx.last() + y2);
        assert(prev.last().push(c) =~= sx.last() + y);
        assert(prev.update(prev.len() - 1, prev.last().push(c)) =~= sx.update(
            sx.len() - 1,
            sx.last() + y,
        ));
    }
}

/// Appending the separator itself closes the current piece and opens
/// an empty one.
pub proof fn lemma_split_append_sep(x: Seq<u8>, sep: u8)
    ensures
        split_spec(x.push(sep), sep) == split_spec(x, sep) + seq![Seq::<u8>::empty()],
{
    let s = x.push(sep);
    assert(s.len() > 0);
    assert(s[s.len() - 1] == sep);
    assert(s.take(s.len() - 1) =~= x);
}

/// Splitting separator-free bytes yields that one piece.
pub proof fn lemma_split_no_sep(y: Seq<u8>, sep: u8)
    requires
        forall|i: int| 0 <= i < y.len() ==> y[i] != sep,
    ensures
        split_spec(y, sep) == seq![y],
{
    lemma_split_append_no_sep(Seq::empty(), y, sep);
    assert(Seq::<u8>::empty() + y =~= y);
    assert(split_spec(Seq::<u8>::empty(), sep) == seq![Seq::<u8>::empty()]);
    assert(Seq::<u8>::empty() + y =~= y);
    assert(seq![Seq::<u8>::empty()].update(0, Seq::<u8>::empty() + y) =~= seq![y]);
}

/// A byte string whose ends are not blank is already trimmed.
pub proof fn lemma_trim_noop(s: Seq<u8>)
    requires
        s.len() > 0,
        !is_blank(s[0]),
        !is_blank(s[s.len() - 1]),
    ensures
        trim_spec(s) == s,
{
}

} // verus!

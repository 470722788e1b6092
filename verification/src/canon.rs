//! Canonical ordering of path component lists.
//!
//! Serialization walks a tree's leaf paths in one fixed order so that
//! the same set of leaves always encodes, and therefore hashes, the
//! same way.  Paths are compared component by component, each component
//! byte-wise.

use vstd::prelude::*;
use crate::bytes::{lex_le, lemma_lex_le_total, lemma_lex_le_antisym, lemma_lex_le_trans};

verus! {

/// The component sequence of an item, as mathematical values.
pub open spec fn item_view(it: Vec<Vec<u8>>) -> Seq<Seq<u8>> {
    it@.map_values(|c: Vec<u8>| c@)
}

/// The component sequences of an item list.
pub open spec fn items_view(items: Seq<Vec<Vec<u8>>>) -> Seq<Seq<Seq<u8>>> {
    items.map_values(|it: Vec<Vec<u8>>| item_view(it))
}

/// Component-wise order on paths: earlier components decide first,
/// a proper prefix comes before its extensions.
pub open spec fn comp_le(a: Seq<Seq<u8>>, b: Seq<Seq<u8>>) -> bool
    decreases a.len(),
{
    if a.len() == 0 {
        true
    } else if b.len() == 0 {
        false
    } else if a[0] == b[0] {
        comp_le(a.skip(1), b.skip(1))
    } else {
        lex_le(a[0], b[0])
    }
}

/// Strict component-wise order.
pub open spec fn comp_lt(a: Seq<Seq<u8>>, b: Seq<Seq<u8>>) -> bool {
    comp_le(a, b) && a != b
}

pub proof fn lemma_comp_le_total(a: Seq<Seq<u8>>, b: Seq<Seq<u8>>)
    ensures
        comp_le(a, b) || comp_le(b, a),
    decreases a.len(),
{
    if a.len() == 0 || b.len() == 0 {
    } else if a[0] == b[0] {
        lemma_comp_le_total(a.skip(1), b.skip(1));
    } else {
        lemma_lex_le_total(a[0], b[0]);
        if lex_le(a[0], b[0]) && lex_le(b[0], a[0]) {
            lemma_lex_le_antisym(a[0], b[0]);
        }
    }
}

pub proof fn lemma_comp_le_antisym(a: Seq<Seq<u8>>, b: Seq<Seq<u8>>)
    requires
        comp_le(a, b),
        comp_le(b, a),
    ensures
        a == b,
    decreases a.len(),
{
    if a.len() == 0 {
        assert(b.len() == 0);
        assert(a =~= b);
    } else {
        assert(b.len() > 0);
        if a[0] == b[0] {
            lemma_comp_le_antisym(a.skip(1), b.skip(1));
            assert(forall|i: int| 1 <= i < a.len() ==> a[i] == a.skip(1)[i - 1]);
            assert(forall|i: int| 1 <= i < b.len() ==> b[i] == b.skip(1)[i - 1]);
            assert(a =~= b);
        } else {
            lemma_lex_le_antisym(a[0], b[0]);
        }
    }
}

pub proof fn lemma_comp_le_trans(a: Seq<Seq<u8>>, b: Seq<Seq<u8>>, c: Seq<Seq<u8>>)
    requires
        comp_le(a, b),
        comp_le(b, c),
    ensures
        comp_le(a, c),
    decreases a.len(),
{
    if a.len() == 0 || b.len() == 0 || c.len() == 0 {
    } else if a[0] == b[0] && b[0] == c[0] {
        lemma_comp_le_trans(a.skip(1), b.skip(1), c.skip(1));
    } else if a[0] == b[0] {
    } else if b[0] == c[0] {
    } else {
        if !lex_le(a[0], c[0]) {
            lemma_lex_le_total(a[0], c[0]);
            lemma_lex_le_trans(c[0], a[0], b[0]);
            lemma_lex_le_antisym(b[0], c[0]);
        }
        if a[0] == c[0] {
            lemma_lex_le_total(b[0], a[0]);
            if lex_le(b[0], a[0]) {
                lemma_lex_le_antisym(a[0], b[0]);
            }
        }
    }
}

/// Decide equality of two component lists.
pub fn comp_eq_exec(a: &Vec<Vec<u8>>, b: &Vec<Vec<u8>>) -> (r: bool)
    ensures
        r == (item_view(*a) == item_view(*b)),
{
    if a.len() != b.len() {
        proof {
            assert(item_view(*a).len() == a@.len());
            assert(item_view(*b).len() == b@.len());
        }
        return false;
    }
    let mut i: usize = 0;
    while i < a.len()
        invariant
            i <= a.len(),
            a@.len() == b@.len(),
            forall|j: int| 0 <= j < i ==> item_view(*a)[j] == item_view(*b)[j],
        decreases a.len() - i,
    {
        proof {
            assert(item_view(*a)[i as int] == a@[i as int]@);
            assert(item_view(*b)[i as int] == b@[i as int]@);
        }
        if !crate::bytes::bytes_eq(&a[i], &b[i]) {
            proof {
                assert(item_view(*a)[i as int] != item_view(*b)[i as int]);
            }
            return false;
        }
        i = i + 1;
    }
    proof {
        assert(item_view(*a) =~= item_view(*b));
    }
    true
}

/// Decide the component-wise order.
pub fn comp_le_exec(a: &Vec<Vec<u8>>, b: &Vec<Vec<u8>>) -> (r: bool)
    ensures
        r == comp_le(item_view(*a), item_view(*b)),
{
    let ghost av = item_view(*a);
    let ghost bv = item_view(*b);
    proof {
        assert(av.skip(0) =~= av);
        assert(bv.skip(0) =~= bv);
    }
    let mut i: usize = 0;
    loop
        invariant
            i <= a.len(),
            i <= b.len(),
            av == item_view(*a),
            bv == item_view(*b),
            av.len() == a@.len(),
            bv.len() == b@.len(),
            comp_le(av, bv) == comp_le(av.skip(i as int), bv.skip(i as int)),
        decreases a.len() - i,
    {
        if i == a.len() {
            assert(av.skip(i as int).len() == 0);
            return true;
        }
        if i == b.len() {
            assert(bv.skip(i as int).len() == 0);
            assert(av.skip(i as int).len() > 0);
            return false;
        }
        proof {
            assert(av.skip(i as int)[0] == av[i as int]);
            assert(bv.skip(i as int)[0] == bv[i as int]);
            assert(av[i as int] == a@[i as int]@);
            assert(bv[i as int] == b@[i as int]@);
        }
        if crate::bytes::bytes_eq(&a[i], &b[i]) {
            proof {
                assert(av.skip(i as int).skip(1) =~= av.skip(i + 1));
                assert(bv.skip(i as int).skip(1) =~= bv.skip(i + 1));
            }
            i = i + 1;
        } else {
            return crate::bytes::lex_le_bytes(&a[i], &b[i]);
        }
    }
}

/// Decide the strict component-wise order.
pub fn comp_lt_exec(a: &Vec<Vec<u8>>, b: &Vec<Vec<u8>>) -> (r: bool)
    ensures
        r == comp_lt(item_view(*a), item_view(*b)),
{
    comp_le_exec(a, b) && !comp_eq_exec(a, b)
}

/// Copy a component list.
pub fn copy_item(it: &Vec<Vec<u8>>) -> (r: Vec<Vec<u8>>)
    ensures
        item_view(r) == item_view(*it),
{
    let mut r: Vec<Vec<u8>> = Vec::new();
    let mut i: usize = 0;
    proof {
        assert(item_view(r) =~= item_view(*it).take(0));
    }
    while i < it.len()
        invariant
            i <= it.len(),
            item_view(r) == item_view(*it).take(i as int),
        decreases it.len() - i,
    {
        proof {
            assert(item_view(*it)[i as int] == it@[i as int]@);
        }
        let c = crate::bytes::copy_bytes(&it[i]);
        let ghost prev = item_view(r);
        r.push(c);
        proof {
            assert(item_view(r) =~= prev.push(it@[i as int]@));
            assert(prev.push(it@[i as int]@) =~= item_view(*it).take(i + 1 as int));
        }
        i = i + 1;
    }
    proof {
        assert(item_view(*it).take(i as int) =~= item_view(*it));
    }
    r
}

/// Insert a path into a sorted duplicate-free list: it lands before the
/// first entry it does not strictly follow, and an equal entry absorbs
/// it.
pub open spec fn insert_sorted(x: Seq<Seq<u8>>, s: Seq<Seq<Seq<u8>>>) -> Seq<Seq<Seq<u8>>>
    decreases s.len(),
{
    if s.len() == 0 {
        seq![x]
    } else if x == s[0] {
        s
    } else if comp_lt(x, s[0]) {
        seq![x] + s
    } else {
        seq![s[0]] + insert_sorted(x, s.skip(1))
    }
}

/// The canonical form of an item list: each item inserted, from the
/// last to the first, into a sorted duplicate-free list.
pub open spec fn canon_spec(items: Seq<Seq<Seq<u8>>>) -> Seq<Seq<Seq<u8>>>
    decreases items.len(),
{
    if items.len() == 0 {
        Seq::empty()
    } else {
        insert_sorted(items[0], canon_spec(items.skip(1)))
    }
}

proof fn lemma_insert_sorted_skip(x: Seq<Seq<u8>>, s: Seq<Seq<Seq<u8>>>, j: int)
    requires
        0 <= j <= s.len(),
        forall|k: int| 0 <= k < j ==> comp_lt(#[trigger] s[k], x),
    ensures
        insert_sorted(x, s) == s.take(j) + insert_sorted(x, s.skip(j)),
    decreases j,
{
    if j == 0 {
        assert(s.skip(0) =~= s);
        assert(s.take(0) + insert_sorted(x, s) =~= insert_sorted(x, s));
    } else {
        assert(comp_lt(s[0], x));
        assert(x != s[0]);
        assert(!comp_lt(x, s[0])) by {
            if comp_lt(x, s[0]) {
                lemma_comp_le_antisym(x, s[0]);
            }
        }
        assert(forall|k: int| 0 <= k < j - 1 ==> s.skip(1)[k] == s[k + 1]);
        lemma_insert_sorted_skip(x, s.skip(1), j - 1);
        assert(s.skip(1).take(j - 1) =~= s.take(j).skip(1));
        assert(s.skip(1).skip(j - 1) =~= s.skip(j));
        assert(seq![s[0]] + (s.skip(1).take(j - 1) + insert_sorted(x, s.skip(j))) =~= s.take(j)
            + insert_sorted(x, s.skip(j)));
    }
}

/// Insert one path into a sorted duplicate-free vector.
fn insert_sorted_exec(x: Vec<Vec<u8>>, s: Vec<Vec<Vec<u8>>>) -> (r: Vec<Vec<Vec<u8>>>)
    ensures
        items_view(r@) == insert_sorted(item_view(x), items_view(s@)),
{
    let ghost xv = item_view(x);
    let ghost sv = items_view(s@);
    let mut j: usize = 0;
    while j < s.len() && comp_lt_exec(&s[j], &x)
        invariant
            j <= s.len(),
            xv == item_view(x),
            sv == items_view(s@),
            forall|k: int| 0 <= k < j ==> comp_lt(#[trigger] sv[k], xv),
        decreases s.len() - j,
    {
        proof {
            assert(sv[j as int] == item_view(s@[j as int]));
        }
        j = j + 1;
    }
    proof {
        if j < s.len() {
            assert(sv[j as int] == item_view(s@[j as int]));
        }
        lemma_insert_sorted_skip(xv, sv, j as int);
    }
    if j == s.len() {
        let mut r = s;
        r.push(x);
        proof {
            assert(sv.skip(j as int).len() == 0);
            assert(insert_sorted(xv, sv.skip(j as int)) == seq![xv]);
            assert(items_view(r@) =~= sv.take(j as int) + seq![xv]);
        }
        return r;
    }
    if comp_eq_exec(&s[j], &x) {
        proof {
            assert(sv.skip(j as int)[0] == sv[j as int]);
            assert(insert_sorted(xv, sv.skip(j as int)) == sv.skip(j as int));
            assert(sv.take(j as int) + sv.skip(j as int) =~= sv);
            assert(items_view(s@) == insert_sorted(xv, sv));
        }
        return s;
    }
    proof {
        let rest = sv.skip(j as int);
        assert(rest[0] == sv[j as int]);
        assert(xv != sv[j as int]);
        assert(!comp_lt(sv[j as int], xv));
        assert(comp_lt(xv, sv[j as int])) by {
            lemma_comp_le_total(xv, sv[j as int]);
        }
        assert(insert_sorted(xv, rest) == seq![xv] + rest);
    }
    let mut r = s;
    r.insert(j, x);
    proof {
        assert(items_view(r@) =~= sv.take(j as int) + (seq![xv] + sv.skip(j as int)));
    }
    r
}

/// Bring an item list into canonical form: sorted, duplicates dropped.
pub fn canon_items(items: &Vec<Vec<Vec<u8>>>) -> (r: Vec<Vec<Vec<u8>>>)
    ensures
        items_view(r@) == canon_spec(items_view(items@)),
{
    let ghost iv = items_view(items@);
    let mut r: Vec<Vec<Vec<u8>>> = Vec::new();
    let mut i: usize = items.len();
    proof {
        assert(iv.skip(items@.len() as int).len() == 0);
        assert(items_view(r@) =~= canon_spec(iv.skip(items@.len() as int)));
    }
    while i > 0
        invariant
            i <= items.len(),
            iv == items_view(items@),
            items_view(r@) == canon_spec(iv.skip(i as int)),
        decreases i,
    {
        i = i - 1;
        proof {
            assert(iv.skip(i as int)[0] == iv[i as int]);
            assert(iv[i as int] == item_view(items@[i as int]));
            assert(iv.skip(i as int).skip(1) =~= iv.skip(i + 1));
        }
        let x = copy_item(&items[i]);
        r = insert_sorted_exec(x, r);
    }
    proof {
        assert(iv.skip(0) =~= iv);
    }
    r
}


pub proof fn lemma_insert_sorted_nonempty(x: Seq<Seq<u8>>, s: Seq<Seq<Seq<u8>>>)
    requires
        x.len() > 0,
        forall|k: int| 0 <= k < s.len() ==> (#[trigger] s[k]).len() > 0,
    ensures
        forall|k: int|
            0 <= k < insert_sorted(x, s).len() ==> (#[trigger] insert_sorted(x, s)[k]).len() > 0,
    decreases s.len(),
{
    let t = insert_sorted(x, s);
    if s.len() == 0 {
        assert(t[0] == x);
    } else if x == s[0] {
    } else if comp_lt(x, s[0]) {
        assert(t[0] == x);
        assert(forall|k: int| 1 <= k < t.len() ==> t[k] == s[k - 1]);
    } else {
        assert(forall|k: int| 0 <= k < s.skip(1).len() ==> s.skip(1)[k] == s[k + 1]);
        lemma_insert_sorted_nonempty(x, s.skip(1));
        assert(t[0] == s[0]);
        assert(forall|k: int| 1 <= k < t.len() ==> t[k] == insert_sorted(x, s.skip(1))[k - 1]);
    }
}

pub proof fn lemma_canon_nonempty(items: Seq<Seq<Seq<u8>>>)
    requires
        forall|k: int| 0 <= k < items.len() ==> (#[trigger] items[k]).len() > 0,
    ensures
        forall|k: int|
            0 <= k < canon_spec(items).len() ==> (#[trigger] canon_spec(items)[k]).len() > 0,
    decreases items.len(),
{
    if items.len() > 0 {
        assert(forall|k: int|
            0 <= k < items.skip(1).len() ==> items.skip(1)[k] == items[k + 1]);
        lemma_canon_nonempty(items.skip(1));
        lemma_insert_sorted_nonempty(items[0], canon_spec(items.skip(1)));
    }
}


/// Strict ascending order throughout a path list.
pub open spec fn strictly_sorted(s: Seq<Seq<Seq<u8>>>) -> bool {
    forall|i: int, j: int| 0 <= i < j < s.len() ==> comp_lt(#[trigger] s[i], #[trigger] s[j])
}

/// Whether a path occurs in a list.
pub open spec fn in_items(s: Seq<Seq<Seq<u8>>>, x: Seq<Seq<u8>>) -> bool {
    exists|i: int| 0 <= i < s.len() && s[i] == x
}

pub proof fn lemma_insert_sorted_props(x: Seq<Seq<u8>>, s: Seq<Seq<Seq<u8>>>)
    requires
        strictly_sorted(s),
    ensures
        strictly_sorted(insert_sorted(x, s)),
        forall|y: Seq<Seq<u8>>|
            #[trigger] in_items(insert_sorted(x, s), y) <==> (y == x || in_items(s, y)),
    decreases s.len(),
{
    let t = insert_sorted(x, s);
    if s.len() == 0 {
        assert(t == seq![x]);
        assert forall|y: Seq<Seq<u8>>| in_items(t, y) <==> (y == x || in_items(s, y)) by {
            if in_items(t, y) {
                let i = choose|i: int| 0 <= i < t.len() && t[i] == y;
                assert(i == 0);
            }
            if y == x {
                assert(t[0] == y);
            }
        }
    } else if x == s[0] {
        assert(t == s);
        assert forall|y: Seq<Seq<u8>>| in_items(t, y) <==> (y == x || in_items(s, y)) by {
            if y == x {
                assert(s[0] == y);
            }
        }
    } else if comp_lt(x, s[0]) {
        assert(t == seq![x] + s);
        assert(t[0] == x);
        assert(forall|i: int| 1 <= i < t.len() ==> t[i] == s[i - 1]);
        assert forall|i: int, j: int| 0 <= i < j < t.len() implies comp_lt(
            #[trigger] t[i],
            #[trigger] t[j],
        ) by {
            if i == 0 {
                if j > 1 {
                    assert(comp_lt(s[0], s[j - 1]));
                    lemma_comp_le_trans(x, s[0], s[j - 1]);
                    if x == s[j - 1] {
                        lemma_comp_le_antisym(x, s[0]);
                    }
                }
            }
        }
        assert forall|y: Seq<Seq<u8>>| in_items(t, y) <==> (y == x || in_items(s, y)) by {
            if in_items(t, y) {
                let i = choose|i: int| 0 <= i < t.len() && t[i] == y;
                if i > 0 {
                    assert(s[i - 1] == y);
                }
            }
            if y == x {
                assert(t[0] == y);
            }
            if in_items(s, y) {
                let i = choose|i: int| 0 <= i < s.len() && s[i] == y;
                assert(t[i + 1] == y);
            }
        }
    } else {
        assert(strictly_sorted(s.skip(1))) by {
            assert(forall|i: int| 0 <= i < s.skip(1).len() ==> s.skip(1)[i] == s[i + 1]);
        }
        lemma_insert_sorted_props(x, s.skip(1));
        let u = insert_sorted(x, s.skip(1));
        assert(t == seq![s[0]] + u);
        assert(t[0] == s[0]);
        assert(forall|i: int| 1 <= i < t.len() ==> t[i] == u[i - 1]);
        assert(comp_lt(s[0], x)) by {
            lemma_comp_le_total(x, s[0]);
        }
        assert forall|i: int, j: int| 0 <= i < j < t.len() implies comp_lt(
            #[trigger] t[i],
            #[trigger] t[j],
        ) by {
            if i == 0 {
                assert(t[j] == u[j - 1]);
                assert(in_items(u, u[j - 1]));
                if u[j - 1] == x {
                } else {
                    assert(in_items(s.skip(1), u[j - 1]));
                    let w = choose|w: int|
                        0 <= w < s.skip(1).len() && s.skip(1)[w] == u[j - 1];
                    assert(s[w + 1] == u[j - 1]);
                    assert(comp_lt(s[0], s[w + 1]));
                }
            } else {
                assert(t[i] == u[i - 1] && t[j] == u[j - 1]);
            }
        }
        assert forall|y: Seq<Seq<u8>>| in_items(t, y) <==> (y == x || in_items(s, y)) by {
            if in_items(t, y) {
                let i = choose|i: int| 0 <= i < t.len() && t[i] == y;
                if i == 0 {
                    assert(s[0] == y);
                } else {
                    assert(in_items(u, y));
                    if y != x {
                        assert(in_items(s.skip(1), y));
                        let w = choose|w: int| 0 <= w < s.skip(1).len() && s.skip(1)[w] == y;
                        assert(s[w + 1] == y);
                    }
                }
            }
            if y == x {
                assert(in_items(u, y));
                let w = choose|w: int| 0 <= w < u.len() && u[w] == y;
                assert(t[w + 1] == y);
            }
            if in_items(s, y) {
                let i = choose|i: int| 0 <= i < s.len() && s[i] == y;
                if i == 0 {
                    assert(t[0] == y);
                } else {
                    assert(s.skip(1)[i - 1] == y);
                    assert(in_items(u, y));
                    let w = choose|w: int| 0 <= w < u.len() && u[w] == y;
                    assert(t[w + 1] == y);
                }
            }
        }
    }
}

pub proof fn lemma_canon_props(items: Seq<Seq<Seq<u8>>>)
    ensures
        strictly_sorted(canon_spec(items)),
        forall|y: Seq<Seq<u8>>|
            #[trigger] in_items(canon_spec(items), y) <==> in_items(items, y),
    decreases items.len(),
{
    if items.len() == 0 {
        assert forall|y: Seq<Seq<u8>>|
            in_items(canon_spec(items), y) <==> in_items(items, y) by {}
    } else {
        lemma_canon_props(items.skip(1));
        lemma_insert_sorted_props(items[0], canon_spec(items.skip(1)));
        assert forall|y: Seq<Seq<u8>>|
            in_items(canon_spec(items), y) <==> in_items(items, y) by {
            if in_items(items, y) {
                let i = choose|i: int| 0 <= i < items.len() && items[i] == y;
                if i > 0 {
                    assert(items.skip(1)[i - 1] == y);
                    assert(in_items(items.skip(1), y));
                }
            }
            if in_items(items.skip(1), y) {
                let i = choose|i: int| 0 <= i < items.skip(1).len() && items.skip(1)[i] == y;
                assert(items[i + 1] == y);
            }
        }
    }
}

/// Two strictly sorted lists with the same members are the same list.
pub proof fn lemma_sorted_unique_eq(a: Seq<Seq<Seq<u8>>>, b: Seq<Seq<Seq<u8>>>)
    requires
        strictly_sorted(a),
        strictly_sorted(b),
        forall|y: Seq<Seq<u8>>| #[trigger] in_items(a, y) <==> in_items(b, y),
    ensures
        a == b,
    decreases a.len(),
{
    if a.len() == 0 {
        if b.len() > 0 {
            assert(in_items(b, b[0]));
            assert(in_items(a, b[0]));
            let i = choose|i: int| 0 <= i < a.len() && a[i] == b[0];
        }
        assert(a =~= b);
    } else {
        assert(in_items(a, a[0]));
        assert(in_items(b, a[0]));
        let j = choose|j: int| 0 <= j < b.len() && b[j] == a[0];
        assert(in_items(b, b[0]));
        assert(in_items(a, b[0]));
        let i = choose|i: int| 0 <= i < a.len() && a[i] == b[0];
        assert(a[0] == b[0]) by {
            if j == 0 {
            } else if i == 0 {
            } else {
                assert(comp_lt(b[0], b[j]));
                assert(comp_lt(a[0], a[i]));
                lemma_comp_le_antisym(a[0], b[0]);
            }
        }
        assert(strictly_sorted(a.skip(1))) by {
            assert(forall|m: int| 0 <= m < a.skip(1).len() ==> a.skip(1)[m] == a[m + 1]);
        }
        assert(strictly_sorted(b.skip(1))) by {
            assert(forall|m: int| 0 <= m < b.skip(1).len() ==> b.skip(1)[m] == b[m + 1]);
        }
        assert forall|y: Seq<Seq<u8>>|
            in_items(a.skip(1), y) <==> in_items(b.skip(1), y) by {
            if in_items(a.skip(1), y) {
                let m = choose|m: int| 0 <= m < a.skip(1).len() && a.skip(1)[m] == y;
                assert(a[m + 1] == y);
                assert(comp_lt(a[0], y));
                assert(in_items(a, y));
                assert(in_items(b, y));
                let w = choose|w: int| 0 <= w < b.len() && b[w] == y;
                assert(w > 0) by {
                    if w == 0 {
                        assert(y == b[0]);
                        assert(y == a[0]);
                        assert(comp_lt(a[0], a[0]));
                    }
                }
                assert(b.skip(1)[w - 1] == y);
            }
            if in_items(b.skip(1), y) {
                let m = choose|m: int| 0 <= m < b.skip(1).len() && b.skip(1)[m] == y;
                assert(b[m + 1] == y);
                assert(comp_lt(b[0], y));
                assert(in_items(b, y));
                assert(in_items(a, y));
                let w = choose|w: int| 0 <= w < a.len() && a[w] == y;
                assert(w > 0) by {
                    if w == 0 {
                        assert(y == a[0]);
                        assert(y == b[0]);
                        assert(comp_lt(b[0], b[0]));
                    }
                }
                assert(a.skip(1)[w - 1] == y);
            }
        }
        lemma_sorted_unique_eq(a.skip(1), b.skip(1));
        assert(forall|m: int| 1 <= m < a.len() ==> a[m] == a.skip(1)[m - 1]);
        assert(forall|m: int| 1 <= m < b.len() ==> b[m] == b.skip(1)[m - 1]);
        assert(a =~= b);
    }
}

/// Law: canonicalization is a function of the members alone — two path
/// lists holding the same paths, in any order and with any repetition,
/// canonicalize to the same list.
pub proof fn lemma_canon_same_members(items1: Seq<Seq<Seq<u8>>>, items2: Seq<Seq<Seq<u8>>>)
    requires
        forall|y: Seq<Seq<u8>>| #[trigger] in_items(items1, y) <==> in_items(items2, y),
    ensures
        canon_spec(items1) == canon_spec(items2),
{
    lemma_canon_props(items1);
    lemma_canon_props(items2);
    assert forall|y: Seq<Seq<u8>>|
        #[trigger] in_items(canon_spec(items1), y) <==> in_items(canon_spec(items2), y) by {
        assert(in_items(canon_spec(items1), y) <==> in_items(items1, y));
        assert(in_items(items1, y) <==> in_items(items2, y));
        assert(in_items(canon_spec(items2), y) <==> in_items(items2, y));
    }
    lemma_sorted_unique_eq(canon_spec(items1), canon_spec(items2));
}

} // verus!

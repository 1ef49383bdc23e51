//! Stable ordering of records by a byte-string key.
use vstd::prelude::*;
use crate::bytes::{lex_le, lex_le_bytes, lemma_lex_total, lemma_lex_trans};

verus! {

/// A value with a byte-string key to order by.
pub trait Keyed: Sized {
    spec fn sort_key(&self) -> Seq<u8>;
}

/// A record whose key can be read at run time.
pub trait SortKey: Keyed {
    fn key_bytes(&self) -> (r: &[u8])
        ensures
            r@ == self.sort_key(),
    ;
}

impl Keyed for Seq<u8> {
    open spec fn sort_key(&self) -> Seq<u8> {
        *self
    }
}

impl Keyed for Vec<u8> {
    open spec fn sort_key(&self) -> Seq<u8> {
        self@
    }
}

impl SortKey for Vec<u8> {
    fn key_bytes(&self) -> (r: &[u8]) {
        self.as_slice()
    }
}

/// `x` placed before the first element of `s` whose key it does not exceed.
pub open spec fn insert_sorted<T: Keyed>(s: Seq<T>, x: T) -> Seq<T>
    decreases s.len(),
{
    if s.len() == 0 {
        seq![x]
    } else if lex_le(x.sort_key(), s[0].sort_key()) {
        seq![x] + s
    } else {
        seq![s[0]] + insert_sorted(s.drop_first(), x)
    }
}

/// `s` ordered by key by inserting its elements one by one, first to last.
pub open spec fn sort_seq<T: Keyed>(s: Seq<T>) -> Seq<T>
    decreases s.len(),
{
    if s.len() == 0 {
        s
    } else {
        insert_sorted(sort_seq(s.drop_last()), s.last())
    }
}

/// Keys ascend (not necessarily strictly) along `s`.
pub open spec fn keys_ascending<T: Keyed>(s: Seq<T>) -> bool {
    forall|i: int, j: int| 0 <= i < j < s.len() ==> lex_le(#[trigger] s[i].sort_key(), #[trigger] s[j].sort_key())
}

/// Keys strictly ascend along `s`.
pub open spec fn keys_strictly_ascending<T: Keyed>(s: Seq<T>) -> bool {
    forall|i: int, j: int| 0 <= i < j < s.len() ==>
        lex_le(#[trigger] s[i].sort_key(), #[trigger] s[j].sort_key()) && s[i].sort_key() != s[j].sort_key()
}

/// No two elements of `s` share a key.
pub open spec fn keys_distinct<T: Keyed>(s: Seq<T>) -> bool {
    forall|i: int, j: int| 0 <= i < j < s.len() ==> (#[trigger] s[i]).sort_key() != (#[trigger] s[j]).sort_key()
}

proof fn lemma_insert_at<T: Keyed>(s: Seq<T>, x: T, j: int)
    requires
        0 <= j <= s.len(),
        forall|k: int| 0 <= k < j ==> !lex_le(x.sort_key(), #[trigger] s[k].sort_key()),
        j == s.len() || lex_le(x.sort_key(), s[j].sort_key()),
    ensures
        insert_sorted(s, x) == s.subrange(0, j) + seq![x] + s.subrange(j, s.len() as int),
    decreases j,
{
    if j == 0 {
        assert(s.subrange(0, 0) + seq![x] + s.subrange(0, s.len() as int) == seq![x] + s);
    } else {
        let t = s.drop_first();
        assert forall|k: int| 0 <= k < j - 1 implies !lex_le(x.sort_key(), #[trigger] t[k].sort_key()) by {
            assert(t[k] == s[k + 1]);
        }
        lemma_insert_at(t, x, j - 1);
        assert(s.subrange(0, j) + seq![x] + s.subrange(j, s.len() as int)
            == seq![s[0]] + (t.subrange(0, j - 1) + seq![x] + t.subrange(j - 1, t.len() as int)));
    }
}

/// Orders `v` by key; among equal keys the earlier element comes first.
pub fn sort_by_key<T: SortKey>(v: Vec<T>) -> (r: Vec<T>)
    ensures
        r@ == sort_seq(v@),
{
    let ghost orig = v@;
    let n: usize = v.len();
    let mut rest = v;
    let mut res: Vec<T> = Vec::new();
    let mut i: usize = 0;
    assert(orig.subrange(0, 0) == Seq::<T>::empty());
    while rest.len() > 0
        invariant
            i + rest@.len() == orig.len(),
            rest@ == orig.subrange(i as int, orig.len() as int),
            res@ == sort_seq(orig.subrange(0, i as int)),
            orig.len() == n,
        decreases rest@.len(),
    {
        assert(rest@[0] == orig[i as int]);
        let x = rest.remove(0);
        let mut j: usize = 0;
        while j < res.len() && !lex_le_bytes(x.key_bytes(), res[j].key_bytes())
            invariant
                0 <= j <= res@.len(),
                forall|k: int| 0 <= k < j ==> !lex_le(x.sort_key(), #[trigger] res@[k].sort_key()),
            decreases res@.len() - j,
        {
            j = j + 1;
        }
        proof {
            lemma_insert_at(res@, x, j as int);
            let p = orig.subrange(0, i + 1);
            assert(p.len() == i + 1);
            assert(p.drop_last() == orig.subrange(0, i as int));
            assert(p.last() == x);
        }
        res.insert(j, x);
        assert(res@ == res@.subrange(0, j as int) + seq![x] + res@.subrange(j + 1, res@.len() as int));
        i = i + 1;
    }
    assert(orig.subrange(0, orig.len() as int) == orig);
    res
}

/// Inserting keeps the length and adds exactly `x`.
pub proof fn lemma_insert_elements<T: Keyed>(s: Seq<T>, x: T)
    ensures
        insert_sorted(s, x).len() == s.len() + 1,
        forall|y: T| #[trigger] insert_sorted(s, x).contains(y) <==> (y == x || s.contains(y)),
    decreases s.len(),
{
    if s.len() > 0 && !lex_le(x.sort_key(), s[0].sort_key()) {
        let t = s.drop_first();
        lemma_insert_elements(t, x);
        let it = insert_sorted(t, x);
        let r = insert_sorted(s, x);
        assert(r == seq![s[0]] + it);
        assert forall|y: T| #[trigger] r.contains(y) <==> (y == x || s.contains(y)) by {
            if r.contains(y) {
                let k = choose|k: int| 0 <= k < r.len() && r[k] == y;
                if k > 0 {
                    assert(it[k - 1] == y);
                    assert(it.contains(y));
                    if y != x {
                        let m = choose|m: int| 0 <= m < t.len() && t[m] == y;
                        assert(s[m + 1] == y);
                    }
                } else {
                    assert(s[0] == y);
                }
            }
            if y == x || s.contains(y) {
                if y == x {
                    assert(it.contains(x));
                    let k = choose|k: int| 0 <= k < it.len() && it[k] == x;
                    assert(r[k + 1] == x);
                } else {
                    let m = choose|m: int| 0 <= m < s.len() && s[m] == y;
                    if m == 0 {
                        assert(r[0] == y);
                    } else {
                        assert(t[m - 1] == y);
                        assert(t.contains(y));
                        assert(it.contains(y));
                        let k = choose|k: int| 0 <= k < it.len() && it[k] == y;
                        assert(r[k + 1] == y);
                    }
                }
            }
        }
    } else if s.len() > 0 {
        assert forall|y: T| #[trigger] insert_sorted(s, x).contains(y) <==> (y == x || s.contains(y)) by {
            let r = insert_sorted(s, x);
            if r.contains(y) {
                let k = choose|k: int| 0 <= k < r.len() && r[k] == y;
                if k > 0 {
                    assert(s[k - 1] == y);
                }
            }
            if s.contains(y) {
                let m = choose|m: int| 0 <= m < s.len() && s[m] == y;
                assert(r[m + 1] == y);
            }
            if y == x {
                assert(r[0] == y);
            }
        }
    } else {
        assert forall|y: T| #[trigger] insert_sorted(s, x).contains(y) <==> (y == x || s.contains(y)) by {
            if insert_sorted(s, x).contains(y) {
                let k = choose|k: int| 0 <= k < 1 && insert_sorted(s, x)[k] == y;
            }
            if y == x {
                assert(insert_sorted(s, x)[0] == y);
            }
        }
    }
}

/// Sorting keeps the length and the elements.
pub proof fn lemma_sort_elements<T: Keyed>(s: Seq<T>)
    ensures
        sort_seq(s).len() == s.len(),
        forall|y: T| #[trigger] sort_seq(s).contains(y) <==> s.contains(y),
    decreases s.len(),
{
    if s.len() > 0 {
        let p = s.drop_last();
        lemma_sort_elements(p);
        lemma_insert_elements(sort_seq(p), s.last());
        assert forall|y: T| #[trigger] sort_seq(s).contains(y) <==> s.contains(y) by {
            if p.contains(y) {
                let m = choose|m: int| 0 <= m < p.len() && p[m] == y;
                assert(s[m] == y);
            }
            if s.contains(y) {
                let m = choose|m: int| 0 <= m < s.len() && s[m] == y;
                if m < p.len() {
                    assert(p[m] == y);
                } else {
                    assert(s.last() == y);
                }
            }
        }
    }
}

proof fn lemma_insert_ascending<T: Keyed>(s: Seq<T>, x: T)
    requires
        keys_ascending(s),
    ensures
        keys_ascending(insert_sorted(s, x)),
    decreases s.len(),
{
    let r = insert_sorted(s, x);
    if s.len() == 0 {
    } else if lex_le(x.sort_key(), s[0].sort_key()) {
        assert forall|i: int, j: int| 0 <= i < j < r.len() implies lex_le(#[trigger] r[i].sort_key(), #[trigger] r[j].sort_key()) by {
            if i == 0 {
                if j > 1 {
                    lemma_lex_trans(x.sort_key(), s[0].sort_key(), s[j - 1].sort_key());
                }
            } else {
                assert(r[i] == s[i - 1] && r[j] == s[j - 1]);
            }
        }
    } else {
        let t = s.drop_first();
        lemma_insert_ascending(t, x);
        lemma_insert_elements(t, x);
        lemma_lex_total(x.sort_key(), s[0].sort_key());
        let it = insert_sorted(t, x);
        assert forall|i: int, j: int| 0 <= i < j < r.len() implies lex_le(#[trigger] r[i].sort_key(), #[trigger] r[j].sort_key()) by {
            if i == 0 {
                assert(it.contains(r[j])) by {
                    assert(it[j - 1] == r[j]);
                }
                if r[j] != x {
                    let m = choose|m: int| 0 <= m < t.len() && t[m] == r[j];
                    assert(s[m + 1] == r[j]);
                }
            } else {
                assert(r[i] == it[i - 1] && r[j] == it[j - 1]);
            }
        }
    }
}

/// Sorting yields keys in ascending order.
pub proof fn lemma_sort_ascending<T: Keyed>(s: Seq<T>)
    ensures
        keys_ascending(sort_seq(s)),
    decreases s.len(),
{
    if s.len() > 0 {
        lemma_sort_ascending(s.drop_last());
        lemma_insert_ascending(sort_seq(s.drop_last()), s.last());
    }
}

proof fn lemma_insert_distinct<T: Keyed>(s: Seq<T>, x: T)
    requires
        keys_distinct(s),
        forall|k: int| 0 <= k < s.len() ==> (#[trigger] s[k]).sort_key() != x.sort_key(),
    ensures
        keys_distinct(insert_sorted(s, x)),
    decreases s.len(),
{
    let r = insert_sorted(s, x);
    if s.len() == 0 {
    } else if lex_le(x.sort_key(), s[0].sort_key()) {
        assert forall|i: int, j: int| 0 <= i < j < r.len() implies (#[trigger] r[i]).sort_key() != (#[trigger] r[j]).sort_key() by {
            if i > 0 {
                assert(r[i] == s[i - 1] && r[j] == s[j - 1]);
            } else {
                assert(r[j] == s[j - 1]);
            }
        }
    } else {
        let t = s.drop_first();
        assert forall|k: int| 0 <= k < t.len() implies (#[trigger] t[k]).sort_key() != x.sort_key() by {
            assert(t[k] == s[k + 1]);
        }
        assert forall|i: int, j: int| 0 <= i < j < t.len() implies (#[trigger] t[i]).sort_key() != (#[trigger] t[j]).sort_key() by {
            assert(t[i] == s[i + 1] && t[j] == s[j + 1]);
        }
        lemma_insert_distinct(t, x);
        lemma_insert_elements(t, x);
        let it = insert_sorted(t, x);
        assert forall|i: int, j: int| 0 <= i < j < r.len() implies (#[trigger] r[i]).sort_key() != (#[trigger] r[j]).sort_key() by {
            if i == 0 {
                assert(it.contains(r[j])) by {
                    assert(it[j - 1] == r[j]);
                }
                if r[j] != x {
                    let m = choose|m: int| 0 <= m < t.len() && t[m] == r[j];
                    assert(s[m + 1] == r[j]);
                }
            } else {
                assert(r[i] == it[i - 1] && r[j] == it[j - 1]);
            }
        }
    }
}

/// Sorting records whose keys differ yields strictly ascending keys.
pub proof fn lemma_sort_strictly_ascending<T: Keyed>(s: Seq<T>)
    requires
        keys_distinct(s),
    ensures
        keys_strictly_ascending(sort_seq(s)),
        keys_distinct(sort_seq(s)),
    decreases s.len(),
{
    lemma_sort_ascending(s);
    if s.len() > 0 {
        let p = s.drop_last();
        assert forall|i: int, j: int| 0 <= i < j < p.len() implies (#[trigger] p[i]).sort_key() != (#[trigger] p[j]).sort_key() by {
            assert(p[i] == s[i] && p[j] == s[j]);
        }
        lemma_sort_strictly_ascending(p);
        lemma_sort_elements(p);
        let sp = sort_seq(p);
        assert forall|k: int| 0 <= k < sp.len() implies (#[trigger] sp[k]).sort_key() != s.last().sort_key() by {
            assert(sp.contains(sp[k]));
            let m = choose|m: int| 0 <= m < p.len() && p[m] == sp[k];
            assert(s[m] == sp[k]);
        }
        lemma_insert_distinct(sp, s.last());
    }
}

/// The byte strings that a sequence of byte vectors holds.
pub open spec fn views(s: Seq<Vec<u8>>) -> Seq<Seq<u8>> {
    s.map_values(|p: Vec<u8>| p@)
}

proof fn lemma_views_insert(s: Seq<Vec<u8>>, x: Vec<u8>)
    ensures
        views(insert_sorted(s, x)) == insert_sorted(views(s), x@),
    decreases s.len(),
{
    if s.len() > 0 {
        assert(views(s)[0] == s[0]@);
        assert(views(s.drop_first()) == views(s).drop_first());
        lemma_views_insert(s.drop_first(), x);
        if lex_le(x@, s[0]@) {
            assert(views(seq![x] + s) == seq![x@] + views(s));
        } else {
            assert(views(seq![s[0]] + insert_sorted(s.drop_first(), x))
                == seq![s[0]@] + views(insert_sorted(s.drop_first(), x)));
        }
    } else {
        assert(views(seq![x]) == seq![x@]);
    }
}

/// Sorting byte vectors and then viewing them is viewing them and then sorting.
pub proof fn lemma_views_sort(s: Seq<Vec<u8>>)
    ensures
        views(sort_seq(s)) == sort_seq(views(s)),
    decreases s.len(),
{
    if s.len() > 0 {
        lemma_views_sort(s.drop_last());
        assert(views(s.drop_last()) == views(s).drop_last());
        assert(views(s).last() == s.last()@);
        lemma_views_insert(sort_seq(s.drop_last()), s.last());
    }
}

proof fn lemma_map_insert<T: Keyed, U: Keyed>(s: Seq<T>, x: T, f: spec_fn(T) -> U)
    requires
        forall|y: T| #[trigger] f(y).sort_key() == y.sort_key(),
    ensures
        insert_sorted(s, x).map_values(f) == insert_sorted(s.map_values(f), f(x)),
    decreases s.len(),
{
    let fs = s.map_values(f);
    if s.len() > 0 {
        assert(fs[0] == f(s[0]));
        assert(s.drop_first().map_values(f) == fs.drop_first());
        lemma_map_insert(s.drop_first(), x, f);
        assert(f(x).sort_key() == x.sort_key() && f(s[0]).sort_key() == s[0].sort_key());
        if lex_le(x.sort_key(), s[0].sort_key()) {
            assert((seq![x] + s).map_values(f) == seq![f(x)] + fs);
        } else {
            assert((seq![s[0]] + insert_sorted(s.drop_first(), x)).map_values(f)
                == seq![f(s[0])] + insert_sorted(s.drop_first(), x).map_values(f));
        }
    } else {
        assert(seq![x].map_values(f) == seq![f(x)]);
    }
}

/// Sorting and then applying a key-preserving map is mapping and then sorting.
pub proof fn lemma_map_sort<T: Keyed, U: Keyed>(s: Seq<T>, f: spec_fn(T) -> U)
    requires
        forall|y: T| #[trigger] f(y).sort_key() == y.sort_key(),
    ensures
        sort_seq(s).map_values(f) == sort_seq(s.map_values(f)),
    decreases s.len(),
{
    if s.len() > 0 {
        lemma_map_sort(s.drop_last(), f);
        assert(s.drop_last().map_values(f) == s.map_values(f).drop_last());
        lemma_map_insert(sort_seq(s.drop_last()), s.last(), f);
    }
}

} // verus!

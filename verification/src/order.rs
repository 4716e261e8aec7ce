//! Total orders on snapshot records and an in-place sort that respects them.
use vstd::prelude::*;
use vstd::utf8::{encode_utf8, encode_utf8_decode_utf8};

verus! {

broadcast use vstd::seq_lib::group_to_multiset_ensures;

/// Lexicographic order on byte strings, a prefix before its extensions.
pub open spec fn bytes_le(a: Seq<u8>, b: Seq<u8>) -> bool
    decreases a.len(),
{
    if a.len() == 0 {
        true
    } else if b.len() == 0 {
        false
    } else if a[0] != b[0] {
        a[0] < b[0]
    } else {
        bytes_le(a.skip(1), b.skip(1))
    }
}

pub proof fn lemma_bytes_le_total(a: Seq<u8>, b: Seq<u8>)
    ensures
        bytes_le(a, b) || bytes_le(b, a),
    decreases a.len(),
{
    if a.len() > 0 && b.len() > 0 && a[0] == b[0] {
        lemma_bytes_le_total(a.skip(1), b.skip(1));
    }
}

pub proof fn lemma_bytes_le_trans(a: Seq<u8>, b: Seq<u8>, c: Seq<u8>)
    requires
        bytes_le(a, b),
        bytes_le(b, c),
    ensures
        bytes_le(a, c),
    decreases a.len(),
{
    if a.len() > 0 && b.len() > 0 && c.len() > 0 && a[0] == b[0] && b[0] == c[0] {
        lemma_bytes_le_trans(a.skip(1), b.skip(1), c.skip(1));
    }
}

pub proof fn lemma_bytes_le_antisym(a: Seq<u8>, b: Seq<u8>)
    requires
        bytes_le(a, b),
        bytes_le(b, a),
    ensures
        a == b,
    decreases a.len(),
{
    if a.len() > 0 {
        lemma_bytes_le_antisym(a.skip(1), b.skip(1));
        assert(a =~= seq![a[0]] + a.skip(1));
        assert(b =~= seq![b[0]] + b.skip(1));
    } else {
        assert(b.len() == 0);
        assert(a =~= b);
    }
}

/// The order of `String`s: lexicographic on their UTF-8 bytes.
pub open spec fn str_le(a: Seq<char>, b: Seq<char>) -> bool {
    bytes_le(encode_utf8(a), encode_utf8(b))
}

pub proof fn lemma_str_le_antisym(a: Seq<char>, b: Seq<char>)
    requires
        str_le(a, b),
        str_le(b, a),
    ensures
        a == b,
{
    lemma_bytes_le_antisym(encode_utf8(a), encode_utf8(b));
    encode_utf8_decode_utf8(a);
    encode_utf8_decode_utf8(b);
}

/// Compares two strings in `String` order.
pub fn string_le(a: &str, b: &str) -> (r: bool)
    ensures
        r == str_le(a@, b@),
{
    let x = a.as_bytes();
    let y = b.as_bytes();
    let mut i: usize = 0;
    assert(x@.skip(0) =~= x@);
    assert(y@.skip(0) =~= y@);
    while i < x.len() && i < y.len() && x[i] == y[i]
        invariant
            0 <= i <= x@.len(),
            i <= y@.len(),
            x@ == encode_utf8(a@),
            y@ == encode_utf8(b@),
            bytes_le(x@, y@) == bytes_le(x@.skip(i as int), y@.skip(i as int)),
        decreases x@.len() - i,
    {
        assert(x@.skip(i as int).skip(1) =~= x@.skip(i + 1));
        assert(y@.skip(i as int).skip(1) =~= y@.skip(i + 1));
        i = i + 1;
    }
    if i == x.len() {
        true
    } else if i == y.len() {
        false
    } else {
        x[i] < y[i]
    }
}

/// A type whose values are ordered by a total preorder on their views.
pub trait Ordered: View + Sized {
    spec fn ord_le(a: Self::V, b: Self::V) -> bool;

    proof fn lemma_ord_total(a: Self::V, b: Self::V)
        ensures
            Self::ord_le(a, b) || Self::ord_le(b, a),
    ;

    proof fn lemma_ord_trans(a: Self::V, b: Self::V, c: Self::V)
        requires
            Self::ord_le(a, b),
            Self::ord_le(b, c),
        ensures
            Self::ord_le(a, c),
    ;

    fn ord_le_exec(&self, other: &Self) -> (r: bool)
        ensures
            r == Self::ord_le(self@, other@),
    ;
}

/// The views of a sequence's items.
pub open spec fn views<T: View>(s: Seq<T>) -> Seq<T::V> {
    s.map_values(|x: T| x@)
}

/// Whether views are in order.
pub open spec fn sorted_views<T: Ordered>(s: Seq<T::V>) -> bool {
    forall|i: int, j: int| 0 <= i < j < s.len() ==> T::ord_le(s[i], s[j])
}

/// `s` with `x` placed after every item that does not come after it.
pub open spec fn insert_in_order<T: Ordered>(x: T::V, s: Seq<T::V>) -> Seq<T::V>
    decreases s.len(),
{
    if s.len() == 0 {
        seq![x]
    } else if !T::ord_le(s[0], x) {
        seq![x] + s
    } else {
        seq![s[0]] + insert_in_order::<T>(x, s.skip(1))
    }
}

/// The items in order; items that compare equal keep their relative order.
pub open spec fn sorted_seq<T: Ordered>(s: Seq<T::V>) -> Seq<T::V>
    decreases s.len(),
{
    if s.len() == 0 {
        s
    } else {
        insert_in_order::<T>(s.last(), sorted_seq::<T>(s.drop_last()))
    }
}

/// Inserting keeps order and adds exactly the one item.
pub proof fn lemma_insert_in_order<T: Ordered>(x: T::V, s: Seq<T::V>)
    requires
        sorted_views::<T>(s),
    ensures
        sorted_views::<T>(insert_in_order::<T>(x, s)),
        insert_in_order::<T>(x, s).to_multiset() =~= s.to_multiset().insert(x),
    decreases s.len(),
{
    let r = insert_in_order::<T>(x, s);
    if s.len() == 0 {
        assert(r =~= seq![x]);
        assert(seq![x].to_multiset() =~= Seq::<T::V>::empty().to_multiset().insert(x)) by {
            assert(seq![x] =~= Seq::<T::V>::empty().push(x));
        }
    } else if !T::ord_le(s[0], x) {
        T::lemma_ord_total(s[0], x);
        assert forall|i: int, j: int| 0 <= i < j < r.len() implies T::ord_le(r[i], r[j]) by {
            if i == 0 {
                assert(r[j] == s[j - 1]);
                if j - 1 > 0 {
                    T::lemma_ord_trans(x, s[0], s[j - 1]);
                }
            } else {
                assert(r[i] == s[i - 1] && r[j] == s[j - 1]);
            }
        }
        assert(r =~= s.insert(0, x));
        lemma_insert_multiset(s, 0, x);
    } else {
        let t = s.skip(1);
        assert(sorted_views::<T>(t)) by {
            assert forall|i: int, j: int| 0 <= i < j < t.len() implies T::ord_le(t[i], t[j]) by {
                assert(t[i] == s[i + 1] && t[j] == s[j + 1]);
            }
        }
        lemma_insert_in_order::<T>(x, t);
        let u = insert_in_order::<T>(x, t);
        assert(r =~= seq![s[0]] + u);
        assert forall|i: int, j: int| 0 <= i < j < r.len() implies T::ord_le(r[i], r[j]) by {
            if i == 0 {
                assert(r[j] == u[j - 1]);
                assert(u.to_multiset().contains(u[j - 1]));
                assert(t.to_multiset().insert(x).contains(u[j - 1]));
                if u[j - 1] != x {
                    assert(t.to_multiset().contains(u[j - 1]));
                    assert(t.contains(u[j - 1]));
                    let k = choose|k: int| 0 <= k < t.len() && t[k] == u[j - 1];
                    assert(s[k + 1] == t[k]);
                }
            } else {
                assert(r[i] == u[i - 1] && r[j] == u[j - 1]);
            }
        }
        assert(s =~= seq![s[0]] + t);
        assert((seq![s[0]] + u).to_multiset() =~= u.to_multiset().insert(s[0])) by {
            assert(seq![s[0]] + u =~= u.insert(0, s[0]));
            lemma_insert_multiset(u, 0, s[0]);
        }
        assert((seq![s[0]] + t).to_multiset() =~= t.to_multiset().insert(s[0])) by {
            assert(seq![s[0]] + t =~= t.insert(0, s[0]));
            lemma_insert_multiset(t, 0, s[0]);
        }
    }
}

/// What `sorted_seq` gives is in order and holds the same items.
pub proof fn lemma_sorted_seq<T: Ordered>(s: Seq<T::V>)
    ensures
        sorted_views::<T>(sorted_seq::<T>(s)),
        sorted_seq::<T>(s).to_multiset() =~= s.to_multiset(),
    decreases s.len(),
{
    if s.len() > 0 {
        lemma_sorted_seq::<T>(s.drop_last());
        lemma_insert_in_order::<T>(s.last(), sorted_seq::<T>(s.drop_last()));
        assert(s =~= s.drop_last().push(s.last()));
    }
}

proof fn lemma_insert_multiset<A>(s: Seq<A>, p: int, x: A)
    requires
        0 <= p <= s.len(),
    ensures
        s.insert(p, x).to_multiset() =~= s.to_multiset().insert(x),
{
    let t = s.insert(p, x);
    assert(t.remove(p) =~= s);
    assert(t.remove(p).to_multiset() =~= t.to_multiset().remove(t[p]));
    assert(t.contains(x)) by {
        assert(t[p] == x);
    }
}

/// Places `x` after every item of `v` that does not come after it.
pub fn insert_ordered<T: Ordered>(v: &mut Vec<T>, x: T)
    ensures
        views(final(v)@) == insert_in_order::<T>(x@, views(old(v)@)),
{
    let mut p: usize = 0;
    assert(views(v@).take(0) =~= Seq::<T::V>::empty());
    assert(views(v@).skip(0) =~= views(v@));
    while p < v.len() && v[p].ord_le_exec(&x)
        invariant
            0 <= p <= v@.len(),
            insert_in_order::<T>(x@, views(v@)) == views(v@).take(p as int) + insert_in_order::<T>(
                x@,
                views(v@).skip(p as int),
            ),
        decreases v@.len() - p,
    {
        let ghost s = views(v@);
        assert(s.skip(p as int)[0] == s[p as int]);
        assert(s.skip(p as int).skip(1) =~= s.skip(p + 1));
        assert(s.take(p + 1) =~= s.take(p as int) + seq![s[p as int]]);
        p = p + 1;
    }
    let ghost before = v@;
    let ghost s = views(before);
    if p < v.len() {
        assert(s.skip(p as int)[0] == s[p as int]);
    } else {
        assert(s.skip(p as int) =~= Seq::<T::V>::empty());
    }
    v.insert(p, x);
    assert(views(v@) =~= s.take(p as int) + (seq![x@] + s.skip(p as int)));
}

/// The items in order; items that compare equal keep their relative order.
pub fn sorted<T: Ordered>(items: Vec<T>) -> (r: Vec<T>)
    ensures
        views(r@) == sorted_seq::<T>(views(items@)),
{
    let mut rest = items;
    let ghost all = views(rest@);
    let mut out: Vec<T> = Vec::new();
    assert(all.take(0) =~= Seq::<T::V>::empty());
    assert(views(out@) =~= Seq::<T::V>::empty());
    while rest.len() > 0
        invariant
            views(rest@) == all.skip(all.len() - rest@.len()),
            rest@.len() <= all.len(),
            views(out@) == sorted_seq::<T>(all.take(all.len() - rest@.len())),
        decreases rest@.len(),
    {
        let ghost k = all.len() - rest@.len();
        let ghost before = rest@;
        let x = rest.remove(0);
        assert(views(before)[0] == before[0]@);
        assert(all.skip(k)[0] == all[k]);
        assert(x@ == all[k]);
        assert(views(rest@) =~= views(before).skip(1));
        assert(all.skip(k).skip(1) =~= all.skip(k + 1));
        assert(views(rest@) =~= all.skip(k + 1));
        assert(all.take(k + 1).drop_last() =~= all.take(k));
        assert(all.take(k + 1).last() == all[k]);
        insert_ordered(&mut out, x);
    }
    assert(all.take(all.len() as int) =~= all);
    out
}

impl Ordered for usize {
    open spec fn ord_le(a: usize, b: usize) -> bool {
        a <= b
    }

    proof fn lemma_ord_total(a: usize, b: usize) {
    }

    proof fn lemma_ord_trans(a: usize, b: usize, c: usize) {
    }

    fn ord_le_exec(&self, other: &usize) -> (r: bool) {
        *self <= *other
    }
}

} // verus!

//! Orderings used to sort indexes, and the sort itself.
//!
//! Text is ordered as `String` orders it: lexicographically by the bytes of
//! its UTF-8 encoding. A comparison yields -1, 0 or 1.
use vstd::prelude::*;

verus! {

broadcast use vstd::utf8::encode_utf8_decode_utf8;

/// Lexicographic comparison of byte sequences; a proper prefix comes first.
pub open spec fn bytes_cmp(a: Seq<u8>, b: Seq<u8>) -> int
    decreases a.len(),
{
    if a.len() == 0 {
        if b.len() == 0 {
            0
        } else {
            -1
        }
    } else if b.len() == 0 {
        1
    } else if a[0] < b[0] {
        -1
    } else if a[0] > b[0] {
        1
    } else {
        bytes_cmp(a.drop_first(), b.drop_first())
    }
}

/// The order of `String`: by the bytes of the UTF-8 encoding.
pub open spec fn text_cmp(a: Seq<char>, b: Seq<char>) -> int {
    bytes_cmp(vstd::utf8::encode_utf8(a), vstd::utf8::encode_utf8(b))
}

/// Lexicographic comparison of text sequences, as `Vec<String>` orders them.
pub open spec fn texts_cmp(a: Seq<Seq<char>>, b: Seq<Seq<char>>) -> int
    decreases a.len(),
{
    if a.len() == 0 {
        if b.len() == 0 {
            0
        } else {
            -1
        }
    } else if b.len() == 0 {
        1
    } else if text_cmp(a[0], b[0]) != 0 {
        text_cmp(a[0], b[0])
    } else {
        texts_cmp(a.drop_first(), b.drop_first())
    }
}

/// Comparison of integers.
pub open spec fn int_cmp(a: int, b: int) -> int {
    if a < b {
        -1
    } else if a > b {
        1
    } else {
        0
    }
}

/// The first comparison that tells two values apart.
pub open spec fn then_cmp(first: int, second: int) -> int {
    if first != 0 {
        first
    } else {
        second
    }
}

/// The laws of a comparison, on three values.
pub open spec fn cmp_laws<T>(cmp: spec_fn(T, T) -> int, a: T, b: T, c: T) -> bool {
    &&& -1 <= cmp(a, b) <= 1
    &&& cmp(a, b) == -cmp(b, a)
    &&& cmp(a, b) == 0 <==> a == b
    &&& cmp(a, b) <= 0 && cmp(b, c) <= 0 ==> cmp(a, c) <= 0
}

pub proof fn lemma_bytes_cmp(a: Seq<u8>, b: Seq<u8>, c: Seq<u8>)
    ensures
        cmp_laws(|x: Seq<u8>, y: Seq<u8>| bytes_cmp(x, y), a, b, c),
    decreases a.len(),
{
    if a.len() > 0 && b.len() > 0 && c.len() > 0 {
        lemma_bytes_cmp(a.drop_first(), b.drop_first(), c.drop_first());
        if a[0] == b[0] && bytes_cmp(a.drop_first(), b.drop_first()) == 0 {
            assert(a =~= seq![a[0]] + a.drop_first());
            assert(b =~= seq![b[0]] + b.drop_first());
        }
    } else if a.len() > 0 && b.len() > 0 {
        lemma_bytes_cmp(a.drop_first(), b.drop_first(), a.drop_first());
        if a[0] == b[0] && bytes_cmp(a.drop_first(), b.drop_first()) == 0 {
            assert(a =~= seq![a[0]] + a.drop_first());
            assert(b =~= seq![b[0]] + b.drop_first());
        }
    } else if a.len() == 0 && b.len() == 0 {
        assert(a =~= b);
    }
}

pub proof fn lemma_text_cmp(a: Seq<char>, b: Seq<char>, c: Seq<char>)
    ensures
        cmp_laws(|x: Seq<char>, y: Seq<char>| text_cmp(x, y), a, b, c),
{
    let e = |x: Seq<char>| vstd::utf8::encode_utf8(x);
    lemma_bytes_cmp(e(a), e(b), e(c));
    if text_cmp(a, b) == 0 {
        assert(vstd::utf8::decode_utf8(e(a)) == a);
        assert(vstd::utf8::decode_utf8(e(b)) == b);
    }
}

pub proof fn lemma_texts_cmp(a: Seq<Seq<char>>, b: Seq<Seq<char>>, c: Seq<Seq<char>>)
    ensures
        cmp_laws(|x: Seq<Seq<char>>, y: Seq<Seq<char>>| texts_cmp(x, y), a, b, c),
    decreases a.len() + b.len() + c.len(),
{
    if a.len() > 0 && b.len() > 0 {
        if c.len() > 0 {
            lemma_text_cmp(a[0], b[0], c[0]);
            lemma_text_cmp(b[0], c[0], a[0]);
            lemma_text_cmp(a[0], c[0], b[0]);
            lemma_texts_cmp(a.drop_first(), b.drop_first(), c.drop_first());
            lemma_texts_cmp(b.drop_first(), c.drop_first(), a.drop_first());
            lemma_texts_cmp(a.drop_first(), c.drop_first(), b.drop_first());
        } else {
            lemma_text_cmp(a[0], b[0], a[0]);
            lemma_texts_cmp(a.drop_first(), b.drop_first(), c);
        }
        if texts_cmp(a, b) == 0 {
            assert(a =~= seq![a[0]] + a.drop_first());
            assert(b =~= seq![b[0]] + b.drop_first());
        }
    } else if a.len() == 0 && b.len() == 0 {
        assert(a =~= b);
    }
}

/// Values that sort by a comparison with the laws above.
pub trait SortKey: Sized {
    /// The comparison the sort follows.
    spec fn key_cmp(a: Self, b: Self) -> int;

    proof fn lemma_key_cmp(a: Self, b: Self, c: Self)
        ensures
            -1 <= Self::key_cmp(a, b) <= 1,
            Self::key_cmp(a, b) == -Self::key_cmp(b, a),
            Self::key_cmp(a, b) <= 0 && Self::key_cmp(b, c) <= 0 ==> Self::key_cmp(a, c) <= 0,
    ;

    fn compare(&self, other: &Self) -> (r: i8)
        ensures
            r as int == Self::key_cmp(*self, *other),
    ;
}

/// Every earlier item compares at most equal to every later one.
pub open spec fn sorted_by_key<T: SortKey>(s: Seq<T>) -> bool {
    forall|i: int, j: int| 0 <= i < j < s.len() ==> T::key_cmp(#[trigger] s[i], #[trigger] s[j]) <= 0
}

/// Compares two byte slices lexicographically.
pub fn compare_bytes(a: &[u8], b: &[u8]) -> (r: i8)
    ensures
        r as int == bytes_cmp(a@, b@),
{
    let mut i: usize = 0;
    proof {
        assert(a@.skip(0) =~= a@);
        assert(b@.skip(0) =~= b@);
    }
    while i < a.len() && i < b.len()
        invariant
            i <= a@.len(),
            i <= b@.len(),
            bytes_cmp(a@, b@) == bytes_cmp(a@.skip(i as int), b@.skip(i as int)),
        decreases a.len() - i,
    {
        if a[i] < b[i] {
            return -1;
        }
        if a[i] > b[i] {
            return 1;
        }
        proof {
            assert(a@.skip(i as int).drop_first() =~= a@.skip(i as int + 1));
            assert(b@.skip(i as int).drop_first() =~= b@.skip(i as int + 1));
        }
        i = i + 1;
    }
    if i < a.len() {
        1
    } else if i < b.len() {
        -1
    } else {
        0
    }
}

/// Compares two strings as `String` orders them.
pub fn compare_text(a: &str, b: &str) -> (r: i8)
    ensures
        r as int == text_cmp(a@, b@),
{
    compare_bytes(a.as_bytes(), b.as_bytes())
}

/// Compares two lists of strings lexicographically.
pub fn compare_texts(a: &Vec<String>, b: &Vec<String>) -> (r: i8)
    ensures
        r as int == texts_cmp(a@.map_values(|s: String| s@), b@.map_values(|s: String| s@)),
{
    let ghost va = a@.map_values(|s: String| s@);
    let ghost vb = b@.map_values(|s: String| s@);
    let mut i: usize = 0;
    proof {
        assert(va.skip(0) =~= va);
        assert(vb.skip(0) =~= vb);
    }
    while i < a.len() && i < b.len()
        invariant
            i <= a@.len(),
            i <= b@.len(),
            va == a@.map_values(|s: String| s@),
            vb == b@.map_values(|s: String| s@),
            texts_cmp(va, vb) == texts_cmp(va.skip(i as int), vb.skip(i as int)),
        decreases a.len() - i,
    {
        let c = compare_text(a[i].as_str(), b[i].as_str());
        proof {
            assert(va.skip(i as int)[0] == a@[i as int]@);
            assert(vb.skip(i as int)[0] == b@[i as int]@);
        }
        if c != 0 {
            return c;
        }
        proof {
            assert(va.skip(i as int).drop_first() =~= va.skip(i as int + 1));
            assert(vb.skip(i as int).drop_first() =~= vb.skip(i as int + 1));
        }
        i = i + 1;
    }
    if i < a.len() {
        1
    } else if i < b.len() {
        -1
    } else {
        0
    }
}

/// Sorts `v` in place into ascending order; the items stay the same.
pub fn sort_by_key<T: SortKey>(v: &mut Vec<T>)
    ensures
        sorted_by_key(final(v)@),
        final(v)@.to_multiset() == old(v)@.to_multiset(),
{
    broadcast use vstd::seq_lib::group_to_multiset_ensures;

    let mut src: Vec<T> = Vec::new();
    std::mem::swap(v, &mut src);
    let ghost orig = src@;
    let mut out: Vec<T> = Vec::new();
    while src.len() > 0
        invariant
            sorted_by_key(out@),
            out@.to_multiset().add(src@.to_multiset()) == orig.to_multiset(),
        decreases src.len(),
    {
        let ghost before = src@;
        let x = src.pop().unwrap();
        proof {
            assert(before =~= src@.push(x));
        }
        let mut p: usize = 0;
        let mut stop = false;
        while p < out.len() && !stop
            invariant
                p <= out@.len(),
                sorted_by_key(out@),
                forall|q: int| 0 <= q < p ==> T::key_cmp(#[trigger] out@[q], x) <= 0,
                stop ==> p < out@.len() && T::key_cmp(x, out@[p as int]) < 0,
            decreases out.len() - p + if stop {
                0int
            } else {
                1int
            },
        {
            let c = x.compare(&out[p]);
            if c < 0 {
                stop = true;
            } else {
                proof {
                    T::lemma_key_cmp(x, out@[p as int], x);
                }
                p = p + 1;
            }
        }
        proof {
            assert forall|q: int| p <= q < out@.len() implies T::key_cmp(x, #[trigger] out@[q])
                <= 0 by {
                if q > p {
                    T::lemma_key_cmp(x, out@[p as int], out@[q]);
                }
            }
        }
        let ghost prev = out@;
        out.insert(p, x);
        proof {
            assert forall|i: int, j: int| 0 <= i < j < out@.len() implies T::key_cmp(
                #[trigger] out@[i],
                #[trigger] out@[j],
            ) <= 0 by {
                if i < p as int && j > p as int {
                    assert(out@[i] == prev[i]);
                    assert(out@[j] == prev[j - 1]);
                } else if i < p as int && j < p as int {
                    assert(out@[i] == prev[i]);
                    assert(out@[j] == prev[j]);
                } else if i > p as int {
                    assert(out@[i] == prev[i - 1]);
                    assert(out@[j] == prev[j - 1]);
                }
            }
            vstd::seq_lib::to_multiset_insert(prev, p as int, x);
            vstd::seq_lib::to_multiset_build(src@, x);
            assert(before.to_multiset() =~= src@.to_multiset().insert(x));
            assert(out@.to_multiset().add(src@.to_multiset()) =~= orig.to_multiset());
        }
    }
    proof {
        assert(src@.to_multiset() =~= vstd::multiset::Multiset::<T>::empty());
        assert(out@.to_multiset() =~= orig.to_multiset());
    }
    *v = out;
}

/// Two sequences with the same items keep the same items under any map.
pub proof fn lemma_map_multiset<A, B>(s: Seq<A>, t: Seq<A>, f: spec_fn(A) -> B)
    requires
        s.to_multiset() == t.to_multiset(),
    ensures
        s.map_values(f).to_multiset() == t.map_values(f).to_multiset(),
    decreases s.len(),
{
    broadcast use vstd::seq_lib::group_to_multiset_ensures;
    broadcast use vstd::multiset::group_multiset_axioms;

    if s.len() == 0 {
        assert(s.to_multiset().len() == s.len());
        assert(t.to_multiset().len() == t.len());
        assert(t.len() == 0);
        assert(s.map_values(f) =~= Seq::<B>::empty());
        assert(t.map_values(f) =~= Seq::<B>::empty());
    } else {
        let x = s.last();
        let s1 = s.drop_last();
        assert(s =~= s1.push(x));
        assert(s.to_multiset().count(x) > 0);
        assert(t.contains(x));
        let k = choose|k: int| 0 <= k < t.len() && t[k] == x;
        let t1 = t.remove(k);
        assert(s1.to_multiset() =~= t1.to_multiset());
        lemma_map_multiset(s1, t1, f);
        assert(s.map_values(f) =~= s1.map_values(f).push(f(x)));
        assert(t1.map_values(f) =~= t.map_values(f).remove(k));
        assert(t.map_values(f)[k] == f(x));
        assert(t.map_values(f).to_multiset().count(f(x)) > 0);
        assert(t.map_values(f).to_multiset() =~= t1.map_values(f).to_multiset().insert(f(x)));
    }
}

/// Sorting leaves no choice: two sorted sequences holding the same items,
/// as seen through a view that the comparison ties to, are equal in that
/// view.
pub proof fn lemma_sorted_unique<T: SortKey, V>(s1: Seq<T>, s2: Seq<T>, f: spec_fn(T) -> V)
    requires
        sorted_by_key(s1),
        sorted_by_key(s2),
        s1.map_values(f).to_multiset() == s2.map_values(f).to_multiset(),
        forall|a: T, b: T| #[trigger] T::key_cmp(a, b) == 0 <==> f(a) == f(b),
    ensures
        s1.map_values(f) == s2.map_values(f),
    decreases s1.len(),
{
    broadcast use vstd::seq_lib::group_to_multiset_ensures;
    broadcast use vstd::multiset::group_multiset_axioms;

    let m1 = s1.map_values(f);
    let m2 = s2.map_values(f);
    assert(m1.to_multiset().len() == m1.len());
    assert(m2.to_multiset().len() == m2.len());
    if s1.len() == 0 {
        assert(m1 =~= m2);
    } else {
        let x = s1[0];
        let y = s2[0];
        assert(m1[0] == f(x));
        assert(m1.contains(f(x)));
        assert(m1.to_multiset().count(f(x)) > 0);
        assert(m2.to_multiset().count(f(x)) > 0);
        assert(m2.contains(f(x)));
        let j = choose|j: int| 0 <= j < m2.len() && m2[j] == f(x);
        assert(T::key_cmp(s2[j], x) == 0);
        T::lemma_key_cmp(y, s2[j], x);
        T::lemma_key_cmp(s2[j], x, y);
        if j > 0 {
            assert(T::key_cmp(s2[0], s2[j]) <= 0);
        } else {
            assert(T::key_cmp(y, y) == 0);
        }
        assert(m2[0] == f(y));
        assert(m2.contains(f(y)));
        assert(m2.to_multiset().count(f(y)) > 0);
        assert(m1.to_multiset().count(f(y)) > 0);
        assert(m1.contains(f(y)));
        let k = choose|k: int| 0 <= k < m1.len() && m1[k] == f(y);
        assert(T::key_cmp(s1[k], y) == 0);
        T::lemma_key_cmp(x, s1[k], y);
        T::lemma_key_cmp(s1[k], y, x);
        if k > 0 {
            assert(T::key_cmp(s1[0], s1[k]) <= 0);
        } else {
            assert(T::key_cmp(x, x) == 0);
        }
        T::lemma_key_cmp(x, y, x);
        assert(f(x) == f(y));
        let t1 = s1.drop_first();
        let t2 = s2.drop_first();
        assert(m1.remove(0) =~= t1.map_values(f));
        assert(m2.remove(0) =~= t2.map_values(f));
        assert(t1.map_values(f).to_multiset() =~= t2.map_values(f).to_multiset());
        assert(sorted_by_key(t1)) by {
            assert forall|i: int, j: int| 0 <= i < j < t1.len() implies T::key_cmp(
                #[trigger] t1[i],
                #[trigger] t1[j],
            ) <= 0 by {
                assert(t1[i] == s1[i + 1] && t1[j] == s1[j + 1]);
            }
        }
        assert(sorted_by_key(t2)) by {
            assert forall|i: int, j: int| 0 <= i < j < t2.len() implies T::key_cmp(
                #[trigger] t2[i],
                #[trigger] t2[j],
            ) <= 0 by {
                assert(t2[i] == s2[i + 1] && t2[j] == s2[j + 1]);
            }
        }
        lemma_sorted_unique(t1, t2, f);
        assert(m1 =~= seq![f(x)] + t1.map_values(f));
        assert(m2 =~= seq![f(y)] + t2.map_values(f));
    }
}

} // verus!

//! Byte-lexicographic ordering of names and paths, and an insertion
//! sort used to put module identifiers and report entries into a
//! canonical order.

use crate::fs_model::{clone_name, lemma_name_deep_view, lemma_path_deep_view_index, Name};
use vstd::multiset::Multiset;
use vstd::prelude::*;

verus! {

/// Strict byte-lexicographic order on names.
pub open spec fn bytes_lt(a: Seq<u8>, b: Seq<u8>) -> bool
    decreases a.len(),
{
    if b.len() == 0 {
        false
    } else if a.len() == 0 {
        true
    } else if a[0] < b[0] {
        true
    } else if a[0] > b[0] {
        false
    } else {
        bytes_lt(a.drop_first(), b.drop_first())
    }
}

/// Byte-lexicographic order on names, with equality.
pub open spec fn bytes_le(a: Seq<u8>, b: Seq<u8>) -> bool {
    bytes_lt(a, b) || a == b
}

/// Of `bytes_lt(a, b)`, `a == b`, `bytes_lt(b, a)`, exactly one
/// holds.
pub proof fn lemma_bytes_lt_trichotomy(a: Seq<u8>, b: Seq<u8>)
    ensures
        bytes_lt(a, b) || a == b || bytes_lt(b, a),
        bytes_lt(a, b) ==> !(a == b) && !bytes_lt(b, a),
        a == b ==> !bytes_lt(a, b) && !bytes_lt(b, a),
    decreases a.len() + b.len(),
{
    if a.len() == 0 && b.len() == 0 {
        assert(a =~= b);
    } else if a.len() > 0 && b.len() > 0 && a[0] == b[0] {
        lemma_bytes_lt_trichotomy(a.drop_first(), b.drop_first());
        if a.drop_first() == b.drop_first() {
            assert forall|j: int| 0 <= j < a.len() implies a[j] == b[j] by {
                if j > 0 {
                    assert(a[j] == a.drop_first()[j - 1]);
                    assert(b[j] == b.drop_first()[j - 1]);
                }
            }
            assert(a =~= b);
        }
        if a == b {
            assert(a.drop_first() =~= b.drop_first());
        }
    }
}

/// Transitivity of the strict byte order.
pub proof fn lemma_bytes_lt_trans(a: Seq<u8>, b: Seq<u8>, c: Seq<u8>)
    requires
        bytes_lt(a, b),
        bytes_lt(b, c),
    ensures
        bytes_lt(a, c),
    decreases a.len() + b.len() + c.len(),
{
    if a.len() > 0 && b.len() > 0 && c.len() > 0 {
        if a[0] == b[0] && b[0] == c[0] {
            lemma_bytes_lt_trans(a.drop_first(), b.drop_first(), c.drop_first());
        }
    }
}

/// Strict byte-lexicographic order on component sequences.
pub open spec fn path_lt(a: Seq<Seq<u8>>, b: Seq<Seq<u8>>) -> bool
    decreases a.len(),
{
    if b.len() == 0 {
        false
    } else if a.len() == 0 {
        true
    } else if bytes_lt(a[0], b[0]) {
        true
    } else if bytes_lt(b[0], a[0]) {
        false
    } else {
        path_lt(a.drop_first(), b.drop_first())
    }
}

/// Of `path_lt(a, b)`, `a == b`, `path_lt(b, a)`, exactly one holds.
pub proof fn lemma_path_lt_trichotomy(a: Seq<Seq<u8>>, b: Seq<Seq<u8>>)
    ensures
        path_lt(a, b) || a == b || path_lt(b, a),
        path_lt(a, b) ==> !(a == b) && !path_lt(b, a),
        a == b ==> !path_lt(a, b) && !path_lt(b, a),
    decreases a.len() + b.len(),
{
    if a.len() == 0 && b.len() == 0 {
        assert(a =~= b);
    } else if a.len() > 0 && b.len() > 0 {
        lemma_bytes_lt_trichotomy(a[0], b[0]);
        if a[0] == b[0] {
            lemma_path_lt_trichotomy(a.drop_first(), b.drop_first());
            if a.drop_first() == b.drop_first() {
                assert forall|j: int| 0 <= j < a.len() implies a[j] == b[j] by {
                    if j > 0 {
                        assert(a[j] == a.drop_first()[j - 1]);
                        assert(b[j] == b.drop_first()[j - 1]);
                    }
                }
                assert(a =~= b);
            }
            if a == b {
                assert(a.drop_first() =~= b.drop_first());
            }
        }
    }
}

/// Transitivity of the strict path order.
pub proof fn lemma_path_lt_trans(a: Seq<Seq<u8>>, b: Seq<Seq<u8>>, c: Seq<Seq<u8>>)
    requires
        path_lt(a, b),
        path_lt(b, c),
    ensures
        path_lt(a, c),
    decreases a.len() + b.len() + c.len(),
{
    if a.len() > 0 && b.len() > 0 && c.len() > 0 {
        lemma_bytes_lt_trichotomy(a[0], b[0]);
        lemma_bytes_lt_trichotomy(b[0], c[0]);
        if a[0] == b[0] && b[0] == c[0] {
            lemma_path_lt_trans(a.drop_first(), b.drop_first(), c.drop_first());
        } else if bytes_lt(a[0], b[0]) && bytes_lt(b[0], c[0]) {
            lemma_bytes_lt_trans(a[0], b[0], c[0]);
        }
    }
}

/// Whether the bytes of `a` come strictly before those of `b`.
#[verifier::loop_isolation(false)]
pub fn name_lt(a: &Name, b: &Name) -> (r: bool)
    ensures
        r == bytes_lt(a@, b@),
{
    let an = a.len();
    let bn = b.len();
    let mut i: usize = 0;
    proof {
        assert(a@.skip(0) =~= a@);
        assert(b@.skip(0) =~= b@);
    }
    while i < an && i < bn
        invariant
            i <= an,
            i <= bn,
            bytes_lt(a@, b@) == bytes_lt(a@.skip(i as int), b@.skip(i as int)),
            bytes_lt(b@, a@) == bytes_lt(b@.skip(i as int), a@.skip(i as int)),
            forall|j: int| 0 <= j < i ==> a@[j] == b@[j],
        decreases an - i,
    {
        proof {
            assert(a@.skip(i as int)[0] == a@[i as int]);
            assert(b@.skip(i as int)[0] == b@[i as int]);
        }
        if a[i] < b[i] {
            return true;
        }
        if a[i] > b[i] {
            proof {
                lemma_bytes_lt_trichotomy(a@, b@);
            }
            return false;
        }
        proof {
            assert(a@.skip(i as int).drop_first() =~= a@.skip(i as int + 1));
            assert(b@.skip(i as int).drop_first() =~= b@.skip(i as int + 1));
        }
        i += 1;
    }
    if i == an && an < bn {
        proof {
            assert(a@.skip(i as int).len() == 0);
            assert(b@.skip(i as int).len() > 0);
        }
        true
    } else {
        proof {
            if i == an && an == bn {
                assert(a@ =~= b@);
                lemma_bytes_lt_trichotomy(a@, b@);
            } else {
                assert(i == bn && bn < an);
                assert(b@.skip(i as int).len() == 0);
            }
        }
        false
    }
}


/// All elements pairwise in byte order.
pub open spec fn names_sorted(s: Seq<Seq<u8>>) -> bool {
    forall|i: int, j: int| 0 <= i < j < s.len() ==> bytes_le(#[trigger] s[i], #[trigger] s[j])
}

/// `x` inserted before the first element it comes strictly before.
pub open spec fn insert_name_sorted(x: Seq<u8>, s: Seq<Seq<u8>>) -> Seq<Seq<u8>>
    decreases s.len(),
{
    if s.len() == 0 {
        seq![x]
    } else if bytes_lt(x, s[0]) {
        seq![x] + s
    } else {
        seq![s[0]] + insert_name_sorted(x, s.drop_first())
    }
}

/// Insertion sort of a sequence of names.
pub open spec fn sort_names_spec(s: Seq<Seq<u8>>) -> Seq<Seq<u8>>
    decreases s.len(),
{
    if s.len() == 0 {
        s
    } else {
        insert_name_sorted(s[0], sort_names_spec(s.drop_first()))
    }
}

/// One unfolding step of `sort_names_spec`.
pub proof fn lemma_sort_names_unfold(s: Seq<Seq<u8>>)
    requires
        s.len() > 0,
    ensures
        sort_names_spec(s) == insert_name_sorted(s[0], sort_names_spec(s.drop_first())),
{
}

/// Inserting keeps the order and adds exactly the new element.
pub proof fn lemma_insert_name_sorted(x: Seq<u8>, s: Seq<Seq<u8>>)
    requires
        names_sorted(s),
    ensures
        names_sorted(insert_name_sorted(x, s)),
        insert_name_sorted(x, s).to_multiset() == s.to_multiset().insert(x),
        insert_name_sorted(x, s).len() == s.len() + 1,
    decreases s.len(),
{
    broadcast use vstd::seq_lib::group_to_multiset_ensures;

    let t = insert_name_sorted(x, s);
    if s.len() == 0 {
        assert(seq![x] =~= Seq::<Seq<u8>>::empty().push(x));
        assert(Seq::<Seq<u8>>::empty().to_multiset() =~= Multiset::<Seq<u8>>::empty());
        assert(s.to_multiset() =~= Multiset::<Seq<u8>>::empty());
        assert(t.to_multiset() =~= s.to_multiset().insert(x));
    } else if bytes_lt(x, s[0]) {
        assert(t =~= seq![x] + s);
        vstd::seq_lib::lemma_multiset_commutative(seq![x], s);
        assert(seq![x] =~= Seq::<Seq<u8>>::empty().push(x));
        assert(Seq::<Seq<u8>>::empty().to_multiset() =~= Multiset::<Seq<u8>>::empty());
        assert(t.to_multiset() =~= s.to_multiset().insert(x));
        assert forall|i: int, j: int| 0 <= i < j < t.len() implies bytes_le(t[i], t[j]) by {
            if i == 0 {
                if j == 1 {
                } else {
                    assert(bytes_le(s[0], s[j - 1]));
                    if bytes_lt(s[0], s[j - 1]) {
                        lemma_bytes_lt_trans(x, s[0], s[j - 1]);
                    }
                }
            }
        }
    } else {
        lemma_bytes_lt_trichotomy(x, s[0]);
        let rest = insert_name_sorted(x, s.drop_first());
        assert forall|i: int, j: int|
            0 <= i < j < s.drop_first().len() implies bytes_le(
            #[trigger] s.drop_first()[i],
            #[trigger] s.drop_first()[j],
        ) by {
            assert(s.drop_first()[i] == s[i + 1]);
            assert(s.drop_first()[j] == s[j + 1]);
        }
        lemma_insert_name_sorted(x, s.drop_first());
        assert(t =~= seq![s[0]] + rest);
        vstd::seq_lib::lemma_multiset_commutative(seq![s[0]], rest);
        assert(seq![s[0]] =~= Seq::<Seq<u8>>::empty().push(s[0]));
        assert(Seq::<Seq<u8>>::empty().to_multiset() =~= Multiset::<Seq<u8>>::empty());
        assert(s.remove(0) =~= s.drop_first());
        assert(s.drop_first().to_multiset() == s.to_multiset().remove(s[0]));
        assert(s.to_multiset().contains(s[0]));
        assert(t.to_multiset() =~= s.to_multiset().insert(x));
        assert forall|i: int, j: int| 0 <= i < j < t.len() implies bytes_le(t[i], t[j]) by {
            if i == 0 {
                let y = t[j];
                assert(y == rest[j - 1]);
                assert(rest.to_multiset().contains(y));
                if y == x {
                    assert(bytes_le(s[0], x));
                } else {
                    assert(s.drop_first().to_multiset().contains(y));
                    assert(s.drop_first().contains(y));
                    let w = choose|w: int|
                        0 <= w < s.drop_first().len() && s.drop_first()[w] == y;
                    assert(s[w + 1] == y);
                    assert(bytes_le(s[0], s[w + 1]));
                }
            } else {
                assert(t[i] == rest[i - 1]);
                assert(t[j] == rest[j - 1]);
            }
        }
    }
}

/// Sorting keeps exactly the elements and orders them.
pub proof fn lemma_sort_names_spec(s: Seq<Seq<u8>>)
    ensures
        names_sorted(sort_names_spec(s)),
        sort_names_spec(s).to_multiset() == s.to_multiset(),
        sort_names_spec(s).len() == s.len(),
    decreases s.len(),
{
    broadcast use vstd::seq_lib::group_to_multiset_ensures;

    if s.len() > 0 {
        lemma_sort_names_spec(s.drop_first());
        lemma_insert_name_sorted(s[0], sort_names_spec(s.drop_first()));
        assert(s.remove(0) =~= s.drop_first());
        assert(s.drop_first().to_multiset() == s.to_multiset().remove(s[0]));
        assert(s.to_multiset().contains(s[0]));
        assert(s.to_multiset().remove(s[0]).insert(s[0]) =~= s.to_multiset());
    }
}

/// Where the position-based insertion lands in the recursive form.
pub proof fn lemma_insert_name_at(x: Seq<u8>, s: Seq<Seq<u8>>, k: int)
    requires
        0 <= k <= s.len(),
        forall|j: int| 0 <= j < k ==> !bytes_lt(x, #[trigger] s[j]),
        k < s.len() ==> bytes_lt(x, s[k]),
    ensures
        insert_name_sorted(x, s) == s.take(k) + seq![x] + s.skip(k),
    decreases s.len(),
{
    if s.len() == 0 {
        assert(insert_name_sorted(x, s) =~= s.take(k) + seq![x] + s.skip(k));
    } else if k == 0 {
        assert(bytes_lt(x, s[0]));
        assert(insert_name_sorted(x, s) =~= s.take(0) + seq![x] + s.skip(0));
    } else {
        assert(!bytes_lt(x, s[0]));
        assert forall|j: int| 0 <= j < k - 1 implies !bytes_lt(x, #[trigger] s.drop_first()[j]) by {
            assert(s.drop_first()[j] == s[j + 1]);
        }
        if k - 1 < s.drop_first().len() {
            assert(s.drop_first()[k - 1] == s[k]);
        }
        lemma_insert_name_at(x, s.drop_first(), k - 1);
        assert(seq![s[0]] + (s.drop_first().take(k - 1) + seq![x] + s.drop_first().skip(k - 1))
            =~= s.take(k) + seq![x] + s.skip(k));
    }
}

/// Inserts `x` into the sorted vector `r`, keeping it sorted.
#[verifier::loop_isolation(false)]
pub fn insert_name_vec(r: &mut Vec<Name>, x: Name)
    ensures
        final(r).deep_view() == insert_name_sorted(x@, old(r).deep_view()),
{
    let n = r.len();
    let ghost s = r.deep_view();
    proof {
        if r@.len() > 0 {
            lemma_path_deep_view_index(*r, 0);
        } else {
            assert(r.deep_view() =~= Seq::<Seq<u8>>::empty());
        }
    }
    let mut k: usize = 0;
    while k < n && !name_lt(&x, &r[k])
        invariant
            k <= n,
            forall|j: int| 0 <= j < k ==> !bytes_lt(x@, #[trigger] s[j]),
        decreases n - k,
    {
        proof {
            lemma_path_deep_view_index(*r, k as int);
        }
        k += 1;
    }
    proof {
        if k < n {
            lemma_path_deep_view_index(*r, k as int);
        }
        lemma_insert_name_at(x@, s, k as int);
    }
    let ghost rv0 = *r;
    r.insert(k, x);
    proof {
        assert forall|j: int| 0 <= j < r@.len() implies r@[j]@ == (s.take(k as int) + seq![x@]
            + s.skip(k as int))[j] by {
            if j < k {
                assert(r@[j] == rv0@[j]);
                lemma_path_deep_view_index(rv0, j);
            } else if j == k {
                assert(r@[j] == x);
            } else {
                assert(r@[j] == rv0@[j - 1]);
                lemma_path_deep_view_index(rv0, j - 1);
            }
        }
        crate::fs_model::lemma_path_deep_view_eq(
            *r,
            s.take(k as int) + seq![x@] + s.skip(k as int),
        );
    }
}

/// Sorts the names in `v` into byte-lexicographic order.
#[verifier::loop_isolation(false)]
pub fn sort_names(v: &Vec<Name>) -> (r: Vec<Name>)
    ensures
        r.deep_view() == sort_names_spec(v.deep_view()),
{
    proof {
        if v@.len() > 0 {
            lemma_path_deep_view_index(*v, 0);
        } else {
            assert(v.deep_view() =~= Seq::<Seq<u8>>::empty());
        }
    }
    let mut r: Vec<Name> = Vec::new();
    let mut i: usize = v.len();
    proof {
        assert(v.deep_view().skip(v@.len() as int) =~= Seq::<Seq<u8>>::empty());
        assert(r.deep_view() =~= Seq::<Seq<u8>>::empty());
    }
    while i > 0
        invariant
            i <= v.len(),
            r.deep_view() == sort_names_spec(v.deep_view().skip(i as int)),
        decreases i,
    {
        i -= 1;
        let x = clone_name(&v[i]);
        proof {
            lemma_name_deep_view(x);
            lemma_path_deep_view_index(*v, i as int);
        }
        insert_name_vec(&mut r, x);
        proof {
            assert(v.deep_view().skip(i as int)[0] == v.deep_view()[i as int]);
            assert(v.deep_view().skip(i as int).drop_first() =~= v.deep_view().skip(i as int + 1));
            lemma_sort_names_unfold(v.deep_view().skip(i as int));
        }
    }
    proof {
        assert(v.deep_view().skip(0) =~= v.deep_view());
    }
    r
}

/// Whether the components of `a` come strictly before those of `b`.
#[verifier::loop_isolation(false)]
pub fn path_lt_fn(a: &Vec<Name>, b: &Vec<Name>) -> (r: bool)
    ensures
        r == path_lt(a.deep_view(), b.deep_view()),
{
    let an = a.len();
    let bn = b.len();
    let ghost av = a.deep_view();
    let ghost bv = b.deep_view();
    let mut i: usize = 0;
    proof {
        if an > 0 {
            lemma_path_deep_view_index(*a, 0);
        } else {
            assert(av =~= Seq::<Seq<u8>>::empty());
        }
        if bn > 0 {
            lemma_path_deep_view_index(*b, 0);
        } else {
            assert(bv =~= Seq::<Seq<u8>>::empty());
        }
        assert(av.skip(0) =~= av);
        assert(bv.skip(0) =~= bv);
    }
    while i < an && i < bn
        invariant
            i <= an,
            i <= bn,
            an == av.len(),
            bn == bv.len(),
            path_lt(av, bv) == path_lt(av.skip(i as int), bv.skip(i as int)),
            path_lt(bv, av) == path_lt(bv.skip(i as int), av.skip(i as int)),
            forall|j: int| 0 <= j < i ==> av[j] == bv[j],
        decreases an - i,
    {
        proof {
            lemma_path_deep_view_index(*a, i as int);
            lemma_path_deep_view_index(*b, i as int);
            assert(av.skip(i as int)[0] == av[i as int]);
            assert(bv.skip(i as int)[0] == bv[i as int]);
        }
        if name_lt(&a[i], &b[i]) {
            return true;
        }
        if name_lt(&b[i], &a[i]) {
            proof {
                lemma_path_lt_trichotomy(av, bv);
            }
            return false;
        }
        proof {
            lemma_bytes_lt_trichotomy(av[i as int], bv[i as int]);
            assert(av.skip(i as int).drop_first() =~= av.skip(i as int + 1));
            assert(bv.skip(i as int).drop_first() =~= bv.skip(i as int + 1));
        }
        i += 1;
    }
    if i == an && an < bn {
        proof {
            assert(av.skip(i as int).len() == 0);
            assert(bv.skip(i as int).len() > 0);
        }
        true
    } else {
        proof {
            if i == an && an == bn {
                assert(av =~= bv);
                lemma_path_lt_trichotomy(av, bv);
            } else {
                assert(i == bn && bn < an);
                assert(bv.skip(i as int).len() == 0);
            }
        }
        false
    }
}

} // verus!

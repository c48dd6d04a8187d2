//! What holds of the model: rebalancing and insertion keep a tree a balanced
//! search tree, and insertion and lookup treat it as the map of its entries.

use crate::shape::{Shape, ascending, assoc, below_all, cut, entries, put};
use crate::store::StoreError;
use vstd::arithmetic::power2::{lemma2_to64, lemma_pow2_strictly_increases, lemma_pow2_unfold, pow2};
use vstd::prelude::*;
use vstd::relations::total_ordering;

verus! {

/// Joining two balanced subtrees whose heights differ by one at most gives a
/// balanced tree, as long as the new height and rank fit their fields.
pub proof fn lemma_join_balanced<K, V>(l: Shape<K, V>, key: K, value: V, r: Shape<K, V>)
    requires
        l.balanced(),
        r.balanced(),
        l.height() <= r.height() + 1,
        r.height() <= l.height() + 1,
        l.height() < u32::MAX,
        r.height() < u32::MAX,
        l.rank() + r.rank() < u64::MAX,
    ensures
        Shape::join(l, key, value, r) is Ok,
        Shape::join(l, key, value, r)->Ok_0.balanced(),
        Shape::join(l, key, value, r)->Ok_0.inorder() == l.inorder() + seq![(key, value)]
            + r.inorder(),
        Shape::join(l, key, value, r)->Ok_0.height() == 1 + crate::shape::max_nat(
            l.height(),
            r.height(),
        ),
        Shape::join(l, key, value, r)->Ok_0.rank() == l.rank() + r.rank() + 1,
{
}

/// Lifting the root of the left subtree, which is two higher than the right
/// one and not right-heavy itself, gives a balanced tree with the same entries.
proof fn lemma_rotate_right_single<K, V>(l: Shape<K, V>, key: K, value: V, r: Shape<K, V>)
    requires
        l.balanced(),
        r.balanced(),
        l.height() == r.height() + 2,
        l.height() < u32::MAX,
        l.rank() + r.rank() < u64::MAX,
        l->left.height() >= l->right.height(),
    ensures
        Shape::rotate_right(l, key, value, r) is Ok,
        Shape::rotate_right(l, key, value, r)->Ok_0.balanced(),
        Shape::rotate_right(l, key, value, r)->Ok_0.inorder() == l.inorder() + seq![(key, value)]
            + r.inorder(),
        Shape::rotate_right(l, key, value, r)->Ok_0.rank() == l.rank() + r.rank() + 1,
        Shape::rotate_right(l, key, value, r)->Ok_0.height() >= l.height(),
        Shape::rotate_right(l, key, value, r)->Ok_0.height() <= l.height() + 1,
{
    let ll = *l->left;
    let lr = *l->right;
    lemma_join_balanced(lr, key, value, r);
    let inner = Shape::join(lr, key, value, r)->Ok_0;
    lemma_join_balanced(ll, l->key, l->value, inner);
    let t = Shape::join(ll, l->key, l->value, inner)->Ok_0;
    assert(t.inorder() =~= l.inorder() + seq![(key, value)] + r.inorder());
    assert(ll.balanced() && lr.balanced());
    assert(crate::shape::first_flaw(ll, lr) is None);
}

/// Lifting the root of the left subtree's right subtree, where the left
/// subtree is two higher than the right one and right-heavy itself, gives a
/// balanced tree with the same entries.
proof fn lemma_rotate_right_double<K, V>(l: Shape<K, V>, key: K, value: V, r: Shape<K, V>)
    requires
        l.balanced(),
        r.balanced(),
        l.height() == r.height() + 2,
        l.height() < u32::MAX,
        l.rank() + r.rank() < u64::MAX,
        l->left.height() < l->right.height(),
    ensures
        Shape::rotate_right(l, key, value, r) is Ok,
        Shape::rotate_right(l, key, value, r)->Ok_0.balanced(),
        Shape::rotate_right(l, key, value, r)->Ok_0.inorder() == l.inorder() + seq![(key, value)]
            + r.inorder(),
        Shape::rotate_right(l, key, value, r)->Ok_0.rank() == l.rank() + r.rank() + 1,
        Shape::rotate_right(l, key, value, r)->Ok_0.height() == l.height(),
{
    let ll = *l->left;
    let lr = *l->right;
    assert(lr.balanced());
    let lrl = *lr->left;
    let lrr = *lr->right;
    assert(lrl.balanced() && lrr.balanced());
    lemma_join_balanced(ll, l->key, l->value, lrl);
    let a = Shape::join(ll, l->key, l->value, lrl)->Ok_0;
    lemma_join_balanced(lrr, key, value, r);
    let b = Shape::join(lrr, key, value, r)->Ok_0;
    lemma_join_balanced(a, lr->key, lr->value, b);
    let t = Shape::join(a, lr->key, lr->value, b)->Ok_0;
    assert(lr.inorder() == lrl.inorder() + seq![(lr->key, lr->value)] + lrr.inorder());
    assert(ll.balanced() && lr.balanced());
    assert(crate::shape::first_flaw(ll, lr) is None);
    assert(crate::shape::first_flaw(lrl, lrr) is None);
    assert(t.inorder() =~= l.inorder() + seq![(key, value)] + r.inorder());
}

/// The mirror image of [`lemma_rotate_right_single`].
proof fn lemma_rotate_left_single<K, V>(l: Shape<K, V>, key: K, value: V, r: Shape<K, V>)
    requires
        l.balanced(),
        r.balanced(),
        r.height() == l.height() + 2,
        r.height() < u32::MAX,
        l.rank() + r.rank() < u64::MAX,
        r->left.height() <= r->right.height(),
    ensures
        Shape::rotate_left(l, key, value, r) is Ok,
        Shape::rotate_left(l, key, value, r)->Ok_0.balanced(),
        Shape::rotate_left(l, key, value, r)->Ok_0.inorder() == l.inorder() + seq![(key, value)]
            + r.inorder(),
        Shape::rotate_left(l, key, value, r)->Ok_0.rank() == l.rank() + r.rank() + 1,
        Shape::rotate_left(l, key, value, r)->Ok_0.height() >= r.height(),
        Shape::rotate_left(l, key, value, r)->Ok_0.height() <= r.height() + 1,
{
    let rl = *r->left;
    let rr = *r->right;
    lemma_join_balanced(l, key, value, rl);
    let inner = Shape::join(l, key, value, rl)->Ok_0;
    lemma_join_balanced(inner, r->key, r->value, rr);
    let t = Shape::join(inner, r->key, r->value, rr)->Ok_0;
    assert(t.inorder() =~= l.inorder() + seq![(key, value)] + r.inorder());
    assert(rl.balanced() && rr.balanced());
    assert(crate::shape::first_flaw(rl, rr) is None);
}

/// The mirror image of [`lemma_rotate_right_double`].
proof fn lemma_rotate_left_double<K, V>(l: Shape<K, V>, key: K, value: V, r: Shape<K, V>)
    requires
        l.balanced(),
        r.balanced(),
        r.height() == l.height() + 2,
        r.height() < u32::MAX,
        l.rank() + r.rank() < u64::MAX,
        r->left.height() > r->right.height(),
    ensures
        Shape::rotate_left(l, key, value, r) is Ok,
        Shape::rotate_left(l, key, value, r)->Ok_0.balanced(),
        Shape::rotate_left(l, key, value, r)->Ok_0.inorder() == l.inorder() + seq![(key, value)]
            + r.inorder(),
        Shape::rotate_left(l, key, value, r)->Ok_0.rank() == l.rank() + r.rank() + 1,
        Shape::rotate_left(l, key, value, r)->Ok_0.height() == r.height(),
{
    let rl = *r->left;
    let rr = *r->right;
    assert(rl.balanced());
    let rll = *rl->left;
    let rlr = *rl->right;
    assert(rll.balanced() && rlr.balanced());
    lemma_join_balanced(l, key, value, rll);
    let a = Shape::join(l, key, value, rll)->Ok_0;
    lemma_join_balanced(rlr, r->key, r->value, rr);
    let b = Shape::join(rlr, r->key, r->value, rr)->Ok_0;
    lemma_join_balanced(a, rl->key, rl->value, b);
    let t = Shape::join(a, rl->key, rl->value, b)->Ok_0;
    assert(rl.inorder() == rll.inorder() + seq![(rl->key, rl->value)] + rlr.inorder());
    assert(rl.balanced() && rr.balanced());
    assert(crate::shape::first_flaw(rl, rr) is None);
    assert(crate::shape::first_flaw(rll, rlr) is None);
    assert(t.inorder() =~= l.inorder() + seq![(key, value)] + r.inorder());
}

/// Rebalancing a node whose balanced sides differ in height by two at most
/// gives a balanced tree with the same entries in the same order. The height
/// is that of the higher side or one more, and one more where the sides
/// differed by one at most.
pub proof fn lemma_balance_restores<K, V>(s: Shape<K, V>)
    requires
        s is Fork,
        s->left.balanced(),
        s->right.balanced(),
        s->left.height() <= s->right.height() + 2,
        s->right.height() <= s->left.height() + 2,
        s->left.height() < u32::MAX,
        s->right.height() < u32::MAX,
        s->left.rank() + s->right.rank() < u64::MAX,
    ensures
        s.balance() is Ok,
        s.balance()->Ok_0.balanced(),
        s.balance()->Ok_0.inorder() == s.inorder(),
        s.balance()->Ok_0.rank() == s->left.rank() + s->right.rank() + 1,
        s.balance()->Ok_0.height() >= crate::shape::max_nat(s->left.height(), s->right.height()),
        s.balance()->Ok_0.height() <= 1 + crate::shape::max_nat(
            s->left.height(),
            s->right.height(),
        ),
        s->left.height() <= s->right.height() + 1 && s->right.height() <= s->left.height() + 1
            ==> s.balance()->Ok_0.height() == 1 + crate::shape::max_nat(
            s->left.height(),
            s->right.height(),
        ),
{
    let l = *s->left;
    let r = *s->right;
    assert(crate::shape::first_flaw(l, r) is None);
    if l.height() == r.height() + 2 {
        if l->left.height() >= l->right.height() {
            lemma_rotate_right_single(l, s->key, s->value, r);
        } else {
            lemma_rotate_right_double(l, s->key, s->value, r);
        }
    } else if r.height() == l.height() + 2 {
        if r->left.height() > r->right.height() {
            lemma_rotate_left_double(l, s->key, s->value, r);
        } else {
            lemma_rotate_left_single(l, s->key, s->value, r);
        }
    } else {
        lemma_join_balanced(l, s->key, s->value, r);
    }
}

/// A balanced tree is low: two to the power of half its height is at most
/// its node count and one.
pub proof fn lemma_height_bound<K, V>(s: Shape<K, V>)
    requires
        s.balanced(),
    ensures
        pow2(s.height() / 2) <= s.rank() + 1,
    decreases s,
{
    lemma2_to64();
    match s {
        Shape::Fork { left, right, .. } => {
            lemma_height_bound(*left);
            lemma_height_bound(*right);
            let h = s.height();
            if h >= 2 {
                let e = ((h - 2) / 2) as nat;
                assert(h / 2 == e + 1);
                lemma_pow2_unfold(h / 2);
                if left.height() / 2 > e {
                    lemma_pow2_strictly_increases(e, left.height() / 2);
                }
                if right.height() / 2 > e {
                    lemma_pow2_strictly_increases(e, right.height() / 2);
                }
            }
        },
        _ => {},
    }
}

/// A balanced tree whose node count fits 64 bits is at most 129 high.
pub proof fn lemma_height_small<K, V>(s: Shape<K, V>)
    requires
        s.balanced(),
    ensures
        s.height() <= 129,
{
    lemma_height_bound(s);
    lemma2_to64();
    if s.height() / 2 >= 65 {
        lemma_pow2_unfold(65);
        if s.height() / 2 > 65 {
            lemma_pow2_strictly_increases(65, s.height() / 2);
        }
    }
}

/// The entries of a balanced tree are as many as its rank says.
pub proof fn lemma_rank_counts<K, V>(s: Shape<K, V>)
    requires
        s.balanced(),
    ensures
        s.inorder().len() == s.rank(),
    decreases s,
{
    match s {
        Shape::Fork { left, right, .. } => {
            lemma_rank_counts(*left);
            lemma_rank_counts(*right);
        },
        _ => {},
    }
}

/// A key below the middle entry goes into the entries before it.
pub proof fn lemma_put_before<K, V>(
    a: Seq<(K, V)>,
    mid: (K, V),
    b: Seq<(K, V)>,
    le: spec_fn(K, K) -> bool,
    k: K,
    v: V,
)
    requires
        le(k, mid.0),
        k != mid.0,
    ensures
        put(a + seq![mid] + b, le, k, v) == put(a, le, k, v) + seq![mid] + b,
    decreases a.len(),
{
    let s = a + seq![mid] + b;
    if a.len() == 0 {
        assert(s =~= seq![mid] + b);
        assert(put(a, le, k, v) + seq![mid] + b =~= seq![(k, v)] + s);
    } else {
        assert(s[0] == a[0]);
        assert(s.drop_first() =~= a.drop_first() + seq![mid] + b);
        if a[0].0 == k {
            assert(put(a, le, k, v) + seq![mid] + b =~= seq![(k, v)] + s.drop_first());
        } else if le(k, a[0].0) {
            assert(put(a, le, k, v) + seq![mid] + b =~= seq![(k, v)] + s);
        } else {
            lemma_put_before(a.drop_first(), mid, b, le, k, v);
            assert(put(a, le, k, v) + seq![mid] + b =~= seq![s[0]] + put(
                s.drop_first(),
                le,
                k,
                v,
            ));
        }
    }
}

/// A key above the middle entry, and so above every entry before it, goes
/// into the entries after it.
pub proof fn lemma_put_after<K, V>(
    a: Seq<(K, V)>,
    mid: (K, V),
    b: Seq<(K, V)>,
    le: spec_fn(K, K) -> bool,
    k: K,
    v: V,
)
    requires
        total_ordering(le),
        !le(k, mid.0),
        forall|i: int| 0 <= i < a.len() ==> !le(k, #[trigger] a[i].0),
    ensures
        put(a + seq![mid] + b, le, k, v) == a + seq![mid] + put(b, le, k, v),
    decreases a.len(),
{
    let s = a + seq![mid] + b;
    if a.len() == 0 {
        assert(s =~= seq![mid] + b);
        assert(s.drop_first() =~= b);
        assert(a + seq![mid] + put(b, le, k, v) =~= seq![s[0]] + put(b, le, k, v));
        assert(k != mid.0 ==> put(s, le, k, v) == seq![s[0]] + put(s.drop_first(), le, k, v));
        assert(le(k, k));
    } else {
        assert(s[0] == a[0]);
        assert(!le(k, a[0].0));
        assert(le(k, k));
        assert(s.drop_first() =~= a.drop_first() + seq![mid] + b);
        assert forall|i: int| 0 <= i < a.drop_first().len() implies !le(
            k,
            #[trigger] a.drop_first()[i].0,
        ) by {
            assert(a.drop_first()[i] == a[i + 1]);
        }
        lemma_put_after(a.drop_first(), mid, b, le, k, v);
        assert(a + seq![mid] + put(b, le, k, v) =~= seq![s[0]] + put(s.drop_first(), le, k, v));
    }
}

/// There is a value under `k` exactly when some entry has that key.
pub proof fn lemma_assoc_some<K, V>(s: Seq<(K, V)>, k: K)
    ensures
        assoc(s, k) is Some <==> exists|i: int| 0 <= i < s.len() && #[trigger] s[i].0 == k,
        assoc(s, k) matches Some(v) ==> exists|i: int| 0 <= i < s.len() && #[trigger] s[i] == (k, v),
    decreases s.len(),
{
    if s.len() > 0 {
        if s[0].0 == k {
            assert(s[0] == (k, s[0].1));
        } else {
            let t = s.drop_first();
            lemma_assoc_some(t, k);
            if assoc(t, k) is Some {
                let i = choose|i: int| 0 <= i < t.len() && #[trigger] t[i] == (k, assoc(t, k)->0);
                assert(s[i + 1] == t[i]);
                assert(s[i + 1].0 == k);
            }
            if exists|i: int| 0 <= i < s.len() && #[trigger] s[i].0 == k {
                let i = choose|i: int| 0 <= i < s.len() && #[trigger] s[i].0 == k;
                assert(t[i - 1] == s[i]);
                assert(t[i - 1].0 == k);
            }
        }
    }
}

/// Among ascending entries, the value under the key of an entry is that
/// entry's value.
pub proof fn lemma_assoc_at<K, V>(s: Seq<(K, V)>, le: spec_fn(K, K) -> bool, i: int)
    requires
        ascending(s, le),
        0 <= i < s.len(),
    ensures
        assoc(s, s[i].0) == Some(s[i].1),
    decreases s.len(),
{
    if i > 0 {
        let t = s.drop_first();
        assert forall|a: int, b: int| 0 <= a < b < t.len() implies le(t[a].0, t[b].0) && t[a].0
            != t[b].0 by {
            assert(t[a] == s[a + 1] && t[b] == s[b + 1]);
        }
        assert(t[i - 1] == s[i]);
        lemma_assoc_at(t, le, i - 1);
    }
}

/// What `put` leaves under each key: the new value under `k`, and under every
/// other key what was there.
pub proof fn lemma_assoc_put<K, V>(s: Seq<(K, V)>, le: spec_fn(K, K) -> bool, k: K, v: V, q: K)
    ensures
        assoc(put(s, le, k, v), q) == (if q == k {
            Some(v)
        } else {
            assoc(s, q)
        }),
    decreases s.len(),
{
    let p = put(s, le, k, v);
    if s.len() == 0 {
        assert(p.drop_first() =~= s);
    } else if s[0].0 == k {
        assert(p.drop_first() =~= s.drop_first());
    } else if le(k, s[0].0) {
        assert(p.drop_first() =~= s);
    } else {
        lemma_assoc_put(s.drop_first(), le, k, v, q);
        assert(p.drop_first() =~= put(s.drop_first(), le, k, v));
    }
}

/// `put` is insertion into the map of the entries.
pub proof fn lemma_entries_put<K, V>(s: Seq<(K, V)>, le: spec_fn(K, K) -> bool, k: K, v: V)
    ensures
        entries(put(s, le, k, v)) == entries(s).insert(k, v),
{
    assert forall|q: K|
        assoc(put(s, le, k, v), q) == (if q == k {
            Some(v)
        } else {
            assoc(s, q)
        }) by {
        lemma_assoc_put(s, le, k, v, q);
    }
    assert(entries(put(s, le, k, v)) =~= entries(s).insert(k, v));
}

/// `put` keeps ascending entries ascending, and above whatever was below both
/// the entries and the new key.
pub proof fn lemma_put_ascending<K, V>(s: Seq<(K, V)>, le: spec_fn(K, K) -> bool, k: K, v: V)
    requires
        total_ordering(le),
        ascending(s, le),
    ensures
        ascending(put(s, le, k, v), le),
        forall|x: K|
            le(x, k) && x != k && #[trigger] below_all(x, s, le) ==> below_all(
                x,
                put(s, le, k, v),
                le,
            ),
        put(s, le, k, v).len() == s.len() + (if assoc(s, k) is Some {
            0int
        } else {
            1int
        }),
    decreases s.len(),
{
    let p = put(s, le, k, v);
    lemma_assoc_some(s, k);
    if s.len() == 0 {
    } else if s[0].0 == k {
        assert forall|i: int, j: int| 0 <= i < j < p.len() implies le(p[i].0, p[j].0) && p[i].0
            != p[j].0 by {
            assert(p[i].0 == s[i].0 && p[j].0 == s[j].0);
        }
        assert(p.len() == s.len());
    } else if le(k, s[0].0) {
        assert forall|i: int, j: int| 0 <= i < j < p.len() implies le(p[i].0, p[j].0) && p[i].0
            != p[j].0 by {
            assert(p[j] == s[j - 1]);
            if i == 0 {
                assert(le(k, s[0].0));
                if j > 1 {
                    assert(le(s[0].0, s[j - 1].0));
                }
            } else {
                assert(p[i] == s[i - 1]);
            }
        }
        assert forall|i: int| 0 <= i < s.len() implies #[trigger] s[i].0 != k by {
            if i > 0 {
                assert(le(s[0].0, s[i].0));
            }
        }
    } else {
        let t = s.drop_first();
        assert forall|a: int, b: int| 0 <= a < b < t.len() implies le(t[a].0, t[b].0) && t[a].0
            != t[b].0 by {
            assert(t[a] == s[a + 1] && t[b] == s[b + 1]);
        }
        lemma_put_ascending(t, le, k, v);
        lemma_assoc_some(t, k);
        let pt = put(t, le, k, v);
        let x = s[0].0;
        assert(le(x, k) && x != k);
        assert forall|i: int| 0 <= i < t.len() implies le(x, #[trigger] t[i].0) && x != t[i].0 by {
            assert(t[i] == s[i + 1]);
        }
        assert(below_all(x, t, le));
        assert(below_all(x, pt, le));
        assert forall|i: int, j: int| 0 <= i < j < p.len() implies le(p[i].0, p[j].0) && p[i].0
            != p[j].0 by {
            assert(p[j] == pt[j - 1]);
            if i > 0 {
                assert(p[i] == pt[i - 1]);
            }
        }
        assert forall|y: K| le(y, k) && y != k && #[trigger] below_all(y, s, le) implies below_all(
            y,
            p,
            le,
        ) by {
            assert forall|i: int| 0 <= i < t.len() implies le(y, #[trigger] t[i].0) && y != t[i].0 by {
                assert(t[i] == s[i + 1]);
            }
            assert(below_all(y, t, le));
            assert(below_all(y, pt, le));
            assert forall|i: int| 0 <= i < p.len() implies le(y, #[trigger] p[i].0) && y != p[i].0 by {
                if i > 0 {
                    assert(p[i] == pt[i - 1]);
                } else {
                    assert(p[0] == s[0]);
                }
            }
        }
        if assoc(s, k) is Some {
            let i = choose|i: int| 0 <= i < s.len() && #[trigger] s[i].0 == k;
            assert(t[i - 1] == s[i]);
            assert(t[i - 1].0 == k);
        }
        if assoc(t, k) is Some {
            let i = choose|i: int| 0 <= i < t.len() && #[trigger] t[i].0 == k;
            assert(s[i + 1] == t[i]);
            assert(s[i + 1].0 == k);
        }
    }
}

/// Ascending entries around a middle one: both sides ascend, the left side is
/// below the middle and the right side above it.
pub proof fn lemma_ascending_split<K, V>(
    a: Seq<(K, V)>,
    mid: (K, V),
    b: Seq<(K, V)>,
    le: spec_fn(K, K) -> bool,
)
    requires
        ascending(a + seq![mid] + b, le),
    ensures
        ascending(a, le),
        ascending(b, le),
        forall|i: int| 0 <= i < a.len() ==> le(#[trigger] a[i].0, mid.0) && a[i].0 != mid.0,
        below_all(mid.0, b, le),
{
    let s = a + seq![mid] + b;
    let m = a.len() as int;
    assert(s[m] == mid);
    assert forall|i: int, j: int| 0 <= i < j < a.len() implies le(a[i].0, a[j].0) && a[i].0
        != a[j].0 by {
        assert(s[i] == a[i] && s[j] == a[j]);
    }
    assert forall|i: int, j: int| 0 <= i < j < b.len() implies le(b[i].0, b[j].0) && b[i].0
        != b[j].0 by {
        assert(s[m + 1 + i] == b[i] && s[m + 1 + j] == b[j]);
    }
    assert forall|i: int| 0 <= i < a.len() implies le(#[trigger] a[i].0, mid.0) && a[i].0
        != mid.0 by {
        assert(s[i] == a[i]);
    }
    assert forall|i: int| 0 <= i < b.len() implies le(mid.0, #[trigger] b[i].0) && mid.0
        != b[i].0 by {
        assert(s[m + 1 + i] == b[i]);
    }
}

/// Where the keys ascend, the value under a key below the middle entry is
/// found before it, one above it after it, and that of the middle key in the
/// middle.
pub proof fn lemma_assoc_split<K, V>(
    a: Seq<(K, V)>,
    mid: (K, V),
    b: Seq<(K, V)>,
    le: spec_fn(K, K) -> bool,
    k: K,
)
    requires
        total_ordering(le),
        ascending(a + seq![mid] + b, le),
    ensures
        assoc(a + seq![mid] + b, k) == (if k == mid.0 {
            Some(mid.1)
        } else if le(k, mid.0) {
            assoc(a, k)
        } else {
            assoc(b, k)
        }),
{
    let s = a + seq![mid] + b;
    let m = a.len() as int;
    assert(s[m] == mid);
    lemma_ascending_split(a, mid, b, le);
    lemma_assoc_some(s, k);
    lemma_assoc_some(a, k);
    lemma_assoc_some(b, k);
    if k == mid.0 {
        lemma_assoc_at(s, le, m);
    } else if le(k, mid.0) {
        if assoc(a, k) is Some {
            let i = choose|i: int| 0 <= i < a.len() && #[trigger] a[i] == (k, assoc(a, k)->0);
            assert(s[i] == a[i]);
            lemma_assoc_at(s, le, i);
        } else if assoc(s, k) is Some {
            let i = choose|i: int| 0 <= i < s.len() && #[trigger] s[i].0 == k;
            if i < m {
                assert(s[i] == a[i]);
                assert(a[i].0 == k);
            } else if i > m {
                assert(s[i] == b[i - m - 1]);
                assert(le(mid.0, b[i - m - 1].0));
            }
        }
    } else {
        if assoc(b, k) is Some {
            let i = choose|i: int| 0 <= i < b.len() && #[trigger] b[i] == (k, assoc(b, k)->0);
            assert(s[m + 1 + i] == b[i]);
            lemma_assoc_at(s, le, m + 1 + i);
        } else if assoc(s, k) is Some {
            let i = choose|i: int| 0 <= i < s.len() && #[trigger] s[i].0 == k;
            if i < m {
                assert(s[i] == a[i]);
                assert(le(a[i].0, mid.0));
            } else if i > m {
                assert(s[i] == b[i - m - 1]);
                assert(b[i - m - 1].0 == k);
            }
        }
    }
}

/// Insertion into a balanced search tree gives a balanced search tree that
/// holds the new value under the key and is otherwise unchanged: its entries
/// are those of [`put`]. The height stays or grows by one. Insertion fails only
/// where a new entry would take the node count past 64 bits.
pub proof fn lemma_insert<K, V>(s: Shape<K, V>, le: spec_fn(K, K) -> bool, k: K, v: V)
    requires
        total_ordering(le),
        s.well_formed(le),
    ensures
        match s.insert(le, k, v) {
            Ok(t) => {
                &&& t.well_formed(le)
                &&& t.inorder() == put(s.inorder(), le, k, v)
                &&& (t.height() == s.height() || t.height() == s.height() + 1)
                &&& t.rank() == s.rank() + (if assoc(s.inorder(), k) is Some {
                    0int
                } else {
                    1int
                })
            },
            Err(e) => {
                &&& e == StoreError::InvariantViolation
                &&& s.rank() == u64::MAX
                &&& assoc(s.inorder(), k) is None
            },
        },
    decreases s,
{
    lemma_put_ascending(s.inorder(), le, k, v);
    lemma_rank_counts(s);
    match s {
        Shape::Empty => {},
        Shape::Fault(_) => {},
        Shape::Fork { left, key, value, height, rank, right } => {
            let a = left.inorder();
            let b = right.inorder();
            let mid = (key, value);
            lemma_ascending_split(a, mid, b, le);
            lemma_assoc_split(a, mid, b, le, k);
            lemma_rank_counts(*left);
            lemma_rank_counts(*right);
            lemma_height_small(s);
            assert(left.balanced() && right.balanced());
            assert(crate::shape::first_flaw(*left, *right) is None);
            if k == key {
                let t = Shape::Fork { left, key, value: v, height, rank, right };
                lemma_put_here(a, mid, b, le, v);
                assert(t.inorder() == a + seq![(key, v)] + b);
            } else if le(k, key) {
                lemma_insert(*left, le, k, v);
                lemma_put_before(a, mid, b, le, k, v);
                if let Ok(nl) = left.insert(le, k, v) {
                    lemma_rank_counts(nl);
                    lemma_height_small(nl);
                    if let Ok(j) = Shape::join(nl, key, value, *right) {
                        lemma_balance_restores(j);
                        lemma_rank_counts(j.balance()->Ok_0);
                    }
                }
            } else {
                lemma_insert(*right, le, k, v);
                assert forall|i: int| 0 <= i < a.len() implies !le(k, #[trigger] a[i].0) by {
                    assert(le(a[i].0, key));
                }
                lemma_put_after(a, mid, b, le, k, v);
                if let Ok(nr) = right.insert(le, k, v) {
                    lemma_rank_counts(nr);
                    lemma_height_small(nr);
                    if let Ok(j) = Shape::join(*left, key, value, nr) {
                        lemma_balance_restores(j);
                        lemma_rank_counts(j.balance()->Ok_0);
                    }
                }
            }
        },
    }
}

/// Putting a value under the key of the middle entry replaces that entry.
pub proof fn lemma_put_here<K, V>(
    a: Seq<(K, V)>,
    mid: (K, V),
    b: Seq<(K, V)>,
    le: spec_fn(K, K) -> bool,
    v: V,
)
    requires
        total_ordering(le),
        forall|i: int| 0 <= i < a.len() ==> le(#[trigger] a[i].0, mid.0) && a[i].0 != mid.0,
    ensures
        put(a + seq![mid] + b, le, mid.0, v) == a + seq![(mid.0, v)] + b,
    decreases a.len(),
{
    let s = a + seq![mid] + b;
    if a.len() == 0 {
        assert(s.drop_first() =~= b);
        assert(a + seq![(mid.0, v)] + b =~= seq![(mid.0, v)] + s.drop_first());
    } else {
        assert(s[0] == a[0]);
        assert(le(a[0].0, mid.0) && a[0].0 != mid.0);
        assert(s.drop_first() =~= a.drop_first() + seq![mid] + b);
        assert forall|i: int| 0 <= i < a.drop_first().len() implies le(
            #[trigger] a.drop_first()[i].0,
            mid.0,
        ) && a.drop_first()[i].0 != mid.0 by {
            assert(a.drop_first()[i] == a[i + 1]);
        }
        lemma_put_here(a.drop_first(), mid, b, le, v);
        assert(a + seq![(mid.0, v)] + b =~= seq![s[0]] + put(s.drop_first(), le, mid.0, v));
    }
}

/// Binary search in a balanced search tree finds the node with the key
/// exactly when the entries hold the key, and that node holds the key's value.
pub proof fn lemma_find<K, V>(s: Shape<K, V>, le: spec_fn(K, K) -> bool, k: K)
    requires
        total_ordering(le),
        s.well_formed(le),
    ensures
        s.find(le, k) is Ok,
        match s.find(le, k)->Ok_0 {
            Shape::Fork { key, value, .. } => key == k && assoc(s.inorder(), k) == Some(value),
            Shape::Empty => assoc(s.inorder(), k) is None,
            Shape::Fault(_) => false,
        },
        entries(s.inorder()).contains_key(k) == (s.find(le, k)->Ok_0 is Fork),
        entries(s.inorder()).contains_key(k) ==> entries(s.inorder())[k] == s.find(
            le,
            k,
        )->Ok_0->value,
    decreases s,
{
    match s {
        Shape::Fork { left, key, value, right, .. } => {
            let a = left.inorder();
            let b = right.inorder();
            lemma_ascending_split(a, (key, value), b, le);
            lemma_assoc_split(a, (key, value), b, le, k);
            assert(left.balanced() && right.balanced());
            if k == key {
            } else if le(k, key) {
                lemma_find(*left, le, k);
            } else {
                lemma_find(*right, le, k);
            }
        },
        _ => {},
    }
}

/// Inserting an entry that a balanced search tree holds already leaves the
/// tree exactly as it is.
pub proof fn lemma_insert_present<K, V>(s: Shape<K, V>, le: spec_fn(K, K) -> bool, k: K, v: V)
    requires
        total_ordering(le),
        s.well_formed(le),
        assoc(s.inorder(), k) == Some(v),
    ensures
        s.insert(le, k, v) == Ok::<Shape<K, V>, StoreError>(s),
    decreases s,
{
    match s {
        Shape::Fork { left, key, value, right, .. } => {
            let a = left.inorder();
            let b = right.inorder();
            lemma_ascending_split(a, (key, value), b, le);
            lemma_assoc_split(a, (key, value), b, le, k);
            assert(left.balanced() && right.balanced());
            assert(crate::shape::first_flaw(*left, *right) is None);
            if k == key {
            } else if le(k, key) {
                lemma_insert_present(*left, le, k, v);
                lemma_join_balanced(*left, key, value, *right);
                assert(Shape::join(*left, key, value, *right) == Ok::<Shape<K, V>, StoreError>(s));
                assert(s.balance() == Ok::<Shape<K, V>, StoreError>(s));
            } else {
                lemma_insert_present(*right, le, k, v);
                lemma_join_balanced(*left, key, value, *right);
                assert(Shape::join(*left, key, value, *right) == Ok::<Shape<K, V>, StoreError>(s));
                assert(s.balance() == Ok::<Shape<K, V>, StoreError>(s));
            }
        },
        _ => {},
    }
}

/// Insertion is idempotent: inserting the same entry a second time gives the
/// tree that the first insertion gave, node for node.
pub proof fn lemma_insert_twice<K, V>(s: Shape<K, V>, le: spec_fn(K, K) -> bool, k: K, v: V)
    requires
        total_ordering(le),
        s.well_formed(le),
        s.insert(le, k, v) is Ok,
    ensures
        s.insert(le, k, v)->Ok_0.insert(le, k, v) == s.insert(le, k, v),
{
    lemma_insert(s, le, k, v);
    lemma_assoc_put(s.inorder(), le, k, v, k);
    lemma_insert_present(s.insert(le, k, v)->Ok_0, le, k, v);
}

/// The tree that inserting the entries one after the other into `s` gives;
/// the first failure ends it.
pub open spec fn insert_all<K, V>(
    s: Shape<K, V>,
    le: spec_fn(K, K) -> bool,
    items: Seq<(K, V)>,
) -> Result<Shape<K, V>, StoreError>
    decreases items.len(),
{
    if items.len() == 0 {
        Ok(s)
    } else {
        match s.insert(le, items[0].0, items[0].1) {
            Ok(t) => insert_all(t, le, items.drop_first()),
            Err(e) => Err(e),
        }
    }
}

/// Inserting entries one after the other into a balanced search tree gives a
/// balanced search tree whose entries are those of the tree with the new ones
/// put in, in that order. Nothing fails while the node count fits 64 bits.
pub proof fn lemma_insert_all<K, V>(s: Shape<K, V>, le: spec_fn(K, K) -> bool, items: Seq<(K, V)>)
    requires
        total_ordering(le),
        s.well_formed(le),
        s.rank() + items.len() <= u64::MAX,
    ensures
        insert_all(s, le, items) is Ok,
        insert_all(s, le, items)->Ok_0.well_formed(le),
        insert_all(s, le, items)->Ok_0.inorder() == put_all(s.inorder(), le, items),
    decreases items.len(),
{
    if items.len() > 0 {
        lemma_insert(s, le, items[0].0, items[0].1);
        lemma_insert_all(s.insert(le, items[0].0, items[0].1)->Ok_0, le, items.drop_first());
    }
}

/// The entries `s` with the new ones put in one after the other.
pub open spec fn put_all<K, V>(
    s: Seq<(K, V)>,
    le: spec_fn(K, K) -> bool,
    items: Seq<(K, V)>,
) -> Seq<(K, V)>
    decreases items.len(),
{
    if items.len() == 0 {
        s
    } else {
        put_all(put(s, le, items[0].0, items[0].1), le, items.drop_first())
    }
}

/// Insertion into a balanced search tree is insertion into the map of its
/// entries, and fails only where a new key would take the node count past 64
/// bits.
pub proof fn lemma_insert_map<K, V>(s: Shape<K, V>, le: spec_fn(K, K) -> bool, k: K, v: V)
    requires
        total_ordering(le),
        s.well_formed(le),
    ensures
        match s.insert(le, k, v) {
            Ok(t) => t.well_formed(le) && entries(t.inorder()) == entries(s.inorder()).insert(k, v),
            Err(e) => {
                &&& e == StoreError::InvariantViolation
                &&& s.rank() == u64::MAX
                &&& !entries(s.inorder()).contains_key(k)
            },
        },
{
    lemma_insert(s, le, k, v);
    lemma_entries_put(s.inorder(), le, k, v);
}

/// Cutting a key out of entries that do not hold it changes nothing.
pub proof fn lemma_cut_absent<K, V>(s: Seq<(K, V)>, k: K)
    requires
        forall|i: int| 0 <= i < s.len() ==> #[trigger] s[i].0 != k,
    ensures
        cut(s, k) == s,
    decreases s.len(),
{
    if s.len() > 0 {
        let t = s.drop_first();
        assert forall|i: int| 0 <= i < t.len() implies #[trigger] t[i].0 != k by {
            assert(t[i] == s[i + 1]);
        }
        lemma_cut_absent(t, k);
        assert(seq![s[0]] + t =~= s);
    }
}

/// Cutting a key out of two runs of entries takes it from the first run that
/// holds it.
pub proof fn lemma_cut_concat<K, V>(a: Seq<(K, V)>, b: Seq<(K, V)>, k: K)
    ensures
        cut(a + b, k) == (if assoc(a, k) is Some {
            cut(a, k) + b
        } else {
            a + cut(b, k)
        }),
    decreases a.len(),
{
    let s = a + b;
    if a.len() == 0 {
        assert(s =~= b);
        assert(a + cut(b, k) =~= cut(b, k));
    } else {
        assert(s[0] == a[0]);
        assert(s.drop_first() =~= a.drop_first() + b);
        if a[0].0 == k {
            assert(cut(a, k) + b =~= s.drop_first());
        } else {
            lemma_cut_concat(a.drop_first(), b, k);
            if assoc(a, k) is Some {
                assert(cut(a, k) + b =~= seq![s[0]] + cut(s.drop_first(), k));
            } else {
                assert(a + cut(b, k) =~= seq![s[0]] + cut(s.drop_first(), k));
            }
        }
    }
}

/// What is left under each key once `k` is cut out of ascending entries:
/// nothing under `k`, and under every other key what was there. The entries
/// stay ascending and are one fewer if `k` was there.
pub proof fn lemma_cut<K, V>(s: Seq<(K, V)>, le: spec_fn(K, K) -> bool, k: K)
    requires
        ascending(s, le),
    ensures
        ascending(cut(s, k), le),
        forall|q: K|
            #[trigger] assoc(cut(s, k), q) == (if q == k {
                None
            } else {
                assoc(s, q)
            }),
        entries(cut(s, k)) == entries(s).remove(k),
        cut(s, k).len() == s.len() - (if assoc(s, k) is Some {
            1int
        } else {
            0int
        }),
        forall|x: K| #[trigger] below_all(x, s, le) ==> below_all(x, cut(s, k), le),
    decreases s.len(),
{
    let c = cut(s, k);
    if s.len() == 0 {
    } else {
        let t = s.drop_first();
        assert forall|a: int, b: int| 0 <= a < b < t.len() implies le(t[a].0, t[b].0) && t[a].0
            != t[b].0 by {
            assert(t[a] == s[a + 1] && t[b] == s[b + 1]);
        }
        if s[0].0 == k {
            lemma_assoc_some(t, k);
            if assoc(t, k) is Some {
                let i = choose|i: int| 0 <= i < t.len() && #[trigger] t[i].0 == k;
                assert(t[i] == s[i + 1]);
                assert(s[0].0 != s[i + 1].0);
            }
            assert(c == t);
            assert forall|q: K|
                #[trigger] assoc(c, q) == (if q == k {
                    None
                } else {
                    assoc(s, q)
                }) by {
            }
            assert forall|x: K| #[trigger] below_all(x, s, le) implies below_all(x, c, le) by {
                assert forall|i: int| 0 <= i < c.len() implies le(x, #[trigger] c[i].0) && x
                    != c[i].0 by {
                    assert(c[i] == s[i + 1]);
                }
            }
        } else {
            lemma_cut(t, le, k);
            let ct = cut(t, k);
            assert(below_all(s[0].0, t, le)) by {
                assert forall|i: int| 0 <= i < t.len() implies le(s[0].0, #[trigger] t[i].0)
                    && s[0].0 != t[i].0 by {
                    assert(t[i] == s[i + 1]);
                }
            }
            assert(below_all(s[0].0, ct, le));
            assert forall|i: int, j: int| 0 <= i < j < c.len() implies le(c[i].0, c[j].0) && c[i].0
                != c[j].0 by {
                assert(c[j] == ct[j - 1]);
                if i > 0 {
                    assert(c[i] == ct[i - 1]);
                }
            }
            assert(c.drop_first() =~= ct);
            assert(c[0] == s[0]);
            assert forall|q: K|
                #[trigger] assoc(c, q) == (if q == k {
                    None
                } else {
                    assoc(s, q)
                }) by {
                assert(assoc(ct, q) == (if q == k {
                    None
                } else {
                    assoc(t, q)
                }));
            }
            assert forall|x: K| #[trigger] below_all(x, s, le) implies below_all(x, c, le) by {
                assert(below_all(x, t, le)) by {
                    assert forall|i: int| 0 <= i < t.len() implies le(x, #[trigger] t[i].0) && x
                        != t[i].0 by {
                        assert(t[i] == s[i + 1]);
                    }
                }
                assert(below_all(x, ct, le));
                assert forall|i: int| 0 <= i < c.len() implies le(x, #[trigger] c[i].0) && x
                    != c[i].0 by {
                    if i > 0 {
                        assert(c[i] == ct[i - 1]);
                    } else {
                        assert(c[0] == s[0]);
                    }
                }
            }
        }
    }
    assert(entries(c) =~= entries(s).remove(k));
}

/// Cutting a key out of ascending entries around a middle one: the middle
/// entry goes if it has the key, else the key is cut out of the side where
/// the order puts it.
pub proof fn lemma_cut_split<K, V>(
    a: Seq<(K, V)>,
    mid: (K, V),
    b: Seq<(K, V)>,
    le: spec_fn(K, K) -> bool,
    k: K,
)
    requires
        total_ordering(le),
        ascending(a + seq![mid] + b, le),
    ensures
        cut(a + seq![mid] + b, k) == (if k == mid.0 {
            a + b
        } else if le(k, mid.0) {
            cut(a, k) + seq![mid] + b
        } else {
            a + seq![mid] + cut(b, k)
        }),
{
    let tail = seq![mid] + b;
    assert(a + seq![mid] + b =~= a + tail);
    lemma_ascending_split(a, mid, b, le);
    lemma_cut_concat(a, tail, k);
    lemma_assoc_some(a, k);
    assert(tail[0] == mid);
    assert(tail.drop_first() =~= b);
    if k == mid.0 {
        assert(a + cut(tail, k) =~= a + b);
    } else if le(k, mid.0) {
        assert forall|i: int| 0 <= i < b.len() implies #[trigger] b[i].0 != k by {
            assert(le(mid.0, b[i].0));
        }
        lemma_cut_absent(b, k);
        if assoc(a, k) is Some {
            assert(cut(a, k) + tail =~= cut(a, k) + seq![mid] + b);
        } else {
            lemma_cut_absent(a, k);
            assert(a + cut(tail, k) =~= a + seq![mid] + b);
        }
    } else {
        assert forall|i: int| 0 <= i < a.len() implies #[trigger] a[i].0 != k by {
            assert(le(a[i].0, mid.0));
        }
        assert(a + cut(tail, k) =~= a + seq![mid] + cut(b, k));
    }
}

/// Taking the leftmost entry out of a balanced tree gives a balanced tree
/// with the other entries in their order, as high as before or one lower.
pub proof fn lemma_remove_min<K, V>(s: Shape<K, V>)
    requires
        s is Fork,
        s.balanced(),
    ensures
        s.remove_min() is Ok,
        s.remove_min()->Ok_0.0.balanced(),
        s.inorder() == seq![(s.remove_min()->Ok_0.1, s.remove_min()->Ok_0.2)]
            + s.remove_min()->Ok_0.0.inorder(),
        s.remove_min()->Ok_0.0.height() == s.height() || s.remove_min()->Ok_0.0.height() + 1
            == s.height(),
        s.remove_min()->Ok_0.0.rank() + 1 == s.rank(),
    decreases s,
{
    match s {
        Shape::Fork { left, key, value, right, .. } => {
            assert(left.balanced() && right.balanced());
            assert(crate::shape::first_flaw(*left, *right) is None);
            lemma_height_small(s);
            if *left is Empty {
                assert(left.inorder() =~= Seq::<(K, V)>::empty());
                assert(s.inorder() =~= seq![(key, value)] + right.inorder());
            } else {
                lemma_remove_min(*left);
                let rest = left.remove_min()->Ok_0.0;
                let k = left.remove_min()->Ok_0.1;
                let v = left.remove_min()->Ok_0.2;
                lemma_join_balanced_loose(rest, key, value, *right);
                let j = Shape::join(rest, key, value, *right)->Ok_0;
                lemma_balance_restores(j);
                let t = j.balance()->Ok_0;
                assert(s.remove_min() == Ok::<(Shape<K, V>, K, V), StoreError>((t, k, v)));
                assert(t.inorder() == rest.inorder() + seq![(key, value)] + right.inorder());
                assert(left.inorder() == seq![(k, v)] + rest.inorder());
                assert(s.inorder() =~= seq![(k, v)] + t.inorder());
            }
        },
        _ => {},
    }
}

/// A node over two balanced subtrees that differ in height by two at most:
/// its children and entries are what they are, whatever its own balance.
pub proof fn lemma_join_balanced_loose<K, V>(l: Shape<K, V>, key: K, value: V, r: Shape<K, V>)
    requires
        l.balanced(),
        r.balanced(),
        l.height() < u32::MAX,
        r.height() < u32::MAX,
        l.rank() + r.rank() < u64::MAX,
    ensures
        Shape::join(l, key, value, r) is Ok,
        *Shape::join(l, key, value, r)->Ok_0->left == l,
        *Shape::join(l, key, value, r)->Ok_0->right == r,
        Shape::join(l, key, value, r)->Ok_0->key == key,
        Shape::join(l, key, value, r)->Ok_0->value == value,
        Shape::join(l, key, value, r)->Ok_0.inorder() == l.inorder() + seq![(key, value)]
            + r.inorder(),
{
}

/// Removal from a balanced search tree gives a balanced search tree without
/// the key and otherwise unchanged: its entries are those of [`cut`]. The
/// tree is as high as before or one lower, and removal never fails.
pub proof fn lemma_remove<K, V>(s: Shape<K, V>, le: spec_fn(K, K) -> bool, k: K)
    requires
        total_ordering(le),
        s.well_formed(le),
    ensures
        s.remove(le, k) is Ok,
        s.remove(le, k)->Ok_0.well_formed(le),
        s.remove(le, k)->Ok_0.inorder() == cut(s.inorder(), k),
        s.remove(le, k)->Ok_0.height() == s.height() || s.remove(le, k)->Ok_0.height() + 1
            == s.height(),
        entries(s.remove(le, k)->Ok_0.inorder()) == entries(s.inorder()).remove(k),
    decreases s,
{
    lemma_cut(s.inorder(), le, k);
    match s {
        Shape::Fork { left, key, value, right, .. } => {
            let a = left.inorder();
            let b = right.inorder();
            let mid = (key, value);
            lemma_ascending_split(a, mid, b, le);
            lemma_cut_split(a, mid, b, le, k);
            lemma_rank_counts(s);
            lemma_rank_counts(*left);
            lemma_rank_counts(*right);
            lemma_height_small(s);
            assert(left.balanced() && right.balanced());
            assert(crate::shape::first_flaw(*left, *right) is None);
            if k == key {
                if *left is Empty {
                    assert(a + b =~= b);
                } else if *right is Empty {
                    assert(a + b =~= a);
                } else {
                    lemma_remove_min(*right);
                    let (rest, nk, nv) = right.remove_min()->Ok_0;
                    lemma_rank_counts(rest);
                    lemma_join_balanced_loose(*left, nk, nv, rest);
                    let j = Shape::join(*left, nk, nv, rest)->Ok_0;
                    lemma_balance_restores(j);
                    assert(j.inorder() =~= a + b);
                }
            } else if le(k, key) {
                lemma_remove(*left, le, k);
                let rest = left.remove(le, k)->Ok_0;
                lemma_rank_counts(rest);
                lemma_cut(a, le, k);
                lemma_join_balanced_loose(rest, key, value, *right);
                let j = Shape::join(rest, key, value, *right)->Ok_0;
                lemma_balance_restores(j);
            } else {
                lemma_remove(*right, le, k);
                let rest = right.remove(le, k)->Ok_0;
                lemma_rank_counts(rest);
                lemma_cut(b, le, k);
                lemma_join_balanced_loose(*left, key, value, rest);
                let j = Shape::join(*left, key, value, rest)->Ok_0;
                lemma_balance_restores(j);
            }
        },
        _ => {},
    }
}

} // verus!

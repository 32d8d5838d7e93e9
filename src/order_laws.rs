//! Members may be listed in any order: the wire order sorts them by name
//! hash, so a record's payload does not depend on how its members were listed.

use vstd::prelude::*;
use crate::hash::{has_adjacent_dup, insert_by_key, name_hash, sort_by_key};
use crate::value::{ordered_payloads, payload_keys, record_payload};

verus! {

/// Keys never decrease along `s`.
pub open spec fn keys_sorted(s: Seq<(u32, usize)>) -> bool {
    forall|i: int, j: int| 0 <= i < j < s.len() ==> s[i].0 <= s[j].0
}

/// No entry of `s` occurs twice.
pub open spec fn no_dup(s: Seq<(u32, usize)>) -> bool {
    forall|i: int, j: int| 0 <= i < j < s.len() ==> s[i] != s[j]
}

proof fn lemma_insert(x: (u32, usize), s: Seq<(u32, usize)>)
    ensures
        insert_by_key(x, s).len() == s.len() + 1,
        forall|y: (u32, usize)| #[trigger] insert_by_key(x, s).contains(y) <==> (y == x || s.contains(y)),
        keys_sorted(s) ==> keys_sorted(insert_by_key(x, s)),
        no_dup(s) && !s.contains(x) ==> no_dup(insert_by_key(x, s)),
    decreases s.len(),
{
    let r = insert_by_key(x, s);
    if s.len() == 0 {
        assert(r =~= seq![x]);
        assert forall|y: (u32, usize)| #[trigger] r.contains(y) <==> (y == x || s.contains(y)) by {
            if y == x {
                assert(r[0] == x);
            }
        }
    } else if x.0 <= s[0].0 {
        assert(r =~= seq![x] + s);
        assert forall|y: (u32, usize)| #[trigger] r.contains(y) <==> (y == x || s.contains(y)) by {
            if y == x {
                assert(r[0] == x);
            }
            if s.contains(y) {
                let k = choose|k: int| 0 <= k < s.len() && s[k] == y;
                assert(r[k + 1] == y);
            }
            if r.contains(y) {
                let k = choose|k: int| 0 <= k < r.len() && r[k] == y;
                if k > 0 {
                    assert(s[k - 1] == y);
                }
            }
        }
        if keys_sorted(s) {
            assert forall|i: int, j: int| 0 <= i < j < r.len() implies r[i].0 <= r[j].0 by {
                if i > 0 {
                    assert(r[i] == s[i - 1] && r[j] == s[j - 1]);
                } else {
                    assert(r[j] == s[j - 1]);
                    assert(s[0].0 <= s[j - 1].0 || j - 1 == 0);
                }
            }
        }
        if no_dup(s) && !s.contains(x) {
            assert forall|i: int, j: int| 0 <= i < j < r.len() implies r[i] != r[j] by {
                if i > 0 {
                    assert(r[i] == s[i - 1] && r[j] == s[j - 1]);
                } else {
                    assert(r[j] == s[j - 1]);
                }
            }
        }
    } else {
        let t = s.drop_first();
        let r2 = insert_by_key(x, t);
        lemma_insert(x, t);
        assert(r =~= seq![s[0]] + r2);
        assert forall|y: (u32, usize)| #[trigger] r.contains(y) <==> (y == x || s.contains(y)) by {
            if y == s[0] {
                assert(r[0] == y);
            }
            if s.contains(y) && y != s[0] {
                let k = choose|k: int| 0 <= k < s.len() && s[k] == y;
                assert(t[k - 1] == y);
                assert(r2.contains(y));
                let m = choose|m: int| 0 <= m < r2.len() && r2[m] == y;
                assert(r[m + 1] == y);
            }
            if y == x {
                assert(r2.contains(y));
                let m = choose|m: int| 0 <= m < r2.len() && r2[m] == y;
                assert(r[m + 1] == y);
            }
            if r.contains(y) {
                let k = choose|k: int| 0 <= k < r.len() && r[k] == y;
                if k > 0 {
                    assert(r2[k - 1] == y);
                    assert(r2.contains(y));
                    if t.contains(y) {
                        let m = choose|m: int| 0 <= m < t.len() && t[m] == y;
                        assert(s[m + 1] == y);
                    }
                } else {
                    assert(s[0] == y);
                }
            }
        }
        if keys_sorted(s) {
            assert(keys_sorted(t)) by {
                assert forall|i: int, j: int| 0 <= i < j < t.len() implies t[i].0 <= t[j].0 by {
                    assert(t[i] == s[i + 1] && t[j] == s[j + 1]);
                }
            }
            assert forall|i: int, j: int| 0 <= i < j < r.len() implies r[i].0 <= r[j].0 by {
                if i > 0 {
                    assert(r[i] == r2[i - 1] && r[j] == r2[j - 1]);
                } else {
                    assert(r[j] == r2[j - 1]);
                    assert(r2.contains(r2[j - 1]));
                    if r2[j - 1] != x {
                        assert(t.contains(r2[j - 1]));
                        let m = choose|m: int| 0 <= m < t.len() && t[m] == r2[j - 1];
                        assert(s[m + 1] == t[m]);
                    }
                }
            }
        }
        if no_dup(s) && !s.contains(x) {
            assert(!t.contains(x)) by {
                if t.contains(x) {
                    let m = choose|m: int| 0 <= m < t.len() && t[m] == x;
                    assert(s[m + 1] == x);
                }
            }
            assert(no_dup(t)) by {
                assert forall|i: int, j: int| 0 <= i < j < t.len() implies t[i] != t[j] by {
                    assert(t[i] == s[i + 1] && t[j] == s[j + 1]);
                }
            }
            assert forall|i: int, j: int| 0 <= i < j < r.len() implies r[i] != r[j] by {
                if i > 0 {
                    assert(r[i] == r2[i - 1] && r[j] == r2[j - 1]);
                } else {
                    assert(r[j] == r2[j - 1]);
                    assert(r2.contains(r2[j - 1]));
                    if r2[j - 1] == s[0] {
                        assert(s[0] != x);
                        assert(t.contains(s[0]));
                        let m = choose|m: int| 0 <= m < t.len() && t[m] == s[0];
                        assert(s[m + 1] == s[0]);
                    }
                }
            }
        }
    }
}

/// Sorting keeps the entries, orders them by key, and adds no duplicate.
pub proof fn lemma_sort(s: Seq<(u32, usize)>)
    ensures
        sort_by_key(s).len() == s.len(),
        forall|y: (u32, usize)| #[trigger] sort_by_key(s).contains(y) <==> s.contains(y),
        keys_sorted(sort_by_key(s)),
        no_dup(s) ==> no_dup(sort_by_key(s)),
    decreases s.len(),
{
    if s.len() > 0 {
        let d = s.drop_last();
        lemma_sort(d);
        lemma_insert(s.last(), sort_by_key(d));
        assert forall|y: (u32, usize)| #[trigger] s.contains(y) <==> (y == s.last() || d.contains(y)) by {
            if s.contains(y) {
                let k = choose|k: int| 0 <= k < s.len() && s[k] == y;
                if k < d.len() {
                    assert(d[k] == y);
                }
            }
            if d.contains(y) {
                let k = choose|k: int| 0 <= k < d.len() && d[k] == y;
                assert(s[k] == y);
            }
            if y == s.last() {
                assert(s[s.len() - 1] == y);
            }
        }
        if no_dup(s) {
            assert(no_dup(d)) by {
                assert forall|i: int, j: int| 0 <= i < j < d.len() implies d[i] != d[j] by {
                    assert(d[i] == s[i] && d[j] == s[j]);
                }
            }
            assert(!d.contains(s.last())) by {
                if d.contains(s.last()) {
                    let k = choose|k: int| 0 <= k < d.len() && d[k] == s.last();
                    assert(s[k] == s[s.len() - 1]);
                }
            }
        }
    }
}

/// Some entry of `b` has key `h`.
pub open spec fn has_key(b: Seq<(u32, usize)>, h: u32) -> bool {
    exists|j: int| 0 <= j < b.len() && b[j].0 == h
}

proof fn lemma_same_keys_upto(a: Seq<(u32, usize)>, b: Seq<(u32, usize)>, n: int)
    requires
        a.len() == b.len(),
        0 <= n <= a.len(),
        forall|i: int, j: int| 0 <= i < j < a.len() ==> a[i].0 < a[j].0,
        forall|i: int, j: int| 0 <= i < j < b.len() ==> b[i].0 < b[j].0,
        forall|i: int| 0 <= i < a.len() ==> #[trigger] has_key(b, a[i].0),
        forall|i: int| 0 <= i < b.len() ==> #[trigger] has_key(a, b[i].0),
    ensures
        forall|i: int| 0 <= i < n ==> #[trigger] a[i].0 == b[i].0,
    decreases n,
{
    if n > 0 {
        let i = n - 1;
        lemma_same_keys_upto(a, b, i);
        assert(has_key(b, a[i].0));
        let j = choose|j: int| 0 <= j < b.len() && b[j].0 == a[i].0;
        if j < i {
            assert(a[j].0 == b[j].0);
        }
        assert(has_key(a, b[i].0));
        let k = choose|k: int| 0 <= k < a.len() && a[k].0 == b[i].0;
        if k < i {
            assert(a[k].0 == b[k].0);
        }
    }
}
proof fn lemma_ordered_eq(
    f1: Seq<(Seq<char>, Seq<u8>)>,
    o1: Seq<(u32, usize)>,
    f2: Seq<(Seq<char>, Seq<u8>)>,
    o2: Seq<(u32, usize)>,
)
    requires
        o1.len() == o2.len(),
        forall|i: int| 0 <= i < o1.len() ==> (#[trigger] o1[i]).1 < f1.len() && o2[i].1 < f2.len()
            && f1[o1[i].1 as int].1 == f2[o2[i].1 as int].1,
    ensures
        ordered_payloads(f1, o1) == ordered_payloads(f2, o2),
    decreases o1.len(),
{
    if o1.len() > 0 {
        let d1 = o1.drop_last();
        let d2 = o2.drop_last();
        assert forall|i: int| 0 <= i < d1.len() implies (#[trigger] d1[i]).1 < f1.len() && d2[i].1 < f2.len()
            && f1[d1[i].1 as int].1 == f2[d2[i].1 as int].1 by {
            assert(d1[i] == o1[i] && d2[i] == o2[i]);
        }
        lemma_ordered_eq(f1, d1, f2, d2);
        assert(o1.last() == o1[o1.len() - 1]);
    }
}

/// Facts about the wire order of a member list whose names hash apart.
proof fn lemma_wire_order(f: Seq<(Seq<char>, Seq<u8>)>)
    requires
        f.len() <= usize::MAX,
        forall|i: int, j: int| 0 <= i < j < f.len() ==> name_hash(f[i].0) != name_hash(f[j].0),
    ensures
        sort_by_key(payload_keys(f)).len() == f.len(),
        forall|i: int| 0 <= i < f.len() ==> #[trigger] sort_by_key(payload_keys(f)).contains(payload_keys(f)[i]),
        forall|i: int| 0 <= i < f.len() ==> (#[trigger] sort_by_key(payload_keys(f))[i]).1 < f.len()
            && sort_by_key(payload_keys(f))[i].0 == name_hash(f[sort_by_key(payload_keys(f))[i].1 as int].0),
        forall|i: int, j: int| 0 <= i < j < f.len() ==> sort_by_key(payload_keys(f))[i].0 < sort_by_key(payload_keys(f))[j].0,
        !has_adjacent_dup(sort_by_key(payload_keys(f))),
{
    let k = payload_keys(f);
    let o = sort_by_key(k);
    assert(no_dup(k)) by {
        assert forall|i: int, j: int| 0 <= i < j < k.len() implies k[i] != k[j] by {
            assert(k[i].1 == i as usize && k[j].1 == j as usize);
        }
    }
    lemma_sort(k);
    assert forall|i: int| 0 <= i < f.len() implies #[trigger] o.contains(k[i]) by {
        assert(k.contains(k[i]));
    }
    assert forall|i: int| 0 <= i < f.len() implies (#[trigger] o[i]).1 < f.len() && o[i].0 == name_hash(f[o[i].1 as int].0) by {
        assert(o.contains(o[i]));
        let m = choose|m: int| 0 <= m < k.len() && k[m] == o[i];
        assert(k[m].1 == m as usize);
    }
    assert forall|i: int, j: int| 0 <= i < j < f.len() implies o[i].0 < o[j].0 by {
        assert(o[i] != o[j]);
        assert(o[i].0 <= o[j].0);
        assert(o.contains(o[i]) && o.contains(o[j]));
        let a = choose|m: int| 0 <= m < k.len() && k[m] == o[i];
        let b = choose|m: int| 0 <= m < k.len() && k[m] == o[j];
        assert(k[a].1 == a as usize && k[b].1 == b as usize);
        assert(a != b);
        if a < b {
            assert(name_hash(f[a].0) != name_hash(f[b].0));
        } else {
            assert(name_hash(f[b].0) != name_hash(f[a].0));
        }
    }
    assert(!has_adjacent_dup(o)) by {
        if has_adjacent_dup(o) {
            let i = choose|i: int| 0 <= i < o.len() - 1 && #[trigger] o[i].0 == o[i + 1].0;
            assert(o[i].0 < o[i + 1].0);
        }
    }
}

/// Every key of the wire order of `fa` is a key of that of `fb`, where
/// `fb[r[i]] == fa[i]`.
proof fn lemma_keys_cover(fa: Seq<(Seq<char>, Seq<u8>)>, fb: Seq<(Seq<char>, Seq<u8>)>, r: Seq<int>)
    requires
        fa.len() <= usize::MAX,
        fb.len() == fa.len(),
        r.len() == fa.len(),
        forall|i: int| 0 <= i < fa.len() ==> 0 <= #[trigger] r[i] < fb.len() && fb[r[i]].0 == fa[i].0,
        forall|i: int, j: int| 0 <= i < j < fa.len() ==> name_hash(fa[i].0) != name_hash(fa[j].0),
        forall|i: int, j: int| 0 <= i < j < fb.len() ==> name_hash(fb[i].0) != name_hash(fb[j].0),
    ensures
        forall|i: int| 0 <= i < fa.len() ==> #[trigger] has_key(sort_by_key(payload_keys(fb)), sort_by_key(payload_keys(fa))[i].0),
{
    lemma_wire_order(fa);
    lemma_wire_order(fb);
    let oa = sort_by_key(payload_keys(fa));
    let ob = sort_by_key(payload_keys(fb));
    let kb = payload_keys(fb);
    assert forall|i: int| 0 <= i < fa.len() implies #[trigger] has_key(ob, oa[i].0) by {
        let a = oa[i].1 as int;
        let b = r[a];
        assert(fb[b].0 == fa[a].0);
        assert(ob.contains(kb[b]));
        let j = choose|j: int| 0 <= j < ob.len() && ob[j] == kb[b];
        assert(ob[j].0 == oa[i].0);
    }
}

/// A permutation of members whose names hash apart still has names that
/// hash apart.
proof fn lemma_perm_distinct(f1: Seq<(Seq<char>, Seq<u8>)>, f2: Seq<(Seq<char>, Seq<u8>)>, p: Seq<int>, q: Seq<int>)
    requires
        f2.len() == f1.len(),
        p.len() == f1.len(),
        q.len() == f1.len(),
        forall|i: int| 0 <= i < f2.len() ==> 0 <= #[trigger] p[i] < f1.len() && f2[i].0 == f1[p[i]].0 && q[p[i]] == i,
        forall|i: int, j: int| 0 <= i < j < f1.len() ==> name_hash(f1[i].0) != name_hash(f1[j].0),
    ensures
        forall|i: int, j: int| 0 <= i < j < f2.len() ==> name_hash(f2[i].0) != name_hash(f2[j].0),
{
    assert forall|i: int, j: int| 0 <= i < j < f2.len() implies name_hash(f2[i].0) != name_hash(f2[j].0) by {
        assert(f2[i].0 == f1[p[i]].0 && f2[j].0 == f1[p[j]].0);
        assert(p[i] != p[j]);
        if p[i] < p[j] {
            assert(name_hash(f1[p[i]].0) != name_hash(f1[p[j]].0));
        } else {
            assert(name_hash(f1[p[j]].0) != name_hash(f1[p[i]].0));
        }
    }
}

/// Under a permutation of members whose names hash apart, the wire orders
/// agree entry by entry: the same hashes, at positions that the permutation
/// maps onto one another.
pub proof fn lemma_wire_orders_match(
    f1: Seq<(Seq<char>, Seq<u8>)>,
    f2: Seq<(Seq<char>, Seq<u8>)>,
    p: Seq<int>,
    q: Seq<int>,
)
    requires
        f1.len() <= usize::MAX,
        f2.len() == f1.len(),
        p.len() == f1.len(),
        q.len() == f1.len(),
        forall|i: int| 0 <= i < f2.len() ==> 0 <= #[trigger] p[i] < f1.len() && f2[i].0 == f1[p[i]].0 && q[p[i]] == i,
        forall|i: int| 0 <= i < f1.len() ==> 0 <= #[trigger] q[i] < f2.len() && p[q[i]] == i,
        forall|i: int, j: int| 0 <= i < j < f1.len() ==> name_hash(f1[i].0) != name_hash(f1[j].0),
    ensures
        sort_by_key(payload_keys(f1)).len() == f1.len(),
        sort_by_key(payload_keys(f2)).len() == f1.len(),
        !has_adjacent_dup(sort_by_key(payload_keys(f1))),
        !has_adjacent_dup(sort_by_key(payload_keys(f2))),
        forall|i: int| 0 <= i < f1.len() ==> (#[trigger] sort_by_key(payload_keys(f1))[i]).0 == sort_by_key(payload_keys(f2))[i].0
            && sort_by_key(payload_keys(f1))[i].1 < f1.len()
            && sort_by_key(payload_keys(f2))[i].1 < f2.len()
            && p[sort_by_key(payload_keys(f2))[i].1 as int] == sort_by_key(payload_keys(f1))[i].1 as int,
{
    let n = f1.len() as int;
    lemma_perm_distinct(f1, f2, p, q);
    lemma_wire_order(f1);
    lemma_wire_order(f2);
    let o1 = sort_by_key(payload_keys(f1));
    let o2 = sort_by_key(payload_keys(f2));
    assert forall|i: int| 0 <= i < f1.len() implies 0 <= #[trigger] q[i] < f2.len() && f2[q[i]].0 == f1[i].0 by {
        assert(f2[q[i]].0 == f1[p[q[i]]].0);
    }
    lemma_keys_cover(f1, f2, q);
    lemma_keys_cover(f2, f1, p);
    lemma_same_keys_upto(o1, o2, n);
    assert forall|i: int| 0 <= i < f1.len() implies (#[trigger] o1[i]).0 == o2[i].0 && o1[i].1 < f1.len()
        && o2[i].1 < f2.len() && p[o2[i].1 as int] == o1[i].1 as int by {
        assert(o1[i].0 == o2[i].0);
        let a = o1[i].1 as int;
        let b = o2[i].1 as int;
        assert(f2[b].0 == f1[p[b]].0);
        if p[b] != a {
            if p[b] < a {
                assert(name_hash(f1[p[b]].0) != name_hash(f1[a].0));
            } else {
                assert(name_hash(f1[a].0) != name_hash(f1[p[b]].0));
            }
        }
    }
}

/// Field-order independence: two records whose member lists are
/// permutations of one another (`f2[i] == f1[p[i]]`, with `q` the inverse of
/// `p`), and whose names hash apart, have the same payload.
pub proof fn lemma_record_field_order(
    f1: Seq<(Seq<char>, Seq<u8>)>,
    f2: Seq<(Seq<char>, Seq<u8>)>,
    p: Seq<int>,
    q: Seq<int>,
)
    requires
        f1.len() <= usize::MAX,
        f2.len() == f1.len(),
        p.len() == f1.len(),
        q.len() == f1.len(),
        forall|i: int| 0 <= i < f2.len() ==> 0 <= #[trigger] p[i] < f1.len() && f2[i] == f1[p[i]] && q[p[i]] == i,
        forall|i: int| 0 <= i < f1.len() ==> 0 <= #[trigger] q[i] < f2.len() && p[q[i]] == i,
        forall|i: int, j: int| 0 <= i < j < f1.len() ==> name_hash(f1[i].0) != name_hash(f1[j].0),
    ensures
        record_payload(f1) is Ok,
        record_payload(f1) == record_payload(f2),
{
    lemma_wire_orders_match(f1, f2, p, q);
    let o1 = sort_by_key(payload_keys(f1));
    let o2 = sort_by_key(payload_keys(f2));
    assert forall|i: int| 0 <= i < o1.len() implies (#[trigger] o1[i]).1 < f1.len() && o2[i].1 < f2.len()
        && f1[o1[i].1 as int].1 == f2[o2[i].1 as int].1 by {
        assert(sort_by_key(payload_keys(f1))[i].0 == sort_by_key(payload_keys(f2))[i].0);
        let b = o2[i].1 as int;
        assert(0 <= b < f2.len());
        assert(f2[b] == f1[p[b]]);
    }
    lemma_ordered_eq(f1, o1, f2, o2);
}

} // verus!

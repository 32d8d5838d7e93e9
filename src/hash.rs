//! The 32-bit field-name hash and ordering of keyed entries by that hash.

use vstd::prelude::*;
use vstd::string::StrSliceExecFns;

verus! {

/// The hash of a field name: `h <- (h * 223 + c) mod 2^32` over the name's
/// Unicode scalar values, starting from zero.
pub open spec fn name_hash(s: Seq<char>) -> u32
    decreases s.len(),
{
    if s.len() == 0 {
        0
    } else {
        ((name_hash(s.drop_last()) as int * 223 + s.last() as u32 as int) % 0x1_0000_0000) as u32
    }
}

/// Hashes a field name.
pub fn idl_hash(id: &str) -> (r: u32)
    ensures
        r == name_hash(id@),
{
    let n = id.unicode_len();
    let mut s: u32 = 0;
    let mut i: usize = 0;
    while i < n
        invariant
            n == id@.len(),
            i <= n,
            s == name_hash(id@.take(i as int)),
        decreases n - i,
    {
        let c = id.get_char(i);
        assert(id@.take(i + 1).drop_last() == id@.take(i as int));
        s = s.wrapping_mul(223).wrapping_add(c as u32);
        i = i + 1;
    }
    assert(id@.take(n as int) == id@);
    s
}

/// Inserts `x` before the first entry whose key is not smaller than its own.
pub open spec fn insert_by_key(x: (u32, usize), s: Seq<(u32, usize)>) -> Seq<(u32, usize)>
    decreases s.len(),
{
    if s.len() == 0 {
        seq![x]
    } else if x.0 <= s[0].0 {
        seq![x] + s
    } else {
        seq![s[0]] + insert_by_key(x, s.drop_first())
    }
}

/// The entries of `s` ordered by ascending key (insertion sort).
pub open spec fn sort_by_key(s: Seq<(u32, usize)>) -> Seq<(u32, usize)>
    decreases s.len(),
{
    if s.len() == 0 {
        s
    } else {
        insert_by_key(s.last(), sort_by_key(s.drop_last()))
    }
}

/// Two neighbouring entries of `s` share a key.
pub open spec fn has_adjacent_dup(s: Seq<(u32, usize)>) -> bool {
    exists|i: int| 0 <= i < s.len() - 1 && #[trigger] s[i].0 == s[i + 1].0
}

proof fn lemma_insert_at(x: (u32, usize), s: Seq<(u32, usize)>, j: int)
    requires
        0 <= j <= s.len(),
        forall|k: int| 0 <= k < j ==> s[k].0 < x.0,
        j < s.len() ==> x.0 <= s[j].0,
    ensures
        insert_by_key(x, s) == s.take(j).push(x) + s.skip(j),
    decreases s.len(),
{
    if s.len() == 0 {
        assert(s.take(j).push(x) + s.skip(j) =~= seq![x]);
    } else if j == 0 {
        assert(s.take(j).push(x) + s.skip(j) =~= seq![x] + s);
    } else {
        let t = s.drop_first();
        assert forall|k: int| 0 <= k < j - 1 implies t[k].0 < x.0 by {
            assert(t[k] == s[k + 1]);
        }
        lemma_insert_at(x, t, j - 1);
        assert(seq![s[0]] + (t.take(j - 1).push(x) + t.skip(j - 1)) =~= s.take(j).push(x) + s.skip(j));
    }
}

/// Orders keyed entries by ascending key.
pub fn sort_keyed(v: &Vec<(u32, usize)>) -> (r: Vec<(u32, usize)>)
    ensures
        r@ == sort_by_key(v@),
{
    let mut r: Vec<(u32, usize)> = Vec::new();
    let mut i: usize = 0;
    while i < v.len()
        invariant
            i <= v.len(),
            r@ == sort_by_key(v@.take(i as int)),
        decreases v.len() - i,
    {
        let x = v[i];
        let mut j: usize = 0;
        while j < r.len() && r[j].0 < x.0
            invariant
                j <= r.len(),
                forall|k: int| 0 <= k < j ==> r@[k].0 < x.0,
            decreases r.len() - j,
        {
            j = j + 1;
        }
        proof {
            lemma_insert_at(x, r@, j as int);
            assert(v@.take(i + 1).drop_last() =~= v@.take(i as int));
        }
        r.insert(j, x);
        assert(r@ =~= sort_by_key(v@.take(i + 1)));
        i = i + 1;
    }
    assert(v@.take(i as int) =~= v@);
    r
}

/// Tells whether two neighbouring entries share a key.
pub fn adjacent_dup(s: &Vec<(u32, usize)>) -> (r: bool)
    ensures
        r == has_adjacent_dup(s@),
{
    let mut i: usize = 0;
    while i < s.len() && i + 1 < s.len()
        invariant
            i <= s.len(),
            forall|k: int| 0 <= k < i ==> #[trigger] s@[k].0 != s@[k + 1].0,
        decreases s.len() - i,
    {
        if s[i].0 == s[i + 1].0 {
            return true;
        }
        i = i + 1;
    }
    assert(!has_adjacent_dup(s@)) by {
        if has_adjacent_dup(s@) {
            let k = choose|k: int| 0 <= k < s@.len() - 1 && #[trigger] s@[k].0 == s@[k + 1].0;
            assert(k < i);
        }
    }
    false
}

} // verus!

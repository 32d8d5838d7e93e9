//! How the type table grows: one row per distinct constructed subterm, and
//! no row for a type whose one-step unfolding is already indexed.

use vstd::prelude::*;
use crate::error::Error;
use crate::hash::{has_adjacent_dup, sort_by_key};
use crate::hash::name_hash;
use crate::order_laws::{lemma_sort, lemma_wire_orders_match, no_dup};
use crate::value::payload_keys;
use crate::table::{
    build_members, build_spec, empty_state, encode_members, encode_ref_spec, index_of, keyed, members, row_spec,
    type_bytes, wire_order, TableState,
};
use crate::types::{child_unrolled, fields_model, is_primitive_model, lemma_fields_model, unroll_model, KnotRegistry, Type, TypeModel};

verus! {

/// No `Knot` occurs anywhere in `t`.
pub open spec fn knot_free(t: Type) -> bool
    decreases t, 1int, 0int,
{
    match t {
        Type::Knot(_) => false,
        Type::Opt(c) => knot_free(*c),
        Type::Vec(c) => knot_free(*c),
        Type::Record(_) => members_knot_free(t, 0),
        Type::Variant(_) => members_knot_free(t, 0),
        _ => true,
    }
}

/// No `Knot` occurs in the members of `t` from the `k`th on.
pub open spec fn members_knot_free(t: Type, k: int) -> bool
    decreases t, 0int, members(t).len() - k,
{
    if k < 0 || k >= members(t).len() {
        true
    } else {
        knot_free(members(t)[k].ty) && members_knot_free(t, k + 1)
    }
}

/// The views of the constructed subterms of `t`, one per occurrence, `t`
/// itself first.
pub open spec fn subterms(t: Type) -> Seq<TypeModel>
    decreases t, 1int, 0int,
{
    match t {
        Type::Opt(c) => seq![t@] + subterms(*c),
        Type::Vec(c) => seq![t@] + subterms(*c),
        Type::Record(_) => seq![t@] + member_subterms(t, 0),
        Type::Variant(_) => seq![t@] + member_subterms(t, 0),
        _ => Seq::empty(),
    }
}

/// The constructed subterms of the members of `t` from the `k`th on.
pub open spec fn member_subterms(t: Type, k: int) -> Seq<TypeModel>
    decreases t, 0int, members(t).len() - k,
{
    if k < 0 || k >= members(t).len() {
        Seq::empty()
    } else {
        subterms(members(t)[k].ty) + member_subterms(t, k + 1)
    }
}

/// The types that hold an index, in the order they were met.
pub open spec fn index_keys(st: TableState) -> Seq<TypeModel> {
    st.index.map_values(|e: (TypeModel, usize)| e.0)
}

/// Every type holds one index and one row.
pub open spec fn one_row_per_key(st: TableState) -> bool {
    index_keys(st).no_duplicates() && st.index.len() == st.table.len()
}

proof fn lemma_members_knot_free(t: Type, k: int)
    requires
        0 <= k,
        members_knot_free(t, k),
    ensures
        forall|j: int| k <= j < members(t).len() ==> #[trigger] knot_free(members(t)[j].ty),
    decreases members(t).len() - k,
{
    if k < members(t).len() {
        lemma_members_knot_free(t, k + 1);
    }
}

proof fn lemma_concat_no_dup(a: Seq<TypeModel>, b: Seq<TypeModel>)
    requires
        (a + b).no_duplicates(),
    ensures
        a.no_duplicates(),
        b.no_duplicates(),
        forall|x: TypeModel| a.contains(x) ==> !b.contains(x),
{
    let c = a + b;
    assert forall|i: int, j: int| 0 <= i < a.len() && 0 <= j < a.len() && i != j implies a[i] != a[j] by {
        assert(c[i] == a[i] && c[j] == a[j]);
    }
    assert forall|i: int, j: int| 0 <= i < b.len() && 0 <= j < b.len() && i != j implies b[i] != b[j] by {
        assert(c[a.len() + i] == b[i] && c[a.len() + j] == b[j]);
    }
    assert forall|x: TypeModel| a.contains(x) implies !b.contains(x) by {
        let i = choose|i: int| 0 <= i < a.len() && a[i] == x;
        if b.contains(x) {
            let j = choose|j: int| 0 <= j < b.len() && b[j] == x;
            assert(c[i] == x && c[a.len() + j] == x);
        }
    }
}

/// Facts about the members' subterms from the `k`th member on.
proof fn lemma_member_subterms(t: Type, k: int)
    requires
        0 <= k,
    ensures
        forall|x: TypeModel| #[trigger] member_subterms(t, k).contains(x) <==>
            exists|j: int| k <= j < members(t).len() && #[trigger] subterms(members(t)[j].ty).contains(x),
        member_subterms(t, k).no_duplicates() ==> forall|j: int| k <= j < members(t).len()
            ==> #[trigger] subterms(members(t)[j].ty).no_duplicates(),
        member_subterms(t, k).no_duplicates() ==> forall|j1: int, j2: int, x: TypeModel|
            k <= j1 < members(t).len() && k <= j2 < members(t).len() && j1 != j2
            && #[trigger] subterms(members(t)[j1].ty).contains(x)
            ==> !#[trigger] subterms(members(t)[j2].ty).contains(x),
    decreases members(t).len() - k,
{
    if k < members(t).len() {
        lemma_member_subterms(t, k + 1);
        let a = subterms(members(t)[k].ty);
        let b = member_subterms(t, k + 1);
        assert(member_subterms(t, k) == a + b);
        assert forall|x: TypeModel| #[trigger] member_subterms(t, k).contains(x) <==>
            exists|j: int| k <= j < members(t).len() && #[trigger] subterms(members(t)[j].ty).contains(x) by {
            if member_subterms(t, k).contains(x) {
                let i = choose|i: int| 0 <= i < (a + b).len() && (a + b)[i] == x;
                if i < a.len() {
                    assert(a[i] == x);
                    assert(a.contains(x));
                } else {
                    assert(b[i - a.len()] == x);
                    assert(b.contains(x));
                }
            }
            if exists|j: int| k <= j < members(t).len() && #[trigger] subterms(members(t)[j].ty).contains(x) {
                let j = choose|j: int| k <= j < members(t).len() && #[trigger] subterms(members(t)[j].ty).contains(x);
                if j == k {
                    let i = choose|i: int| 0 <= i < a.len() && a[i] == x;
                    assert((a + b)[i] == x);
                } else {
                    assert(b.contains(x));
                    let i = choose|i: int| 0 <= i < b.len() && b[i] == x;
                    assert((a + b)[a.len() + i] == x);
                }
            }
        }
        if member_subterms(t, k).no_duplicates() {
            lemma_concat_no_dup(a, b);
        }
    }
}

/// A type without knots is its own one-step unfolding.
proof fn lemma_unroll_knot_free(t: Type, reg: &KnotRegistry)
    requires
        knot_free(t),
    ensures
        unroll_model(t, reg) == t@,
{
    match t {
        Type::Record(fs) => {
            lemma_members_knot_free(t, 0);
            lemma_fields_model(fs@);
            assert forall|i: int| 0 <= i < fs@.len() implies child_unrolled(#[trigger] fs@[i].ty, reg) == fs@[i].ty@ by {
                assert(knot_free(members(t)[i].ty));
            }
            assert(Seq::new(fs@.len(), |i: int| (fs@[i].id@, child_unrolled(fs@[i].ty, reg))) =~= fields_model(fs@));
            assert(t@ == TypeModel::Record(fields_model(fs@)));
        },
        Type::Variant(fs) => {
            lemma_members_knot_free(t, 0);
            lemma_fields_model(fs@);
            assert forall|i: int| 0 <= i < fs@.len() implies child_unrolled(#[trigger] fs@[i].ty, reg) == fs@[i].ty@ by {
                assert(knot_free(members(t)[i].ty));
            }
            assert(Seq::new(fs@.len(), |i: int| (fs@[i].id@, child_unrolled(fs@[i].ty, reg))) =~= fields_model(fs@));
        },
        Type::Opt(c) => {
            assert(knot_free(*c));
            assert(child_unrolled(*c, reg) == c@);
        },
        Type::Vec(c) => {
            assert(knot_free(*c));
            assert(child_unrolled(*c, reg) == c@);
        },
        _ => {},
    }
}

/// A type holds an index exactly when it is among the keys.
proof fn lemma_index_of_keys(idx: Seq<(TypeModel, usize)>, x: TypeModel)
    ensures
        index_of(idx, x) is Some <==> idx.map_values(|e: (TypeModel, usize)| e.0).contains(x),
    decreases idx.len(),
{
    let ks = idx.map_values(|e: (TypeModel, usize)| e.0);
    if idx.len() > 0 {
        let rest = idx.drop_first();
        lemma_index_of_keys(rest, x);
        let rk = rest.map_values(|e: (TypeModel, usize)| e.0);
        assert(rk =~= ks.drop_first());
        if ks.contains(x) && idx[0].0 != x {
            let i = choose|i: int| 0 <= i < ks.len() && ks[i] == x;
            assert(rk[i - 1] == x);
        }
        if rk.contains(x) {
            let i = choose|i: int| 0 <= i < rk.len() && rk[i] == x;
            assert(ks[i + 1] == x);
        }
        if idx[0].0 == x {
            assert(ks[0] == x);
        }
    }
}

/// Some entry of `o` is at position `j`.
pub open spec fn has_position(o: Seq<(u32, usize)>, j: int) -> bool {
    exists|i: int| 0 <= i < o.len() && o[i].1 == j
}

/// The wire order of the members of `t` lists each position exactly once.
proof fn lemma_wire_positions(t: Type)
    requires
        members(t).len() <= usize::MAX,
    ensures
        wire_order(t).len() == members(t).len(),
        forall|i: int| 0 <= i < wire_order(t).len() ==> (#[trigger] wire_order(t)[i]).1 < members(t).len(),
        forall|i: int, j: int| 0 <= i < j < wire_order(t).len() ==> (#[trigger] wire_order(t)[i]).1 != (#[trigger] wire_order(t)[j]).1,
        forall|j: int| 0 <= j < members(t).len() ==> #[trigger] has_position(wire_order(t), j),
{
    let k = keyed(members(t));
    let o = wire_order(t);
    assert(no_dup(k)) by {
        assert forall|i: int, j: int| 0 <= i < j < k.len() implies k[i] != k[j] by {
            assert(k[i].1 == i as usize && k[j].1 == j as usize);
        }
    }
    lemma_sort(k);
    assert forall|i: int| 0 <= i < o.len() implies (#[trigger] o[i]).1 < members(t).len() && k[o[i].1 as int] == o[i] by {
        assert(o.contains(o[i]));
        let m = choose|m: int| 0 <= m < k.len() && k[m] == o[i];
        assert(k[m].1 == m as usize);
    }
    assert forall|i: int, j: int| 0 <= i < j < o.len() implies (#[trigger] o[i]).1 != (#[trigger] o[j]).1 by {
        assert(o[i] != o[j]);
        assert(k[o[i].1 as int] == o[i] && k[o[j].1 as int] == o[j]);
    }
    assert forall|j: int| 0 <= j < members(t).len() implies #[trigger] has_position(o, j) by {
        assert(k.contains(k[j]));
        assert(o.contains(k[j]));
        let i = choose|i: int| 0 <= i < o.len() && o[i] == k[j];
        assert(o[i].1 == j);
    }
}

/// The constructed subterms of the member at position `j` of `t`.
pub open spec fn member_sub(t: Type, j: int) -> Seq<TypeModel> {
    subterms(members(t)[j].ty)
}

/// `x` is a subterm of a member listed in `order` from the `k`th entry on.
pub open spec fn covered(t: Type, order: Seq<(u32, usize)>, k: int, x: TypeModel) -> bool {
    exists|i: int| k <= i < order.len() && #[trigger] member_sub(t, order[i].1 as int).contains(x)
}

/// Building a knot-free type none of whose subterms is indexed yet, and
/// none of which occurs twice, adds exactly its subterms to the index, each
/// with one row.
proof fn lemma_build_adds_subterms(st: TableState, t: Type, reg: &KnotRegistry)
    requires
        one_row_per_key(st),
        knot_free(t),
        subterms(t).no_duplicates(),
        forall|x: TypeModel| #[trigger] subterms(t).contains(x) ==> !index_keys(st).contains(x),
    ensures
        build_spec(st, t, reg) is Ok ==> one_row_per_key(build_spec(st, t, reg)->Ok_0)
            && forall|x: TypeModel| #[trigger] index_keys(build_spec(st, t, reg)->Ok_0).contains(x)
                <==> (index_keys(st).contains(x) || subterms(t).contains(x)),
    decreases t, 1int, 0int,
{
    if is_primitive_model(t@) || t is Knot {
        assert(subterms(t) =~= Seq::<TypeModel>::empty());
        return;
    }
    let sub = subterms(t);
    assert(sub[0] == t@);
    assert(sub.contains(t@));
    lemma_index_of_keys(st.index, t@);
    lemma_unroll_knot_free(t, reg);
    let i = st.table.len() as usize;
    let st1 = TableState { table: st.table.push(Seq::empty()), index: st.index.push((t@, i)) };
    assert(index_keys(st1) =~= index_keys(st).push(t@));
    assert(one_row_per_key(st1)) by {
        let ks = index_keys(st);
        assert forall|a: int, b: int| 0 <= a < index_keys(st1).len() && 0 <= b < index_keys(st1).len() && a != b
            implies index_keys(st1)[a] != index_keys(st1)[b] by {
            if a == ks.len() {
                assert(ks.contains(ks[b]));
            } else if b == ks.len() {
                assert(ks.contains(ks[a]));
            }
        }
    }
    assert forall|x: TypeModel| #[trigger] index_keys(st1).contains(x) <==> (index_keys(st).contains(x) || x == t@) by {
        let ks = index_keys(st);
        if index_keys(st1).contains(x) {
            let a = choose|a: int| 0 <= a < index_keys(st1).len() && index_keys(st1)[a] == x;
            if a < ks.len() {
                assert(ks[a] == x);
            }
        }
        if ks.contains(x) {
            let a = choose|a: int| 0 <= a < ks.len() && ks[a] == x;
            assert(index_keys(st1)[a] == x);
        }
        if x == t@ {
            assert(index_keys(st1)[ks.len() as int] == x);
        }
    }
    match t {
        Type::Opt(c) => {
            lemma_child_subterms(t, *c, st, st1);
            lemma_build_adds_subterms(st1, *c, reg);
            lemma_keys_len_after(st, st1, build_spec(st1, *c, reg));
            lemma_row_keeps_keys(st, st1, build_spec(st1, *c, reg), t, reg);
        },
        Type::Vec(c) => {
            lemma_child_subterms(t, *c, st, st1);
            lemma_build_adds_subterms(st1, *c, reg);
            lemma_keys_len_after(st, st1, build_spec(st1, *c, reg));
            lemma_row_keeps_keys(st, st1, build_spec(st1, *c, reg), t, reg);
        },
        _ => {
            if !has_adjacent_dup(wire_order(t)) {
                lemma_record_members(st, st1, t, reg);
                lemma_keys_len_after(st, st1, crate::table::build_members(st1, t, wire_order(t), 0, reg));
                lemma_row_keeps_keys(st, st1, crate::table::build_members(st1, t, wire_order(t), 0, reg), t, reg);
            }
        },
    }
}

/// A table whose keys include those of `st1`, one more than `st` has, has
/// more rows than `st`.
proof fn lemma_keys_len_after(st: TableState, st1: TableState, built: Result<TableState, Error>)
    requires
        one_row_per_key(st1),
        st1.table.len() == st.table.len() + 1,
        built is Ok ==> one_row_per_key(built->Ok_0),
        built is Ok ==> forall|x: TypeModel| index_keys(st1).contains(x) ==> #[trigger] index_keys(built->Ok_0).contains(x),
    ensures
        built is Ok ==> built->Ok_0.table.len() > st.table.len(),
{
    if built is Ok {
        let a = index_keys(st1);
        let b = index_keys(built->Ok_0);
        a.unique_seq_to_set();
        b.unique_seq_to_set();
        assert(a.to_set().subset_of(b.to_set())) by {
            assert forall|x: TypeModel| a.to_set().contains(x) implies b.to_set().contains(x) by {
                assert(a.contains(x));
                assert(b.contains(x));
            }
        }
        vstd::set_lib::lemma_len_subset(a.to_set(), b.to_set());
    }
}

/// Writing the row of `t` after its children changes neither the index nor
/// the number of rows.
proof fn lemma_row_keeps_keys(st: TableState, st1: TableState, built: Result<TableState, Error>, t: Type, reg: &KnotRegistry)
    requires
        !(is_primitive_model(t@) || t is Knot),
        index_of(st.index, t@) is None,
        index_of(st.index, unroll_model(t, reg)) is None,
        st1 == (TableState { table: st.table.push(Seq::empty()), index: st.index.push((t@, st.table.len() as usize)) }),
        built == (match t {
            Type::Opt(c) => build_spec(st1, *c, reg),
            Type::Vec(c) => build_spec(st1, *c, reg),
            _ => if has_adjacent_dup(wire_order(t)) {
                Err(Error::HashCollision)
            } else {
                crate::table::build_members(st1, t, wire_order(t), 0, reg)
            },
        }),
        built is Ok ==> built->Ok_0.table.len() > st.table.len(),
    ensures
        build_spec(st, t, reg) is Ok ==> built is Ok && index_keys(build_spec(st, t, reg)->Ok_0) == index_keys(built->Ok_0)
            && build_spec(st, t, reg)->Ok_0.table.len() == built->Ok_0.table.len(),
{
}

/// The members of a record or variant `t`, built once `t` is indexed, add
/// exactly the subterms of `t` but `t` itself.
proof fn lemma_record_members(st: TableState, st1: TableState, t: Type, reg: &KnotRegistry)
    requires
        t is Record || t is Variant,
        one_row_per_key(st1),
        knot_free(t),
        subterms(t).no_duplicates(),
        forall|x: TypeModel| #[trigger] subterms(t).contains(x) ==> !index_keys(st).contains(x),
        forall|x: TypeModel| #[trigger] index_keys(st1).contains(x) <==> (index_keys(st).contains(x) || x == t@),
    ensures
        crate::table::build_members(st1, t, wire_order(t), 0, reg) is Ok ==> one_row_per_key(crate::table::build_members(st1, t, wire_order(t), 0, reg)->Ok_0)
            && forall|x: TypeModel| #[trigger] index_keys(crate::table::build_members(st1, t, wire_order(t), 0, reg)->Ok_0).contains(x)
                <==> (index_keys(st).contains(x) || subterms(t).contains(x)),
    decreases t, 0int, wire_order(t).len() + 1,
{
    let sub = subterms(t);
    let o = wire_order(t);
    let ms = member_subterms(t, 0);
    assert(sub == seq![t@] + ms);
    lemma_concat_no_dup(seq![t@], ms);
    lemma_member_subterms(t, 0);
    lemma_members_knot_free(t, 0);
    assert(members(t).len() <= usize::MAX) by {
        match t {
            Type::Record(fs) => { assert(fs@.len() == fs.len()); },
            Type::Variant(fs) => { assert(fs@.len() == fs.len()); },
            _ => {},
        }
    }
    lemma_wire_positions(t);
    assert(seq![t@].contains(t@)) by { assert(seq![t@][0] == t@); }
    assert forall|a: int, x: TypeModel| 0 <= a < o.len() && #[trigger] member_sub(t, o[a].1 as int).contains(x)
        implies !index_keys(st1).contains(x) by {
        let j = o[a].1 as int;
        assert(ms.contains(x));
        let m = choose|m: int| 0 <= m < ms.len() && ms[m] == x;
        assert(sub[m + 1] == x);
        assert(sub.contains(x));
        if x == t@ {
            assert(seq![t@].contains(x));
        }
    }
    lemma_members_add_subterms(st1, t, o, 0, reg);
    assert forall|x: TypeModel| covered(t, o, 0, x) <==> ms.contains(x) by {
        if covered(t, o, 0, x) {
            let a = choose|a: int| 0 <= a < o.len() && #[trigger] member_sub(t, o[a].1 as int).contains(x);
            assert(subterms(members(t)[o[a].1 as int].ty).contains(x));
        }
        if ms.contains(x) {
            let j = choose|j: int| 0 <= j < members(t).len() && #[trigger] subterms(members(t)[j].ty).contains(x);
            assert(has_position(o, j));
            let a = choose|a: int| 0 <= a < o.len() && o[a].1 == j;
            assert(member_sub(t, o[a].1 as int).contains(x));
        }
    }
    assert forall|x: TypeModel| sub.contains(x) <==> (x == t@ || ms.contains(x)) by {
        if sub.contains(x) {
            let m = choose|m: int| 0 <= m < sub.len() && sub[m] == x;
            if m > 0 {
                assert(ms[m - 1] == x);
            }
        }
        if ms.contains(x) {
            let m = choose|m: int| 0 <= m < ms.len() && ms[m] == x;
            assert(sub[m + 1] == x);
        }
        if x == t@ {
            assert(sub[0] == x);
        }
    }
}

/// The subterms of the only child of `t`, once `t` is indexed.
proof fn lemma_child_subterms(t: Type, c: Type, st: TableState, st1: TableState)
    requires
        subterms(t) == seq![t@] + subterms(c),
        subterms(t).no_duplicates(),
        forall|x: TypeModel| #[trigger] subterms(t).contains(x) ==> !index_keys(st).contains(x),
        forall|x: TypeModel| #[trigger] index_keys(st1).contains(x) <==> (index_keys(st).contains(x) || x == t@),
    ensures
        subterms(c).no_duplicates(),
        forall|x: TypeModel| #[trigger] subterms(c).contains(x) ==> !index_keys(st1).contains(x),
        forall|x: TypeModel| #[trigger] subterms(t).contains(x) <==> (x == t@ || subterms(c).contains(x)),
{
    let sub = subterms(t);
    let sc = subterms(c);
    lemma_concat_no_dup(seq![t@], sc);
    assert(seq![t@].contains(t@)) by { assert(seq![t@][0] == t@); }
    assert forall|x: TypeModel| #[trigger] sc.contains(x) implies !index_keys(st1).contains(x) by {
        let m = choose|m: int| 0 <= m < sc.len() && sc[m] == x;
        assert(sub[m + 1] == x);
        assert(sub.contains(x));
        if x == t@ {
            assert(seq![t@].contains(x));
        }
    }
    assert forall|x: TypeModel| #[trigger] sub.contains(x) <==> (x == t@ || sc.contains(x)) by {
        if sub.contains(x) {
            let m = choose|m: int| 0 <= m < sub.len() && sub[m] == x;
            if m > 0 {
                assert(sc[m - 1] == x);
            }
        }
        if sc.contains(x) {
            let m = choose|m: int| 0 <= m < sc.len() && sc[m] == x;
            assert(sub[m + 1] == x);
        }
        if x == t@ {
            assert(sub[0] == x);
        }
    }
}

/// Building the members listed in `order` from the `k`th on adds exactly
/// their subterms to the index.
proof fn lemma_members_add_subterms(st: TableState, t: Type, order: Seq<(u32, usize)>, k: int, reg: &KnotRegistry)
    requires
        one_row_per_key(st),
        0 <= k <= order.len(),
        forall|i: int| 0 <= i < order.len() ==> (#[trigger] order[i]).1 < members(t).len(),
        forall|i: int, j: int| 0 <= i < j < order.len() ==> (#[trigger] order[i]).1 != (#[trigger] order[j]).1,
        forall|j: int| 0 <= j < members(t).len() ==> #[trigger] knot_free(members(t)[j].ty),
        forall|j: int| 0 <= j < members(t).len() ==> #[trigger] subterms(members(t)[j].ty).no_duplicates(),
        forall|j1: int, j2: int, x: TypeModel|
            0 <= j1 < members(t).len() && 0 <= j2 < members(t).len() && j1 != j2
            && #[trigger] subterms(members(t)[j1].ty).contains(x)
            ==> !#[trigger] subterms(members(t)[j2].ty).contains(x),
        forall|a: int, x: TypeModel| k <= a < order.len() && #[trigger] member_sub(t, order[a].1 as int).contains(x)
            ==> !index_keys(st).contains(x),
    ensures
        crate::table::build_members(st, t, order, k, reg) is Ok ==> one_row_per_key(crate::table::build_members(st, t, order, k, reg)->Ok_0)
            && forall|x: TypeModel| #[trigger] index_keys(crate::table::build_members(st, t, order, k, reg)->Ok_0).contains(x)
                <==> (index_keys(st).contains(x) || covered(t, order, k, x)),
    decreases t, 0int, order.len() - k,
{
    if k < order.len() {
        let j = order[k].1 as int;
        let m = members(t)[j].ty;
        assert(knot_free(m));
        assert(subterms(m).no_duplicates());
        assert forall|x: TypeModel| #[trigger] subterms(m).contains(x) implies !index_keys(st).contains(x) by {
            assert(member_sub(t, order[k].1 as int).contains(x));
        }
        assert(decreases_to!(t => m)) by {
            if t is Record {
                assert(decreases_to!(t => t->Record_0));
                assert(decreases_to!(t->Record_0 => t->Record_0@));
                assert(decreases_to!(t->Record_0@ => t->Record_0@[j]));
            } else if t is Variant {
                assert(decreases_to!(t => t->Variant_0));
                assert(decreases_to!(t->Variant_0 => t->Variant_0@));
                assert(decreases_to!(t->Variant_0@ => t->Variant_0@[j]));
            }
        }
        lemma_build_adds_subterms(st, m, reg);
        if build_spec(st, m, reg) is Ok {
            let st2 = build_spec(st, m, reg)->Ok_0;
            assert forall|a: int, x: TypeModel| k + 1 <= a < order.len() && #[trigger] member_sub(t, order[a].1 as int).contains(x)
                implies !index_keys(st2).contains(x) by {
                assert(order[a].1 != order[k].1);
                assert(subterms(members(t)[order[a].1 as int].ty).contains(x));
            }
            lemma_members_add_subterms(st2, t, order, k + 1, reg);
            assert forall|x: TypeModel| covered(t, order, k, x) <==> (subterms(m).contains(x) || covered(t, order, k + 1, x)) by {
                if covered(t, order, k, x) {
                    let a = choose|a: int| k <= a < order.len() && #[trigger] member_sub(t, order[a].1 as int).contains(x);
                    if a > k {
                        assert(covered(t, order, k + 1, x));
                    }
                }
                if subterms(m).contains(x) {
                    assert(member_sub(t, order[k].1 as int).contains(x));
                }
                if covered(t, order, k + 1, x) {
                    let a = choose|a: int| k + 1 <= a < order.len() && #[trigger] member_sub(t, order[a].1 as int).contains(x);
                    assert(member_sub(t, order[a].1 as int).contains(x));
                }
            }
        }
    }
}

/// Table minimality: a type without knots, in which no constructed subterm
/// occurs twice and whose table can be built, gets exactly one row per
/// constructed subterm.
pub proof fn lemma_table_minimal(t: Type, reg: &KnotRegistry)
    requires
        knot_free(t),
        subterms(t).no_duplicates(),
        build_spec(empty_state(), t, reg) is Ok,
    ensures
        build_spec(empty_state(), t, reg)->Ok_0.table.len() == subterms(t).len(),
{
    let st0 = empty_state();
    assert(index_keys(st0) =~= Seq::<TypeModel>::empty());
    lemma_build_adds_subterms(st0, t, reg);
    let st2 = build_spec(st0, t, reg)->Ok_0;
    let ks = index_keys(st2);
    let sub = subterms(t);
    ks.unique_seq_to_set();
    sub.unique_seq_to_set();
    assert(ks.to_set() =~= sub.to_set()) by {
        assert forall|x: TypeModel| ks.to_set().contains(x) <==> sub.to_set().contains(x) by {
            assert(ks.to_set().contains(x) <==> ks.contains(x));
            assert(sub.to_set().contains(x) <==> sub.contains(x));
        }
    }
}

proof fn lemma_index_of_push(idx: Seq<(TypeModel, usize)>, e: (TypeModel, usize), x: TypeModel)
    ensures
        index_of(idx.push(e), x) == (match index_of(idx, x) {
            Some(i) => Some(i),
            None => if e.0 == x { Some(e.1) } else { None },
        }),
    decreases idx.len(),
{
    if idx.len() > 0 {
        assert(idx.push(e).drop_first() =~= idx.drop_first().push(e));
        assert(idx.push(e)[0] == idx[0]);
        lemma_index_of_push(idx.drop_first(), e, x);
    } else {
        assert(idx.push(e).drop_first() =~= idx);
        assert(idx.push(e)[0] == e);
    }
}

/// Equivalent unfoldings merge: a constructed type whose one-step unfolding
/// already holds an index adds no row, and is then referred to by the same
/// bytes as any type with the view of that unfolding.
pub proof fn lemma_equivalent_unfolding_merged(st: TableState, t: Type, u: Type, reg: &KnotRegistry)
    requires
        !(is_primitive_model(t@) || t is Knot),
        !(is_primitive_model(u@) || u is Knot),
        index_of(st.index, t@) is None,
        index_of(st.index, unroll_model(t, reg)) is Some,
        u@ == unroll_model(t, reg),
    ensures
        build_spec(st, t, reg) is Ok,
        build_spec(st, t, reg)->Ok_0.table == st.table,
        encode_ref_spec(build_spec(st, t, reg)->Ok_0, t, reg) is Ok,
        encode_ref_spec(build_spec(st, t, reg)->Ok_0, t, reg) == encode_ref_spec(build_spec(st, t, reg)->Ok_0, u, reg),
{
    let i = index_of(st.index, unroll_model(t, reg))->0;
    let st2 = build_spec(st, t, reg)->Ok_0;
    assert(st2.index == st.index.push((t@, i)));
    lemma_index_of_push(st.index, (t@, i), t@);
    lemma_index_of_push(st.index, (t@, i), u@);
}

/// Two types with the same view have members with the same views.
proof fn lemma_same_view_members(t1: Type, t2: Type)
    requires
        t1@ == t2@,
    ensures
        members(t1).len() == members(t2).len(),
        forall|j: int| 0 <= j < members(t1).len() ==> (#[trigger] members(t1)[j]).id@ == members(t2)[j].id@
            && members(t1)[j].ty@ == members(t2)[j].ty@,
        keyed(members(t1)) == keyed(members(t2)),
        wire_order(t1) == wire_order(t2),
{
    lemma_fields_model(members(t1));
    lemma_fields_model(members(t2));
    match (t1, t2) {
        (Type::Record(a), Type::Record(b)) => {
            assert(fields_model(a@) == fields_model(b@));
        },
        (Type::Variant(a), Type::Variant(b)) => {
            assert(fields_model(a@) == fields_model(b@));
        },
        _ => {},
    }
    assert forall|j: int| 0 <= j < members(t1).len() implies (#[trigger] members(t1)[j]).id@ == members(t2)[j].id@
        && members(t1)[j].ty@ == members(t2)[j].ty@ by {
        assert(fields_model(members(t1))[j] == fields_model(members(t2))[j]);
    }
    assert(keyed(members(t1)) =~= keyed(members(t2)));
}

/// A reference depends on the type only through its view.
proof fn lemma_same_view_ref(st: TableState, t1: Type, t2: Type, reg: &KnotRegistry)
    requires
        t1@ == t2@,
    ensures
        encode_ref_spec(st, t1, reg) == encode_ref_spec(st, t2, reg),
{
}

proof fn lemma_same_view_child(c1: Type, c2: Type, reg: &KnotRegistry)
    requires
        c1@ == c2@,
    ensures
        child_unrolled(c1, reg) == child_unrolled(c2, reg),
{
    match c1 {
        Type::Knot(id) => {
            assert(c2 is Knot);
        },
        _ => {
            assert(!(c2 is Knot));
        },
    }
}

/// The one-step unfolding depends on the type only through its view.
proof fn lemma_same_view_unroll(t1: Type, t2: Type, reg: &KnotRegistry)
    requires
        t1@ == t2@,
    ensures
        unroll_model(t1, reg) == unroll_model(t2, reg),
{
    match (t1, t2) {
        (Type::Record(a), Type::Record(b)) => {
            lemma_same_view_members(t1, t2);
            assert forall|i: int| 0 <= i < a@.len() implies child_unrolled(#[trigger] a@[i].ty, reg) == child_unrolled(b@[i].ty, reg) by {
                lemma_same_view_child(a@[i].ty, b@[i].ty, reg);
            }
            assert(Seq::new(a@.len(), |i: int| (a@[i].id@, child_unrolled(a@[i].ty, reg)))
                =~= Seq::new(b@.len(), |i: int| (b@[i].id@, child_unrolled(b@[i].ty, reg))));
        },
        (Type::Variant(a), Type::Variant(b)) => {
            lemma_same_view_members(t1, t2);
            assert forall|i: int| 0 <= i < a@.len() implies child_unrolled(#[trigger] a@[i].ty, reg) == child_unrolled(b@[i].ty, reg) by {
                lemma_same_view_child(a@[i].ty, b@[i].ty, reg);
            }
            assert(Seq::new(a@.len(), |i: int| (a@[i].id@, child_unrolled(a@[i].ty, reg)))
                =~= Seq::new(b@.len(), |i: int| (b@[i].id@, child_unrolled(b@[i].ty, reg))));
        },
        (Type::Opt(c1), Type::Opt(c2)) => {
            lemma_same_view_child(*c1, *c2, reg);
        },
        (Type::Vec(c1), Type::Vec(c2)) => {
            lemma_same_view_child(*c1, *c2, reg);
        },
        _ => {
            lemma_same_view_child(t1, t2, reg);
        },
    }
}

proof fn lemma_same_view_encode_members(st: TableState, t1: Type, t2: Type, order: Seq<(u32, usize)>, k: int, reg: &KnotRegistry)
    requires
        t1@ == t2@,
    ensures
        encode_members(st, members(t1), order, k, reg) == encode_members(st, members(t2), order, k, reg),
    decreases order.len() - k,
{
    lemma_same_view_members(t1, t2);
    if 0 <= k < order.len() {
        let j = order[k].1 as int;
        if j < members(t1).len() {
            lemma_same_view_ref(st, members(t1)[j].ty, members(t2)[j].ty, reg);
        }
        lemma_same_view_encode_members(st, t1, t2, order, k + 1, reg);
    }
}

/// Building the table depends on the type only through its view.
pub proof fn lemma_same_view_build(st: TableState, t1: Type, t2: Type, reg: &KnotRegistry)
    requires
        t1@ == t2@,
    ensures
        build_spec(st, t1, reg) == build_spec(st, t2, reg),
    decreases t1, 1int, 0int,
{
    lemma_same_view_unroll(t1, t2, reg);
    if is_primitive_model(t1@) || t1 is Knot {
        return;
    }
    let i = st.table.len() as usize;
    let st1 = TableState { table: st.table.push(Seq::empty()), index: st.index.push((t1@, i)) };
    match (t1, t2) {
        (Type::Opt(c1), Type::Opt(c2)) => {
            lemma_same_view_build(st1, *c1, *c2, reg);
            if build_spec(st1, *c1, reg) is Ok {
                lemma_same_view_ref(build_spec(st1, *c1, reg)->Ok_0, *c1, *c2, reg);
            }
        },
        (Type::Vec(c1), Type::Vec(c2)) => {
            lemma_same_view_build(st1, *c1, *c2, reg);
            if build_spec(st1, *c1, reg) is Ok {
                lemma_same_view_ref(build_spec(st1, *c1, reg)->Ok_0, *c1, *c2, reg);
            }
        },
        _ => {
            lemma_same_view_members(t1, t2);
            lemma_same_view_build_members(st1, t1, t2, wire_order(t1), 0, reg);
            let built = build_members(st1, t1, wire_order(t1), 0, reg);
            if built is Ok {
                lemma_same_view_encode_members(built->Ok_0, t1, t2, wire_order(t1), 0, reg);
                assert(row_spec(built->Ok_0, t1, reg) == row_spec(built->Ok_0, t2, reg));
            }
        },
    }
}

proof fn lemma_same_view_build_members(st: TableState, t1: Type, t2: Type, order: Seq<(u32, usize)>, k: int, reg: &KnotRegistry)
    requires
        t1@ == t2@,
    ensures
        build_members(st, t1, order, k, reg) == build_members(st, t2, order, k, reg),
    decreases t1, 0int, order.len() - k,
{
    lemma_same_view_members(t1, t2);
    if 0 <= k < order.len() {
        let j = order[k].1 as int;
        if j < members(t1).len() {
            let m1 = members(t1)[j].ty;
            let m2 = members(t2)[j].ty;
            assert(decreases_to!(t1 => m1)) by {
                if t1 is Record {
                    assert(decreases_to!(t1 => t1->Record_0));
                    assert(decreases_to!(t1->Record_0 => t1->Record_0@));
                    assert(decreases_to!(t1->Record_0@ => t1->Record_0@[j]));
                } else if t1 is Variant {
                    assert(decreases_to!(t1 => t1->Variant_0));
                    assert(decreases_to!(t1->Variant_0 => t1->Variant_0@));
                    assert(decreases_to!(t1->Variant_0@ => t1->Variant_0@[j]));
                }
            }
            lemma_same_view_build(st, m1, m2, reg);
            if build_spec(st, m1, reg) is Ok {
                lemma_same_view_build_members(build_spec(st, m1, reg)->Ok_0, t1, t2, order, k + 1, reg);
            }
        } else {
            lemma_same_view_build_members(st, t1, t2, order, k + 1, reg);
        }
    }
}

/// The type part of a message depends on the root type only through its view.
pub proof fn lemma_same_view_type_bytes(t1: Type, t2: Type, reg: &KnotRegistry)
    requires
        t1@ == t2@,
    ensures
        type_bytes(t1, reg) == type_bytes(t2, reg),
{
    lemma_same_view_build(empty_state(), t1, t2, reg);
    if build_spec(empty_state(), t1, reg) is Ok {
        lemma_same_view_ref(build_spec(empty_state(), t1, reg)->Ok_0, t1, t2, reg);
    }
}

/// The names of the members of `t`, each with an empty payload.
pub open spec fn member_names(t: Type) -> Seq<(Seq<char>, Seq<u8>)> {
    Seq::new(members(t).len(), |k: int| (members(t)[k].id@, Seq::<u8>::empty()))
}

/// Entry `i` of `o1` and of `o2` have the same hash and name members with
/// the same view.
pub open spec fn orders_agree(t1: Type, t2: Type, o1: Seq<(u32, usize)>, o2: Seq<(u32, usize)>) -> bool {
    &&& o1.len() == o2.len()
    &&& forall|i: int| 0 <= i < o1.len() ==> (#[trigger] o1[i]).0 == o2[i].0 && o1[i].1 < members(t1).len()
        && o2[i].1 < members(t2).len() && members(t1)[o1[i].1 as int].ty@ == members(t2)[o2[i].1 as int].ty@
}

proof fn lemma_agree_build_members(st: TableState, t1: Type, t2: Type, o1: Seq<(u32, usize)>, o2: Seq<(u32, usize)>, k: int, reg: &KnotRegistry)
    requires
        orders_agree(t1, t2, o1, o2),
    ensures
        build_members(st, t1, o1, k, reg) == build_members(st, t2, o2, k, reg),
    decreases o1.len() - k,
{
    if 0 <= k < o1.len() {
        assert(o1[k].0 == o2[k].0);
        let m1 = members(t1)[o1[k].1 as int].ty;
        let m2 = members(t2)[o2[k].1 as int].ty;
        lemma_same_view_build(st, m1, m2, reg);
        if build_spec(st, m1, reg) is Ok {
            lemma_agree_build_members(build_spec(st, m1, reg)->Ok_0, t1, t2, o1, o2, k + 1, reg);
        }
    }
}

proof fn lemma_agree_encode_members(st: TableState, t1: Type, t2: Type, o1: Seq<(u32, usize)>, o2: Seq<(u32, usize)>, k: int, reg: &KnotRegistry)
    requires
        orders_agree(t1, t2, o1, o2),
    ensures
        encode_members(st, members(t1), o1, k, reg) == encode_members(st, members(t2), o2, k, reg),
    decreases o1.len() - k,
{
    if 0 <= k < o1.len() {
        assert(o1[k].0 == o2[k].0);
        lemma_same_view_ref(st, members(t1)[o1[k].1 as int].ty, members(t2)[o2[k].1 as int].ty, reg);
        lemma_agree_encode_members(st, t1, t2, o1, o2, k + 1, reg);
    }
}

/// Field-order independence of the type table: for two records (or two
/// variants) whose member lists are permutations of one another (member `i`
/// of `t2` has the name and the view of member `p[i]` of `t1`, with `q` the
/// inverse of `p`) and whose names hash apart, building the members adds the
/// same rows to any table, and the record's own row is the same.
pub proof fn lemma_record_rows_field_order(st: TableState, t1: Type, t2: Type, p: Seq<int>, q: Seq<int>, reg: &KnotRegistry)
    requires
        (t1 is Record && t2 is Record) || (t1 is Variant && t2 is Variant),
        members(t2).len() == members(t1).len(),
        p.len() == members(t1).len(),
        q.len() == members(t1).len(),
        forall|i: int| 0 <= i < members(t2).len() ==> 0 <= #[trigger] p[i] < members(t1).len()
            && members(t2)[i].id@ == members(t1)[p[i]].id@ && members(t2)[i].ty@ == members(t1)[p[i]].ty@
            && q[p[i]] == i,
        forall|i: int| 0 <= i < members(t1).len() ==> 0 <= #[trigger] q[i] < members(t2).len() && p[q[i]] == i,
        forall|i: int, j: int| 0 <= i < j < members(t1).len() ==> name_hash(members(t1)[i].id@) != name_hash(members(t1)[j].id@),
    ensures
        !has_adjacent_dup(wire_order(t1)),
        !has_adjacent_dup(wire_order(t2)),
        build_members(st, t1, wire_order(t1), 0, reg) == build_members(st, t2, wire_order(t2), 0, reg),
        forall|st2: TableState| #[trigger] row_spec(st2, t1, reg) == row_spec(st2, t2, reg),
{
    let n1 = member_names(t1);
    let n2 = member_names(t2);
    assert(members(t1).len() <= usize::MAX) by {
        match t1 {
            Type::Record(fs) => { assert(fs@.len() == fs.len()); },
            Type::Variant(fs) => { assert(fs@.len() == fs.len()); },
            _ => {},
        }
    }
    assert(keyed(members(t1)) =~= payload_keys(n1));
    assert(keyed(members(t2)) =~= payload_keys(n2));
    assert forall|i: int| 0 <= i < n2.len() implies 0 <= #[trigger] p[i] < n1.len() && n2[i].0 == n1[p[i]].0 && q[p[i]] == i by {
        assert(members(t2)[i].id@ == members(t1)[p[i]].id@);
    }
    lemma_wire_orders_match(n1, n2, p, q);
    let o1 = wire_order(t1);
    let o2 = wire_order(t2);
    assert(orders_agree(t1, t2, o1, o2)) by {
        assert forall|i: int| 0 <= i < o1.len() implies (#[trigger] o1[i]).0 == o2[i].0 && o1[i].1 < members(t1).len()
            && o2[i].1 < members(t2).len() && members(t1)[o1[i].1 as int].ty@ == members(t2)[o2[i].1 as int].ty@ by {
            assert(sort_by_key(payload_keys(n1))[i].0 == sort_by_key(payload_keys(n2))[i].0);
            let b = o2[i].1 as int;
            assert(members(t2)[b].ty@ == members(t1)[p[b]].ty@);
        }
    }
    lemma_agree_build_members(st, t1, t2, o1, o2, 0, reg);
    assert forall|st2: TableState| #[trigger] row_spec(st2, t1, reg) == row_spec(st2, t2, reg) by {
        lemma_agree_encode_members(st2, t1, t2, o1, o2, 0, reg);
    }
}

} // verus!

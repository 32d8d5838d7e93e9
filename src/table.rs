//! The type table: every constructed type of a schema gets a dense index and
//! a canonical byte encoding that refers to other types by index or opcode.

use vstd::prelude::*;
use crate::error::Error;
use crate::hash::{adjacent_dup, has_adjacent_dup, idl_hash, name_hash, sort_by_key, sort_keyed};
use crate::leb::{sleb, uleb, write_sleb, write_uleb};
use crate::types::{
    is_primitive, is_primitive_model, type_eq, unroll, unroll_model, clone_type, TypeModel,
    KnotRegistry, Type, Field,
};

verus! {

/// What a builder holds: the encoded rows, and the index given to each type
/// (by its view) in the order in which the types were met.
pub struct TableState {
    pub table: Seq<Seq<u8>>,
    pub index: Seq<(TypeModel, usize)>,
}

/// The empty table.
pub open spec fn empty_state() -> TableState {
    TableState { table: Seq::empty(), index: Seq::empty() }
}

/// The index first given to `t`, if any.
pub open spec fn index_of(index: Seq<(TypeModel, usize)>, t: TypeModel) -> Option<usize>
    decreases index.len(),
{
    if index.len() == 0 {
        None
    } else if index[0].0 == t {
        Some(index[0].1)
    } else {
        index_of(index.drop_first(), t)
    }
}

/// The opcode of a primitive type, and of each constructor.
pub open spec fn prim_opcode(t: TypeModel) -> int {
    match t {
        TypeModel::Null => -1,
        TypeModel::Bool => -2,
        TypeModel::Nat => -3,
        TypeModel::Int => -4,
        _ => -15,
    }
}

/// The bytes that refer to `t` on the wire, given the table built so far.
pub open spec fn encode_ref_spec(st: TableState, t: Type, reg: &KnotRegistry) -> Result<Seq<u8>, Error> {
    if is_primitive_model(t@) {
        Ok(sleb(prim_opcode(t@)))
    } else {
        match t {
            Type::Knot(id) => match reg.lookup(id) {
                None => Err(Error::UnknownKnot(id)),
                Some(u) => match index_of(st.index, u@) {
                    Some(i) => Ok(sleb(i as i64 as int)),
                    None => Err(Error::UnknownType),
                },
            },
            _ => match index_of(st.index, t@) {
                Some(i) => Ok(sleb(i as i64 as int)),
                None => Err(Error::UnknownType),
            },
        }
    }
}

/// The members of a record or variant (none for other types).
pub open spec fn members(t: Type) -> Seq<Field> {
    match t {
        Type::Record(fs) => fs@,
        Type::Variant(fs) => fs@,
        _ => Seq::empty(),
    }
}

/// Each member's name hash paired with its position.
pub open spec fn keyed(fs: Seq<Field>) -> Seq<(u32, usize)> {
    Seq::new(fs.len(), |k: int| (name_hash(fs[k].id@), k as usize))
}

/// The members of `t` in wire order: by ascending name hash.
pub open spec fn wire_order(t: Type) -> Seq<(u32, usize)> {
    sort_by_key(keyed(members(t)))
}

/// Builds the types of the members of `t` listed in `order`, from the `k`th on.
pub open spec fn build_members(st: TableState, t: Type, order: Seq<(u32, usize)>, k: int, reg: &KnotRegistry) -> Result<TableState, Error>
    decreases t, 0int, order.len() - k,
{
    if k < 0 || k >= order.len() {
        Ok(st)
    } else {
        let j = order[k].1 as int;
        if j >= members(t).len() {
            build_members(st, t, order, k + 1, reg)
        } else {
            match build_spec(st, members(t)[j].ty, reg) {
                Err(e) => Err(e),
                Ok(st2) => build_members(st2, t, order, k + 1, reg),
            }
        }
    }
}

/// The references of the members listed in `order`, from the `k`th on, each
/// after its name hash.
pub open spec fn encode_members(st: TableState, fs: Seq<Field>, order: Seq<(u32, usize)>, k: int, reg: &KnotRegistry) -> Result<Seq<u8>, Error>
    decreases order.len() - k,
{
    if k < 0 || k >= order.len() {
        Ok(Seq::empty())
    } else {
        let j = order[k].1 as int;
        let r = if j < fs.len() { encode_ref_spec(st, fs[j].ty, reg) } else { Ok(Seq::empty()) };
        match r {
            Err(e) => Err(e),
            Ok(b) => match encode_members(st, fs, order, k + 1, reg) {
                Err(e) => Err(e),
                Ok(rest) => Ok(uleb(order[k].0 as nat) + b + rest),
            },
        }
    }
}

/// The row of a constructed type, once its children are in the table.
pub open spec fn row_spec(st: TableState, t: Type, reg: &KnotRegistry) -> Result<Seq<u8>, Error> {
    match t {
        Type::Opt(c) => match encode_ref_spec(st, *c, reg) {
            Ok(b) => Ok(sleb(-18) + b),
            Err(e) => Err(e),
        },
        Type::Vec(c) => match encode_ref_spec(st, *c, reg) {
            Ok(b) => Ok(sleb(-19) + b),
            Err(e) => Err(e),
        },
        _ => {
            let op: int = if t is Record { -20 } else { -21 };
            match encode_members(st, members(t), wire_order(t), 0, reg) {
                Ok(b) => Ok(sleb(op) + uleb(members(t).len() as u64 as nat) + b),
                Err(e) => Err(e),
            }
        },
    }
}

/// Adds `t` and everything it contains to the table: primitives and knots are
/// skipped, a type met before is skipped, a type whose one-step unfolding was
/// met before shares that index; otherwise `t` gets the next index, its
/// children are added, and its row is written.
pub open spec fn build_spec(st: TableState, t: Type, reg: &KnotRegistry) -> Result<TableState, Error>
    decreases t, 1int, 0int,
{
    if is_primitive_model(t@) || t is Knot {
        Ok(st)
    } else if index_of(st.index, t@) is Some {
        Ok(st)
    } else if index_of(st.index, unroll_model(t, reg)) is Some {
        Ok(TableState { table: st.table, index: st.index.push((t@, index_of(st.index, unroll_model(t, reg))->0)) })
    } else {
        let i = st.table.len() as usize;
        let st1 = TableState { table: st.table.push(Seq::empty()), index: st.index.push((t@, i)) };
        let built = match t {
            Type::Opt(c) => build_spec(st1, *c, reg),
            Type::Vec(c) => build_spec(st1, *c, reg),
            _ => if has_adjacent_dup(wire_order(t)) {
                Err(Error::HashCollision)
            } else {
                build_members(st1, t, wire_order(t), 0, reg)
            },
        };
        match built {
            Err(e) => Err(e),
            Ok(st2) => match row_spec(st2, t, reg) {
                Err(e) => Err(e),
                Ok(row) => Ok(TableState { table: st2.table.update(i as int, row), index: st2.index }),
            },
        }
    }
}

/// The rows joined in order.
pub open spec fn concat_rows(rows: Seq<Seq<u8>>) -> Seq<u8>
    decreases rows.len(),
{
    if rows.len() == 0 {
        Seq::empty()
    } else {
        concat_rows(rows.drop_last()) + rows.last()
    }
}

/// The type part of the wire format for root type `t`, built on top of the
/// table `st`: the number of rows, the rows, and the reference to `t`.
pub open spec fn type_bytes_from(st: TableState, t: Type, reg: &KnotRegistry) -> Result<Seq<u8>, Error> {
    match build_spec(st, t, reg) {
        Err(e) => Err(e),
        Ok(st2) => match encode_ref_spec(st2, t, reg) {
            Err(e) => Err(e),
            Ok(b) => Ok(uleb(st2.table.len() as u64 as nat) + concat_rows(st2.table) + b),
        },
    }
}

/// The type part of the wire format for root type `t`.
pub open spec fn type_bytes(t: Type, reg: &KnotRegistry) -> Result<Seq<u8>, Error> {
    type_bytes_from(empty_state(), t, reg)
}

/// Appends the bytes of `src` to `dst`.
pub fn append_bytes(dst: &mut Vec<u8>, src: &Vec<u8>)
    ensures
        final(dst)@ == old(dst)@ + src@,
{
    let mut i: usize = 0;
    while i < src.len()
        invariant
            i <= src.len(),
            dst@ == old(dst)@ + src@.take(i as int),
        decreases src.len() - i,
    {
        dst.push(src[i]);
        assert(src@.take(i + 1) =~= src@.take(i as int).push(src@[i as int]));
        i = i + 1;
    }
    assert(src@.take(i as int) =~= src@);
}

/// Each member's name hash paired with its position.
fn keyed_members(fs: &Vec<Field>) -> (r: Vec<(u32, usize)>)
    ensures
        r@ == keyed(fs@),
{
    let mut r: Vec<(u32, usize)> = Vec::new();
    let mut k: usize = 0;
    while k < fs.len()
        invariant
            k <= fs.len(),
            r@ == keyed(fs@).take(k as int),
        decreases fs.len() - k,
    {
        let h = idl_hash(fs[k].id.as_str());
        r.push((h, k));
        assert(r@ =~= keyed(fs@).take(k + 1));
        k = k + 1;
    }
    assert(r@ =~= keyed(fs@));
    r
}

/// Builds the type table of a schema and its wire encoding.
pub struct TypeSerialize {
    type_table: Vec<Vec<u8>>,
    type_map: Vec<(Type, usize)>,
    result: Vec<u8>,
}

impl TypeSerialize {
    /// The rows and the index held so far.
    pub closed spec fn state(&self) -> TableState {
        TableState {
            table: self.type_table@.map_values(|v: Vec<u8>| v@),
            index: self.type_map@.map_values(|p: (Type, usize)| (p.0@, p.1)),
        }
    }

    /// The bytes produced so far by `serialize`.
    pub closed spec fn result_spec(&self) -> Seq<u8> {
        self.result@
    }

    /// A builder with an empty table.
    pub fn new() -> (r: Self)
        ensures
            r.state() == empty_state(),
            r.result_spec() == Seq::<u8>::empty(),
    {
        let r = TypeSerialize { type_table: Vec::new(), type_map: Vec::new(), result: Vec::new() };
        assert(r.state().table =~= Seq::empty());
        assert(r.state().index =~= Seq::empty());
        r
    }

    /// The bytes produced so far by `serialize`.
    pub fn result(&self) -> (r: &Vec<u8>)
        ensures
            r@ == self.result_spec(),
    {
        &self.result
    }

    /// The index first given to a type with the view of `t`.
    fn lookup(&self, t: &Type) -> (r: Option<usize>)
        ensures
            r == index_of(self.state().index, t@),
    {
        let ghost idx = self.state().index;
        let mut i: usize = 0;
        assert(idx.skip(0) =~= idx);
        while i < self.type_map.len()
            invariant
                idx == self.state().index,
                i <= idx.len(),
                index_of(idx, t@) == index_of(idx.skip(i as int), t@),
            decreases self.type_map.len() - i,
        {
            assert(idx.skip(i as int).drop_first() =~= idx.skip(i + 1));
            assert(idx.skip(i as int)[0] == idx[i as int]);
            if type_eq(&self.type_map[i].0, t) {
                return Some(self.type_map[i].1);
            }
            i = i + 1;
        }
        None
    }

    /// Adds `t` and the types it contains to the table (see `build_spec`).
    pub fn build_type(&mut self, t: &Type, reg: &KnotRegistry) -> (r: Result<(), Error>)
        ensures
            match build_spec(old(self).state(), *t, reg) {
                Ok(st) => r is Ok && final(self).state() == st,
                Err(e) => r == Err::<(), Error>(e),
            },
            final(self).result_spec() == old(self).result_spec(),
            r is Ok ==> final(self).state().table.len() >= old(self).state().table.len(),
        decreases t, 1int, 0int,
    {
        if is_primitive(t) {
            return Ok(());
        }
        if let Type::Knot(_) = t {
            return Ok(());
        }
        if self.lookup(t).is_some() {
            return Ok(());
        }
        let ghost st0 = self.state();
        let unrolled = unroll(t, reg);
        if let Some(idx) = self.lookup(&unrolled) {
            self.type_map.push((clone_type(t), idx));
            assert(self.state().index =~= st0.index.push((t@, idx)));
            assert(self.state().table =~= st0.table);
            return Ok(());
        }
        let i = self.type_table.len();
        self.type_map.push((clone_type(t), i));
        self.type_table.push(Vec::new());
        let ghost st1 = self.state();
        assert(st1.index =~= st0.index.push((t@, i)));
        assert(st1.table =~= st0.table.push(Seq::empty()));
        let mut buf: Vec<u8> = Vec::new();
        match t {
            Type::Opt(c) | Type::Vec(c) => {
                let r = self.build_type(c, reg);
                if r.is_err() {
                    return r;
                }
                if let Type::Opt(_) = t {
                    write_sleb(&mut buf, -18);
                } else {
                    write_sleb(&mut buf, -19);
                }
                let r = self.encode(&mut buf, c, reg);
                if r.is_err() {
                    return r;
                }
            },
            Type::Record(fs) | Type::Variant(fs) => {
                let keyed_v = keyed_members(fs);
                let order = sort_keyed(&keyed_v);
                if adjacent_dup(&order) {
                    return Err(Error::HashCollision);
                }
                let r = self.build_members_exec(t, fs, &order, reg);
                if r.is_err() {
                    return r;
                }
                let mut body: Vec<u8> = Vec::new();
                let r = self.encode_members_exec(fs, &order, reg, &mut body);
                if r.is_err() {
                    return r;
                }
                if let Type::Record(_) = t {
                    write_sleb(&mut buf, -20);
                } else {
                    write_sleb(&mut buf, -21);
                }
                write_uleb(&mut buf, fs.len() as u64);
                buf.append(&mut body);
            },
            _ => {},
        }
        let ghost st2 = self.state();
        self.type_table.set(i, buf);
        assert(self.state().table =~= st2.table.update(i as int, buf@));
        Ok(())
    }

    /// Builds the types of the members of `t` in the given order (see
    /// `build_members`).
    fn build_members_exec(&mut self, t: &Type, fs: &Vec<Field>, order: &Vec<(u32, usize)>, reg: &KnotRegistry) -> (r: Result<(), Error>)
        requires
            match *t {
                Type::Record(x) => x == *fs,
                Type::Variant(x) => x == *fs,
                _ => false,
            },
        ensures
            match build_members(old(self).state(), *t, order@, 0, reg) {
                Ok(st) => r is Ok && final(self).state() == st,
                Err(e) => r == Err::<(), Error>(e),
            },
            final(self).result_spec() == old(self).result_spec(),
            r is Ok ==> final(self).state().table.len() >= old(self).state().table.len(),
        decreases t, 0int, 0int,
    {
        let ghost st1 = self.state();
        let mut k: usize = 0;
        while k < order.len()
            invariant
                k <= order@.len(),
                fs@ == members(*t),
                match *t {
                    Type::Record(x) => x == *fs,
                    Type::Variant(x) => x == *fs,
                    _ => false,
                },
                build_members(self.state(), *t, order@, k as int, reg)
                    == build_members(st1, *t, order@, 0, reg),
                st1 == old(self).state(),
                self.state().table.len() >= st1.table.len(),
                self.result_spec() == old(self).result_spec(),
            decreases order.len() - k,
        {
            let j = order[k].1;
            if j < fs.len() {
                proof {
                    if t is Record {
                        assert(decreases_to!(*t => t->Record_0));
                        assert(decreases_to!(t->Record_0 => t->Record_0@));
                        assert(decreases_to!(t->Record_0@ => t->Record_0@[j as int]));
                    } else {
                        assert(decreases_to!(*t => t->Variant_0));
                        assert(decreases_to!(t->Variant_0 => t->Variant_0@));
                        assert(decreases_to!(t->Variant_0@ => t->Variant_0@[j as int]));
                    }
                    assert(decreases_to!(*t => fs@[j as int].ty));
                }
                let ghost cur = self.state();
                assert(build_members(cur, *t, order@, k as int, reg) == match build_spec(cur, fs@[j as int].ty, reg) {
                    Err(e) => Err(e),
                    Ok(st2) => build_members(st2, *t, order@, k + 1, reg),
                });
                let r = self.build_type(&fs[j].ty, reg);
                if r.is_err() {
                    return r;
                }
            }
            k = k + 1;
        }
        Ok(())
    }

    /// Appends each member's name hash and reference in the given order (see
    /// `encode_members`).
    fn encode_members_exec(&self, fs: &Vec<Field>, order: &Vec<(u32, usize)>, reg: &KnotRegistry, body: &mut Vec<u8>) -> (r: Result<(), Error>)
        ensures
            match encode_members(self.state(), fs@, order@, 0, reg) {
                Ok(b) => r is Ok && final(body)@ == old(body)@ + b,
                Err(e) => r == Err::<(), Error>(e),
            },
    {
        let ghost st = self.state();
        let ghost start = body@;
        let mut k: usize = 0;
        while k < order.len()
            invariant
                k <= order@.len(),
                st == self.state(),
                body@.len() >= start.len(),
                body@.take(start.len() as int) == start,
                encode_members(st, fs@, order@, 0, reg) == (match encode_members(st, fs@, order@, k as int, reg) {
                    Ok(rest) => Ok(body@.skip(start.len() as int) + rest),
                    Err(e) => Err(e),
                }),
            decreases order.len() - k,
        {
            let ghost before = body@;
            let j = order[k].1;
            write_uleb(body, order[k].0 as u64);
            let ghost mid = body@;
            let ghost h = uleb(order@[k as int].0 as nat);
            assert(mid =~= before + h);
            if j < fs.len() {
                let r = self.encode(body, &fs[j].ty, reg);
                if r.is_err() {
                    return r;
                }
                proof {
                    match encode_ref_spec(st, fs@[j as int].ty, reg) {
                        Ok(bb) => {
                            assert(body@.subrange(mid.len() as int, body@.len() as int) =~= bb);
                        },
                        Err(_) => {},
                    }
                }
            }
            proof {
                let b = body@.subrange(mid.len() as int, body@.len() as int);
                assert(body@ =~= before + h + b);
                if j < fs.len() {
                    assert(encode_ref_spec(st, fs@[j as int].ty, reg) == Ok::<Seq<u8>, Error>(b));
                } else {
                    assert(b =~= Seq::<u8>::empty());
                }
                assert(encode_members(st, fs@, order@, k as int, reg) == match encode_members(st, fs@, order@, k + 1, reg) {
                    Err(e) => Err(e),
                    Ok(rest) => Ok(h + b + rest),
                });
                assert(body@.take(start.len() as int) =~= before.take(start.len() as int));
                match encode_members(st, fs@, order@, k + 1, reg) {
                    Ok(rest) => {
                        assert(body@.skip(start.len() as int) + rest =~= before.skip(start.len() as int) + (h + b + rest));
                    },
                    Err(_) => {},
                }
            }
            k = k + 1;
        }
        assert(body@ =~= start + body@.skip(start.len() as int));
        Ok(())
    }

    /// Builds the table for the root type `t`, then appends to the result the
    /// number of rows, the rows, and the reference to `t`.
    pub fn serialize(&mut self, t: &Type, reg: &KnotRegistry) -> (r: Result<(), Error>)
        ensures
            match type_bytes_from(old(self).state(), *t, reg) {
                Ok(b) => r is Ok && final(self).result_spec() == old(self).result_spec() + b,
                Err(e) => r == Err::<(), Error>(e),
            },
    {
        let r = self.build_type(t, reg);
        if r.is_err() {
            return r;
        }
        let ghost st = self.state();
        let mut out: Vec<u8> = Vec::new();
        write_uleb(&mut out, self.type_table.len() as u64);
        let ghost head = out@;
        let mut k: usize = 0;
        while k < self.type_table.len()
            invariant
                st == self.state(),
                k <= st.table.len(),
                out@ == head + concat_rows(st.table.take(k as int)),
            decreases self.type_table.len() - k,
        {
            append_bytes(&mut out, &self.type_table[k]);
            assert(st.table.take(k + 1).drop_last() =~= st.table.take(k as int));
            k = k + 1;
        }
        assert(st.table.take(k as int) =~= st.table);
        let r = self.encode(&mut out, t, reg);
        if r.is_err() {
            return r;
        }
        append_bytes(&mut self.result, &out);
        Ok(())
    }

    /// Appends the reference to `t` (see `encode_ref_spec`).
    fn encode(&self, buf: &mut Vec<u8>, t: &Type, reg: &KnotRegistry) -> (r: Result<(), Error>)
        ensures
            match encode_ref_spec(self.state(), *t, reg) {
                Ok(b) => r is Ok && final(buf)@ == old(buf)@ + b,
                Err(e) => r == Err::<(), Error>(e),
            },
    {
        match t {
            Type::Null => { write_sleb(buf, -1); Ok(()) },
            Type::Bool => { write_sleb(buf, -2); Ok(()) },
            Type::Nat => { write_sleb(buf, -3); Ok(()) },
            Type::Int => { write_sleb(buf, -4); Ok(()) },
            Type::Text => { write_sleb(buf, -15); Ok(()) },
            Type::Knot(id) => match reg.find_unfold(*id) {
                None => Err(Error::UnknownKnot(*id)),
                Some(u) => match self.lookup(u) {
                    Some(i) => { write_sleb(buf, i as i64); Ok(()) },
                    None => Err(Error::UnknownType),
                },
            },
            _ => match self.lookup(t) {
                Some(i) => { write_sleb(buf, i as i64); Ok(()) },
                None => Err(Error::UnknownType),
            },
        }
    }
}

} // verus!

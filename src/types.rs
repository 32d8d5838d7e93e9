//! The type model: IDL types, their mathematical view, structural equality,
//! and the registry that resolves recursion handles.

use vstd::prelude::*;

verus! {

/// An identity of a recursive host type; a `Knot` refers to it.
pub type KnotId = u64;

/// An IDL type.
#[derive(Debug, PartialEq, Eq)]
pub enum Type {
    Null,
    Bool,
    Nat,
    Int,
    Text,
    Opt(Box<Type>),
    Vec(Box<Type>),
    Record(Vec<Field>),
    Variant(Vec<Field>),
    Knot(KnotId),
}

/// A named member of a record or a variant.
#[derive(Debug, PartialEq, Eq)]
pub struct Field {
    pub id: String,
    pub ty: Type,
}

/// The mathematical view of a `Type`: names as character sequences, members
/// as sequences, so that `==` on it is structural equality.
pub enum TypeModel {
    Null,
    Bool,
    Nat,
    Int,
    Text,
    Opt(Box<TypeModel>),
    Vec(Box<TypeModel>),
    Record(Seq<(Seq<char>, TypeModel)>),
    Variant(Seq<(Seq<char>, TypeModel)>),
    Knot(KnotId),
}

pub open spec fn type_model(t: Type) -> TypeModel
    decreases t, 1int,
{
    match t {
        Type::Null => TypeModel::Null,
        Type::Bool => TypeModel::Bool,
        Type::Nat => TypeModel::Nat,
        Type::Int => TypeModel::Int,
        Type::Text => TypeModel::Text,
        Type::Opt(c) => TypeModel::Opt(Box::new(type_model(*c))),
        Type::Vec(c) => TypeModel::Vec(Box::new(type_model(*c))),
        Type::Record(fs) => TypeModel::Record(fields_model(fs@)),
        Type::Variant(fs) => TypeModel::Variant(fields_model(fs@)),
        Type::Knot(id) => TypeModel::Knot(id),
    }
}

pub open spec fn fields_model(fs: Seq<Field>) -> Seq<(Seq<char>, TypeModel)>
    decreases fs, 0int,
{
    if fs.len() == 0 {
        Seq::empty()
    } else {
        fields_model(fs.drop_last()).push((fs.last().id@, type_model(fs.last().ty)))
    }
}

impl View for Type {
    type V = TypeModel;

    open spec fn view(&self) -> TypeModel {
        type_model(*self)
    }
}

/// The view of a member list holds one entry per member, in order.
pub proof fn lemma_fields_model(fs: Seq<Field>)
    ensures
        fields_model(fs).len() == fs.len(),
        forall|i: int|
            0 <= i < fs.len() ==> #[trigger] fields_model(fs)[i] == (fs[i].id@, type_model(fs[i].ty)),
    decreases fs.len(),
{
    if fs.len() > 0 {
        lemma_fields_model(fs.drop_last());
    }
}

/// `Null`, `Bool`, `Nat`, `Int` and `Text` are never tabulated.
pub open spec fn is_primitive_model(t: TypeModel) -> bool {
    t is Null || t is Bool || t is Nat || t is Int || t is Text
}

/// Tells whether a type is primitive.
pub fn is_primitive(t: &Type) -> (r: bool)
    ensures
        r == is_primitive_model(t@),
{
    match t {
        Type::Null | Type::Bool | Type::Nat | Type::Int | Type::Text => true,
        _ => false,
    }
}

fn fields_eq(a: &Vec<Field>, b: &Vec<Field>) -> (r: bool)
    ensures
        r == (fields_model(a@) == fields_model(b@)),
    decreases a, 0int,
{
    proof {
        lemma_fields_model(a@);
        lemma_fields_model(b@);
    }
    if a.len() != b.len() {
        return false;
    }
    let mut i: usize = 0;
    while i < a.len()
        invariant
            a.len() == b.len(),
            i <= a.len(),
            fields_model(a@).len() == a@.len(),
            fields_model(b@).len() == b@.len(),
            forall|k: int|
                0 <= k < a@.len() ==> #[trigger] fields_model(a@)[k] == (a@[k].id@, type_model(a@[k].ty)),
            forall|k: int|
                0 <= k < b@.len() ==> #[trigger] fields_model(b@)[k] == (b@[k].id@, type_model(b@[k].ty)),
            forall|k: int| 0 <= k < i ==> fields_model(a@)[k] == #[trigger] fields_model(b@)[k],
        decreases a.len() - i,
    {
        assert(decreases_to!(a => a@[i as int].ty));
        let same = a[i].id == b[i].id && type_eq(&a[i].ty, &b[i].ty);
        if !same {
            assert(fields_model(a@)[i as int] != fields_model(b@)[i as int]);
            return false;
        }
        i = i + 1;
    }
    assert(fields_model(a@) =~= fields_model(b@));
    true
}

/// Structural equality of types: identical constructors, equal names and
/// equal children in order.
pub fn type_eq(a: &Type, b: &Type) -> (r: bool)
    ensures
        r == (a@ == b@),
    decreases a, 1int,
{
    match (a, b) {
        (Type::Null, Type::Null) => true,
        (Type::Bool, Type::Bool) => true,
        (Type::Nat, Type::Nat) => true,
        (Type::Int, Type::Int) => true,
        (Type::Text, Type::Text) => true,
        (Type::Opt(x), Type::Opt(y)) => type_eq(x, y),
        (Type::Vec(x), Type::Vec(y)) => type_eq(x, y),
        (Type::Record(x), Type::Record(y)) => fields_eq(x, y),
        (Type::Variant(x), Type::Variant(y)) => fields_eq(x, y),
        (Type::Knot(x), Type::Knot(y)) => *x == *y,
        _ => false,
    }
}

fn clone_fields(fs: &Vec<Field>) -> (r: Vec<Field>)
    ensures
        fields_model(r@) == fields_model(fs@),
    decreases fs, 0int,
{
    let mut r: Vec<Field> = Vec::new();
    let mut i: usize = 0;
    while i < fs.len()
        invariant
            i <= fs.len(),
            fields_model(r@) == fields_model(fs@.take(i as int)),
        decreases fs.len() - i,
    {
        assert(decreases_to!(fs => fs@[i as int].ty));
        let f = Field { id: fs[i].id.clone(), ty: clone_type(&fs[i].ty) };
        let ghost before = r@;
        r.push(f);
        assert(fs@.take(i + 1).drop_last() =~= fs@.take(i as int));
        assert(r@.drop_last() =~= before);
        assert(fs@.take(i + 1).last() == fs@[i as int]);
        i = i + 1;
    }
    assert(fs@.take(i as int) =~= fs@);
    r
}

/// A copy of a type with the same view.
pub fn clone_type(t: &Type) -> (r: Type)
    ensures
        r@ == t@,
    decreases t, 1int,
{
    match t {
        Type::Null => Type::Null,
        Type::Bool => Type::Bool,
        Type::Nat => Type::Nat,
        Type::Int => Type::Int,
        Type::Text => Type::Text,
        Type::Opt(c) => Type::Opt(Box::new(clone_type(c))),
        Type::Vec(c) => Type::Vec(Box::new(clone_type(c))),
        Type::Record(fs) => Type::Record(clone_fields(fs)),
        Type::Variant(fs) => Type::Variant(clone_fields(fs)),
        Type::Knot(id) => Type::Knot(*id),
    }
}

/// The first entry registered under `id`, if any.
pub open spec fn find_entry(s: Seq<(KnotId, Type)>, id: KnotId) -> Option<Type>
    decreases s.len(),
{
    if s.len() == 0 {
        None
    } else if s[0].0 == id {
        Some(s[0].1)
    } else {
        find_entry(s.drop_first(), id)
    }
}

proof fn lemma_find_push(s: Seq<(KnotId, Type)>, x: (KnotId, Type), id: KnotId)
    ensures
        find_entry(s.push(x), id) == (match find_entry(s, id) {
            Some(u) => Some(u),
            None => if x.0 == id { Some(x.1) } else { None },
        }),
    decreases s.len(),
{
    if s.len() > 0 {
        assert(s.push(x).drop_first() =~= s.drop_first().push(x));
        assert(s.push(x)[0] == s[0]);
        lemma_find_push(s.drop_first(), x, id);
    } else {
        assert(s.push(x).drop_first() =~= s);
        assert(s.push(x)[0] == x);
    }
}

/// The registry of recursion handles: each `KnotId` maps to the one-step
/// unfolding of its recursive type. An entry, once written, never changes.
pub struct KnotRegistry {
    entries: Vec<(KnotId, Type)>,
}

impl KnotRegistry {
    /// The unfolding registered under `id`.
    pub closed spec fn lookup(&self, id: KnotId) -> Option<Type> {
        find_entry(self.entries@, id)
    }

    /// An empty registry.
    pub fn new() -> (r: Self)
        ensures
            forall|id: KnotId| #[trigger] r.lookup(id) is None,
    {
        KnotRegistry { entries: Vec::new() }
    }

    /// Registers `t` as the unfolding of `id`, unless `id` already has one.
    pub fn register_unfold(&mut self, id: KnotId, t: Type)
        ensures
            old(self).lookup(id) is Some ==> final(self).lookup(id) == old(self).lookup(id),
            old(self).lookup(id) is None ==> final(self).lookup(id) == Some(t),
            forall|k: KnotId| k != id ==> #[trigger] final(self).lookup(k) == old(self).lookup(k),
    {
        if self.find_unfold(id).is_none() {
            let ghost before = self.entries@;
            self.entries.push((id, t));
            proof {
                assert forall|k: KnotId| #[trigger] find_entry(self.entries@, k) == (match find_entry(before, k) {
                    Some(u) => Some(u),
                    None => if id == k { Some(t) } else { None },
                }) by {
                    lemma_find_push(before, (id, t), k);
                }
            }
        }
    }

    /// The unfolding registered under `id`, if any.
    pub fn find_unfold(&self, id: KnotId) -> (r: Option<&Type>)
        ensures
            match r {
                Some(u) => self.lookup(id) == Some(*u),
                None => self.lookup(id) is None,
            },
    {
        let mut i: usize = 0;
        assert(self.entries@.skip(0) =~= self.entries@);
        while i < self.entries.len()
            invariant
                i <= self.entries@.len(),
                find_entry(self.entries@, id) == find_entry(self.entries@.skip(i as int), id),
            decreases self.entries.len() - i,
        {
            assert(self.entries@.skip(i as int).drop_first() =~= self.entries@.skip(i + 1));
            if self.entries[i].0 == id {
                return Some(&self.entries[i].1);
            }
            i = i + 1;
        }
        None
    }
}

/// The view of a child after one step of unfolding: a known `Knot` is
/// replaced by its registered unfolding; any other child is kept.
pub open spec fn child_unrolled(c: Type, reg: &KnotRegistry) -> TypeModel {
    match c {
        Type::Knot(id) => match reg.lookup(id) {
            Some(u) => u@,
            None => c@,
        },
        _ => c@,
    }
}

/// One-step unfolding of a type: each immediate `Knot` child is replaced by
/// its registered unfolding, and a `Knot` itself by its own.
pub open spec fn unroll_model(t: Type, reg: &KnotRegistry) -> TypeModel {
    match t {
        Type::Knot(_) => child_unrolled(t, reg),
        Type::Opt(c) => TypeModel::Opt(Box::new(child_unrolled(*c, reg))),
        Type::Vec(c) => TypeModel::Vec(Box::new(child_unrolled(*c, reg))),
        Type::Record(fs) => TypeModel::Record(
            Seq::new(fs@.len(), |i: int| (fs@[i].id@, child_unrolled(fs@[i].ty, reg))),
        ),
        Type::Variant(fs) => TypeModel::Variant(
            Seq::new(fs@.len(), |i: int| (fs@[i].id@, child_unrolled(fs@[i].ty, reg))),
        ),
        _ => t@,
    }
}

fn unroll_child(c: &Type, reg: &KnotRegistry) -> (r: Type)
    ensures
        r@ == child_unrolled(*c, reg),
{
    if let Type::Knot(id) = c {
        if let Some(u) = reg.find_unfold(*id) {
            return clone_type(u);
        }
    }
    clone_type(c)
}

fn unroll_fields(fs: &Vec<Field>, reg: &KnotRegistry) -> (r: Vec<Field>)
    ensures
        fields_model(r@) == Seq::new(fs@.len(), |i: int| (fs@[i].id@, child_unrolled(fs@[i].ty, reg))),
{
    let mut r: Vec<Field> = Vec::new();
    let mut i: usize = 0;
    while i < fs.len()
        invariant
            i <= fs.len(),
            r@.len() == i,
            forall|k: int| 0 <= k < i ==> (#[trigger] r@[k]).id@ == fs@[k].id@ && type_model(r@[k].ty) == child_unrolled(fs@[k].ty, reg),
        decreases fs.len() - i,
    {
        let f = Field { id: fs[i].id.clone(), ty: unroll_child(&fs[i].ty, reg) };
        r.push(f);
        i = i + 1;
    }
    proof {
        lemma_fields_model(r@);
    }
    assert(fields_model(r@) =~= Seq::new(fs@.len(), |i: int| (fs@[i].id@, child_unrolled(fs@[i].ty, reg))));
    r
}

/// The one-step unfolding of `t` (see `unroll_model`).
pub fn unroll(t: &Type, reg: &KnotRegistry) -> (r: Type)
    ensures
        r@ == unroll_model(*t, reg),
{
    match t {
        Type::Knot(_) => unroll_child(t, reg),
        Type::Opt(c) => Type::Opt(Box::new(unroll_child(c, reg))),
        Type::Vec(c) => Type::Vec(Box::new(unroll_child(c, reg))),
        Type::Record(fs) => Type::Record(unroll_fields(fs, reg)),
        Type::Variant(fs) => Type::Variant(unroll_fields(fs, reg)),
        _ => clone_type(t),
    }
}

} // verus!

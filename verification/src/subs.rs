//! The substitution store: an arena-backed table mapping opaque integer
//! handles ("type variables") to type descriptors, with interned
//! variable-length children stored as index ranges into shared backing
//! arrays.

use vstd::prelude::*;

verus! {

/// Opaque handle naming one node in the substitution graph.
#[derive(Clone, Copy, PartialEq, Eq, Structural, Debug)]
pub struct Variable(pub usize);

/// Scoping metadata from the wider inference engine; opaque to this core and
/// copied verbatim onto fresh descriptors.
#[derive(Clone, Copy, PartialEq, Eq, Structural, Debug)]
pub struct Rank(pub u32);

/// Liveness metadata from the wider inference engine; opaque to this core and
/// copied verbatim onto fresh descriptors.
#[derive(Clone, Copy, PartialEq, Eq, Structural, Debug)]
pub struct Mark(pub u32);

/// An interned identifier from the wider compiler (a type name, an ability
/// name); opaque to this core.
#[derive(Clone, Copy, PartialEq, Eq, Structural, Debug)]
pub struct Symbol(pub u32);

/// Index of a variable name in the store's `field_names` backing array.
#[derive(Clone, Copy, PartialEq, Eq, Structural, Debug)]
pub struct NameIndex(pub usize);

/// Index of a tag name in the store's `tag_names` backing array.
#[derive(Clone, Copy, PartialEq, Eq, Structural, Debug)]
pub struct TagNameIndex(pub usize);

/// The name of one tag of a tag union.
#[derive(PartialEq, Eq, Debug)]
pub enum TagName {
    Tag(String),
}

/// A compact handle for an interned, ordered sequence of variables stored in
/// the `variables` backing array.
#[derive(Clone, Copy, PartialEq, Eq, Structural, Debug)]
pub struct VarSlice {
    pub start: usize,
    pub length: usize,
}

/// The tags of a tag union: `length` tag names starting at `tag_names_start`
/// in the `tag_names` array, each paired with the payload slice at the same
/// offset from `variables_start` in the `variable_slices` array.
#[derive(Clone, Copy, PartialEq, Eq, Structural, Debug)]
pub struct UnionTags {
    pub length: usize,
    pub tag_names_start: usize,
    pub variables_start: usize,
}

/// The fields of a record: `length` field names, field variables and field
/// kinds, stored at the given starts of their backing arrays.
#[derive(Clone, Copy, PartialEq, Eq, Structural, Debug)]
pub struct RecordFields {
    pub length: usize,
    pub field_names_start: usize,
    pub variables_start: usize,
    pub field_types_start: usize,
}

/// The type arguments of an alias: the first `type_variables_len` entries of
/// the slice are the type arguments proper, the rest (up to
/// `all_variables_len`) are lambda-set variables; the deep-copy engine treats
/// them uniformly.
#[derive(Clone, Copy, PartialEq, Eq, Structural, Debug)]
pub struct AliasVariables {
    pub variables_start: usize,
    pub type_variables_len: usize,
    pub all_variables_len: usize,
}

/// One record field together with its variable, as handed to
/// `insert_record_fields`.
#[derive(Clone, Copy, PartialEq, Eq, Structural, Debug)]
pub enum RecordField {
    Demanded(Variable),
    Required(Variable),
    Optional(Variable),
}

/// The kind of a record field, stored in the `record_fields` backing array.
#[derive(Clone, Copy, PartialEq, Eq, Structural, Debug)]
pub enum FieldKind {
    Demanded,
    Required,
    Optional,
}

/// Whether an alias is a transparent (structural) alias or an opaque type.
#[derive(Clone, Copy, PartialEq, Eq, Structural, Debug)]
pub enum AliasKind {
    Transparent,
    Opaque,
}

/// A concrete (non-variable) type form.
#[derive(Clone, Copy, PartialEq, Eq, Debug)]
pub enum FlatType {
    Apply(Symbol, VarSlice),
    Func(VarSlice, Variable, Variable),
    Record(RecordFields, Variable),
    TagUnion(UnionTags, Variable),
    FunctionOrTagUnion(TagNameIndex, Symbol, Variable),
    RecursiveTagUnion(Variable, UnionTags, Variable),
    EmptyRecord,
    EmptyTagUnion,
    Erroneous,
}

/// What kind of type a variable stands for.
#[derive(Clone, Copy, PartialEq, Eq, Debug)]
pub enum Content {
    FlexVar(Option<NameIndex>),
    FlexAbleVar(Option<NameIndex>, Symbol),
    RigidVar(NameIndex),
    RigidAbleVar(NameIndex, Symbol),
    Structure(FlatType),
    RecursionVar { structure: Variable, opt_name: Option<NameIndex> },
    Alias(Symbol, AliasVariables, Variable, AliasKind),
    RangedNumber(Variable, VarSlice),
    Error,
}

/// The node payload stored for one variable. `copy` is transient scratch
/// state used only during one deep-copy invocation; it is empty before and
/// after every call.
#[derive(Clone, Copy, PartialEq, Eq, Debug)]
pub struct Descriptor {
    pub content: Content,
    pub rank: Rank,
    pub mark: Mark,
    pub copy: Option<Variable>,
}

/// The substitution store. `utable` owns one descriptor per variable; the
/// other arrays are the shared interning pools that slice handles index.
pub struct Subs {
    pub utable: Vec<Descriptor>,
    pub variables: Vec<Variable>,
    pub variable_slices: Vec<VarSlice>,
    pub tag_names: Vec<TagName>,
    pub field_names: Vec<String>,
    pub record_fields: Vec<FieldKind>,
}

/// The variable handle is a live index of the store's descriptor table.
pub open spec fn var_in(s: Subs, v: Variable) -> bool {
    v.0 < s.utable@.len()
}

/// The slice's index range lies inside the `variables` backing array.
pub open spec fn slice_in_vars(s: Subs, sl: VarSlice) -> bool {
    sl.start + sl.length <= s.variables@.len()
}

/// The sequence of variables an interned slice handle denotes.
pub open spec fn slice_vars(s: Subs, sl: VarSlice) -> Seq<Variable> {
    s.variables@.subrange(sl.start as int, sl.start + sl.length)
}

/// The slice holding a record's field variables.
pub open spec fn record_vars(f: RecordFields) -> VarSlice {
    VarSlice { start: f.variables_start, length: f.length }
}

/// The slice holding all of an alias's argument variables.
pub open spec fn alias_vars(a: AliasVariables) -> VarSlice {
    VarSlice { start: a.variables_start, length: a.all_variables_len }
}

/// The slice holding the payload variables of tag `i` of a union.
pub open spec fn tag_payload(s: Subs, t: UnionTags, i: int) -> VarSlice {
    s.variable_slices@[t.variables_start + i]
}

/// The union's name range and payload-slice range lie inside their arrays.
pub open spec fn union_tags_wf(s: Subs, t: UnionTags) -> bool {
    &&& t.tag_names_start + t.length <= s.tag_names@.len()
    &&& t.variables_start + t.length <= s.variable_slices@.len()
}

/// The record's three index ranges lie inside their arrays.
pub open spec fn record_fields_wf(s: Subs, f: RecordFields) -> bool {
    &&& f.field_names_start + f.length <= s.field_names@.len()
    &&& f.field_types_start + f.length <= s.record_fields@.len()
    &&& f.variables_start + f.length <= s.variables@.len()
}

/// Every nested handle of the content is a live index of its backing array.
pub open spec fn content_wf(s: Subs, c: Content) -> bool {
    match c {
        Content::FlexVar(_) => true,
        Content::FlexAbleVar(_, _) => true,
        Content::RigidVar(_) => true,
        Content::RigidAbleVar(_, _) => true,
        Content::RecursionVar { structure, opt_name: _ } => var_in(s, structure),
        Content::Alias(_, args, real_var, _) => var_in(s, real_var)
            && slice_in_vars(s, alias_vars(args)),
        Content::RangedNumber(t, r) => var_in(s, t) && slice_in_vars(s, r),
        Content::Error => true,
        Content::Structure(ft) => match ft {
            FlatType::Apply(_, args) => slice_in_vars(s, args),
            FlatType::Func(args, clos, ret) => slice_in_vars(s, args) && var_in(s, clos) && var_in(s, ret),
            FlatType::Record(f, ext) => record_fields_wf(s, f) && var_in(s, ext),
            FlatType::TagUnion(t, ext) => union_tags_wf(s, t) && var_in(s, ext),
            FlatType::FunctionOrTagUnion(tn, _, ext) => tn.0 < s.tag_names@.len() && var_in(s, ext),
            FlatType::RecursiveTagUnion(rec, t, ext) =>
                var_in(s, rec) && union_tags_wf(s, t) && var_in(s, ext),
            FlatType::EmptyRecord => true,
            FlatType::EmptyTagUnion => true,
            FlatType::Erroneous => true,
        },
    }
}

/// Every entry of the `variables` pool names a live descriptor.
pub open spec fn vars_array_wf(s: Subs) -> bool {
    forall|i: int| 0 <= i < s.variables@.len() ==> var_in(s, #[trigger] s.variables@[i])
}

/// Every entry of the `variable_slices` pool lies inside the `variables` pool.
pub open spec fn slices_array_wf(s: Subs) -> bool {
    forall|i: int| 0 <= i < s.variable_slices@.len()
        ==> slice_in_vars(s, #[trigger] s.variable_slices@[i])
}

/// The store is well formed: all interned handles, all contents and all
/// scratch marks are in bounds.
pub open spec fn subs_wf(s: Subs) -> bool {
    &&& vars_array_wf(s)
    &&& slices_array_wf(s)
    &&& forall|i: int| 0 <= i < s.utable@.len()
        ==> content_wf(s, (#[trigger] s.utable@[i]).content)
    &&& forall|i: int| 0 <= i < s.utable@.len()
        ==> ((#[trigger] s.utable@[i]).copy matches Some(c) ==> var_in(s, c))
}

/// No descriptor carries a populated scratch mark. This holds before and
/// after every deep-copy call.
pub open spec fn copies_clean(s: Subs) -> bool {
    forall|i: int| 0 <= i < s.utable@.len()
        ==> (#[trigger] s.utable@[i]).copy == None::<Variable>
}

/// The backing arrays of `s2` extend those of `s1`: nothing interned is ever
/// moved or invalidated, and the descriptor table only gains entries.
pub open spec fn grows(s1: Subs, s2: Subs) -> bool {
    &&& s1.utable@.len() <= s2.utable@.len()
    &&& s1.variables@.is_prefix_of(s2.variables@)
    &&& s1.variable_slices@.is_prefix_of(s2.variable_slices@)
    &&& s1.tag_names@.is_prefix_of(s2.tag_names@)
    &&& s1.field_names@.is_prefix_of(s2.field_names@)
    &&& s1.record_fields@.is_prefix_of(s2.record_fields@)
}

/// Growing the store keeps a well-formed content well formed.
pub proof fn lemma_content_wf_grows(s1: Subs, s2: Subs, c: Content)
    requires
        grows(s1, s2),
        content_wf(s1, c),
    ensures
        content_wf(s2, c),
{
}

impl Variable {
    /// The reserved variable holding the closed empty record.
    pub fn empty_record() -> (v: Variable)
        ensures v == (Variable(0)),
    {
        Variable(0)
    }

    /// The reserved variable holding the closed empty tag union.
    pub fn empty_tag_union() -> (v: Variable)
        ensures v == (Variable(1)),
    {
        Variable(1)
    }

    /// The reserved variable holding the closed boolean type.
    pub fn bool_type() -> (v: Variable)
        ensures v == (Variable(2)),
    {
        Variable(2)
    }
}

impl Rank {
    /// The rank of the top level of the inference engine.
    pub fn toplevel() -> (r: Rank)
        ensures r == (Rank(0)),
    {
        Rank(0)
    }
}

impl Mark {
    /// The mark carried by a descriptor that no pass has visited.
    pub fn none() -> (m: Mark)
        ensures m == (Mark(0)),
    {
        Mark(0)
    }
}

impl Symbol {
    /// The anonymous ability symbol.
    pub fn underscore() -> (s: Symbol)
        ensures s == (Symbol(0)),
    {
        Symbol(0)
    }

    /// The symbol of the builtin boolean type.
    pub fn bool_type() -> (s: Symbol)
        ensures s == (Symbol(1)),
    {
        Symbol(1)
    }
}

impl AliasVariables {
    /// The slice holding every argument variable of the alias.
    pub fn all_variables(&self) -> (r: VarSlice)
        ensures r == alias_vars(*self),
    {
        VarSlice { start: self.variables_start, length: self.all_variables_len }
    }
}

/// A clone of a tag name.
pub fn clone_tag_name(t: &TagName) -> (r: TagName)
    ensures
        r == *t,
{
    match t {
        TagName::Tag(s) => TagName::Tag(s.clone()),
    }
}

/// The variable a record field carries.
pub open spec fn record_field_var(f: RecordField) -> Variable {
    match f {
        RecordField::Demanded(v) => v,
        RecordField::Required(v) => v,
        RecordField::Optional(v) => v,
    }
}

/// The kind of a record field, stripped of its variable.
pub open spec fn record_field_kind(f: RecordField) -> FieldKind {
    match f {
        RecordField::Demanded(_) => FieldKind::Demanded,
        RecordField::Required(_) => FieldKind::Required,
        RecordField::Optional(_) => FieldKind::Optional,
    }
}

/// The number of reserved variables that `Subs::new` allocates.
pub open spec fn num_reserved_vars() -> int {
    3
}

impl Subs {
    /// An empty store holding only the reserved variables, each with closed
    /// content, a clean scratch mark and toplevel metadata.
    pub fn new() -> (s: Subs)
        ensures
            subs_wf(s),
            copies_clean(s),
            s.utable@.len() == num_reserved_vars(),
            s.utable@[0].content == Content::Structure(FlatType::EmptyRecord),
            s.utable@[1].content == Content::Structure(FlatType::EmptyTagUnion),
            s.utable@[2].content == Content::Structure(
                FlatType::Apply(Symbol(1), VarSlice { start: 0, length: 0 }),
            ),
            s.variables@.len() == 0,
            s.variable_slices@.len() == 0,
            s.tag_names@.len() == 0,
            s.field_names@.len() == 0,
            s.record_fields@.len() == 0,
    {
        let mut utable: Vec<Descriptor> = Vec::new();
        utable.push(Descriptor {
            content: Content::Structure(FlatType::EmptyRecord),
            rank: Rank(0),
            mark: Mark(0),
            copy: None,
        });
        utable.push(Descriptor {
            content: Content::Structure(FlatType::EmptyTagUnion),
            rank: Rank(0),
            mark: Mark(0),
            copy: None,
        });
        utable.push(Descriptor {
            content: Content::Structure(FlatType::Apply(
                Symbol(1),
                VarSlice { start: 0, length: 0 },
            )),
            rank: Rank(0),
            mark: Mark(0),
            copy: None,
        });
        Subs {
            utable,
            variables: Vec::new(),
            variable_slices: Vec::new(),
            tag_names: Vec::new(),
            field_names: Vec::new(),
            record_fields: Vec::new(),
        }
    }

    /// Appends a new descriptor and returns its handle.
    pub fn fresh(&mut self, descriptor: Descriptor) -> (v: Variable)
        requires
            content_wf(*old(self), descriptor.content),
            descriptor.copy matches Some(c) ==> var_in(*old(self), c),
        ensures
            v.0 == old(self).utable@.len(),
            final(self).utable@ == old(self).utable@.push(descriptor),
            final(self).variables == old(self).variables,
            final(self).variable_slices == old(self).variable_slices,
            final(self).tag_names == old(self).tag_names,
            final(self).field_names == old(self).field_names,
            final(self).record_fields == old(self).record_fields,
            subs_wf(*old(self)) ==> subs_wf(*final(self)),
    {
        let v = Variable(self.utable.len());
        self.utable.push(descriptor);
        proof {
            if subs_wf(*old(self)) {
                assert forall|i: int| 0 <= i < self.utable@.len()
                    implies content_wf(*self, (#[trigger] self.utable@[i]).content) by {
                    if i < old(self).utable@.len() {
                        lemma_content_wf_grows(*old(self), *self, old(self).utable@[i].content);
                    } else {
                        lemma_content_wf_grows(*old(self), *self, descriptor.content);
                    }
                }
            }
        }
        v
    }

    /// Direct access to a descriptor by handle.
    pub fn get(&self, v: Variable) -> (d: &Descriptor)
        requires
            var_in(*self, v),
        ensures
            *d == self.utable@[v.0 as int],
    {
        &self.utable[v.0]
    }

    /// Overwrites the scratch mark of one descriptor.
    pub fn set_copy(&mut self, v: Variable, copy: Option<Variable>)
        requires
            var_in(*old(self), v),
            copy matches Some(c) ==> var_in(*old(self), c),
        ensures
            final(self).utable@ == old(self).utable@.update(
                v.0 as int,
                (Descriptor {
                    content: old(self).utable@[v.0 as int].content,
                    rank: old(self).utable@[v.0 as int].rank,
                    mark: old(self).utable@[v.0 as int].mark,
                    copy,
                }),
            ),
            final(self).variables == old(self).variables,
            final(self).variable_slices == old(self).variable_slices,
            final(self).tag_names == old(self).tag_names,
            final(self).field_names == old(self).field_names,
            final(self).record_fields == old(self).record_fields,
            subs_wf(*old(self)) ==> subs_wf(*final(self)),
    {
        let d = self.utable[v.0];
        self.utable.set(v.0, Descriptor { content: d.content, rank: d.rank, mark: d.mark, copy });
    }

    /// Overwrites the content of one descriptor.
    pub fn set_content(&mut self, v: Variable, content: Content)
        requires
            var_in(*old(self), v),
            content_wf(*old(self), content),
        ensures
            final(self).utable@ == old(self).utable@.update(
                v.0 as int,
                (Descriptor {
                    content,
                    rank: old(self).utable@[v.0 as int].rank,
                    mark: old(self).utable@[v.0 as int].mark,
                    copy: old(self).utable@[v.0 as int].copy,
                }),
            ),
            final(self).variables == old(self).variables,
            final(self).variable_slices == old(self).variable_slices,
            final(self).tag_names == old(self).tag_names,
            final(self).field_names == old(self).field_names,
            final(self).record_fields == old(self).record_fields,
            subs_wf(*old(self)) ==> subs_wf(*final(self)),
    {
        let d = self.utable[v.0];
        self.utable.set(v.0, Descriptor { content, rank: d.rank, mark: d.mark, copy: d.copy });
    }

    /// Interns a variable name and returns its index.
    pub fn push_field_name(&mut self, name: String) -> (i: NameIndex)
        ensures
            i.0 == old(self).field_names@.len(),
            final(self).field_names@ == old(self).field_names@.push(name),
            final(self).utable == old(self).utable,
            final(self).variables == old(self).variables,
            final(self).variable_slices == old(self).variable_slices,
            final(self).tag_names == old(self).tag_names,
            final(self).record_fields == old(self).record_fields,
            subs_wf(*old(self)) ==> subs_wf(*final(self)),
    {
        let i = NameIndex(self.field_names.len());
        self.field_names.push(name);
        proof {
            if subs_wf(*old(self)) {
                assert forall|j: int| 0 <= j < self.utable@.len()
                    implies content_wf(*self, (#[trigger] self.utable@[j]).content) by {
                    lemma_content_wf_grows(*old(self), *self, old(self).utable@[j].content);
                }
            }
        }
        i
    }

    /// Reads an interned variable name back.
    pub fn field_name(&self, i: NameIndex) -> (name: &String)
        requires
            i.0 < self.field_names@.len(),
        ensures
            *name == self.field_names@[i.0 as int],
    {
        &self.field_names[i.0]
    }

    /// Reads an interned tag name back.
    pub fn tag_name(&self, i: TagNameIndex) -> (name: &TagName)
        requires
            i.0 < self.tag_names@.len(),
        ensures
            *name == self.tag_names@[i.0 as int],
    {
        &self.tag_names[i.0]
    }

    /// Reads one entry of the `variables` pool.
    pub fn variable_at(&self, i: usize) -> (v: Variable)
        requires
            i < self.variables@.len(),
        ensures
            v == self.variables@[i as int],
    {
        self.variables[i]
    }

    /// Allocates `n` empty slots at the end of the `variable_slices` pool,
    /// to be filled one by one afterwards.
    pub fn reserve_variable_slices(&mut self, n: usize) -> (start: usize)
        ensures
            start == old(self).variable_slices@.len(),
            final(self).variable_slices@.len() == start + n,
            old(self).variable_slices@.is_prefix_of(final(self).variable_slices@),
            forall|i: int|
                start <= i < start + n ==> final(self).variable_slices@[i] == (VarSlice {
                    start: 0,
                    length: 0,
                }),
            final(self).utable == old(self).utable,
            final(self).variables == old(self).variables,
            final(self).tag_names == old(self).tag_names,
            final(self).field_names == old(self).field_names,
            final(self).record_fields == old(self).record_fields,
            subs_wf(*old(self)) ==> subs_wf(*final(self)),
    {
        let start = self.variable_slices.len();
        let mut k: usize = 0;
        while k < n
            invariant
                start == old(self).variable_slices@.len(),
                k <= n,
                self.variable_slices@.len() == start + k,
                old(self).variable_slices@.is_prefix_of(self.variable_slices@),
                forall|i: int|
                    start <= i < start + k ==> self.variable_slices@[i] == (VarSlice {
                        start: 0,
                        length: 0,
                    }),
                self.utable == old(self).utable,
                self.variables == old(self).variables,
                self.tag_names == old(self).tag_names,
                self.field_names == old(self).field_names,
                self.record_fields == old(self).record_fields,
            decreases n - k,
        {
            self.variable_slices.push(VarSlice { start: 0, length: 0 });
            proof {
                assert(old(self).variable_slices@ =~= self.variable_slices@.subrange(
                    0,
                    start as int,
                ));
            }
            k = k + 1;
        }
        proof {
            if subs_wf(*old(self)) {
                assert forall|j: int| 0 <= j < self.utable@.len()
                    implies content_wf(*self, (#[trigger] self.utable@[j]).content) by {
                    lemma_content_wf_grows(*old(self), *self, old(self).utable@[j].content);
                }
                assert forall|j: int| 0 <= j < self.variable_slices@.len()
                    implies slice_in_vars(*self, #[trigger] self.variable_slices@[j]) by {
                    if j < start {
                        assert(self.variable_slices@[j] == old(self).variable_slices@[j]);
                        assert(slice_in_vars(*old(self), old(self).variable_slices@[j]));
                    }
                }
            }
        }
        start
    }

    /// Fills one reserved slot of the `variable_slices` pool.
    pub fn set_variable_slice(&mut self, i: usize, sl: VarSlice)
        requires
            i < old(self).variable_slices@.len(),
            slice_in_vars(*old(self), sl),
        ensures
            final(self).variable_slices@ == old(self).variable_slices@.update(i as int, sl),
            final(self).utable == old(self).utable,
            final(self).variables == old(self).variables,
            final(self).tag_names == old(self).tag_names,
            final(self).field_names == old(self).field_names,
            final(self).record_fields == old(self).record_fields,
            subs_wf(*old(self)) ==> subs_wf(*final(self)),
    {
        self.variable_slices.set(i, sl);
    }

    /// Interns a tag union: appends each tag's name to the `tag_names` pool
    /// and each tag's payload variables to the `variables` pool behind a
    /// freshly interned slice, and returns the handle covering them.
    pub fn insert_union_tags(&mut self, tags: &Vec<(TagName, Vec<Variable>)>) -> (u: UnionTags)
        requires
            subs_wf(*old(self)),
            forall|i: int, k: int|
                0 <= i < tags@.len() && 0 <= k < tags@[i].1@.len() ==> var_in(
                    *old(self),
                    #[trigger] tags@[i].1@[k],
                ),
        ensures
            subs_wf(*final(self)),
            grows(*old(self), *final(self)),
            final(self).utable == old(self).utable,
            final(self).field_names == old(self).field_names,
            final(self).record_fields == old(self).record_fields,
            u.length == tags@.len(),
            u.tag_names_start == old(self).tag_names@.len(),
            u.variables_start == old(self).variable_slices@.len(),
            union_tags_wf(*final(self), u),
            forall|i: int|
                0 <= i < tags@.len() ==> final(self).tag_names@[u.tag_names_start + i] == (
                #[trigger] tags@[i]).0,
            forall|i: int|
                0 <= i < tags@.len() ==> slice_vars(
                    *final(self),
                    tag_payload(*final(self), u, i),
                ) == (#[trigger] tags@[i]).1@,
    {
        let ghost os = *self;
        let tn_start = self.tag_names.len();
        let vs_start = self.variable_slices.len();
        let mut i: usize = 0;
        while i < tags.len()
            invariant
                subs_wf(os),
                forall|i2: int, k: int|
                    0 <= i2 < tags@.len() && 0 <= k < tags@[i2].1@.len() ==> var_in(
                        os,
                        #[trigger] tags@[i2].1@[k],
                    ),
                i <= tags@.len(),
                tn_start == os.tag_names@.len(),
                vs_start == os.variable_slices@.len(),
                self.utable == os.utable,
                self.field_names == os.field_names,
                self.record_fields == os.record_fields,
                os.variables@.is_prefix_of(self.variables@),
                os.tag_names@.is_prefix_of(self.tag_names@),
                os.variable_slices@.is_prefix_of(self.variable_slices@),
                forall|j: int|
                    0 <= j < self.variables@.len() ==> var_in(os, #[trigger] self.variables@[j]),
                self.tag_names@.len() == tn_start + i,
                self.variable_slices@.len() == vs_start + i,
                forall|i2: int|
                    0 <= i2 < i ==> self.tag_names@[tn_start + i2] == (#[trigger] tags@[i2]).0,
                forall|i2: int|
                    0 <= i2 < i ==> slice_in_vars(
                        *self,
                        #[trigger] self.variable_slices@[vs_start + i2],
                    ) && slice_vars(*self, self.variable_slices@[vs_start + i2]) == tags@[i2].1@,
            decreases tags@.len() - i,
        {
            let name = clone_tag_name(&tags[i].0);
            self.tag_names.push(name);
            let start = self.variables.len();
            let vars = &tags[i].1;
            let ghost pre_vars = self.variables@;
            let ghost pre_tn = self.tag_names@;
            let ghost pre_vs = self.variable_slices@;
            let mut k: usize = 0;
            while k < vars.len()
                invariant
                    forall|i2: int, k2: int|
                        0 <= i2 < tags@.len() && 0 <= k2 < tags@[i2].1@.len()
                            ==> var_in(os, #[trigger] tags@[i2].1@[k2]),
                    vars == &(#[trigger] tags@[i as int]).1,
                    0 <= i < tags@.len(),
                    k <= vars@.len(),
                    start == pre_vars.len(),
                    forall|j: int|
                        0 <= j < pre_vars.len() ==> var_in(os, #[trigger] pre_vars[j]),
                    self.variables@ == pre_vars + vars@.subrange(0, k as int),
                    self.utable == os.utable,
                    self.field_names == os.field_names,
                    self.record_fields == os.record_fields,
                    self.tag_names@ == pre_tn,
                    self.variable_slices@ == pre_vs,
                decreases vars@.len() - k,
            {
                self.variables.push(vars[k]);
                proof {
                    assert(self.variables@ =~= pre_vars + vars@.subrange(0, k + 1));
                }
                k = k + 1;
            }
            proof {
                assert(self.variables@ =~= pre_vars + vars@);
            }
            self.variable_slices.push(VarSlice { start, length: vars.len() });
            proof {
                assert(os.variables@ =~= self.variables@.subrange(0, os.variables@.len() as int));
                assert(os.tag_names@ =~= self.tag_names@.subrange(0, os.tag_names@.len() as int));
                assert(os.variable_slices@ =~= self.variable_slices@.subrange(
                    0,
                    os.variable_slices@.len() as int,
                ));
                assert forall|i2: int|
                    0 <= i2 < i + 1 implies slice_in_vars(
                    *self,
                    #[trigger] self.variable_slices@[vs_start + i2],
                ) && slice_vars(*self, self.variable_slices@[vs_start + i2]) == tags@[i2].1@ by {
                    if i2 < i {
                        assert(slice_vars(*self, self.variable_slices@[vs_start + i2])
                            =~= tags@[i2].1@);
                    } else {
                        assert(slice_vars(*self, self.variable_slices@[vs_start + i2])
                            =~= tags@[i2].1@);
                    }
                }
            }
            i = i + 1;
        }
        let u = UnionTags { length: i, tag_names_start: tn_start, variables_start: vs_start };
        proof {
            assert forall|j: int| 0 <= j < self.variables@.len() implies var_in(
                *self,
                #[trigger] self.variables@[j],
            ) by {
                assert(var_in(os, self.variables@[j]));
            }
            assert forall|j: int| 0 <= j < self.variable_slices@.len() implies slice_in_vars(
                *self,
                #[trigger] self.variable_slices@[j],
            ) by {
                if j < os.variable_slices@.len() {
                    assert(self.variable_slices@[j] == os.variable_slices@[j]);
                    assert(slice_in_vars(os, os.variable_slices@[j]));
                } else {
                    let i2 = j - vs_start;
                    assert(slice_in_vars(*self, self.variable_slices@[vs_start + i2]));
                }
            }
            assert forall|j: int| 0 <= j < self.utable@.len() implies content_wf(
                *self,
                (#[trigger] self.utable@[j]).content,
            ) by {
                lemma_content_wf_grows(os, *self, os.utable@[j].content);
            }
            assert(subs_wf(*self));
        }
        u
    }

    /// Interns a record's fields: appends each field's name, kind and
    /// variable to their pools and returns the handle covering them.
    pub fn insert_record_fields(&mut self, fields: &Vec<(String, RecordField)>) -> (r:
        RecordFields)
        requires
            subs_wf(*old(self)),
            forall|i: int|
                0 <= i < fields@.len() ==> var_in(
                    *old(self),
                    record_field_var((#[trigger] fields@[i]).1),
                ),
        ensures
            subs_wf(*final(self)),
            grows(*old(self), *final(self)),
            final(self).utable == old(self).utable,
            final(self).tag_names == old(self).tag_names,
            final(self).variable_slices == old(self).variable_slices,
            r.length == fields@.len(),
            r.field_names_start == old(self).field_names@.len(),
            r.field_types_start == old(self).record_fields@.len(),
            r.variables_start == old(self).variables@.len(),
            record_fields_wf(*final(self), r),
            forall|i: int|
                0 <= i < fields@.len() ==> final(self).field_names@[r.field_names_start + i] == (
                #[trigger] fields@[i]).0,
            forall|i: int|
                0 <= i < fields@.len() ==> final(self).record_fields@[r.field_types_start + i]
                    == record_field_kind((#[trigger] fields@[i]).1),
            forall|i: int|
                0 <= i < fields@.len() ==> slice_vars(*final(self), record_vars(r))[i]
                    == record_field_var((#[trigger] fields@[i]).1),
    {
        let ghost os = *self;
        let fn_start = self.field_names.len();
        let ft_start = self.record_fields.len();
        let v_start = self.variables.len();
        let mut i: usize = 0;
        while i < fields.len()
            invariant
                subs_wf(os),
                forall|i2: int|
                    0 <= i2 < fields@.len() ==> var_in(
                        os,
                        record_field_var((#[trigger] fields@[i2]).1),
                    ),
                i <= fields@.len(),
                fn_start == os.field_names@.len(),
                ft_start == os.record_fields@.len(),
                v_start == os.variables@.len(),
                self.utable == os.utable,
                self.tag_names == os.tag_names,
                self.variable_slices == os.variable_slices,
                os.variables@.is_prefix_of(self.variables@),
                os.field_names@.is_prefix_of(self.field_names@),
                os.record_fields@.is_prefix_of(self.record_fields@),
                self.field_names@.len() == fn_start + i,
                self.record_fields@.len() == ft_start + i,
                self.variables@.len() == v_start + i,
                forall|i2: int|
                    0 <= i2 < i ==> self.field_names@[fn_start + i2] == (#[trigger] fields@[i2]).0,
                forall|i2: int|
                    0 <= i2 < i ==> self.record_fields@[ft_start + i2] == record_field_kind((
                    #[trigger] fields@[i2]).1),
                forall|i2: int|
                    0 <= i2 < i ==> self.variables@[v_start + i2] == record_field_var((
                    #[trigger] fields@[i2]).1),
            decreases fields@.len() - i,
        {
            let name = fields[i].0.clone();
            let (kind, var) = match fields[i].1 {
                RecordField::Demanded(v) => (FieldKind::Demanded, v),
                RecordField::Required(v) => (FieldKind::Required, v),
                RecordField::Optional(v) => (FieldKind::Optional, v),
            };
            self.field_names.push(name);
            self.record_fields.push(kind);
            self.variables.push(var);
            proof {
                assert(os.variables@ =~= self.variables@.subrange(0, os.variables@.len() as int));
                assert(os.field_names@ =~= self.field_names@.subrange(
                    0,
                    os.field_names@.len() as int,
                ));
                assert(os.record_fields@ =~= self.record_fields@.subrange(
                    0,
                    os.record_fields@.len() as int,
                ));
            }
            i = i + 1;
        }
        let r = RecordFields {
            length: i,
            field_names_start: fn_start,
            variables_start: v_start,
            field_types_start: ft_start,
        };
        proof {
            assert forall|j: int| 0 <= j < self.variables@.len() implies var_in(
                *self,
                #[trigger] self.variables@[j],
            ) by {
                if j < v_start {
                    assert(self.variables@[j] == os.variables@[j]);
                    assert(var_in(os, os.variables@[j]));
                } else {
                    let i2 = j - v_start;
                    assert(self.variables@[v_start + i2] == record_field_var(fields@[i2].1));
                }
            }
            assert forall|j: int| 0 <= j < self.variable_slices@.len() implies slice_in_vars(
                *self,
                #[trigger] self.variable_slices@[j],
            ) by {
                assert(slice_in_vars(os, os.variable_slices@[j]));
            }
            assert forall|j: int| 0 <= j < self.utable@.len() implies content_wf(
                *self,
                (#[trigger] self.utable@[j]).content,
            ) by {
                lemma_content_wf_grows(os, *self, os.utable@[j].content);
            }
            assert(subs_wf(*self));
            assert forall|i2: int| 0 <= i2 < fields@.len() implies slice_vars(
                *self,
                record_vars(r),
            )[i2] == record_field_var((#[trigger] fields@[i2]).1) by {
                assert(slice_vars(*self, record_vars(r))[i2] == self.variables@[v_start + i2]);
            }
        }
        r
    }

    /// Reads one entry of the `variable_slices` pool.
    pub fn variable_slice_at(&self, i: usize) -> (sl: VarSlice)
        requires
            i < self.variable_slices@.len(),
        ensures
            sl == self.variable_slices@[i as int],
    {
        self.variable_slices[i]
    }
}

} // verus!

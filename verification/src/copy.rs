//! The deep-copy engine: given a root variable, appends a fresh descriptor
//! for every reachable variable that leads to a generic-parameter variable,
//! returns the (original, fresh) pairs, and leaves every scratch mark clean.

use vstd::prelude::*;
use crate::subs::{
    alias_vars, content_wf, copies_clean, grows, record_vars, slice_in_vars, slice_vars, subs_wf,
    tag_payload, union_tags_wf, var_in, AliasVariables, Content, Descriptor, FlatType,
    RecordFields, Subs, UnionTags, VarSlice, Variable,
};
use crate::graph::{
    is_generic, lemma_needs_copy_via, lemma_reaches_refl, needs_copy, reaches,
};
use crate::walk::{compute_needs, distinct_vars, reachable_postorder};

verus! {

/// `v` is the original of one of the returned pairs.
pub open spec fn in_firsts(m: Seq<(Variable, Variable)>, v: Variable) -> bool {
    exists|j: int| 0 <= j < m.len() && m[j].0 == v
}

/// The image of `v` under the mapping: its fresh counterpart if one was
/// made, `v` itself otherwise.
pub open spec fn map_var(m: Seq<(Variable, Variable)>, v: Variable) -> Variable {
    if in_firsts(m, v) {
        m[choose|j: int| 0 <= j < m.len() && m[j].0 == v].1
    } else {
        v
    }
}

/// No original occurs in two pairs.
pub open spec fn distinct_firsts(m: Seq<(Variable, Variable)>) -> bool {
    forall|i: int, j: int| 0 <= i < j < m.len() ==> m[i].0 != m[j].0
}

pub proof fn lemma_map_var_at(m: Seq<(Variable, Variable)>, j: int)
    requires
        distinct_firsts(m),
        0 <= j < m.len(),
    ensures
        map_var(m, m[j].0) == m[j].1,
{
    let v = m[j].0;
    assert(in_firsts(m, v));
    let j2 = choose|j2: int| 0 <= j2 < m.len() && m[j2].0 == v;
    if j2 != j {
        if j2 < j {
            assert(m[j2].0 != m[j].0);
        } else {
            assert(m[j].0 != m[j2].0);
        }
        assert(false);
    }
}

/// The scratch mark of `w`, read as a mapping: the recorded fresh variable,
/// or `w` itself while no copy is recorded.
pub open spec fn copy_image(s: Subs, w: Variable) -> Variable {
    match s.utable@[w.0 as int].copy {
        Some(c) => c,
        None => w,
    }
}

/// `b` holds, entry for entry, the scratch-mark image of `a`'s entries.
pub open spec fn slice_translated(sm: Subs, a: VarSlice, b: VarSlice) -> bool {
    &&& b.length == a.length
    &&& slice_in_vars(sm, a)
    &&& slice_in_vars(sm, b)
    &&& forall|k: int|
        0 <= k < a.length ==> slice_vars(sm, b)[k] == copy_image(
            sm,
            #[trigger] slice_vars(sm, a)[k],
        )
}

/// The payload slices of `t2` hold, slice for slice, the scratch-mark images
/// of `t1`'s payload slices; the tag names are shared.
pub open spec fn tags_translated(sm: Subs, t1: UnionTags, t2: UnionTags) -> bool {
    &&& t2.length == t1.length
    &&& t2.tag_names_start == t1.tag_names_start
    &&& union_tags_wf(sm, t1)
    &&& union_tags_wf(sm, t2)
    &&& forall|i: int|
        0 <= i < t1.length ==> slice_translated(
            sm,
            tag_payload(sm, t1, i),
            #[trigger] tag_payload(sm, t2, i),
        )
}

/// `nc` is `oc` with every nested variable replaced by its scratch-mark
/// image, over freshly interned slices; all other data is identical.
pub open spec fn content_translated(sm: Subs, oc: Content, nc: Content) -> bool {
    match oc {
        Content::FlexVar(_) => nc == oc,
        Content::FlexAbleVar(_, _) => nc == oc,
        Content::RigidVar(_) => nc == oc,
        Content::RigidAbleVar(_, _) => nc == oc,
        Content::Error => nc == oc,
        Content::RecursionVar { structure, opt_name } => nc == (Content::RecursionVar {
            structure: copy_image(sm, structure),
            opt_name,
        }),
        Content::Alias(sym, args, real_var, kind) => nc matches Content::Alias(
            sym2,
            args2,
            real2,
            kind2,
        ) && sym2 == sym && kind2 == kind && real2 == copy_image(sm, real_var)
            && args2.type_variables_len == args.type_variables_len
            && args2.all_variables_len == args.all_variables_len && slice_translated(
            sm,
            alias_vars(args),
            alias_vars(args2),
        ),
        Content::RangedNumber(t, r) => nc matches Content::RangedNumber(t2, r2) && t2
            == copy_image(sm, t) && slice_translated(sm, r, r2),
        Content::Structure(ft) => nc matches Content::Structure(ft2) && flat_translated(
            sm,
            ft,
            ft2,
        ),
    }
}

/// The `FlatType` half of `content_translated`.
pub open spec fn flat_translated(sm: Subs, f1: FlatType, f2: FlatType) -> bool {
    match f1 {
        FlatType::Apply(sym, args) => f2 matches FlatType::Apply(sym2, args2) && sym2 == sym
            && slice_translated(sm, args, args2),
        FlatType::Func(args, clos, ret) => f2 matches FlatType::Func(args2, clos2, ret2)
            && slice_translated(sm, args, args2) && clos2 == copy_image(sm, clos) && ret2
            == copy_image(sm, ret),
        FlatType::Record(f, ext) => f2 matches FlatType::Record(g, ext2) && g.length == f.length
            && g.field_names_start == f.field_names_start && g.field_types_start
            == f.field_types_start && slice_translated(sm, record_vars(f), record_vars(g)) && ext2
            == copy_image(sm, ext),
        FlatType::TagUnion(t, ext) => f2 matches FlatType::TagUnion(t2, ext2) && tags_translated(
            sm,
            t,
            t2,
        ) && ext2 == copy_image(sm, ext),
        FlatType::FunctionOrTagUnion(tn, sym, ext) => f2 == FlatType::FunctionOrTagUnion(
            tn,
            sym,
            copy_image(sm, ext),
        ),
        FlatType::RecursiveTagUnion(rec, t, ext) => f2 matches FlatType::RecursiveTagUnion(
            rec2,
            t2,
            ext2,
        ) && rec2 == copy_image(sm, rec) && tags_translated(sm, t, t2) && ext2 == copy_image(
            sm,
            ext,
        ),
        FlatType::EmptyRecord => f2 == f1,
        FlatType::EmptyTagUnion => f2 == f1,
        FlatType::Erroneous => f2 == f1,
    }
}

/// The slice `b`, interned in the new store, holds the mapping's image of
/// the slice `a` of the original store.
pub open spec fn slice_corresponds(
    os: Subs,
    ns: Subs,
    m: Seq<(Variable, Variable)>,
    a: VarSlice,
    b: VarSlice,
) -> bool {
    &&& b.length == a.length
    &&& slice_in_vars(os, a)
    &&& slice_in_vars(ns, b)
    &&& forall|k: int|
        0 <= k < a.length ==> slice_vars(ns, b)[k] == map_var(
            m,
            #[trigger] slice_vars(os, a)[k],
        )
}

/// The tags of `t2` in the new store map those of `t1` in the original
/// store, sharing the tag names.
pub open spec fn tags_correspond(
    os: Subs,
    ns: Subs,
    m: Seq<(Variable, Variable)>,
    t1: UnionTags,
    t2: UnionTags,
) -> bool {
    &&& t2.length == t1.length
    &&& t2.tag_names_start == t1.tag_names_start
    &&& union_tags_wf(os, t1)
    &&& union_tags_wf(ns, t2)
    &&& forall|i: int|
        0 <= i < t1.length ==> slice_corresponds(
            os,
            ns,
            m,
            tag_payload(os, t1, i),
            #[trigger] tag_payload(ns, t2, i),
        )
}

/// The fresh content `nc` (in the new store) is structurally identical to
/// the original content `oc` (in the original store), with every nested
/// variable replaced by its image under the mapping; names, symbols, kinds
/// and all other data are unchanged.
pub open spec fn content_corresponds(
    os: Subs,
    ns: Subs,
    m: Seq<(Variable, Variable)>,
    oc: Content,
    nc: Content,
) -> bool {
    match oc {
        Content::FlexVar(_) => nc == oc,
        Content::FlexAbleVar(_, _) => nc == oc,
        Content::RigidVar(_) => nc == oc,
        Content::RigidAbleVar(_, _) => nc == oc,
        Content::Error => nc == oc,
        Content::RecursionVar { structure, opt_name } => nc == (Content::RecursionVar {
            structure: map_var(m, structure),
            opt_name,
        }),
        Content::Alias(sym, args, real_var, kind) => nc matches Content::Alias(
            sym2,
            args2,
            real2,
            kind2,
        ) && sym2 == sym && kind2 == kind && real2 == map_var(m, real_var)
            && args2.type_variables_len == args.type_variables_len
            && args2.all_variables_len == args.all_variables_len && slice_corresponds(
            os,
            ns,
            m,
            alias_vars(args),
            alias_vars(args2),
        ),
        Content::RangedNumber(t, r) => nc matches Content::RangedNumber(t2, r2) && t2 == map_var(
            m,
            t,
        ) && slice_corresponds(os, ns, m, r, r2),
        Content::Structure(ft) => nc matches Content::Structure(ft2) && flat_corresponds(
            os,
            ns,
            m,
            ft,
            ft2,
        ),
    }
}

/// The `FlatType` half of `content_corresponds`.
pub open spec fn flat_corresponds(
    os: Subs,
    ns: Subs,
    m: Seq<(Variable, Variable)>,
    f1: FlatType,
    f2: FlatType,
) -> bool {
    match f1 {
        FlatType::Apply(sym, args) => f2 matches FlatType::Apply(sym2, args2) && sym2 == sym
            && slice_corresponds(os, ns, m, args, args2),
        FlatType::Func(args, clos, ret) => f2 matches FlatType::Func(args2, clos2, ret2)
            && slice_corresponds(os, ns, m, args, args2) && clos2 == map_var(m, clos) && ret2
            == map_var(m, ret),
        FlatType::Record(f, ext) => f2 matches FlatType::Record(g, ext2) && g.length == f.length
            && g.field_names_start == f.field_names_start && g.field_types_start
            == f.field_types_start && slice_corresponds(
            os,
            ns,
            m,
            record_vars(f),
            record_vars(g),
        ) && ext2 == map_var(m, ext),
        FlatType::TagUnion(t, ext) => f2 matches FlatType::TagUnion(t2, ext2) && tags_correspond(
            os,
            ns,
            m,
            t,
            t2,
        ) && ext2 == map_var(m, ext),
        FlatType::FunctionOrTagUnion(tn, sym, ext) => f2 == FlatType::FunctionOrTagUnion(
            tn,
            sym,
            map_var(m, ext),
        ),
        FlatType::RecursiveTagUnion(rec, t, ext) => f2 matches FlatType::RecursiveTagUnion(
            rec2,
            t2,
            ext2,
        ) && rec2 == map_var(m, rec) && tags_correspond(os, ns, m, t, t2) && ext2 == map_var(
            m,
            ext,
        ),
        FlatType::EmptyRecord => f2 == f1,
        FlatType::EmptyTagUnion => f2 == f1,
        FlatType::Erroneous => f2 == f1,
    }
}

pub proof fn lemma_slice_corresponds_ns_grows(
    os: Subs,
    ns1: Subs,
    ns2: Subs,
    m: Seq<(Variable, Variable)>,
    a: VarSlice,
    b: VarSlice,
)
    requires
        slice_corresponds(os, ns1, m, a, b),
        ns1.variables@.is_prefix_of(ns2.variables@),
    ensures
        slice_corresponds(os, ns2, m, a, b),
{
    assert forall|k: int| 0 <= k < a.length implies slice_vars(ns2, b)[k] == map_var(
        m,
        #[trigger] slice_vars(os, a)[k],
    ) by {
        assert(slice_vars(ns2, b)[k] == ns2.variables@[b.start + k]);
        assert(slice_vars(ns1, b)[k] == ns1.variables@[b.start + k]);
        assert(ns2.variables@[b.start + k] == ns1.variables@[b.start + k]);
    }
}

pub proof fn lemma_content_corresponds_ns_grows(
    os: Subs,
    ns1: Subs,
    ns2: Subs,
    m: Seq<(Variable, Variable)>,
    oc: Content,
    nc: Content,
)
    requires
        content_corresponds(os, ns1, m, oc, nc),
        ns1.variables@.is_prefix_of(ns2.variables@),
        ns1.variable_slices@.is_prefix_of(ns2.variable_slices@),
        ns1.tag_names@.len() <= ns2.tag_names@.len(),
    ensures
        content_corresponds(os, ns2, m, oc, nc),
{
    match oc {
        Content::Alias(_, args, _, _) => {
            if let Content::Alias(_, args2, _, _) = nc {
                lemma_slice_corresponds_ns_grows(
                    os,
                    ns1,
                    ns2,
                    m,
                    alias_vars(args),
                    alias_vars(args2),
                );
            }
        }
        Content::RangedNumber(_, r) => {
            if let Content::RangedNumber(_, r2) = nc {
                lemma_slice_corresponds_ns_grows(os, ns1, ns2, m, r, r2);
            }
        }
        Content::Structure(ft) => {
            if let Content::Structure(ft2) = nc {
                match ft {
                    FlatType::Apply(_, args) => {
                        if let FlatType::Apply(_, args2) = ft2 {
                            lemma_slice_corresponds_ns_grows(os, ns1, ns2, m, args, args2);
                        }
                    }
                    FlatType::Func(args, _, _) => {
                        if let FlatType::Func(args2, _, _) = ft2 {
                            lemma_slice_corresponds_ns_grows(os, ns1, ns2, m, args, args2);
                        }
                    }
                    FlatType::Record(f, _) => {
                        if let FlatType::Record(g, _) = ft2 {
                            lemma_slice_corresponds_ns_grows(
                                os,
                                ns1,
                                ns2,
                                m,
                                record_vars(f),
                                record_vars(g),
                            );
                        }
                    }
                    FlatType::TagUnion(t, _) => {
                        if let FlatType::TagUnion(t2, _) = ft2 {
                            lemma_tags_correspond_ns_grows(os, ns1, ns2, m, t, t2);
                        }
                    }
                    FlatType::RecursiveTagUnion(_, t, _) => {
                        if let FlatType::RecursiveTagUnion(_, t2, _) = ft2 {
                            lemma_tags_correspond_ns_grows(os, ns1, ns2, m, t, t2);
                        }
                    }
                    _ => {}
                }
            }
        }
        _ => {}
    }
}

pub proof fn lemma_tags_correspond_ns_grows(
    os: Subs,
    ns1: Subs,
    ns2: Subs,
    m: Seq<(Variable, Variable)>,
    t1: UnionTags,
    t2: UnionTags,
)
    requires
        tags_correspond(os, ns1, m, t1, t2),
        ns1.variables@.is_prefix_of(ns2.variables@),
        ns1.variable_slices@.is_prefix_of(ns2.variable_slices@),
        ns1.tag_names@.len() <= ns2.tag_names@.len(),
    ensures
        tags_correspond(os, ns2, m, t1, t2),
{
    assert forall|i: int| 0 <= i < t1.length implies slice_corresponds(
        os,
        ns2,
        m,
        tag_payload(os, t1, i),
        #[trigger] tag_payload(ns2, t2, i),
    ) by {
        assert(tag_payload(ns2, t2, i) == tag_payload(ns1, t2, i));
        lemma_slice_corresponds_ns_grows(
            os,
            ns1,
            ns2,
            m,
            tag_payload(os, t1, i),
            tag_payload(ns1, t2, i),
        );
    }
}

pub proof fn lemma_slice_translated_grows(sm1: Subs, sm2: Subs, a: VarSlice, b: VarSlice)
    requires
        slice_translated(sm1, a, b),
        sm1.variables@.is_prefix_of(sm2.variables@),
        sm1.utable == sm2.utable,
    ensures
        slice_translated(sm2, a, b),
{
    assert forall|k: int| 0 <= k < a.length implies slice_vars(sm2, b)[k] == copy_image(
        sm2,
        #[trigger] slice_vars(sm2, a)[k],
    ) by {
        assert(slice_vars(sm2, a)[k] == sm2.variables@[a.start + k]);
        assert(slice_vars(sm1, a)[k] == sm1.variables@[a.start + k]);
        assert(slice_vars(sm2, b)[k] == sm2.variables@[b.start + k]);
        assert(slice_vars(sm1, b)[k] == sm1.variables@[b.start + k]);
    }
}

/// Converts the scratch-mark formulation of a freshly written content into
/// the mapping formulation, once the scratch marks agree with the mapping.
pub proof fn lemma_slice_translated_to_corresponds(
    os: Subs,
    sm: Subs,
    m: Seq<(Variable, Variable)>,
    a: VarSlice,
    b: VarSlice,
)
    requires
        subs_wf(os),
        slice_in_vars(os, a),
        slice_translated(sm, a, b),
        os.variables@.is_prefix_of(sm.variables@),
        forall|w: Variable| var_in(os, w) ==> copy_image(sm, w) == map_var(m, w),
    ensures
        slice_corresponds(os, sm, m, a, b),
{
    assert forall|k: int| 0 <= k < a.length implies slice_vars(sm, b)[k] == map_var(
        m,
        #[trigger] slice_vars(os, a)[k],
    ) by {
        let w = slice_vars(os, a)[k];
        assert(w == os.variables@[a.start + k]);
        assert(var_in(os, w));
        assert(slice_vars(sm, a)[k] == sm.variables@[a.start + k]);
        assert(slice_vars(sm, b)[k] == copy_image(sm, slice_vars(sm, a)[k]));
    }
}

pub proof fn lemma_tags_translated_to_correspond(
    os: Subs,
    sm: Subs,
    m: Seq<(Variable, Variable)>,
    t1: UnionTags,
    t2: UnionTags,
)
    requires
        subs_wf(os),
        union_tags_wf(os, t1),
        tags_translated(sm, t1, t2),
        os.variables@.is_prefix_of(sm.variables@),
        os.variable_slices@.is_prefix_of(sm.variable_slices@),
        forall|w: Variable| var_in(os, w) ==> copy_image(sm, w) == map_var(m, w),
    ensures
        tags_correspond(os, sm, m, t1, t2),
{
    assert forall|i: int| 0 <= i < t1.length implies slice_corresponds(
        os,
        sm,
        m,
        tag_payload(os, t1, i),
        #[trigger] tag_payload(sm, t2, i),
    ) by {
        assert(tag_payload(sm, t1, i) == sm.variable_slices@[t1.variables_start + i]);
        assert(tag_payload(os, t1, i) == os.variable_slices@[t1.variables_start + i]);
        assert(tag_payload(sm, t1, i) == tag_payload(os, t1, i));
        assert(slice_in_vars(os, os.variable_slices@[t1.variables_start + i]));
        assert(slice_translated(sm, tag_payload(sm, t1, i), tag_payload(sm, t2, i)));
        lemma_slice_translated_to_corresponds(
            os,
            sm,
            m,
            tag_payload(os, t1, i),
            tag_payload(sm, t2, i),
        );
    }
}

pub proof fn lemma_translated_to_corresponds(
    os: Subs,
    sm: Subs,
    m: Seq<(Variable, Variable)>,
    oc: Content,
    nc: Content,
)
    requires
        subs_wf(os),
        content_wf(os, oc),
        content_translated(sm, oc, nc),
        os.variables@.is_prefix_of(sm.variables@),
        os.variable_slices@.is_prefix_of(sm.variable_slices@),
        forall|w: Variable| var_in(os, w) ==> copy_image(sm, w) == map_var(m, w),
    ensures
        content_corresponds(os, sm, m, oc, nc),
{
    match oc {
        Content::Alias(_, args, _, _) => {
            if let Content::Alias(_, args2, _, _) = nc {
                lemma_slice_translated_to_corresponds(
                    os,
                    sm,
                    m,
                    alias_vars(args),
                    alias_vars(args2),
                );
            }
        }
        Content::RangedNumber(_, r) => {
            if let Content::RangedNumber(_, r2) = nc {
                lemma_slice_translated_to_corresponds(os, sm, m, r, r2);
            }
        }
        Content::Structure(ft) => {
            if let Content::Structure(ft2) = nc {
                match ft {
                    FlatType::Apply(_, args) => {
                        if let FlatType::Apply(_, args2) = ft2 {
                            lemma_slice_translated_to_corresponds(os, sm, m, args, args2);
                        }
                    }
                    FlatType::Func(args, _, _) => {
                        if let FlatType::Func(args2, _, _) = ft2 {
                            lemma_slice_translated_to_corresponds(os, sm, m, args, args2);
                        }
                    }
                    FlatType::Record(f, _) => {
                        if let FlatType::Record(g, _) = ft2 {
                            lemma_slice_translated_to_corresponds(
                                os,
                                sm,
                                m,
                                record_vars(f),
                                record_vars(g),
                            );
                        }
                    }
                    FlatType::TagUnion(t, _) => {
                        if let FlatType::TagUnion(t2, _) = ft2 {
                            lemma_tags_translated_to_correspond(os, sm, m, t, t2);
                        }
                    }
                    FlatType::RecursiveTagUnion(_, t, _) => {
                        if let FlatType::RecursiveTagUnion(_, t2, _) = ft2 {
                            lemma_tags_translated_to_correspond(os, sm, m, t, t2);
                        }
                    }
                    _ => {}
                }
            }
        }
        _ => {}
    }
}

/// Reads the scratch mark of `w` as a mapping.
fn copy_image_exec(s: &Subs, w: Variable) -> (r: Variable)
    requires
        var_in(*s, w),
    ensures
        r == copy_image(*s, w),
{
    match s.utable[w.0].copy {
        Some(c) => c,
        None => w,
    }
}

/// Clones one interned slice of variables: reserves its destination range,
/// then fills it with the scratch-mark image of each source entry.
fn copy_var_slice(subs: &mut Subs, sl: VarSlice) -> (r: VarSlice)
    requires
        subs_wf(*old(subs)),
        slice_in_vars(*old(subs), sl),
    ensures
        subs_wf(*final(subs)),
        r.start == old(subs).variables@.len(),
        r.length == sl.length,
        final(subs).variables@.len() == old(subs).variables@.len() + sl.length,
        old(subs).variables@.is_prefix_of(final(subs).variables@),
        final(subs).utable == old(subs).utable,
        final(subs).variable_slices == old(subs).variable_slices,
        final(subs).tag_names == old(subs).tag_names,
        final(subs).field_names == old(subs).field_names,
        final(subs).record_fields == old(subs).record_fields,
        slice_translated(*final(subs), sl, r),
{
    let start = subs.variables.len();
    let mut k: usize = 0;
    while k < sl.length
        invariant
            slice_in_vars(*old(subs), sl),
            start == old(subs).variables@.len(),
            k <= sl.length,
            subs.variables@.len() == start + k,
            old(subs).variables@.is_prefix_of(subs.variables@),
            forall|i: int|
                start <= i < start + k ==> subs.variables@[i] == old(subs).variables@[sl.start + (
                i - start)],
            subs.utable == old(subs).utable,
            subs.variable_slices == old(subs).variable_slices,
            subs.tag_names == old(subs).tag_names,
            subs.field_names == old(subs).field_names,
            subs.record_fields == old(subs).record_fields,
        decreases sl.length - k,
    {
        let w = subs.variables[sl.start + k];
        subs.variables.push(w);
        proof {
            assert(old(subs).variables@ =~= subs.variables@.subrange(0, start as int));
        }
        k = k + 1;
    }
    let mut k2: usize = 0;
    while k2 < sl.length
        invariant
            subs_wf(*old(subs)),
            slice_in_vars(*old(subs), sl),
            start == old(subs).variables@.len(),
            k2 <= sl.length,
            subs.variables@.len() == start + sl.length,
            old(subs).variables@.is_prefix_of(subs.variables@),
            forall|i: int|
                start + k2 <= i < start + sl.length ==> subs.variables@[i] == old(
                    subs,
                ).variables@[sl.start + (i - start)],
            forall|i: int|
                start <= i < start + k2 ==> subs.variables@[i] == copy_image(
                    *old(subs),
                    old(subs).variables@[sl.start + (i - start)],
                ),
            subs.utable == old(subs).utable,
            subs.variable_slices == old(subs).variable_slices,
            subs.tag_names == old(subs).tag_names,
            subs.field_names == old(subs).field_names,
            subs.record_fields == old(subs).record_fields,
        decreases sl.length - k2,
    {
        let n = subs.variables.len();
        let w = subs.variables[start + k2];
        proof {
            assert(w == old(subs).variables@[sl.start + k2]);
            assert(var_in(*old(subs), old(subs).variables@[sl.start + k2]));
        }
        let img = copy_image_exec(subs, w);
        subs.variables.set(start + k2, img);
        proof {
            assert(old(subs).variables@ =~= subs.variables@.subrange(0, start as int));
        }
        k2 = k2 + 1;
    }
    let r = VarSlice { start, length: sl.length };
    proof {
        assert forall|i: int| 0 <= i < subs.variables@.len() implies var_in(
            *subs,
            #[trigger] subs.variables@[i],
        ) by {
            if i < start {
                assert(subs.variables@[i] == old(subs).variables@[i]);
                assert(var_in(*old(subs), old(subs).variables@[i]));
            } else {
                let w0 = old(subs).variables@[sl.start + (i - start)];
                assert(var_in(*old(subs), w0));
                assert(subs.variables@[i] == copy_image(*old(subs), w0));
                if old(subs).utable@[w0.0 as int].copy is Some {
                    assert(var_in(
                        *old(subs),
                        old(subs).utable@[w0.0 as int].copy.unwrap(),
                    ));
                }
            }
        }
        assert forall|i: int| 0 <= i < subs.variable_slices@.len() implies slice_in_vars(
            *subs,
            #[trigger] subs.variable_slices@[i],
        ) by {
            assert(slice_in_vars(*old(subs), old(subs).variable_slices@[i]));
        }
        assert forall|i: int| 0 <= i < subs.utable@.len() implies content_wf(
            *subs,
            (#[trigger] subs.utable@[i]).content,
        ) by {
            crate::subs::lemma_content_wf_grows(
                *old(subs),
                *subs,
                old(subs).utable@[i].content,
            );
        }
        assert(subs_wf(*subs));
        assert forall|k3: int| 0 <= k3 < sl.length implies slice_vars(*subs, r)[k3] == copy_image(
            *subs,
            #[trigger] slice_vars(*subs, sl)[k3],
        ) by {
            assert(slice_vars(*subs, sl)[k3] == subs.variables@[sl.start + k3]);
            assert(subs.variables@[sl.start + k3] == old(subs).variables@[sl.start + k3]);
            assert(slice_vars(*subs, r)[k3] == subs.variables@[start + k3]);
            assert(subs.variables@[start + k3] == copy_image(
                *old(subs),
                old(subs).variables@[sl.start + k3],
            ));
        }
    }
    r
}

/// Clones the payload slices of a union: reserves the destination range of
/// slice handles first, then clones each payload slice into its slot.
fn copy_union_tags(subs: &mut Subs, t: UnionTags) -> (t2: UnionTags)
    requires
        subs_wf(*old(subs)),
        union_tags_wf(*old(subs), t),
    ensures
        subs_wf(*final(subs)),
        final(subs).utable == old(subs).utable,
        final(subs).tag_names == old(subs).tag_names,
        final(subs).field_names == old(subs).field_names,
        final(subs).record_fields == old(subs).record_fields,
        old(subs).variables@.is_prefix_of(final(subs).variables@),
        old(subs).variable_slices@.is_prefix_of(final(subs).variable_slices@),
        tags_translated(*final(subs), t, t2),
{
    let start2 = subs.reserve_variable_slices(t.length);
    let mut i: usize = 0;
    while i < t.length
        invariant
            subs_wf(*subs),
            subs_wf(*old(subs)),
            union_tags_wf(*old(subs), t),
            start2 == old(subs).variable_slices@.len(),
            subs.variable_slices@.len() == start2 + t.length,
            i <= t.length,
            subs.utable == old(subs).utable,
            subs.tag_names == old(subs).tag_names,
            subs.field_names == old(subs).field_names,
            subs.record_fields == old(subs).record_fields,
            old(subs).variables@.is_prefix_of(subs.variables@),
            old(subs).variable_slices@.is_prefix_of(subs.variable_slices@),
            forall|ii: int|
                0 <= ii < i ==> slice_translated(
                    *subs,
                    tag_payload(*subs, t, ii),
                    #[trigger] subs.variable_slices@[start2 + ii],
                ),
        decreases t.length - i,
    {
        let n = subs.variable_slices.len();
        let sl = subs.variable_slices[t.variables_start + i];
        proof {
            assert(sl == old(subs).variable_slices@[t.variables_start + i]);
            assert(slice_in_vars(*subs, subs.variable_slices@[t.variables_start + i]));
        }
        let ghost pre = *subs;
        let b = copy_var_slice(subs, sl);
        let ghost mid = *subs;
        subs.set_variable_slice(start2 + i, b);
        proof {
            assert(old(subs).variable_slices@ =~= subs.variable_slices@.subrange(
                0,
                start2 as int,
            ));
            assert forall|ii: int| 0 <= ii < i + 1 implies slice_translated(
                *subs,
                tag_payload(*subs, t, ii),
                #[trigger] subs.variable_slices@[start2 + ii],
            ) by {
                assert(tag_payload(*subs, t, ii) == old(subs).variable_slices@[t.variables_start
                    + ii]);
                if ii < i {
                    assert(subs.variable_slices@[start2 + ii] == pre.variable_slices@[start2
                        + ii]);
                    assert(tag_payload(pre, t, ii) == tag_payload(*subs, t, ii));
                    lemma_slice_translated_grows(
                        pre,
                        *subs,
                        tag_payload(pre, t, ii),
                        pre.variable_slices@[start2 + ii],
                    );
                } else {
                    assert(subs.variable_slices@[start2 + ii] == b);
                    assert(mid.variables@.is_prefix_of(subs.variables@)) by {
                        assert(mid.variables@ =~= subs.variables@.subrange(
                            0,
                            mid.variables@.len() as int,
                        ));
                    }
                    lemma_slice_translated_grows(mid, *subs, sl, b);
                }
            }
        }
        i = i + 1;
    }
    let t2 = UnionTags {
        length: t.length,
        tag_names_start: t.tag_names_start,
        variables_start: start2,
    };
    proof {
        assert forall|ii: int| 0 <= ii < t.length implies slice_translated(
            *subs,
            tag_payload(*subs, t, ii),
            #[trigger] tag_payload(*subs, t2, ii),
        ) by {
            assert(tag_payload(*subs, t2, ii) == subs.variable_slices@[start2 + ii]);
        }
    }
    t2
}

/// Builds the content of a fresh descriptor: structurally identical to `c`,
/// with every nested variable replaced by its scratch-mark image and every
/// slice freshly interned; tag names, field names and field kinds are
/// shared, not duplicated.
fn translate_content(subs: &mut Subs, c: Content) -> (r: Content)
    requires
        subs_wf(*old(subs)),
        content_wf(*old(subs), c),
    ensures
        subs_wf(*final(subs)),
        final(subs).utable == old(subs).utable,
        final(subs).tag_names == old(subs).tag_names,
        final(subs).field_names == old(subs).field_names,
        final(subs).record_fields == old(subs).record_fields,
        old(subs).variables@.is_prefix_of(final(subs).variables@),
        old(subs).variable_slices@.is_prefix_of(final(subs).variable_slices@),
        content_wf(*final(subs), r),
        content_translated(*final(subs), c, r),
{
    proof {
        assert(old(subs).variables@.is_prefix_of(old(subs).variables@)) by {
            assert(old(subs).variables@ =~= old(subs).variables@.subrange(
                0,
                old(subs).variables@.len() as int,
            ));
        }
        assert(old(subs).variable_slices@.is_prefix_of(old(subs).variable_slices@)) by {
            assert(old(subs).variable_slices@ =~= old(subs).variable_slices@.subrange(
                0,
                old(subs).variable_slices@.len() as int,
            ));
        }
    }
    match c {
        Content::FlexVar(n) => Content::FlexVar(n),
        Content::FlexAbleVar(n, a) => Content::FlexAbleVar(n, a),
        Content::RigidVar(n) => Content::RigidVar(n),
        Content::RigidAbleVar(n, a) => Content::RigidAbleVar(n, a),
        Content::Error => Content::Error,
        Content::RecursionVar { structure, opt_name } => {
            let st = copy_image_exec(subs, structure);
            Content::RecursionVar { structure: st, opt_name }
        }
        Content::Alias(sym, args, real_var, kind) => {
            let b = copy_var_slice(subs, args.all_variables());
            let new_real = copy_image_exec(subs, real_var);
            let args2 = AliasVariables {
                variables_start: b.start,
                type_variables_len: args.type_variables_len,
                all_variables_len: args.all_variables_len,
            };
            proof {
                assert(alias_vars(args2) == b);
            }
            Content::Alias(sym, args2, new_real, kind)
        }
        Content::RangedNumber(t, r) => {
            let b = copy_var_slice(subs, r);
            let t2 = copy_image_exec(subs, t);
            Content::RangedNumber(t2, b)
        }
        Content::Structure(ft) => match ft {
            FlatType::EmptyRecord => Content::Structure(FlatType::EmptyRecord),
            FlatType::EmptyTagUnion => Content::Structure(FlatType::EmptyTagUnion),
            FlatType::Erroneous => Content::Structure(FlatType::Erroneous),
            FlatType::Apply(sym, args) => {
                let b = copy_var_slice(subs, args);
                Content::Structure(FlatType::Apply(sym, b))
            }
            FlatType::Func(args, clos, ret) => {
                let b = copy_var_slice(subs, args);
                let clos2 = copy_image_exec(subs, clos);
                let ret2 = copy_image_exec(subs, ret);
                Content::Structure(FlatType::Func(b, clos2, ret2))
            }
            FlatType::Record(f, ext) => {
                let b = copy_var_slice(
                    subs,
                    VarSlice { start: f.variables_start, length: f.length },
                );
                let ext2 = copy_image_exec(subs, ext);
                let g = RecordFields {
                    length: f.length,
                    field_names_start: f.field_names_start,
                    variables_start: b.start,
                    field_types_start: f.field_types_start,
                };
                proof {
                    assert(record_vars(g) == b);
                }
                Content::Structure(FlatType::Record(g, ext2))
            }
            FlatType::FunctionOrTagUnion(tn, sym, ext) => {
                let ext2 = copy_image_exec(subs, ext);
                Content::Structure(FlatType::FunctionOrTagUnion(tn, sym, ext2))
            }
            FlatType::TagUnion(t, ext) => {
                let t2 = copy_union_tags(subs, t);
                let ext2 = copy_image_exec(subs, ext);
                Content::Structure(FlatType::TagUnion(t2, ext2))
            }
            FlatType::RecursiveTagUnion(rec, t, ext) => {
                let t2 = copy_union_tags(subs, t);
                let rec2 = copy_image_exec(subs, rec);
                let ext2 = copy_image_exec(subs, ext);
                Content::Structure(FlatType::RecursiveTagUnion(rec2, t2, ext2))
            }
        },
    }
}

pub proof fn lemma_in_firsts_push(m: Seq<(Variable, Variable)>, p: (Variable, Variable))
    ensures
        forall|w: Variable| #![trigger in_firsts(m.push(p), w)]
            in_firsts(m.push(p), w) <==> (in_firsts(m, w) || w == p.0),
{
    assert forall|w: Variable| in_firsts(m.push(p), w) implies (in_firsts(m, w) || w == p.0) by {
        let j = choose|j: int| 0 <= j < m.push(p).len() && m.push(p)[j].0 == w;
        if j < m.len() {
            assert(m[j].0 == w);
        }
    }
    assert forall|w: Variable| (in_firsts(m, w) || w == p.0) implies in_firsts(m.push(p), w) by {
        if in_firsts(m, w) {
            let j = choose|j: int| 0 <= j < m.len() && m[j].0 == w;
            assert(m.push(p)[j].0 == w);
        } else {
            assert(m.push(p)[m.len() as int].0 == w);
        }
    }
}

pub proof fn lemma_map_var_push_preserved(m: Seq<(Variable, Variable)>, p: (Variable, Variable), w: Variable)
    requires
        distinct_firsts(m.push(p)),
        in_firsts(m, w),
    ensures
        map_var(m.push(p), w) == map_var(m, w),
{
    assert(distinct_firsts(m)) by {
        assert forall|i: int, j: int| 0 <= i < j < m.len() implies m[i].0 != m[j].0 by {
            assert(m.push(p)[i] == m[i]);
            assert(m.push(p)[j] == m[j]);
        }
    }
    let j = choose|j: int| 0 <= j < m.len() && m[j].0 == w;
    assert(m.push(p)[j] == m[j]);
    lemma_map_var_at(m, j);
    lemma_map_var_at(m.push(p), j);
}

pub proof fn lemma_prefix_refl<T>(s: Seq<T>)
    ensures
        s.is_prefix_of(s),
{
    assert(s =~= s.subrange(0, s.len() as int));
}

/// A store with the same interning pools and at least as many descriptors
/// extends the other.
pub proof fn lemma_grows_same_pools(a: Subs, b: Subs)
    requires
        b.variables == a.variables,
        b.variable_slices == a.variable_slices,
        b.tag_names == a.tag_names,
        b.field_names == a.field_names,
        b.record_fields == a.record_fields,
        a.utable@.len() <= b.utable@.len(),
    ensures
        grows(a, b),
{
    lemma_prefix_refl(a.variables@);
    lemma_prefix_refl(a.variable_slices@);
    lemma_prefix_refl(a.tag_names@);
    lemma_prefix_refl(a.field_names@);
    lemma_prefix_refl(a.record_fields@);
}

/// What one deep-copy call guarantees: `os` is the store before the call,
/// `ns` the store after it, `m` the returned mapping and `root` the copied
/// variable.
///
/// - the store is still well formed, only extended, and every scratch mark
///   is clean again; the first `os` descriptors are untouched;
/// - `m` pairs each reachable variable that leads to a generic-parameter
///   variable — and no other — with exactly one fresh variable;
/// - the mapping is empty exactly when nothing reachable from `root` is a
///   generic-parameter variable, and then the store is unchanged;
/// - each fresh descriptor keeps the original's rank and mark, and its
///   content is the original content with every nested variable replaced by
///   its image under the mapping (the original where no pair exists);
/// - a generic-parameter variable's fresh copy carries its content —
///   optional name and ability constraint — unchanged.
pub open spec fn deep_copy_post(
    os: Subs,
    ns: Subs,
    m: Seq<(Variable, Variable)>,
    root: Variable,
) -> bool {
    &&& subs_wf(ns)
    &&& copies_clean(ns)
    &&& grows(os, ns)
    &&& ns.utable@.len() == os.utable@.len() + m.len()
    &&& distinct_firsts(m)
    &&& forall|j: int| 0 <= j < m.len() ==> (#[trigger] m[j]).1.0 == os.utable@.len() + j
    &&& forall|j: int| 0 <= j < m.len() ==> var_in(os, (#[trigger] m[j]).0)
    &&& forall|j: int| 0 <= j < m.len() ==> (#[trigger] m[j]).1 != m[j].0
    &&& forall|w: Variable|
        #![trigger in_firsts(m, w)]
        #![trigger needs_copy(os, w)]
        in_firsts(m, w) <==> (reaches(os, root, w) && needs_copy(os, w))
    &&& (m.len() > 0 <==> needs_copy(os, root))
    &&& (m.len() > 0 ==> m.last().0 == root)
    &&& forall|i: int| 0 <= i < os.utable@.len() ==> (#[trigger] ns.utable@[i]) == os.utable@[i]
    &&& forall|j: int|
        0 <= j < m.len() ==> ns.utable@[(#[trigger] m[j]).1.0 as int].rank
            == os.utable@[m[j].0.0 as int].rank
    &&& forall|j: int|
        0 <= j < m.len() ==> ns.utable@[(#[trigger] m[j]).1.0 as int].mark
            == os.utable@[m[j].0.0 as int].mark
    &&& forall|j: int|
        0 <= j < m.len() ==> content_corresponds(
            os,
            ns,
            m,
            os.utable@[(#[trigger] m[j]).0.0 as int].content,
            ns.utable@[m[j].1.0 as int].content,
        )
    &&& forall|j: int|
        0 <= j < m.len() && is_generic(os.utable@[(#[trigger] m[j]).0.0 as int].content)
            ==> ns.utable@[m[j].1.0 as int].content == os.utable@[m[j].0.0 as int].content
    &&& (m.len() == 0 ==> ns.utable@ == os.utable@ && ns.variables@ == os.variables@
        && ns.variable_slices@ == os.variable_slices@ && ns.tag_names@ == os.tag_names@
        && ns.field_names@ == os.field_names@ && ns.record_fields@ == os.record_fields@)
}

/// Deep copies the type variables in the type rooted at `var`, returning the
/// (original, fresh) pairs in the order the walk completed them.
///
/// Exactly the reachable variables from which a generic-parameter variable
/// can be reached are paired with a fresh variable, each exactly once;
/// closed substructure is shared, shared and cyclic substructure is copied
/// once, and the walk terminates on cyclic (recursive) types. When nothing
/// reachable is a generic-parameter variable the store is left untouched and
/// the result is empty. Afterwards no descriptor retains a scratch mark.
#[verifier::rlimit(100)]
pub fn deep_copy_type_vars(subs: &mut Subs, var: Variable) -> (copied: Vec<(Variable, Variable)>)
    requires
        subs_wf(*old(subs)),
        copies_clean(*old(subs)),
        var_in(*old(subs), var),
    ensures
        deep_copy_post(*old(subs), *final(subs), copied@, var),
{
    let ghost os = *subs;
    let order = reachable_postorder(subs, var);
    let needs = compute_needs(subs, &order);
    let mut copied: Vec<(Variable, Variable)> = Vec::new();
    let mut i: usize = 0;
    while i < order.len()
        invariant
            subs_wf(*subs),
            subs_wf(os),
            copies_clean(os),
            var_in(os, var),
            forall|w: Variable| #[trigger] order@.contains(w) <==> reaches(os, var, w),
            order@.len() > 0 && order@.last() == var,
            distinct_vars(order@),
            forall|w: Variable| #[trigger] order@.contains(w) ==> var_in(os, w),
            needs@.len() == os.utable@.len(),
            forall|w: Variable|
                #[trigger] order@.contains(w) ==> (needs@[w.0 as int] <==> needs_copy(os, w)),
            subs.variables == os.variables,
            subs.variable_slices == os.variable_slices,
            subs.tag_names == os.tag_names,
            subs.field_names == os.field_names,
            subs.record_fields == os.record_fields,
            subs.utable@.len() == os.utable@.len() + copied@.len(),
            i <= order@.len(),
            forall|j: int|
                0 <= j < copied@.len() ==> (#[trigger] copied@[j]).1.0 == os.utable@.len() + j,
            forall|j: int|
                0 <= j < copied@.len() ==> var_in(os, (#[trigger] copied@[j]).0)
                    && order@.contains(copied@[j].0) && needs@[(copied@[j]).0.0 as int],
            distinct_firsts(copied@),
            forall|w: Variable|
                #[trigger] in_firsts(copied@, w) <==> (exists|jj: int|
                    0 <= jj < i && order@[jj] == w && needs@[w.0 as int]),
            i == order@.len() && needs@[var.0 as int] ==> copied@.len() > 0 && copied@.last().0
                == var,
            forall|w: Variable|
                var_in(os, w) ==> (#[trigger] subs.utable@[w.0 as int]).content == os.utable@[w.0
                    as int].content && subs.utable@[w.0 as int].rank == os.utable@[w.0 as int].rank
                    && subs.utable@[w.0 as int].mark == os.utable@[w.0 as int].mark,
            forall|w: Variable|
                var_in(os, w) ==> (#[trigger] subs.utable@[w.0 as int]).copy == (if in_firsts(
                    copied@,
                    w,
                ) {
                    Some(map_var(copied@, w))
                } else {
                    None::<Variable>
                }),
            forall|j: int|
                0 <= j < copied@.len() ==> (#[trigger] subs.utable@[os.utable@.len() + j])
                    == (Descriptor {
                    content: os.utable@[(copied@[j]).0.0 as int].content,
                    rank: os.utable@[(copied@[j]).0.0 as int].rank,
                    mark: os.utable@[(copied@[j]).0.0 as int].mark,
                    copy: None,
                }),
        decreases order@.len() - i,
    {
        let v = order[i];
        proof {
            assert(order@.contains(order@[i as int]));
        }
        if needs[v.0] {
            let d = *subs.get(v);
            let ghost pre = *subs;
            let ghost prec = copied@;
            proof {
                lemma_grows_same_pools(os, pre);
                assert(content_wf(os, (os.utable@[v.0 as int]).content));
                crate::subs::lemma_content_wf_grows(os, pre, os.utable@[v.0 as int].content);
            }
            let c = subs.fresh(
                Descriptor { content: d.content, rank: d.rank, mark: d.mark, copy: None },
            );
            subs.set_copy(v, Some(c));
            copied.push((v, c));
            proof {
                lemma_in_firsts_push(prec, (v, c));
                assert(!in_firsts(prec, v)) by {
                    if in_firsts(prec, v) {
                        let jj = choose|jj: int| 0 <= jj < i && order@[jj] == v && needs@[v.0 as int];
                        assert(order@[jj] != order@[i as int]);
                        assert(false);
                    }
                }
                assert(distinct_firsts(copied@)) by {
                    assert forall|a: int, b: int| 0 <= a < b < copied@.len() implies copied@[a].0
                        != copied@[b].0 by {
                        if b < prec.len() {
                            assert(copied@[a] == prec[a]);
                            assert(copied@[b] == prec[b]);
                        } else {
                            assert(copied@[b] == (v, c));
                            assert(copied@[a] == prec[a]);
                            assert(in_firsts(prec, prec[a].0));
                        }
                    }
                }
                assert forall|w: Variable| var_in(os, w) implies (
                #[trigger] subs.utable@[w.0 as int]).copy == (if in_firsts(copied@, w) {
                    Some(map_var(copied@, w))
                } else {
                    None::<Variable>
                }) by {
                    if w == v {
                        lemma_map_var_at(copied@, prec.len() as int);
                        assert(copied@[prec.len() as int] == (v, c));
                        assert(subs.utable@[w.0 as int].copy == Some(c));
                    } else {
                        assert(subs.utable@[w.0 as int] == pre.utable@[w.0 as int]);
                        if in_firsts(prec, w) {
                            lemma_map_var_push_preserved(prec, (v, c), w);
                        }
                    }
                }
                assert forall|w: Variable|
                    #[trigger] in_firsts(copied@, w) <==> (exists|jj: int|
                        0 <= jj < i + 1 && order@[jj] == w && needs@[w.0 as int]) by {
                    if in_firsts(copied@, w) {
                        if w == v {
                            assert(order@[i as int] == w && needs@[w.0 as int]);
                        } else {
                            let jj = choose|jj: int|
                                0 <= jj < i && order@[jj] == w && needs@[w.0 as int];
                            assert(0 <= jj < i + 1 && order@[jj] == w && needs@[w.0 as int]);
                        }
                    } else {
                        if exists|jj: int| 0 <= jj < i + 1 && order@[jj] == w && needs@[w.0 as int] {
                            let jj = choose|jj: int|
                                0 <= jj < i + 1 && order@[jj] == w && needs@[w.0 as int];
                            if jj == i {
                                assert(w == v);
                                assert(in_firsts(copied@, w));
                            } else {
                                assert(in_firsts(prec, w));
                                assert(in_firsts(copied@, w));
                            }
                            assert(false);
                        }
                    }
                }
            }
        } else {
            proof {
                assert forall|w: Variable|
                    #[trigger] in_firsts(copied@, w) <==> (exists|jj: int|
                        0 <= jj < i + 1 && order@[jj] == w && needs@[w.0 as int]) by {
                    if !in_firsts(copied@, w) {
                        if exists|jj: int| 0 <= jj < i + 1 && order@[jj] == w && needs@[w.0 as int] {
                            let jj = choose|jj: int|
                                0 <= jj < i + 1 && order@[jj] == w && needs@[w.0 as int];
                            if jj == i {
                                assert(w == order@[i as int]);
                                assert(!needs@[w.0 as int]);
                            }
                            assert(exists|jj2: int|
                                0 <= jj2 < i && order@[jj2] == w && needs@[w.0 as int]);
                            assert(false);
                        }
                    }
                }
            }
        }
        i = i + 1;
    }
    proof {
        assert forall|w: Variable| #[trigger]
            in_firsts(copied@, w) <==> (reaches(os, var, w) && needs_copy(os, w)) by {
            if in_firsts(copied@, w) {
                let jj = choose|jj: int|
                    0 <= jj < order@.len() && order@[jj] == w && needs@[w.0 as int];
                assert(order@.contains(order@[jj]));
                assert(reaches(os, var, w));
                assert(needs_copy(os, w));
            } else {
                if reaches(os, var, w) && needs_copy(os, w) {
                    assert(order@.contains(w));
                    let jj = choose|jj: int| 0 <= jj < order@.len() && order@[jj] == w;
                    assert(needs@[w.0 as int]);
                    assert(exists|jj2: int|
                        0 <= jj2 < order@.len() && order@[jj2] == w && needs@[w.0 as int]);
                    assert(false);
                }
            }
        }
    }
    let ghost m = copied@;
    let mut j: usize = 0;
    while j < copied.len()
        invariant
            subs_wf(*subs),
            subs_wf(os),
            copies_clean(os),
            copied@ == m,
            distinct_firsts(m),
            subs.utable@.len() == os.utable@.len() + m.len(),
            j <= m.len(),
            os.variables@.is_prefix_of(subs.variables@),
            os.variable_slices@.is_prefix_of(subs.variable_slices@),
            m.len() == 0 ==> subs.variables == os.variables && subs.variable_slices
                == os.variable_slices,
            subs.tag_names == os.tag_names,
            subs.field_names == os.field_names,
            subs.record_fields == os.record_fields,
            forall|jj: int| 0 <= jj < m.len() ==> (#[trigger] m[jj]).1.0 == os.utable@.len() + jj,
            forall|jj: int| 0 <= jj < m.len() ==> var_in(os, (#[trigger] m[jj]).0),
            forall|w: Variable|
                var_in(os, w) ==> (#[trigger] subs.utable@[w.0 as int]).content == os.utable@[w.0
                    as int].content && subs.utable@[w.0 as int].rank == os.utable@[w.0 as int].rank
                    && subs.utable@[w.0 as int].mark == os.utable@[w.0 as int].mark,
            forall|w: Variable|
                var_in(os, w) ==> (#[trigger] subs.utable@[w.0 as int]).copy == (if in_firsts(
                    m,
                    w,
                ) {
                    Some(map_var(m, w))
                } else {
                    None::<Variable>
                }),
            forall|jj: int|
                0 <= jj < m.len() ==> (#[trigger] subs.utable@[(m[jj]).1.0 as int]).rank
                    == os.utable@[(m[jj]).0.0 as int].rank && subs.utable@[(m[jj]).1.0
                    as int].mark == os.utable@[(m[jj]).0.0 as int].mark && subs.utable@[(
                m[jj]).1.0 as int].copy == None::<Variable>,
            forall|jj: int|
                j <= jj < m.len() ==> (#[trigger] subs.utable@[(m[jj]).1.0 as int]).content
                    == os.utable@[(m[jj]).0.0 as int].content,
            forall|jj: int|
                0 <= jj < j ==> content_corresponds(
                    os,
                    *subs,
                    m,
                    os.utable@[(#[trigger] m[jj]).0.0 as int].content,
                    subs.utable@[(m[jj]).1.0 as int].content,
                ),
        decreases m.len() - j,
    {
        let p = copied[j];
        let d = *subs.get(p.0);
        let ghost pre = *subs;
        proof {
            assert(d.content == os.utable@[p.0.0 as int].content);
            assert(content_wf(os, (os.utable@[p.0.0 as int]).content));
            assert(grows(os, pre)) by {
                lemma_prefix_refl(os.tag_names@);
                lemma_prefix_refl(os.field_names@);
                lemma_prefix_refl(os.record_fields@);
            }
            crate::subs::lemma_content_wf_grows(os, pre, d.content);
        }
        let newc = translate_content(subs, d.content);
        let ghost mid = *subs;
        proof {
            assert forall|w: Variable| var_in(os, w) implies copy_image(mid, w) == map_var(
                m,
                w,
            ) by {
                assert(mid.utable == pre.utable);
                assert(mid.utable@[w.0 as int] == pre.utable@[w.0 as int]);
            }
            lemma_translated_to_corresponds(os, mid, m, d.content, newc);
        }
        subs.set_content(p.1, newc);
        proof {
            assert(mid.variables@.is_prefix_of(subs.variables@)) by {
                lemma_prefix_refl(mid.variables@);
            }
            assert(mid.variable_slices@.is_prefix_of(subs.variable_slices@)) by {
                lemma_prefix_refl(mid.variable_slices@);
            }
            assert(os.variables@.is_prefix_of(subs.variables@));
            assert(os.variable_slices@.is_prefix_of(subs.variable_slices@));
            assert forall|jj: int| 0 <= jj < j + 1 implies content_corresponds(
                os,
                *subs,
                m,
                os.utable@[(#[trigger] m[jj]).0.0 as int].content,
                subs.utable@[(m[jj]).1.0 as int].content,
            ) by {
                if jj < j {
                    assert((m[jj]).1.0 != (m[j as int]).1.0);
                    assert(subs.utable@[(m[jj]).1.0 as int] == pre.utable@[(m[jj]).1.0 as int]);
                    lemma_content_corresponds_ns_grows(
                        os,
                        pre,
                        *subs,
                        m,
                        os.utable@[(m[jj]).0.0 as int].content,
                        pre.utable@[(m[jj]).1.0 as int].content,
                    );
                } else {
                    assert(subs.utable@[(m[jj]).1.0 as int].content == newc);
                    lemma_content_corresponds_ns_grows(
                        os,
                        mid,
                        *subs,
                        m,
                        os.utable@[(m[jj]).0.0 as int].content,
                        newc,
                    );
                }
            }
        }
        j = j + 1;
    }
    let mut e: usize = 0;
    while e < copied.len()
        invariant
            subs_wf(*subs),
            subs_wf(os),
            copies_clean(os),
            copied@ == m,
            distinct_firsts(m),
            subs.utable@.len() == os.utable@.len() + m.len(),
            e <= m.len(),
            os.variables@.is_prefix_of(subs.variables@),
            os.variable_slices@.is_prefix_of(subs.variable_slices@),
            m.len() == 0 ==> subs.variables == os.variables && subs.variable_slices
                == os.variable_slices,
            subs.tag_names == os.tag_names,
            subs.field_names == os.field_names,
            subs.record_fields == os.record_fields,
            forall|jj: int| 0 <= jj < m.len() ==> (#[trigger] m[jj]).1.0 == os.utable@.len() + jj,
            forall|jj: int| 0 <= jj < m.len() ==> var_in(os, (#[trigger] m[jj]).0),
            forall|w: Variable|
                var_in(os, w) ==> (#[trigger] subs.utable@[w.0 as int]).content == os.utable@[w.0
                    as int].content && subs.utable@[w.0 as int].rank == os.utable@[w.0 as int].rank
                    && subs.utable@[w.0 as int].mark == os.utable@[w.0 as int].mark,
            forall|w: Variable|
                var_in(os, w) ==> (#[trigger] subs.utable@[w.0 as int]).copy == (if in_firsts(
                    m,
                    w,
                ) && !(exists|jj: int| 0 <= jj < e && (m[jj]).0 == w) {
                    Some(map_var(m, w))
                } else {
                    None::<Variable>
                }),
            forall|jj: int|
                0 <= jj < m.len() ==> (#[trigger] subs.utable@[(m[jj]).1.0 as int]).rank
                    == os.utable@[(m[jj]).0.0 as int].rank && subs.utable@[(m[jj]).1.0
                    as int].mark == os.utable@[(m[jj]).0.0 as int].mark && subs.utable@[(
                m[jj]).1.0 as int].copy == None::<Variable>,
            forall|jj: int|
                0 <= jj < m.len() ==> content_corresponds(
                    os,
                    *subs,
                    m,
                    os.utable@[(#[trigger] m[jj]).0.0 as int].content,
                    subs.utable@[(m[jj]).1.0 as int].content,
                ),
        decreases m.len() - e,
    {
        let p = copied[e];
        let ghost pre = *subs;
        subs.set_copy(p.0, None);
        proof {
            assert forall|jj: int| 0 <= jj < m.len() implies content_corresponds(
                os,
                *subs,
                m,
                os.utable@[(#[trigger] m[jj]).0.0 as int].content,
                subs.utable@[(m[jj]).1.0 as int].content,
            ) by {
                assert((m[jj]).1.0 >= os.utable@.len());
                assert(subs.utable@[(m[jj]).1.0 as int] == pre.utable@[(m[jj]).1.0 as int]);
                lemma_content_corresponds_ns_grows(
                    os,
                    pre,
                    *subs,
                    m,
                    os.utable@[(m[jj]).0.0 as int].content,
                    pre.utable@[(m[jj]).1.0 as int].content,
                );
                assert(pre.variables@.is_prefix_of(subs.variables@)) by {
                    lemma_prefix_refl(pre.variables@);
                }
                assert(pre.variable_slices@.is_prefix_of(subs.variable_slices@)) by {
                    lemma_prefix_refl(pre.variable_slices@);
                }
            }
            assert forall|w: Variable|
                var_in(os, w) implies (#[trigger] subs.utable@[w.0 as int]).copy == (if in_firsts(
                m,
                w,
            ) && !(exists|jj: int| 0 <= jj < e + 1 && (m[jj]).0 == w) {
                Some(map_var(m, w))
            } else {
                None::<Variable>
            }) by {
                if w == p.0 {
                    assert((m[e as int]).0 == w);
                } else {
                    assert(subs.utable@[w.0 as int] == pre.utable@[w.0 as int]);
                    if exists|jj: int| 0 <= jj < e + 1 && (m[jj]).0 == w {
                        let jj = choose|jj: int| 0 <= jj < e + 1 && (m[jj]).0 == w;
                        assert(jj < e);
                        assert(exists|jj2: int| 0 <= jj2 < e && (m[jj2]).0 == w);
                    }
                }
            }
        }
        e = e + 1;
    }
    let total = subs.utable.len();
    proof {
        assert(total == subs.utable@.len());
        assert(copies_clean(*subs)) by {
            assert forall|idx: int| 0 <= idx < subs.utable@.len() implies (
            #[trigger] subs.utable@[idx]).copy == None::<Variable> by {
                if idx < os.utable@.len() {
                    let w = Variable(idx as usize);
                    assert(var_in(os, w));
                    if in_firsts(m, w) {
                        let jj = choose|jj: int| 0 <= jj < m.len() && m[jj].0 == w;
                        assert(exists|jj2: int| 0 <= jj2 < m.len() && (m[jj2]).0 == w);
                    }
                } else {
                    let jj = idx - os.utable@.len();
                    assert(subs.utable@[(m[jj]).1.0 as int].copy == None::<Variable>);
                    assert((m[jj]).1.0 == idx);
                }
            }
        }
        assert(grows(os, *subs)) by {
            lemma_prefix_refl(os.tag_names@);
            lemma_prefix_refl(os.field_names@);
            lemma_prefix_refl(os.record_fields@);
        }
        assert forall|idx: int| 0 <= idx < os.utable@.len() implies (#[trigger] subs.utable@[idx])
            == os.utable@[idx] by {
            let w = Variable(idx as usize);
            assert(var_in(os, w));
            assert(subs.utable@[idx].content == os.utable@[idx].content);
            assert(subs.utable@[idx].copy == None::<Variable>);
            assert(os.utable@[idx].copy == None::<Variable>);
        }
        if m.len() > 0 {
            assert(var_in(os, (m[0]).0));
            assert(in_firsts(m, (m[0]).0));
            lemma_needs_copy_via(os, var, (m[0]).0);
        }
        if needs_copy(os, var) {
            lemma_reaches_refl(os, var);
            assert(in_firsts(m, var));
            assert(m.len() > 0);
        }
        assert forall|jj: int|
            0 <= jj < m.len() && is_generic(os.utable@[(#[trigger] m[jj]).0.0 as int].content)
            implies subs.utable@[(m[jj]).1.0 as int].content == os.utable@[(m[jj]).0.0
            as int].content by {
            assert(content_corresponds(
                os,
                *subs,
                m,
                os.utable@[(m[jj]).0.0 as int].content,
                subs.utable@[(m[jj]).1.0 as int].content,
            ));
        }
        if m.len() == 0 {
            assert(subs.utable@ =~= os.utable@);
        }
        assert(deep_copy_post(os, *subs, copied@, var));
    }
    copied
}

/// Every variable that a deep copy pairs is sent to a strictly fresh
/// variable: its image lies among the newly appended descriptors and is
/// never the original itself nor any other pre-existing variable. In
/// particular, the recursion variable of a copied recursive structure points
/// into the new structure, never the old one.
pub proof fn lemma_fresh_image(
    os: Subs,
    ns: Subs,
    m: Seq<(Variable, Variable)>,
    root: Variable,
    w: Variable,
)
    requires
        deep_copy_post(os, ns, m, root),
        in_firsts(m, w),
    ensures
        os.utable@.len() <= map_var(m, w).0 < ns.utable@.len(),
        map_var(m, w) != w,
{
    let j = choose|j: int| 0 <= j < m.len() && m[j].0 == w;
    lemma_map_var_at(m, j);
    assert(m[j].1.0 == os.utable@.len() + j);
    assert(var_in(os, m[j].0));
}

/// Deep copies the type variables in the type rooted at `var` into `expr`:
/// the store gains the fresh descriptors, and the returned expression is a
/// structurally identical clone of `expr` with every embedded variable
/// substituted per the mapping. Returns `None` — and leaves the store
/// untouched — exactly when nothing reachable from `var` is a
/// generic-parameter variable, so that the expression needs no copy.
pub fn deep_copy_type_vars_into_expr(
    subs: &mut Subs,
    var: Variable,
    expr: &crate::expr::Expr,
) -> (r: Option<(Variable, crate::expr::Expr)>)
    requires
        subs_wf(*old(subs)),
        copies_clean(*old(subs)),
        var_in(*old(subs), var),
    ensures
        r is None <==> !needs_copy(*old(subs), var),
        exists|m: Seq<(Variable, Variable)>|
            #![trigger deep_copy_post(*old(subs), *final(subs), m, var)]
            deep_copy_post(*old(subs), *final(subs), m, var) && (match r {
                Some(p) => in_firsts(m, var) && p.0 == map_var(m, var) && crate::expr::expr_subst(
                    m,
                    *expr,
                    p.1,
                ),
                None => m.len() == 0,
            }),
{
    let ghost os = *subs;
    let substitutions = deep_copy_type_vars(subs, var);
    if substitutions.len() == 0 {
        proof {
            assert(deep_copy_post(os, *subs, substitutions@, var));
        }
        return None;
    }
    proof {
        assert(needs_copy(os, var));
        lemma_reaches_refl(os, var);
        assert(in_firsts(substitutions@, var));
    }
    let new_var = crate::expr::substitute_var(&substitutions, var);
    let new_expr = crate::expr::rewrite_expr(&substitutions, expr);
    proof {
        assert(deep_copy_post(os, *subs, substitutions@, var));
    }
    Some((new_var, new_expr))
}

} // verus!

//! The reachability structure of the substitution graph: which variables are
//! nested in a content, paths, reachability, and the "needs a copy" relation
//! that the deep-copy engine computes.

use vstd::prelude::*;
use crate::subs::{
    alias_vars, content_wf, record_vars, slice_in_vars, slice_vars, subs_wf, tag_payload,
    union_tags_wf, var_in, Content, FlatType, Subs, UnionTags, VarSlice, Variable,
};

verus! {

/// The four generic-parameter kinds: these are always cloned.
pub open spec fn is_generic(c: Content) -> bool {
    match c {
        Content::FlexVar(_) => true,
        Content::FlexAbleVar(_, _) => true,
        Content::RigidVar(_) => true,
        Content::RigidAbleVar(_, _) => true,
        _ => false,
    }
}

/// The content stored for a variable.
pub open spec fn content_of(s: Subs, v: Variable) -> Content {
    s.utable@[v.0 as int].content
}

/// Some payload slice of the union contains `w`.
pub open spec fn union_has_child(s: Subs, t: UnionTags, w: Variable) -> bool {
    exists|i: int| 0 <= i < t.length && slice_vars(s, #[trigger] tag_payload(s, t, i)).contains(w)
}

/// `w` is nested directly in the content `c`.
pub open spec fn content_has_child(s: Subs, c: Content, w: Variable) -> bool {
    match c {
        Content::FlexVar(_) => false,
        Content::FlexAbleVar(_, _) => false,
        Content::RigidVar(_) => false,
        Content::RigidAbleVar(_, _) => false,
        Content::RecursionVar { structure, opt_name: _ } => w == structure,
        Content::Alias(_, args, real_var, _) => w == real_var
            || slice_vars(s, alias_vars(args)).contains(w),
        Content::RangedNumber(t, r) => w == t || slice_vars(s, r).contains(w),
        Content::Error => false,
        Content::Structure(ft) => match ft {
            FlatType::Apply(_, args) => slice_vars(s, args).contains(w),
            FlatType::Func(args, clos, ret) => slice_vars(s, args).contains(w) || w == clos
                || w == ret,
            FlatType::Record(f, ext) => w == ext || slice_vars(s, record_vars(f)).contains(w),
            FlatType::TagUnion(t, ext) => w == ext || union_has_child(s, t, w),
            FlatType::FunctionOrTagUnion(_, _, ext) => w == ext,
            FlatType::RecursiveTagUnion(rec, t, ext) => w == rec || w == ext
                || union_has_child(s, t, w),
            FlatType::EmptyRecord => false,
            FlatType::EmptyTagUnion => false,
            FlatType::Erroneous => false,
        },
    }
}

/// `w` is nested directly in the content of the live variable `v`.
pub open spec fn edge(s: Subs, v: Variable, w: Variable) -> bool {
    var_in(s, v) && content_has_child(s, content_of(s, v), w)
}

/// Consecutive entries of `p` are edges of the substitution graph.
pub open spec fn is_path(s: Subs, p: Seq<Variable>) -> bool {
    forall|i: int| #![trigger p[i]] 0 <= i < p.len() - 1 ==> edge(s, p[i], p[i + 1])
}

/// `p` is a path leading from `v` to `w`.
pub open spec fn connects(s: Subs, p: Seq<Variable>, v: Variable, w: Variable) -> bool {
    &&& p.len() >= 1
    &&& p[0] == v
    &&& p[p.len() - 1] == w
    &&& is_path(s, p)
}

/// Some path (possibly of length one) leads from `v` to `w`.
pub open spec fn reaches(s: Subs, v: Variable, w: Variable) -> bool {
    exists|p: Seq<Variable>| connects(s, p, v, w)
}

/// The deep-copy engine must clone `v`: some generic-parameter variable is
/// reachable from it (possibly `v` itself).
pub open spec fn needs_copy(s: Subs, v: Variable) -> bool {
    exists|g: Variable| reaches(s, v, g) && is_generic(content_of(s, g))
}

pub proof fn lemma_reaches_refl(s: Subs, v: Variable)
    ensures
        reaches(s, v, v),
{
    let p = seq![v];
    assert(connects(s, p, v, v));
}

pub proof fn lemma_reaches_step(s: Subs, v: Variable, w: Variable)
    requires
        edge(s, v, w),
    ensures
        reaches(s, v, w),
{
    let p = seq![v, w];
    assert(p[0] == v);
    assert(p[1] == w);
    assert(connects(s, p, v, w));
}

pub proof fn lemma_reaches_trans(s: Subs, u: Variable, v: Variable, w: Variable)
    requires
        reaches(s, u, v),
        reaches(s, v, w),
    ensures
        reaches(s, u, w),
{
    let p = choose|p: Seq<Variable>| connects(s, p, u, v);
    let q = choose|q: Seq<Variable>| connects(s, q, v, w);
    if q.len() == 1 {
        assert(v == w);
        assert(connects(s, p, u, w));
    } else {
        let r = p + q.subrange(1, q.len() as int);
        assert(r.len() == p.len() + q.len() - 1);
        assert(r[0] == p[0]);
        assert(r[r.len() - 1] == q[q.len() - 1]);
        assert forall|i: int| #![trigger r[i]] 0 <= i < r.len() - 1 implies edge(s, r[i], r[i + 1]) by {
            if i < p.len() - 1 {
                assert(r[i] == p[i]);
                assert(r[i + 1] == p[i + 1]);
                assert(edge(s, p[i], p[i + 1]));
            } else if i == p.len() - 1 {
                assert(r[i] == p[i]);
                assert(p[i] == v);
                assert(r[i + 1] == q[1]);
                assert(edge(s, q[0], q[1]));
            } else {
                assert(r[i] == q[i - p.len() + 1]);
                assert(r[i + 1] == q[i - p.len() + 2]);
                let j = i - p.len() + 1;
                assert(edge(s, q[j], q[j + 1]));
            }
        }
        assert(connects(s, r, u, w));
    }
}

pub proof fn lemma_needs_copy_here(s: Subs, v: Variable)
    requires
        is_generic(content_of(s, v)),
    ensures
        needs_copy(s, v),
{
    lemma_reaches_refl(s, v);
}

pub proof fn lemma_needs_copy_step(s: Subs, v: Variable, w: Variable)
    requires
        edge(s, v, w),
        needs_copy(s, w),
    ensures
        needs_copy(s, v),
{
    let g = choose|g: Variable| reaches(s, w, g) && is_generic(content_of(s, g));
    lemma_reaches_step(s, v, w);
    lemma_reaches_trans(s, v, w, g);
}

pub proof fn lemma_needs_copy_via(s: Subs, u: Variable, v: Variable)
    requires
        reaches(s, u, v),
        needs_copy(s, v),
    ensures
        needs_copy(s, u),
{
    let g = choose|g: Variable| reaches(s, v, g) && is_generic(content_of(s, g));
    lemma_reaches_trans(s, u, v, g);
}

/// Every entry of a path that starts inside an edge-closed set stays inside
/// that set.
pub proof fn lemma_path_in_closed_set(s: Subs, set: Set<Variable>, p: Seq<Variable>)
    requires
        p.len() >= 1,
        is_path(s, p),
        set.contains(p[0]),
        forall|v: Variable, w: Variable|
            #![trigger set.contains(v), edge(s, v, w)]
            set.contains(v) && edge(s, v, w) ==> set.contains(w),
    ensures
        forall|i: int| 0 <= i < p.len() ==> set.contains(#[trigger] p[i]),
    decreases p.len(),
{
    if p.len() > 1 {
        assert(edge(s, p[0], p[1]));
        assert(set.contains(p[1]));
        let q = p.subrange(1, p.len() as int);
        assert(q[0] == p[1]);
        assert forall|i: int| #![trigger q[i]] 0 <= i < q.len() - 1 implies edge(s, q[i], q[i + 1]) by {
            assert(q[i] == p[i + 1]);
            assert(q[i + 1] == p[i + 2]);
            assert(edge(s, p[i + 1], p[i + 2]));
        }
        lemma_path_in_closed_set(s, set, q);
        assert forall|i: int| 0 <= i < p.len() implies set.contains(#[trigger] p[i]) by {
            if i > 0 {
                assert(set.contains(q[i - 1]));
            }
        }
    }
}

/// A variable reachable from a member of an edge-closed set is itself a
/// member.
pub proof fn lemma_reachable_in_closed_set(s: Subs, set: Set<Variable>, root: Variable, t: Variable)
    requires
        set.contains(root),
        forall|v: Variable, w: Variable|
            #![trigger set.contains(v), edge(s, v, w)]
            set.contains(v) && edge(s, v, w) ==> set.contains(w),
        reaches(s, root, t),
    ensures
        set.contains(t),
{
    let p = choose|p: Seq<Variable>| connects(s, p, root, t);
    lemma_path_in_closed_set(s, set, p);
    assert(set.contains(p[p.len() - 1]));
}

/// A member of an interned slice of a well-formed store is a live variable.
pub proof fn lemma_slice_member_in(s: Subs, sl: VarSlice, w: Variable)
    requires
        subs_wf(s),
        slice_in_vars(s, sl),
        slice_vars(s, sl).contains(w),
    ensures
        var_in(s, w),
{
    let k = choose|k: int| 0 <= k < slice_vars(s, sl).len() && slice_vars(s, sl)[k] == w;
    assert(w == s.variables@[sl.start + k]);
}

/// A payload variable of a well-formed union is a live variable.
pub proof fn lemma_union_member_in(s: Subs, t: UnionTags, w: Variable)
    requires
        subs_wf(s),
        union_tags_wf(s, t),
        union_has_child(s, t, w),
    ensures
        var_in(s, w),
{
    let i = choose|i: int|
        0 <= i < t.length && slice_vars(s, #[trigger] tag_payload(s, t, i)).contains(w);
    assert(slice_in_vars(s, s.variable_slices@[t.variables_start + i]));
    lemma_slice_member_in(s, tag_payload(s, t, i), w);
}

/// In a well-formed store every edge leads to a live variable.
pub proof fn lemma_edge_target_in(s: Subs, v: Variable, w: Variable)
    requires
        subs_wf(s),
        edge(s, v, w),
    ensures
        var_in(s, w),
{
    let c = content_of(s, v);
    assert(content_wf(s, (s.utable@[v.0 as int]).content));
    match c {
        Content::FlexVar(_) => {}
        Content::FlexAbleVar(_, _) => {}
        Content::RigidVar(_) => {}
        Content::RigidAbleVar(_, _) => {}
        Content::Error => {}
        Content::RecursionVar { structure: _, opt_name: _ } => {}
        Content::Alias(_, args, real_var, _) => {
            if w != real_var {
                lemma_slice_member_in(s, alias_vars(args), w);
            }
        }
        Content::RangedNumber(t, r) => {
            if w != t {
                lemma_slice_member_in(s, r, w);
            }
        }
        Content::Structure(ft) => match ft {
            FlatType::Apply(_, args) => {
                lemma_slice_member_in(s, args, w);
            }
            FlatType::Func(args, clos, ret) => {
                if w != clos && w != ret {
                    lemma_slice_member_in(s, args, w);
                }
            }
            FlatType::Record(f, ext) => {
                if w != ext {
                    lemma_slice_member_in(s, record_vars(f), w);
                }
            }
            FlatType::TagUnion(t, ext) => {
                if w != ext {
                    lemma_union_member_in(s, t, w);
                }
            }
            FlatType::FunctionOrTagUnion(_, _, _) => {}
            FlatType::RecursiveTagUnion(rec, t, ext) => {
                if w != rec && w != ext {
                    lemma_union_member_in(s, t, w);
                }
            }
            FlatType::EmptyRecord => {}
            FlatType::EmptyTagUnion => {}
            FlatType::Erroneous => {}
        },
    }
}

/// If a flag array is closed backwards along edges inside an edge-closed set
/// (a generic member is flagged, and a member with a flagged child is
/// flagged), then every member that reaches a generic variable is flagged.
pub proof fn lemma_flags_along_path(s: Subs, set: Set<Variable>, flags: Seq<bool>, p: Seq<Variable>)
    requires
        p.len() >= 1,
        is_path(s, p),
        set.contains(p[0]),
        forall|v: Variable, w: Variable|
            #![trigger set.contains(v), edge(s, v, w)]
            set.contains(v) && edge(s, v, w) ==> set.contains(w),
        forall|v: Variable| #[trigger] set.contains(v) ==> v.0 < flags.len(),
        forall|v: Variable| #[trigger] set.contains(v) && is_generic(content_of(s, v))
            ==> flags[v.0 as int],
        forall|v: Variable, w: Variable|
            #![trigger set.contains(v), edge(s, v, w)]
            set.contains(v) && edge(s, v, w) && w.0 < flags.len() && flags[w.0 as int]
                ==> flags[v.0 as int],
        is_generic(content_of(s, p[p.len() - 1])),
    ensures
        flags[p[0].0 as int],
    decreases p.len(),
{
    if p.len() == 1 {
        assert(flags[p[0].0 as int]);
    } else {
        assert(edge(s, p[0], p[1]));
        assert(set.contains(p[1]));
        let q = p.subrange(1, p.len() as int);
        assert(q[0] == p[1]);
        assert(q[q.len() - 1] == p[p.len() - 1]);
        assert forall|i: int| #![trigger q[i]] 0 <= i < q.len() - 1 implies edge(s, q[i], q[i + 1]) by {
            assert(q[i] == p[i + 1]);
            assert(q[i + 1] == p[i + 2]);
            assert(edge(s, p[i + 1], p[i + 2]));
        }
        lemma_flags_along_path(s, set, flags, q);
        assert(flags[p[1].0 as int]);
    }
}

/// The completeness half of the needs-copy computation: once the flag array
/// is a fixpoint over the (edge-closed) reachable set, every member that
/// needs a copy carries the flag.
pub proof fn lemma_needs_copy_flagged(s: Subs, set: Set<Variable>, flags: Seq<bool>, v: Variable)
    requires
        set.contains(v),
        forall|u: Variable, w: Variable|
            #![trigger set.contains(u), edge(s, u, w)]
            set.contains(u) && edge(s, u, w) ==> set.contains(w),
        forall|u: Variable| #[trigger] set.contains(u) ==> u.0 < flags.len(),
        forall|u: Variable| #[trigger] set.contains(u) && is_generic(content_of(s, u))
            ==> flags[u.0 as int],
        forall|u: Variable, w: Variable|
            #![trigger set.contains(u), edge(s, u, w)]
            set.contains(u) && edge(s, u, w) && w.0 < flags.len() && flags[w.0 as int]
                ==> flags[u.0 as int],
        needs_copy(s, v),
    ensures
        flags[v.0 as int],
{
    let g = choose|g: Variable| reaches(s, v, g) && is_generic(content_of(s, g));
    let p = choose|p: Seq<Variable>| connects(s, p, v, g);
    lemma_flags_along_path(s, set, flags, p);
}

} // verus!

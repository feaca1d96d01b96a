//! The graph walk of the deep-copy engine: a depth-first traversal that
//! collects the variables reachable from a root in completion order, and the
//! fixpoint computation of which of them need a copy.

use vstd::prelude::*;
use crate::subs::{
    alias_vars, record_vars, slice_in_vars, slice_vars, subs_wf, tag_payload, union_tags_wf,
    var_in, Content, FlatType, Subs, UnionTags, VarSlice, Variable,
};
use crate::graph::{
    content_of, edge, is_generic, lemma_edge_target_in, lemma_needs_copy_here,
    lemma_needs_copy_flagged, lemma_needs_copy_step, lemma_reachable_in_closed_set,
    lemma_reaches_refl, lemma_reaches_step, lemma_reaches_trans, needs_copy, reaches,
};

verus! {

/// No variable occurs twice.
pub open spec fn distinct_vars(s: Seq<Variable>) -> bool {
    forall|i: int, j: int| 0 <= i < j < s.len() ==> s[i] != s[j]
}

/// How many entries of a marker array are still unset.
pub open spec fn count_unseen(s: Seq<bool>) -> nat
    decreases s.len(),
{
    if s.len() == 0 {
        0
    } else {
        count_unseen(s.drop_last()) + if s.last() {
            0nat
        } else {
            1nat
        }
    }
}

pub proof fn lemma_count_unseen_update(s: Seq<bool>, i: int)
    requires
        0 <= i < s.len(),
        !s[i],
    ensures
        count_unseen(s.update(i, true)) + 1 == count_unseen(s),
    decreases s.len(),
{
    let t = s.update(i, true);
    if i == s.len() - 1 {
        assert(t.drop_last() =~= s.drop_last());
        assert(t.last());
    } else {
        assert(t.drop_last() =~= s.drop_last().update(i, true));
        assert(t.last() == s.last());
        lemma_count_unseen_update(s.drop_last(), i);
    }
}

pub proof fn lemma_count_unseen_mono(s1: Seq<bool>, s2: Seq<bool>)
    requires
        s1.len() == s2.len(),
        forall|i: int| 0 <= i < s1.len() && s1[i] ==> s2[i],
    ensures
        count_unseen(s2) <= count_unseen(s1),
    decreases s1.len(),
{
    if s1.len() > 0 {
        assert forall|i: int| 0 <= i < s1.drop_last().len() && s1.drop_last()[i]
            implies s2.drop_last()[i] by {
            assert(s1[i]);
        }
        lemma_count_unseen_mono(s1.drop_last(), s2.drop_last());
    }
}

pub proof fn lemma_push_contains(s: Seq<Variable>, x: Variable)
    ensures
        forall|w: Variable| #![trigger s.push(x).contains(w)]
            s.push(x).contains(w) <==> (s.contains(w) || w == x),
{
    assert forall|w: Variable| s.push(x).contains(w) implies (s.contains(w) || w == x) by {
        let i = choose|i: int| 0 <= i < s.push(x).len() && s.push(x)[i] == w;
        if i < s.len() {
            assert(s[i] == w);
        }
    }
    assert forall|w: Variable| (s.contains(w) || w == x) implies s.push(x).contains(w) by {
        if s.contains(w) {
            let i = choose|i: int| 0 <= i < s.len() && s[i] == w;
            assert(s.push(x)[i] == w);
        } else {
            assert(s.push(x)[s.len() as int] == w);
        }
    }
}

pub proof fn lemma_add_contains(a: Seq<Variable>, b: Seq<Variable>)
    ensures
        forall|w: Variable| #![trigger (a + b).contains(w)]
            (a + b).contains(w) <==> (a.contains(w) || b.contains(w)),
{
    assert forall|w: Variable| (a + b).contains(w) implies (a.contains(w) || b.contains(w)) by {
        let i = choose|i: int| 0 <= i < (a + b).len() && (a + b)[i] == w;
        if i < a.len() {
            assert(a[i] == w);
        } else {
            assert(b[i - a.len()] == w);
        }
    }
    assert forall|w: Variable| (a.contains(w) || b.contains(w)) implies (a + b).contains(w) by {
        if a.contains(w) {
            let i = choose|i: int| 0 <= i < a.len() && a[i] == w;
            assert((a + b)[i] == w);
        } else {
            let i = choose|i: int| 0 <= i < b.len() && b[i] == w;
            assert((a + b)[a.len() + i] == w);
        }
    }
}

/// Appends the variables an interned slice denotes to `out`.
fn push_slice(s: &Subs, sl: VarSlice, out: &mut Vec<Variable>)
    requires
        slice_in_vars(*s, sl),
    ensures
        final(out)@ == old(out)@ + slice_vars(*s, sl),
{
    let n = s.variables.len();
    let mut k: usize = 0;
    while k < sl.length
        invariant
            slice_in_vars(*s, sl),
            n == s.variables@.len(),
            k <= sl.length,
            out@ == old(out)@ + s.variables@.subrange(sl.start as int, sl.start + k),
        decreases sl.length - k,
    {
        out.push(self_variable(s, sl.start + k));
        proof {
            assert(out@ =~= old(out)@ + s.variables@.subrange(sl.start as int, sl.start + k + 1));
        }
        k = k + 1;
    }
    proof {
        assert(out@ =~= old(out)@ + slice_vars(*s, sl));
    }
}

/// Reads one entry of the `variables` pool.
fn self_variable(s: &Subs, i: usize) -> (v: Variable)
    requires
        i < s.variables@.len(),
    ensures
        v == s.variables@[i as int],
{
    s.variables[i]
}

/// The direct children of `v`'s content, in the order the deep-copy engine
/// descends them.
pub fn children_of(s: &Subs, v: Variable) -> (out: Vec<Variable>)
    requires
        subs_wf(*s),
        var_in(*s, v),
    ensures
        forall|w: Variable| out@.contains(w) <==> edge(*s, v, w),
{
    let c = s.utable[v.0].content;
    proof {
        assert(content_of(*s, v) == c);
        assert(crate::subs::content_wf(*s, (s.utable@[v.0 as int]).content));
    }
    let mut out: Vec<Variable> = Vec::new();
    match c {
        Content::FlexVar(_) => {}
        Content::FlexAbleVar(_, _) => {}
        Content::RigidVar(_) => {}
        Content::RigidAbleVar(_, _) => {}
        Content::Error => {}
        Content::RecursionVar { structure, opt_name: _ } => {
            out.push(structure);
            proof {
                lemma_push_contains(Seq::<Variable>::empty(), structure);
            }
        }
        Content::Alias(_, args, real_var, _) => {
            out.push(real_var);
            let ghost head = out@;
            push_slice(s, args.all_variables(), &mut out);
            proof {
                lemma_push_contains(Seq::<Variable>::empty(), real_var);
                lemma_add_contains(head, slice_vars(*s, alias_vars(args)));
            }
        }
        Content::RangedNumber(t, r) => {
            out.push(t);
            let ghost head = out@;
            push_slice(s, r, &mut out);
            proof {
                lemma_push_contains(Seq::<Variable>::empty(), t);
                lemma_add_contains(head, slice_vars(*s, r));
            }
        }
        Content::Structure(ft) => match ft {
            FlatType::EmptyRecord => {}
            FlatType::EmptyTagUnion => {}
            FlatType::Erroneous => {}
            FlatType::Apply(_, args) => {
                push_slice(s, args, &mut out);
                proof {
                    assert(out@ =~= slice_vars(*s, args));
                }
            }
            FlatType::Func(args, clos, ret) => {
                push_slice(s, args, &mut out);
                proof {
                    assert(out@ =~= slice_vars(*s, args));
                }
                let ghost head = out@;
                out.push(clos);
                out.push(ret);
                proof {
                    lemma_push_contains(head, clos);
                    lemma_push_contains(head.push(clos), ret);
                }
            }
            FlatType::Record(f, ext) => {
                out.push(ext);
                let ghost head = out@;
                push_slice(s, VarSlice { start: f.variables_start, length: f.length }, &mut out);
                proof {
                    lemma_push_contains(Seq::<Variable>::empty(), ext);
                    lemma_add_contains(head, slice_vars(*s, record_vars(f)));
                }
            }
            FlatType::FunctionOrTagUnion(_, _, ext) => {
                out.push(ext);
                proof {
                    lemma_push_contains(Seq::<Variable>::empty(), ext);
                }
            }
            FlatType::TagUnion(t, ext) => {
                out.push(ext);
                proof {
                    lemma_push_contains(Seq::<Variable>::empty(), ext);
                }
                push_union_tags(s, t, &mut out);
            }
            FlatType::RecursiveTagUnion(rec, t, ext) => {
                out.push(ext);
                let ghost head1 = out@;
                out.push(rec);
                proof {
                    lemma_push_contains(Seq::<Variable>::empty(), ext);
                    lemma_push_contains(head1, rec);
                }
                push_union_tags(s, t, &mut out);
            }
        },
    }
    out
}

/// Appends every payload variable of every tag of the union to `out`.
fn push_union_tags(s: &Subs, t: UnionTags, out: &mut Vec<Variable>)
    requires
        subs_wf(*s),
        union_tags_wf(*s, t),
    ensures
        forall|w: Variable| #![trigger final(out)@.contains(w)]
            final(out)@.contains(w) <==> (old(out)@.contains(w) || crate::graph::union_has_child(
                *s,
                t,
                w,
            )),
{
    let n = s.variable_slices.len();
    let mut i: usize = 0;
    while i < t.length
        invariant
            subs_wf(*s),
            union_tags_wf(*s, t),
            n == s.variable_slices@.len(),
            i <= t.length,
            forall|w: Variable|
                out@.contains(w) <==> (old(out)@.contains(w) || exists|j: int|
                    0 <= j < i && slice_vars(*s, #[trigger] tag_payload(*s, t, j)).contains(w)),
        decreases t.length - i,
    {
        let sl = s.variable_slices[t.variables_start + i];
        let ghost head = out@;
        push_slice(s, sl, out);
        proof {
            assert(sl == tag_payload(*s, t, i as int));
            lemma_add_contains(head, slice_vars(*s, sl));
            assert forall|w: Variable|
                out@.contains(w) <==> (old(out)@.contains(w) || exists|j: int|
                    0 <= j < i + 1 && slice_vars(*s, #[trigger] tag_payload(*s, t, j)).contains(
                        w,
                    )) by {
                if out@.contains(w) {
                    if !head.contains(w) {
                        assert(slice_vars(*s, tag_payload(*s, t, i as int)).contains(w));
                    }
                } else {
                    if exists|j: int|
                        0 <= j < i + 1 && slice_vars(*s, #[trigger] tag_payload(*s, t, j)).contains(
                            w,
                        ) {
                        let j = choose|j: int|
                            0 <= j < i + 1 && slice_vars(
                                *s,
                                #[trigger] tag_payload(*s, t, j),
                            ).contains(w);
                        if j < i {
                            assert(head.contains(w));
                        } else {
                            assert(slice_vars(*s, tag_payload(*s, t, i as int)).contains(w));
                        }
                        assert(false);
                    }
                }
            }
        }
        i = i + 1;
    }
    proof {
        assert forall|w: Variable|
            out@.contains(w) <==> (old(out)@.contains(w) || crate::graph::union_has_child(
                *s,
                t,
                w,
            )) by {}
    }
}

/// The shared invariant of the depth-first walk. `seen` marks a variable as
/// soon as its visit starts; `order` holds the variables whose visit has
/// completed; `grey` is the (ghost) set of variables whose visit is still on
/// the call stack.
pub open spec fn walk_inv(s: Subs, seen: Seq<bool>, order: Seq<Variable>, grey: Set<Variable>) -> bool {
    &&& seen.len() == s.utable@.len()
    &&& forall|w: Variable| #[trigger] order.contains(w) ==> var_in(s, w)
    &&& forall|w: Variable| #[trigger] grey.contains(w) ==> var_in(s, w)
    &&& forall|w: Variable|
        var_in(s, w) ==> ((#[trigger] seen[w.0 as int]) <==> (order.contains(w) || grey.contains(
            w,
        )))
    &&& forall|w: Variable| #[trigger] order.contains(w) ==> !grey.contains(w)
    &&& distinct_vars(order)
    &&& forall|w: Variable, c: Variable|
        #![trigger order.contains(w), edge(s, w, c)]
        order.contains(w) && edge(s, w, c) ==> seen[c.0 as int]
}

/// One step of the depth-first walk: ensure `v` and everything reachable
/// from it is seen, appending newly completed variables to `order`.
fn visit(
    s: &Subs,
    seen: &mut Vec<bool>,
    order: &mut Vec<Variable>,
    v: Variable,
    grey: Ghost<Set<Variable>>,
    fuel: Ghost<nat>,
)
    requires
        subs_wf(*s),
        var_in(*s, v),
        walk_inv(*s, old(seen)@, old(order)@, grey@),
        count_unseen(old(seen)@) <= fuel@,
    ensures
        walk_inv(*s, final(seen)@, final(order)@, grey@),
        final(seen)@.len() == old(seen)@.len(),
        forall|i: int| 0 <= i < old(seen)@.len() && old(seen)@[i] ==> final(seen)@[i],
        final(seen)@[v.0 as int],
        old(order)@.is_prefix_of(final(order)@),
        forall|w: Variable|
            #[trigger] final(order)@.contains(w) && !old(order)@.contains(w) ==> reaches(*s, v, w),
        !old(seen)@[v.0 as int] ==> final(order)@.len() > 0 && final(order)@.last() == v,
    decreases fuel@,
{
    let ghost seen0 = seen@;
    let ghost order0 = order@;
    if seen[v.0] {
        proof {
            assert(order0 =~= order0.subrange(0, order0.len() as int));
        }
        return;
    }
    proof {
        assert(!grey@.contains(v));
        assert(!order0.contains(v));
    }
    seen.set(v.0, true);
    proof {
        lemma_count_unseen_update(seen0, v.0 as int);
    }
    let ghost grey2 = grey@.insert(v);
    proof {
        assert forall|w: Variable|
            var_in(*s, w) implies ((#[trigger] seen@[w.0 as int]) <==> (order@.contains(w)
            || grey2.contains(w))) by {
            if w != v {
                assert(seen@[w.0 as int] == seen0[w.0 as int]);
            }
        }
        assert(walk_inv(*s, seen@, order@, grey2));
    }
    let children = children_of(s, v);
    let ghost fuel1 = (fuel@ - 1) as nat;
    let mut k: usize = 0;
    while k < children.len()
        invariant
            subs_wf(*s),
            var_in(*s, v),
            forall|w: Variable|
                #![trigger children@.contains(w)]
                #![trigger edge(*s, v, w)]
                children@.contains(w) <==> edge(*s, v, w),
            walk_inv(*s, seen@, order@, grey2),
            grey2 == grey@.insert(v),
            !grey@.contains(v),
            seen@[v.0 as int],
            count_unseen(seen@) <= fuel1,
            fuel1 < fuel@,
            k <= children@.len(),
            forall|j: int|
                0 <= j < k ==> var_in(*s, #[trigger] children@[j]) && seen@[(
                children@[j]).0 as int],
            seen@.len() == seen0.len(),
            forall|i: int| 0 <= i < seen0.len() && seen0[i] ==> seen@[i],
            order0.is_prefix_of(order@),
            forall|w: Variable|
                #[trigger] order@.contains(w) && !order0.contains(w) ==> reaches(*s, v, w),
        decreases children@.len() - k,
    {
        let c = children[k];
        proof {
            assert(children@.contains(children@[k as int]));
            assert(edge(*s, v, c));
            lemma_edge_target_in(*s, v, c);
        }
        let ghost pre_seen = seen@;
        let ghost pre_order = order@;
        visit(s, seen, order, c, Ghost(grey2), Ghost(fuel1));
        proof {
            lemma_count_unseen_mono(pre_seen, seen@);
            assert forall|j: int|
                0 <= j < k + 1 implies var_in(*s, #[trigger] children@[j]) && seen@[(
                children@[j]).0 as int] by {
                if j == k {
                    assert(children@[j] == c);
                } else {
                    assert(var_in(*s, children@[j]));
                    assert(pre_seen[(children@[j]).0 as int]);
                }
            }
            assert(order0.is_prefix_of(order@)) by {
                assert(order0 =~= order@.subrange(0, order0.len() as int));
            }
            assert forall|w: Variable|
                #[trigger] order@.contains(w) && !order0.contains(w) implies reaches(
                *s,
                v,
                w,
            ) by {
                if pre_order.contains(w) {
                } else {
                    assert(reaches(*s, c, w));
                    lemma_reaches_step(*s, v, c);
                    lemma_reaches_trans(*s, v, c, w);
                }
            }
        }
        k = k + 1;
    }
    let ghost pre_push = order@;
    proof {
        assert forall|cc: Variable| edge(*s, v, cc) implies seen@[cc.0 as int] by {
            assert(children@.contains(cc));
            let j = choose|j: int| 0 <= j < children@.len() && children@[j] == cc;
            assert(seen@[(children@[j]).0 as int]);
        }
        assert(count_unseen(seen@) <= fuel1);
    }
    order.push(v);
    proof {
        lemma_push_contains(pre_push, v);
        assert(!pre_push.contains(v));
        assert forall|w: Variable|
            var_in(*s, w) implies ((#[trigger] seen@[w.0 as int]) <==> (order@.contains(w)
            || grey@.contains(w))) by {
            if w == v {
                assert(order@.contains(v));
            } else {
                assert(grey2.contains(w) == grey@.contains(w));
            }
        }
        assert(distinct_vars(order@)) by {
            assert forall|i: int, j: int| 0 <= i < j < order@.len() implies order@[i]
                != order@[j] by {
                if j < pre_push.len() {
                } else {
                    assert(order@[j] == v);
                    assert(pre_push.contains(pre_push[i]));
                }
            }
        }
        assert forall|w: Variable, c: Variable|
            #![trigger order@.contains(w), edge(*s, w, c)]
            order@.contains(w) && edge(*s, w, c) implies seen@[c.0 as int] by {
            if w != v {
                assert(pre_push.contains(w));
            }
        }
        assert(walk_inv(*s, seen@, order@, grey@));
        assert(order0.is_prefix_of(order@)) by {
            assert(order0 =~= order@.subrange(0, order0.len() as int));
        }
        assert forall|w: Variable|
            #[trigger] order@.contains(w) && !order0.contains(w) implies reaches(*s, v, w) by {
            if w == v {
                lemma_reaches_refl(*s, v);
            } else {
                assert(pre_push.contains(w));
            }
        }
    }
}

/// The variables reachable from `root`, in depth-first completion order:
/// every child of a listed variable is listed, each exactly once, and the
/// list is exactly the reachable set.
pub fn reachable_postorder(s: &Subs, root: Variable) -> (order: Vec<Variable>)
    requires
        subs_wf(*s),
        var_in(*s, root),
    ensures
        forall|w: Variable| #[trigger] order@.contains(w) <==> reaches(*s, root, w),
        distinct_vars(order@),
        forall|w: Variable| #[trigger] order@.contains(w) ==> var_in(*s, w),
        forall|w: Variable, c: Variable|
            #![trigger order@.contains(w), edge(*s, w, c)]
            order@.contains(w) && edge(*s, w, c) ==> order@.contains(c),
        order@.len() > 0 && order@.last() == root,
{
    let n = s.utable.len();
    let mut seen: Vec<bool> = Vec::new();
    let mut i: usize = 0;
    while i < n
        invariant
            i <= n,
            seen@.len() == i,
            forall|j: int| 0 <= j < i ==> !(#[trigger] seen@[j]),
        decreases n - i,
    {
        seen.push(false);
        i = i + 1;
    }
    let mut order: Vec<Variable> = Vec::new();
    proof {
        assert(walk_inv(*s, seen@, order@, Set::empty()));
    }
    let ghost fuel0 = count_unseen(seen@);
    visit(s, &mut seen, &mut order, root, Ghost(Set::empty()), Ghost(fuel0));
    proof {
        assert(order@.contains(root));
        assert forall|w: Variable, c: Variable|
            #![trigger order@.contains(w), edge(*s, w, c)]
            order@.contains(w) && edge(*s, w, c) implies order@.contains(c) by {
            lemma_edge_target_in(*s, w, c);
            assert(seen@[c.0 as int]);
        }
        let oset = Set::new(|w: Variable| order@.contains(w));
        assert forall|w: Variable| reaches(*s, root, w) implies order@.contains(w) by {
            assert(oset.contains(root));
            assert forall|u: Variable, c: Variable|
                #![trigger oset.contains(u), edge(*s, u, c)]
                oset.contains(u) && edge(*s, u, c) implies oset.contains(c) by {
                assert(order@.contains(u));
            }
            lemma_reachable_in_closed_set(*s, oset, root, w);
            assert(oset.contains(w));
        }
    }
    order
}

/// Whether the content is one of the four generic-parameter kinds.
pub fn content_is_generic(c: &Content) -> (r: bool)
    ensures
        r == is_generic(*c),
{
    match c {
        Content::FlexVar(_) => true,
        Content::FlexAbleVar(_, _) => true,
        Content::RigidVar(_) => true,
        Content::RigidAbleVar(_, _) => true,
        _ => false,
    }
}

/// Whether some direct child of `v` already carries the needs-copy flag.
fn has_flagged_child(s: &Subs, v: Variable, needs: &Vec<bool>) -> (r: bool)
    requires
        subs_wf(*s),
        var_in(*s, v),
        needs@.len() == s.utable@.len(),
    ensures
        r <==> exists|c: Variable| edge(*s, v, c) && needs@[c.0 as int],
{
    let children = children_of(s, v);
    let mut k: usize = 0;
    let mut found = false;
    while k < children.len()
        invariant
            subs_wf(*s),
            var_in(*s, v),
            needs@.len() == s.utable@.len(),
            forall|w: Variable|
                #![trigger children@.contains(w)]
                #![trigger edge(*s, v, w)]
                children@.contains(w) <==> edge(*s, v, w),
            k <= children@.len(),
            found <==> exists|j: int|
                0 <= j < k && needs@[(#[trigger] children@[j]).0 as int],
        decreases children@.len() - k,
    {
        let c = children[k];
        proof {
            assert(children@.contains(children@[k as int]));
            lemma_edge_target_in(*s, v, c);
        }
        if needs[c.0] {
            found = true;
            proof {
                assert(needs@[(children@[k as int]).0 as int]);
            }
        }
        k = k + 1;
    }
    proof {
        if found {
            let j = choose|j: int| 0 <= j < children@.len() && needs@[(children@[j]).0 as int];
            assert(children@.contains(children@[j]));
            assert(edge(*s, v, children@[j]) && needs@[(children@[j]).0 as int]);
        } else {
            if exists|c: Variable| edge(*s, v, c) && needs@[c.0 as int] {
                let c = choose|c: Variable| edge(*s, v, c) && needs@[c.0 as int];
                assert(children@.contains(c));
                let j = choose|j: int| 0 <= j < children@.len() && children@[j] == c;
                assert(needs@[(children@[j]).0 as int]);
                assert(false);
            }
        }
    }
    found
}

/// For every variable of the (edge-closed) reachable list, whether a
/// generic-parameter variable is reachable from it: true exactly for the
/// variables the deep-copy engine must clone.
pub fn compute_needs(s: &Subs, order: &Vec<Variable>) -> (needs: Vec<bool>)
    requires
        subs_wf(*s),
        forall|w: Variable| #[trigger] order@.contains(w) ==> var_in(*s, w),
        forall|w: Variable, c: Variable|
            #![trigger order@.contains(w), edge(*s, w, c)]
            order@.contains(w) && edge(*s, w, c) ==> order@.contains(c),
    ensures
        needs@.len() == s.utable@.len(),
        forall|w: Variable|
            #[trigger] order@.contains(w) ==> (needs@[w.0 as int] <==> needs_copy(*s, w)),
        forall|i: int|
            0 <= i < needs@.len() && needs@[i] ==> needs_copy(*s, Variable(i as usize)),
{
    let n = s.utable.len();
    let mut needs: Vec<bool> = Vec::new();
    let mut i: usize = 0;
    while i < n
        invariant
            i <= n,
            needs@.len() == i,
            forall|j: int| 0 <= j < i ==> !(#[trigger] needs@[j]),
        decreases n - i,
    {
        needs.push(false);
        i = i + 1;
    }
    proof {
        assert forall|j2: int| 0 <= j2 < order@.len() implies var_in(
            *s,
            #[trigger] order@[j2],
        ) by {
            assert(order@.contains(order@[j2]));
        }
    }
    let mut idx: usize = 0;
    while idx < order.len()
        invariant
            subs_wf(*s),
            needs@.len() == s.utable@.len(),
            forall|w: Variable| #[trigger] order@.contains(w) ==> var_in(*s, w),
            forall|j2: int| 0 <= j2 < order@.len() ==> var_in(*s, #[trigger] order@[j2]),
            idx <= order@.len(),
            forall|j: int|
                0 <= j < idx && is_generic(content_of(*s, #[trigger] order@[j]))
                    ==> needs@[(order@[j]).0 as int],
            forall|i2: int|
                0 <= i2 < needs@.len() && needs@[i2] ==> needs_copy(*s, Variable(i2 as usize)),
        decreases order@.len() - idx,
    {
        let v = order[idx];
        proof {
            assert(order@.contains(order@[idx as int]));
        }
        let c = s.utable[v.0].content;
        if content_is_generic(&c) {
            needs.set(v.0, true);
            proof {
                lemma_needs_copy_here(*s, v);
                assert(Variable(v.0 as usize) == v);
            }
        }
        idx = idx + 1;
    }
    proof {
        assert forall|w: Variable|
            #[trigger] order@.contains(w) && is_generic(content_of(*s, w))
            implies needs@[w.0 as int] by {
            let j = choose|j: int| 0 <= j < order@.len() && order@[j] == w;
            assert(is_generic(content_of(*s, order@[j])));
        }
    }
    let mut changed = true;
    while changed
        invariant
            subs_wf(*s),
            needs@.len() == s.utable@.len(),
            forall|w: Variable| #[trigger] order@.contains(w) ==> var_in(*s, w),
            forall|j2: int| 0 <= j2 < order@.len() ==> var_in(*s, #[trigger] order@[j2]),
            forall|w: Variable, c: Variable|
                #![trigger order@.contains(w), edge(*s, w, c)]
                order@.contains(w) && edge(*s, w, c) ==> order@.contains(c),
            forall|w: Variable|
                #[trigger] order@.contains(w) && is_generic(content_of(*s, w))
                    ==> needs@[w.0 as int],
            forall|i2: int|
                0 <= i2 < needs@.len() && needs@[i2] ==> needs_copy(*s, Variable(i2 as usize)),
            !changed ==> forall|w: Variable|
                #[trigger] order@.contains(w) && (exists|c: Variable|
                    edge(*s, w, c) && needs@[c.0 as int]) ==> needs@[w.0 as int],
        decreases count_unseen(needs@) + if changed { 1int } else { 0 },
    {
        changed = false;
        let ghost sweep_start = needs@;
        let mut j: usize = 0;
        while j < order.len()
            invariant
                subs_wf(*s),
                needs@.len() == s.utable@.len(),
                forall|w: Variable| #[trigger] order@.contains(w) ==> var_in(*s, w),
                forall|j2: int| 0 <= j2 < order@.len() ==> var_in(*s, #[trigger] order@[j2]),
                forall|w: Variable|
                    #[trigger] order@.contains(w) && is_generic(content_of(*s, w))
                        ==> needs@[w.0 as int],
                forall|i2: int|
                    0 <= i2 < needs@.len() && needs@[i2] ==> needs_copy(*s, Variable(i2 as usize)),
                j <= order@.len(),
                sweep_start.len() == needs@.len(),
                forall|i2: int| 0 <= i2 < sweep_start.len() && sweep_start[i2] ==> needs@[i2],
                changed ==> count_unseen(needs@) < count_unseen(sweep_start),
                !changed ==> needs@ == sweep_start,
                !changed ==> forall|jj: int|
                    0 <= jj < j && (exists|c: Variable|
                        edge(*s, #[trigger] order@[jj], c) && needs@[c.0 as int])
                        ==> needs@[(order@[jj]).0 as int],
            decreases order@.len() - j,
        {
            let v = order[j];
            proof {
                assert(order@.contains(order@[j as int]));
            }
            if !needs[v.0] {
                if has_flagged_child(s, v, &needs) {
                    let ghost pre = needs@;
                    needs.set(v.0, true);
                    proof {
                        let c = choose|c: Variable| edge(*s, v, c) && pre[c.0 as int];
                        assert(needs_copy(*s, Variable(c.0 as usize)));
                        assert(Variable(c.0 as usize) == c);
                        lemma_needs_copy_step(*s, v, c);
                        assert(Variable(v.0 as usize) == v);
                        lemma_count_unseen_update(pre, v.0 as int);
                        lemma_count_unseen_mono(sweep_start, pre);
                    }
                    changed = true;
                }
            }
            j = j + 1;
        }
        proof {
            if !changed {
                assert forall|w: Variable|
                    #[trigger] order@.contains(w) && (exists|c: Variable|
                        edge(*s, w, c) && needs@[c.0 as int]) implies needs@[w.0 as int] by {
                    let jj = choose|jj: int| 0 <= jj < order@.len() && order@[jj] == w;
                    assert(exists|c: Variable|
                        edge(*s, order@[jj], c) && needs@[c.0 as int]);
                }
            }
        }
    }
    proof {
        let oset = Set::new(|w: Variable| order@.contains(w));
        assert forall|w: Variable|
            #[trigger] order@.contains(w) && needs_copy(*s, w) implies needs@[w.0 as int] by {
            assert forall|u: Variable, c: Variable|
                #![trigger oset.contains(u), edge(*s, u, c)]
                oset.contains(u) && edge(*s, u, c) implies oset.contains(c) by {
                assert(order@.contains(u));
            }
            assert forall|u: Variable| #[trigger] oset.contains(u) implies u.0
                < needs@.len() by {
                assert(order@.contains(u));
            }
            assert forall|u: Variable|
                #[trigger] oset.contains(u) && is_generic(content_of(*s, u))
                implies needs@[u.0 as int] by {
                assert(order@.contains(u));
            }
            assert forall|u: Variable, c: Variable|
                #![trigger oset.contains(u), edge(*s, u, c)]
                oset.contains(u) && edge(*s, u, c) && c.0 < needs@.len() && needs@[c.0 as int]
                implies needs@[u.0 as int] by {
                assert(order@.contains(u));
                assert(exists|cc: Variable| edge(*s, u, cc) && needs@[cc.0 as int]);
            }
            assert(oset.contains(w));
            lemma_needs_copy_flagged(*s, oset, needs@, w);
        }
        assert forall|w: Variable| #[trigger] order@.contains(w)
            implies (needs@[w.0 as int] <==> needs_copy(*s, w)) by {
            if needs@[w.0 as int] {
                assert(needs_copy(*s, Variable(w.0 as usize)));
                assert(Variable(w.0 as usize) == w);
            }
        }
    }
    needs
}

} // verus!

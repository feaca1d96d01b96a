//! The expression tree that a deep copy rewrites: each node may embed type
//! variables, and the rewriter produces a structurally identical clone with
//! every embedded variable substituted per the deep-copy mapping.

use vstd::prelude::*;
use crate::subs::{Symbol, TagName, Variable};
use crate::copy::{distinct_firsts, in_firsts, map_var};

verus! {

/// A source region, carried through unchanged.
#[derive(Clone, Copy, PartialEq, Eq, Structural, Debug)]
pub struct Region {
    pub start: u32,
    pub end: u32,
}

/// A located value: a source region together with the value it covers.
#[derive(Clone, Copy, Debug)]
pub struct Loc<T> {
    pub region: Region,
    pub value: T,
}

/// The parsed value of an integer literal.
#[derive(Clone, Copy, PartialEq, Eq, Structural, Debug)]
pub enum IntValue {
    I128(i128),
    U128(u128),
}

/// Inferred bound on a numeric literal; opaque to the rewriter.
#[derive(Clone, Copy, PartialEq, Eq, Structural, Debug)]
pub struct NumBound(pub u32);

/// Inferred bound on an integer literal; opaque to the rewriter.
#[derive(Clone, Copy, PartialEq, Eq, Structural, Debug)]
pub struct IntBound(pub u32);

/// Inferred bound on a fractional literal; opaque to the rewriter.
#[derive(Clone, Copy, PartialEq, Eq, Structural, Debug)]
pub struct FloatBound(pub u32);

/// How a call was written in the source; opaque to the rewriter.
#[derive(Clone, Copy, PartialEq, Eq, Structural, Debug)]
pub struct CalledVia(pub u32);

/// A low-level builtin operation; opaque to the rewriter.
#[derive(Clone, Copy, PartialEq, Eq, Structural, Debug)]
pub struct LowLevel(pub u32);

/// Exhaustiveness-check mark of a `when`; opaque to the rewriter.
#[derive(Clone, Copy, PartialEq, Eq, Structural, Debug)]
pub struct ExhaustiveMark(pub u32);

/// Redundancy-check mark of a branch; opaque to the rewriter.
#[derive(Clone, Copy, PartialEq, Eq, Structural, Debug)]
pub struct RedundantMark(pub u32);

/// Annotation mark of a closure argument; opaque to the rewriter.
#[derive(Clone, Copy, PartialEq, Eq, Structural, Debug)]
pub struct AnnotatedMark(pub u32);

/// A type annotation attached to a definition; cloned unchanged.
#[derive(Clone, Copy, PartialEq, Eq, Structural, Debug)]
pub struct Annotation(pub u32);

/// Whether a closure calls itself.
#[derive(Clone, Copy, PartialEq, Eq, Structural, Debug)]
pub enum Recursive {
    NotRecursive,
    Recursive,
    TailRecursive,
}

/// A binding pattern. Patterns are cloned unchanged: the rewriter does not
/// substitute anything inside them.
#[derive(Clone, Copy, PartialEq, Eq, Structural, Debug)]
pub enum Pattern {
    Identifier(Symbol),
    Underscore,
}

/// One definition of a let binding.
#[derive(Debug)]
pub struct Def {
    pub loc_pattern: Loc<Pattern>,
    pub loc_expr: Loc<Expr>,
    pub expr_var: Variable,
    pub pattern_vars: Vec<(Symbol, Variable)>,
    pub annotation: Option<Annotation>,
}

/// One branch of a `when`.
#[derive(Debug)]
pub struct WhenBranch {
    pub patterns: Vec<Loc<Pattern>>,
    pub value: Loc<Expr>,
    pub guard: Option<Loc<Expr>>,
    pub redundant: RedundantMark,
}

/// The data of a closure node.
#[derive(Debug)]
pub struct ClosureData {
    pub function_type: Variable,
    pub closure_type: Variable,
    pub closure_ext_var: Variable,
    pub return_type: Variable,
    pub name: Symbol,
    pub captured_symbols: Vec<(Symbol, Variable)>,
    pub recursive: Recursive,
    pub arguments: Vec<(Variable, AnnotatedMark, Loc<Pattern>)>,
    pub loc_body: Box<Loc<Expr>>,
}

/// The data of a field-accessor function node.
#[derive(Debug)]
pub struct AccessorData {
    pub name: Symbol,
    pub function_var: Variable,
    pub record_var: Variable,
    pub closure_var: Variable,
    pub closure_ext_var: Variable,
    pub ext_var: Variable,
    pub field_var: Variable,
    pub field: String,
}

/// One field of a record literal or record update.
#[derive(Debug)]
pub struct Field {
    pub var: Variable,
    pub region: Region,
    pub loc_expr: Box<Loc<Expr>>,
}

/// An expression-tree node, each possibly carrying embedded type variables
/// and nested child expressions.
#[derive(Debug)]
pub enum Expr {
    Num(Variable, String, IntValue, NumBound),
    Int(Variable, Variable, String, IntValue, IntBound),
    Float(Variable, Variable, String, FloatBound),
    Str(String),
    SingleQuote(char),
    List { elem_var: Variable, loc_elems: Vec<Loc<Expr>> },
    Var(Symbol),
    When {
        loc_cond: Box<Loc<Expr>>,
        cond_var: Variable,
        expr_var: Variable,
        region: Region,
        branches: Vec<WhenBranch>,
        branches_cond_var: Variable,
        exhaustive: ExhaustiveMark,
    },
    If {
        cond_var: Variable,
        branch_var: Variable,
        branches: Vec<(Loc<Expr>, Loc<Expr>)>,
        final_else: Box<Loc<Expr>>,
    },
    LetRec(Vec<Def>, Box<Loc<Expr>>, Variable),
    LetNonRec(Box<Def>, Box<Loc<Expr>>, Variable),
    Call(Box<(Variable, Loc<Expr>, Variable, Variable)>, Vec<(Variable, Loc<Expr>)>, CalledVia),
    RunLowLevel { op: LowLevel, args: Vec<(Variable, Expr)>, ret_var: Variable },
    ForeignCall { foreign_symbol: String, args: Vec<(Variable, Expr)>, ret_var: Variable },
    Closure(ClosureData),
    Record { record_var: Variable, fields: Vec<(String, Field)> },
    EmptyRecord,
    Access {
        record_var: Variable,
        ext_var: Variable,
        field_var: Variable,
        loc_expr: Box<Loc<Expr>>,
        field: String,
    },
    Accessor(AccessorData),
    Update {
        record_var: Variable,
        ext_var: Variable,
        symbol: Symbol,
        updates: Vec<(String, Field)>,
    },
    Tag {
        variant_var: Variable,
        ext_var: Variable,
        name: TagName,
        arguments: Vec<(Variable, Loc<Expr>)>,
    },
    ZeroArgumentTag {
        closure_name: Symbol,
        variant_var: Variable,
        ext_var: Variable,
        name: TagName,
    },
    OpaqueRef {
        opaque_var: Variable,
        name: Symbol,
        argument: Box<(Variable, Loc<Expr>)>,
        specialized_def_type: Variable,
        type_arguments: Vec<Variable>,
        lambda_set_variables: Vec<Variable>,
    },
    Expect(Box<Loc<Expr>>, Box<Loc<Expr>>),
    RuntimeError(String),
}

/// `b` is `a` with its expression substituted and its region kept.
pub open spec fn loc_subst(m: Seq<(Variable, Variable)>, a: Loc<Expr>, b: Loc<Expr>) -> bool
    decreases a,
{
    b.region == a.region && expr_subst(m, a.value, b.value)
}

/// `b` is `a` with the definition's expression substituted, its variable
/// mapped and each pattern variable mapped; the pattern itself and the
/// annotation are kept unchanged.
pub open spec fn def_subst(m: Seq<(Variable, Variable)>, a: Def, b: Def) -> bool
    decreases a,
{
    &&& b.loc_pattern == a.loc_pattern
    &&& loc_subst(m, a.loc_expr, b.loc_expr)
    &&& b.expr_var == map_var(m, a.expr_var)
    &&& b.pattern_vars@.len() == a.pattern_vars@.len()
    &&& forall|i: int|
        0 <= i < a.pattern_vars@.len() ==> b.pattern_vars@[i] == ((
        #[trigger] a.pattern_vars@[i]).0, map_var(m, a.pattern_vars@[i].1))
    &&& b.annotation == a.annotation
}

/// `b` is the branch `a` with its value and guard substituted; the patterns
/// and the redundancy mark are kept unchanged.
pub open spec fn branch_subst(m: Seq<(Variable, Variable)>, a: WhenBranch, b: WhenBranch) -> bool
    decreases a,
{
    &&& b.patterns@ == a.patterns@
    &&& loc_subst(m, a.value, b.value)
    &&& match a.guard {
        Some(g) => b.guard matches Some(g2) && loc_subst(m, g, g2),
        None => b.guard is None,
    }
    &&& b.redundant == a.redundant
}

/// `b` is the record field `a` with its variable mapped and its expression
/// substituted; the region is kept.
pub open spec fn field_subst(m: Seq<(Variable, Variable)>, a: Field, b: Field) -> bool
    decreases a,
{
    &&& b.var == map_var(m, a.var)
    &&& b.region == a.region
    &&& loc_subst(m, *a.loc_expr, *b.loc_expr)
}

/// `b` is the expression `a` with every embedded variable replaced by its
/// image under the mapping (kept unchanged where no pair exists), every
/// child expression substituted recursively, and all other data — literal
/// values, source regions, names, tags, marks — copied unchanged. The
/// reporting-only fields of an opaque-type reference are deliberately not
/// substituted.
pub open spec fn expr_subst(m: Seq<(Variable, Variable)>, a: Expr, b: Expr) -> bool
    decreases a,
{
    match a {
        Expr::Num(v, s, val, bound) => b == Expr::Num(map_var(m, v), s, val, bound),
        Expr::Int(v1, v2, s, val, bound) => b == Expr::Int(
            map_var(m, v1),
            map_var(m, v2),
            s,
            val,
            bound,
        ),
        Expr::Float(v1, v2, s, bound) => b == Expr::Float(map_var(m, v1), map_var(m, v2), s, bound),
        Expr::Str(s) => b == Expr::Str(s),
        Expr::SingleQuote(c) => b == Expr::SingleQuote(c),
        Expr::Var(sym) => b == Expr::Var(sym),
        Expr::EmptyRecord => b == Expr::EmptyRecord,
        Expr::RuntimeError(e) => b == Expr::RuntimeError(e),
        Expr::List { elem_var, loc_elems } => b matches Expr::List {
            elem_var: ev2,
            loc_elems: le2,
        } && ev2 == map_var(m, elem_var) && le2@.len() == loc_elems@.len() && (forall|i: int|
            0 <= i < loc_elems@.len() ==> loc_subst(m, #[trigger] loc_elems@[i], le2@[i])),
        Expr::When {
            loc_cond,
            cond_var,
            expr_var,
            region,
            branches,
            branches_cond_var,
            exhaustive,
        } => b matches Expr::When {
            loc_cond: lc2,
            cond_var: cv2,
            expr_var: ev2,
            region: r2,
            branches: br2,
            branches_cond_var: bcv2,
            exhaustive: ex2,
        } && loc_subst(m, *loc_cond, *lc2) && cv2 == map_var(m, cond_var) && ev2 == map_var(
            m,
            expr_var,
        ) && r2 == region && br2@.len() == branches@.len() && (forall|i: int|
            0 <= i < branches@.len() ==> branch_subst(m, #[trigger] branches@[i], br2@[i])) && bcv2
            == map_var(m, branches_cond_var) && ex2 == exhaustive,
        Expr::If { cond_var, branch_var, branches, final_else } => b matches Expr::If {
            cond_var: cv2,
            branch_var: bv2,
            branches: br2,
            final_else: fe2,
        } && cv2 == map_var(m, cond_var) && bv2 == map_var(m, branch_var) && br2@.len()
            == branches@.len() && (forall|i: int|
            0 <= i < branches@.len() ==> loc_subst(m, (#[trigger] branches@[i]).0, br2@[i].0)
                && loc_subst(m, branches@[i].1, br2@[i].1)) && loc_subst(m, *final_else, *fe2),
        Expr::LetRec(defs, body, v) => b matches Expr::LetRec(defs2, body2, v2) && defs2@.len()
            == defs@.len() && (forall|i: int|
            0 <= i < defs@.len() ==> def_subst(m, #[trigger] defs@[i], defs2@[i])) && loc_subst(
            m,
            *body,
            *body2,
        ) && v2 == map_var(m, v),
        Expr::LetNonRec(d, body, v) => b matches Expr::LetNonRec(d2, body2, v2) && def_subst(
            m,
            *d,
            *d2,
        ) && loc_subst(m, *body, *body2) && v2 == map_var(m, v),
        Expr::Call(f, args, called_via) => b matches Expr::Call(f2, args2, cv2) && f2.0 == map_var(
            m,
            f.0,
        ) && loc_subst(m, f.1, f2.1) && f2.2 == map_var(m, f.2) && f2.3 == map_var(m, f.3)
            && args2@.len() == args@.len() && (forall|i: int|
            0 <= i < args@.len() ==> (#[trigger] args2@[i]).0 == map_var(m, args@[i].0)
                && loc_subst(m, args@[i].1, args2@[i].1)) && cv2 == called_via,
        Expr::RunLowLevel { op, args, ret_var } => b matches Expr::RunLowLevel {
            op: op2,
            args: args2,
            ret_var: rv2,
        } && op2 == op && args2@.len() == args@.len() && (forall|i: int|
            0 <= i < args@.len() ==> (#[trigger] args2@[i]).0 == map_var(m, args@[i].0)
                && expr_subst(m, args@[i].1, args2@[i].1)) && rv2 == map_var(m, ret_var),
        Expr::ForeignCall { foreign_symbol, args, ret_var } => b matches Expr::ForeignCall {
            foreign_symbol: fs2,
            args: args2,
            ret_var: rv2,
        } && fs2 == foreign_symbol && args2@.len() == args@.len() && (forall|i: int|
            0 <= i < args@.len() ==> (#[trigger] args2@[i]).0 == map_var(m, args@[i].0)
                && expr_subst(m, args@[i].1, args2@[i].1)) && rv2 == map_var(m, ret_var),
        Expr::Closure(data) => b matches Expr::Closure(data2) && data2.function_type == map_var(
            m,
            data.function_type,
        ) && data2.closure_type == map_var(m, data.closure_type) && data2.closure_ext_var
            == map_var(m, data.closure_ext_var) && data2.return_type == map_var(
            m,
            data.return_type,
        ) && data2.name == data.name && data2.captured_symbols@.len()
            == data.captured_symbols@.len() && (forall|i: int|
            0 <= i < data.captured_symbols@.len() ==> data2.captured_symbols@[i] == ((
            #[trigger] data.captured_symbols@[i]).0, map_var(m, data.captured_symbols@[i].1)))
            && data2.recursive == data.recursive && data2.arguments@.len() == data.arguments@.len()
            && (forall|i: int|
            0 <= i < data.arguments@.len() ==> data2.arguments@[i] == (
            map_var(m, (#[trigger] data.arguments@[i]).0),
            data.arguments@[i].1,
            data.arguments@[i].2,
        )) && loc_subst(m, *data.loc_body, *data2.loc_body),
        Expr::Record { record_var, fields } => b matches Expr::Record {
            record_var: rv2,
            fields: fs2,
        } && rv2 == map_var(m, record_var) && fs2@.len() == fields@.len() && (forall|i: int|
            0 <= i < fields@.len() ==> (#[trigger] fs2@[i]).0 == fields@[i].0 && field_subst(
                m,
                fields@[i].1,
                fs2@[i].1,
            )),
        Expr::Access { record_var, ext_var, field_var, loc_expr, field } => b matches Expr::Access {
            record_var: rv2,
            ext_var: ev2,
            field_var: fv2,
            loc_expr: le2,
            field: f2,
        } && rv2 == map_var(m, record_var) && ev2 == map_var(m, ext_var) && fv2 == map_var(
            m,
            field_var,
        ) && loc_subst(m, *loc_expr, *le2) && f2 == field,
        Expr::Accessor(data) => b == Expr::Accessor(AccessorData {
            name: data.name,
            function_var: map_var(m, data.function_var),
            record_var: map_var(m, data.record_var),
            closure_var: map_var(m, data.closure_var),
            closure_ext_var: map_var(m, data.closure_ext_var),
            ext_var: map_var(m, data.ext_var),
            field_var: map_var(m, data.field_var),
            field: data.field,
        }),
        Expr::Update { record_var, ext_var, symbol, updates } => b matches Expr::Update {
            record_var: rv2,
            ext_var: ev2,
            symbol: sym2,
            updates: up2,
        } && rv2 == map_var(m, record_var) && ev2 == map_var(m, ext_var) && sym2 == symbol
            && up2@.len() == updates@.len() && (forall|i: int|
            0 <= i < updates@.len() ==> (#[trigger] up2@[i]).0 == updates@[i].0 && field_subst(
                m,
                updates@[i].1,
                up2@[i].1,
            )),
        Expr::Tag { variant_var, ext_var, name, arguments } => b matches Expr::Tag {
            variant_var: vv2,
            ext_var: ev2,
            name: n2,
            arguments: args2,
        } && vv2 == map_var(m, variant_var) && ev2 == map_var(m, ext_var) && n2 == name
            && args2@.len() == arguments@.len() && (forall|i: int|
            0 <= i < arguments@.len() ==> (#[trigger] args2@[i]).0 == map_var(m, arguments@[i].0)
                && loc_subst(m, arguments@[i].1, args2@[i].1)),
        Expr::ZeroArgumentTag { closure_name, variant_var, ext_var, name } => b
            matches Expr::ZeroArgumentTag {
            closure_name: cn2,
            variant_var: vv2,
            ext_var: ev2,
            name: n2,
        } && cn2 == closure_name && vv2 == map_var(m, variant_var) && ev2 == map_var(m, ext_var)
            && n2 == name,
        Expr::OpaqueRef {
            opaque_var,
            name,
            argument,
            specialized_def_type,
            type_arguments,
            lambda_set_variables,
        } => b matches Expr::OpaqueRef {
            opaque_var: ov2,
            name: n2,
            argument: arg2,
            specialized_def_type: sdt2,
            type_arguments: ta2,
            lambda_set_variables: lsv2,
        } && ov2 == map_var(m, opaque_var) && n2 == name && arg2.0 == map_var(m, argument.0)
            && loc_subst(m, argument.1, arg2.1) && sdt2 == specialized_def_type && ta2@
            == type_arguments@ && lsv2@ == lambda_set_variables@,
        Expr::Expect(e1, e2) => b matches Expr::Expect(e1b, e2b) && loc_subst(m, *e1, *e1b)
            && loc_subst(m, *e2, *e2b),
    }
}

/// The image of one variable under the mapping: the recorded fresh variable
/// if the mapping holds a pair for it, the variable itself otherwise.
pub fn substitute_var(m: &Vec<(Variable, Variable)>, v: Variable) -> (r: Variable)
    requires
        distinct_firsts(m@),
    ensures
        r == map_var(m@, v),
{
    let mut i: usize = 0;
    while i < m.len()
        invariant
            distinct_firsts(m@),
            i <= m@.len(),
            forall|k: int| 0 <= k < i ==> (#[trigger] m@[k]).0 != v,
        decreases m@.len() - i,
    {
        if m[i].0 == v {
            proof {
                crate::copy::lemma_map_var_at(m@, i as int);
            }
            return m[i].1;
        }
        i = i + 1;
    }
    proof {
        if in_firsts(m@, v) {
            let j = choose|j: int| 0 <= j < m@.len() && m@[j].0 == v;
            assert(m@[j].0 != v);
            assert(false);
        }
    }
    v
}

/// An element-for-element copy of a vector of plain values.
fn copy_vec<T: Copy>(v: &Vec<T>) -> (r: Vec<T>)
    ensures
        r@ == v@,
{
    let mut r: Vec<T> = Vec::new();
    let mut i: usize = 0;
    while i < v.len()
        invariant
            i <= v@.len(),
            r@ == v@.subrange(0, i as int),
        decreases v@.len() - i,
    {
        r.push(v[i]);
        proof {
            assert(r@ =~= v@.subrange(0, i + 1));
        }
        i = i + 1;
    }
    proof {
        assert(r@ =~= v@);
    }
    r
}

/// A clone of a tag name.
fn clone_tag_name(t: &TagName) -> (r: TagName)
    ensures
        r == *t,
{
    match t {
        TagName::Tag(s) => TagName::Tag(s.clone()),
    }
}

/// The clone of a located expression, with every embedded variable
/// substituted per the mapping.
#[verifier::loop_isolation(false)]
pub fn rewrite_loc(m: &Vec<(Variable, Variable)>, le: &Loc<Expr>) -> (r: Loc<Expr>)
    requires
        distinct_firsts(m@),
    ensures
        loc_subst(m@, *le, r),
    decreases le,
{
    Loc { region: le.region, value: rewrite_expr(m, &le.value) }
}

/// The clone of one let definition under the mapping.
#[verifier::loop_isolation(false)]
fn rewrite_def(m: &Vec<(Variable, Variable)>, d: &Def) -> (r: Def)
    requires
        distinct_firsts(m@),
    ensures
        def_subst(m@, *d, r),
    decreases d,
{
    let mut pattern_vars: Vec<(Symbol, Variable)> = Vec::new();
    let mut i: usize = 0;
    while i < d.pattern_vars.len()
        invariant
            i <= d.pattern_vars@.len(),
            pattern_vars@.len() == i,
            forall|k: int|
                0 <= k < i ==> pattern_vars@[k] == ((#[trigger] d.pattern_vars@[k]).0, map_var(
                    m@,
                    d.pattern_vars@[k].1,
                )),
        decreases d.pattern_vars@.len() - i,
    {
        let p = d.pattern_vars[i];
        pattern_vars.push((p.0, substitute_var(m, p.1)));
        i = i + 1;
    }
    Def {
        loc_pattern: d.loc_pattern,
        loc_expr: rewrite_loc(m, &d.loc_expr),
        expr_var: substitute_var(m, d.expr_var),
        pattern_vars,
        annotation: d.annotation,
    }
}

/// The clone of one `when` branch under the mapping.
#[verifier::loop_isolation(false)]
fn rewrite_branch(m: &Vec<(Variable, Variable)>, br: &WhenBranch) -> (r: WhenBranch)
    requires
        distinct_firsts(m@),
    ensures
        branch_subst(m@, *br, r),
    decreases br,
{
    let guard = match &br.guard {
        Some(g) => Some(rewrite_loc(m, g)),
        None => None,
    };
    WhenBranch {
        patterns: copy_vec(&br.patterns),
        value: rewrite_loc(m, &br.value),
        guard,
        redundant: br.redundant,
    }
}

/// The clone of one record field under the mapping.
#[verifier::loop_isolation(false)]
fn rewrite_field(m: &Vec<(Variable, Variable)>, f: &Field) -> (r: Field)
    requires
        distinct_firsts(m@),
    ensures
        field_subst(m@, *f, r),
    decreases f,
{
    Field {
        var: substitute_var(m, f.var),
        region: f.region,
        loc_expr: Box::new(rewrite_loc(m, &f.loc_expr)),
    }
}

/// A structurally identical clone of the expression with every embedded
/// variable replaced by its image in the mapping if present, else left
/// unchanged. Non-variable leaf data is copied unchanged; the
/// reporting-only fields of an opaque-type reference are deliberately not
/// substituted, since they are used only for error messages after
/// specialization.
#[verifier::loop_isolation(false)]
pub fn rewrite_expr(m: &Vec<(Variable, Variable)>, e: &Expr) -> (r: Expr)
    requires
        distinct_firsts(m@),
    ensures
        expr_subst(m@, *e, r),
    decreases e,
{
    match e {
        Expr::Num(v, s, val, bound) => Expr::Num(substitute_var(m, *v), s.clone(), *val, *bound),
        Expr::Int(v1, v2, s, val, bound) => Expr::Int(
            substitute_var(m, *v1),
            substitute_var(m, *v2),
            s.clone(),
            *val,
            *bound,
        ),
        Expr::Float(v1, v2, s, bound) => Expr::Float(
            substitute_var(m, *v1),
            substitute_var(m, *v2),
            s.clone(),
            *bound,
        ),
        Expr::Str(s) => Expr::Str(s.clone()),
        Expr::SingleQuote(c) => Expr::SingleQuote(*c),
        Expr::Var(sym) => Expr::Var(*sym),
        Expr::EmptyRecord => Expr::EmptyRecord,
        Expr::RuntimeError(err) => Expr::RuntimeError(err.clone()),
        Expr::List { elem_var, loc_elems } => {
            let mut out: Vec<Loc<Expr>> = Vec::new();
            let mut i: usize = 0;
            while i < loc_elems.len()
                invariant
                    i <= loc_elems@.len(),
                    out@.len() == i,
                    forall|k: int|
                        0 <= k < i ==> loc_subst(m@, #[trigger] loc_elems@[k], out@[k]),
                decreases loc_elems@.len() - i,
            {
                let x = rewrite_loc(m, &loc_elems[i]);
                out.push(x);
                i = i + 1;
            }
            Expr::List { elem_var: substitute_var(m, *elem_var), loc_elems: out }
        }
        Expr::When {
            loc_cond,
            cond_var,
            expr_var,
            region,
            branches,
            branches_cond_var,
            exhaustive,
        } => {
            let mut out: Vec<WhenBranch> = Vec::new();
            let mut i: usize = 0;
            while i < branches.len()
                invariant
                    i <= branches@.len(),
                    out@.len() == i,
                    forall|k: int|
                        0 <= k < i ==> branch_subst(m@, #[trigger] branches@[k], out@[k]),
                decreases branches@.len() - i,
            {
                let x = rewrite_branch(m, &branches[i]);
                out.push(x);
                i = i + 1;
            }
            Expr::When {
                loc_cond: Box::new(rewrite_loc(m, loc_cond)),
                cond_var: substitute_var(m, *cond_var),
                expr_var: substitute_var(m, *expr_var),
                region: *region,
                branches: out,
                branches_cond_var: substitute_var(m, *branches_cond_var),
                exhaustive: *exhaustive,
            }
        }
        Expr::If { cond_var, branch_var, branches, final_else } => {
            let mut out: Vec<(Loc<Expr>, Loc<Expr>)> = Vec::new();
            let mut i: usize = 0;
            while i < branches.len()
                invariant
                    i <= branches@.len(),
                    out@.len() == i,
                    forall|k: int|
                        0 <= k < i ==> loc_subst(m@, (#[trigger] branches@[k]).0, out@[k].0)
                            && loc_subst(m@, branches@[k].1, out@[k].1),
                decreases branches@.len() - i,
            {
                let c = rewrite_loc(m, &branches[i].0);
                let v = rewrite_loc(m, &branches[i].1);
                out.push((c, v));
                i = i + 1;
            }
            Expr::If {
                cond_var: substitute_var(m, *cond_var),
                branch_var: substitute_var(m, *branch_var),
                branches: out,
                final_else: Box::new(rewrite_loc(m, final_else)),
            }
        }
        Expr::LetRec(defs, body, v) => {
            let mut out: Vec<Def> = Vec::new();
            let mut i: usize = 0;
            while i < defs.len()
                invariant
                    i <= defs@.len(),
                    out@.len() == i,
                    forall|k: int| 0 <= k < i ==> def_subst(m@, #[trigger] defs@[k], out@[k]),
                decreases defs@.len() - i,
            {
                let x = rewrite_def(m, &defs[i]);
                out.push(x);
                i = i + 1;
            }
            Expr::LetRec(out, Box::new(rewrite_loc(m, body)), substitute_var(m, *v))
        }
        Expr::LetNonRec(d, body, v) => Expr::LetNonRec(
            Box::new(rewrite_def(m, d)),
            Box::new(rewrite_loc(m, body)),
            substitute_var(m, *v),
        ),
        Expr::Call(f, args, called_via) => {
            let mut out: Vec<(Variable, Loc<Expr>)> = Vec::new();
            let mut i: usize = 0;
            while i < args.len()
                invariant
                    i <= args@.len(),
                    out@.len() == i,
                    forall|k: int|
                        0 <= k < i ==> (#[trigger] out@[k]).0 == map_var(m@, args@[k].0)
                            && loc_subst(m@, args@[k].1, out@[k].1),
                decreases args@.len() - i,
            {
                let av = substitute_var(m, args[i].0);
                let ae = rewrite_loc(m, &args[i].1);
                out.push((av, ae));
                i = i + 1;
            }
            Expr::Call(
                Box::new(
                    (
                        substitute_var(m, f.0),
                        rewrite_loc(m, &f.1),
                        substitute_var(m, f.2),
                        substitute_var(m, f.3),
                    ),
                ),
                out,
                *called_via,
            )
        }
        Expr::RunLowLevel { op, args, ret_var } => {
            let mut out: Vec<(Variable, Expr)> = Vec::new();
            let mut i: usize = 0;
            while i < args.len()
                invariant
                    i <= args@.len(),
                    out@.len() == i,
                    forall|k: int|
                        0 <= k < i ==> (#[trigger] out@[k]).0 == map_var(m@, args@[k].0)
                            && expr_subst(m@, args@[k].1, out@[k].1),
                decreases args@.len() - i,
            {
                let av = substitute_var(m, args[i].0);
                let ae = rewrite_expr(m, &args[i].1);
                out.push((av, ae));
                i = i + 1;
            }
            Expr::RunLowLevel { op: *op, args: out, ret_var: substitute_var(m, *ret_var) }
        }
        Expr::ForeignCall { foreign_symbol, args, ret_var } => {
            let mut out: Vec<(Variable, Expr)> = Vec::new();
            let mut i: usize = 0;
            while i < args.len()
                invariant
                    i <= args@.len(),
                    out@.len() == i,
                    forall|k: int|
                        0 <= k < i ==> (#[trigger] out@[k]).0 == map_var(m@, args@[k].0)
                            && expr_subst(m@, args@[k].1, out@[k].1),
                decreases args@.len() - i,
            {
                let av = substitute_var(m, args[i].0);
                let ae = rewrite_expr(m, &args[i].1);
                out.push((av, ae));
                i = i + 1;
            }
            Expr::ForeignCall {
                foreign_symbol: foreign_symbol.clone(),
                args: out,
                ret_var: substitute_var(m, *ret_var),
            }
        }
        Expr::Closure(data) => {
            let mut captured: Vec<(Symbol, Variable)> = Vec::new();
            let mut i: usize = 0;
            while i < data.captured_symbols.len()
                invariant
                    i <= data.captured_symbols@.len(),
                    captured@.len() == i,
                    forall|k: int|
                        0 <= k < i ==> captured@[k] == ((
                        #[trigger] data.captured_symbols@[k]).0, map_var(
                            m@,
                            data.captured_symbols@[k].1,
                        )),
                decreases data.captured_symbols@.len() - i,
            {
                let p = data.captured_symbols[i];
                captured.push((p.0, substitute_var(m, p.1)));
                i = i + 1;
            }
            let mut arguments: Vec<(Variable, AnnotatedMark, Loc<Pattern>)> = Vec::new();
            let mut k: usize = 0;
            while k < data.arguments.len()
                invariant
                    k <= data.arguments@.len(),
                    arguments@.len() == k,
                    forall|k2: int|
                        0 <= k2 < k ==> arguments@[k2] == (
                        map_var(m@, (#[trigger] data.arguments@[k2]).0),
                        data.arguments@[k2].1,
                        data.arguments@[k2].2,
                    ),
                decreases data.arguments@.len() - k,
            {
                let a = data.arguments[k];
                arguments.push((substitute_var(m, a.0), a.1, a.2));
                k = k + 1;
            }
            Expr::Closure(ClosureData {
                function_type: substitute_var(m, data.function_type),
                closure_type: substitute_var(m, data.closure_type),
                closure_ext_var: substitute_var(m, data.closure_ext_var),
                return_type: substitute_var(m, data.return_type),
                name: data.name,
                captured_symbols: captured,
                recursive: data.recursive,
                arguments,
                loc_body: Box::new(rewrite_loc(m, &data.loc_body)),
            })
        }
        Expr::Record { record_var, fields } => {
            let mut out: Vec<(String, Field)> = Vec::new();
            let mut i: usize = 0;
            while i < fields.len()
                invariant
                    i <= fields@.len(),
                    out@.len() == i,
                    forall|k: int|
                        0 <= k < i ==> (#[trigger] out@[k]).0 == fields@[k].0 && field_subst(
                            m@,
                            fields@[k].1,
                            out@[k].1,
                        ),
                decreases fields@.len() - i,
            {
                let name = fields[i].0.clone();
                let fld = rewrite_field(m, &fields[i].1);
                out.push((name, fld));
                i = i + 1;
            }
            Expr::Record { record_var: substitute_var(m, *record_var), fields: out }
        }
        Expr::Access { record_var, ext_var, field_var, loc_expr, field } => Expr::Access {
            record_var: substitute_var(m, *record_var),
            ext_var: substitute_var(m, *ext_var),
            field_var: substitute_var(m, *field_var),
            loc_expr: Box::new(rewrite_loc(m, loc_expr)),
            field: field.clone(),
        },
        Expr::Accessor(data) => Expr::Accessor(AccessorData {
            name: data.name,
            function_var: substitute_var(m, data.function_var),
            record_var: substitute_var(m, data.record_var),
            closure_var: substitute_var(m, data.closure_var),
            closure_ext_var: substitute_var(m, data.closure_ext_var),
            ext_var: substitute_var(m, data.ext_var),
            field_var: substitute_var(m, data.field_var),
            field: data.field.clone(),
        }),
        Expr::Update { record_var, ext_var, symbol, updates } => {
            let mut out: Vec<(String, Field)> = Vec::new();
            let mut i: usize = 0;
            while i < updates.len()
                invariant
                    i <= updates@.len(),
                    out@.len() == i,
                    forall|k: int|
                        0 <= k < i ==> (#[trigger] out@[k]).0 == updates@[k].0 && field_subst(
                            m@,
                            updates@[k].1,
                            out@[k].1,
                        ),
                decreases updates@.len() - i,
            {
                let name = updates[i].0.clone();
                let fld = rewrite_field(m, &updates[i].1);
                out.push((name, fld));
                i = i + 1;
            }
            Expr::Update {
                record_var: substitute_var(m, *record_var),
                ext_var: substitute_var(m, *ext_var),
                symbol: *symbol,
                updates: out,
            }
        }
        Expr::Tag { variant_var, ext_var, name, arguments } => {
            let mut out: Vec<(Variable, Loc<Expr>)> = Vec::new();
            let mut i: usize = 0;
            while i < arguments.len()
                invariant
                    i <= arguments@.len(),
                    out@.len() == i,
                    forall|k: int|
                        0 <= k < i ==> (#[trigger] out@[k]).0 == map_var(m@, arguments@[k].0)
                            && loc_subst(m@, arguments@[k].1, out@[k].1),
                decreases arguments@.len() - i,
            {
                let av = substitute_var(m, arguments[i].0);
                let ae = rewrite_loc(m, &arguments[i].1);
                out.push((av, ae));
                i = i + 1;
            }
            Expr::Tag {
                variant_var: substitute_var(m, *variant_var),
                ext_var: substitute_var(m, *ext_var),
                name: clone_tag_name(name),
                arguments: out,
            }
        }
        Expr::ZeroArgumentTag { closure_name, variant_var, ext_var, name } => {
            Expr::ZeroArgumentTag {
                closure_name: *closure_name,
                variant_var: substitute_var(m, *variant_var),
                ext_var: substitute_var(m, *ext_var),
                name: clone_tag_name(name),
            }
        }
        Expr::OpaqueRef {
            opaque_var,
            name,
            argument,
            specialized_def_type,
            type_arguments,
            lambda_set_variables,
        } => Expr::OpaqueRef {
            opaque_var: substitute_var(m, *opaque_var),
            name: *name,
            argument: Box::new((substitute_var(m, argument.0), rewrite_loc(m, &argument.1))),
            specialized_def_type: *specialized_def_type,
            type_arguments: copy_vec(type_arguments),
            lambda_set_variables: copy_vec(lambda_set_variables),
        },
        Expr::Expect(e1, e2) => Expr::Expect(
            Box::new(rewrite_loc(m, e1)),
            Box::new(rewrite_loc(m, e2)),
        ),
    }
}

} // verus!

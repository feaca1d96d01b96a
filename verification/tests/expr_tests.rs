use subs_copy::copy::deep_copy_type_vars_into_expr;
use subs_copy::expr::{Expr, Loc, Region};
use subs_copy::subs::{Content, Descriptor, FlatType, Mark, Rank, Subs, TagName, Variable};

fn fresh_var(subs: &mut Subs, content: Content) -> Variable {
    subs.fresh(Descriptor { content, rank: Rank::toplevel(), mark: Mark::none(), copy: None })
}

fn region() -> Region {
    Region { start: 0, end: 0 }
}

#[test]
fn tag_expression_is_rewritten_with_fresh_variables() {
    let mut subs = Subs::new();

    let flex_var = fresh_var(&mut subs, Content::FlexVar(None));
    let union_tags = subs.insert_union_tags(&vec![(TagName::Tag("A".to_string()), vec![flex_var])]);
    let tag_var = fresh_var(
        &mut subs,
        Content::Structure(FlatType::TagUnion(union_tags, Variable::empty_tag_union())),
    );

    let expr = Expr::Tag {
        variant_var: tag_var,
        ext_var: Variable::empty_tag_union(),
        name: TagName::Tag("A".to_string()),
        arguments: vec![(
            flex_var,
            Loc { region: region(), value: Expr::Str("payload".to_string()) },
        )],
    };

    let result = deep_copy_type_vars_into_expr(&mut subs, tag_var, &expr);
    let (new_root, new_expr) = result.expect("a type with flex variables must be copied");

    let copies_flex = match subs.get(new_root).content {
        Content::Structure(FlatType::TagUnion(t, _)) => {
            let payload = subs.variable_slice_at(t.variables_start);
            subs.variable_at(payload.start)
        }
        it => panic!("{:?}", it),
    };
    assert_ne!(new_root, tag_var);
    assert_ne!(copies_flex, flex_var);

    match new_expr {
        Expr::Tag { variant_var, ext_var, name, arguments } => {
            assert_eq!(variant_var, new_root);
            assert_eq!(ext_var, Variable::empty_tag_union());
            assert_eq!(name, TagName::Tag("A".to_string()));
            assert_eq!(arguments.len(), 1);
            assert_eq!(arguments[0].0, copies_flex);
            match &arguments[0].1.value {
                Expr::Str(s) => assert_eq!(s.as_str(), "payload"),
                it => panic!("{:?}", it),
            }
        }
        it => panic!("{:?}", it),
    }
}

#[test]
fn closed_type_needs_no_expression_copy() {
    let mut subs = Subs::new();

    let record_var = fresh_var(&mut subs, Content::Structure(FlatType::EmptyRecord));
    let expr = Expr::EmptyRecord;
    let len_before = subs.utable.len();

    let result = deep_copy_type_vars_into_expr(&mut subs, record_var, &expr);

    assert!(result.is_none());
    assert_eq!(subs.utable.len(), len_before);
}

#[test]
fn variables_outside_the_mapping_stay_aliased() {
    let mut subs = Subs::new();

    let flex_var = fresh_var(&mut subs, Content::FlexVar(None));
    let unrelated = fresh_var(&mut subs, Content::Structure(FlatType::EmptyRecord));

    // The expression mentions a variable that is not reachable from the
    // copied root: it must be left unchanged in the clone.
    let expr = Expr::List {
        elem_var: unrelated,
        loc_elems: vec![Loc { region: region(), value: Expr::Var(subs_copy::subs::Symbol(4)) }],
    };

    let (_, new_expr) = deep_copy_type_vars_into_expr(&mut subs, flex_var, &expr)
        .expect("a flex variable root must be copied");

    match new_expr {
        Expr::List { elem_var, loc_elems } => {
            assert_eq!(elem_var, unrelated);
            assert_eq!(loc_elems.len(), 1);
            assert!(matches!(loc_elems[0].value, Expr::Var(subs_copy::subs::Symbol(4))));
        }
        it => panic!("{:?}", it),
    }
}

#[test]
fn opaque_reference_diagnostics_are_not_substituted() {
    let mut subs = Subs::new();

    let flex_var = fresh_var(&mut subs, Content::FlexVar(None));

    // The reporting-only fields mention the copied variable on purpose:
    // the rewriter must leave them aliased to the original.
    let expr = Expr::OpaqueRef {
        opaque_var: flex_var,
        name: subs_copy::subs::Symbol(11),
        argument: Box::new((
            flex_var,
            Loc { region: region(), value: Expr::SingleQuote('x') },
        )),
        specialized_def_type: flex_var,
        type_arguments: vec![flex_var],
        lambda_set_variables: vec![flex_var],
    };

    let (new_root, new_expr) = deep_copy_type_vars_into_expr(&mut subs, flex_var, &expr)
        .expect("a flex variable root must be copied");
    assert_ne!(new_root, flex_var);

    match new_expr {
        Expr::OpaqueRef {
            opaque_var,
            name,
            argument,
            specialized_def_type,
            type_arguments,
            lambda_set_variables,
        } => {
            assert_eq!(opaque_var, new_root);
            assert_eq!(name, subs_copy::subs::Symbol(11));
            assert_eq!(argument.0, new_root);
            assert!(matches!(argument.1.value, Expr::SingleQuote('x')));
            assert_eq!(specialized_def_type, flex_var);
            assert_eq!(type_arguments, vec![flex_var]);
            assert_eq!(lambda_set_variables, vec![flex_var]);
        }
        it => panic!("{:?}", it),
    }
}

#[test]
fn call_expression_substitutes_every_embedded_variable() {
    let mut subs = Subs::new();

    let fn_var = fresh_var(&mut subs, Content::FlexVar(None));
    let start = subs.variables.len();
    subs.variables.push(fn_var);
    let args = subs_copy::subs::VarSlice { start, length: 1 };
    let func_var = fresh_var(
        &mut subs,
        Content::Structure(FlatType::Func(args, fn_var, fn_var)),
    );

    let expr = Expr::Call(
        Box::new((
            func_var,
            Loc { region: region(), value: Expr::Var(subs_copy::subs::Symbol(1)) },
            fn_var,
            fn_var,
        )),
        vec![(fn_var, Loc { region: region(), value: Expr::EmptyRecord })],
        subs_copy::expr::CalledVia(0),
    );

    let (new_root, new_expr) = deep_copy_type_vars_into_expr(&mut subs, func_var, &expr)
        .expect("a function over a flex variable must be copied");

    let new_fn_var = match subs.get(new_root).content {
        Content::Structure(FlatType::Func(_, clos, _)) => clos,
        it => panic!("{:?}", it),
    };
    assert_ne!(new_fn_var, fn_var);

    match new_expr {
        Expr::Call(f, call_args, _) => {
            assert_eq!(f.0, new_root);
            assert_eq!(f.2, new_fn_var);
            assert_eq!(f.3, new_fn_var);
            assert_eq!(call_args.len(), 1);
            assert_eq!(call_args[0].0, new_fn_var);
        }
        it => panic!("{:?}", it),
    }
}

use subs_copy::copy::deep_copy_type_vars;
use subs_copy::subs::{
    Content, Descriptor, FlatType, Mark, Rank, RecordField, Subs, TagName, TagNameIndex, VarSlice,
    Variable,
};

fn new_var(subs: &mut Subs, content: Content) -> Variable {
    subs.fresh(Descriptor { content, rank: Rank::toplevel(), mark: Mark::none(), copy: None })
}

#[test]
fn copy_flex_var() {
    let mut subs = Subs::new();

    let field_name = subs.push_field_name("a".to_string());
    let var = new_var(&mut subs, Content::FlexVar(Some(field_name)));

    let mut copies = deep_copy_type_vars(&mut subs, var);

    assert_eq!(copies.len(), 1);
    let (original, new) = copies.pop().unwrap();
    assert_ne!(original, new);

    assert_eq!(original, var);
    match subs.get(new).content {
        Content::FlexVar(Some(name)) => {
            assert_eq!(subs.field_name(name).as_str(), "a");
        }
        it => panic!("{:?}", it),
    }
}

#[test]
fn copy_rigid_var() {
    let mut subs = Subs::new();

    let field_name = subs.push_field_name("a".to_string());
    let var = new_var(&mut subs, Content::RigidVar(field_name));

    let mut copies = deep_copy_type_vars(&mut subs, var);

    assert_eq!(copies.len(), 1);
    let (original, new) = copies.pop().unwrap();
    assert_ne!(original, new);

    assert_eq!(original, var);
    match subs.get(new).content {
        Content::RigidVar(name) => {
            assert_eq!(subs.field_name(name).as_str(), "a");
        }
        it => panic!("{:?}", it),
    }
}

#[test]
fn copy_flex_able_var() {
    let mut subs = Subs::new();

    let field_name = subs.push_field_name("a".to_string());
    let var = new_var(
        &mut subs,
        Content::FlexAbleVar(Some(field_name), subs_copy::subs::Symbol::underscore()),
    );

    let mut copies = deep_copy_type_vars(&mut subs, var);

    assert_eq!(copies.len(), 1);
    let (original, new) = copies.pop().unwrap();
    assert_ne!(original, new);

    assert_eq!(original, var);
    match subs.get(new).content {
        Content::FlexAbleVar(Some(name), ability) => {
            assert_eq!(ability, subs_copy::subs::Symbol::underscore());
            assert_eq!(subs.field_name(name).as_str(), "a");
        }
        it => panic!("{:?}", it),
    }
}

#[test]
fn copy_rigid_able_var() {
    let mut subs = Subs::new();

    let field_name = subs.push_field_name("a".to_string());
    let var = new_var(
        &mut subs,
        Content::RigidAbleVar(field_name, subs_copy::subs::Symbol::underscore()),
    );

    let mut copies = deep_copy_type_vars(&mut subs, var);

    assert_eq!(copies.len(), 1);
    let (original, new) = copies.pop().unwrap();
    assert_ne!(original, new);

    assert_eq!(original, var);
    match subs.get(new).content {
        Content::RigidAbleVar(name, ability) => {
            assert_eq!(ability, subs_copy::subs::Symbol::underscore());
            assert_eq!(subs.field_name(name).as_str(), "a");
        }
        it => panic!("{:?}", it),
    }
}

#[test]
fn types_without_type_vars_should_not_be_copied() {
    let mut subs = Subs::new();

    let rec_structure = new_var(&mut subs, Content::Structure(FlatType::EmptyTagUnion));
    let record_fields = subs.insert_record_fields(&vec![(
        "a".to_string(),
        RecordField::Required(Variable::bool_type()),
    )]);
    let tag_union = subs.insert_union_tags(&vec![(
        TagName::Tag("A".to_string()),
        vec![Variable::bool_type()],
    )]);
    let rec_tag_union = subs.insert_union_tags(&vec![(
        TagName::Tag("A".to_string()),
        vec![Variable::bool_type()],
    )]);

    let cases = [
        Content::RecursionVar { structure: rec_structure, opt_name: None },
        Content::Structure(FlatType::Record(record_fields, Variable::empty_record())),
        Content::Structure(FlatType::TagUnion(tag_union, Variable::empty_tag_union())),
        Content::Structure(FlatType::RecursiveTagUnion(
            Variable::empty_tag_union(),
            rec_tag_union,
            Variable::empty_tag_union(),
        )),
        Content::Error,
    ];

    for &content in cases.iter() {
        let var = new_var(&mut subs, content);

        let copies = deep_copy_type_vars(&mut subs, var);

        assert!(copies.is_empty());
    }
}

#[test]
fn copy_type_with_copied_reference() {
    let mut subs = Subs::new();

    let flex_var = new_var(&mut subs, Content::FlexVar(None));

    let union_tags = subs.insert_union_tags(&vec![(TagName::Tag("A".to_string()), vec![flex_var])]);
    let content = Content::Structure(FlatType::TagUnion(union_tags, Variable::empty_tag_union()));

    let tag_var = new_var(&mut subs, content);

    let copies = deep_copy_type_vars(&mut subs, tag_var);

    assert_eq!(copies.len(), 2);
    let (original_flex, new_flex) = copies[0];
    assert_ne!(original_flex, new_flex);
    assert_eq!(original_flex, flex_var);

    let (original_tag, new_tag) = copies[1];
    assert_ne!(original_tag, new_tag);
    assert_eq!(original_tag, tag_var);

    match subs.get(new_tag).content {
        Content::Structure(FlatType::TagUnion(union_tags, ext)) => {
            assert_eq!(ext, Variable::empty_tag_union());
            assert_eq!(union_tags.length, 1);
            match subs.tag_name(TagNameIndex(union_tags.tag_names_start)) {
                TagName::Tag(upper) => assert_eq!(upper.as_str(), "A"),
            }

            let vars: VarSlice = subs.variable_slice_at(union_tags.variables_start);
            assert_eq!(vars.length, 1);

            let var = subs.variable_at(vars.start);
            assert_eq!(var, new_flex);
        }
        it => panic!("{:?}", it),
    }

    assert!(matches!(subs.get(new_flex).content, Content::FlexVar(None)));
}

#[test]
fn closed_record_yields_no_pairs() {
    let mut subs = Subs::new();

    let fields = subs.insert_record_fields(&vec![
        ("x".to_string(), RecordField::Required(Variable::bool_type())),
        ("y".to_string(), RecordField::Optional(Variable::empty_record())),
    ]);
    let record_var = new_var(
        &mut subs,
        Content::Structure(FlatType::Record(fields, Variable::empty_record())),
    );
    let len_before = subs.utable.len();

    let copies = deep_copy_type_vars(&mut subs, record_var);

    assert!(copies.is_empty());
    assert_eq!(subs.utable.len(), len_before);
}

#[test]
fn shared_flex_var_copied_once() {
    let mut subs = Subs::new();

    let flex_var = new_var(&mut subs, Content::FlexVar(None));

    // Two distinct paths reach the same flex variable: once through the
    // argument slice and once as the return type.
    let start = subs.variables.len();
    subs.variables.push(flex_var);
    let args = VarSlice { start, length: 1 };
    let func_var = new_var(
        &mut subs,
        Content::Structure(FlatType::Func(args, Variable::bool_type(), flex_var)),
    );

    let copies = deep_copy_type_vars(&mut subs, func_var);

    assert_eq!(copies.len(), 2);
    let flex_pairs: Vec<_> = copies.iter().filter(|p| p.0 == flex_var).collect();
    assert_eq!(flex_pairs.len(), 1);
    let new_flex = flex_pairs[0].1;

    let new_func = copies.iter().find(|p| p.0 == func_var).unwrap().1;
    match subs.get(new_func).content {
        Content::Structure(FlatType::Func(new_args, clos, ret)) => {
            assert_eq!(new_args.length, 1);
            assert_eq!(subs.variable_at(new_args.start), new_flex);
            assert_eq!(clos, Variable::bool_type());
            assert_eq!(ret, new_flex);
        }
        it => panic!("{:?}", it),
    }
}

#[test]
fn recursive_tag_union_terminates_and_points_to_fresh() {
    let mut subs = Subs::new();

    let flex_var = new_var(&mut subs, Content::FlexVar(None));
    let rec_var = new_var(&mut subs, Content::Error);
    let tags = subs.insert_union_tags(&vec![(
        TagName::Tag("Cons".to_string()),
        vec![flex_var, rec_var],
    )]);
    let tag_var = new_var(
        &mut subs,
        Content::Structure(FlatType::RecursiveTagUnion(rec_var, tags, Variable::empty_tag_union())),
    );
    // Tie the knot: the recursion variable points back at the union.
    subs.set_content(rec_var, Content::RecursionVar { structure: tag_var, opt_name: None });

    let copies = deep_copy_type_vars(&mut subs, tag_var);

    assert_eq!(copies.len(), 3);
    let image = |v: Variable| copies.iter().find(|p| p.0 == v).unwrap().1;
    let new_flex = image(flex_var);
    let new_rec = image(rec_var);
    let new_tag = image(tag_var);

    match subs.get(new_rec).content {
        Content::RecursionVar { structure, opt_name } => {
            assert_eq!(structure, new_tag);
            assert_eq!(opt_name, None);
        }
        it => panic!("{:?}", it),
    }
    match subs.get(new_tag).content {
        Content::Structure(FlatType::RecursiveTagUnion(r, t, ext)) => {
            assert_eq!(r, new_rec);
            assert_eq!(ext, Variable::empty_tag_union());
            assert_eq!(t.length, 1);
            let payload = subs.variable_slice_at(t.variables_start);
            assert_eq!(payload.length, 2);
            assert_eq!(subs.variable_at(payload.start), new_flex);
            assert_eq!(subs.variable_at(payload.start + 1), new_rec);
        }
        it => panic!("{:?}", it),
    }
}

#[test]
fn scratch_marks_clean_after_copy() {
    let mut subs = Subs::new();

    let flex_var = new_var(&mut subs, Content::FlexVar(None));
    let union_tags = subs.insert_union_tags(&vec![(TagName::Tag("A".to_string()), vec![flex_var])]);
    let tag_var = new_var(
        &mut subs,
        Content::Structure(FlatType::TagUnion(union_tags, Variable::empty_tag_union())),
    );

    let copies = deep_copy_type_vars(&mut subs, tag_var);
    assert_eq!(copies.len(), 2);

    for descriptor in subs.utable.iter() {
        assert!(descriptor.copy.is_none());
    }
}

#[test]
fn rank_and_mark_copied_verbatim() {
    let mut subs = Subs::new();

    let var = subs.fresh(Descriptor {
        content: Content::FlexVar(None),
        rank: Rank(7),
        mark: Mark(3),
        copy: None,
    });

    let copies = deep_copy_type_vars(&mut subs, var);
    assert_eq!(copies.len(), 1);
    let fresh = copies[0].1;
    assert_eq!(subs.get(fresh).rank, Rank(7));
    assert_eq!(subs.get(fresh).mark, Mark(3));
    assert!(subs.get(fresh).copy.is_none());
}

#[test]
fn multi_tag_union_clones_every_payload_slice() {
    let mut subs = Subs::new();

    let flex_var = new_var(&mut subs, Content::FlexVar(None));
    let tags = subs.insert_union_tags(&vec![
        (TagName::Tag("Left".to_string()), vec![flex_var, Variable::bool_type()]),
        (TagName::Tag("Right".to_string()), vec![]),
        (TagName::Tag("Both".to_string()), vec![flex_var]),
    ]);
    let tag_var = new_var(
        &mut subs,
        Content::Structure(FlatType::TagUnion(tags, Variable::empty_tag_union())),
    );

    let copies = deep_copy_type_vars(&mut subs, tag_var);

    assert_eq!(copies.len(), 2);
    let new_flex = copies.iter().find(|p| p.0 == flex_var).unwrap().1;
    let new_tag = copies.iter().find(|p| p.0 == tag_var).unwrap().1;

    match subs.get(new_tag).content {
        Content::Structure(FlatType::TagUnion(new_tags, ext)) => {
            assert_eq!(ext, Variable::empty_tag_union());
            assert_eq!(new_tags.length, 3);
            // The tag names are shared with the original union.
            assert_eq!(new_tags.tag_names_start, tags.tag_names_start);

            let left = subs.variable_slice_at(new_tags.variables_start);
            assert_eq!(left.length, 2);
            assert_eq!(subs.variable_at(left.start), new_flex);
            assert_eq!(subs.variable_at(left.start + 1), Variable::bool_type());

            let right = subs.variable_slice_at(new_tags.variables_start + 1);
            assert_eq!(right.length, 0);

            let both = subs.variable_slice_at(new_tags.variables_start + 2);
            assert_eq!(both.length, 1);
            assert_eq!(subs.variable_at(both.start), new_flex);
        }
        it => panic!("{:?}", it),
    }
}

#[test]
fn ranged_number_candidates_are_substituted() {
    let mut subs = Subs::new();

    let flex_var = new_var(&mut subs, Content::FlexVar(None));
    let start = subs.variables.len();
    subs.variables.push(Variable::bool_type());
    subs.variables.push(flex_var);
    let range = VarSlice { start, length: 2 };
    let number_var = new_var(&mut subs, Content::RangedNumber(flex_var, range));

    let copies = deep_copy_type_vars(&mut subs, number_var);

    assert_eq!(copies.len(), 2);
    let new_flex = copies.iter().find(|p| p.0 == flex_var).unwrap().1;
    let new_number = copies.iter().find(|p| p.0 == number_var).unwrap().1;
    match subs.get(new_number).content {
        Content::RangedNumber(typ, new_range) => {
            assert_eq!(typ, new_flex);
            assert_eq!(new_range.length, 2);
            assert_eq!(subs.variable_at(new_range.start), Variable::bool_type());
            assert_eq!(subs.variable_at(new_range.start + 1), new_flex);
        }
        it => panic!("{:?}", it),
    }
}

#[test]
fn alias_argument_is_substituted() {
    let mut subs = Subs::new();

    let flex_var = new_var(&mut subs, Content::FlexVar(None));
    let start = subs.variables.len();
    subs.variables.push(flex_var);
    let args = subs_copy::subs::AliasVariables {
        variables_start: start,
        type_variables_len: 1,
        all_variables_len: 1,
    };
    let alias_var = new_var(
        &mut subs,
        Content::Alias(
            subs_copy::subs::Symbol(9),
            args,
            Variable::bool_type(),
            subs_copy::subs::AliasKind::Transparent,
        ),
    );

    let copies = deep_copy_type_vars(&mut subs, alias_var);

    assert_eq!(copies.len(), 2);
    let new_flex = copies.iter().find(|p| p.0 == flex_var).unwrap().1;
    let new_alias = copies.iter().find(|p| p.0 == alias_var).unwrap().1;
    match subs.get(new_alias).content {
        Content::Alias(sym, new_args, real_var, kind) => {
            assert_eq!(sym, subs_copy::subs::Symbol(9));
            assert_eq!(kind, subs_copy::subs::AliasKind::Transparent);
            assert_eq!(real_var, Variable::bool_type());
            assert_eq!(new_args.all_variables_len, 1);
            assert_eq!(new_args.type_variables_len, 1);
            assert_eq!(subs.variable_at(new_args.variables_start), new_flex);
        }
        it => panic!("{:?}", it),
    }
}

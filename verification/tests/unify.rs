//! Tests of the schema unifier and the LC_TIME repairs.

use pure_rust_locales::generator::{Category, CodeGenerator, ContainerType, Meta, SchemaError, Type, Value};
use pure_rust_locales::fixes::{validate_and_fix, validate_and_fix_t_fmt_ampm};
use pure_rust_locales::parser::{parse, Object, Value as PValue};

fn locale(name: &str, text: &str) -> (String, Vec<Object>) {
    (name.to_string(), parse(text).unwrap())
}

fn field<'a>(cat: &'a Category, key: &str) -> &'a Value {
    match cat {
        Category::Fields(f) => {
            for (k, v) in f.iter() {
                if k == key {
                    return v;
                }
            }
            panic!("field not found: {}", key);
        },
        Category::Link(_, _) => panic!("category is a link"),
    }
}

#[test]
fn simple_test_it_works() {
    let input = "comment_char %\nescape_char /\nLC_TIME\nd_fmt \"%d<U002F>%m<U002F>%y\"\nfirst_weekday 2\nEND LC_TIME";
    let gen = CodeGenerator::new(vec![locale("fr_BE", input)]).unwrap();
    let cat = gen.category("fr_BE", "LC_TIME").unwrap();
    assert_eq!(
        field(cat, "D_FMT"),
        &Value::Literal(PValue::String("%d/%m/%y".to_string()))
    );
    assert_eq!(field(cat, "FIRST_WEEKDAY"), &Value::Literal(PValue::Integer(2_i64)));
}

#[test]
fn am_pm_pair_is_one_array() {
    let input = "comment_char %\nescape_char /\nLC_TIME\nam_pm \"\";\"\"\nEND LC_TIME";
    let gen = CodeGenerator::new(vec![locale("aa", input)]).unwrap();
    let cat = gen.category("aa", "LC_TIME").unwrap();
    assert_eq!(
        field(cat, "AM_PM"),
        &Value::Array(vec![
            PValue::String(String::new()),
            PValue::String(String::new()),
        ])
    );
    let meta = gen.meta_of("LC_TIME", "AM_PM").unwrap();
    assert_eq!(meta.container_ty, ContainerType::Array);
    assert_eq!(meta.ty, Some(Type::String));
}

#[test]
fn copy_resolves_to_target_fields() {
    let fr_fr = "comment_char %\nescape_char /\nLC_TIME\nd_fmt \"%d<U002F>%m<U002F>%Y\"\nfirst_weekday 2\nEND LC_TIME";
    let fr_be = "comment_char %\nescape_char /\nLC_TIME\ncopy \"fr_FR\"\nEND LC_TIME";
    let gen = CodeGenerator::new(vec![locale("fr_FR", fr_fr), locale("fr_BE", fr_be)]).unwrap();
    assert_eq!(
        gen.category("fr_BE", "LC_TIME").unwrap(),
        &Category::Link("fr_FR".to_string(), "LC_TIME".to_string())
    );
    let resolved = gen.resolve_category("fr_FR", "LC_TIME").unwrap();
    match gen.category("fr_FR", "LC_TIME").unwrap() {
        Category::Fields(f) => assert_eq!(resolved, f),
        Category::Link(_, _) => panic!("expected fields"),
    }
}

#[test]
fn grouping_widens_and_marks_optional() {
    let with = "comment_char %\nescape_char /\nLC_NUMERIC\ndecimal_point \",\"\ngrouping 3;3\nEND LC_NUMERIC";
    let without = "comment_char %\nescape_char /\nLC_NUMERIC\ndecimal_point \".\"\nEND LC_NUMERIC";
    let gen = CodeGenerator::new(vec![locale("aa", with), locale("bb", without)]).unwrap();
    let meta = gen.meta_of("LC_NUMERIC", "GROUPING").unwrap();
    assert_eq!(meta.container_ty, ContainerType::Array);
    assert_eq!(meta.ty, Some(Type::Integer));
    assert!(meta.optional);
    assert_eq!(
        field(gen.category("aa", "LC_NUMERIC").unwrap(), "GROUPING"),
        &Value::Array(vec![PValue::Integer(3), PValue::Integer(3)])
    );
    assert_eq!(
        field(gen.category("bb", "LC_NUMERIC").unwrap(), "GROUPING"),
        &Value::Empty
    );
    let dp = gen.meta_of("LC_NUMERIC", "DECIMAL_POINT").unwrap();
    assert!(!dp.optional);
    assert_eq!(dp.container_ty, ContainerType::Singleton);
}

#[test]
fn repeated_key_becomes_matrix() {
    let input = "comment_char %\nescape_char /\nLC_X\nrow 1;2\nrow 3;4\nEND LC_X";
    let gen = CodeGenerator::new(vec![locale("aa", input)]).unwrap();
    assert_eq!(
        field(gen.category("aa", "LC_X").unwrap(), "ROW"),
        &Value::Array2d(vec![
            vec![PValue::Integer(1), PValue::Integer(2)],
            vec![PValue::Integer(3), PValue::Integer(4)],
        ])
    );
    let meta = gen.meta_of("LC_X", "ROW").unwrap();
    assert_eq!(meta.container_ty, ContainerType::Array2D);
}

#[test]
fn textual_value_widens_integer_type() {
    let a = "comment_char %\nescape_char /\nLC_X\nk 1\nEND LC_X";
    let b = "comment_char %\nescape_char /\nLC_X\nk \"one\"\nEND LC_X";
    let gen = CodeGenerator::new(vec![locale("aa", a), locale("bb", b)]).unwrap();
    let meta = gen.meta_of("LC_X", "K").unwrap();
    assert_eq!(meta.ty, Some(Type::String));
}

#[test]
fn key_normalization() {
    let input = "comment_char %\nescape_char /\nLC_X\nab2cd 1\nx-y 2\n.. 3\nEND LC_X";
    let gen = CodeGenerator::new(vec![locale("aa", input)]).unwrap();
    let cat = gen.category("aa", "LC_X").unwrap();
    assert_eq!(field(cat, "ABTWOCD"), &Value::Literal(PValue::Integer(1)));
    assert_eq!(field(cat, "X_Y"), &Value::Literal(PValue::Integer(2)));
    assert_eq!(field(cat, "DOTDOT"), &Value::Literal(PValue::Integer(3)));
}

#[test]
fn skipped_categories_are_dropped() {
    let input = "comment_char %\nescape_char /\nLC_COLLATE\nk 1\nEND LC_COLLATE\nLC_TIME\nd_fmt \"x\"\nEND LC_TIME";
    let gen = CodeGenerator::new(vec![locale("aa", input)]).unwrap();
    assert!(gen.category("aa", "LC_COLLATE").is_none());
    assert!(gen.category("aa", "LC_TIME").is_some());
}

#[test]
fn unknown_copy_target_is_fatal() {
    let input = "comment_char %\nescape_char /\nLC_TIME\ncopy \"zz_ZZ\"\nEND LC_TIME";
    let err = CodeGenerator::new(vec![locale("aa", input)]).unwrap_err();
    assert_eq!(
        err,
        SchemaError::UnknownLocale {
            locale: "aa".to_string(),
            category: "LC_TIME".to_string(),
            target: "zz_ZZ".to_string(),
        }
    );
}

#[test]
fn copy_with_integer_payload_is_fatal() {
    let input = "comment_char %\nescape_char /\nLC_TIME\ncopy 5\nEND LC_TIME";
    let err = CodeGenerator::new(vec![locale("aa", input)]).unwrap_err();
    assert_eq!(
        err,
        SchemaError::BadLinkPayload { locale: "aa".to_string(), category: "LC_TIME".to_string() }
    );
}

#[test]
fn mixed_types_in_one_run_are_fatal() {
    let input = "comment_char %\nescape_char /\nLC_X\nk 1;\"a\"\nEND LC_X";
    let err = CodeGenerator::new(vec![locale("aa", input)]).unwrap_err();
    assert_eq!(
        err,
        SchemaError::MixedType {
            locale: "aa".to_string(),
            category: "LC_X".to_string(),
            key: "k".to_string(),
        }
    );
}

#[test]
fn copy_cycle_is_detected() {
    let a = "comment_char %\nescape_char /\nLC_TIME\ncopy \"bb\"\nEND LC_TIME";
    let b = "comment_char %\nescape_char /\nLC_TIME\ncopy \"aa\"\nEND LC_TIME";
    let err = CodeGenerator::new(vec![locale("aa", a), locale("bb", b)]).unwrap_err();
    assert_eq!(
        err,
        SchemaError::LinkCycle { locale: "aa".to_string(), category: "LC_TIME".to_string() }
    );
}

#[test]
fn copy_of_missing_category_is_unresolved() {
    let a = "comment_char %\nescape_char /\nLC_TIME\ncopy \"bb\"\nEND LC_TIME";
    let b = "comment_char %\nescape_char /\nLC_NUMERIC\nk 1\nEND LC_NUMERIC";
    let err = CodeGenerator::new(vec![locale("aa", a), locale("bb", b)]).unwrap_err();
    assert_eq!(
        err,
        SchemaError::UnresolvedLink { locale: "aa".to_string(), category: "LC_TIME".to_string() }
    );
}

#[test]
fn unification_is_deterministic() {
    let a = "comment_char %\nescape_char /\nLC_TIME\nd_fmt \"x\"\nam_pm \"a\";\"p\"\nEND LC_TIME";
    let b = "comment_char %\nescape_char /\nLC_TIME\nfirst_weekday 2\nEND LC_TIME\nLC_NUMERIC\ngrouping 3;3\nEND LC_NUMERIC";
    let make = || vec![locale("aa", a), locale("bb", b)];
    let g1 = CodeGenerator::new(make()).unwrap();
    let g2 = CodeGenerator::new(make()).unwrap();
    assert_eq!(g1, g2);
}

#[test]
fn normalized_names_replace_at_sign() {
    let input = "comment_char %\nescape_char /\nLC_TIME\nd_fmt \"x\"\nEND LC_TIME";
    let gen = CodeGenerator::new(vec![locale("wa_BE@euro", input)]).unwrap();
    assert_eq!(gen.normalized("wa_BE@euro").unwrap(), "wa_BE_euro");
}

#[test]
fn missing_t_fmt_ampm_gets_posix_default() {
    let input = "comment_char %\nescape_char /\nLC_TIME\nam_pm \"AM\";\"PM\"\nEND LC_TIME";
    let mut objects = parse(input).unwrap();
    validate_and_fix_t_fmt_ampm(&mut objects);
    let last = objects[0].values.last().unwrap();
    assert_eq!(last.0, "t_fmt_ampm");
    assert_eq!(last.1, vec![PValue::String("%l:%M:%S %p".to_string())]);
}

#[test]
fn empty_am_pm_gets_empty_t_fmt_ampm() {
    let input = "comment_char %\nescape_char /\nLC_TIME\nam_pm \"\";\"\"\nEND LC_TIME";
    let mut objects = parse(input).unwrap();
    validate_and_fix_t_fmt_ampm(&mut objects);
    let last = objects[0].values.last().unwrap();
    assert_eq!(last.0, "t_fmt_ampm");
    assert_eq!(last.1, vec![PValue::String(String::new())]);
}

#[test]
fn present_t_fmt_ampm_is_kept() {
    let input = "comment_char %\nescape_char /\nLC_TIME\nt_fmt_ampm \"%I:%M\"\nEND LC_TIME";
    let mut objects = parse(input).unwrap();
    let before = objects.clone();
    validate_and_fix_t_fmt_ampm(&mut objects);
    assert_eq!(objects, before);
}

#[test]
fn d_t_fmt_references_are_inlined() {
    let input = "comment_char %\nescape_char /\nLC_TIME\nd_fmt \"%d<U002F>%m<U002F>%y\"\nt_fmt \"%T\"\nt_fmt_ampm \"%r2\"\nd_t_fmt \"%x %X\"\nEND LC_TIME";
    let mut objects = parse(input).unwrap();
    validate_and_fix(&mut objects);
    let mut found = false;
    for (k, vs) in objects[0].values.iter() {
        if k == "d_t_fmt" {
            assert_eq!(vs, &vec![PValue::String("%d/%m/%y %T".to_string())]);
            found = true;
        }
    }
    assert!(found);
}

#[test]
fn scalar_lifts_to_canonical_arity() {
    let meta = Meta {
        optional: false,
        container_ty: ContainerType::Array2D,
        ty: Some(Type::Integer),
    };
    let lifted = Value::Literal(PValue::Integer(7)).with_fixed_type(&meta);
    assert_eq!(lifted, Value::Array2d(vec![vec![PValue::Integer(7)]]));
    let lifted2 = Value::Array(vec![PValue::Integer(1)]).with_fixed_type(&meta);
    assert_eq!(lifted2, Value::Array2d(vec![vec![PValue::Integer(1)]]));
    let meta1 = Meta { container_ty: ContainerType::Array, ..meta };
    assert_eq!(
        Value::Literal(PValue::Integer(7)).with_fixed_type(&meta1),
        Value::Array(vec![PValue::Integer(7)])
    );
    assert_eq!(Value::Empty.with_fixed_type(&meta1), Value::Empty);
}

#[test]
fn arity_never_narrows() {
    let scalar = "comment_char %\nescape_char /\nLC_X\nk 1\nEND LC_X";
    let array = "comment_char %\nescape_char /\nLC_X\nk 1;2\nEND LC_X";
    let matrix = "comment_char %\nescape_char /\nLC_X\nk 1;2\nk 3;4\nEND LC_X";
    let g = CodeGenerator::new(vec![locale("aa", scalar), locale("bb", array)]).unwrap();
    assert_eq!(g.meta_of("LC_X", "K").unwrap().container_ty, ContainerType::Array);
    let g2 = CodeGenerator::new(vec![locale("aa", array), locale("bb", scalar)]).unwrap();
    assert_eq!(g2.meta_of("LC_X", "K").unwrap().container_ty, ContainerType::Array);
    let g3 = CodeGenerator::new(
        vec![locale("aa", matrix), locale("bb", scalar), locale("cc", array)],
    ).unwrap();
    assert_eq!(g3.meta_of("LC_X", "K").unwrap().container_ty, ContainerType::Array2D);
}

#[test]
fn field_sets_are_identical_across_locales() {
    let a = "comment_char %\nescape_char /\nLC_X\nalpha 1\nEND LC_X";
    let b = "comment_char %\nescape_char /\nLC_X\nbeta 2\ngamma 3\nEND LC_X";
    let g = CodeGenerator::new(vec![locale("aa", a), locale("bb", b)]).unwrap();
    let keys = |lang: &str| -> Vec<String> {
        match g.category(lang, "LC_X").unwrap() {
            Category::Fields(f) => f.iter().map(|(k, _)| k.clone()).collect(),
            Category::Link(_, _) => panic!("expected fields"),
        }
    };
    assert_eq!(keys("aa"), keys("bb"));
    assert_eq!(keys("aa"), vec!["ALPHA".to_string(), "BETA".to_string(), "GAMMA".to_string()]);
}

#[test]
fn include_aliases_like_copy() {
    let fr_fr = "comment_char %\nescape_char /\nLC_TIME\nfirst_weekday 2\nEND LC_TIME";
    let fr_be = "comment_char %\nescape_char /\nLC_TIME\ninclude \"fr_FR\"\nEND LC_TIME";
    let gen = CodeGenerator::new(vec![locale("fr_FR", fr_fr), locale("fr_BE", fr_be)]).unwrap();
    assert_eq!(
        gen.category("fr_BE", "LC_TIME").unwrap(),
        &Category::Link("fr_FR".to_string(), "LC_TIME".to_string())
    );
}

#[test]
fn present_but_empty_key_marks_optional() {
    let input = "comment_char %\nescape_char /\nLC_X\nblank\nother 1\nEND LC_X";
    let gen = CodeGenerator::new(vec![locale("aa", input)]).unwrap();
    let meta = gen.meta_of("LC_X", "BLANK").unwrap();
    assert!(meta.optional);
    assert_eq!(meta.ty, None);
    assert_eq!(field(gen.category("aa", "LC_X").unwrap(), "BLANK"), &Value::Empty);
}

#[test]
fn whole_pipeline_parses_repairs_and_unifies() {
    let posix = "comment_char %\nescape_char /\nLC_TIME\nam_pm \"AM\";\"PM\"\nd_fmt \"%m<U002F>%d<U002F>%y\"\nt_fmt \"%T\"\nt_fmt_ampm \"%I:%M\"\nd_t_fmt \"%x %X\"\nEND LC_TIME\nLC_NUMERIC\ngrouping 3;3\nEND LC_NUMERIC";
    let fr = "comment_char %\nescape_char /\nLC_TIME\ncopy \"POSIX\"\nEND LC_TIME\nLC_NUMERIC\ndecimal_point \",\"\nEND LC_NUMERIC";
    let mut locales = Vec::new();
    for (name, text) in [("POSIX", posix), ("fr_FR", fr)] {
        let mut objects = parse(text).unwrap();
        validate_and_fix(&mut objects);
        locales.push((name.to_string(), objects));
    }
    let gen = CodeGenerator::new(locales).unwrap();

    // the d_t_fmt of POSIX has its references inlined before unification
    assert_eq!(
        field(gen.category("POSIX", "LC_TIME").unwrap(), "D_T_FMT"),
        &Value::Literal(PValue::String("%m/%d/%y %T".to_string()))
    );
    // fr_FR's LC_TIME is an alias that resolves to POSIX's table
    let resolved = gen.resolve_category("fr_FR", "LC_TIME").unwrap();
    match gen.category("POSIX", "LC_TIME").unwrap() {
        Category::Fields(f) => assert_eq!(resolved, f),
        Category::Link(_, _) => panic!("expected fields"),
    }
    // LC_NUMERIC is filled to the same shape in both locales
    assert_eq!(
        field(gen.category("POSIX", "LC_NUMERIC").unwrap(), "DECIMAL_POINT"),
        &Value::Empty
    );
    assert!(gen.meta_of("LC_NUMERIC", "DECIMAL_POINT").unwrap().optional);
    assert_eq!(
        field(gen.category("fr_FR", "LC_NUMERIC").unwrap(), "GROUPING"),
        &Value::Empty
    );
    assert!(gen.meta_of("LC_NUMERIC", "GROUPING").unwrap().optional);
}

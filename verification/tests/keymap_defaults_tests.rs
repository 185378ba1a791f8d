use awl::keymap_defaults::{check_defaults, parse, DefaultsError, Field, Scalar, TopValue};

fn s(x: &str) -> Scalar {
    Scalar::Str(x.to_string())
}

fn table(commands: Vec<(&str, Field)>, keep: Option<Vec<Scalar>>) -> Vec<(String, TopValue)> {
    let mut t: Vec<(String, TopValue)> = vec![(
        "commands".to_string(),
        TopValue::Table(commands.into_iter().map(|(k, v)| (k.to_string(), v)).collect()),
    )];
    if let Some(k) = keep {
        t.push(("linux_builtin_keep".to_string(), TopValue::Array(k)));
    }
    t
}

#[test]
fn a_well_formed_file_reads_in_order() {
    let t = table(
        vec![("save", Field::Array(vec![s("Cmd-S"), s("C-x C-s")])), ("widen_page", Field::Array(vec![s(""), s("")]))],
        Some(vec![s("C-k")]),
    );
    assert_eq!(check_defaults(&t), Ok(()));
    let p = parse(&t);
    assert_eq!(
        p.commands,
        vec![
            ("save".to_string(), ("Cmd-S".to_string(), "C-x C-s".to_string())),
            ("widen_page".to_string(), (String::new(), String::new())),
        ]
    );
    assert_eq!(p.linux_builtin_keep, vec!["C-k".to_string()]);
}

#[test]
fn command_slots_must_be_exactly_two() {
    let t = table(vec![("save", Field::Array(vec![s("Cmd-S")]))], Some(vec![]));
    assert_eq!(check_defaults(&t).unwrap_err(), DefaultsError::SlotCount("save".to_string()));
}

#[test]
fn command_slots_must_be_strings() {
    let t = table(vec![("save", Field::Array(vec![Scalar::Other, s("")]))], Some(vec![]));
    assert_eq!(check_defaults(&t).unwrap_err(), DefaultsError::SlotNotString("save".to_string(), 0));
    let t = table(vec![("save", Field::Array(vec![s(""), Scalar::Other]))], Some(vec![]));
    assert_eq!(check_defaults(&t).unwrap_err(), DefaultsError::SlotNotString("save".to_string(), 1));
    let t = table(vec![("save", Field::Other)], Some(vec![]));
    assert_eq!(check_defaults(&t).unwrap_err(), DefaultsError::NotAnArray("save".to_string()));
}

#[test]
fn an_unknown_top_level_key_comes_first() {
    let mut t = table(vec![("save", Field::Array(vec![s("Cmd-S")]))], Some(vec![]));
    t.push(("extra".to_string(), TopValue::Other));
    assert_eq!(check_defaults(&t).unwrap_err(), DefaultsError::UnknownKey("extra".to_string()));
}

#[test]
fn the_commands_table_and_the_keep_floor_are_required() {
    let t = vec![("linux_builtin_keep".to_string(), TopValue::Array(vec![]))];
    assert_eq!(check_defaults(&t).unwrap_err(), DefaultsError::MissingCommands);
    let t = vec![("commands".to_string(), TopValue::Array(vec![]))];
    assert_eq!(check_defaults(&t).unwrap_err(), DefaultsError::MissingCommands);
    let t = table(vec![], None);
    assert_eq!(check_defaults(&t).unwrap_err(), DefaultsError::MissingKeep);
    let t = table(vec![], Some(vec![s("C-k"), Scalar::Other]));
    assert_eq!(check_defaults(&t).unwrap_err(), DefaultsError::KeepNotString);
}

#[test]
fn the_first_bad_command_is_reported() {
    let t = table(
        vec![("a", Field::Array(vec![s(""), s("")])), ("b", Field::Other), ("c", Field::Array(vec![]))],
        Some(vec![]),
    );
    assert_eq!(check_defaults(&t).unwrap_err(), DefaultsError::NotAnArray("b".to_string()));
}

/// The caller's side of a malformed shipped file: check, then stop loudly.
fn load_or_panic(t: &Vec<(String, TopValue)>) -> awl::keymap_defaults::Parsed {
    match check_defaults(t) {
        Ok(()) => parse(t),
        Err(DefaultsError::SlotCount(slug)) => panic!("commands.{slug} must have exactly 2 chord slots"),
        Err(DefaultsError::SlotNotString(slug, i)) => panic!("commands.{slug}[{i}] must be a string"),
        Err(DefaultsError::UnknownKey(k)) => panic!("unknown top-level key {k:?}"),
        Err(e) => panic!("malformed defaults: {e:?}"),
    }
}

#[test]
#[should_panic(expected = "exactly 2 chord slots")]
fn embedded_command_slots_are_exactly_two_strings() {
    let t = table(vec![("save", Field::Array(vec![s("Cmd-S")]))], Some(vec![]));
    let _ = load_or_panic(&t);
}

#[test]
#[should_panic(expected = "must be a string")]
fn embedded_command_slot_types_fail_loudly() {
    let t = table(vec![("save", Field::Array(vec![Scalar::Other, s("")]))], Some(vec![]));
    let _ = load_or_panic(&t);
}

#[test]
#[should_panic(expected = "unknown top-level key")]
fn embedded_unknown_top_level_data_fails_loudly() {
    let mut t = table(vec![("save", Field::Array(vec![s("Cmd-S"), s("")]))], Some(vec![]));
    t.push(("extra".to_string(), TopValue::Other));
    let _ = load_or_panic(&t);
}

#[test]
fn a_command_named_twice_is_a_problem() {
    let t = table(
        vec![("save", Field::Array(vec![s("Cmd-S"), s("")])), ("save", Field::Array(vec![s("Cmd-T"), s("")]))],
        Some(vec![]),
    );
    assert_eq!(check_defaults(&t).unwrap_err(), DefaultsError::DuplicateSlug("save".to_string()));
}

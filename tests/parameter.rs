use rainbow::parameter::{
    apply_arguments,
    default_parameters, get_named_parameter, help_requested, split_argument, Parameter,
    ParameterType, ParameterValue,
};

fn number_parameter() -> Parameter {
    Parameter {
        long_names: vec![String::from("min-password-length")],
        short_names: vec![String::from("mip")],
        description: String::from("Minimum length of the passwords."),
        types: vec![ParameterType::NUMBER],
        default_value: ParameterValue::Number(6),
        value: None,
        allowed_number_values: Some(vec![(1, 8)]),
        allowed_string_values: None,
        checks_path: false,
    }
}

fn path_parameter() -> Parameter {
    Parameter {
        long_names: vec![String::from("hash-file"), String::from("hashes")],
        short_names: vec![String::from("hf")],
        description: String::from("Path of the chain file."),
        types: vec![ParameterType::STRING],
        default_value: ParameterValue::String(String::from("./hashes.txt")),
        value: None,
        allowed_number_values: None,
        allowed_string_values: None,
        checks_path: true,
    }
}

#[test]
fn number_values() {
    let mut p = number_parameter();
    assert_eq!(p.get_value(), &ParameterValue::Number(6));
    assert_eq!(p.set_value(&String::from("7"), false), Ok(()));
    assert_eq!(p.get_value(), &ParameterValue::Number(7));
    assert_eq!(p.set_value(&String::from("+3"), false), Ok(()));
    assert_eq!(p.get_value(), &ParameterValue::Number(3));
    assert!(p.set_value(&String::from("9"), false).is_err());
    assert!(p.set_value(&String::from("x"), false).is_err());
    assert!(p.set_value(&String::from(""), false).is_err());
    assert!(p.set_value(&String::from("99999999999999999999999"), false).is_err());
    assert_eq!(p.get_value(), &ParameterValue::Number(3));
}

#[test]
fn boolean_values() {
    let mut p = number_parameter();
    p.types = vec![ParameterType::BOOLEAN];
    p.default_value = ParameterValue::Boolean(false);
    assert_eq!(p.set_value(&String::from("true"), false), Ok(()));
    assert_eq!(p.get_value(), &ParameterValue::Boolean(true));
    assert_eq!(p.set_value(&String::from("false"), false), Ok(()));
    assert_eq!(p.get_value(), &ParameterValue::Boolean(false));
    assert_eq!(p.set_value(&String::from(""), false), Ok(()));
    assert_eq!(p.get_value(), &ParameterValue::Boolean(true));
    assert_eq!(p.set_value(&String::from("yes"), false), Err("Value isn't valid"));
}

#[test]
fn enum_and_string_values() {
    let mut e = number_parameter();
    e.types = vec![ParameterType::ENUM];
    e.allowed_string_values = Some(vec![String::from("fast"), String::from("slow")]);
    assert_eq!(e.set_value(&String::from("slow"), false), Ok(()));
    assert_eq!(e.get_value(), &ParameterValue::String(String::from("slow")));
    assert!(e.set_value(&String::from("medium"), false).is_err());

    let mut p = path_parameter();
    assert!(p.set_value(&String::from("/some/dir"), false).is_err());
    assert_eq!(p.get_value(), &ParameterValue::String(String::from("./hashes.txt")));
    assert_eq!(p.set_value(&String::from("out.bin"), true), Ok(()));
    assert_eq!(p.get_value(), &ParameterValue::String(String::from("out.bin")));
}

#[test]
fn names() {
    let p = path_parameter();
    assert_eq!(p.get_long_names(), "--hash-file, --hashes");
    assert_eq!(p.get_short_names(), "-hf");
    assert!(p.is(&String::from("hashes")));
    assert!(p.is(&String::from("hf")));
    assert!(!p.is(&String::from("h")));
    assert_eq!(p.has(&ParameterType::STRING), Some(()));
    assert_eq!(p.has(&ParameterType::NUMBER), None);
}

#[test]
fn named_parameter_lookup() {
    let mut ps = default_parameters();
    assert_eq!(ps.len(), 8);
    {
        let p = get_named_parameter(&mut ps, &String::from("rr")).unwrap();
        assert_eq!(p.get_value(), &ParameterValue::Number(1000));
        p.set_value(&String::from("50"), false).unwrap();
    }
    assert_eq!(ps[6].get_value(), &ParameterValue::Number(50));
    assert!(get_named_parameter(&mut ps, &String::from("nothing")).is_none());
    match ps[5].get_value() {
        ParameterValue::Number(n) => assert!(*n >= 1),
        _ => panic!("threads is a number"),
    }
}

#[test]
fn argument_splitting() {
    assert_eq!(
        split_argument(&String::from("--threads=4")),
        Some((String::from("threads"), String::from("4")))
    );
    assert_eq!(split_argument(&String::from("-h")), Some((String::from("h"), String::new())));
    assert_eq!(
        split_argument(&String::from("--a=b=c")),
        Some((String::from("a"), String::from("b=c")))
    );
    assert_eq!(split_argument(&String::from("plain")), None);
    assert_eq!(split_argument(&String::from("")), None);
}

#[test]
fn help_decision() {
    let mut ps = default_parameters();
    assert!(help_requested(&ps, 1));
    assert!(!help_requested(&ps, 3));
    get_named_parameter(&mut ps, &String::from("help")).unwrap().set_value(&String::new(), false).unwrap();
    assert!(help_requested(&ps, 3));
}

#[test]
fn value_text() {
    assert_eq!(ParameterValue::Number(0).to_string(), "0");
    assert_eq!(ParameterValue::Number(1042).to_string(), "1042");
    assert_eq!(ParameterValue::Number(u64::MAX).to_string(), "18446744073709551615");
    assert_eq!(ParameterValue::Boolean(true).to_string(), "true");
    assert_eq!(ParameterValue::Boolean(false).to_string(), "false");
    assert_eq!(ParameterValue::String(String::from("x y")).to_string(), "x y");
    assert_eq!(ParameterValue::Number(4).as_number(), Some(&4));
    assert_eq!(ParameterValue::Number(4).as_boolean(), None);
    assert_eq!(ParameterValue::Boolean(true).as_boolean(), Some(&true));
    assert_eq!(ParameterValue::String(String::from("s")).as_string(), Some(&String::from("s")));
}

#[test]
fn parameter_help_entry() {
    let p = number_parameter();
    assert_eq!(
        p.to_string(),
        "\t- names: --min-password-length\n\t  aliases: -mip\n\t  description: Minimum length of the passwords.\n\t  default value: 6"
    );
}

#[test]
fn arguments_applied_in_order() {
    let mut ps = default_parameters();
    let arguments: Vec<String> = ["--rr=50", "plain", "-mip=3", "--rr=7", "--map=99", "--nothing=1", "-pf=out.txt", "-hf=x"]
        .iter()
        .map(|a| String::from(*a))
        .collect();
    let verdicts = vec![false, false, false, false, false, false, true, false];
    apply_arguments(&mut ps, &arguments, &verdicts);
    assert_eq!(ps[0].get_value(), &ParameterValue::Number(3));
    assert_eq!(ps[1].get_value(), &ParameterValue::Number(8));
    assert_eq!(ps[2].get_value(), &ParameterValue::String(String::from("out.txt")));
    assert_eq!(ps[3].get_value(), &ParameterValue::String(String::from("./hashes.txt")));
    assert_eq!(ps[6].get_value(), &ParameterValue::Number(7));
    assert_eq!(ps[1].description, "Maximum length of the passwords.");
}

#[test]
fn default_table() {
    let ps = default_parameters();
    let longs: Vec<String> = ps.iter().map(|p| p.get_long_names()).collect();
    assert_eq!(
        longs,
        vec![
            "--min-password-length", "--max-password-length", "--password-file", "--hash-file",
            "--max-hash-file-size", "--threads", "--reduction-rounds", "--help"
        ]
    );
    assert_eq!(ps[4].allowed_number_values, Some(vec![(0, 33_000_000_000)]));
    assert_eq!(ps[7].default_value, ParameterValue::Boolean(false));
    assert!(ps[2].checks_path && ps[3].checks_path && !ps[0].checks_path);
}

#[test]
fn rejected_value_keeps_parameter() {
    let mut p = number_parameter();
    assert_eq!(p.set_value(&String::from("13"), false), Err("Value isn't valid"));
    assert_eq!(p.get_value(), &ParameterValue::Number(6));
    assert_eq!(p.description, "Minimum length of the passwords.");
}

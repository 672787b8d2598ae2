use nixify::parser::generator::module_expression;
use nixify::parser::{ExpressionGenerator, NixVariable, NixVariableValue};

fn attrs(entries: Vec<(&str, NixVariableValue)>) -> NixVariableValue {
    NixVariableValue::AttributeSet(
        entries
            .into_iter()
            .map(|(k, v)| (k.to_string(), v))
            .collect(),
    )
}

fn number(text: &str) -> NixVariableValue {
    NixVariableValue::Number(text.to_string())
}

fn expression() -> Vec<NixVariable> {
    vec![
        NixVariable::new(
            "foo",
            &attrs(vec![(
                "bar",
                attrs(vec![
                    ("a", number("1")),
                    ("b", NixVariableValue::String("test".to_string())),
                ]),
            )]),
        ),
        NixVariable::new(
            "this",
            &attrs(vec![(
                "is",
                attrs(vec![("a", attrs(vec![("float", number("0.1"))]))]),
            )]),
        ),
    ]
}

#[test]
fn test_expression_generator() {
    let expression_generator = ExpressionGenerator::new();

    let expected = "{ config, pkgs, ... }:\n{\nprograms.test.enable = true;\nfoo = {\nbar = {\na = 1;\nb = \"test\";\n};\n};\nthis = {\nis = {\na = {\nfloat = 0.1;\n};\n};\n};\n};\n}";
    let generated = expression_generator.generate_nix_expression("test", &expression());
    assert!(generated.is_some());
    assert_eq!(generated.unwrap(), expected);
}

#[test]
fn test_expression_generator_formatted() {
    let expression_generator = ExpressionGenerator::new().with_formatting();

    let expected = "{ config, pkgs, ... }:\n{\n  programs.test.enable = true;\n  foo = {\n    bar = {\n      a = 1;\n      b = \"test\";\n    };\n  };\n  this = {\n    is = {\n      a = {\n        float = 0.1;\n      };\n    };\n  };\n};\n}\n";
    let generated = expression_generator.generate_nix_expression("test", &expression());
    assert!(generated.is_some());
    assert_eq!(generated.unwrap(), expected);
}

#[test]
fn test_variable_conversion() {
    let number = NixVariable::new("number", &NixVariableValue::Number("4.2".to_string()));
    let string = NixVariable::new("string", &NixVariableValue::String("foobar".to_string()));
    let path = NixVariable::new("path", &NixVariableValue::Path("/tmp/foo".to_string()));
    let bool = NixVariable::new("bool", &NixVariableValue::Boolean(true));
    let null = NixVariable::new("null", &NixVariableValue::Null);
    let list = NixVariable::new(
        "list",
        &NixVariableValue::List(vec![
            NixVariableValue::Number("4.2".to_string()),
            NixVariableValue::Number("6.9".to_string()),
        ]),
    );
    let attrset = NixVariable::new(
        "attrset",
        &NixVariableValue::AttributeSet(vec![(
            "foo".to_string(),
            NixVariableValue::String("bar".to_string()),
        )]),
    );

    assert_eq!(number.to_string(), "number = 4.2;\n");
    assert_eq!(string.to_string(), "string = \"foobar\";\n");
    assert_eq!(path.to_string(), "path = /tmp/foo;\n");
    assert_eq!(bool.to_string(), "bool = true;\n");
    assert_eq!(null.to_string(), "null = null;\n");
    assert_eq!(list.to_string(), "list = [\n4.2\n6.9\n];\n");
    assert_eq!(attrset.to_string(), "attrset = {\nfoo = \"bar\";\n};\n");
}

#[test]
fn no_bindings_gives_enable_line_only() {
    let generated = ExpressionGenerator::new().generate_nix_expression("test", &vec![]);
    assert_eq!(
        generated.unwrap(),
        "{ config, pkgs, ... }:\n{\nprograms.test.enable = true;\n};\n}"
    );
}

#[test]
fn empty_collections_are_written() {
    let vars = vec![
        NixVariable::new("l", &NixVariableValue::List(vec![])),
        NixVariable::new("s", &NixVariableValue::AttributeSet(vec![])),
        NixVariable::new(
            "n",
            &NixVariableValue::List(vec![NixVariableValue::List(vec![]), attrs(vec![])]),
        ),
    ];
    assert_eq!(
        module_expression("x", &vars),
        "{ config, pkgs, ... }:\n{\nprograms.x.enable = true;\nl = [ ];\ns = { };\nn = [\n[ ]\n{ }\n];\n};\n}"
    );
}

#[test]
fn strings_without_quotes_are_verbatim() {
    let v = NixVariableValue::String("$ \\ ${x} plain".to_string());
    assert_eq!(v.to_string(), "\"$ \\ ${x} plain\"");
    assert_eq!(NixVariableValue::String("$".to_string()).to_string(), "\"$\"");
}

#[test]
fn strings_with_quotes_are_escaped() {
    let v = NixVariableValue::String("say \"hi\" \\ ${x} $y".to_string());
    assert_eq!(v.to_string(), "\"say \\\"hi\\\" \\\\ \\${x} $y\"");
}

#[test]
fn generating_twice_gives_the_same_text() {
    let generator = ExpressionGenerator::new();
    let first = generator.generate_nix_expression("p", &expression()).unwrap();
    let second = generator.generate_nix_expression("p", &expression()).unwrap();
    assert_eq!(first, second);
    let formatted = ExpressionGenerator::new().with_formatting();
    let a = formatted.generate_nix_expression("p", &expression()).unwrap();
    let b = formatted.generate_nix_expression("p", &expression()).unwrap();
    assert_eq!(a, b);
}

#[test]
fn duplicate_copies_a_value() {
    let v = attrs(vec![("k", NixVariableValue::List(vec![number("1"), NixVariableValue::Null]))]);
    assert_eq!(v.duplicate(), v);
    assert_eq!(NixVariable::new("k", &v).value, v);
}

#[test]
fn numbers_are_written_positionally() {
    assert_eq!(number("1").to_string(), "1");
    assert_eq!(number("0.1").to_string(), "0.1");
    assert_eq!(NixVariableValue::Boolean(false).to_string(), "false");
}

#[test]
fn set_attribute_overwrites_a_repeated_name() {
    let mut entries: Vec<(String, NixVariableValue)> = Vec::new();
    nixify::parser::value::set_attribute(&mut entries, "a".to_string(), number("1"));
    nixify::parser::value::set_attribute(&mut entries, "b".to_string(), number("2"));
    nixify::parser::value::set_attribute(&mut entries, "a".to_string(), number("3"));
    assert_eq!(
        entries,
        vec![("a".to_string(), number("3")), ("b".to_string(), number("2"))]
    );
    assert_eq!(
        NixVariableValue::AttributeSet(entries).to_string(),
        "{\na = 3;\nb = 2;\n}"
    );
}

use nixify::parser::json::JsonParser;
use nixify::parser::registry::select_last_success;
use nixify::parser::toml::TomlParser;
use nixify::parser::yaml::YamlParser;
use nixify::parser::{
    ConversionError, ExpressionParser, FormatParser, NixVariable, NixVariableValue,
    SupportedFormats,
};

fn attrs(entries: Vec<(&str, NixVariableValue)>) -> NixVariableValue {
    NixVariableValue::AttributeSet(
        entries
            .into_iter()
            .map(|(k, v)| (k.to_string(), v))
            .collect(),
    )
}

fn number(text: &str) -> NixVariableValue {
    NixVariableValue::Number(text.to_string())
}

fn expression() -> Vec<NixVariable> {
    vec![
        NixVariable::new(
            "foo",
            &attrs(vec![(
                "bar",
                attrs(vec![
                    ("a", number("1")),
                    ("b", NixVariableValue::String("test".to_string())),
                ]),
            )]),
        ),
        NixVariable::new(
            "this",
            &attrs(vec![(
                "is",
                attrs(vec![("a", attrs(vec![("float", number("0.1"))]))]),
            )]),
        ),
    ]
}

fn guessing_parser() -> ExpressionParser {
    ExpressionParser::new()
        .add_parser(SupportedFormats::yaml, FormatParser::Yaml(YamlParser::new()))
        .unwrap()
        .add_parser(SupportedFormats::toml, FormatParser::Toml(TomlParser::new()))
        .unwrap()
        .add_parser(SupportedFormats::json, FormatParser::Json(JsonParser::new()))
        .unwrap()
        .with_format_guessing()
}

#[test]
fn test_format_guessing() {
    let parser = guessing_parser();
    let yaml = "
foo:
    bar:
        a: 1
        b: 'test'
this:
    is:
        a:
            float: 0.1
# Comment
            ";
    let toml = "
[foo.bar]
a = 1
b = \"test\"
[this.is.a]
float = 0.1
# A comment
            ";
    let json = "
{
    \"foo\": {
        \"bar\": {
            \"a\": 1,
            \"b\": \"test\"
        }
    },
    \"this\": {
        \"is\": {
            \"a\" : {
                \"float\": 0.1
            }
        }
    }
}
";

    let yaml_result = parser.parse(&yaml, &None);
    let toml_result = parser.parse(&toml, &None);
    let json_result = parser.parse(&json, &None);
    assert!(yaml_result.is_some());
    assert_eq!(yaml_result.unwrap(), expression());
    assert!(toml_result.is_some());
    assert_eq!(toml_result.unwrap(), expression());
    assert!(json_result.is_some());
    assert_eq!(json_result.unwrap(), expression());
}

#[test]
fn guessing_keeps_the_last_success() {
    // valid TOML and valid YAML, read differently
    let text = "a = \"x: 1\"\n";
    let from_toml = TomlParser::new().parse(text).unwrap();
    let from_yaml = YamlParser::new().parse(text).unwrap();
    assert_ne!(from_toml, from_yaml);

    let yaml_then_toml = ExpressionParser::new()
        .add_parser(SupportedFormats::yaml, FormatParser::Yaml(YamlParser::new()))
        .unwrap()
        .add_parser(SupportedFormats::toml, FormatParser::Toml(TomlParser::new()))
        .unwrap()
        .with_format_guessing();
    assert_eq!(yaml_then_toml.parse(text, &None), Some(from_toml));

    let toml_then_yaml = ExpressionParser::new()
        .add_parser(SupportedFormats::toml, FormatParser::Toml(TomlParser::new()))
        .unwrap()
        .add_parser(SupportedFormats::yaml, FormatParser::Yaml(YamlParser::new()))
        .unwrap()
        .with_format_guessing();
    assert_eq!(toml_then_yaml.parse(text, &None), Some(from_yaml));

    // JSON, registered last, fails on this text: TOML, before it, wins
    assert_eq!(
        guessing_parser().parse(text, &None),
        Some(TomlParser::new().parse(text).unwrap())
    );
}

#[test]
fn guessing_with_no_success() {
    let parser = guessing_parser();
    assert_eq!(
        parser.try_parse("[1, 2]", &None),
        Err(ConversionError::AmbiguousOrNoMatch)
    );
    assert_eq!(parser.parse("[1, 2]", &None), None);
}

#[test]
fn explicit_format_dispatch() {
    let parser = guessing_parser();
    let toml = "a = 1\n";
    assert_eq!(
        parser.parse(toml, &Some(SupportedFormats::toml)),
        Some(vec![NixVariable::new("a", &number("1"))])
    );
    assert_eq!(
        parser.try_parse(toml, &Some(SupportedFormats::json)),
        Err(ConversionError::ParseFailure)
    );
}

#[test]
fn unregistered_format_fails() {
    let parser = ExpressionParser::new()
        .add_parser(SupportedFormats::yaml, FormatParser::Yaml(YamlParser::new()))
        .unwrap()
        .with_format_guessing();
    assert_eq!(
        parser.try_parse("{\"a\": 1}", &Some(SupportedFormats::json)),
        Err(ConversionError::UnknownFormat)
    );
    assert_eq!(parser.parse("{\"a\": 1}", &Some(SupportedFormats::toml)), None);
}

#[test]
fn no_format_without_guessing_fails() {
    let parser = ExpressionParser::new()
        .add_parser(SupportedFormats::json, FormatParser::Json(JsonParser::new()))
        .unwrap();
    assert_eq!(
        parser.try_parse("{\"a\": 1}", &None),
        Err(ConversionError::AmbiguousOrNoMatch)
    );
}

#[test]
fn duplicate_tag_is_refused() {
    let parser = ExpressionParser::new()
        .add_parser(SupportedFormats::json, FormatParser::Json(JsonParser::new()))
        .unwrap();
    assert!(parser
        .add_parser(SupportedFormats::json, FormatParser::Yaml(YamlParser::new()))
        .is_none());
}

#[test]
fn select_last_success_picks_the_last_ok() {
    let a = vec![NixVariable::new("a", &number("1"))];
    let b = vec![NixVariable::new("b", &number("2"))];
    let outcomes = vec![Ok(a), Ok(b), Err(ConversionError::ParseFailure)];
    assert_eq!(
        select_last_success(outcomes),
        Ok(vec![NixVariable::new("b", &number("2"))])
    );
    assert_eq!(
        select_last_success(vec![Err(ConversionError::ParseFailure)]),
        Err(ConversionError::AmbiguousOrNoMatch)
    );
    assert_eq!(select_last_success(vec![]), Err(ConversionError::AmbiguousOrNoMatch));
}

use nixify::parser::json::JsonParser;
use nixify::parser::toml::TomlParser;
use nixify::parser::yaml::YamlParser;
use nixify::parser::{ConversionError, NixVariable, NixVariableValue, Parser};

fn attrs(entries: Vec<(&str, NixVariableValue)>) -> NixVariableValue {
    NixVariableValue::AttributeSet(
        entries
            .into_iter()
            .map(|(k, v)| (k.to_string(), v))
            .collect(),
    )
}

fn number(text: &str) -> NixVariableValue {
    NixVariableValue::Number(text.to_string())
}

fn expected() -> Vec<NixVariable> {
    vec![
        NixVariable::new(
            "foo",
            &attrs(vec![(
                "bar",
                attrs(vec![
                    ("a", number("1")),
                    ("b", NixVariableValue::String("test".to_string())),
                ]),
            )]),
        ),
        NixVariable::new(
            "this",
            &attrs(vec![(
                "is",
                attrs(vec![("a", attrs(vec![("float", number("0.1"))]))]),
            )]),
        ),
    ]
}

const JSON: &str = "
{
    \"foo\": {
        \"bar\": {
            \"a\": 1,
            \"b\": \"test\"
        }
    },
    \"this\": {
        \"is\": {
            \"a\" : {
                \"float\": 0.1
            }
        }
    }
}
";

const TOML: &str = "
[foo.bar]
a = 1
b = \"test\"
[this.is.a]
float = 0.1
# A comment
            ";

const YAML: &str = "
foo:
    bar:
        a: 1
        b: 'test'
this:
    is:
        a:
            float: 0.1
# Comment
            ";

#[test]
fn test_json() {
    let parser = JsonParser::new();

    let parsed = parser.parse(JSON);
    assert!(parsed.is_some());
    assert_eq!(parsed.unwrap(), expected())
}

#[test]
fn test_toml() {
    let parser = TomlParser::new();
    let parsed = parser.parse(TOML);
    assert!(parsed.is_some());
    assert_eq!(parsed.unwrap(), expected())
}

#[test]
fn test_yaml() {
    let parser = YamlParser::new();

    let parsed = parser.parse(YAML);
    assert!(parsed.is_some());
    assert_eq!(parsed.unwrap(), expected())
}

#[test]
fn three_formats_give_one_tree() {
    let json = JsonParser::new().parse(JSON).unwrap();
    let toml = TomlParser::new().parse(TOML).unwrap();
    let yaml = YamlParser::new().parse(YAML).unwrap();
    assert_eq!(json, toml);
    assert_eq!(toml, yaml);
}

#[test]
fn parser_trait_delegates() {
    let parser: &dyn Parser = &JsonParser::new();
    assert_eq!(parser.parse(JSON), Some(expected()));
    let parser: &dyn Parser = &TomlParser::new();
    assert_eq!(parser.parse(TOML), Some(expected()));
    let parser: &dyn Parser = &YamlParser::new();
    assert_eq!(parser.parse(YAML), Some(expected()));
}

#[test]
fn json_value_mapping() {
    let value: serde_json::Value =
        serde_json::from_str("[null, true, 2, -3.50, \"s\", [], {\"k\": false}]").unwrap();
    let converted = JsonParser::new().parse_value(value).unwrap();
    assert_eq!(
        converted,
        NixVariableValue::List(vec![
            NixVariableValue::Null,
            NixVariableValue::Boolean(true),
            number("2"),
            number("-3.5"),
            NixVariableValue::String("s".to_string()),
            NixVariableValue::List(vec![]),
            attrs(vec![("k", NixVariableValue::Boolean(false))]),
        ])
    );
}

#[test]
fn json_keeps_key_order() {
    let parsed = JsonParser::new().parse("{\"z\": 1, \"a\": 2, \"m\": 3}").unwrap();
    let names: Vec<&str> = parsed.iter().map(|v| v.name.as_str()).collect();
    assert_eq!(names, vec!["z", "a", "m"]);
}

#[test]
fn json_floats_are_canonical() {
    let parsed = JsonParser::new()
        .parse("{\"x\": 2.5, \"y\": 1.0, \"z\": 1e20, \"w\": 1.5e-7}")
        .unwrap();
    assert_eq!(parsed[0].value, number("2.5"));
    assert_eq!(parsed[1].value, number("1"));
    assert_eq!(parsed[2].value, number("100000000000000000000"));
    assert_eq!(parsed[3].value, number("0.00000015"));
}

#[test]
fn large_numbers_agree_across_formats() {
    let json = JsonParser::new().parse("{\"x\": 1e20}").unwrap();
    let toml = TomlParser::new().parse("x = 1e20\n").unwrap();
    let yaml = YamlParser::new().parse("x: 1e20\n").unwrap();
    assert_eq!(json, toml);
    assert_eq!(toml, yaml);
}

#[test]
fn toml_value_mapping() {
    let parsed = TomlParser::new()
        .parse("i = -7\nf = 2.0\nb = true\nd = 1979-05-27\nl = [1, 2]\n[t]\nk = \"v\"\n")
        .unwrap();
    assert_eq!(
        parsed,
        vec![
            NixVariable::new("i", &number("-7")),
            NixVariable::new("f", &number("2")),
            NixVariable::new("b", &NixVariableValue::Boolean(true)),
            NixVariable::new("d", &NixVariableValue::String("1979-05-27".to_string())),
            NixVariable::new("l", &NixVariableValue::List(vec![number("1"), number("2")])),
            NixVariable::new("t", &attrs(vec![("k", NixVariableValue::String("v".to_string()))])),
        ]
    );
}

#[test]
fn toml_parse_value_on_a_float() {
    let value = toml::Value::Float(0.25);
    assert_eq!(TomlParser::parse_value(&value), Some(number("0.25")));
}

#[test]
fn yaml_value_mapping() {
    let parsed = YamlParser::new()
        .parse("n: ~\nr: +01.50\ni: 0x10\ns: text\nl:\n  - 1\n  - false\ne: []\n")
        .unwrap();
    assert_eq!(
        parsed,
        vec![
            NixVariable::new("n", &NixVariableValue::Null),
            NixVariable::new("r", &number("1.5")),
            NixVariable::new("i", &number("16")),
            NixVariable::new("s", &NixVariableValue::String("text".to_string())),
            NixVariable::new(
                "l",
                &NixVariableValue::List(vec![number("1"), NixVariableValue::Boolean(false)])
            ),
            NixVariable::new("e", &NixVariableValue::List(vec![])),
        ]
    );
}

#[test]
fn yaml_uses_first_document() {
    let parsed = YamlParser::new().parse("a: 1\n---\nb: 2\n").unwrap();
    assert_eq!(parsed, vec![NixVariable::new("a", &number("1"))]);
}

#[test]
fn yaml_parse_variable_and_node() {
    let docs = yaml_rust2::YamlLoader::load_from_str("k: [1, x]").unwrap();
    let vars = YamlParser::parse_node(&docs[0]).unwrap();
    assert_eq!(vars.len(), 1);
    let value = YamlParser::parse_variable(&docs[0]).unwrap();
    assert_eq!(
        value,
        attrs(vec![(
            "k",
            NixVariableValue::List(vec![number("1"), NixVariableValue::String("x".to_string())])
        )])
    );
}

#[test]
fn root_scalar_or_list_is_rejected() {
    assert_eq!(
        JsonParser::new().try_parse("[1, 2]"),
        Err(ConversionError::UnsupportedRootShape)
    );
    assert_eq!(JsonParser::new().try_parse("3"), Err(ConversionError::UnsupportedRootShape));
    assert_eq!(
        YamlParser::new().try_parse("- a\n- b\n"),
        Err(ConversionError::UnsupportedRootShape)
    );
    assert_eq!(YamlParser::new().try_parse("scalar"), Err(ConversionError::UnsupportedRootShape));
    assert_eq!(YamlParser::new().try_parse(""), Err(ConversionError::UnsupportedRootShape));
    assert_eq!(JsonParser::new().parse("[1]"), None);
    assert_eq!(YamlParser::new().parse("- 1"), None);
}

#[test]
fn invalid_text_is_a_parse_failure() {
    assert_eq!(JsonParser::new().try_parse("{"), Err(ConversionError::ParseFailure));
    assert_eq!(TomlParser::new().try_parse("a = "), Err(ConversionError::ParseFailure));
    assert_eq!(YamlParser::new().try_parse("a: [1"), Err(ConversionError::ParseFailure));
    assert_eq!(TomlParser::new().parse("= 1"), None);
}

#[test]
fn yaml_non_string_key_is_rejected() {
    assert_eq!(YamlParser::new().try_parse("1: a\n"), Err(ConversionError::NonStringKey));
    assert_eq!(
        YamlParser::new().try_parse("outer:\n  2: b\n"),
        Err(ConversionError::NonStringKey)
    );
    let docs = yaml_rust2::YamlLoader::load_from_str("outer:\n  2: b\n").unwrap();
    assert_eq!(YamlParser::parse_variable(&docs[0]), None);
}

#[test]
fn default_parsers_behave_as_new() {
    assert_eq!(JsonParser::default().parse(JSON), Some(expected()));
    assert_eq!(TomlParser::default().parse(TOML), Some(expected()));
    assert_eq!(YamlParser::default().parse(YAML), Some(expected()));
}

#[test]
fn floats_read_as_doubles_in_every_format() {
    let json = JsonParser::new().parse("{\"a\": 0.30000000000000001, \"b\": 1e2}").unwrap();
    let yaml = YamlParser::new().parse("a: 0.30000000000000001\nb: 1e2\n").unwrap();
    let toml = TomlParser::new().parse("a = 0.30000000000000001\nb = 1e2\n").unwrap();
    assert_eq!(json[0].value, number("0.3"));
    assert_eq!(json[1].value, number("100"));
    assert_eq!(json, yaml);
    assert_eq!(yaml, toml);
}

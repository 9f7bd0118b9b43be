use webdotmd::dict::Dict;
use webdotmd::template::{
    builtin_autofill_values, curr_year, find_first_placeholder, hello, parse_placeholders,
    Placeholder, Position, Template,
};
use webdotmd::Error;

#[test]
fn test_parse_placeholders() {
    let content = "some text, {{ $name$ }}, autofill placeholder {{ %yes% }}, other text {{ $content$ }}{{ $test_offset$ }} another one {{ %no% }}";
    let got = parse_placeholders(content);
    let expected = vec![
        Placeholder {
            name: "name".to_string(),
            position: Position { from: 11, to: 22 },
            is_autofill: false,
        },
        Placeholder {
            name: "yes".to_string(),
            position: Position { from: 23, to: 33 },
            is_autofill: true,
        },
        Placeholder {
            name: "content".to_string(),
            position: Position { from: 13, to: 27 },
            is_autofill: false,
        },
        Placeholder {
            name: "test_offset".to_string(),
            position: Position { from: 0, to: 18 },
            is_autofill: false,
        },
        Placeholder {
            name: "no".to_string(),
            position: Position { from: 13, to: 22 },
            is_autofill: true,
        },
    ];
    assert_eq!(expected, got);
}

#[test]
fn template_test_parse_placeholders() {
    let content = "some text, {{ $name$ }}, other text {{ $content$ }}{{ $test_offset$ }}";
    let got = parse_placeholders(content);
    let expected = vec![
        Placeholder {
            name: "name".into(),
            position: Position { from: 11, to: 22 },
            is_autofill: false,
        },
        Placeholder {
            name: "content".into(),
            position: Position { from: 13, to: 27 },
            is_autofill: false,
        },
        Placeholder {
            name: "test_offset".into(),
            position: Position { from: 0, to: 18 },
            is_autofill: false,
        },
    ];
    assert_eq!(expected, got);
}

#[test]
fn test_render() {
    let mut filled_placeholders: Dict<String> = Dict::new();
    filled_placeholders.insert("name".to_string(), "blanktiger".to_string());
    filled_placeholders.insert("content".to_string(), "some interesting text".to_string());
    filled_placeholders.insert("test_offset".to_string(), "tested".to_string());
    let template = Template {
        content: "some text, {{ $name$ }}, other text {{ $content$ }}{{ $test_offset$ }}"
            .to_string(),
        placeholders: vec![
            Placeholder {
                name: "name".into(),
                position: Position { from: 11, to: 22 },
                is_autofill: false,
            },
            Placeholder {
                name: "content".into(),
                position: Position { from: 13, to: 27 },
                is_autofill: false,
            },
            Placeholder {
                name: "test_offset".into(),
                position: Position { from: 0, to: 18 },
                is_autofill: false,
            },
        ],
    };
    let autofill: Dict<String> = Dict::new();
    let got = template.fill_template(&filled_placeholders, &autofill).unwrap();
    let expected = "some text, blanktiger, other text some interesting texttested".to_string();
    assert_eq!(expected, got);
}

#[test]
fn template_test_render() {
    let mut filled_placeholders: Dict<String> = Dict::new();
    filled_placeholders.insert("name".to_string(), "blanktiger".to_string());
    filled_placeholders.insert("content".to_string(), "some interesting text".to_string());
    filled_placeholders.insert("test_offset".to_string(), "tested".to_string());
    let template = Template::new(
        "some text, {{ $name$ }}, other text {{ $content$ }}{{ $test_offset$ }}".to_string(),
    );
    let autofill: Dict<String> = Dict::new();
    let got = template.fill_template(&filled_placeholders, &autofill).unwrap();
    let expected = "some text, blanktiger, other text some interesting texttested".to_string();
    assert_eq!(expected, got);
}

#[test]
fn test_find_first_placeholder() {
    let content = "some text, {{ $name$ }}, other text";
    let got = find_first_placeholder(content);
    assert_eq!(got, ((Some(11), Some(19)), false));

    let content = "autofill {{ %year% }} here";
    let got = find_first_placeholder(content);
    assert_eq!(got, ((Some(9), Some(17)), true));

    let content = "nothing here";
    let got = find_first_placeholder(content);
    assert_eq!(got, ((None, None), false));
}

#[test]
fn test_fill_round_trip_restores_template() {
    let content = "a {{ $x$ }} b {{ $y$ }} c";
    let template = Template::new(content.to_string());
    let mut filled: Dict<String> = Dict::new();
    filled.insert("x".to_string(), "{{ $x$ }}".to_string());
    filled.insert("y".to_string(), "{{ $y$ }}".to_string());
    let autofill: Dict<String> = Dict::new();
    let got = template.fill_template(&filled, &autofill).unwrap();
    assert_eq!(content, got);
}

#[test]
fn test_literal_text_fills_to_itself() {
    let content = "no placeholders in here at all";
    let template = Template::new(content.to_string());
    assert!(template.placeholders.is_empty());
    let filled: Dict<String> = Dict::new();
    let autofill: Dict<String> = Dict::new();
    let got = template.fill_template(&filled, &autofill).unwrap();
    assert_eq!(content, got);
}

#[test]
fn test_unterminated_placeholder_is_literal() {
    let content = "text before {{ $unterminated and after";
    let template = Template::new(content.to_string());
    assert!(template.placeholders.is_empty());
    let filled: Dict<String> = Dict::new();
    let autofill: Dict<String> = Dict::new();
    let got = template.fill_template(&filled, &autofill).unwrap();
    assert_eq!(content, got);
}

#[test]
fn test_unterminated_closer_of_other_family_is_literal() {
    let content = "mixed {{ $name% }} delimiters";
    let template = Template::new(content.to_string());
    assert!(template.placeholders.is_empty());
}

#[test]
fn test_missing_value_is_an_error() {
    let template = Template::new("hello {{ $name$ }}".to_string());
    let filled: Dict<String> = Dict::new();
    let autofill: Dict<String> = Dict::new();
    let got = template.fill_template(&filled, &autofill);
    assert_eq!(got.unwrap_err(), Error::MissingValue);
}

#[test]
fn test_missing_autofill_is_an_error() {
    let template = Template::new("hello {{ %nope% }}".to_string());
    let filled: Dict<String> = Dict::new();
    let autofill: Dict<String> = Dict::new();
    let got = template.fill_template(&filled, &autofill);
    assert_eq!(got.unwrap_err(), Error::MissingAutofill);
}

#[test]
fn test_builtin_autofill_values() {
    let builtins = builtin_autofill_values();
    assert_eq!(builtins.get("hello"), Some(&"hello".to_string()));
    assert!(builtins.get("curr_year").is_some());

    let template = Template::new("{{ %hello% }}".to_string());
    let filled: Dict<String> = Dict::new();
    let got = template.fill_template(&filled, &builtins).unwrap();
    assert_eq!("hello", got);
}

#[test]
fn test_caller_autofill_wins_over_builtins() {
    let mut mine: Dict<String> = Dict::new();
    mine.insert("hello".to_string(), "goodbye".to_string());
    let merged = mine.over(&builtin_autofill_values());
    assert_eq!(merged.get("hello"), Some(&"goodbye".to_string()));
    assert!(merged.get("curr_year").is_some());
}

#[test]
fn test_hello_and_curr_year() {
    assert_eq!(hello(), "hello");
    let year = curr_year();
    assert!(!year.contains('-'));
    assert!(year.chars().all(|c| c.is_ascii_digit()));
}

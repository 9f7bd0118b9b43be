use webdotmd::markdown::{
    is_a_list, is_code, is_indented, parse_block, parse_content, parse_list_type, parse_metadata,
    Content, Element, LinkFinder, ListType,
};
use webdotmd::text::parse_year_month_date_from_str;
use webdotmd::Error;

#[test]
fn test_parse_metadata() {
    let content = "title: ayaya
template: template.html
author: blanktiger

key: value
:content:";
    let got = parse_metadata(content).unwrap();
    assert_eq!(got.info.get("title"), Some(&"ayaya".to_string()));
    assert_eq!(got.info.get("template"), Some(&"template.html".to_string()));
    assert_eq!(got.info.get("author"), Some(&"blanktiger".to_string()));
    assert_eq!(got.info.get("key"), Some(&"value".to_string()));
    assert_eq!(got.info.len(), 4);
}

#[test]
fn test_template_not_in_metadata() {
    let content = "title: ayaya
:content:";
    let got = parse_metadata(content);
    assert!(got.is_err());
    assert_eq!(got.unwrap_err(), Error::MissingTemplateKey);
}

#[test]
fn test_parse_content_text() {
    let finder = LinkFinder::new();
    let content = ":content:
Some random text.";
    let got = parse_content(&finder, content).unwrap();
    let expected = Content {
        elements: vec![Element::Text("Some random text.".to_string())],
    };
    assert_eq!(expected, got);
}

#[test]
fn test_parse_content_blocks_of_text() {
    let finder = LinkFinder::new();
    let content = ":content:
Some random text.

Some other random text.";
    let got = parse_content(&finder, content).unwrap();
    let expected = Content {
        elements: vec![
            Element::Text("Some random text.".to_string()),
            Element::Break,
            Element::Text("Some other random text.".to_string()),
        ],
    };
    assert_eq!(expected, got);
}

#[test]
fn test_parse_content_header() {
    let finder = LinkFinder::new();
    let content = ":content:
# Header

## Header

### Header

#### Header";
    let got = parse_content(&finder, content).unwrap();
    let expected = Content {
        elements: vec![
            Element::Header {
                level: 1,
                elements: vec![Element::Text("Header".to_string())],
            },
            Element::Break,
            Element::Header {
                level: 2,
                elements: vec![Element::Text("Header".to_string())],
            },
            Element::Break,
            Element::Header {
                level: 3,
                elements: vec![Element::Text("Header".to_string())],
            },
            Element::Break,
            Element::Header {
                level: 4,
                elements: vec![Element::Text("Header".to_string())],
            },
        ],
    };
    assert_eq!(expected, got);
}

#[test]
fn test_parse_content_text_with_link() {
    let finder = LinkFinder::new();
    let content = ":content:
Some text with a link: [link text](coolpage.com). Cool.";
    let got = parse_content(&finder, content).unwrap();
    let expected = Content {
        elements: vec![
            Element::Text("Some text with a link: ".to_string()),
            Element::Link {
                text: "link text".to_string(),
                link: "coolpage.com".to_string(),
            },
            Element::Text(". Cool.".to_string()),
        ],
    };
    assert_eq!(expected, got);
}

#[test]
fn test_parse_content_header_with_link() {
    let finder = LinkFinder::new();
    let content = ":content:
# Some text with a link: [link text](coolpage.com). Cool.";
    let got = parse_content(&finder, content).unwrap();
    let expected = Content {
        elements: vec![Element::Header {
            level: 1,
            elements: vec![
                Element::Text("Some text with a link: ".to_string()),
                Element::Link {
                    text: "link text".to_string(),
                    link: "coolpage.com".to_string(),
                },
                Element::Text(". Cool.".to_string()),
            ],
        }],
    };
    assert_eq!(expected, got);
}

#[test]
fn test_is_a_list() {
    let block = "Some text.";
    let block_is_a_list = is_a_list(block);
    assert!(!block_is_a_list);

    let block = "- Item 1
- Item 2";
    let block_is_a_list = is_a_list(block);
    assert!(block_is_a_list);

    let block = "+ Item 1
+ Item 2";
    let block_is_a_list = is_a_list(block);
    assert!(block_is_a_list);

    let block = "1. Item 1
1. Item 2";
    let block_is_a_list = is_a_list(block);
    assert!(block_is_a_list);

    let block = "a) Item 1
a) Item 2";
    let block_is_a_list = is_a_list(block);
    assert!(block_is_a_list);
}

#[test]
fn test_parse_list_type() {
    let line = "- Item 1";
    let got = parse_list_type(line);
    let expected = ListType::Unordered {
        symbol: "-".to_string(),
    };
    assert_eq!(expected, got);

    let line = "+ Item 1";
    let got = parse_list_type(line);
    let expected = ListType::Unordered {
        symbol: "+".to_string(),
    };
    assert_eq!(expected, got);

    let line = "1. Item 1";
    let got = parse_list_type(line);
    let expected = ListType::Ordered {
        symbol: "1.".to_string(),
    };
    assert_eq!(expected, got);

    let line = "a) Item 1";
    let got = parse_list_type(line);
    let expected = ListType::Ordered {
        symbol: "a)".to_string(),
    };
    assert_eq!(expected, got);
}

#[test]
fn test_parse_content_list() {
    let finder = LinkFinder::new();
    let content = ":content:
- item 1
- item 2

+ item 1
+ item 2

1. item 1
1. item 2

a) item 1
a) item 2

a) item with a link [text](link.com), hurray!
a) item 2

- [text](link.com)";
    let got = parse_content(&finder, content).unwrap();
    let expected = Content {
        elements: vec![
            Element::List {
                list_type: ListType::Unordered {
                    symbol: "-".to_string(),
                },
                items: vec![
                    vec![Element::Text("item 1".to_string())],
                    vec![Element::Text("item 2".to_string())],
                ],
            },
            Element::Break,
            Element::List {
                list_type: ListType::Unordered {
                    symbol: "+".to_string(),
                },
                items: vec![
                    vec![Element::Text("item 1".to_string())],
                    vec![Element::Text("item 2".to_string())],
                ],
            },
            Element::Break,
            Element::List {
                list_type: ListType::Ordered {
                    symbol: "1.".to_string(),
                },
                items: vec![
                    vec![Element::Text("item 1".to_string())],
                    vec![Element::Text("item 2".to_string())],
                ],
            },
            Element::Break,
            Element::List {
                list_type: ListType::Ordered {
                    symbol: "a)".to_string(),
                },
                items: vec![
                    vec![Element::Text("item 1".to_string())],
                    vec![Element::Text("item 2".to_string())],
                ],
            },
            Element::Break,
            Element::List {
                list_type: ListType::Ordered {
                    symbol: "a)".to_string(),
                },
                items: vec![
                    vec![
                        Element::Text("item with a link ".to_string()),
                        Element::Link {
                            text: "text".to_string(),
                            link: "link.com".to_string(),
                        },
                        Element::Text(", hurray!".to_string()),
                    ],
                    vec![Element::Text("item 2".to_string())],
                ],
            },
            Element::Break,
            Element::List {
                list_type: ListType::Unordered {
                    symbol: "-".to_string(),
                },
                items: vec![vec![Element::Link {
                    text: "text".to_string(),
                    link: "link.com".to_string(),
                }]],
            },
        ],
    };
    assert_eq!(expected, got);
}

#[test]
fn test_parse_content_nested_list() {
    let finder = LinkFinder::new();
    let content = ":content:
- item 1
- item 2:
    a) item with a link [text](link.com), hurray!
    a) item 2
- [text](link.com)";
    let got = parse_content(&finder, content).unwrap();
    let expected = Content {
        elements: vec![Element::List {
            list_type: ListType::Unordered {
                symbol: "-".to_string(),
            },
            items: vec![
                vec![Element::Text("item 1".to_string())],
                vec![Element::Text("item 2:".to_string())],
                vec![Element::List {
                    list_type: ListType::Ordered {
                        symbol: "a)".to_string(),
                    },
                    items: vec![
                        vec![
                            Element::Text("item with a link ".to_string()),
                            Element::Link {
                                text: "text".to_string(),
                                link: "link.com".to_string(),
                            },
                            Element::Text(", hurray!".to_string()),
                        ],
                        vec![Element::Text("item 2".to_string())],
                    ],
                }],
                vec![Element::Link {
                    text: "text".to_string(),
                    link: "link.com".to_string(),
                }],
            ],
        }],
    };
    assert_eq!(expected, got);
}

#[test]
fn test_parse_content_code() {
    let finder = LinkFinder::new();
    let content = ":content:
```rust
fn hello_world() -> ! {
    while true {}
}
```";
    let got = parse_content(&finder, content).unwrap();
    let expected = Content {
        elements: vec![Element::Code {
            lang: "rust".to_string(),
            code: "fn hello_world() -> ! {
    while true {}
}"
            .to_string(),
        }],
    };
    assert_eq!(expected, got);
}

#[test]
fn test_code_block_with_blank_lines_stays_one_block() {
    let finder = LinkFinder::new();
    let content = ":content:
```sh
first

second
```";
    let got = parse_content(&finder, content).unwrap();
    let expected = Content {
        elements: vec![Element::Code {
            lang: "sh".to_string(),
            code: "first

second"
                .to_string(),
        }],
    };
    assert_eq!(expected, got);
}

#[test]
fn test_missing_sentinel_is_an_error() {
    let finder = LinkFinder::new();
    let got = parse_content(&finder, "just some text, no sentinel");
    assert_eq!(got.unwrap_err(), Error::MissingSentinel);
}

#[test]
fn test_malformed_metadata_line_is_an_error() {
    let got = parse_metadata("not a pair
:content:");
    assert_eq!(got.unwrap_err(), Error::MalformedMetadataLine);
}

#[test]
fn test_header_without_space_is_an_error() {
    let finder = LinkFinder::new();
    let got = parse_content(&finder, ":content:\n#oops");
    assert_eq!(got.unwrap_err(), Error::MalformedHeader);
}

#[test]
fn test_empty_body_is_a_malformed_list() {
    let finder = LinkFinder::new();
    let got = parse_content(&finder, ":content:\n");
    assert_eq!(got.unwrap_err(), Error::MalformedList);
}

#[test]
fn test_dashes_become_an_em_dash() {
    let finder = LinkFinder::new();
    let got = parse_content(&finder, ":content:\nyes -- indeed").unwrap();
    let expected = Content {
        elements: vec![Element::Text("yes \u{2014} indeed".to_string())],
    };
    assert_eq!(expected, got);
}

#[test]
fn test_parse_block_with_link() {
    let finder = LinkFinder::new();
    let got = parse_block(&finder, "Some text: [link text](coolpage.com). Cool.").unwrap();
    let expected = vec![
        Element::Text("Some text: ".to_string()),
        Element::Link {
            text: "link text".to_string(),
            link: "coolpage.com".to_string(),
        },
        Element::Text(". Cool.".to_string()),
    ];
    assert_eq!(expected, got);
}

#[test]
fn test_parse_block_list() {
    let finder = LinkFinder::new();
    let got = parse_block(&finder, "- item 1
- item 2").unwrap();
    let expected = vec![Element::List {
        list_type: ListType::Unordered {
            symbol: "-".to_string(),
        },
        items: vec![
            vec![Element::Text("item 1".to_string())],
            vec![Element::Text("item 2".to_string())],
        ],
    }];
    assert_eq!(expected, got);
}

#[test]
fn test_parse_block_header() {
    let finder = LinkFinder::new();
    let got = parse_block(&finder, "# Header").unwrap();
    let expected = vec![Element::Header {
        level: 1,
        elements: vec![Element::Text("Header".to_string())],
    }];
    assert_eq!(expected, got);
}

#[test]
fn test_parse_year_month_date_from_str() {
    assert_eq!(parse_year_month_date_from_str("2024-10-12"), Some((2024, 10, 12)));
    assert_eq!(parse_year_month_date_from_str("0001-1-2"), Some((1, 1, 2)));
    assert_eq!(parse_year_month_date_from_str("2024-10"), None);
    assert_eq!(parse_year_month_date_from_str("year-10-12"), None);
    assert_eq!(parse_year_month_date_from_str("9999999999-1-1"), None);
}

#[test]
fn test_is_code_and_is_indented() {
    assert!(is_code("```rust\nlet x = 1;\n```"));
    assert!(is_code("  ```\n```  "));
    assert!(!is_code("```open fence"));
    assert!(!is_code("plain"));
    assert!(is_indented("    a) deep"));
    assert!(!is_indented("   three spaces"));
}

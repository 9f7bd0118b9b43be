use webdotmd::dict::Dict;
use webdotmd::markdown::{load_markdown_pages, Element, ListType};
use webdotmd::render::{header_to_text, html_list_type_from, remove_newlines, render, Renderable};
use webdotmd::template::load_templates;
use webdotmd::Error;

fn element_templates() -> Vec<(String, String)> {
    vec![
        (
            "templates/elements/header.html".to_string(),
            "<h{{ $level$ }} id=\"{{ $text$ }}\">{{ $content$ }}</h{{ $level$ }}>".to_string(),
        ),
        (
            "templates/elements/link.html".to_string(),
            "<a href=\"{{ $link$ }}\">{{ $text$ }}</a>".to_string(),
        ),
        (
            "templates/elements/list_item.html".to_string(),
            "<li>{{ $item$ }}</li>".to_string(),
        ),
        (
            "templates/elements/ordered_list.html".to_string(),
            "<ol class=\"{{ $list_type$ }}\">{{ $items$ }}</ol>".to_string(),
        ),
        (
            "templates/elements/unordered_list.html".to_string(),
            "<ul class=\"{{ $list_type$ }}\">{{ $items$ }}</ul>".to_string(),
        ),
        (
            "templates/elements/code.html".to_string(),
            "<pre><code class=\"{{ $lang$ }}\">{{ $code$ }}</code></pre>".to_string(),
        ),
        (
            "page.html".to_string(),
            "<title>{{ $title$ }}</title><main>{{ $content$ }}</main><nav>{{ $outline$ }}</nav>"
                .to_string(),
        ),
    ]
}

#[test]
fn test_render_text_element() {
    let templates = load_templates(&element_templates());
    let autofill: Dict<String> = Dict::new();
    let el = Element::Text("plain words".to_string());
    assert_eq!(el.render(&templates, &autofill).unwrap(), "plain words");
}

#[test]
fn test_render_break_element() {
    let templates = load_templates(&element_templates());
    let autofill: Dict<String> = Dict::new();
    let el = Element::Break;
    assert_eq!(
        el.render(&templates, &autofill).unwrap(),
        "<div class=\"py-2\"></div>"
    );
}

#[test]
fn test_render_header_element() {
    let templates = load_templates(&element_templates());
    let autofill: Dict<String> = Dict::new();
    let el = Element::Header {
        level: 2,
        elements: vec![Element::Text("Hi".to_string())],
    };
    assert_eq!(
        el.render(&templates, &autofill).unwrap(),
        "<h2 id=\"Hi\">Hi</h2>"
    );
}

#[test]
fn test_render_link_element() {
    let templates = load_templates(&element_templates());
    let autofill: Dict<String> = Dict::new();
    let el = Element::Link {
        text: "here".to_string(),
        link: "page.com".to_string(),
    };
    assert_eq!(
        el.render(&templates, &autofill).unwrap(),
        "<a href=\"page.com\">here</a>"
    );
}

#[test]
fn test_render_list_element() {
    let templates = load_templates(&element_templates());
    let autofill: Dict<String> = Dict::new();
    let el = Element::List {
        list_type: ListType::Unordered {
            symbol: "-".to_string(),
        },
        items: vec![
            vec![Element::Text("a".to_string())],
            vec![Element::Text("b".to_string())],
        ],
    };
    assert_eq!(
        el.render(&templates, &autofill).unwrap(),
        "<ul class=\"list-disc\"><li>a</li><li>b</li></ul>"
    );
}

#[test]
fn test_render_code_element() {
    let templates = load_templates(&element_templates());
    let autofill: Dict<String> = Dict::new();
    let el = Element::Code {
        lang: "rust".to_string(),
        code: "let x = 1;".to_string(),
    };
    assert_eq!(
        el.render(&templates, &autofill).unwrap(),
        "<pre><code class=\"rust\">let x = 1;</code></pre>"
    );
}

#[test]
fn test_render_element_without_template_is_an_error() {
    let templates = load_templates(&Vec::new());
    let autofill: Dict<String> = Dict::new();
    let el = Element::Link {
        text: "t".to_string(),
        link: "l".to_string(),
    };
    assert_eq!(
        el.render(&templates, &autofill).unwrap_err(),
        Error::MissingTemplate
    );
}

#[test]
fn test_render_whole_page() {
    let templates = load_templates(&element_templates());
    let autofill: Dict<String> = Dict::new();
    let pages = load_markdown_pages(&vec![(
        "pages/one.md".to_string(),
        "template: page.html
title: One

:content:
# Top

Some words."
            .to_string(),
    )])
    .unwrap();
    let rendered = render(&pages, &templates, &autofill).unwrap();
    let expected = "<title>One</title><main><h1 id=\"Top\">Top</h1><div class=\"py-2\"></div>Some words.</main><nav><ul class=\"list-disc list-inside\"><li><a href=\"#Top\">Top</a></li><br></ul></nav>";
    assert_eq!(rendered.get("pages/one.md").unwrap(), expected);
}

#[test]
fn test_render_many_pages() {
    let templates = load_templates(&element_templates());
    let autofill: Dict<String> = Dict::new();
    let pages = load_markdown_pages(&vec![
        (
            "a.md".to_string(),
            "template: page.html\ntitle: A\n:content:\nalpha".to_string(),
        ),
        (
            "b.md".to_string(),
            "template: page.html\ntitle: B\n:content:\nbeta".to_string(),
        ),
    ])
    .unwrap();
    let rendered = render(&pages, &templates, &autofill).unwrap();
    assert_eq!(
        rendered.get("a.md").unwrap(),
        "<title>A</title><main>alpha</main><nav><ul class=\"list-disc list-inside\"></ul></nav>"
    );
    assert_eq!(
        rendered.get("b.md").unwrap(),
        "<title>B</title><main>beta</main><nav><ul class=\"list-disc list-inside\"></ul></nav>"
    );
}

#[test]
fn test_render_page_with_missing_template_is_an_error() {
    let templates = load_templates(&Vec::new());
    let autofill: Dict<String> = Dict::new();
    let pages = load_markdown_pages(&vec![(
        "p.md".to_string(),
        "template: nowhere.html\n:content:\ntext".to_string(),
    )])
    .unwrap();
    let got = pages[0].1.render(&templates, &autofill);
    assert_eq!(got.unwrap_err(), Error::MissingTemplate);
}

#[test]
fn test_get_metadata() {
    let pages = load_markdown_pages(&vec![(
        "p.md".to_string(),
        "template: page.html\ntitle: T\n:content:\ntext".to_string(),
    )])
    .unwrap();
    let page = &pages[0].1;
    assert_eq!(page.get_metadata("title"), Some(&"T".to_string()));
    assert_eq!(page.get_metadata("template"), Some(&"page.html".to_string()));
    assert_eq!(page.get_metadata("missing"), None);
}

#[test]
fn test_header_to_text() {
    assert_eq!(header_to_text("<b>Hi \"there\"</b>\n"), "bHi 'there'/b");
}

#[test]
fn test_html_list_type_from() {
    assert_eq!(html_list_type_from("-"), "list-disc");
    assert_eq!(html_list_type_from("+"), "list-[circle]");
    assert_eq!(html_list_type_from("1."), "list-decimal");
    assert_eq!(html_list_type_from("a)"), "list-[lower-roman]");
}

#[test]
fn test_remove_newlines() {
    assert_eq!(remove_newlines("a\nb\n\nc"), "abc");
}

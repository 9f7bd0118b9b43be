//! The render orchestrator: a depth-first walk of a content tree that
//! renders each element through its element-level template, builds the
//! heading outline on the way, and injects the rendered body, the outline
//! and every metadata pair into the page's own template.

use crate::dict::Dict;
use crate::markdown::{
    blocks_parse, body_blocks, content_marker, el_view, els_view, has_link, hash_run,
    is_code_spec, is_first_link_decomp, is_indented_spec, is_link_decomp, is_list_line,
    is_list_spec, is_marker, lemma_els_view, lemma_rows_view, list_fold_spec, list_type_spec,
    page_of, parse_block_spec, parse_content_spec, rows_view, Element, ElementV, ListType,
    ListTypeV, MarkdownPage, PageV,
};
use crate::template::{fill_res, scan_spec, templates_wf, FillOutcome, Template, TemplateV};
use crate::text::{
    concat_all, find_from, lines_spec, replace_exec, replace_spec, str_eq, trim_spec,
    trim_start_spec,
};
use crate::Error;
use vstd::prelude::*;
use vstd::string::*;

verus! {

broadcast use vstd::std_specs::vec::group_vec_axioms, vstd::seq::group_seq_axioms;

/// The decimal digit character for `d`.
pub open spec fn digit_char(d: nat) -> char {
    if d == 0 {
        '0'
    } else if d == 1 {
        '1'
    } else if d == 2 {
        '2'
    } else if d == 3 {
        '3'
    } else if d == 4 {
        '4'
    } else if d == 5 {
        '5'
    } else if d == 6 {
        '6'
    } else if d == 7 {
        '7'
    } else if d == 8 {
        '8'
    } else {
        '9'
    }
}

/// The decimal digits of `n`, most significant first.
pub open spec fn dec_str(n: nat) -> Seq<char>
    decreases n,
{
    if n < 10 {
        seq![digit_char(n)]
    } else {
        dec_str(n / 10).push(digit_char(n % 10))
    }
}

/// The decimal digit string slice for `d`.
fn digit_str(d: usize) -> (r: &'static str)
    requires
        d < 10,
    ensures
        r@ == seq![digit_char(d as nat)],
{
    let r: &'static str = if d == 0 {
        "0"
    } else if d == 1 {
        "1"
    } else if d == 2 {
        "2"
    } else if d == 3 {
        "3"
    } else if d == 4 {
        "4"
    } else if d == 5 {
        "5"
    } else if d == 6 {
        "6"
    } else if d == 7 {
        "7"
    } else if d == 8 {
        "8"
    } else {
        "9"
    };
    proof {
        reveal_strlit("0");
        reveal_strlit("1");
        reveal_strlit("2");
        reveal_strlit("3");
        reveal_strlit("4");
        reveal_strlit("5");
        reveal_strlit("6");
        reveal_strlit("7");
        reveal_strlit("8");
        reveal_strlit("9");
        assert(r@ =~= seq![digit_char(d as nat)]);
    }
    r
}

/// The decimal digits of `n`.
pub fn usize_to_string(n: usize) -> (r: String)
    ensures
        r@ == dec_str(n as nat),
    decreases n,
{
    if n < 10 {
        String::from_str(digit_str(n))
    } else {
        let mut s = usize_to_string(n / 10);
        s.append(digit_str(n % 10));
        s
    }
}

/// What one character of rendered header content contributes to its
/// anchor text: angle brackets and newlines vanish, a double quote
/// becomes a single quote.
pub open spec fn header_char(c: char) -> Seq<char> {
    if c == '<' || c == '>' || c == '\n' {
        Seq::empty()
    } else if c == '"' {
        seq!['\'']
    } else {
        seq![c]
    }
}

/// Rendered header content reduced to anchor text, character by
/// character.
pub open spec fn header_text_spec(s: Seq<char>) -> Seq<char>
    decreases s.len(),
{
    if s.len() == 0 {
        Seq::empty()
    } else {
        header_text_spec(s.drop_last()) + header_char(s.last())
    }
}

/// Strips markup characters from rendered header content for use as
/// anchor text.
pub fn header_to_text(header: &str) -> (r: String)
    ensures
        r@ == header_text_spec(header@),
{
    let n = header.unicode_len();
    let mut out = String::new();
    let mut i: usize = 0;
    proof {
        assert(header@.take(0) =~= Seq::<char>::empty());
    }
    while i < n
        invariant
            i <= n,
            n == header@.len(),
            out@ == header_text_spec(header@.take(i as int)),
        decreases n - i,
    {
        let c = header.get_char(i);
        proof {
            assert(header@.take(i + 1).drop_last() =~= header@.take(i as int));
            assert(header@.take(i + 1).last() == header@[i as int]);
        }
        if c == '<' || c == '>' || c == '\n' {
        } else if c == '"' {
            let q = "'";
            proof {
                reveal_strlit("'");
                assert(q@ =~= seq!['\'']);
            }
            out.append(q);
        } else {
            out.append(header.substring_char(i, i + 1));
            proof {
                assert(header@.subrange(i as int, i + 1) =~= seq![header@[i as int]]);
            }
        }
        i += 1;
    }
    proof {
        assert(header@.take(n as int) =~= header@);
    }
    out
}

/// `s` with every newline removed.
pub open spec fn strip_newlines(s: Seq<char>) -> Seq<char> {
    replace_spec(s, seq!['\n'], Seq::empty())
}

/// Removes every newline.
pub fn remove_newlines(s: &str) -> (r: String)
    ensures
        r@ == strip_newlines(s@),
{
    let p = "\n";
    let e = "";
    proof {
        reveal_strlit("\n");
        reveal_strlit("");
        assert(p@ =~= seq!['\n']);
        assert(e@ =~= Seq::<char>::empty());
    }
    replace_exec(s, p, e)
}

/// The CSS list-style class for a marker symbol.
pub open spec fn html_list_type_spec(symbol: Seq<char>) -> Seq<char> {
    if symbol == seq!['-'] {
        "list-disc"@
    } else if symbol == seq!['+'] {
        "list-[circle]"@
    } else if symbol == seq!['1', '.'] {
        "list-decimal"@
    } else {
        "list-[lower-roman]"@
    }
}

/// The CSS list-style class for a recognized marker symbol.
pub fn html_list_type_from(symbol: &str) -> (r: String)
    requires
        is_marker(symbol@),
    ensures
        r@ == html_list_type_spec(symbol@),
{
    let m1 = "-";
    let m2 = "+";
    let m3 = "1.";
    proof {
        reveal_strlit("-");
        reveal_strlit("+");
        reveal_strlit("1.");
        assert(m1@ =~= seq!['-']);
        assert(m2@ =~= seq!['+']);
        assert(m3@ =~= seq!['1', '.']);
    }
    if str_eq(symbol, m1) {
        String::from_str("list-disc")
    } else if str_eq(symbol, m2) {
        String::from_str("list-[circle]")
    } else if str_eq(symbol, m3) {
        String::from_str("list-decimal")
    } else {
        String::from_str("list-[lower-roman]")
    }
}

/// The fixed markup a `Break` element renders to.
pub open spec fn break_markup() -> Seq<char> {
    "<div class=\"py-2\"></div>"@
}

/// A well-formed element tree: every list's marker symbol is recognized.
pub open spec fn el_wf(el: ElementV) -> bool
    decreases el, 0int,
{
    match el {
        ElementV::Header { level, elements } => els_wf(elements),
        ElementV::List { list_type, items } => {
            let symbol = match list_type {
                ListTypeV::Ordered(s) => s,
                ListTypeV::Unordered(s) => s,
            };
            is_marker(symbol) && rows_wf(items)
        },
        _ => true,
    }
}

/// Well-formedness of a sequence of elements, from `at` on.
pub open spec fn els_wf_from(els: Seq<ElementV>, at: nat) -> bool
    decreases els, els.len() - at,
{
    at >= els.len() || {
        proof {
            assert(decreases_to!(els => els[at as int]));
        }
        el_wf(els[at as int]) && els_wf_from(els, at + 1)
    }
}

/// Well-formedness of a sequence of elements.
pub open spec fn els_wf(els: Seq<ElementV>) -> bool
    decreases els, els.len() + 1int,
{
    els_wf_from(els, 0)
}

/// Well-formedness of list rows, from `at` on.
pub open spec fn rows_wf_from(rows: Seq<Seq<ElementV>>, at: nat) -> bool
    decreases rows, rows.len() - at,
{
    at >= rows.len() || {
        proof {
            assert(decreases_to!(rows => rows[at as int]));
        }
        els_wf(rows[at as int]) && rows_wf_from(rows, at + 1)
    }
}

/// Well-formedness of list rows.
pub open spec fn rows_wf(rows: Seq<Seq<ElementV>>) -> bool
    decreases rows, rows.len() + 1int,
{
    rows_wf_from(rows, 0)
}

/// The elements from `at` on, each well-formed.
pub proof fn lemma_els_wf_index(els: Seq<ElementV>, at: nat)
    requires
        els_wf_from(els, at),
    ensures
        forall|i: int| at <= i < els.len() ==> el_wf(#[trigger] els[i]),
    decreases els.len() - at,
{
    if at < els.len() {
        lemma_els_wf_index(els, at + 1);
    }
}

/// The rows from `at` on, each well-formed.
pub proof fn lemma_rows_wf_index(rows: Seq<Seq<ElementV>>, at: nat)
    requires
        rows_wf_from(rows, at),
    ensures
        forall|i: int| at <= i < rows.len() ==> els_wf(#[trigger] rows[i]),
    decreases rows.len() - at,
{
    if at < rows.len() {
        lemma_rows_wf_index(rows, at + 1);
    }
}

/// Elements are well-formed exactly when each element is.
pub proof fn lemma_els_wf_iff(els: Seq<ElementV>, at: nat)
    ensures
        els_wf_from(els, at) <==> (forall|i: int| at <= i < els.len() ==> el_wf(#[trigger] els[i])),
    decreases els.len() - at,
{
    if at < els.len() {
        lemma_els_wf_iff(els, at + 1);
    }
}

/// Rows are well-formed exactly when each row is.
pub proof fn lemma_rows_wf_iff(rows: Seq<Seq<ElementV>>, at: nat)
    ensures
        rows_wf_from(rows, at) <==> (forall|i: int|
            at <= i < rows.len() ==> els_wf(#[trigger] rows[i])),
    decreases rows.len() - at,
{
    if at < rows.len() {
        lemma_rows_wf_iff(rows, at + 1);
    }
}

/// Whatever the block parser accepts is well-formed: every list marker
/// in the resulting element tree is recognized.
pub proof fn lemma_parse_block_wf(block: Seq<char>)
    ensures
        parse_block_spec(block) matches Ok(els) ==> els_wf(els),
    decreases block.len(), 1int, 0int, 0int,
{
    if block.len() > 0 && block[0] == '#' {
        let k = hash_run(block);
        if k < block.len() && block[k as int] == ' ' {
            lemma_parse_block_wf(block.skip(k + 1int));
            if parse_block_spec(block) is Ok {
                let els = parse_block_spec(block)->Ok_0;
                lemma_els_wf_iff(els, 0);
                lemma_els_wf_iff(parse_block_spec(block.skip(k + 1int))->Ok_0, 0);
            }
        }
    } else if is_code_spec(block) {
        lemma_els_wf_iff(parse_block_spec(block)->Ok_0, 0);
    } else if is_list_spec(block) {
        match list_type_spec(block) {
            Option::Some(lt) => {
                lemma_list_fold_wf(
                    lines_spec(trim_spec(block)),
                    0,
                    Seq::empty(),
                    Seq::empty(),
                    block.len(),
                );
                if parse_block_spec(block) is Ok {
                    let els = parse_block_spec(block)->Ok_0;
                    lemma_rows_wf_iff(Seq::empty(), 0);
                    lemma_els_wf_iff(els, 0);
                    let symbol = match lt {
                        ListTypeV::Ordered(s) => s,
                        ListTypeV::Unordered(s) => s,
                    };
                    assert(is_marker(symbol));
                }
            },
            Option::None => {},
        }
    } else if has_link(block) {
        let d = choose|d: (Seq<char>, Seq<char>, Seq<char>, Seq<char>)|
            is_first_link_decomp(block, d.0, d.1, d.2, d.3);
        if is_link_decomp(block, d.0, d.1, d.2, d.3) {
            if d.3.len() > 0 {
                lemma_parse_block_wf(d.3);
                if parse_block_spec(block) is Ok {
                    let els = parse_block_spec(block)->Ok_0;
                    lemma_els_wf_iff(els, 0);
                    lemma_els_wf_iff(parse_block_spec(d.3)->Ok_0, 0);
                }
            } else {
                if parse_block_spec(block) is Ok {
                    lemma_els_wf_iff(parse_block_spec(block)->Ok_0, 0);
                }
            }
        } else {
            lemma_els_wf_iff(parse_block_spec(block)->Ok_0, 0);
        }
    } else {
        lemma_els_wf_iff(parse_block_spec(block)->Ok_0, 0);
    }
}

/// Whatever the list fold accepts is well-formed, row by row.
proof fn lemma_list_fold_wf(
    lns: Seq<Seq<char>>,
    i: nat,
    items: Seq<Seq<ElementV>>,
    buf: Seq<Seq<char>>,
    budget: nat,
)
    requires
        rows_wf(items),
    ensures
        list_fold_spec(lns, i, items, buf, budget) matches Ok(rows) ==> rows_wf(
            rows,
        ),
    decreases budget, 0int, lns.len() - i, buf.len(),
{
    if i >= lns.len() {
        if buf.len() > 0 {
            let nested = concat_all(buf);
            if nested.len() < budget {
                lemma_parse_block_wf(nested);
                if parse_block_spec(nested) is Ok {
                    lemma_rows_wf_iff(items, 0);
                    lemma_rows_wf_iff(items.push(parse_block_spec(nested)->Ok_0), 0);
                }
            }
        }
    } else {
        let line = lns[i as int];
        if is_indented_spec(line) && is_list_line(line) {
            lemma_list_fold_wf(
                lns,
                i + 1,
                items,
                buf.push(trim_start_spec(line + seq!['\n'])),
                budget,
            );
        } else if buf.len() > 0 {
            let nested = concat_all(buf);
            if nested.len() < budget {
                lemma_parse_block_wf(nested);
                if parse_block_spec(nested) is Ok {
                    lemma_rows_wf_iff(items, 0);
                    lemma_rows_wf_iff(items.push(parse_block_spec(nested)->Ok_0), 0);
                    lemma_list_fold_wf(
                        lns,
                        i,
                        items.push(parse_block_spec(nested)->Ok_0),
                        Seq::empty(),
                        budget,
                    );
                }
            }
        } else {
            let tl = trim_spec(line);
            match find_from(tl, seq![' '], 0) {
                Option::None => {},
                Option::Some(sp) => {
                    let item_text = trim_spec(tl.skip(sp + 1));
                    if item_text.len() < budget {
                        lemma_parse_block_wf(item_text);
                        if parse_block_spec(item_text) is Ok {
                            lemma_rows_wf_iff(items, 0);
                            lemma_rows_wf_iff(items.push(parse_block_spec(item_text)->Ok_0), 0);
                            lemma_list_fold_wf(
                                lns,
                                i + 1,
                                items.push(parse_block_spec(item_text)->Ok_0),
                                buf,
                                budget,
                            );
                        }
                    }
                },
            }
        }
    }
}

/// Whatever the body parser accepts is well-formed, element by element.
proof fn lemma_blocks_parse_wf(blocks: Seq<Seq<char>>, i: nat, acc: Seq<ElementV>)
    requires
        forall|j: int| 0 <= j < acc.len() ==> el_wf(#[trigger] acc[j]),
    ensures
        blocks_parse(blocks, i, acc) matches Ok(els) ==> els_wf(els),
    decreases blocks.len() - i,
{
    if i >= blocks.len() {
        if acc.len() > 0 {
            lemma_els_wf_iff(acc.drop_last(), 0);
        } else {
            lemma_els_wf_iff(acc, 0);
        }
    } else {
        match parse_block_spec(blocks[i as int]) {
            Err(_) => {},
            Ok(els) => {
                lemma_parse_block_wf(blocks[i as int]);
                lemma_els_wf_iff(els, 0);
                let acc2 = acc + els + seq![ElementV::Break];
                assert forall|j: int| 0 <= j < acc2.len() implies el_wf(#[trigger] acc2[j]) by {
                    if j < acc.len() {
                        assert(acc2[j] == acc[j]);
                    } else if j < acc.len() + els.len() {
                        assert(acc2[j] == els[j - acc.len()]);
                    } else {
                        assert(acc2[j] == ElementV::Break);
                    }
                }
                lemma_blocks_parse_wf(blocks, i + 1, acc2);
            },
        }
    }
}

/// Whatever the document parser accepts is well-formed: rendering asks
/// no more of a page than parsing guarantees.
pub proof fn lemma_page_wf(text: Seq<char>)
    ensures
        page_of(text) matches Ok(pv) ==> els_wf(pv.elements),
{
    if parse_content_spec(text) is Ok {
        match find_from(text, content_marker(), 0) {
            Option::None => {},
            Option::Some(at) => {
                lemma_blocks_parse_wf(body_blocks(text, at), 0, Seq::empty());
            },
        }
    }
}

/// The outcome of a fill, as a result: an unresolved name is the
/// corresponding resolution error.
pub open spec fn fill_outcome_to_result(o: FillOutcome) -> Result<Seq<char>, Error> {
    match o {
        FillOutcome::Filled(s) => Ok(s),
        FillOutcome::MissingValue(_) => Err(Error::MissingValue),
        FillOutcome::MissingAutofill(_) => Err(Error::MissingAutofill),
    }
}

/// Filling a template of the set: its placeholders, under the set's
/// well-formedness, are the scan of its content.
pub open spec fn fill_of(
    tv: TemplateV,
    vals: Map<Seq<char>, Seq<char>>,
    autos: Map<Seq<char>, Seq<char>>,
) -> Result<Seq<char>, Error> {
    fill_outcome_to_result(fill_res(tv.content, tv.placeholders, vals, autos))
}

/// What one element renders to: text literally, a break as fixed markup,
/// and every other kind through its element-level template, filled with
/// the element's own fields; a missing template or an unresolved
/// placeholder fails the render.
pub open spec fn render_el(
    el: ElementV,
    tm: Map<Seq<char>, TemplateV>,
    autos: Map<Seq<char>, Seq<char>>,
) -> Result<Seq<char>, Error>
    decreases el, 0int,
{
    match el {
        ElementV::Text(t) => Ok(t),
        ElementV::Break => Ok(break_markup()),
        ElementV::Header { level, elements } => {
            proof {
                assert(decreases_to!(el => elements));
            }
            match render_els(elements, 0, tm, autos) {
                Err(e) => Err(e),
                Ok(content) => {
                    if !tm.contains_key("templates/elements/header.html"@) {
                        Err(Error::MissingTemplate)
                    } else {
                        let vals = Map::empty().insert("level"@, dec_str(level)).insert(
                            "content"@,
                            content,
                        ).insert("text"@, content);
                        fill_of(tm["templates/elements/header.html"@], vals, autos)
                    }
                },
            }
        },
        ElementV::Link { text, link } => {
            if !tm.contains_key("templates/elements/link.html"@) {
                Err(Error::MissingTemplate)
            } else {
                let vals = Map::empty().insert("text"@, text).insert("link"@, link);
                fill_of(tm["templates/elements/link.html"@], vals, autos)
            }
        },
        ElementV::List { list_type, items } => {
            proof {
                assert(decreases_to!(el => items));
            }
            match render_items(items, 0, tm, autos) {
                Err(e) => Err(e),
                Ok(rendered) => {
                    let (symbol, tpl) = match list_type {
                        ListTypeV::Ordered(s) => (s, "templates/elements/ordered_list.html"@),
                        ListTypeV::Unordered(s) => (s, "templates/elements/unordered_list.html"@),
                    };
                    if !tm.contains_key(tpl) {
                        Err(Error::MissingTemplate)
                    } else {
                        let vals = Map::empty().insert("items"@, rendered).insert(
                            "list_type"@,
                            html_list_type_spec(symbol),
                        );
                        fill_of(tm[tpl], vals, autos)
                    }
                },
            }
        },
        ElementV::Code { lang, code } => {
            if !tm.contains_key("templates/elements/code.html"@) {
                Err(Error::MissingTemplate)
            } else {
                let vals = Map::empty().insert("lang"@, lang).insert("code"@, code);
                fill_of(tm["templates/elements/code.html"@], vals, autos)
            }
        },
    }
}

/// What a sequence of elements renders to, from `at` on: the
/// concatenation of the renders, the first failure failing the whole.
pub open spec fn render_els(
    els: Seq<ElementV>,
    at: nat,
    tm: Map<Seq<char>, TemplateV>,
    autos: Map<Seq<char>, Seq<char>>,
) -> Result<Seq<char>, Error>
    decreases els, els.len() - at,
{
    if at >= els.len() {
        Ok(Seq::empty())
    } else {
        proof {
            assert(decreases_to!(els => els[at as int]));
        }
        match render_el(els[at as int], tm, autos) {
            Err(e) => Err(e),
            Ok(r) => match render_els(els, at + 1, tm, autos) {
                Err(e) => Err(e),
                Ok(rest) => Ok(r + rest),
            },
        }
    }
}

/// What a list item's elements render to: each child's render with its
/// newlines removed, concatenated.
pub open spec fn render_item(
    els: Seq<ElementV>,
    at: nat,
    tm: Map<Seq<char>, TemplateV>,
    autos: Map<Seq<char>, Seq<char>>,
) -> Result<Seq<char>, Error>
    decreases els, els.len() - at,
{
    if at >= els.len() {
        Ok(Seq::empty())
    } else {
        proof {
            assert(decreases_to!(els => els[at as int]));
        }
        match render_el(els[at as int], tm, autos) {
            Err(e) => Err(e),
            Ok(r) => match render_item(els, at + 1, tm, autos) {
                Err(e) => Err(e),
                Ok(rest) => Ok(strip_newlines(r) + rest),
            },
        }
    }
}

/// What a list's items render to: each item rendered, filled into the
/// list-item template, concatenated.
pub open spec fn render_items(
    rows: Seq<Seq<ElementV>>,
    at: nat,
    tm: Map<Seq<char>, TemplateV>,
    autos: Map<Seq<char>, Seq<char>>,
) -> Result<Seq<char>, Error>
    decreases rows, rows.len() - at,
{
    if at >= rows.len() {
        Ok(Seq::empty())
    } else {
        proof {
            assert(decreases_to!(rows => rows[at as int]));
        }
        match render_item(rows[at as int], 0, tm, autos) {
            Err(e) => Err(e),
            Ok(item_content) => {
                if !tm.contains_key("templates/elements/list_item.html"@) {
                    Err(Error::MissingTemplate)
                } else {
                    let vals = Map::empty().insert("item"@, item_content);
                    match fill_of(tm["templates/elements/list_item.html"@], vals, autos) {
                        Err(e) => Err(e),
                        Ok(item_rendered) => match render_items(rows, at + 1, tm, autos) {
                            Err(e) => Err(e),
                            Ok(rest) => Ok(item_rendered + rest),
                        },
                    }
                }
            },
        }
    }
}

/// The opening of the outline list.
pub open spec fn outline_open() -> Seq<char> {
    "<ul class=\"list-disc list-inside\">"@
}

/// One outline entry for a header whose children render to `content`.
pub open spec fn outline_entry(content: Seq<char>) -> Seq<char> {
    "<li><a href=\"#"@ + header_text_spec(content) + "\">"@ + header_text_spec(content)
        + "</a></li><br>\n"@
}

/// The page body and the middle of the outline, walking the elements
/// from `at` on: the body is the concatenation of the element renders,
/// and every header contributes one outline entry built from its
/// children's renders.
pub open spec fn page_fold(
    els: Seq<ElementV>,
    at: nat,
    tm: Map<Seq<char>, TemplateV>,
    autos: Map<Seq<char>, Seq<char>>,
) -> Result<(Seq<char>, Seq<char>), Error>
    decreases els, els.len() - at,
{
    if at >= els.len() {
        Ok((Seq::empty(), Seq::empty()))
    } else {
        proof {
            assert(decreases_to!(els => els[at as int]));
        }
        match render_el(els[at as int], tm, autos) {
            Err(e) => Err(e),
            Ok(r) => {
                let entry = match els[at as int] {
                    ElementV::Header { level, elements } => {
                        proof {
                            assert(decreases_to!(els[at as int] => elements));
                        }
                        match render_els(elements, 0, tm, autos) {
                            Err(e) => Err(e),
                            Ok(content) => Ok(outline_entry(content)),
                        }
                    },
                    _ => Ok(Seq::empty()),
                };
                match entry {
                    Err(e) => Err(e),
                    Ok(o) => match page_fold(els, at + 1, tm, autos) {
                        Err(e) => Err(e),
                        Ok(rest) => Ok((r + rest.0, o + rest.1)),
                    },
                }
            },
        }
    }
}

/// Anything that renders itself against a template set and a registry of
/// autofill values.  `render_spec` is the implementor's mathematical
/// account of its own rendering, and `render` must produce exactly it.
pub trait Renderable {
    /// What the implementor asks of its own value before rendering.
    spec fn wf(&self) -> bool;

    /// What rendering returns, as a function of the implementor's view,
    /// the template set, and the autofill values.
    spec fn render_spec(
        &self,
        tm: Map<Seq<char>, TemplateV>,
        autos: Map<Seq<char>, Seq<char>>,
    ) -> Result<Seq<char>, Error>;

    /// Renders against the given templates and autofill values.
    fn render(&self, templates: &Dict<Template>, autofill_values: &Dict<String>) -> (r: Result<
        String,
        Error,
    >)
        requires
            self.wf(),
            templates_wf(templates@),
        ensures
            r matches Ok(s) ==> self.render_spec(templates@, autofill_values@) == Ok::<
                Seq<char>,
                Error,
            >(s@),
            r matches Err(e) ==> self.render_spec(templates@, autofill_values@) == Err::<
                Seq<char>,
                Error,
            >(e),
    ;
}

impl Renderable for Element {
    /// Every list marker in the tree is recognized.
    open spec fn wf(&self) -> bool {
        el_wf(el_view(*self))
    }

    open spec fn render_spec(
        &self,
        tm: Map<Seq<char>, TemplateV>,
        autos: Map<Seq<char>, Seq<char>>,
    ) -> Result<Seq<char>, Error> {
        render_el(el_view(*self), tm, autos)
    }

    /// Renders one element: text literally, a break as fixed markup, and
    /// every other kind through its element-level template.
    #[verifier::loop_isolation(false)]
    fn render(&self, templates: &Dict<Template>, autofill_values: &Dict<String>) -> (r: Result<
        String,
        Error,
    >)
        decreases *self,
    {
        let ghost tm = templates@;
        let ghost autos = autofill_values@;
        match self {
            Element::Text(t) => Ok(t.clone()),
            Element::Break => {
                let s = String::from_str("<div class=\"py-2\"></div>");
                Ok(s)
            },
            Element::Header { level, elements } => {
                let ghost elsv = els_view(elements@);
                proof {
                    lemma_els_view(elements@);
                    lemma_els_wf_index(elsv, 0);
                }
                let en = elements.len();
                let mut content = String::new();
                let mut j: usize = 0;
                while j < en
                    invariant
                        j <= en,
                        render_els(elsv, 0, tm, autos) == (match render_els(
                            elsv,
                            j as nat,
                            tm,
                            autos,
                        ) {
                            Ok(t) => Ok::<Seq<char>, Error>(content@ + t),
                            Err(e) => Err::<Seq<char>, Error>(e),
                        }),
                    decreases en - j,
                {
                    proof {
                        assert(decreases_to!(elements => elements@));
                        assert(decreases_to!(elements@ => elements@[j as int]));
                    }
                    match elements[j].render(templates, autofill_values) {
                        Ok(piece) => {
                            let ghost content0 = content@;
                            content.append(piece.as_str());
                            proof {
                                assert forall|t: Seq<char>|
                                    content0 + (piece@ + t) =~= content@ + t by {}
                            }
                        },
                        Err(e) => {
                            return Err(e);
                        },
                    }
                    j += 1;
                }
                let tpl_name = "templates/elements/header.html";
                let tpl = match templates.get(tpl_name) {
                    Some(t) => t,
                    None => {
                        return Err(Error::MissingTemplate);
                    },
                };
                let mut vals: Dict<String> = Dict::new();
                vals.insert(String::from_str("level"), usize_to_string(*level));
                vals.insert(String::from_str("content"), content.clone());
                vals.insert(String::from_str("text"), content);
                proof {
                    assert(vals@ =~= Map::empty().insert("level"@, dec_str(*level as nat)).insert(
                        "content"@,
                        render_els(elsv, 0, tm, autos)->Ok_0,
                    ).insert("text"@, render_els(elsv, 0, tm, autos)->Ok_0));
                    assert(scan_spec(tpl.content@) == tm[tpl_name@].placeholders);
                }
                tpl.fill_template(&vals, autofill_values)
            },
            Element::Link { text, link } => {
                let tpl_name = "templates/elements/link.html";
                let tpl = match templates.get(tpl_name) {
                    Some(t) => t,
                    None => {
                        return Err(Error::MissingTemplate);
                    },
                };
                let mut vals: Dict<String> = Dict::new();
                vals.insert(String::from_str("text"), text.clone());
                vals.insert(String::from_str("link"), link.clone());
                proof {
                    assert(vals@ =~= Map::empty().insert("text"@, text@).insert("link"@, link@));
                    assert(scan_spec(tpl.content@) == tm[tpl_name@].placeholders);
                }
                tpl.fill_template(&vals, autofill_values)
            },
            Element::List { list_type, items } => {
                let ghost rowsv = rows_view(items@);
                proof {
                    lemma_rows_view(items@);
                    lemma_rows_wf_index(rowsv, 0);
                }
                let rn = items.len();
                let mut rendered = String::new();
                let mut k: usize = 0;
                while k < rn
                    invariant
                        k <= rn,
                        render_items(rowsv, 0, tm, autos) == (match render_items(
                            rowsv,
                            k as nat,
                            tm,
                            autos,
                        ) {
                            Ok(t) => Ok::<Seq<char>, Error>(rendered@ + t),
                            Err(e) => Err::<Seq<char>, Error>(e),
                        }),
                    decreases rn - k,
                {
                    let ghost rowv = rows_view(items@)[k as int];
                    proof {
                        lemma_els_view(items@[k as int]@);
                        lemma_els_wf_index(rowv, 0);
                    }
                    let row_len = items[k].len();
                    let mut item_content = String::new();
                    let mut j: usize = 0;
                    while j < row_len
                        invariant
                            j <= row_len,
                            row_len == items@[k as int]@.len(),
                            k < rn,
                            render_item(rowv, 0, tm, autos) == (match render_item(
                                rowv,
                                j as nat,
                                tm,
                                autos,
                            ) {
                                Ok(t) => Ok::<Seq<char>, Error>(item_content@ + t),
                                Err(e) => Err::<Seq<char>, Error>(e),
                            }),
                        decreases row_len - j,
                    {
                        proof {
                            assert(decreases_to!(items => items@));
                            assert(decreases_to!(items@ => items@[k as int]));
                            assert(decreases_to!(items@[k as int] => items@[k as int]@));
                            assert(decreases_to!(items@[k as int]@ => items@[k as int]@[j as int]));
                        }
                        match items[k][j].render(templates, autofill_values) {
                            Ok(piece) => {
                                let stripped = remove_newlines(piece.as_str());
                                let ghost item0 = item_content@;
                                item_content.append(stripped.as_str());
                                proof {
                                    assert forall|t: Seq<char>|
                                        item0 + (strip_newlines(piece@) + t) =~= item_content@
                                            + t by {}
                                }
                            },
                            Err(e) => {
                                return Err(e);
                            },
                        }
                        j += 1;
                    }
                    let item_tpl_name = "templates/elements/list_item.html";
                    let item_tpl = match templates.get(item_tpl_name) {
                        Some(t) => t,
                        None => {
                            return Err(Error::MissingTemplate);
                        },
                    };
                    let mut item_vals: Dict<String> = Dict::new();
                    item_vals.insert(String::from_str("item"), item_content);
                    proof {
                        assert(item_vals@ =~= Map::empty().insert(
                            "item"@,
                            render_item(rowv, 0, tm, autos)->Ok_0,
                        ));
                        assert(scan_spec(item_tpl.content@) == tm[item_tpl_name@].placeholders);
                    }
                    match item_tpl.fill_template(&item_vals, autofill_values) {
                        Ok(item_rendered) => {
                            let ghost rendered0 = rendered@;
                            rendered.append(item_rendered.as_str());
                            proof {
                                assert forall|t: Seq<char>|
                                    rendered0 + (item_rendered@ + t) =~= rendered@ + t by {}
                            }
                        },
                        Err(e) => {
                            return Err(e);
                        },
                    }
                    k += 1;
                }
                let symbol_is_ordered = match list_type {
                    ListType::Ordered { .. } => true,
                    ListType::Unordered { .. } => false,
                };
                let symbol = match list_type {
                    ListType::Ordered { symbol } => symbol,
                    ListType::Unordered { symbol } => symbol,
                };
                let list_tpl_name = if symbol_is_ordered {
                    "templates/elements/ordered_list.html"
                } else {
                    "templates/elements/unordered_list.html"
                };
                let list_tpl = match templates.get(list_tpl_name) {
                    Some(t) => t,
                    None => {
                        return Err(Error::MissingTemplate);
                    },
                };
                let list_type_class = html_list_type_from(symbol.as_str());
                let mut list_vals: Dict<String> = Dict::new();
                list_vals.insert(String::from_str("items"), rendered);
                list_vals.insert(String::from_str("list_type"), list_type_class);
                proof {
                    assert(list_vals@ =~= Map::empty().insert(
                        "items"@,
                        render_items(rowsv, 0, tm, autos)->Ok_0,
                    ).insert("list_type"@, html_list_type_spec(symbol@)));
                    assert(scan_spec(list_tpl.content@) == tm[list_tpl_name@].placeholders);
                }
                list_tpl.fill_template(&list_vals, autofill_values)
            },
            Element::Code { lang, code } => {
                let tpl_name = "templates/elements/code.html";
                let tpl = match templates.get(tpl_name) {
                    Some(t) => t,
                    None => {
                        return Err(Error::MissingTemplate);
                    },
                };
                let mut vals: Dict<String> = Dict::new();
                vals.insert(String::from_str("lang"), lang.clone());
                vals.insert(String::from_str("code"), code.clone());
                proof {
                    assert(vals@ =~= Map::empty().insert("lang"@, lang@).insert("code"@, code@));
                    assert(scan_spec(tpl.content@) == tm[tpl_name@].placeholders);
                }
                tpl.fill_template(&vals, autofill_values)
            },
        }
    }
}

/// What a page renders to: its body and outline are injected, alongside
/// every metadata pair, into the template its metadata names.
pub open spec fn page_render(
    pv: PageV,
    tm: Map<Seq<char>, TemplateV>,
    autos: Map<Seq<char>, Seq<char>>,
) -> Result<Seq<char>, Error> {
    match page_fold(pv.elements, 0, tm, autos) {
        Err(e) => Err(e),
        Ok(parts) => {
            let outline = outline_open() + parts.1 + "</ul>"@;
            let vals = pv.metadata.insert("content"@, parts.0).insert("outline"@, outline);
            if !pv.metadata.contains_key("template"@) {
                Err(Error::MissingTemplate)
            } else if !tm.contains_key(pv.metadata["template"@]) {
                Err(Error::MissingTemplate)
            } else {
                fill_of(tm[pv.metadata["template"@]], vals, autos)
            }
        },
    }
}

impl Renderable for MarkdownPage {
    /// Every list marker in the page's element tree is recognized.
    open spec fn wf(&self) -> bool {
        els_wf(self@.elements)
    }

    open spec fn render_spec(
        &self,
        tm: Map<Seq<char>, TemplateV>,
        autos: Map<Seq<char>, Seq<char>>,
    ) -> Result<Seq<char>, Error> {
        page_render(self@, tm, autos)
    }

    /// Renders the page: every element in order, an outline entry per
    /// header, then the page template filled with the body, the outline
    /// and every metadata pair.
    #[verifier::loop_isolation(false)]
    fn render(&self, templates: &Dict<Template>, autofill_values: &Dict<String>) -> (r: Result<
        String,
        Error,
    >) {
        let ghost tm = templates@;
        let ghost autos = autofill_values@;
        let ghost elsv = self@.elements;
        proof {
            crate::markdown::lemma_page_view(self);
            lemma_els_view(self.content.elements@);
            lemma_els_wf_index(elsv, 0);
        }
        let en = self.content.elements.len();
        let mut content = String::new();
        let mut outline_mid = String::new();
        let mut i: usize = 0;
        while i < en
            invariant
                i <= en,
                en == self.content.elements@.len(),
                page_fold(elsv, 0, tm, autos) == (match page_fold(elsv, i as nat, tm, autos) {
                    Ok(parts) => Ok::<(Seq<char>, Seq<char>), Error>(
                        (content@ + parts.0, outline_mid@ + parts.1),
                    ),
                    Err(e) => Err::<(Seq<char>, Seq<char>), Error>(e),
                }),
            decreases en - i,
        {
            let piece = match self.content.elements[i].render(templates, autofill_values) {
                Ok(piece) => piece,
                Err(e) => {
                    return Err(e);
                },
            };
            let ghost content0 = content@;
            content.append(piece.as_str());
            proof {
                assert forall|t: Seq<char>| content0 + (piece@ + t) =~= content@ + t by {}
            }
            let ghost mid0 = outline_mid@;
            match &self.content.elements[i] {
                Element::Header { level, elements } => {
                    let ghost hv = els_view(elements@);
                    proof {
                        lemma_els_view(elements@);
                        lemma_els_wf_index(hv, 0);
                    }
                    let hn = elements.len();
                    let mut content2 = String::new();
                    let mut j: usize = 0;
                    while j < hn
                        invariant
                            j <= hn,
                            hn == elements@.len(),
                            i < en,
                            render_els(hv, 0, tm, autos) == (match render_els(
                                hv,
                                j as nat,
                                tm,
                                autos,
                            ) {
                                Ok(t) => Ok::<Seq<char>, Error>(content2@ + t),
                                Err(e) => Err::<Seq<char>, Error>(e),
                            }),
                        decreases hn - j,
                    {
                        match elements[j].render(templates, autofill_values) {
                            Ok(p2) => {
                                let ghost c20 = content2@;
                                content2.append(p2.as_str());
                                proof {
                                    assert forall|t: Seq<char>|
                                        c20 + (p2@ + t) =~= content2@ + t by {}
                                }
                            },
                            Err(e) => {
                                return Err(e);
                            },
                        }
                        j += 1;
                    }
                    let text = header_to_text(content2.as_str());
                    outline_mid.append("<li><a href=\"#");
                    outline_mid.append(text.as_str());
                    outline_mid.append("\">");
                    outline_mid.append(text.as_str());
                    outline_mid.append("</a></li><br>\n");
                    proof {
                        assert(outline_mid@ =~= mid0 + outline_entry(content2@));
                        assert forall|t: Seq<char>|
                            mid0 + (outline_entry(content2@) + t) =~= outline_mid@ + t by {}
                    }
                },
                _ => {
                    proof {
                        assert forall|t: Seq<char>|
                            mid0 + (Seq::<char>::empty() + t) =~= outline_mid@ + t by {}
                    }
                },
            }
            i += 1;
        }
        proof {
            assert(content@ + Seq::<char>::empty() =~= content@);
            assert(outline_mid@ + Seq::<char>::empty() =~= outline_mid@);
        }
        let ghost contentv = content@;
        let ghost midv = outline_mid@;
        let mut filled = self.metadata.info.duplicate();
        filled.insert(String::from_str("content"), content);
        let mut outline = String::from_str("<ul class=\"list-disc list-inside\">");
        outline.append(outline_mid.as_str());
        outline.append("</ul>");
        proof {
            assert(outline@ =~= outline_open() + midv + "</ul>"@);
        }
        filled.insert(String::from_str("outline"), outline);
        proof {
            assert(filled@ =~= self@.metadata.insert("content"@, contentv).insert(
                "outline"@,
                outline_open() + midv + "</ul>"@,
            ));
        }
        let tname = match self.metadata.info.get("template") {
            Some(n) => n,
            None => {
                return Err(Error::MissingTemplate);
            },
        };
        let tpl = match templates.get(tname.as_str()) {
            Some(t) => t,
            None => {
                return Err(Error::MissingTemplate);
            },
        };
        proof {
            assert(scan_spec(tpl.content@) == tm[self@.metadata["template"@]].placeholders);
        }
        tpl.fill_template(&filled, autofill_values)
    }
}

/// The rendered pages, keyed by name, each with its newlines removed;
/// the first page that fails to render fails the whole pass.
pub open spec fn render_all<R: Renderable>(
    pages: Seq<(String, R)>,
    i: nat,
    acc: Map<Seq<char>, Seq<char>>,
    tm: Map<Seq<char>, TemplateV>,
    autos: Map<Seq<char>, Seq<char>>,
) -> Result<Map<Seq<char>, Seq<char>>, Error>
    decreases pages.len() - i,
{
    if i >= pages.len() {
        Ok(acc)
    } else {
        match pages[i as int].1.render_spec(tm, autos) {
            Err(e) => Err(e),
            Ok(s) => render_all(
                pages,
                i + 1,
                acc.insert(pages[i as int].0@, strip_newlines(s)),
                tm,
                autos,
            ),
        }
    }
}

/// Renders every named renderable against the shared template set and
/// autofill values, removing newlines from each rendered page.
#[verifier::loop_isolation(false)]
pub fn render<R: Renderable>(
    named_renderables: &Vec<(String, R)>,
    templates: &Dict<Template>,
    autofill_values: &Dict<String>,
) -> (r: Result<Dict<String>, Error>)
    requires
        templates_wf(templates@),
        forall|i: int|
            0 <= i < named_renderables@.len() ==> (#[trigger] named_renderables@[i]).1.wf(),
    ensures
        r matches Ok(d) ==> render_all(
            named_renderables@,
            0,
            Map::empty(),
            templates@,
            autofill_values@,
        ) == Ok::<Map<Seq<char>, Seq<char>>, Error>(d@),
        r matches Err(e) ==> render_all(
            named_renderables@,
            0,
            Map::empty(),
            templates@,
            autofill_values@,
        ) == Err::<Map<Seq<char>, Seq<char>>, Error>(e),
{
    let n = named_renderables.len();
    let mut out: Dict<String> = Dict::new();
    let mut i: usize = 0;
    while i < n
        invariant
            i <= n,
            render_all(named_renderables@, 0, Map::empty(), templates@, autofill_values@)
                == render_all(
                named_renderables@,
                i as nat,
                out@,
                templates@,
                autofill_values@,
            ),
        decreases n - i,
    {
        match named_renderables[i].1.render(templates, autofill_values) {
            Err(e) => {
                return Err(e);
            },
            Ok(page) => {
                let stripped = remove_newlines(page.as_str());
                let name = named_renderables[i].0.clone();
                out.insert(name, stripped);
            },
        }
        i += 1;
    }
    Ok(out)
}

} // verus!

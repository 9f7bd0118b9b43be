//! The document parser: metadata `key: value` lines up to a sentinel line,
//! then a body split into blocks and parsed into a tree of typed content
//! elements by recognizers applied in a fixed priority order — Header,
//! Code, List, inline Link, then plain Text.  The order matters because
//! the syntaxes overlap: a list item containing a link must be recognized
//! as a list first.

use crate::dict::Dict;
use crate::text::{
    concat_all, ends_with_pat, ends_with_spec, find_from, find_pat, lemma_find_from_some,
    lines_exec, lines_spec, nl_str, replace_exec, replace_spec, split_pat, split_pat_exec,
    starts_with_pat, starts_with_spec, str_eq, strings_view, trim, trim_spec, trim_start,
    trim_start_spec,
};
use crate::Error;
use vstd::prelude::*;
use vstd::string::*;

verus! {

broadcast use vstd::std_specs::vec::group_vec_axioms, vstd::seq::group_seq_axioms;

pub enum ListTypeV {
    Ordered(Seq<char>),
    Unordered(Seq<char>),
}

pub enum ElementV {
    Text(Seq<char>),
    Break,
    Header { level: nat, elements: Seq<ElementV> },
    Link { text: Seq<char>, link: Seq<char> },
    List { list_type: ListTypeV, items: Seq<Seq<ElementV>> },
    Code { lang: Seq<char>, code: Seq<char> },
}

#[derive(Debug, PartialEq)]
pub enum ListType {
    Ordered { symbol: String },
    Unordered { symbol: String },
}

impl DeepView for ListType {
    type V = ListTypeV;

    open spec fn deep_view(&self) -> ListTypeV {
        match self {
            ListType::Ordered { symbol } => ListTypeV::Ordered(symbol@),
            ListType::Unordered { symbol } => ListTypeV::Unordered(symbol@),
        }
    }
}

#[derive(Debug, PartialEq)]
pub enum Element {
    Text(String),
    Break,
    Header { level: usize, elements: Vec<Element> },
    Link { text: String, link: String },
    List { list_type: ListType, items: Vec<Vec<Element>> },
    Code { lang: String, code: String },
}

/// Mathematical content of an element tree.
pub open spec fn el_view(e: Element) -> ElementV
    decreases e,
{
    match e {
        Element::Text(t) => ElementV::Text(t@),
        Element::Break => ElementV::Break,
        Element::Header { level, elements } => {
            proof {
                assert(decreases_to!(e => elements));
                assert(decreases_to!(elements => elements@));
            }
            ElementV::Header { level: level as nat, elements: els_view(elements@) }
        },
        Element::Link { text, link } => ElementV::Link { text: text@, link: link@ },
        Element::List { list_type, items } => {
            proof {
                assert(decreases_to!(e => items));
                assert(decreases_to!(items => items@));
            }
            ElementV::List { list_type: list_type.deep_view(), items: rows_view(items@) }
        },
        Element::Code { lang, code } => ElementV::Code { lang: lang@, code: code@ },
    }
}

/// Mathematical content of a sequence of elements.
pub open spec fn els_view(els: Seq<Element>) -> Seq<ElementV>
    decreases els,
{
    if els.len() == 0 {
        Seq::empty()
    } else {
        proof {
            assert(els.drop_last() == els.subrange(0, els.len() - 1));
            assert(decreases_to!(els => els.subrange(0, els.len() - 1)));
            assert(els.last() == els[els.len() - 1]);
            assert(decreases_to!(els => els[els.len() - 1]));
        }
        els_view(els.drop_last()).push(el_view(els.last()))
    }
}

/// Mathematical content of a sequence of element rows (list items).
pub open spec fn rows_view(rows: Seq<Vec<Element>>) -> Seq<Seq<ElementV>>
    decreases rows,
{
    if rows.len() == 0 {
        Seq::empty()
    } else {
        proof {
            assert(rows.drop_last() == rows.subrange(0, rows.len() - 1));
            assert(decreases_to!(rows => rows.subrange(0, rows.len() - 1)));
            assert(rows.last() == rows[rows.len() - 1]);
            assert(decreases_to!(rows => rows[rows.len() - 1]));
            assert(decreases_to!(rows[rows.len() - 1] => rows[rows.len() - 1]@));
        }
        rows_view(rows.drop_last()).push(els_view(rows.last()@))
    }
}

/// `els_view` element by element.
pub proof fn lemma_els_view(els: Seq<Element>)
    ensures
        els_view(els).len() == els.len(),
        forall|i: int| 0 <= i < els.len() ==> els_view(els)[i] == el_view(els[i]),
    decreases els.len(),
{
    if els.len() > 0 {
        lemma_els_view(els.drop_last());
    }
}

/// `rows_view` row by row.
pub proof fn lemma_rows_view(rows: Seq<Vec<Element>>)
    ensures
        rows_view(rows).len() == rows.len(),
        forall|i: int| 0 <= i < rows.len() ==> rows_view(rows)[i] == els_view(rows[i]@),
    decreases rows.len(),
{
    if rows.len() > 0 {
        lemma_rows_view(rows.drop_last());
    }
}

/// The recognized unordered list marker tokens.
pub open spec fn is_unordered_marker(t: Seq<char>) -> bool {
    t == seq!['-'] || t == seq!['+']
}

/// The recognized ordered list marker tokens.
pub open spec fn is_ordered_marker(t: Seq<char>) -> bool {
    t == seq!['1', '.'] || t == seq!['a', ')']
}

/// The recognized list marker tokens.
pub open spec fn is_marker(t: Seq<char>) -> bool {
    is_unordered_marker(t) || is_ordered_marker(t)
}

/// The code fence, three backticks.
pub open spec fn fence() -> Seq<char> {
    seq!['`', '`', '`']
}

/// The string slice of three backticks.
pub fn fence_str() -> (r: &'static str)
    ensures
        r@ == fence(),
{
    let s = "```";
    proof {
        reveal_strlit("```");
        assert(s@ =~= fence());
    }
    s
}

/// A code block: once trimmed, the block both starts and ends with a fence.
pub open spec fn is_code_spec(block: Seq<char>) -> bool {
    starts_with_spec(trim_spec(block), fence()) && ends_with_spec(trim_spec(block), fence())
}

pub fn is_code(block: &str) -> (r: bool)
    ensures
        r == is_code_spec(block@),
{
    let t = trim(block);
    let f = fence_str();
    starts_with_pat(t, f) && ends_with_pat(t, f)
}

/// A list line: the first space-separated token of the trimmed line is a
/// recognized marker.
pub open spec fn is_list_line(line: Seq<char>) -> bool {
    let t = trim_spec(line);
    match find_from(t, seq![' '], 0) {
        Option::None => false,
        Option::Some(i) => is_marker(t.take(i)),
    }
}

/// A list block: every line qualifies as a list line.
pub open spec fn is_list_spec(block: Seq<char>) -> bool {
    forall|i: int| 0 <= i < lines_spec(block).len() ==> is_list_line(#[trigger] lines_spec(block)[i])
}

/// The string slice of one space.
pub fn space_str() -> (r: &'static str)
    ensures
        r@ == seq![' '],
{
    let s = " ";
    proof {
        reveal_strlit(" ");
        assert(s@ =~= seq![' ']);
    }
    s
}

/// Whether one line is a list line.
fn is_list_line_exec(line: &str) -> (r: bool)
    ensures
        r == is_list_line(line@),
{
    let t = trim(line);
    match find_pat(t, space_str(), 0) {
        None => false,
        Some(i) => {
            proof {
                lemma_find_from_some(t@, seq![' '], 0, i as int);
            }
            let tok = t.substring_char(0, i);
            proof {
                assert(tok@ =~= t@.take(i as int));
            }
            is_marker_exec(tok)
        },
    }
}

/// Whether a token is a recognized list marker.
fn is_marker_exec(tok: &str) -> (r: bool)
    ensures
        r == is_marker(tok@),
{
    let r1 = {
        let m = "-";
        proof {
            reveal_strlit("-");
            assert(m@ =~= seq!['-']);
        }
        str_eq(tok, m)
    };
    let r2 = {
        let m = "+";
        proof {
            reveal_strlit("+");
            assert(m@ =~= seq!['+']);
        }
        str_eq(tok, m)
    };
    let r3 = {
        let m = "1.";
        proof {
            reveal_strlit("1.");
            assert(m@ =~= seq!['1', '.']);
        }
        str_eq(tok, m)
    };
    let r4 = {
        let m = "a)";
        proof {
            reveal_strlit("a)");
            assert(m@ =~= seq!['a', ')']);
        }
        str_eq(tok, m)
    };
    r1 || r2 || r3 || r4
}

/// Whether every line of the block is a list line.
pub fn is_a_list(block: &str) -> (r: bool)
    ensures
        r == is_list_spec(block@),
{
    let lns = lines_exec(block);
    let n = lns.len();
    let mut i: usize = 0;
    while i < n
        invariant
            i <= n,
            n == lns@.len(),
            strings_view(lns@) == lines_spec(block@),
            forall|j: int| 0 <= j < i ==> is_list_line(#[trigger] lines_spec(block@)[j]),
        decreases n - i,
    {
        if !is_list_line_exec(lns[i].as_str()) {
            proof {
                assert(lines_spec(block@)[i as int] == lns@[i as int]@);
            }
            return false;
        }
        proof {
            assert(lines_spec(block@)[i as int] == lns@[i as int]@);
        }
        i += 1;
    }
    true
}

/// An indented line: it begins with the four-space indent unit.
pub open spec fn is_indented_spec(s: Seq<char>) -> bool {
    starts_with_spec(s, seq![' ', ' ', ' ', ' '])
}

pub fn is_indented(s: &str) -> (r: bool)
    ensures
        r == is_indented_spec(s@),
{
    let p = "    ";
    proof {
        reveal_strlit("    ");
        assert(p@ =~= seq![' ', ' ', ' ', ' ']);
    }
    starts_with_pat(s, p)
}

/// The list kind of a block: its trimmed text's leading marker, the
/// unordered markers tried before the ordered ones.
pub open spec fn list_type_spec(block: Seq<char>) -> Option<ListTypeV> {
    let t = trim_spec(block);
    if starts_with_spec(t, seq!['-']) {
        Some(ListTypeV::Unordered(seq!['-']))
    } else if starts_with_spec(t, seq!['+']) {
        Some(ListTypeV::Unordered(seq!['+']))
    } else if starts_with_spec(t, seq!['1', '.']) {
        Some(ListTypeV::Ordered(seq!['1', '.']))
    } else if starts_with_spec(t, seq!['a', ')']) {
        Some(ListTypeV::Ordered(seq!['a', ')']))
    } else {
        None
    }
}

/// The list kind of a block that carries a recognized leading marker.
pub fn parse_list_type(s: &str) -> (r: ListType)
    requires
        list_type_spec(s@) is Some,
    ensures
        Some(r.deep_view()) == list_type_spec(s@),
{
    let t = trim(s);
    let m1 = "-";
    let m2 = "+";
    let m3 = "1.";
    let m4 = "a)";
    proof {
        reveal_strlit("-");
        reveal_strlit("+");
        reveal_strlit("1.");
        reveal_strlit("a)");
        assert(m1@ =~= seq!['-']);
        assert(m2@ =~= seq!['+']);
        assert(m3@ =~= seq!['1', '.']);
        assert(m4@ =~= seq!['a', ')']);
    }
    if starts_with_pat(t, m1) {
        ListType::Unordered { symbol: String::from_str(m1) }
    } else if starts_with_pat(t, m2) {
        ListType::Unordered { symbol: String::from_str(m2) }
    } else if starts_with_pat(t, m3) {
        ListType::Ordered { symbol: String::from_str(m3) }
    } else {
        ListType::Ordered { symbol: String::from_str(m4) }
    }
}

/// No newline character anywhere in `s`.
pub open spec fn no_newline(s: Seq<char>) -> bool {
    forall|i: int| 0 <= i < s.len() ==> s[i] != '\n'
}

/// The text `before ++ [text](target) ++ after`.
pub open spec fn link_assembled(
    before: Seq<char>,
    text: Seq<char>,
    target: Seq<char>,
    after: Seq<char>,
) -> Seq<char> {
    before + seq!['['] + text + seq![']', '('] + target + seq![')'] + after
}

/// `s` splits into literal text, an inline link `[text](target)` whose
/// text and target contain no newline, and a remainder.
pub open spec fn is_link_decomp(
    s: Seq<char>,
    before: Seq<char>,
    text: Seq<char>,
    target: Seq<char>,
    after: Seq<char>,
) -> bool {
    s == link_assembled(before, text, target, after) && no_newline(text) && no_newline(target)
}

/// Lexicographic comparison of decompositions: an earlier link start
/// wins, then a shorter text, then a shorter target.
pub open spec fn decomp_le(
    b1: Seq<char>,
    t1: Seq<char>,
    u1: Seq<char>,
    b2: Seq<char>,
    t2: Seq<char>,
    u2: Seq<char>,
) -> bool {
    b1.len() < b2.len() || (b1.len() == b2.len() && (t1.len() < t2.len() || (t1.len() == t2.len()
        && u1.len() <= u2.len())))
}

/// The first link decomposition: the one every decomposition of `s` is
/// at or after, lexicographically.  This is what a leftmost-first match
/// of `[` `.*?` `](` `.*?` `)` finds, with the lazy captures preferring
/// the shortest text and target.
pub open spec fn is_first_link_decomp(
    s: Seq<char>,
    before: Seq<char>,
    text: Seq<char>,
    target: Seq<char>,
    after: Seq<char>,
) -> bool {
    &&& is_link_decomp(s, before, text, target, after)
    &&& forall|b2: Seq<char>, t2: Seq<char>, u2: Seq<char>, a2: Seq<char>|
        #[trigger] is_link_decomp(s, b2, t2, u2, a2) ==> decomp_le(before, text, target, b2, t2, u2)
}

/// Some inline link occurs in `s`.
pub open spec fn has_link(s: Seq<char>) -> bool {
    exists|b: Seq<char>, t: Seq<char>, u: Seq<char>, a: Seq<char>|
        #[trigger] is_link_decomp(s, b, t, u, a)
}

/// The first link decomposition is unique.
pub proof fn lemma_first_link_decomp_unique(
    s: Seq<char>,
    b1: Seq<char>,
    t1: Seq<char>,
    u1: Seq<char>,
    a1: Seq<char>,
    b2: Seq<char>,
    t2: Seq<char>,
    u2: Seq<char>,
    a2: Seq<char>,
)
    requires
        is_first_link_decomp(s, b1, t1, u1, a1),
        is_first_link_decomp(s, b2, t2, u2, a2),
    ensures
        b1 == b2,
        t1 == t2,
        u1 == u2,
        a1 == a2,
{
    assert(decomp_le(b1, t1, u1, b2, t2, u2));
    assert(decomp_le(b2, t2, u2, b1, t1, u1));
    let bl = b1.len() as int;
    let tl = t1.len() as int;
    let ul = u1.len() as int;
    assert(b2.len() == bl && t2.len() == tl && u2.len() == ul);
    assert(b1 =~= s.subrange(0, bl));
    assert(b2 =~= s.subrange(0, bl));
    assert(t1 =~= s.subrange(bl + 1, bl + 1 + tl));
    assert(t2 =~= s.subrange(bl + 1, bl + 1 + tl));
    assert(u1 =~= s.subrange(bl + tl + 3, bl + tl + 3 + ul));
    assert(u2 =~= s.subrange(bl + tl + 3, bl + tl + 3 + ul));
    assert(a1 =~= s.subrange(bl + tl + ul + 4, s.len() as int));
    assert(a2 =~= s.subrange(bl + tl + ul + 4, s.len() as int));
}

#[verifier::external_type_specification]
#[verifier::external_body]
pub struct ExRegex(regex::Regex);

/// The inline link recognizer, owning its compiled pattern.
pub struct LinkFinder {
    re: regex::Regex,
}

impl LinkFinder {
    /// Relies on `regex::Regex::new`: compiles the fixed inline-link
    /// pattern `\[(.*?)\]\((.*?)\)` once, at construction.  The pattern
    /// is statically valid, so compilation succeeds.
    #[verifier::external_body]
    pub fn new() -> (r: LinkFinder) {
        LinkFinder { re: regex::Regex::new(r"\[(.*?)\]\((.*?)\)").expect("a valid pattern") }
    }

    /// Relies on `regex::Regex::captures` with the pattern above, under
    /// the regex crate's leftmost-first match semantics: `.` matches any
    /// character except a newline, and the lazy `.*?` captures prefer
    /// the shortest text, so the match is the earliest-starting,
    /// shortest-text, shortest-target link, and `None` means the block
    /// holds no link at all.  The pieces returned are the slices before
    /// the match, the two capture groups, and the slice after the match.
    #[verifier::external_body]
    pub fn find_link(&self, block: &str) -> (r: Option<(String, String, String, String)>)
        ensures
            match r {
                Some(m) => is_first_link_decomp(block@, m.0@, m.1@, m.2@, m.3@),
                None => !has_link(block@),
            },
    {
        match self.re.captures(block) {
            None => None,
            Some(caps) => {
                let all = caps.get(0).expect("group 0 always participates");
                let text = caps.get(1).expect("group 1 always participates");
                let target = caps.get(2).expect("group 2 always participates");
                let before = block[..all.start()].to_string();
                let after = block[all.end()..].to_string();
                Some((before, text.as_str().to_string(), target.as_str().to_string(), after))
            },
        }
    }
}

/// The number of leading `#` characters.
pub open spec fn hash_run(s: Seq<char>) -> nat
    decreases s.len(),
{
    if s.len() > 0 && s[0] == '#' {
        (1 + hash_run(s.drop_first())) as nat
    } else {
        0
    }
}

proof fn lemma_hash_run_char(s: Seq<char>, i: int)
    requires
        0 <= i <= s.len(),
        forall|j: int| 0 <= j < i ==> s[j] == '#',
        i == s.len() || s[i] != '#',
    ensures
        hash_run(s) == i,
    decreases i,
{
    if i == 0 {
    } else {
        assert(s[0] == '#');
        lemma_hash_run_char(s.drop_first(), i - 1);
    }
}

/// The number of leading `#` characters.
pub fn hash_run_exec(s: &str) -> (r: usize)
    ensures
        r == hash_run(s@),
{
    let n = s.unicode_len();
    let mut i: usize = 0;
    while i < n && s.get_char(i) == '#'
        invariant
            i <= n,
            n == s@.len(),
            forall|j: int| 0 <= j < i ==> s@[j] == '#',
        decreases n - i,
    {
        i += 1;
    }
    proof {
        lemma_hash_run_char(s@, i as int);
    }
    i
}

/// Everything up to the first newline, or all of `s`.
pub open spec fn first_line(s: Seq<char>) -> Seq<char> {
    match find_from(s, seq!['\n'], 0) {
        Option::None => s,
        Option::Some(i) => s.take(i),
    }
}

/// The lines concatenated, each with a trailing newline.
pub open spec fn concat_lines_nl(v: Seq<Seq<char>>) -> Seq<char>
    decreases v.len(),
{
    if v.len() == 0 {
        Seq::empty()
    } else {
        concat_lines_nl(v.drop_last()) + v.last() + seq!['\n']
    }
}

/// The code element a fenced block parses to: the language tag is the
/// first line's text after the opening fence, and the body is the lines
/// between the fences, rejoined and trimmed.
pub open spec fn code_element_spec(block: Seq<char>) -> ElementV {
    let t = trim_spec(block);
    let lns = lines_spec(t);
    let lang = first_line(t).skip(3);
    let body = if lns.len() >= 2 {
        concat_lines_nl(lns.subrange(1, lns.len() - 1))
    } else {
        Seq::empty()
    };
    ElementV::Code { lang, code: trim_spec(body) }
}

/// The element sequence a block parses to, by recognizer priority:
/// Header, Code, List, inline Link, then plain Text.  A `#` run without
/// a following space, or a list whose lines carry no recognized marker,
/// is a fatal error for the whole document.
pub open spec fn parse_block_spec(block: Seq<char>) -> Result<Seq<ElementV>, Error>
    decreases block.len(), 1int, 0int, 0int,
{
    if block.len() > 0 && block[0] == '#' {
        let k = hash_run(block);
        if k < block.len() && block[k as int] == ' ' {
            match parse_block_spec(block.skip(k + 1int)) {
                Ok(children) => Ok(seq![ElementV::Header { level: k, elements: children }]),
                Err(e) => Err(e),
            }
        } else {
            Err(Error::MalformedHeader)
        }
    } else if is_code_spec(block) {
        Ok(seq![code_element_spec(block)])
    } else if is_list_spec(block) {
        match list_type_spec(block) {
            Option::Some(lt) => {
                match list_fold_spec(
                    lines_spec(trim_spec(block)),
                    0,
                    Seq::empty(),
                    Seq::empty(),
                    block.len(),
                ) {
                    Ok(items) => Ok(seq![ElementV::List { list_type: lt, items }]),
                    Err(e) => Err(e),
                }
            },
            Option::None => Err(Error::MalformedList),
        }
    } else if has_link(block) {
        // A first decomposition exists whenever any decomposition does, so
        // the chosen one satisfies the guard below; the fallback arm is
        // never the meaning of a block that holds a link.
        let d = choose|d: (Seq<char>, Seq<char>, Seq<char>, Seq<char>)|
            is_first_link_decomp(block, d.0, d.1, d.2, d.3);
        if is_link_decomp(block, d.0, d.1, d.2, d.3) {
            let head: Seq<ElementV> = if d.0.len() > 0 {
                seq![ElementV::Text(d.0)]
            } else {
                Seq::empty()
            };
            let link_el = ElementV::Link { text: d.1, link: d.2 };
            if d.3.len() > 0 {
                match parse_block_spec(d.3) {
                    Ok(rest) => Ok(head + seq![link_el] + rest),
                    Err(e) => Err(e),
                }
            } else {
                Ok(head.push(link_el))
            }
        } else {
            Ok(seq![ElementV::Text(block)])
        }
    } else {
        Ok(seq![ElementV::Text(block)])
    }
}

/// One pass over the lines of a list block, building its items: an
/// indented list line joins the pending nested run; when that run ends it
/// is parsed as one nested list pushed as a single item; any other line
/// has its marker token stripped and its remainder parsed as one item.
/// A nested run or an item must fit strictly inside the block's budget,
/// which always holds of text cut from the block itself.
pub open spec fn list_fold_spec(
    lns: Seq<Seq<char>>,
    i: nat,
    items: Seq<Seq<ElementV>>,
    buf: Seq<Seq<char>>,
    budget: nat,
) -> Result<Seq<Seq<ElementV>>, Error>
    decreases budget, 0int, lns.len() - i, buf.len(),
{
    if i >= lns.len() {
        if buf.len() > 0 {
            let nested = concat_all(buf);
            if nested.len() < budget {
                match parse_block_spec(nested) {
                    Ok(els) => Ok(items.push(els)),
                    Err(e) => Err(e),
                }
            } else {
                Err(Error::MalformedList)
            }
        } else {
            Ok(items)
        }
    } else {
        let line = lns[i as int];
        if is_indented_spec(line) && is_list_line(line) {
            list_fold_spec(lns, i + 1, items, buf.push(trim_start_spec(line + seq!['\n'])), budget)
        } else if buf.len() > 0 {
            let nested = concat_all(buf);
            if nested.len() < budget {
                match parse_block_spec(nested) {
                    Ok(els) => list_fold_spec(lns, i, items.push(els), Seq::empty(), budget),
                    Err(e) => Err(e),
                }
            } else {
                Err(Error::MalformedList)
            }
        } else {
            let tl = trim_spec(line);
            match find_from(tl, seq![' '], 0) {
                Option::None => Err(Error::MalformedList),
                Option::Some(sp) => {
                    let item_text = trim_spec(tl.skip(sp + 1));
                    if item_text.len() < budget {
                        match parse_block_spec(item_text) {
                            Ok(els) => list_fold_spec(lns, i + 1, items.push(els), buf, budget),
                            Err(e) => Err(e),
                        }
                    } else {
                        Err(Error::MalformedList)
                    }
                },
            }
        }
    }
}

/// The list kind of a block, if its trimmed text carries a recognized
/// leading marker.
fn try_parse_list_type(s: &str) -> (r: Option<ListType>)
    ensures
        match r {
            Some(lt) => list_type_spec(s@) == Some(lt.deep_view()),
            None => list_type_spec(s@) is None,
        },
{
    let t = trim(s);
    let m1 = "-";
    let m2 = "+";
    let m3 = "1.";
    let m4 = "a)";
    proof {
        reveal_strlit("-");
        reveal_strlit("+");
        reveal_strlit("1.");
        reveal_strlit("a)");
        assert(m1@ =~= seq!['-']);
        assert(m2@ =~= seq!['+']);
        assert(m3@ =~= seq!['1', '.']);
        assert(m4@ =~= seq!['a', ')']);
    }
    if starts_with_pat(t, m1) {
        Some(ListType::Unordered { symbol: String::from_str(m1) })
    } else if starts_with_pat(t, m2) {
        Some(ListType::Unordered { symbol: String::from_str(m2) })
    } else if starts_with_pat(t, m3) {
        Some(ListType::Ordered { symbol: String::from_str(m3) })
    } else if starts_with_pat(t, m4) {
        Some(ListType::Ordered { symbol: String::from_str(m4) })
    } else {
        None
    }
}

/// Parses one block into its element sequence, by recognizer priority:
/// Header, Code, List, inline Link, then plain Text.
#[verifier::loop_isolation(false)]
pub fn parse_block(finder: &LinkFinder, block: &str) -> (r: Result<Vec<Element>, Error>)
    ensures
        r matches Ok(els) ==> parse_block_spec(block@) == Ok::<Seq<ElementV>, Error>(
            els_view(els@),
        ),
        r matches Err(e) ==> parse_block_spec(block@) == Err::<Seq<ElementV>, Error>(e),
    decreases block@.len(),
{
    let blen = block.unicode_len();
    if blen > 0 && block.get_char(0) == '#' {
        let k = hash_run_exec(block);
        if k < blen && block.get_char(k) == ' ' {
            let rest = block.substring_char(k + 1, blen);
            proof {
                assert(rest@ =~= block@.skip(k + 1int));
            }
            match parse_block(finder, rest) {
                Ok(children) => {
                    let ghost cv = els_view(children@);
                    let mut els: Vec<Element> = Vec::new();
                    els.push(Element::Header { level: k, elements: children });
                    proof {
                        lemma_els_view(els@);
                        assert(els_view(els@) =~= seq![
                            ElementV::Header { level: k as nat, elements: cv },
                        ]);
                    }
                    Ok(els)
                },
                Err(e) => Err(e),
            }
        } else {
            Err(Error::MalformedHeader)
        }
    } else if is_code(block) {
        let t = trim(block);
        let tn = t.unicode_len();
        let lang_end = match find_pat(t, nl_str(), 0) {
            Some(i) => {
                proof {
                    lemma_find_from_some(t@, seq!['\n'], 0, i as int);
                    if i < 3 {
                        assert(t@.subrange(i as int, i + 1)[0] == '\n');
                        assert(t@.subrange(0, 3)[i as int] == '`');
                    }
                }
                i
            },
            None => tn,
        };
        let lang = String::from_str(t.substring_char(3, lang_end));
        proof {
            assert(lang@ =~= first_line(t@).skip(3));
        }
        let lns = lines_exec(t);
        let m = lns.len();
        let mut body = String::new();
        if m >= 2 {
            let mut i: usize = 1;
            proof {
                assert(lines_spec(t@).subrange(1, 1) =~= Seq::<Seq<char>>::empty());
            }
            while i < m - 1
                invariant
                    1 <= i <= m - 1,
                    body@ == concat_lines_nl(lines_spec(t@).subrange(1, i as int)),
                decreases m - i,
            {
                body.append(lns[i].as_str());
                body.append(nl_str());
                proof {
                    assert(lines_spec(t@).subrange(1, i + 1).drop_last() =~= lines_spec(
                        t@,
                    ).subrange(1, i as int));
                    assert(lines_spec(t@).subrange(1, i + 1).last() == lns@[i as int]@);
                }
                i += 1;
            }
        }
        let code = String::from_str(trim(body.as_str()));
        let mut els: Vec<Element> = Vec::new();
        els.push(Element::Code { lang, code });
        proof {
            lemma_els_view(els@);
            assert(els_view(els@) =~= seq![code_element_spec(block@)]);
        }
        Ok(els)
    } else if is_a_list(block) {
        let lt = match try_parse_list_type(block) {
            Some(lt) => lt,
            None => {
                return Err(Error::MalformedList);
            },
        };
        let ghost ltv = lt.deep_view();
        let t = trim(block);
        let lns = lines_exec(t);
        let n = lns.len();
        let ghost lnsv = lines_spec(trim_spec(block@));
        let mut items: Vec<Vec<Element>> = Vec::new();
        let mut buf: Vec<String> = Vec::new();
        let mut i: usize = 0;
        proof {
            assert(rows_view(items@) =~= Seq::<Seq<ElementV>>::empty());
            assert(strings_view(buf@) =~= Seq::<Seq<char>>::empty());
        }
        while i < n
            invariant
                i <= n,
                list_fold_spec(lnsv, 0, Seq::empty(), Seq::empty(), block@.len())
                    == list_fold_spec(
                    lnsv,
                    i as nat,
                    rows_view(items@),
                    strings_view(buf@),
                    block@.len(),
                ),
            decreases n - i,
        {
            let line_is_nested = is_indented(lns[i].as_str()) && is_list_line_exec(
                lns[i].as_str(),
            );
            if line_is_nested {
                let mut w = lns[i].clone();
                w.append(nl_str());
                let trimmed = String::from_str(trim_start(w.as_str()));
                let ghost buf0 = strings_view(buf@);
                buf.push(trimmed);
                proof {
                    assert(strings_view(buf@) =~= buf0.push(
                        trim_start_spec(lnsv[i as int] + seq!['\n']),
                    ));
                }
                i += 1;
            } else {
                if buf.len() > 0 {
                    let mut nested = String::new();
                    let bn = buf.len();
                    let mut j: usize = 0;
                    proof {
                        assert(strings_view(buf@).take(0) =~= Seq::<Seq<char>>::empty());
                    }
                    while j < bn
                        invariant
                            j <= bn,
                            bn == buf@.len(),
                            nested@ == concat_all(strings_view(buf@).take(j as int)),
                        decreases bn - j,
                    {
                        nested.append(buf[j].as_str());
                        proof {
                            assert(strings_view(buf@).take(j + 1).drop_last() =~= strings_view(
                                buf@,
                            ).take(j as int));
                            assert(strings_view(buf@).take(j + 1).last() == buf@[j as int]@);
                        }
                        j += 1;
                    }
                    proof {
                        assert(strings_view(buf@).take(bn as int) =~= strings_view(buf@));
                    }
                    if nested.unicode_len() < blen {
                        match parse_block(finder, nested.as_str()) {
                            Ok(els) => {
                                let ghost olditems = items@;
                                let ghost items0 = rows_view(items@);
                                let ghost elsv = els_view(els@);
                                items.push(els);
                                buf = Vec::new();
                                proof {
                                    lemma_rows_view(olditems);
                                    lemma_rows_view(items@);
                                    assert(rows_view(items@) =~= items0.push(elsv));
                                    assert(strings_view(buf@) =~= Seq::<Seq<char>>::empty());
                                    assert(list_fold_spec(
                                        lnsv,
                                        0,
                                        Seq::empty(),
                                        Seq::empty(),
                                        block@.len(),
                                    ) == list_fold_spec(
                                        lnsv,
                                        i as nat,
                                        rows_view(items@),
                                        strings_view(buf@),
                                        block@.len(),
                                    ));
                                }
                            },
                            Err(e) => {
                                return Err(e);
                            },
                        }
                    } else {
                        return Err(Error::MalformedList);
                    }
                }
                let tl = trim(lns[i].as_str());
                let tn = tl.unicode_len();
                match find_pat(tl, space_str(), 0) {
                    None => {
                        return Err(Error::MalformedList);
                    },
                    Some(sp) => {
                        proof {
                            lemma_find_from_some(tl@, seq![' '], 0, sp as int);
                        }
                        let item_raw = tl.substring_char(sp + 1, tn);
                        proof {
                            assert(item_raw@ =~= tl@.skip(sp + 1int));
                        }
                        let item_text = trim(item_raw);
                        if item_text.unicode_len() < blen {
                            match parse_block(finder, item_text) {
                                Ok(els) => {
                                    let ghost olditems = items@;
                                    let ghost items0 = rows_view(items@);
                                    let ghost elsv = els_view(els@);
                                    items.push(els);
                                    proof {
                                        lemma_rows_view(olditems);
                                        lemma_rows_view(items@);
                                        assert(rows_view(items@) =~= items0.push(elsv));
                                        assert(list_fold_spec(
                                            lnsv,
                                            0,
                                            Seq::empty(),
                                            Seq::empty(),
                                            block@.len(),
                                        ) == list_fold_spec(
                                            lnsv,
                                            (i + 1) as nat,
                                            rows_view(items@),
                                            strings_view(buf@),
                                            block@.len(),
                                        ));
                                    }
                                    i += 1;
                                },
                                Err(e) => {
                                    return Err(e);
                                },
                            }
                        } else {
                            return Err(Error::MalformedList);
                        }
                    },
                }
            }
        }
        if buf.len() > 0 {
            let mut nested = String::new();
            let bn = buf.len();
            let mut j: usize = 0;
            proof {
                assert(strings_view(buf@).take(0) =~= Seq::<Seq<char>>::empty());
            }
            while j < bn
                invariant
                    j <= bn,
                    bn == buf@.len(),
                    nested@ == concat_all(strings_view(buf@).take(j as int)),
                decreases bn - j,
            {
                nested.append(buf[j].as_str());
                proof {
                    assert(strings_view(buf@).take(j + 1).drop_last() =~= strings_view(
                        buf@,
                    ).take(j as int));
                    assert(strings_view(buf@).take(j + 1).last() == buf@[j as int]@);
                }
                j += 1;
            }
            proof {
                assert(strings_view(buf@).take(bn as int) =~= strings_view(buf@));
            }
            if nested.unicode_len() < blen {
                match parse_block(finder, nested.as_str()) {
                    Ok(els) => {
                        let ghost olditems = items@;
                        let ghost items0 = rows_view(items@);
                        let ghost elsv = els_view(els@);
                        items.push(els);
                        proof {
                            lemma_rows_view(olditems);
                            lemma_rows_view(items@);
                            assert(rows_view(items@) =~= items0.push(elsv));
                            assert(list_fold_spec(
                                lnsv,
                                0,
                                Seq::empty(),
                                Seq::empty(),
                                block@.len(),
                            ) == list_fold_spec(
                                lnsv,
                                i as nat,
                                rows_view(items@),
                                Seq::empty(),
                                block@.len(),
                            ));
                        }
                    },
                    Err(e) => {
                        return Err(e);
                    },
                }
            } else {
                return Err(Error::MalformedList);
            }
        }
        let mut els: Vec<Element> = Vec::new();
        let ghost itemsv = rows_view(items@);
        els.push(Element::List { list_type: lt, items });
        proof {
            lemma_els_view(els@);
            assert(els_view(els@) =~= seq![ElementV::List { list_type: ltv, items: itemsv }]);
        }
        Ok(els)
    } else {
        match finder.find_link(block) {
            Some(m) => {
                let (before, text, target, after) = m;
                let ghost bv = before@;
                let ghost tv = text@;
                let ghost uv = target@;
                let ghost av = after@;
                proof {
                    let w = (bv, tv, uv, av);
                    assert(is_first_link_decomp(block@, w.0, w.1, w.2, w.3));
                    assert(is_link_decomp(block@, w.0, w.1, w.2, w.3));
                    assert(has_link(block@));
                    let d = choose|d: (Seq<char>, Seq<char>, Seq<char>, Seq<char>)|
                        is_first_link_decomp(block@, d.0, d.1, d.2, d.3);
                    lemma_first_link_decomp_unique(
                        block@,
                        d.0,
                        d.1,
                        d.2,
                        d.3,
                        bv,
                        tv,
                        uv,
                        av,
                    );
                    assert(block@.len() == bv.len() + tv.len() + uv.len() + av.len() + 4);
                }
                let mut els: Vec<Element> = Vec::new();
                if before.unicode_len() > 0 {
                    els.push(Element::Text(before));
                }
                els.push(Element::Link { text, link: target });
                let ghost head_els = els@;
                if after.unicode_len() > 0 {
                    match parse_block(finder, after.as_str()) {
                        Ok(mut rest) => {
                            let ghost restv = rest@;
                            els.append(&mut rest);
                            proof {
                                lemma_els_view(els@);
                                lemma_els_view(restv);
                                let head: Seq<ElementV> = if bv.len() > 0 {
                                    seq![ElementV::Text(bv)]
                                } else {
                                    Seq::empty()
                                };
                                let link_el = ElementV::Link { text: tv, link: uv };
                                assert(els_view(els@) =~= head + seq![link_el] + els_view(
                                    restv,
                                ));
                            }
                            Ok(els)
                        },
                        Err(e) => Err(e),
                    }
                } else {
                    proof {
                        lemma_els_view(els@);
                        let head: Seq<ElementV> = if bv.len() > 0 {
                            seq![ElementV::Text(bv)]
                        } else {
                            Seq::empty()
                        };
                        let link_el = ElementV::Link { text: tv, link: uv };
                        assert(els_view(els@) =~= head.push(link_el));
                    }
                    Ok(els)
                }
            },
            None => {
                let mut els: Vec<Element> = Vec::new();
                els.push(Element::Text(String::from_str(block)));
                proof {
                    lemma_els_view(els@);
                    assert(els_view(els@) =~= seq![ElementV::Text(block@)]);
                }
                Ok(els)
            },
        }
    }
}

/// The sentinel line separating metadata from the body.
pub open spec fn sentinel() -> Seq<char> {
    seq![':', 'c', 'o', 'n', 't', 'e', 'n', 't', ':']
}

/// The sentinel line with its newline, the marker the body starts after.
pub open spec fn content_marker() -> Seq<char> {
    sentinel() + seq!['\n']
}

/// The `key: value` separator.
pub open spec fn kv_sep() -> Seq<char> {
    seq![':', ' ']
}

/// The required metadata key naming the page's template.
pub open spec fn template_key() -> Seq<char> {
    seq!['t', 'e', 'm', 'p', 'l', 'a', 't', 'e']
}

/// The string slice `:content:`.
pub fn sentinel_str() -> (r: &'static str)
    ensures
        r@ == sentinel(),
{
    let s = ":content:";
    proof {
        reveal_strlit(":content:");
        assert(s@ =~= sentinel());
    }
    s
}

/// The string slice `:content:` followed by a newline.
pub fn content_marker_str() -> (r: &'static str)
    ensures
        r@ == content_marker(),
{
    let s = ":content:\n";
    proof {
        reveal_strlit(":content:\n");
        assert(s@ =~= content_marker());
    }
    s
}

/// The string slice `: `.
pub fn kv_sep_str() -> (r: &'static str)
    ensures
        r@ == kv_sep(),
{
    let s = ": ";
    proof {
        reveal_strlit(": ");
        assert(s@ =~= kv_sep());
    }
    s
}

/// One pass over the document's lines, collecting `key: value` pairs: it
/// stops at the sentinel line, skips blank lines, splits every other line
/// at its first `: `, and fails on a line that has none.
pub open spec fn meta_fold(lns: Seq<Seq<char>>, i: nat, acc: Map<Seq<char>, Seq<char>>) -> Result<
    Map<Seq<char>, Seq<char>>,
    Error,
>
    decreases lns.len() - i,
{
    if i >= lns.len() {
        Ok(acc)
    } else {
        let line = lns[i as int];
        if line == sentinel() {
            Ok(acc)
        } else if line.len() == 0 {
            meta_fold(lns, i + 1, acc)
        } else {
            match find_from(line, kv_sep(), 0) {
                Option::None => Err(Error::MalformedMetadataLine),
                Option::Some(p) => meta_fold(
                    lns,
                    i + 1,
                    acc.insert(line.take(p), line.skip(p + 2)),
                ),
            }
        }
    }
}

/// The metadata mapping of a document: its `key: value` pairs up to the
/// sentinel, which must include the `template` key.
pub open spec fn parse_metadata_spec(content: Seq<char>) -> Result<Map<Seq<char>, Seq<char>>, Error> {
    match meta_fold(lines_spec(content), 0, Map::empty()) {
        Err(e) => Err(e),
        Ok(m) => {
            if m.contains_key(template_key()) {
                Ok(m)
            } else {
                Err(Error::MissingTemplateKey)
            }
        },
    }
}

/// A document's metadata: its key/value pairs, keys unique.
#[derive(Debug)]
pub struct Metadata {
    pub info: Dict<String>,
}

/// Extracts the metadata pairs of a document.
pub fn parse_metadata(content: &str) -> (r: Result<Metadata, Error>)
    ensures
        r matches Ok(m) ==> parse_metadata_spec(content@) == Ok::<Map<Seq<char>, Seq<char>>, Error>(
            m.info@,
        ),
        r matches Err(e) ==> parse_metadata_spec(content@) == Err::<
            Map<Seq<char>, Seq<char>>,
            Error,
        >(e),
{
    let ghost lnsv = lines_spec(content@);
    let lns = lines_exec(content);
    let n = lns.len();
    let mut info: Dict<String> = Dict::new();
    let mut i: usize = 0;
    let mut done = false;
    let sentinel_lit = sentinel_str();
    let sep = kv_sep_str();
    while i < n && !done
        invariant
            i <= n,
            n == lns@.len(),
            strings_view(lns@) == lnsv,
            lnsv == lines_spec(content@),
            sentinel_lit@ == sentinel(),
            sep@ == kv_sep(),
            !done ==> meta_fold(lnsv, 0, Map::empty()) == meta_fold(lnsv, i as nat, info@),
            done ==> meta_fold(lnsv, 0, Map::empty()) == Ok::<Map<Seq<char>, Seq<char>>, Error>(
                info@,
            ),
        decreases n - i + (if done { 0int } else { 1int }),
    {
        proof {
            assert(lnsv[i as int] == lns@[i as int]@);
        }
        if str_eq(lns[i].as_str(), sentinel_lit) {
            done = true;
        } else if lns[i].as_str().unicode_len() == 0 {
            i += 1;
        } else {
            let line = lns[i].as_str();
            let ln = line.unicode_len();
            match find_pat(line, sep, 0) {
                None => {
                    return Err(Error::MalformedMetadataLine);
                },
                Some(p) => {
                    proof {
                        lemma_find_from_some(line@, kv_sep(), 0, p as int);
                    }
                    let key = String::from_str(line.substring_char(0, p));
                    let value = String::from_str(line.substring_char(p + 2, ln));
                    let ghost kv = key@;
                    let ghost vv = value@;
                    info.insert(key, value);
                    proof {
                        assert(kv =~= lnsv[i as int].take(p as int));
                        assert(vv =~= lnsv[i as int].skip(p + 2int));
                    }
                    i += 1;
                },
            }
        }
    }
    let tk = "template";
    proof {
        reveal_strlit("template");
        assert(tk@ =~= template_key());
    }
    if info.contains_key(tk) {
        Ok(Metadata { info })
    } else {
        Err(Error::MissingTemplateKey)
    }
}

/// The blank-line separator between blocks.
pub open spec fn block_sep() -> Seq<char> {
    seq!['\n', '\n']
}

/// The string slice of two newlines.
pub fn block_sep_str() -> (r: &'static str)
    ensures
        r@ == block_sep(),
{
    let s = "\n\n";
    proof {
        reveal_strlit("\n\n");
        assert(s@ =~= block_sep());
    }
    s
}

/// Re-merges raw blocks that fall inside an open code fence: a block
/// opening a fence without closing it swallows the following blocks, the
/// blank-line separators restored, until one ends with a fence.  A fence
/// left open at the end of the document drops its pending text.
pub open spec fn merge_fences(
    raw: Seq<Seq<char>>,
    i: nat,
    acc: Seq<Seq<char>>,
    cur: Seq<char>,
    in_code: bool,
) -> Seq<Seq<char>>
    decreases raw.len() - i,
{
    if i >= raw.len() {
        acc
    } else {
        let b = raw[i as int];
        if in_code && ends_with_spec(b, fence()) {
            merge_fences(raw, i + 1, acc.push(cur + block_sep() + b), Seq::empty(), false)
        } else if in_code {
            merge_fences(raw, i + 1, acc, cur + block_sep() + b, true)
        } else if starts_with_spec(b, fence()) && !ends_with_spec(b, fence()) {
            merge_fences(raw, i + 1, acc, b, true)
        } else {
            merge_fences(raw, i + 1, acc.push(b), cur, false)
        }
    }
}

/// Parses each block and separates the results with `Break` elements:
/// one between every two consecutive blocks, none at the start or end.
pub open spec fn blocks_parse(blocks: Seq<Seq<char>>, i: nat, acc: Seq<ElementV>) -> Result<
    Seq<ElementV>,
    Error,
>
    decreases blocks.len() - i,
{
    if i >= blocks.len() {
        Ok(
            if acc.len() > 0 {
                acc.drop_last()
            } else {
                acc
            },
        )
    } else {
        match parse_block_spec(blocks[i as int]) {
            Err(e) => Err(e),
            Ok(els) => blocks_parse(blocks, i + 1, acc + els + seq![ElementV::Break]),
        }
    }
}

/// The merged blocks of a document body.
pub open spec fn body_blocks(full: Seq<char>, at: int) -> Seq<Seq<char>> {
    let body = full.skip(at + 10);
    let dashed = replace_spec(body, seq![' ', '-', '-', ' '], seq![' ', '\u{2014}', ' ']);
    merge_fences(split_pat(dashed, block_sep()), 0, Seq::empty(), Seq::empty(), false)
}

/// The element sequence of a document: everything after the sentinel
/// line, with ` -- ` turned into an em dash, split into blocks (open
/// fences re-merged), each block parsed, `Break` elements between blocks.
pub open spec fn parse_content_spec(full: Seq<char>) -> Result<Seq<ElementV>, Error> {
    match find_from(full, content_marker(), 0) {
        Option::None => Err(Error::MissingSentinel),
        Option::Some(at) => blocks_parse(body_blocks(full, at), 0, Seq::empty()),
    }
}

/// A parsed document body: its ordered content elements.
#[derive(Debug, PartialEq)]
pub struct Content {
    pub elements: Vec<Element>,
}

/// Parses the body of a document into its content elements.
#[verifier::loop_isolation(false)]
pub fn parse_content(finder: &LinkFinder, content: &str) -> (r: Result<Content, Error>)
    ensures
        r matches Ok(c) ==> parse_content_spec(content@) == Ok::<Seq<ElementV>, Error>(
            els_view(c.elements@),
        ),
        r matches Err(e) ==> parse_content_spec(content@) == Err::<Seq<ElementV>, Error>(e),
{
    let n = content.unicode_len();
    let marker = content_marker_str();
    let at = match find_pat(content, marker, 0) {
        None => {
            return Err(Error::MissingSentinel);
        },
        Some(at) => at,
    };
    proof {
        lemma_find_from_some(content@, content_marker(), 0, at as int);
    }
    let body = content.substring_char(at + 10, n);
    proof {
        assert(body@ =~= content@.skip(at + 10int));
    }
    let dashes = " -- ";
    let emdash = " \u{2014} ";
    proof {
        reveal_strlit(" -- ");
        reveal_strlit(" \u{2014} ");
        assert(dashes@ =~= seq![' ', '-', '-', ' ']);
        assert(emdash@ =~= seq![' ', '\u{2014}', ' ']);
    }
    let dashed = replace_exec(body, dashes, emdash);
    let raw = split_pat_exec(dashed.as_str(), block_sep_str());
    let ghost rawv = strings_view(raw@);
    let rn = raw.len();
    let mut acc: Vec<String> = Vec::new();
    let mut cur = String::new();
    let mut in_code = false;
    let mut i: usize = 0;
    proof {
        assert(strings_view(acc@) =~= Seq::<Seq<char>>::empty());
    }
    while i < rn
        invariant
            i <= rn,
            merge_fences(rawv, 0, Seq::empty(), Seq::empty(), false) == merge_fences(
                rawv,
                i as nat,
                strings_view(acc@),
                cur@,
                in_code,
            ),
        decreases rn - i,
    {
        proof {
            assert(rawv[i as int] == raw@[i as int]@);
        }
        let f = fence_str();
        let b_ends = ends_with_pat(raw[i].as_str(), f);
        let b_starts = starts_with_pat(raw[i].as_str(), f);
        if in_code && b_ends {
            let ghost acc0 = strings_view(acc@);
            let ghost cur0 = cur@;
            cur.append(block_sep_str());
            cur.append(raw[i].as_str());
            acc.push(cur);
            cur = String::new();
            in_code = false;
            proof {
                assert(strings_view(acc@) =~= acc0.push(cur0 + block_sep() + rawv[i as int]));
            }
        } else if in_code {
            cur.append(block_sep_str());
            cur.append(raw[i].as_str());
        } else if b_starts && !b_ends {
            cur = raw[i].clone();
            in_code = true;
        } else {
            let ghost acc0 = strings_view(acc@);
            acc.push(raw[i].clone());
            proof {
                assert(strings_view(acc@) =~= acc0.push(rawv[i as int]));
            }
        }
        i += 1;
    }
    let ghost mblocks = merge_fences(rawv, 0, Seq::empty(), Seq::empty(), false);
    proof {
        assert(strings_view(acc@) == mblocks);
    }
    let mn = acc.len();
    let mut elements: Vec<Element> = Vec::new();
    let mut j: usize = 0;
    proof {
        assert(els_view(elements@) =~= Seq::<ElementV>::empty());
    }
    while j < mn
        invariant
            j <= mn,
            blocks_parse(mblocks, 0, Seq::empty()) == blocks_parse(
                mblocks,
                j as nat,
                els_view(elements@),
            ),
        decreases mn - j,
    {
        proof {
            assert(mblocks[j as int] == acc@[j as int]@);
        }
        match parse_block(finder, acc[j].as_str()) {
            Err(e) => {
                return Err(e);
            },
            Ok(mut els) => {
                let ghost e0 = elements@;
                let ghost elsv0 = els@;
                elements.append(&mut els);
                elements.push(Element::Break);
                proof {
                    lemma_els_view(e0);
                    lemma_els_view(elsv0);
                    lemma_els_view(elements@);
                    assert(els_view(elements@) =~= els_view(e0) + els_view(elsv0) + seq![
                        ElementV::Break,
                    ]);
                }
            },
        }
        j += 1;
    }
    let ghost oldels = elements@;
    let ghost efull = els_view(elements@);
    let _ = elements.pop();
    proof {
        lemma_els_view(oldels);
        lemma_els_view(elements@);
        if oldels.len() > 0 {
            assert(els_view(elements@) =~= efull.drop_last());
        } else {
            assert(els_view(elements@) =~= efull);
        }
    }
    Ok(Content { elements })
}

/// Mathematical content of a parsed page.
pub struct PageV {
    pub metadata: Map<Seq<char>, Seq<char>>,
    pub elements: Seq<ElementV>,
}

/// A parsed document: its metadata and its content element tree,
/// immutable after construction.
#[derive(Debug)]
pub struct MarkdownPage {
    pub(crate) metadata: Metadata,
    pub(crate) content: Content,
}

impl View for MarkdownPage {
    type V = PageV;

    closed spec fn view(&self) -> PageV {
        PageV { metadata: self.metadata.info@, elements: els_view(self.content.elements@) }
    }
}

/// The page view, piece by piece, for the renderer.
pub(crate) proof fn lemma_page_view(p: &MarkdownPage)
    ensures
        p@.metadata == p.metadata.info@,
        p@.elements == els_view(p.content.elements@),
{
}

impl MarkdownPage {
    /// The metadata value stored under `name`, if any.
    pub fn get_metadata(&self, name: &str) -> (r: Option<&String>)
        ensures
            match r {
                Some(v) => self@.metadata.contains_key(name@) && v@ == self@.metadata[name@],
                None => !self@.metadata.contains_key(name@),
            },
    {
        self.metadata.info.get(name)
    }
}

/// The page a document text parses to: metadata first, then content;
/// either failure fails the page.
pub open spec fn page_of(text: Seq<char>) -> Result<PageV, Error> {
    match parse_metadata_spec(text) {
        Err(e) => Err(e),
        Ok(m) => match parse_content_spec(text) {
            Err(e) => Err(e),
            Ok(els) => Ok(PageV { metadata: m, elements: els }),
        },
    }
}

/// Parses every named document text into a page: one parsed page per
/// document, under its name, in order; the first failure fails the load.
#[verifier::loop_isolation(false)]
#[verifier::rlimit(30)]
pub fn load_markdown_pages(pages: &Vec<(String, String)>) -> (r: Result<
    Vec<(String, MarkdownPage)>,
    Error,
>)
    ensures
        r matches Ok(loaded) ==> {
            &&& loaded@.len() == pages@.len()
            &&& forall|i: int|
                0 <= i < pages@.len() ==> (#[trigger] loaded@[i]).0@ == pages@[i].0@ && page_of(
                    pages@[i].1@,
                ) == Ok::<PageV, Error>(loaded@[i].1@)
        },
        r matches Err(e) ==> exists|i: int|
            0 <= i < pages@.len() && #[trigger] page_of(pages@[i].1@) == Err::<PageV, Error>(e)
                && (forall|j: int| 0 <= j < i ==> (#[trigger] page_of(pages@[j].1@)) is Ok),
{
    let finder = LinkFinder::new();
    let n = pages.len();
    let mut out: Vec<(String, MarkdownPage)> = Vec::new();
    let mut i: usize = 0;
    while i < n
        invariant
            i <= n,
            out@.len() == i,
            forall|k: int|
                0 <= k < i ==> (#[trigger] out@[k]).0@ == pages@[k].0@ && page_of(pages@[k].1@)
                    == Ok::<PageV, Error>(out@[k].1@),
        decreases n - i,
    {
        let text = pages[i].1.as_str();
        let metadata = match parse_metadata(text) {
            Ok(m) => m,
            Err(e) => {
                proof {
                    assert(page_of(pages@[i as int].1@) == Err::<PageV, Error>(e));
                    assert forall|j: int| 0 <= j < i implies (#[trigger] page_of(
                        pages@[j].1@,
                    )) is Ok by {
                        assert(out@[j].0@ == pages@[j].0@);
                    }
                }
                return Err(e);
            },
        };
        let content = match parse_content(&finder, text) {
            Ok(c) => c,
            Err(e) => {
                proof {
                    assert(page_of(pages@[i as int].1@) == Err::<PageV, Error>(e));
                    assert forall|j: int| 0 <= j < i implies (#[trigger] page_of(
                        pages@[j].1@,
                    )) is Ok by {
                        assert(out@[j].0@ == pages@[j].0@);
                    }
                }
                return Err(e);
            },
        };
        let name = pages[i].0.clone();
        let page = MarkdownPage { metadata, content };
        let ghost pv = page@;
        out.push((name, page));
        proof {
            assert(page_of(pages@[i as int].1@) == Ok::<PageV, Error>(pv));
        }
        i += 1;
    }
    Ok(out)
}

/// A line the metadata parser accepts: blank, the sentinel, or one that
/// splits into a key and a value at a `: ` separator.
pub open spec fn valid_meta_line(l: Seq<char>) -> bool {
    l.len() == 0 || l == sentinel() || find_from(l, kv_sep(), 0) is Some
}

/// A line contributing a key/value pair.
pub open spec fn kv_line(l: Seq<char>) -> bool {
    l.len() > 0 && l != sentinel() && find_from(l, kv_sep(), 0) is Some
}

/// The key of a key/value line.
pub open spec fn meta_line_key(l: Seq<char>) -> Seq<char> {
    l.take(find_from(l, kv_sep(), 0)->0)
}

/// The value of a key/value line.
pub open spec fn meta_line_val(l: Seq<char>) -> Seq<char> {
    l.skip(find_from(l, kv_sep(), 0)->0 + 2)
}

/// The index of the first sentinel line at or after `i`, or the end.
pub open spec fn meta_end(lns: Seq<Seq<char>>, i: nat) -> int
    decreases lns.len() - i,
{
    if i >= lns.len() {
        lns.len() as int
    } else if lns[i as int] == sentinel() {
        i as int
    } else {
        meta_end(lns, i + 1)
    }
}

proof fn lemma_meta_end_bounds(lns: Seq<Seq<char>>, i: nat)
    requires
        i <= lns.len(),
    ensures
        i <= meta_end(lns, i) <= lns.len(),
    decreases lns.len() - i,
{
    if i >= lns.len() {
        assert(meta_end(lns, i) == lns.len());
    } else if lns[i as int] == sentinel() {
        assert(meta_end(lns, i) == i);
    } else {
        lemma_meta_end_bounds(lns, (i + 1) as nat);
        assert(meta_end(lns, i) == meta_end(lns, (i + 1) as nat));
    }
}

proof fn lemma_meta_fold_pairs(lns: Seq<Seq<char>>, i: nat, acc: Map<Seq<char>, Seq<char>>)
    requires
        forall|j: int| i <= j < lns.len() ==> valid_meta_line(#[trigger] lns[j]),
        forall|j1: int, j2: int|
            i <= j1 < j2 < meta_end(lns, i) && kv_line(#[trigger] lns[j1]) && kv_line(
                #[trigger] lns[j2],
            ) ==> meta_line_key(lns[j1]) != meta_line_key(lns[j2]),
    ensures
        meta_fold(lns, i, acc) is Ok,
        forall|j: int|
            i <= j < meta_end(lns, i) && kv_line(#[trigger] lns[j])
                ==> meta_fold(lns, i, acc)->Ok_0.contains_key(meta_line_key(lns[j]))
                && meta_fold(lns, i, acc)->Ok_0[meta_line_key(lns[j])] == meta_line_val(lns[j]),
        forall|k: Seq<char>|
            #[trigger] meta_fold(lns, i, acc)->Ok_0.contains_key(k) ==> acc.contains_key(k)
                || exists|j: int|
                i <= j < meta_end(lns, i) && kv_line(#[trigger] lns[j]) && meta_line_key(lns[j])
                    == k,
        forall|k: Seq<char>|
            acc.contains_key(k) ==> #[trigger] meta_fold(lns, i, acc)->Ok_0.contains_key(k),
        forall|k: Seq<char>|
            acc.contains_key(k) && !(exists|j: int|
                i <= j < meta_end(lns, i) && kv_line(#[trigger] lns[j]) && meta_line_key(lns[j])
                    == k) ==> #[trigger] meta_fold(lns, i, acc)->Ok_0[k] == acc[k],
    decreases lns.len() - i,
{
    if i >= lns.len() {
    } else {
        let line = lns[i as int];
        assert(valid_meta_line(line));
        if line == sentinel() {
        } else if line.len() == 0 {
            assert(!kv_line(line));
            lemma_meta_fold_pairs(lns, i + 1, acc);
        } else {
            let p = find_from(line, kv_sep(), 0)->0;
            let acc2 = acc.insert(line.take(p), line.skip(p + 2));
            lemma_meta_fold_pairs(lns, i + 1, acc2);
            lemma_meta_end_bounds(lns, i + 1);
            let end = meta_end(lns, i);
            let m = meta_fold(lns, i, acc)->Ok_0;
            assert(kv_line(line));
            assert(meta_line_key(line) == line.take(p));
            assert(meta_line_val(line) == line.skip(p + 2));
            assert(i <= i < end && kv_line(lns[i as int]));
            assert forall|k: Seq<char>| #[trigger] m.contains_key(k) implies acc.contains_key(k)
                || exists|j: int|
                i <= j < end && kv_line(#[trigger] lns[j]) && meta_line_key(lns[j]) == k by {
                if acc2.contains_key(k) && !acc.contains_key(k) {
                    assert(k == meta_line_key(lns[i as int]));
                } else if !acc2.contains_key(k) {
                    let j = choose|j: int|
                        i + 1 <= j < meta_end(lns, i + 1) && kv_line(#[trigger] lns[j])
                            && meta_line_key(lns[j]) == k;
                    assert(i <= j < end && kv_line(lns[j]) && meta_line_key(lns[j]) == k);
                }
            }
            assert forall|k: Seq<char>|
                acc.contains_key(k) && !(exists|j: int|
                    i <= j < end && kv_line(#[trigger] lns[j]) && meta_line_key(lns[j])
                        == k) implies #[trigger] m[k] == acc[k] by {
                assert(k != meta_line_key(lns[i as int]));
                if exists|j: int|
                    i + 1 <= j < meta_end(lns, i + 1) && kv_line(#[trigger] lns[j])
                        && meta_line_key(lns[j]) == k {
                    let j = choose|j: int|
                        i + 1 <= j < meta_end(lns, i + 1) && kv_line(#[trigger] lns[j])
                            && meta_line_key(lns[j]) == k;
                    assert(i <= j < end && kv_line(lns[j]) && meta_line_key(lns[j]) == k);
                    assert(false);
                }
                assert(m[k] == acc2[k]);
            }
        }
    }
}

/// Metadata completeness: when every line is blank, the sentinel, or a
/// well-formed `key: value` pair with no key repeated before the
/// sentinel, parsing succeeds, and the mapping holds exactly those
/// pairs — each pair of the region is bound, and nothing else is.
pub proof fn lemma_metadata_pairs(content: Seq<char>)
    requires
        forall|j: int|
            0 <= j < lines_spec(content).len() ==> valid_meta_line(#[trigger] lines_spec(content)[j]),
        forall|j1: int, j2: int|
            0 <= j1 < j2 < meta_end(lines_spec(content), 0) && kv_line(
                #[trigger] lines_spec(content)[j1],
            ) && kv_line(#[trigger] lines_spec(content)[j2]) ==> meta_line_key(
                lines_spec(content)[j1],
            ) != meta_line_key(lines_spec(content)[j2]),
        exists|j: int|
            0 <= j < meta_end(lines_spec(content), 0) && kv_line(#[trigger] lines_spec(content)[j])
                && meta_line_key(lines_spec(content)[j]) == template_key(),
    ensures
        parse_metadata_spec(content) is Ok,
        forall|j: int|
            0 <= j < meta_end(lines_spec(content), 0) && kv_line(#[trigger] lines_spec(content)[j])
                ==> parse_metadata_spec(content)->Ok_0.contains_key(
                meta_line_key(lines_spec(content)[j]),
            ) && parse_metadata_spec(content)->Ok_0[meta_line_key(lines_spec(content)[j])]
                == meta_line_val(lines_spec(content)[j]),
        forall|k: Seq<char>|
            #[trigger] parse_metadata_spec(content)->Ok_0.contains_key(k) ==> exists|j: int|
                0 <= j < meta_end(lines_spec(content), 0) && kv_line(
                    #[trigger] lines_spec(content)[j],
                ) && meta_line_key(lines_spec(content)[j]) == k,
{
    lemma_meta_fold_pairs(lines_spec(content), 0, Map::empty());
}

proof fn lemma_meta_fold_keys_come_from_lines(
    lns: Seq<Seq<char>>,
    i: nat,
    acc: Map<Seq<char>, Seq<char>>,
    k: Seq<char>,
)
    requires
        meta_fold(lns, i, acc) is Ok,
        meta_fold(lns, i, acc)->Ok_0.contains_key(k),
        !acc.contains_key(k),
    ensures
        exists|j: int|
            i <= j < lns.len() && kv_line(#[trigger] lns[j]) && meta_line_key(lns[j]) == k,
    decreases lns.len() - i,
{
    if i >= lns.len() {
    } else {
        let line = lns[i as int];
        if line == sentinel() {
        } else if line.len() == 0 {
            lemma_meta_fold_keys_come_from_lines(lns, i + 1, acc, k);
        } else {
            match find_from(line, kv_sep(), 0) {
                Option::None => {},
                Option::Some(p) => {
                    let acc2 = acc.insert(line.take(p), line.skip(p + 2));
                    if line.take(p) == k {
                        assert(kv_line(line) && meta_line_key(line) == k);
                    } else {
                        lemma_meta_fold_keys_come_from_lines(lns, i + 1, acc2, k);
                    }
                },
            }
        }
    }
}

/// A document with no `template` pair anywhere fails to parse — with the
/// missing-key error when its lines are well formed, and in any case
/// with no value returned.
pub proof fn lemma_metadata_missing_template(content: Seq<char>)
    requires
        forall|j: int|
            0 <= j < lines_spec(content).len() ==> !(kv_line(#[trigger] lines_spec(content)[j])
                && meta_line_key(lines_spec(content)[j]) == template_key()),
    ensures
        parse_metadata_spec(content) is Err,
        meta_fold(lines_spec(content), 0, Map::empty()) is Ok ==> parse_metadata_spec(content)
            == Err::<Map<Seq<char>, Seq<char>>, Error>(Error::MissingTemplateKey),
{
    let lns = lines_spec(content);
    if meta_fold(lns, 0, Map::empty()) is Ok {
        let m = meta_fold(lns, 0, Map::empty())->Ok_0;
        if m.contains_key(template_key()) {
            lemma_meta_fold_keys_come_from_lines(lns, 0, Map::empty(), template_key());
        }
    }
}

/// A block no recognizer claims: not a header, not fenced code, not a
/// list, and holding no inline link.
pub open spec fn plain_text_block(b: Seq<char>) -> bool {
    &&& !(b.len() > 0 && b[0] == '#')
    &&& !is_code_spec(b)
    &&& !is_list_spec(b)
    &&& !has_link(b)
}

/// A plain text block parses to a single `Text` element.
pub proof fn lemma_plain_parses_to_text(b: Seq<char>)
    requires
        plain_text_block(b),
    ensures
        parse_block_spec(b) == Ok::<Seq<ElementV>, Error>(seq![ElementV::Text(b)]),
{
}

/// `Text` and `Break` elements alternating: one `Text` per block, a
/// `Break` after each.
pub open spec fn texts_breaks(blocks: Seq<Seq<char>>, i: nat) -> Seq<ElementV>
    decreases blocks.len() - i,
{
    if i >= blocks.len() {
        Seq::empty()
    } else {
        seq![ElementV::Text(blocks[i as int]), ElementV::Break] + texts_breaks(blocks, i + 1)
    }
}

proof fn lemma_texts_breaks_shape(blocks: Seq<Seq<char>>, i: nat)
    requires
        i <= blocks.len(),
    ensures
        texts_breaks(blocks, i).len() == 2 * (blocks.len() - i),
        forall|k: int|
            0 <= k < texts_breaks(blocks, i).len() && k % 2 == 0 ==> #[trigger] texts_breaks(
                blocks,
                i,
            )[k] == ElementV::Text(blocks[i + k / 2]),
        forall|k: int|
            0 <= k < texts_breaks(blocks, i).len() && k % 2 == 1 ==> #[trigger] texts_breaks(
                blocks,
                i,
            )[k] == ElementV::Break,
    decreases blocks.len() - i,
{
    if i < blocks.len() {
        lemma_texts_breaks_shape(blocks, i + 1);
        assert forall|k: int|
            0 <= k < texts_breaks(blocks, i).len() && k % 2 == 0 implies #[trigger] texts_breaks(
            blocks,
            i,
        )[k] == ElementV::Text(blocks[i + k / 2]) by {
            if k >= 2 {
                assert(texts_breaks(blocks, i)[k] == texts_breaks(blocks, i + 1)[k - 2]);
            }
        }
        assert forall|k: int|
            0 <= k < texts_breaks(blocks, i).len() && k % 2 == 1 implies #[trigger] texts_breaks(
            blocks,
            i,
        )[k] == ElementV::Break by {
            if k >= 2 {
                assert(texts_breaks(blocks, i)[k] == texts_breaks(blocks, i + 1)[k - 2]);
            }
        }
    }
}

proof fn lemma_blocks_parse_all_text(blocks: Seq<Seq<char>>, i: nat, acc: Seq<ElementV>)
    requires
        forall|j: int| i <= j < blocks.len() ==> plain_text_block(#[trigger] blocks[j]),
        acc.len() > 0 || i < blocks.len(),
    ensures
        blocks_parse(blocks, i, acc) == Ok::<Seq<ElementV>, Error>(
            (acc + texts_breaks(blocks, i)).drop_last(),
        ),
    decreases blocks.len() - i,
{
    if i >= blocks.len() {
        assert(acc + texts_breaks(blocks, i) =~= acc);
    } else {
        lemma_plain_parses_to_text(blocks[i as int]);
        let acc2 = acc + seq![ElementV::Text(blocks[i as int]), ElementV::Break];
        assert(acc + parse_block_spec(blocks[i as int])->Ok_0 + seq![ElementV::Break] =~= acc2);
        lemma_blocks_parse_all_text(blocks, i + 1, acc2);
        assert(acc2 + texts_breaks(blocks, i + 1) =~= acc + texts_breaks(blocks, i));
    }
}

/// A body of nothing but separated text blocks parses to elements that
/// alternate `Text` and `Break`, starting and ending with `Text`: one
/// `Text` per block, in order, a `Break` between every two.
pub proof fn lemma_text_blocks_alternate(full: Seq<char>, at: int)
    requires
        find_from(full, content_marker(), 0) == Some(at),
        body_blocks(full, at).len() > 0,
        forall|i: int|
            0 <= i < body_blocks(full, at).len() ==> plain_text_block(
                #[trigger] body_blocks(full, at)[i],
            ),
    ensures
        parse_content_spec(full) is Ok,
        parse_content_spec(full)->Ok_0.len() == 2 * body_blocks(full, at).len() - 1,
        forall|k: int|
            0 <= k < parse_content_spec(full)->Ok_0.len() && k % 2 == 0
                ==> #[trigger] parse_content_spec(full)->Ok_0[k] == ElementV::Text(
                body_blocks(full, at)[k / 2],
            ),
        forall|k: int|
            0 <= k < parse_content_spec(full)->Ok_0.len() && k % 2 == 1
                ==> #[trigger] parse_content_spec(full)->Ok_0[k] == ElementV::Break,
{
    let bs = body_blocks(full, at);
    lemma_blocks_parse_all_text(bs, 0, Seq::empty());
    lemma_texts_breaks_shape(bs, 0);
    assert(Seq::<ElementV>::empty() + texts_breaks(bs, 0) =~= texts_breaks(bs, 0));
    assert(parse_content_spec(full)->Ok_0 =~= texts_breaks(bs, 0).drop_last());
}

} // verus!

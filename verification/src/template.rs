//! The template placeholder engine.  A template is raw text containing
//! placeholders of two families: value-placeholders bounded by `{{ $` and
//! `$ }}`, and autofill-placeholders bounded by `{{ %` and `% }}`.  The
//! scanner records each placeholder with offsets relative to the end of the
//! previous placeholder's span, so that filling consumes the content in one
//! left-to-right pass regardless of how value lengths differ from the spans
//! they replace.

use crate::dict::Dict;
use crate::text::{find_from, find_pat, lemma_find_from_none, lemma_find_from_some, occurs_at};
use crate::Error;
use vstd::prelude::*;
use vstd::string::*;

verus! {

/// Mathematical content of one placeholder.
pub struct PlaceholderV {
    /// The characters strictly between the delimiters' inner markers.
    pub name: Seq<char>,
    /// Offset of the first delimiter character, measured from the end of
    /// the previous placeholder's span (or from the start of the template
    /// for the first placeholder).
    pub from: nat,
    /// Offset of the last delimiter character, measured the same way.
    pub to: nat,
    /// Whether the placeholder is resolved from the autofill registry
    /// rather than from caller-supplied values.
    pub is_autofill: bool,
}

/// Span of one placeholder, in relative offsets (see `PlaceholderV`).
#[derive(Clone, Copy, Debug, PartialEq, Eq, Structural)]
pub struct Position {
    pub from: usize,
    pub to: usize,
}

/// One placeholder found in template text.
#[derive(Debug, PartialEq)]
pub struct Placeholder {
    pub name: String,
    pub position: Position,
    pub is_autofill: bool,
}

impl View for Placeholder {
    type V = PlaceholderV;

    open spec fn view(&self) -> PlaceholderV {
        PlaceholderV {
            name: self.name@,
            from: self.position.from as nat,
            to: self.position.to as nat,
            is_autofill: self.is_autofill,
        }
    }
}

/// Views of a sequence of placeholders.
pub open spec fn placeholders_view(v: Seq<Placeholder>) -> Seq<PlaceholderV> {
    v.map_values(|p: Placeholder| p@)
}

/// The opening delimiter of a value-placeholder.
pub open spec fn open_norm() -> Seq<char> {
    seq!['{', '{', ' ', '$']
}

/// The closing delimiter of a value-placeholder.
pub open spec fn close_norm() -> Seq<char> {
    seq!['$', ' ', '}', '}']
}

/// The opening delimiter of an autofill-placeholder.
pub open spec fn open_auto() -> Seq<char> {
    seq!['{', '{', ' ', '%']
}

/// The closing delimiter of an autofill-placeholder.
pub open spec fn close_auto() -> Seq<char> {
    seq!['%', ' ', '}', '}']
}

/// The closing delimiter of the given family.
pub open spec fn close_delim(is_autofill: bool) -> Seq<char> {
    if is_autofill {
        close_auto()
    } else {
        close_norm()
    }
}

/// The first opening delimiter of either family in `s`: its position and
/// its family.  The two delimiters differ in their fourth character, so
/// they can never start at the same position; on the impossible tie the
/// value family is preferred.
pub open spec fn next_opener(s: Seq<char>) -> Option<(int, bool)> {
    let n = find_from(s, open_norm(), 0);
    let a = find_from(s, open_auto(), 0);
    match (n, a) {
        (Option::None, Option::None) => None,
        (Option::Some(i), Option::None) => Some((i, false)),
        (Option::None, Option::Some(j)) => Some((j, true)),
        (Option::Some(i), Option::Some(j)) => if i <= j {
            Some((i, false))
        } else {
            Some((j, true))
        },
    }
}

/// The placeholders of template text `s`, in first-occurrence order, with
/// relative spans.  Scanning looks for the next opener of either family,
/// then for a closer of the same family after it; if either is missing the
/// remaining text is literal and scanning stops.
pub open spec fn scan_spec(s: Seq<char>) -> Seq<PlaceholderV>
    decreases s.len(),
{
    match next_opener(s) {
        Option::None => Seq::empty(),
        Option::Some((p, auto)) => {
            if 0 <= p && p + 4 <= s.len() {
                match find_from(s, close_delim(auto), (p + 4) as nat) {
                    Option::None => Seq::empty(),
                    Option::Some(c) => {
                        if p + 4 <= c && c + 4 <= s.len() {
                            seq![
                                PlaceholderV {
                                    name: s.subrange(p + 4, c),
                                    from: p as nat,
                                    to: (c + 3) as nat,
                                    is_autofill: auto,
                                },
                            ] + scan_spec(s.skip(c + 4))
                        } else {
                            Seq::empty()
                        }
                    },
                }
            } else {
                Seq::empty()
            }
        },
    }
}

/// What `next_opener` promises: an occurrence of the named family's opener,
/// before which no opener of either family occurs.
pub proof fn lemma_next_opener_some(s: Seq<char>, p: int, auto: bool)
    requires
        next_opener(s) == Some((p, auto)),
    ensures
        occurs_at(s, if auto { open_auto() } else { open_norm() }, p),
        forall|j: int| 0 <= j < p ==> !occurs_at(s, open_norm(), j),
        forall|j: int| 0 <= j < p ==> !occurs_at(s, open_auto(), j),
{
    let n = find_from(s, open_norm(), 0);
    let a = find_from(s, open_auto(), 0);
    if n is Some {
        lemma_find_from_some(s, open_norm(), 0, n->0);
    } else {
        lemma_find_from_none(s, open_norm(), 0);
    }
    if a is Some {
        lemma_find_from_some(s, open_auto(), 0, a->0);
    } else {
        lemma_find_from_none(s, open_auto(), 0);
    }
}

/// The string slice `{{ $`.
pub fn open_norm_str() -> (r: &'static str)
    ensures
        r@ == open_norm(),
{
    let s = "{{ $";
    proof {
        reveal_strlit("{{ $");
        assert(s@ =~= open_norm());
    }
    s
}

/// The string slice `$ }}`.
pub fn close_norm_str() -> (r: &'static str)
    ensures
        r@ == close_norm(),
{
    let s = "$ }}";
    proof {
        reveal_strlit("$ }}");
        assert(s@ =~= close_norm());
    }
    s
}

/// The string slice `{{ %`.
pub fn open_auto_str() -> (r: &'static str)
    ensures
        r@ == open_auto(),
{
    let s = "{{ %";
    proof {
        reveal_strlit("{{ %");
        assert(s@ =~= open_auto());
    }
    s
}

/// The string slice `% }}`.
pub fn close_auto_str() -> (r: &'static str)
    ensures
        r@ == close_auto(),
{
    let s = "% }}";
    proof {
        reveal_strlit("% }}");
        assert(s@ =~= close_auto());
    }
    s
}

/// Position of the first placeholder of either family in `content`: the
/// opener's position, the position of the matching closer after it (if
/// any), and whether the placeholder is an autofill one.
pub fn find_first_placeholder(content: &str) -> (r: ((Option<usize>, Option<usize>), bool))
    ensures
        r.0.0 is None ==> next_opener(content@) is None && r == (
            (None::<usize>, None::<usize>),
            false,
        ),
        r.0.0 matches Some(p) ==> {
            &&& next_opener(content@) == Some((p as int, r.1))
            &&& p + 4 <= content@.len()
            &&& match r.0.1 {
                Option::None => find_from(content@, close_delim(r.1), (p + 4) as nat) is None,
                Option::Some(e) => find_from(content@, close_delim(r.1), (p + 4) as nat) == Some(
                    e as int,
                ),
            }
        },
{
    // The character count bounds every position the searches can return.
    let n = content.unicode_len();
    let norm_start = find_pat(content, open_norm_str(), 0);
    let auto_start = find_pat(content, open_auto_str(), 0);
    match (norm_start, auto_start) {
        (None, None) => ((None, None), false),
        (Some(i), None) => {
            proof {
                lemma_find_from_some(content@, open_norm(), 0, i as int);
            }
            ((Some(i), find_pat(content, close_norm_str(), i + 4)), false)
        },
        (None, Some(j)) => {
            proof {
                lemma_find_from_some(content@, open_auto(), 0, j as int);
            }
            ((Some(j), find_pat(content, close_auto_str(), j + 4)), true)
        },
        (Some(i), Some(j)) => {
            if i <= j {
                proof {
                    lemma_find_from_some(content@, open_norm(), 0, i as int);
                }
                ((Some(i), find_pat(content, close_norm_str(), i + 4)), false)
            } else {
                proof {
                    lemma_find_from_some(content@, open_auto(), 0, j as int);
                }
                ((Some(j), find_pat(content, close_auto_str(), j + 4)), true)
            }
        },
    }
}

/// All placeholders of `template_content`, in order, with relative spans.
pub fn parse_placeholders(template_content: &str) -> (r: Vec<Placeholder>)
    ensures
        placeholders_view(r@) == scan_spec(template_content@),
{
    let n = template_content.unicode_len();
    let mut out: Vec<Placeholder> = Vec::new();
    let mut c: usize = 0;
    let mut done = false;
    proof {
        assert(template_content@.skip(0) =~= template_content@);
        assert(placeholders_view(out@) =~= Seq::<PlaceholderV>::empty());
        assert(Seq::<PlaceholderV>::empty() + scan_spec(template_content@) =~= scan_spec(
            template_content@,
        ));
    }
    while !done
        invariant
            c <= n,
            n == template_content@.len(),
            !done ==> scan_spec(template_content@) == placeholders_view(out@) + scan_spec(
                template_content@.skip(c as int),
            ),
            done ==> placeholders_view(out@) == scan_spec(template_content@),
        decreases n - c + (if done { 0int } else { 1int }),
    {
        let ghost out0 = out@;
        let rem = template_content.substring_char(c, n);
        proof {
            assert(rem@ =~= template_content@.skip(c as int));
        }
        let ((start, end), is_autofill) = find_first_placeholder(rem);
        match (start, end) {
            (Some(p), Some(e)) => {
                proof {
                    lemma_next_opener_some(rem@, p as int, is_autofill);
                    lemma_find_from_some(rem@, close_delim(is_autofill), (p + 4) as nat, e as int);
                }
                let name = String::from_str(rem.substring_char(p + 4, e));
                let placeholder = Placeholder {
                    name,
                    position: Position { from: p, to: e + 3 },
                    is_autofill,
                };
                out.push(placeholder);
                c = c + e + 4;
                proof {
                    assert(rem@.skip(e + 4) =~= template_content@.skip(c as int));
                    assert(placeholders_view(out@) =~= placeholders_view(out0).push(
                        PlaceholderV {
                            name: rem@.subrange(p + 4, e as int),
                            from: p as nat,
                            to: (e + 3) as nat,
                            is_autofill,
                        },
                    ));
                    assert(placeholders_view(out0) + scan_spec(rem@) =~= placeholders_view(out@)
                        + scan_spec(template_content@.skip(c as int)));
                }
            },
            _ => {
                done = true;
                proof {
                    assert(scan_spec(rem@) =~= Seq::<PlaceholderV>::empty());
                    assert(placeholders_view(out0) + Seq::<PlaceholderV>::empty()
                        =~= placeholders_view(out0));
                }
            },
        }
    }
    out
}

/// Mathematical content of a template.
pub struct TemplateV {
    pub content: Seq<char>,
    pub placeholders: Seq<PlaceholderV>,
}

/// Template text together with its placeholders, in first-occurrence
/// order.  Many pages may render against the same template; a template is
/// immutable once loaded.
#[derive(Debug)]
pub struct Template {
    pub content: String,
    pub placeholders: Vec<Placeholder>,
}

impl View for Template {
    type V = TemplateV;

    open spec fn view(&self) -> TemplateV {
        TemplateV { content: self.content@, placeholders: placeholders_view(self.placeholders@) }
    }
}

impl Template {
    /// The placeholders are exactly what scanning the content yields.
    pub open spec fn wf(&self) -> bool {
        placeholders_view(self.placeholders@) == scan_spec(self.content@)
    }

    /// A template parsed from raw text.
    pub fn new(content: String) -> (r: Template)
        ensures
            r.content@ == content@,
            r.wf(),
    {
        let placeholders = parse_placeholders(content.as_str());
        Template { content, placeholders }
    }
}

/// The outcome of filling template text against a value mapping and an
/// autofill mapping: the filled text, or the name of the first placeholder
/// (in stored order) that neither mapping resolves.
pub enum FillOutcome {
    Filled(Seq<char>),
    MissingValue(Seq<char>),
    MissingAutofill(Seq<char>),
}

/// Filling `s` at the placeholders `phs` (relative spans): each
/// placeholder's span is replaced by its resolved value, every other
/// character of `s` is kept, in order, in one left-to-right pass.  A
/// placeholder whose span does not fit the remaining text leaves the text
/// unchanged; scanning never records such a span (`lemma_scan_bounded`).
pub open spec fn fill_res(
    s: Seq<char>,
    phs: Seq<PlaceholderV>,
    vals: Map<Seq<char>, Seq<char>>,
    autos: Map<Seq<char>, Seq<char>>,
) -> FillOutcome
    decreases phs.len(),
{
    if phs.len() == 0 {
        FillOutcome::Filled(s)
    } else {
        let ph = phs[0];
        if !(ph.from + 7 <= ph.to && ph.to < s.len()) {
            FillOutcome::Filled(s)
        } else if ph.is_autofill && !autos.contains_key(ph.name) {
            FillOutcome::MissingAutofill(ph.name)
        } else if !ph.is_autofill && !vals.contains_key(ph.name) {
            FillOutcome::MissingValue(ph.name)
        } else {
            let v = if ph.is_autofill {
                autos[ph.name]
            } else {
                vals[ph.name]
            };
            match fill_res(s.skip(ph.to + 1int), phs.drop_first(), vals, autos) {
                FillOutcome::Filled(rest) => FillOutcome::Filled(
                    s.take(ph.from as int) + v + rest,
                ),
                other => other,
            }
        }
    }
}

/// Placeholder spans that fit, one after the other, in a text window of
/// `window` characters.
pub open spec fn phs_bounded(phs: Seq<PlaceholderV>, window: int) -> bool
    decreases phs.len(),
{
    phs.len() == 0 || {
        &&& phs[0].from + 7 <= phs[0].to
        &&& phs[0].to < window
        &&& phs_bounded(phs.drop_first(), window - (phs[0].to + 1))
    }
}

/// Scanning yields placeholders whose relative spans fit in the scanned
/// text.
pub proof fn lemma_scan_bounded(s: Seq<char>)
    ensures
        phs_bounded(scan_spec(s), s.len() as int),
    decreases s.len(),
{
    match next_opener(s) {
        Option::None => {},
        Option::Some((p, auto)) => {
            if 0 <= p && p + 4 <= s.len() {
                match find_from(s, close_delim(auto), (p + 4) as nat) {
                    Option::None => {},
                    Option::Some(c) => {
                        if p + 4 <= c && c + 4 <= s.len() {
                            lemma_scan_bounded(s.skip(c + 4));
                            assert(scan_spec(s).drop_first() =~= scan_spec(s.skip(c + 4)));
                        }
                    },
                }
            }
        },
    }
}

impl Template {
    /// Fills the template's placeholders in stored order: value-placeholders
    /// from `filled_placeholders`, autofill-placeholders from
    /// `autofill_values`, splicing each resolved value in place of the
    /// placeholder's span and keeping all other characters.  Fails on the
    /// first placeholder that its mapping does not resolve.  The built-in
    /// autofill entries are not implicit here: a caller that wants them
    /// lays its own bindings over `builtin_autofill_values` with
    /// `Dict::over` first, so that its bindings win on a collision.
    pub fn fill_template(
        &self,
        filled_placeholders: &Dict<String>,
        autofill_values: &Dict<String>,
    ) -> (r: Result<String, Error>)
        requires
            self.wf(),
        ensures
            ({
                let outcome = fill_res(
                    self.content@,
                    scan_spec(self.content@),
                    filled_placeholders@,
                    autofill_values@,
                );
                match r {
                    Ok(out) => outcome == FillOutcome::Filled(out@),
                    Err(e) => {
                        ||| (e == Error::MissingValue && outcome is MissingValue)
                        ||| (e == Error::MissingAutofill && outcome is MissingAutofill)
                    },
                }
            }),
    {
        let ghost full = self.content@;
        let ghost all = scan_spec(self.content@);
        let ghost vals = filled_placeholders@;
        let ghost autos = autofill_values@;
        proof {
            lemma_scan_bounded(self.content@);
        }
        let n = self.content.as_str().unicode_len();
        let count = self.placeholders.len();
        let mut out = String::new();
        let mut c: usize = 0;
        let mut k: usize = 0;
        proof {
            assert(full.skip(0) =~= full);
            assert(all.skip(0) =~= all);
        }
        while k < count
            invariant
                k <= count,
                c <= n,
                n == full.len(),
                full == self.content@,
                count == self.placeholders@.len(),
                all == scan_spec(full),
                placeholders_view(self.placeholders@) == all,
                vals == filled_placeholders@,
                autos == autofill_values@,
                phs_bounded(all.skip(k as int), n - c),
                fill_res(full, all, vals, autos) == (match fill_res(
                    full.skip(c as int),
                    all.skip(k as int),
                    vals,
                    autos,
                ) {
                    FillOutcome::Filled(t) => FillOutcome::Filled(out@ + t),
                    other => other,
                }),
            decreases count - k,
        {
            let ghost out0 = out@;
            let ghost rest_phs = all.skip(k as int);
            let ghost window = full.skip(c as int);
            proof {
                assert(rest_phs[0] == self.placeholders@[k as int]@);
                assert(rest_phs.drop_first() =~= all.skip(k + 1));
            }
            let ph_from = self.placeholders[k].position.from;
            let ph_to = self.placeholders[k].position.to;
            let is_autofill = self.placeholders[k].is_autofill;
            let abs_from = c + ph_from;
            let abs_to = c + ph_to;
            out.append(self.content.as_str().substring_char(c, abs_from));
            proof {
                assert(full.subrange(c as int, abs_from as int) =~= window.take(ph_from as int));
            }
            let value = if is_autofill {
                match autofill_values.get(self.placeholders[k].name.as_str()) {
                    Some(v) => v,
                    None => {
                        return Err(Error::MissingAutofill);
                    },
                }
            } else {
                match filled_placeholders.get(self.placeholders[k].name.as_str()) {
                    Some(v) => v,
                    None => {
                        return Err(Error::MissingValue);
                    },
                }
            };
            out.append(value.as_str());
            c = abs_to + 1;
            k += 1;
            proof {
                assert(full.skip(c as int) =~= window.skip(ph_to + 1));
                assert(out@ =~= out0 + window.take(ph_from as int) + value@);
                assert forall|t: Seq<char>|
                    out0 + (window.take(ph_from as int) + value@ + t) =~= out@ + t by {};
            }
        }
        proof {
            assert(all.skip(count as int) =~= Seq::<PlaceholderV>::empty());
        }
        out.append(self.content.as_str().substring_char(c, n));
        proof {
            assert(full.subrange(c as int, n as int) =~= full.skip(c as int));
        }
        Ok(out)
    }
}

/// The word `hello`, key and value of the built-in greeting autofill.
pub open spec fn hello_word() -> Seq<char> {
    seq!['h', 'e', 'l', 'l', 'o']
}

/// The key `curr_year` of the built-in calendar-year autofill.
pub open spec fn year_key() -> Seq<char> {
    seq!['c', 'u', 'r', 'r', '_', 'y', 'e', 'a', 'r']
}

/// The built-in autofill bindings, given the text the calendar-year
/// entry is bound to.
pub open spec fn builtins_map(year: Seq<char>) -> Map<Seq<char>, Seq<char>> {
    Map::empty().insert(hello_word(), hello_word()).insert(year_key(), year)
}

/// The built-in constant greeting.
pub fn hello() -> (r: String)
    ensures
        r@ == hello_word(),
{
    let s = String::from_str("hello");
    proof {
        reveal_strlit("hello");
        assert(s@ =~= hello_word());
    }
    s
}

/// Relies on `chrono::Local::now` and `chrono::NaiveDate`'s display
/// format `%Y-%m-%d`: the current local calendar date as text, at least
/// ten characters, with a `-` between the date fields.  The result
/// depends on the clock, so nothing more is promised.
#[verifier::external_body]
fn local_date_string() -> (r: String)
    ensures
        r@.len() >= 10,
        exists|i: int| 0 <= i < r@.len() && r@[i] == '-',
{
    chrono::Local::now().date_naive().to_string()
}

/// The built-in calendar-year autofill: the current local date's text up
/// to its first `-`, which for the common era is the four-digit year.
/// The date depends on the clock, so all that is promised is the shape:
/// the text before the first `-` of some date text, hence free of `-`.
pub fn curr_year() -> (r: String)
    ensures
        exists|date: Seq<char>|
            {
                &&& date.len() >= 10
                &&& find_from(date, seq!['-'], 0) matches Some(i) && r@ == date.take(i)
            },
        forall|i: int| 0 <= i < r@.len() ==> r@[i] != '-',
{
    let date = local_date_string();
    let dash = "-";
    proof {
        reveal_strlit("-");
        assert(dash@ =~= seq!['-']);
    }
    match find_pat(date.as_str(), dash, 0) {
        Some(i) => {
            proof {
                lemma_find_from_some(date@, dash@, 0, i as int);
            }
            let y = String::from_str(date.as_str().substring_char(0, i));
            proof {
                assert(y@ =~= date@.take(i as int));
                assert(find_from(date@, seq!['-'], 0) == Some(i as int));
                assert({
                    &&& date@.len() >= 10
                    &&& find_from(date@, seq!['-'], 0) matches Some(ii) && y@ == date@.take(ii)
                });
                assert forall|j: int| 0 <= j < y@.len() implies y@[j] != '-' by {
                    if y@[j] == '-' {
                        assert(date@.subrange(j, j + 1) =~= dash@);
                        assert(occurs_at(date@, dash@, j));
                    }
                }
            }
            y
        },
        None => {
            proof {
                lemma_find_from_none(date@, dash@, 0);
                let w = choose|w: int| 0 <= w < date@.len() && date@[w] == '-';
                assert(date@.subrange(w, w + 1) =~= dash@);
                assert(occurs_at(date@, dash@, w));
                assert(false);
            }
            date
        },
    }
}

/// The built-in autofill bindings: the constant greeting and the current
/// calendar year.  Caller-supplied bindings are meant to be laid over
/// these with `Dict::over`, so that the caller wins on a name collision.
pub fn builtin_autofill_values() -> (r: Dict<String>)
    ensures
        exists|year: Seq<char>|
            r@ == builtins_map(year) && (forall|i: int| 0 <= i < year.len() ==> year[i] != '-'),
{
    let mut d: Dict<String> = Dict::new();
    let hk = String::from_str("hello");
    let hv = hello();
    let ghost hkv = hk@;
    d.insert(hk, hv);
    let yk = String::from_str("curr_year");
    let y = curr_year();
    let ghost ykv = yk@;
    let ghost yv = y@;
    d.insert(yk, y);
    proof {
        reveal_strlit("hello");
        reveal_strlit("curr_year");
        assert(hkv =~= hello_word());
        assert(ykv =~= year_key());
        assert(d@ =~= builtins_map(yv));
    }
    d
}

/// A template whose content is `content`.
pub open spec fn template_of(content: Seq<char>) -> TemplateV {
    TemplateV { content, placeholders: scan_spec(content) }
}

/// The template set built from named raw texts, later entries winning.
pub open spec fn templates_map_of(files: Seq<(String, String)>) -> Map<Seq<char>, TemplateV>
    decreases files.len(),
{
    if files.len() == 0 {
        Map::empty()
    } else {
        templates_map_of(files.drop_last()).insert(
            files.last().0@,
            template_of(files.last().1@),
        )
    }
}

/// Every template of the set carries exactly the placeholders its content
/// scans to.
pub open spec fn templates_wf(m: Map<Seq<char>, TemplateV>) -> bool {
    forall|k: Seq<char>|
        #[trigger] m.contains_key(k) ==> m[k].placeholders == scan_spec(m[k].content)
}

/// Parses every named raw text into a template, keyed by its name.
pub fn load_templates(files: &Vec<(String, String)>) -> (r: Dict<Template>)
    ensures
        r@ == templates_map_of(files@),
        templates_wf(r@),
{
    let n = files.len();
    let mut templates: Dict<Template> = Dict::new();
    let mut i: usize = 0;
    proof {
        assert(files@.take(0) =~= Seq::<(String, String)>::empty());
    }
    while i < n
        invariant
            i <= n,
            n == files@.len(),
            templates@ == templates_map_of(files@.take(i as int)),
            templates_wf(templates@),
        decreases n - i,
    {
        let name = files[i].0.clone();
        let content = files[i].1.clone();
        let template = Template::new(content);
        templates.insert(name, template);
        proof {
            assert(files@.take(i + 1).drop_last() =~= files@.take(i as int));
            assert(files@.take(i + 1).last() == files@[i as int]);
        }
        i += 1;
    }
    proof {
        assert(files@.take(n as int) =~= files@);
    }
    templates
}

/// Filling succeeds whenever no placeholder is an autofill one and the
/// value mapping binds every placeholder name.
pub proof fn lemma_fill_succeeds(
    s: Seq<char>,
    vals: Map<Seq<char>, Seq<char>>,
    autos: Map<Seq<char>, Seq<char>>,
)
    requires
        forall|k: int|
            0 <= k < scan_spec(s).len() ==> !(#[trigger] scan_spec(s)[k]).is_autofill
                && vals.contains_key(scan_spec(s)[k].name),
    ensures
        fill_res(s, scan_spec(s), vals, autos) is Filled,
    decreases s.len(),
{
    match next_opener(s) {
        Option::None => {},
        Option::Some((p, auto)) => {
            if 0 <= p && p + 4 <= s.len() {
                match find_from(s, close_delim(auto), (p + 4) as nat) {
                    Option::None => {},
                    Option::Some(c) => {
                        if p + 4 <= c && c + 4 <= s.len() {
                            let tail = s.skip(c + 4);
                            let phs = scan_spec(s);
                            assert(phs[0].is_autofill == false && vals.contains_key(phs[0].name));
                            assert forall|k: int|
                                0 <= k < scan_spec(tail).len() implies !(#[trigger] scan_spec(
                                tail,
                            )[k]).is_autofill && vals.contains_key(scan_spec(tail)[k].name) by {
                                assert(scan_spec(tail)[k] == phs[k + 1]);
                            }
                            lemma_fill_succeeds(tail, vals, autos);
                            assert(phs.drop_first() =~= scan_spec(tail));
                            assert(s.skip(phs[0].to + 1int) =~= tail);
                        }
                    },
                }
            }
        },
    }
}

/// Round trip: filling with values that each reproduce their own
/// placeholder span gives back the original template text — every other
/// character was kept, in its original relative order.
pub proof fn lemma_fill_round_trip(
    s: Seq<char>,
    vals: Map<Seq<char>, Seq<char>>,
    autos: Map<Seq<char>, Seq<char>>,
)
    requires
        forall|k: int|
            0 <= k < scan_spec(s).len() ==> !(#[trigger] scan_spec(s)[k]).is_autofill
                && vals.contains_key(scan_spec(s)[k].name) && vals[scan_spec(s)[k].name]
                == open_norm() + scan_spec(s)[k].name + close_norm(),
    ensures
        fill_res(s, scan_spec(s), vals, autos) == FillOutcome::Filled(s),
    decreases s.len(),
{
    match next_opener(s) {
        Option::None => {},
        Option::Some((p, auto)) => {
            if 0 <= p && p + 4 <= s.len() {
                match find_from(s, close_delim(auto), (p + 4) as nat) {
                    Option::None => {},
                    Option::Some(c) => {
                        if p + 4 <= c && c + 4 <= s.len() {
                            let tail = s.skip(c + 4);
                            let phs = scan_spec(s);
                            assert forall|k: int|
                                0 <= k < scan_spec(tail).len() implies !(#[trigger] scan_spec(
                                tail,
                            )[k]).is_autofill && vals.contains_key(scan_spec(tail)[k].name)
                                && vals[scan_spec(tail)[k].name] == open_norm() + scan_spec(
                                tail,
                            )[k].name + close_norm() by {
                                assert(scan_spec(tail)[k] == phs[k + 1]);
                            }
                            lemma_fill_round_trip(tail, vals, autos);
                            assert(phs.drop_first() =~= scan_spec(tail));
                            assert(s.skip(phs[0].to + 1int) =~= tail);
                            assert(phs[0].is_autofill == false);
                            lemma_next_opener_some(s, p, auto);
                            lemma_find_from_some(s, close_delim(auto), (p + 4) as nat, c);
                            assert(s.subrange(p, p + 4) =~= open_norm());
                            assert(s.subrange(c, c + 4) =~= close_norm());
                            assert(vals[phs[0].name] =~= s.subrange(p, c + 4)) by {
                                assert(s.subrange(p, c + 4) =~= s.subrange(p, p + 4) + s.subrange(
                                    p + 4,
                                    c,
                                ) + s.subrange(c, c + 4));
                            }
                            assert(s.take(p) + s.subrange(p, c + 4) + tail =~= s);
                        }
                    },
                }
            }
        },
    }
}

/// The literal regions of template text: what stands before the first
/// placeholder, between placeholders, and after the last one (the whole
/// text where no complete placeholder exists).
pub open spec fn literal_regions(s: Seq<char>) -> Seq<Seq<char>>
    decreases s.len(),
{
    match next_opener(s) {
        Option::None => seq![s],
        Option::Some((p, auto)) => {
            if 0 <= p && p + 4 <= s.len() {
                match find_from(s, close_delim(auto), (p + 4) as nat) {
                    Option::None => seq![s],
                    Option::Some(c) => {
                        if p + 4 <= c && c + 4 <= s.len() {
                            seq![s.subrange(0, p)] + literal_regions(s.skip(c + 4))
                        } else {
                            seq![s]
                        }
                    },
                }
            } else {
                seq![s]
            }
        },
    }
}

/// Idempotence of the scanner's literal regions: re-scanning any literal
/// region finds no placeholder, so filling it as a template of its own
/// leaves it unchanged.
pub proof fn lemma_literal_regions_idempotent(
    s: Seq<char>,
    vals: Map<Seq<char>, Seq<char>>,
    autos: Map<Seq<char>, Seq<char>>,
)
    ensures
        forall|i: int|
            0 <= i < literal_regions(s).len() ==> scan_spec(#[trigger] literal_regions(s)[i])
                == Seq::<PlaceholderV>::empty(),
        forall|i: int|
            0 <= i < literal_regions(s).len() ==> fill_res(
                #[trigger] literal_regions(s)[i],
                scan_spec(literal_regions(s)[i]),
                vals,
                autos,
            ) == FillOutcome::Filled(literal_regions(s)[i]),
    decreases s.len(),
{
    match next_opener(s) {
        Option::None => {},
        Option::Some((p, auto)) => {
            if 0 <= p && p + 4 <= s.len() {
                match find_from(s, close_delim(auto), (p + 4) as nat) {
                    Option::None => {},
                    Option::Some(c) => {
                        if p + 4 <= c && c + 4 <= s.len() {
                            let prefix = s.subrange(0, p);
                            lemma_next_opener_some(s, p, auto);
                            if find_from(prefix, open_norm(), 0) is Some {
                                let j = find_from(prefix, open_norm(), 0)->0;
                                lemma_find_from_some(prefix, open_norm(), 0, j);
                                assert(s.subrange(j, j + 4) =~= prefix.subrange(j, j + 4));
                                assert(occurs_at(s, open_norm(), j));
                            }
                            if find_from(prefix, open_auto(), 0) is Some {
                                let j = find_from(prefix, open_auto(), 0)->0;
                                lemma_find_from_some(prefix, open_auto(), 0, j);
                                assert(s.subrange(j, j + 4) =~= prefix.subrange(j, j + 4));
                                assert(occurs_at(s, open_auto(), j));
                            }
                            assert(next_opener(prefix) is None);
                            lemma_literal_regions_idempotent(s.skip(c + 4), vals, autos);
                            assert forall|i: int|
                                0 <= i < literal_regions(s).len() implies scan_spec(
                                #[trigger] literal_regions(s)[i],
                            ) == Seq::<PlaceholderV>::empty() by {
                                if i > 0 {
                                    assert(literal_regions(s)[i] == literal_regions(
                                        s.skip(c + 4),
                                    )[i - 1]);
                                }
                            }
                            assert forall|i: int|
                                0 <= i < literal_regions(s).len() implies fill_res(
                                #[trigger] literal_regions(s)[i],
                                scan_spec(literal_regions(s)[i]),
                                vals,
                                autos,
                            ) == FillOutcome::Filled(literal_regions(s)[i]) by {
                                if i > 0 {
                                    assert(literal_regions(s)[i] == literal_regions(
                                        s.skip(c + 4),
                                    )[i - 1]);
                                }
                            }
                        }
                    },
                }
            }
        },
    }
}

/// An unterminated placeholder is deliberate leniency, not an error: when
/// an opener has no closer of its family after it, the whole remaining
/// text — the malformed opener included — is literal, and filling leaves
/// it unchanged.
pub proof fn lemma_unterminated_is_literal(
    s: Seq<char>,
    p: int,
    auto: bool,
    vals: Map<Seq<char>, Seq<char>>,
    autos: Map<Seq<char>, Seq<char>>,
)
    requires
        next_opener(s) == Some((p, auto)),
        find_from(s, close_delim(auto), (p + 4) as nat) is None,
    ensures
        scan_spec(s) == Seq::<PlaceholderV>::empty(),
        fill_res(s, scan_spec(s), vals, autos) == FillOutcome::Filled(s),
{
    lemma_next_opener_some(s, p, auto);
}

} // verus!

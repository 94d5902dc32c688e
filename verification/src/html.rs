//! Turning an HTML page into clean plain text.
//!
//! The work is a fixed pipeline of replacements followed by trimming:
//!   1. remove `script`, `style` and `noscript` elements with their content
//!      (one expression each, since the `regex` crate has no back-references);
//!   2. remove every remaining tag;
//!   3. replace each entity (`&amp;`, `&#160;`, `&#xa0;`) by a space;
//!   4. collapse runs of spaces and tabs into one space, and runs of three or
//!      more line breaks into one blank line (these two replacements, the
//!      expressions `[ \t]+` and `\n{3,}` in the `regex` crate, have a short
//!      exact statement, so they are written and proved in `text`);
//!   5. trim surrounding whitespace.
use vstd::prelude::*;
use regex::Regex;
use regex::RegexBuilder;
use crate::text::trim_whitespace;
use crate::text::trimmed;
use crate::text::is_space;
use crate::text::lemma_trimmed_has_no_outer_space;
use crate::text::lemma_trimmed_idempotent;
use crate::text::lemma_trimmed_is_inner_part;
use crate::text::collapse_blanks;
use crate::text::collapse_line_breaks;
use crate::text::collapse_blanks_text;
use crate::text::collapse_line_breaks_text;
use crate::text::no_blank_pair;
use crate::text::no_line_feed_triple;
use crate::text::has_no_tab;
use crate::text::lemma_collapse_blanks_result;
use crate::text::lemma_collapse_line_breaks_result;
use crate::text::lemma_collapse_line_breaks_keeps_other_chars;
use crate::text::lemma_subrange_keeps_clean;

verus! {

#[verifier::external_type_specification]
#[verifier::external_body]
pub struct ExRegex(Regex);

/// Whether `regex` compiles `pattern`, with case-insensitive matching as
/// asked, into a regular expression within its default size limits.
pub uninterp spec fn regex_builds(pattern: Seq<char>, case_insensitive: bool) -> bool;

/// The text that `Regex::replace_all` gives back when the expression
/// compiled from `pattern` (case-insensitively as asked) replaces every
/// non-overlapping match in `haystack` by `replacement`.
pub uninterp spec fn regex_replace_all(
    pattern: Seq<char>,
    case_insensitive: bool,
    haystack: Seq<char>,
    replacement: Seq<char>,
) -> Seq<char>;

/// A compiled regular expression together with the source and flag it was
/// compiled from. Only `compile_pattern` makes one.
pub struct TextPattern {
    regex: Regex,
    source: String,
    case_insensitive: bool,
}

impl View for TextPattern {
    type V = (Seq<char>, bool);

    closed spec fn view(&self) -> (Seq<char>, bool) {
        (self.source@, self.case_insensitive)
    }
}

/// Compiles `pattern` with `regex::RegexBuilder` (`new`, then
/// `case_insensitive`, then `build`). Trusted: the result is present exactly
/// when the build succeeds, which the name `regex_builds` records as a
/// function of the pattern and the flag alone, and a present result records
/// the pattern and flag it was compiled from.
#[verifier::external_body]
fn compile_pattern(pattern: &str, case_insensitive: bool) -> (res: Option<TextPattern>)
    ensures
        res is Some <==> regex_builds(pattern@, case_insensitive),
        res matches Some(p) ==> p@ == (pattern@, case_insensitive),
{
    match RegexBuilder::new(pattern).case_insensitive(case_insensitive).build() {
        Ok(regex) => Some(TextPattern { regex, source: pattern.to_string(), case_insensitive }),
        Err(_) => None,
    }
}

/// Calls `regex::Regex::replace_all` and takes the result as an owned
/// string. Trusted: the result is the name `regex_replace_all` applied to
/// the pattern's source and flag, the haystack and the replacement.
#[verifier::external_body]
fn replace_all_matches(pattern: &TextPattern, haystack: &str, replacement: &str) -> (res: String)
    ensures
        res@ == regex_replace_all(pattern@.0, pattern@.1, haystack@, replacement@),
{
    pattern.regex.replace_all(haystack, replacement).into_owned()
}

/// A `<script ...>...</script>` element, matched case-insensitively.
pub const SCRIPT_ELEMENT: &'static str = r"<script[^>]*?>[\s\S]*?</script>";

/// A `<style ...>...</style>` element, matched case-insensitively.
pub const STYLE_ELEMENT: &'static str = r"<style[^>]*?>[\s\S]*?</style>";

/// A `<noscript ...>...</noscript>` element, matched case-insensitively.
pub const NOSCRIPT_ELEMENT: &'static str = r"<noscript[^>]*?>[\s\S]*?</noscript>";

/// Any tag.
pub const ANY_TAG: &'static str = r"<[^>]*>";

/// A named, decimal or hexadecimal character entity.
pub const ENTITY: &'static str = r"&[a-zA-Z]+;|&#\d+;|&#x[0-9a-fA-F]+;";

/// All the expressions of the pipeline compile.
pub open spec fn html_patterns_build() -> bool {
    &&& regex_builds(SCRIPT_ELEMENT@, true)
    &&& regex_builds(STYLE_ELEMENT@, true)
    &&& regex_builds(NOSCRIPT_ELEMENT@, true)
    &&& regex_builds(ANY_TAG@, false)
    &&& regex_builds(ENTITY@, false)
}

/// The text before trimming: the page after each replacement step.
pub open spec fn html_text_untrimmed(html: Seq<char>) -> Seq<char> {
    let without_script = regex_replace_all(SCRIPT_ELEMENT@, true, html, ""@);
    let without_style = regex_replace_all(STYLE_ELEMENT@, true, without_script, ""@);
    let without_noscript = regex_replace_all(NOSCRIPT_ELEMENT@, true, without_style, ""@);
    let without_tags = regex_replace_all(ANY_TAG@, false, without_noscript, ""@);
    let without_entities = regex_replace_all(ENTITY@, false, without_tags, " "@);
    collapse_line_breaks(collapse_blanks(without_entities))
}

/// The plain text of an HTML page.
pub open spec fn html_text(html: Seq<char>) -> Seq<char> {
    trimmed(html_text_untrimmed(html))
}

/// The compiled expressions of the pipeline.
pub struct HtmlPatterns {
    script: TextPattern,
    style: TextPattern,
    noscript: TextPattern,
    tag: TextPattern,
    entity: TextPattern,
}

impl HtmlPatterns {
    /// Each field holds the expression of its step.
    pub closed spec fn wf(&self) -> bool {
        &&& self.script@ == (SCRIPT_ELEMENT@, true)
        &&& self.style@ == (STYLE_ELEMENT@, true)
        &&& self.noscript@ == (NOSCRIPT_ELEMENT@, true)
        &&& self.tag@ == (ANY_TAG@, false)
        &&& self.entity@ == (ENTITY@, false)
    }

    /// Compiles the pipeline's expressions; `None` exactly when one of them
    /// does not compile.
    pub fn compile() -> (res: Option<HtmlPatterns>)
        ensures
            res is Some <==> html_patterns_build(),
            res matches Some(p) ==> p.wf(),
    {
        let script = compile_pattern(SCRIPT_ELEMENT, true);
        let style = compile_pattern(STYLE_ELEMENT, true);
        let noscript = compile_pattern(NOSCRIPT_ELEMENT, true);
        let tag = compile_pattern(ANY_TAG, false);
        let entity = compile_pattern(ENTITY, false);
        match (script, style, noscript, tag, entity) {
            (Some(script), Some(style), Some(noscript), Some(tag), Some(entity)) => Some(
                HtmlPatterns { script, style, noscript, tag, entity },
            ),
            _ => None,
        }
    }

    /// Runs the pipeline on `html`.
    pub fn clean(&self, html: &str) -> (res: String)
        requires
            self.wf(),
        ensures
            res@ == html_text(html@),
    {
        let without_script = replace_all_matches(&self.script, html, "");
        let without_style = replace_all_matches(&self.style, without_script.as_str(), "");
        let without_noscript = replace_all_matches(&self.noscript, without_style.as_str(), "");
        let without_tags = replace_all_matches(&self.tag, without_noscript.as_str(), "");
        let without_entities = replace_all_matches(&self.entity, without_tags.as_str(), " ");
        let compact = collapse_blanks_text(without_entities.as_str());
        let result = collapse_line_breaks_text(compact.as_str());
        trim_whitespace(result.as_str())
    }
}

/// Turns an HTML page into clean plain text (see the module documentation
/// for the steps). The pipeline's expressions must compile.
pub fn html_to_text(html: &str) -> (res: String)
    requires
        html_patterns_build(),
    ensures
        res@ == html_text(html@),
{
    match HtmlPatterns::compile() {
        Some(patterns) => patterns.clean(html),
        None => {
            proof {
                assert(false);
            }
            String::new()
        },
    }
}

/// Turns an HTML page into clean plain text, or gives `None` where one of
/// the pipeline's expressions does not compile.
pub fn try_html_to_text(html: &str) -> (res: Option<String>)
    ensures
        res is Some <==> html_patterns_build(),
        res matches Some(text) ==> text@ == html_text(html@),
{
    match HtmlPatterns::compile() {
        Some(patterns) => Some(patterns.clean(html)),
        None => None,
    }
}

/// The plain text of a page neither begins nor ends with whitespace, and
/// trimming it again changes nothing.
pub proof fn lemma_html_text_is_trimmed(html: Seq<char>)
    ensures
        html_text(html).len() > 0 ==> !is_space(html_text(html)[0]),
        html_text(html).len() > 0 ==> !is_space(html_text(html).last()),
        trimmed(html_text(html)) == html_text(html),
{
    lemma_trimmed_has_no_outer_space(html_text_untrimmed(html));
    lemma_trimmed_idempotent(html_text_untrimmed(html));
}

/// The plain text of a page never holds three line feeds in a row, two
/// neighbouring spaces or tabs, or a tab, and neither begins nor ends with
/// whitespace.
pub proof fn lemma_html_text_is_clean(html: Seq<char>)
    ensures
        no_line_feed_triple(html_text(html)),
        no_blank_pair(html_text(html)),
        has_no_tab(html_text(html)),
        html_text(html).len() > 0 ==> !is_space(html_text(html)[0]),
        html_text(html).len() > 0 ==> !is_space(html_text(html).last()),
{
    let without_script = regex_replace_all(SCRIPT_ELEMENT@, true, html, ""@);
    let without_style = regex_replace_all(STYLE_ELEMENT@, true, without_script, ""@);
    let without_noscript = regex_replace_all(NOSCRIPT_ELEMENT@, true, without_style, ""@);
    let without_tags = regex_replace_all(ANY_TAG@, false, without_noscript, ""@);
    let without_entities = regex_replace_all(ENTITY@, false, without_tags, " "@);
    let compact = collapse_blanks(without_entities);
    let u = collapse_line_breaks(compact);
    assert(u == html_text_untrimmed(html));
    lemma_collapse_blanks_result(without_entities);
    lemma_collapse_line_breaks_result(compact);
    lemma_collapse_line_breaks_keeps_other_chars(compact);
    let ab = lemma_trimmed_is_inner_part(u);
    lemma_subrange_keeps_clean(u, ab.0, ab.1);
    lemma_trimmed_has_no_outer_space(u);
}

} // verus!

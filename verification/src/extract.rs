//! Reading a page: what the markup holds, and the document made of it.

use crate::chars::{chars_of, lemma_run_end, run_end, scan_run, string_of, views, CharClass};
use crate::classify::ends_with;
use crate::models::Document;
use crate::normalize::{
    english, normalize_with, normalized, same_chars, split_tokens, stop_set, tokens, StopWords,
};
use crate::text::{has_content, join_first, joined, strip_brackets, trim, trimmed, unbracketed};
use lol_html::errors::RewritingError;
use lol_html::html_content::{Element, TextChunk};
use lol_html::{rewrite_str, ElementContentHandlers, RewriteStrSettings};
use std::borrow::Cow;
use vstd::prelude::*;

verus! {

/// The error of `lol_html::rewrite_str`. Nothing is known of what it holds;
/// it is carried from the call to the place that turns it into an
/// `ExtractError`.
#[verifier::external_type_specification]
#[verifier::external_body]
pub struct ExRewritingError(RewritingError);

/// Why a page could not be read.
#[derive(Debug, Clone, Copy, PartialEq, Eq, Structural)]
pub enum ExtractError {
    /// The markup made the rewriter give up.
    Markup,
}

/// The number of words that a summary holds at most.
pub const SUMMARY_WORDS: usize = 500;

/// One `meta` element: the attribute that names it and its `content`, each as
/// written in the markup, `None` where the element has no such attribute.
#[derive(Debug)]
pub struct MetaTag {
    pub key: Option<String>,
    pub content: Option<String>,
}

/// The view of an attribute that may be missing.
pub open spec fn option_view(text: Option<String>) -> Option<Seq<char>> {
    match text {
        Some(s) => Some(s@),
        None => None,
    }
}

impl View for MetaTag {
    type V = (Option<Seq<char>>, Option<Seq<char>>);

    open spec fn view(&self) -> (Option<Seq<char>>, Option<Seq<char>>) {
        (option_view(self.key), option_view(self.content))
    }
}

/// The views of a list of `meta` elements.
pub open spec fn meta_views(list: Seq<MetaTag>) -> Seq<(Option<Seq<char>>, Option<Seq<char>>)> {
    list.map_values(|m: MetaTag| m@)
}

/// What a page holds for the extractor, each list in the order of the page:
/// the pieces of text inside `title` elements and inside `p` elements, and the
/// `meta` elements that carry a `property` and those that carry a `name`.
#[derive(Debug)]
pub struct PageScan {
    pub title_texts: Vec<String>,
    pub paragraph_texts: Vec<String>,
    pub property_metas: Vec<MetaTag>,
    pub name_metas: Vec<MetaTag>,
}

/// A `PageScan` as plain sequences.
pub ghost struct PageScanView {
    pub title_texts: Seq<Seq<char>>,
    pub paragraph_texts: Seq<Seq<char>>,
    pub property_metas: Seq<(Option<Seq<char>>, Option<Seq<char>>)>,
    pub name_metas: Seq<(Option<Seq<char>>, Option<Seq<char>>)>,
}

impl View for PageScan {
    type V = PageScanView;

    open spec fn view(&self) -> PageScanView {
        PageScanView {
            title_texts: views(self.title_texts@),
            paragraph_texts: views(self.paragraph_texts@),
            property_metas: meta_views(self.property_metas@),
            name_metas: meta_views(self.name_metas@),
        }
    }
}

/// What the extractor makes of a page, before it is given an identifier and
/// an address.
#[derive(Debug)]
pub struct ExtractedData {
    pub title: String,
    pub description: String,
    pub canonical_url: String,
    pub summary_text: String,
    pub full_text: Vec<String>,
}

/// An `ExtractedData` as plain sequences.
pub ghost struct PageText {
    pub title: Seq<char>,
    pub description: Seq<char>,
    pub canonical_url: Seq<char>,
    pub summary_text: Seq<char>,
    pub full_text: Seq<Seq<char>>,
}

impl View for ExtractedData {
    type V = PageText;

    open spec fn view(&self) -> PageText {
        PageText {
            title: self.title@,
            description: self.description@,
            canonical_url: self.canonical_url@,
            summary_text: self.summary_text@,
            full_text: views(self.full_text@),
        }
    }
}

/// What `TextChunk::as_str` gives for each piece of text that `lol_html`
/// reports inside the elements that `selector` matches, in the order of the
/// page; `None` where `lol_html::rewrite_str` returns an error.
pub uninterp spec fn text_chunks_of(html: Seq<char>, selector: Seq<char>) -> Option<
    Seq<Seq<char>>,
>;

/// For each element that `selector` matches, in the order of the page, what
/// `Element::get_attribute` gives for the attributes `first` and `second`;
/// `None` where `lol_html::rewrite_str` returns an error.
pub uninterp spec fn attributes_of(
    html: Seq<char>,
    selector: Seq<char>,
    first: Seq<char>,
    second: Seq<char>,
) -> Option<Seq<(Option<Seq<char>>, Option<Seq<char>>)>>;

/// What `lol_html::rewrite_str` writes out when every element that `selector`
/// matches is removed with all that it holds; `None` where it returns an
/// error.
pub uninterp spec fn without_elements(html: Seq<char>, selector: Seq<char>) -> Option<Seq<char>>;

/// The selectors that this module hands to `lol_html`. Each of them parses.
pub open spec fn known_selector(selector: Seq<char>) -> bool {
    ||| selector == "title"@
    ||| selector == "p"@
    ||| selector == "*"@
    ||| selector == "meta[property]"@
    ||| selector == "meta[name]"@
    ||| selector == "script, svg, style"@
}

/// Calls `lol_html::rewrite_str` with one text handler on `selector`, which
/// keeps each piece of text as `TextChunk::as_str` gives it. The rewriter runs
/// with its settings as they come, so the memory limit is the largest there
/// is, and the handler never fails: whether it succeeds rests on the markup
/// and the selector alone. The contract names the pieces where it succeeds,
/// and says that there are none to name where it fails. The selector is
/// parsed with `unwrap`, so it has to be one that parses.
#[verifier::external_body]
fn text_chunks(html: &str, selector: &str) -> (r: Result<Vec<String>, RewritingError>)
    requires
        known_selector(selector@),
    ensures
        match r {
            Ok(chunks) => text_chunks_of(html@, selector@) == Some(views(chunks@)),
            Err(_) => text_chunks_of(html@, selector@) is None,
        },
{
    let mut chunks = Vec::new();
    let handler = ElementContentHandlers::default().text(
        |t: &mut TextChunk| {
            chunks.push(t.as_str().to_string());
            Ok(())
        },
    );
    let handlers = vec![(Cow::Owned(selector.parse().unwrap()), handler)];
    rewrite_str(
        html,
        RewriteStrSettings { element_content_handlers: handlers, ..RewriteStrSettings::new() },
    )?;
    Ok(chunks)
}

/// Calls `lol_html::rewrite_str` with one element handler on `selector`,
/// which keeps what `Element::get_attribute` gives for `first` and for
/// `second`. The contract names the pairs where the rewriter succeeds, and
/// says that there are none to name where it fails.
#[verifier::external_body]
fn element_attributes(html: &str, selector: &str, first: &str, second: &str) -> (r: Result<
    Vec<MetaTag>,
    RewritingError,
>)
    requires
        known_selector(selector@),
    ensures
        match r {
            Ok(tags) => attributes_of(html@, selector@, first@, second@) == Some(
                meta_views(tags@),
            ),
            Err(_) => attributes_of(html@, selector@, first@, second@) is None,
        },
{
    let mut tags = Vec::new();
    let handler = ElementContentHandlers::default().element(
        |e: &mut Element| {
            tags.push(MetaTag { key: e.get_attribute(first), content: e.get_attribute(second) });
            Ok(())
        },
    );
    let handlers = vec![(Cow::Owned(selector.parse().unwrap()), handler)];
    rewrite_str(
        html,
        RewriteStrSettings { element_content_handlers: handlers, ..RewriteStrSettings::new() },
    )?;
    Ok(tags)
}

/// Calls `lol_html::rewrite_str` with one element handler on `selector`,
/// which calls `Element::remove`. The contract names what the rewriter wrote
/// out where it succeeds, and says that there is nothing to name where it
/// fails.
#[verifier::external_body]
fn remove_elements(html: &str, selector: &str) -> (r: Result<String, RewritingError>)
    requires
        known_selector(selector@),
    ensures
        match r {
            Ok(markup) => without_elements(html@, selector@) == Some(markup@),
            Err(_) => without_elements(html@, selector@) is None,
        },
{
    let handler = ElementContentHandlers::default().element(
        |e: &mut Element| {
            e.remove();
            Ok(())
        },
    );
    let handlers = vec![(Cow::Owned(selector.parse().unwrap()), handler)];
    rewrite_str(
        html,
        RewriteStrSettings { element_content_handlers: handlers, ..RewriteStrSettings::new() },
    )
}

/// The last of `chunks` that holds more than white space, trimmed.
pub open spec fn last_filled(chunks: Seq<Seq<char>>) -> Option<Seq<char>>
    decreases chunks.len(),
{
    if chunks.len() == 0 {
        None
    } else if trimmed(chunks.last()).len() > 0 {
        Some(trimmed(chunks.last()))
    } else {
        last_filled(chunks.drop_last())
    }
}

/// Whether a `meta` element is named `key` and has a `content` that holds
/// more than white space.
pub open spec fn meta_gives(meta: (Option<Seq<char>>, Option<Seq<char>>), key: Seq<char>) -> bool {
    meta.0 == Some(key) && meta.1 is Some && trimmed(meta.1->0).len() > 0
}

/// The trimmed `content` of the last `meta` element that gives one for `key`.
pub open spec fn meta_content(
    metas: Seq<(Option<Seq<char>>, Option<Seq<char>>)>,
    key: Seq<char>,
) -> Option<Seq<char>>
    decreases metas.len(),
{
    if metas.len() == 0 {
        None
    } else if meta_gives(metas.last(), key) {
        Some(trimmed(metas.last().1->0))
    } else {
        meta_content(metas.drop_last(), key)
    }
}

/// The chunks that are not empty, in order.
pub open spec fn filled(chunks: Seq<Seq<char>>) -> Seq<Seq<char>>
    decreases chunks.len(),
{
    if chunks.len() == 0 {
        Seq::empty()
    } else if chunks.last().len() > 0 {
        filled(chunks.drop_last()).push(chunks.last())
    } else {
        filled(chunks.drop_last())
    }
}

/// The first of the three that is there, or the empty text.
pub open spec fn first_of(
    first: Option<Seq<char>>,
    second: Option<Seq<char>>,
    third: Option<Seq<char>>,
) -> Seq<char> {
    match first {
        Some(text) => text,
        None => match second {
            Some(text) => text,
            None => match third {
                Some(text) => text,
                None => Seq::empty(),
            },
        },
    }
}

/// The body text of a page: its paragraph texts with one space between each
/// two, bracketed spans replaced by a space, trimmed.
pub open spec fn body_text(paragraph_texts: Seq<Seq<char>>) -> Seq<char> {
    trimmed(unbracketed(joined(filled(paragraph_texts))))
}

/// The summary of a body text: the whole text where it has fewer than
/// `SUMMARY_WORDS` words, else its first `SUMMARY_WORDS` words with one space
/// between each two.
pub open spec fn summary(body: Seq<char>) -> Seq<char> {
    if tokens(body).len() < SUMMARY_WORDS {
        body
    } else {
        joined(tokens(body).take(SUMMARY_WORDS as int))
    }
}

/// What the extractor makes of a scanned page. The title is the Open Graph
/// title, else the `meta` title, else the text of the `title` element; the
/// description and the address likewise, without a third source.
pub open spec fn extracted(scan: PageScanView, stops: Set<Seq<char>>) -> PageText {
    PageText {
        title: first_of(
            meta_content(scan.property_metas, "og:title"@),
            meta_content(scan.name_metas, "title"@),
            last_filled(scan.title_texts),
        ),
        description: first_of(
            meta_content(scan.property_metas, "og:description"@),
            meta_content(scan.name_metas, "description"@),
            None,
        ),
        canonical_url: first_of(
            meta_content(scan.property_metas, "og:url"@),
            meta_content(scan.name_metas, "url"@),
            None,
        ),
        summary_text: summary(body_text(scan.paragraph_texts)),
        full_text: normalized(body_text(scan.paragraph_texts), stops),
    }
}

/// What `lol_html` reports of a page; `None` where it fails on one of the
/// four readings.
pub open spec fn page_scan(html: Seq<char>) -> Option<PageScanView> {
    match (
        text_chunks_of(html, "title"@),
        text_chunks_of(html, "p"@),
        attributes_of(html, "meta[property]"@, "property"@, "content"@),
        attributes_of(html, "meta[name]"@, "name"@, "content"@),
    ) {
        (Some(title_texts), Some(paragraph_texts), Some(property_metas), Some(name_metas)) => Some(
            PageScanView { title_texts, paragraph_texts, property_metas, name_metas },
        ),
        _ => None,
    }
}

/// What the extractor makes of the page `html` with the English stop words;
/// `None` where the rewriter fails on it.
pub open spec fn page_text_of(html: Seq<char>) -> Option<PageText> {
    match page_scan(html) {
        Some(scan) => Some(extracted(scan, stop_set(english()))),
        None => None,
    }
}

/// The characters of an optional text.
spec fn option_chars(text: Option<Vec<char>>) -> Option<Seq<char>> {
    match text {
        Some(v) => Some(v@),
        None => None,
    }
}

/// Whether two strings hold the same characters.
pub fn same_text(a: &str, b: &str) -> (same: bool)
    ensures
        same == (a@ == b@),
{
    let x = chars_of(a);
    let y = chars_of(b);
    if x.len() != y.len() {
        return false;
    }
    let mut i: usize = 0;
    while i < x.len()
        invariant
            i <= x.len(),
            x.len() == y.len(),
            x@ == a@,
            y@ == b@,
            forall|k: int| 0 <= k < i ==> x[k] == y[k],
        decreases x.len() - i,
    {
        if x[i] != y[i] {
            return false;
        }
        i += 1;
    }
    assert(x@ =~= y@);
    true
}

fn find_last_filled(chunks: &Vec<String>) -> (found: Option<Vec<char>>)
    ensures
        option_chars(found) == last_filled(views(chunks@)),
{
    let ghost all = views(chunks@);
    let mut found: Option<Vec<char>> = None;
    let mut i: usize = 0;
    while i < chunks.len()
        invariant
            i <= chunks.len(),
            all == views(chunks@),
            option_chars(found) == last_filled(all.take(i as int)),
        decreases chunks.len() - i,
    {
        let chunk = chars_of(chunks[i].as_str());
        proof {
            assert(all.take(i + 1).drop_last() == all.take(i as int));
        }
        if has_content(&chunk) {
            found = Some(trim(&chunk));
        }
        i += 1;
    }
    assert(all.take(chunks.len() as int) == all);
    found
}

fn find_meta_content(metas: &Vec<MetaTag>, key: &str) -> (found: Option<Vec<char>>)
    ensures
        option_chars(found) == meta_content(meta_views(metas@), key@),
{
    let ghost all = meta_views(metas@);
    let mut found: Option<Vec<char>> = None;
    let mut i: usize = 0;
    while i < metas.len()
        invariant
            i <= metas.len(),
            all == meta_views(metas@),
            option_chars(found) == meta_content(all.take(i as int), key@),
        decreases metas.len() - i,
    {
        proof {
            assert(all.take(i + 1).drop_last() == all.take(i as int));
        }
        let meta = &metas[i];
        match (&meta.key, &meta.content) {
            (Some(name), Some(content)) => {
                if same_text(name.as_str(), key) {
                    let value = chars_of(content.as_str());
                    if has_content(&value) {
                        found = Some(trim(&value));
                    }
                }
            },
            _ => {},
        }
        i += 1;
    }
    assert(all.take(metas.len() as int) == all);
    found
}

fn keep_filled(chunks: &Vec<String>) -> (kept: Vec<String>)
    ensures
        views(kept@) == filled(views(chunks@)),
{
    let ghost all = views(chunks@);
    let mut kept: Vec<String> = Vec::new();
    let mut i: usize = 0;
    while i < chunks.len()
        invariant
            i <= chunks.len(),
            all == views(chunks@),
            views(kept@) == filled(all.take(i as int)),
        decreases chunks.len() - i,
    {
        proof {
            assert(all.take(i + 1).drop_last() == all.take(i as int));
        }
        if chunks[i].as_str().unicode_len() > 0 {
            kept.push(chunks[i].clone());
        }
        i += 1;
    }
    assert(all.take(chunks.len() as int) == all);
    kept
}

fn pick(first: Option<Vec<char>>, second: Option<Vec<char>>, third: Option<Vec<char>>) -> (text:
    String)
    ensures
        text@ == first_of(option_chars(first), option_chars(second), option_chars(third)),
{
    match first {
        Some(v) => string_of(&v),
        None => match second {
            Some(v) => string_of(&v),
            None => match third {
                Some(v) => string_of(&v),
                None => String::new(),
            },
        },
    }
}

/// The body text of the paragraph texts, as characters.
fn body_of(paragraph_texts: &Vec<String>) -> (body: Vec<char>)
    ensures
        body@ == body_text(views(paragraph_texts@)),
{
    let kept = keep_filled(paragraph_texts);
    let text = join_first(&kept, kept.len());
    assert(views(kept@).take(kept.len() as int) == views(kept@));
    let plain = strip_brackets(&text);
    trim(&plain)
}

fn summary_of(body: &Vec<char>) -> (text: String)
    ensures
        text@ == summary(body@),
{
    let words = split_tokens(body);
    if words.len() < SUMMARY_WORDS {
        string_of(body)
    } else {
        string_of(&join_first(&words, SUMMARY_WORDS))
    }
}

/// What the extractor makes of a scanned page, for a given set of stop words.
pub fn resolve(scan: &PageScan, stops: &StopWords) -> (data: ExtractedData)
    ensures
        data@ == extracted(scan@, stops@),
{
    let title = pick(
        find_meta_content(&scan.property_metas, "og:title"),
        find_meta_content(&scan.name_metas, "title"),
        find_last_filled(&scan.title_texts),
    );
    let description = pick(
        find_meta_content(&scan.property_metas, "og:description"),
        find_meta_content(&scan.name_metas, "description"),
        None,
    );
    let canonical_url = pick(
        find_meta_content(&scan.property_metas, "og:url"),
        find_meta_content(&scan.name_metas, "url"),
        None,
    );
    let body = body_of(&scan.paragraph_texts);
    let summary_text = summary_of(&body);
    let body_string = string_of(&body);
    let full_text = normalize_with(body_string.as_str(), stops);
    ExtractedData { title, description, canonical_url, summary_text, full_text }
}

/// What `document` holds besides its identifier.
pub open spec fn document_text(document: Document) -> PageText {
    PageText {
        title: document.title@,
        description: document.description@,
        canonical_url: document.canonical_url@,
        summary_text: document.summary_text@,
        full_text: views(document.full_text@),
    }
}

/// The document of a scanned page: what `resolve` makes of the scan with the
/// English stop words, under a fresh identifier and the address `url`.
pub fn document_from_scan(scan: &PageScan, url: String) -> (document: Document)
    ensures
        document.url == url,
        document_text(document) == extracted(scan@, stop_set(english())),
{
    let stops = StopWords::for_language("en");
    let data = resolve(scan, &stops);
    Document::new(
        url,
        data.title,
        data.description,
        data.canonical_url,
        data.summary_text,
        data.full_text,
    )
}

/// What `lol_html` reports of the page `html`, or `None` where it gives up.
pub fn scan_page(html: &str) -> (scan: Option<PageScan>)
    ensures
        match scan {
            Some(found) => page_scan(html@) == Some(found@),
            None => page_scan(html@) is None,
        },
{
    let title_texts = match markup_outcome(text_chunks(html, "title")) {
        Ok(chunks) => chunks,
        Err(_) => { return None; },
    };
    let paragraph_texts = match markup_outcome(text_chunks(html, "p")) {
        Ok(chunks) => chunks,
        Err(_) => { return None; },
    };
    let property_metas = match markup_outcome(
        element_attributes(html, "meta[property]", "property", "content"),
    ) {
        Ok(tags) => tags,
        Err(_) => { return None; },
    };
    let name_metas = match markup_outcome(
        element_attributes(html, "meta[name]", "name", "content"),
    ) {
        Ok(tags) => tags,
        Err(_) => { return None; },
    };
    Some(PageScan { title_texts, paragraph_texts, property_metas, name_metas })
}

/// The document of the page `text` found at `url`: the one that
/// `document_from_scan` makes of what the rewriter reports, and an error
/// exactly where the rewriter fails on the page.
pub fn extract_structured_data(text: String, url: String) -> (r: Result<Document, ExtractError>)
    ensures
        match r {
            Ok(document) => document.url == url && page_text_of(text@) == Some(
                document_text(document),
            ),
            Err(e) => e == ExtractError::Markup && page_text_of(text@) is None,
        },
{
    match scan_page(text.as_str()) {
        Some(scan) => Ok(document_from_scan(&scan, url)),
        None => Err(ExtractError::Markup),
    }
}

/// The chunks that hold more than white space, each trimmed, in order.
pub open spec fn trimmed_filled(chunks: Seq<Seq<char>>) -> Seq<Seq<char>>
    decreases chunks.len(),
{
    if chunks.len() == 0 {
        Seq::empty()
    } else if trimmed(chunks.last()).len() > 0 {
        trimmed_filled(chunks.drop_last()).push(trimmed(chunks.last()))
    } else {
        trimmed_filled(chunks.drop_last())
    }
}

/// The lines of `s[from..]` that hold more than white space, each trimmed, in
/// order. A line ends at a line feed or at the end of the text.
pub open spec fn filled_lines_from(s: Seq<char>, from: int) -> Seq<Seq<char>>
    decreases s.len() - from,
{
    if from < 0 || from >= s.len() {
        Seq::empty()
    } else {
        let end = run_end(s, from, CharClass::Line);
        proof {
            lemma_run_end(s, from, CharClass::Line);
        }
        let rest = if end < s.len() {
            filled_lines_from(s, end + 1)
        } else {
            Seq::empty()
        };
        if trimmed(s.subrange(from, end)).len() > 0 {
            seq![trimmed(s.subrange(from, end))] + rest
        } else {
            rest
        }
    }
}

/// The pieces of plain text of a page or of a text file. What ends with
/// `</html>` is a page: its pieces are the texts of all its elements. Anything
/// else is taken line by line. Either way a piece is trimmed, and dropped
/// where nothing is left of it. `None` stands for a page on which the
/// rewriter fails.
pub open spec fn text_pieces(text: Seq<char>) -> Option<Seq<Seq<char>>> {
    if ends_with(trimmed(text), "</html>"@) {
        match text_chunks_of(trimmed(text), "*"@) {
            Some(chunks) => Some(trimmed_filled(chunks)),
            None => None,
        }
    } else {
        Some(filled_lines_from(trimmed(text), 0))
    }
}

fn keep_trimmed(chunks: &Vec<String>) -> (kept: Vec<String>)
    ensures
        views(kept@) == trimmed_filled(views(chunks@)),
{
    let ghost all = views(chunks@);
    let mut kept: Vec<String> = Vec::new();
    let mut i: usize = 0;
    while i < chunks.len()
        invariant
            i <= chunks.len(),
            all == views(chunks@),
            views(kept@) == trimmed_filled(all.take(i as int)),
        decreases chunks.len() - i,
    {
        let chunk = chars_of(chunks[i].as_str());
        proof {
            assert(all.take(i + 1).drop_last() == all.take(i as int));
        }
        if has_content(&chunk) {
            kept.push(string_of(&trim(&chunk)));
        }
        i += 1;
    }
    assert(all.take(chunks.len() as int) == all);
    kept
}

fn filled_lines(text: &Vec<char>) -> (lines: Vec<String>)
    ensures
        views(lines@) == filled_lines_from(text@, 0),
{
    let mut lines: Vec<String> = Vec::new();
    let mut i: usize = 0;
    while i < text.len()
        invariant
            i <= text.len(),
            views(lines@) + filled_lines_from(text@, i as int) == filled_lines_from(text@, 0),
        decreases text.len() - i,
    {
        let end = scan_run(text, i, CharClass::Line);
        proof {
            lemma_run_end(text@, i as int, CharClass::Line);
        }
        let mut line: Vec<char> = Vec::new();
        let mut k: usize = i;
        while k < end
            invariant
                i <= k <= end <= text.len(),
                line@ == text@.subrange(i as int, k as int),
            decreases end - k,
        {
            line.push(text[k]);
            k += 1;
        }
        let next: usize = if end < text.len() {
            end + 1
        } else {
            end
        };
        if has_content(&line) {
            lines.push(string_of(&trim(&line)));
        }
        i = next;
    }
    lines
}

/// The pieces of plain text of a page or of a text file; an error exactly
/// where the text is a page on which the rewriter fails.
pub fn extract_text(text: String) -> (r: Result<Vec<String>, ExtractError>)
    ensures
        match r {
            Ok(pieces) => text_pieces(text@) == Some(views(pieces@)),
            Err(e) => e == ExtractError::Markup && text_pieces(text@) is None,
        },
{
    let body = trim(&chars_of(text.as_str()));
    let tail = chars_of("</html>");
    let page = tail.len() <= body.len() && same_chars(
        &tail,
        &body,
        body.len() - tail.len(),
        body.len(),
    );
    if page {
        let markup = string_of(&body);
        match markup_outcome(text_chunks(markup.as_str(), "*")) {
            Ok(chunks) => Ok(keep_trimmed(&chunks)),
            Err(error) => Err(error),
        }
    } else {
        Ok(filled_lines(&body))
    }
}

/// The page `body` without its `script`, `svg` and `style` elements, in order
/// that nothing inside them counts as text of the page; an error exactly
/// where the rewriter fails on the page.
pub fn clean_html(body: String) -> (r: Result<String, ExtractError>)
    ensures
        match r {
            Ok(markup) => without_elements(body@, "script, svg, style"@) == Some(markup@),
            Err(e) => e == ExtractError::Markup && without_elements(
                body@,
                "script, svg, style"@,
            ) is None,
        },
{
    markup_outcome(remove_elements(body.as_str(), "script, svg, style"))
}

/// What the library makes of an outcome of the rewriter: what the rewriter
/// gave, where it gave something, and `ExtractError::Markup` where it failed,
/// whatever its error.
pub fn markup_outcome<T>(outcome: Result<T, RewritingError>) -> (r: Result<T, ExtractError>)
    ensures
        match outcome {
            Ok(value) => r == Ok::<T, ExtractError>(value),
            Err(_) => r == Err::<T, ExtractError>(ExtractError::Markup),
        },
        r is Ok <==> outcome is Ok,
{
    match outcome {
        Ok(value) => Ok(value),
        Err(_) => Err(ExtractError::Markup),
    }
}

} // verus!

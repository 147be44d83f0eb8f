//! Syntax highlighting of code blocks, done by syntect with its bundled
//! syntaxes and themes.
use crate::text::inclusive_lines;
use syntect::easy::HighlightLines;
use syntect::highlighting::ThemeSet;
use syntect::parsing::SyntaxSet;
use syntect::util::LinesWithEndings;
use vstd::prelude::*;

verus! {

/// A highlighted run of code: its foreground colour and its text.
#[derive(Debug)]
pub struct HighlightRun {
    pub r: u8,
    pub g: u8,
    pub b: u8,
    pub text: String,
}

impl View for HighlightRun {
    type V = (u8, u8, u8, Seq<char>);

    open spec fn view(&self) -> (u8, u8, u8, Seq<char>) {
        (self.r, self.g, self.b, self.text@)
    }
}

impl DeepView for HighlightRun {
    type V = (u8, u8, u8, Seq<char>);

    open spec fn deep_view(&self) -> (u8, u8, u8, Seq<char>) {
        self@
    }
}

/// What syntect makes of `code` in `language` with the bundled newline syntaxes
/// and the `base16-ocean.dark` theme: per line, the coloured runs, or `None`
/// where highlighting the line failed.
pub uninterp spec fn ocean_highlight(language: Seq<char>, code: Seq<char>) -> Seq<Option<Seq<(u8, u8, u8, Seq<char>)>>>;

/// Highlights `code` line by line with syntect (`HighlightLines` over
/// `LinesWithEndings`), choosing the syntax by token, then by extension, then
/// plain text. Claimed: the result is `ocean_highlight(language, code)`, a function
/// of its arguments alone, with one entry per line that `LinesWithEndings` yields
/// (the lines of `inclusive_lines`).
#[verifier::external_body]
pub(crate) fn highlight_ocean(language: &str, code: &str) -> (r: Vec<Option<Vec<HighlightRun>>>)
    ensures
        r.deep_view() == ocean_highlight(language@, code@),
        r@.len() == inclusive_lines(code@).len(),
{
    let set = SyntaxSet::load_defaults_newlines();
    let themes = ThemeSet::load_defaults();
    let theme = themes.themes.get("base16-ocean.dark").cloned().unwrap_or_default();
    let syntax = set.find_syntax_by_token(language).or_else(|| set.find_syntax_by_extension(language))
        .unwrap_or_else(|| set.find_syntax_plain_text());
    let mut highlighter = HighlightLines::new(syntax, &theme);
    LinesWithEndings::from(code).map(|line| highlighter.highlight_line(line, &set).ok().map(|ranges| {
        ranges.into_iter().map(|(style, text)| HighlightRun {
            r: style.foreground.r, g: style.foreground.g, b: style.foreground.b, text: text.to_string(),
        }).collect()
    })).collect()
}

} // verus!

verus! {

/// A highlighted run with its full style: foreground and background colours,
/// font style bits (bold 1, underline 2, italic 4) and its text.
#[derive(Debug)]
pub struct StyledRun {
    pub fg: (u8, u8, u8),
    pub bg: (u8, u8, u8),
    pub font_style: u8,
    pub text: String,
}

pub struct RunModel {
    pub fg: (u8, u8, u8),
    pub bg: (u8, u8, u8),
    pub font_style: u8,
    pub text: Seq<char>,
}

impl View for StyledRun {
    type V = RunModel;

    open spec fn view(&self) -> RunModel {
        RunModel { fg: self.fg, bg: self.bg, font_style: self.font_style, text: self.text@ }
    }
}

impl DeepView for StyledRun {
    type V = RunModel;

    open spec fn deep_view(&self) -> RunModel {
        self@
    }
}

/// What syntect makes of the lines of `code` (`str::lines`) in `language` with
/// the bundled newline syntaxes and the `InspiredGitHub` theme: per line, the
/// styled runs (none where highlighting the line failed).
pub uninterp spec fn github_highlight(language: Seq<char>, code: Seq<char>) -> Seq<Seq<RunModel>>;

/// Highlights the lines of `code` with syntect's `HighlightLines`, choosing the
/// syntax by token, then by extension, then plain text. Claimed: the result is
/// `github_highlight(language, code)`, a function of its arguments alone.
#[verifier::external_body]
pub(crate) fn highlight_github(language: &str, code: &str) -> (r: Vec<Vec<StyledRun>>)
    ensures
        r.deep_view() == github_highlight(language@, code@),
{
    let set = SyntaxSet::load_defaults_newlines();
    let theme = ThemeSet::load_defaults().themes["InspiredGitHub"].clone();
    let syntax = set.find_syntax_by_token(language).or_else(|| set.find_syntax_by_extension(language))
        .unwrap_or_else(|| set.find_syntax_plain_text());
    let mut highlighter = HighlightLines::new(syntax, &theme);
    code.lines().map(|line| highlighter.highlight_line(line, &set).unwrap_or_default().into_iter()
        .map(|(s, text)| StyledRun {
            fg: (s.foreground.r, s.foreground.g, s.foreground.b),
            bg: (s.background.r, s.background.g, s.background.b),
            font_style: s.font_style.bits(), text: text.to_string(),
        }).collect()).collect()
}

} // verus!

//! The border model: a `Line` describes one horizontal rule of a table, a
//! `Style` bundles the rules for every edge together with the vertical
//! separator characters.  Lines are independent of one another: setting or
//! clearing one never changes another.

use vstd::prelude::*;

verus! {

/// One horizontal border rule: the fill glyph, the glyph drawn where a
/// column boundary crosses the rule, and optional end glyphs at the left
/// and right table edge.
#[derive(Clone, Copy)]
pub struct Line {
    pub main: char,
    pub intersection: char,
    pub left: Option<char>,
    pub right: Option<char>,
}

impl Line {
    /// A rule with end glyphs at both table edges.
    pub fn full(main: char, intersection: char, left: char, right: char) -> (r: Line)
        ensures
            r.main == main,
            r.intersection == intersection,
            r.left == Some(left),
            r.right == Some(right),
    {
        Line { main, intersection, left: Some(left), right: Some(right) }
    }

    /// A rule without end glyphs.
    pub fn short(main: char, intersection: char) -> (r: Line)
        ensures
            r.main == main,
            r.intersection == intersection,
            r.left is None,
            r.right is None,
    {
        Line { main, intersection, left: None, right: None }
    }
}

/// A complete border configuration: the top and bottom frame rules, the
/// rule under the header row, the rule between data rows, the vertical
/// edge characters and the inner vertical separator.  Every part can be
/// absent independently.
#[derive(Clone, Copy)]
pub struct Style {
    pub frame_top: Option<Line>,
    pub frame_bottom: Option<Line>,
    pub header_split: Option<Line>,
    pub row_split: Option<Line>,
    pub left_vertical: Option<char>,
    pub right_vertical: Option<char>,
    pub inner_vertical: char,
}

impl Style {
    /// Plus-and-dash borders around and between everything.
    pub fn ascii() -> (r: Style)
        ensures
            r.frame_top == Some(Line { main: '-', intersection: '+', left: Some('+'), right: Some('+') }),
            r.frame_bottom == Some(Line { main: '-', intersection: '+', left: Some('+'), right: Some('+') }),
            r.header_split == Some(Line { main: '-', intersection: '+', left: Some('+'), right: Some('+') }),
            r.row_split == Some(Line { main: '-', intersection: '+', left: Some('+'), right: Some('+') }),
            r.left_vertical == Some('|'),
            r.right_vertical == Some('|'),
            r.inner_vertical == '|',
    {
        let line = Line::full('-', '+', '+', '+');
        Style {
            frame_top: Some(line),
            frame_bottom: Some(line),
            header_split: Some(line),
            row_split: Some(line),
            left_vertical: Some('|'),
            right_vertical: Some('|'),
            inner_vertical: '|',
        }
    }

    /// Bare columns with a dashed rule under the header only.
    pub fn psql() -> (r: Style)
        ensures
            r.frame_top is None,
            r.frame_bottom is None,
            r.header_split == Some(Line { main: '-', intersection: '+', left: None, right: None }),
            r.row_split is None,
            r.left_vertical is None,
            r.right_vertical is None,
            r.inner_vertical == '|',
    {
        Style {
            frame_top: None,
            frame_bottom: None,
            header_split: Some(Line::short('-', '+')),
            row_split: None,
            left_vertical: None,
            right_vertical: None,
            inner_vertical: '|',
        }
    }

    /// Piped columns with a dashed rule under the header, edged by pipes.
    pub fn github_markdown() -> (r: Style)
        ensures
            r.frame_top is None,
            r.frame_bottom is None,
            r.header_split == Some(Line { main: '-', intersection: '+', left: Some('|'), right: Some('|') }),
            r.row_split is None,
            r.left_vertical == Some('|'),
            r.right_vertical == Some('|'),
            r.inner_vertical == '|',
    {
        Style {
            frame_top: None,
            frame_bottom: None,
            header_split: Some(Line::full('-', '+', '|', '|')),
            row_split: None,
            left_vertical: Some('|'),
            right_vertical: Some('|'),
            inner_vertical: '|',
        }
    }

    /// Box-drawing borders around and between everything.
    pub fn pseudo() -> (r: Style)
        ensures
            r.frame_top == Some(Line { main: '─', intersection: '┬', left: Some('┌'), right: Some('┐') }),
            r.frame_bottom == Some(Line { main: '─', intersection: '┴', left: Some('└'), right: Some('┘') }),
            r.header_split == Some(Line { main: '─', intersection: '┼', left: Some('├'), right: Some('┤') }),
            r.row_split == Some(Line { main: '─', intersection: '┼', left: Some('├'), right: Some('┤') }),
            r.left_vertical == Some('│'),
            r.right_vertical == Some('│'),
            r.inner_vertical == '│',
    {
        Style {
            frame_top: Some(Line::full('─', '┬', '┌', '┐')),
            frame_bottom: Some(Line::full('─', '┴', '└', '┘')),
            header_split: Some(Line::full('─', '┼', '├', '┤')),
            row_split: Some(Line::full('─', '┼', '├', '┤')),
            left_vertical: Some('│'),
            right_vertical: Some('│'),
            inner_vertical: '│',
        }
    }

    /// Box-drawing frame and header rule, no rules between data rows.
    pub fn pseudo_clean() -> (r: Style)
        ensures
            r.frame_top == Some(Line { main: '─', intersection: '┬', left: Some('┌'), right: Some('┐') }),
            r.frame_bottom == Some(Line { main: '─', intersection: '┴', left: Some('└'), right: Some('┘') }),
            r.header_split == Some(Line { main: '─', intersection: '┼', left: Some('├'), right: Some('┤') }),
            r.row_split is None,
            r.left_vertical == Some('│'),
            r.right_vertical == Some('│'),
            r.inner_vertical == '│',
    {
        Style {
            frame_top: Some(Line::full('─', '┬', '┌', '┐')),
            frame_bottom: Some(Line::full('─', '┴', '└', '┘')),
            header_split: Some(Line::full('─', '┼', '├', '┤')),
            row_split: None,
            left_vertical: Some('│'),
            right_vertical: Some('│'),
            inner_vertical: '│',
        }
    }

    /// No borders at all; columns are separated by a space.
    pub fn noborder() -> (r: Style)
        ensures
            r.frame_top is None,
            r.frame_bottom is None,
            r.header_split is None,
            r.row_split is None,
            r.left_vertical is None,
            r.right_vertical is None,
            r.inner_vertical == ' ',
    {
        Style {
            frame_top: None,
            frame_bottom: None,
            header_split: None,
            row_split: None,
            left_vertical: None,
            right_vertical: None,
            inner_vertical: ' ',
        }
    }

    /// Replaces the top frame rule; every other part stays as it was.
    pub fn frame_top(self, line: Option<Line>) -> (r: Style)
        ensures
            r == (Style { frame_top: line, ..self }),
    {
        Style { frame_top: line, ..self }
    }

    /// Replaces the bottom frame rule; every other part stays as it was.
    pub fn frame_bottom(self, line: Option<Line>) -> (r: Style)
        ensures
            r == (Style { frame_bottom: line, ..self }),
    {
        Style { frame_bottom: line, ..self }
    }

    /// Replaces the rule under the header; every other part stays as it
    /// was.
    pub fn header(self, line: Option<Line>) -> (r: Style)
        ensures
            r == (Style { header_split: line, ..self }),
    {
        Style { header_split: line, ..self }
    }

    /// Replaces the rule between data rows and, with it, the rule under the
    /// header, so that one call rules every row boundary; the frames and
    /// verticals stay as they were.  To make the header rule differ, call
    /// `header` afterwards.
    pub fn split(self, line: Option<Line>) -> (r: Style)
        ensures
            r == (Style { row_split: line, header_split: line, ..self }),
    {
        Style { row_split: line, header_split: line, ..self }
    }

    /// Replaces the inner vertical separator; every other part stays as it
    /// was.
    pub fn inner(self, c: char) -> (r: Style)
        ensures
            r == (Style { inner_vertical: c, ..self }),
    {
        Style { inner_vertical: c, ..self }
    }
}

} // verus!

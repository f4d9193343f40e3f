use vstd::prelude::*;

use crate::clusters::{clusters_of, grapheme_clusters};
use crate::decode::InclusiveRange;
use crate::stream::lines_view;

verus! {

/// Where on one line a token lies.
#[derive(Debug, Clone, Copy, PartialEq, Eq)]
pub struct Line {
    /// The line number, from zero.
    pub index: usize,
    /// The columns on the line.
    pub range: InclusiveRange,
}

/// The column of the last grapheme on line `l`: one less than the number of
/// graphemes on it, or zero for an empty line or a line not seen.
pub open spec fn line_width(lines: Seq<Seq<char>>, l: int) -> nat {
    if 0 <= l < lines.len() && grapheme_clusters(lines[l]).len() > 0 {
        (grapheme_clusters(lines[l]).len() - 1) as nat
    } else {
        0
    }
}

/// The lines a token covers: one line with the token's columns; or, over
/// several lines, the first from the start column to the line's end, the
/// middle ones whole, and the last from column zero to the end column.
pub open spec fn span_lines(
    lines: Seq<Seq<char>>,
    line_range: InclusiveRange,
    column_range: InclusiveRange,
) -> Seq<Line> {
    if line_range.start == line_range.end {
        seq![Line { index: line_range.start, range: column_range }]
    } else {
        Seq::new(
            (line_range.end - line_range.start + 1) as nat,
            |i: int|
                Line {
                    index: (line_range.start + i) as usize,
                    range: if i == line_range.end - line_range.start {
                        InclusiveRange { start: 0, end: column_range.end }
                    } else if i == 0 {
                        InclusiveRange {
                            start: column_range.start,
                            end: line_width(lines, line_range.start as int) as usize,
                        }
                    } else {
                        InclusiveRange {
                            start: 0,
                            end: line_width(lines, line_range.start + i) as usize,
                        }
                    },
                },
        )
    }
}

/// A span over a single line has exactly one line entry, with the token's
/// columns. A span over K lines has K entries, one per line in order; the
/// first starts at the token's start column and the last ends at its end
/// column.
pub proof fn lemma_span_line_shape(
    lines: Seq<Seq<char>>,
    line_range: InclusiveRange,
    column_range: InclusiveRange,
)
    requires
        line_range.start <= line_range.end,
    ensures
        line_range.start == line_range.end ==> span_lines(lines, line_range, column_range).len() == 1
            && span_lines(lines, line_range, column_range)[0] == (Line {
            index: line_range.start,
            range: column_range,
        }),
        line_range.start < line_range.end ==> {
            let s = span_lines(lines, line_range, column_range);
            &&& s.len() == line_range.end - line_range.start + 1
            &&& forall|i: int| 0 <= i < s.len() ==> #[trigger] s[i].index == line_range.start + i
            &&& s[0].range.start == column_range.start
            &&& s.last().range.start == 0
            &&& s.last().range.end == column_range.end
        },
{
}

/// The column of the last grapheme of `line`, or zero when it is empty.
fn width_of(line: &String) -> (r: usize)
    ensures
        r == if grapheme_clusters(line@).len() > 0 {
            (grapheme_clusters(line@).len() - 1) as nat
        } else {
            0
        },
{
    let parts = clusters_of(line.as_str());
    if parts.len() > 0 {
        parts.len() - 1
    } else {
        0
    }
}

/// Builds the lines a token covers; see `span_lines`.
pub fn generate_lines(
    lines: &[String],
    line_range: InclusiveRange,
    column_range: InclusiveRange,
) -> (r: Vec<Line>)
    requires
        line_range.start <= line_range.end,
    ensures
        r@ == span_lines(lines_view(lines@), line_range, column_range),
{
    let ghost view = lines_view(lines@);
    let mut out: Vec<Line> = Vec::new();
    if line_range.start == line_range.end {
        out.push(Line { index: line_range.start, range: column_range });
        assert(out@ =~= span_lines(view, line_range, column_range));
        return out;
    }
    let count = line_range.end - line_range.start;
    let mut i: usize = 0;
    while i < count
        invariant
            count == line_range.end - line_range.start,
            count > 0,
            i <= count,
            view == lines_view(lines@),
            out@.len() == i,
            forall|j: int| 0 <= j < i ==> #[trigger] out@[j] == span_lines(view, line_range, column_range)[j],
        decreases count - i,
    {
        let l = line_range.start + i;
        let width = if l < lines.len() {
            width_of(&lines[l])
        } else {
            0
        };
        let range = if i == 0 {
            InclusiveRange::new(column_range.start, width)
        } else {
            InclusiveRange::new(0, width)
        };
        out.push(Line { index: l, range });
        i = i + 1;
    }
    out.push(Line { index: line_range.end, range: InclusiveRange::new(0, column_range.end) });
    assert(out@ =~= span_lines(view, line_range, column_range));
    out
}

/// Where in the input a token lies. The default span, of synthetic tokens, has
/// no lines, no ranges and no source.
#[derive(Debug, Clone)]
pub struct Span {
    /// The lines the token lies on.
    pub lines: Vec<Line>,
    /// The graphemes the token takes.
    pub grapheme_range: Option<InclusiveRange>,
    /// The bytes the token takes in the decoded text.
    pub byte_range: Option<InclusiveRange>,
    /// A description of where the input came from.
    pub source: String,
}

/// What `Span::source` gives for a span without a source.
pub open spec fn no_source() -> Seq<char> {
    seq!['N', 'o', ' ', 'S', 'o', 'u', 'r', 'c', 'e']
}

impl Default for Span {
    fn default() -> (r: Span)
        ensures
            r.lines@.len() == 0,
            r.grapheme_range is None,
            r.byte_range is None,
            r.source@.len() == 0,
    {
        Span { lines: Vec::new(), grapheme_range: None, byte_range: None, source: String::new() }
    }
}

impl Span {
    /// The span of a token from its grapheme, byte, line and column ranges.
    pub fn new(
        lines: &[String],
        grapheme_range: InclusiveRange,
        byte_range: InclusiveRange,
        line_range: InclusiveRange,
        column_range: InclusiveRange,
        source: String,
    ) -> (r: Span)
        requires
            line_range.start <= line_range.end,
        ensures
            r.lines@ == span_lines(lines_view(lines@), line_range, column_range),
            r.grapheme_range == Some(grapheme_range),
            r.byte_range == Some(byte_range),
            r.source == source,
    {
        let lines = generate_lines(lines, line_range, column_range);
        Span {
            lines,
            grapheme_range: Some(grapheme_range),
            byte_range: Some(byte_range),
            source,
        }
    }

    /// The description of the source, or `"No Source"` when there is none.
    pub fn source(&self) -> (r: &str)
        ensures
            r@ == if self.source@.len() == 0 {
                no_source()
            } else {
                self.source@
            },
    {
        if self.source.as_str().is_empty() {
            proof {
                reveal_strlit("No Source");
            }
            let r = "No Source";
            assert(r@ =~= no_source());
            r
        } else {
            self.source.as_str()
        }
    }

    /// The lines the token lies on.
    pub fn lines(&self) -> (r: &Vec<Line>)
        ensures
            r == self.lines,
    {
        &self.lines
    }

    /// The lines the token lies on, to change.
    pub fn lines_mut(&mut self) -> (r: &mut Vec<Line>)
        ensures
            *r == old(self).lines,
            *final(self) == (Span { lines: *final(r), ..*old(self) }),
    {
        &mut self.lines
    }

    /// The graphemes the token takes.
    pub fn grapheme_range(&self) -> (r: &Option<InclusiveRange>)
        ensures
            r == self.grapheme_range,
    {
        &self.grapheme_range
    }

    /// The graphemes the token takes, to change.
    pub fn grapheme_range_mut(&mut self) -> (r: &mut Option<InclusiveRange>)
        ensures
            *r == old(self).grapheme_range,
            *final(self) == (Span { grapheme_range: *final(r), ..*old(self) }),
    {
        &mut self.grapheme_range
    }

    /// The bytes the token takes.
    pub fn byte_range(&self) -> (r: &Option<InclusiveRange>)
        ensures
            r == self.byte_range,
    {
        &self.byte_range
    }

    /// The bytes the token takes, to change.
    pub fn byte_range_mut(&mut self) -> (r: &mut Option<InclusiveRange>)
        ensures
            *r == old(self).byte_range,
            *final(self) == (Span { byte_range: *final(r), ..*old(self) }),
    {
        &mut self.byte_range
    }
}

} // verus!

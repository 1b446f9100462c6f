//! Lines of painted text.

use crate::text;
use crate::text::push_decimal;
use vstd::prelude::*;
use vstd::string::*;

verus! {

/// How a piece of text is painted.
#[derive(Clone, Copy, Debug, PartialEq, Eq, Structural)]
pub enum Paint {
    Plain,
    Bold,
    Dim,
    Green,
    Yellow,
    Magenta,
    GreenBold,
    YellowBold,
    CyanBold,
    MagentaBold,
}

/// A piece of text and how it is painted.
#[derive(Debug)]
pub struct Span {
    pub paint: Paint,
    pub text: String,
}

/// A piece of text and how it is painted.
#[verifier::ext_equal]
pub struct SpanView {
    pub paint: Paint,
    pub text: Seq<char>,
}

impl View for Span {
    type V = SpanView;

    open spec fn view(&self) -> SpanView {
        SpanView { paint: self.paint, text: self.text@ }
    }
}

/// A piece of text.
pub open spec fn painted(paint: Paint, text: Seq<char>) -> SpanView {
    SpanView { paint, text }
}

/// The pieces of a line.
pub open spec fn line_view(line: Seq<Span>) -> Seq<SpanView> {
    line.map_values(|s: Span| s@)
}

/// The lines of a report.
pub open spec fn report_view(lines: Seq<Vec<Span>>) -> Seq<Seq<SpanView>> {
    lines.map_values(|l: Vec<Span>| line_view(l@))
}

/// Appends a piece to a line.
pub fn put(line: &mut Vec<Span>, paint: Paint, text: String)
    ensures
        line_view(final(line)@) == line_view(old(line)@).push(painted(paint, text@)),
{
    line.push(Span { paint, text });
    assert(line_view(line@) =~= line_view(old(line)@).push(painted(paint, text@)));
}

/// Appends a piece to a line.
pub fn put_str(line: &mut Vec<Span>, paint: Paint, text: &str)
    ensures
        line_view(final(line)@) == line_view(old(line)@).push(painted(paint, text@)),
{
    let mut owned = String::new();
    owned.append(text);
    assert(owned@ =~= text@);
    put(line, paint, owned);
}

/// Appends a line to a report.
pub fn end(lines: &mut Vec<Vec<Span>>, line: Vec<Span>)
    ensures
        report_view(final(lines)@) == report_view(old(lines)@).push(line_view(line@)),
{
    lines.push(line);
    assert(report_view(lines@) =~= report_view(old(lines)@).push(line_view(line@)));
}

/// Appends an empty line to a report.
pub fn blank(lines: &mut Vec<Vec<Span>>)
    ensures
        report_view(final(lines)@) == report_view(old(lines)@).push(Seq::empty()),
{
    let line: Vec<Span> = Vec::new();
    assert(line_view(line@) =~= Seq::empty());
    end(lines, line);
}

/// Appends a line of one piece to a report.
pub fn single(lines: &mut Vec<Vec<Span>>, paint: Paint, text: String)
    ensures
        report_view(final(lines)@) == report_view(old(lines)@).push(seq![painted(paint, text@)]),
{
    let mut line: Vec<Span> = Vec::new();
    put(&mut line, paint, text);
    assert(line_view(line@) =~= seq![painted(paint, text@)]);
    end(lines, line);
}

/// Writes a number in decimal.
pub fn number(n: u64) -> (out: String)
    ensures
        out@ == text::decimal(n as nat),
{
    let mut out = String::new();
    push_decimal(&mut out, n as u128);
    assert(out@ =~= text::decimal(n as nat));
    out
}

} // verus!

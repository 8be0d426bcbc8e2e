use vstd::prelude::*;

use crate::text::push_char;

verus! {

/// How a segment of output is to be shown on a terminal.
#[derive(PartialEq, Eq, Structural, Debug, Clone, Copy)]
pub enum Style {
    Plain,
    Red,
    Green,
    Yellow,
    Purple,
    BoldRed,
}

/// A piece of output text with its style.
#[derive(Debug)]
pub struct Segment {
    pub text: String,
    pub style: Style,
}

pub type SegmentModel = (Seq<char>, Style);

pub open spec fn segment_view(s: Segment) -> SegmentModel {
    (s.text@, s.style)
}

pub open spec fn newline_model() -> SegmentModel {
    (seq!['\n'], Style::Plain)
}

/// Styled output, built up segment by segment; a terminal sink writes it out.
#[derive(Debug)]
pub struct Printer {
    segments: Vec<Segment>,
}

impl View for Printer {
    type V = Seq<SegmentModel>;

    closed spec fn view(&self) -> Seq<SegmentModel> {
        self.segments@.map_values(|s: Segment| segment_view(s))
    }
}

impl Printer {
    /// Output with no segments.
    pub fn new() -> (r: Printer)
        ensures
            r@ == Seq::<SegmentModel>::empty(),
    {
        let r = Printer { segments: Vec::new() };
        assert(r@ =~= Seq::<SegmentModel>::empty());
        r
    }

    /// Appends `s` in the given style.
    pub fn styled(self, s: String, style: Style) -> (r: Printer)
        ensures
            r@ == self@.push((s@, style)),
    {
        let mut segments = self.segments;
        segments.push(Segment { text: s, style });
        let r = Printer { segments };
        assert(r@ =~= self@.push((s@, style)));
        r
    }

    /// Appends `s` unstyled.
    pub fn default(self, s: String) -> (r: Printer)
        ensures
            r@ == self@.push((s@, Style::Plain)),
    {
        self.styled(s, Style::Plain)
    }

    pub fn red(self, s: String) -> (r: Printer)
        ensures
            r@ == self@.push((s@, Style::Red)),
    {
        self.styled(s, Style::Red)
    }

    pub fn green(self, s: String) -> (r: Printer)
        ensures
            r@ == self@.push((s@, Style::Green)),
    {
        self.styled(s, Style::Green)
    }

    pub fn yellow(self, s: String) -> (r: Printer)
        ensures
            r@ == self@.push((s@, Style::Yellow)),
    {
        self.styled(s, Style::Yellow)
    }

    pub fn purple(self, s: String) -> (r: Printer)
        ensures
            r@ == self@.push((s@, Style::Purple)),
    {
        self.styled(s, Style::Purple)
    }

    pub fn bred(self, s: String) -> (r: Printer)
        ensures
            r@ == self@.push((s@, Style::BoldRed)),
    {
        self.styled(s, Style::BoldRed)
    }

    /// Appends a line break.
    pub fn newline(self) -> (r: Printer)
        ensures
            r@ == self@.push(newline_model()),
    {
        let mut s = String::new();
        push_char(&mut s, '\n');
        assert(s@ =~= seq!['\n']);
        self.default(s)
    }

    /// The segments, in order.
    pub fn segments(&self) -> (r: &Vec<Segment>)
        ensures
            r@.map_values(|s: Segment| segment_view(s)) == self@,
    {
        &self.segments
    }
}

} // verus!

//! The output record of a comparison, and the bracketing of nested results.

use crate::strings::push_char;
use vstd::prelude::*;

verus! {

/// One line of a comparison's result.
///
/// `diff` is the change marker: `'+'` added, `'-'` removed, `'~'` changed,
/// `'.'` a bracket line that shows no marker, `'x'` unchanged.
#[derive(Debug, PartialEq, Eq)]
pub struct Line {
    pub diff: char,
    pub depth: usize,
    pub contents: String,
}

/// What a [`Line`] stands for: its marker, its nesting level and its text.
pub struct LineView {
    pub marker: char,
    pub depth: nat,
    pub text: Seq<char>,
}

impl View for Line {
    type V = LineView;

    open spec fn view(&self) -> LineView {
        LineView { marker: self.diff, depth: self.depth as nat, text: self.contents@ }
    }
}

/// The views of a vector of lines, in order.
pub open spec fn lines_view(lines: Seq<Line>) -> Seq<LineView> {
    Seq::new(lines.len(), |i: int| lines[i]@)
}

/// `n` space characters.
pub open spec fn spaces(n: nat) -> Seq<char> {
    Seq::new(n, |i: int| ' ')
}

/// How a line is shown: two spaces for each level of depth, then the marker
/// and one space unless the marker is `'.'`, then the text.
pub open spec fn rendered(line: LineView) -> Seq<char> {
    spaces(2 * line.depth) + (if line.marker == '.' {
        Seq::empty()
    } else {
        seq![line.marker, ' ']
    }) + line.text
}

/// The colour that goes with a marker: cyan for an added line, yellow for
/// a changed one, red for a removed one, white for any other.
pub open spec fn color_of(marker: char) -> Seq<char> {
    if marker == '+' {
        "cyan"@
    } else if marker == '~' {
        "yellow"@
    } else if marker == '-' {
        "red"@
    } else {
        "white"@
    }
}

impl Line {
    /// A line at nesting level zero.
    pub fn new(diff: char, contents: String) -> (line: Line)
        ensures
            line@ == (LineView { marker: diff, depth: 0, text: contents@ }),
    {
        Line { diff, depth: 0, contents }
    }

    /// The line as it is shown.
    pub fn render(&self) -> (out: String)
        ensures
            out@ == rendered(self@),
    {
        let mut out = String::new();
        let mut level: usize = 0;
        while level < self.depth
            invariant
                level <= self.depth,
                out@ == spaces(2 * level as nat),
            decreases self.depth - level,
        {
            push_char(&mut out, ' ');
            push_char(&mut out, ' ');
            level += 1;
        }
        if self.diff != '.' {
            push_char(&mut out, self.diff);
            push_char(&mut out, ' ');
        }
        out.append(self.contents.as_str());
        out
    }

    /// The name of the colour in which the line is shown.
    pub fn color(&self) -> (name: &'static str)
        ensures
            name@ == color_of(self.diff),
    {
        match self.diff {
            '+' => "cyan",
            '~' => "yellow",
            '-' => "red",
            _ => "white",
        }
    }
}

impl Clone for Line {
    /// A copy of the line.
    fn clone(&self) -> (copy: Line)
        ensures
            copy@ == self@,
    {
        Line { diff: self.diff, depth: self.depth, contents: self.contents.clone() }
    }
}

/// Which brackets enclose a nested result.
#[derive(Debug, Clone, Copy, PartialEq, Eq)]
pub enum WrapperKind {
    Array,
    Object,
}

/// The bracket that opens a block of this kind.
pub open spec fn open_bracket(kind: WrapperKind) -> Seq<char> {
    match kind {
        WrapperKind::Array => "["@,
        WrapperKind::Object => "{"@,
    }
}

/// The bracket that closes a block of this kind.
pub open spec fn close_bracket(kind: WrapperKind) -> Seq<char> {
    match kind {
        WrapperKind::Array => "]"@,
        WrapperKind::Object => "}"@,
    }
}

/// The same lines, each one level deeper.
pub open spec fn indented(lines: Seq<LineView>) -> Seq<LineView> {
    Seq::new(
        lines.len(),
        |i: int|
            LineView { marker: lines[i].marker, depth: lines[i].depth + 1, text: lines[i].text },
    )
}

/// A nested result as a block: nothing where the result is empty; else a
/// bracket line that carries the label, the lines one level deeper, and the
/// closing bracket line.
pub open spec fn wrapped(lines: Seq<LineView>, label: Seq<char>, kind: WrapperKind) -> Seq<
    LineView,
> {
    if lines.len() == 0 {
        Seq::empty()
    } else {
        seq![LineView { marker: '.', depth: 0, text: label + open_bracket(kind) }] + indented(lines)
            + seq![LineView { marker: '.', depth: 0, text: close_bracket(kind) }]
    }
}

/// Every line is at depth `limit` or less.
pub open spec fn bounded(lines: Seq<LineView>, limit: nat) -> bool {
    forall|i: int| 0 <= i < lines.len() ==> (#[trigger] lines[i]).depth <= limit
}

/// Encloses a nested result in brackets, or drops it where it is empty.
///
/// No line may be at depth `usize::MAX` already.
pub fn wrap(lines: Vec<Line>, name: &str, kind: WrapperKind) -> (block: Vec<Line>)
    requires
        bounded(lines_view(lines@), (usize::MAX - 1) as nat),
    ensures
        lines_view(block@) == wrapped(lines_view(lines@), name@, kind),
{
    let mut block: Vec<Line> = Vec::new();
    if lines.len() == 0 {
        return block;
    }
    let (opening, closing) = match kind {
        WrapperKind::Array => ("[", "]"),
        WrapperKind::Object => ("{", "}"),
    };
    let ghost inner = lines_view(lines@);
    let ghost head = LineView { marker: '.', depth: 0, text: name@ + open_bracket(kind) };
    block.push(Line::new('.', name.to_owned().concat(opening)));
    for line in it: lines
        invariant
            bounded(inner, (usize::MAX - 1) as nat),
            lines_view(it.seq()) == inner,
            lines_view(block@) == seq![head] + indented(inner).take(it.index() as int),
    {
        let ghost before = lines_view(block@);
        assert(line@ == inner[it.index() as int]);
        let mut line = line;
        line.depth += 1;
        block.push(line);
        assert(lines_view(block@) =~= before.push(indented(inner)[it.index() as int]));
    }
    let ghost before = lines_view(block@);
    block.push(Line::new('.', closing.to_owned()));
    assert(lines_view(block@) =~= before.push(
        LineView { marker: '.', depth: 0, text: close_bracket(kind) },
    ));
    block
}

} // verus!

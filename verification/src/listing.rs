//! The listing of a tree: one line for each directory and file that is shown, and the
//! text that is made of them.

use vstd::prelude::*;
use vstd::string::StringExecFns;
use colored::ColoredString;
use colored::Colorize;

verus! {

/// What a line of a listing stands for.
#[derive(Debug, Clone, Copy, PartialEq, Eq)]
pub enum LineKind {
    /// A directory.
    Directory,
    /// A file.
    File,
}

/// A line of a listing.
#[derive(Debug, Clone, PartialEq, Eq)]
pub struct Line {
    /// What leads to the label: a line break and the marks of the levels above.
    pub guide: String,
    /// What the line stands for.
    pub kind: LineKind,
    /// The name that is shown.
    pub label: String,
}

/// A line of a listing as a mathematical value.
pub struct LineView {
    pub guide: Seq<char>,
    pub kind: LineKind,
    pub label: Seq<char>,
}

impl View for Line {
    type V = LineView;

    open spec fn view(&self) -> LineView {
        LineView { guide: self.guide@, kind: self.kind, label: self.label@ }
    }
}

/// The views of lines, in order.
pub open spec fn line_views(lines: Seq<Line>) -> Seq<LineView> {
    lines.map_values(|l: Line| l@)
}

/// The mark of one level above a line.
pub open spec fn bar() -> Seq<char> {
    seq!['|', ' ', ' ', ' ', ' ']
}

/// The marks of `level` levels.
pub open spec fn bars(level: nat) -> Seq<char>
    decreases level,
{
    if level == 0 {
        Seq::empty()
    } else {
        bars((level - 1) as nat) + bar()
    }
}

/// What leads to the label of a line at `level`: a line break, two blanks, the marks of
/// the levels above, and an arrow.
pub open spec fn guide_text(level: nat) -> Seq<char> {
    seq!['\n', ' ', ' '] + bars(level) + seq!['|', '-', '>', ' ']
}

/// The label of the line that stands for the file of a directory that holds one file.
pub open spec fn file_label() -> Seq<char> {
    seq!['F', 'I', 'L', 'E']
}

/// The line of a directory named `name` at `level`.
pub open spec fn directory_line(level: nat, name: Seq<char>) -> LineView {
    LineView { guide: guide_text(level), kind: LineKind::Directory, label: name }
}

/// The line of a file named `name` at `level`.
pub open spec fn file_line(level: nat, name: Seq<char>) -> LineView {
    LineView { guide: guide_text(level), kind: LineKind::File, label: name }
}

/// The text made of a title and of the two painted parts of each line: a mark, the
/// title, and then for each line its guide and its label.
pub open spec fn assembled(title: Seq<char>, parts: Seq<(Seq<char>, Seq<char>)>) -> Seq<char>
    decreases parts.len(),
{
    if parts.len() == 0 {
        seq!['>', ' '] + title
    } else {
        assembled(title, parts.drop_last()) + parts.last().0 + parts.last().1
    }
}

/// The character that begins a colour code.
pub open spec fn escape() -> char {
    '\u{1b}'
}

/// Whether `out` holds `plain` as it stands, with or without something before and
/// after it.
pub open spec fn shows(out: Seq<char>, plain: Seq<char>) -> bool {
    exists|before: Seq<char>, after: Seq<char>| out == #[trigger] (before + plain + after)
}

/// Whether `out` is `plain` as a terminal is to get it: a plain text that holds no
/// escape character stands in it as it is.
pub open spec fn paints(out: Seq<char>, plain: Seq<char>) -> bool {
    !plain.contains(escape()) ==> shows(out, plain)
}

/// Whether `text` is the listing of `lines` under `title`: a mark, the painted title,
/// and then for each line its painted guide and its painted label, in order.
pub open spec fn rendered(text: Seq<char>, title: Seq<char>, lines: Seq<LineView>) -> bool {
    exists|shown: Seq<char>, parts: Seq<(Seq<char>, Seq<char>)>|
        {
            &&& text == #[trigger] assembled(shown, parts)
            &&& parts.len() == lines.len()
            &&& paints(shown, title)
            &&& forall|j: int|
                0 <= j < lines.len() ==> paints((#[trigger] parts[j]).0, lines[j].guide)
                    && paints(parts[j].1, lines[j].label)
        }
}

/// The views of painted parts, in order.
pub open spec fn part_views(parts: Seq<(String, String)>) -> Seq<(Seq<char>, Seq<char>)> {
    parts.map_values(|p: (String, String)| (p.0@, p.1@))
}

/// The styled text of the `colored` crate, as an opaque type.
#[verifier::external_type_specification]
#[verifier::external_body]
pub struct ExColoredString(colored::ColoredString);

/// The plain text that a styled text wraps.
pub uninterp spec fn wrapped(text: ColoredString) -> Seq<char>;

/// `Colorize::purple` of a string slice: a styled text that wraps the text, to be shown
/// in purple.
#[verifier::external_body]
fn purple(text: &str) -> (styled: ColoredString)
    ensures
        wrapped(styled) == text@,
{
    text.purple()
}

/// `Colorize::black` of a string slice: a styled text that wraps the text, to be shown
/// in black.
#[verifier::external_body]
fn black(text: &str) -> (styled: ColoredString)
    ensures
        wrapped(styled) == text@,
{
    text.black()
}

/// `Colorize::bold` of a string slice: a styled text that wraps the text, to be shown
/// in bold.
#[verifier::external_body]
fn bold(text: &str) -> (styled: ColoredString)
    ensures
        wrapped(styled) == text@,
{
    text.bold()
}

/// `Colorize::bold` of a styled text: the same text, to be shown in bold as well.
#[verifier::external_body]
fn and_bold(text: ColoredString) -> (styled: ColoredString)
    ensures
        wrapped(styled) == wrapped(text),
{
    text.bold()
}

/// `Colorize::underline` of a styled text: the same text, to be underlined as well.
#[verifier::external_body]
fn and_underline(text: ColoredString) -> (styled: ColoredString)
    ensures
        wrapped(styled) == wrapped(text),
{
    text.underline()
}

/// `Colorize::yellow` of a styled text: the same text, to be shown in yellow.
#[verifier::external_body]
fn and_yellow(text: ColoredString) -> (styled: ColoredString)
    ensures
        wrapped(styled) == wrapped(text),
{
    text.yellow()
}

/// `Colorize::bright_cyan` of a styled text: the same text, to be shown in bright cyan.
#[verifier::external_body]
fn and_bright_cyan(text: ColoredString) -> (styled: ColoredString)
    ensures
        wrapped(styled) == wrapped(text),
{
    text.bright_cyan()
}

/// `Display` of a styled text: the text as a terminal is to get it. Whether colour
/// codes stand around it depends on the terminal and on the variables of the process.
/// Either way a wrapped text that holds no escape character stands in the result as it
/// is: only behind a reset sequence, which begins with that character, is anything put
/// into the text.
#[verifier::external_body]
fn written(text: &ColoredString) -> (out: String)
    ensures
        paints(out@, wrapped(*text)),
{
    format!("{}", text)
}

/// The name of a tree as it is shown: purple, bold and underlined.
fn paint_title(name: &str) -> (out: String)
    ensures
        paints(out@, name@),
{
    written(&and_underline(and_bold(purple(name))))
}

/// The guide of a line as it is shown: black.
fn paint_guide(guide: &str) -> (out: String)
    ensures
        paints(out@, guide@),
{
    written(&black(guide))
}

/// The name of a directory as it is shown: bold and yellow.
fn paint_directory(name: &str) -> (out: String)
    ensures
        paints(out@, name@),
{
    written(&and_yellow(bold(name)))
}

/// The name of a file as it is shown: bold and bright cyan.
fn paint_file(name: &str) -> (out: String)
    ensures
        paints(out@, name@),
{
    written(&and_bright_cyan(bold(name)))
}

/// The guide of a line below `indent`, the marks of the levels above it.
pub(crate) fn guide(indent: &str, Ghost(level): Ghost<nat>) -> (g: String)
    requires
        indent@ == bars(level),
    ensures
        g@ == guide_text(level),
{
    proof {
        reveal_strlit("\n  ");
        reveal_strlit("|-> ");
    }
    let mut g = "\n  ".to_owned();
    g.append(indent);
    g.append("|-> ");
    assert(g@ =~= guide_text(level));
    g
}

/// The marks of the levels above the lines one level below `indent`.
pub(crate) fn deeper(indent: &str, Ghost(level): Ghost<nat>) -> (d: String)
    requires
        indent@ == bars(level),
    ensures
        d@ == bars(level + 1),
{
    proof {
        reveal_strlit("|    ");
    }
    let mut d = indent.to_owned();
    d.append("|    ");
    assert(d@ =~= bars(level + 1));
    d
}

/// Puts a painted title and the painted parts of the lines together.
pub fn assemble(title: &str, parts: &Vec<(String, String)>) -> (text: String)
    ensures
        text@ == assembled(title@, part_views(parts@)),
{
    proof {
        reveal_strlit("> ");
    }
    let mut text = "> ".to_owned();
    text.append(title);
    assert(part_views(parts@).take(0) =~= Seq::empty());
    assert(text@ =~= assembled(title@, part_views(parts@).take(0)));
    let mut i: usize = 0;
    while i < parts.len()
        invariant
            i <= parts.len(),
            text@ == assembled(title@, part_views(parts@).take(i as int)),
        decreases parts.len() - i,
    {
        text.append(parts[i].0.as_str());
        text.append(parts[i].1.as_str());
        proof {
            let upto = part_views(parts@).take(i + 1);
            assert(upto.drop_last() =~= part_views(parts@).take(i as int));
            assert(upto.last() == (parts[i as int].0@, parts[i as int].1@));
        }
        i += 1;
    }
    assert(part_views(parts@).take(i as int) =~= part_views(parts@));
    text
}

/// The text of a listing: the title and each line, painted as a terminal shows them.
pub fn render(title: &str, lines: &Vec<Line>) -> (text: String)
    ensures
        rendered(text@, title@, line_views(lines@)),
{
    let painted_title = paint_title(title);
    let mut parts: Vec<(String, String)> = Vec::new();
    let mut i: usize = 0;
    while i < lines.len()
        invariant
            i <= lines.len(),
            parts.len() == i,
            forall|j: int|
                0 <= j < i ==> paints((#[trigger] parts[j]).0@, lines[j].guide@) && paints(
                    parts[j].1@,
                    lines[j].label@,
                ),
        decreases lines.len() - i,
    {
        let line = &lines[i];
        let painted_guide = paint_guide(line.guide.as_str());
        let painted_label = match line.kind {
            LineKind::Directory => paint_directory(line.label.as_str()),
            LineKind::File => paint_file(line.label.as_str()),
        };
        parts.push((painted_guide, painted_label));
        i += 1;
    }
    let text = assemble(painted_title.as_str(), &parts);
    proof {
        let shown = painted_title@;
        let views = part_views(parts@);
        assert(views.len() == lines.len());
        assert forall|j: int| 0 <= j < lines.len() implies paints(
            (#[trigger] views[j]).0,
            line_views(lines@)[j].guide,
        ) && paints(views[j].1, line_views(lines@)[j].label) by {
            assert(paints(parts[j].0@, lines[j].guide@));
        }
        assert(text@ == assembled(shown, views));
    }
    text
}

} // verus!

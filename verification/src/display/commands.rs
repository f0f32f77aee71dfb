//! Draw commands and related types

use vstd::prelude::*;

use vstd::std_specs::convert::FromSpecImpl;
use vstd::string::StringSliceAdditionalSpecFns;
use vstd::utf8::encode_utf8;

use crate::util;

verus! {

/// Representation of intensity
#[derive(Copy, Clone, Debug, PartialEq, Eq, Structural)]
pub enum Intensity {
    Bold,
    Faint,
}

/// Representation of the basic colours supported by terminals
#[derive(Copy, Clone, Debug, PartialEq, Eq, Structural)]
pub enum Colour {
    Black,
    Red,
    Green,
    Yellow,
    Blue,
    Magenta,
    Cyan,
    White,
}

impl Colour {
    /// The code offset corresponding to the colour
    pub open spec fn spec_code_off(&self) -> u8 {
        match self {
            Colour::Black => 0,
            Colour::Red => 1,
            Colour::Green => 2,
            Colour::Yellow => 3,
            Colour::Blue => 4,
            Colour::Magenta => 5,
            Colour::Cyan => 6,
            Colour::White => 7,
        }
    }

    /// Determine the code offset corresponding to the colour
    pub fn code_off(&self) -> (r: u8)
        ensures
            r == self.spec_code_off(),
    {
        match self {
            Colour::Black => 0,
            Colour::Red => 1,
            Colour::Green => 2,
            Colour::Yellow => 3,
            Colour::Blue => 4,
            Colour::Magenta => 5,
            Colour::Cyan => 6,
            Colour::White => 7,
        }
    }

    /// The terminal colour depicting a colour of the game
    pub open spec fn spec_from_colour(colour: util::Colour) -> Colour {
        match colour {
            util::Colour::Red => Colour::Red,
            util::Colour::Yellow => Colour::Yellow,
            util::Colour::Blue => Colour::Blue,
        }
    }
}

impl From<util::Colour> for Colour {
    fn from(colour: util::Colour) -> (r: Colour)
        ensures
            r == Colour::spec_from_colour(colour),
    {
        match colour {
            util::Colour::Red => Colour::Red,
            util::Colour::Yellow => Colour::Yellow,
            util::Colour::Blue => Colour::Blue,
        }
    }
}

impl FromSpecImpl<util::Colour> for Colour {
    open spec fn obeys_from_spec() -> bool {
        true
    }

    open spec fn from_spec(colour: util::Colour) -> Colour {
        Colour::spec_from_colour(colour)
    }
}

/// Each game colour is drawn in the terminal colour of the same name
///
/// As a foreground colour in the dark variant, the terminal colour depicting
/// red selects the code 31, yellow 33 and blue 34, the standard codes of the
/// colours of these names. Distinct game colours are drawn in distinct
/// terminal colours.
pub proof fn lemma_game_colours_named(c: util::Colour, d: util::Colour)
    ensures
        SGR::FGColour(Some((Colour::spec_from_colour(c), Brightness::Dark))).spec_code() == match c {
            util::Colour::Red => 31u8,
            util::Colour::Yellow => 33u8,
            util::Colour::Blue => 34u8,
        },
        c != d ==> Colour::spec_from_colour(c) != Colour::spec_from_colour(d),
{
}

/// Representation of brightness
#[derive(Copy, Clone, Debug, PartialEq, Eq, Structural)]
pub enum Brightness {
    Dark,
    Light,
}

impl Brightness {
    /// The code offset corresponding to the brightness
    pub open spec fn spec_code_off(&self) -> u8 {
        match self {
            Brightness::Dark => 0,
            Brightness::Light => 60,
        }
    }

    /// Determine the code offset corresponding to the brightness
    pub fn code_off(&self) -> (r: u8)
        ensures
            r == self.spec_code_off(),
    {
        match self {
            Brightness::Dark => 0,
            Brightness::Light => 60,
        }
    }
}

impl Default for Brightness {
    fn default() -> (r: Self)
        ensures
            r == Brightness::Dark,
    {
        Brightness::Dark
    }
}

/// Representation of some selected "Select Graphic Rendition" parameters
#[derive(Copy, Clone, Debug)]
pub enum SGR {
    /// Reset to default formatting
    Reset,
    /// Change intensity
    ///
    /// A value of `None` will reset the intensity to the default.
    Intensity(Option<Intensity>),
    /// Control underline
    Underline(bool),
    /// Control blink
    Blink(bool),
    /// Control strike-through/cross-out
    Strike(bool),
    /// Set the foreground colour
    ///
    /// A value of `None` will reset the colour to the default.
    FGColour(Option<(Colour, Brightness)>),
    /// Set the background colour
    ///
    /// A value of `None` will reset the colour to the default.
    BGColour(Option<(Colour, Brightness)>),
}

impl SGR {
    /// The code number for the SGR parameter
    pub open spec fn spec_code(&self) -> u8 {
        match self {
            SGR::Reset => 0,
            SGR::Intensity(Some(Intensity::Bold)) => 1,
            SGR::Intensity(Some(Intensity::Faint)) => 2,
            SGR::Intensity(None) => 22,
            SGR::Underline(true) => 4,
            SGR::Underline(false) => 24,
            SGR::Blink(true) => 5,
            SGR::Blink(false) => 25,
            SGR::Strike(true) => 9,
            SGR::Strike(false) => 29,
            SGR::FGColour(Some((col, br))) => (30 + col.spec_code_off() + br.spec_code_off()) as u8,
            SGR::FGColour(None) => 39,
            SGR::BGColour(Some((col, br))) => (40 + col.spec_code_off() + br.spec_code_off()) as u8,
            SGR::BGColour(None) => 49,
        }
    }

    /// Determine the code number for the SGR parameter
    pub fn code(&self) -> (r: u8)
        ensures
            r == self.spec_code(),
    {
        match self {
            SGR::Reset => 0,
            SGR::Intensity(Some(Intensity::Bold)) => 1,
            SGR::Intensity(Some(Intensity::Faint)) => 2,
            SGR::Intensity(None) => 22,
            SGR::Underline(true) => 4,
            SGR::Underline(false) => 24,
            SGR::Blink(true) => 5,
            SGR::Blink(false) => 25,
            SGR::Strike(true) => 9,
            SGR::Strike(false) => 29,
            SGR::FGColour(Some((col, br))) => 30 + col.code_off() + br.code_off(),
            SGR::FGColour(None) => 39,
            SGR::BGColour(Some((col, br))) => 40 + col.code_off() + br.code_off(),
            SGR::BGColour(None) => 49,
        }
    }

    /// Select a foreground colour of the default brightness
    pub fn foreground(colour: Colour) -> (r: SGR)
        ensures
            r == SGR::FGColour(Some((colour, Brightness::Dark))),
    {
        SGR::FGColour(Some((colour, Brightness::default())))
    }
}

impl From<Intensity> for SGR {
    fn from(intensity: Intensity) -> (r: SGR) {
        SGR::Intensity(Some(intensity))
    }
}

impl FromSpecImpl<Intensity> for SGR {
    open spec fn obeys_from_spec() -> bool {
        true
    }

    open spec fn from_spec(intensity: Intensity) -> SGR {
        SGR::Intensity(Some(intensity))
    }
}

impl From<Option<Intensity>> for SGR {
    fn from(intensity: Option<Intensity>) -> (r: SGR) {
        SGR::Intensity(intensity)
    }
}

impl FromSpecImpl<Option<Intensity>> for SGR {
    open spec fn obeys_from_spec() -> bool {
        true
    }

    open spec fn from_spec(intensity: Option<Intensity>) -> SGR {
        SGR::Intensity(intensity)
    }
}

impl From<Colour> for SGR {
    fn from(colour: Colour) -> (r: SGR) {
        SGR::foreground(colour)
    }
}

impl FromSpecImpl<Colour> for SGR {
    open spec fn obeys_from_spec() -> bool {
        true
    }

    open spec fn from_spec(colour: Colour) -> SGR {
        SGR::FGColour(Some((colour, Brightness::Dark)))
    }
}

impl From<(Colour, Brightness)> for SGR {
    fn from(param: (Colour, Brightness)) -> (r: SGR) {
        SGR::FGColour(Some(param))
    }
}

impl FromSpecImpl<(Colour, Brightness)> for SGR {
    open spec fn obeys_from_spec() -> bool {
        true
    }

    open spec fn from_spec(param: (Colour, Brightness)) -> SGR {
        SGR::FGColour(Some(param))
    }
}

impl From<Option<(Colour, Brightness)>> for SGR {
    fn from(param: Option<(Colour, Brightness)>) -> (r: SGR) {
        SGR::FGColour(param)
    }
}

impl FromSpecImpl<Option<(Colour, Brightness)>> for SGR {
    open spec fn obeys_from_spec() -> bool {
        true
    }

    open spec fn from_spec(param: Option<(Colour, Brightness)>) -> SGR {
        SGR::FGColour(param)
    }
}

/// Representation of a draw command
#[derive(Clone, Debug)]
pub enum DrawCommand {
    /// Clear the entire screen
    ClearScreen,
    /// Set the cursor's position
    ///
    /// The first component denotes the row, the second one the column. Both are
    /// zero-based, meaning that `0` refers to the first row or column.
    SetPos(u16, u16),
    /// Select Graphic Rendition
    Format(SGR),
    /// Put text on the screen at the current cursor position
    Text(String),
    /// Show (or hide) the cursor
    ///
    /// The flag indicates whether the cursor is shown or not.
    ShowCursor(bool),
}

/// The meaning of a draw command, its text taken by its characters
pub enum CommandView {
    ClearScreen,
    SetPos(u16, u16),
    Format(SGR),
    Text(Seq<char>),
    ShowCursor(bool),
}

/// The meaning of a draw command
pub open spec fn command_view(cmd: DrawCommand) -> CommandView {
    match cmd {
        DrawCommand::ClearScreen => CommandView::ClearScreen,
        DrawCommand::SetPos(r, c) => CommandView::SetPos(r, c),
        DrawCommand::Format(p) => CommandView::Format(p),
        DrawCommand::Text(t) => CommandView::Text(t@),
        DrawCommand::ShowCursor(b) => CommandView::ShowCursor(b),
    }
}

/// The meaning of a sequence of draw commands
pub open spec fn commands_view(cmds: Seq<DrawCommand>) -> Seq<CommandView> {
    cmds.map_values(|c: DrawCommand| command_view(c))
}

/// The character a screen shows in a cell, by row and column, given the
/// cells written: a cell never written shows a space
pub open spec fn cell(cells: Map<(int, int), char>, p: (int, int)) -> char {
    if cells.contains_key(p) {
        cells[p]
    } else {
        ' '
    }
}

/// The cells written after putting text at the given position, one character
/// per column to the right
pub open spec fn put_text(cells: Map<(int, int), char>, at: (int, int), text: Seq<char>) -> Map<
    (int, int),
    char,
>
    decreases text.len(),
{
    if text.len() == 0 {
        cells
    } else {
        put_text(cells, at, text.drop_last()).insert((at.0, at.1 + text.len() - 1), text.last())
    }
}

/// The screen, its cells written and its cursor, after a command
///
/// Clearing the screen blanks every cell, setting the position moves the
/// cursor, text is put at the cursor, which moves past it, and other commands
/// leave what the screen shows.
pub open spec fn apply_command(screen: (Map<(int, int), char>, (int, int)), cmd: CommandView) -> (
    Map<(int, int), char>,
    (int, int),
) {
    match cmd {
        CommandView::ClearScreen => (Map::empty(), screen.1),
        CommandView::SetPos(r, c) => (screen.0, (r as int, c as int)),
        CommandView::Text(t) => (put_text(screen.0, screen.1, t), (screen.1.0, screen.1.1 + t.len())),
        _ => screen,
    }
}

/// The screen after the given commands, applied in order
pub open spec fn apply_commands(screen: (Map<(int, int), char>, (int, int)), cmds: Seq<CommandView>) -> (
    Map<(int, int), char>,
    (int, int),
)
    decreases cmds.len(),
{
    if cmds.len() == 0 {
        screen
    } else {
        apply_command(apply_commands(screen, cmds.drop_last()), cmds.last())
    }
}

/// Putting text changes exactly the cells of its row from its position on,
/// as far as it reaches, to its characters.
pub proof fn lemma_put_text(cells: Map<(int, int), char>, at: (int, int), text: Seq<char>)
    ensures
        forall|p: (int, int)| #[trigger]
            cell(put_text(cells, at, text), p) == if p.0 == at.0 && at.1 <= p.1 < at.1 + text.len() {
                text[p.1 - at.1]
            } else {
                cell(cells, p)
            },
    decreases text.len(),
{
    if text.len() > 0 {
        let d = text.drop_last();
        lemma_put_text(cells, at, d);
        let q = (at.0, at.1 + text.len() - 1);
        assert forall|p: (int, int)| #[trigger]
            cell(put_text(cells, at, text), p) == if p.0 == at.0 && at.1 <= p.1 < at.1 + text.len() {
                text[p.1 - at.1]
            } else {
                cell(cells, p)
            } by {
            assert(cell(put_text(cells, at, d), p) == if p.0 == at.0 && at.1 <= p.1 < at.1 + d.len() {
                d[p.1 - at.1]
            } else {
                cell(cells, p)
            });
            if p != q {
                assert(put_text(cells, at, text) == put_text(cells, at, d).insert(q, text.last()));
            }
        }
    }
}

/// Applying two sequences of commands one after the other is applying them
/// joined.
pub proof fn lemma_apply_commands_join(
    screen: (Map<(int, int), char>, (int, int)),
    a: Seq<CommandView>,
    b: Seq<CommandView>,
)
    ensures
        apply_commands(screen, a + b) == apply_commands(apply_commands(screen, a), b),
    decreases b.len(),
{
    if b.len() == 0 {
        assert(a + b =~= a);
    } else {
        lemma_apply_commands_join(screen, a, b.drop_last());
        assert((a + b).drop_last() =~= a + b.drop_last());
    }
}

/// Applying commands applies the first, then the rest.
pub proof fn lemma_apply_commands_first(screen: (Map<(int, int), char>, (int, int)), cmds: Seq<CommandView>)
    requires
        cmds.len() > 0,
    ensures
        apply_commands(screen, cmds) == apply_commands(apply_command(screen, cmds[0]), cmds.drop_first()),
{
    let first = seq![cmds[0]];
    lemma_apply_commands_join(screen, first, cmds.drop_first());
    assert(first + cmds.drop_first() =~= cmds);
    assert(first.drop_last() =~= Seq::<CommandView>::empty());
    assert(apply_commands(screen, first.drop_last()) == screen);
    assert(apply_commands(screen, first) == apply_command(screen, cmds[0]));
}

/// `cmd` puts the given text on the screen
pub open spec fn is_text(cmd: DrawCommand, text: Seq<char>) -> bool {
    cmd matches DrawCommand::Text(t) && t@ == text
}

/// Create a command putting the given text on the screen
pub fn text(s: &str) -> (r: DrawCommand)
    ensures
        is_text(r, s@),
{
    DrawCommand::Text(s.to_owned())
}

/// The escape character
pub open spec fn escape() -> u8 {
    0x1b
}

/// The decimal representation of a number, in ASCII digits
pub open spec fn spec_decimal(n: nat) -> Seq<u8>
    decreases n,
{
    if n < 10 {
        seq![(48 + n) as u8]
    } else {
        spec_decimal(n / 10).push((48 + n % 10) as u8)
    }
}

/// The control sequence introducer followed by the given bytes
pub open spec fn csi(tail: Seq<u8>) -> Seq<u8> {
    seq![escape(), 0x5bu8] + tail
}

/// The ANSI escape sequence, or text, encoding a draw command
pub open spec fn spec_encoding(cmd: DrawCommand) -> Seq<u8> {
    match cmd {
        DrawCommand::ClearScreen => csi(seq![0x32u8, 0x4au8]),
        DrawCommand::SetPos(r, c) => csi(
            spec_decimal((r + 1) as nat) + seq![0x3bu8] + spec_decimal((c + 1) as nat) + seq![0x48u8],
        ),
        DrawCommand::Format(param) => csi(spec_decimal(param.spec_code() as nat) + seq![0x6du8]),
        DrawCommand::Text(s) => encode_utf8(s@),
        DrawCommand::ShowCursor(true) => csi(seq![0x3fu8, 0x32u8, 0x35u8, 0x68u8]),
        DrawCommand::ShowCursor(false) => csi(seq![0x3fu8, 0x32u8, 0x35u8, 0x6cu8]),
    }
}

/// Append the control sequence introducer
fn push_csi(dst: &mut Vec<u8>)
    ensures
        final(dst)@ == old(dst)@ + csi(Seq::empty()),
{
    dst.push(0x1b);
    dst.push(0x5b);
    assert(dst@ =~= old(dst)@ + csi(Seq::empty()));
}

/// Append the decimal representation of a number
fn push_decimal(dst: &mut Vec<u8>, n: u32)
    ensures
        final(dst)@ == old(dst)@ + spec_decimal(n as nat),
    decreases n,
{
    if n >= 10 {
        push_decimal(dst, n / 10);
    }
    let digit = (n % 10) as u8;
    dst.push(48 + digit);
    proof {
        if n < 10 {
            assert(spec_decimal(n as nat) =~= seq![(48 + n) as u8]);
        }
    }
}

/// Encoder for `DrawCommand`s
///
/// This encoder will encode `DrawCommand`s as ANSI escape sequences.
pub struct ANSIEncoder;

impl ANSIEncoder {
    /// Create a new encoder
    pub fn new() -> (r: Self) {
        ANSIEncoder
    }

    /// Encode a draw command, appending the encoding to `dst`
    pub fn encode(&mut self, cmd: &DrawCommand, dst: &mut Vec<u8>)
        ensures
            final(dst)@ == old(dst)@ + spec_encoding(*cmd),
    {
        let ghost start = old(dst)@;
        match cmd {
            DrawCommand::ClearScreen => {
                push_csi(dst);
                dst.push(0x32);
                dst.push(0x4a);
            },
            DrawCommand::SetPos(r, c) => {
                push_csi(dst);
                push_decimal(dst, *r as u32 + 1);
                dst.push(0x3b);
                push_decimal(dst, *c as u32 + 1);
                dst.push(0x48);
            },
            DrawCommand::Format(param) => {
                push_csi(dst);
                push_decimal(dst, param.code() as u32);
                dst.push(0x6d);
            },
            DrawCommand::Text(s) => {
                let bytes = s.as_str().as_bytes();
                let mut i: usize = 0;
                while i < bytes.len()
                    invariant
                        i <= bytes.len(),
                        dst@ == start + bytes@.take(i as int),
                    decreases bytes.len() - i,
                {
                    dst.push(bytes[i]);
                    assert(bytes@.take(i + 1) =~= bytes@.take(i as int).push(bytes[i as int]));
                    i = i + 1;
                }
                assert(bytes@.take(bytes.len() as int) =~= bytes@);
            },
            DrawCommand::ShowCursor(show) => {
                push_csi(dst);
                dst.push(0x3f);
                dst.push(0x32);
                dst.push(0x35);
                if *show {
                    dst.push(0x68);
                } else {
                    dst.push(0x6c);
                }
            },
        }
        assert(dst@ =~= start + spec_encoding(*cmd));
    }
}

} // verus!

//! Static text entity

use vstd::prelude::*;

use vstd::string::StrSliceExecFns;
use vstd::string::StringSliceAdditionalSpecFns;
use vstd::utf8::encode_utf8;

use super::area::{fits_at, Entity, PlacedInit};
use super::commands::{is_text, DrawCommand};

verus! {

/// The text without a trailing carriage return
pub open spec fn without_cr(line: Seq<char>) -> Seq<char> {
    if line.len() > 0 && line.last() == '\r' {
        line.drop_last()
    } else {
        line
    }
}

/// Index of the first line feed in `text` at or after `from`, or its length
pub open spec fn line_end(text: Seq<char>, from: int) -> int
    decreases text.len() - from,
{
    if from >= text.len() || text[from] == '\n' {
        from
    } else {
        line_end(text, from + 1)
    }
}

/// The lines of a text starting at `from`
///
/// Lines are separated by line feeds, a trailing carriage return is removed
/// from each line, and a final line feed does not start another line.
pub open spec fn lines_from(text: Seq<char>, from: int) -> Seq<Seq<char>>
    decreases text.len() + 1 - from,
{
    if from < 0 || from >= text.len() {
        Seq::empty()
    } else {
        let end = line_end(text, from);
        if end < from || end > text.len() {
            Seq::empty()
        } else {
            seq![without_cr(text.subrange(from, end))] + lines_from(text, end + 1)
        }
    }
}

/// A line ends within the text, not before it starts.
pub proof fn lemma_line_end_bounds(text: Seq<char>, from: int)
    requires
        0 <= from <= text.len(),
    ensures
        from <= line_end(text, from) <= text.len(),
        line_end(text, from) < text.len() ==> text[line_end(text, from)] == '\n',
    decreases text.len() - from,
{
    if from < text.len() && text[from] != '\n' {
        lemma_line_end_bounds(text, from + 1);
    }
}

/// The lines of a text
pub open spec fn spec_lines(text: Seq<char>) -> Seq<Seq<char>> {
    lines_from(text, 0)
}

/// Representation of static text to display
///
/// An instance of this type itself is useless unless it is placed in an `Area`.
pub struct StaticText {
    lines: Vec<String>,
}

impl StaticText {
    #[verifier::type_invariant]
    spec fn inv(self) -> bool {
        self.lines.len() <= u16::MAX
    }

    /// The lines to display
    pub closed spec fn spec_lines(&self) -> Seq<Seq<char>> {
        self.lines@.map_values(|l: String| l@)
    }

    /// Create static text from a list of lines
    pub fn from_lines(lines: &Vec<&str>) -> (r: Self)
        requires
            lines.len() <= u16::MAX,
        ensures
            r.spec_lines() == lines@.map_values(|l: &str| l@),
    {
        let mut res: Vec<String> = Vec::new();
        let mut i: usize = 0;
        while i < lines.len()
            invariant
                i <= lines.len(),
                res@.map_values(|l: String| l@) == lines@.take(i as int).map_values(|l: &str| l@),
            decreases lines.len() - i,
        {
            let ghost before = res@;
            res.push(lines[i].to_owned());
            assert(lines@.take(i + 1).map_values(|l: &str| l@) =~= lines@.take(i as int).map_values(
                |l: &str| l@,
            ).push(lines[i as int]@));
            assert(res@.map_values(|l: String| l@) =~= before.map_values(|l: String| l@).push(
                lines[i as int]@,
            ));
            i = i + 1;
        }
        assert(lines@.take(lines.len() as int) =~= lines@);
        StaticText { lines: res }
    }

    /// Create static text from a text, split into lines
    ///
    /// Lines are separated by line feeds. A carriage return at the end of a
    /// line is dropped.
    pub fn from_text(text: &str) -> (r: Self)
        requires
            text@.len() < u16::MAX,
        ensures
            r.spec_lines() == spec_lines(text@),
    {
        let len = text.unicode_len();
        let mut res: Vec<String> = Vec::new();
        let mut start: usize = 0;
        while start < len
            invariant
                len == text@.len(),
                len < u16::MAX,
                start <= len,
                res.len() <= start,
                res@.map_values(|l: String| l@) + lines_from(text@, start as int) == spec_lines(
                    text@,
                ),
            decreases len - start,
        {
            let mut end = start;
            while end < len && text.get_char(end) != '\n'
                invariant
                    start <= end <= len,
                    len == text@.len(),
                    line_end(text@, start as int) == line_end(text@, end as int),
                decreases len - end,
            {
                assert(text@[end as int] != '\n');
                assert(line_end(text@, end as int) == line_end(text@, end + 1));
                end = end + 1;
            }
            proof {
                lemma_line_end_bounds(text@, start as int);
                assert(line_end(text@, end as int) == end);
            }
            let mut line_end_pos = end;
            if line_end_pos > start && text.get_char(line_end_pos - 1) == '\r' {
                line_end_pos = line_end_pos - 1;
            }
            let line = text.substring_char(start, line_end_pos).to_owned();
            let ghost before = res@;
            res.push(line);
            proof {
                assert(line@ == without_cr(text@.subrange(start as int, end as int)));
                assert(res@.map_values(|l: String| l@) =~= before.map_values(|l: String| l@).push(
                    line@,
                ));
                assert(lines_from(text@, start as int) =~= seq![line@] + lines_from(
                    text@,
                    end + 1,
                ));
            }
            start = if end < len {
                end + 1
            } else {
                len
            };
        }
        proof {
            assert(lines_from(text@, start as int) =~= Seq::empty());
            assert(res@.map_values(|l: String| l@) =~= spec_lines(text@));
        }
        StaticText { lines: res }
    }

    /// Retrieve the lines to display
    pub fn lines(&self) -> (r: Vec<String>)
        ensures
            r@.map_values(|l: String| l@) == self.spec_lines(),
    {
        let mut res: Vec<String> = Vec::new();
        let mut i: usize = 0;
        while i < self.lines.len()
            invariant
                i <= self.lines.len(),
                res@.map_values(|l: String| l@) == self.lines@.take(i as int).map_values(
                    |l: String| l@,
                ),
            decreases self.lines.len() - i,
        {
            let ghost before = res@;
            res.push(self.lines[i].clone());
            assert(res@.map_values(|l: String| l@) =~= before.map_values(|l: String| l@).push(
                self.lines[i as int]@,
            ));
            assert(self.lines@.take(i + 1).map_values(|l: String| l@) =~= self.lines@.take(
                i as int,
            ).map_values(|l: String| l@).push(self.lines[i as int]@));
            i = i + 1;
        }
        assert(self.lines@.take(self.lines.len() as int) =~= self.lines@);
        res
    }
}

/// The width of a list of lines: the length of the longest, in bytes
pub open spec fn max_width(widths: Seq<int>) -> int
    decreases widths.len(),
{
    if widths.len() == 0 {
        0
    } else {
        let rest = max_width(widths.drop_last());
        if widths.last() > rest {
            widths.last()
        } else {
            rest
        }
    }
}

impl Entity for StaticText {
    type PlacedEntity = ();

    closed spec fn spec_rows(&self) -> int {
        self.lines.len() as int
    }

    closed spec fn spec_cols(&self) -> int {
        (max_width(self.lines@.map_values(|l: String| (encode_utf8(l@).len() as usize) as int)) as u16) as int
    }

    fn rows(&self) -> (r: u16) {
        proof {
            use_type_invariant(self);
        }
        self.lines.len() as u16
    }

    fn cols(&self) -> (r: u16) {
        let ghost widths = self.lines@.map_values(|l: String| (encode_utf8(l@).len() as usize) as int);
        let mut width: usize = 0;
        let mut i: usize = 0;
        while i < self.lines.len()
            invariant
                i <= self.lines.len(),
                widths == self.lines@.map_values(|l: String| (encode_utf8(l@).len() as usize) as int),
                width == max_width(widths.take(i as int)),
            decreases self.lines.len() - i,
        {
            let line = self.lines[i].as_str();
            let w = line.len();
            assert(line.spec_bytes() == encode_utf8(line@));
            assert(widths.take(i + 1).drop_last() =~= widths.take(i as int));
            assert(widths.take(i + 1).last() == widths[i as int]);
            assert(w == widths[i as int]);
            if w > width {
                width = w;
            }
            i = i + 1;
        }
        assert(widths.take(self.lines.len() as int) =~= widths);
        width as u16
    }

    fn init(&self, pos: (u16, u16)) -> (r: PlacedInit)
        ensures
            r.spec_commands().len() == 2 * self.spec_lines().len(),
            forall|n: int|
                0 <= n < self.spec_lines().len() ==> {
                    &&& #[trigger] r.spec_commands()[2 * n] == DrawCommand::SetPos(
                        (pos.0 + n) as u16,
                        pos.1,
                    )
                    &&& is_text(r.spec_commands()[2 * n + 1], self.spec_lines()[n])
                },
    {
        proof {
            use_type_invariant(self);
        }
        let mut cmds: Vec<DrawCommand> = Vec::new();
        let mut n: usize = 0;
        while n < self.lines.len()
            invariant
                n <= self.lines.len(),
                self.lines.len() <= u16::MAX,
                fits_at(pos, self.spec_rows(), self.spec_cols()),
                cmds.len() == 2 * n,
                forall|k: int|
                    0 <= k < n ==> {
                        &&& #[trigger] cmds[2 * k] == DrawCommand::SetPos((pos.0 + k) as u16, pos.1)
                        &&& is_text(cmds[2 * k + 1], self.lines[k]@)
                    },
            decreases self.lines.len() - n,
        {
            cmds.push(DrawCommand::SetPos(pos.0 + n as u16, pos.1));
            cmds.push(DrawCommand::Text(self.lines[n].clone()));
            n = n + 1;
        }
        PlacedInit::new(cmds)
    }

    fn place(self, pos: (u16, u16)) {
    }
}

} // verus!

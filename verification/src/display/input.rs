//! Line input entity

use vstd::prelude::*;

use super::area::{fits_at, Entity, PlacedInit};
use super::commands::{
    apply_command, apply_commands, cell, command_view, commands_view, is_text, lemma_apply_commands_first,
    lemma_put_text, put_text, text, CommandView, DrawCommand, SGR,
};
use vstd::string::StrSliceExecFns;

verus! {

/// Whether a character is accepted into the value of a line input: a
/// non-control ASCII character
pub open spec fn is_accepted(c: char) -> bool {
    0x20 <= (c as u32) < 0x7f
}

/// The screen shows the value of a line input field placed at `base`, of at
/// most `max_length` characters: its characters from the field's start,
/// followed by the cursor mark `_` if the value is shorter than that
pub open spec fn input_shown(
    cells: Map<(int, int), char>,
    base: (u16, u16),
    value: Seq<char>,
    max_length: int,
) -> bool {
    &&& forall|k: int| 0 <= k < value.len() ==> #[trigger] cell(cells, (base.0 as int, base.1 + k)) == value[k]
    &&& value.len() < max_length ==> cell(cells, (base.0 as int, base.1 + value.len())) == '_'
}

/// Showing a character appended to the value, and the cursor mark after it
/// if there is room, shows the longer value.
proof fn lemma_push_shown(
    screen: (Map<(int, int), char>, (int, int)),
    base: (u16, u16),
    max_length: int,
    value: Seq<char>,
    c: char,
    cmds: Seq<CommandView>,
)
    requires
        input_shown(screen.0, base, value, max_length),
        value.len() < max_length,
        base.1 + max_length <= 0x10000,
        cmds.len() == if value.len() + 1 < max_length { 4int } else { 3int },
        cmds[0] == CommandView::SetPos(base.0, (base.1 + value.len()) as u16),
        cmds[1] == CommandView::Text(seq![c]),
        cmds[2] is Format,
        value.len() + 1 < max_length ==> cmds[3] == CommandView::Text("_"@),
    ensures
        input_shown(apply_commands(screen, cmds).0, base, value.push(c), max_length),
{
    let len = value.len() as int;
    let at = (base.0 as int, base.1 + len);
    let s1 = apply_command(screen, cmds[0]);
    assert(s1 == (screen.0, at));
    lemma_apply_commands_first(screen, cmds);
    let c1 = cmds.drop_first();
    lemma_apply_commands_first(s1, c1);
    let s2 = apply_command(s1, c1[0]);
    assert(s2 == (put_text(screen.0, at, seq![c]), (at.0, at.1 + 1)));
    lemma_put_text(screen.0, at, seq![c]);
    let c2 = c1.drop_first();
    lemma_apply_commands_first(s2, c2);
    assert(apply_command(s2, c2[0]) == s2);
    let c3 = c2.drop_first();
    let v = value.push(c);
    if len + 1 < max_length {
        lemma_apply_commands_first(s2, c3);
        assert(c3.drop_first() =~= Seq::<CommandView>::empty());
        let at2 = (at.0, at.1 + 1);
        assert("_"@.len() == 1 && "_"@[0] == '_') by {
            reveal_strlit("_");
        }
        let s4 = apply_command(s2, c3[0]);
        assert(s4.0 == put_text(s2.0, at2, "_"@));
        lemma_put_text(s2.0, at2, "_"@);
        assert(cell(s4.0, (base.0 as int, base.1 + v.len())) == "_"@[0]);
        assert forall|k: int| 0 <= k < v.len() implies #[trigger] cell(s4.0, (base.0 as int, base.1 + k)) == v[k] by {
            assert(cell(s4.0, (base.0 as int, base.1 + k)) == cell(s2.0, (base.0 as int, base.1 + k)));
            if k < len {
                assert(cell(screen.0, (base.0 as int, base.1 + k)) == value[k]);
            }
        }
    } else {
        assert(c3 =~= Seq::<CommandView>::empty());
        assert forall|k: int| 0 <= k < v.len() implies #[trigger] cell(s2.0, (base.0 as int, base.1 + k)) == v[k] by {
            if k < len {
                assert(cell(screen.0, (base.0 as int, base.1 + k)) == value[k]);
            }
        }
    }
}

/// Showing the cursor mark in place of the last character, and a blank after
/// it if there is room, shows the shorter value.
proof fn lemma_erase_shown(
    screen: (Map<(int, int), char>, (int, int)),
    base: (u16, u16),
    max_length: int,
    value: Seq<char>,
    shorter: Seq<char>,
    cmds: Seq<CommandView>,
)
    requires
        input_shown(screen.0, base, value, max_length),
        value.len() <= max_length,
        shorter == if value.len() > 0 { value.drop_last() } else { value },
        shorter.len() < max_length,
        base.1 + max_length <= 0x10000,
        cmds.len() == if shorter.len() + 1 < max_length { 4int } else { 3int },
        cmds[0] == CommandView::SetPos(base.0, (base.1 + shorter.len()) as u16),
        cmds[1] is Format,
        cmds[2] == CommandView::Text("_"@),
        shorter.len() + 1 < max_length ==> cmds[3] == CommandView::Text(" "@),
    ensures
        input_shown(apply_commands(screen, cmds).0, base, shorter, max_length),
{
    let len = shorter.len() as int;
    let at = (base.0 as int, base.1 + len);
    let s1 = apply_command(screen, cmds[0]);
    assert(s1 == (screen.0, at));
    lemma_apply_commands_first(screen, cmds);
    let c1 = cmds.drop_first();
    lemma_apply_commands_first(s1, c1);
    assert(apply_command(s1, c1[0]) == s1);
    let c2 = c1.drop_first();
    lemma_apply_commands_first(s1, c2);
    assert("_"@.len() == 1 && "_"@[0] == '_') by {
        reveal_strlit("_");
    }
    let s3 = apply_command(s1, c2[0]);
    assert(s3 == (put_text(screen.0, at, "_"@), (at.0, at.1 + 1)));
    lemma_put_text(screen.0, at, "_"@);
    assert(cell(s3.0, at) == "_"@[0]);
    let c3 = c2.drop_first();
    if len + 1 < max_length {
        lemma_apply_commands_first(s3, c3);
        assert(c3.drop_first() =~= Seq::<CommandView>::empty());
        let s4 = apply_command(s3, c3[0]);
        assert(s4.0 == put_text(s3.0, (at.0, at.1 + 1), " "@));
        lemma_put_text(s3.0, (at.0, at.1 + 1), " "@);
        assert(" "@.len() == 1) by {
            reveal_strlit(" ");
        }
        assert(cell(s4.0, at) == cell(s3.0, at));
        assert forall|k: int| 0 <= k < len implies #[trigger] cell(s4.0, (base.0 as int, base.1 + k)) == shorter[k] by {
            assert(cell(s4.0, (base.0 as int, base.1 + k)) == cell(s3.0, (base.0 as int, base.1 + k)));
            assert(cell(screen.0, (base.0 as int, base.1 + k)) == value[k]);
        }
    } else {
        assert(c3 =~= Seq::<CommandView>::empty());
        assert forall|k: int| 0 <= k < len implies #[trigger] cell(s3.0, (base.0 as int, base.1 + k)) == shorter[k] by {
            assert(cell(screen.0, (base.0 as int, base.1 + k)) == value[k]);
        }
    }
}

/// Representation of a line input field
///
/// An instance of this type itself is useless unless it is placed in an `Area`.
#[derive(Copy, Clone, Debug)]
pub struct LineInput {
    max_length: u16,
}

impl LineInput {
    #[verifier::type_invariant]
    spec fn inv(self) -> bool {
        self.max_length > 0
    }

    /// Create a line input field with the given width
    ///
    /// The line input will accept at most `max_length` characters.
    pub fn new(max_length: u16) -> (r: Self)
        requires
            max_length > 0,
        ensures
            r.spec_cols() == max_length,
    {
        LineInput { max_length }
    }
}

impl Entity for LineInput {
    type PlacedEntity = InputUpdater;

    open spec fn spec_rows(&self) -> int {
        1
    }

    closed spec fn spec_cols(&self) -> int {
        self.max_length as int
    }

    fn rows(&self) -> (r: u16) {
        1
    }

    fn cols(&self) -> (r: u16) {
        self.max_length
    }

    fn init(&self, pos: (u16, u16)) -> (r: PlacedInit)
        ensures
            r.spec_commands().len() == 3,
            r.spec_commands()[0] == DrawCommand::SetPos(pos.0, pos.1),
            r.spec_commands()[1] == DrawCommand::Format(SGR::Blink(true)),
            is_text(r.spec_commands()[2], "_"@),
            forall|screen: (Map<(int, int), char>, (int, int))| #[trigger]
                input_shown(apply_commands(screen, commands_view(r.spec_commands())).0, pos, Seq::empty(), self.spec_cols()),
    {
        let mut cmds: Vec<DrawCommand> = Vec::new();
        cmds.push(DrawCommand::SetPos(pos.0, pos.1));
        cmds.push(DrawCommand::Format(SGR::Blink(true)));
        cmds.push(text("_"));
        proof {
            let v = commands_view(cmds@);
            assert("_"@.len() == 1 && "_"@[0] == '_') by {
                reveal_strlit("_");
            }
            assert forall|screen: (Map<(int, int), char>, (int, int))| #[trigger]
                input_shown(apply_commands(screen, v).0, pos, Seq::empty(), self.spec_cols()) by {
                let at = (pos.0 as int, pos.1 as int);
                lemma_apply_commands_first(screen, v);
                let s1 = apply_command(screen, v[0]);
                assert(s1 == (screen.0, at));
                let c1 = v.drop_first();
                lemma_apply_commands_first(s1, c1);
                let c2 = c1.drop_first();
                lemma_apply_commands_first(s1, c2);
                assert(c2.drop_first() =~= Seq::<CommandView>::empty());
                lemma_put_text(screen.0, at, "_"@);
                assert(cell(apply_commands(screen, v).0, at) == "_"@[0]);
            }
        }
        PlacedInit::new(cmds)
    }

    fn place(self, pos: (u16, u16)) -> (r: InputUpdater)
        ensures
            r.spec_base() == pos,
            r.spec_max_length() == self.spec_cols(),
            r.spec_value().len() == 0,
    {
        proof {
            use_type_invariant(&self);
        }
        InputUpdater {
            base_row: pos.0,
            base_col: pos.1,
            max_length: self.max_length,
            value: String::new(),
        }
    }
}

/// Handle for updating a line input field
pub struct InputUpdater {
    base_row: u16,
    base_col: u16,
    max_length: u16,
    value: String,
}

impl InputUpdater {
    #[verifier::type_invariant]
    spec fn inv(self) -> bool {
        &&& self.max_length > 0
        &&& fits_at((self.base_row, self.base_col), 1, self.max_length as int)
        &&& self.value@.len() <= self.max_length
        &&& forall|i: int| 0 <= i < self.value@.len() ==> is_accepted(#[trigger] self.value@[i])
    }

    /// The topmost row and leftmost column of the input field
    pub closed spec fn spec_base(&self) -> (u16, u16) {
        (self.base_row, self.base_col)
    }

    /// The maximum number of characters accepted
    pub closed spec fn spec_max_length(&self) -> int {
        self.max_length as int
    }

    /// The current value
    pub closed spec fn spec_value(&self) -> Seq<char> {
        self.value@
    }

    /// The cursor positioned at the given column of the field
    pub open spec fn cursor_at(&self, col: int) -> DrawCommand {
        DrawCommand::SetPos(self.spec_base().0, (self.spec_base().1 + col) as u16)
    }

    /// Update the field with a given input character
    ///
    /// The function will update both the internal value and the representation
    /// from the given `input`. Only non-control ASCII characters are accepted
    /// into the value, as long as it is shorter than the maximum length.
    /// However, a backspace character will remove the last character from the
    /// value.
    ///
    /// A new line (`0x0A`) or carriage return (`0x0D`) will cause the function
    /// to return the current value. Otherwise, the returned value is `None`.
    /// The function also returns the draw commands updating the display: a
    /// screen showing the value before shows the value after them.
    pub fn update(&mut self, input: char) -> (r: (Vec<DrawCommand>, Option<String>))
        ensures
            final(self).spec_base() == old(self).spec_base(),
            final(self).spec_max_length() == old(self).spec_max_length(),
            final(self).spec_value().len() <= final(self).spec_max_length(),
            forall|i: int|
                0 <= i < final(self).spec_value().len() ==> is_accepted(
                    #[trigger] final(self).spec_value()[i],
                ),
            r.1 is Some ==> input == '\n' || input == '\r',
            forall|screen: (Map<(int, int), char>, (int, int))|
                input_shown(
                    screen.0,
                    old(self).spec_base(),
                    old(self).spec_value(),
                    old(self).spec_max_length(),
                ) ==> #[trigger] input_shown(
                    apply_commands(screen, commands_view(r.0@)).0,
                    final(self).spec_base(),
                    final(self).spec_value(),
                    final(self).spec_max_length(),
                ),
            input == '\n' || input == '\r' ==> {
                &&& r.1 matches Some(v) && v@ == old(self).spec_value()
                &&& final(self).spec_value() == old(self).spec_value()
                &&& r.0.len() == 0
            },
            input == '\x08' ==> {
                let len = final(self).spec_value().len() as int;
                &&& r.1 is None
                &&& final(self).spec_value() == if old(self).spec_value().len() > 0 {
                    old(self).spec_value().drop_last()
                } else {
                    old(self).spec_value()
                }
                &&& r.0.len() == if len + 1 < old(self).spec_max_length() {
                    4int
                } else {
                    3int
                }
                &&& r.0[0] == old(self).cursor_at(len)
                &&& r.0[1] == DrawCommand::Format(SGR::Blink(true))
                &&& is_text(r.0[2], "_"@)
                &&& len + 1 < old(self).spec_max_length() ==> is_text(r.0[3], " "@)
            },
            is_accepted(input) ==> {
                let len = old(self).spec_value().len() as int;
                &&& r.1 is None
                &&& len < old(self).spec_max_length() ==> {
                    &&& final(self).spec_value() == old(self).spec_value().push(input)
                    &&& r.0.len() == if len + 1 < old(self).spec_max_length() {
                        4int
                    } else {
                        3int
                    }
                    &&& r.0[0] == old(self).cursor_at(len)
                    &&& is_text(r.0[1], seq![input])
                    &&& r.0[2] == DrawCommand::Format(SGR::Blink(true))
                    &&& len + 1 < old(self).spec_max_length() ==> is_text(r.0[3], "_"@)
                }
                &&& len >= old(self).spec_max_length() ==> {
                    &&& final(self).spec_value() == old(self).spec_value()
                    &&& r.0.len() == 0
                }
            },
            !(input == '\n' || input == '\r' || input == '\x08' || is_accepted(input)) ==> {
                &&& r.1 is None
                &&& final(self).spec_value() == old(self).spec_value()
                &&& r.0.len() == 0
            },
    {
        proof {
            use_type_invariant(&*self);
        }
        let ghost before = self.value@;
        let ghost base = (self.base_row, self.base_col);
        let ghost max = self.max_length as int;
        let mut cmds: Vec<DrawCommand> = Vec::new();
        if input == '\n' || input == '\r' {
            proof {
                assert(commands_view(cmds@) =~= Seq::<CommandView>::empty());
            }
            return (cmds, Some(self.value.clone()));
        }
        let code = input as u32;
        if input == '\x08' {
            let mut value = String::new();
            std::mem::swap(&mut value, &mut self.value);
            value.pop();
            let len = value.as_str().unicode_len() as u16;
            self.value = value;
            cmds.push(DrawCommand::SetPos(self.base_row, self.base_col + len));
            cmds.push(DrawCommand::Format(SGR::Blink(true)));
            cmds.push(text("_"));
            if len + 1 < self.max_length {
                cmds.push(text(" "));
            }
            proof {
                let v = commands_view(cmds@);
                assert forall|screen: (Map<(int, int), char>, (int, int))|
                    input_shown(screen.0, base, before, max) implies #[trigger] input_shown(
                        apply_commands(screen, v).0,
                        base,
                        self.value@,
                        max,
                    ) by {
                    lemma_erase_shown(screen, base, max, before, self.value@, v);
                }
            }
        } else if 0x20 <= code && code < 0x7f {
            let old_len = self.value.as_str().unicode_len() as u16;
            if old_len < self.max_length {
                let mut value = String::new();
                std::mem::swap(&mut value, &mut self.value);
                value.push(input);
                self.value = value;
                let mut shown = String::new();
                shown.push(input);
                cmds.push(DrawCommand::SetPos(self.base_row, self.base_col + old_len));
                cmds.push(DrawCommand::Text(shown));
                cmds.push(DrawCommand::Format(SGR::Blink(true)));
                if old_len + 1 < self.max_length {
                    cmds.push(text("_"));
                }
                proof {
                    let v = commands_view(cmds@);
                    assert forall|screen: (Map<(int, int), char>, (int, int))|
                        input_shown(screen.0, base, before, max) implies #[trigger] input_shown(
                            apply_commands(screen, v).0,
                            base,
                            self.value@,
                            max,
                        ) by {
                        lemma_push_shown(screen, base, max, before, input, v);
                    }
                }
            }
        }
        proof {
            if cmds.len() == 0 {
                assert(commands_view(cmds@) =~= Seq::<CommandView>::empty());
            }
        }
        proof {
            use_type_invariant(&*self);
        }
        (cmds, None)
    }

    /// Clear the input field
    ///
    /// This function clears the internal value and returns the draw commands
    /// clearing its display as well as the previous value.
    pub fn clear(&mut self) -> (r: (Vec<DrawCommand>, String))
        ensures
            final(self).spec_base() == old(self).spec_base(),
            final(self).spec_max_length() == old(self).spec_max_length(),
            final(self).spec_value().len() == 0,
            r.1@ == old(self).spec_value(),
            r.0.len() == 4 + old(self).spec_max_length(),
            r.0[0] == old(self).cursor_at(0),
            r.0[1] == DrawCommand::Format(SGR::Blink(true)),
            is_text(r.0[2], "_"@),
            r.0[3] == DrawCommand::Format(SGR::Blink(false)),
            forall|k: int|
                4 <= k < 4 + old(self).spec_max_length() ==> #[trigger] is_text(r.0[k], " "@),
    {
        proof {
            use_type_invariant(&*self);
        }
        let mut cmds: Vec<DrawCommand> = Vec::new();
        cmds.push(DrawCommand::SetPos(self.base_row, self.base_col));
        cmds.push(DrawCommand::Format(SGR::Blink(true)));
        cmds.push(text("_"));
        cmds.push(DrawCommand::Format(SGR::Blink(false)));
        let mut k: u16 = 0;
        while k < self.max_length
            invariant
                k <= self.max_length,
                cmds.len() == 4 + k,
                cmds[0] == DrawCommand::SetPos(self.base_row, self.base_col),
                cmds[1] == DrawCommand::Format(SGR::Blink(true)),
                is_text(cmds[2], "_"@),
                cmds[3] == DrawCommand::Format(SGR::Blink(false)),
                forall|j: int| 4 <= j < 4 + k ==> #[trigger] is_text(cmds[j], " "@),
            decreases self.max_length - k,
        {
            cmds.push(text(" "));
            k = k + 1;
        }
        let mut value = String::new();
        std::mem::swap(&mut value, &mut self.value);
        (cmds, value)
    }

    /// Retrieve the current value
    ///
    /// The value holds at most the maximum number of characters, all of them
    /// printable ASCII characters or spaces.
    pub fn value(&self) -> (r: &str)
        ensures
            r@ == self.spec_value(),
            r@.len() <= self.spec_max_length(),
            forall|i: int| 0 <= i < r@.len() ==> is_accepted(#[trigger] r@[i]),
    {
        proof {
            use_type_invariant(self);
        }
        self.value.as_str()
    }
}

} // verus!

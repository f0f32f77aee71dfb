use dr_w_falls::display::area::{Area, Entity};
use dr_w_falls::display::commands::{ANSIEncoder, Brightness, Colour, DrawCommand, Intensity, SGR};
use dr_w_falls::display::dynamic_text::DynamicText;
use dr_w_falls::display::field::{PlayField, VirusSym};
use dr_w_falls::display::input::LineInput;
use dr_w_falls::display::scores::{EntryDetails, ScoreBoard};
use dr_w_falls::display::static_text::StaticText;
use dr_w_falls::display::text::{center, decimal, pad_left, pad_right};
use dr_w_falls::util::{self, position};

fn encode(cmds: &[DrawCommand]) -> String {
    let mut encoder = ANSIEncoder::new();
    let mut bytes = Vec::new();
    for cmd in cmds {
        encoder.encode(cmd, &mut bytes);
    }
    String::from_utf8(bytes).unwrap()
}

fn texts(cmds: &[DrawCommand]) -> String {
    cmds.iter()
        .filter_map(|c| match c {
            DrawCommand::Text(t) => Some(t.clone()),
            _ => None,
        })
        .collect()
}

#[test]
fn sgr_codes() {
    assert_eq!(SGR::Reset.code(), 0);
    assert_eq!(SGR::Intensity(Some(Intensity::Bold)).code(), 1);
    assert_eq!(SGR::Intensity(None).code(), 22);
    assert_eq!(SGR::Blink(true).code(), 5);
    assert_eq!(SGR::Strike(false).code(), 29);
    assert_eq!(SGR::FGColour(Some((Colour::Red, Brightness::Dark))).code(), 31);
    assert_eq!(SGR::BGColour(Some((Colour::Blue, Brightness::Light))).code(), 104);
    assert_eq!(SGR::FGColour(None).code(), 39);
    assert_eq!(SGR::from(Colour::Yellow).code(), 33);
    assert_eq!(SGR::from((Colour::White, Brightness::Light)).code(), 97);
    assert_eq!(Colour::from(util::Colour::Blue).code_off(), 4);
    assert_eq!(Brightness::default().code_off(), 0);
}

#[test]
fn ansi_encoding() {
    assert_eq!(encode(&[DrawCommand::ClearScreen]), "\x1b[2J");
    assert_eq!(encode(&[DrawCommand::SetPos(0, 9)]), "\x1b[1;10H");
    assert_eq!(encode(&[DrawCommand::SetPos(122, 3)]), "\x1b[123;4H");
    assert_eq!(encode(&[DrawCommand::Format(SGR::Blink(true))]), "\x1b[5m");
    assert_eq!(encode(&[DrawCommand::Text("héllo".to_string())]), "héllo");
    assert_eq!(encode(&[DrawCommand::ShowCursor(true), DrawCommand::ShowCursor(false)]), "\x1b[?25h\x1b[?25l");
}

#[test]
fn area_geometry() {
    let mut area = Area::new(24, 80);
    assert_eq!((area.rows(), area.cols()), (24, 80));
    let top = area.split_top(5);
    assert_eq!((top.rows(), area.rows()), (5, 19));
    let left = area.split_left(100);
    assert_eq!((left.cols(), area.cols()), (80, 0));
    let padded = Area::new(24, 80).pad_top(30);
    assert_eq!(padded.rows(), 0);
    let padded = Area::new(24, 80).pad_bottom(4).pad_left(10).pad_right(10);
    assert_eq!((padded.rows(), padded.cols()), (20, 60));
    assert_eq!(Area::new(24, 80).center(4, 10), Some((10, 35)));
    assert_eq!(Area::new(24, 80).center(25, 10), None);
}

#[test]
fn play_field_outline() {
    let field = PlayField::new();
    assert_eq!((field.rows(), field.cols()), (19, 18));
    let init = field.init((1, 2)).commands();
    assert_eq!(init.len(), 70);
    assert!(matches!(init[0], DrawCommand::SetPos(1, 8)));
    assert!(matches!(&init[1], DrawCommand::Text(t) if t == "\\    /"));
    assert!(matches!(&init[69], DrawCommand::Text(t) if t == "\\________________/"));
    let updater = field.place((1, 2));
    let cmds = updater.update(&vec![(position(0, 0), Some(util::Colour::Red)), (position(3, 2), None)]);
    assert_eq!(cmds.len(), 5);
    assert!(matches!(cmds[0], DrawCommand::SetPos(3, 3)));
    assert!(matches!(&cmds[2], DrawCommand::Text(t) if t == "()"));
    assert!(matches!(cmds[3], DrawCommand::SetPos(6, 7)));
    assert!(matches!(&cmds[4], DrawCommand::Text(t) if t == "  "));
    let next = updater.place_next_elements(&[util::Colour::Red, util::Colour::Blue]);
    assert!(matches!(next[0], DrawCommand::SetPos(2, 9)));
    let viruses = updater.place_viruses(&vec![(position(10, 1), util::Colour::Yellow)], VirusSym::default());
    assert_eq!(texts(&viruses), "><");
    assert_eq!(VirusSym::A.flipped(), VirusSym::B);
    assert_eq!(VirusSym::B.symbol(), "--");
}

#[test]
fn static_text_lines() {
    let text = StaticText::from_text("first\r\nsecond\n\nlast\n");
    assert_eq!(text.lines(), vec!["first", "second", "", "last"]);
    assert_eq!((text.rows(), text.cols()), (4, 6));
    let init = text.init((3, 4)).commands();
    assert_eq!(init.len(), 8);
    assert!(matches!(init[2], DrawCommand::SetPos(4, 4)));
    let from_lines = StaticText::from_lines(&vec!["a", "bcd"]);
    assert_eq!(from_lines.lines(), vec!["a", "bcd"]);
}

#[test]
fn dynamic_text_updates() {
    let text = DynamicText::new(2, 6);
    assert_eq!((text.rows(), text.cols()), (2, 6));
    assert!(text.init((0, 0)).commands().is_empty());
    let updater = text.place((5, 1));
    let cmds = updater.update(&vec!["ab".to_string()]);
    assert_eq!(cmds.len(), 2 + 7);
    assert!(matches!(&cmds[1], DrawCommand::Text(t) if t == "  ab  "));
    assert!(matches!(cmds[2], DrawCommand::SetPos(6, 1)));
    assert_eq!(updater.clear().len(), 14);
    assert_eq!(updater.update_single("toolongline".to_string()).len(), 9);
    let single = DynamicText::new_line(4).place((0, 0));
    assert!(matches!(&single.update_single("x".to_string())[1], DrawCommand::Text(t) if t == " x  "));
}

#[test]
fn line_input_editing() {
    let input = LineInput::new(3);
    assert_eq!((input.rows(), input.cols()), (1, 3));
    let mut updater = input.place((2, 10));
    let (cmds, value) = updater.update('a');
    assert!(value.is_none());
    assert_eq!(cmds.len(), 4);
    assert!(matches!(cmds[0], DrawCommand::SetPos(2, 10)));
    updater.update('b');
    let (cmds, _) = updater.update('c');
    assert_eq!(cmds.len(), 3);
    let (cmds, _) = updater.update('d');
    assert!(cmds.is_empty());
    assert_eq!(updater.value(), "abc");
    let (cmds, _) = updater.update('\x08');
    assert_eq!(updater.value(), "ab");
    assert_eq!(cmds.len(), 3);
    let (_, value) = updater.update('\r');
    assert_eq!(value.as_deref(), Some("ab"));
    let (cmds, _) = updater.update('\x07');
    assert!(cmds.is_empty());
    let (cmds, old) = updater.clear();
    assert_eq!(old, "ab");
    assert_eq!(cmds.len(), 7);
    assert_eq!(updater.value(), "");
}

#[test]
fn score_board_updates() {
    let board = ScoreBoard::new(3);
    assert_eq!((board.rows(), board.cols()), (4, 40));
    let heading = board.init((0, 40)).commands();
    assert_eq!(texts(&heading), "PlayerTotalRound");
    let quiet = ScoreBoard::new(3).show_scores(false);
    assert_eq!(texts(&quiet.init((0, 0)).commands()), "Player");
    let mut updater = board.place((1, 40));
    let alice = EntryDetails { name: "alice".to_string(), total_score: 12, round_score: 3, connected: true, active: true };
    let bob = EntryDetails { name: "bob".to_string(), total_score: 0, round_score: 7, connected: false, active: true };
    let cmds = updater.update(&vec![(alice.clone(), true), (bob.clone(), false)]);
    assert_eq!(cmds.len(), 10);
    assert!(matches!(cmds[0], DrawCommand::SetPos(2, 40)));
    assert!(matches!(cmds[1], DrawCommand::Format(SGR::Intensity(Some(Intensity::Bold)))));
    assert!(matches!(&cmds[3], DrawCommand::Text(t) if t == "  1 alice               "));
    assert!(matches!(&cmds[4], DrawCommand::Text(t) if t == "      12       3"));
    assert!(matches!(cmds[6], DrawCommand::Format(SGR::Intensity(Some(Intensity::Faint)))));
    assert!(matches!(cmds[7], DrawCommand::Format(SGR::Strike(true))));
    let again = updater.update(&vec![(alice.clone(), true), (bob, false)]);
    assert!(again.is_empty());
    let fewer = updater.update(&vec![(alice, true)]);
    assert_eq!(fewer.len(), 41);
    assert!(matches!(fewer[0], DrawCommand::SetPos(3, 40)));
}

#[test]
fn text_formatting() {
    assert_eq!(decimal(0), "0");
    assert_eq!(decimal(4096), "4096");
    assert_eq!(pad_left("7", 3), "  7");
    assert_eq!(pad_right("ab", 4), "ab  ");
    assert_eq!(center("ab", 5), " ab  ");
    assert_eq!(center("abcdef", 3), "abcdef");
}

/// The characters a screen shows after the given commands, starting blank
fn screen_rows(cmds: &[DrawCommand], rows: std::ops::Range<u16>, col: u16, width: u16) -> Vec<String> {
    let mut cells = std::collections::HashMap::new();
    let mut cursor = (0u16, 0u16);
    for cmd in cmds {
        match cmd {
            DrawCommand::ClearScreen => cells.clear(),
            DrawCommand::SetPos(r, c) => cursor = (*r, *c),
            DrawCommand::Text(t) => {
                for ch in t.chars() {
                    cells.insert(cursor, ch);
                    cursor.1 += 1;
                }
            }
            _ => {}
        }
    }
    rows.map(|r| (col..col + width).map(|c| *cells.get(&(r, c)).unwrap_or(&' ')).collect()).collect()
}

#[test]
fn score_board_screen_after_updates() {
    let board = ScoreBoard::new(3);
    let mut cmds = board.init((5, 2)).commands();
    let mut updater = board.place((5, 2));
    let entry = |name: &str, total: u32, round: u32| EntryDetails {
        name: name.to_string(),
        total_score: total,
        round_score: round,
        connected: true,
        active: true,
    };
    let first = vec![(entry("ann", 4, 9), false), (entry("ben", 1, 2), false), (entry("cy", 0, 5), false)];
    cmds.extend(updater.update(&first));
    let second = vec![(entry("ben", 1, 0), false), (entry("ann", 13, 9), false)];
    cmds.extend(updater.update(&second));
    let shown = screen_rows(&cmds, 6..9, 2, 40);
    assert_eq!(shown[0], "  1 ben                        1       0");
    assert_eq!(shown[1], "  2 ann                       13       9");
    assert_eq!(shown[2], " ".repeat(40));
    assert_eq!(screen_rows(&cmds, 5..6, 2, 40)[0], "    Player              Total   Round   ");
}

#[test]
fn score_board_screen_without_scores() {
    let board = ScoreBoard::new(2).show_scores(false);
    let mut updater = board.place((0, 0));
    let entry = |name: &str| EntryDetails {
        name: name.to_string(),
        total_score: 7,
        round_score: 7,
        connected: true,
        active: false,
    };
    let mut cmds = updater.update(&vec![(entry("dee"), false), (entry("eve"), true), (entry("fay"), false)]);
    cmds.extend(updater.update(&vec![(entry("eve"), true)]));
    let shown = screen_rows(&cmds, 1..3, 0, 40);
    assert_eq!(shown[0], "  1 eve                                 ");
    assert_eq!(shown[1], " ".repeat(40));
}

#[test]
fn line_input_value_stays_printable_and_bounded() {
    let mut updater = LineInput::new(4).place((0, 0));
    for b in 0u8..=255 {
        let (_, value) = updater.update(b as char);
        assert!(updater.value().chars().count() <= 4);
        assert!(updater.value().chars().all(|c| (' '..='~').contains(&c)));
        assert_eq!(value.is_some(), b == 0x0a || b == 0x0d);
    }
    assert_eq!(updater.value(), " !\"#");
}

use dr_w_falls::console::{parse_command, split_line, Command, Property};

fn words(line: &str) -> Vec<String> {
    split_line(line).into_iter().map(|w| w.into_iter().collect()).collect()
}

#[test]
fn splitting_into_words() {
    assert_eq!(words("  set\tvirs   12 \n"), vec!["set", "virs", "12"]);
    assert_eq!(words(""), Vec::<String>::new());
    assert_eq!(words(" \t "), Vec::<String>::new());
    assert_eq!(words("players"), vec!["players"]);
}

#[test]
fn commands_without_arguments() {
    assert_eq!(parse_command("players"), Some(Command::Players));
    assert_eq!(parse_command("status"), Some(Command::Status));
    assert_eq!(parse_command("  start  "), Some(Command::Start));
    assert_eq!(parse_command("end\n"), Some(Command::End));
    assert_eq!(parse_command("players now"), None);
    assert_eq!(parse_command("start 1"), None);
}

#[test]
fn accept_flags() {
    assert_eq!(parse_command("accept"), Some(Command::Accept(true)));
    assert_eq!(parse_command("accept t"), Some(Command::Accept(true)));
    assert_eq!(parse_command("accept true"), Some(Command::Accept(true)));
    assert_eq!(parse_command("accept f"), Some(Command::Accept(false)));
    assert_eq!(parse_command("accept false"), Some(Command::Accept(false)));
    assert_eq!(parse_command("accept maybe"), None);
    assert_eq!(parse_command("accept true false"), None);
}

#[test]
fn numeric_arguments() {
    assert_eq!(parse_command("restrict 4"), Some(Command::Restrict(4)));
    assert_eq!(parse_command("restrict 255"), Some(Command::Restrict(255)));
    assert_eq!(parse_command("restrict 256"), None);
    assert_eq!(parse_command("restrict -1"), None);
    assert_eq!(parse_command("restrict"), None);
    assert_eq!(parse_command("kick 0"), Some(Command::Kick(0)));
    assert_eq!(parse_command("kick 4294967295"), Some(Command::Kick(u32::MAX)));
    assert_eq!(parse_command("kick 4294967296"), None);
    assert_eq!(parse_command("kick 99999999999999999999999"), None);
    assert_eq!(parse_command("kick 1x"), None);
}

#[test]
fn settings_commands() {
    assert_eq!(parse_command("set virs 12"), Some(Command::SetVirs(12)));
    assert_eq!(parse_command("set virs 300"), None);
    assert_eq!(parse_command("set tick 5"), Some(Command::SetTick(5)));
    assert_eq!(parse_command("set speed 5"), None);
    assert_eq!(parse_command("set tick"), None);
    assert_eq!(parse_command("get virs"), Some(Command::Get(Property::Virs)));
    assert_eq!(parse_command("get tick"), Some(Command::Get(Property::Tick)));
    assert_eq!(parse_command("get"), None);
}

#[test]
fn unknown_commands() {
    assert_eq!(parse_command(""), None);
    assert_eq!(parse_command("Players"), None);
    assert_eq!(parse_command("quit"), None);
}

use procview::command::{parse_command, Command, UserInputError};

#[test]
fn bare_words_parse_to_their_commands() {
    assert_eq!(parse_command("help"), Ok(Command::Help));
    assert_eq!(parse_command("ps"), Ok(Command::ListProcesses));
    assert_eq!(parse_command("quit"), Ok(Command::Quit));
    assert_eq!(parse_command("exit"), Ok(Command::Quit));
}

#[test]
fn input_is_trimmed_before_parsing() {
    assert_eq!(parse_command("  quit  "), Ok(Command::Quit));
    assert_eq!(parse_command("\tps\n"), Ok(Command::ListProcesses));
}

#[test]
fn unknown_words_parse_to_unknown() {
    assert_eq!(parse_command("foo"), Ok(Command::Unknown));
    assert_eq!(parse_command(""), Ok(Command::Unknown));
    assert_eq!(parse_command("pst"), Ok(Command::Unknown));
    assert_eq!(parse_command("help me"), Ok(Command::Unknown));
}

#[test]
fn pid_commands_take_one_pid() {
    assert_eq!(parse_command("pst 12"), Ok(Command::ListThreads(12)));
    assert_eq!(parse_command("lm 1"), Ok(Command::ListModules(1)));
    assert_eq!(parse_command("xp 5"), Ok(Command::ListExecRegions(5)));
}

#[test]
fn pid_commands_reject_wrong_argument_counts() {
    assert_eq!(parse_command("pst 1 2"), Err(UserInputError::PstUsage));
    assert_eq!(parse_command("pst  1"), Err(UserInputError::PstUsage));
    assert_eq!(parse_command("lm 1 2"), Err(UserInputError::LmUsage));
    assert_eq!(parse_command("xp 1 2"), Err(UserInputError::XpUsage));
    assert_eq!(parse_command("xp "), Ok(Command::Unknown));
}

#[test]
fn pid_commands_reject_a_malformed_pid() {
    assert_eq!(parse_command("pst ab"), Err(UserInputError::BadPid));
    assert_eq!(parse_command("lm -1"), Err(UserInputError::BadPid));
    assert_eq!(parse_command("xp 99999999999"), Err(UserInputError::BadPid));
}

#[test]
fn memx_takes_a_pid_and_an_ordinal() {
    assert_eq!(parse_command("memx 5 2"), Ok(Command::ViewAtOrdinal(5, 2)));
    assert_eq!(parse_command("memx 5"), Err(UserInputError::MemxUsage));
    assert_eq!(parse_command("memx 5 2 3"), Err(UserInputError::MemxUsage));
    assert_eq!(parse_command("memx a 0"), Err(UserInputError::BadPidOrOrdinal));
    assert_eq!(parse_command("memx 5 x"), Err(UserInputError::BadPidOrOrdinal));
}

#[test]
fn mem_takes_a_pid_and_a_hex_address() {
    assert_eq!(
        parse_command("mem 5 DEADBEEF"),
        Ok(Command::ViewAtAddress(5, 0xDEAD_BEEF))
    );
    assert_eq!(
        parse_command("mem 5 00000000000010a0"),
        Ok(Command::ViewAtAddress(5, 0x10A0))
    );
    assert_eq!(parse_command("mem 5"), Err(UserInputError::MemUsage));
    assert_eq!(parse_command("mem 5 123"), Err(UserInputError::BadPidOrAddress));
    assert_eq!(parse_command("mem 5 xyz"), Err(UserInputError::BadPidOrAddress));
    assert_eq!(parse_command("mem x 10"), Err(UserInputError::BadPidOrAddress));
}

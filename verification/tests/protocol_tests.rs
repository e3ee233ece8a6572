use word_chain::DecodeError;
use word_chain::ServerMessage;
use word_chain::UserCommand;

#[test]
fn parse_guess_command() {
    let cmd = UserCommand::parse_line("guess tiger");
    assert_eq!(cmd, Ok(UserCommand::Guess { guess: "tiger".to_string() }));
}

#[test]
fn parse_guess_command_extra_whitespace() {
    let cmd = UserCommand::parse_line("  guess \t tiger \n");
    assert_eq!(cmd, Ok(UserCommand::Guess { guess: "tiger".to_string() }));
}

#[test]
fn parse_exit_command() {
    assert_eq!(UserCommand::parse_line("exit"), Ok(UserCommand::Exit));
    assert_eq!(UserCommand::parse_line("  exit  "), Ok(UserCommand::Exit));
}

#[test]
fn parse_empty_command() {
    assert_eq!(UserCommand::parse_line(""), Err(DecodeError::EmptyInput));
    assert_eq!(UserCommand::parse_line("   \t "), Err(DecodeError::EmptyInput));
}

#[test]
fn parse_unknown_command() {
    assert_eq!(UserCommand::parse_line("launch"), Err(DecodeError::UnknownCommand));
    assert_eq!(UserCommand::parse_line("guess"), Err(DecodeError::UnknownCommand));
    assert_eq!(UserCommand::parse_line("guess a b"), Err(DecodeError::UnknownCommand));
    assert_eq!(UserCommand::parse_line("exit now"), Err(DecodeError::UnknownCommand));
}

#[test]
fn parse_server_messages() {
    assert_eq!(
        ServerMessage::parse_line("update tap"),
        Ok(ServerMessage::Update { new_riddle: "tap".to_string() })
    );
    assert_eq!(ServerMessage::parse_line("accept"), Ok(ServerMessage::Accepted));
    assert_eq!(ServerMessage::parse_line("reject"), Ok(ServerMessage::Rejected));
    assert_eq!(ServerMessage::parse_line("close"), Ok(ServerMessage::Close));
    assert_eq!(ServerMessage::parse_line("accept\n"), Ok(ServerMessage::Accepted));
    assert_eq!(ServerMessage::parse_line("reject\n"), Ok(ServerMessage::Rejected));
}

#[test]
fn parse_server_message_errors() {
    assert_eq!(ServerMessage::parse_line(""), Err(DecodeError::EmptyInput));
    assert_eq!(ServerMessage::parse_line("update"), Err(DecodeError::UnknownCommand));
    assert_eq!(ServerMessage::parse_line("update a b"), Err(DecodeError::UnknownCommand));
    assert_eq!(ServerMessage::parse_line("pong"), Err(DecodeError::UnknownCommand));
    assert_eq!(ServerMessage::parse_line("accepted"), Err(DecodeError::UnknownCommand));
    assert_eq!(ServerMessage::parse_line("rejected"), Err(DecodeError::UnknownCommand));
}

#[test]
fn render_user_commands() {
    let guess = UserCommand::Guess { guess: "tap".to_string() };
    assert_eq!(guess.render_line(), "guess tap\n");
    assert_eq!(UserCommand::Exit.render_line(), "exit\n");
}

#[test]
fn server_message_round_trip() {
    for msg in [
        ServerMessage::Update { new_riddle: "tap".to_string() },
        ServerMessage::Accepted,
        ServerMessage::Rejected,
        ServerMessage::Close,
    ] {
        assert_eq!(ServerMessage::parse_line(&msg.render_line()), Ok(msg));
    }
}

#[test]
fn user_command_round_trip() {
    for cmd in [UserCommand::Guess { guess: "tap".to_string() }, UserCommand::Exit] {
        assert_eq!(UserCommand::parse_line(&cmd.render_line()), Ok(cmd));
    }
}

#[test]
fn tokenizer_splits_on_unicode_whitespace() {
    let cmd = UserCommand::parse_line("guess\u{a0}tiger");
    assert_eq!(cmd, Ok(UserCommand::Guess { guess: "tiger".to_string() }));
    let cmd = UserCommand::parse_line("\u{2003}exit\u{85}");
    assert_eq!(cmd, Ok(UserCommand::Exit));
}

#[test]
fn render_server_messages() {
    let update = ServerMessage::Update { new_riddle: "tap".to_string() };
    assert_eq!(update.render_line(), "update tap\n");
    assert_eq!(ServerMessage::Accepted.render_line(), "accept\n");
    assert_eq!(ServerMessage::Rejected.render_line(), "reject\n");
    assert_eq!(ServerMessage::Close.render_line(), "close\n");
}

use robot_arena::model::Rgb;
use robot_arena::protocol::{parse_line, Actuator, Command, CommandError, Query};

fn single(line: &str) -> Command {
    let mut cmds = parse_line(line);
    assert_eq!(cmds.len(), 1);
    cmds.remove(0)
}

fn color_of(cmd: Command) -> Rgb {
    match cmd {
        Command::SetColor(c) => c,
        _ => panic!("not a color command"),
    }
}

fn error_of(cmd: Command) -> CommandError {
    match cmd {
        Command::Invalid(e) => e,
        _ => panic!("not a refused command"),
    }
}

fn actuation_of(cmd: Command) -> (Actuator, i64) {
    match cmd {
        Command::Actuate(a, v) => (a, v),
        _ => panic!("not an actuator command"),
    }
}

#[test]
fn hex_color_sets_rgb() {
    assert_eq!(color_of(single("SET_COLOR=FF00FF")), Rgb { r: 255, g: 0, b: 255 });
}

#[test]
fn decimal_color_sets_same_rgb() {
    assert_eq!(color_of(single("SET_COLOR=255=0=255")), Rgb { r: 255, g: 0, b: 255 });
    assert_eq!(color_of(single("SET_COLOR= 255 = 0= 255")), Rgb { r: 255, g: 0, b: 255 });
}

#[test]
fn hex_color_keeps_low_bytes_and_accepts_plus() {
    assert_eq!(color_of(single("SET_COLOR=+ff")), Rgb { r: 0, g: 0, b: 255 });
    assert_eq!(color_of(single("SET_COLOR=12abcdef")), Rgb { r: 0xab, g: 0xcd, b: 0xef });
}

#[test]
fn empty_color_is_refused() {
    assert_eq!(error_of(single("SET_COLOR=")), CommandError::InvalidHex);
    assert_eq!(error_of(single("SET_COLOR")), CommandError::MissingColor);
    assert_eq!(error_of(single("SET_COLOR=GG")), CommandError::InvalidHex);
    assert_eq!(error_of(single("SET_COLOR=100000000")), CommandError::InvalidHex);
}

#[test]
fn bad_color_forms_are_refused() {
    assert_eq!(error_of(single("SET_COLOR=1=2")), CommandError::BadColorFormat);
    assert_eq!(error_of(single("SET_COLOR=256=0=0")), CommandError::InvalidRgb);
    assert_eq!(error_of(single("SET_COLOR=-1=0=0")), CommandError::InvalidRgb);
}

#[test]
fn traverse_value_is_fixed_point() {
    assert_eq!(
        actuation_of(single("ACTUATOR_GUN_TRAVERSE=0.25")),
        (Actuator::GunTraverse, 250_000)
    );
    assert_eq!(actuation_of(single(" ACTUATOR_MOTOR_LEFT = -1.5 ")), (Actuator::MotorLeft, -1_500_000));
    assert_eq!(actuation_of(single("ACTUATOR_MOTOR_RIGHT=1")), (Actuator::MotorRight, 1_000_000));
    assert_eq!(actuation_of(single("ACTUATOR_GUN_TRIGGER=.5")), (Actuator::GunTrigger, 500_000));
    assert_eq!(actuation_of(single("ACTUATOR_GUN_TRIGGER=0.12345678")), (Actuator::GunTrigger, 123_456));
}

#[test]
fn malformed_values_are_refused() {
    assert_eq!(error_of(single("ACTUATOR_MOTOR_LEFT=abc")), CommandError::InvalidNumber);
    assert_eq!(error_of(single("ACTUATOR_MOTOR_LEFT=.")), CommandError::InvalidNumber);
    assert_eq!(error_of(single("ACTUATOR_MOTOR_LEFT=1.2.3")), CommandError::InvalidNumber);
    assert_eq!(error_of(single("ACTUATOR_MOTOR_LEFT=1000000")), CommandError::InvalidNumber);
    assert_eq!(error_of(single("ACTUATOR_MOTOR_LEFT")), CommandError::MissingValue);
}

#[test]
fn names_and_unknown_codes() {
    match single("SET_NAME=Alice") {
        Command::SetName(n) => assert_eq!(n, "Alice"),
        _ => panic!("not a name command"),
    }
    assert_eq!(error_of(single("SET_NAME")), CommandError::MissingName);
    match single("FOO=1") {
        Command::Unknown(code) => assert_eq!(code, "FOO"),
        _ => panic!("not unknown"),
    }
}

#[test]
fn line_splits_into_sub_commands() {
    let cmds = parse_line("SET_NAME=bob;ACTUATOR_GUN_TRIGGER=1;QUIT\n");
    assert_eq!(cmds.len(), 3);
    assert!(matches!(cmds[0], Command::SetName(_)));
    assert!(matches!(cmds[1], Command::Actuate(Actuator::GunTrigger, 1_000_000)));
    assert!(matches!(cmds[2], Command::Quit));
}

#[test]
fn queries_are_recognised() {
    assert!(matches!(single("QUERY_NAME_LIST"), Command::Query(Query::NameList)));
    assert!(matches!(single("QUERY_CLOSEST_BOT=1"), Command::Query(Query::ClosestBot)));
    assert!(matches!(single("QUERY_ORIENTATION "), Command::Query(Query::Orientation)));
    assert!(matches!(single("QUERY_NAMES"), Command::Unknown(_)));
}

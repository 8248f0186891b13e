use blot::message::{same_text, Command};

#[test]
fn tags_name_each_message() {
    assert_eq!(Command::Acknowledge.tag(), "ack");
    assert_eq!(Command::Go.tag(), "go");
    assert_eq!(Command::MotorsOn.tag(), "motorsOn");
    assert_eq!(Command::MotorsOff.tag(), "motorsOff");
    assert_eq!(Command::MoveTowardsOrigin.tag(), "moveTowardsOrigin");
    assert_eq!(Command::SetOrigin.tag(), "setOrigin");
    assert_eq!(Command::Servo.tag(), "servo");
}

#[test]
fn from_tag_inverts_tag() {
    let all = [
        Command::Acknowledge,
        Command::Go,
        Command::MotorsOn,
        Command::MotorsOff,
        Command::MoveTowardsOrigin,
        Command::SetOrigin,
        Command::Servo,
    ];
    for c in all {
        assert_eq!(Command::from_tag(c.tag()), Some(c));
    }
}

#[test]
fn unknown_tags_name_nothing() {
    assert_eq!(Command::from_tag(""), None);
    assert_eq!(Command::from_tag("Ack"), None);
    assert_eq!(Command::from_tag("acknowledge"), None);
    assert_eq!(Command::from_tag("motors"), None);
}

#[test]
fn same_text_compares_characters() {
    assert!(same_text("servo", "servo"));
    assert!(!same_text("servo", "servO"));
    assert!(!same_text("go", "goo"));
    assert!(same_text("", ""));
}

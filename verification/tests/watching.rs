use highway::watch::{Heard, Reaction, Watch};

#[test]
fn silence_is_asked_about_and_then_ends_the_connection() {
    let mut watch = Watch::new();
    assert_eq!(watch.max_wait(), 45);
    assert_eq!(watch.step(Heard::Silence), Reaction::Ping);
    assert_eq!(watch.max_wait(), 15);
    assert_eq!(watch.step(Heard::Silence), Reaction::Disconnect);
}

#[test]
fn any_frame_is_a_sign_of_life() {
    for heard in [Heard::Data, Heard::Control] {
        let mut watch = Watch::new();
        assert_eq!(watch.step(Heard::Silence), Reaction::Ping);
        assert_ne!(watch.step(heard), Reaction::Disconnect);
        assert_eq!(watch.max_wait(), 45);
        assert_eq!(watch.step(Heard::Silence), Reaction::Ping);
    }
}

#[test]
fn data_is_handled_and_other_frames_are_not() {
    let mut watch = Watch::new();
    assert_eq!(watch.step(Heard::Data), Reaction::Handle);
    assert_eq!(watch.step(Heard::Control), Reaction::Wait);
}

#[test]
fn a_closed_stream_ends_the_connection() {
    let mut watch = Watch::new();
    assert_eq!(watch.step(Heard::Closed), Reaction::Disconnect);
}

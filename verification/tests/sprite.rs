use sludge::sprite::{advance, Advance, Direction, FrameId, Tag};

fn tag(from: u32, to: u32, direction: Direction) -> Tag {
    Tag { name: "walk".to_string(), from, to, direction }
}

#[test]
fn sprite_tag_first_and_last_frames() {
    assert_eq!(tag(2, 5, Direction::Forward).first_frame(), FrameId(2));
    assert_eq!(tag(2, 5, Direction::Forward).last_frame(), FrameId(5));
    assert_eq!(tag(2, 5, Direction::Reverse).first_frame(), FrameId(5));
    assert_eq!(tag(2, 5, Direction::Reverse).last_frame(), FrameId(2));
    assert_eq!(tag(2, 5, Direction::Pingpong).first_frame(), FrameId(2));
    assert_eq!(tag(2, 5, Direction::Pingpong).last_frame(), FrameId(5));
}

#[test]
fn sprite_tag_next_frame_steps_and_wraps() {
    let fwd = tag(2, 5, Direction::Forward);
    assert_eq!(fwd.next_frame(FrameId(2)), Ok(FrameId(3)));
    assert_eq!(fwd.next_frame(FrameId(5)), Err(FrameId(2)));
    let rev = tag(2, 5, Direction::Reverse);
    assert_eq!(rev.next_frame(FrameId(5)), Ok(FrameId(4)));
    assert_eq!(rev.next_frame(FrameId(2)), Err(FrameId(5)));
    let ping = tag(2, 5, Direction::Pingpong);
    assert_eq!(ping.next_frame(FrameId(5)), Err(FrameId(4)));
    assert_eq!(ping.next_frame(FrameId(2)), Err(FrameId(3)));
    assert_eq!(ping.next_frame(FrameId(3)), Ok(FrameId(4)));
    let single = tag(7, 7, Direction::Pingpong);
    assert_eq!(single.next_frame(FrameId(7)), Err(FrameId(7)));
}

#[test]
fn sprite_animation_pauses_at_the_end_unless_it_loops() {
    let fwd = tag(0, 2, Direction::Forward);
    assert_eq!(advance(&fwd, FrameId(0), false), Advance::Show(FrameId(1)));
    assert_eq!(advance(&fwd, FrameId(2), false), Advance::Pause(FrameId(2)));
    assert_eq!(advance(&fwd, FrameId(2), true), Advance::Show(FrameId(0)));
    let rev = tag(0, 2, Direction::Reverse);
    assert_eq!(advance(&rev, FrameId(0), false), Advance::Pause(FrameId(0)));
}

use mazu::space::{avatar, parse_keys, Action, Choosing, Id, Key, World, FIRE};

fn put(w: &mut World, id: Id, at: (usize, usize)) {
    w.pilgrims.get_mut(&id).unwrap().at = at;
}

fn one() -> (World, Id) {
    let mut w = World::default();
    w.join(1, 0);
    (w, 1)
}

#[test]
fn walls_block_movement() {
    let (mut w, me) = one();
    put(&mut w, me, (3, 1)); // the wall is just left of it
    assert!(matches!(w.handle(me, Key::Left), Action::Idle));
    assert_eq!(w.pilgrims[&me].at, (3, 1));
    put(&mut w, me, (3, 3)); // the incense is just above
    assert!(matches!(w.handle(me, Key::Up), Action::Idle));
}

#[test]
fn bottom_gap_leaves() {
    let (mut w, me) = one();
    // the whole bottom is an exit, not only the middle
    put(&mut w, me, (6, 3));
    assert!(matches!(w.handle(me, Key::Down), Action::Leave));
    put(&mut w, me, (6, 1));
    assert!(matches!(w.handle(me, Key::Down), Action::Leave));
    put(&mut w, me, (6, 5));
    assert!(matches!(w.handle(me, Key::Down), Action::Leave));
}

#[test]
fn one_press_bows_and_rises() {
    let (mut w, me) = one();
    put(&mut w, me, (3, 3));
    assert!(matches!(w.handle(me, Key::Space), Action::Worship));
    // the face stays while bowing, only the incense lights up
    assert!(w.render(me).contains(avatar(0)));
    assert!(w.render(me).contains(FIRE));
    assert!(matches!(w.handle(me, Key::Other), Action::Redraw));
    assert!(w.render(me).contains(avatar(0)));
}

#[test]
fn space_elsewhere_does_nothing() {
    let (mut w, me) = one();
    put(&mut w, me, (5, 2));
    assert!(matches!(w.handle(me, Key::Space), Action::Idle));
}

#[test]
fn pilgrims_see_each_other() {
    let mut w = World::default();
    w.join(1, 0);
    w.join(2, 5);
    put(&mut w, 2, (4, 1));

    let seen = w.render(1);
    assert!(seen.contains(avatar(0)), "看得见自己");
    assert!(seen.contains(avatar(5)), "看得见别人");
    assert!(seen.contains("廟中此刻 2 人"));

    w.leave(2);
    assert!(!w.render(1).contains(avatar(5)), "走了就看不见了");
}

#[test]
fn one_person_praying_lights_it_for_everyone() {
    let mut w = World::default();
    w.join(1, 0);
    w.join(2, 5);
    put(&mut w, 1, (3, 3));
    w.handle(1, Key::Space);
    assert!(w.render(2).contains(FIRE), "别人也看得见香火亮了");
}

#[test]
fn choosing_then_confirm() {
    let mut c = Choosing::new();
    assert!(c.render().contains("先擇一副面容"));
    assert_eq!(c.handle(Key::Right), None);
    assert_eq!(c.handle(Key::Right), None);
    assert_eq!(c.handle(Key::Enter), Some(2));
}

#[test]
fn arrow_sequences_parse() {
    assert_eq!(parse_keys(b"\x1b[A"), vec![Key::Up]);
    assert_eq!(parse_keys(b"\x1b[B\x1b[C"), vec![Key::Down, Key::Right]);
    assert_eq!(parse_keys(b" "), vec![Key::Space]);
    assert_eq!(parse_keys(b"q"), vec![Key::Quit]);
}

#[test]
fn the_chooser_wraps_around() {
    let mut c = Choosing::new();
    assert_eq!(c.handle(Key::Left), None);
    assert_eq!(c.handle(Key::Space), Some(14));
    assert_eq!(c.handle(Key::Right), None);
    assert_eq!(c.handle(Key::Enter), Some(0));
    assert_eq!(c.handle(Key::Up), None);
    assert_eq!(c.handle(Key::Enter), Some(0));
}

#[test]
fn the_whole_screen() {
    let (w, me) = one();
    let screen = w.render(me);
    assert!(screen.starts_with("\x1b[2J\x1b[H\x1b[?25l\r\n      \x1b[1;31m[]\x1b[0m\x1b[1;33m[]\x1b[0m\x1b[1;31m[]\x1b[0m    \r\n"));
    assert!(screen.contains("\x1b[31m##\x1b[0m\x1b[90m. \x1b[0m\x1b[90m. \x1b[0m👩\x1b[90m. \x1b[0m\x1b[90m. \x1b[0m\x1b[31m##\x1b[0m\r\n\r\n"));
    assert!(screen.ends_with("  \x1b[2m方向鍵走動，走到下方出口即離廟\x1b[0m\r\n  \x1b[2m廟中此刻 1 人\x1b[0m\r\n"));
}

#[test]
fn bowing_shows_the_blessing() {
    let (mut w, me) = one();
    put(&mut w, me, (3, 3));
    assert!(w.render(me).contains("↑ 神龕在前，按空格上香"));
    w.handle(me, Key::Space);
    w.set_blessing(me, "你是今天第 1 位".to_string());
    let screen = w.render(me);
    assert!(screen.contains("  \x1b[33m你是今天第 1 位\x1b[0m\r\n  \x1b[2m按任意鍵起身\x1b[0m\r\n"));
    w.handle(me, Key::Up);
    assert!(w.pilgrims[&me].blessing.is_none());
    assert!(!w.pilgrims[&me].praying);
}

#[test]
fn one_sees_oneself_over_others_in_the_same_cell() {
    let mut w = World::default();
    w.join(1, 3);
    w.join(2, 4);
    w.join(3, 7);
    assert!(w.render(2).contains(avatar(4)));
    assert!(!w.render(2).contains(avatar(3)));
    assert!(!w.render(2).contains(avatar(7)));
    assert!(w.is_in(3));
    assert_eq!(w.present(), 3);
    w.leave(3);
    assert!(!w.is_in(3));
    assert_eq!(w.present(), 2);
}

#[test]
fn quitting_and_unknown_visitors() {
    let (mut w, me) = one();
    assert!(matches!(w.handle(me, Key::Quit), Action::Leave));
    assert!(matches!(w.handle(42, Key::Up), Action::Idle));
    assert!(matches!(w.handle(me, Key::Up), Action::Redraw));
    assert_eq!(w.pilgrims[&me].at, (5, 3));
}

#[test]
fn all_keys_decode() {
    assert_eq!(
        parse_keys(b"wasdhjkl\r\n\x03\x04x\x1b[Z\x1b["),
        vec![
            Key::Up, Key::Left, Key::Down, Key::Right, Key::Left, Key::Down, Key::Up, Key::Right,
            Key::Enter, Key::Enter, Key::Quit, Key::Quit, Key::Other, Key::Other, Key::Other, Key::Other,
        ]
    );
}

#[test]
fn a_key_moves_only_the_one_who_pressed_it() {
    let mut w = World::default();
    w.join(1, 0);
    w.join(2, 3);
    put(&mut w, 2, (4, 4));
    assert!(matches!(w.handle(1, Key::Up), Action::Redraw));
    assert_eq!(w.pilgrims[&1].at, (5, 3));
    assert_eq!(w.pilgrims[&2].at, (4, 4));
    assert_eq!(w.pilgrims[&2].avatar, 3);
}

#[test]
fn wandering_never_leaves_the_floor() {
    let (mut w, me) = one();
    let keys = parse_keys(b"wwwwwwaaaaaaddddddddwwsasdhjklkkkkkk");
    for k in keys {
        w.handle(me, k);
        let (r, c) = w.pilgrims[&me].at;
        assert!((3..=6).contains(&r) && (1..=5).contains(&c), "at {:?}", (r, c));
    }
}

#[test]
fn bowing_then_any_key_rises_in_place() {
    let (mut w, me) = one();
    put(&mut w, me, (3, 3));
    w.set_blessing(me, "平安".into());
    assert!(matches!(w.handle(me, Key::Space), Action::Worship));
    assert!(w.pilgrims[&me].praying);
    assert!(matches!(w.handle(me, Key::Left), Action::Redraw));
    let p = &w.pilgrims[&me];
    assert_eq!((p.at, p.praying, p.blessing.is_none()), ((3, 3), false, true));
}

#[test]
fn left_and_right_undo_each_other() {
    let mut c = Choosing::new();
    for _ in 0..7 {
        c.handle(Key::Right);
    }
    let here = c.handle(Key::Enter);
    c.handle(Key::Left);
    c.handle(Key::Right);
    assert_eq!(c.handle(Key::Enter), here);
    c.handle(Key::Right);
    c.handle(Key::Left);
    assert_eq!(c.handle(Key::Space), here);
}

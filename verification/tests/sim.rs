use cyberphage::cards::{Card, CardStatus};
use cyberphage::combat::Event;
use cyberphage::entity::{EntityType, PLAYER};
use cyberphage::game::Game;
use cyberphage::grid::{Direction, Position, Square, Tile, Visibility, MAP_HEIGHT, MAP_WIDTH};
use cyberphage::level::{Glyph, KnownCardStatus, Level, MessageLog};
use cyberphage::turn::Action;

fn fresh_level(seed: u32) -> Level {
    match Game::new(seed) {
        Game::Level(l) => l,
        _ => panic!("a fresh game starts on a level"),
    }
}

fn glyph_row(level: &Level, y: i32) -> String {
    let mut s = String::new();
    for x in 0..MAP_WIDTH as i32 {
        s.push(level.view(Position { x, y }).ch());
    }
    s
}

fn whole_map(level: &Level) -> String {
    let mut s = String::new();
    for y in 0..MAP_HEIGHT as i32 {
        s.push_str(&glyph_row(level, y));
        s.push('\n');
    }
    s
}

/// A seed whose start room has an empty floor cell just right of the
/// player, so a single Move(Right) is a plain relocation.
fn seed_with_clear_right() -> (u32, Level) {
    for seed in 0..200u32 {
        let level = fresh_level(seed);
        if level.get_pos(PLAYER) == Some(Position { x: 3, y: 3 })
            && level.view(Position { x: 4, y: 3 }) == Glyph::Visible(Tile::Floor, None)
        {
            return (seed, level);
        }
    }
    panic!("no seed with a clear cell right of the start was found");
}

#[test]
fn out_of_bounds_views_are_unknown() {
    let level = fresh_level(7);
    assert_eq!(level.view(Position { x: -5, y: -7 }), Glyph::Unknown);
    assert_eq!(level.view(Position { x: 1000, y: 3 }), Glyph::Unknown);
    assert_eq!(level.view(Position { x: 3, y: 25 }), Glyph::Unknown);
    let sq = level.get_sq(Position { x: -1, y: 0 });
    assert_eq!(sq.tile, Tile::Wall);
    assert!(sq.entity.is_none());
    assert_eq!(sq.visibility, Visibility::Unknown);
}

#[test]
fn in_hand_is_active_or_inactive() {
    assert!(CardStatus::Active.in_hand());
    assert!(CardStatus::Inactive.in_hand());
    assert!(!CardStatus::Discarded.in_hand());
    assert!(!CardStatus::PlayedOn(3).in_hand());
}

#[test]
fn player_starts_with_canonical_deck() {
    let level = fresh_level(11);
    let deck = level.player_deck();
    let cards: Vec<Card> = deck.iter().map(|cv| cv.card).collect();
    assert_eq!(
        cards,
        vec![
            Card::Attack(1),
            Card::Kill(1),
            Card::Strike,
            Card::Push,
            Card::Dodge,
            Card::Defend(2),
            Card::Block,
        ]
    );
    for cv in &deck {
        assert_eq!(cv.status, KnownCardStatus::Active);
    }
    assert_eq!(level.pool_of(PLAYER), 7);
}

#[test]
fn damage_removes_min_of_damage_and_pool() {
    let mut level = fresh_level(13);
    assert_eq!(level.pool_of(PLAYER), 7);
    let fatal = level.take_damage(PLAYER, 3);
    assert!(!fatal);
    assert_eq!(level.pool_of(PLAYER), 4);
    let in_hand = level
        .player_deck()
        .iter()
        .filter(|cv| {
            cv.status == KnownCardStatus::Active || cv.status == KnownCardStatus::Inactive
        })
        .count();
    assert_eq!(in_hand, 4);
    // More damage than the pool: exactly the pool drains and the
    // outcome is fatal.
    let fatal = level.take_damage(PLAYER, 100);
    assert!(fatal);
    assert_eq!(level.pool_of(PLAYER), 0);
}

#[test]
fn zero_damage_removes_nothing() {
    let mut level = fresh_level(13);
    assert!(!level.take_damage(PLAYER, 0));
    assert!(!level.take_damage(PLAYER, -5));
    assert_eq!(level.pool_of(PLAYER), 7);
}

#[test]
fn empty_pool_entity_dies_of_one_damage() {
    let mut level = fresh_level(17);
    // Find an open cell and spawn a creature with an empty deck there.
    let mut spot = None;
    'outer: for y in 1..(MAP_HEIGHT as i32 - 1) {
        for x in 1..(MAP_WIDTH as i32 - 1) {
            let p = Position { x, y };
            if level.is_open(p) && level.get_sq(p).tile == Tile::Floor {
                spot = Some(p);
                break 'outer;
            }
        }
    }
    let pos = spot.expect("some open floor cell exists");
    let id = level.spawn_entity(EntityType::Defender, pos).expect("the cell was open");
    assert_eq!(level.type_of(id), EntityType::Defender);
    assert_eq!(level.pool_of(id), 0);
    level.execute(id, Event::Defend { source: PLAYER, damage: 1, direction: None }, 16);
    assert_eq!(level.type_of(id), EntityType::UnknownThing);
    assert_eq!(level.get_pos(id), None);
    assert!(level.get_sq(pos).entity.is_none());
}

#[test]
fn spawn_on_occupied_cell_is_refused() {
    let mut level = fresh_level(19);
    let ppos = level.get_pos(PLAYER).unwrap();
    assert_eq!(level.spawn_entity(EntityType::Hunter, ppos), None);
    assert_eq!(
        level.spawn_entity(EntityType::Hunter, Position { x: 0, y: 0 }),
        None,
        "the border is wall"
    );
}

#[test]
fn determinism_same_seed_same_run() {
    let mut a = fresh_level(42);
    let mut b = fresh_level(42);
    assert_eq!(whole_map(&a), whole_map(&b));
    assert_eq!(a.message_log(), b.message_log());
    let script = [
        Action::Move(Direction::Right),
        Action::Move(Direction::Down),
        Action::Rest,
        Action::Toggle(2),
        Action::Move(Direction::Left),
        Action::Wait,
        Action::Toggle(2),
        Action::Move(Direction::Up),
    ];
    for round in 0..6 {
        for (i, action) in script.iter().enumerate() {
            let ra = a.step(*action);
            let rb = b.step(*action);
            assert_eq!(ra, rb, "round {} action {}", round, i);
            assert_eq!(a.message_log(), b.message_log(), "round {} action {}", round, i);
            assert_eq!(whole_map(&a), whole_map(&b), "round {} action {}", round, i);
        }
    }
}

#[test]
fn toggle_round_trip_restores_deck() {
    let mut level = fresh_level(23);
    let before: Vec<(Card, KnownCardStatus)> =
        level.player_deck().iter().map(|cv| (cv.card, cv.status)).collect();
    let pos_before = level.get_pos(PLAYER);
    assert!(level.do_action(PLAYER, Action::Toggle(2)));
    let mid = level.player_deck();
    assert_eq!(mid[2].status, KnownCardStatus::Inactive);
    for (i, cv) in mid.iter().enumerate() {
        if i != 2 {
            assert_eq!((cv.card, cv.status), before[i]);
        }
    }
    assert!(level.do_action(PLAYER, Action::Toggle(2)));
    let after: Vec<(Card, KnownCardStatus)> =
        level.player_deck().iter().map(|cv| (cv.card, cv.status)).collect();
    assert_eq!(after, before);
    assert_eq!(level.get_pos(PLAYER), pos_before);
}

#[test]
fn toggle_of_missing_card_is_rejected_unchanged() {
    let mut level = fresh_level(29);
    let log_before = level.message_log();
    let map_before = whole_map(&level);
    assert!(!level.do_action(PLAYER, Action::Toggle(99)));
    assert_eq!(level.message_log(), log_before);
    assert_eq!(whole_map(&level), map_before);
}

#[test]
fn wait_executes_unmodified_when_no_card_matches() {
    // No card of the vocabulary matches a Wait event, so a Wait turn
    // leaves the deck and the player untouched.
    let mut level = fresh_level(31);
    let deck_before: Vec<(Card, KnownCardStatus)> =
        level.player_deck().iter().map(|cv| (cv.card, cv.status)).collect();
    let pos_before = level.get_pos(PLAYER);
    assert!(level.do_action(PLAYER, Action::Wait));
    let deck_after: Vec<(Card, KnownCardStatus)> =
        level.player_deck().iter().map(|cv| (cv.card, cv.status)).collect();
    assert_eq!(deck_after, deck_before);
    assert_eq!(level.get_pos(PLAYER), pos_before);
}

#[test]
fn first_move_relocates_and_logs_separator() {
    let (_seed, mut level) = seed_with_clear_right();
    let log_before = level.message_log();
    assert!(!log_before.contains("---"));
    assert!(level.step(Action::Move(Direction::Right)));
    assert_eq!(level.get_pos(PLAYER), Some(Position { x: 4, y: 3 }));
    let log_after = level.message_log();
    assert!(log_after.contains("---"));
    assert!(log_after.starts_with(&log_before));
    // The cell the player now stands on is visible and shows the
    // player; sight was recomputed around the new position.
    assert_eq!(
        level.view(Position { x: 4, y: 3 }),
        Glyph::Visible(Tile::Floor, Some(EntityType::Player))
    );
    assert!(level.view(Position { x: 5, y: 3 }).is_visible());
}

#[test]
fn reaching_the_exit_completes_the_level() {
    let (_seed, level) = seed_with_clear_right();
    let mut game = Game::Level(level);
    {
        let level = match &mut game {
            Game::Level(l) => l,
            _ => unreachable!(),
        };
        level.set_tile(Position { x: 4, y: 3 }, Tile::Exit);
        assert!(level.step(Action::Move(Direction::Right)));
        assert!(level.is_complete());
        let log = level.message_log();
        assert!(log.contains("Exiting level!"));
        assert!(log.contains("Press [Space] to continue..."));
        // Once complete, every further step is rejected.
        assert!(!level.step(Action::Move(Direction::Left)));
        assert!(!level.step(Action::Rest));
    }
    game.update();
    assert!(matches!(game, Game::Transition(_)));
    game.update();
    match &game {
        Game::Level(l) => {
            assert_eq!(l.level, 1);
            assert!(!l.is_complete());
        },
        _ => panic!("a transition advances to the next level"),
    }
}

#[test]
fn victory_after_last_level() {
    let (_seed, level) = seed_with_clear_right();
    let mut game = Game::Level(level);
    // Walk the run up to the final level by completing each floor at a
    // freshly planted exit next to the player.
    for expected in 1..=6 {
        let l = match &mut game {
            Game::Level(l) => l,
            _ => panic!("still mid-run"),
        };
        let p = l.get_pos(PLAYER).expect("the player is placed");
        l.set_tile(p, Tile::Exit);
        assert!(l.is_complete());
        game.update();
        game.update();
        match &game {
            Game::Level(l2) => assert_eq!(l2.level, expected),
            _ => panic!("expected the next level"),
        }
    }
    let l = match &mut game {
        Game::Level(l) => l,
        _ => panic!("still mid-run"),
    };
    let p = l.get_pos(PLAYER).expect("the player is placed");
    l.set_tile(p, Tile::Exit);
    game.update();
    assert!(matches!(game, Game::Victory));
    game.update();
    assert!(matches!(game, Game::Victory));
}

#[test]
fn message_log_is_newline_joined() {
    let level = fresh_level(37);
    let log = level.message_log();
    assert_eq!(log, "You are in some sort of server. It seems pretty quiet here.");
    let mut level = level;
    assert!(level.do_action(PLAYER, Action::Wait));
    let log2 = level.message_log();
    assert_eq!(
        log2,
        "You are in some sort of server. It seems pretty quiet here.\n---"
    );
}

#[test]
fn glyph_characters() {
    assert_eq!(Glyph::Unknown.ch(), ' ');
    assert_eq!(Glyph::Remembered(Tile::Wall).ch(), '#');
    assert_eq!(Glyph::Visible(Tile::Floor, None).ch(), '.');
    assert_eq!(Glyph::Visible(Tile::Door, Some(EntityType::Reaper)).ch(), 'r');
    assert!(!Glyph::Unknown.is_visible());
    assert!(!Glyph::Remembered(Tile::Exit).is_visible());
    assert!(Glyph::Visible(Tile::Exit, None).is_visible());
}

#[test]
fn tile_and_entity_rendering() {
    assert_eq!(Tile::Floor.render(), '.');
    assert_eq!(Tile::Wall.render(), '#');
    assert_eq!(Tile::Door.render(), '+');
    assert_eq!(Tile::Exit.render(), '>');
    assert_eq!(EntityType::UnknownThing.render(), '?');
    assert_eq!(EntityType::Player.render(), '@');
    assert_eq!(EntityType::Defender.render(), 'd');
    assert_eq!(EntityType::Hunter.render(), 'h');
    assert_eq!(EntityType::Reaper.render(), 'r');
}

#[test]
fn position_steps() {
    let p = Position { x: 5, y: 7 };
    assert_eq!(p.step(Direction::Up), Position { x: 5, y: 6 });
    assert_eq!(p.step(Direction::Down), Position { x: 5, y: 8 });
    assert_eq!(p.step(Direction::Left), Position { x: 4, y: 7 });
    assert_eq!(p.step(Direction::Right), Position { x: 6, y: 7 });
}

#[test]
fn square_openness() {
    let open = Square { tile: Tile::Floor, entity: None, visibility: Visibility::Unknown };
    assert!(open.is_open());
    let wall = Square { tile: Tile::Wall, entity: None, visibility: Visibility::Unknown };
    assert!(!wall.is_open());
    let taken = Square { tile: Tile::Floor, entity: Some(2), visibility: Visibility::Visible };
    assert!(!taken.is_open());
}

#[test]
fn message_log_starts_empty() {
    let log = MessageLog::new();
    assert!(log.messages.is_empty());
}

#[test]
fn visibility_never_falls_back_to_unknown() {
    let mut level = fresh_level(41);
    let known_before: Vec<Position> = (0..MAP_HEIGHT as i32)
        .flat_map(|y| (0..MAP_WIDTH as i32).map(move |x| Position { x, y }))
        .filter(|p| level.view(*p) != Glyph::Unknown)
        .collect();
    for action in [
        Action::Move(Direction::Right),
        Action::Move(Direction::Down),
        Action::Rest,
        Action::Move(Direction::Right),
    ] {
        let _ = level.step(action);
        for p in &known_before {
            assert_ne!(level.view(*p), Glyph::Unknown, "cell {:?} fell back to Unknown", p);
        }
    }
}

#[test]
fn start_room_is_visible_floor() {
    // The forced start room is a plain square of floor around (3, 3);
    // the initial visibility pass lights it up.
    let level = fresh_level(43);
    assert_eq!(
        level.view(Position { x: 3, y: 3 }),
        Glyph::Visible(Tile::Floor, Some(EntityType::Player))
    );
    for (x, y) in [(2, 3), (3, 2), (2, 2)] {
        let g = level.view(Position { x, y });
        assert!(g.is_visible(), "start room cell ({}, {}) shows {:?}", x, y, g);
    }
}

#[test]
fn damage_logs_the_discarded_card() {
    let mut level = fresh_level(47);
    let before_lines = level.message_log().lines().count();
    assert!(!level.take_damage(PLAYER, 1));
    let log = level.message_log();
    assert_eq!(log.lines().count(), before_lines + 1);
    let line = log.lines().last().unwrap().to_string();
    assert!(line.starts_with("(Player's "), "unexpected log line: {}", line);
    assert!(line.ends_with(" card was discarded by damage)"), "unexpected log line: {}", line);
}

#[test]
fn generator_layout_fixed_points() {
    // The forced layout facts: the exit tile at the last anchor, doors
    // at the lattice midpoints, the player on the first anchor.
    let level = fresh_level(53);
    assert_eq!(level.get_sq(Position { x: 33, y: 21 }).tile, Tile::Exit);
    assert_eq!(level.get_pos(PLAYER), Some(Position { x: 3, y: 3 }));
    for i in 0..4i32 {
        for j in 1..6i32 {
            assert_eq!(
                level.get_sq(Position { x: 6 * j, y: 3 + 6 * i }).tile,
                Tile::Door,
                "no door left of anchor column {} row {}",
                j,
                i
            );
        }
    }
    for i in 1..4i32 {
        for j in 0..6i32 {
            assert_eq!(
                level.get_sq(Position { x: 3 + 6 * j, y: 6 * i }).tile,
                Tile::Door,
                "no door above anchor column {} row {}",
                j,
                i
            );
        }
    }
}

use std::time::Duration;

use dr_w_falls::console::Settings;
use dr_w_falls::field::{Movement, StaticField, TileContents, Virus};
use dr_w_falls::game::lobby::{registration_denial, registration_name, DenialReason, LobbyControl};
use dr_w_falls::game::round::{
    any_active, apply_round_event, capsule_recipients, distribute_capsules, input_action, lower_row,
    overall_scores, Actor, ActiveElements, Event, InputAction, PlayerState, ScoreBoardEntry,
};
use dr_w_falls::game::waiting;
use dr_w_falls::game::{decode_char, ConnTaskError, GameControl};
use dr_w_falls::util::{position, Colour, RowIndex};
use rand::SeedableRng;

fn row(r: usize) -> RowIndex {
    RowIndex::try_from(r).unwrap()
}

#[test]
fn end_of_game() {
    assert!(GameControl::EndOfGame.is_end_of_game());
    assert!(!GameControl::Settings { viruses: 3, tick: Duration::from_millis(200) }.is_end_of_game());
}

#[test]
fn conn_task_errors() {
    assert!(ConnTaskError::WouldBlock.is_would_block());
    assert!(!ConnTaskError::Terminated.is_would_block());
    assert!(ConnTaskError::from_io_error(true, "x".to_string()).is_would_block());
    assert!(matches!(ConnTaskError::from_io_error(false, "boom".to_string()), ConnTaskError::Other(d) if d == "boom"));
    assert!(matches!(ConnTaskError::other("odd".to_string()), ConnTaskError::Other(d) if d == "odd"));
    assert_eq!(ConnTaskError::Terminated.message(), "Connection terminated");
    assert_eq!(ConnTaskError::WouldBlock.message(), "Operation would block");
    assert_eq!(ConnTaskError::other("a".to_string()).message(), "Error in connection task");
}

#[test]
fn ascii_decoding() {
    assert!(matches!(decode_char(None), Ok(None)));
    assert!(matches!(decode_char(Some(b'a')), Ok(Some('a'))));
    assert!(matches!(decode_char(Some(0x03)), Err(ConnTaskError::Terminated)));
    assert!(matches!(decode_char(Some(0x04)), Err(ConnTaskError::Terminated)));
    assert!(matches!(decode_char(Some(0xc3)), Err(ConnTaskError::Other(d)) if d == "invalid data"));
}

#[test]
fn registration_decisions() {
    let names = vec!["alice".to_string(), "bob".to_string()];
    assert_eq!(registration_denial(false, &names, 5, &"carol".to_string(), true), Some(DenialReason::AcceptanceClosed));
    assert_eq!(registration_denial(true, &names, 2, &"carol".to_string(), true), Some(DenialReason::MaxPlayers));
    assert_eq!(registration_denial(true, &names, 5, &"bob".to_string(), true), Some(DenialReason::NameTaken));
    assert_eq!(registration_denial(true, &names, 5, &"carol".to_string(), false), Some(DenialReason::PermanentFailure));
    assert_eq!(registration_denial(true, &names, 5, &"carol".to_string(), true), None);
    assert_eq!(DenialReason::NameTaken.message(), "Name is already taken");
    assert_eq!(DenialReason::AcceptanceClosed.message(), "Registration is closed");
    assert_eq!(DenialReason::MaxPlayers.message(), "Max number of players reached");
    assert_eq!(DenialReason::PermanentFailure.message(), "Permanent registration failure");
}

#[test]
fn settings_messages() {
    let settings = Settings {
        accept_players: true,
        max_players: 7,
        virus_count: 12,
        tick_duration: Duration::from_millis(300),
    };
    match settings.as_lobby_control::<()>() {
        LobbyControl::Settings { registration_acceptance, max_players } => {
            assert!(registration_acceptance);
            assert_eq!(max_players, 7);
        },
        LobbyControl::GameStart(_) => panic!("expected settings"),
    }
    match settings.as_game_control() {
        GameControl::Settings { viruses, tick } => {
            assert_eq!(viruses, 12);
            assert_eq!(tick, Duration::from_millis(300));
        },
        GameControl::EndOfGame => panic!("expected settings"),
    }
}

#[test]
fn waiting_entries() {
    let mut entry = waiting::ScoreBoardEntry::new("p");
    assert!(!entry.ready());
    assert!(entry.is_blocking(true));
    assert!(!entry.is_blocking(false));
    entry.set_ready();
    assert!(entry.ready());
    assert!(!entry.is_blocking(true));
    let entries = vec![entry, waiting::ScoreBoardEntry::new("q")];
    assert!(waiting::any_blocking(&entries, &vec![true, true]));
    assert!(!waiting::any_blocking(&entries, &vec![true, false]));
    assert!(waiting::keep_waiting(3, true, false));
    assert!(!waiting::keep_waiting(0, true, false));
    assert!(!waiting::keep_waiting(3, false, false));
    assert!(!waiting::keep_waiting(3, true, true));
    assert_eq!(waiting::count_down(1), 0);
    assert_eq!(waiting::count_down(0), 0);
    assert_eq!(waiting::WAITING_TIME, 60);
}

#[test]
fn round_entries() {
    let mut entry = ScoreBoardEntry::new(5u32, 12);
    assert_eq!(entry.round_score(), 12);
    assert_eq!(entry.state(), PlayerState::Playing);
    assert!(entry.active());
    entry.set_score(9);
    assert_eq!(entry.round_score(), 9);
    entry.set_state(PlayerState::Defeated);
    assert_eq!(entry.state(), PlayerState::Defeated);
    assert!(!entry.active());
    assert_eq!(*entry.tag(), 5);
    assert_eq!(PlayerState::default(), PlayerState::Playing);
}

#[test]
fn lower_rows() {
    assert_eq!(lower_row(Some(row(3)), Some(row(7))), Some(row(7)));
    assert_eq!(lower_row(Some(row(9)), Some(row(7))), Some(row(9)));
    assert_eq!(lower_row(None, Some(row(2))), Some(row(2)));
    assert_eq!(lower_row(Some(row(2)), None), Some(row(2)));
    assert_eq!(lower_row(None, None), None);
}

#[test]
fn recipients_fewest_viruses_first() {
    let scores = vec![5, 2, 7, 2, 1];
    let eligible = vec![true, true, true, true, false];
    assert_eq!(capsule_recipients(&scores, &eligible, 0), vec![1, 3, 2]);
    assert_eq!(capsule_recipients(&scores, &eligible, 3), vec![1, 0, 2]);
}

#[test]
fn distribution_in_batches() {
    let mut rng = rand_pcg::Pcg64Mcg::seed_from_u64(3);
    let elements = vec![Colour::Red, Colour::Blue, Colour::Yellow, Colour::Red, Colour::Blue, Colour::Blue];
    let batches = distribute_capsules(&elements, 3, &mut rng);
    assert_eq!(batches.len(), 2);
    assert_eq!(batches[0].iter().map(|(_, c)| *c).collect::<Vec<_>>(), elements[0..4].to_vec());
    assert_eq!(batches[1].iter().map(|(_, c)| *c).collect::<Vec<_>>(), elements[4..6].to_vec());
    let few = distribute_capsules(&elements, 1, &mut rng);
    assert_eq!(few.len(), 1);
    assert_eq!(few[0].len(), 4);
    assert!(distribute_capsules(&elements, 0, &mut rng).is_empty());
    assert!(distribute_capsules(&Vec::new(), 3, &mut rng).is_empty());
}

#[test]
fn input_actions() {
    assert_eq!(input_action('p', false, true), InputAction::Pause);
    assert_eq!(input_action('\x1b', false, true), InputAction::Pause);
    assert_eq!(input_action('s', false, true), InputAction::Move(Movement::Left));
    assert_eq!(input_action('D', false, true), InputAction::Move(Movement::Right));
    assert_eq!(input_action('k', false, true), InputAction::Move(Movement::RotateCCW));
    assert_eq!(input_action('L', false, true), InputAction::Move(Movement::RotateCW));
    assert_eq!(input_action(' ', false, true), InputAction::Drop);
    assert_eq!(input_action(' ', false, false), InputAction::Ignore);
    assert_eq!(input_action('x', false, true), InputAction::Ignore);
    assert_eq!(input_action('x', true, true), InputAction::Resume);
    assert_eq!(input_action('s', true, true), InputAction::Resume);
    assert_eq!(input_action('\n', true, true), InputAction::Ignore);
}

#[test]
fn actor_spawns_and_moves_a_capsule() {
    let mut rng = rand_pcg::Pcg64Mcg::seed_from_u64(1);
    let viruses = vec![(position(12, 0), Colour::Red), (position(12, 1), Colour::Red)];
    let mut actor = Actor::new(viruses.clone(), [Colour::Blue, Colour::Yellow]);
    assert_eq!(actor.virus_count(), 2);
    assert_eq!(actor.remaining_viruses(), viruses);
    assert!(!actor.is_controlled());
    let outcome = actor.tick();
    assert!(outcome.needs_spawn);
    assert!(outcome.events.is_empty());
    let (updates, next) = actor.spawn_controlled(&mut rng);
    assert_eq!(updates, [(position(0, 3), Some(Colour::Blue)), (position(0, 4), Some(Colour::Yellow))]);
    assert_eq!(next, actor.next_colours());
    assert!(actor.is_controlled());
    let moved = actor.perform_move(Movement::Left).unwrap();
    assert_eq!(moved[2], (position(0, 2), Some(Colour::Blue)));
    let outcome = actor.tick();
    assert!(!outcome.needs_spawn);
    assert!(outcome.updates.contains(&(position(1, 2), Some(Colour::Blue))));
    assert!(!actor.is_defeated());
}

#[test]
fn actor_eliminates_viruses_and_reports() {
    let viruses = vec![
        (position(15, 0), Colour::Red),
        (position(15, 1), Colour::Red),
        (position(15, 2), Colour::Red),
        (position(10, 5), Colour::Blue),
    ];
    let mut actor = Actor::new(viruses, [Colour::Red, Colour::Yellow]);
    let outcome = actor.tick();
    assert!(outcome.needs_spawn);
    let spawned = actor.spawn_received(vec![(dr_w_falls::util::ColumnIndex::try_from(3).unwrap(), Colour::Red)]);
    assert_eq!(spawned, vec![(position(0, 3), Some(Colour::Red))]);
    let mut score = None;
    for _ in 0..20 {
        let outcome = actor.tick();
        for event in outcome.events {
            if let Event::Score(n) = event {
                score = Some(n);
            }
        }
        if outcome.needs_spawn {
            break;
        }
    }
    assert_eq!(score, Some(1));
    assert_eq!(actor.virus_count(), 1);
    assert_eq!(actor.remaining_viruses(), vec![(position(10, 5), Colour::Blue)]);
}

#[test]
fn active_elements_of_a_fresh_actor() {
    let field = dr_w_falls::field::MovingField::new();
    let active = ActiveElements::Uncontrolled(field.moving_row_index(RowIndex::top_row()));
    assert!(!active.is_controlled());
    assert_eq!(field.row_index_from_moving(active.lowest_row()), RowIndex::top_row());
    let stat = StaticField::new();
    let _ = (stat.get(position(0, 0)), TileContents::Virus(Virus::new(Colour::Red)));
}

#[test]
fn actor_lets_unsupported_elements_fall() {
    let viruses = vec![
        (position(15, 0), Colour::Red),
        (position(15, 1), Colour::Red),
        (position(15, 2), Colour::Red),
    ];
    let mut actor = Actor::new(viruses, [Colour::Red, Colour::Yellow]);
    let col = |c: usize| dr_w_falls::util::ColumnIndex::try_from(c).unwrap();
    assert!(actor.tick().needs_spawn);
    actor.spawn_received(vec![(col(1), Colour::Blue)]);
    let mut ticks = 0;
    while !actor.tick().needs_spawn {
        ticks += 1;
        assert!(ticks < 20);
    }
    actor.spawn_received(vec![(col(3), Colour::Red)]);
    let mut fell = false;
    for _ in 0..20 {
        let outcome = actor.tick();
        if outcome.eliminated.row_count() > 0 {
            assert!(!outcome.needs_spawn);
            assert!(outcome.updates.contains(&(position(15, 1), Some(Colour::Blue))));
            fell = true;
        }
        if outcome.needs_spawn {
            break;
        }
    }
    assert!(fell);
    assert_eq!(actor.virus_count(), 0);
}

fn col(c: usize) -> dr_w_falls::util::ColumnIndex {
    dr_w_falls::util::ColumnIndex::try_from(c).unwrap()
}

/// Tick until new capsules are needed, collecting the events
fn tick_until_spawn(actor: &mut Actor) -> Vec<Event> {
    let mut events = Vec::new();
    for _ in 0..40 {
        let outcome = actor.tick();
        events.extend(outcome.events);
        if outcome.needs_spawn {
            return events;
        }
    }
    panic!("no spawn needed");
}

#[test]
fn capsules_sent_for_two_rows_in_a_chain() {
    let viruses = vec![
        (position(15, 0), Colour::Red),
        (position(15, 1), Colour::Red),
        (position(15, 2), Colour::Red),
        (position(15, 4), Colour::Yellow),
        (position(15, 5), Colour::Yellow),
        (position(15, 6), Colour::Yellow),
        (position(10, 0), Colour::Blue),
    ];
    let mut actor = Actor::new(viruses, [Colour::Red, Colour::Yellow]);
    assert!(actor.tick().needs_spawn);
    actor.spawn_received(vec![(col(3), Colour::Red), (col(7), Colour::Yellow)]);
    let events = tick_until_spawn(&mut actor);
    let sent: Vec<Vec<Colour>> = events
        .iter()
        .filter_map(|e| if let Event::Capsules(c) = e { Some(c.clone()) } else { None })
        .collect();
    assert_eq!(sent.len(), 1);
    assert_eq!(sent[0].len(), 2);
    assert!(sent[0].contains(&Colour::Red) && sent[0].contains(&Colour::Yellow));
    assert!(events.contains(&Event::Score(1)));
}

#[test]
fn no_capsules_for_a_single_row() {
    let viruses = vec![
        (position(15, 0), Colour::Red),
        (position(15, 1), Colour::Red),
        (position(15, 2), Colour::Red),
        (position(10, 5), Colour::Blue),
    ];
    let mut actor = Actor::new(viruses, [Colour::Red, Colour::Yellow]);
    assert!(actor.tick().needs_spawn);
    actor.spawn_received(vec![(col(3), Colour::Red)]);
    let events = tick_until_spawn(&mut actor);
    assert!(!events.iter().any(|e| matches!(e, Event::Capsules(_))));
    assert_eq!(events, vec![Event::Score(1)]);
}

#[test]
fn tick_moves_remaining_elements_down() {
    let mut actor = Actor::new(vec![(position(15, 0), Colour::Red)], [Colour::Blue, Colour::Yellow]);
    assert!(actor.tick().needs_spawn);
    actor.spawn_received(vec![(col(5), Colour::Red)]);
    let outcome = actor.tick();
    assert!(!outcome.needs_spawn);
    assert!(outcome.settled.is_empty());
    assert!(outcome.updates.contains(&(position(1, 5), Some(Colour::Red))));
    assert!(outcome.updates.contains(&(position(0, 5), None)));
}

#[test]
fn spawning_prefers_received_elements() {
    let mut rng = rand_pcg::Pcg64Mcg::seed_from_u64(3);
    let mut actor = Actor::new(vec![(position(15, 0), Colour::Red)], [Colour::Blue, Colour::Yellow]);
    assert!(actor.tick().needs_spawn);
    let (updates, next) = actor.spawn_next(Some(vec![(col(2), Colour::Red)]), &mut rng);
    assert_eq!(updates, vec![(position(0, 2), Some(Colour::Red))]);
    assert_eq!(next, None);
    assert!(!actor.is_controlled());
    tick_until_spawn(&mut actor);
    let (updates, next) = actor.spawn_next(None, &mut rng);
    assert_eq!(updates, vec![(position(0, 3), Some(Colour::Blue)), (position(0, 4), Some(Colour::Yellow))]);
    assert_eq!(next, Some(actor.next_colours()));
    assert!(actor.is_controlled());
}

#[test]
fn later_viruses_at_a_position_replace_earlier_ones() {
    let viruses = vec![
        (position(12, 0), Colour::Red),
        (position(13, 1), Colour::Blue),
        (position(12, 0), Colour::Yellow),
    ];
    let actor = Actor::new(viruses, [Colour::Red, Colour::Yellow]);
    assert_eq!(actor.virus_count(), 2);
    assert_eq!(
        actor.remaining_viruses(),
        vec![(position(13, 1), Colour::Blue), (position(12, 0), Colour::Yellow)]
    );
}

#[test]
fn round_events_update_the_score_board() {
    let mut entries = vec![ScoreBoardEntry::new("a", 8), ScoreBoardEntry::new("b", 8), ScoreBoardEntry::new("c", 8)];
    let mut active = vec![true, true, true];
    assert!(!apply_round_event(&mut entries, &mut active, 1, &Event::Score(5)));
    assert_eq!(entries[1].round_score(), 5);
    assert_eq!(active, vec![true, true, true]);
    assert!(!apply_round_event(&mut entries, &mut active, 2, &Event::Capsules(vec![Colour::Red])));
    assert_eq!(active, vec![true, true, true]);
    assert!(!apply_round_event(&mut entries, &mut active, 2, &Event::Defeat));
    assert_eq!(entries[2].state(), PlayerState::Defeated);
    assert_eq!(entries[2].round_score(), 8);
    assert_eq!(active, vec![true, true, false]);
    assert!(any_active(&active));
    assert!(apply_round_event(&mut entries, &mut active, 0, &Event::Score(0)));
    assert_eq!(entries[0].state(), PlayerState::Succeeded);
    assert_eq!(active, vec![false, true, false]);
    assert_eq!(*entries[1].tag(), "b");
    assert!(!any_active(&vec![false, false]));
}

#[test]
fn overall_scores_add_round_scores() {
    let mut entries = vec![ScoreBoardEntry::new(1, 9), ScoreBoardEntry::new(2, 9)];
    entries[0].set_score(3);
    entries[1].set_score(7);
    assert_eq!(overall_scores(&vec![10, u32::MAX], &entries), vec![13, 6]);
}

#[test]
fn viruses_remaining_count_without_eliminations() {
    // A player eliminating no virus during the round keeps the round score it
    // started with, the viruses placed, which the overall score gains.
    let viruses = vec![(position(13, 1), Colour::Blue), (position(12, 0), Colour::Yellow), (position(15, 7), Colour::Red)];
    let actor = Actor::new(viruses.clone(), [Colour::Red, Colour::Yellow]);
    assert_eq!(actor.virus_count(), viruses.len());
    let entries = vec![ScoreBoardEntry::new("a", actor.virus_count() as u32), ScoreBoardEntry::new("b", 3)];
    assert_eq!(entries[0].round_score(), 3);
    assert_eq!(overall_scores(&vec![10, 0], &entries), vec![13, 3]);
}

#[test]
fn round_score_follows_score_events() {
    let mut entries = vec![ScoreBoardEntry::new("a", 6)];
    let mut active = vec![true];
    assert!(!apply_round_event(&mut entries, &mut active, 0, &Event::Capsules(vec![Colour::Blue, Colour::Red])));
    assert_eq!(entries[0].round_score(), 6);
    assert!(!apply_round_event(&mut entries, &mut active, 0, &Event::Score(4)));
    assert_eq!(entries[0].round_score(), 4);
    assert_eq!(overall_scores(&vec![1], &entries), vec![5]);
}

#[test]
fn registered_names_lose_trailing_whitespace() {
    assert_eq!(registration_name("Bob  "), "Bob");
    assert_eq!(registration_name(" Al ice\t"), " Al ice");
    assert_eq!(registration_name("   "), "");
    assert_eq!(registration_name("Eve"), "Eve");
}

#[test]
fn readiness_signalled_by_printable_characters() {
    assert!(waiting::signals_readiness(' '));
    assert!(waiting::signals_readiness('x'));
    assert!(waiting::signals_readiness('~'));
    assert!(!waiting::signals_readiness('\n'));
    assert!(!waiting::signals_readiness('\x7f'));
}

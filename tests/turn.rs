use mao::turn::{turn_update, PlayerTurnChange, PlayerTurnUpdater};

#[test]
fn step_zero_keeps_index_and_direction() {
    let r = turn_update(2, 1, 4, PlayerTurnChange::Update(PlayerTurnUpdater::Update(0)));
    assert_eq!(r, (2, 1));
    let r = turn_update(3, -1, 4, PlayerTurnChange::Update(PlayerTurnUpdater::Update(0)));
    assert_eq!(r, (3, -1));
}

#[test]
fn rotate_flips_direction_for_each_updater() {
    let r = turn_update(0, 1, 3, PlayerTurnChange::Rotate(PlayerTurnUpdater::SetTo(2)));
    assert_eq!(r, (2, -1));
    let r = turn_update(0, 1, 3, PlayerTurnChange::Rotate(PlayerTurnUpdater::Update(1)));
    assert_eq!(r, (2, -1));
    let r = turn_update(0, -1, 3, PlayerTurnChange::Rotate(PlayerTurnUpdater::Update(2)));
    assert_eq!(r, (2, 1));
}

#[test]
fn step_wraps_with_nonnegative_remainder() {
    let r = turn_update(0, -1, 4, PlayerTurnChange::Update(PlayerTurnUpdater::Update(1)));
    assert_eq!(r, (3, -1));
    let r = turn_update(3, 1, 4, PlayerTurnChange::Update(PlayerTurnUpdater::Update(2)));
    assert_eq!(r, (1, 1));
    let r = turn_update(1, 1, 4, PlayerTurnChange::Update(PlayerTurnUpdater::Update(-9)));
    assert_eq!(r, (0, 1));
}

#[test]
fn set_moves_to_the_given_index() {
    let r = turn_update(1, -1, 5, PlayerTurnChange::Update(PlayerTurnUpdater::SetTo(4)));
    assert_eq!(r, (4, -1));
}

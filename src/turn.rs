use vstd::prelude::*;

verus! {

/// How the player index moves: to a given index, or by a number of steps
/// in the current direction.
#[derive(Debug, Clone, Copy, PartialEq, Eq, Structural)]
pub enum PlayerTurnUpdater {
    SetTo(usize),
    Update(isize),
}

/// A turn change: move the index, or reverse the direction and then move it.
#[derive(Debug, Clone, Copy, PartialEq, Eq, Structural)]
pub enum PlayerTurnChange {
    Update(PlayerTurnUpdater),
    Rotate(PlayerTurnUpdater),
}

impl Default for PlayerTurnUpdater {
    fn default() -> (r: Self)
        ensures
            r == PlayerTurnUpdater::Update(1),
    {
        PlayerTurnUpdater::Update(1)
    }
}

impl Default for PlayerTurnChange {
    /// Advance by one in the current direction.
    fn default() -> (r: Self)
        ensures
            r == PlayerTurnChange::Update(PlayerTurnUpdater::Update(1)),
    {
        PlayerTurnChange::Update(PlayerTurnUpdater::Update(1))
    }
}

/// Moving an index by an updater in a direction among `n` players; a step
/// is taken with a remainder that is never negative.
pub open spec fn moved(index: int, direction: int, n: int, u: PlayerTurnUpdater) -> int {
    match u {
        PlayerTurnUpdater::SetTo(i) => i as int,
        PlayerTurnUpdater::Update(k) => (index + direction * k) % n,
    }
}

/// The (index, direction) pair after a turn change; a rotation reverses the
/// direction before the index moves.
pub open spec fn turn_after(index: int, direction: int, n: int, change: PlayerTurnChange) -> (int, int) {
    match change {
        PlayerTurnChange::Update(u) => (moved(index, direction, n, u), direction),
        PlayerTurnChange::Rotate(u) => (moved(index, -direction, n, u), -direction),
    }
}

/// Whether applying the change takes a step, and so a remainder by the player count.
pub open spec fn takes_step(change: PlayerTurnChange) -> bool {
    match change {
        PlayerTurnChange::Update(PlayerTurnUpdater::Update(_)) => true,
        PlayerTurnChange::Rotate(PlayerTurnUpdater::Update(_)) => true,
        _ => false,
    }
}

/// `x` modulo `n`, never negative.
fn euclid_mod(x: i128, n: usize) -> (r: usize)
    requires
        n > 0,
    ensures
        r as int == x as int % n as int,
{
    if x >= 0 {
        ((x as u128) % (n as u128)) as usize
    } else {
        let y = (-(x + 1)) as u128;
        let m = y % (n as u128);
        proof {
            let q = y as int / n as int;
            vstd::arithmetic::div_mod::lemma_fundamental_div_mod(y as int, n as int);
            assert(x as int == (-q - 1) * n as int + (n as int - 1 - m as int)) by (nonlinear_arith)
                requires
                    y as int == n as int * q + m as int,
                    x as int == -(y as int) - 1,
            ;
            vstd::arithmetic::div_mod::lemma_fundamental_div_mod_converse(
                x as int,
                n as int,
                -q - 1,
                n as int - 1 - m as int,
            );
        }
        (n as u128 - 1 - m) as usize
    }
}

/// Applies a turn change to a player index and a direction (1 or -1) among
/// `nb_players` players.
pub fn turn_update(index: usize, direction: isize, nb_players: usize, change: PlayerTurnChange) -> (r: (
    usize,
    isize,
))
    requires
        direction == 1 || direction == -1,
        takes_step(change) ==> nb_players > 0,
    ensures
        (r.0 as int, r.1 as int) == turn_after(index as int, direction as int, nb_players as int, change),
{
    let dir: isize = match change {
        PlayerTurnChange::Update(_) => direction,
        PlayerTurnChange::Rotate(_) => -direction,
    };
    let u = match change {
        PlayerTurnChange::Update(u) => u,
        PlayerTurnChange::Rotate(u) => u,
    };
    match u {
        PlayerTurnUpdater::SetTo(i) => (i, dir),
        PlayerTurnUpdater::Update(k) => {
            let delta: i128 = if dir == 1 {
                k as i128
            } else {
                -(k as i128)
            };
            assert(delta as int == dir as int * k as int);
            (euclid_mod(index as i128 + delta, nb_players), dir)
        },
    }
}

/// A step of zero leaves a valid player index and the direction unchanged.
pub proof fn law_step_zero_is_identity(index: int, direction: int, n: int)
    requires
        0 <= index < n,
        direction == 1 || direction == -1,
    ensures
        turn_after(index, direction, n, PlayerTurnChange::Update(PlayerTurnUpdater::Update(0))) == (
            index,
            direction,
        ),
{
    assert(direction * 0 == 0);
    vstd::arithmetic::div_mod::lemma_small_mod(index as nat, n as nat);
}

/// A rotation reverses the direction exactly once, whatever its updater.
pub proof fn law_rotate_flips_direction(index: int, direction: int, n: int, u: PlayerTurnUpdater)
    ensures
        turn_after(index, direction, n, PlayerTurnChange::Rotate(u)).1 == -direction,
{
}

} // verus!

//! The three-door game exercise. The host hides a car behind one of three
//! doors; the contestant picks one; the host opens a door that is neither
//! the car's nor the contestant's; the contestant may switch to the one
//! remaining door. All randomness — where the car is, the first pick, which
//! admissible door the host opens, whether to switch — is passed in, so the
//! game's outcome is a pure function of those draws.

use vstd::prelude::*;

verus! {

/// The outcome of one simulated game: whether the contestant's final door
/// hid the car, and whether they had switched.
pub struct SimulationResult {
    pub win: bool,
    pub switched: bool,
}

/// `seq![d]` if no blocked value is `d`, else empty.
pub open spec fn one_if_free(blocked: Seq<usize>, d: usize) -> Seq<usize> {
    if blocked.contains(d) {
        Seq::empty()
    } else {
        seq![d]
    }
}

/// The doors, of the three, that no listed value blocks, ascending.
pub open spec fn free_doors_spec(blocked: Seq<usize>) -> Seq<usize> {
    one_if_free(blocked, 0) + one_if_free(blocked, 1) + one_if_free(blocked, 2)
}

/// What a two-element list contains, spelled out.
pub proof fn lemma_pair_contains(a: usize, b: usize, d: usize)
    ensures
        seq![a, b].contains(d) == (a == d || b == d),
{
    let s = seq![a, b];
    if s.contains(d) {
        let i = choose|i: int| 0 <= i < s.len() && s[i] == d;
        assert(i == 0 || i == 1);
    }
    if a == d {
        assert(s[0] == d);
    }
    if b == d {
        assert(s[1] == d);
    }
}

/// Two blocked values cannot cover three doors: at least one stays free,
/// and every free door differs from both blocked values.
pub proof fn lemma_free_doors_members(s: Seq<usize>, a: usize, b: usize)
    requires
        s == seq![a, b],
    ensures
        free_doors_spec(s).len() >= 1,
        forall|k: int|
            0 <= k < free_doors_spec(s).len() ==> (#[trigger] free_doors_spec(s)[k]) < 3
                && free_doors_spec(s)[k] != a && free_doors_spec(s)[k] != b,
{
    lemma_pair_contains(a, b, 0);
    lemma_pair_contains(a, b, 1);
    lemma_pair_contains(a, b, 2);
}

/// Whether some listed value equals the given door.
fn contains_door(blocked: &Vec<usize>, d: usize) -> (b: bool)
    ensures
        b == blocked@.contains(d),
{
    let mut i: usize = 0;
    while i < blocked.len()
        invariant
            i <= blocked@.len(),
            forall|k: int| 0 <= k < i ==> blocked@[k] != d,
        decreases blocked@.len() - i,
    {
        if blocked[i] == d {
            assert(blocked@[i as int] == d);
            return true;
        }
        i += 1;
    }
    proof {
        if blocked@.contains(d) {
            let k = choose|k: int| 0 <= k < blocked@.len() && blocked@[k] == d;
            assert(false);
        }
    }
    false
}

/// The doors, of the three, that no listed value blocks.
pub fn free_doors(blocked: &Vec<usize>) -> (r: Vec<usize>)
    ensures
        r@ == free_doors_spec(blocked@),
{
    let mut r: Vec<usize> = Vec::new();
    if !contains_door(blocked, 0) {
        r.push(0);
    }
    if !contains_door(blocked, 1) {
        r.push(1);
    }
    if !contains_door(blocked, 2) {
        r.push(2);
    }
    proof {
        assert(r@ =~= free_doors_spec(blocked@));
    }
    r
}

/// The door switched to: with the current choice and the opened door
/// excluded, the first door still free — when the two differ, the one
/// remaining door.
pub fn switch_door(choice: usize, open: usize) -> (r: usize)
    ensures
        r == free_doors_spec(seq![choice, open])[0],
        r < 3,
        r != choice,
        r != open,
{
    proof {
        lemma_free_doors_members(seq![choice, open], choice, open);
    }
    let blocked = vec![choice, open];
    let doors = free_doors(&blocked);
    proof {
        assert(blocked@ =~= seq![choice, open]);
    }
    doors[0]
}

/// The door the host opens: of the doors hiding no car and not chosen, the
/// one at the host's pick `k`.
pub fn game_host_open(car: usize, choice: usize, k: usize) -> (r: usize)
    requires
        k < free_doors_spec(seq![car, choice]).len(),
    ensures
        r == free_doors_spec(seq![car, choice])[k as int],
        r < 3,
        r != car,
        r != choice,
{
    proof {
        lemma_free_doors_members(seq![car, choice], car, choice);
    }
    let blocked = vec![car, choice];
    let doors = free_doors(&blocked);
    proof {
        assert(blocked@ =~= seq![car, choice]);
    }
    doors[k]
}

/// The door the contestant ends on: the first choice, or the door switched
/// to after the host opened the door at pick `k`.
pub open spec fn final_choice(car: usize, choice: usize, k: int, switch: bool) -> usize {
    if switch {
        free_doors_spec(seq![choice, free_doors_spec(seq![car, choice])[k]])[0]
    } else {
        choice
    }
}

/// One game, with the randomness passed in: where the car is, the first
/// choice, the host's pick among the doors free to open, and whether the
/// contestant switches. The contestant wins when the final door hides the
/// car — and switching wins exactly when the first choice was wrong.
pub fn simulate(car: usize, choice: usize, k: usize, switch: bool) -> (r: SimulationResult)
    requires
        car < 3,
        choice < 3,
        k < free_doors_spec(seq![car, choice]).len(),
    ensures
        r.switched == switch,
        r.win == (final_choice(car, choice, k as int, switch) == car),
        switch ==> (r.win <==> car != choice),
{
    let open = game_host_open(car, choice, k);
    let mut c = choice;
    if switch {
        c = switch_door(choice, open);
    }
    SimulationResult { win: c == car, switched: switch }
}

} // verus!

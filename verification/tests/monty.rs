use loadbalancer::monty::free_doors;
use loadbalancer::monty::game_host_open;
use loadbalancer::monty::simulate;
use loadbalancer::monty::switch_door;

#[test]
fn free_doors_excludes_blocked() {
    assert_eq!(free_doors(&vec![0, 1]), vec![2]);
    assert_eq!(free_doors(&vec![2, 0]), vec![1]);
    assert_eq!(free_doors(&vec![1, 1]), vec![0, 2]);
    assert_eq!(free_doors(&vec![]), vec![0, 1, 2]);
}

#[test]
fn free_doors_ignores_values_off_the_board() {
    assert_eq!(free_doors(&vec![5, 7]), vec![0, 1, 2]);
}

#[test]
fn switch_door_takes_the_remaining_door() {
    assert_eq!(switch_door(0, 1), 2);
    assert_eq!(switch_door(1, 2), 0);
    assert_eq!(switch_door(2, 0), 1);
}

#[test]
fn game_host_avoids_car_and_choice() {
    // car and choice differ: one admissible door
    assert_eq!(game_host_open(0, 1, 0), 2);
    // car and choice coincide: two admissible doors, picked by k
    assert_eq!(game_host_open(0, 0, 0), 1);
    assert_eq!(game_host_open(0, 0, 1), 2);
}

#[test]
fn switching_wins_when_first_choice_was_wrong() {
    let r = simulate(0, 1, 0, true);
    assert!(r.win);
    assert!(r.switched);
}

#[test]
fn switching_loses_when_first_choice_was_right() {
    for k in 0..2 {
        let r = simulate(2, 2, k, true);
        assert!(!r.win);
        assert!(r.switched);
    }
}

#[test]
fn keeping_wins_exactly_on_the_car() {
    let hit = simulate(1, 1, 0, false);
    assert!(hit.win);
    assert!(!hit.switched);
    let miss = simulate(1, 0, 0, false);
    assert!(!miss.win);
    assert!(!miss.switched);
}

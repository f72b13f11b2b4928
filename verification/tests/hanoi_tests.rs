use game_logic::hanoi::hanoi;

#[test]
fn one_disk() {
    assert_eq!(hanoi(1), vec![(0, 2)]);
}

#[test]
fn two_disks() {
    assert_eq!(hanoi(2), vec![(0, 1), (0, 2), (1, 2)]);
}

#[test]
fn three_disks() {
    assert_eq!(
        hanoi(3),
        vec![(0, 2), (0, 1), (2, 1), (0, 2), (1, 0), (1, 2), (0, 2)]
    );
}

#[test]
fn zero_or_negative_disks_give_empty_sequence() {
    assert_eq!(hanoi(0), Vec::<(i32, i32)>::new());
    assert_eq!(hanoi(-3), Vec::<(i32, i32)>::new());
}

#[test]
fn solution_length_is_two_to_the_n_minus_one() {
    for n in 1..=10 {
        let moves = hanoi(n);
        assert_eq!(moves.len(), (1usize << n) - 1);
    }
}

#[test]
fn replay_is_legal_and_moves_the_tower() {
    for n in 1..=10i32 {
        let moves = hanoi(n);
        let mut pegs: Vec<Vec<i32>> = vec![(1..=n).rev().collect(), Vec::new(), Vec::new()];
        for &(from, to) in moves.iter() {
            assert!(0 <= from && from < 3 && 0 <= to && to < 3 && from != to);
            let disk = pegs[from as usize].pop().expect("move from an empty peg");
            if let Some(&top) = pegs[to as usize].last() {
                assert!(top > disk, "a larger disk was placed on a smaller one");
            }
            pegs[to as usize].push(disk);
        }
        assert!(pegs[0].is_empty());
        assert!(pegs[1].is_empty());
        let expected: Vec<i32> = (1..=n).rev().collect();
        assert_eq!(pegs[2], expected);
    }
}

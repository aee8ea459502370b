use gol3d::Game;
use gol3d::Life;
use gol3d::Position;

fn p(x: usize, y: usize, z: usize) -> Position {
    Position { x, y, z }
}

#[test]
fn test_it_can_create_game() {
    let game = Game::with_dimension(3).unwrap();
    assert_eq!(0, game.read(&p(0, 0, 0), 0));

    assert!(Game::with_dimension(2).is_err());
}

#[test]
fn test_it_can_init_game() {
    let mut game = Game::with_dimension(3).unwrap();
    game.init();

    assert_eq!(1, game.read(&p(0, 0, 0), 0));
    assert_eq!(1, game.read(&p(0, 0, 1), 0));
    assert_eq!(1, game.read(&p(0, 1, 0), 0));
    assert_eq!(1, game.read(&p(0, 1, 1), 0));
    assert_eq!(1, game.read(&p(1, 0, 0), 0));
    assert_eq!(1, game.read(&p(1, 0, 1), 0));
    assert_eq!(1, game.read(&p(1, 1, 0), 0));
    assert_eq!(1, game.read(&p(1, 1, 1), 0));
    assert_eq!(0, game.read(&p(1, 1, 2), 0));
    assert_eq!(0, game.read(&p(1, 2, 1), 0));
    assert_eq!(0, game.read(&p(1, 2, 2), 0));
    assert_eq!(0, game.read(&p(2, 1, 1), 0));
    assert_eq!(0, game.read(&p(2, 1, 2), 0));
    assert_eq!(0, game.read(&p(2, 2, 1), 0));
    assert_eq!(1, game.read(&p(2, 2, 2), 0));
}

#[test]
fn test_neighbours_of() {
    let mut game = Game::with_dimension(3).unwrap();
    game.init();

    assert_eq!(
        vec![
            p(0, 0, 1),
            p(0, 1, 0),
            p(0, 1, 1),
            p(1, 0, 0),
            p(1, 0, 1),
            p(1, 1, 0),
            p(1, 1, 1)
        ],
        game.neighbours_of(&p(0, 0, 0))
    );
    assert_eq!(
        vec![
            p(0, 0, 0),
            p(0, 0, 2),
            p(0, 1, 0),
            p(0, 1, 1),
            p(0, 1, 2),
            p(1, 0, 0),
            p(1, 0, 1),
            p(1, 0, 2),
            p(1, 1, 0),
            p(1, 1, 1),
            p(1, 1, 2)
        ],
        game.neighbours_of(&p(0, 0, 1))
    );
    assert_eq!(
        vec![
            p(0, 0, 0),
            p(0, 0, 1),
            p(0, 0, 2),
            p(0, 1, 0),
            p(0, 1, 1),
            p(0, 1, 2),
            p(0, 2, 0),
            p(0, 2, 1),
            p(0, 2, 2),
            p(1, 0, 0),
            p(1, 0, 1),
            p(1, 0, 2),
            p(1, 1, 0),
            p(1, 1, 2),
            p(1, 2, 0),
            p(1, 2, 1),
            p(1, 2, 2),
            p(2, 0, 0),
            p(2, 0, 1),
            p(2, 0, 2),
            p(2, 1, 0),
            p(2, 1, 1),
            p(2, 1, 2),
            p(2, 2, 0),
            p(2, 2, 1),
            p(2, 2, 2)
        ],
        game.neighbours_of(&p(1, 1, 1))
    );
}

#[test]
fn test_get_range() {
    let mut game = Game::with_dimension(3).unwrap();
    game.init();

    assert_eq!(vec![0usize, 1], game.get_range(0));
    assert_eq!(vec![0usize, 1, 2], game.get_range(1));
    assert_eq!(vec![1usize, 2], game.get_range(2));
}

#[test]
fn test_get_future_state() {
    let mut game = Game::with_dimension(3).unwrap();
    game.init();

    assert_eq!(0, game.get_next_state(&p(0, 0, 0)));
    assert_eq!(0, game.get_next_state(&p(0, 0, 1)));
    assert_eq!(0, game.get_next_state(&p(0, 1, 0)));
    assert_eq!(0, game.get_next_state(&p(0, 1, 1)));
    assert_eq!(0, game.get_next_state(&p(1, 0, 0)));
    assert_eq!(0, game.get_next_state(&p(1, 0, 1)));
    assert_eq!(0, game.get_next_state(&p(1, 1, 0)));
    assert_eq!(0, game.get_next_state(&p(1, 1, 1)));
    assert_eq!(0, game.get_next_state(&p(1, 1, 2)));
    assert_eq!(0, game.get_next_state(&p(1, 2, 1)));
    assert_eq!(1, game.get_next_state(&p(1, 2, 2)));
    assert_eq!(0, game.get_next_state(&p(2, 1, 1)));
    assert_eq!(1, game.get_next_state(&p(2, 1, 2)));
    assert_eq!(1, game.get_next_state(&p(2, 2, 1)));
    assert_eq!(0, game.get_next_state(&p(2, 2, 2)));

    game.next();

    assert_eq!(0, game.get_next_state(&p(0, 0, 0)));
    assert_eq!(1, game.get_next_state(&p(0, 0, 1)));
    assert_eq!(1, game.get_next_state(&p(0, 1, 0)));
    assert_eq!(0, game.get_next_state(&p(0, 1, 1)));
    assert_eq!(1, game.get_next_state(&p(1, 0, 0)));
    assert_eq!(0, game.get_next_state(&p(1, 0, 1)));
    assert_eq!(0, game.get_next_state(&p(1, 1, 0)));
    assert_eq!(0, game.get_next_state(&p(1, 1, 1)));
    assert_eq!(0, game.get_next_state(&p(1, 1, 2)));
    assert_eq!(0, game.get_next_state(&p(1, 2, 1)));
    assert_eq!(0, game.get_next_state(&p(1, 2, 2)));
    assert_eq!(0, game.get_next_state(&p(2, 1, 1)));
    assert_eq!(0, game.get_next_state(&p(2, 1, 2)));
    assert_eq!(0, game.get_next_state(&p(2, 2, 1)));
    assert_eq!(1, game.get_next_state(&p(2, 2, 2)));

    game.next();

    assert_eq!(1, game.get_next_state(&p(0, 0, 0)));
    assert_eq!(2, game.get_next_state(&p(0, 0, 1)));
    assert_eq!(2, game.get_next_state(&p(0, 1, 0)));
    assert_eq!(0, game.get_next_state(&p(0, 1, 1)));
    assert_eq!(2, game.get_next_state(&p(1, 0, 0)));
    assert_eq!(0, game.get_next_state(&p(1, 0, 1)));
    assert_eq!(0, game.get_next_state(&p(1, 1, 0)));
    assert_eq!(0, game.get_next_state(&p(1, 1, 1)));
    assert_eq!(0, game.get_next_state(&p(1, 1, 2)));
    assert_eq!(0, game.get_next_state(&p(1, 2, 1)));
    assert_eq!(1, game.get_next_state(&p(1, 2, 2)));
    assert_eq!(0, game.get_next_state(&p(2, 1, 1)));
    assert_eq!(1, game.get_next_state(&p(2, 1, 2)));
    assert_eq!(1, game.get_next_state(&p(2, 2, 1)));
    assert_eq!(0, game.get_next_state(&p(2, 2, 2)));
}

#[test]
fn test_it_compute_next_state() {
    let mut game = Game::with_dimension(3).unwrap();
    game.init();
    game.next();

    assert_eq!(0, game.read(&p(0, 0, 0), 1));
    assert_eq!(0, game.read(&p(0, 0, 1), 1));
    assert_eq!(0, game.read(&p(0, 1, 0), 1));
    assert_eq!(0, game.read(&p(0, 1, 1), 1));
    assert_eq!(0, game.read(&p(1, 0, 0), 1));
    assert_eq!(0, game.read(&p(1, 0, 1), 1));
    assert_eq!(0, game.read(&p(1, 1, 0), 1));
    assert_eq!(0, game.read(&p(1, 1, 1), 1));
    assert_eq!(0, game.read(&p(1, 1, 2), 1));
    assert_eq!(0, game.read(&p(1, 2, 1), 1));
    assert_eq!(1, game.read(&p(1, 2, 2), 1));
    assert_eq!(0, game.read(&p(2, 1, 1), 1));
    assert_eq!(1, game.read(&p(2, 1, 2), 1));
    assert_eq!(1, game.read(&p(2, 2, 1), 1));
    assert_eq!(0, game.read(&p(2, 2, 2), 1));
}

use mastermind::mastermind_gameplay::game;
use mastermind::mastermind_mechanics::{grade, CodeType, ConfigType};

#[test]
fn game_grades_and_records_guesses() {
    let config = ConfigType::new(4, 6);
    let mut g = game::new(&config);
    assert_eq!(g.guesses.len(), 0);
    assert_eq!(g.solution.len(), 4);
    let guess = CodeType::new(vec![0, 1, 2, 3]);
    let expected = grade(&guess, &g.solution);
    let done = g.guess(guess.clone());
    assert_eq!(g.guesses.len(), 1);
    assert_eq!(g.guesses[0].result, expected);
    assert_eq!(done, expected.positions == 4);
    let solution = g.solution.clone();
    assert!(g.guess(solution));
    assert_eq!(g.guesses.len(), 2);
}

use nonogram_solver::cell::CellPattern;
use nonogram_solver::config::Config;
use nonogram_solver::process::{render_map, solve_nonogram};
use nonogram_solver::puzzle_info::PuzzleInfo;

const PE: CellPattern = CellPattern::Empty;
const PU: CellPattern = CellPattern::Uncertain;
const PF: CellPattern = CellPattern::Filled;

#[test]
fn config_keeps_what_it_is_given() {
    let config = Config::new(true, ".".to_string(), "??".to_string(), "#".to_string());
    assert!(config.process());
    assert_eq!(config.empty_symbol(), ".");
    assert_eq!(config.uncertain_symbol(), "??");
    assert_eq!(config.filled_symbol(), "#");
    let config = Config::new(false, String::new(), "\u{2591}".to_string(), "\u{2588}".to_string());
    assert!(!config.process());
    assert_eq!(config.empty_symbol(), "");
    assert_eq!(config.uncertain_symbol(), "\u{2591}");
    assert_eq!(config.filled_symbol(), "\u{2588}");
}

#[test]
fn render_one_line_for_each_row() {
    let config = Config::new(false, " ".to_string(), "?".to_string(), "X".to_string());
    let map = vec![vec![PF, PE, PU], vec![PE, PE, PF]];
    assert_eq!(render_map(&config, &map), vec!["X ?".to_string(), "  X".to_string()]);
}

#[test]
fn render_symbols_of_any_length() {
    let config = Config::new(false, "".to_string(), "<?>".to_string(), "\u{2588}\u{2588}".to_string());
    let map = vec![vec![PF, PE, PU, PF], vec![]];
    assert_eq!(
        render_map(&config, &map),
        vec!["\u{2588}\u{2588}<?>\u{2588}\u{2588}".to_string(), String::new()]
    );
}

#[test]
fn render_a_grid_without_rows() {
    let config = Config::new(false, " ".to_string(), "?".to_string(), "X".to_string());
    assert_eq!(render_map(&config, &vec![]), Vec::<String>::new());
}

#[test]
fn render_a_solved_puzzle() {
    let rows = vec![vec![5], vec![1, 1], vec![1, 1, 1], vec![1, 1], vec![5]];
    let puzzle = PuzzleInfo::new(5, 5, rows.clone(), rows);
    let solution =
        solve_nonogram(puzzle, Config::new(false, ".".to_string(), "?".to_string(), "X".to_string()))
            .unwrap();
    let config = Config::new(false, ".".to_string(), "?".to_string(), "X".to_string());
    assert_eq!(render_map(&config, &solution.grid), vec!["XXXXX", "X...X", "X.X.X", "X...X", "XXXXX"]);
}

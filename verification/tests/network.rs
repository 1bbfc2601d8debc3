//! Patches and weights of the neural estimator.

use minesweeper_core::probability::patch::{Fraction, PatchSource, PATCH_LEN};
use minesweeper_core::probability::{BoardScorer, PatchCnn, WeightsError};
use minesweeper_core::{CellContent, CellState, Minesweeper};

fn no() -> Fraction {
    Fraction { part: 0, whole: 1 }
}

fn yes() -> Fraction {
    Fraction { part: 1, whole: 1 }
}

/// Two columns by one row: a 1, and a hidden mine.
fn tiny() -> Minesweeper {
    let mut game = Minesweeper::new(3, 1, 1);
    game.grid[0][0].content = CellContent::Empty(1);
    game.grid[0][0].state = CellState::Visible;
    game.grid[0][1].content = CellContent::Mine;
    game.grid[0][2].content = CellContent::Empty(1);
    game.grid[0][2].state = CellState::Flagged;
    game.mines_generated = true;
    game
}

/// A file that is not a weights file, or is the wrong size for this architecture, must
/// be refused rather than read as garbage.
#[test]
fn nonsense_weights_are_refused() {
    assert_eq!(PatchCnn::from_bytes(b"").err(), Some(WeightsError::BadMagic));
    assert_eq!(PatchCnn::from_bytes(b"not a model at all").err(), Some(WeightsError::BadMagic));

    let mut truncated = b"MSPCNN1\0".to_vec();
    truncated.extend(std::iter::repeat(0u8).take(4 * 100));
    assert!(matches!(
        PatchCnn::from_bytes(&truncated).err(),
        Some(WeightsError::WrongLength { .. })
    ));
    assert_eq!(
        PatchCnn::from_bytes(&truncated).err(),
        Some(WeightsError::WrongLength { found: 100, expected: 121_665 })
    );
}

#[test]
fn errors_say_what_is_wrong() {
    assert_eq!(WeightsError::BadMagic.to_string(), "not a PatchCNN weights file");
    assert_eq!(
        WeightsError::WrongLength { found: 100, expected: 121_665 }.to_string(),
        "weights file holds 100 values, this network wants 121665"
    );
}

#[test]
fn weights_are_taken_in_order() {
    let mut bytes = b"MSPCNN1\0".to_vec();
    for i in 0..121_665u32 {
        bytes.extend(i.to_le_bytes());
    }
    // Bytes that do not make a whole value are left over.
    bytes.extend([1, 2, 3]);
    let network = match PatchCnn::from_bytes(&bytes) {
        Ok(network) => network,
        Err(error) => panic!("{}", error.to_string()),
    };
    assert_eq!(
        network.to_string(),
        "PatchCnn { 4 convolutions, 3 linear layers, 121665 weights }"
    );
    let mut next = 0;
    for layer in network.convs.iter().chain(&network.linears) {
        for value in layer.weight.iter().chain(&layer.bias) {
            assert_eq!(*value, next);
            next += 1;
        }
    }
    assert_eq!(next, 121_665);
    let shapes: Vec<(usize, usize)> =
        network.convs.iter().chain(&network.linears).map(|l| (l.outputs, l.inputs)).collect();
    assert_eq!(
        shapes,
        vec![(32, 8), (64, 32), (64, 64), (32, 64), (128, 289), (64, 128), (1, 64)]
    );
    for layer in network.convs.iter().chain(&network.linears) {
        assert_eq!(layer.bias.len(), layer.outputs);
    }
}

#[test]
fn a_patch_has_the_board_in_its_channels() {
    let patch = PatchSource::new(&tiny()).fill(1, 0);
    assert_eq!(patch.len(), PATCH_LEN);
    // The middle of the patch is at row 4, column 4.
    let at = |channel: usize, row: usize, column: usize| patch[channel * 81 + row * 9 + column];
    // The 1 is to the left of the middle.
    assert_eq!(at(0, 4, 3), Fraction { part: 1, whole: 8 });
    assert_eq!(at(1, 4, 3), yes());
    assert_eq!(at(2, 4, 3), no());
    assert_eq!(at(7, 4, 3), no());
    // The middle is hidden, and touches the 1.
    assert_eq!(at(0, 4, 4), no());
    assert_eq!(at(2, 4, 4), yes());
    assert_eq!(at(5, 4, 4), yes());
    assert_eq!(at(7, 4, 4), yes());
    // The flag is to the right, and touches no number.
    assert_eq!(at(3, 4, 5), yes());
    assert_eq!(at(7, 4, 5), no());
    // All the rest is off the board.
    assert_eq!(at(4, 4, 2), yes());
    assert_eq!(at(4, 3, 4), yes());
    assert_eq!(at(4, 4, 4), no());
    assert_eq!(at(5, 0, 0), no());
    // Each cell is visible, hidden, flagged or off the board, and only one of these.
    for row in 0..9 {
        for column in 0..9 {
            let states = (1..5).map(|channel| at(channel, row, column).part).sum::<usize>();
            assert_eq!(states, 1);
        }
    }
    // One mine is left; one cell is hidden, the flagged one does not count.
    for pos in 0..81 {
        assert_eq!(patch[6 * 81 + pos], Fraction { part: 1, whole: 1 });
    }
}

#[test]
fn a_visible_mine_shows_no_number() {
    let mut game = tiny();
    game.grid[0][1].state = CellState::Visible;
    let patch = PatchSource::new(&game).fill(1, 0);
    assert_eq!(patch[4 * 9 + 4], no());
    assert_eq!(patch[81 + 4 * 9 + 4], yes());
    // No mine is left, and no cell is hidden.
    assert_eq!(patch[6 * 81], Fraction { part: 0, whole: 1 });
}

#[test]
fn scoring_hands_out_every_unopened_cell_once() {
    let game = tiny();
    let mut scorer = BoardScorer::new(&game);
    assert_eq!(scorer.remaining(), 2);
    let first = scorer.step(1);
    assert_eq!(first.len(), 1);
    assert_eq!(first[0].0, (1, 0));
    assert_eq!(first[0].1, PatchSource::new(&game).fill(1, 0));
    assert_eq!(scorer.remaining(), 1);
    let rest = scorer.step(10);
    assert_eq!(rest.len(), 1);
    assert_eq!(rest[0].0, (2, 0));
    assert_eq!(scorer.remaining(), 0);
    assert!(scorer.step(10).is_empty());
}

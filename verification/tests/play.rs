use scratch_card::models::{Cell, Game, GameError};
use scratch_card::text::{push_decimal, to_hex_lower};

fn page(amounts: &[u32]) -> Game {
    let cells = amounts
        .iter()
        .enumerate()
        .map(|(i, a)| Cell {
            id: i as u8,
            amount: *a,
            label: if *a > 0 { format!("${a}") } else { "$0".to_string() },
            revealed: false,
        })
        .collect();
    Game { id: "p".to_string(), cells, finished: false, created_at: 0 }
}

#[test]
fn winning_settlement_message() {
    let mut g = page(&[20, 0, 5]);
    g.reveal_cell(0).unwrap();
    g.reveal_cell(1).unwrap();
    let f = g.finish().unwrap();
    assert_eq!(f.reward, 20);
    assert!(f.win);
    assert_eq!(f.message, "本页共中奖 $20！");
}

#[test]
fn losing_settlement_message() {
    let mut g = page(&[20, 0, 5]);
    g.reveal_cell(1).unwrap();
    let f = g.finish().unwrap();
    assert_eq!(f.reward, 0);
    assert!(!f.win);
    assert_eq!(f.message, "谢谢参与，再接再厉！");
}

#[test]
fn reveal_answers_the_cell_and_keeps_amounts() {
    let mut g = page(&[0, 100]);
    let r = g.reveal_cell(1).unwrap();
    assert_eq!((r.cell_id, r.amount, r.label.as_str(), r.win), (1, 100, "$100", true));
    let r = g.reveal_cell(0).unwrap();
    assert_eq!((r.cell_id, r.amount, r.label.as_str(), r.win), (0, 0, "$0", false));
    assert_eq!(g.cells[1].amount, 100);
    assert!(g.cells.iter().all(|c| c.revealed));
}

#[test]
fn refusals_change_nothing() {
    let mut g = page(&[5, 6]);
    assert_eq!(g.reveal_cell(7).unwrap_err(), GameError::CellOutOfRange);
    assert!(g.cells.iter().all(|c| !c.revealed));
    g.finish().unwrap();
    assert_eq!(g.reveal_cell(0).unwrap_err(), GameError::AlreadyFinished);
    assert!(g.cells.iter().all(|c| !c.revealed));
}

#[test]
fn duplicate_cell_numbers_reveal_the_first() {
    let mut g = page(&[5, 6]);
    g.cells[1].id = 0;
    let r = g.reveal_cell(0).unwrap();
    assert_eq!(r.amount, 5);
    assert!(g.cells[0].revealed && !g.cells[1].revealed);
    assert_eq!(g.reveal_cell(0).unwrap_err(), GameError::AlreadyRevealed);
}

#[test]
fn revealed_reward_checks_u32() {
    let mut g = page(&[u32::MAX, 1]);
    assert_eq!(g.revealed_reward(), Some(0));
    g.reveal_cell(0).unwrap();
    assert_eq!(g.revealed_reward(), Some(u32::MAX));
    g.reveal_cell(1).unwrap();
    assert_eq!(g.revealed_reward(), None);
}

#[test]
fn decimal_and_hex_text() {
    let mut s = String::from("n=");
    push_decimal(&mut s, 0);
    push_decimal(&mut s, 1907);
    assert_eq!(s, "n=01907");
    let mut s = String::new();
    push_decimal(&mut s, u32::MAX);
    assert_eq!(s, "4294967295");
    assert_eq!(to_hex_lower(&[0x00, 0x0a, 0xff, 0x3c]), "000aff3c");
}

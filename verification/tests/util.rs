use eternity_solver::structs::{Piece, RotatedPiece};
use eternity_solver::util::{
    board_file, board_text, checkpoint_file_name, decimal_digits, find_in_catalog, hex_digit_of,
    push_all, push_cell_letters, push_cell_token,
};

fn piece(number: u16, top: u8, right: u8, bottom: u8, left: u8) -> Piece {
    Piece { piece_number: number, top_side: top, right_side: right, bottom_side: bottom, left_side: left }
}

fn placed(number: u16, rotations: u8) -> RotatedPiece {
    RotatedPiece {
        piece_number: number,
        rotations,
        top_side: 0,
        right_side: 0,
        break_count: 0,
        heuristic_side_count: 0,
    }
}

fn catalog() -> Vec<Piece> {
    vec![piece(1, 2, 3, 0, 0), piece(17, 1, 2, 3, 4), piece(256, 22, 0, 21, 20)]
}

fn text(bytes: Vec<u8>) -> String {
    String::from_utf8(bytes).unwrap()
}

const HEAD: &str =
    "https://e2.bucas.name/#puzzle=Joshua_Blackwood&board_w=16&board_h=16&board_edges=";
const TAIL: &str = "&motifs_order=jblackwood";

#[test]
fn decimal_digits_of_some_numbers() {
    assert_eq!(text(decimal_digits(0)), "0");
    assert_eq!(text(decimal_digits(7)), "7");
    assert_eq!(text(decimal_digits(10)), "10");
    assert_eq!(text(decimal_digits(256)), "256");
    assert_eq!(text(decimal_digits(999_999)), "999999");
    assert_eq!(text(decimal_digits(u32::MAX)), "4294967295");
}

#[test]
fn hex_digits_are_lower_case() {
    let digits: Vec<u8> = (0..16).map(hex_digit_of).collect();
    assert_eq!(text(digits), "0123456789abcdef");
}

#[test]
fn push_all_appends() {
    let mut out = b"ab".to_vec();
    push_all(&mut out, b"cde");
    push_all(&mut out, b"");
    assert_eq!(text(out), "abcde");
}

#[test]
fn cell_tokens_are_right_aligned() {
    let mut out = Vec::new();
    push_cell_token(&mut out, &placed(7, 0));
    push_cell_token(&mut out, &placed(42, 3));
    push_cell_token(&mut out, &placed(256, 1));
    push_cell_token(&mut out, &placed(0, 2));
    push_cell_token(&mut out, &placed(1000, 2));
    assert_eq!(text(out), "  7/0  42/3 256/1 ---/- 1000/2 ");
}

#[test]
fn find_in_catalog_takes_the_first_match() {
    let mut pieces = catalog();
    pieces.push(piece(17, 9, 9, 9, 9));
    assert_eq!(find_in_catalog(&pieces, 17), Some(piece(17, 1, 2, 3, 4)));
    assert_eq!(find_in_catalog(&pieces, 256), Some(piece(256, 22, 0, 21, 20)));
    assert_eq!(find_in_catalog(&pieces, 2), None);
}

#[test]
fn cell_letters_follow_the_rotation() {
    let pieces = catalog();
    let letters = |cell: RotatedPiece| -> String {
        let mut out = Vec::new();
        push_cell_letters(&mut out, &cell, &pieces);
        text(out)
    };
    // Piece 17: top 1, right 2, bottom 3, left 4.
    assert_eq!(letters(placed(17, 0)), "bcde");
    assert_eq!(letters(placed(17, 1)), "ebcd");
    assert_eq!(letters(placed(17, 2)), "debc");
    assert_eq!(letters(placed(17, 3)), "cdeb");
    assert_eq!(letters(placed(256, 0)), "wavu");
    assert_eq!(letters(placed(0, 0)), "aaaa");
    // A piece that the catalog lacks gets no letters.
    assert_eq!(letters(placed(99, 0)), "");
}

#[test]
fn text_of_the_empty_board() {
    let board = [RotatedPiece::default(); 256];
    let got = text(board_text(&board, &catalog()));
    let row = format!("{}\n", "---/- ".repeat(16));
    let expected = format!("{}\n{}{}{}", row.repeat(16), HEAD, "aaaa".repeat(256), TAIL);
    assert_eq!(got, expected);
}

#[test]
fn text_of_a_board_with_three_pieces() {
    let mut board = [RotatedPiece::default(); 256];
    board[0] = placed(1, 0);
    board[1] = placed(17, 1);
    board[255] = placed(256, 2);
    let got = text(board_text(&board, &catalog()));
    let lines: Vec<&str> = got.split('\n').collect();
    assert_eq!(lines.len(), 18);
    // The top row comes first and holds the last cell of the board.
    assert_eq!(lines[0], format!("{}256/2 ", "---/- ".repeat(15)));
    for line in &lines[1..15] {
        assert_eq!(*line, "---/- ".repeat(16));
    }
    assert_eq!(lines[15], format!("  1/0  17/1 {}", "---/- ".repeat(14)));
    assert_eq!(lines[16], "");
    // The letters run row by row from the bottom row.
    let letters = format!("{}{}{}{}", "cdaa", "ebcd", "aaaa".repeat(253), "vuwa");
    assert_eq!(lines[17], format!("{}{}{}", HEAD, letters, TAIL));
}

#[test]
fn file_name_joins_depth_digest_and_number() {
    let digest: [u8; 16] = [
        0x00, 0x01, 0x0f, 0x10, 0x7f, 0x80, 0x9a, 0xbc, 0xde, 0xf0, 0xff, 0x12, 0x34, 0x56, 0x78,
        0x90,
    ];
    assert_eq!(
        text(checkpoint_file_name(252, &digest, 42)),
        "252_00010f107f809abcdef0ff1234567890_42.txt"
    );
    assert_eq!(
        text(checkpoint_file_name(0, &[0u8; 16], 999_999)),
        "0_00000000000000000000000000000000_999999.txt"
    );
}

#[test]
fn board_file_is_named_after_the_digest_of_its_contents() {
    let mut board = [RotatedPiece::default(); 256];
    board[0] = placed(1, 0);
    let pieces = catalog();
    let file = board_file(&board, &pieces, 253);
    assert_eq!(file.contents, board_text(&board, &pieces));
    let name = text(file.name);
    let parts: Vec<&str> = name.trim_end_matches(".txt").split('_').collect();
    assert!(name.ends_with(".txt"));
    assert_eq!(parts.len(), 3);
    assert_eq!(parts[0], "253");
    assert_eq!(parts[1], format!("{:x}", md5::compute(&file.contents)));
    let nonce: u32 = parts[2].parse().unwrap();
    assert!(nonce < 1_000_000);
    assert_eq!(parts[2], nonce.to_string());
}

#[test]
fn digest_of_a_known_text() {
    // The digest in the name is that of the contents, not the contents
    // themselves: the empty board has a fixed digest.
    let board = [RotatedPiece::default(); 256];
    let first = text(board_file(&board, &catalog(), 1).name);
    let second = text(board_file(&board, &catalog(), 1).name);
    assert_eq!(first.split('_').nth(1), second.split('_').nth(1));
    assert_eq!(first.split('_').nth(1).unwrap().len(), 32);
}

//! The text of a saved board: the grid of pieces as a reader sees it, the
//! link that shows it in a viewer, and the name of the file that holds both.

use vstd::prelude::*;
use vstd::string::StringSliceAdditionalSpecFns;
use crate::rng::random_u32;
use crate::solver_data::valid_catalog;
use crate::structs::{Piece, RotatedPiece};

verus! {

/// The link up to the edge letters.
pub const URL_HEAD: &'static str =
    "https://e2.bucas.name/#puzzle=Joshua_Blackwood&board_w=16&board_h=16&board_edges=";

/// The link after the edge letters.
pub const URL_TAIL: &'static str = "&motifs_order=jblackwood";

/// The ending of the name of a saved board.
pub const FILE_ENDING: &'static str = ".txt";

/// Exclusive upper bound of the random number in the name of a saved board.
pub const NONCE_BOUND: u32 = 1_000_000;

/// The byte of the digit `0`.
pub const DIGIT_ZERO: u8 = 48;

/// The byte of the letter `a`.
pub const LETTER_A: u8 = 97;

/// The byte of a space.
pub const SPACE: u8 = 32;

/// The byte of a slash.
pub const SLASH: u8 = 47;

/// The byte of a dash.
pub const DASH: u8 = 45;

/// The byte of an underscore.
pub const UNDERSCORE: u8 = 95;

/// The byte of a line feed.
pub const LINE_FEED: u8 = 10;

/// The MD5 digest of a sequence of bytes, as the `md5` crate computes it.
pub uninterp spec fn md5_digest(data: Seq<u8>) -> Seq<u8>;

/// The digest of `data` from `md5::compute`: sixteen bytes that depend on
/// the bytes of `data` alone.
#[verifier::external_body]
pub(crate) fn md5_of(data: &Vec<u8>) -> (digest: [u8; 16])
    ensures
        digest@ == md5_digest(data@),
{
    md5::compute(data).0
}

/// The decimal digits of `n`, most significant first.
pub open spec fn decimal(n: nat) -> Seq<u8>
    decreases n,
{
    if n < 10 {
        seq![(DIGIT_ZERO + n) as u8]
    } else {
        decimal(n / 10).push((DIGIT_ZERO + n % 10) as u8)
    }
}

/// `count` spaces.
pub open spec fn spaces(count: int) -> Seq<u8> {
    Seq::new(
        if count > 0 {
            count as nat
        } else {
            0
        },
        |i: int| SPACE,
    )
}

/// `text` moved to the right end of a field of `width` bytes, or `text`
/// itself where it is longer.
pub open spec fn right_aligned(text: Seq<u8>, width: int) -> Seq<u8> {
    spaces(width - text.len()) + text
}

/// The lower-case hexadecimal digit of a value below 16.
pub open spec fn hex_digit(value: u8) -> u8 {
    if value < 10 {
        (DIGIT_ZERO + value) as u8
    } else {
        (LETTER_A + value - 10) as u8
    }
}

/// Two lower-case hexadecimal digits for each byte.
pub open spec fn hex(bytes: Seq<u8>) -> Seq<u8>
    decreases bytes.len(),
{
    if bytes.len() == 0 {
        Seq::empty()
    } else {
        hex(bytes.drop_last()).push(hex_digit(bytes.last() / 16)).push(hex_digit(bytes.last() % 16))
    }
}

/// What a cell reads as in the grid: the piece number in a field of three,
/// a slash, the rotation and a space; or dashes for an empty cell.
pub open spec fn cell_token(cell: RotatedPiece) -> Seq<u8> {
    if cell.piece_number > 0 {
        right_aligned(decimal(cell.piece_number as nat), 3) + seq![SLASH] + decimal(
            cell.rotations as nat,
        ) + seq![SPACE]
    } else {
        seq![DASH, DASH, DASH, SLASH, DASH, SPACE]
    }
}

/// The tokens of the first `cells` cells of a row.
pub open spec fn row_tokens(board: Seq<RotatedPiece>, row: int, cells: int) -> Seq<u8>
    decreases cells,
{
    if cells <= 0 {
        Seq::empty()
    } else {
        row_tokens(board, row, cells - 1) + cell_token(board[row * 16 + cells - 1])
    }
}

/// The grid from the top row down to row `row`, each row ended by a line feed.
pub open spec fn grid_from_top(board: Seq<RotatedPiece>, row: int) -> Seq<u8>
    decreases 16 - row,
{
    if row >= 16 {
        Seq::empty()
    } else {
        grid_from_top(board, row + 1) + row_tokens(board, row, 16) + seq![LINE_FEED]
    }
}

/// The first piece of the catalog, from position `from` on, that has the
/// given number.
pub open spec fn find_piece(pieces: Seq<Piece>, number: u16, from: int) -> Option<Piece>
    decreases pieces.len() - from,
{
    if from < 0 || from >= pieces.len() {
        None
    } else if pieces[from].piece_number == number {
        Some(pieces[from])
    } else {
        find_piece(pieces, number, from + 1)
    }
}

/// The letter of a colour: `a` for the frame, and on through the alphabet.
pub open spec fn edge_letter(color: u8) -> u8 {
    (LETTER_A + color) as u8
}

/// The four letters of a cell in the link: the colours that the piece shows
/// upwards, to the right, downwards and to the left as it lies; four times
/// `a` for an empty cell; nothing for a piece that the catalog lacks.
pub open spec fn cell_letters(cell: RotatedPiece, pieces: Seq<Piece>) -> Seq<u8> {
    if cell.piece_number > 0 {
        match find_piece(pieces, cell.piece_number, 0) {
            Some(piece) => {
                let lying = piece.spec_rotated(
                    if cell.rotations < 3 {
                        cell.rotations
                    } else {
                        3
                    },
                );
                seq![
                    edge_letter(lying.top_side),
                    edge_letter(lying.right_side),
                    edge_letter(lying.bottom_side),
                    edge_letter(lying.left_side),
                ]
            },
            None => Seq::empty(),
        }
    } else {
        seq![LETTER_A, LETTER_A, LETTER_A, LETTER_A]
    }
}

/// The letters of the first `cells` cells of the board, row by row from the
/// bottom row.
pub open spec fn board_letters(board: Seq<RotatedPiece>, pieces: Seq<Piece>, cells: int) -> Seq<u8>
    decreases cells,
{
    if cells <= 0 {
        Seq::empty()
    } else {
        board_letters(board, pieces, cells - 1) + cell_letters(board[cells - 1], pieces)
    }
}

/// The text of a saved board: the grid, an empty line, and the link.
pub open spec fn board_text_of(board: Seq<RotatedPiece>, pieces: Seq<Piece>) -> Seq<u8> {
    grid_from_top(board, 0) + seq![LINE_FEED] + URL_HEAD.spec_bytes() + board_letters(
        board,
        pieces,
        256,
    ) + URL_TAIL.spec_bytes()
}

/// The name of the file of a saved board: the depth, the digest of the text
/// in hexadecimal and a number, joined by underscores.
pub open spec fn file_name_of(depth: u16, digest: Seq<u8>, nonce: u32) -> Seq<u8> {
    decimal(depth as nat) + seq![UNDERSCORE] + hex(digest) + seq![UNDERSCORE] + decimal(nonce as nat)
        + FILE_ENDING.spec_bytes()
}

/// Appends `bytes` to `out`.
pub fn push_all(out: &mut Vec<u8>, bytes: &[u8])
    ensures
        final(out)@ == old(out)@ + bytes@,
{
    let mut i: usize = 0;
    while i < bytes.len()
        invariant
            i <= bytes.len(),
            out@ == old(out)@ + bytes@.take(i as int),
        decreases bytes.len() - i,
    {
        out.push(bytes[i]);
        assert(bytes@.take(i + 1) =~= bytes@.take(i as int).push(bytes[i as int]));
        i += 1;
    }
    assert(bytes@.take(bytes.len() as int) =~= bytes@);
}

/// The decimal digits of `n`.
pub fn decimal_digits(n: u32) -> (digits: Vec<u8>)
    ensures
        digits@ == decimal(n as nat),
        digits.len() >= 1,
    decreases n,
{
    if n < 10 {
        let mut digits: Vec<u8> = Vec::new();
        digits.push(DIGIT_ZERO + n as u8);
        digits
    } else {
        let mut digits = decimal_digits(n / 10);
        digits.push(DIGIT_ZERO + (n % 10) as u8);
        digits
    }
}

/// The lower-case hexadecimal digit of a value below 16.
pub fn hex_digit_of(value: u8) -> (digit: u8)
    requires
        value < 16,
    ensures
        digit == hex_digit(value),
{
    if value < 10 {
        DIGIT_ZERO + value
    } else {
        LETTER_A + (value - 10)
    }
}

/// Appends what `cell` reads as in the grid.
pub fn push_cell_token(out: &mut Vec<u8>, cell: &RotatedPiece)
    ensures
        final(out)@ == old(out)@ + cell_token(*cell),
{
    if cell.piece_number > 0 {
        let digits = decimal_digits(cell.piece_number as u32);
        let ghost before = out@;
        let mut pad: usize = digits.len();
        assert(out@ =~= before + spaces(0));
        while pad < 3
            invariant
                digits.len() <= pad,
                pad <= 3 || pad == digits.len(),
                out@ == before + spaces(pad - digits.len()),
            decreases 3 - pad,
        {
            out.push(SPACE);
            pad += 1;
            assert(out@ =~= before + spaces(pad - digits.len()));
        }
        assert(spaces(pad - digits.len()) =~= spaces(3 - digits.len()));
        push_all(out, digits.as_slice());
        out.push(SLASH);
        let rotation = decimal_digits(cell.rotations as u32);
        push_all(out, rotation.as_slice());
        out.push(SPACE);
        assert(out@ =~= before + cell_token(*cell));
    } else {
        out.push(DASH);
        out.push(DASH);
        out.push(DASH);
        out.push(SLASH);
        out.push(DASH);
        out.push(SPACE);
        assert(out@ =~= old(out)@ + cell_token(*cell));
    }
}

/// Looks up the first piece of the catalog with the given number.
pub fn find_in_catalog(pieces: &Vec<Piece>, number: u16) -> (found: Option<Piece>)
    ensures
        found == find_piece(pieces@, number, 0),
{
    let mut j: usize = 0;
    while j < pieces.len()
        invariant
            j <= pieces.len(),
            find_piece(pieces@, number, 0) == find_piece(pieces@, number, j as int),
        decreases pieces.len() - j,
    {
        if pieces[j].piece_number == number {
            return Some(pieces[j]);
        }
        j += 1;
    }
    None
}

/// Appends the letters of `cell` in the link.
pub fn push_cell_letters(out: &mut Vec<u8>, cell: &RotatedPiece, pieces: &Vec<Piece>)
    requires
        valid_catalog(pieces@),
    ensures
        final(out)@ == old(out)@ + cell_letters(*cell, pieces@),
{
    if cell.piece_number > 0 {
        match find_in_catalog(pieces, cell.piece_number) {
            Some(piece) => {
                proof {
                    lemma_found_piece(pieces@, cell.piece_number, 0);
                    crate::structs::lemma_rotation_keeps_wf(
                        piece,
                        if cell.rotations < 3 {
                            cell.rotations
                        } else {
                            3
                        },
                    );
                }
                let lying = piece.rotated(
                    if cell.rotations < 3 {
                        cell.rotations
                    } else {
                        3
                    },
                );
                out.push(LETTER_A + lying.top_side);
                out.push(LETTER_A + lying.right_side);
                out.push(LETTER_A + lying.bottom_side);
                out.push(LETTER_A + lying.left_side);
                assert(out@ =~= old(out)@ + cell_letters(*cell, pieces@));
            },
            None => {
                assert(out@ =~= old(out)@ + cell_letters(*cell, pieces@));
            },
        }
    } else {
        out.push(LETTER_A);
        out.push(LETTER_A);
        out.push(LETTER_A);
        out.push(LETTER_A);
        assert(out@ =~= old(out)@ + cell_letters(*cell, pieces@));
    }
}

/// A piece that the lookup finds is one of the catalog.
pub proof fn lemma_found_piece(pieces: Seq<Piece>, number: u16, from: int)
    requires
        0 <= from,
        find_piece(pieces, number, from) is Some,
    ensures
        pieces.contains(find_piece(pieces, number, from)->0),
        find_piece(pieces, number, from)->0.piece_number == number,
        valid_catalog(pieces) ==> find_piece(pieces, number, from)->0.wf(),
    decreases pieces.len() - from,
{
    if from < pieces.len() {
        if pieces[from].piece_number == number {
            assert(pieces[from] == find_piece(pieces, number, from)->0);
        } else {
            lemma_found_piece(pieces, number, from + 1);
        }
    }
}

/// Writes out a board: the grid of pieces from the top row down, an empty
/// line, and the link that shows the board in a viewer.
pub fn board_text(board: &[RotatedPiece; 256], pieces: &Vec<Piece>) -> (text: Vec<u8>)
    requires
        valid_catalog(pieces@),
    ensures
        text@ == board_text_of(board@, pieces@),
{
    let mut text: Vec<u8> = Vec::new();
    let mut rows_left: usize = 16;
    while rows_left > 0
        invariant
            rows_left <= 16,
            text@ == grid_from_top(board@, rows_left as int),
        decreases rows_left,
    {
        let row = rows_left - 1;
        let ghost above = text@;
        let mut col: usize = 0;
        while col < 16
            invariant
                col <= 16,
                row < 16,
                text@ == above + row_tokens(board@, row as int, col as int),
            decreases 16 - col,
        {
            push_cell_token(&mut text, &board[row * 16 + col]);
            col += 1;
            assert(text@ =~= above + row_tokens(board@, row as int, col as int));
        }
        text.push(LINE_FEED);
        rows_left = row;
        assert(text@ =~= grid_from_top(board@, rows_left as int));
    }
    text.push(LINE_FEED);
    push_all(&mut text, URL_HEAD.as_bytes());
    let ghost head = text@;
    let mut cell: usize = 0;
    while cell < 256
        invariant
            cell <= 256,
            valid_catalog(pieces@),
            text@ == head + board_letters(board@, pieces@, cell as int),
        decreases 256 - cell,
    {
        push_cell_letters(&mut text, &board[cell], pieces);
        cell += 1;
        assert(text@ =~= head + board_letters(board@, pieces@, cell as int));
    }
    push_all(&mut text, URL_TAIL.as_bytes());
    assert(text@ =~= board_text_of(board@, pieces@));
    text
}

/// The name of the file of a saved board, from the depth, the digest of the
/// text and the number that tells files of one board apart.
pub fn checkpoint_file_name(depth: u16, digest: &[u8; 16], nonce: u32) -> (name: Vec<u8>)
    ensures
        name@ == file_name_of(depth, digest@, nonce),
{
    let mut name = decimal_digits(depth as u32);
    name.push(UNDERSCORE);
    let ghost head = name@;
    let mut i: usize = 0;
    while i < 16
        invariant
            i <= 16,
            name@ == head + hex(digest@.take(i as int)),
        decreases 16 - i,
    {
        let byte = digest[i];
        name.push(hex_digit_of(byte / 16));
        name.push(hex_digit_of(byte % 16));
        assert(digest@.take(i + 1).drop_last() =~= digest@.take(i as int));
        i += 1;
        assert(name@ =~= head + hex(digest@.take(i as int)));
    }
    assert(digest@.take(16) =~= digest@);
    name.push(UNDERSCORE);
    let number = decimal_digits(nonce);
    push_all(&mut name, number.as_slice());
    push_all(&mut name, FILE_ENDING.as_bytes());
    assert(name@ =~= file_name_of(depth, digest@, nonce));
    name
}

/// A board as it is to be saved: the name of its file and what the file
/// holds.
#[derive(Debug, Clone, PartialEq, Eq)]
pub struct BoardFile {
    pub name: Vec<u8>,
    pub contents: Vec<u8>,
}

/// Prepares a board for saving: writes out its text and names its file
/// after the depth, the digest of the text and a random number below one
/// million.
pub fn board_file(board: &[RotatedPiece; 256], pieces: &Vec<Piece>, max_solve_index: u16) -> (file:
    BoardFile)
    requires
        valid_catalog(pieces@),
    ensures
        file.contents@ == board_text_of(board@, pieces@),
        exists|nonce: u32|
            nonce < NONCE_BOUND && file.name@ == #[trigger] file_name_of(
                max_solve_index,
                md5_digest(file.contents@),
                nonce,
            ),
{
    let contents = board_text(board, pieces);
    let digest = md5_of(&contents);
    let nonce = random_u32() % NONCE_BOUND;
    let name = checkpoint_file_name(max_solve_index, &digest, nonce);
    let file = BoardFile { name, contents };
    assert(file.name@ == file_name_of(max_solve_index, md5_digest(file.contents@), nonce));
    file
}

} // verus!

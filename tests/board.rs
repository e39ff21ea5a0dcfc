use ruzzle::board::{BoardIndex, BoardMask, Index4x4, RuzzleBoard, SizeMismatch};

#[test]
fn board_from_string() {
    let alphabet = "abcdefghijklmnop";
    let board = RuzzleBoard::from_letters(alphabet).unwrap();
    let mut idxs = (0..=15).map(|n| Index4x4::from_flat(n));
    assert_eq!(*board.index_by_coordinate(idxs.next().unwrap()), 'a');
    assert_eq!(*board.index_by_coordinate(idxs.next().unwrap()), 'b');
    assert_eq!(*board.index_by_coordinate(idxs.next().unwrap()), 'c');
    assert_eq!(*board.index_by_coordinate(idxs.next().unwrap()), 'd');
    assert_eq!(*board.index_by_coordinate(idxs.next().unwrap()), 'e');
    assert_eq!(*board.index_by_coordinate(idxs.next().unwrap()), 'f');
    assert_eq!(*board.index_by_coordinate(idxs.next().unwrap()), 'g');
    assert_eq!(*board.index_by_coordinate(idxs.next().unwrap()), 'h');
    assert_eq!(*board.index_by_coordinate(idxs.next().unwrap()), 'i');
    assert_eq!(*board.index_by_coordinate(idxs.next().unwrap()), 'j');
    assert_eq!(*board.index_by_coordinate(idxs.next().unwrap()), 'k');
    assert_eq!(*board.index_by_coordinate(idxs.next().unwrap()), 'l');
    assert_eq!(*board.index_by_coordinate(idxs.next().unwrap()), 'm');
    assert_eq!(*board.index_by_coordinate(idxs.next().unwrap()), 'n');
    assert_eq!(*board.index_by_coordinate(idxs.next().unwrap()), 'o');
    assert_eq!(*board.index_by_coordinate(idxs.next().unwrap()), 'p');
}

#[test]
fn get_neighbouring() {
    let middle = BoardIndex::<3, 3>::from_xy(1, 1);
    let mut mid_neighbours = middle.get_neighbouring().into_iter();
    assert_eq!(
        mid_neighbours.next(),
        Some(BoardIndex::<3, 3>::from_xy(0, 0))
    );
    assert_eq!(
        mid_neighbours.next(),
        Some(BoardIndex::<3, 3>::from_xy(1, 0))
    );
    assert_eq!(
        mid_neighbours.next(),
        Some(BoardIndex::<3, 3>::from_xy(2, 0))
    );
    assert_eq!(
        mid_neighbours.next(),
        Some(BoardIndex::<3, 3>::from_xy(0, 1))
    );
    assert_eq!(
        mid_neighbours.next(),
        Some(BoardIndex::<3, 3>::from_xy(2, 1))
    );
    assert_eq!(
        mid_neighbours.next(),
        Some(BoardIndex::<3, 3>::from_xy(0, 2))
    );
    assert_eq!(
        mid_neighbours.next(),
        Some(BoardIndex::<3, 3>::from_xy(1, 2))
    );
    assert_eq!(
        mid_neighbours.next(),
        Some(BoardIndex::<3, 3>::from_xy(2, 2))
    );
    assert_eq!(mid_neighbours.next(), None);

    let top_left = BoardIndex::<3, 3>::from_xy(0, 0);
    let mut tl_neighbours = top_left.get_neighbouring().into_iter();
    assert_eq!(
        tl_neighbours.next(),
        Some(BoardIndex::<3, 3>::from_xy(1, 0))
    );
    assert_eq!(
        tl_neighbours.next(),
        Some(BoardIndex::<3, 3>::from_xy(0, 1))
    );
    assert_eq!(
        tl_neighbours.next(),
        Some(BoardIndex::<3, 3>::from_xy(1, 1))
    );
    assert_eq!(tl_neighbours.next(), None);
}

#[test]
fn xy_round_trip_on_every_cell() {
    for y in 0..3 {
        for x in 0..5 {
            let idx = BoardIndex::<5, 3>::from_xy(x, y);
            assert_eq!(idx.flat(), x + 5 * y);
            assert_eq!(idx.to_xy(), (x, y));
        }
    }
}

#[test]
fn to_xy_of_flat_position() {
    assert_eq!(BoardIndex::<4, 4>::from_flat(6).to_xy(), (2, 1));
    assert_eq!(BoardIndex::<5, 3>::from_flat(14).to_xy(), (4, 2));
}

#[test]
fn neighbour_counts_by_position() {
    for y in 0..4 {
        for x in 0..4 {
            let idx = Index4x4::from_xy(x, y);
            let n = idx.get_neighbouring();
            let x_edge = x == 0 || x == 3;
            let y_edge = y == 0 || y == 3;
            let expected = match (x_edge, y_edge) {
                (true, true) => 3,
                (false, false) => 8,
                _ => 5,
            };
            assert_eq!(n.len(), expected);
            for (i, a) in n.iter().enumerate() {
                assert!(a.flat() < 16);
                assert_ne!(a.flat(), idx.flat());
                for b in n.iter().skip(i + 1) {
                    assert!(a.flat() < b.flat());
                }
            }
        }
    }
}

#[test]
fn neighbours_on_bottom_right_corner_and_edge() {
    let corner = Index4x4::from_xy(3, 3);
    let flats: Vec<usize> = corner.get_neighbouring().iter().map(|i| i.flat()).collect();
    assert_eq!(flats, vec![10, 11, 14]);
    let edge = Index4x4::from_xy(3, 1);
    let flats: Vec<usize> = edge.get_neighbouring().iter().map(|i| i.flat()).collect();
    assert_eq!(flats, vec![2, 3, 6, 10, 11]);
}

#[test]
fn single_cell_board_has_no_neighbours() {
    let only = BoardIndex::<1, 1>::from_xy(0, 0);
    assert!(only.get_neighbouring().is_empty());
}

#[test]
fn all_indices_cover_the_board_in_order() {
    let all = BoardIndex::<4, 3>::all_indices_within_bounds();
    assert_eq!(all.len(), 12);
    for (i, idx) in all.iter().enumerate() {
        assert_eq!(idx.flat(), i);
    }
    assert_eq!(all[1].to_xy(), (1, 0));
    assert_eq!(all[4].to_xy(), (0, 1));
    assert_eq!(Index4x4::all_indices_within_bounds().len(), 16);
}

#[test]
fn with_at_leaves_the_source_unchanged() {
    let board = RuzzleBoard::from_letters("abcdefghijklmnop").unwrap();
    let idx = Index4x4::from_xy(1, 2);
    let changed = board.with_at('z', idx);
    assert_eq!(*changed.index_by_coordinate(idx), 'z');
    assert_eq!(*changed.index_by_flat(9), 'z');
    assert_eq!(*board.index_by_flat(9), 'j');
    for n in 0..16 {
        if n != 9 {
            assert_eq!(changed.index_by_flat(n), board.index_by_flat(n));
        }
    }
}

#[test]
fn both_addressing_modes_agree() {
    let board = RuzzleBoard::from_letters("abcdefghijklmnop").unwrap();
    for idx in Index4x4::all_indices_within_bounds() {
        assert_eq!(board.index_by_coordinate(idx), board.index_by_flat(idx.flat()));
    }
}

#[test]
fn mask_from_bits_reads_most_significant_bit_first() {
    let mask = BoardMask::from_bits(0b1000_0000_0000_0001);
    assert!(*mask.index_by_flat(0));
    assert!(*mask.index_by_flat(15));
    for n in 1..15 {
        assert!(!*mask.index_by_flat(n));
    }
    let mask = BoardMask::from_bits(0x0100);
    assert!(*mask.index_by_flat(7));
    assert!(!*mask.index_by_flat(8));
    let empty = BoardMask::from_bits(0);
    for n in 0..16 {
        assert!(!*empty.index_by_flat(n));
    }
    let full = BoardMask::from_bits(u16::MAX);
    for n in 0..16 {
        assert!(*full.index_by_flat(n));
    }
}

#[test]
fn letters_of_wrong_length_are_refused() {
    assert_eq!(
        RuzzleBoard::from_letters("abc"),
        Err(SizeMismatch { found: 3 })
    );
    assert_eq!(
        RuzzleBoard::from_letters("abcdefghijklmnopq"),
        Err(SizeMismatch { found: 17 })
    );
    assert_eq!(RuzzleBoard::from_letters(""), Err(SizeMismatch { found: 0 }));
    let wide = RuzzleBoard::from_letters("ééééééééééééééé").unwrap_err();
    assert_eq!(wide.found, 15);
}

#[test]
fn letters_count_characters_not_bytes() {
    let board = RuzzleBoard::from_letters("äbcdefghijklmnoß").unwrap();
    assert_eq!(*board.index_by_flat(0), 'ä');
    assert_eq!(*board.index_by_flat(15), 'ß');
}

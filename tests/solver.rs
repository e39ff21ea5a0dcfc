use ruzzle::board::RuzzleBoard;
use ruzzle::solver::{solve, Path};
use ruzzle::trie::TrieNode;

fn dictionary(words: &[&str]) -> TrieNode {
    let mut root = TrieNode::new_root();
    for w in words {
        root.add_word(w);
    }
    root
}

fn flat_paths(paths: &[Path]) -> Vec<Vec<usize>> {
    paths
        .iter()
        .map(|p| p.iter().map(|i| i.flat()).collect())
        .collect()
}

#[test]
fn adjacent_word_is_found_once() {
    let board = RuzzleBoard::from_letters("abcdefghijklmnop").unwrap();
    let root = dictionary(&["ae"]);
    let found = solve(&root, &board);
    assert_eq!(flat_paths(&found), vec![vec![0, 4]]);
}

#[test]
fn word_whose_letters_are_not_adjacent_is_absent() {
    let board = RuzzleBoard::from_letters("abcdefghijklmnop").unwrap();
    let root = dictionary(&["ap", "ac", "za"]);
    assert!(solve(&root, &board).is_empty());
}

#[test]
fn results_come_in_search_order() {
    let board = RuzzleBoard::from_letters("abcdefghijklmnop").unwrap();
    let root = dictionary(&["fa", "fab", "ba", "k"]);
    let found = solve(&root, &board);
    assert_eq!(
        flat_paths(&found),
        vec![vec![1, 0], vec![5, 0], vec![5, 0, 1], vec![10]]
    );
}

#[test]
fn same_word_on_different_paths_is_kept_twice() {
    let board = RuzzleBoard::from_letters("aaxxaxxxxxxxxxxx").unwrap();
    let root = dictionary(&["aa"]);
    let found = solve(&root, &board);
    assert_eq!(
        flat_paths(&found),
        vec![vec![0, 1], vec![0, 4], vec![1, 0], vec![1, 4], vec![4, 0], vec![4, 1]]
    );
}

#[test]
fn no_cell_is_used_twice() {
    let board = RuzzleBoard::from_letters("aaaaaaaaaaaaaaaa").unwrap();
    let root = dictionary(&["aaa", "aaaaa"]);
    let found = solve(&root, &board);
    assert!(!found.is_empty());
    for p in flat_paths(&found) {
        let mut seen = p.clone();
        seen.sort();
        seen.dedup();
        assert_eq!(seen.len(), p.len());
        for w in p.windows(2) {
            let (ax, ay) = ((w[0] % 4) as i64, (w[0] / 4) as i64);
            let (bx, by) = ((w[1] % 4) as i64, (w[1] / 4) as i64);
            assert!((ax - bx).abs() <= 1 && (ay - by).abs() <= 1);
        }
    }
    let lengths: Vec<usize> = found.iter().map(|p| p.len()).collect();
    assert!(lengths.iter().all(|&n| n == 3 || n == 5));
}

#[test]
fn solving_twice_gives_the_same_paths() {
    let board = RuzzleBoard::from_letters("catsdogsbirdfish").unwrap();
    let root = dictionary(&["cat", "cats", "dog", "is", "fish", "sat", "at"]);
    let first = flat_paths(&solve(&root, &board));
    let second = flat_paths(&solve(&root, &board));
    assert!(!first.is_empty());
    assert_eq!(first, second);
}

#[test]
fn empty_word_marks_no_path() {
    let board = RuzzleBoard::from_letters("abcdefghijklmnop").unwrap();
    let root = dictionary(&[""]);
    assert!(solve(&root, &board).is_empty());
}

#[test]
fn whole_board_snake_is_found() {
    let board = RuzzleBoard::from_letters("abcdhgfeijklponm").unwrap();
    let root = dictionary(&["abcdefghijklmnop"]);
    let found = flat_paths(&solve(&root, &board));
    assert_eq!(
        found,
        vec![vec![0, 1, 2, 3, 7, 6, 5, 4, 8, 9, 10, 11, 15, 14, 13, 12]]
    );
}

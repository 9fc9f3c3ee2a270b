use torrent::planner::{all_pieces, count_pieces, plan, PlanError, BLOCK_SIZE};

#[test]
fn exact_multiple_has_full_pieces_and_blocks() {
    assert_eq!(count_pieces(1048576, 262144), Ok(4));
    for i in 0..4 {
        let blocks = plan(1048576, 262144, 16384, i).unwrap();
        assert_eq!(blocks.len(), 16);
        for (k, (begin, length)) in blocks.iter().enumerate() {
            assert_eq!(*begin, k as u32 * 16384);
            assert_eq!(*length, 16384);
        }
    }
}

#[test]
fn short_last_piece() {
    assert_eq!(count_pieces(1000000, 262144), Ok(4));
    let last = plan(1000000, 262144, 16384, 3).unwrap();
    let size: u32 = last.iter().map(|(_, l)| *l).sum();
    assert_eq!(size, 213568);
    assert_eq!(last.len(), 14);
    assert_eq!(last[13], (13 * 16384, 213568 % 16384));
    assert_eq!(last[13].1, 576);
    assert_eq!(plan(1000000, 262144, 16384, 2).unwrap().len(), 16);
}

#[test]
fn planner_errors() {
    assert_eq!(plan(100, 0, 16384, 0), Err(PlanError::InvalidGeometry));
    assert_eq!(plan(100, 10, 0, 0), Err(PlanError::InvalidGeometry));
    assert_eq!(plan(100, 10, 4, 10), Err(PlanError::NoSuchPiece));
    assert_eq!(plan(0, 10, 4, 0), Err(PlanError::NoSuchPiece));
    assert_eq!(count_pieces(5, 0), Err(PlanError::InvalidGeometry));
}

#[test]
fn small_geometry() {
    assert_eq!(plan(10, 4, 3, 2), Ok(vec![(0, 2)]));
    assert_eq!(plan(10, 4, 3, 0), Ok(vec![(0, 3), (3, 1)]));
    assert_eq!(BLOCK_SIZE, 16384);
}

#[test]
fn all_piece_indices() {
    assert_eq!(all_pieces(1000000, 262144), Ok(vec![0, 1, 2, 3]));
    assert_eq!(all_pieces(0, 262144), Ok(vec![]));
    assert_eq!(all_pieces(10, 0), Err(PlanError::InvalidGeometry));
    assert_eq!(all_pieces(u64::MAX, 1), Err(PlanError::NoSuchPiece));
}

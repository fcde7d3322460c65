use vstd::prelude::*;

verus! {

/// The content of one cell of the grid.
#[derive(Clone, Copy, PartialEq, Eq, Structural, Debug)]
pub enum Square {
    X,
    O,
    Blank,
}

/// The character that shows a square: its mark, or a space when blank.
pub open spec fn square_char(s: Square) -> char {
    match s {
        Square::X => 'X',
        Square::O => 'O',
        Square::Blank => ' ',
    }
}

impl Square {
    /// The character that shows this square.
    pub fn to_char(&self) -> (c: char)
        ensures
            c == square_char(*self),
    {
        match self {
            Square::X => 'X',
            Square::O => 'O',
            Square::Blank => ' ',
        }
    }
}

/// The `w` cells of `lane` from index `start` on exist, none is blank, and
/// all hold the same mark.
pub open spec fn window_won(lane: Seq<Square>, start: int, w: int) -> bool {
    &&& 0 <= start
    &&& start + w <= lane.len()
    &&& forall|k: int| start <= k < start + w ==> lane[k] != Square::Blank && lane[k] == lane[start]
}

/// Some run of `w` consecutive cells of `lane` is filled by one mark.
pub open spec fn lane_has_win(lane: Seq<Square>, w: int) -> bool {
    exists|start: int| window_won(lane, start, w)
}

/// Whether `lane` holds `win_threshold` consecutive cells with the same mark.
/// A lane shorter than `win_threshold` holds none.
pub fn check_lane(lane: &Vec<Square>, win_threshold: usize) -> (r: bool)
    ensures
        r == lane_has_win(lane@, win_threshold as int),
        lane@.len() < win_threshold ==> !r,
{
    let w = win_threshold;
    if lane.len() < w {
        return false;
    }
    if w == 0 {
        assert(window_won(lane@, 0, 0));
        return true;
    }
    let mut start: usize = 0;
    while start <= lane.len() - w
        invariant
            w == win_threshold,
            0 < w <= lane@.len(),
            forall|s: int| 0 <= s < start ==> !window_won(lane@, s, w as int),
        decreases lane.len() - start,
    {
        let first = lane[start];
        let mut filled = first != Square::Blank;
        let mut k: usize = start;
        while filled && k < start + w
            invariant
                w == win_threshold,
                start + w <= lane@.len() <= usize::MAX,
                start <= k <= start + w,
                first == lane@[start as int],
                filled == (first != Square::Blank && forall|kk: int|
                    start <= kk < k ==> lane@[kk] != Square::Blank && lane@[kk] == lane@[start as int]),
            decreases start + w - k,
        {
            if lane[k] != first {
                filled = false;
            }
            k = k + 1;
        }
        if filled {
            assert(window_won(lane@, start as int, w as int));
            assert(lane_has_win(lane@, w as int));
            return true;
        }
        assert(!window_won(lane@, start as int, w as int));
        start = start + 1;
    }
    assert forall|s: int| !window_won(lane@, s, w as int) by {
        if 0 <= s < start {
        }
    }
    false
}

} // verus!

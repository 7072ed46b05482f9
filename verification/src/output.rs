//! The output text of a solve: `-1` for an unsolvable puzzle, otherwise
//! the solution length in decimal followed by one direction character
//! per line.

use vstd::prelude::*;
use vstd::string::StringExecFns;

use crate::singlemaze::Direction;

verus! {

/// The decimal digit character for one digit value.
pub open spec fn digit_char(d: int) -> char {
    if d == 0 {
        '0'
    } else if d == 1 {
        '1'
    } else if d == 2 {
        '2'
    } else if d == 3 {
        '3'
    } else if d == 4 {
        '4'
    } else if d == 5 {
        '5'
    } else if d == 6 {
        '6'
    } else if d == 7 {
        '7'
    } else if d == 8 {
        '8'
    } else {
        '9'
    }
}

/// The decimal rendering of a number, most significant digit first.
pub open spec fn dec_digits(n: nat) -> Seq<char>
    decreases n,
{
    if n < 10 {
        seq![digit_char(n as int)]
    } else {
        dec_digits(n / 10) + seq![digit_char((n % 10) as int)]
    }
}

/// The text lines of a move sequence from index `i` on: a newline and
/// one direction character per move.
pub open spec fn dir_line_chars(path: Seq<Direction>, i: int) -> Seq<char>
    decreases path.len() - i,
{
    if i < 0 || i >= path.len() {
        Seq::empty()
    } else {
        seq!['\n', path[i].spec_char()] + dir_line_chars(path, i + 1)
    }
}

/// The whole output text of a solve result.
pub open spec fn solution_chars(sol: Option<Seq<Direction>>) -> Seq<char> {
    match sol {
        None => seq!['-', '1'],
        Some(path) => dec_digits(path.len()) + dir_line_chars(path, 0),
    }
}

/// One decimal digit as text.
fn digit_str(d: usize) -> (r: &'static str)
    requires
        d < 10,
    ensures
        r@ =~= seq![digit_char(d as int)],
{
    proof {
        reveal_strlit("0");
        reveal_strlit("1");
        reveal_strlit("2");
        reveal_strlit("3");
        reveal_strlit("4");
        reveal_strlit("5");
        reveal_strlit("6");
        reveal_strlit("7");
        reveal_strlit("8");
        reveal_strlit("9");
    }
    match d {
        0 => "0",
        1 => "1",
        2 => "2",
        3 => "3",
        4 => "4",
        5 => "5",
        6 => "6",
        7 => "7",
        8 => "8",
        _ => "9",
    }
}

/// A number rendered in decimal.
fn decimal_string(n: usize) -> (r: String)
    ensures
        r@ == dec_digits(n as nat),
    decreases n,
{
    if n < 10 {
        let r = String::from_str(digit_str(n));
        proof {
            assert(r@ =~= dec_digits(n as nat));
        }
        r
    } else {
        let mut r = decimal_string(n / 10);
        r.append(digit_str(n % 10));
        proof {
            assert(r@ =~= dec_digits(n as nat));
        }
        r
    }
}

/// One direction as text.
fn dir_str(d: Direction) -> (r: &'static str)
    ensures
        r@ =~= seq![d.spec_char()],
{
    proof {
        reveal_strlit("N");
        reveal_strlit("E");
        reveal_strlit("S");
        reveal_strlit("W");
    }
    match d {
        Direction::North => "N",
        Direction::East => "E",
        Direction::South => "S",
        Direction::West => "W",
    }
}

/// Renders a solve result as the output text: the literal `-1` when no
/// solution was found, otherwise the number of moves in decimal followed
/// by one line per move.
pub fn solution_text(solution: &Option<Vec<Direction>>) -> (r: String)
    ensures
        r@ == solution_chars(
            match solution {
                Some(path) => Some(path@),
                None => None,
            },
        ),
{
    match solution {
        None => {
            let r = String::from_str("-1");
            proof {
                reveal_strlit("-1");
                assert(r@ =~= seq!['-', '1']);
            }
            r
        },
        Some(path) => {
            let ghost target = solution_chars(Some(path@));
            let mut r = decimal_string(path.len());
            proof {
                assert(r@ + dir_line_chars(path@, 0) =~= target);
            }
            let mut i: usize = 0;
            while i < path.len()
                invariant
                    i <= path.len(),
                    target == solution_chars(Some(path@)),
                    r@ + dir_line_chars(path@, i as int) == target,
                decreases path.len() - i,
            {
                let ghost before = r@;
                r.append("\n");
                r.append(dir_str(path[i]));
                proof {
                    reveal_strlit("\n");
                    assert(r@ =~= before + seq!['\n', path@[i as int].spec_char()]);
                    assert(r@ + dir_line_chars(path@, i + 1) =~= before + dir_line_chars(
                        path@,
                        i as int,
                    ));
                }
                i += 1;
            }
            proof {
                assert(r@ + dir_line_chars(path@, path@.len() as int) =~= r@);
            }
            r
        },
    }
}

} // verus!

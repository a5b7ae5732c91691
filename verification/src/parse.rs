//! The corpus loader: text records separated by blank lines, each
//! record SIZE lines of SIZE single-character symbols.

use vstd::prelude::*;
use vstd::string::StrSliceExecFns;
use crate::square::{grid_of, Square, SIZE};

verus! {

/// The integer label of a symbol character: its code point offset from
/// the base character 'a'.
pub open spec fn symbol_of(c: char) -> int {
    (c as int) - ('a' as int)
}

/// Converts a single symbol character to its integer label.
pub fn convert_char(c: char) -> (r: i32)
    ensures
        r == symbol_of(c),
{
    (c as i32) - ('a' as i32)
}

/// Index of the first line break, or the length when there is none.
pub open spec fn first_nl(s: Seq<char>) -> nat
    decreases s.len(),
{
    if s.len() == 0 {
        0
    } else if s[0] == '\n' {
        0
    } else {
        1 + first_nl(s.drop_first())
    }
}

/// The lines of a text: the segments between line breaks, with an
/// optional final line break producing no extra empty line.
pub open spec fn lines_of(s: Seq<char>) -> Seq<Seq<char>>
    decreases s.len(),
{
    if s.len() == 0 {
        Seq::empty()
    } else {
        let t = first_nl(s);
        if t >= s.len() {
            seq![s]
        } else {
            seq![s.take(t as int)] + lines_of(s.skip(t + 1 as int))
        }
    }
}

/// A position scanned free of line breaks up to a break (or the end)
/// is where the first line break stands.
pub proof fn lemma_first_nl_at(s: Seq<char>, t: int)
    requires
        0 <= t <= s.len(),
        forall|k: int| 0 <= k < t ==> s[k] != '\n',
        t < s.len() ==> s[t] == '\n',
        t == s.len() ==> forall|k: int| 0 <= k < s.len() ==> s[k] != '\n',
    ensures
        first_nl(s) == t,
    decreases s.len(),
{
    if s.len() == 0 {
    } else if s[0] == '\n' {
        assert(t == 0);
    } else {
        assert(t >= 1);
        let d = s.drop_first();
        assert(forall|k: int| 0 <= k < t - 1 ==> d[k] == s[k + 1] && s[k + 1] != '\n');
        assert(t - 1 < d.len() ==> d[t - 1] == s[t]);
        if t == s.len() {
            assert(forall|k: int| 0 <= k < d.len() ==> d[k] == s[k + 1] && s[k + 1] != '\n');
        }
        lemma_first_nl_at(d, t - 1);
    }
}

/// The lines are exactly SIZE lines of SIZE symbols each.
pub open spec fn lines_ok(ls: Seq<Seq<char>>) -> bool {
    ls.len() == SIZE && forall|i: int| 0 <= i < SIZE ==> #[trigger] ls[i].len() == SIZE
}

/// Every cell of the square holds the label of the matching character.
pub open spec fn square_matches_lines(m: Square, ls: Seq<Seq<char>>) -> bool {
    forall|i: int, j: int|
        #![trigger grid_of(m)[i][j]]
        0 <= i < SIZE && 0 <= j < SIZE ==> grid_of(m)[i][j] == symbol_of(ls[i][j])
}

/// Index of the first line break of `s`, or its length when none.
fn first_newline(s: &str) -> (t: usize)
    ensures
        t == first_nl(s@),
        t <= s@.len(),
{
    let len = s.unicode_len();
    let mut p: usize = 0;
    while p < len
        invariant
            p <= len,
            len == s@.len(),
            forall|k: int| 0 <= k < p ==> s@[k] != '\n',
        decreases len - p,
    {
        if s.get_char(p) == '\n' {
            proof {
                lemma_first_nl_at(s@, p as int);
            }
            return p;
        }
        p = p + 1;
    }
    proof {
        lemma_first_nl_at(s@, len as int);
    }
    len
}

/// Parses one record into a square: exactly SIZE lines of exactly SIZE
/// characters each, every character taken as a symbol.  Any other
/// shape is rejected.
pub fn parse_square(s: &str) -> (r: Option<Square>)
    ensures
        match r {
            Some(m) => lines_ok(lines_of(s@)) && square_matches_lines(m, lines_of(s@)),
            None => !lines_ok(lines_of(s@)),
        },
{
    let mut rest: &str = s;
    let mut rest_len = s.unicode_len();
    let mut grid: Square = [[0; SIZE]; SIZE];
    let mut row: usize = 0;
    while rest_len > 0
        invariant
            row <= SIZE,
            rest_len == rest@.len(),
            row <= lines_of(s@).len(),
            lines_of(s@) == lines_of(s@).take(row as int) + lines_of(rest@),
            forall|i: int| 0 <= i < row ==> #[trigger] lines_of(s@)[i].len() == SIZE,
            forall|i: int, j: int|
                #![trigger grid_of(grid)[i][j]]
                0 <= i < row && 0 <= j < SIZE ==> grid_of(grid)[i][j] == symbol_of(
                    lines_of(s@)[i][j],
                ),
        decreases rest_len,
    {
        proof {
            assert(lines_of(rest@).len() >= 1);
            assert(lines_of(s@).len() == row + lines_of(rest@).len());
        }
        if row == SIZE {
            // more than SIZE lines
            return None;
        }
        let t = first_newline(rest);
        let ghost line = lines_of(rest@)[0];
        proof {
            if t < rest_len {
                assert(line == rest@.take(t as int));
            } else {
                assert(line == rest@);
                assert(rest@.take(t as int) =~= rest@);
            }
            assert(line.len() == t);
            assert(lines_of(s@)[row as int] == lines_of(rest@)[0]);
        }
        if t != SIZE {
            // a line of the wrong length
            return None;
        }
        let mut rowvals: [i32; SIZE] = [0; SIZE];
        let mut c: usize = 0;
        while c < SIZE
            invariant
                c <= SIZE,
                t == SIZE,
                t <= rest@.len(),
                forall|q: int| 0 <= q < c ==> #[trigger] rowvals@[q] == symbol_of(rest@[q]),
            decreases SIZE - c,
        {
            rowvals[c] = convert_char(rest.get_char(c));
            c = c + 1;
        }
        let ghost gold = grid;
        grid[row] = rowvals;
        proof {
            assert(grid@ == gold@.update(row as int, rowvals));
            assert(forall|i: int, j: int|
                #![trigger grid_of(grid)[i][j]]
                0 <= i < SIZE && 0 <= j < SIZE && i != row ==> grid_of(grid)[i][j] == grid_of(
                    gold,
                )[i][j]);
            assert(forall|j: int| 0 <= j < SIZE ==> line[j] == rest@[j]);
            assert(forall|j: int|
                0 <= j < SIZE ==> #[trigger] grid_of(grid)[row as int][j] == rowvals@[j]);
            assert(forall|j: int| 0 <= j < SIZE ==> #[trigger] rowvals@[j] == symbol_of(line[j]));
            assert(line == lines_of(s@)[row as int]);
            assert(forall|i: int, j: int|
                #![trigger grid_of(grid)[i][j]]
                0 <= i < row && 0 <= j < SIZE ==> grid_of(grid)[i][j] == symbol_of(
                    lines_of(s@)[i][j],
                ));
            assert(forall|i: int, j: int|
                #![trigger grid_of(grid)[i][j]]
                0 <= i < row + 1 && 0 <= j < SIZE ==> grid_of(grid)[i][j] == symbol_of(
                    lines_of(s@)[i][j],
                ));
        }
        let ghost rold = rest@;
        if t < rest_len {
            rest = rest.substring_char(t + 1, rest_len);
            rest_len = rest_len - (t + 1);
            proof {
                assert(rest@ =~= rold.skip(t + 1));
                assert(lines_of(rold) == seq![line] + lines_of(rest@));
            }
        } else {
            rest = rest.substring_char(rest_len, rest_len);
            rest_len = 0;
            proof {
                assert(rest@ =~= Seq::<char>::empty());
                assert(lines_of(rold) =~= seq![line] + lines_of(rest@));
            }
        }
        proof {
            assert(lines_of(s@).take(row + 1) =~= lines_of(s@).take(row as int).push(line));
            assert(lines_of(s@) =~= lines_of(s@).take(row + 1) + lines_of(rest@));
        }
        row = row + 1;
    }
    if row == SIZE {
        proof {
            assert(lines_of(rest@) =~= Seq::<Seq<char>>::empty());
            assert(lines_of(s@) =~= lines_of(s@).take(SIZE as int));
        }
        Some(grid)
    } else {
        None
    }
}

/// Index of the first blank-line separator (two line breaks in a row),
/// or the length when there is none.
pub open spec fn first_sep(s: Seq<char>) -> nat
    decreases s.len(),
{
    if s.len() < 2 {
        s.len()
    } else if s[0] == '\n' && s[1] == '\n' {
        0
    } else {
        1 + first_sep(s.drop_first())
    }
}

/// The records of a corpus: the pieces between blank-line separators.
pub open spec fn records_of(s: Seq<char>) -> Seq<Seq<char>>
    decreases s.len(),
{
    let t = first_sep(s);
    if t + 2 > s.len() {
        seq![s]
    } else {
        seq![s.take(t as int)] + records_of(s.skip(t + 2 as int))
    }
}

/// The first separator either fits wholly inside the text or there is
/// none at all.
pub proof fn lemma_first_sep_range(s: Seq<char>)
    ensures
        first_sep(s) + 2 <= s.len() || first_sep(s) == s.len(),
    decreases s.len(),
{
    if s.len() >= 2 && !(s[0] == '\n' && s[1] == '\n') {
        lemma_first_sep_range(s.drop_first());
    }
}

/// A position scanned free of separators up to a separator (or the
/// end) is where the first separator stands.
pub proof fn lemma_first_sep_at(s: Seq<char>, t: int)
    requires
        0 <= t <= s.len(),
        forall|k: int| 0 <= k < t && k + 1 < s.len() ==> !(#[trigger] s[k] == '\n' && s[k + 1] == '\n'),
        t + 1 < s.len() ==> s[t] == '\n' && s[t + 1] == '\n',
        t + 1 >= s.len() ==> t == s.len(),
    ensures
        first_sep(s) == t,
    decreases s.len(),
{
    if s.len() < 2 {
    } else if s[0] == '\n' && s[1] == '\n' {
        if t > 0 {
            assert(!(s[0] == '\n' && s[1] == '\n'));
        }
    } else {
        assert(t >= 1) by {
            if t == 0 {
                assert(t + 1 < s.len());
            }
        }
        let d = s.drop_first();
        assert(forall|k: int|
            0 <= k < t - 1 && k + 1 < d.len() ==> #[trigger] d[k] == s[k + 1] && d[k + 1] == s[k
                + 2] && !(s[k + 1] == '\n' && s[k + 2] == '\n'));
        assert(t - 1 + 1 < d.len() ==> d[t - 1] == s[t] && d[t] == s[t + 1]);
        lemma_first_sep_at(d, t - 1);
    }
}

/// A record parses when its lines have the required shape.
pub open spec fn record_good(rec: Seq<char>) -> bool {
    lines_ok(lines_of(rec))
}

/// The records that parse, in their original order.
pub open spec fn good_records(rs: Seq<Seq<char>>) -> Seq<Seq<char>>
    decreases rs.len(),
{
    if rs.len() == 0 {
        Seq::empty()
    } else {
        (if record_good(rs[0]) {
            seq![rs[0]]
        } else {
            Seq::empty()
        }) + good_records(rs.drop_first())
    }
}

pub proof fn lemma_good_records_push(rs: Seq<Seq<char>>, x: Seq<char>)
    ensures
        good_records(rs.push(x)) == good_records(rs) + (if record_good(x) {
            seq![x]
        } else {
            Seq::<Seq<char>>::empty()
        }),
    decreases rs.len(),
{
    assert(rs.push(x)[0] == if rs.len() == 0 {
        x
    } else {
        rs[0]
    });
    if rs.len() == 0 {
        assert(rs.push(x).drop_first() =~= rs);
        assert(good_records(rs.push(x)) =~= good_records(rs) + (if record_good(x) {
            seq![x]
        } else {
            Seq::<Seq<char>>::empty()
        }));
    } else {
        assert(rs.push(x).drop_first() =~= rs.drop_first().push(x));
        lemma_good_records_push(rs.drop_first(), x);
        assert(good_records(rs.push(x)) =~= good_records(rs) + (if record_good(x) {
            seq![x]
        } else {
            Seq::<Seq<char>>::empty()
        }));
    }
}

/// Index of the first blank-line separator of `s`, or its length when
/// none.
fn first_separator(s: &str, len: usize) -> (t: usize)
    requires
        len == s@.len(),
    ensures
        t == first_sep(s@),
        t <= len,
{
    if len >= 1 {
        let mut p: usize = 0;
        while p < len - 1
            invariant
                len >= 1,
                p <= len - 1,
                len == s@.len(),
                forall|k: int|
                    0 <= k < p && k + 1 < s@.len() ==> !(#[trigger] s@[k] == '\n' && s@[k + 1]
                        == '\n'),
            decreases len - p,
        {
            if s.get_char(p) == '\n' && s.get_char(p + 1) == '\n' {
                proof {
                    lemma_first_sep_at(s@, p as int);
                }
                return p;
            }
            p = p + 1;
        }
    }
    proof {
        lemma_first_sep_at(s@, len as int);
    }
    len
}

/// Splits the corpus at blank lines and parses each record, keeping
/// the squares of the records that have the required shape and
/// discarding the rest.
pub fn parse_squares(s: &str) -> (r: Vec<Square>)
    ensures
        r@.len() == good_records(records_of(s@)).len(),
        forall|i: int|
            0 <= i < r@.len() ==> square_matches_lines(
                #[trigger] r@[i],
                lines_of(good_records(records_of(s@))[i]),
            ),
{
    let mut rest: &str = s;
    let mut rest_len = s.unicode_len();
    let mut out: Vec<Square> = Vec::new();
    let ghost mut cnt: int = 0;
    loop
        invariant_except_break
            rest_len == rest@.len(),
            0 <= cnt <= records_of(s@).len(),
            records_of(s@) == records_of(s@).take(cnt) + records_of(rest@),
            out@.len() == good_records(records_of(s@).take(cnt)).len(),
            forall|i: int|
                0 <= i < out@.len() ==> square_matches_lines(
                    #[trigger] out@[i],
                    lines_of(good_records(records_of(s@).take(cnt))[i]),
                ),
        ensures
            out@.len() == good_records(records_of(s@)).len(),
            forall|i: int|
                0 <= i < out@.len() ==> square_matches_lines(
                    #[trigger] out@[i],
                    lines_of(good_records(records_of(s@))[i]),
                ),
        decreases rest_len,
    {
        proof {
            assert(records_of(rest@).len() >= 1);
            assert(records_of(s@).len() == cnt + records_of(rest@).len());
        }
        let t = first_separator(rest, rest_len);
        let ghost rec = records_of(rest@)[0];
        let sep_found = rest_len - t >= 2;
        proof {
            lemma_first_sep_range(rest@);
            if sep_found {
                assert(rec == rest@.take(t as int));
            } else {
                assert(rec == rest@);
                assert(rest@.take(t as int) =~= rest@);
            }
            assert(records_of(s@)[cnt] == records_of(rest@)[0]);
        }
        let piece = rest.substring_char(0, t);
        proof {
            assert(piece@ =~= rec);
        }
        match parse_square(piece) {
            Some(sq) => {
                out.push(sq);
            },
            None => {
            },
        }
        proof {
            assert(records_of(s@).take(cnt + 1) =~= records_of(s@).take(cnt).push(rec));
            lemma_good_records_push(records_of(s@).take(cnt), rec);
            cnt = cnt + 1;
        }
        if sep_found {
            let ghost rold = rest@;
            rest = rest.substring_char(t + 2, rest_len);
            rest_len = rest_len - (t + 2);
            proof {
                assert(rest@ =~= rold.skip(t + 2));
                assert(records_of(rold) == seq![rec] + records_of(rest@));
                assert(records_of(s@) =~= records_of(s@).take(cnt) + records_of(rest@));
            }
        } else {
            proof {
                assert(records_of(rest@) =~= seq![rec]);
                assert(records_of(s@) =~= records_of(s@).take(cnt));
                assert(records_of(s@).take(cnt) =~= records_of(s@));
            }
            break ;
        }
    }
    out
}

} // verus!

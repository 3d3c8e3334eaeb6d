//! Plain-text grid codec.
//!
//! The textual form of a grid is one line per row, one decimal digit per
//! cell, `0` for an empty cell. Deserialization accepts a block of text whose
//! line count and first-line length are both perfect squares, fails closed on
//! any structural or content problem, and performs no sudoku-constraint
//! validation: an internally inconsistent grid deserializes successfully.

use vstd::prelude::*;
use vstd::std_specs::iter::IteratorSpec;
use vstd::string::StringExecFns;

use crate::sudoku::Sudoku;

verus! {

/// Why a text block could not be turned into a grid.
#[derive(Debug, Clone, Copy, PartialEq, Eq, Structural)]
pub enum ConversionError {
    InvalidGrid,
    ParseError,
}

/// The decimal digits, the only characters a grid line may hold.
pub open spec fn is_digit_char(c: char) -> bool {
    48 <= (c as u32) <= 57
}

/// The value a digit character denotes.
pub open spec fn digit_val(c: char) -> u32 {
    ((c as u32) - 48) as u32
}

/// Split on every `'\n'`; the result has one (possibly empty) segment more
/// than the number of newlines.
pub open spec fn split_on_newline(s: Seq<char>) -> Seq<Seq<char>>
    decreases s.len(),
{
    if s.len() == 0 {
        seq![Seq::<char>::empty()]
    } else if s[0] == '\n' {
        seq![Seq::<char>::empty()] + split_on_newline(s.skip(1))
    } else {
        let rest = split_on_newline(s.skip(1));
        seq![seq![s[0]] + rest[0]] + rest.skip(1)
    }
}

proof fn lemma_split_nonempty(s: Seq<char>)
    ensures
        split_on_newline(s).len() >= 1,
    decreases s.len(),
{
    if s.len() != 0 {
        lemma_split_nonempty(s.skip(1));
    }
}

/// The lines of a text block, as `str::lines` reads them: segments between
/// newlines, without a final empty segment when the text ends in a newline.
pub open spec fn lines_of(s: Seq<char>) -> Seq<Seq<char>> {
    if s.len() == 0 {
        Seq::<Seq<char>>::empty()
    } else if s[s.len() - 1] == '\n' {
        split_on_newline(s).drop_last()
    } else {
        split_on_newline(s)
    }
}

/// Collect the characters of a string slice.
fn chars_of(s: &str) -> (r: Vec<char>)
    ensures
        r@ == s@,
{
    let mut it = s.chars();
    let mut r: Vec<char> = Vec::new();
    proof {
        assert(r@ + it.remaining() =~= s@);
    }
    loop
        invariant
            it.obeys_prophetic_iter_laws(),
            r@ + it.remaining() == s@,
            r@.len() <= s@.len(),
        decreases s@.len() - r@.len(),
    {
        let ghost pre_r = r@;
        let ghost pre_rem = it.remaining();
        match it.next() {
            Some(c) => {
                r.push(c);
                proof {
                    assert(r@ + it.remaining() =~= pre_r + pre_rem);
                }
            },
            None => {
                proof {
                    assert(r@ =~= r@ + it.remaining());
                }
                return r;
            },
        }
    }
}

/// Split a character sequence into its lines.
fn split_lines(cs: &Vec<char>) -> (r: Vec<Vec<char>>)
    ensures
        r.deep_view() == lines_of(cs@),
{
    let mut done: Vec<Vec<char>> = Vec::new();
    let mut cur: Vec<char> = Vec::new();
    let mut idx: usize = 0;
    proof {
        lemma_split_nonempty(cs@.skip(0));
        assert(cs@.skip(0) =~= cs@);
        assert(done.deep_view() + seq![cur@ + split_on_newline(cs@.skip(idx as int))[0]]
            + split_on_newline(cs@.skip(idx as int)).skip(1) =~~= split_on_newline(cs@));
    }
    while idx < cs.len()
        invariant
            idx <= cs@.len(),
            split_on_newline(cs@) == done.deep_view()
                + seq![cur@ + split_on_newline(cs@.skip(idx as int))[0]]
                + split_on_newline(cs@.skip(idx as int)).skip(1),
        decreases cs@.len() - idx,
    {
        let ghost rest = cs@.skip(idx as int);
        let ghost rest2 = cs@.skip(idx as int + 1);
        proof {
            lemma_split_nonempty(rest2);
            assert(rest.len() > 0);
            assert(rest[0] == cs@[idx as int]);
            assert(rest.skip(1) =~= rest2);
        }
        let c = cs[idx];
        if c == '\n' {
            proof {
                assert(split_on_newline(rest) == seq![Seq::<char>::empty()]
                    + split_on_newline(rest2));
                assert(split_on_newline(rest)[0] =~= Seq::<char>::empty());
                assert(split_on_newline(rest).skip(1) =~~= split_on_newline(rest2));
            }
            let ghost pre_done = done.deep_view();
            let ghost pre_cur = cur@;
            done.push(cur);
            cur = Vec::new();
            proof {
                assert(done.deep_view() =~~= pre_done + seq![pre_cur]);
                assert(pre_done + seq![pre_cur + Seq::<char>::empty()]
                    + split_on_newline(rest2)
                    =~~= done.deep_view() + seq![cur@ + split_on_newline(rest2)[0]]
                        + split_on_newline(rest2).skip(1)) by {
                    assert(split_on_newline(rest2)
                        =~~= seq![split_on_newline(rest2)[0]]
                            + split_on_newline(rest2).skip(1));
                    assert(pre_cur + Seq::<char>::empty() =~= pre_cur);
                }
            }
        } else {
            proof {
                assert(split_on_newline(rest) == seq![seq![rest[0]] + split_on_newline(rest2)[0]]
                    + split_on_newline(rest2).skip(1));
            }
            let ghost pre_cur = cur@;
            cur.push(c);
            proof {
                assert(cur@ + split_on_newline(rest2)[0]
                    =~= pre_cur + (seq![c] + split_on_newline(rest2)[0]));
                assert(cur@ + split_on_newline(rest2)[0]
                    =~= pre_cur + split_on_newline(rest)[0]);
                assert(split_on_newline(rest).skip(1) =~~= split_on_newline(rest2).skip(1));
                assert(done.deep_view() + seq![cur@ + split_on_newline(rest2)[0]]
                    + split_on_newline(rest2).skip(1)
                    =~~= done.deep_view() + seq![pre_cur + split_on_newline(rest)[0]]
                        + split_on_newline(rest).skip(1));
            }
        }
        idx = idx + 1;
    }
    proof {
        assert(cs@.skip(idx as int) =~= Seq::<char>::empty());
        assert(split_on_newline(cs@) == done.deep_view() + seq![cur@]
            + split_on_newline(Seq::<char>::empty()).skip(1)) by {
            assert(split_on_newline(Seq::<char>::empty())[0] =~= Seq::<char>::empty());
            assert(cur@ + Seq::<char>::empty() =~= cur@);
        }
        assert(split_on_newline(Seq::<char>::empty()).skip(1)
            =~~= Seq::<Seq<char>>::empty());
        assert(split_on_newline(cs@) =~~= done.deep_view() + seq![cur@]);
    }
    if cs.len() == 0 {
        let r: Vec<Vec<char>> = Vec::new();
        proof {
            assert(r.deep_view() =~~= lines_of(cs@));
        }
        return r;
    }
    let last = cs[cs.len() - 1];
    if last == '\n' {
        proof {
            assert(done.deep_view() =~~= split_on_newline(cs@).drop_last());
        }
        done
    } else {
        let ghost pre_done = done.deep_view();
        done.push(cur);
        proof {
            assert(done.deep_view() =~~= split_on_newline(cs@));
        }
        done
    }
}

pub open spec fn square(r: int) -> int {
    r * r
}

/// Whether `k` has an integer square root.
pub open spec fn is_square(k: int) -> bool {
    exists|r: int| 0 <= r && #[trigger] square(r) == k
}

proof fn lemma_no_square_between(r: int, k: int)
    requires
        0 <= r,
        square(r) < k,
        k < square(r + 1),
    ensures
        !is_square(k),
{
    if is_square(k) {
        let t = choose|t: int| 0 <= t && #[trigger] square(t) == k;
        if t <= r {
            assert(t * t <= r * r) by (nonlinear_arith)
                requires 0 <= t, t <= r;
        } else {
            assert((r + 1) * (r + 1) <= t * t) by (nonlinear_arith)
                requires 0 <= r + 1, r + 1 <= t;
        }
    }
}

/// The integer square root of `k`, when `k` is a perfect square.
fn sqrt_if_square(k: usize) -> (res: Option<u64>)
    requires
        k <= 0xFFFF_FFFF,
    ensures
        res matches Some(n) ==> square(n as int) == k && is_square(k as int),
        res is None ==> !is_square(k as int),
{
    let mut r: u64 = 0;
    loop
        invariant_except_break
            k <= 0xFFFF_FFFF,
            square(r as int) <= k,
            r <= 0x1_0000,
        ensures
            square(r as int) <= k,
            k < square(r as int + 1),
            r <= 0x1_0000,
        decreases k - square(r as int),
    {
        proof {
            assert((r as int + 1) * (r as int + 1) <= 0x1_0001 * 0x1_0001) by (nonlinear_arith)
                requires 0 <= r as int, r as int + 1 <= 0x1_0001;
        }
        let next = (r + 1) * (r + 1);
        if next > k as u64 {
            break;
        }
        proof {
            assert(r + 1 <= 0x1_0000) by (nonlinear_arith)
                requires (r as int + 1) * (r as int + 1) <= k, k <= 0xFFFF_FFFF;
            assert(r * r < (r + 1) * (r + 1)) by (nonlinear_arith)
                requires 0 <= r as int;
        }
        r = r + 1;
    }
    let rr = r * r;
    proof {
        assert(r * r <= 0x1_0000 * 0x1_0000) by (nonlinear_arith)
            requires 0 <= r as int, r <= 0x1_0000;
    }
    if rr == k as u64 {
        proof {
            assert(square(r as int) == k);
        }
        Some(r)
    } else {
        proof {
            lemma_no_square_between(r as int, k as int);
        }
        None
    }
}

/// The first line is never longer than the whole text.
proof fn lemma_first_segment_len(s: Seq<char>)
    ensures
        split_on_newline(s)[0].len() <= s.len(),
    decreases s.len(),
{
    if s.len() != 0 && s[0] != '\n' {
        lemma_first_segment_len(s.skip(1));
    }
}

proof fn lemma_split_count(s: Seq<char>)
    ensures
        split_on_newline(s).len() <= s.len() + 1,
    decreases s.len(),
{
    if s.len() != 0 {
        lemma_split_count(s.skip(1));
    }
}

/// A line cannot be adopted as a grid row: it is longer than the side, or
/// holds a character that is no decimal digit.
pub open spec fn line_fault(l: Seq<char>, side: int) -> bool {
    l.len() > side || exists|x: int| 0 <= x < l.len() && !is_digit_char(#[trigger] l[x])
}

/// The first offending character of the line, in scan order, is a non-digit
/// rather than a digit beyond the side: cell parsing reports `ParseError`
/// for such a line, `InvalidGrid` for an overlong but all-digit prefix.
pub open spec fn line_parse_fault(l: Seq<char>, side: int) -> bool {
    exists|x: int| 0 <= x < l.len() && x <= side && !is_digit_char(#[trigger] l[x])
}

/// The structural checks: the line count is a perfect square, and so is the
/// length of the first line (later lines are not measured by this check).
pub open spec fn grid_structure_ok(ls: Seq<Seq<char>>) -> bool {
    &&& is_square(ls.len() as int)
    &&& ls.len() > 0 ==> is_square(ls[0].len() as int)
}

/// The whole text deserializes into a grid.
pub open spec fn parse_ok(s: Seq<char>) -> bool {
    let ls = lines_of(s);
    &&& grid_structure_ok(ls)
    &&& forall|y: int| 0 <= y < ls.len() ==> !line_fault(#[trigger] ls[y], ls.len() as int)
}

/// Among the faulty lines, the first one in scan order fails on a non-digit
/// character, so the deserializer reports `ParseError` (else `InvalidGrid`).
pub open spec fn faults_as_parse_error(ls: Seq<Seq<char>>, side: int) -> bool {
    exists|y: int|
        0 <= y < ls.len() && line_parse_fault(#[trigger] ls[y], side) && (forall|y2: int|
            0 <= y2 < y ==> !line_fault(#[trigger] ls[y2], side))
}

/// The cell that line `y`, character `x` denotes: the digit `0` and a
/// missing character (a short line) mean empty, any other digit is the value.
pub open spec fn parsed_cell(ls: Seq<Seq<char>>, x: int, y: int) -> Option<u32> {
    if x < ls[y].len() && digit_val(ls[y][x]) != 0 {
        Some(digit_val(ls[y][x]))
    } else {
        None
    }
}

impl Sudoku {
    /// Deserialize a grid from a block of text: one line per row, one digit
    /// per cell, `0` for empty. The line count must be a perfect square; its
    /// root becomes the block size and the count itself the side. The first
    /// line's length must also be a perfect square, and no line may exceed
    /// the side or hold a non-digit; short lines leave their missing cells
    /// empty. No sudoku-constraint validation is performed.
    pub fn from_string(input: String) -> (r: Result<Sudoku, ConversionError>)
        requires
            input@.len() <= 0xFFFF_FFFE,
        ensures
            r is Ok <==> parse_ok(input@),
            r matches Ok(s) ==> ({
                let ls = lines_of(input@);
                &&& s.wf()
                &&& s.n * s.n == ls.len()
                &&& s.side() == ls.len()
                &&& forall|x: int, y: int|
                    s.in_grid(x, y) ==> s.cell(x, y) == parsed_cell(ls, x, y)
            }),
            r matches Err(e) ==> ((e == ConversionError::ParseError) <==> (
                grid_structure_ok(lines_of(input@))
                    && faults_as_parse_error(lines_of(input@), lines_of(input@).len() as int)
            )),
    {
        let cs = chars_of(input.as_str());
        let lines = split_lines(&cs);
        let ghost ls = lines_of(input@);
        proof {
            assert(lines.deep_view() == ls);
            lemma_split_count(cs@);
            assert(ls.len() <= cs@.len() + 1);
        }

        let n64 = match sqrt_if_square(lines.len()) {
            None => {
                return Err(ConversionError::InvalidGrid);
            },
            Some(n) => n,
        };
        proof {
            assert(n64 <= 0xFFFF) by (nonlinear_arith)
                requires (n64 as int) * (n64 as int) <= 0xFFFF_FFFFint, 0 <= n64 as int;
        }
        let n: u32 = n64 as u32;

        if lines.len() > 0 {
            let first: &Vec<char> = &lines[0];
            proof {
                assert(first@ =~= ls[0]);
                lemma_split_nonempty(input@);
                lemma_first_segment_len(input@);
                assert(ls[0].len() <= input@.len());
            }
            match sqrt_if_square(first.len()) {
                None => {
                    return Err(ConversionError::InvalidGrid);
                },
                Some(_) => {},
            }
        }

        let side = lines.len();
        let mut grid: Vec<Vec<Option<u32>>> = Vec::new();
        let mut y: usize = 0;
        while y < side
            invariant
                ls == lines_of(input@),
                lines.deep_view() == ls,
                side == ls.len(),
                n * n == side,
                n <= 0xFFFF,
                grid_structure_ok(ls),
                y <= side,
                grid@.len() == y,
                forall|y2: int| 0 <= y2 < y ==> !line_fault(#[trigger] ls[y2], side as int),
                forall|y2: int| 0 <= y2 < y ==> (#[trigger] grid@[y2])@.len() == side,
                forall|y2: int, x2: int|
                    0 <= y2 < y && 0 <= x2 < side
                        ==> #[trigger] grid@[y2]@[x2] == parsed_cell(ls, x2, y2),
            decreases side - y,
        {
            let line: &Vec<char> = &lines[y];
            proof {
                assert(line@ =~= ls[y as int]);
            }
            let mut row: Vec<Option<u32>> = Vec::new();
            while row.len() < side
                invariant
                    row@.len() <= side,
                    forall|x2: int| 0 <= x2 < row@.len() ==> (#[trigger] row@[x2]) is None,
                decreases side - row.len(),
            {
                row.push(None);
            }
            let mut x: usize = 0;
            while x < line.len()
                invariant
                    ls == lines_of(input@),
                    side == ls.len(),
                    grid_structure_ok(ls),
                    y < side,
                    line@ == ls[y as int],
                    forall|y2: int| 0 <= y2 < y ==> !line_fault(#[trigger] ls[y2], side as int),
                    x <= line@.len(),
                    x <= side,
                    row@.len() == side,
                    forall|x2: int| 0 <= x2 < x ==> is_digit_char(#[trigger] line@[x2]) && x2 < side,
                    forall|x2: int|
                        0 <= x2 < side
                            ==> #[trigger] row@[x2] == (if x2 < x && digit_val(line@[x2]) != 0 {
                                Some(digit_val(line@[x2]))
                            } else {
                                None
                            }),
                decreases line@.len() - x,
            {
                let c = line[x];
                let cu = c as u32;
                if cu < 48 || cu > 57 {
                    proof {
                        assert(line_parse_fault(ls[y as int], side as int)) by {
                            assert(0 <= x < ls[y as int].len() && x <= side
                                && !is_digit_char(ls[y as int][x as int]));
                        }
                        assert(line_fault(ls[y as int], side as int));
                        assert(faults_as_parse_error(ls, side as int));
                        assert(!parse_ok(input@));
                    }
                    return Err(ConversionError::ParseError);
                }
                if x >= side {
                    proof {
                        assert(x == side);
                        assert(line_fault(ls[y as int], side as int)) by {
                            assert(ls[y as int].len() > side);
                        }
                        assert(!parse_ok(input@));
                        assert(!line_parse_fault(ls[y as int], side as int)) by {
                            assert(forall|x2: int|
                                0 <= x2 < ls[y as int].len() && x2 <= side
                                    ==> is_digit_char(#[trigger] ls[y as int][x2]));
                        }
                        assert(!faults_as_parse_error(ls, side as int)) by {
                            assert forall|yf: int|
                                0 <= yf < ls.len() && line_parse_fault(#[trigger] ls[yf], side as int)
                                implies !(forall|y2: int|
                                    0 <= y2 < yf ==> !line_fault(#[trigger] ls[y2], side as int)) by {
                                if yf <= y {
                                    assert(!line_parse_fault(ls[yf], side as int));
                                } else {
                                    assert(line_fault(ls[y as int], side as int));
                                }
                            }
                        }
                    }
                    return Err(ConversionError::InvalidGrid);
                }
                let v = cu - 48;
                proof {
                    assert(digit_val(c) == v);
                }
                if v != 0 {
                    row.set(x, Some(v));
                }
                x = x + 1;
            }
            proof {
                assert(!line_fault(ls[y as int], side as int));
                assert(forall|x2: int|
                    0 <= x2 < side ==> #[trigger] row@[x2] == parsed_cell(ls, x2, y as int));
            }
            grid.push(row);
            y = y + 1;
        }
        let s = Sudoku { n, grid };
        proof {
            assert(s.side() == side);
            assert(s.wf());
            assert(parse_ok(input@));
            assert(forall|x2: int, y2: int|
                s.in_grid(x2, y2) ==> s.cell(x2, y2) == parsed_cell(ls, x2, y2));
        }
        Ok(s)
    }
}

/// The digit character that denotes `v`.
pub open spec fn digit_char(v: u32) -> char {
    if v == 0 {
        '0'
    } else if v == 1 {
        '1'
    } else if v == 2 {
        '2'
    } else if v == 3 {
        '3'
    } else if v == 4 {
        '4'
    } else if v == 5 {
        '5'
    } else if v == 6 {
        '6'
    } else if v == 7 {
        '7'
    } else if v == 8 {
        '8'
    } else {
        '9'
    }
}

/// The character that stands for a cell: its digit, `'0'` when empty.
pub open spec fn cell_char(c: Option<u32>) -> char {
    match c {
        None => '0',
        Some(v) => digit_char(v),
    }
}

proof fn lemma_cell_char(c: Option<u32>)
    requires
        c matches Some(v) ==> 1 <= v <= 9,
    ensures
        is_digit_char(cell_char(c)),
        digit_val(cell_char(c)) == (match c {
            None => 0u32,
            Some(v) => v,
        }),
{
    match c {
        None => {
            assert(('0' as u32) == 48);
        },
        Some(v) => {
            if v == 1 {
                assert(('1' as u32) == 49);
            } else if v == 2 {
                assert(('2' as u32) == 50);
            } else if v == 3 {
                assert(('3' as u32) == 51);
            } else if v == 4 {
                assert(('4' as u32) == 52);
            } else if v == 5 {
                assert(('5' as u32) == 53);
            } else if v == 6 {
                assert(('6' as u32) == 54);
            } else if v == 7 {
                assert(('7' as u32) == 55);
            } else if v == 8 {
                assert(('8' as u32) == 56);
            } else {
                assert(('9' as u32) == 57);
            }
        },
    }
}

/// One serialized row: the side's worth of cell characters.
pub open spec fn row_text(s: Sudoku, y: int) -> Seq<char> {
    Seq::new(s.side() as nat, |x: int| cell_char(s.cell(x, y)))
}

/// The serialized rows from `y` on, each followed by a newline.
pub open spec fn rows_text_from(s: Sudoku, y: int) -> Seq<char>
    decreases s.side() - y,
{
    if y < 0 || y >= s.side() {
        Seq::<char>::empty()
    } else {
        row_text(s, y) + seq!['\n'] + rows_text_from(s, y + 1)
    }
}

/// The textual form of a whole grid.
pub open spec fn text_of(s: Sudoku) -> Seq<char> {
    rows_text_from(s, 0)
}

pub proof fn lemma_sqrt_unique(a: int, b: int)
    requires
        0 <= a,
        0 <= b,
        a * a == b * b,
    ensures
        a == b,
{
    if a < b {
        assert((a + 1) * (a + 1) <= b * b) by (nonlinear_arith)
            requires 0 <= a, a + 1 <= b;
        assert(a * a < (a + 1) * (a + 1)) by (nonlinear_arith)
            requires 0 <= a;
    }
    if b < a {
        assert((b + 1) * (b + 1) <= a * a) by (nonlinear_arith)
            requires 0 <= b, b + 1 <= a;
        assert(b * b < (b + 1) * (b + 1)) by (nonlinear_arith)
            requires 0 <= b;
    }
}

impl Sudoku {
    /// Every filled cell holds a single-digit value, so the grid has a
    /// textual form.
    pub open spec fn text_ready(self) -> bool {
        forall|x: int, y: int|
            self.in_grid(x, y) ==> (#[trigger] self.cell(x, y) matches Some(v) ==> 1 <= v <= 9)
    }
}

/// Append the character that stands for a cell.
fn push_cell_char(out: &mut String, c: Option<u32>)
    requires
        c matches Some(v) ==> 1 <= v <= 9,
    ensures
        final(out)@ == old(out)@ + seq![cell_char(c)],
{
    let ghost pre = old(out)@;
    match c {
        None => {
            out.append("0");
            proof {
                reveal_strlit("0");
                assert(out@ =~= pre + seq![cell_char(c)]);
            }
        },
        Some(v) => {
            if v == 1 {
                out.append("1");
                proof {
                    reveal_strlit("1");
                    assert(out@ =~= pre + seq![cell_char(c)]);
                }
            } else if v == 2 {
                out.append("2");
                proof {
                    reveal_strlit("2");
                    assert(out@ =~= pre + seq![cell_char(c)]);
                }
            } else if v == 3 {
                out.append("3");
                proof {
                    reveal_strlit("3");
                    assert(out@ =~= pre + seq![cell_char(c)]);
                }
            } else if v == 4 {
                out.append("4");
                proof {
                    reveal_strlit("4");
                    assert(out@ =~= pre + seq![cell_char(c)]);
                }
            } else if v == 5 {
                out.append("5");
                proof {
                    reveal_strlit("5");
                    assert(out@ =~= pre + seq![cell_char(c)]);
                }
            } else if v == 6 {
                out.append("6");
                proof {
                    reveal_strlit("6");
                    assert(out@ =~= pre + seq![cell_char(c)]);
                }
            } else if v == 7 {
                out.append("7");
                proof {
                    reveal_strlit("7");
                    assert(out@ =~= pre + seq![cell_char(c)]);
                }
            } else if v == 8 {
                out.append("8");
                proof {
                    reveal_strlit("8");
                    assert(out@ =~= pre + seq![cell_char(c)]);
                }
            } else {
                out.append("9");
                proof {
                    reveal_strlit("9");
                    assert(out@ =~= pre + seq![cell_char(c)]);
                }
            }
        },
    }
}

impl Sudoku {
    /// Serialize the grid to its textual form: one line per row, one digit
    /// per cell, `0` for an empty cell, each row closed by a newline.
    pub fn to_text(&self) -> (r: String)
        requires
            self.wf(),
            self.text_ready(),
        ensures
            r@ == text_of(*self),
    {
        let side = self.side_len();
        let mut out = String::new();
        proof {
            assert(out@ + rows_text_from(*self, 0) =~= text_of(*self));
        }
        let mut y: u32 = 0;
        while y < side
            invariant
                self.wf(),
                self.text_ready(),
                side == self.side(),
                y <= side,
                text_of(*self) == out@ + rows_text_from(*self, y as int),
            decreases side - y,
        {
            let ghost row_start = out@;
            let mut x: u32 = 0;
            while x < side
                invariant
                    self.wf(),
                    self.text_ready(),
                    side == self.side(),
                    y < side,
                    x <= side,
                    text_of(*self) == row_start + rows_text_from(*self, y as int),
                    out@ == row_start + row_text(*self, y as int).take(x as int),
                decreases side - x,
            {
                let cell = self.grid[y as usize][x as usize];
                push_cell_char(&mut out, cell);
                proof {
                    assert(row_text(*self, y as int).take(x as int + 1)
                        =~= row_text(*self, y as int).take(x as int)
                            + seq![cell_char(self.cell(x as int, y as int))]);
                }
                x = x + 1;
            }
            let ghost pre = out@;
            out.append("\n");
            proof {
                reveal_strlit("\n");
                assert(row_text(*self, y as int).take(side as int)
                    =~= row_text(*self, y as int));
                assert(out@ =~= row_start + row_text(*self, y as int) + seq!['\n']);
                assert(text_of(*self) =~= out@ + rows_text_from(*self, y as int + 1));
            }
            y = y + 1;
        }
        proof {
            assert(rows_text_from(*self, side as int) =~= Seq::<char>::empty());
            assert(text_of(*self) =~= out@);
        }
        out
    }
}

proof fn lemma_split_concat(a: Seq<char>, b: Seq<char>)
    requires
        !a.contains('\n'),
    ensures
        split_on_newline(a + seq!['\n'] + b) == seq![a] + split_on_newline(b),
    decreases a.len(),
{
    let s = a + seq!['\n'] + b;
    if a.len() == 0 {
        assert(s[0] == '\n');
        assert(s.skip(1) =~= b);
        assert(split_on_newline(s) =~~= seq![a] + split_on_newline(b)) by {
            assert(a =~= Seq::<char>::empty());
        }
    } else {
        assert(a[0] != '\n') by {
            if a[0] == '\n' {
                assert(a.contains('\n'));
            }
        }
        assert(s[0] == a[0]);
        let a2 = a.skip(1);
        assert(!a2.contains('\n')) by {
            if a2.contains('\n') {
                let i = choose|i: int| 0 <= i < a2.len() && a2[i] == '\n';
                assert(a[i + 1] == '\n');
                assert(a.contains('\n'));
            }
        }
        assert(s.skip(1) =~= a2 + seq!['\n'] + b);
        lemma_split_concat(a2, b);
        let rest = split_on_newline(s.skip(1));
        assert(rest[0] == a2);
        assert(split_on_newline(s) == seq![seq![s[0]] + rest[0]] + rest.skip(1));
        assert(seq![s[0]] + a2 =~= a);
        assert(rest.skip(1) =~= split_on_newline(b)) by {
            assert(rest =~~= seq![a2] + split_on_newline(b));
        }
        assert(split_on_newline(s) =~~= seq![a] + split_on_newline(b));
    }
}

proof fn lemma_row_text_digits(s: Sudoku, y: int)
    requires
        s.wf(),
        s.text_ready(),
        0 <= y < s.side(),
    ensures
        forall|x: int| 0 <= x < s.side() ==> is_digit_char(#[trigger] row_text(s, y)[x]),
        !row_text(s, y).contains('\n'),
{
    assert forall|x: int| 0 <= x < s.side() implies is_digit_char(#[trigger] row_text(s, y)[x]) by {
        lemma_cell_char(s.cell(x, y));
    }
    if row_text(s, y).contains('\n') {
        let i = choose|i: int| 0 <= i < row_text(s, y).len() && row_text(s, y)[i] == '\n';
        assert(is_digit_char(row_text(s, y)[i]));
        assert(('\n' as u32) == 10);
    }
}

proof fn lemma_rows_split(s: Sudoku, y: int)
    requires
        s.wf(),
        s.text_ready(),
        0 <= y <= s.side(),
    ensures
        split_on_newline(rows_text_from(s, y))
            =~~= Seq::new((s.side() - y) as nat, |k: int| row_text(s, y + k))
                + seq![Seq::<char>::empty()],
    decreases s.side() - y,
{
    if y == s.side() {
        assert(rows_text_from(s, y) =~= Seq::<char>::empty());
    } else {
        lemma_row_text_digits(s, y);
        lemma_rows_split(s, y + 1);
        lemma_split_concat(row_text(s, y), rows_text_from(s, y + 1));
        assert(rows_text_from(s, y) == row_text(s, y) + seq!['\n'] + rows_text_from(s, y + 1));
        assert(split_on_newline(rows_text_from(s, y))
            =~~= seq![row_text(s, y)] + split_on_newline(rows_text_from(s, y + 1)));
    }
}

proof fn lemma_text_ends_newline(s: Sudoku, y: int)
    requires
        s.wf(),
        s.text_ready(),
        0 <= y < s.side(),
    ensures
        rows_text_from(s, y).len() > 0,
        rows_text_from(s, y).last() == '\n',
    decreases s.side() - y,
{
    if y + 1 == s.side() {
        assert(rows_text_from(s, y + 1) =~= Seq::<char>::empty());
        assert(rows_text_from(s, y) =~= row_text(s, y) + seq!['\n']);
    } else {
        lemma_text_ends_newline(s, y + 1);
    }
}

/// The round trip: the textual form of a grid deserializes, into exactly as
/// many lines as the grid's side, and cell by cell back to the same grid.
/// Together with the contract of `from_string` (whose accepted grid has the
/// same cells as `parsed_cell` and a block size whose square is the line
/// count, unique by `lemma_sqrt_unique`), deserializing `to_text`'s output
/// yields a grid identical to the original.
pub proof fn lemma_round_trip(s: Sudoku)
    requires
        s.wf(),
        s.text_ready(),
    ensures
        parse_ok(text_of(s)),
        lines_of(text_of(s)).len() == s.side(),
        forall|x: int, y: int|
            s.in_grid(x, y) ==> parsed_cell(lines_of(text_of(s)), x, y) == s.cell(x, y),
        forall|m: int| 0 <= m && #[trigger] square(m) == lines_of(text_of(s)).len() ==> m == s.n,
{
    assert forall|m: int| 0 <= m && #[trigger] square(m) == lines_of(text_of(s)).len() implies m == s.n by {
        lemma_round_trip_lines(s);
        lemma_sqrt_unique(m, s.n as int);
    }
    lemma_round_trip_lines(s);
}

/// The body of the round-trip argument, separated so that the block-size
/// clause above can call it.
proof fn lemma_round_trip_lines(s: Sudoku)
    requires
        s.wf(),
        s.text_ready(),
    ensures
        parse_ok(text_of(s)),
        lines_of(text_of(s)).len() == s.side(),
        forall|x: int, y: int|
            s.in_grid(x, y) ==> parsed_cell(lines_of(text_of(s)), x, y) == s.cell(x, y),
{
    let t = text_of(s);
    let side = s.side();
    if side == 0 {
        assert(t =~= Seq::<char>::empty());
        assert(lines_of(t) =~~= Seq::<Seq<char>>::empty());
        assert(square(0) == 0);
        assert(is_square(0));
    } else {
        let rows = Seq::new(side as nat, |k: int| row_text(s, k));
        lemma_rows_split(s, 0);
        assert(split_on_newline(t) =~~= rows + seq![Seq::<char>::empty()]) by {
            assert(Seq::new((side - 0) as nat, |k: int| row_text(s, 0 + k)) =~~= rows);
        }
        lemma_text_ends_newline(s, 0);
        assert(t[t.len() - 1] == '\n');
        assert(lines_of(t) =~~= rows) by {
            assert((rows + seq![Seq::<char>::empty()]).drop_last() =~~= rows);
        }

        assert(square(s.n as int) == side);
        assert(is_square(side));
        assert(rows[0].len() == side);
        assert(grid_structure_ok(lines_of(t)));

        assert forall|y: int| 0 <= y < rows.len() implies !line_fault(#[trigger] rows[y], side) by {
            lemma_row_text_digits(s, y);
            assert(rows[y] == row_text(s, y));
            assert(rows[y].len() == side);
            assert forall|x: int| 0 <= x < rows[y].len() implies is_digit_char(#[trigger] rows[y][x]) by {
                assert(rows[y][x] == row_text(s, y)[x]);
            }
        }
        assert(parse_ok(t));

        assert forall|x: int, y: int|
            s.in_grid(x, y) implies parsed_cell(lines_of(t), x, y) == s.cell(x, y) by {
            lemma_cell_char(s.cell(x, y));
            assert(lines_of(t)[y] == rows[y]);
            assert(rows[y][x] == cell_char(s.cell(x, y)));
        }
    }
}

} // verus!

//! The text form of an array: one row to a line, each row a list of the
//! tokens `0` and `1` with white space between them.

use vstd::prelude::*;
use vstd::string::StringSliceAdditionalSpecFns;
use crate::balance::flatten;
use crate::fitness::{views, FitnessFunction};
use crate::oarray::{OArray, MAX_COLUMNS, MAX_ROWS};

verus! {

/// Why a text is not an array.
#[derive(Clone, Copy, Debug, PartialEq, Eq, Structural)]
pub enum ParseError {
    /// A token is neither `0` nor `1`.
    UnexpectedToken,
    /// A row has another number of tokens than the row before.
    UnevenRows,
    /// The text has no row.
    Empty,
    /// The number of rows is odd, so no row count of strength one; or
    /// a count is beyond `MAX_ROWS` or `MAX_COLUMNS`.
    InvalidShape,
}

/// White space inside a line: blank, tab, vertical tab, form feed and
/// carriage return.
pub open spec fn is_blank(b: u8) -> bool {
    b == 0x20 || b == 0x09 || b == 0x0B || b == 0x0C || b == 0x0D
}

/// White space: a blank or the end of a line.
pub open spec fn is_space(b: u8) -> bool {
    is_blank(b) || b == 0x0A
}

/// `s` without the white space at its start.
pub open spec fn trim_start(s: Seq<u8>) -> Seq<u8>
    decreases s.len(),
{
    if s.len() > 0 && is_space(s[0]) {
        trim_start(s.drop_first())
    } else {
        s
    }
}

/// `s` without the white space at its end.
pub open spec fn trim_end(s: Seq<u8>) -> Seq<u8>
    decreases s.len(),
{
    if s.len() > 0 && is_space(s.last()) {
        trim_end(s.drop_last())
    } else {
        s
    }
}

/// `s` without the white space at its start and its end.
pub open spec fn trimmed(s: Seq<u8>) -> Seq<u8> {
    trim_end(trim_start(s))
}

/// The place of the first line end of `s` at or after `from`; the length
/// of `s` where there is none.
pub open spec fn line_end(s: Seq<u8>, from: int) -> int
    decreases s.len() - from,
{
    if from >= s.len() {
        s.len() as int
    } else if s[from] == 0x0A {
        from
    } else {
        line_end(s, from + 1)
    }
}

/// The lines of `s`: the stretches between line ends. A line end at the
/// very end of `s` starts no further line.
pub open spec fn lines(s: Seq<u8>) -> Seq<Seq<u8>>
    decreases s.len(),
{
    if s.len() == 0 {
        Seq::<Seq<u8>>::empty()
    } else {
        let q = line_end(s, 0);
        if q < 0 || q >= s.len() {
            seq![s]
        } else {
            seq![s.subrange(0, q)] + lines(s.subrange(q + 1, s.len() as int))
        }
    }
}

/// The row that a line holds: its tokens, each `0` or `1`, as bits. None
/// where a token is anything else.
pub open spec fn row_of(line: Seq<u8>) -> Option<Seq<bool>>
    decreases line.len(),
{
    if line.len() == 0 {
        Some(Seq::<bool>::empty())
    } else if is_space(line[0]) {
        row_of(line.drop_first())
    } else if (line[0] == 0x30 || line[0] == 0x31) && (line.len() == 1 || is_space(line[1])) {
        match row_of(line.drop_first()) {
            Some(rest) => Some(seq![line[0] == 0x31] + rest),
            None => None,
        }
    } else {
        None
    }
}

/// The rows of the first `m` lines, or the first fault met: a line that
/// holds a bad token, or a row that is not as long as the row before.
pub open spec fn rows_of(all: Seq<Seq<u8>>, m: nat) -> Result<Seq<Seq<bool>>, ParseError>
    decreases m,
{
    if m == 0 {
        Ok(Seq::<Seq<bool>>::empty())
    } else {
        match rows_of(all, (m - 1) as nat) {
            Err(e) => Err(e),
            Ok(prev) => match row_of(all[m - 1]) {
                None => Err(ParseError::UnexpectedToken),
                Some(row) => if prev.len() > 0 && row.len() != prev.last().len() {
                    Err(ParseError::UnevenRows)
                } else {
                    Ok(prev.push(row))
                },
            },
        }
    }
}

/// The rows that the text `input` holds, or the fault that it has.
pub open spec fn parsed(input: Seq<u8>) -> Result<Seq<Seq<bool>>, ParseError> {
    let all = lines(trimmed(input));
    match rows_of(all, all.len()) {
        Err(e) => Err(e),
        Ok(rows) => if rows.len() == 0 {
            Err(ParseError::Empty)
        } else if rows.len() % 2 != 0 || rows.len() > MAX_ROWS || rows[0].len() > MAX_COLUMNS
            || rows.len() * rows[0].len() > usize::MAX {
            Err(ParseError::InvalidShape)
        } else {
            Ok(rows)
        },
    }
}

/// The rows of some lines are the rows of as many lines of a longer list
/// that begins with them.
pub proof fn lemma_rows_prefix(a: Seq<Seq<u8>>, b: Seq<Seq<u8>>, m: nat)
    requires
        m <= a.len(),
        m <= b.len(),
        forall|i: int| 0 <= i < m ==> a[i] == b[i],
    ensures
        rows_of(a, m) == rows_of(b, m),
    decreases m,
{
    if m > 0 {
        lemma_rows_prefix(a, b, (m - 1) as nat);
    }
}

/// A fault, once met, stays.
pub proof fn lemma_rows_fault(all: Seq<Seq<u8>>, m: nat, top: nat)
    requires
        m <= top,
        rows_of(all, m).is_err(),
    ensures
        rows_of(all, top) == rows_of(all, m),
    decreases top,
{
    if m < top {
        lemma_rows_fault(all, m, (top - 1) as nat);
    }
}

/// Good rows are as many as the lines, and all as long as the last.
pub proof fn lemma_rows_even(all: Seq<Seq<u8>>, m: nat)
    requires
        rows_of(all, m).is_ok(),
    ensures
        rows_of(all, m).unwrap().len() == m,
        forall|i: int|
            0 <= i < m ==> (#[trigger] rows_of(all, m).unwrap()[i]).len() == rows_of(
                all,
                m,
            ).unwrap().last().len(),
        forall|i: int| 0 <= i < m ==> row_of(all[i]) == Some(#[trigger] rows_of(all, m).unwrap()[i]),
    decreases m,
{
    if m > 0 {
        lemma_rows_even(all, (m - 1) as nat);
    }
}

fn byte_is_space(b: u8) -> (r: bool)
    ensures
        r == is_space(b),
{
    b == 0x20 || b == 0x09 || b == 0x0B || b == 0x0C || b == 0x0D || b == 0x0A
}

/// The row that `line` holds.
pub fn parse_row(line: &[u8]) -> (r: Option<Vec<bool>>)
    ensures
        match r {
            Some(row) => row_of(line@) == Some(row@),
            None => row_of(line@).is_none(),
        },
{
    let mut out: Vec<bool> = Vec::new();
    let mut i: usize = 0;
    proof {
        assert(line@.subrange(0, line@.len() as int) =~= line@);
        if row_of(line@).is_some() {
            assert(out@ + row_of(line@).unwrap() =~= row_of(line@).unwrap());
        }
    }
    while i < line.len()
        invariant
            i <= line.len(),
            row_of(line@) == match row_of(line@.subrange(i as int, line@.len() as int)) {
                Some(rest) => Some(out@ + rest),
                None => None,
            },
        decreases line.len() - i,
    {
        let ghost here = line@.subrange(i as int, line@.len() as int);
        proof {
            assert(here.drop_first() =~= line@.subrange(i + 1, line@.len() as int));
            assert(here[0] == line@[i as int]);
            if i + 1 < line.len() {
                assert(here[1] == line@[i + 1]);
            }
        }
        let b = line[i];
        if byte_is_space(b) {
            i = i + 1;
        } else if (b == 0x30 || b == 0x31) && (i + 1 == line.len() || byte_is_space(line[i + 1])) {
            proof {
                let after = row_of(here.drop_first());
                if after.is_some() {
                    assert(out@ + (seq![b == 0x31] + after.unwrap()) =~= out@.push(b == 0x31)
                        + after.unwrap());
                }
            }
            out.push(b == 0x31);
            i = i + 1;
        } else {
            return None;
        }
    }
    proof {
        assert(line@.subrange(i as int, line@.len() as int) =~= Seq::<u8>::empty());
        assert(out@ + Seq::<bool>::empty() =~= out@);
    }
    Some(out)
}

/// The bounds of `input` without the white space at its start and end.
pub fn trim_bounds(input: &[u8]) -> (r: (usize, usize))
    ensures
        r.0 <= r.1 <= input.len(),
        input@.subrange(r.0 as int, r.1 as int) == trimmed(input@),
{
    let mut lo: usize = 0;
    proof {
        assert(input@.subrange(0, input@.len() as int) =~= input@);
    }
    while lo < input.len() && byte_is_space(input[lo])
        invariant
            lo <= input.len(),
            trim_start(input@) == trim_start(input@.subrange(lo as int, input@.len() as int)),
        decreases input.len() - lo,
    {
        proof {
            let here = input@.subrange(lo as int, input@.len() as int);
            assert(here.drop_first() =~= input@.subrange(lo + 1, input@.len() as int));
        }
        lo = lo + 1;
    }
    let ghost started = input@.subrange(lo as int, input@.len() as int);
    proof {
        if lo < input.len() {
            assert(started[0] == input@[lo as int]);
        }
        assert(trim_start(input@) == started);
    }
    let mut hi: usize = input.len();
    while hi > lo && byte_is_space(input[hi - 1])
        invariant
            lo <= hi <= input.len(),
            started == input@.subrange(lo as int, input@.len() as int),
            trim_end(started) == trim_end(input@.subrange(lo as int, hi as int)),
        decreases hi - lo,
    {
        proof {
            let here = input@.subrange(lo as int, hi as int);
            assert(here.drop_last() =~= input@.subrange(lo as int, hi - 1));
            assert(here.last() == input@[hi - 1]);
        }
        hi = hi - 1;
    }
    proof {
        let here = input@.subrange(lo as int, hi as int);
        if hi > lo {
            assert(here.last() == input@[hi - 1]);
        }
        assert(trim_end(here) == here);
    }
    (lo, hi)
}

/// The rows that the text `input` holds.
pub fn parse_rows(input: &[u8]) -> (r: Result<Vec<Vec<bool>>, ParseError>)
    ensures
        ({
            let all = lines(trimmed(input@));
            match r {
                Ok(rows) => rows_of(all, all.len()) == Ok::<Seq<Seq<bool>>, ParseError>(
                    views(rows@),
                ),
                Err(e) => rows_of(all, all.len()) == Err::<Seq<Seq<bool>>, ParseError>(e),
            }
        }),
{
    let (lo, hi) = trim_bounds(input);
    let text = &input[lo..hi];
    let ghost all = lines(text@);
    let mut rows: Vec<Vec<bool>> = Vec::new();
    let ghost mut done: Seq<Seq<u8>> = Seq::empty();
    let mut p: usize = 0;
    proof {
        assert(text@.subrange(0, text@.len() as int) =~= text@);
        assert(done + lines(text@) =~= lines(text@));
        assert(views(rows@) =~= Seq::<Seq<bool>>::empty());
    }
    while p < text.len()
        invariant
            p <= text.len(),
            text@ == trimmed(input@),
            all == lines(text@),
            all == done + lines(text@.subrange(p as int, text@.len() as int)),
            rows@.len() == done.len(),
            rows_of(done, done.len()) == Ok::<Seq<Seq<bool>>, ParseError>(views(rows@)),
        decreases text.len() - p,
    {
        let ghost rest = text@.subrange(p as int, text@.len() as int);
        let mut q: usize = p;
        while q < text.len() && text[q] != 0x0A
            invariant
                p <= q <= text.len(),
                rest == text@.subrange(p as int, text@.len() as int),
                line_end(rest, 0) == line_end(rest, q - p),
            decreases text.len() - q,
        {
            proof {
                assert(rest[q - p] == text@[q as int]);
            }
            q = q + 1;
        }
        proof {
            if q < text.len() {
                assert(rest[q - p] == text@[q as int]);
            }
            assert(line_end(rest, 0) == q - p);
        }
        let line = &text[p..q];
        let ghost next: Seq<Seq<u8>> = done.push(line@);
        proof {
            assert(line@ =~= rest.subrange(0, q - p));
            if q < text.len() {
                assert(rest.subrange(q - p + 1, rest.len() as int) =~= text@.subrange(
                    q + 1,
                    text@.len() as int,
                ));
                assert(all =~= next + lines(text@.subrange(q + 1, text@.len() as int)));
            } else {
                assert(rest =~= line@);
                assert(all =~= next);
            }
            lemma_rows_prefix(done, next, done.len());
            lemma_rows_even(done, done.len());
            assert(next[done.len() as int] == line@);
            assert(rows_of(next, done.len()) == Ok::<Seq<Seq<bool>>, ParseError>(views(rows@)));
        }
        match parse_row(line) {
            None => {
                proof {
                    lemma_rows_prefix(next, all, next.len());
                    lemma_rows_fault(all, next.len(), all.len());
                }
                return Err(ParseError::UnexpectedToken);
            },
            Some(nums) => {
                if rows.len() > 0 && nums.len() != rows[rows.len() - 1].len() {
                    proof {
                        assert(views(rows@).last() == rows@[rows@.len() - 1]@);
                        lemma_rows_prefix(next, all, next.len());
                        lemma_rows_fault(all, next.len(), all.len());
                    }
                    return Err(ParseError::UnevenRows);
                }
                proof {
                    if rows@.len() > 0 {
                        assert(views(rows@).last() == rows@[rows@.len() - 1]@);
                    }
                    assert(views(rows@.push(nums)) =~= views(rows@).push(nums@));
                }
                rows.push(nums);
            },
        }
        proof {
            done = next;
        }
        if q < text.len() {
            p = q + 1;
        } else {
            p = q;
        }
    }
    proof {
        assert(text@.subrange(p as int, text@.len() as int) =~= Seq::<u8>::empty());
        assert(all =~= done);
    }
    Ok(rows)
}

impl OArray {
    /// `self` is the array of the rows `rows`: of strength one, scored by
    /// DeltaFast.
    pub open spec fn holds_rows(&self, rows: Seq<Seq<bool>>) -> bool {
        &&& self.valid()
        &&& self.ngrande == rows.len()
        &&& rows.len() > 0
        &&& self.k == rows[0].len()
        &&& self.target_t == 1
        &&& self.fitness_f == FitnessFunction::DeltaFast
        &&& forall|i: int| 0 <= i < self.ngrande ==> #[trigger] self.row(i) == rows[i]
    }

    /// Reads an array from its text form: one row to a line, each row a
    /// list of the tokens `0` and `1`. White space around the text is
    /// passed over. The array has strength one and is scored by
    /// DeltaFast; so the number of rows is even.
    pub fn parse(input: &[u8]) -> (r: Result<OArray, ParseError>)
        ensures
            match r {
                Ok(oa) => parsed(input@).is_ok() && oa.holds_rows(parsed(input@).unwrap()),
                Err(e) => parsed(input@) == Err::<Seq<Seq<bool>>, ParseError>(e),
            },
    {
        let rows = match parse_rows(input) {
            Ok(rows) => rows,
            Err(e) => {
                return Err(e);
            },
        };
        let ghost all = lines(trimmed(input@));
        proof {
            lemma_rows_even(all, all.len());
        }
        let row_cnt = rows.len();
        if row_cnt == 0 {
            return Err(ParseError::Empty);
        }
        let k = rows[0].len();
        proof {
            assert(views(rows@)[0] == rows@[0]@);
            assert forall|i: int| 0 <= i < row_cnt implies (#[trigger] rows@[i])@.len() == k by {
                assert(views(rows@)[i] == rows@[i]@);
                assert(views(rows@).last() == rows@[row_cnt - 1]@);
            }
        }
        if row_cnt % 2 != 0 || row_cnt > MAX_ROWS || k > MAX_COLUMNS {
            return Err(ParseError::InvalidShape);
        }
        if row_cnt.checked_mul(k).is_none() {
            return Err(ParseError::InvalidShape);
        }
        let mut cols: Vec<Vec<bool>> = Vec::new();
        let mut j: usize = 0;
        while j < k
            invariant
                j <= k,
                row_cnt == rows.len(),
                forall|i: int| 0 <= i < row_cnt ==> (#[trigger] rows@[i])@.len() == k,
                cols@.len() == j,
                forall|c: int| 0 <= c < j ==> (#[trigger] cols@[c])@.len() == row_cnt,
                forall|c: int, i: int|
                    0 <= c < j && 0 <= i < row_cnt ==> #[trigger] cols@[c]@[i] == rows@[i]@[c],
            decreases k - j,
        {
            let mut col: Vec<bool> = Vec::new();
            let mut i: usize = 0;
            while i < row_cnt
                invariant
                    i <= row_cnt,
                    j < k,
                    row_cnt == rows.len(),
                    forall|x: int| 0 <= x < row_cnt ==> (#[trigger] rows@[x])@.len() == k,
                    col@.len() == i,
                    forall|x: int| 0 <= x < i ==> col@[x] == rows@[x]@[j as int],
                decreases row_cnt - i,
            {
                let row = &rows[i];
                col.push(row[j]);
                i = i + 1;
            }
            cols.push(col);
            j = j + 1;
        }
        let d1 = flatten(&cols, row_cnt);
        proof {
            assert(crate::binary_strings::pow2(1) == 2) by {
                reveal_with_fuel(crate::binary_strings::pow2, 2);
            }
        }
        let oa = OArray::new(row_cnt, k, 1, d1, FitnessFunction::DeltaFast);
        proof {
            assert(oa.columns() == views(cols@));
            assert forall|i: int| 0 <= i < row_cnt implies #[trigger] oa.row(i) == views(
                rows@,
            )[i] by {
                assert forall|c: int| 0 <= c < k implies oa.row(i)[c] == rows@[i]@[c] by {
                    assert(oa.columns()[c][i] == oa.cell(i, c));
                    assert(oa.columns()[c] == cols@[c]@);
                }
                assert(oa.row(i) =~= rows@[i]@);
            }
        }
        Ok(oa)
    }

    /// Reads an array from its text form: see `parse`.
    pub fn from(input: &str) -> (r: Result<OArray, ParseError>)
        ensures
            match r {
                Ok(oa) => parsed(input.spec_bytes()).is_ok() && oa.holds_rows(
                    parsed(input.spec_bytes()).unwrap(),
                ),
                Err(e) => parsed(input.spec_bytes()) == Err::<Seq<Seq<bool>>, ParseError>(e),
            },
    {
        OArray::parse(input.as_bytes())
    }
}

/// The text of one row: each bit as the token `0` or `1` followed by a
/// blank, and a line end after the last.
pub open spec fn row_text(row: Seq<bool>) -> Seq<u8>
    decreases row.len(),
{
    if row.len() == 0 {
        seq![0x0Au8]
    } else {
        seq![if row[0] { 0x31u8 } else { 0x30u8 }, 0x20u8] + row_text(row.drop_first())
    }
}

/// The text of the first `m` rows, one after the other.
pub open spec fn rows_text(rows: Seq<Seq<bool>>, m: nat) -> Seq<u8>
    decreases m,
{
    if m == 0 {
        Seq::<u8>::empty()
    } else {
        rows_text(rows, (m - 1) as nat) + row_text(rows[m - 1])
    }
}

impl OArray {
    /// The text form of the array: one row to a line, each bit as `0` or
    /// `1` followed by a blank.
    pub fn render(&self) -> (r: Vec<u8>)
        requires
            self.well_formed(),
        ensures
            r@ == rows_text(self.rows(), self.ngrande as nat),
    {
        let mut out: Vec<u8> = Vec::new();
        let ghost rows = self.rows();
        let mut i: usize = 0;
        while i < self.ngrande
            invariant
                i <= self.ngrande,
                self.well_formed(),
                rows == self.rows(),
                out@ == rows_text(rows, i as nat),
            decreases self.ngrande - i,
        {
            let ghost row = self.row(i as int);
            let ghost start = out@;
            let mut j: usize = 0;
            proof {
                assert(row.skip(0) =~= row);
            }
            while j < self.k
                invariant
                    j <= self.k,
                    i < self.ngrande,
                    self.well_formed(),
                    row == self.row(i as int),
                    out@ + row_text(row.skip(j as int)) == start + row_text(row),
                decreases self.k - j,
            {
                let ghost rest = row.skip(j as int);
                let ghost prev = out@;
                proof {
                    assert(rest.drop_first() =~= row.skip(j + 1));
                    assert(rest[0] == row[j as int]);
                }
                let bit = self.get(i, j);
                out.push(if bit { 0x31 } else { 0x30 });
                out.push(0x20);
                proof {
                    assert(out@ + row_text(row.skip(j + 1)) =~= prev + row_text(rest));
                }
                j = j + 1;
            }
            proof {
                assert(row.skip(j as int) =~= Seq::<bool>::empty());
                assert(out@.push(0x0Au8) =~= out@ + row_text(row.skip(j as int)));
                assert(rows[i as int] == row);
            }
            out.push(0x0A);
            i = i + 1;
        }
        out
    }
}

/// The text of one row without its line end.
pub open spec fn row_body(row: Seq<bool>) -> Seq<u8>
    decreases row.len(),
{
    if row.len() == 0 {
        Seq::<u8>::empty()
    } else {
        seq![if row[0] { 0x31u8 } else { 0x30u8 }, 0x20u8] + row_body(row.drop_first())
    }
}

/// The text of some rows, one to a line, without the blank and the line
/// end after the last bit.
pub open spec fn joined(rows: Seq<Seq<bool>>) -> Seq<u8>
    decreases rows.len(),
{
    if rows.len() == 0 {
        Seq::<u8>::empty()
    } else if rows.len() == 1 {
        row_body(rows[0]).drop_last()
    } else {
        row_body(rows[0]) + seq![0x0Au8] + joined(rows.drop_first())
    }
}

/// The text of a row is its body and a line end; the body holds bits and
/// blanks in turn and no line end.
pub proof fn lemma_row_body(row: Seq<bool>)
    ensures
        row_text(row) == row_body(row) + seq![0x0Au8],
        row_body(row).len() == 2 * row.len(),
        forall|i: int| 0 <= i < row_body(row).len() ==> (#[trigger] row_body(row)[i]) != 0x0A,
        forall|i: int|
            0 <= i < row.len() ==> (#[trigger] row_body(row)[2 * i]) == if row[i] {
                0x31u8
            } else {
                0x30u8
            },
        forall|i: int| 0 <= i < row.len() ==> (#[trigger] row_body(row)[2 * i + 1]) == 0x20,
    decreases row.len(),
{
    if row.len() > 0 {
        let rest = row.drop_first();
        lemma_row_body(rest);
        let head = seq![if row[0] { 0x31u8 } else { 0x30u8 }, 0x20u8];
        assert(row_text(row) =~= row_body(row) + seq![0x0Au8]);
        assert forall|i: int| 0 <= i < row_body(row).len() implies (#[trigger] row_body(row)[i])
            != 0x0A by {
            if i >= 2 {
                assert(row_body(row)[i] == row_body(rest)[i - 2]);
            }
        }
        assert forall|i: int| 0 <= i < row.len() implies (#[trigger] row_body(row)[2 * i]) == if row[i] {
            0x31u8
        } else {
            0x30u8
        } by {
            if i >= 1 {
                assert(row_body(row)[2 * i] == row_body(rest)[2 * (i - 1)]);
                assert(rest[i - 1] == row[i]);
            }
        }
        assert forall|i: int| 0 <= i < row.len() implies (#[trigger] row_body(row)[2 * i + 1])
            == 0x20 by {
            if i >= 1 {
                assert(row_body(row)[2 * i + 1] == row_body(rest)[2 * (i - 1) + 1]);
            }
        }
    } else {
        assert(row_text(row) =~= row_body(row) + seq![0x0Au8]);
    }
}

/// The body of a row reads back as the row, with the blank after its
/// last bit or without it.
pub proof fn lemma_row_reads_back(row: Seq<bool>)
    ensures
        row_of(row_body(row)) == Some(row),
        row.len() >= 1 ==> row_of(row_body(row).drop_last()) == Some(row),
    decreases row.len(),
{
    if row.len() > 0 {
        let rest = row.drop_first();
        let body = row_body(row);
        lemma_row_reads_back(rest);
        lemma_row_body(rest);
        lemma_row_body(row);
        let after_bit = body.drop_first();
        assert(after_bit.drop_first() =~= row_body(rest));
        assert(after_bit[0] == 0x20);
        assert(row_of(after_bit) == row_of(row_body(rest)));
        assert(seq![row[0]] + rest =~= row);
        assert(body[0] == 0x30 || body[0] == 0x31);
        assert((body[0] == 0x31) == row[0]);
        let short = body.drop_last();
        if rest.len() == 0 {
            assert(short =~= seq![body[0]]);
            assert(short.drop_first() =~= Seq::<u8>::empty());
            assert(seq![row[0]] + Seq::<bool>::empty() =~= row);
        } else {
            let short_after = short.drop_first();
            assert(short_after[0] == 0x20);
            assert(short_after.drop_first() =~= row_body(rest).drop_last());
            assert(row_of(short_after) == row_of(row_body(rest).drop_last()));
            assert(short[0] == body[0]);
            assert(short[1] == 0x20);
        }
    } else {
        assert(row_body(row) =~= Seq::<u8>::empty());
    }
}

/// The text of the rows is the text of the first row and the text of the
/// others.
pub proof fn lemma_rows_text_first(rows: Seq<Seq<bool>>, m: nat)
    requires
        1 <= m <= rows.len(),
    ensures
        rows_text(rows, m) == row_text(rows[0]) + rows_text(rows.drop_first(), (m - 1) as nat),
    decreases m,
{
    if m == 1 {
        assert(rows_text(rows, 0) =~= Seq::<u8>::empty());
        assert(rows_text(rows.drop_first(), 0) =~= Seq::<u8>::empty());
        assert(rows_text(rows, 1) =~= row_text(rows[0]) + Seq::<u8>::empty());
    } else {
        lemma_rows_text_first(rows, (m - 1) as nat);
        assert(rows.drop_first()[m - 2] == rows[m - 1]);
        assert(rows_text(rows, m) =~= row_text(rows[0]) + rows_text(
            rows.drop_first(),
            (m - 1) as nat,
        ));
    }
}

/// The text of one or more rows of one or more bits is the joined text,
/// a blank and a line end.
pub proof fn lemma_rows_text_joined(rows: Seq<Seq<bool>>)
    requires
        rows.len() >= 1,
        forall|i: int| 0 <= i < rows.len() ==> (#[trigger] rows[i]).len() >= 1,
    ensures
        rows_text(rows, rows.len()) == joined(rows) + seq![0x20u8, 0x0Au8],
    decreases rows.len(),
{
    lemma_rows_text_first(rows, rows.len());
    lemma_row_body(rows[0]);
    let body = row_body(rows[0]);
    if rows.len() == 1 {
        assert(rows_text(rows.drop_first(), 0) =~= Seq::<u8>::empty());
        assert(body.last() == body[2 * (rows[0].len() - 1) + 1]);
        assert(body =~= body.drop_last().push(0x20u8));
        assert(rows_text(rows, rows.len()) =~= joined(rows) + seq![0x20u8, 0x0Au8]);
    } else {
        let rest = rows.drop_first();
        assert forall|i: int| 0 <= i < rest.len() implies (#[trigger] rest[i]).len() >= 1 by {
            assert(rest[i] == rows[i + 1]);
        }
        lemma_rows_text_joined(rest);
        assert(rows_text(rows, rows.len()) =~= joined(rows) + seq![0x20u8, 0x0Au8]);
    }
}

/// The joined text of rows of one or more bits begins and ends with a
/// bit.
pub proof fn lemma_joined_ends(rows: Seq<Seq<bool>>)
    requires
        rows.len() >= 1,
        forall|i: int| 0 <= i < rows.len() ==> (#[trigger] rows[i]).len() >= 1,
    ensures
        joined(rows).len() >= 1,
        !is_space(joined(rows)[0]),
        !is_space(joined(rows).last()),
    decreases rows.len(),
{
    lemma_row_body(rows[0]);
    let body = row_body(rows[0]);
    assert(body[0] == body[2 * 0int]);
    if rows.len() == 1 {
        let last = rows[0].len() - 1;
        assert(body.drop_last().last() == body[2 * last]);
    } else {
        let rest = rows.drop_first();
        assert forall|i: int| 0 <= i < rest.len() implies (#[trigger] rest[i]).len() >= 1 by {
            assert(rest[i] == rows[i + 1]);
        }
        lemma_joined_ends(rest);
        assert(joined(rows).last() == joined(rest).last());
        assert(joined(rows)[0] == body[0]);
    }
}

/// A stretch without a line end, a line end and a further text: the
/// first line is the stretch, and the other lines are those of the
/// further text.
pub proof fn lemma_lines_first(line: Seq<u8>, rest: Seq<u8>)
    requires
        forall|i: int| 0 <= i < line.len() ==> (#[trigger] line[i]) != 0x0A,
    ensures
        lines(line + seq![0x0Au8] + rest) == seq![line] + lines(rest),
{
    let text = line + seq![0x0Au8] + rest;
    lemma_line_end(text, line.len() as int, 0);
    assert(text.subrange(0, line.len() as int) =~= line);
    assert(text.subrange(line.len() as int + 1, text.len() as int) =~= rest);
}

/// A text without a line end is one line.
pub proof fn lemma_lines_single(line: Seq<u8>)
    requires
        line.len() >= 1,
        forall|i: int| 0 <= i < line.len() ==> (#[trigger] line[i]) != 0x0A,
    ensures
        lines(line) == seq![line],
{
    lemma_line_end(line, line.len() as int, 0);
}

/// Where no line end stands before place `q`, and the text ends there or
/// has one there, the first line end from `from` on is `q`.
proof fn lemma_line_end(text: Seq<u8>, q: int, from: int)
    requires
        0 <= from <= q <= text.len(),
        forall|i: int| 0 <= i < q ==> (#[trigger] text[i]) != 0x0A,
        q < text.len() ==> text[q] == 0x0A,
    ensures
        line_end(text, from) == q,
    decreases q - from,
{
    if from < q {
        lemma_line_end(text, q, from + 1);
    }
}

/// The lines that the joined text of `rows` has.
pub open spec fn joined_lines(rows: Seq<Seq<bool>>) -> Seq<Seq<u8>> {
    Seq::new(
        rows.len(),
        |i: int|
            if i == rows.len() - 1 {
                row_body(rows[i]).drop_last()
            } else {
                row_body(rows[i])
            },
    )
}

/// The joined text of rows of one or more bits has one line for each
/// row.
pub proof fn lemma_joined_lines(rows: Seq<Seq<bool>>)
    requires
        rows.len() >= 1,
        forall|i: int| 0 <= i < rows.len() ==> (#[trigger] rows[i]).len() >= 1,
    ensures
        lines(joined(rows)) == joined_lines(rows),
    decreases rows.len(),
{
    lemma_row_body(rows[0]);
    let body = row_body(rows[0]);
    if rows.len() == 1 {
        let short = body.drop_last();
        assert forall|i: int| 0 <= i < short.len() implies (#[trigger] short[i]) != 0x0A by {
            assert(short[i] == body[i]);
        }
        lemma_lines_single(short);
        assert(joined_lines(rows) =~= seq![short]);
    } else {
        let rest = rows.drop_first();
        assert forall|i: int| 0 <= i < rest.len() implies (#[trigger] rest[i]).len() >= 1 by {
            assert(rest[i] == rows[i + 1]);
        }
        lemma_joined_lines(rest);
        lemma_lines_first(body, joined(rest));
        assert(joined_lines(rows) =~= seq![body] + joined_lines(rest)) by {
            assert forall|i: int| 0 <= i < rows.len() implies joined_lines(rows)[i] == (seq![body]
                + joined_lines(rest))[i] by {
                if i >= 1 {
                    assert(rest[i - 1] == rows[i]);
                }
            }
        }
    }
}

/// The lines of the joined text read back as the rows.
pub proof fn lemma_joined_rows(rows: Seq<Seq<bool>>, k: nat, m: nat)
    requires
        k >= 1,
        m <= rows.len(),
        forall|i: int| 0 <= i < rows.len() ==> (#[trigger] rows[i]).len() == k,
    ensures
        rows_of(joined_lines(rows), m) == Ok::<Seq<Seq<bool>>, ParseError>(rows.take(m as int)),
    decreases m,
{
    if m > 0 {
        lemma_joined_rows(rows, k, (m - 1) as nat);
        lemma_row_reads_back(rows[m - 1]);
        assert(rows.take(m as int) =~= rows.take(m - 1).push(rows[m - 1]));
        if m >= 2 {
            assert(rows.take(m - 1).last() == rows[m - 2]);
        }
    } else {
        assert(rows.take(0) =~= Seq::<Seq<bool>>::empty());
    }
}

/// What is rendered reads back: the text of one or more rows, each of
/// the same number of bits, one or more, holds exactly these rows.
pub proof fn lemma_rendered_rows(rows: Seq<Seq<bool>>, k: nat)
    requires
        rows.len() >= 1,
        k >= 1,
        forall|i: int| 0 <= i < rows.len() ==> (#[trigger] rows[i]).len() == k,
    ensures
        ({
            let all = lines(trimmed(rows_text(rows, rows.len())));
            rows_of(all, all.len()) == Ok::<Seq<Seq<bool>>, ParseError>(rows)
        }),
{
    let text = rows_text(rows, rows.len());
    let inner = joined(rows);
    lemma_rows_text_joined(rows);
    lemma_joined_ends(rows);
    assert(trim_start(text) == text) by {
        assert(text[0] == inner[0]);
    }
    assert(trim_end(text) == inner) by {
        let once = text.drop_last();
        assert(text.last() == 0x0A);
        assert(once =~= inner.push(0x20u8));
        assert(once.last() == 0x20);
        assert(once.drop_last() =~= inner);
        assert(trim_end(inner) == inner);
        assert(trim_end(once) == trim_end(inner));
        assert(trim_end(text) == trim_end(once));
    }
    lemma_joined_lines(rows);
    lemma_joined_rows(rows, k, rows.len());
    assert(rows.take(rows.len() as int) =~= rows);
}

impl OArray {
    /// What `render` writes, `parse` reads: the text of a well formed
    /// array with an even number of rows, two or more, and one or more
    /// columns holds exactly the rows of the array.
    pub proof fn lemma_render_parses(&self)
        requires
            self.well_formed(),
            self.ngrande >= 2,
            self.ngrande % 2 == 0,
            self.k >= 1,
        ensures
            parsed(rows_text(self.rows(), self.ngrande as nat)) == Ok::<
                Seq<Seq<bool>>,
                ParseError,
            >(self.rows()),
    {
        let rows = self.rows();
        assert forall|i: int| 0 <= i < rows.len() implies (#[trigger] rows[i]).len() == self.k by {
            assert(rows[i] == self.row(i));
        }
        lemma_rendered_rows(rows, self.k as nat);
        assert(rows[0].len() == self.k);
    }
}

} // verus!

//! The date-keyed counter store. Each row maps one calendar day to the
//! number of blocks finished on it. The store's text form is one line per
//! row, `day-month-year,blocks`, oldest first; loading parses and checks
//! that form, and the history query rebuilds a fixed-length, gap-filled
//! series of days.

use vstd::prelude::*;
use crate::date::{Date, date_back, lemma_date_back_valid, lemma_date_back_lt, lemma_lt_trans};
use crate::text::{
    is_digit, digit_run, digits_val, dec_of, pow10, scan_digits, digits_to_u128,
    dec_u64, lemma_digit_run_bounds, lemma_digit_run_split, lemma_digits_val_bounds,
    lemma_digits_val_dec_of, lemma_dec_of_digits, lemma_dec_of_len, lemma_pow10_mono,
    lemma_pow10_20, lemma_pow10_small,
};

verus! {

/// One stored row: a day record.
#[derive(Clone, Copy, PartialEq, Eq, Structural, Debug)]
pub struct InputLine {
    pub date: Date,
    pub blocks: u64,
}

/// Why a stored text failed to load.
#[derive(Clone, Copy, PartialEq, Eq, Structural, Debug)]
pub enum StoreError {
    /// A line does not have the `day-month-year,blocks` form.
    MalformedLine,
    /// The rows are not in strictly ascending date order.
    OutOfOrder,
}

// ---- the line grammar, over sequences of characters ----

pub open spec fn line_day_len(s: Seq<char>) -> int {
    digit_run(s, 0)
}

pub open spec fn line_month_start(s: Seq<char>) -> int {
    line_day_len(s) + 1
}

pub open spec fn line_month_len(s: Seq<char>) -> int {
    digit_run(s, line_month_start(s))
}

pub open spec fn line_year_start(s: Seq<char>) -> int {
    line_month_start(s) + line_month_len(s) + 1
}

pub open spec fn line_year_len(s: Seq<char>) -> int {
    digit_run(s, line_year_start(s))
}

pub open spec fn line_blocks_start(s: Seq<char>) -> int {
    line_year_start(s) + line_year_len(s) + 1
}

pub open spec fn line_blocks_len(s: Seq<char>) -> int {
    digit_run(s, line_blocks_start(s))
}

/// The date the line's first three digit runs spell.
pub open spec fn line_date(s: Seq<char>) -> Date {
    Date {
        year: digits_val(s.subrange(line_year_start(s), line_year_start(s) + line_year_len(s)))
            as i64,
        month: digits_val(
            s.subrange(line_month_start(s), line_month_start(s) + line_month_len(s)),
        ) as u8,
        day: digits_val(s.subrange(0, line_day_len(s))) as u8,
    }
}

pub open spec fn line_blocks_val(s: Seq<char>) -> int {
    digits_val(s.subrange(line_blocks_start(s), line_blocks_start(s) + line_blocks_len(s)))
}

/// A well-formed row: `day-month-year,blocks`, with one to two digits of
/// day and month, one to four of year, up to twenty of blocks, spelling a
/// valid calendar date and a count that fits.
pub open spec fn line_wf(s: Seq<char>) -> bool {
    &&& 1 <= line_day_len(s) <= 2
    &&& line_day_len(s) < s.len() && s[line_day_len(s)] == '-'
    &&& 1 <= line_month_len(s) <= 2
    &&& line_month_start(s) + line_month_len(s) < s.len() && s[line_month_start(s)
        + line_month_len(s)] == '-'
    &&& 1 <= line_year_len(s) <= 4
    &&& line_year_start(s) + line_year_len(s) < s.len() && s[line_year_start(s)
        + line_year_len(s)] == ','
    &&& 1 <= line_blocks_len(s) <= 20
    &&& line_blocks_start(s) + line_blocks_len(s) == s.len()
    &&& line_blocks_val(s) <= u64::MAX
    &&& line_date(s).valid()
}

/// The row a well-formed line holds.
pub open spec fn parse_line(s: Seq<char>) -> InputLine {
    InputLine { date: line_date(s), blocks: line_blocks_val(s) as u64 }
}

/// `day-month-year` in canonical digits.
pub open spec fn dmy_text(d: Date) -> Seq<char> {
    dec_of(d.day as int) + seq!['-'] + dec_of(d.month as int) + seq!['-'] + dec_of(d.year as int)
}

/// The text form of one row.
pub open spec fn render_line_text(il: InputLine) -> Seq<char> {
    dmy_text(il.date) + seq![','] + dec_of(il.blocks as int)
}

impl InputLine {
    /// The row as its stored line of text, `day-month-year,blocks`.
    pub fn render(&self) -> (r: String)
        requires
            self.date.representable(),
        ensures
            r@ == render_line_text(*self),
    {
        proof {
            reveal_strlit("-");
            reveal_strlit(",");
        }
        let mut out = dec_u64(self.date.day as u64);
        out.append("-");
        let m = dec_u64(self.date.month as u64);
        out.append(m.as_str());
        out.append("-");
        let y = dec_u64(self.date.year as u64);
        out.append(y.as_str());
        out.append(",");
        let b = dec_u64(self.blocks);
        out.append(b.as_str());
        proof {
            assert(out@ =~= render_line_text(*self));
        }
        out
    }

    /// Parses a line already known to be well-formed; loading unknown
    /// text goes through `try_parse_line`.
    pub fn parse_from_str(s: &str) -> (r: InputLine)
        requires
            line_wf(s@),
        ensures
            r == parse_line(s@),
    {
        match try_parse_line(s) {
            Ok(il) => il,
            Err(_) => {
                proof {
                    assert(false);
                }
                InputLine { date: Date { year: 0, month: 1, day: 1 }, blocks: 0 }
            },
        }
    }
}

/// Decides the line grammar: returns the row exactly when the line is
/// well-formed, and the malformed-line error otherwise.
pub fn try_parse_line(s: &str) -> (r: Result<InputLine, StoreError>)
    ensures
        r is Ok <==> line_wf(s@),
        r is Ok ==> r == Ok::<InputLine, StoreError>(parse_line(s@)),
        r is Err ==> r == Err::<InputLine, StoreError>(StoreError::MalformedLine),
{
    let n = s.unicode_len();
    let de = scan_digits(s, 0);
    if de < 1 || de > 2 || de >= n {
        return Err(StoreError::MalformedLine);
    }
    if s.get_char(de) != '-' {
        return Err(StoreError::MalformedLine);
    }
    let ms = de + 1;
    let me = scan_digits(s, ms);
    if me - ms < 1 || me - ms > 2 || me >= n {
        return Err(StoreError::MalformedLine);
    }
    if s.get_char(me) != '-' {
        return Err(StoreError::MalformedLine);
    }
    let ys = me + 1;
    let ye = scan_digits(s, ys);
    if ye - ys < 1 || ye - ys > 4 || ye >= n {
        return Err(StoreError::MalformedLine);
    }
    if s.get_char(ye) != ',' {
        return Err(StoreError::MalformedLine);
    }
    let bs = ye + 1;
    let be = scan_digits(s, bs);
    if be - bs < 1 || be - bs > 20 || be != n {
        return Err(StoreError::MalformedLine);
    }
    proof {
        lemma_digit_run_bounds(s@, 0);
        lemma_digit_run_bounds(s@, ms as int);
        lemma_digit_run_bounds(s@, ys as int);
        lemma_digit_run_bounds(s@, bs as int);
        lemma_digits_val_bounds(s@.subrange(0, de as int));
        lemma_digits_val_bounds(s@.subrange(ms as int, me as int));
        lemma_digits_val_bounds(s@.subrange(ys as int, ye as int));
        lemma_pow10_mono(1, 2);
        lemma_pow10_mono(2, 4);
        lemma_pow10_small();
    }
    let dayv = digits_to_u128(s, 0, de);
    let monv = digits_to_u128(s, ms, me);
    let yearv = digits_to_u128(s, ys, ye);
    let blocksv = digits_to_u128(s, bs, be);
    if blocksv > u64::MAX as u128 {
        return Err(StoreError::MalformedLine);
    }
    let date = Date { year: yearv as i64, month: monv as u8, day: dayv as u8 };
    proof {
        assert(date == line_date(s@));
    }
    if !date.check_valid() {
        return Err(StoreError::MalformedLine);
    }
    Ok(InputLine { date, blocks: blocksv as u64 })
}

/// A rendered row reads back as itself: the stored text form is
/// faithful.
pub proof fn lemma_line_round_trip(il: InputLine)
    requires
        il.date.representable(),
    ensures
        line_wf(render_line_text(il)),
        parse_line(render_line_text(il)) == il,
{
    let s = render_line_text(il);
    let a = dec_of(il.date.day as int);
    let b = dec_of(il.date.month as int);
    let c = dec_of(il.date.year as int);
    let e = dec_of(il.blocks as int);
    lemma_dec_of_digits(il.date.day as int);
    lemma_dec_of_digits(il.date.month as int);
    lemma_dec_of_digits(il.date.year as int);
    lemma_dec_of_digits(il.blocks as int);
    lemma_pow10_small();
    lemma_pow10_20();
    lemma_dec_of_len(il.date.day as int, 2);
    lemma_dec_of_len(il.date.month as int, 2);
    lemma_dec_of_len(il.date.year as int, 4);
    lemma_dec_of_len(il.blocks as int, 20);
    let dl = a.len() as int;
    let ms = dl + 1;
    let me = ms + b.len();
    let ys = me + 1;
    let ye = ys + c.len();
    let bs = ye + 1;
    let be = bs + e.len();
    assert(s.len() == be);
    assert forall|i: int| 0 <= i < dl implies is_digit(#[trigger] s[i]) by {
        assert(s[i] == a[i]);
    }
    assert(s[dl] == '-');
    assert(!is_digit('-'));
    lemma_digit_run_split(s, 0, dl);
    assert(digit_run(s, dl) == 0);
    assert(line_day_len(s) == dl);
    assert forall|i: int| ms <= i < me implies is_digit(#[trigger] s[i]) by {
        assert(s[i] == b[i - ms]);
    }
    assert(s[me] == '-');
    lemma_digit_run_split(s, ms, me);
    assert(digit_run(s, me) == 0);
    assert(line_month_len(s) == b.len());
    assert forall|i: int| ys <= i < ye implies is_digit(#[trigger] s[i]) by {
        assert(s[i] == c[i - ys]);
    }
    assert(s[ye] == ',');
    assert(!is_digit(','));
    lemma_digit_run_split(s, ys, ye);
    assert(digit_run(s, ye) == 0);
    assert(line_year_len(s) == c.len());
    assert forall|i: int| bs <= i < be implies is_digit(#[trigger] s[i]) by {
        assert(s[i] == e[i - bs]);
    }
    lemma_digit_run_split(s, bs, be);
    assert(digit_run(s, be) == 0);
    assert(line_blocks_len(s) == e.len());
    assert(s.subrange(0, dl) =~= a);
    assert(s.subrange(ms, me) =~= b);
    assert(s.subrange(ys, ye) =~= c);
    assert(s.subrange(bs, be) =~= e);
    lemma_digits_val_dec_of(il.date.day as int);
    lemma_digits_val_dec_of(il.date.month as int);
    lemma_digits_val_dec_of(il.date.year as int);
    lemma_digits_val_dec_of(il.blocks as int);
    assert(line_date(s) == il.date);
    assert(line_blocks_val(s) == il.blocks);
}

// ---- the content grammar: lines separated by newlines ----

/// Index of the first newline, or the length when there is none.
pub open spec fn first_newline(s: Seq<char>) -> int
    decreases s.len(),
{
    if s.len() == 0 {
        0
    } else if s[0] == '\n' {
        0
    } else {
        1 + first_newline(s.drop_first())
    }
}

pub proof fn lemma_first_newline_bounds(s: Seq<char>)
    ensures
        0 <= first_newline(s) <= s.len(),
        forall|i: int| 0 <= i < first_newline(s) ==> s[i] != '\n',
        first_newline(s) < s.len() ==> s[first_newline(s)] == '\n',
    decreases s.len(),
{
    if s.len() > 0 && s[0] != '\n' {
        lemma_first_newline_bounds(s.drop_first());
        assert forall|i: int| 0 <= i < first_newline(s) implies s[i] != '\n' by {
            if i > 0 {
                assert(s.drop_first()[i - 1] == s[i]);
            }
        }
    }
}

/// The index satisfying the first-newline description is the one.
pub proof fn lemma_first_newline_is(s: Seq<char>, m: int)
    requires
        0 <= m <= s.len(),
        forall|i: int| 0 <= i < m ==> s[i] != '\n',
        m < s.len() ==> s[m] == '\n',
    ensures
        first_newline(s) == m,
    decreases m,
{
    if m > 0 {
        assert forall|i: int| 0 <= i < m - 1 implies s.drop_first()[i] != '\n' by {
            assert(s.drop_first()[i] == s[i + 1]);
        }
        assert(m - 1 < s.drop_first().len() ==> s.drop_first()[m - 1] == s[m]);
        lemma_first_newline_is(s.drop_first(), m - 1);
    }
}

/// The lines of a text, split on newlines; an empty text has none.
pub open spec fn split_lines(s: Seq<char>) -> Seq<Seq<char>>
    decreases s.len(),
    via split_lines_decreases
{
    if s.len() == 0 {
        Seq::empty()
    } else {
        let i = first_newline(s);
        if i == s.len() {
            seq![s]
        } else {
            seq![s.take(i)] + split_lines(s.skip(i + 1))
        }
    }
}

#[via_fn]
proof fn split_lines_decreases(s: Seq<char>) {
    lemma_first_newline_bounds(s);
}

/// Finds the next newline at or after `start`.
fn find_newline(s: &str, start: usize) -> (j: usize)
    requires
        start <= s@.len(),
    ensures
        start <= j <= s@.len(),
        j - start == first_newline(s@.skip(start as int)),
{
    let n = s.unicode_len();
    let mut j = start;
    let mut stop = false;
    while !stop && j < n
        invariant
            start <= j <= n,
            n == s@.len(),
            forall|i: int| start <= i < j ==> s@[i] != '\n',
            stop ==> j < n && s@[j as int] == '\n',
        decreases n - j + (if stop { 0int } else { 1int }),
    {
        if s.get_char(j) == '\n' {
            stop = true;
        } else {
            j = j + 1;
        }
    }
    proof {
        let suf = s@.skip(start as int);
        assert forall|i: int| 0 <= i < j - start implies suf[i] != '\n' by {
            assert(suf[i] == s@[start + i]);
        }
        assert((j - start) < suf.len() ==> suf[j - start] == s@[j as int]);
        lemma_first_newline_is(suf, j - start);
    }
    j
}

/// Splits a text into its lines; each returned piece is one line of
/// `split_lines`.
fn split_into_lines<'a>(s: &'a str) -> (v: Vec<&'a str>)
    ensures
        v@.len() == split_lines(s@).len(),
        forall|i: int| 0 <= i < v@.len() ==> (#[trigger] v@[i])@ == split_lines(s@)[i],
{
    let n = s.unicode_len();
    let mut v: Vec<&str> = Vec::new();
    let mut start: usize = 0;
    proof {
        assert(s@.skip(0) =~= s@);
        assert(split_lines(s@).skip(0) =~= split_lines(s@));
    }
    while start < n
        invariant
            0 <= start <= n,
            n == s@.len(),
            v@.len() <= split_lines(s@).len(),
            forall|i: int| 0 <= i < v@.len() ==> (#[trigger] v@[i])@ == split_lines(s@)[i],
            split_lines(s@).skip(v@.len() as int) == split_lines(s@.skip(start as int)),
        decreases n - start,
    {
        let ghost suf = s@.skip(start as int);
        let j = find_newline(s, start);
        proof {
            lemma_first_newline_bounds(suf);
            assert(suf.len() == n - start > 0);
        }
        let line = s.substring_char(start, j);
        proof {
            assert(line@ =~= suf.take(j - start));
        }
        v.push(line);
        if j < n {
            proof {
                let rest = split_lines(s@.skip(j + 1));
                assert(suf.take(j - start) =~= s@.subrange(start as int, j as int));
                assert(suf.skip(j - start + 1) =~= s@.skip(j + 1));
                assert(split_lines(suf) == seq![suf.take(j - start)] + rest);
                assert((seq![suf.take(j - start)] + rest).skip(1) =~= rest);
                assert(split_lines(s@).skip(v@.len() - 1).skip(1) =~= split_lines(s@).skip(
                    v@.len() as int,
                ));
                assert(split_lines(s@)[v@.len() - 1] == split_lines(s@).skip(v@.len() - 1)[0]);
            }
            start = j + 1;
        } else {
            proof {
                assert(first_newline(suf) == suf.len());
                assert(split_lines(suf) == seq![suf]);
                assert(line@ =~= suf);
                assert(split_lines(s@).skip(v@.len() - 1).skip(1) =~= split_lines(s@).skip(
                    v@.len() as int,
                ));
                assert(split_lines(s@)[v@.len() - 1] == split_lines(s@).skip(v@.len() - 1)[0]);
                assert(split_lines(s@).skip(v@.len() as int) =~= Seq::<Seq<char>>::empty());
                assert(s@.skip(n as int) =~= Seq::<char>::empty());
            }
            start = n;
        }
    }
    proof {
        assert(s@.skip(n as int) =~= Seq::<char>::empty());
        assert(split_lines(s@).skip(v@.len() as int) =~= Seq::<Seq<char>>::empty());
    }
    v
}

/// The rows a whole text carries, or its first load error: lines are
/// read front to back, each must fit the grammar and come strictly
/// after the one before.
pub open spec fn parse_lines(lines: Seq<Seq<char>>) -> Result<Seq<InputLine>, StoreError>
    decreases lines.len(),
{
    if lines.len() == 0 {
        Ok(Seq::empty())
    } else {
        match parse_lines(lines.drop_last()) {
            Err(e) => Err(e),
            Ok(recs) => {
                let l = lines.last();
                if !line_wf(l) {
                    Err(StoreError::MalformedLine)
                } else {
                    let il = parse_line(l);
                    if recs.len() > 0 && !recs.last().date.lt(il.date) {
                        Err(StoreError::OutOfOrder)
                    } else {
                        Ok(recs.push(il))
                    }
                }
            },
        }
    }
}

/// What loading a text yields.
pub open spec fn build_spec(content: Seq<char>) -> Result<Seq<InputLine>, StoreError> {
    parse_lines(split_lines(content))
}

/// A text the store loads without error.
pub open spec fn content_wf(content: Seq<char>) -> bool {
    build_spec(content) is Ok
}

/// A failed prefix settles the whole text's outcome.
pub proof fn lemma_parse_lines_prefix_err(lines: Seq<Seq<char>>, k: int)
    requires
        0 <= k <= lines.len(),
        parse_lines(lines.take(k)) is Err,
    ensures
        parse_lines(lines) == parse_lines(lines.take(k)),
    decreases lines.len() - k,
{
    if k < lines.len() {
        assert(lines.take(k + 1).drop_last() =~= lines.take(k));
        lemma_parse_lines_prefix_err(lines, k + 1);
    } else {
        assert(lines.take(k) =~= lines);
    }
}

/// A well-formed line spells a date the store can hold.
pub proof fn lemma_line_representable(l: Seq<char>)
    requires
        line_wf(l),
    ensures
        parse_line(l).date.representable(),
{
    lemma_digit_run_bounds(l, line_year_start(l));
    lemma_digits_val_bounds(l.subrange(line_year_start(l), line_year_start(l) + line_year_len(l)));
    lemma_pow10_mono(line_year_len(l) as nat, 4);
    lemma_pow10_small();
}

// ---- the text a store writes back ----

/// The whole text form: lines joined by newlines, no trailing newline.
pub open spec fn render_content(s: Seq<InputLine>) -> Seq<char>
    decreases s.len(),
{
    if s.len() == 0 {
        Seq::empty()
    } else if s.len() == 1 {
        render_line_text(s[0])
    } else {
        render_content(s.drop_last()) + seq!['\n'] + render_line_text(s.last())
    }
}

/// A rendered row is nonempty and free of newlines.
pub proof fn lemma_render_line_chars(il: InputLine)
    requires
        il.date.year >= 0,
    ensures
        render_line_text(il).len() > 0,
        forall|i: int|
            0 <= i < render_line_text(il).len() ==> #[trigger] render_line_text(il)[i] != '\n',
        render_line_text(il).last() != '\n',
{
    let s = render_line_text(il);
    let a = dec_of(il.date.day as int);
    let b = dec_of(il.date.month as int);
    let c = dec_of(il.date.year as int);
    let e = dec_of(il.blocks as int);
    lemma_dec_of_digits(il.date.day as int);
    lemma_dec_of_digits(il.date.month as int);
    lemma_dec_of_digits(il.date.year as int);
    lemma_dec_of_digits(il.blocks as int);
    let ms = a.len() + 1;
    let ys = ms + b.len() + 1;
    let bs = ys + c.len() + 1;
    assert forall|i: int| 0 <= i < s.len() implies #[trigger] s[i] != '\n' by {
        if i < a.len() {
            assert(s[i] == a[i]);
            assert(is_digit(a[i]));
        } else if i == a.len() {
            assert(s[i] == '-');
        } else if i < ms + b.len() {
            assert(s[i] == b[i - ms]);
            assert(is_digit(b[i - ms]));
        } else if i == ms + b.len() {
            assert(s[i] == '-');
        } else if i < ys + c.len() {
            assert(s[i] == c[i - ys]);
            assert(is_digit(c[i - ys]));
        } else if i == ys + c.len() {
            assert(s[i] == ',');
        } else {
            assert(s[i] == e[i - bs]);
            assert(is_digit(e[i - bs]));
        }
    }
}

/// A rendered store's text is nonempty and does not end in a newline.
pub proof fn lemma_render_content_last(s: Seq<InputLine>)
    requires
        s.len() > 0,
        forall|i: int| 0 <= i < s.len() ==> (#[trigger] s[i]).date.year >= 0,
    ensures
        render_content(s).len() > 0,
        render_content(s).last() != '\n',
    decreases s.len(),
{
    if s.len() == 1 {
        lemma_render_line_chars(s[0]);
    } else {
        lemma_render_line_chars(s.last());
        assert(render_content(s).last() == render_line_text(s.last()).last());
    }
}

/// A nonempty line without newlines splits as itself alone.
pub proof fn lemma_split_single_line(l: Seq<char>)
    requires
        l.len() > 0,
        forall|i: int| 0 <= i < l.len() ==> #[trigger] l[i] != '\n',
    ensures
        split_lines(l) == seq![l],
{
    lemma_first_newline_is(l, l.len() as int);
}

/// Splitting distributes over a newline join when the left part does not
/// end in a newline.
pub proof fn lemma_split_concat(x: Seq<char>, y: Seq<char>)
    requires
        x.len() > 0,
        y.len() > 0,
        x.last() != '\n',
    ensures
        split_lines(x + seq!['\n'] + y) == split_lines(x) + split_lines(y),
    decreases x.len(),
{
    let s = x + seq!['\n'] + y;
    lemma_first_newline_bounds(x);
    let i = first_newline(x);
    if i == x.len() {
        assert forall|k: int| 0 <= k < x.len() implies s[k] != '\n' by {
            assert(s[k] == x[k]);
        }
        assert(s[x.len() as int] == '\n');
        lemma_first_newline_is(s, x.len() as int);
        assert(s.take(x.len() as int) =~= x);
        assert(s.skip(x.len() as int + 1) =~= y);
        assert(split_lines(x) == seq![x]);
        assert(split_lines(s) =~= seq![x] + split_lines(y));
    } else {
        if i == x.len() - 1 {
            assert(x[i] == '\n');
            assert(false);
        }
        assert forall|k: int| 0 <= k < i implies s[k] != '\n' by {
            assert(s[k] == x[k]);
        }
        assert(s[i] == x[i]);
        lemma_first_newline_is(s, i);
        assert(s.take(i) =~= x.take(i));
        assert(s.skip(i + 1) =~= x.skip(i + 1) + seq!['\n'] + y);
        assert(x.skip(i + 1).last() == x.last());
        lemma_split_concat(x.skip(i + 1), y);
        assert(split_lines(s) == seq![x.take(i)] + (split_lines(x.skip(i + 1)) + split_lines(y)));
        assert(split_lines(x) == seq![x.take(i)] + split_lines(x.skip(i + 1)));
        assert(seq![x.take(i)] + (split_lines(x.skip(i + 1)) + split_lines(y)) =~= (seq![
            x.take(i),
        ] + split_lines(x.skip(i + 1))) + split_lines(y));
    }
}

/// Rendering then splitting gives back one line per row.
pub proof fn lemma_split_render(s: Seq<InputLine>)
    requires
        forall|i: int| 0 <= i < s.len() ==> (#[trigger] s[i]).date.year >= 0,
    ensures
        split_lines(render_content(s)).len() == s.len(),
        forall|i: int|
            0 <= i < s.len() ==> split_lines(render_content(s))[i] == render_line_text(s[i]),
    decreases s.len(),
{
    if s.len() == 1 {
        lemma_render_line_chars(s[0]);
        lemma_split_single_line(render_line_text(s[0]));
    } else if s.len() > 1 {
        let t = s.drop_last();
        lemma_split_render(t);
        lemma_render_content_last(t);
        lemma_render_line_chars(s.last());
        lemma_split_single_line(render_line_text(s.last()));
        lemma_split_concat(render_content(t), render_line_text(s.last()));
        assert forall|i: int|
            0 <= i < s.len() implies split_lines(render_content(s))[i] == render_line_text(
            s[i],
        ) by {
            if i < s.len() - 1 {
                assert(split_lines(render_content(s))[i] == split_lines(render_content(t))[i]);
                assert(t[i] == s[i]);
            }
        }
    }
}

/// Rendered rows parse back exactly, in order.
pub proof fn lemma_parse_rendered(lines: Seq<Seq<char>>, s: Seq<InputLine>)
    requires
        lines.len() == s.len(),
        forall|i: int| 0 <= i < s.len() ==> lines[i] == render_line_text(#[trigger] s[i]),
        sorted_dates(s),
        forall|i: int| 0 <= i < s.len() ==> (#[trigger] s[i]).date.representable(),
    ensures
        parse_lines(lines) == Ok::<Seq<InputLine>, StoreError>(s),
    decreases s.len(),
{
    if s.len() > 0 {
        let lt = lines.drop_last();
        let st = s.drop_last();
        assert forall|i: int| 0 <= i < st.len() implies lt[i] == render_line_text(
            #[trigger] st[i],
        ) by {
            assert(st[i] == s[i]);
            assert(lt[i] == lines[i]);
        }
        assert forall|i: int, j: int|
            #![trigger st[i], st[j]]
            0 <= i < j < st.len() implies st[i].date.lt(st[j].date) by {
            assert(st[i] == s[i] && st[j] == s[j]);
        }
        assert forall|i: int| 0 <= i < st.len() implies (#[trigger] st[i]).date.representable() by {
            assert(st[i] == s[i]);
        }
        lemma_parse_rendered(lt, st);
        lemma_line_round_trip(s.last());
        assert(lines.last() == render_line_text(s.last()));
        assert(line_wf(lines.last()));
        assert(parse_line(lines.last()) == s.last());
        if st.len() > 0 {
            assert(st.last() == s[s.len() - 2]);
            assert(st.last().date.lt(s.last().date));
        }
        assert(st.push(s.last()) =~= s);
        assert(parse_lines(lines) == Ok::<Seq<InputLine>, StoreError>(st.push(s.last())));
    } else {
        assert(s =~= Seq::<InputLine>::empty());
        assert(lines =~= Seq::<Seq<char>>::empty());
    }
}

/// Loading what a store renders yields the very same rows: opening an
/// already-initialized store again changes nothing.
pub proof fn lemma_build_round_trip(st: Storage)
    requires
        st.wf(),
    ensures
        content_wf(render_content(st.records@)),
        build_spec(render_content(st.records@)) == Ok::<Seq<InputLine>, StoreError>(st.records@),
{
    lemma_split_render(st.records@);
    assert forall|i: int|
        0 <= i < st.records@.len() implies split_lines(render_content(st.records@))[i]
        == render_line_text(#[trigger] st.records@[i]) by {}
    lemma_parse_rendered(split_lines(render_content(st.records@)), st.records@);
}

/// One increment as the store's mapping sees it.
pub open spec fn bump(m: Map<Date, u64>, d: Date) -> Map<Date, u64> {
    if m.contains_key(d) {
        m.insert(d, (m[d] + 1) as u64)
    } else {
        m.insert(d, 1)
    }
}

/// `k` increments in a row.
pub open spec fn bump_k(m: Map<Date, u64>, d: Date, k: nat) -> Map<Date, u64>
    decreases k,
{
    if k == 0 {
        m
    } else {
        bump(bump_k(m, d, (k - 1) as nat), d)
    }
}

/// Incrementing a day with no prior record `k` times leaves exactly `k`
/// blocks on it.
pub proof fn lemma_increments_accumulate(m: Map<Date, u64>, d: Date, k: nat)
    requires
        !m.contains_key(d),
        1 <= k <= u64::MAX,
    ensures
        bump_k(m, d, k).contains_key(d),
        bump_k(m, d, k)[d] == k,
    decreases k,
{
    if k == 1 {
        assert(bump_k(m, d, 0) == m);
        assert(bump_k(m, d, 1) == bump(m, d));
        assert(bump(m, d) == m.insert(d, 1));
    } else {
        lemma_increments_accumulate(m, d, (k - 1) as nat);
        assert(bump_k(m, d, k) == bump(bump_k(m, d, (k - 1) as nat), d));
    }
}

// ---- the store itself ----

/// The counter store: one row per day, strictly ascending by date. It is
/// the single owner and writer of the rows; callers mutate it only
/// through the operations here.
#[derive(Debug)]
pub struct Storage {
    pub records: Vec<InputLine>,
}

/// The mapping a sequence of rows carries, later rows winning.
pub open spec fn map_of(s: Seq<InputLine>) -> Map<Date, u64>
    decreases s.len(),
{
    if s.len() == 0 {
        Map::empty()
    } else {
        map_of(s.drop_last()).insert(s.last().date, s.last().blocks)
    }
}

pub open spec fn distinct_dates(s: Seq<InputLine>) -> bool {
    forall|i: int, j: int| #![trigger s[i], s[j]] 0 <= i < j < s.len() ==> s[i].date != s[j].date
}

pub open spec fn sorted_dates(s: Seq<InputLine>) -> bool {
    forall|i: int, j: int|
        #![trigger s[i], s[j]]
        0 <= i < j < s.len() ==> s[i].date.lt(s[j].date)
}

impl Storage {
    /// What the store holds: its date-to-blocks mapping.
    pub open spec fn view(&self) -> Map<Date, u64> {
        map_of(self.records@)
    }

    /// Rows strictly ascending by date, every date storable.
    pub open spec fn wf(&self) -> bool {
        &&& sorted_dates(self.records@)
        &&& forall|i: int|
            0 <= i < self.records@.len() ==> (#[trigger] self.records@[i].date).representable()
    }

    /// The blocks recorded for a day; zero when the day has no row.
    pub open spec fn blocks_spec(&self, d: Date) -> u64 {
        if self@.contains_key(d) {
            self@[d]
        } else {
            0
        }
    }
}

pub proof fn lemma_lt_total(a: Date, b: Date)
    ensures
        a.lt(b) || b.lt(a) || a == b,
{
}

pub proof fn lemma_sorted_distinct(s: Seq<InputLine>)
    requires
        sorted_dates(s),
    ensures
        distinct_dates(s),
{
}

pub proof fn lemma_map_of_domain(s: Seq<InputLine>)
    ensures
        forall|d: Date| #[trigger]
            map_of(s).contains_key(d) <==> exists|i: int| 0 <= i < s.len() && (#[trigger] s[i]).date == d,
    decreases s.len(),
{
    if s.len() > 0 {
        let t = s.drop_last();
        lemma_map_of_domain(t);
        assert forall|d: Date| #[trigger]
            map_of(s).contains_key(d) implies exists|i: int|
            0 <= i < s.len() && (#[trigger] s[i]).date == d by {
            if d == s.last().date {
                assert(s[s.len() - 1].date == d);
            } else {
                assert(map_of(t).contains_key(d));
                let i = choose|i: int| 0 <= i < t.len() && (#[trigger] t[i]).date == d;
                assert(s[i] == t[i]);
                assert(s[i].date == d);
            }
        }
        assert forall|d: Date|
            exists|i: int| 0 <= i < s.len() && (#[trigger] s[i]).date == d implies #[trigger]
            map_of(s).contains_key(d) by {
            let i = choose|i: int| 0 <= i < s.len() && (#[trigger] s[i]).date == d;
            if i == s.len() - 1 {
                assert(map_of(s) == map_of(t).insert(s.last().date, s.last().blocks));
                assert(map_of(s).contains_key(s.last().date));
            } else {
                assert(t[i] == s[i]);
                assert(t[i].date == d);
                assert(map_of(t).contains_key(d));
                assert(map_of(s) == map_of(t).insert(s.last().date, s.last().blocks));
            }
        }
    }
}

pub proof fn lemma_map_of_value(s: Seq<InputLine>, i: int)
    requires
        distinct_dates(s),
        0 <= i < s.len(),
    ensures
        map_of(s).contains_key(s[i].date),
        map_of(s)[s[i].date] == s[i].blocks,
    decreases s.len(),
{
    if i < s.len() - 1 {
        let t = s.drop_last();
        assert(distinct_dates(t));
        assert(t[i] == s[i]);
        lemma_map_of_value(t, i);
        assert(s.last().date != s[i].date);
    }
}

pub proof fn lemma_map_of_update(s: Seq<InputLine>, pos: int, r: InputLine)
    requires
        0 <= pos < s.len(),
        distinct_dates(s),
        r.date == s[pos].date,
    ensures
        map_of(s.update(pos, r)) == map_of(s).insert(r.date, r.blocks),
    decreases s.len(),
{
    let u = s.update(pos, r);
    if pos == s.len() - 1 {
        assert(u.drop_last() =~= s.drop_last());
        assert(u.last() == r);
        assert(map_of(s).insert(r.date, r.blocks) =~= map_of(s.drop_last()).insert(
            r.date,
            r.blocks,
        ));
    } else {
        let t = s.drop_last();
        assert(distinct_dates(t));
        assert(t[pos] == s[pos]);
        lemma_map_of_update(t, pos, r);
        assert(u.drop_last() =~= t.update(pos, r));
        assert(u.last() == s.last());
        assert(s.last().date != r.date);
        assert(map_of(t).insert(r.date, r.blocks).insert(s.last().date, s.last().blocks)
            =~= map_of(t).insert(s.last().date, s.last().blocks).insert(r.date, r.blocks));
    }
}

pub proof fn lemma_map_of_insert_at(s: Seq<InputLine>, pos: int, r: InputLine)
    requires
        0 <= pos <= s.len(),
        distinct_dates(s),
        forall|i: int| 0 <= i < s.len() ==> (#[trigger] s[i]).date != r.date,
    ensures
        map_of(s.insert(pos, r)) == map_of(s).insert(r.date, r.blocks),
    decreases s.len(),
{
    let u = s.insert(pos, r);
    if pos == s.len() {
        assert(u.drop_last() =~= s);
        assert(u.last() == r);
    } else {
        let t = s.drop_last();
        assert(distinct_dates(t));
        assert(forall|i: int| 0 <= i < t.len() ==> (#[trigger] t[i]).date != r.date);
        lemma_map_of_insert_at(t, pos, r);
        assert(u.drop_last() =~= t.insert(pos, r));
        assert(u.last() == s.last());
        assert(s.last().date != r.date);
        assert(map_of(t).insert(r.date, r.blocks).insert(s.last().date, s.last().blocks)
            =~= map_of(t).insert(s.last().date, s.last().blocks).insert(r.date, r.blocks));
    }
}

impl Storage {
    /// An empty store.
    pub fn new() -> (r: Storage)
        ensures
            r.wf(),
            r@ == Map::<Date, u64>::empty(),
            r.records@ == Seq::<InputLine>::empty(),
    {
        Storage { records: Vec::new() }
    }

    /// The blocks recorded for a day; zero when the day has no row.
    pub fn blocks_at(&self, d: Date) -> (r: u64)
        requires
            self.wf(),
        ensures
            r == self.blocks_spec(d),
    {
        proof {
            lemma_sorted_distinct(self.records@);
            lemma_map_of_domain(self.records@);
        }
        let mut i: usize = 0;
        while i < self.records.len()
            invariant
                i <= self.records@.len(),
                self.wf(),
                forall|k: int| 0 <= k < i ==> (#[trigger] self.records@[k]).date != d,
            decreases self.records@.len() - i,
        {
            if self.records[i].date == d {
                proof {
                    lemma_sorted_distinct(self.records@);
                    lemma_map_of_value(self.records@, i as int);
                }
                return self.records[i].blocks;
            }
            i = i + 1;
        }
        proof {
            lemma_map_of_domain(self.records@);
            assert(!self@.contains_key(d));
        }
        0
    }

    /// Adds `change` to a day's count, creating the row when the day has
    /// none. The caller keeps the result inside the count's range, as the
    /// persisted form demands.
    pub fn alter_line(&mut self, date: Date, change: i64)
        requires
            old(self).wf(),
            date.representable(),
            0 <= old(self).blocks_spec(date) + change <= u64::MAX,
        ensures
            final(self).wf(),
            final(self)@ == old(self)@.insert(
                date,
                (old(self).blocks_spec(date) + change) as u64,
            ),
    {
        proof {
            lemma_sorted_distinct(self.records@);
            lemma_map_of_domain(self.records@);
        }
        let ghost olds = self.records@;
        let mut pos: usize = 0;
        while pos < self.records.len() && self.records[pos].date.before(&date)
            invariant
                pos <= self.records@.len(),
                self.records@ == olds,
                forall|i: int| 0 <= i < pos ==> (#[trigger] self.records@[i]).date.lt(date),
            decreases self.records@.len() - pos,
        {
            pos = pos + 1;
        }
        if pos < self.records.len() && self.records[pos].date == date {
            proof {
                lemma_map_of_value(olds, pos as int);
            }
            let prior = self.records[pos].blocks;
            let nb = ((prior as i128) + (change as i128)) as u64;
            self.records[pos] = InputLine { date, blocks: nb };
            proof {
                assert(self.records@ =~= olds.update(pos as int, InputLine { date, blocks: nb }));
                lemma_map_of_update(olds, pos as int, InputLine { date, blocks: nb });
            }
        } else {
            proof {
                assert forall|i: int| 0 <= i < olds.len() implies (#[trigger] olds[i]).date
                    != date by {
                    if i >= pos {
                        lemma_lt_total(olds[i].date, date);
                        if i > pos {
                            assert(olds[pos as int].date.lt(olds[i].date));
                        }
                    }
                }
                assert(!map_of(olds).contains_key(date));
            }
            let nb = change as u64;
            self.records.insert(pos, InputLine { date, blocks: nb });
            proof {
                lemma_map_of_insert_at(olds, pos as int, InputLine { date, blocks: nb });
                let news = self.records@;
                assert forall|i: int, j: int|
                    #![trigger news[i], news[j]]
                    0 <= i < j < news.len() implies news[i].date.lt(news[j].date) by {
                    if i == pos {
                        if pos < olds.len() {
                            lemma_lt_total(olds[pos as int].date, date);
                        }
                        assert(news[j] == olds[j - 1]);
                    } else if j == pos {
                        assert(news[i] == olds[i]);
                    } else if i < pos && j > pos {
                        assert(news[i] == olds[i] && news[j] == olds[j - 1]);
                        if pos < olds.len() {
                            crate::date::lemma_lt_trans(olds[i].date, date, olds[j - 1].date);
                            lemma_lt_total(olds[pos as int].date, date);
                        }
                    }
                }
            }
        }
    }

    /// Sets `blocks = blocks + 1` for the day, inserting a fresh row with
    /// one block when the day has none.
    pub fn increment_or_insert_date(&mut self, date: Date)
        requires
            old(self).wf(),
            date.representable(),
            old(self).blocks_spec(date) < u64::MAX,
        ensures
            final(self).wf(),
            final(self)@ == old(self)@.insert(date, (old(self).blocks_spec(date) + 1) as u64),
            final(self)@ == bump(old(self)@, date),
    {
        self.alter_line(date, 1);
        proof {
            assert(self@ =~= bump(old(self)@, date));
        }
    }

    /// The series of the `n` days ending at `end`, oldest first: exactly
    /// `n` rows, consecutive and strictly ascending by date, each
    /// carrying the stored count or zero for a day with no row. Storage
    /// is untouched.
    pub fn get_previous(&self, end: Date, n: usize) -> (r: Vec<InputLine>)
        requires
            self.wf(),
            end.valid(),
            n == 0 || end.year as int - (n - 1) as int >= i64::MIN,
        ensures
            r@.len() == n,
            forall|i: int|
                0 <= i < n ==> (#[trigger] r@[i]).date == date_back(end, (n - 1 - i) as nat),
            forall|i: int| 0 <= i < n ==> (#[trigger] r@[i]).blocks == self.blocks_spec(r@[i].date),
            forall|i: int, j: int|
                #![trigger r@[i], r@[j]]
                0 <= i < j < n ==> r@[i].date.lt(r@[j].date),
            n > 0 ==> r@[n - 1].date == end,
    {
        let mut down: Vec<InputLine> = Vec::new();
        let mut cur = end;
        let mut i: usize = 0;
        while i < n
            invariant
                i <= n,
                self.wf(),
                end.valid(),
                n == 0 || end.year as int - (n - 1) as int >= i64::MIN,
                i < n ==> cur == date_back(end, i as nat) && cur.valid(),
                down@.len() == i,
                forall|k: int|
                    0 <= k < i ==> (#[trigger] down@[k]).date == date_back(end, k as nat),
                forall|k: int|
                    0 <= k < i ==> (#[trigger] down@[k]).blocks == self.blocks_spec(down@[k].date),
            decreases n - i,
        {
            let b = self.blocks_at(cur);
            down.push(InputLine { date: cur, blocks: b });
            if i + 1 < n {
                proof {
                    lemma_date_back_valid(end, i as nat);
                }
                cur = cur.pred();
            }
            i = i + 1;
        }
        let mut r: Vec<InputLine> = Vec::new();
        let mut j: usize = 0;
        while j < n
            invariant
                j <= n,
                down@.len() == n,
                r@.len() == j,
                forall|k: int| 0 <= k < j ==> #[trigger] r@[k] == down@[n - 1 - k],
            decreases n - j,
        {
            r.push(down[n - 1 - j]);
            j = j + 1;
        }
        proof {
            assert forall|a: int, b: int|
                #![trigger r@[a], r@[b]]
                0 <= a < b < n implies r@[a].date.lt(r@[b].date) by {
                lemma_date_back_lt(end, (n - 1 - a) as nat, (n - 1 - b) as nat);
            }
        }
        r
    }

    /// Loads a store from its text form: one row per line, strictly
    /// ascending. A line outside the grammar is a malformed-line error,
    /// rows out of order an order error; nothing is dropped or zeroed
    /// silently.
    pub fn build(content: &str) -> (r: Result<Storage, StoreError>)
        ensures
            r is Ok <==> content_wf(content@),
            r matches Ok(st) ==> st.wf() && Ok::<Seq<InputLine>, StoreError>(st.records@)
                == build_spec(content@),
            r matches Err(e) ==> Err::<Seq<InputLine>, StoreError>(e) == build_spec(content@),
    {
        let lines = split_into_lines(content);
        let ghost bigl = split_lines(content@);
        let mut recs: Vec<InputLine> = Vec::new();
        let mut k: usize = 0;
        proof {
            assert(bigl.take(0) =~= Seq::<Seq<char>>::empty());
        }
        while k < lines.len()
            invariant
                k <= lines@.len(),
                lines@.len() == bigl.len(),
                forall|i: int| 0 <= i < bigl.len() ==> (#[trigger] lines@[i])@ == bigl[i],
                bigl == split_lines(content@),
                parse_lines(bigl.take(k as int)) == Ok::<Seq<InputLine>, StoreError>(recs@),
                sorted_dates(recs@),
                forall|i: int| 0 <= i < recs@.len() ==> (#[trigger] recs@[i]).date.representable(),
            decreases bigl.len() - k,
        {
            proof {
                assert(bigl.take(k + 1).drop_last() =~= bigl.take(k as int));
                assert(bigl.take(k + 1).last() == bigl[k as int]);
            }
            let line = lines[k];
            match try_parse_line(line) {
                Err(_) => {
                    proof {
                        assert(parse_lines(bigl.take(k + 1)) == Err::<
                            Seq<InputLine>,
                            StoreError,
                        >(StoreError::MalformedLine));
                        lemma_parse_lines_prefix_err(bigl, k + 1);
                    }
                    return Err(StoreError::MalformedLine);
                },
                Ok(il) => {
                    if recs.len() > 0 {
                        let lastrec = recs[recs.len() - 1];
                        if !lastrec.date.before(&il.date) {
                            proof {
                                assert(parse_lines(bigl.take(k + 1)) == Err::<
                                    Seq<InputLine>,
                                    StoreError,
                                >(StoreError::OutOfOrder));
                                lemma_parse_lines_prefix_err(bigl, k + 1);
                            }
                            return Err(StoreError::OutOfOrder);
                        }
                    }
                    proof {
                        lemma_line_representable(bigl[k as int]);
                        let news = recs@.push(il);
                        assert forall|i: int, j: int|
                            #![trigger news[i], news[j]]
                            0 <= i < j < news.len() implies news[i].date.lt(news[j].date) by {
                            if j == news.len() - 1 {
                                if recs@.len() > 0 && i < recs@.len() - 1 {
                                    lemma_lt_trans(
                                        news[i].date,
                                        recs@[recs@.len() - 1].date,
                                        il.date,
                                    );
                                }
                            }
                        }
                    }
                    recs.push(il);
                    proof {
                        assert(parse_lines(bigl.take(k + 1)) == Ok::<
                            Seq<InputLine>,
                            StoreError,
                        >(recs@));
                    }
                },
            }
            k = k + 1;
        }
        proof {
            assert(bigl.take(bigl.len() as int) =~= bigl);
        }
        Ok(Storage { records: recs })
    }

    /// Opens a store from a text that may not exist yet: absent text is
    /// the empty store, present text is loaded unchanged.
    pub fn init(existing: Option<&str>) -> (r: Result<Storage, StoreError>)
        ensures
            existing is None ==> (r matches Ok(st) && st.wf() && st.records@
                == Seq::<InputLine>::empty()),
            existing matches Some(c) ==> {
                &&& (r is Ok <==> content_wf(c@))
                &&& (r matches Ok(st) ==> st.wf() && Ok::<Seq<InputLine>, StoreError>(st.records@)
                    == build_spec(c@))
                &&& (r matches Err(e) ==> Err::<Seq<InputLine>, StoreError>(e) == build_spec(c@))
            },
    {
        match existing {
            None => Ok(Storage::new()),
            Some(c) => Storage::build(c),
        }
    }

    /// The whole store in its text form, ready to be written back; one
    /// line per row, no trailing newline.
    pub fn render(&self) -> (r: String)
        requires
            self.wf(),
        ensures
            r@ == render_content(self.records@),
    {
        proof {
            reveal_strlit("\n");
        }
        let mut out = String::new();
        let mut i: usize = 0;
        proof {
            assert(self.records@.take(0) =~= Seq::<InputLine>::empty());
            assert(out@ =~= render_content(self.records@.take(0)));
        }
        while i < self.records.len()
            invariant
                i <= self.records@.len(),
                self.wf(),
                out@ == render_content(self.records@.take(i as int)),
            decreases self.records@.len() - i,
        {
            proof {
                reveal_strlit("\n");
                assert(self.records@.take(i + 1).drop_last() =~= self.records@.take(i as int));
                assert(self.records@.take(i + 1).last() == self.records@[i as int]);
            }
            if i > 0 {
                out.append("\n");
            }
            let line = self.records[i].render();
            out.append(line.as_str());
            proof {
                assert(out@ =~= render_content(self.records@.take(i + 1)));
            }
            i = i + 1;
        }
        proof {
            assert(self.records@.take(self.records@.len() as int) =~= self.records@);
        }
        out
    }

    /// The same series query under the reader-facing name.
    pub fn read_previous_days(&self, from: Date, n: usize) -> (r: Vec<InputLine>)
        requires
            self.wf(),
            from.valid(),
            n == 0 || from.year as int - (n - 1) as int >= i64::MIN,
        ensures
            r@.len() == n,
            forall|i: int|
                0 <= i < n ==> (#[trigger] r@[i]).date == date_back(from, (n - 1 - i) as nat),
            forall|i: int| 0 <= i < n ==> (#[trigger] r@[i]).blocks == self.blocks_spec(r@[i].date),
            forall|i: int, j: int|
                #![trigger r@[i], r@[j]]
                0 <= i < j < n ==> r@[i].date.lt(r@[j].date),
            n > 0 ==> r@[n - 1].date == from,
    {
        self.get_previous(from, n)
    }
}

} // verus!

//! Persistence bridge: the row-oriented text format the dataset is saved to
//! and restored from. A row is comma-separated fields ended by a newline;
//! a field containing a comma, quote or line break is quoted, with inner
//! quotes doubled. The first header field is the time label, the rest are
//! the column display names; each data row is one timestamp followed by one
//! value per column. On load, mismatched row widths, bad quoting, a bad
//! timestamp or a non-numeric value are hard failures.
use vstd::prelude::*;

use crate::data::DataContainer;
use crate::data::data_wf;
use crate::data::DataV;
use crate::data::PacketV;
use crate::data::direction_label;
use crate::data::direction_label_of;
use crate::numeric::is_numeric;
use crate::numeric::lemma_numeric_chars;
use crate::numeric::numeric_char;
use crate::numeric::is_numeric_token;
use crate::text::all_digits;
use crate::text::dec_str;
use crate::text::is_digit;
use crate::text::lemma_dec_str_digits;
use crate::text::dec_val;
use crate::text::parse_u64;
use crate::text::push_char;
use crate::text::u64_to_string;

verus! {

/// Why a persisted artifact failed to load.
#[derive(Clone, Copy, PartialEq, Eq, Structural, Debug)]
pub enum LoadError {
    /// The file name does not end in a supported extension.
    UnsupportedExtension,
    /// The artifact has no rows at all.
    EmptyFile,
    /// The header row has malformed quoting.
    BadHeader,
    /// A data row has malformed quoting.
    BadQuoting,
    /// A data row's field count differs from the header's.
    WidthMismatch,
    /// A data row's first field is not a millisecond timestamp.
    BadTime,
    /// A data row holds a value that is not a numeric token.
    BadValue,
}

/// Where the field scanner stands within one row.
#[derive(Clone, Copy, PartialEq, Eq, Structural, Debug)]
pub enum CsvState {
    /// At the start of a field.
    AtStart,
    /// Inside an unquoted field.
    Unquoted,
    /// Inside a quoted field.
    Quoted,
    /// Just after a quote inside a quoted field: either the field closed or
    /// a doubled quote follows.
    QuoteClosed,
}

/// The fields of one row, scanned left to right; `None` on malformed
/// quoting. `cur` is the field being read, `acc` the fields read.
pub open spec fn fields_sm(l: Seq<char>, st: CsvState, cur: Seq<char>, acc: Seq<Seq<char>>) -> Option<
    Seq<Seq<char>>,
>
    decreases l.len(),
{
    if l.len() == 0 {
        if st == CsvState::Quoted {
            None
        } else {
            Some(acc.push(cur))
        }
    } else {
        let c = l[0];
        let rest = l.skip(1);
        match st {
            CsvState::AtStart => {
                if c == '"' {
                    fields_sm(rest, CsvState::Quoted, cur, acc)
                } else if c == ',' {
                    fields_sm(rest, CsvState::AtStart, Seq::empty(), acc.push(cur))
                } else {
                    fields_sm(rest, CsvState::Unquoted, cur.push(c), acc)
                }
            }
            CsvState::Unquoted => {
                if c == ',' {
                    fields_sm(rest, CsvState::AtStart, Seq::empty(), acc.push(cur))
                } else {
                    fields_sm(rest, CsvState::Unquoted, cur.push(c), acc)
                }
            }
            CsvState::Quoted => {
                if c == '"' {
                    fields_sm(rest, CsvState::QuoteClosed, cur, acc)
                } else {
                    fields_sm(rest, CsvState::Quoted, cur.push(c), acc)
                }
            }
            CsvState::QuoteClosed => {
                if c == '"' {
                    fields_sm(rest, CsvState::Quoted, cur.push('"'), acc)
                } else if c == ',' {
                    fields_sm(rest, CsvState::AtStart, Seq::empty(), acc.push(cur))
                } else {
                    None
                }
            }
        }
    }
}

/// The fields of one row, or `None` on malformed quoting. Every row has at
/// least one field; an empty row has exactly one empty field.
pub open spec fn line_fields(l: Seq<char>) -> Option<Seq<Seq<char>>> {
    fields_sm(l, CsvState::AtStart, Seq::empty(), Seq::empty())
}

/// A parsed row is never empty.
pub proof fn lemma_line_fields_len(l: Seq<char>)
    ensures
        line_fields(l) matches Some(f) ==> f.len() >= 1,
{
    lemma_fields_sm_len(l, CsvState::AtStart, Seq::empty(), Seq::empty());
}

proof fn lemma_fields_sm_len(l: Seq<char>, st: CsvState, cur: Seq<char>, acc: Seq<Seq<char>>)
    ensures
        fields_sm(l, st, cur, acc) matches Some(f) ==> f.len() >= acc.len() + 1,
    decreases l.len(),
{
    if l.len() > 0 {
        let c = l[0];
        let rest = l.skip(1);
        match st {
            CsvState::AtStart => {
                if c == '"' {
                    lemma_fields_sm_len(rest, CsvState::Quoted, cur, acc);
                } else if c == ',' {
                    lemma_fields_sm_len(rest, CsvState::AtStart, Seq::empty(), acc.push(cur));
                } else {
                    lemma_fields_sm_len(rest, CsvState::Unquoted, cur.push(c), acc);
                }
            }
            CsvState::Unquoted => {
                if c == ',' {
                    lemma_fields_sm_len(rest, CsvState::AtStart, Seq::empty(), acc.push(cur));
                } else {
                    lemma_fields_sm_len(rest, CsvState::Unquoted, cur.push(c), acc);
                }
            }
            CsvState::Quoted => {
                if c == '"' {
                    lemma_fields_sm_len(rest, CsvState::QuoteClosed, cur, acc);
                } else {
                    lemma_fields_sm_len(rest, CsvState::Quoted, cur.push(c), acc);
                }
            }
            CsvState::QuoteClosed => {
                if c == '"' {
                    lemma_fields_sm_len(rest, CsvState::Quoted, cur.push('"'), acc);
                } else if c == ',' {
                    lemma_fields_sm_len(rest, CsvState::AtStart, Seq::empty(), acc.push(cur));
                }
            }
        }
    }
}

/// Scans one row into its fields.
fn parse_line(l: &str) -> (r: Option<Vec<String>>)
    ensures
        match r {
            Some(v) => line_fields(l@) == Some(v.deep_view()),
            None => line_fields(l@) is None,
        },
{
    let n = l.unicode_len();
    let mut st = CsvState::AtStart;
    let mut cur = String::new();
    let mut out: Vec<String> = Vec::new();
    let mut i: usize = 0;
    proof {
        assert(l@.skip(0) =~= l@);
        assert(out.deep_view() =~= Seq::<Seq<char>>::empty());
    }
    while i < n
        invariant
            0 <= i <= n,
            n == l@.len(),
            line_fields(l@) == fields_sm(l@.skip(i as int), st, cur@, out.deep_view()),
        decreases n - i,
    {
        let ghost rest = l@.skip(i as int);
        let ghost pre_cur = cur@;
        let ghost pre_acc = out.deep_view();
        proof {
            assert(rest.skip(1) =~= l@.skip(i as int + 1));
        }
        let c = l.get_char(i);
        match st {
            CsvState::AtStart => {
                if c == '"' {
                    st = CsvState::Quoted;
                } else if c == ',' {
                    out.push(cur);
                    cur = String::new();
                    proof {
                        assert(out.deep_view() =~= pre_acc.push(pre_cur));
                    }
                } else {
                    push_char(&mut cur, c);
                    st = CsvState::Unquoted;
                }
            }
            CsvState::Unquoted => {
                if c == ',' {
                    out.push(cur);
                    cur = String::new();
                    st = CsvState::AtStart;
                    proof {
                        assert(out.deep_view() =~= pre_acc.push(pre_cur));
                    }
                } else {
                    push_char(&mut cur, c);
                }
            }
            CsvState::Quoted => {
                if c == '"' {
                    st = CsvState::QuoteClosed;
                } else {
                    push_char(&mut cur, c);
                }
            }
            CsvState::QuoteClosed => {
                if c == '"' {
                    push_char(&mut cur, '"');
                    st = CsvState::Quoted;
                } else if c == ',' {
                    out.push(cur);
                    cur = String::new();
                    st = CsvState::AtStart;
                    proof {
                        assert(out.deep_view() =~= pre_acc.push(pre_cur));
                    }
                } else {
                    proof {
                        assert(line_fields(l@) is None);
                    }
                    return None;
                }
            }
        }
        i = i + 1;
    }
    proof {
        assert(l@.skip(n as int) =~= Seq::<char>::empty());
    }
    if matches!(st, CsvState::Quoted) {
        None
    } else {
        let ghost pre_acc = out.deep_view();
        let ghost pre_cur = cur@;
        out.push(cur);
        proof {
            assert(out.deep_view() =~= pre_acc.push(pre_cur));
        }
        Some(out)
    }
}

/// A line with one trailing carriage return removed, so artifacts with
/// either line ending load alike.
pub open spec fn strip_cr(l: Seq<char>) -> Seq<char> {
    if l.len() > 0 && l.last() == '\r' {
        l.drop_last()
    } else {
        l
    }
}

/// The rows of an artifact: split on newlines, one trailing empty row
/// dropped, one trailing carriage return per row removed.
pub open spec fn rows_acc(s: Seq<char>, cur: Seq<char>) -> Seq<Seq<char>>
    decreases s.len(),
{
    if s.len() == 0 {
        if cur.len() == 0 {
            seq![]
        } else {
            seq![strip_cr(cur)]
        }
    } else if s[0] == '\n' {
        seq![strip_cr(cur)] + rows_acc(s.skip(1), Seq::empty())
    } else {
        rows_acc(s.skip(1), cur.push(s[0]))
    }
}

pub open spec fn text_rows(s: Seq<char>) -> Seq<Seq<char>> {
    rows_acc(s, Seq::empty())
}

/// Splits an artifact into its rows.
fn text_rows_exec(text: &str) -> (r: Vec<String>)
    ensures
        r.deep_view() == text_rows(text@),
{
    let n = text.unicode_len();
    let mut out: Vec<String> = Vec::new();
    let mut start: usize = 0;
    let mut i: usize = 0;
    proof {
        assert(text@.skip(0) =~= text@);
        assert(text@.subrange(0, 0) =~= Seq::<char>::empty());
        assert(out.deep_view() + rows_acc(text@, Seq::empty()) =~= text_rows(text@));
    }
    while i < n
        invariant
            0 <= start <= i <= n,
            n == text@.len(),
            text_rows(text@) == out.deep_view()
                + rows_acc(text@.skip(i as int), text@.subrange(start as int, i as int)),
        decreases n - i,
    {
        let ghost pre = out.deep_view();
        let ghost rest = text@.skip(i as int);
        let ghost cur = text@.subrange(start as int, i as int);
        let c = text.get_char(i);
        if c == '\n' {
            let mut e: usize = i;
            if e > start && text.get_char(e - 1) == '\r' {
                e = e - 1;
            }
            proof {
                assert(strip_cr(cur) =~= text@.subrange(start as int, e as int));
            }
            let token = text.substring_char(start, e).to_owned();
            out.push(token);
            proof {
                assert(out.deep_view() =~= pre.push(strip_cr(cur)));
                assert(rest.skip(1) =~= text@.skip(i as int + 1));
                assert(text@.subrange(i as int + 1, i as int + 1) =~= Seq::<char>::empty());
                assert(pre + (seq![strip_cr(cur)] + rows_acc(rest.skip(1), Seq::empty()))
                    =~= out.deep_view() + rows_acc(text@.skip(i as int + 1), Seq::<char>::empty()));
            }
            start = i + 1;
            i = i + 1;
        } else {
            proof {
                assert(rest.skip(1) =~= text@.skip(i as int + 1));
                assert(cur.push(rest[0]) =~= text@.subrange(start as int, i as int + 1));
            }
            i = i + 1;
        }
    }
    proof {
        assert(text@.skip(n as int) =~= Seq::<char>::empty());
    }
    if start < n {
        let ghost pre = out.deep_view();
        let ghost cur = text@.subrange(start as int, n as int);
        let mut e: usize = n;
        if text.get_char(n - 1) == '\r' {
            e = n - 1;
        }
        proof {
            assert(strip_cr(cur) =~= text@.subrange(start as int, e as int));
        }
        let token = text.substring_char(start, e).to_owned();
        out.push(token);
        proof {
            assert(cur.len() > 0);
            assert(out.deep_view() =~= pre.push(strip_cr(cur)));
            assert(pre + seq![strip_cr(cur)] =~= pre.push(strip_cr(cur)));
        }
    } else {
        proof {
            assert(text@.subrange(start as int, n as int).len() == 0);
        }
    }
    out
}

/// A valid timestamp field: a decimal millisecond count that fits in a
/// `u64`.
pub open spec fn is_time_field(f: Seq<char>) -> bool {
    f.len() > 0 && all_digits(f) && dec_val(f) <= u64::MAX
}

/// What a successfully loaded artifact denotes.
pub ghost struct LoadedV {
    pub names: Seq<Seq<char>>,
    pub time: Seq<u64>,
    pub dataset: Seq<Seq<Seq<char>>>,
}

/// A successfully loaded artifact: the recovered column names, the time
/// axis, and the columns.
pub struct LoadedFile {
    pub names: Vec<String>,
    pub time: Vec<u64>,
    pub dataset: Vec<Vec<String>>,
}

impl View for LoadedFile {
    type V = LoadedV;

    open spec fn view(&self) -> LoadedV {
        LoadedV {
            names: self.names.deep_view(),
            time: self.time@,
            dataset: self.dataset.deep_view(),
        }
    }
}

/// The data rows from `r` on, checked against the header width `w` and
/// folded into a time axis and `w - 1` columns; the first failing row
/// decides the error.
pub open spec fn rows_model(rows: Seq<Seq<char>>, r: int, w: int) -> Result<
    (Seq<u64>, Seq<Seq<Seq<char>>>),
    LoadError,
>
    decreases rows.len() - r,
{
    if r >= rows.len() {
        Ok((Seq::empty(), Seq::new((w - 1) as nat, |j: int| Seq::empty())))
    } else {
        match line_fields(rows[r]) {
            Option::None => Err(LoadError::BadQuoting),
            Option::Some(fields) => {
                if fields.len() != w {
                    Err(LoadError::WidthMismatch)
                } else if !is_time_field(fields[0]) {
                    Err(LoadError::BadTime)
                } else if exists|j: int| 1 <= j < w && !is_numeric(#[trigger] fields[j]) {
                    Err(LoadError::BadValue)
                } else {
                    match rows_model(rows, r + 1, w) {
                        Err(e) => Err(e),
                        Ok((ts, cols)) => Ok(
                            (
                                seq![dec_val(fields[0]) as u64] + ts,
                                Seq::new((w - 1) as nat, |j: int| seq![fields[j + 1]] + cols[j]),
                            ),
                        ),
                    }
                }
            }
        }
    }
}

/// What an artifact text loads to: the header row gives the names and the
/// width, the data rows give the time axis and the columns.
pub open spec fn load_model(text: Seq<char>) -> Result<LoadedV, LoadError> {
    let rows = text_rows(text);
    if rows.len() == 0 {
        Err(LoadError::EmptyFile)
    } else {
        match line_fields(rows[0]) {
            Option::None => Err(LoadError::BadHeader),
            Option::Some(header) => match rows_model(rows, 1, header.len() as int) {
                Err(e) => Err(e),
                Ok((ts, cols)) => Ok(
                    LoadedV { names: header.skip(1), time: ts, dataset: cols },
                ),
            },
        }
    }
}

/// Parses a persisted artifact. The result is exactly what `load_model`
/// assigns to the text: a load succeeds if and only if the artifact has a
/// well-quoted header row and every data row is well-quoted, as wide as
/// the header, and holds a timestamp followed by numeric tokens.
pub fn open_from_csv(text: &str) -> (r: Result<LoadedFile, LoadError>)
    ensures
        match r {
            Ok(l) => load_model(text@) == Ok::<LoadedV, LoadError>(l@),
            Err(e) => load_model(text@) == Err::<LoadedV, LoadError>(e),
        },
{
    let rows = text_rows_exec(text);
    if rows.len() == 0 {
        return Err(LoadError::EmptyFile);
    }
    let header = match parse_line(rows[0].as_str()) {
        Option::None => {
            return Err(LoadError::BadHeader);
        }
        Option::Some(h) => h,
    };
    let w = header.len();
    proof {
        lemma_line_fields_len(rows.deep_view()[0]);
        assert(w >= 1);
    }
    let mut names: Vec<String> = Vec::new();
    let mut k: usize = 1;
    while k < w
        invariant
            1 <= k <= w,
            w == header@.len(),
            names.deep_view() =~= header.deep_view().subrange(1, k as int),
        decreases w - k,
    {
        let ghost pre = names.deep_view();
        names.push(header[k].clone());
        proof {
            assert(names.deep_view() =~= pre.push(header.deep_view()[k as int]));
            assert(names.deep_view() =~= header.deep_view().subrange(1, k as int + 1));
        }
        k = k + 1;
    }
    proof {
        assert(names.deep_view() =~= header.deep_view().skip(1));
    }
    let mut time: Vec<u64> = Vec::new();
    let mut cols: Vec<Vec<String>> = Vec::new();
    let mut j: usize = 0;
    while j < w - 1
        invariant
            0 <= j <= w - 1,
            cols@.len() == j,
            forall|x: int| 0 <= x < j ==> (#[trigger] cols.deep_view()[x]).len() == 0,
        decreases w - j,
    {
        let ghost pre = cols.deep_view();
        cols.push(Vec::new());
        proof {
            assert forall|x: int| 0 <= x < j + 1 implies (#[trigger] cols.deep_view()[x]).len()
                == 0 by {
                if x < j {
                    assert(cols.deep_view()[x] == pre[x]);
                } else {
                    assert(cols.deep_view()[x] == cols@[x].deep_view());
                }
            }
        }
        j = j + 1;
    }
    let ghost grows = rows.deep_view();
    let mut r: usize = 1;
    proof {
        match rows_model(grows, 1, w as int) {
            Err(e) => {}
            Ok((ts, cs)) => {
                lemma_rows_model_shape(grows, 1, w as int);
                assert(time@ + ts =~= ts);
                assert forall|x: int| 0 <= x < w - 1 implies cs[x]
                    == cols.deep_view()[x] + cs[x] by {
                    assert((#[trigger] cols.deep_view()[x]).len() == 0);
                    assert(cols.deep_view()[x] + cs[x] =~= cs[x]);
                }
            }
        }
    }
    while r < rows.len()
        invariant
            1 <= r <= rows@.len(),
            grows == rows.deep_view(),
            grows == text_rows(text@),
            w == header@.len(),
            1 <= w,
            line_fields(grows[0]) == Some(header.deep_view()),
            names.deep_view() == header.deep_view().skip(1),
            cols@.len() == w - 1,
            ({
                let full = rows_model(grows, 1, w as int);
                let part = rows_model(grows, r as int, w as int);
                match part {
                    Err(e) => full == Err::<(Seq<u64>, Seq<Seq<Seq<char>>>), LoadError>(e),
                    Ok((ts, cs)) => match full {
                        Err(_) => false,
                        Ok((fts, fcs)) => fts == time@ + ts && fcs.len() == w - 1
                            && cs.len() == w - 1
                            && forall|x: int| 0 <= x < w - 1 ==> #[trigger] fcs[x]
                                == cols.deep_view()[x] + cs[x],
                    },
                }
            }),
        decreases rows@.len() - r,
    {
        let ghost pre_time = time@;
        let ghost pre_cols = cols.deep_view();
        proof {
            assert(rows.deep_view()[r as int] == rows@[r as int]@);
        }
        let fields = match parse_line(rows[r].as_str()) {
            Option::None => {
                return Err(LoadError::BadQuoting);
            }
            Option::Some(f) => f,
        };
        proof {
            assert(line_fields(grows[r as int]) == Some(fields.deep_view()));
            assert(fields.deep_view().len() == fields@.len());
        }
        if fields.len() != w {
            return Err(LoadError::WidthMismatch);
        }
        proof {
            assert(fields.deep_view()[0] == fields@[0]@);
        }
        let t = match parse_u64(fields[0].as_str()) {
            Option::None => {
                proof {
                    assert(!is_time_field(fields.deep_view()[0]));
                }
                return Err(LoadError::BadTime);
            }
            Option::Some(t) => t,
        };
        let mut all_ok = true;
        let mut jv: usize = 1;
        while jv < w
            invariant
                1 <= jv <= w,
                w == fields@.len(),
                all_ok == (forall|x: int| 1 <= x < jv
                    ==> is_numeric(#[trigger] fields.deep_view()[x])),
            decreases w - jv,
        {
            proof {
                assert(fields.deep_view()[jv as int] == fields@[jv as int]@);
            }
            let good = is_numeric_token(fields[jv].as_str());
            all_ok = all_ok && good;
            jv = jv + 1;
        }
        if !all_ok {
            proof {
                assert(exists|x: int| 1 <= x < w
                    && !is_numeric(#[trigger] fields.deep_view()[x]));
            }
            return Err(LoadError::BadValue);
        }
        proof {
            assert(is_time_field(fields.deep_view()[0]));
            assert(dec_val(fields.deep_view()[0]) as u64 == t);
        }
        time.push(t);
        let mut j2: usize = 1;
        while j2 < w
            invariant
                1 <= j2 <= w,
                w == fields@.len(),
                cols@.len() == w - 1,
                pre_cols.len() == w - 1,
                forall|x: int| 0 <= x < j2 - 1 ==> #[trigger] cols.deep_view()[x]
                    == pre_cols[x].push(fields.deep_view()[x + 1]),
                forall|x: int| j2 - 1 <= x < w - 1 ==> #[trigger] cols.deep_view()[x]
                    == pre_cols[x],
                time@ == pre_time.push(t),
            decreases w - j2,
        {
            let ghost mid = cols.deep_view();
            let v = fields[j2].clone();
            proof {
                assert(fields.deep_view()[j2 as int] == fields@[j2 as int]@);
            }
            cols[j2 - 1].push(v);
            proof {
                assert(cols.deep_view()[j2 as int - 1] == cols@[j2 as int - 1].deep_view());
                assert(cols.deep_view()[j2 as int - 1]
                    =~= mid[j2 as int - 1].push(fields.deep_view()[j2 as int]));
                assert forall|x: int| 0 <= x < w - 1 && x != j2 - 1 implies
                    #[trigger] cols.deep_view()[x] == mid[x] by {
                    assert(cols@[x] == cols@[x]);
                }
            }
            j2 = j2 + 1;
        }
        proof {
            let gf = fields.deep_view();
            let part = rows_model(grows, r as int, w as int);
            let next = rows_model(grows, r as int + 1, w as int);
            match next {
                Err(e) => {
                    assert(part == Err::<(Seq<u64>, Seq<Seq<Seq<char>>>), LoadError>(e));
                }
                Ok((ts, cs)) => {
                    lemma_rows_model_shape(grows, r as int + 1, w as int);
                    let t0 = dec_val(gf[0]) as u64;
                    assert(part == Ok::<(Seq<u64>, Seq<Seq<Seq<char>>>), LoadError>(
                        (
                            seq![t0] + ts,
                            Seq::new((w - 1) as nat, |x: int| seq![gf[x + 1]] + cs[x]),
                        ),
                    ));
                    assert(pre_time + (seq![t0] + ts) =~= time@ + ts);
                    assert forall|x: int| 0 <= x < w - 1 implies pre_cols[x]
                        + (seq![gf[x + 1]] + cs[x]) =~= cols.deep_view()[x] + cs[x] by {
                        assert(cols.deep_view()[x] == pre_cols[x].push(gf[x + 1]));
                    }
                    match rows_model(grows, 1, w as int) {
                        Err(_) => {
                            assert(false);
                        }
                        Ok((fts, fcs)) => {
                            assert(fts == pre_time + (seq![t0] + ts));
                            assert(fts == time@ + ts);
                            assert forall|x: int| 0 <= x < w - 1 implies #[trigger] fcs[x]
                                == cols.deep_view()[x] + cs[x] by {
                                assert(fcs[x] == pre_cols[x]
                                    + (Seq::new((w - 1) as nat,
                                        |y: int| seq![gf[y + 1]] + cs[y]))[x]);
                                assert((Seq::new((w - 1) as nat,
                                    |y: int| seq![gf[y + 1]] + cs[y]))[x]
                                    == seq![gf[x + 1]] + cs[x]);
                            }
                        }
                    }
                }
            }
        }
        r = r + 1;
    }
    proof {
        match rows_model(grows, r as int, w as int) {
            Err(e) => {
                assert(false);
            }
            Ok((ts, cs)) => {
                assert(ts.len() == 0);
                assert(time@ + ts =~= time@);
                match rows_model(grows, 1, w as int) {
                    Err(_) => {
                        assert(false);
                    }
                    Ok((fts, fcs)) => {
                        assert(fts == time@);
                        assert forall|x: int| 0 <= x < w - 1 implies #[trigger] fcs[x]
                            == cols.deep_view()[x] by {
                            assert(fcs[x] == cols.deep_view()[x] + cs[x]);
                            assert(cs[x].len() == 0);
                            assert(cols.deep_view()[x] + cs[x] =~= cols.deep_view()[x]);
                        }
                        assert(fcs =~~= cols.deep_view());
                    }
                }
            }
        }
    }
    Ok(LoadedFile { names, time, dataset: cols })
}

/// Every successful row fold yields `w - 1` columns, each exactly as long
/// as the time axis: one entry per data row.
proof fn lemma_rows_model_shape(rows: Seq<Seq<char>>, r: int, w: int)
    requires
        1 <= w,
        0 <= r <= rows.len(),
    ensures
        rows_model(rows, r, w) matches Ok(p) ==> p.1.len() == w - 1
            && p.0.len() == rows.len() - r
            && forall|j: int| 0 <= j < w - 1 ==> (#[trigger] p.1[j]).len() == rows.len() - r,
    decreases rows.len() - r,
{
    if r < rows.len() {
        lemma_rows_model_shape(rows, r + 1, w);
    }
}

/// A loaded dataset is well formed: every recovered column is as long as
/// the recovered time axis.
pub open spec fn loaded_wf(m: LoadedV) -> bool {
    forall|j: int| 0 <= j < m.dataset.len() ==> (#[trigger] m.dataset[j]).len() == m.time.len()
}

pub proof fn lemma_load_model_wf(text: Seq<char>)
    ensures
        load_model(text) matches Ok(m) ==> loaded_wf(m),
{
    let rows = text_rows(text);
    match load_model(text) {
        Err(_) => {}
        Ok(m) => {
            match line_fields(rows[0]) {
                Option::None => {
                    assert(false);
                }
                Option::Some(header) => {
                    lemma_line_fields_len(rows[0]);
                    lemma_rows_model_shape(rows, 1, header.len() as int);
                }
            }
        }
    }
}

/// Save options handed over by the consumer: the target path, the time
/// axis to write, whether the raw-event log gets its own artifact, and
/// the column display names for the header row.
pub struct FileOptions {
    pub file_path: String,
    pub save_absolute_time: bool,
    pub save_raw_traffic: bool,
    pub names: Vec<String>,
}

/// The mathematical value of the save options.
pub ghost struct FileOptionsV {
    pub file_path: Seq<char>,
    pub save_absolute_time: bool,
    pub save_raw_traffic: bool,
    pub names: Seq<Seq<char>>,
}

impl View for FileOptions {
    type V = FileOptionsV;

    open spec fn view(&self) -> FileOptionsV {
        FileOptionsV {
            file_path: self.file_path@,
            save_absolute_time: self.save_absolute_time,
            save_raw_traffic: self.save_raw_traffic,
            names: self.names.deep_view(),
        }
    }
}

/// The extension of a path: the characters after the last dot of its last
/// segment, or nothing when that segment has no dot.
pub open spec fn ext_rec(p: Seq<char>, acc: Seq<char>) -> Option<Seq<char>>
    decreases p.len(),
{
    if p.len() == 0 {
        None
    } else if p.last() == '.' {
        Some(acc)
    } else if p.last() == '/' || p.last() == '\\' {
        None
    } else {
        ext_rec(p.drop_last(), seq![p.last()] + acc)
    }
}

pub open spec fn ext_of(p: Seq<char>) -> Option<Seq<char>> {
    ext_rec(p, Seq::empty())
}

/// Extracts a path's extension.
pub fn extension_of(path: &str) -> (r: Option<String>)
    ensures
        match r {
            Some(e) => ext_of(path@) == Some(e@),
            None => ext_of(path@) is None,
        },
{
    let n = path.unicode_len();
    let mut k: usize = n;
    proof {
        assert(path@.subrange(0, n as int) =~= path@);
        assert(path@.subrange(n as int, n as int) =~= Seq::<char>::empty());
    }
    while k > 0
        invariant
            0 <= k <= n,
            n == path@.len(),
            ext_of(path@) == ext_rec(path@.subrange(0, k as int),
                path@.subrange(k as int, n as int)),
        decreases k,
    {
        let ghost head = path@.subrange(0, k as int);
        let ghost acc = path@.subrange(k as int, n as int);
        proof {
            assert(head.last() == path@[k as int - 1]);
            assert(head.drop_last() =~= path@.subrange(0, k as int - 1));
            assert(seq![head.last()] + acc =~= path@.subrange(k as int - 1, n as int));
        }
        let c = path.get_char(k - 1);
        if c == '.' {
            let e = path.substring_char(k, n).to_owned();
            return Some(e);
        }
        if c == '/' || c == '\\' {
            return None;
        }
        k = k - 1;
    }
    proof {
        assert(path@.subrange(0, 0).len() == 0);
    }
    None
}


/// Whether a field must be quoted when rendered.
pub open spec fn needs_quote(f: Seq<char>) -> bool {
    exists|i: int| 0 <= i < f.len() && (#[trigger] f[i] == ',' || f[i] == '"' || f[i] == '\n'
        || f[i] == '\r')
}

/// The field's characters with every quote doubled.
pub open spec fn double_quotes(f: Seq<char>) -> Seq<char>
    decreases f.len(),
{
    if f.len() == 0 {
        Seq::empty()
    } else if f[0] == '"' {
        seq!['"', '"'] + double_quotes(f.skip(1))
    } else {
        seq![f[0]] + double_quotes(f.skip(1))
    }
}

/// A field as written: quoted with inner quotes doubled where needed,
/// verbatim otherwise.
pub open spec fn escape_field(f: Seq<char>) -> Seq<char> {
    if needs_quote(f) {
        seq!['"'] + double_quotes(f) + seq!['"']
    } else {
        f
    }
}

/// One row as written: the escaped fields joined by commas, ended by a
/// newline.
pub open spec fn render_fields(fields: Seq<Seq<char>>) -> Seq<char>
    decreases fields.len(),
{
    if fields.len() == 0 {
        seq!['\n']
    } else if fields.len() == 1 {
        escape_field(fields[0]) + seq!['\n']
    } else {
        escape_field(fields[0]) + seq![','] + render_fields(fields.skip(1))
    }
}

fn append_escaped(out: &mut String, f: &str)
    ensures
        final(out)@ == old(out)@ + escape_field(f@),
{
    let n = f.unicode_len();
    let mut need = false;
    let mut i: usize = 0;
    while i < n
        invariant
            0 <= i <= n,
            n == f@.len(),
            need == (exists|j: int| 0 <= j < i && (#[trigger] f@[j] == ',' || f@[j] == '"'
                || f@[j] == '\n' || f@[j] == '\r')),
        decreases n - i,
    {
        let c = f.get_char(i);
        if c == ',' || c == '"' || c == '\n' || c == '\r' {
            need = true;
        }
        i = i + 1;
    }
    if !need {
        out.append(f);
        proof {
            assert(!needs_quote(f@));
        }
    } else {
        proof {
            assert(needs_quote(f@));
        }
        let ghost base = out@;
        push_char(out, '"');
        let mut i2: usize = 0;
        proof {
            assert(f@.skip(0) =~= f@);
        }
        while i2 < n
            invariant
                0 <= i2 <= n,
                n == f@.len(),
                base + seq!['"'] + double_quotes(f@) == out@ + double_quotes(f@.skip(i2 as int)),
            decreases n - i2,
        {
            let ghost rest = f@.skip(i2 as int);
            let ghost pre = out@;
            proof {
                assert(rest.skip(1) =~= f@.skip(i2 as int + 1));
            }
            let c = f.get_char(i2);
            if c == '"' {
                push_char(out, '"');
                push_char(out, '"');
                proof {
                    assert(pre + (seq!['"', '"'] + double_quotes(rest.skip(1)))
                        =~= out@ + double_quotes(f@.skip(i2 as int + 1)));
                }
            } else {
                push_char(out, c);
                proof {
                    assert(pre + (seq![rest[0]] + double_quotes(rest.skip(1)))
                        =~= out@ + double_quotes(f@.skip(i2 as int + 1)));
                }
            }
            i2 = i2 + 1;
        }
        proof {
            assert(double_quotes(f@.skip(n as int)) =~= Seq::<char>::empty());
            assert(out@ + double_quotes(f@.skip(n as int)) =~= out@);
        }
        push_char(out, '"');
        proof {
            assert(out@ =~= base + escape_field(f@));
        }
    }
}

fn append_row(out: &mut String, fields: &Vec<String>)
    ensures
        final(out)@ == old(out)@ + render_fields(fields.deep_view()),
{
    let ghost base = out@;
    let ghost deep = fields.deep_view();
    if fields.len() == 0 {
        push_char(out, '\n');
        proof {
            assert(out@ =~= base + render_fields(deep));
        }
        return;
    }
    let mut i: usize = 0;
    proof {
        assert(deep.skip(0) =~= deep);
    }
    while i < fields.len() - 1
        invariant
            0 <= i,
            i + 1 <= fields@.len(),
            fields@.len() >= 1,
            deep == fields.deep_view(),
            deep.len() == fields@.len(),
            base + render_fields(deep) == out@ + render_fields(deep.skip(i as int)),
        decreases fields@.len() - i,
    {
        let ghost pre = out@;
        proof {
            assert(deep.skip(i as int).skip(1) =~= deep.skip(i as int + 1));
            assert(deep.skip(i as int)[0] == deep[i as int]);
            assert(fields.deep_view()[i as int] == fields@[i as int]@);
        }
        append_escaped(out, fields[i].as_str());
        push_char(out, ',');
        proof {
            assert(pre + (escape_field(deep[i as int]) + seq![',']
                + render_fields(deep.skip(i as int + 1)))
                =~= out@ + render_fields(deep.skip(i as int + 1)));
            assert(render_fields(deep.skip(i as int)) == escape_field(deep[i as int])
                + seq![','] + render_fields(deep.skip(i as int + 1)));
        }
        i = i + 1;
    }
    let ghost pre = out@;
    proof {
        assert(deep.skip(i as int).len() == 1);
        assert(deep.skip(i as int)[0] == deep[i as int]);
        assert(fields.deep_view()[i as int] == fields@[i as int]@);
    }
    append_escaped(out, fields[i].as_str());
    push_char(out, '\n');
    proof {
        assert(render_fields(deep.skip(i as int)) == escape_field(deep[i as int]) + seq!['\n']);
        assert(pre + (escape_field(deep[i as int]) + seq!['\n'])
            =~= out@);
        assert(out@ =~= base + render_fields(deep));
    }
}

/// The header's first field.
pub open spec fn time_header() -> Seq<char> {
    "Time [ms]"@
}

/// The header row: the time label, then one display name per column.
pub open spec fn header_fields(names: Seq<Seq<char>>) -> Seq<Seq<char>> {
    seq![time_header()] + names
}

/// One data row: the selected timestamp, then one value per column.
pub open spec fn row_fields(d: DataV, use_abs: bool, r: int) -> Seq<Seq<char>> {
    seq![dec_str((if use_abs { d.absolute_time[r] } else { d.time[r] }) as nat)]
        + Seq::new(d.dataset.len(), |j: int| d.dataset[j][r])
}

/// The data rows from `r` on, rendered in order.
pub open spec fn data_rows_from(d: DataV, use_abs: bool, r: int) -> Seq<char>
    decreases d.time.len() - r,
{
    if r < 0 || r >= d.time.len() {
        Seq::empty()
    } else {
        render_fields(row_fields(d, use_abs, r)) + data_rows_from(d, use_abs, r + 1)
    }
}

/// What a saved dataset artifact holds: the header row, then one row per
/// sample, with the relative or the wall-clock time axis as selected.
pub open spec fn save_model(d: DataV, use_abs: bool, names: Seq<Seq<char>>) -> Seq<char> {
    render_fields(header_fields(names)) + data_rows_from(d, use_abs, 0)
}

/// Renders the dataset artifact. Column display names are supplied by the
/// consumer, not inferred.
pub fn save_to_csv(data: &DataContainer, use_abs: bool, names: &Vec<String>) -> (r: String)
    requires
        data.wf(),
    ensures
        r@ == save_model(data@, use_abs, names.deep_view()),
{
    let ghost d = data@;
    let mut hdr: Vec<String> = Vec::new();
    hdr.push(String::from_str("Time [ms]"));
    let mut k: usize = 0;
    while k < names.len()
        invariant
            0 <= k <= names@.len(),
            hdr.deep_view() =~= seq![time_header()] + names.deep_view().subrange(0, k as int),
        decreases names@.len() - k,
    {
        let ghost pre = hdr.deep_view();
        hdr.push(names[k].clone());
        proof {
            assert(hdr.deep_view() =~= pre.push(names.deep_view()[k as int]));
            assert(hdr.deep_view() =~= seq![time_header()]
                + names.deep_view().subrange(0, k as int + 1));
        }
        k = k + 1;
    }
    proof {
        assert(names.deep_view().subrange(0, names@.len() as int) =~= names.deep_view());
    }
    let mut out = String::new();
    append_row(&mut out, &hdr);
    proof {
        assert(out@ =~= render_fields(header_fields(names.deep_view())));
    }
    let mut r: usize = 0;
    while r < data.time.len()
        invariant
            0 <= r <= data.time@.len(),
            d == data@,
            data.wf(),
            save_model(d, use_abs, names.deep_view()) == out@ + data_rows_from(d, use_abs, r as int),
        decreases data.time@.len() - r,
    {
        let ghost pre = out@;
        let t: u64 = if use_abs {
            data.absolute_time[r]
        } else {
            data.time[r]
        };
        let mut row: Vec<String> = Vec::new();
        row.push(u64_to_string(t));
        let mut j: usize = 0;
        while j < data.dataset.len()
            invariant
                0 <= j <= data.dataset@.len(),
                d == data@,
                data.wf(),
                r < data.time@.len(),
                row.deep_view() =~= seq![
                    dec_str((if use_abs { d.absolute_time[r as int] } else { d.time[r as int] }) as nat),
                ] + Seq::new(j as nat, |x: int| d.dataset[x][r as int]),
            decreases data.dataset@.len() - j,
        {
            let ghost pre_row = row.deep_view();
            proof {
                assert(d.dataset[j as int].len() == d.time.len());
                assert(data.dataset.deep_view()[j as int] == data.dataset@[j as int].deep_view());
                assert(data.dataset@[j as int].deep_view()[r as int]
                    == data.dataset@[j as int]@[r as int]@);
            }
            row.push(data.dataset[j][r].clone());
            proof {
                assert(row.deep_view() =~= pre_row.push(d.dataset[j as int][r as int]));
                assert(row.deep_view() =~= seq![
                    dec_str((if use_abs { d.absolute_time[r as int] } else { d.time[r as int] }) as nat),
                ] + Seq::new(j as nat + 1, |x: int| d.dataset[x][r as int]));
            }
            j = j + 1;
        }
        proof {
            assert(row.deep_view() =~= row_fields(d, use_abs, r as int));
        }
        append_row(&mut out, &row);
        proof {
            assert(data_rows_from(d, use_abs, r as int)
                == render_fields(row_fields(d, use_abs, r as int))
                    + data_rows_from(d, use_abs, r as int + 1));
            assert(pre + (render_fields(row_fields(d, use_abs, r as int))
                + data_rows_from(d, use_abs, r as int + 1))
                =~= out@ + data_rows_from(d, use_abs, r as int + 1));
        }
        r = r + 1;
    }
    proof {
        assert(out@ + data_rows_from(d, use_abs, data.time@.len() as int) =~= out@);
    }
    out
}

/// The raw-artifact header row.
pub open spec fn raw_header_fields() -> Seq<Seq<char>> {
    seq!["Direction"@, time_header(), "Payload"@]
}

/// One raw-log row: direction, the selected timestamp, the payload.
pub open spec fn raw_row_fields(p: PacketV, use_abs: bool) -> Seq<Seq<char>> {
    seq![
        direction_label(p.direction),
        dec_str((if use_abs { p.absolute_time } else { p.relative_time }) as nat),
        p.payload,
    ]
}

pub open spec fn raw_rows_from(raw: Seq<PacketV>, use_abs: bool, r: int) -> Seq<char>
    decreases raw.len() - r,
{
    if r < 0 || r >= raw.len() {
        Seq::empty()
    } else {
        render_fields(raw_row_fields(raw[r], use_abs)) + raw_rows_from(raw, use_abs, r + 1)
    }
}

/// What the secondary artifact holds: every logged event, in order, with
/// direction, timestamp and payload.
pub open spec fn save_raw_model(raw: Seq<PacketV>, use_abs: bool) -> Seq<char> {
    render_fields(raw_header_fields()) + raw_rows_from(raw, use_abs, 0)
}

/// Renders the raw-event-log artifact.
pub fn save_raw_csv(data: &DataContainer, use_abs: bool) -> (r: String)
    ensures
        r@ == save_raw_model(data@.raw_traffic, use_abs),
{
    let ghost raw = data@.raw_traffic;
    let mut hdr: Vec<String> = Vec::new();
    hdr.push(String::from_str("Direction"));
    hdr.push(String::from_str("Time [ms]"));
    hdr.push(String::from_str("Payload"));
    proof {
        assert(hdr.deep_view() =~= raw_header_fields());
    }
    let mut out = String::new();
    append_row(&mut out, &hdr);
    proof {
        assert(out@ =~= render_fields(raw_header_fields()));
    }
    let mut r: usize = 0;
    while r < data.raw_traffic.len()
        invariant
            0 <= r <= data.raw_traffic@.len(),
            raw == data@.raw_traffic,
            raw.len() == data.raw_traffic@.len(),
            save_raw_model(raw, use_abs) == out@ + raw_rows_from(raw, use_abs, r as int),
        decreases data.raw_traffic@.len() - r,
    {
        let ghost pre = out@;
        let p = &data.raw_traffic[r];
        let t: u64 = if use_abs {
            p.absolute_time
        } else {
            p.relative_time
        };
        let mut row: Vec<String> = Vec::new();
        row.push(direction_label_of(p.direction));
        row.push(u64_to_string(t));
        row.push(p.payload.clone());
        proof {
            assert(data.raw_traffic.deep_view()[r as int] == data.raw_traffic@[r as int]@);
            assert(row.deep_view() =~= raw_row_fields(raw[r as int], use_abs));
        }
        append_row(&mut out, &row);
        proof {
            assert(raw_rows_from(raw, use_abs, r as int)
                == render_fields(raw_row_fields(raw[r as int], use_abs))
                    + raw_rows_from(raw, use_abs, r as int + 1));
            assert(pre + (render_fields(raw_row_fields(raw[r as int], use_abs))
                + raw_rows_from(raw, use_abs, r as int + 1))
                =~= out@ + raw_rows_from(raw, use_abs, r as int + 1));
        }
        r = r + 1;
    }
    proof {
        assert(out@ + raw_rows_from(raw, use_abs, data.raw_traffic@.len() as int) =~= out@);
    }
    out
}

/// In a successfully loaded artifact every data row parsed to exactly the
/// header's field count.
proof fn lemma_rows_model_widths(rows: Seq<Seq<char>>, r0: int, w: int, r: int)
    requires
        1 <= r0 <= r < rows.len(),
        rows_model(rows, r0, w) is Ok,
    ensures
        line_fields(rows[r]) matches Some(f) && (line_fields(rows[r])->Some_0).len() == w,
    decreases r - r0,
{
    if r0 < r {
        lemma_rows_model_widths(rows, r0 + 1, w, r);
    }
}

/// Malformed-load rejection: an artifact whose data rows vary in field
/// count cannot load; the outcome is a reported error, never a partially
/// populated dataset.
pub proof fn lemma_malformed_load_rejected(text: Seq<char>, r1: int, r2: int)
    requires
        1 <= r1 < text_rows(text).len(),
        1 <= r2 < text_rows(text).len(),
        line_fields(text_rows(text)[r1]) is Some,
        line_fields(text_rows(text)[r2]) is Some,
        (line_fields(text_rows(text)[r1])->Some_0).len()
            != (line_fields(text_rows(text)[r2])->Some_0).len(),
    ensures
        load_model(text) is Err,
{
    let rows = text_rows(text);
    match load_model(text) {
        Err(_) => {}
        Ok(_) => {
            match line_fields(rows[0]) {
                Option::None => {
                    assert(false);
                }
                Option::Some(header) => {
                    let w = header.len() as int;
                    lemma_rows_model_widths(rows, 1, w, r1);
                    lemma_rows_model_widths(rows, 1, w, r2);
                    assert(false);
                }
            }
        }
    }
}


/// No line break: the field stays within one row when rendered.
pub open spec fn no_line_breaks(f: Seq<char>) -> bool {
    forall|i: int| 0 <= i < f.len() ==> (#[trigger] f[i]) != '\n' && f[i] != '\r'
}

/// One row without its final newline.
pub open spec fn render_nb(fields: Seq<Seq<char>>) -> Seq<char>
    decreases fields.len(),
{
    if fields.len() == 0 {
        Seq::empty()
    } else if fields.len() == 1 {
        escape_field(fields[0])
    } else {
        escape_field(fields[0]) + seq![','] + render_nb(fields.skip(1))
    }
}

proof fn lemma_render_fields_nb(fields: Seq<Seq<char>>)
    ensures
        render_fields(fields) == render_nb(fields) + seq!['\n'],
    decreases fields.len(),
{
    if fields.len() == 0 {
        assert(render_fields(fields) =~= render_nb(fields) + seq!['\n']);
    } else if fields.len() == 1 {
        assert(escape_field(fields[0]) + seq!['\n']
            =~= escape_field(fields[0]) + seq!['\n']);
    } else {
        lemma_render_fields_nb(fields.skip(1));
        assert(escape_field(fields[0]) + seq![','] + (render_nb(fields.skip(1)) + seq!['\n'])
            =~= (escape_field(fields[0]) + seq![','] + render_nb(fields.skip(1))) + seq!['\n']);
    }
}

proof fn lemma_dq_no_breaks(f: Seq<char>)
    requires
        no_line_breaks(f),
    ensures
        no_line_breaks(double_quotes(f)),
    decreases f.len(),
{
    if f.len() > 0 {
        assert(no_line_breaks(f.skip(1)));
        lemma_dq_no_breaks(f.skip(1));
        let head: Seq<char> = if f[0] == '"' { seq!['"', '"'] } else { seq![f[0]] };
        assert(double_quotes(f) == head + double_quotes(f.skip(1)));
        assert forall|i: int| 0 <= i < double_quotes(f).len() implies (#[trigger] double_quotes(
            f,
        )[i]) != '\n' && double_quotes(f)[i] != '\r' by {
            if i < head.len() {
                assert(double_quotes(f)[i] == head[i]);
            } else {
                assert(double_quotes(f)[i] == double_quotes(f.skip(1))[i - head.len()]);
            }
        }
    }
}

proof fn lemma_escape_no_breaks(f: Seq<char>)
    requires
        no_line_breaks(f),
    ensures
        no_line_breaks(escape_field(f)),
{
    if needs_quote(f) {
        lemma_dq_no_breaks(f);
        let e = seq!['"'] + double_quotes(f) + seq!['"'];
        assert forall|i: int| 0 <= i < e.len() implies (#[trigger] e[i]) != '\n' && e[i]
            != '\r' by {
            if 0 < i < e.len() - 1 {
                assert(e[i] == double_quotes(f)[i - 1]);
            }
        }
    }
}

proof fn lemma_render_nb_no_breaks(fields: Seq<Seq<char>>)
    requires
        forall|i: int| 0 <= i < fields.len() ==> no_line_breaks(#[trigger] fields[i]),
    ensures
        no_line_breaks(render_nb(fields)),
    decreases fields.len(),
{
    if fields.len() == 0 {
    } else if fields.len() == 1 {
        lemma_escape_no_breaks(fields[0]);
    } else {
        lemma_escape_no_breaks(fields[0]);
        assert(forall|i: int| 0 <= i < fields.skip(1).len() ==> no_line_breaks(
            #[trigger] fields.skip(1)[i],
        ));
        lemma_render_nb_no_breaks(fields.skip(1));
        let e = escape_field(fields[0]);
        let r = render_nb(fields.skip(1));
        let whole = e + seq![','] + r;
        assert forall|i: int| 0 <= i < whole.len() implies (#[trigger] whole[i]) != '\n'
            && whole[i] != '\r' by {
            if i < e.len() {
                assert(whole[i] == e[i]);
            } else if i == e.len() {
                assert(whole[i] == ',');
            } else {
                assert(whole[i] == r[i - e.len() - 1]);
            }
        }
    }
}


proof fn lemma_sm_consume_unquoted(
    f: Seq<char>,
    suffix: Seq<char>,
    cur: Seq<char>,
    acc: Seq<Seq<char>>,
)
    requires
        forall|i: int| 0 <= i < f.len() ==> (#[trigger] f[i]) != ',',
    ensures
        fields_sm(f + suffix, CsvState::Unquoted, cur, acc) == fields_sm(suffix,
            CsvState::Unquoted, cur + f, acc),
    decreases f.len(),
{
    if f.len() == 0 {
        assert(f + suffix =~= suffix);
        assert(cur + f =~= cur);
    } else {
        let whole = f + suffix;
        assert(whole.len() > 0);
        assert(whole[0] == f[0]);
        assert(whole.skip(1) =~= f.skip(1) + suffix);
        assert(forall|i: int| 0 <= i < f.skip(1).len() ==> (#[trigger] f.skip(1)[i]) != ',');
        lemma_sm_consume_unquoted(f.skip(1), suffix, cur.push(f[0]), acc);
        assert(cur.push(f[0]) + f.skip(1) =~= cur + f);
    }
}

proof fn lemma_sm_consume_quoted(
    f: Seq<char>,
    suffix: Seq<char>,
    cur: Seq<char>,
    acc: Seq<Seq<char>>,
)
    ensures
        fields_sm(double_quotes(f) + seq!['"'] + suffix, CsvState::Quoted, cur, acc)
            == fields_sm(suffix, CsvState::QuoteClosed, cur + f, acc),
    decreases f.len(),
{
    if f.len() == 0 {
        let whole = double_quotes(f) + seq!['"'] + suffix;
        assert(whole =~= seq!['"'] + suffix);
        assert(whole.len() > 0);
        assert(whole[0] == '"');
        assert(whole.skip(1) =~= suffix);
        assert(cur + f =~= cur);
        assert(fields_sm(whole, CsvState::Quoted, cur, acc) == fields_sm(suffix,
            CsvState::QuoteClosed, cur + f, acc));
    } else if f[0] == '"' {
        let whole = double_quotes(f) + seq!['"'] + suffix;
        assert(double_quotes(f) == seq!['"', '"'] + double_quotes(f.skip(1)));
        assert(whole.len() >= 2);
        assert(whole[0] == '"');
        let after1 = whole.skip(1);
        assert(after1[0] == '"');
        assert(after1.skip(1) =~= double_quotes(f.skip(1)) + seq!['"'] + suffix);
        lemma_sm_consume_quoted(f.skip(1), suffix, cur.push('"'), acc);
        assert(cur.push('"') + f.skip(1) =~= cur + f);
        assert(fields_sm(whole, CsvState::Quoted, cur, acc) == fields_sm(after1,
            CsvState::QuoteClosed, cur, acc));
        assert(fields_sm(after1, CsvState::QuoteClosed, cur, acc) == fields_sm(after1.skip(1),
            CsvState::Quoted, cur.push('"'), acc));
        assert(fields_sm(after1.skip(1), CsvState::Quoted, cur.push('"'), acc) == fields_sm(
            suffix, CsvState::QuoteClosed, cur + f, acc));
    } else {
        let whole = double_quotes(f) + seq!['"'] + suffix;
        assert(double_quotes(f) == seq![f[0]] + double_quotes(f.skip(1)));
        assert(whole.len() > 0);
        assert(whole[0] == f[0]);
        assert(whole.skip(1) =~= double_quotes(f.skip(1)) + seq!['"'] + suffix);
        lemma_sm_consume_quoted(f.skip(1), suffix, cur.push(f[0]), acc);
        assert(cur.push(f[0]) + f.skip(1) =~= cur + f);
        assert(whole[0] != '"');
        assert(fields_sm(whole, CsvState::Quoted, cur, acc) == fields_sm(whole.skip(1),
            CsvState::Quoted, cur.push(f[0]), acc));
        assert(fields_sm(whole.skip(1), CsvState::Quoted, cur.push(f[0]), acc) == fields_sm(
            suffix, CsvState::QuoteClosed, cur + f, acc));
    }
}

proof fn lemma_sm_row(fields: Seq<Seq<char>>, acc: Seq<Seq<char>>)
    requires
        fields.len() >= 1,
        forall|i: int| 0 <= i < fields.len() ==> no_line_breaks(#[trigger] fields[i]),
    ensures
        fields_sm(render_nb(fields), CsvState::AtStart, Seq::empty(), acc) == Some(acc + fields),
    decreases fields.len(),
{
    let f0 = fields[0];
    if fields.len() == 1 {
        if needs_quote(f0) {
            let whole = render_nb(fields);
            assert(whole == seq!['"'] + double_quotes(f0) + seq!['"']);
            assert(whole =~= seq!['"'] + (double_quotes(f0) + seq!['"'] + Seq::<char>::empty()));
            let inner = double_quotes(f0) + seq!['"'] + Seq::<char>::empty();
            assert(whole.len() > 0);
            assert(whole[0] == '"');
            assert(whole.skip(1) =~= inner);
            lemma_sm_consume_quoted(f0, Seq::empty(), Seq::empty(), acc);
            assert(Seq::empty() + f0 =~= f0);
            assert(fields_sm(Seq::empty(), CsvState::QuoteClosed, f0, acc) == Some(acc.push(f0)));
            assert(acc.push(f0) =~= acc + fields);
        } else {
            assert(render_nb(fields) == f0);
            if f0.len() == 0 {
                assert(fields_sm(f0, CsvState::AtStart, Seq::empty(), acc)
                    == Some(acc.push(Seq::empty())));
                assert(acc.push(f0) =~= acc + fields);
            } else {
                assert(f0[0] != '"' && f0[0] != ',') by {
                    assert(!needs_quote(f0));
                }
                assert(fields_sm(f0, CsvState::AtStart, Seq::empty(), acc) == fields_sm(
                    f0.skip(1),
                    CsvState::Unquoted,
                    Seq::empty().push(f0[0]),
                    acc,
                ));
                assert(f0.skip(1) =~= f0.skip(1) + Seq::<char>::empty());
                assert(forall|i: int| 0 <= i < f0.skip(1).len() ==> (#[trigger] f0.skip(1)[i])
                    != ',');
                lemma_sm_consume_unquoted(f0.skip(1), Seq::empty(), Seq::empty().push(f0[0]),
                    acc);
                assert(Seq::empty().push(f0[0]) + f0.skip(1) =~= f0);
                assert(fields_sm(Seq::empty(), CsvState::Unquoted, f0, acc)
                    == Some(acc.push(f0)));
                assert(acc.push(f0) =~= acc + fields);
            }
        }
    } else {
        let rest = render_nb(fields.skip(1));
        let tail = seq![','] + rest;
        assert(render_nb(fields) == escape_field(f0) + seq![','] + rest);
        assert(forall|i: int| 0 <= i < fields.skip(1).len() ==> no_line_breaks(
            #[trigger] fields.skip(1)[i],
        ));
        lemma_sm_row(fields.skip(1), acc.push(f0));
        assert(tail.len() > 0);
        assert(tail[0] == ',');
        assert(tail.skip(1) =~= rest);
        assert(fields_sm(tail, CsvState::Unquoted, f0, acc) == fields_sm(rest,
            CsvState::AtStart, Seq::empty(), acc.push(f0)));
        assert(fields_sm(tail, CsvState::QuoteClosed, f0, acc) == fields_sm(rest,
            CsvState::AtStart, Seq::empty(), acc.push(f0)));
        if needs_quote(f0) {
            let whole = render_nb(fields);
            assert(whole =~= seq!['"'] + (double_quotes(f0) + seq!['"'] + tail));
            assert(whole.len() > 0);
            assert(whole[0] == '"');
            assert(whole.skip(1) =~= double_quotes(f0) + seq!['"'] + tail);
            lemma_sm_consume_quoted(f0, tail, Seq::empty(), acc);
            assert(Seq::empty() + f0 =~= f0);
            assert(acc.push(f0) + fields.skip(1) =~= acc + fields);
        } else {
            assert(escape_field(f0) == f0);
            if f0.len() == 0 {
                let whole = render_nb(fields);
                assert(whole =~= tail);
                assert(acc.push(f0) + fields.skip(1) =~= acc + fields);
            } else {
                assert(f0[0] != '"' && f0[0] != ',') by {
                    assert(!needs_quote(f0));
                }
                let whole = render_nb(fields);
                assert(whole.len() > 0);
                assert(whole[0] == f0[0]);
                assert(whole.skip(1) =~= f0.skip(1) + tail);
                assert(forall|i: int| 0 <= i < f0.skip(1).len() ==> (#[trigger] f0.skip(1)[i])
                    != ',');
                lemma_sm_consume_unquoted(f0.skip(1), tail, Seq::empty().push(f0[0]), acc);
                assert(Seq::empty().push(f0[0]) + f0.skip(1) =~= f0);
                assert(acc.push(f0) + fields.skip(1) =~= acc + fields);
            }
        }
    }
}


/// Every sample in the dataset is a numeric token.
pub open spec fn all_samples_numeric(d: DataV) -> bool {
    forall|j: int, r: int| 0 <= j < d.dataset.len() && 0 <= r < d.dataset[j].len()
        ==> is_numeric(#[trigger] d.dataset[j][r])
}

proof fn lemma_rows_acc_line(line: Seq<char>, tail: Seq<char>, cur: Seq<char>)
    requires
        no_line_breaks(cur),
        no_line_breaks(line),
    ensures
        rows_acc(line + seq!['\n'] + tail, cur) == seq![cur + line] + rows_acc(tail,
            Seq::empty()),
    decreases line.len(),
{
    let whole = line + seq!['\n'] + tail;
    if line.len() == 0 {
        assert(whole =~= seq!['\n'] + tail);
        assert(whole.len() > 0);
        assert(whole[0] == '\n');
        assert(whole.skip(1) =~= tail);
        assert(strip_cr(cur) == cur);
        assert(cur + line =~= cur);
    } else {
        assert(whole.len() > 0);
        assert(whole[0] == line[0]);
        assert(line[0] != '\n');
        assert(whole.skip(1) =~= line.skip(1) + seq!['\n'] + tail);
        assert(no_line_breaks(line.skip(1)));
        assert forall|i: int| 0 <= i < cur.push(line[0]).len() implies (#[trigger] cur.push(
            line[0],
        )[i]) != '\n' && cur.push(line[0])[i] != '\r' by {
            if i < cur.len() {
                assert(cur.push(line[0])[i] == cur[i]);
            }
        }
        lemma_rows_acc_line(line.skip(1), tail, cur.push(line[0]));
        assert(cur.push(line[0]) + line.skip(1) =~= cur + line);
    }
}

proof fn lemma_row_fields_no_breaks(d: DataV, use_abs: bool, r: int)
    requires
        data_wf(d),
        all_samples_numeric(d),
        0 <= r < d.time.len(),
    ensures
        forall|i: int| 0 <= i < row_fields(d, use_abs, r).len() ==> no_line_breaks(
            #[trigger] row_fields(d, use_abs, r)[i],
        ),
{
    let fs = row_fields(d, use_abs, r);
    let t = if use_abs {
        d.absolute_time[r]
    } else {
        d.time[r]
    };
    lemma_dec_str_digits(t as nat);
    assert forall|i: int| 0 <= i < fs.len() implies no_line_breaks(#[trigger] fs[i]) by {
        if i == 0 {
            assert(fs[0] == dec_str(t as nat));
            assert forall|x: int| 0 <= x < fs[0].len() implies (#[trigger] fs[0][x]) != '\n'
                && fs[0][x] != '\r' by {
                assert(is_digit(fs[0][x]));
            }
        } else {
            assert(fs[i] == d.dataset[i - 1][r]);
            assert(d.dataset[i - 1].len() == d.time.len());
            assert(is_numeric(d.dataset[i - 1][r]));
            lemma_numeric_chars(fs[i]);
            assert forall|x: int| 0 <= x < fs[i].len() implies (#[trigger] fs[i][x]) != '\n'
                && fs[i][x] != '\r' by {
                assert(numeric_char(fs[i][x]));
            }
        }
    }
}

proof fn lemma_rows_acc_data(d: DataV, use_abs: bool, r: int)
    requires
        data_wf(d),
        all_samples_numeric(d),
        0 <= r <= d.time.len(),
    ensures
        rows_acc(data_rows_from(d, use_abs, r), Seq::empty()) == Seq::new(
            (d.time.len() - r) as nat,
            |k: int| render_nb(row_fields(d, use_abs, r + k)),
        ),
    decreases d.time.len() - r,
{
    if r >= d.time.len() {
        assert(data_rows_from(d, use_abs, r) == Seq::<char>::empty());
        assert(rows_acc(Seq::<char>::empty(), Seq::<char>::empty()) =~= Seq::<Seq<char>>::empty());
        assert(Seq::new((d.time.len() - r) as nat,
            |k: int| render_nb(row_fields(d, use_abs, r + k))) =~= Seq::<Seq<char>>::empty());
    } else {
        let fs = row_fields(d, use_abs, r);
        let line = render_nb(fs);
        let rest = data_rows_from(d, use_abs, r + 1);
        lemma_row_fields_no_breaks(d, use_abs, r);
        lemma_render_fields_nb(fs);
        lemma_render_nb_no_breaks(fs);
        assert(data_rows_from(d, use_abs, r) == render_fields(fs) + rest);
        assert(render_fields(fs) + rest =~= line + seq!['\n'] + rest);
        lemma_rows_acc_line(line, rest, Seq::empty());
        assert(Seq::empty() + line =~= line);
        lemma_rows_acc_data(d, use_abs, r + 1);
        let lhs = seq![line] + Seq::new((d.time.len() - r - 1) as nat,
            |k: int| render_nb(row_fields(d, use_abs, r + 1 + k)));
        let rhs = Seq::new((d.time.len() - r) as nat,
            |k: int| render_nb(row_fields(d, use_abs, r + k)));
        assert(lhs =~= rhs) by {
            assert forall|k: int| 0 <= k < rhs.len() implies lhs[k] == rhs[k] by {
                if k > 0 {
                    assert(lhs[k] == render_nb(row_fields(d, use_abs, r + 1 + (k - 1))));
                }
            }
        }
    }
}

/// The header row has no line breaks either.
proof fn lemma_header_no_breaks(names: Seq<Seq<char>>)
    requires
        forall|i: int| 0 <= i < names.len() ==> no_line_breaks(#[trigger] names[i]),
    ensures
        forall|i: int| 0 <= i < header_fields(names).len() ==> no_line_breaks(
            #[trigger] header_fields(names)[i],
        ),
{
    let hdr = header_fields(names);
    reveal_strlit("Time [ms]");
    assert(time_header().len() == 9);
    assert forall|i: int| 0 <= i < hdr.len() implies no_line_breaks(#[trigger] hdr[i]) by {
        if i == 0 {
            assert(hdr[0] == time_header());
            assert forall|x: int| 0 <= x < time_header().len() implies (#[trigger] time_header()[x])
                != '\n' && time_header()[x] != '\r' by {
                assert(time_header()[0] == 'T');
                assert(time_header()[1] == 'i');
                assert(time_header()[2] == 'm');
                assert(time_header()[3] == 'e');
                assert(time_header()[4] == ' ');
                assert(time_header()[5] == '[');
                assert(time_header()[6] == 'm');
                assert(time_header()[7] == 's');
                assert(time_header()[8] == ']');
            }
        } else {
            assert(hdr[i] == names[i - 1]);
        }
    }
}

proof fn lemma_text_rows_save(d: DataV, use_abs: bool, names: Seq<Seq<char>>)
    requires
        data_wf(d),
        all_samples_numeric(d),
        forall|i: int| 0 <= i < names.len() ==> no_line_breaks(#[trigger] names[i]),
    ensures
        text_rows(save_model(d, use_abs, names)) == seq![render_nb(header_fields(names))]
            + Seq::new(d.time.len(), |k: int| render_nb(row_fields(d, use_abs, k))),
{
    let hdr = header_fields(names);
    lemma_header_no_breaks(names);
    lemma_render_fields_nb(hdr);
    lemma_render_nb_no_breaks(hdr);
    let hline = render_nb(hdr);
    let rest = data_rows_from(d, use_abs, 0);
    assert(save_model(d, use_abs, names) =~= hline + seq!['\n'] + rest);
    lemma_rows_acc_line(hline, rest, Seq::empty());
    assert(Seq::empty() + hline =~= hline);
    lemma_rows_acc_data(d, use_abs, 0);
    assert(seq![hline] + rows_acc(rest, Seq::empty()) == seq![hline] + Seq::new(
        d.time.len(),
        |k: int| render_nb(row_fields(d, use_abs, 0 + k)),
    ));
    assert(Seq::new(d.time.len(), |k: int| render_nb(row_fields(d, use_abs, 0 + k)))
        =~= Seq::new(d.time.len(), |k: int| render_nb(row_fields(d, use_abs, k))));
}

proof fn lemma_rows_model_rendered(d: DataV, use_abs: bool, names: Seq<Seq<char>>, r: int)
    requires
        data_wf(d),
        all_samples_numeric(d),
        names.len() == d.dataset.len(),
        forall|i: int| 0 <= i < names.len() ==> no_line_breaks(#[trigger] names[i]),
        1 <= r <= d.time.len() + 1,
    ensures
        ({
            let rows = seq![render_nb(header_fields(names))] + Seq::new(d.time.len(),
                |k: int| render_nb(row_fields(d, use_abs, k)));
            let axis = if use_abs { d.absolute_time } else { d.time };
            rows_model(rows, r, names.len() as int + 1) == Ok::<(Seq<u64>, Seq<Seq<Seq<char>>>),
                LoadError>((axis.skip(r - 1), Seq::new(names.len() as nat,
                |j: int| d.dataset[j].skip(r - 1))))
        }),
    decreases d.time.len() + 1 - r,
{
    let rows = seq![render_nb(header_fields(names))] + Seq::new(d.time.len(),
        |k: int| render_nb(row_fields(d, use_abs, k)));
    let axis = if use_abs { d.absolute_time } else { d.time };
    let w = names.len() as int + 1;
    assert(rows.len() == 1 + d.time.len());
    assert(axis.len() == d.time.len());
    if r == d.time.len() + 1 {
        assert(axis.skip(r - 1) =~= Seq::<u64>::empty());
        assert(Seq::new(names.len() as nat, |j: int| d.dataset[j].skip(r - 1)) =~~= Seq::new(
            (w - 1) as nat,
            |j: int| Seq::<Seq<char>>::empty(),
        )) by {
            assert forall|j: int| 0 <= j < names.len() implies d.dataset[j].skip(r - 1)
                =~= Seq::<Seq<char>>::empty() by {
                assert(d.dataset[j].len() == d.time.len());
            }
        }
    } else {
        let fs = row_fields(d, use_abs, r - 1);
        assert(rows[r] == Seq::new(d.time.len(),
            |k: int| render_nb(row_fields(d, use_abs, k)))[r - 1]);
        assert(rows[r] == render_nb(fs));
        lemma_row_fields_no_breaks(d, use_abs, r - 1);
        assert(fs.len() == 1 + d.dataset.len());
        lemma_sm_row(fs, Seq::empty());
        assert(Seq::<Seq<char>>::empty() + fs =~= fs);
        assert(line_fields(rows[r]) == Some(fs));
        let t = if use_abs {
            d.absolute_time[r - 1]
        } else {
            d.time[r - 1]
        };
        assert(fs[0] == dec_str(t as nat));
        lemma_dec_str_digits(t as nat);
        assert(is_time_field(fs[0]));
        assert(dec_val(fs[0]) == t as nat);
        assert forall|j: int| 1 <= j < w implies is_numeric(#[trigger] fs[j]) by {
            assert(fs[j] == d.dataset[j - 1][r - 1]);
            assert(d.dataset[j - 1].len() == d.time.len());
        }
        lemma_rows_model_rendered(d, use_abs, names, r + 1);
        let ts_rest = axis.skip(r);
        let cols_rest = Seq::new(names.len() as nat, |j: int| d.dataset[j].skip(r));
        assert(rows_model(rows, r + 1, w) == Ok::<(Seq<u64>, Seq<Seq<Seq<char>>>), LoadError>(
            (ts_rest, cols_rest),
        ));
        assert(seq![dec_val(fs[0]) as u64] + ts_rest =~= axis.skip(r - 1)) by {
            assert(dec_val(fs[0]) as u64 == t);
            assert(axis.skip(r - 1).len() == axis.len() - r + 1);
            assert(axis.skip(r - 1)[0] == axis[r - 1]);
            assert(t == axis[r - 1]);
        }
        assert(Seq::new((w - 1) as nat, |j: int| seq![fs[j + 1]] + cols_rest[j]) =~~= Seq::new(
            names.len() as nat,
            |j: int| d.dataset[j].skip(r - 1),
        )) by {
            assert forall|j: int| 0 <= j < names.len() implies seq![fs[j + 1]] + cols_rest[j]
                =~= d.dataset[j].skip(r - 1) by {
                assert(fs[j + 1] == d.dataset[j][r - 1]);
                assert(cols_rest[j] == d.dataset[j].skip(r));
                assert(d.dataset[j].len() == d.time.len());
            }
        }
    }
}

/// Round-trip persistence: a well-formed dataset whose samples are all
/// numeric tokens, saved with one display name per column (names free of
/// line breaks), loads back to exactly the saved time axis, the saved
/// columns and the saved names.
pub proof fn lemma_save_load_round_trip(d: DataV, use_abs: bool, names: Seq<Seq<char>>)
    requires
        data_wf(d),
        all_samples_numeric(d),
        names.len() == d.dataset.len(),
        forall|i: int| 0 <= i < names.len() ==> no_line_breaks(#[trigger] names[i]),
    ensures
        load_model(save_model(d, use_abs, names)) == Ok::<LoadedV, LoadError>(
            LoadedV {
                names: names,
                time: if use_abs { d.absolute_time } else { d.time },
                dataset: d.dataset,
            },
        ),
{
    lemma_text_rows_save(d, use_abs, names);
    let rows = text_rows(save_model(d, use_abs, names));
    let hdr = header_fields(names);
    lemma_header_no_breaks(names);
    lemma_sm_row(hdr, Seq::empty());
    assert(Seq::<Seq<char>>::empty() + hdr =~= hdr);
    assert(rows[0] == render_nb(hdr));
    assert(line_fields(rows[0]) == Some(hdr));
    assert(hdr.len() == names.len() + 1);
    lemma_rows_model_rendered(d, use_abs, names, 1);
    let axis = if use_abs { d.absolute_time } else { d.time };
    assert(axis.skip(0) =~= axis);
    assert(Seq::new(names.len() as nat, |j: int| d.dataset[j].skip(0)) =~~= d.dataset) by {
        assert forall|j: int| 0 <= j < names.len() implies d.dataset[j].skip(0)
            =~= d.dataset[j] by {}
    }
    assert(hdr.skip(1) =~= names);
}

} // verus!

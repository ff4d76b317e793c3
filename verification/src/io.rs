//! CSV input and JSON output, without external crates.

use vstd::prelude::*;
use vstd::string::*;
use crate::date::{law_date_text_round_trip, lemma_date_text_chars, spec_parse_date, Date, WindowRule};
use crate::duality::exact_pair;
use crate::liho::{law_liho_fits_within_limits, liho_pairs, lowest_in_highest_out, GreedyResult};
use crate::solver::{
    dual_value, dual_value_fits, phase_count, solution_ok, solve, solver_failure, solver_pair_ok,
    too_many_pairs, Scaling, Solution,
};
use crate::verify::{pair_value, pairs_value, spec_verify, verify, verify_fits};
use crate::text::{
    all_digits, debug_str, debug_text, decimal, digit_value, digits_value, int_text, is_digit,
    is_white, lemma_decimal, lemma_digits_value_prefix, push_char, res_view, str_chars, trim,
    trim_bounds, trim_end, trim_start, write_int,
};
use crate::trade::{
    claimed_profit, law_price_text_round_trip, lemma_format_ticks_chars, spec_pair_gain, spec_validate, trade_in_limits, trades_in_limits, MatchedPair, format_ticks, parse_price, price_reaches_scale, spec_format_ticks, spec_parse_price, Side, Trade, MAX_PRICE_TICKS,
};

verus! {

/// What a trade holds, its id read as text.
pub open spec fn trade_text(t: Trade) -> (Seq<char>, Date, Side, u64, i64) {
    (t.id@, t.date, t.side, t.shares, t.price)
}

/// What a list of trades holds, ids read as text.
pub open spec fn trade_texts(v: Seq<Trade>) -> Seq<(Seq<char>, Date, Side, u64, i64)> {
    Seq::new(v.len(), |k: int| trade_text(v[k]))
}

/// The texts of a list of character vectors.
pub open spec fn texts(v: Seq<Vec<char>>) -> Seq<Seq<char>> {
    Seq::new(v.len(), |k: int| v[k]@)
}

/// The lines `str::lines` yields from `t[i..]`, `cur` being the part of the
/// current line already read.
pub open spec fn lines_from(t: Seq<char>, i: int, cur: Seq<char>) -> Seq<Seq<char>>
    decreases t.len() - i,
{
    if i >= t.len() {
        if cur.len() == 0 {
            seq![]
        } else {
            seq![cur]
        }
    } else if t[i] == '\n' {
        seq![strip_cr(cur)] + lines_from(t, i + 1, seq![])
    } else {
        lines_from(t, i + 1, cur.push(t[i]))
    }
}

/// A line ended by `\r\n` loses its `\r`.
pub open spec fn strip_cr(s: Seq<char>) -> Seq<char> {
    if s.len() > 0 && s.last() == '\r' {
        s.drop_last()
    } else {
        s
    }
}

/// What `str::lines` yields: lines split at `\n` or `\r\n`, the last line
/// ending optional.
pub open spec fn spec_lines(t: Seq<char>) -> Seq<Seq<char>> {
    lines_from(t, 0, seq![])
}

/// The pieces of `l[i..]` between commas, `cur` being the piece already read.
pub open spec fn split_from(l: Seq<char>, i: int, cur: Seq<char>) -> Seq<Seq<char>>
    decreases l.len() - i,
{
    if i >= l.len() {
        seq![cur]
    } else if l[i] == ',' {
        seq![cur] + split_from(l, i + 1, seq![])
    } else {
        split_from(l, i + 1, cur.push(l[i]))
    }
}

/// What `str::split(',')` yields.
pub open spec fn split_commas(l: Seq<char>) -> Seq<Seq<char>> {
    split_from(l, 0, seq![])
}

/// A field without surrounding white space and, if it has them, without its
/// enclosing double quotes.
pub open spec fn unquote(f: Seq<char>) -> Seq<char> {
    let g = trim(f);
    if g.len() >= 2 && g[0] == '"' && g.last() == '"' {
        g.subrange(1, g.len() - 1)
    } else {
        g
    }
}

/// What `char::to_ascii_lowercase` gives.
pub open spec fn lower_char(c: char) -> char {
    let u = c as u32;
    if 65 <= u <= 90 {
        ((u + 32) as u8) as char
    } else {
        c
    }
}

/// What `str::to_ascii_lowercase` gives.
pub open spec fn lower(s: Seq<char>) -> Seq<char> {
    Seq::new(s.len(), |i: int| lower_char(s[i]))
}

/// The fields of a data row.
pub open spec fn row_fields(l: Seq<char>) -> Seq<Seq<char>> {
    let parts = split_commas(l);
    Seq::new(parts.len(), |k: int| unquote(parts[k]))
}

/// The column names of a header line.
pub open spec fn header_names(l: Seq<char>) -> Seq<Seq<char>> {
    let parts = split_commas(l);
    Seq::new(parts.len(), |k: int| lower(unquote(parts[k])))
}

/// A line that is neither blank nor a `#` comment.
pub open spec fn is_content(l: Seq<char>) -> bool {
    trim(l).len() > 0 && !(trim_start(l).len() > 0 && trim_start(l)[0] == '#')
}

/// The first content line at or after `k`, or `ls.len()` if there is none.
pub open spec fn first_content(ls: Seq<Seq<char>>, k: int) -> int
    decreases ls.len() - k,
{
    if k < 0 || k >= ls.len() {
        ls.len() as int
    } else if is_content(ls[k]) {
        k
    } else {
        first_content(ls, k + 1)
    }
}

/// The first position at or after `k` where `names` holds `key`.
pub open spec fn position(names: Seq<Seq<char>>, key: Seq<char>, k: int) -> Option<int>
    decreases names.len() - k,
{
    if k < 0 || k >= names.len() {
        None
    } else if names[k] == key {
        Some(k)
    } else {
        position(names, key, k + 1)
    }
}

/// Where each column stands in a row.
#[derive(Clone, Copy)]
pub struct Columns {
    pub date: usize,
    pub side: usize,
    pub shares: usize,
    pub price: usize,
    pub id: Option<usize>,
}

/// The columns a header names, or the message for the first required one it lacks.
pub open spec fn header_columns(names: Seq<Seq<char>>) -> Result<Columns, Seq<char>> {
    let date = position(names, "date"@, 0);
    let side = position(names, "side"@, 0);
    let shares = position(names, "shares"@, 0);
    let price = position(names, "price"@, 0);
    let id = position(names, "id"@, 0);
    if date is None {
        Err("CSV header has no \"date\" column"@)
    } else if side is None {
        Err("CSV header has no \"side\" column"@)
    } else if shares is None {
        Err("CSV header has no \"shares\" column"@)
    } else if price is None {
        Err("CSV header has no \"price\" column"@)
    } else {
        Ok(
            Columns {
                date: date->0 as usize,
                side: side->0 as usize,
                shares: shares->0 as usize,
                price: price->0 as usize,
                id: match id {
                    Some(c) => Some(c as usize),
                    None => None,
                },
            },
        )
    }
}

/// What `u64::from_str` gives: an optional `+`, then at least one digit, the
/// value at most `u64::MAX`.
pub open spec fn spec_parse_u64(f: Seq<char>) -> Option<u64> {
    let d = if f.len() > 0 && f[0] == '+' {
        f.drop_first()
    } else {
        f
    };
    if d.len() > 0 && all_digits(d) && digits_value(d) <= u64::MAX {
        Some(digits_value(d) as u64)
    } else {
        None
    }
}

/// What the side column reads as.
pub open spec fn spec_parse_side(f: Seq<char>) -> Result<Side, Seq<char>> {
    let l = lower(trim(f));
    if l == "buy"@ || l == "b"@ || l == "purchase"@ || l == "p"@ {
        Ok(Side::Buy)
    } else if l == "sell"@ || l == "s"@ || l == "sale"@ {
        Ok(Side::Sell)
    } else {
        Err("side "@ + debug_text(l) + " is not buy or sell"@)
    }
}

/// The side words, trimmed and in any case: `buy`, `b`, `purchase` and `p`
/// read as a purchase, `sell`, `s` and `sale` as a sale, and any other text
/// is refused.
pub proof fn law_side_words(f: Seq<char>)
    ensures
        lower(trim(f)) == seq!['b', 'u', 'y'] || lower(trim(f)) == seq!['b'] || lower(trim(f))
            == seq!['p', 'u', 'r', 'c', 'h', 'a', 's', 'e'] || lower(trim(f)) == seq!['p']
            ==> spec_parse_side(f) == Ok::<Side, Seq<char>>(Side::Buy),
        lower(trim(f)) == seq!['s', 'e', 'l', 'l'] || lower(trim(f)) == seq!['s'] || lower(trim(f))
            == seq!['s', 'a', 'l', 'e'] ==> spec_parse_side(f) == Ok::<Side, Seq<char>>(Side::Sell),
        !(lower(trim(f)) == seq!['b', 'u', 'y'] || lower(trim(f)) == seq!['b'] || lower(trim(f))
            == seq!['p', 'u', 'r', 'c', 'h', 'a', 's', 'e'] || lower(trim(f)) == seq!['p']
            || lower(trim(f)) == seq!['s', 'e', 'l', 'l'] || lower(trim(f)) == seq!['s']
            || lower(trim(f)) == seq!['s', 'a', 'l', 'e']) ==> spec_parse_side(f) is Err,
{
    reveal_strlit("buy");
    reveal_strlit("b");
    reveal_strlit("purchase");
    reveal_strlit("p");
    reveal_strlit("sell");
    reveal_strlit("s");
    reveal_strlit("sale");
    assert("buy"@ =~= seq!['b', 'u', 'y']);
    assert("b"@ =~= seq!['b']);
    assert("purchase"@ =~= seq!['p', 'u', 'r', 'c', 'h', 'a', 's', 'e']);
    assert("p"@ =~= seq!['p']);
    assert("sell"@ =~= seq!['s', 'e', 'l', 'l']);
    assert("s"@ =~= seq!['s']);
    assert("sale"@ =~= seq!['s', 'a', 'l', 'e']);
    let l = lower(trim(f));
    if l == seq!['s'] {
        assert(l[0] == 's');
        assert(l != seq!['b'] && l != seq!['p']) by {
            assert(seq!['b'][0] == 'b');
            assert(seq!['p'][0] == 'p');
        }
    }
}

/// An error message tied to line `k` (counted from zero) of the file.
pub open spec fn at_line(k: int, e: Seq<char>) -> Seq<char> {
    "line "@ + int_text(k + 1) + ": "@ + e
}

/// The default id of the `count`-th trade read (counted from zero).
pub open spec fn default_id(count: int) -> Seq<char> {
    "T"@ + int_text(count + 1)
}

/// What line `k`, a data row, reads as, when `count` trades came before it.
pub open spec fn spec_row(
    l: Seq<char>,
    k: int,
    width: int,
    cols: Columns,
    dec: nat,
    count: int,
) -> Result<(Seq<char>, Date, Side, u64, i64), Seq<char>> {
    let f = row_fields(l);
    if f.len() != width {
        Err(
            at_line(
                k,
                "expected "@ + int_text(width) + " fields, found "@ + int_text(f.len() as int),
            ),
        )
    } else {
        match spec_parse_u64(f[cols.shares as int]) {
            None => Err(
                at_line(k, "shares "@ + debug_text(f[cols.shares as int]) + " is not a whole number"@),
            ),
            Some(shares) => if shares == 0 {
                Err(at_line(k, "shares must be at least 1"@))
            } else {
                let id = match cols.id {
                    Some(c) => f[c as int],
                    None => default_id(count),
                };
                match spec_parse_date(f[cols.date as int]) {
                    Err(e) => Err(at_line(k, e)),
                    Ok(date) => match spec_parse_side(f[cols.side as int]) {
                        Err(e) => Err(at_line(k, e)),
                        Ok(side) => match spec_parse_price(f[cols.price as int], dec) {
                            Err(e) => Err(at_line(k, e)),
                            Ok(price) => Ok((id, date, side, shares, price)),
                        },
                    },
                }
            },
        }
    }
}

/// The trades read from lines `k..` after `acc` was read, or the first error.
pub open spec fn spec_rows(
    ls: Seq<Seq<char>>,
    k: int,
    width: int,
    cols: Columns,
    dec: nat,
    acc: Seq<(Seq<char>, Date, Side, u64, i64)>,
) -> Result<Seq<(Seq<char>, Date, Side, u64, i64)>, Seq<char>>
    decreases ls.len() - k,
{
    if k < 0 || k >= ls.len() {
        Ok(acc)
    } else if !is_content(ls[k]) {
        spec_rows(ls, k + 1, width, cols, dec, acc)
    } else {
        match spec_row(ls[k], k, width, cols, dec, acc.len() as int) {
            Err(e) => Err(e),
            Ok(t) => spec_rows(ls, k + 1, width, cols, dec, acc.push(t)),
        }
    }
}

/// Line `k` gets as far as scaling its price by `10^dec`.
pub open spec fn row_reaches_scale(l: Seq<char>, k: int, width: int, cols: Columns, dec: nat) -> bool {
    let f = row_fields(l);
    &&& f.len() == width
    &&& spec_parse_u64(f[cols.shares as int]) is Some
    &&& spec_parse_u64(f[cols.shares as int])->0 > 0
    &&& spec_parse_date(f[cols.date as int]) is Ok
    &&& spec_parse_side(f[cols.side as int]) is Ok
    &&& price_reaches_scale(f[cols.price as int], dec)
}

/// Reading lines `k..` scales some price by `10^dec`.
pub open spec fn rows_reach_scale(ls: Seq<Seq<char>>, k: int, width: int, cols: Columns, dec: nat) -> bool
    decreases ls.len() - k,
{
    if k < 0 || k >= ls.len() {
        false
    } else if !is_content(ls[k]) {
        rows_reach_scale(ls, k + 1, width, cols, dec)
    } else if row_reaches_scale(ls[k], k, width, cols, dec) {
        true
    } else if spec_row(ls[k], k, width, cols, dec, 0) is Err {
        false
    } else {
        rows_reach_scale(ls, k + 1, width, cols, dec)
    }
}

/// The first trade at or after `a` whose id an earlier trade already has.
pub open spec fn first_repeat(ids: Seq<Seq<char>>, a: int) -> Option<int>
    decreases ids.len() - a,
{
    if a < 0 || a >= ids.len() {
        None
    } else if exists|b: int| 0 <= b < a && ids[b] == ids[a] {
        Some(a)
    } else {
        first_repeat(ids, a + 1)
    }
}

/// The data lines among lines `lo..hi`: those with content, in order.
pub open spec fn content_from(ls: Seq<Seq<char>>, lo: int, hi: int) -> Seq<int>
    decreases hi - lo,
{
    if hi <= lo {
        seq![]
    } else if is_content(ls[hi - 1]) {
        content_from(ls, lo, hi - 1).push(hi - 1)
    } else {
        content_from(ls, lo, hi - 1)
    }
}

/// What `parse_csv` gives for the text `t`.
pub open spec fn spec_parse_csv(t: Seq<char>, dec: nat) -> Result<
    Seq<(Seq<char>, Date, Side, u64, i64)>,
    Seq<char>,
> {
    let ls = spec_lines(t);
    let h = first_content(ls, 0);
    if h >= ls.len() {
        Err("CSV is empty"@)
    } else {
        let names = header_names(ls[h]);
        match header_columns(names) {
            Err(e) => Err(e),
            Ok(cols) => match spec_rows(ls, h + 1, names.len() as int, cols, dec, seq![]) {
                Err(e) => Err(e),
                Ok(rows) => {
                    let ids = Seq::new(rows.len(), |a: int| rows[a].0);
                    match first_repeat(ids, 0) {
                        Some(a) => Err(
                            at_line(
                                content_from(ls, h + 1, ls.len() as int)[a],
                                "trade id "@ + debug_text(ids[a]) + " appears more than once"@,
                            ),
                        ),
                        None => Ok(rows),
                    }
                },
            },
        }
    }
}

/// Reading `t` never scales a price by more than `10^38`, the largest power
/// of ten in `i128`.
pub open spec fn csv_scale_fits(t: Seq<char>, dec: nat) -> bool {
    let ls = spec_lines(t);
    let h = first_content(ls, 0);
    let names = header_names(ls[h]);
    dec <= 38 || h >= ls.len() || header_columns(names) is Err || !rows_reach_scale(
        ls,
        h + 1,
        names.len() as int,
        header_columns(names)->Ok_0,
        dec,
    )
}

/// The characters `v[a..b]`.
fn sub_chars(v: &Vec<char>, a: usize, b: usize) -> (r: Vec<char>)
    requires
        a <= b <= v.len(),
    ensures
        r@ == v@.subrange(a as int, b as int),
{
    let mut r: Vec<char> = Vec::new();
    let mut i = a;
    while i < b
        invariant
            a <= i <= b <= v.len(),
            r@ == v@.subrange(a as int, i as int),
        decreases b - i,
    {
        r.push(v[i]);
        i = i + 1;
        assert(r@ =~= v@.subrange(a as int, i as int));
    }
    r
}

/// A string holding the characters of `v`.
fn chars_to_string(v: &Vec<char>) -> (r: String)
    ensures
        r@ == v@,
{
    let mut out = String::new();
    let mut i: usize = 0;
    while i < v.len()
        invariant
            i <= v.len(),
            out@ == v@.subrange(0, i as int),
        decreases v.len() - i,
    {
        push_char(&mut out, v[i]);
        i = i + 1;
        assert(out@ =~= v@.subrange(0, i as int));
    }
    assert(v@.subrange(0, v.len() as int) =~= v@);
    out
}

/// Whether `v` holds exactly the text `s`.
fn chars_are(v: &Vec<char>, s: &str) -> (r: bool)
    ensures
        r == (v@ == s@),
{
    let w = str_chars(s);
    if v.len() != w.len() {
        return false;
    }
    let mut i: usize = 0;
    while i < v.len()
        invariant
            i <= v.len() == w.len(),
            w@ == s@,
            forall|j: int| 0 <= j < i ==> v@[j] == w@[j],
        decreases v.len() - i,
    {
        if v[i] != w[i] {
            return false;
        }
        i = i + 1;
    }
    assert(v@ =~= w@);
    true
}

/// Whether two character vectors hold the same text.
fn same_chars(v: &Vec<char>, w: &Vec<char>) -> (r: bool)
    ensures
        r == (v@ == w@),
{
    if v.len() != w.len() {
        return false;
    }
    let mut i: usize = 0;
    while i < v.len()
        invariant
            i <= v.len() == w.len(),
            forall|j: int| 0 <= j < i ==> v@[j] == w@[j],
        decreases v.len() - i,
    {
        if v[i] != w[i] {
            return false;
        }
        i = i + 1;
    }
    assert(v@ =~= w@);
    true
}

/// `cur` without a final `\r`.
fn without_cr(cur: Vec<char>) -> (r: Vec<char>)
    ensures
        r@ == strip_cr(cur@),
{
    let mut cur = cur;
    if cur.len() > 0 && cur[cur.len() - 1] == '\r' {
        cur.pop();
    }
    cur
}

/// The lines of `t`, as `str::lines` splits them.
fn split_lines(t: &Vec<char>) -> (r: Vec<Vec<char>>)
    ensures
        texts(r@) == spec_lines(t@),
{
    let mut out: Vec<Vec<char>> = Vec::new();
    let mut cur: Vec<char> = Vec::new();
    let mut i: usize = 0;
    assert(texts(out@) =~= seq![]);
    while i < t.len()
        invariant
            i <= t.len(),
            texts(out@) + lines_from(t@, i as int, cur@) == spec_lines(t@),
        decreases t.len() - i,
    {
        let ghost before = texts(out@);
        if t[i] == '\n' {
            let line = without_cr(cur);
            let ghost x = line@;
            out.push(line);
            cur = Vec::new();
            proof {
                assert(texts(out@) =~= before.push(x));
                assert(texts(out@) + lines_from(t@, (i + 1) as int, cur@) =~= before + (seq![x]
                    + lines_from(t@, (i + 1) as int, seq![])));
            }
        } else {
            cur.push(t[i]);
        }
        i = i + 1;
    }
    if cur.len() > 0 {
        let ghost before = texts(out@);
        let ghost last = cur@;
        out.push(cur);
        proof {
            assert(texts(out@) =~= before + seq![last]);
        }
    } else {
        assert(texts(out@) + seq![] =~= texts(out@));
    }
    out
}

/// The pieces of `l` between commas.
fn split_at_commas(l: &Vec<char>) -> (r: Vec<Vec<char>>)
    ensures
        texts(r@) == split_commas(l@),
{
    let mut out: Vec<Vec<char>> = Vec::new();
    let mut cur: Vec<char> = Vec::new();
    let mut i: usize = 0;
    assert(texts(out@) =~= seq![]);
    while i < l.len()
        invariant
            i <= l.len(),
            texts(out@) + split_from(l@, i as int, cur@) == split_commas(l@),
        decreases l.len() - i,
    {
        let ghost before = texts(out@);
        if l[i] == ',' {
            let ghost x = cur@;
            out.push(cur);
            cur = Vec::new();
            proof {
                assert(texts(out@) + split_from(l@, (i + 1) as int, cur@) =~= before + (seq![x]
                    + split_from(l@, (i + 1) as int, seq![])));
            }
        } else {
            cur.push(l[i]);
        }
        i = i + 1;
    }
    let ghost before = texts(out@);
    let ghost last = cur@;
    out.push(cur);
    assert(texts(out@) =~= before + seq![last]);
    out
}

/// A field without surrounding white space and enclosing double quotes.
fn unquote_chars(f: &Vec<char>) -> (r: Vec<char>)
    ensures
        r@ == unquote(f@),
{
    let (a, b) = trim_bounds(f);
    if b - a >= 2 && f[a] == '"' && f[b - 1] == '"' {
        let r = sub_chars(f, a + 1, b - 1);
        assert(r@ =~= trim(f@).subrange(1, trim(f@).len() - 1));
        r
    } else {
        sub_chars(f, a, b)
    }
}

/// `v` with ASCII capitals made small.
fn lower_chars(v: &Vec<char>) -> (r: Vec<char>)
    ensures
        r@ == lower(v@),
{
    let mut r: Vec<char> = Vec::new();
    let mut i: usize = 0;
    while i < v.len()
        invariant
            i <= v.len(),
            r@ == lower(v@).subrange(0, i as int),
        decreases v.len() - i,
    {
        let c = v[i];
        let u = c as u32;
        let d = if 65 <= u && u <= 90 {
            ((u + 32) as u8) as char
        } else {
            c
        };
        r.push(d);
        i = i + 1;
        assert(r@ =~= lower(v@).subrange(0, i as int));
    }
    assert(lower(v@).subrange(0, v.len() as int) =~= lower(v@));
    r
}

/// The fields of a data row.
fn fields_of(l: &Vec<char>) -> (r: Vec<Vec<char>>)
    ensures
        texts(r@) == row_fields(l@),
{
    let parts = split_at_commas(l);
    let mut r: Vec<Vec<char>> = Vec::new();
    let mut k: usize = 0;
    while k < parts.len()
        invariant
            k <= parts.len(),
            texts(parts@) == split_commas(l@),
            texts(r@) == row_fields(l@).subrange(0, k as int),
        decreases parts.len() - k,
    {
        let f = unquote_chars(&parts[k]);
        proof {
            assert(parts@[k as int]@ == split_commas(l@)[k as int]);
        }
        let ghost before = texts(r@);
        let ghost x = f@;
        r.push(f);
        assert(texts(r@) =~= before.push(x));
        k = k + 1;
        assert(texts(r@) =~= row_fields(l@).subrange(0, k as int));
    }
    assert(row_fields(l@).subrange(0, parts.len() as int) =~= row_fields(l@));
    r
}

/// The column names of a header line.
fn names_of(l: &Vec<char>) -> (r: Vec<Vec<char>>)
    ensures
        texts(r@) == header_names(l@),
{
    let parts = split_at_commas(l);
    let mut r: Vec<Vec<char>> = Vec::new();
    let mut k: usize = 0;
    while k < parts.len()
        invariant
            k <= parts.len(),
            texts(parts@) == split_commas(l@),
            texts(r@) == header_names(l@).subrange(0, k as int),
        decreases parts.len() - k,
    {
        let f = unquote_chars(&parts[k]);
        let g = lower_chars(&f);
        proof {
            assert(parts@[k as int]@ == split_commas(l@)[k as int]);
        }
        let ghost before = texts(r@);
        let ghost x = g@;
        r.push(g);
        assert(texts(r@) =~= before.push(x));
        k = k + 1;
        assert(texts(r@) =~= header_names(l@).subrange(0, k as int));
    }
    assert(header_names(l@).subrange(0, parts.len() as int) =~= header_names(l@));
    r
}

/// Whether a line is neither blank nor a comment.
fn content_line(l: &Vec<char>) -> (r: bool)
    ensures
        r == is_content(l@),
{
    let (a, b) = trim_bounds(l);
    b > a && !(a < l.len() && l[a] == '#')
}

/// Where `key` first stands among `names`.
fn position_of(names: &Vec<Vec<char>>, key: &str) -> (r: Option<usize>)
    ensures
        match r {
            Some(c) => position(texts(names@), key@, 0) == Some(c as int),
            None => position(texts(names@), key@, 0) is None,
        },
{
    let mut k: usize = 0;
    while k < names.len()
        invariant
            k <= names.len(),
            position(texts(names@), key@, 0) == position(texts(names@), key@, k as int),
        decreases names.len() - k,
    {
        if chars_are(&names[k], key) {
            return Some(k);
        }
        k = k + 1;
    }
    None
}

/// What `u64::from_str` gives for the text of `f`.
fn parse_u64_chars(f: &Vec<char>) -> (r: Option<u64>)
    ensures
        r == spec_parse_u64(f@),
{
    let start: usize = if f.len() > 0 && f[0] == '+' {
        1
    } else {
        0
    };
    let ghost d = if f@.len() > 0 && f@[0] == '+' {
        f@.drop_first()
    } else {
        f@
    };
    assert(d =~= f@.subrange(start as int, f@.len() as int));
    if start == f.len() {
        return None;
    }
    let mut acc: u64 = 0;
    let mut i = start;
    while i < f.len()
        invariant
            start <= i <= f.len(),
            start < f.len(),
            d == f@.subrange(start as int, f@.len() as int),
            d == (if f@.len() > 0 && f@[0] == '+' {
                f@.drop_first()
            } else {
                f@
            }),
            all_digits(f@.subrange(start as int, i as int)),
            acc == digits_value(f@.subrange(start as int, i as int)),
        decreases f.len() - i,
    {
        let c = f[i];
        let ghost pre = f@.subrange(start as int, i as int);
        let ghost next = f@.subrange(start as int, (i + 1) as int);
        assert(next.drop_last() =~= pre);
        let u = c as u32;
        if !(48 <= u && u <= 57) {
            assert(d[i - start] == c);
            assert(!is_digit(d[i - start]));
            assert(!all_digits(d));
            return None;
        }
        let digit = (u - 48) as u64;
        assert(digit_value(c) == digit);
        assert(digits_value(next) == acc * 10 + digit);
        if acc > (u64::MAX - digit) / 10 {
            proof {
                assert(acc * 10 + digit > u64::MAX) by (nonlinear_arith)
                    requires
                        acc > (u64::MAX - digit) / 10,
                        0 <= digit <= 9,
                ;
                lemma_digits_value_prefix(d, (i + 1 - start) as int, d.len() as int);
                assert(d.subrange(0, (i + 1 - start) as int) =~= next);
                assert(d.subrange(0, d.len() as int) =~= d);
            }
            return None;
        }
        assert(acc * 10 + digit <= u64::MAX) by (nonlinear_arith)
            requires
                acc <= (u64::MAX - digit) / 10,
                0 <= digit <= 9,
        ;
        acc = acc * 10 + digit;
        i = i + 1;
    }
    Some(acc)
}

/// What the side column reads as.
fn parse_side_chars(f: &Vec<char>) -> (r: Result<Side, String>)
    ensures
        res_view(r) == spec_parse_side(f@),
{
    let (a, b) = trim_bounds(f);
    let t = sub_chars(f, a, b);
    let l = lower_chars(&t);
    if chars_are(&l, "buy") || chars_are(&l, "b") || chars_are(&l, "purchase") || chars_are(&l, "p") {
        Ok(Side::Buy)
    } else if chars_are(&l, "sell") || chars_are(&l, "s") || chars_are(&l, "sale") {
        Ok(Side::Sell)
    } else {
        let mut e = String::from_str("side ");
        let ls = chars_to_string(&l);
        let q = debug_str(ls.as_str());
        e.append(q.as_str());
        e.append(" is not buy or sell");
        Err(e)
    }
}

/// `e` prefixed with the number of line `k` (counted from zero).
fn error_at(k: usize, e: String) -> (r: String)
    ensures
        r@ == at_line(k as int, e@),
{
    let mut out = String::from_str("line ");
    write_int(&mut out, k as i128 + 1);
    out.append(": ");
    out.append(e.as_str());
    out
}

/// Reads data row `k`, when `count` trades came before it.
fn read_row(l: &Vec<char>, k: usize, width: usize, cols: Columns, dec: u32, count: usize) -> (r: Result<
    Trade,
    String,
>)
    requires
        cols.date < width,
        cols.side < width,
        cols.shares < width,
        cols.price < width,
        cols.id matches Some(c) ==> c < width,
        count < usize::MAX,
        row_reaches_scale(l@, k as int, width as int, cols, dec as nat) ==> dec <= 38,
    ensures
        match r {
            Ok(t) => spec_row(l@, k as int, width as int, cols, dec as nat, count as int) == Ok::<
                (Seq<char>, Date, Side, u64, i64),
                Seq<char>,
            >(trade_text(t)),
            Err(e) => spec_row(l@, k as int, width as int, cols, dec as nat, count as int) == Err::<
                (Seq<char>, Date, Side, u64, i64),
                Seq<char>,
            >(e@),
        },
{
    let fields = fields_of(l);
    let ghost f = row_fields(l@);
    if fields.len() != width {
        let mut e = String::from_str("expected ");
        write_int(&mut e, width as i128);
        e.append(" fields, found ");
        write_int(&mut e, fields.len() as i128);
        return Err(error_at(k, e));
    }
    assert(fields@[cols.shares as int]@ == f[cols.shares as int]);
    assert(fields@[cols.date as int]@ == f[cols.date as int]);
    assert(fields@[cols.side as int]@ == f[cols.side as int]);
    assert(fields@[cols.price as int]@ == f[cols.price as int]);
    let shares = match parse_u64_chars(&fields[cols.shares]) {
        Some(x) => x,
        None => {
            let mut e = String::from_str("shares ");
            let text = chars_to_string(&fields[cols.shares]);
            let q = debug_str(text.as_str());
            e.append(q.as_str());
            e.append(" is not a whole number");
            return Err(error_at(k, e));
        },
    };
    if shares == 0 {
        return Err(error_at(k, String::from_str("shares must be at least 1")));
    }
    let id = match cols.id {
        Some(c) => {
            assert(fields@[c as int]@ == f[c as int]);
            chars_to_string(&fields[c])
        },
        None => {
            let mut t = String::from_str("T");
            write_int(&mut t, count as i128 + 1);
            t
        },
    };
    let date_text = chars_to_string(&fields[cols.date]);
    let date = match Date::parse(date_text.as_str()) {
        Ok(d) => d,
        Err(e) => {
            return Err(error_at(k, e));
        },
    };
    let side = match parse_side_chars(&fields[cols.side]) {
        Ok(x) => x,
        Err(e) => {
            return Err(error_at(k, e));
        },
    };
    let price_text = chars_to_string(&fields[cols.price]);
    let price = match parse_price(price_text.as_str(), dec) {
        Ok(p) => p,
        Err(e) => {
            return Err(error_at(k, e));
        },
    };
    Ok(Trade { id, date, side, shares, price })
}

/// Reads transactions from CSV text.
///
/// The first non-empty line is a header naming the columns `date`, `side`,
/// `shares`, `price` and optionally `id`, in any order. Rows without an `id`
/// column are named `T1`, `T2`, ... in file order. Lines starting with `#` are
/// ignored. Fields may be wrapped in double quotes but may not contain commas.
pub fn parse_csv(text: &str, tick_decimals: u32) -> (r: Result<Vec<Trade>, String>)
    requires
        csv_scale_fits(text@, tick_decimals as nat),
    ensures
        match r {
            Ok(v) => spec_parse_csv(text@, tick_decimals as nat) == Ok::<
                Seq<(Seq<char>, Date, Side, u64, i64)>,
                Seq<char>,
            >(trade_texts(v@)),
            Err(e) => spec_parse_csv(text@, tick_decimals as nat) == Err::<
                Seq<(Seq<char>, Date, Side, u64, i64)>,
                Seq<char>,
            >(e@),
        },
{
    let ghost dec = tick_decimals as nat;
    let chars = str_chars(text);
    let lines = split_lines(&chars);
    let ghost ls = spec_lines(text@);
    let mut h: usize = 0;
    while h < lines.len() && !content_line(&lines[h])
        invariant
            texts(lines@) == ls,
            h <= lines.len(),
            first_content(ls, 0) == first_content(ls, h as int),
        decreases lines.len() - h,
    {
        assert(lines@[h as int]@ == ls[h as int]);
        h = h + 1;
    }
    if h == lines.len() {
        return Err(String::from_str("CSV is empty"));
    }
    assert(lines@[h as int]@ == ls[h as int]);
    let names = names_of(&lines[h]);
    let ghost nv = texts(names@);
    assert(nv == header_names(ls[h as int]));
    let date_col = match position_of(&names, "date") {
        Some(c) => c,
        None => {
            return Err(String::from_str("CSV header has no \"date\" column"));
        },
    };
    let side_col = match position_of(&names, "side") {
        Some(c) => c,
        None => {
            return Err(String::from_str("CSV header has no \"side\" column"));
        },
    };
    let shares_col = match position_of(&names, "shares") {
        Some(c) => c,
        None => {
            return Err(String::from_str("CSV header has no \"shares\" column"));
        },
    };
    let price_col = match position_of(&names, "price") {
        Some(c) => c,
        None => {
            return Err(String::from_str("CSV header has no \"price\" column"));
        },
    };
    let id_col = position_of(&names, "id");
    let cols = Columns { date: date_col, side: side_col, shares: shares_col, price: price_col, id: id_col };
    proof {
        lemma_position_in_range(nv, "date"@, 0);
        lemma_position_in_range(nv, "side"@, 0);
        lemma_position_in_range(nv, "shares"@, 0);
        lemma_position_in_range(nv, "price"@, 0);
        lemma_position_in_range(nv, "id"@, 0);
    }
    assert(header_columns(nv) == Ok::<Columns, Seq<char>>(cols));
    let width = names.len();
    let mut trades: Vec<Trade> = Vec::new();
    let mut rows_at: Vec<usize> = Vec::new();
    assert(trade_texts(trades@) =~= seq![]);
    let mut k: usize = h + 1;
    assert(rows_at@.map_values(|x: usize| x as int) =~= content_from(ls, h + 1, k as int));
    while k < lines.len()
        invariant
            texts(lines@) == ls,
            rows_at@.len() == trades@.len(),
            rows_at@.map_values(|x: usize| x as int) == content_from(ls, h + 1, k as int),
            h < k <= lines.len(),
            cols.date < width,
            cols.side < width,
            cols.shares < width,
            cols.price < width,
            cols.id matches Some(c) ==> c < width,
            trades@.len() < k,
            spec_rows(ls, h + 1, width as int, cols, dec, seq![]) == spec_rows(
                ls,
                k as int,
                width as int,
                cols,
                dec,
                trade_texts(trades@),
            ),
            dec == tick_decimals as nat,
            dec <= 38 || !rows_reach_scale(ls, k as int, width as int, cols, dec),
            ls == spec_lines(text@),
            first_content(ls, 0) == h,
            h < ls.len(),
            header_names(ls[h as int]) == nv,
            nv.len() == width,
            header_columns(nv) == Ok::<Columns, Seq<char>>(cols),
        decreases lines.len() - k,
    {
        assert(lines@[k as int]@ == ls[k as int]);
        if content_line(&lines[k]) {
            let ghost before = trade_texts(trades@);
            match read_row(&lines[k], k, width, cols, tick_decimals, trades.len()) {
                Err(e) => {
                    assert(spec_rows(ls, k as int, width as int, cols, dec, before) == Err::<
                        Seq<(Seq<char>, Date, Side, u64, i64)>,
                        Seq<char>,
                    >(e@));
                    return Err(e);
                },
                Ok(t) => {
                    assert(spec_row(ls[k as int], k as int, width as int, cols, dec, 0) is Ok);
                    trades.push(t);
                    let ghost before_at = rows_at@;
                    rows_at.push(k);
                    assert(trade_texts(trades@) =~= before.push(trade_text(t)));
                    assert(rows_at@.map_values(|x: usize| x as int) =~= before_at.map_values(|x: usize| x as int).push(
                        k as int,
                    ));
                },
            }
        }
        k = k + 1;
    }
    let ghost rows = trade_texts(trades@);
    let ghost ids = Seq::new(rows.len(), |a: int| rows[a].0);
    assert(spec_rows(ls, h + 1, width as int, cols, dec, seq![]) == Ok::<
        Seq<(Seq<char>, Date, Side, u64, i64)>,
        Seq<char>,
    >(rows));
    assert(ids =~= trade_ids(trades@));
    match first_repeated_id(&trades) {
        Some(a) => {
            let mut e = String::from_str("trade id ");
            let q = debug_str(trades[a].id.as_str());
            e.append(q.as_str());
            e.append(" appears more than once");
            assert(rows_at@.map_values(|x: usize| x as int)[a as int] == rows_at@[a as int] as int);
            Err(error_at(rows_at[a], e))
        },
        None => Ok(trades),
    }
}

/// The ids of a list of trades, read as text.
pub open spec fn trade_ids(v: Seq<Trade>) -> Seq<Seq<char>> {
    Seq::new(v.len(), |a: int| v[a].id@)
}

/// The first trade whose id an earlier trade already has.
fn first_repeated_id(trades: &Vec<Trade>) -> (r: Option<usize>)
    ensures
        match r {
            Some(a) => first_repeat(trade_ids(trades@), 0) == Some(a as int) && a < trades.len(),
            None => first_repeat(trade_ids(trades@), 0) is None,
        },
{
    let ghost ids = trade_ids(trades@);
    let mut a: usize = 0;
    while a < trades.len()
        invariant
            ids == trade_ids(trades@),
            a <= trades.len(),
            first_repeat(ids, 0) == first_repeat(ids, a as int),
        decreases trades.len() - a,
    {
        let y = str_chars(trades[a].id.as_str());
        let mut b: usize = 0;
        while b < a
            invariant
                ids == trade_ids(trades@),
                b <= a < trades.len(),
                y@ == ids[a as int],
                first_repeat(ids, 0) == first_repeat(ids, a as int),
                forall|j: int| 0 <= j < b ==> ids[j] != ids[a as int],
            decreases a - b,
        {
            let x = str_chars(trades[b].id.as_str());
            if same_chars(&x, &y) {
                assert(ids[b as int] == ids[a as int]);
                return Some(a);
            }
            b = b + 1;
        }
        a = a + 1;
    }
    None
}

proof fn lemma_position_in_range(names: Seq<Seq<char>>, key: Seq<char>, k: int)
    requires
        0 <= k,
    ensures
        position(names, key, k) matches Some(c) ==> k <= c < names.len() && names[c] == key,
    decreases names.len() - k,
{
    if k < names.len() {
        lemma_position_in_range(names, key, k + 1);
    }
}

/// The word a side is written as.
pub open spec fn side_word(s: Side) -> Seq<char> {
    match s {
        Side::Buy => "buy"@,
        Side::Sell => "sell"@,
    }
}

/// One CSV row for a trade.
pub open spec fn csv_row(t: Trade, dec: nat) -> Seq<char> {
    t.id@ + ","@ + t.date.spec_text() + ","@ + side_word(t.side) + ","@ + int_text(t.shares as int)
        + ","@ + spec_format_ticks(t.price as int, dec) + "\n"@
}

/// The CSV rows of the first `k` trades.
pub open spec fn csv_rows(ts: Seq<Trade>, k: int, dec: nat) -> Seq<char>
    decreases k,
{
    if k <= 0 {
        seq![]
    } else {
        csv_rows(ts, k - 1, dec) + csv_row(ts[k - 1], dec)
    }
}

/// What `write_csv` gives.
pub open spec fn spec_write_csv(ts: Seq<Trade>, dec: nat) -> Seq<char> {
    "id,date,side,shares,price\n"@ + csv_rows(ts, ts.len() as int, dec)
}

/// One CSV row for a trade.
fn csv_line(t: &Trade, dec: u32) -> (r: String)
    requires
        dec <= 38,
    ensures
        r@ == csv_row(*t, dec as nat),
{
    let mut out = String::new();
    out.append(t.id.as_str());
    out.append(",");
    let d = t.date.to_string();
    out.append(d.as_str());
    out.append(",");
    match t.side {
        Side::Buy => out.append("buy"),
        Side::Sell => out.append("sell"),
    }
    out.append(",");
    write_int(&mut out, t.shares as i128);
    out.append(",");
    let p = format_ticks(t.price as i128, dec);
    out.append(p.as_str());
    out.append("\n");
    assert(out@ =~= csv_row(*t, dec as nat));
    out
}

/// Writes trades as CSV with an `id` column, prices with `tick_decimals` places.
pub fn write_csv(trades: &[Trade], tick_decimals: u32) -> (r: String)
    requires
        trades@.len() > 0 ==> tick_decimals <= 38,
    ensures
        r@ == spec_write_csv(trades@, tick_decimals as nat),
{
    let mut out = String::from_str("id,date,side,shares,price\n");
    let mut i: usize = 0;
    while i < trades.len()
        invariant
            i <= trades.len(),
            trades@.len() > 0 ==> tick_decimals <= 38,
            out@ == "id,date,side,shares,price\n"@ + csv_rows(trades@, i as int, tick_decimals as nat),
        decreases trades.len() - i,
    {
        let ghost before = out@;
        let row = csv_line(&trades[i], tick_decimals);
        out.append(row.as_str());
        assert(out@ =~= before + csv_row(trades@[i as int], tick_decimals as nat));
        i = i + 1;
    }
    out
}

/// Reading lines from an index past a prefix reads the rest alone.
proof fn lemma_lines_shift(p: Seq<char>, u: Seq<char>, j: int, cur: Seq<char>)
    requires
        0 <= j <= u.len(),
    ensures
        lines_from(p + u, p.len() + j, cur) == lines_from(u, j, cur),
    decreases u.len() - j,
{
    if j < u.len() {
        assert((p + u)[p.len() + j] == u[j]);
        if u[j] == '\n' {
            lemma_lines_shift(p, u, j + 1, seq![]);
        } else {
            lemma_lines_shift(p, u, j + 1, cur.push(u[j]));
        }
    }
}

/// One line and its `\n` read as that line.
proof fn lemma_lines_one(l: Seq<char>, i: int, cur: Seq<char>)
    requires
        0 <= i <= l.len(),
        forall|k: int| i <= k < l.len() ==> l[k] != '\n',
    ensures
        lines_from(l + seq!['\n'], i, cur) == seq![strip_cr(cur + l.subrange(i, l.len() as int))],
    decreases l.len() - i,
{
    let t = l + seq!['\n'];
    if i < l.len() {
        assert(t[i] == l[i]);
        lemma_lines_one(l, i + 1, cur.push(l[i]));
        assert(cur.push(l[i]) + l.subrange(i + 1, l.len() as int) =~= cur + l.subrange(i, l.len() as int));
    } else {
        assert(t[i] == '\n');
        assert(lines_from(t, i + 1, seq![]) == Seq::<Seq<char>>::empty());
        assert(cur + l.subrange(i, l.len() as int) =~= cur);
        assert(seq![strip_cr(cur)] + Seq::<Seq<char>>::empty() =~= seq![strip_cr(cur)]);
    }
}

/// Text that ends a line, followed by more text, reads as the lines of each.
proof fn lemma_lines_append(t: Seq<char>, u: Seq<char>, i: int, cur: Seq<char>)
    requires
        0 <= i <= t.len(),
        t.len() > 0 ==> t.last() == '\n',
        i == t.len() ==> cur.len() == 0,
    ensures
        lines_from(t + u, i, cur) == lines_from(t, i, cur) + lines_from(u, 0, seq![]),
    decreases t.len() - i,
{
    if i == t.len() {
        lemma_lines_shift(t, u, 0, seq![]);
        assert(cur =~= Seq::<char>::empty());
        assert(lines_from(t + u, i, cur) == lines_from(u, 0, seq![]));
        assert(lines_from(t, i, cur) == Seq::<Seq<char>>::empty());
        assert(Seq::<Seq<char>>::empty() + lines_from(u, 0, seq![]) =~= lines_from(u, 0, seq![]));
    } else {
        assert((t + u)[i] == t[i]);
        if t[i] == '\n' {
            lemma_lines_append(t, u, i + 1, seq![]);
            assert(seq![strip_cr(cur)] + (lines_from(t, i + 1, seq![]) + lines_from(u, 0, seq![]))
                =~= (seq![strip_cr(cur)] + lines_from(t, i + 1, seq![])) + lines_from(u, 0, seq![]));
        } else {
            assert(i + 1 < t.len());
            lemma_lines_append(t, u, i + 1, cur.push(t[i]));
        }
    }
}

/// Splitting at commas from an index past a prefix splits the rest alone.
proof fn lemma_split_shift(p: Seq<char>, u: Seq<char>, j: int, cur: Seq<char>)
    requires
        0 <= j <= u.len(),
    ensures
        split_from(p + u, p.len() + j, cur) == split_from(u, j, cur),
    decreases u.len() - j,
{
    if j < u.len() {
        assert((p + u)[p.len() + j] == u[j]);
        if u[j] == ',' {
            lemma_split_shift(p, u, j + 1, seq![]);
        } else {
            lemma_split_shift(p, u, j + 1, cur.push(u[j]));
        }
    }
}

/// Text without a comma is a single piece.
proof fn lemma_split_last(a: Seq<char>, i: int, cur: Seq<char>)
    requires
        0 <= i <= a.len(),
        forall|k: int| i <= k < a.len() ==> a[k] != ',',
    ensures
        split_from(a, i, cur) == seq![cur + a.subrange(i, a.len() as int)],
    decreases a.len() - i,
{
    if i < a.len() {
        lemma_split_last(a, i + 1, cur.push(a[i]));
        assert(cur.push(a[i]) + a.subrange(i + 1, a.len() as int) =~= cur + a.subrange(i, a.len() as int));
    } else {
        assert(cur + a.subrange(i, a.len() as int) =~= cur);
    }
}

/// A piece without a comma, a comma, then more text: the piece comes first.
proof fn lemma_split_first(a: Seq<char>, b: Seq<char>, i: int, cur: Seq<char>)
    requires
        0 <= i <= a.len(),
        forall|k: int| i <= k < a.len() ==> a[k] != ',',
    ensures
        split_from(a + seq![','] + b, i, cur) == seq![cur + a.subrange(i, a.len() as int)] + split_from(
            b,
            0,
            seq![],
        ),
    decreases a.len() - i,
{
    let t = a + seq![','] + b;
    if i < a.len() {
        assert(t[i] == a[i]);
        lemma_split_first(a, b, i + 1, cur.push(a[i]));
        assert(cur.push(a[i]) + a.subrange(i + 1, a.len() as int) =~= cur + a.subrange(i, a.len() as int));
    } else {
        assert(t[i] == ',');
        assert(t =~= (a + seq![',']) + b);
        lemma_split_shift(a + seq![','], b, 0, seq![]);
        assert(cur + a.subrange(i, a.len() as int) =~= cur);
    }
}

/// An id that a CSV row carries unchanged: no comma or line break in it, no
/// white space around it, not wrapped in double quotes, and no `#` in front.
pub open spec fn csv_safe_id(s: Seq<char>) -> bool {
    &&& forall|k: int| 0 <= k < s.len() ==> #[trigger] s[k] != ',' && s[k] != '\n'
    &&& s.len() > 0 ==> !is_white(s[0]) && !is_white(s.last()) && s[0] != '#'
    &&& !(s.len() >= 2 && s[0] == '"' && s.last() == '"')
}

/// The CSV row of a trade without its line ending.
pub open spec fn csv_row_text(t: Trade, dec: nat) -> Seq<char> {
    t.id@ + ","@ + t.date.spec_text() + ","@ + side_word(t.side) + ","@ + int_text(t.shares as int)
        + ","@ + spec_format_ticks(t.price as int, dec)
}

/// The columns of the header that `write_csv` writes.
pub open spec fn written_columns() -> Columns {
    Columns { date: 1, side: 2, shares: 3, price: 4, id: Some(0) }
}

/// A field with no white space around it and no leading double quote is read as it is.
proof fn lemma_unquote_plain(f: Seq<char>)
    requires
        f.len() > 0,
        !is_white(f[0]),
        !is_white(f.last()),
        f[0] != '"',
    ensures
        trim(f) == f,
        unquote(f) == f,
{
    assert(trim_start(f) == f);
    assert(trim_end(f) == f);
}

/// Text without commas or line breaks.
spec fn no_separator(s: Seq<char>) -> bool {
    forall|k: int| 0 <= k < s.len() ==> #[trigger] s[k] != ',' && s[k] != '\n'
}

/// The fields of a trade's CSV row after the id: no separators in them, and
/// no white space or double quote at their ends.
proof fn lemma_row_field_chars(t: Trade, dec: nat)
    requires
        t.date.in_range(),
        t.shares >= 1,
        0 <= t.price <= MAX_PRICE_TICKS,
    ensures
        no_separator(t.date.spec_text()),
        no_separator(side_word(t.side)),
        no_separator(int_text(t.shares as int)),
        no_separator(spec_format_ticks(t.price as int, dec)),
        unquote(t.date.spec_text()) == t.date.spec_text(),
        unquote(side_word(t.side)) == side_word(t.side),
        unquote(int_text(t.shares as int)) == int_text(t.shares as int),
        unquote(spec_format_ticks(t.price as int, dec)) == spec_format_ticks(t.price as int, dec),
        spec_format_ticks(t.price as int, dec).len() > 0,
        is_digit(spec_format_ticks(t.price as int, dec).last()),
{
    let d = t.date.spec_text();
    let w = side_word(t.side);
    let n = int_text(t.shares as int);
    let f = spec_format_ticks(t.price as int, dec);
    reveal_strlit("buy");
    reveal_strlit("sell");
    lemma_date_text_chars(t.date);
    lemma_format_ticks_chars(t.price, dec);
    lemma_decimal(t.shares as nat);
    assert(n == decimal(t.shares as nat));
    assert(forall|k: int| 0 <= k < n.len() ==> is_digit(#[trigger] n[k]));
    lemma_unquote_plain(d);
    lemma_unquote_plain(w);
    lemma_unquote_plain(n);
    lemma_unquote_plain(f);
}

/// The id is read back as it is.
proof fn lemma_unquote_id(id: Seq<char>)
    requires
        csv_safe_id(id),
    ensures
        unquote(id) == id,
{
    assert(trim_start(id) == id);
    assert(trim_end(id) == id);
}

/// Five pieces without separators, joined by commas, split back into them.
proof fn lemma_split_five(a: Seq<char>, b: Seq<char>, c: Seq<char>, d: Seq<char>, e: Seq<char>)
    requires
        no_separator(a),
        no_separator(b),
        no_separator(c),
        no_separator(d),
        no_separator(e),
    ensures
        split_commas(a + seq![','] + (b + seq![','] + (c + seq![','] + (d + seq![','] + e))))
            == seq![a, b, c, d, e],
{
    let r4 = d + seq![','] + e;
    let r3 = c + seq![','] + r4;
    let r2 = b + seq![','] + r3;
    lemma_split_first(a, r2, 0, seq![]);
    lemma_split_first(b, r3, 0, seq![]);
    lemma_split_first(c, r4, 0, seq![]);
    lemma_split_first(d, e, 0, seq![]);
    lemma_split_last(e, 0, seq![]);
    assert(Seq::<char>::empty() + a.subrange(0, a.len() as int) =~= a);
    assert(Seq::<char>::empty() + b.subrange(0, b.len() as int) =~= b);
    assert(Seq::<char>::empty() + c.subrange(0, c.len() as int) =~= c);
    assert(Seq::<char>::empty() + d.subrange(0, d.len() as int) =~= d);
    assert(Seq::<char>::empty() + e.subrange(0, e.len() as int) =~= e);
    assert(split_commas(a + seq![','] + r2) =~= seq![a, b, c, d, e]);
}

/// Five pieces joined by commas.
spec fn joined(a: Seq<char>, b: Seq<char>, c: Seq<char>, d: Seq<char>, e: Seq<char>) -> Seq<char> {
    a + ","@ + b + ","@ + c + ","@ + d + ","@ + e
}

/// The comma joins, grouped from the right.
proof fn lemma_joined_shape(a: Seq<char>, b: Seq<char>, c: Seq<char>, d: Seq<char>, e: Seq<char>)
    ensures
        joined(a, b, c, d, e) == a + seq![','] + (b + seq![','] + (c + seq![','] + (d + seq![','] + e))),
{
    reveal_strlit(",");
    assert(joined(a, b, c, d, e) =~= a + seq![','] + (b + seq![','] + (c + seq![','] + (d + seq![','] + e))));
}

/// Five pieces as one data line: no line break, content, nothing to strip.
proof fn lemma_joined_line(a: Seq<char>, b: Seq<char>, c: Seq<char>, d: Seq<char>, e: Seq<char>)
    requires
        no_newline(a),
        no_newline(b),
        no_newline(c),
        no_newline(d),
        no_newline(e),
        a.len() > 0 ==> !is_white(a[0]) && a[0] != '#',
        e.len() > 0,
        !is_white(e.last()),
        e.last() != '\r',
    ensures
        is_content(joined(a, b, c, d, e)),
        no_newline(joined(a, b, c, d, e)),
        strip_cr(joined(a, b, c, d, e)) == joined(a, b, c, d, e),
{
    lemma_joined_shape(a, b, c, d, e);
    let r4 = d + seq![','] + e;
    let r3 = c + seq![','] + r4;
    let r2 = b + seq![','] + r3;
    let body = a + seq![','] + r2;
    lemma_no_newline_join(d, e);
    lemma_no_newline_join(c, r4);
    lemma_no_newline_join(b, r3);
    lemma_no_newline_join(a, r2);
    assert(body.last() == e.last());
    assert(!is_white(body[0]) && body[0] != '#') by {
        if a.len() > 0 {
            assert(body[0] == a[0]);
        } else {
            assert(body[0] == ',');
        }
    }
    assert(trim_start(body) == body);
    assert(trim_end(body) == body);
}

/// The pieces of a trade's CSV row between commas.
proof fn lemma_row_parts(t: Trade, dec: nat)
    requires
        csv_safe_id(t.id@),
        t.date.in_range(),
        t.shares >= 1,
        0 <= t.price <= MAX_PRICE_TICKS,
    ensures
        split_commas(csv_row_text(t, dec)) == seq![
            t.id@,
            t.date.spec_text(),
            side_word(t.side),
            int_text(t.shares as int),
            spec_format_ticks(t.price as int, dec),
        ],
{
    lemma_row_field_chars(t, dec);
    assert(no_separator(t.id@));
    let d = t.date.spec_text();
    let w = side_word(t.side);
    let n = int_text(t.shares as int);
    let f = spec_format_ticks(t.price as int, dec);
    assert(csv_row_text(t, dec) == joined(t.id@, d, w, n, f));
    lemma_joined_shape(t.id@, d, w, n, f);
    lemma_split_five(t.id@, d, w, n, f);
}

/// The fields of a trade's CSV row.
proof fn lemma_row_fields(t: Trade, dec: nat)
    requires
        csv_safe_id(t.id@),
        t.date.in_range(),
        t.shares >= 1,
        0 <= t.price <= MAX_PRICE_TICKS,
    ensures
        row_fields(csv_row_text(t, dec)) == seq![
            t.id@,
            t.date.spec_text(),
            side_word(t.side),
            int_text(t.shares as int),
            spec_format_ticks(t.price as int, dec),
        ],
{
    lemma_row_parts(t, dec);
    lemma_row_field_chars(t, dec);
    lemma_unquote_id(t.id@);
    assert(row_fields(csv_row_text(t, dec)) =~= seq![
        t.id@,
        t.date.spec_text(),
        side_word(t.side),
        int_text(t.shares as int),
        spec_format_ticks(t.price as int, dec),
    ]);
}

/// A trade's CSV row is one data line.
proof fn lemma_row_line(t: Trade, dec: nat)
    requires
        csv_safe_id(t.id@),
        t.date.in_range(),
        t.shares >= 1,
        0 <= t.price <= MAX_PRICE_TICKS,
    ensures
        is_content(csv_row_text(t, dec)),
        no_newline(csv_row_text(t, dec)),
        strip_cr(csv_row_text(t, dec)) == csv_row_text(t, dec),
{
    lemma_row_field_chars(t, dec);
    let d = t.date.spec_text();
    let w = side_word(t.side);
    let n = int_text(t.shares as int);
    let f = spec_format_ticks(t.price as int, dec);
    assert(no_newline(t.id@) && no_newline(d) && no_newline(w) && no_newline(n) && no_newline(f));
    assert(csv_row_text(t, dec) == joined(t.id@, d, w, n, f));
    lemma_joined_line(t.id@, d, w, n, f);
}

/// The word `write_csv` writes for a side reads back as that side.
proof fn lemma_side_word_reads(side: Side)
    ensures
        spec_parse_side(side_word(side)) == Ok::<Side, Seq<char>>(side),
{
    reveal_strlit("buy");
    reveal_strlit("sell");
    reveal_strlit("b");
    reveal_strlit("purchase");
    reveal_strlit("p");
    let w = side_word(side);
    assert(trim_start(w) == w);
    assert(trim_end(w) == w);
    assert(lower(trim(w)) =~= w);
}

/// A trade's CSV row reads back as the trade.
proof fn lemma_row_reads(t: Trade, k: int, dec: nat, count: int)
    requires
        csv_safe_id(t.id@),
        t.date.in_range(),
        t.shares >= 1,
        0 <= t.price <= MAX_PRICE_TICKS,
    ensures
        spec_row(csv_row_text(t, dec), k, 5, written_columns(), dec, count) == Ok::<
            (Seq<char>, Date, Side, u64, i64),
            Seq<char>,
        >(trade_text(t)),
{
    lemma_row_fields(t, dec);
    let f = row_fields(csv_row_text(t, dec));
    let n = int_text(t.shares as int);
    lemma_decimal(t.shares as nat);
    assert(n == decimal(t.shares as nat));
    assert(is_digit(n[0]));
    assert(f[3] == n);
    assert(spec_parse_u64(n) == Some(t.shares));
    law_date_text_round_trip(t.date);
    lemma_side_word_reads(t.side);
    law_price_text_round_trip(t.price, dec);
}

/// Trades that a CSV file written by `write_csv` can carry: ids that a row
/// holds unchanged, dates in range, at least one share, and prices in range.
pub open spec fn csv_writable(ts: Seq<Trade>) -> bool {
    forall|k: int|
        0 <= k < ts.len() ==> csv_safe_id(#[trigger] ts[k].id@) && ts[k].date.in_range()
            && ts[k].shares >= 1 && 0 <= ts[k].price <= MAX_PRICE_TICKS
}

/// The header line `write_csv` writes.
spec fn written_header() -> Seq<char> {
    "id,date,side,shares,price"@
}

/// The lines of the first `k` rows that `write_csv` writes, header first.
spec fn written_lines(ts: Seq<Trade>, k: int, dec: nat) -> Seq<Seq<char>> {
    seq![written_header()] + Seq::new(k as nat, |j: int| csv_row_text(ts[j], dec))
}

/// The header reads as the written columns and is a content line.
proof fn lemma_header_reads()
    ensures
        is_content(written_header()),
        no_newline(written_header()),
        strip_cr(written_header()) == written_header(),
        header_names(written_header()).len() == 5,
        header_columns(header_names(written_header())) == Ok::<Columns, Seq<char>>(written_columns()),
{
    reveal_strlit("id,date,side,shares,price");
    reveal_strlit("id");
    reveal_strlit("date");
    reveal_strlit("side");
    reveal_strlit("shares");
    reveal_strlit("price");
    let h = written_header();
    let a = "id"@;
    let b = "date"@;
    let c = "side"@;
    let d = "shares"@;
    let e = "price"@;
    assert(h =~= joined(a, b, c, d, e)) by {
        reveal_strlit(",");
    }
    assert(no_separator(a) && no_separator(b) && no_separator(c) && no_separator(d) && no_separator(e));
    lemma_joined_shape(a, b, c, d, e);
    lemma_split_five(a, b, c, d, e);
    assert(no_newline(a) && no_newline(b) && no_newline(c) && no_newline(d) && no_newline(e));
    lemma_joined_line(a, b, c, d, e);
    lemma_unquote_plain(a);
    lemma_unquote_plain(b);
    lemma_unquote_plain(c);
    lemma_unquote_plain(d);
    lemma_unquote_plain(e);
    assert(lower(a) =~= a);
    assert(lower(b) =~= b);
    assert(lower(c) =~= c);
    assert(lower(d) =~= d);
    assert(lower(e) =~= e);
    let names = header_names(h);
    assert(names =~= seq![a, b, c, d, e]);
    reveal_with_fuel(position, 6);
    assert(position(names, b, 0) == Some(1int));
    assert(position(names, c, 0) == Some(2int));
    assert(position(names, d, 0) == Some(3int));
    assert(position(names, e, 0) == Some(4int));
    assert(position(names, a, 0) == Some(0int));
}

/// The text `write_csv` gives for the first `k` trades reads as its lines.
#[verifier::rlimit(40)]
proof fn lemma_written_lines(ts: Seq<Trade>, k: int, dec: nat)
    requires
        csv_writable(ts),
        0 <= k <= ts.len(),
    ensures
        spec_lines("id,date,side,shares,price\n"@ + csv_rows(ts, k, dec)) == written_lines(ts, k, dec),
        ("id,date,side,shares,price\n"@ + csv_rows(ts, k, dec)).last() == '\n',
        ("id,date,side,shares,price\n"@ + csv_rows(ts, k, dec)).len() > 0,
    decreases k,
{
    reveal_strlit("id,date,side,shares,price\n");
    reveal_strlit("id,date,side,shares,price");
    let top = "id,date,side,shares,price\n"@;
    let text = top + csv_rows(ts, k, dec);
    lemma_header_reads();
    if k == 0 {
        assert(text =~= written_header() + seq!['\n']);
        lemma_lines_one(written_header(), 0, seq![]);
        assert(Seq::<char>::empty() + written_header().subrange(0, written_header().len() as int)
            =~= written_header());
        assert(written_lines(ts, 0, dec) =~= seq![written_header()]);
    } else {
        lemma_written_lines(ts, k - 1, dec);
        let prev = top + csv_rows(ts, k - 1, dec);
        let t = ts[k - 1];
        lemma_row_line(t, dec);
        reveal_strlit("\n");
        assert(csv_row(t, dec) =~= csv_row_text(t, dec) + seq!['\n']);
        assert(text =~= prev + csv_row(t, dec));
        lemma_lines_append(prev, csv_row(t, dec), 0, seq![]);
        lemma_lines_one(csv_row_text(t, dec), 0, seq![]);
        assert(Seq::<char>::empty() + csv_row_text(t, dec).subrange(0, csv_row_text(t, dec).len() as int)
            =~= csv_row_text(t, dec));
        assert(written_lines(ts, k, dec) =~= written_lines(ts, k - 1, dec).push(csv_row_text(t, dec)));
        assert(text.last() == csv_row(t, dec).last());
    }
}

/// Reading the rows of the lines from line `j + 1` on, after the first `j`
/// trades were read, reads all of them.
proof fn lemma_written_rows(ts: Seq<Trade>, dec: nat, j: int)
    requires
        csv_writable(ts),
        0 <= j <= ts.len(),
    ensures
        spec_rows(written_lines(ts, ts.len() as int, dec), j + 1, 5, written_columns(), dec, trade_texts(ts).take(j))
            == Ok::<Seq<(Seq<char>, Date, Side, u64, i64)>, Seq<char>>(trade_texts(ts)),
    decreases ts.len() - j,
{
    let ls = written_lines(ts, ts.len() as int, dec);
    if j == ts.len() {
        assert(trade_texts(ts).take(j) =~= trade_texts(ts));
    } else {
        let t = ts[j];
        assert(ls[j + 1] == csv_row_text(t, dec));
        lemma_row_line(t, dec);
        lemma_row_reads(t, j + 1, dec, j);
        assert(trade_texts(ts).take(j).push(trade_text(t)) =~= trade_texts(ts).take(j + 1));
        lemma_written_rows(ts, dec, j + 1);
    }
}

/// No id from `a` on repeats an earlier one when all ids differ.
proof fn lemma_no_repeat(ids: Seq<Seq<char>>, a: int)
    requires
        0 <= a,
        forall|x: int, y: int| 0 <= x < y < ids.len() ==> ids[x] != ids[y],
    ensures
        first_repeat(ids, a) is None,
    decreases ids.len() - a,
{
    if a < ids.len() {
        lemma_no_repeat(ids, a + 1);
    }
}

/// What `write_csv` writes, `parse_csv` reads back as the same trades, when
/// each trade can be written as a row and no two trades share an id.
pub proof fn law_csv_round_trip(ts: Seq<Trade>, dec: nat)
    requires
        csv_writable(ts),
        forall|a: int, b: int| 0 <= a < b < ts.len() ==> ts[a].id@ != ts[b].id@,
    ensures
        spec_parse_csv(spec_write_csv(ts, dec), dec) == Ok::<
            Seq<(Seq<char>, Date, Side, u64, i64)>,
            Seq<char>,
        >(trade_texts(ts)),
{
    let n = ts.len() as int;
    let t = spec_write_csv(ts, dec);
    lemma_written_lines(ts, n, dec);
    let ls = spec_lines(t);
    assert(ls == written_lines(ts, n, dec));
    lemma_header_reads();
    assert(ls[0] == written_header());
    assert(first_content(ls, 0) == 0);
    lemma_written_rows(ts, dec, 0);
    assert(trade_texts(ts).take(0) =~= Seq::<(Seq<char>, Date, Side, u64, i64)>::empty());
    let rows = trade_texts(ts);
    let ids = Seq::new(rows.len(), |a: int| rows[a].0);
    lemma_no_repeat(ids, 0);
}

/// Text without line breaks.
spec fn no_newline(s: Seq<char>) -> bool {
    forall|k: int| 0 <= k < s.len() ==> #[trigger] s[k] != '\n'
}

/// Two pieces without line breaks, joined by a comma, have none.
proof fn lemma_no_newline_join(a: Seq<char>, b: Seq<char>)
    requires
        no_newline(a),
        no_newline(b),
    ensures
        no_newline(a + seq![','] + b),
{
    let t = a + seq![','] + b;
    assert forall|k: int| 0 <= k < t.len() implies #[trigger] t[k] != '\n' by {
        if k < a.len() {
            assert(t[k] == a[k]);
        } else if k > a.len() {
            assert(t[k] == b[k - a.len() - 1]);
        }
    }
}

/// A lower-case hexadecimal digit.
pub open spec fn hex_digit(d: int) -> char {
    if d < 10 {
        (48 + d) as char
    } else {
        (87 + d) as char
    }
}

/// How a character is written inside a JSON string.
pub open spec fn json_char(c: char) -> Seq<char> {
    let u = c as u32 as int;
    if c == '"' {
        "\\\""@
    } else if c == '\\' {
        "\\\\"@
    } else if c == '\n' {
        "\\n"@
    } else if c == '\r' {
        "\\r"@
    } else if c == '\t' {
        "\\t"@
    } else if u < 0x20 {
        "\\u"@ + seq![
            hex_digit(u / 4096),
            hex_digit((u / 256) % 16),
            hex_digit((u / 16) % 16),
            hex_digit(u % 16),
        ]
    } else {
        seq![c]
    }
}

/// The escaped first `k` characters of `s`.
pub open spec fn json_chars(s: Seq<char>, k: int) -> Seq<char>
    decreases k,
{
    if k <= 0 {
        seq![]
    } else {
        json_chars(s, k - 1) + json_char(s[k - 1])
    }
}

/// `s` as a JSON string literal.
pub open spec fn spec_json_string(s: Seq<char>) -> Seq<char> {
    "\""@ + json_chars(s, s.len() as int) + "\""@
}

/// A hexadecimal digit for `d` in `0..16`.
fn hex_char(d: u32) -> (c: char)
    requires
        d < 16,
    ensures
        c == hex_digit(d as int),
{
    if d < 10 {
        ((48 + d) as u8) as char
    } else {
        ((87 + d) as u8) as char
    }
}

/// `s` as a JSON string literal, quoted and escaped.
pub fn json_string(s: &str) -> (r: String)
    ensures
        r@ == spec_json_string(s@),
{
    let v = str_chars(s);
    let mut out = String::from_str("\"");
    let mut i: usize = 0;
    while i < v.len()
        invariant
            i <= v.len(),
            v@ == s@,
            out@ == "\""@ + json_chars(s@, i as int),
        decreases v.len() - i,
    {
        let c = v[i];
        let u = c as u32;
        let ghost before = out@;
        if c == '"' {
            out.append("\\\"");
        } else if c == '\\' {
            out.append("\\\\");
        } else if c == '\n' {
            out.append("\\n");
        } else if c == '\r' {
            out.append("\\r");
        } else if c == '\t' {
            out.append("\\t");
        } else if u < 0x20 {
            out.append("\\u");
            push_char(&mut out, hex_char(u / 4096));
            push_char(&mut out, hex_char((u / 256) % 16));
            push_char(&mut out, hex_char((u / 16) % 16));
            push_char(&mut out, hex_char(u % 16));
        } else {
            push_char(&mut out, c);
        }
        assert(out@ =~= before + json_char(s@[i as int]));
        i = i + 1;
    }
    out.append("\"");
    out
}

/// Formatting `ticks` with `dec` places stays clear of the one value it cannot negate.
pub open spec fn ticks_ok(ticks: int, dec: nat) -> bool {
    dec == 0 || ticks != i128::MIN
}

/// Every pair names two trades of `ts` and has a profit that can be formatted.
pub open spec fn pairs_printable(ts: Seq<Trade>, pairs: Seq<MatchedPair>, dec: nat) -> bool {
    forall|k: int|
        0 <= k < pairs.len() ==> #[trigger] pairs[k].purchase < ts.len() && pairs[k].sale < ts.len()
            && ticks_ok(pairs[k].profit as int, dec)
}

/// One matched pair as a JSON object.
pub open spec fn pair_json(ts: Seq<Trade>, q: MatchedPair, dec: nat, indent: Seq<char>) -> Seq<char> {
    let b = ts[q.purchase as int];
    let s = ts[q.sale as int];
    indent + "  {\"purchase_id\": "@ + spec_json_string(b.id@) + ", \"purchase_date\": \""@
        + b.date.spec_text() + "\", \"purchase_price\": \""@ + spec_format_ticks(b.price as int, dec)
        + "\", \"sale_id\": "@ + spec_json_string(s.id@) + ", \"sale_date\": \""@ + s.date.spec_text()
        + "\", \"sale_price\": \""@ + spec_format_ticks(s.price as int, dec) + "\", \"shares\": "@
        + int_text(q.shares as int) + ", \"profit\": \""@ + spec_format_ticks(q.profit as int, dec)
        + "\"}"@
}

/// The first `k` pairs as JSON lines.
pub open spec fn pair_lines(
    ts: Seq<Trade>,
    pairs: Seq<MatchedPair>,
    k: int,
    dec: nat,
    indent: Seq<char>,
) -> Seq<char>
    decreases k,
{
    if k <= 0 {
        seq![]
    } else {
        pair_lines(ts, pairs, k - 1, dec, indent) + pair_json(ts, pairs[k - 1], dec, indent) + (if k
            < pairs.len() {
            ",\n"@
        } else {
            "\n"@
        })
    }
}

/// A list of pairs as a JSON array.
pub open spec fn spec_pairs_json(ts: Seq<Trade>, pairs: Seq<MatchedPair>, dec: nat, indent: Seq<char>) -> Seq<
    char,
> {
    if pairs.len() == 0 {
        "[]"@
    } else {
        "[\n"@ + pair_lines(ts, pairs, pairs.len() as int, dec, indent) + indent + "]"@
    }
}

/// One matched pair as a JSON object.
fn pair_line(trades: &[Trade], q: &MatchedPair, dec: u32, indent: &str) -> (r: String)
    requires
        q.purchase < trades.len(),
        q.sale < trades.len(),
        dec <= 38,
        ticks_ok(q.profit as int, dec as nat),
    ensures
        r@ == pair_json(trades@, *q, dec as nat, indent@),
{
    let b = &trades[q.purchase];
    let s = &trades[q.sale];
    let mut out = String::new();
    out.append(indent);
    out.append("  {\"purchase_id\": ");
    let x = json_string(b.id.as_str());
    out.append(x.as_str());
    out.append(", \"purchase_date\": \"");
    let x = b.date.to_string();
    out.append(x.as_str());
    out.append("\", \"purchase_price\": \"");
    let x = format_ticks(b.price as i128, dec);
    out.append(x.as_str());
    out.append("\", \"sale_id\": ");
    let x = json_string(s.id.as_str());
    out.append(x.as_str());
    let ghost half = out@;
    out.append(", \"sale_date\": \"");
    let x = s.date.to_string();
    out.append(x.as_str());
    out.append("\", \"sale_price\": \"");
    let x = format_ticks(s.price as i128, dec);
    out.append(x.as_str());
    out.append("\", \"shares\": ");
    write_int(&mut out, q.shares as i128);
    out.append(", \"profit\": \"");
    let x = format_ticks(q.profit, dec);
    out.append(x.as_str());
    out.append("\"}");
    assert(out@ =~= pair_json(trades@, *q, dec as nat, indent@));
    out
}

/// Appends `pairs` as a JSON array whose closing bracket is indented by `indent`.
#[verifier::spinoff_prover]
#[verifier::rlimit(30)]
fn pairs_json(out: &mut String, trades: &[Trade], pairs: &[MatchedPair], dec: u32, indent: &str)
    requires
        dec <= 38,
        pairs_printable(trades@, pairs@, dec as nat),
    ensures
        final(out)@ == old(out)@ + spec_pairs_json(trades@, pairs@, dec as nat, indent@),
{
    if pairs.len() == 0 {
        out.append("[]");
        return;
    }
    let ghost start = out@;
    out.append("[\n");
    let ghost head = out@;
    let mut k: usize = 0;
    while k < pairs.len()
        invariant
            k <= pairs.len(),
            dec <= 38,
            pairs_printable(trades@, pairs@, dec as nat),
            head == start + "[\n"@,
            out@ == head + pair_lines(trades@, pairs@, k as int, dec as nat, indent@),
        decreases pairs.len() - k,
    {
        let ghost done = pair_lines(trades@, pairs@, k as int, dec as nat, indent@);
        assert(pairs@[k as int].purchase < trades@.len() && pairs@[k as int].sale < trades@.len()
            && ticks_ok(pairs@[k as int].profit as int, dec as nat));
        let line = pair_line(trades, &pairs[k], dec, indent);
        let sep: &str = if k + 1 < pairs.len() {
            ",\n"
        } else {
            "\n"
        };
        let ghost piece = line@ + sep@;
        out.append(line.as_str());
        out.append(sep);
        assert(out@ =~= head + (done + piece));
        k = k + 1;
        assert(pair_lines(trades@, pairs@, k as int, dec as nat, indent@) =~= done + piece);
    }
    let ghost body = out@;
    out.append(indent);
    out.append("]");
    assert(out@ =~= start + spec_pairs_json(trades@, pairs@, dec as nat, indent@));
}

/// One trade's dual as a JSON object.
pub open spec fn dual_json(t: Trade, dual: i64, dec: nat) -> Seq<char> {
    "      {\"id\": "@ + spec_json_string(t.id@) + ", \"side\": \""@ + side_word(t.side)
        + "\", \"shares\": "@ + int_text(t.shares as int) + ", \"dual\": \""@ + spec_format_ticks(
        dual as int,
        dec,
    ) + "\"}"@
}

/// The duals of the first `k` trades as JSON lines.
pub open spec fn dual_lines(ts: Seq<Trade>, duals: Seq<i64>, k: int, dec: nat) -> Seq<char>
    decreases k,
{
    if k <= 0 {
        seq![]
    } else {
        dual_lines(ts, duals, k - 1, dec) + dual_json(ts[k - 1], duals[k - 1], dec) + (if k < ts.len() {
            ",\n"@
        } else {
            "\n"@
        })
    }
}

fn dual_line(t: &Trade, dual: i64, dec: u32) -> (r: String)
    requires
        dec <= 38,
    ensures
        r@ == dual_json(*t, dual, dec as nat),
{
    let mut out = String::from_str("      {\"id\": ");
    let x = json_string(t.id.as_str());
    out.append(x.as_str());
    out.append(", \"side\": \"");
    if t.side == Side::Buy {
        out.append("buy");
    } else {
        out.append("sell");
    }
    out.append("\", \"shares\": ");
    write_int(&mut out, t.shares as i128);
    out.append(", \"dual\": \"");
    let x = format_ticks(dual as i128, dec);
    out.append(x.as_str());
    out.append("\"}");
    assert(out@ =~= dual_json(*t, dual, dec as nat));
    out
}

/// The report can be formatted: places that fit `i128`, pairs that name
/// trades, a certificate with a dual per trade, and totals whose difference
/// and dual objective fit `i128`.
pub open spec fn report_printable(ts: Seq<Trade>, dec: nat, sol: Solution, greedy: GreedyResult) -> bool {
    let duals = sol.certificate.duals@;
    &&& dec <= 38
    &&& pairs_printable(ts, sol.pairs@, dec)
    &&& pairs_printable(ts, greedy.pairs@, dec)
    &&& ticks_ok(sol.total as int, dec)
    &&& ticks_ok(greedy.total as int, dec)
    &&& i128::MIN <= sol.total - greedy.total <= i128::MAX
    &&& ticks_ok(sol.total - greedy.total, dec)
    &&& duals.len() >= ts.len()
    &&& dual_value_fits(ts, duals)
    &&& ticks_ok(dual_value(ts, duals, ts.len() as int), dec)
}

/// The report up to the optimal pairs.
pub open spec fn report_head(name: Seq<char>, dec: nat) -> Seq<char> {
    "{\n"@ + "  \"window_rule\": "@ + spec_json_string(name) + ",\n"@ + "  \"tick_decimals\": "@
        + int_text(dec as int) + ",\n"@ + "  \"pairs\": "@
}

/// What the report says of the verification.
pub open spec fn verified_json(verified: Result<i128, Seq<char>>) -> Seq<char> {
    match verified {
        Ok(_) => "    \"verified\": true\n"@,
        Err(e) => "    \"verified\": false,\n    \"violation\": "@ + spec_json_string(e) + "\n"@,
    }
}

/// The report from the optimal total up to the LIHO pairs.
pub open spec fn report_middle(
    ts: Seq<Trade>,
    dec: nat,
    sol: Solution,
    verified: Result<i128, Seq<char>>,
) -> Seq<char> {
    let duals = sol.certificate.duals@;
    ",\n"@ + "  \"total_profit\": \""@ + spec_format_ticks(sol.total as int, dec) + "\",\n"@
        + "  \"certificate\": {\n    \"duals_per_share\": [\n"@ + dual_lines(
        ts,
        duals,
        ts.len() as int,
        dec,
    ) + "    ],\n"@ + "    \"dual_objective\": \""@ + spec_format_ticks(
        dual_value(ts, duals, ts.len() as int),
        dec,
    ) + "\",\n"@ + verified_json(verified) + "  },\n  \"liho\": {\n    \"pairs\": "@
}

/// The report after the LIHO pairs.
pub open spec fn report_tail(dec: nat, sol: Solution, greedy: GreedyResult) -> Seq<char> {
    ",\n    \"total_profit\": \""@ + spec_format_ticks(greedy.total as int, dec) + "\"\n"@ + "  },\n"@
        + "  \"liho_shortfall\": \""@ + spec_format_ticks(sol.total - greedy.total, dec) + "\"\n"@
        + "}\n"@
}

/// What `report_json` gives.
pub open spec fn spec_report_json<R: WindowRule + ?Sized>(
    ts: Seq<Trade>,
    rule: &R,
    dec: nat,
    sol: Solution,
    verified: Result<i128, Seq<char>>,
    greedy: GreedyResult,
) -> Seq<char> {
    report_head(rule.spec_name(), dec) + spec_pairs_json(ts, sol.pairs@, dec, "  "@) + report_middle(
        ts,
        dec,
        sol,
        verified,
    ) + spec_pairs_json(ts, greedy.pairs@, dec, "    "@) + report_tail(dec, sol, greedy)
}

fn head_text(name: &str, dec: u32) -> (r: String)
    ensures
        r@ == report_head(name@, dec as nat),
{
    let mut out = String::from_str("{\n");
    out.append("  \"window_rule\": ");
    let x = json_string(name);
    out.append(x.as_str());
    out.append(",\n");
    out.append("  \"tick_decimals\": ");
    write_int(&mut out, dec as i128);
    out.append(",\n");
    out.append("  \"pairs\": ");
    assert(out@ =~= report_head(name@, dec as nat));
    out
}

fn duals_text(trades: &[Trade], duals: &Vec<i64>, dec: u32) -> (r: String)
    requires
        dec <= 38,
        duals@.len() >= trades@.len(),
    ensures
        r@ == dual_lines(trades@, duals@, trades@.len() as int, dec as nat),
{
    let mut out = String::new();
    let mut i: usize = 0;
    while i < trades.len()
        invariant
            i <= trades.len() <= duals@.len(),
            dec <= 38,
            out@ == dual_lines(trades@, duals@, i as int, dec as nat),
        decreases trades.len() - i,
    {
        let ghost done = out@;
        let line = dual_line(&trades[i], duals[i], dec);
        let sep: &str = if i + 1 < trades.len() {
            ",\n"
        } else {
            "\n"
        };
        out.append(line.as_str());
        out.append(sep);
        i = i + 1;
        assert(out@ =~= dual_lines(trades@, duals@, i as int, dec as nat));
    }
    out
}

fn middle_text(trades: &[Trade], dec: u32, solution: &Solution, verified: &Result<i128, String>) -> (r: String)
    requires
        dec <= 38,
        ticks_ok(solution.total as int, dec as nat),
        solution.certificate.duals@.len() >= trades@.len(),
        dual_value_fits(trades@, solution.certificate.duals@),
        ticks_ok(dual_value(trades@, solution.certificate.duals@, trades@.len() as int), dec as nat),
    ensures
        r@ == report_middle(trades@, dec as nat, *solution, res_view(*verified)),
{
    let mut out = String::from_str(",\n");
    out.append("  \"total_profit\": \"");
    let x = format_ticks(solution.total, dec);
    out.append(x.as_str());
    out.append("\",\n");
    out.append("  \"certificate\": {\n    \"duals_per_share\": [\n");
    let x = duals_text(trades, &solution.certificate.duals, dec);
    out.append(x.as_str());
    out.append("    ],\n");
    let ghost half = out@;
    out.append("    \"dual_objective\": \"");
    let objective = solution.certificate.dual_objective(trades);
    let x = format_ticks(objective, dec);
    out.append(x.as_str());
    out.append("\",\n");
    match verified {
        Ok(_) => {
            out.append("    \"verified\": true\n");
        },
        Err(e) => {
            out.append("    \"verified\": false,\n    \"violation\": ");
            let x = json_string(e.as_str());
            out.append(x.as_str());
            out.append("\n");
        },
    }
    out.append("  },\n  \"liho\": {\n    \"pairs\": ");
    assert(out@ =~= report_middle(trades@, dec as nat, *solution, res_view(*verified)));
    out
}

fn tail_text(dec: u32, solution: &Solution, greedy: &GreedyResult) -> (r: String)
    requires
        dec <= 38,
        ticks_ok(greedy.total as int, dec as nat),
        i128::MIN <= solution.total - greedy.total <= i128::MAX,
        ticks_ok(solution.total - greedy.total, dec as nat),
    ensures
        r@ == report_tail(dec as nat, *solution, *greedy),
{
    let mut out = String::from_str(",\n    \"total_profit\": \"");
    let x = format_ticks(greedy.total, dec);
    out.append(x.as_str());
    out.append("\"\n");
    out.append("  },\n");
    out.append("  \"liho_shortfall\": \"");
    let x = format_ticks(solution.total - greedy.total, dec);
    out.append(x.as_str());
    out.append("\"\n");
    out.append("}\n");
    assert(out@ =~= report_tail(dec as nat, *solution, *greedy));
    out
}

/// The CLI report. Money amounts are decimal strings so that totals beyond
/// 2^53 survive JSON parsers that read numbers as doubles.
pub fn report_json<R: WindowRule + ?Sized>(
    trades: &[Trade],
    rule: &R,
    dec: u32,
    solution: &Solution,
    verified: &Result<i128, String>,
    greedy: &GreedyResult,
) -> (r: String)
    requires
        report_printable(trades@, dec as nat, *solution, *greedy),
    ensures
        r@ == spec_report_json(trades@, rule, dec as nat, *solution, res_view(*verified), *greedy),
{
    let name = rule.name();
    let mut out = head_text(name.as_str(), dec);
    pairs_json(&mut out, trades, &solution.pairs, dec, "  ");
    let x = middle_text(trades, dec, solution, verified);
    out.append(x.as_str());
    pairs_json(&mut out, trades, &greedy.pairs, dec, "    ");
    let x = tail_text(dec, solution, greedy);
    out.append(x.as_str());
    assert(out@ =~= spec_report_json(trades@, rule, dec as nat, *solution, res_view(*verified), *greedy));
    out
}

/// With profits of at least zero, every running total is at most the whole.
proof fn lemma_claimed_prefix(m: Seq<MatchedPair>, j: int)
    requires
        0 <= j <= m.len(),
        forall|k: int| 0 <= k < m.len() ==> (#[trigger] m[k]).profit >= 0,
    ensures
        claimed_profit(m.subrange(0, j)) <= claimed_profit(m),
    decreases m.len() - j,
{
    if j < m.len() {
        lemma_claimed_prefix(m, j + 1);
        let a = m.subrange(0, j + 1);
        assert(a.drop_last() =~= m.subrange(0, j));
        assert(a.last() == m[j]);
    } else {
        assert(m.subrange(0, j) =~= m);
    }
}

/// Pairs that each claim a profit of at least zero claim at least zero in sum.
pub(crate) proof fn lemma_claimed_nonneg(m: Seq<MatchedPair>)
    requires
        forall|k: int| 0 <= k < m.len() ==> (#[trigger] m[k]).profit >= 0,
    ensures
        claimed_profit(m) >= 0,
    decreases m.len(),
{
    if m.len() > 0 {
        let init = m.drop_last();
        assert forall|k: int| 0 <= k < init.len() implies (#[trigger] init[k]).profit >= 0 by {
            assert(init[k] == m[k]);
        }
        lemma_claimed_nonneg(init);
        assert(m[m.len() - 1].profit >= 0);
    }
}

/// The solver's pairs earn, by `verify`'s reckoning, at most what they claim.
proof fn lemma_solver_value_below_claim<R: WindowRule + ?Sized>(ts: Seq<Trade>, rule: &R, m: Seq<MatchedPair>)
    requires
        forall|k: int| 0 <= k < m.len() ==> #[trigger] solver_pair_ok(ts, rule, m[k]),
    ensures
        0 <= pairs_value(ts, rule, m) <= claimed_profit(m),
    decreases m.len(),
{
    if m.len() > 0 {
        let init = m.drop_last();
        assert forall|k: int| 0 <= k < init.len() implies #[trigger] solver_pair_ok(ts, rule, init[k]) by {
            assert(init[k] == m[k]);
        }
        lemma_solver_value_below_claim(ts, rule, init);
        let q = m.last();
        assert(solver_pair_ok(ts, rule, m[m.len() - 1]));
        let g = ts[q.sale as int].price - ts[q.purchase as int].price;
        assert(q.shares * g >= 0) by (nonlinear_arith)
            requires
                g > 0,
        ;
        assert(pair_value(ts, rule, q) <= q.profit);
    }
}

/// Non-negative duals on trades within the limits keep every partial dual
/// objective between zero and a bound far inside `i128`.
proof fn lemma_dual_value_bounded(ts: Seq<Trade>, duals: Seq<i64>, k: int)
    requires
        trades_in_limits(ts),
        duals.len() == ts.len(),
        forall|i: int| 0 <= i < ts.len() ==> #[trigger] duals[i] >= 0,
        0 <= k <= ts.len(),
    ensures
        0 <= dual_value(ts, duals, k) <= k * (1000000000000 * 9223372036854775807),
    decreases k,
{
    if k > 0 {
        lemma_dual_value_bounded(ts, duals, k - 1);
        assert(trade_in_limits(ts[k - 1]));
        let a = ts[k - 1].shares as int;
        let d = duals[k - 1] as int;
        assert(duals[k - 1] >= 0);
        assert(0 <= a * d <= 1000000000000 * 9223372036854775807) by (nonlinear_arith)
            requires
                0 <= a <= 1000000000000,
                0 <= d <= 9223372036854775807,
        ;
        assert(k * (1000000000000 * 9223372036854775807) == (k - 1) * (1000000000000 * 9223372036854775807)
            + 1000000000000 * 9223372036854775807) by (nonlinear_arith);
    }
}

/// What `solve` and `lowest_in_highest_out` return for the same trades can
/// always be checked by `verify` and printed by `report_json`, at any number
/// of decimals up to 38.
pub proof fn law_results_fit_verify_and_report<R: WindowRule + ?Sized>(
    ts: Seq<Trade>,
    rule: &R,
    dec: nat,
    sol: Solution,
    greedy: GreedyResult,
)
    requires
        solution_ok(ts, rule, sol),
        greedy.total == claimed_profit(greedy.pairs@),
        forall|k: int| 0 <= k < greedy.pairs@.len() ==> #[trigger] exact_pair(ts, rule, greedy.pairs@[k]),
        dec <= 38,
    ensures
        verify_fits(ts, rule, sol.pairs@, sol.total, sol.certificate.duals@),
        report_printable(ts, dec, sol, greedy),
{
    let duals = sol.certificate.duals@;
    let n = ts.len() as int;
    assert forall|p: int, s: int| 0 <= p < n && 0 <= s < n implies crate::trade::gain_fits(
        rule,
        #[trigger] ts[p],
        #[trigger] ts[s],
    ) by {
        assert(trade_in_limits(ts[p]));
        assert(trade_in_limits(ts[s]));
    }
    lemma_solver_value_below_claim(ts, rule, sol.pairs@);
    assert forall|k: int| 0 <= k < sol.pairs@.len() implies (#[trigger] sol.pairs@[k]).profit >= 0 by {
        let q = sol.pairs@[k];
        assert(solver_pair_ok(ts, rule, q));
        let g = ts[q.sale as int].price - ts[q.purchase as int].price;
        assert(q.shares * g >= 0) by (nonlinear_arith)
            requires
                g > 0,
        ;
    }
    assert forall|j: int| 0 <= j <= sol.pairs@.len() implies #[trigger] claimed_profit(sol.pairs@.subrange(0, j))
        <= i128::MAX by {
        lemma_claimed_prefix(sol.pairs@, j);
    }
    assert forall|k: int| 0 <= k <= n && k <= duals.len() implies i128::MIN <= #[trigger] dual_value(
        ts,
        duals,
        k,
    ) <= i128::MAX by {
        lemma_dual_value_bounded(ts, duals, k);
        assert(k * (1000000000000 * 9223372036854775807) <= 1000000 * (1000000000000 * 9223372036854775807))
            by (nonlinear_arith)
            requires
                0 <= k <= 1000000,
        ;
    }
    assert(dual_value_fits(ts, duals));
    lemma_dual_value_bounded(ts, duals, n);
    crate::verify::lemma_verify_fits(ts, rule, sol.pairs@, sol.total, duals);
    assert forall|k: int| 0 <= k < sol.pairs@.len() implies (#[trigger] sol.pairs@[k]).profit >= 0 by {
        let q = sol.pairs@[k];
        assert(solver_pair_ok(ts, rule, q));
        let g = ts[q.sale as int].price - ts[q.purchase as int].price;
        assert(q.shares * g >= 0) by (nonlinear_arith)
            requires
                g > 0,
        ;
    }
    lemma_claimed_nonneg(sol.pairs@);
    assert forall|k: int| 0 <= k < greedy.pairs@.len() implies (#[trigger] greedy.pairs@[k]).profit >= 0 by {
        let q = greedy.pairs@[k];
        assert(exact_pair(ts, rule, q));
        let g = spec_pair_gain(rule, ts[q.purchase as int], ts[q.sale as int])->0;
        assert(q.shares * g >= 0) by (nonlinear_arith)
            requires
                g > 0,
        ;
    }
    lemma_claimed_nonneg(greedy.pairs@);
    assert(pairs_printable(ts, sol.pairs@, dec)) by {
        assert forall|k: int| 0 <= k < sol.pairs@.len() implies #[trigger] sol.pairs@[k].purchase < ts.len()
            && sol.pairs@[k].sale < ts.len() && ticks_ok(sol.pairs@[k].profit as int, dec) by {
            assert(solver_pair_ok(ts, rule, sol.pairs@[k]));
            assert(sol.pairs@[k].profit >= 0);
        }
    }
    assert(pairs_printable(ts, greedy.pairs@, dec)) by {
        assert forall|k: int| 0 <= k < greedy.pairs@.len() implies #[trigger] greedy.pairs@[k].purchase < ts.len()
            && greedy.pairs@[k].sale < ts.len() && ticks_ok(greedy.pairs@[k].profit as int, dec) by {
            assert(exact_pair(ts, rule, greedy.pairs@[k]));
            assert(greedy.pairs@[k].profit >= 0);
        }
    }
}

/// What `match` reports for a history: the solution, the LIHO baseline,
/// whether the certificate verified, and the JSON text.
pub struct MatchReport {
    pub solution: Solution,
    pub greedy: GreedyResult,
    pub verified: bool,
    pub text: String,
}

/// What verifying solution `sol` gives, a violation read as its message.
pub open spec fn verified_view<R: WindowRule + ?Sized>(ts: Seq<Trade>, rule: &R, sol: Solution) -> Result<
    i128,
    Seq<char>,
> {
    match spec_verify(ts, rule, sol.pairs@, sol.total, sol.certificate.duals@) {
        Ok(v) => Ok(v as i128),
        Err(e) => Err(e.spec_text()),
    }
}

/// Solves a history, checks the solution with the independent verifier, runs
/// LIHO, and renders the report. The report's certificate is marked verified
/// exactly when `verify` accepts the solution.
pub fn match_report<R: WindowRule + ?Sized>(trades: &[Trade], rule: &R, decimals: u32, scaling: Scaling) -> (r: Result<
    MatchReport,
    String,
>)
    requires
        decimals <= 38,
    ensures
        spec_validate(trades@) matches Err(e) ==> r is Err && r->Err_0@ == e,
        spec_validate(trades@) is Ok && too_many_pairs(trades@, rule) ==> r is Err && r->Err_0@
            == "too many matchable pairs"@,
        r matches Err(e) ==> (spec_validate(trades@) is Ok && !too_many_pairs(trades@, rule) ==> solver_failure(
            e@,
        )),
        r matches Ok(m) ==> {
            &&& solution_ok(trades@, rule, m.solution)
            &&& m.solution.stats.phases == phase_count(trades@, scaling)
            &&& m.greedy.pairs@ == liho_pairs(trades@, rule)
            &&& m.greedy.total == claimed_profit(m.greedy.pairs@)
            &&& m.verified == (spec_verify(
                trades@,
                rule,
                m.solution.pairs@,
                m.solution.total,
                m.solution.certificate.duals@,
            ) is Ok)
            &&& m.text@ == spec_report_json(
                trades@,
                rule,
                decimals as nat,
                m.solution,
                verified_view(trades@, rule, m.solution),
                m.greedy,
            )
        },
{
    let solution = match solve(trades, rule, scaling) {
        Ok(s) => s,
        Err(e) => {
            return Err(e);
        },
    };
    proof {
        law_liho_fits_within_limits(trades@, rule);
    }
    let greedy = lowest_in_highest_out(trades, rule);
    proof {
        law_results_fit_verify_and_report(trades@, rule, decimals as nat, solution, greedy);
    }
    let checked = verify(trades, rule, &solution.pairs, solution.total, &solution.certificate);
    let verified = checked.is_ok();
    let shown: Result<i128, String> = match checked {
        Ok(v) => Ok(v),
        Err(violation) => Err(violation.to_string()),
    };
    assert(res_view(shown) == verified_view(trades@, rule, solution));
    let text = report_json(trades, rule, decimals, &solution, &shown, &greedy);
    Ok(MatchReport { solution, greedy, verified, text })
}

} // verus!

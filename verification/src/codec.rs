//! Verified text primitives for the result-file formats: decimal numbers,
//! escaped fields, and the scanners that read them back.

use vstd::prelude::*;

verus! {

/// The character of one decimal digit.
pub open spec fn digit_char(d: int) -> char {
    if d == 0 {
        '0'
    } else if d == 1 {
        '1'
    } else if d == 2 {
        '2'
    } else if d == 3 {
        '3'
    } else if d == 4 {
        '4'
    } else if d == 5 {
        '5'
    } else if d == 6 {
        '6'
    } else if d == 7 {
        '7'
    } else if d == 8 {
        '8'
    } else {
        '9'
    }
}

/// Decimal text of a nonnegative number, most significant digit first.
pub open spec fn spec_u64_string(n: int) -> Seq<char>
    decreases n,
{
    if n < 10 {
        seq![digit_char(n)]
    } else {
        spec_u64_string(n / 10).push(digit_char(n % 10))
    }
}

pub open spec fn is_digit(c: char) -> bool {
    48 <= c as u32 <= 57
}

pub open spec fn digit_val(c: char) -> int {
    c as u32 - 48
}

pub open spec fn all_digits(s: Seq<char>) -> bool {
    forall|i: int| 0 <= i < s.len() ==> is_digit(#[trigger] s[i])
}

/// Value of a digit string, most significant digit first.
pub open spec fn spec_dec_value(s: Seq<char>) -> int
    decreases s.len(),
{
    if s.len() == 0 {
        0
    } else {
        spec_dec_value(s.drop_last()) * 10 + digit_val(s.last())
    }
}

/// What parsing a decimal field yields: the value of a nonempty all-digit
/// string that fits in a `u64`, nothing otherwise.
pub open spec fn spec_parse_u64(s: Seq<char>) -> Option<u64> {
    if s.len() == 0 || !all_digits(s) || spec_dec_value(s) > u64::MAX {
        None
    } else {
        Some(spec_dec_value(s) as u64)
    }
}

proof fn lemma_u64_string_digits(n: int)
    requires
        n >= 0,
    ensures
        spec_u64_string(n).len() >= 1,
        all_digits(spec_u64_string(n)),
    decreases n,
{
    if n >= 10 {
        lemma_u64_string_digits(n / 10);
        let s = spec_u64_string(n);
        let p = spec_u64_string(n / 10);
        assert forall|i: int| 0 <= i < s.len() implies is_digit(#[trigger] s[i]) by {
            if i < p.len() {
                assert(s[i] == p[i]);
            } else {
                assert(s[i] == digit_char(n % 10));
            }
        }
    }
}

proof fn lemma_u64_string_value(n: int)
    requires
        n >= 0,
    ensures
        spec_dec_value(spec_u64_string(n)) == n,
    decreases n,
{
    if n < 10 {
        let s = spec_u64_string(n);
        assert(s == seq![digit_char(n)]);
        assert(s.len() == 1);
        assert(s.drop_last() =~= Seq::<char>::empty());
        assert(spec_dec_value(s.drop_last()) == 0);
        assert(digit_val(digit_char(n)) == n);
        assert(s.last() == digit_char(n));
        assert(spec_dec_value(s) == spec_dec_value(s.drop_last()) * 10 + digit_val(s.last()));
    } else {
        lemma_u64_string_value(n / 10);
        let s = spec_u64_string(n);
        let p = spec_u64_string(n / 10);
        assert(s == p.push(digit_char(n % 10)));
        assert(s.len() == p.len() + 1);
        assert(s.drop_last() =~= p);
        assert(digit_val(digit_char(n % 10)) == n % 10);
        assert(s.last() == digit_char(n % 10));
        assert(spec_dec_value(s) == spec_dec_value(s.drop_last()) * 10 + digit_val(s.last()));
        assert(spec_dec_value(s) == (n / 10) * 10 + n % 10);
    }
}

/// Formatting a number and reading it back yields the number: the decimal
/// codec loses nothing.
pub proof fn lemma_u64_round_trip(n: u64)
    ensures
        spec_parse_u64(spec_u64_string(n as int)) == Some(n),
{
    lemma_u64_string_digits(n as int);
    lemma_u64_string_value(n as int);
}

fn digit_str(d: u64) -> (r: &'static str)
    requires
        d < 10,
    ensures
        r@ =~= seq![digit_char(d as int)],
{
    proof {
        reveal_strlit("0");
        reveal_strlit("1");
        reveal_strlit("2");
        reveal_strlit("3");
        reveal_strlit("4");
        reveal_strlit("5");
        reveal_strlit("6");
        reveal_strlit("7");
        reveal_strlit("8");
        reveal_strlit("9");
    }
    if d == 0 {
        "0"
    } else if d == 1 {
        "1"
    } else if d == 2 {
        "2"
    } else if d == 3 {
        "3"
    } else if d == 4 {
        "4"
    } else if d == 5 {
        "5"
    } else if d == 6 {
        "6"
    } else if d == 7 {
        "7"
    } else if d == 8 {
        "8"
    } else {
        "9"
    }
}

/// Decimal text of `n`.
pub fn fmt_u64(n: u64) -> (r: String)
    ensures
        r@ == spec_u64_string(n as int),
    decreases n,
{
    if n < 10 {
        let mut s = String::new();
        s.append(digit_str(n));
        proof {
            assert(s@ =~= spec_u64_string(n as int));
        }
        s
    } else {
        let mut s = fmt_u64(n / 10);
        s.append(digit_str(n % 10));
        proof {
            assert(s@ =~= spec_u64_string(n as int));
        }
        s
    }
}

/// Decimal text of a signed number: a minus sign for negative values,
/// then the digits of the magnitude.
pub open spec fn spec_i64_string(n: int) -> Seq<char> {
    if n < 0 {
        seq!['-'] + spec_u64_string(-n)
    } else {
        spec_u64_string(n)
    }
}

pub fn fmt_i64(n: i64) -> (r: String)
    ensures
        r@ == spec_i64_string(n as int),
{
    if n >= 0 {
        fmt_u64(n as u64)
    } else {
        let mut s = String::new();
        proof {
            reveal_strlit("-");
        }
        s.append("-");
        let mag: u64 = if n == i64::MIN {
            9_223_372_036_854_775_808u64
        } else {
            (-n) as u64
        };
        let t = fmt_u64(mag);
        let s2 = s.concat(t.as_str());
        proof {
            assert(s2@ =~= spec_i64_string(n as int));
        }
        s2
    }
}

/// Parse the decimal run starting at `i`: the value of the longest
/// all-digit run, and the index just after it.  Fails on an empty run or
/// on a value past `u64::MAX`.
pub open spec fn spec_scan_u64(s: Seq<char>, i: int) -> Option<(u64, int)> {
    let j = spec_digit_run_end(s, i);
    if j == i || spec_dec_value(s.subrange(i, j)) > u64::MAX {
        None
    } else {
        Some((spec_dec_value(s.subrange(i, j)) as u64, j))
    }
}

/// First index at or after `i` that does not hold a digit.
pub open spec fn spec_digit_run_end(s: Seq<char>, i: int) -> int
    decreases s.len() - i,
{
    if i < 0 || i >= s.len() {
        i
    } else if is_digit(s[i]) {
        spec_digit_run_end(s, i + 1)
    } else {
        i
    }
}

proof fn lemma_digit_run_end(s: Seq<char>, i: int)
    requires
        0 <= i <= s.len(),
    ensures
        i <= spec_digit_run_end(s, i) <= s.len(),
        forall|k: int| i <= k < spec_digit_run_end(s, i) ==> is_digit(#[trigger] s[k]),
        spec_digit_run_end(s, i) < s.len() ==> !is_digit(s[spec_digit_run_end(s, i)]),
    decreases s.len() - i,
{
    if i < s.len() && is_digit(s[i]) {
        lemma_digit_run_end(s, i + 1);
    }
}

proof fn lemma_digit_run_step(s: Seq<char>, i: int)
    requires
        0 <= i < s.len(),
        is_digit(s[i]),
    ensures
        spec_digit_run_end(s, i) == spec_digit_run_end(s, i + 1),
{
}

proof fn lemma_dec_value_nonneg(s: Seq<char>)
    requires
        all_digits(s),
    ensures
        spec_dec_value(s) >= 0,
    decreases s.len(),
{
    if s.len() > 0 {
        assert(all_digits(s.drop_last())) by {
            assert(forall|i: int|
                0 <= i < s.len() - 1 ==> s.drop_last()[i] == #[trigger] s[i] && is_digit(s[i]));
        }
        lemma_dec_value_nonneg(s.drop_last());
    }
}

fn is_digit_char(c: char) -> (r: bool)
    ensures
        r == is_digit(c),
{
    let u = c as u32;
    48 <= u && u <= 57
}

/// Read the decimal run that starts at character `i` of `s`; yields the
/// value and the index just past the run, or nothing when the run is
/// empty or its value does not fit in a `u64`.
pub fn scan_u64(s: &str, i: usize) -> (r: Option<(u64, usize)>)
    requires
        i <= s@.len(),
    ensures
        (match (r, spec_scan_u64(s@, i as int)) {
            (Some((v, j)), Some((sv, sj))) => v == sv && j == sj,
            (None, None) => true,
            _ => false,
        }),
{
    let n = s.unicode_len();
    let mut j: usize = i;
    let mut acc: u64 = 0;
    let mut over = false;
    proof {
        assert(s@.subrange(i as int, i as int) =~= Seq::<char>::empty());
    }
    while j < n && is_digit_char(s.get_char(j))
        invariant
            i <= j <= n,
            n == s@.len(),
            spec_digit_run_end(s@, i as int) == spec_digit_run_end(s@, j as int),
            all_digits(s@.subrange(i as int, j as int)),
            !over ==> acc == spec_dec_value(s@.subrange(i as int, j as int)) && acc <= u64::MAX,
            over ==> spec_dec_value(s@.subrange(i as int, j as int)) > u64::MAX,
        decreases n - j,
    {
        let c = s.get_char(j);
        let d: u64 = (c as u32 - 48) as u64;
        let ghost pre = s@.subrange(i as int, j as int);
        let ghost cur = s@.subrange(i as int, j as int + 1);
        proof {
            lemma_digit_run_step(s@, j as int);
            assert(cur.drop_last() =~= pre);
            assert(cur.last() == s@[j as int]);
            assert(spec_dec_value(cur) == spec_dec_value(pre) * 10 + digit_val(s@[j as int]));
            assert(all_digits(cur)) by {
                assert(forall|k: int|
                    0 <= k < cur.len() - 1 ==> cur[k] == #[trigger] pre[k] && is_digit(pre[k]));
            }
            lemma_dec_value_nonneg(pre);
        }
        if over {
            proof {
                assert(spec_dec_value(cur) > u64::MAX);
            }
        } else if acc > 1_844_674_407_370_955_161u64 || (acc == 1_844_674_407_370_955_161u64 && d
            > 5) {
            over = true;
            proof {
                assert(spec_dec_value(cur) > u64::MAX);
            }
        } else {
            acc = acc * 10 + d;
        }
        j = j + 1;
    }
    proof {
        assert(spec_digit_run_end(s@, j as int) == j as int);
        lemma_dec_value_nonneg(s@.subrange(i as int, j as int));
    }
    if j == i || over {
        None
    } else {
        Some((acc, j))
    }
}

/// A decimal run of `s` that spells `n` and ends the run (next character,
/// if any, is no digit) scans to exactly `n`.
pub proof fn lemma_scan_u64_of_string(n: u64, s: Seq<char>, i: int)
    requires
        0 <= i,
        i + spec_u64_string(n as int).len() <= s.len(),
        s.subrange(i, i + spec_u64_string(n as int).len() as int) == spec_u64_string(n as int),
        i + spec_u64_string(n as int).len() == s.len() || !is_digit(
            s[i + spec_u64_string(n as int).len()],
        ),
    ensures
        spec_scan_u64(s, i) == Some((n, i + spec_u64_string(n as int).len() as int)),
{
    let t = spec_u64_string(n as int);
    let e = i + t.len() as int;
    lemma_u64_string_digits(n as int);
    lemma_u64_string_value(n as int);
    assert forall|k: int| i <= k < e implies is_digit(#[trigger] s[k]) by {
        assert(s.subrange(i, e)[k - i] == s[k]);
        assert(is_digit(t[k - i]));
    }
    lemma_run_end_of_digits(s, i, e);
    assert(s.subrange(i, e) == t);
}

proof fn lemma_run_end_of_digits(s: Seq<char>, i: int, e: int)
    requires
        0 <= i <= e <= s.len(),
        forall|k: int| i <= k < e ==> is_digit(#[trigger] s[k]),
        e == s.len() || !is_digit(s[e]),
    ensures
        spec_digit_run_end(s, i) == e,
    decreases e - i,
{
    if i < e {
        lemma_run_end_of_digits(s, i + 1, e);
    }
}

/// How one character appears inside a quoted field: a double quote is
/// doubled, everything else stands for itself.
pub open spec fn esc_char(c: char) -> Seq<char> {
    if c == '"' {
        seq!['"', '"']
    } else {
        seq![c]
    }
}

/// The interior of a quoted field holding `s`.
pub open spec fn spec_escape(s: Seq<char>) -> Seq<char>
    decreases s.len(),
{
    if s.len() == 0 {
        Seq::empty()
    } else {
        spec_escape(s.drop_last()) + esc_char(s.last())
    }
}

/// The whole quoted field holding `s`.
pub open spec fn spec_quoted(s: Seq<char>) -> Seq<char> {
    seq!['"'] + spec_escape(s) + seq!['"']
}

proof fn lemma_escape_first(s: Seq<char>)
    requires
        s.len() > 0,
    ensures
        spec_escape(s) == esc_char(s[0]) + spec_escape(s.drop_first()),
    decreases s.len(),
{
    if s.len() == 1 {
        assert(s.drop_last() =~= Seq::<char>::empty());
        assert(s.drop_first() =~= Seq::<char>::empty());
        assert(spec_escape(s) =~= esc_char(s[0]) + spec_escape(s.drop_first()));
    } else {
        let d = s.drop_last();
        lemma_escape_first(d);
        assert(s.drop_first().drop_last() =~= d.drop_first());
        assert(s.drop_first().last() == s.last());
        assert(spec_escape(s.drop_first()) == spec_escape(d.drop_first()) + esc_char(s.last()));
        assert(spec_escape(s) == (esc_char(s[0]) + spec_escape(d.drop_first())) + esc_char(
            s.last(),
        ));
        assert((esc_char(s[0]) + spec_escape(d.drop_first())) + esc_char(s.last()) =~= esc_char(
            s[0],
        ) + (spec_escape(d.drop_first()) + esc_char(s.last())));
    }
}

/// Scan the interior of a quoted field from position `j`: collect
/// characters, turn doubled quotes into one quote, and stop at a quote
/// followed by a separator (`,` or a line break) or by the end of the
/// text.  Yields the field's content and the index just past the closing
/// quote.
pub open spec fn spec_scan_quoted(s: Seq<char>, j: int) -> Option<(Seq<char>, int)>
    decreases s.len() - j,
{
    if j < 0 || j >= s.len() {
        None
    } else if s[j] == '"' {
        if j + 1 < s.len() && s[j + 1] == '"' {
            match spec_scan_quoted(s, j + 2) {
                Some((t, e)) => Some((seq!['"'] + t, e)),
                None => None,
            }
        } else if j + 1 == s.len() || s[j + 1] == ',' || s[j + 1] == '\n' {
            Some((Seq::empty(), j + 1))
        } else {
            None
        }
    } else {
        match spec_scan_quoted(s, j + 1) {
            Some((t, e)) => Some((seq![s[j]] + t, e)),
            None => None,
        }
    }
}

/// A quoted field at position `i` of `s`: an opening quote, then the
/// scanned interior.
pub open spec fn spec_parse_quoted(s: Seq<char>, i: int) -> Option<(Seq<char>, int)> {
    if 0 <= i < s.len() && s[i] == '"' {
        spec_scan_quoted(s, i + 1)
    } else {
        None
    }
}

/// A quoted field followed by a separator (or by the end) parses back to
/// exactly what was quoted.
pub proof fn lemma_quoted_round_trip(x: Seq<char>, s: Seq<char>, i: int)
    requires
        0 <= i,
        i + spec_quoted(x).len() <= s.len(),
        s.subrange(i, i + spec_quoted(x).len() as int) == spec_quoted(x),
        i + spec_quoted(x).len() == s.len() || s[i + spec_quoted(x).len()] == ',' || s[i
            + spec_quoted(x).len()] == '\n',
    ensures
        spec_parse_quoted(s, i) == Some((x, i + spec_quoted(x).len() as int)),
{
    let q = spec_quoted(x);
    let ex = spec_escape(x);
    assert(q.len() == ex.len() + 2);
    assert(s[i] == '"') by {
        assert(s.subrange(i, i + q.len() as int)[0] == s[i + 0]);
        assert(q[0] == '"');
    }
    assert(s.subrange(i + 1, i + 1 + ex.len() as int) =~= ex) by {
        assert forall|k: int|
            0 <= k < ex.len() implies s.subrange(i + 1, i + 1 + ex.len() as int)[k] == ex[k] by {
            assert(s.subrange(i + 1, i + 1 + ex.len() as int)[k] == s[i + 1 + k]);
            assert(s.subrange(i, i + q.len() as int)[k + 1] == s[i + (k + 1)]);
            assert(q[k + 1] == ex[k]);
        }
    }
    assert(s[i + 1 + ex.len()] == '"') by {
        assert(s.subrange(i, i + q.len() as int)[q.len() - 1] == s[i + (q.len() - 1)]);
        assert(q[q.len() - 1] == '"');
    }
    lemma_scan_escape(x, s, i + 1);
}

proof fn lemma_scan_escape(x: Seq<char>, s: Seq<char>, j: int)
    requires
        0 <= j,
        j + spec_escape(x).len() + 1 <= s.len(),
        s.subrange(j, j + spec_escape(x).len() as int) == spec_escape(x),
        s[j + spec_escape(x).len()] == '"',
        j + spec_escape(x).len() + 1 == s.len() || s[j + spec_escape(x).len() + 1] == ',' || s[j
            + spec_escape(x).len() + 1] == '\n',
    ensures
        spec_scan_quoted(s, j) == Some((x, j + spec_escape(x).len() + 1)),
    decreases x.len(),
{
    let ex = spec_escape(x);
    if x.len() == 0 {
        assert(ex.len() == 0);
        assert(s[j] == '"');
    } else {
        lemma_escape_first(x);
        let c = x[0];
        let x1 = x.drop_first();
        let ex1 = spec_escape(x1);
        assert(ex == esc_char(c) + ex1);
        if c == '"' {
            assert(ex[0] == '"' && ex[1] == '"');
            assert(s[j] == ex[0] && s[j + 1] == ex[1]) by {
                assert(s.subrange(j, j + ex.len() as int)[0] == ex[0]);
                assert(s.subrange(j, j + ex.len() as int)[1] == ex[1]);
            }
            assert(s.subrange(j + 2, j + 2 + ex1.len() as int) =~= ex1) by {
                assert(forall|k: int|
                    0 <= k < ex1.len() ==> s.subrange(j + 2, j + 2 + ex1.len() as int)[k]
                        == s.subrange(j, j + ex.len() as int)[k + 2]
                        && #[trigger] ex1[k] == ex[k + 2]);
            }
            lemma_scan_escape(x1, s, j + 2);
            assert(seq!['"'] + x1 =~= x);
        } else {
            assert(ex[0] == c);
            assert(s[j] == c) by {
                assert(s.subrange(j, j + ex.len() as int)[0] == ex[0]);
            }
            assert(s[j] != '"');
            assert(s.subrange(j + 1, j + 1 + ex1.len() as int) =~= ex1) by {
                assert(forall|k: int|
                    0 <= k < ex1.len() ==> s.subrange(j + 1, j + 1 + ex1.len() as int)[k]
                        == s.subrange(j, j + ex.len() as int)[k + 1]
                        && #[trigger] ex1[k] == ex[k + 1]);
            }
            lemma_scan_escape(x1, s, j + 1);
            assert(seq![c] + x1 =~= x);
        }
    }
}

/// Write `s` as a quoted field: interior quotes doubled, quotes around.
pub fn quote_field(s: &str) -> (r: String)
    ensures
        r@ == spec_quoted(s@),
{
    let n = s.unicode_len();
    let mut out = String::new();
    proof {
        reveal_strlit("\"");
        reveal_strlit("\"\"");
    }
    out.append("\"");
    let mut i: usize = 0;
    while i < n
        invariant
            n == s@.len(),
            i <= n,
            out@ == seq!['"'] + spec_escape(s@.take(i as int)),
        decreases n - i,
    {
        let c = s.get_char(i);
        proof {
            assert(s@.take(i as int + 1).drop_last() =~= s@.take(i as int));
            assert(s@.take(i as int + 1).last() == s@[i as int]);
        }
        if c == '"' {
            proof {
                reveal_strlit("\"\"");
            }
            out.append("\"\"");
            proof {
                assert("\"\""@ =~= seq!['"', '"']);
                assert(out@ =~= seq!['"'] + spec_escape(s@.take(i as int + 1)));
            }
        } else {
            let piece = s.substring_char(i, i + 1);
            out.append(piece);
            proof {
                assert(piece@ =~= seq![s@[i as int]]);
                assert(out@ =~= seq!['"'] + spec_escape(s@.take(i as int + 1)));
            }
        }
        i = i + 1;
    }
    out.append("\"");
    proof {
        assert(s@.take(n as int) =~= s@);
        assert(out@ =~= spec_quoted(s@));
    }
    out
}

/// The scan of the whole field equals `pre` plus the scan from `j`: the
/// loop of [`parse_quoted`] keeps exactly this.
pub open spec fn scan_cont(s: Seq<char>, start: int, pre: Seq<char>, j: int) -> bool {
    match spec_scan_quoted(s, start) {
        Some((t, e)) => match spec_scan_quoted(s, j) {
            Some((t2, e2)) => t == pre + t2 && e == e2,
            None => false,
        },
        None => spec_scan_quoted(s, j) is None,
    }
}

/// Read a quoted field that starts at character `i` of `s`.
pub fn parse_quoted(s: &str, i: usize) -> (r: Option<(String, usize)>)
    requires
        i <= s@.len(),
    ensures
        (match (r, spec_parse_quoted(s@, i as int)) {
            (Some((t, e)), Some((st, se))) => t@ == st && e == se,
            (None, None) => true,
            _ => false,
        }),
{
    let n = s.unicode_len();
    if i >= n || s.get_char(i) != '"' {
        return None;
    }
    let mut out = String::new();
    let mut j: usize = i + 1;
    proof {
        match spec_scan_quoted(s@, i as int + 1) {
            Some((t, e)) => {
                assert(out@ + t =~= t);
            },
            None => {},
        }
    }
    loop
        invariant
            i + 1 <= j <= n,
            n == s@.len(),
            s@[i as int] == '"',
            scan_cont(s@, i as int + 1, out@, j as int),
        decreases n - j,
    {
        if j >= n {
            return None;
        }
        let c = s.get_char(j);
        if c == '"' {
            if j + 1 < n && s.get_char(j + 1) == '"' {
                let ghost pre = out@;
                proof {
                    reveal_strlit("\"");
                }
                out.append("\"");
                proof {
                    assert("\""@ =~= seq!['"']);
                    assert(out@ == pre + seq!['"']);
                    match spec_scan_quoted(s@, j as int + 2) {
                        Some((t2, e2)) => {
                            assert(spec_scan_quoted(s@, j as int) == Some((seq!['"'] + t2, e2)));
                            assert(pre + (seq!['"'] + t2) =~= (pre + seq!['"']) + t2);
                        },
                        None => {
                            assert(spec_scan_quoted(s@, j as int) is None);
                        },
                    }
                }
                j = j + 2;
            } else {
                if j + 1 == n || s.get_char(j + 1) == ',' || s.get_char(j + 1) == '\n' {
                    proof {
                        assert(spec_scan_quoted(s@, j as int) == Some(
                            (Seq::<char>::empty(), j as int + 1),
                        ));
                        assert(out@ + Seq::<char>::empty() =~= out@);
                    }
                    return Some((out, j + 1));
                } else {
                    return None;
                }
            }
        } else {
            let ghost pre = out@;
            let piece = s.substring_char(j, j + 1);
            out.append(piece);
            proof {
                assert(piece@ =~= seq![s@[j as int]]);
                assert(out@ == pre + seq![s@[j as int]]);
                match spec_scan_quoted(s@, j as int + 1) {
                    Some((t2, e2)) => {
                        assert(spec_scan_quoted(s@, j as int) == Some(
                            (seq![s@[j as int]] + t2, e2),
                        ));
                        assert(pre + (seq![s@[j as int]] + t2) =~= (pre + seq![s@[j as int]]) + t2);
                    },
                    None => {
                        assert(spec_scan_quoted(s@, j as int) is None);
                    },
                }
            }
            j = j + 1;
        }
    }
}

/// Splitting a known chunk of text in two.
pub proof fn lemma_split_chunk(s: Seq<char>, i: int, a: Seq<char>, b: Seq<char>)
    requires
        0 <= i,
        i + a.len() + b.len() <= s.len(),
        s.subrange(i, i + a.len() + b.len()) == a + b,
    ensures
        s.subrange(i, i + a.len() as int) == a,
        s.subrange(i + a.len() as int, i + a.len() + b.len()) == b,
{
    let w = s.subrange(i, i + a.len() + b.len());
    assert(s.subrange(i, i + a.len() as int) =~= a) by {
        assert forall|k: int| 0 <= k < a.len() implies s.subrange(i, i + a.len() as int)[k]
            == a[k] by {
            assert(w[k] == s[i + k]);
            assert(w[k] == (a + b)[k]);
            assert(s.subrange(i, i + a.len() as int)[k] == s[i + k]);
        }
    }
    assert(s.subrange(i + a.len() as int, i + a.len() + b.len()) =~= b) by {
        assert forall|k: int|
            0 <= k < b.len() implies s.subrange(i + a.len() as int, i + a.len() + b.len())[k]
            == b[k] by {
            assert(w[a.len() + k] == s[i + a.len() + k]);
            assert(w[a.len() + k] == (a + b)[a.len() + k]);
            assert(s.subrange(i + a.len() as int, i + a.len() + b.len())[k] == s[i + a.len() + k]);
        }
    }
}

/// Position just past `lit` when `lit` stands at `i`, nothing otherwise.
pub open spec fn spec_expect_lit(s: Seq<char>, i: int, lit: Seq<char>) -> Option<int> {
    if 0 <= i && i + lit.len() <= s.len() && s.subrange(i, i + lit.len() as int) == lit {
        Some(i + lit.len() as int)
    } else {
        None
    }
}

/// Check that `lit` stands at character `i` of `s`.
pub fn expect_lit(s: &str, i: usize, lit: &str) -> (r: Option<usize>)
    requires
        i <= s@.len(),
    ensures
        (match (r, spec_expect_lit(s@, i as int, lit@)) {
            (Some(e), Some(se)) => e == se,
            (None, None) => true,
            _ => false,
        }),
{
    let n = s.unicode_len();
    let m = lit.unicode_len();
    if m > n - i {
        return None;
    }
    let mut k: usize = 0;
    while k < m
        invariant
            n == s@.len(),
            m == lit@.len(),
            i + m <= n,
            k <= m,
            forall|x: int| 0 <= x < k ==> s@[i + x] == lit@[x],
        decreases m - k,
    {
        if s.get_char(i + k) != lit.get_char(k) {
            proof {
                if s@.subrange(i as int, i + m as int) == lit@ {
                    assert(s@.subrange(i as int, i + m as int)[k as int] == lit@[k as int]);
                }
            }
            return None;
        }
        k = k + 1;
    }
    proof {
        assert(s@.subrange(i as int, i + m as int) =~= lit@);
    }
    Some(i + m)
}

/// A signed decimal at `i`: an optional minus sign, then a decimal run;
/// the value must fit in an `i64`.
pub open spec fn spec_scan_i64(s: Seq<char>, i: int) -> Option<(i64, int)> {
    if 0 <= i < s.len() && s[i] == '-' {
        match spec_scan_u64(s, i + 1) {
            Some((m, e)) => if m <= 9_223_372_036_854_775_808u64 {
                Some(((-(m as int)) as i64, e))
            } else {
                None
            },
            None => None,
        }
    } else {
        match spec_scan_u64(s, i) {
            Some((m, e)) => if m <= i64::MAX as u64 {
                Some((m as i64, e))
            } else {
                None
            },
            None => None,
        }
    }
}

/// Read a signed decimal starting at character `i` of `s`.
pub fn scan_i64(s: &str, i: usize) -> (r: Option<(i64, usize)>)
    requires
        i <= s@.len(),
    ensures
        (match (r, spec_scan_i64(s@, i as int)) {
            (Some((v, e)), Some((sv, se))) => v == sv && e == se,
            (None, None) => true,
            _ => false,
        }),
{
    let n = s.unicode_len();
    if i < n && s.get_char(i) == '-' {
        match scan_u64(s, i + 1) {
            Some((m, e)) => {
                if m <= 9_223_372_036_854_775_808u64 {
                    let v: i64 = if m == 9_223_372_036_854_775_808u64 {
                        i64::MIN
                    } else {
                        -(m as i64)
                    };
                    Some((v, e))
                } else {
                    None
                }
            },
            None => None,
        }
    } else {
        match scan_u64(s, i) {
            Some((m, e)) => {
                if m <= 9_223_372_036_854_775_807u64 {
                    Some((m as i64, e))
                } else {
                    None
                }
            },
            None => None,
        }
    }
}

/// A signed decimal spelling `n`, followed by a non-digit (or the end),
/// scans to exactly `n`.
pub proof fn lemma_scan_i64_of_string(n: i64, s: Seq<char>, i: int)
    requires
        0 <= i,
        i + spec_i64_string(n as int).len() <= s.len(),
        s.subrange(i, i + spec_i64_string(n as int).len() as int) == spec_i64_string(n as int),
        i + spec_i64_string(n as int).len() == s.len() || !is_digit(
            s[i + spec_i64_string(n as int).len()],
        ),
    ensures
        spec_scan_i64(s, i) == Some((n, i + spec_i64_string(n as int).len() as int)),
{
    let t = spec_i64_string(n as int);
    if n >= 0 {
        assert(t == spec_u64_string(n as int));
        lemma_u64_string_digits(n as int);
        assert(s[i] == t[0]) by {
            assert(s.subrange(i, i + t.len() as int)[0] == s[i + 0]);
        }
        assert(is_digit(t[0]));
        assert(s[i] != '-') by {
            assert('-' as u32 == 45);
        }
        lemma_scan_u64_of_string(n as u64, s, i);
    } else {
        let mag = -(n as int);
        let u = spec_u64_string(mag);
        assert(t == seq!['-'] + u);
        assert(s[i] == '-') by {
            assert(s.subrange(i, i + t.len() as int)[0] == s[i + 0]);
            assert(t[0] == '-');
        }
        assert(seq!['-'] + u =~= seq!['-'] + u);
        lemma_split_chunk(s, i, seq!['-'], u);
        let m64: u64 = mag as u64;
        assert(u == spec_u64_string(m64 as int));
        lemma_scan_u64_of_string(m64, s, i + 1);
    }
}

/// A successful decimal scan moves forward and stays in bounds.
pub proof fn lemma_scan_u64_bounds(s: Seq<char>, i: int)
    requires
        0 <= i <= s.len(),
    ensures
        (match spec_scan_u64(s, i) {
            Some((v, e)) => i < e <= s.len(),
            None => true,
        }),
{
    lemma_digit_run_end(s, i);
}

/// A successful signed scan moves forward and stays in bounds.
pub proof fn lemma_scan_i64_bounds(s: Seq<char>, i: int)
    requires
        0 <= i <= s.len(),
    ensures
        (match spec_scan_i64(s, i) {
            Some((v, e)) => i < e <= s.len(),
            None => true,
        }),
{
    lemma_digit_run_end(s, i);
    if 0 <= i < s.len() && s[i] == '-' {
        lemma_scan_u64_bounds(s, i + 1);
    } else {
        lemma_scan_u64_bounds(s, i);
    }
}

/// First index at or after `i` that holds a semicolon (or the end).
pub open spec fn spec_semi_end(s: Seq<char>, i: int) -> int
    decreases s.len() - i,
{
    if i < 0 || i >= s.len() {
        i
    } else if s[i] == ';' {
        i
    } else {
        spec_semi_end(s, i + 1)
    }
}

proof fn lemma_semi_end(s: Seq<char>, i: int)
    requires
        0 <= i <= s.len(),
    ensures
        i <= spec_semi_end(s, i) <= s.len(),
        forall|k: int| i <= k < spec_semi_end(s, i) ==> #[trigger] s[k] != ';',
        spec_semi_end(s, i) < s.len() ==> s[spec_semi_end(s, i)] == ';',
    decreases s.len() - i,
{
    if i < s.len() && s[i] != ';' {
        lemma_semi_end(s, i + 1);
    }
}

/// The pieces of `s` from `i` on, split at semicolons.
pub open spec fn spec_split_semi(s: Seq<char>, i: int) -> Seq<Seq<char>>
    decreases s.len() - i,
{
    let e = spec_semi_end(s, i);
    if i < 0 || e >= s.len() {
        seq![s.subrange(smax_int(i, 0), s.len() as int)]
    } else if i <= e {
        seq![s.subrange(i, e)] + spec_split_semi(s, e + 1)
    } else {
        Seq::empty()
    }
}

pub open spec fn smax_int(a: int, b: int) -> int {
    if a >= b {
        a
    } else {
        b
    }
}

/// Names joined with semicolons.
pub open spec fn spec_join_semi(l: Seq<Seq<char>>) -> Seq<char>
    decreases l.len(),
{
    if l.len() == 0 {
        Seq::empty()
    } else if l.len() == 1 {
        l[0]
    } else {
        l[0] + (seq![';'] + spec_join_semi(l.drop_first()))
    }
}

/// Splitting a joined list of semicolon-free names gives the list back.
pub proof fn lemma_join_split_semi(l: Seq<Seq<char>>, s: Seq<char>, i: int)
    requires
        l.len() >= 1,
        forall|x: int, k: int|
            0 <= x < l.len() && 0 <= k < l[x].len() ==> #[trigger] l[x][k] != ';',
        0 <= i,
        i + spec_join_semi(l).len() == s.len(),
        s.subrange(i, s.len() as int) == spec_join_semi(l),
    ensures
        spec_split_semi(s, i) == l,
    decreases l.len(),
{
    let t = spec_join_semi(l);
    if l.len() == 1 {
        assert(t == l[0]);
        assert forall|k: int| i <= k < s.len() implies #[trigger] s[k] != ';' by {
            assert(s.subrange(i, s.len() as int)[k - i] == s[k]);
            assert(l[0][k - i] != ';');
        }
        lemma_semi_end(s, i);
        assert(spec_semi_end(s, i) == s.len()) by {
            lemma_semi_end_all(s, i);
        }
        assert(spec_split_semi(s, i) == seq![s.subrange(i, s.len() as int)]);
        assert(seq![l[0]] =~= l);
    } else {
        let a = l[0];
        let rest = l.drop_first();
        assert(t == a + (seq![';'] + spec_join_semi(rest)));
        let e = i + a.len() as int;
        assert forall|k: int| 0 <= k < t.len() implies s[i + k] == t[k] by {
            assert(s.subrange(i, s.len() as int)[k] == s[i + k]);
        }
        assert forall|k: int| i <= k < e implies #[trigger] s[k] != ';' by {
            assert(s[k] == t[k - i]);
            assert(t[k - i] == a[k - i]);
        }
        assert(s[e] == ';') by {
            assert(s[i + a.len()] == t[a.len() as int]);
            assert(t[a.len() as int] == ';');
        }
        lemma_semi_end_upto(s, i, e);
        assert(s.subrange(i, e) =~= a) by {
            assert(forall|k: int| 0 <= k < a.len() ==> s.subrange(i, e)[k] == s[i + k] && #[trigger] t[k] == a[k]);
        }
        assert(s.subrange(e + 1, s.len() as int) =~= spec_join_semi(rest)) by {
            assert forall|k: int|
                0 <= k < spec_join_semi(rest).len() implies s.subrange(e + 1, s.len() as int)[k]
                == spec_join_semi(rest)[k] by {
                assert(s.subrange(e + 1, s.len() as int)[k] == s[e + 1 + k]);
                assert(s[e + 1 + k] == t[a.len() + 1 + k]);
                assert(t[a.len() + 1 + k] == (seq![';'] + spec_join_semi(rest))[1 + k]);
            }
        }
        lemma_join_split_semi(rest, s, e + 1);
        assert(spec_split_semi(s, i) == seq![s.subrange(i, e)] + spec_split_semi(s, e + 1));
        assert(seq![a] + rest =~= l);
    }
}

proof fn lemma_semi_end_all(s: Seq<char>, i: int)
    requires
        0 <= i <= s.len(),
        forall|k: int| i <= k < s.len() ==> #[trigger] s[k] != ';',
    ensures
        spec_semi_end(s, i) == s.len(),
    decreases s.len() - i,
{
    if i < s.len() {
        lemma_semi_end_all(s, i + 1);
    }
}

proof fn lemma_semi_end_upto(s: Seq<char>, i: int, e: int)
    requires
        0 <= i <= e < s.len(),
        forall|k: int| i <= k < e ==> #[trigger] s[k] != ';',
        s[e] == ';',
    ensures
        spec_semi_end(s, i) == e,
    decreases e - i,
{
    if i < e {
        lemma_semi_end_upto(s, i + 1, e);
    }
}

/// Join names with semicolons.
pub fn join_semi(l: &Vec<String>) -> (r: String)
    requires
        l@.len() >= 1,
    ensures
        r@ == spec_join_semi(Seq::new(l@.len(), |x: int| l@[x]@)),
{
    let ghost lv = Seq::new(l@.len(), |x: int| l@[x]@);
    let mut out = String::new();
    out.append(l[0].as_str());
    proof {
        if lv.len() == 1 {
            assert(out@ =~= spec_join_semi(lv.subrange(0, 1)));
        }
        assert(out@ =~= spec_join_semi(lv.subrange(0, 1))) by {
            assert(lv.subrange(0, 1).len() == 1);
            assert(lv.subrange(0, 1)[0] == lv[0]);
        }
    }
    let mut i: usize = 1;
    while i < l.len()
        invariant
            1 <= i <= l@.len(),
            lv == Seq::new(l@.len(), |x: int| l@[x]@),
            out@ == spec_join_semi(lv.subrange(0, i as int)),
        decreases l@.len() - i,
    {
        proof {
            reveal_strlit(";");
        }
        out.append(";");
        out.append(l[i].as_str());
        proof {
            assert(";"@ =~= seq![';']);
            lemma_join_semi_snoc(lv.subrange(0, i as int), lv[i as int]);
            assert(lv.subrange(0, i as int).push(lv[i as int]) =~= lv.subrange(0, i as int + 1));
            assert(out@ =~= spec_join_semi(lv.subrange(0, i as int + 1)));
        }
        i = i + 1;
    }
    proof {
        assert(lv.subrange(0, lv.len() as int) =~= lv);
    }
    out
}

proof fn lemma_join_semi_snoc(l: Seq<Seq<char>>, x: Seq<char>)
    requires
        l.len() >= 1,
    ensures
        spec_join_semi(l.push(x)) == spec_join_semi(l) + (seq![';'] + x),
    decreases l.len(),
{
    let lp = l.push(x);
    if l.len() == 1 {
        assert(lp.drop_first() =~= seq![x]);
        assert(lp[0] == l[0]);
        assert(seq![x][0] == x);
        assert(spec_join_semi(seq![x]) == x);
    } else {
        lemma_join_semi_snoc(l.drop_first(), x);
        assert(lp.drop_first() =~= l.drop_first().push(x));
        assert(lp[0] == l[0]);
        assert(l[0] + (seq![';'] + (spec_join_semi(l.drop_first()) + (seq![';'] + x))) =~= (l[0]
            + (seq![';'] + spec_join_semi(l.drop_first()))) + (seq![';'] + x));
    }
}

/// Split `s` at semicolons, from character `i` on.
pub fn split_semi(s: &str, i: usize) -> (r: Vec<String>)
    requires
        i <= s@.len(),
    ensures
        Seq::new(r@.len(), |x: int| r@[x]@) == spec_split_semi(s@, i as int),
    decreases s@.len() - i,
{
    let n = s.unicode_len();
    let mut e: usize = i;
    while e < n && s.get_char(e) != ';'
        invariant
            i <= e <= n,
            n == s@.len(),
            spec_semi_end(s@, i as int) == spec_semi_end(s@, e as int),
        decreases n - e,
    {
        e = e + 1;
    }
    proof {
        assert(spec_semi_end(s@, e as int) == e as int);
    }
    let piece = s.substring_char(i, e).to_owned();
    if e == n {
        let mut out: Vec<String> = Vec::new();
        out.push(piece);
        proof {
            assert(Seq::new(out@.len(), |x: int| out@[x]@) =~= spec_split_semi(s@, i as int));
        }
        out
    } else {
        let mut rest = split_semi(s, e + 1);
        let mut out: Vec<String> = Vec::new();
        out.push(piece);
        let ghost rv = Seq::new(rest@.len(), |x: int| rest@[x]@);
        out.append(&mut rest);
        proof {
            assert(Seq::new(out@.len(), |x: int| out@[x]@) =~= seq![piece@] + rv);
            assert(seq![piece@] + rv =~= spec_split_semi(s@, i as int));
        }
        out
    }
}

/// A successful quoted-field parse moves forward and stays in bounds.
pub proof fn lemma_parse_quoted_bounds(s: Seq<char>, i: int)
    ensures
        (match spec_parse_quoted(s, i) {
            Some((t, e)) => i < e <= s.len(),
            None => true,
        }),
{
    if 0 <= i < s.len() && s[i] == '"' {
        lemma_scan_quoted_bounds(s, i + 1);
    }
}

proof fn lemma_scan_quoted_bounds(s: Seq<char>, j: int)
    requires
        0 <= j,
    ensures
        (match spec_scan_quoted(s, j) {
            Some((t, e)) => j < e <= s.len(),
            None => true,
        }),
    decreases s.len() - j,
{
    if j < s.len() {
        if s[j] == '"' {
            if j + 1 < s.len() && s[j + 1] == '"' {
                lemma_scan_quoted_bounds(s, j + 2);
            }
        } else {
            lemma_scan_quoted_bounds(s, j + 1);
        }
    }
}

} // verus!
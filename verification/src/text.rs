//! Small verified helpers over strings: equality, case-insensitive
//! character matching, and substring search.

use vstd::prelude::*;

verus! {

/// Compare two strings character by character.
pub fn str_eq(a: &str, b: &str) -> (r: bool)
    ensures
        r == (a@ == b@),
{
    let na = a.unicode_len();
    let nb = b.unicode_len();
    if na != nb {
        proof {
            if a@ == b@ {
                assert(a@.len() == b@.len());
            }
        }
        return false;
    }
    let mut i: usize = 0;
    while i < na
        invariant
            a@.len() == na,
            b@.len() == nb,
            na == nb,
            i <= na,
            forall|j: int| 0 <= j < i ==> a@[j] == b@[j],
        decreases na - i,
    {
        if a.get_char(i) != b.get_char(i) {
            proof {
                if a@ == b@ {
                    assert(a@[i as int] == b@[i as int]);
                }
            }
            return false;
        }
        i = i + 1;
    }
    proof {
        assert(a@ =~= b@);
    }
    true
}

/// `c` equals the lower-case letter `l`, ignoring ASCII case.  `l` is meant
/// to be a lower-case letter or another non-upper-case character.
pub open spec fn eq_ignore_case(c: char, l: char) -> bool {
    c == l || (97 <= l as u32 <= 122 && c as u32 + 32 == l as u32)
}

/// Exec twin of [`eq_ignore_case`].
pub fn char_eq_ignore_case(c: char, l: char) -> (r: bool)
    ensures
        r == eq_ignore_case(c, l),
{
    if c == l {
        true
    } else {
        let cu = c as u32;
        let lu = l as u32;
        97 <= lu && lu <= 122 && cu + 32 == lu
    }
}

/// `pat` occurs in `s` as a contiguous run.
pub open spec fn spec_contains(s: Seq<char>, pat: Seq<char>) -> bool {
    exists|i: int|
        #![trigger s.subrange(i, i + pat.len() as int)]
        0 <= i && i + pat.len() <= s.len() && s.subrange(i, i + pat.len() as int) == pat
}

/// Substring search, character by character.
pub fn contains_str(s: &str, pat: &str) -> (r: bool)
    ensures
        r == spec_contains(s@, pat@),
{
    let n = s.unicode_len();
    let m = pat.unicode_len();
    if m > n {
        return false;
    }
    if m == 0 {
        proof {
            assert(s@.subrange(0, 0 + pat@.len() as int) =~= pat@);
        }
        return true;
    }
    let mut i: usize = 0;
    while i <= n - m
        invariant
            s@.len() == n,
            pat@.len() == m,
            1 <= m <= n,
            i <= n - m + 1,
            forall|x: int|
                #![trigger s@.subrange(x, x + m as int)]
                0 <= x < i ==> s@.subrange(x, x + m as int) != pat@,
        decreases n - i,
    {
        let mut j: usize = 0;
        let mut ok = true;
        while j < m
            invariant
                s@.len() == n,
                pat@.len() == m,
                i + m <= n,
                j <= m,
                ok ==> forall|y: int| 0 <= y < j ==> s@[i + y] == pat@[y],
                !ok ==> s@.subrange(i as int, i + m as int) != pat@,
            decreases m - j,
        {
            if s.get_char(i + j) != pat.get_char(j) {
                proof {
                    if s@.subrange(i as int, i + m as int) == pat@ {
                        assert(s@.subrange(i as int, i + m as int)[j as int] == pat@[j as int]);
                    }
                }
                ok = false;
                j = m;
            } else {
                j = j + 1;
            }
        }
        if ok {
            proof {
                assert(s@.subrange(i as int, i + pat@.len() as int) =~= pat@);
            }
            return true;
        }
        i = i + 1;
    }
    proof {
        assert forall|x: int|
            #![trigger s@.subrange(x, x + pat@.len() as int)]
            !(0 <= x && x + pat@.len() <= s@.len() && s@.subrange(x, x + pat@.len() as int)
                == pat@) by {
            if 0 <= x && x + m <= n {
                assert(x < i);
            }
        }
    }
    false
}

/// Index of the last occurrence of `c` in `s`, if any.
pub open spec fn find_last(s: Seq<char>, c: char) -> Option<int>
    decreases s.len(),
{
    if s.len() == 0 {
        None
    } else if s.last() == c {
        Some(s.len() - 1)
    } else {
        find_last(s.drop_last(), c)
    }
}

pub proof fn lemma_find_last_none(s: Seq<char>, c: char)
    requires
        forall|i: int| 0 <= i < s.len() ==> s[i] != c,
    ensures
        find_last(s, c) is None,
    decreases s.len(),
{
    if s.len() > 0 {
        assert(forall|i: int| 0 <= i < s.len() - 1 ==> s.drop_last()[i] == #[trigger] s[i]);
        lemma_find_last_none(s.drop_last(), c);
    }
}

pub proof fn lemma_find_last_at(s: Seq<char>, c: char, j: int)
    requires
        0 <= j < s.len(),
        s[j] == c,
        forall|i: int| j < i < s.len() ==> s[i] != c,
    ensures
        find_last(s, c) == Some(j),
    decreases s.len(),
{
    if j == s.len() - 1 {
    } else {
        assert(s.last() != c);
        assert(forall|i: int| 0 <= i < s.len() - 1 ==> s.drop_last()[i] == #[trigger] s[i]);
        lemma_find_last_at(s.drop_last(), c, j);
    }
}

/// The final path component: what follows the last slash.
pub open spec fn spec_last_component(s: Seq<char>) -> Seq<char> {
    match find_last(s, '/') {
        Some(i) => s.subrange(i + 1, s.len() as int),
        None => s,
    }
}

/// The extension of a path: what follows the last dot of its final
/// component, unless that dot starts the component (a hidden file).
pub open spec fn spec_extension(s: Seq<char>) -> Option<Seq<char>> {
    let comp = spec_last_component(s);
    match find_last(comp, '.') {
        None => None,
        Some(j) => if j == 0 {
            None
        } else {
            Some(comp.subrange(j + 1, comp.len() as int))
        },
    }
}

/// Find the last occurrence of `c` in `s`.
pub fn find_last_char(s: &str, c: char) -> (r: Option<usize>)
    ensures
        (match (r, find_last(s@, c)) {
            (Some(i), Some(si)) => i as int == si && i < s@.len(),
            (None, None) => true,
            _ => false,
        }),
{
    let n = s.unicode_len();
    let mut k: usize = n;
    while k > 0
        invariant
            k <= n,
            n == s@.len(),
            forall|i: int| k <= i < n ==> s@[i] != c,
        decreases k,
    {
        k = k - 1;
        if s.get_char(k) == c {
            proof {
                lemma_find_last_at(s@, c, k as int);
            }
            return Some(k);
        }
    }
    proof {
        lemma_find_last_none(s@, c);
    }
    None
}

/// The extension of `path`, when it has one.
pub fn extension_of(path: &str) -> (r: Option<String>)
    ensures
        (match (r, spec_extension(path@)) {
            (Some(e), Some(se)) => e@ == se,
            (None, None) => true,
            _ => false,
        }),
{
    let n = path.unicode_len();
    let start: usize = match find_last_char(path, '/') {
        Some(i) => i + 1,
        None => 0,
    };
    let comp = path.substring_char(start, n);
    proof {
        assert(comp@ =~= spec_last_component(path@));
    }
    match find_last_char(comp, '.') {
        None => None,
        Some(j) => {
            if j == 0 {
                None
            } else {
                let m = comp.unicode_len();
                let e = comp.substring_char(j + 1, m).to_owned();
                proof {
                    assert(e@ =~= spec_extension(path@).unwrap());
                }
                Some(e)
            }
        },
    }
}

/// `a` spells the (lower-case) pattern `b`, ignoring ASCII case.
pub open spec fn matches_ci(a: Seq<char>, b: Seq<char>) -> bool {
    a.len() == b.len() && forall|i: int| 0 <= i < a.len() ==> eq_ignore_case(a[i], b[i])
}

/// Case-insensitive comparison against a lower-case literal.
pub fn str_matches_ci(a: &str, b: &str) -> (r: bool)
    ensures
        r == matches_ci(a@, b@),
{
    let na = a.unicode_len();
    let nb = b.unicode_len();
    if na != nb {
        return false;
    }
    let mut i: usize = 0;
    while i < na
        invariant
            a@.len() == na == nb == b@.len(),
            i <= na,
            forall|j: int| 0 <= j < i ==> eq_ignore_case(a@[j], b@[j]),
        decreases na - i,
    {
        if !char_eq_ignore_case(a.get_char(i), b.get_char(i)) {
            return false;
        }
        i = i + 1;
    }
    true
}

/// The ASCII upper-case counterpart of a character.
pub open spec fn upper_char(c: char) -> char {
    match c {
        'a' => 'A',
        'b' => 'B',
        'c' => 'C',
        'd' => 'D',
        'e' => 'E',
        'f' => 'F',
        'g' => 'G',
        'h' => 'H',
        'i' => 'I',
        'j' => 'J',
        'k' => 'K',
        'l' => 'L',
        'm' => 'M',
        'n' => 'N',
        'o' => 'O',
        'p' => 'P',
        'q' => 'Q',
        'r' => 'R',
        's' => 'S',
        't' => 'T',
        'u' => 'U',
        'v' => 'V',
        'w' => 'W',
        'x' => 'X',
        'y' => 'Y',
        'z' => 'Z',
        _ => c,
    }
}

pub open spec fn spec_upper(s: Seq<char>) -> Seq<char> {
    Seq::new(s.len(), |i: int| upper_char(s[i]))
}

fn upper_char_str(c: char) -> (r: Option<&'static str>)
    ensures
        (match r {
            Some(t) => t@ == seq![upper_char(c)] && upper_char(c) != c,
            None => upper_char(c) == c,
        }),
{
    proof {
        reveal_strlit("A");
        reveal_strlit("B");
        reveal_strlit("C");
        reveal_strlit("D");
        reveal_strlit("E");
        reveal_strlit("F");
        reveal_strlit("G");
        reveal_strlit("H");
        reveal_strlit("I");
        reveal_strlit("J");
        reveal_strlit("K");
        reveal_strlit("L");
        reveal_strlit("M");
        reveal_strlit("N");
        reveal_strlit("O");
        reveal_strlit("P");
        reveal_strlit("Q");
        reveal_strlit("R");
        reveal_strlit("S");
        reveal_strlit("T");
        reveal_strlit("U");
        reveal_strlit("V");
        reveal_strlit("W");
        reveal_strlit("X");
        reveal_strlit("Y");
        reveal_strlit("Z");
    }
    match c {
        'a' => Some("A"),
        'b' => Some("B"),
        'c' => Some("C"),
        'd' => Some("D"),
        'e' => Some("E"),
        'f' => Some("F"),
        'g' => Some("G"),
        'h' => Some("H"),
        'i' => Some("I"),
        'j' => Some("J"),
        'k' => Some("K"),
        'l' => Some("L"),
        'm' => Some("M"),
        'n' => Some("N"),
        'o' => Some("O"),
        'p' => Some("P"),
        'q' => Some("Q"),
        'r' => Some("R"),
        's' => Some("S"),
        't' => Some("T"),
        'u' => Some("U"),
        'v' => Some("V"),
        'w' => Some("W"),
        'x' => Some("X"),
        'y' => Some("Y"),
        'z' => Some("Z"),
        _ => None,
    }
}

/// `s` with ASCII lower-case letters raised to upper case.
pub fn to_upper_ascii(s: &str) -> (r: String)
    ensures
        r@ == spec_upper(s@),
{
    let n = s.unicode_len();
    let mut out = String::new();
    proof {
        assert(out@ =~= spec_upper(s@.take(0)));
    }
    let mut i: usize = 0;
    while i < n
        invariant
            n == s@.len(),
            i <= n,
            out@ == spec_upper(s@.take(i as int)),
        decreases n - i,
    {
        let c = s.get_char(i);
        match upper_char_str(c) {
            Some(t) => {
                out.append(t);
            },
            None => {
                let piece = s.substring_char(i, i + 1);
                out.append(piece);
                proof {
                    assert(piece@ =~= seq![s@[i as int]]);
                }
            },
        }
        proof {
            assert(out@ =~= spec_upper(s@.take(i as int + 1)));
        }
        i = i + 1;
    }
    proof {
        assert(s@.take(n as int) =~= s@);
    }
    out
}

/// What precedes the last slash of a path: the containing directory.
pub open spec fn spec_dirname(s: Seq<char>) -> Seq<char> {
    match find_last(s, '/') {
        Some(i) => s.subrange(0, i),
        None => Seq::empty(),
    }
}

/// The containing directory of a path (empty when the path has no slash).
pub fn dirname(path: &str) -> (r: String)
    ensures
        r@ == spec_dirname(path@),
{
    match find_last_char(path, '/') {
        Some(i) => path.substring_char(0, i).to_owned(),
        None => String::new(),
    }
}

/// `dir`, a slash, and `name`.
pub fn join_path(dir: &str, name: &str) -> (r: String)
    ensures
        r@ == dir@ + (seq!['/'] + name@),
{
    proof {
        reveal_strlit("/");
    }
    let mut out = dir.to_owned();
    out.append("/");
    out.append(name);
    proof {
        assert("/"@ =~= seq!['/']);
        assert(out@ =~= dir@ + (seq!['/'] + name@));
    }
    out
}

/// `s` begins with `prefix`.
pub open spec fn spec_starts_with(s: Seq<char>, prefix: Seq<char>) -> bool {
    s.len() >= prefix.len() && s.subrange(0, prefix.len() as int) == prefix
}

/// Whether `s` begins with `prefix`.
pub fn starts_with(s: &str, prefix: &str) -> (r: bool)
    ensures
        r == spec_starts_with(s@, prefix@),
{
    let n = s.unicode_len();
    let m = prefix.unicode_len();
    if m > n {
        return false;
    }
    let mut i: usize = 0;
    while i < m
        invariant
            n == s@.len(),
            m == prefix@.len(),
            m <= n,
            i <= m,
            forall|j: int| 0 <= j < i ==> s@[j] == prefix@[j],
        decreases m - i,
    {
        if s.get_char(i) != prefix.get_char(i) {
            proof {
                if s@.subrange(0, m as int) == prefix@ {
                    assert(s@.subrange(0, m as int)[i as int] == prefix@[i as int]);
                }
            }
            return false;
        }
        i = i + 1;
    }
    proof {
        assert(s@.subrange(0, m as int) =~= prefix@);
    }
    true
}

} // verus!

//! Character-level scanning primitives shared by the parsers: whitespace
//! skipping, bounded scans, brace matching, substring search, trimming and
//! splitting, each as a spec function over `Seq<char>` with a verified
//! executable counterpart over `Vec<char>`.

use vstd::prelude::*;

verus! {

/// The whitespace characters the scanners recognize.
pub open spec fn is_space_char(c: char) -> bool {
    c == ' ' || c == '\t' || c == '\n' || c == '\r' || c == '\u{c}'
}

#[verifier::when_used_as_spec(is_space_char)]
pub fn is_space(c: char) -> (r: bool)
    ensures
        r == is_space_char(c),
{
    c == ' ' || c == '\t' || c == '\n' || c == '\r' || c == '\u{c}'
}

/// First position at or after `i` holding a non-space character, or the end.
pub open spec fn spec_skip_ws(s: Seq<char>, i: int) -> int
    decreases s.len() - i,
{
    if i < 0 || i >= s.len() || !is_space_char(s[i]) {
        i
    } else {
        spec_skip_ws(s, i + 1)
    }
}

pub proof fn lemma_skip_ws_bounds(s: Seq<char>, i: int)
    requires
        0 <= i <= s.len(),
    ensures
        i <= spec_skip_ws(s, i) <= s.len(),
    decreases s.len() - i,
{
    if i < s.len() && is_space_char(s[i]) {
        lemma_skip_ws_bounds(s, i + 1);
    }
}

pub fn skip_ws(v: &Vec<char>, i: usize) -> (j: usize)
    requires
        i <= v.len(),
    ensures
        j == spec_skip_ws(v@, i as int),
        i <= j <= v.len(),
{
    let mut j: usize = i;
    while j < v.len() && is_space(v[j])
        invariant
            i <= j <= v.len(),
            spec_skip_ws(v@, i as int) == spec_skip_ws(v@, j as int),
        decreases v.len() - j,
    {
        j = j + 1;
    }
    j
}

/// First position at or after `i` holding `c`, or the end.
pub open spec fn spec_scan_to(s: Seq<char>, i: int, c: char) -> int
    decreases s.len() - i,
{
    if i < 0 || i >= s.len() || s[i] == c {
        i
    } else {
        spec_scan_to(s, i + 1, c)
    }
}

pub proof fn lemma_scan_to_bounds(s: Seq<char>, i: int, c: char)
    requires
        0 <= i <= s.len(),
    ensures
        i <= spec_scan_to(s, i, c) <= s.len(),
        spec_scan_to(s, i, c) < s.len() ==> s[spec_scan_to(s, i, c)] == c,
    decreases s.len() - i,
{
    if i < s.len() && s[i] != c {
        lemma_scan_to_bounds(s, i + 1, c);
    }
}

pub fn scan_to(v: &Vec<char>, i: usize, c: char) -> (j: usize)
    requires
        i <= v.len(),
    ensures
        j == spec_scan_to(v@, i as int, c),
        i <= j <= v.len(),
{
    let mut j: usize = i;
    while j < v.len() && v[j] != c
        invariant
            i <= j <= v.len(),
            spec_scan_to(v@, i as int, c) == spec_scan_to(v@, j as int, c),
        decreases v.len() - j,
    {
        j = j + 1;
    }
    j
}

/// First position at or after `i` holding whitespace or `extra`, or the end;
/// the scan that delimits an entity or event name.
pub open spec fn spec_scan_name_end(s: Seq<char>, i: int, extra: char) -> int
    decreases s.len() - i,
{
    if i < 0 || i >= s.len() || is_space_char(s[i]) || s[i] == extra {
        i
    } else {
        spec_scan_name_end(s, i + 1, extra)
    }
}

pub fn scan_name_end(v: &Vec<char>, i: usize, extra: char) -> (j: usize)
    requires
        i <= v.len(),
    ensures
        j == spec_scan_name_end(v@, i as int, extra),
        i <= j <= v.len(),
{
    let mut j: usize = i;
    while j < v.len() && !is_space(v[j]) && v[j] != extra
        invariant
            i <= j <= v.len(),
            spec_scan_name_end(v@, i as int, extra) == spec_scan_name_end(v@, j as int, extra),
        decreases v.len() - j,
    {
        j = j + 1;
    }
    j
}

/// Position one past the brace that brings the nesting level from `level`
/// down to zero, scanning from `i`; the end when the braces never balance.
pub open spec fn spec_brace_end(s: Seq<char>, i: int, level: int) -> int
    decreases s.len() - i,
{
    if i < 0 || i >= s.len() || level <= 0 {
        i
    } else {
        let next = if s[i] == '{' {
            level + 1
        } else if s[i] == '}' {
            level - 1
        } else {
            level
        };
        spec_brace_end(s, i + 1, next)
    }
}

pub fn brace_end(v: &Vec<char>, i: usize, level: usize) -> (j: usize)
    requires
        i <= v.len(),
        v.len() < usize::MAX,
        level <= 1 + i,
    ensures
        j == spec_brace_end(v@, i as int, level as int),
        i <= j <= v.len(),
{
    let mut j: usize = i;
    let mut lev: usize = level;
    while j < v.len() && lev > 0
        invariant
            i <= j <= v.len(),
            v.len() < usize::MAX,
            lev <= 1 + j,
            spec_brace_end(v@, i as int, level as int) == spec_brace_end(v@, j as int, lev as int),
        decreases v.len() - j,
    {
        if v[j] == '{' {
            lev = lev + 1;
        } else if v[j] == '}' {
            lev = lev - 1;
        }
        j = j + 1;
    }
    j
}

/// The position of the `)` that closes `level` open parens, scanning from
/// `i`; `None` when the parens never balance.
pub open spec fn spec_match_paren(s: Seq<char>, i: int, level: int) -> Option<int>
    decreases s.len() - i,
{
    if i < 0 || i >= s.len() || level <= 0 {
        None
    } else {
        let next = if s[i] == '(' {
            level + 1
        } else if s[i] == ')' {
            level - 1
        } else {
            level
        };
        if next == 0 {
            Some(i)
        } else {
            spec_match_paren(s, i + 1, next)
        }
    }
}

pub proof fn lemma_match_paren_bounds(s: Seq<char>, i: int, level: int)
    requires
        0 <= i <= s.len(),
    ensures
        spec_match_paren(s, i, level) is Some ==> {
            let cp = spec_match_paren(s, i, level)->Some_0;
            i <= cp < s.len() && s[cp] == ')'
        },
    decreases s.len() - i,
{
    if i < s.len() && level > 0 {
        let next = if s[i] == '(' {
            level + 1
        } else if s[i] == ')' {
            level - 1
        } else {
            level
        };
        if next != 0 {
            lemma_match_paren_bounds(s, i + 1, next);
        }
    }
}

/// Finds the `)` that closes `level` open parens, from `i` on.
pub fn match_paren(v: &Vec<char>, i: usize, level: usize) -> (r: Option<usize>)
    requires
        i <= v.len(),
        v.len() < usize::MAX,
        level <= 1 + i,
    ensures
        match r {
            Some(cp) => Some(cp as int) == spec_match_paren(v@, i as int, level as int) && i <= cp
                < v.len(),
            None => spec_match_paren(v@, i as int, level as int) is None,
        },
{
    let mut j: usize = i;
    let mut lev: usize = level;
    while j < v.len() && lev > 0
        invariant
            i <= j <= v.len(),
            v.len() < usize::MAX,
            lev <= 1 + j,
            spec_match_paren(v@, i as int, level as int) == spec_match_paren(
                v@,
                j as int,
                lev as int,
            ),
        decreases v.len() - j,
    {
        if v[j] == '(' {
            lev = lev + 1;
        } else if v[j] == ')' {
            lev = lev - 1;
            if lev == 0 {
                return Some(j);
            }
        }
        j = j + 1;
    }
    None
}

/// First comma at paren depth zero at or after `i`, starting at depth
/// `level`; the end when there is none.
pub open spec fn spec_scan_top_comma(s: Seq<char>, i: int, level: int) -> int
    decreases s.len() - i,
{
    if i < 0 || i >= s.len() || (s[i] == ',' && level == 0) {
        i
    } else {
        let next = if s[i] == '(' {
            level + 1
        } else if s[i] == ')' {
            level - 1
        } else {
            level
        };
        spec_scan_top_comma(s, i + 1, next)
    }
}

pub proof fn lemma_scan_top_comma_bounds(s: Seq<char>, i: int, level: int)
    requires
        0 <= i <= s.len(),
    ensures
        i <= spec_scan_top_comma(s, i, level) <= s.len(),
    decreases s.len() - i,
{
    if i < s.len() && !(s[i] == ',' && level == 0) {
        let next = if s[i] == '(' {
            level + 1
        } else if s[i] == ')' {
            level - 1
        } else {
            level
        };
        lemma_scan_top_comma_bounds(s, i + 1, next);
    }
}

fn scan_top_comma(v: &Vec<char>, i: usize) -> (j: usize)
    requires
        i <= v.len(),
    ensures
        j == spec_scan_top_comma(v@, i as int, 0),
        i <= j <= v.len(),
{
    let mut j: usize = i;
    let mut opens: usize = 0;
    let mut closes: usize = 0;
    while j < v.len() && !(v[j] == ',' && opens == closes)
        invariant
            i <= j <= v.len(),
            opens <= j,
            closes <= j,
            spec_scan_top_comma(v@, i as int, 0) == spec_scan_top_comma(
                v@,
                j as int,
                opens - closes,
            ),
        decreases v.len() - j,
    {
        if v[j] == '(' {
            opens = opens + 1;
        } else if v[j] == ')' {
            closes = closes + 1;
        }
        j = j + 1;
    }
    j
}

/// `s` split at every comma that sits at paren depth zero; the commas are
/// dropped and empty pieces are kept.
pub open spec fn spec_split_top(s: Seq<char>) -> Seq<Seq<char>>
    decreases s.len(),
{
    let j = spec_scan_top_comma(s, 0, 0);
    if j < 0 || j >= s.len() {
        seq![s]
    } else {
        seq![s.subrange(0, j)] + spec_split_top(s.subrange(j + 1, s.len() as int))
    }
}

/// Splits on top-level commas, parens respected.
pub fn split_top(v: &Vec<char>) -> (r: Vec<Vec<char>>)
    ensures
        r.deep_view() == spec_split_top(v@),
{
    let mut rest: Vec<char> = subvec(v, 0, v.len());
    let mut r: Vec<Vec<char>> = Vec::new();
    proof {
        assert(rest@ =~= v@);
    }
    loop
        invariant
            spec_split_top(v@) == r.deep_view() + spec_split_top(rest@),
        decreases rest@.len(),
    {
        let j = scan_top_comma(&rest, 0);
        if j >= rest.len() {
            r.push(rest);
            proof {
                assert(r.deep_view() =~~= spec_split_top(v@));
            }
            return r;
        }
        let piece = subvec(&rest, 0, j);
        let tail = subvec(&rest, j + 1, rest.len());
        let ghost r0 = r.deep_view();
        let ghost oldrest = rest@;
        r.push(piece);
        rest = tail;
        proof {
            assert(r.deep_view() =~~= r0.push(oldrest.subrange(0, j as int)));
            assert(spec_split_top(oldrest) == seq![oldrest.subrange(0, j as int)] + spec_split_top(
                oldrest.subrange(j + 1, oldrest.len() as int),
            ));
            assert(r.deep_view() + spec_split_top(rest@) =~~= spec_split_top(v@));
        }
    }
}

/// Whether `pat` occurs in `s` starting exactly at `i`.
pub open spec fn starts_with_at(s: Seq<char>, i: int, pat: Seq<char>) -> bool {
    0 <= i && i + pat.len() <= s.len() && s.subrange(i, i + pat.len()) == pat
}

pub fn at_match(v: &Vec<char>, i: usize, pat: &str) -> (r: bool)
    ensures
        r == starts_with_at(v@, i as int, pat@),
{
    let n = pat.unicode_len();
    if i > v.len() || n > v.len() - i {
        assert(!starts_with_at(v@, i as int, pat@));
        return false;
    }
    let mut k: usize = 0;
    while k < n
        invariant
            0 <= k <= n,
            i + n <= v.len(),
            n == pat@.len(),
            forall|m: int| 0 <= m < k ==> v@[i + m] == pat@[m],
        decreases n - k,
    {
        if v[i + k] != pat.get_char(k) {
            assert(v@.subrange(i as int, i + n) != pat@) by {
                assert(v@.subrange(i as int, i + n)[k as int] != pat@[k as int]);
            }
            return false;
        }
        k = k + 1;
    }
    assert(v@.subrange(i as int, i + n) =~= pat@);
    true
}

/// First position at or after `i` where `pat` occurs in `s`.
pub open spec fn spec_find_sub(s: Seq<char>, i: int, pat: Seq<char>) -> Option<int>
    decreases s.len() - i,
{
    if i < 0 {
        None
    } else if starts_with_at(s, i, pat) {
        Some(i)
    } else if i >= s.len() {
        None
    } else {
        spec_find_sub(s, i + 1, pat)
    }
}

pub fn find_sub(v: &Vec<char>, i: usize, pat: &str) -> (r: Option<usize>)
    requires
        i <= v.len(),
    ensures
        match r {
            Some(j) => i <= j <= v.len() && Some(j as int) == spec_find_sub(v@, i as int, pat@),
            None => spec_find_sub(v@, i as int, pat@) is None,
        },
{
    let mut j: usize = i;
    loop
        invariant
            i <= j <= v.len(),
            spec_find_sub(v@, i as int, pat@) == spec_find_sub(v@, j as int, pat@),
        decreases v.len() - j,
    {
        if at_match(v, j, pat) {
            return Some(j);
        }
        if j >= v.len() {
            return None;
        }
        j = j + 1;
    }
}

/// Last position `j` such that everything from `j` on is whitespace, walking
/// back from the end.
pub open spec fn spec_skip_ws_end(s: Seq<char>, j: int) -> int
    decreases j,
{
    if j <= 0 || j > s.len() || !is_space_char(s[j - 1]) {
        j
    } else {
        spec_skip_ws_end(s, j - 1)
    }
}

pub proof fn lemma_skip_ws_end_bounds(s: Seq<char>, j: int)
    requires
        0 <= j <= s.len(),
    ensures
        0 <= spec_skip_ws_end(s, j) <= j,
    decreases j,
{
    if j > 0 && is_space_char(s[j - 1]) {
        lemma_skip_ws_end_bounds(s, j - 1);
    }
}

/// `s` with leading and trailing whitespace removed. The bounds are clamped
/// into range, which changes nothing (see the bounds lemmas) but keeps the
/// definition total on its face, so that `spec_trim(s).len() <= s.len()` holds
/// definitionally wherever a recursive caller needs it.
pub open spec fn spec_trim(s: Seq<char>) -> Seq<char> {
    let a0 = spec_skip_ws(s, 0);
    let b0 = spec_skip_ws_end(s, s.len() as int);
    let a = if 0 <= a0 <= s.len() {
        a0
    } else {
        0
    };
    let b = if a <= b0 <= s.len() {
        b0
    } else {
        a
    };
    s.subrange(a, b)
}

pub fn trim_vec(v: &Vec<char>) -> (r: Vec<char>)
    ensures
        r@ == spec_trim(v@),
{
    proof {
        lemma_skip_ws_bounds(v@, 0);
        lemma_skip_ws_end_bounds(v@, v@.len() as int);
    }
    let a = skip_ws(v, 0);
    let mut b: usize = v.len();
    while b > 0 && is_space(v[b - 1])
        invariant
            0 <= b <= v.len(),
            spec_skip_ws_end(v@, v@.len() as int) == spec_skip_ws_end(v@, b as int),
        decreases b,
    {
        b = b - 1;
    }
    if a <= b {
        subvec(v, a, b)
    } else {
        Vec::new()
    }
}

/// Copy of `v[a..b]`.
pub fn subvec(v: &Vec<char>, a: usize, b: usize) -> (r: Vec<char>)
    requires
        a <= b <= v.len(),
    ensures
        r@ == v@.subrange(a as int, b as int),
{
    let mut r: Vec<char> = Vec::new();
    let mut k: usize = a;
    while k < b
        invariant
            a <= k <= b <= v.len(),
            r@ == v@.subrange(a as int, k as int),
        decreases b - k,
    {
        let c = v[k];
        r.push(c);
        proof {
            assert(r@ =~= v@.subrange(a as int, k + 1));
        }
        k = k + 1;
    }
    r
}

/// The characters of `s`, in order.
pub fn str_to_chars(s: &str) -> (v: Vec<char>)
    ensures
        v@ == s@,
{
    let n = s.unicode_len();
    let mut v: Vec<char> = Vec::new();
    let mut k: usize = 0;
    while k < n
        invariant
            0 <= k <= n,
            n == s@.len(),
            v@ == s@.subrange(0, k as int),
        decreases n - k,
    {
        let c = s.get_char(k);
        v.push(c);
        proof {
            assert(v@ =~= s@.subrange(0, k + 1));
        }
        k = k + 1;
    }
    proof {
        assert(v@ =~= s@);
    }
    v
}

/// Relies on String::push: appends the single character `c` to `s`.
#[verifier::external_body]
fn push_char(s: &mut String, c: char)
    ensures
        final(s)@ == old(s)@.push(c),
{
    s.push(c)
}

/// A `String` holding exactly the characters of `v`.
pub fn chars_to_string(v: &Vec<char>) -> (s: String)
    ensures
        s@ == v@,
{
    let mut s = String::new();
    let mut k: usize = 0;
    while k < v.len()
        invariant
            0 <= k <= v.len(),
            s@ == v@.subrange(0, k as int),
        decreases v.len() - k,
    {
        let c = v[k];
        push_char(&mut s, c);
        proof {
            assert(s@ =~= v@.subrange(0, k + 1));
        }
        k = k + 1;
    }
    proof {
        assert(s@ =~= v@);
    }
    s
}

/// `s` split at every occurrence of `sep`; the separators themselves are
/// dropped and empty pieces are kept, as `str::split` does.
pub open spec fn spec_split(s: Seq<char>, sep: char) -> Seq<Seq<char>>
    decreases s.len(),
{
    let j = spec_scan_to(s, 0, sep);
    if j < 0 || j >= s.len() {
        seq![s]
    } else {
        seq![s.subrange(0, j)] + spec_split(s.subrange(j + 1, s.len() as int), sep)
    }
}

pub fn split_vec(v: &Vec<char>, sep: char) -> (r: Vec<Vec<char>>)
    ensures
        r.deep_view() == spec_split(v@, sep),
{
    let mut rest: Vec<char> = subvec(v, 0, v.len());
    let mut r: Vec<Vec<char>> = Vec::new();
    proof {
        assert(rest@ =~= v@);
    }
    loop
        invariant
            spec_split(v@, sep) == r.deep_view() + spec_split(rest@, sep),
        decreases rest@.len(),
    {
        proof {
            lemma_scan_to_bounds(rest@, 0, sep);
        }
        let j = scan_to(&rest, 0, sep);
        if j >= rest.len() {
            let ghost r0 = r.deep_view();
            let ghost tailpart = rest@;
            r.push(rest);
            proof {
                assert(r.deep_view() =~~= r0.push(tailpart));
                assert(spec_split(tailpart, sep) =~~= seq![tailpart]);
                assert(r.deep_view() =~~= spec_split(v@, sep));
            }
            return r;
        }
        let piece = subvec(&rest, 0, j);
        let tail = subvec(&rest, j + 1, rest.len());
        let ghost r0 = r.deep_view();
        let ghost oldrest = rest@;
        r.push(piece);
        rest = tail;
        proof {
            assert(r.deep_view() =~~= r0.push(oldrest.subrange(0, j as int)));
            assert(spec_split(oldrest, sep) == seq![oldrest.subrange(0, j as int)] + spec_split(
                oldrest.subrange(j + 1, oldrest.len() as int),
                sep,
            ));
            assert(r.deep_view() + spec_split(rest@, sep) =~~= spec_split(v@, sep));
        }
    }
}

} // verus!

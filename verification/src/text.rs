//! Character classes and scanning primitives shared by every parser in the
//! crate: identifier and digit classes, whitespace trimming, maximal-run
//! scanning, and substring search, each specified over `Seq<char>`.

use vstd::prelude::*;

verus! {

// ---------------------------------------------------------------------------
// Character classes
// ---------------------------------------------------------------------------

/// The exact set of characters `char::is_whitespace` accepts (the Unicode
/// `White_Space` property).
pub open spec fn is_space(c: char) -> bool {
    ||| c == ' '
    ||| c == '\t'
    ||| c == '\n'
    ||| c == '\u{b}'
    ||| c == '\u{c}'
    ||| c == '\r'
    ||| c == '\u{85}'
    ||| c == '\u{a0}'
    ||| c == '\u{1680}'
    ||| ('\u{2000}' <= c && c <= '\u{200a}')
    ||| c == '\u{2028}'
    ||| c == '\u{2029}'
    ||| c == '\u{202f}'
    ||| c == '\u{205f}'
    ||| c == '\u{3000}'
}

pub open spec fn is_digit(c: char) -> bool {
    '0' <= c && c <= '9'
}

pub open spec fn is_bin_digit(c: char) -> bool {
    c == '0' || c == '1'
}

pub open spec fn is_hex_digit(c: char) -> bool {
    is_digit(c) || ('a' <= c && c <= 'f') || ('A' <= c && c <= 'F')
}

pub open spec fn is_ident_start(c: char) -> bool {
    ('a' <= c && c <= 'z') || ('A' <= c && c <= 'Z') || c == '_'
}

pub open spec fn is_ident_char(c: char) -> bool {
    is_ident_start(c) || is_digit(c)
}

pub open spec fn digit_val(c: char) -> int {
    c as int - '0' as int
}

pub open spec fn hex_val(c: char) -> int {
    if is_digit(c) {
        digit_val(c)
    } else if 'a' <= c && c <= 'f' {
        c as int - 'a' as int + 10
    } else {
        c as int - 'A' as int + 10
    }
}

/// A non-empty run of decimal digits.
pub open spec fn is_digits(s: Seq<char>) -> bool {
    s.len() > 0 && forall|k: int| 0 <= k < s.len() ==> is_digit(#[trigger] s[k])
}

/// A non-empty run of binary digits.
pub open spec fn is_bin_digits(s: Seq<char>) -> bool {
    s.len() > 0 && forall|k: int| 0 <= k < s.len() ==> is_bin_digit(#[trigger] s[k])
}

/// A non-empty run of hexadecimal digits.
pub open spec fn is_hex_digits(s: Seq<char>) -> bool {
    s.len() > 0 && forall|k: int| 0 <= k < s.len() ==> is_hex_digit(#[trigger] s[k])
}

/// An identifier: a letter or underscore followed by letters, digits or
/// underscores.
pub open spec fn is_ident(s: Seq<char>) -> bool {
    &&& s.len() > 0
    &&& is_ident_start(s[0])
    &&& forall|k: int| 0 <= k < s.len() ==> is_ident_char(#[trigger] s[k])
}

// ---------------------------------------------------------------------------
// Numeric value of digit strings
// ---------------------------------------------------------------------------

/// The integer a digit string denotes, leading zeros and all.
pub open spec fn digits_val(s: Seq<char>) -> int
    decreases s.len(),
{
    if s.len() == 0 {
        0
    } else {
        digits_val(s.drop_last()) * 10 + digit_val(s.last())
    }
}

/// The integer a string of base-`radix` digits denotes.
pub open spec fn radix_val(s: Seq<char>, radix: int) -> int
    decreases s.len(),
{
    if s.len() == 0 {
        0
    } else {
        radix_val(s.drop_last(), radix) * radix + hex_val(s.last())
    }
}

// ---------------------------------------------------------------------------
// Runs, searching, prefixes, trimming
// ---------------------------------------------------------------------------

pub open spec fn space_pred() -> spec_fn(char) -> bool {
    |c: char| is_space(c)
}

pub open spec fn digit_pred() -> spec_fn(char) -> bool {
    |c: char| is_digit(c)
}

pub open spec fn ident_char_pred() -> spec_fn(char) -> bool {
    |c: char| is_ident_char(c)
}

pub open spec fn nonspace_pred() -> spec_fn(char) -> bool {
    |c: char| !is_space(c)
}

pub open spec fn ident_start_pred() -> spec_fn(char) -> bool {
    |c: char| is_ident_start(c)
}

/// Length of the maximal run of characters satisfying `p` starting at `i`.
pub open spec fn run_len(s: Seq<char>, i: int, p: spec_fn(char) -> bool) -> int
    decreases s.len() - i when 0 <= i <= s.len()
{
    if i >= s.len() || !p(s[i]) {
        0
    } else {
        1 + run_len(s, i + 1, p)
    }
}

/// What `run_len` returns: every character of the run satisfies `p`, and the
/// run is maximal.
pub proof fn lemma_run_len(s: Seq<char>, i: int, p: spec_fn(char) -> bool)
    requires
        0 <= i <= s.len(),
    ensures
        0 <= run_len(s, i, p),
        i + run_len(s, i, p) <= s.len(),
        forall|k: int| i <= k < i + run_len(s, i, p) ==> p(s[k]),
        i + run_len(s, i, p) < s.len() ==> !p(s[i + run_len(s, i, p)]),
    decreases s.len() - i,
{
    if i < s.len() && p(s[i]) {
        lemma_run_len(s, i + 1, p);
    }
}

/// The characterization of `lemma_run_len` determines the run length.
pub proof fn lemma_run_len_unique(s: Seq<char>, i: int, p: spec_fn(char) -> bool, m: int)
    requires
        0 <= i <= m <= s.len(),
        forall|k: int| i <= k < m ==> p(s[k]),
        m < s.len() ==> !p(s[m]),
    ensures
        run_len(s, i, p) == m - i,
    decreases s.len() - i,
{
    if i < m {
        lemma_run_len_unique(s, i + 1, p, m);
    }
}

/// Index of the first occurrence of `c` at or after `i`; `s.len()` if absent.
pub open spec fn find_from(s: Seq<char>, i: int, c: char) -> int
    decreases s.len() - i when 0 <= i <= s.len()
{
    if i >= s.len() {
        s.len() as int
    } else if s[i] == c {
        i
    } else {
        find_from(s, i + 1, c)
    }
}

pub open spec fn find_char(s: Seq<char>, c: char) -> int {
    find_from(s, 0, c)
}

pub proof fn lemma_find_from(s: Seq<char>, i: int, c: char)
    requires
        0 <= i <= s.len(),
    ensures
        i <= find_from(s, i, c) <= s.len(),
        forall|k: int| i <= k < find_from(s, i, c) ==> s[k] != c,
        find_from(s, i, c) < s.len() ==> s[find_from(s, i, c)] == c,
    decreases s.len() - i,
{
    if i < s.len() && s[i] != c {
        lemma_find_from(s, i + 1, c);
    }
}

pub proof fn lemma_find_from_unique(s: Seq<char>, i: int, c: char, m: int)
    requires
        0 <= i <= m <= s.len(),
        forall|k: int| i <= k < m ==> s[k] != c,
        m < s.len() ==> s[m] == c,
    ensures
        find_from(s, i, c) == if m < s.len() { m } else { s.len() as int },
    decreases s.len() - i,
{
    if i < m {
        lemma_find_from_unique(s, i + 1, c, m);
    }
}

/// Index of the first position at or after `i` whose character satisfies `p`;
/// `s.len()` if there is none.
pub open spec fn find_if(s: Seq<char>, i: int, p: spec_fn(char) -> bool) -> int
    decreases s.len() - i when 0 <= i <= s.len()
{
    if i >= s.len() {
        s.len() as int
    } else if p(s[i]) {
        i
    } else {
        find_if(s, i + 1, p)
    }
}

pub proof fn lemma_find_if_unique(s: Seq<char>, i: int, p: spec_fn(char) -> bool, m: int)
    requires
        0 <= i <= m <= s.len(),
        forall|k: int| i <= k < m ==> !p(s[k]),
        m < s.len() ==> p(s[m]),
    ensures
        find_if(s, i, p) == if m < s.len() { m } else { s.len() as int },
    decreases s.len() - i,
{
    if i < m {
        lemma_find_if_unique(s, i + 1, p, m);
    }
}

/// Index of the first `//` at or after `i`; `s.len()` if there is none.
pub open spec fn find_two_slashes(s: Seq<char>, i: int) -> int
    decreases s.len() - i when 0 <= i <= s.len()
{
    if i + 2 > s.len() {
        s.len() as int
    } else if s[i] == '/' && s[i + 1] == '/' {
        i
    } else {
        find_two_slashes(s, i + 1)
    }
}

pub proof fn lemma_find_two_slashes(s: Seq<char>, i: int)
    requires
        0 <= i <= s.len(),
    ensures
        i <= find_two_slashes(s, i) <= s.len(),
        find_two_slashes(s, i) < s.len() ==> find_two_slashes(s, i) + 2 <= s.len()
            && s[find_two_slashes(s, i)] == '/' && s[find_two_slashes(s, i) + 1] == '/',
        forall|k: int|
            i <= k < find_two_slashes(s, i) && k + 2 <= s.len() ==> !(#[trigger] s[k] == '/' && s[k
                + 1] == '/'),
    decreases s.len() - i,
{
    if i + 2 <= s.len() && !(s[i] == '/' && s[i + 1] == '/') {
        lemma_find_two_slashes(s, i + 1);
    }
}

pub proof fn lemma_find_two_slashes_unique(s: Seq<char>, i: int, m: int)
    requires
        0 <= i <= m <= s.len(),
        forall|k: int|
            i <= k < m && k + 2 <= s.len() ==> !(#[trigger] s[k] == '/' && s[k + 1] == '/'),
        m + 2 <= s.len() ==> s[m] == '/' && s[m + 1] == '/',
    ensures
        find_two_slashes(s, i) == if m + 2 <= s.len() { m } else { s.len() as int },
    decreases s.len() - i,
{
    if i < m && i + 2 <= s.len() {
        lemma_find_two_slashes_unique(s, i + 1, m);
    } else if i < m {
        lemma_find_two_slashes_unique(s, i + 1, m);
    }
}

/// First position of `//` at or after `i`, or `s.len()` if there is none.
pub fn find_two_slashes_from(s: &Vec<char>, i: usize) -> (r: usize)
    requires
        i <= s@.len(),
    ensures
        r == find_two_slashes(s@, i as int),
        i <= r <= s@.len(),
{
    let n = s.len();
    let mut j: usize = i;
    while n - j > 1 && !(s[j] == '/' && s[j + 1] == '/')
        invariant
            i <= j <= n == s@.len(),
            forall|k: int|
                i <= k < j && k + 2 <= s@.len() ==> !(#[trigger] s@[k] == '/' && s@[k + 1] == '/'),
        decreases n - j,
    {
        j = j + 1;
    }
    if n - j > 1 {
        proof {
            lemma_find_two_slashes_unique(s@, i as int, j as int);
        }
        j
    } else {
        proof {
            lemma_find_two_slashes_unique(s@, i as int, s@.len() as int);
        }
        n
    }
}

/// First position at or after `i` holding an identifier-start character, or
/// `s.len()` if there is none.
pub fn find_ident_start_from(s: &Vec<char>, i: usize) -> (r: usize)
    requires
        i <= s@.len(),
    ensures
        r == find_if(s@, i as int, ident_start_pred()),
        i <= r <= s@.len(),
{
    let mut j: usize = i;
    while j < s.len() && !is_ident_start_c(s[j])
        invariant
            i <= j <= s@.len(),
            forall|k: int| i <= k < j ==> !is_ident_start(s@[k]),
        decreases s@.len() - j,
    {
        j = j + 1;
    }
    proof {
        lemma_find_if_unique(s@, i as int, ident_start_pred(), j as int);
    }
    j
}

/// Length of the maximal run of non-whitespace starting at `i`.
pub fn nonspace_run(s: &Vec<char>, i: usize) -> (r: usize)
    requires
        i <= s@.len(),
    ensures
        r == run_len(s@, i as int, nonspace_pred()),
        i + r <= s@.len(),
{
    let mut j: usize = i;
    while j < s.len() && !is_space_c(s[j])
        invariant
            i <= j <= s@.len(),
            forall|k: int| i <= k < j ==> !is_space(s@[k]),
        decreases s@.len() - j,
    {
        j = j + 1;
    }
    proof {
        lemma_run_len_unique(s@, i as int, nonspace_pred(), j as int);
    }
    j - i
}

/// The views of a sequence of character vectors.
pub open spec fn views_of(v: Seq<Vec<char>>) -> Seq<Seq<char>> {
    v.map_values(|x: Vec<char>| x@)
}

/// The whitespace-separated words of `s` from position `i` on, in order.
pub open spec fn split_ws_from(s: Seq<char>, i: int) -> Seq<Seq<char>>
    decreases s.len() - i when 0 <= i <= s.len() via split_ws_from_dec
{
    let sp = run_len(s, i, space_pred());
    if i + sp >= s.len() {
        Seq::empty()
    } else {
        let w = run_len(s, i + sp, nonspace_pred());
        seq![s.subrange(i + sp, i + sp + w)] + split_ws_from(s, i + sp + w)
    }
}

#[via_fn]
proof fn split_ws_from_dec(s: Seq<char>, i: int) {
    lemma_run_len(s, i, space_pred());
    let sp = run_len(s, i, space_pred());
    if i + sp < s.len() {
        lemma_run_len(s, i + sp, nonspace_pred());
        assert(run_len(s, i + sp, nonspace_pred()) >= 1) by {
            assert(!(space_pred()(s[i + sp])));
            assert(nonspace_pred()(s[i + sp]));
        }
    }
}

/// The whitespace-separated words of `s`.
pub open spec fn spec_split_ws(s: Seq<char>) -> Seq<Seq<char>> {
    split_ws_from(s, 0)
}

/// Split `s` into whitespace-separated words.
pub fn split_ws(s: &Vec<char>) -> (r: Vec<Vec<char>>)
    ensures
        views_of(r@) == spec_split_ws(s@),
{
    let n = s.len();
    let mut r: Vec<Vec<char>> = Vec::new();
    let mut pos: usize = 0;
    proof {
        assert(views_of(r@) + split_ws_from(s@, 0) =~= split_ws_from(s@, 0));
    }
    loop
        invariant
            pos <= n,
            n == s@.len(),
            spec_split_ws(s@) == views_of(r@) + split_ws_from(s@, pos as int),
        decreases n - pos,
    {
        let sp = space_run(s, pos);
        if pos + sp >= n {
            proof {
                assert(split_ws_from(s@, pos as int) =~= Seq::<Seq<char>>::empty());
                assert(views_of(r@) + Seq::<Seq<char>>::empty() =~= views_of(r@));
            }
            return r;
        }
        let w = nonspace_run(s, pos + sp);
        proof {
            lemma_run_len(s@, pos as int, space_pred());
            lemma_run_len(s@, (pos + sp) as int, nonspace_pred());
            assert(!(space_pred()(s@[pos + sp])));
            assert(nonspace_pred()(s@[pos + sp]));
            assert(w >= 1);
        }
        let word = sub_vec(s, pos + sp, pos + sp + w);
        let ghost pre = r@;
        r.push(word);
        proof {
            assert(views_of(r@) =~= views_of(pre) + seq![s@.subrange(
                pos + sp,
                pos + sp + w,
            )]);
            assert(views_of(pre) + (seq![s@.subrange(pos + sp, pos + sp + w)] + split_ws_from(
                s@,
                pos + sp + w,
            )) =~= (views_of(pre) + seq![s@.subrange(pos + sp, pos + sp + w)]) + split_ws_from(
                s@,
                pos + sp + w,
            ));
        }
        pos = pos + sp + w;
    }
}

/// `l` with one trailing carriage return removed, as `str::lines` strips it.
pub open spec fn strip_cr(l: Seq<char>) -> Seq<char> {
    if l.len() > 0 && l[l.len() - 1] == '\r' {
        l.subrange(0, l.len() - 1)
    } else {
        l
    }
}

/// The lines of `s` from position `i` on: split at every newline, a carriage
/// return directly before a newline stripped, no empty line after a final
/// newline; a final line without a newline keeps any trailing carriage
/// return, as `str::lines` keeps it.
pub open spec fn lines_from(s: Seq<char>, i: int) -> Seq<Seq<char>>
    decreases s.len() - i when 0 <= i <= s.len() via lines_from_dec
{
    if i >= s.len() {
        Seq::empty()
    } else {
        let e = find_from(s, i, '\n');
        if e == s.len() {
            seq![s.subrange(i, e)]
        } else {
            seq![strip_cr(s.subrange(i, e))] + lines_from(s, e + 1)
        }
    }
}

#[via_fn]
proof fn lines_from_dec(s: Seq<char>, i: int) {
    if i < s.len() {
        lemma_find_from(s, i, '\n');
    }
}

/// The lines of `s`, as `str::lines` yields them.
pub open spec fn spec_lines(s: Seq<char>) -> Seq<Seq<char>> {
    lines_from(s, 0)
}

/// Split `s` into lines.
pub fn split_lines(s: &Vec<char>) -> (r: Vec<Vec<char>>)
    ensures
        views_of(r@) == spec_lines(s@),
{
    let n = s.len();
    let mut r: Vec<Vec<char>> = Vec::new();
    let mut pos: usize = 0;
    proof {
        assert(views_of(r@) + lines_from(s@, 0) =~= lines_from(s@, 0));
    }
    loop
        invariant
            pos <= n,
            n == s@.len(),
            spec_lines(s@) == views_of(r@) + lines_from(s@, pos as int),
        decreases n - pos,
    {
        if pos >= n {
            proof {
                assert(lines_from(s@, pos as int) =~= Seq::<Seq<char>>::empty());
                assert(views_of(r@) + Seq::<Seq<char>>::empty() =~= views_of(r@));
            }
            return r;
        }
        let e = find_char_from(s, pos, '\n');
        let line_end = if e < n && e > pos && s[e - 1] == '\r' {
            e - 1
        } else {
            e
        };
        let line = sub_vec(s, pos, line_end);
        proof {
            if e < n {
                assert(line@ =~= strip_cr(s@.subrange(pos as int, e as int))) by {
                    let raw = s@.subrange(pos as int, e as int);
                    if e > pos && s@[e - 1] == '\r' {
                        assert(raw[raw.len() - 1] == s@[e - 1]);
                        assert(raw.subrange(0, raw.len() - 1) =~= s@.subrange(
                            pos as int,
                            e - 1,
                        ));
                    } else {
                        if raw.len() > 0 {
                            assert(raw[raw.len() - 1] == s@[e - 1]);
                        }
                    }
                }
            }
        }
        let ghost pre = r@;
        r.push(line);
        proof {
            assert(views_of(r@) =~= views_of(pre) + seq![line@]);
        }
        if e == n {
            proof {
                assert(lines_from(s@, pos as int) == seq![s@.subrange(pos as int, e as int)]);
                assert(views_of(pre) + seq![line@] =~= views_of(pre) + lines_from(
                    s@,
                    pos as int,
                ));
            }
            return r;
        }
        proof {
            assert(lines_from(s@, pos as int) == seq![strip_cr(
                s@.subrange(pos as int, e as int),
            )] + lines_from(s@, e + 1));
            assert(views_of(pre) + (seq![line@] + lines_from(s@, e + 1)) =~= (views_of(pre)
                + seq![line@]) + lines_from(s@, e + 1));
        }
        pos = e + 1;
    }
}

/// Does `pat` occur in `s` starting exactly at position `i`?
pub open spec fn has_at(s: Seq<char>, i: int, pat: Seq<char>) -> bool {
    &&& 0 <= i
    &&& i + pat.len() <= s.len()
    &&& forall|k: int| 0 <= k < pat.len() ==> s[i + k] == #[trigger] pat[k]
}

pub open spec fn has_prefix(s: Seq<char>, pat: Seq<char>) -> bool {
    has_at(s, 0, pat)
}

/// Length of the run of leading whitespace.
pub open spec fn lead_spaces(s: Seq<char>) -> int {
    run_len(s, 0, space_pred())
}

/// Length of the run of whitespace ending just before position `j`.
pub open spec fn back_spaces(s: Seq<char>, j: int) -> int
    decreases j when 0 <= j <= s.len()
{
    if j <= 0 || !is_space(s[j - 1]) {
        0
    } else {
        1 + back_spaces(s, j - 1)
    }
}

pub proof fn lemma_back_spaces(s: Seq<char>, j: int)
    requires
        0 <= j <= s.len(),
    ensures
        0 <= back_spaces(s, j) <= j,
        forall|k: int| j - back_spaces(s, j) <= k < j ==> is_space(s[k]),
        j - back_spaces(s, j) > 0 ==> !is_space(s[j - back_spaces(s, j) - 1]),
    decreases j,
{
    if j > 0 && is_space(s[j - 1]) {
        lemma_back_spaces(s, j - 1);
    }
}

pub proof fn lemma_back_spaces_unique(s: Seq<char>, j: int, m: int)
    requires
        0 <= m <= j <= s.len(),
        forall|k: int| m <= k < j ==> is_space(s[k]),
        m > 0 ==> !is_space(s[m - 1]),
    ensures
        back_spaces(s, j) == j - m,
    decreases j,
{
    if m < j {
        lemma_back_spaces_unique(s, j - 1, m);
    }
}

/// `s` with leading and trailing whitespace removed, as `str::trim` does.
pub open spec fn trim(s: Seq<char>) -> Seq<char> {
    if lead_spaces(s) == s.len() {
        Seq::empty()
    } else {
        s.subrange(lead_spaces(s), s.len() - back_spaces(s, s.len() as int))
    }
}

pub proof fn lemma_trim(s: Seq<char>)
    ensures
        trim(s).len() <= s.len(),
        trim(s).len() > 0 ==> !is_space(trim(s)[0]),
        trim(s).len() > 0 ==> !is_space(trim(s)[trim(s).len() - 1]),
{
    lemma_run_len(s, 0, space_pred());
    lemma_back_spaces(s, s.len() as int);
    let a = lead_spaces(s);
    if a < s.len() {
        let b = back_spaces(s, s.len() as int);
        assert(!is_space(s[a]));
        assert(s.len() - b > a);
    }
}

// ---------------------------------------------------------------------------
// Executable counterparts
// ---------------------------------------------------------------------------

/// The characters of a string slice, in order.
pub fn chars_of(s: &str) -> (r: Vec<char>)
    ensures
        r@ == s@,
{
    let n = s.unicode_len();
    let mut r: Vec<char> = Vec::new();
    let mut i: usize = 0;
    while i < n
        invariant
            n == s@.len(),
            i <= n,
            r@ == s@.subrange(0, i as int),
        decreases n - i,
    {
        r.push(s.get_char(i));
        i = i + 1;
        proof {
            assert(r@ =~= s@.subrange(0, i as int));
        }
    }
    proof {
        assert(r@ =~= s@);
    }
    r
}

/// Relies on `String::push`: appends exactly the given character.
#[verifier::external_body]
pub(crate) fn push_char(s: &mut String, c: char)
    ensures
        final(s)@ == old(s)@.push(c),
{
    s.push(c);
}

/// A `String` holding the characters `s[i..j]`.
pub fn string_of_range(s: &Vec<char>, i: usize, j: usize) -> (r: String)
    requires
        i <= j <= s@.len(),
    ensures
        r@ == s@.subrange(i as int, j as int),
{
    let mut r = String::new();
    let mut k: usize = i;
    while k < j
        invariant
            i <= k <= j <= s@.len(),
            r@ == s@.subrange(i as int, k as int),
        decreases j - k,
    {
        push_char(&mut r, s[k]);
        k = k + 1;
        proof {
            assert(r@ =~= s@.subrange(i as int, k as int));
        }
    }
    r
}

pub fn is_space_c(c: char) -> (r: bool)
    ensures
        r == is_space(c),
{
    c == ' ' || c == '\t' || c == '\n' || c == '\u{b}' || c == '\u{c}' || c == '\r'
        || c == '\u{85}' || c == '\u{a0}' || c == '\u{1680}' || ('\u{2000}' <= c && c
        <= '\u{200a}') || c == '\u{2028}' || c == '\u{2029}' || c == '\u{202f}' || c == '\u{205f}'
        || c == '\u{3000}'
}

pub fn is_digit_c(c: char) -> (r: bool)
    ensures
        r == is_digit(c),
{
    '0' <= c && c <= '9'
}

pub fn is_bin_digit_c(c: char) -> (r: bool)
    ensures
        r == is_bin_digit(c),
{
    c == '0' || c == '1'
}

pub fn is_hex_digit_c(c: char) -> (r: bool)
    ensures
        r == is_hex_digit(c),
{
    is_digit_c(c) || ('a' <= c && c <= 'f') || ('A' <= c && c <= 'F')
}

pub fn is_ident_start_c(c: char) -> (r: bool)
    ensures
        r == is_ident_start(c),
{
    ('a' <= c && c <= 'z') || ('A' <= c && c <= 'Z') || c == '_'
}

pub fn is_ident_char_c(c: char) -> (r: bool)
    ensures
        r == is_ident_char(c),
{
    is_ident_start_c(c) || is_digit_c(c)
}

/// Length of the maximal run of whitespace starting at `i`.
pub fn space_run(s: &Vec<char>, i: usize) -> (r: usize)
    requires
        i <= s@.len(),
    ensures
        r == run_len(s@, i as int, space_pred()),
        i + r <= s@.len(),
{
    let mut j: usize = i;
    while j < s.len() && is_space_c(s[j])
        invariant
            i <= j <= s@.len(),
            forall|k: int| i <= k < j ==> is_space(s@[k]),
        decreases s@.len() - j,
    {
        j = j + 1;
    }
    proof {
        lemma_run_len_unique(s@, i as int, space_pred(), j as int);
    }
    j - i
}

/// Length of the maximal run of decimal digits starting at `i`.
pub fn digit_run(s: &Vec<char>, i: usize) -> (r: usize)
    requires
        i <= s@.len(),
    ensures
        r == run_len(s@, i as int, digit_pred()),
        i + r <= s@.len(),
{
    let mut j: usize = i;
    while j < s.len() && is_digit_c(s[j])
        invariant
            i <= j <= s@.len(),
            forall|k: int| i <= k < j ==> is_digit(s@[k]),
        decreases s@.len() - j,
    {
        j = j + 1;
    }
    proof {
        lemma_run_len_unique(s@, i as int, digit_pred(), j as int);
    }
    j - i
}

/// Length of the maximal run of identifier characters starting at `i`.
pub fn ident_char_run(s: &Vec<char>, i: usize) -> (r: usize)
    requires
        i <= s@.len(),
    ensures
        r == run_len(s@, i as int, ident_char_pred()),
        i + r <= s@.len(),
{
    let mut j: usize = i;
    while j < s.len() && is_ident_char_c(s[j])
        invariant
            i <= j <= s@.len(),
            forall|k: int| i <= k < j ==> is_ident_char(s@[k]),
        decreases s@.len() - j,
    {
        j = j + 1;
    }
    proof {
        lemma_run_len_unique(s@, i as int, ident_char_pred(), j as int);
    }
    j - i
}

/// First occurrence of `c` at or after `i`, or `s.len()` if there is none.
pub fn find_char_from(s: &Vec<char>, i: usize, c: char) -> (r: usize)
    requires
        i <= s@.len(),
    ensures
        r == find_from(s@, i as int, c),
        i <= r <= s@.len(),
{
    let mut j: usize = i;
    while j < s.len() && s[j] != c
        invariant
            i <= j <= s@.len(),
            forall|k: int| i <= k < j ==> s@[k] != c,
        decreases s@.len() - j,
    {
        j = j + 1;
    }
    proof {
        lemma_find_from_unique(s@, i as int, c, j as int);
    }
    j
}

/// Does `pat` occur in `s` starting exactly at `i`?
pub fn match_at(s: &Vec<char>, i: usize, pat: &str) -> (r: bool)
    requires
        i <= s@.len(),
    ensures
        r == has_at(s@, i as int, pat@),
{
    let p = chars_of(pat);
    let n = s.len();
    if n - i < p.len() {
        return false;
    }
    let mut k: usize = 0;
    while k < p.len()
        invariant
            n == s@.len(),
            i + p@.len() <= n,
            k <= p@.len(),
            p@ == pat@,
            i <= n,
            forall|m: int| 0 <= m < k ==> s@[i + m] == #[trigger] p@[m],
        decreases p@.len() - k,
    {
        if s[i + k] != p[k] {
            return false;
        }
        k = k + 1;
    }
    true
}

/// Does `v` hold exactly the characters of `s`?
pub fn eq_str(v: &Vec<char>, s: &str) -> (r: bool)
    ensures
        r == (v@ == s@),
{
    let p = chars_of(s);
    let n = v.len();
    if n != p.len() {
        proof {
            assert(v@.len() != s@.len());
        }
        return false;
    }
    let mut k: usize = 0;
    while k < n
        invariant
            k <= n == v@.len(),
            p@ == s@,
            n == p@.len(),
            forall|m: int| 0 <= m < k ==> v@[m] == s@[m],
        decreases n - k,
    {
        if v[k] != p[k] {
            return false;
        }
        k = k + 1;
    }
    proof {
        assert(v@ =~= s@);
    }
    true
}

/// Bounds of `s` with surrounding whitespace removed:
/// `s[r.0..r.1]` is `trim(s)`.
pub fn trim_bounds(s: &Vec<char>) -> (r: (usize, usize))
    ensures
        r.0 <= r.1 <= s@.len(),
        s@.subrange(r.0 as int, r.1 as int) == trim(s@),
{
    let a = space_run(s, 0);
    if a == s.len() {
        proof {
            assert(s@.subrange(a as int, a as int) =~= Seq::<char>::empty());
        }
        return (a, a);
    }
    let mut b: usize = s.len();
    while b > a && is_space_c(s[b - 1])
        invariant
            a <= b <= s@.len(),
            forall|k: int| b <= k < s@.len() ==> is_space(s@[k]),
        decreases b,
    {
        b = b - 1;
    }
    proof {
        lemma_run_len(s@, 0, space_pred());
        assert(a < s@.len());
        assert(!(space_pred()(s@[a as int])));
        assert(!is_space(s@[a as int]));
        assert(b > a) by {
            if b == a {
                assert(is_space(s@[a as int]));
            }
        }
        lemma_back_spaces_unique(s@, s@.len() as int, b as int);
    }
    (a, b)
}

/// A fresh vector holding `s[i..j]`.
pub fn sub_vec(s: &Vec<char>, i: usize, j: usize) -> (r: Vec<char>)
    requires
        i <= j <= s@.len(),
    ensures
        r@ == s@.subrange(i as int, j as int),
{
    let mut r: Vec<char> = Vec::new();
    let mut k: usize = i;
    while k < j
        invariant
            i <= k <= j <= s@.len(),
            r@ == s@.subrange(i as int, k as int),
        decreases j - k,
    {
        r.push(s[k]);
        k = k + 1;
        proof {
            assert(r@ =~= s@.subrange(i as int, k as int));
        }
    }
    r
}

/// A fresh vector holding `s` with surrounding whitespace removed.
pub fn trim_vec(s: &Vec<char>) -> (r: Vec<char>)
    ensures
        r@ == trim(s@),
{
    let (a, b) = trim_bounds(s);
    sub_vec(s, a, b)
}

/// Is `s[i..j]` a non-empty run of decimal digits?
pub fn all_digits(s: &Vec<char>, i: usize, j: usize) -> (r: bool)
    requires
        i <= j <= s@.len(),
    ensures
        r == is_digits(s@.subrange(i as int, j as int)),
        r ==> forall|k: int| i <= k < j ==> is_digit(#[trigger] s@[k]),
{
    if i == j {
        return false;
    }
    let mut k: usize = i;
    while k < j
        invariant
            i <= k <= j <= s@.len(),
            forall|m: int| i <= m < k ==> is_digit(#[trigger] s@[m]),
        decreases j - k,
    {
        if !is_digit_c(s[k]) {
            proof {
                assert(s@.subrange(i as int, j as int)[k - i] == s@[k as int]);
            }
            return false;
        }
        k = k + 1;
    }
    proof {
        assert forall|m: int| 0 <= m < j - i implies is_digit(
            #[trigger] s@.subrange(i as int, j as int)[m],
        ) by {
            assert(s@.subrange(i as int, j as int)[m] == s@[i + m]);
        }
    }
    true
}

/// Is `s[i..j]` a non-empty run of binary digits?
pub fn all_bin_digits(s: &Vec<char>, i: usize, j: usize) -> (r: bool)
    requires
        i <= j <= s@.len(),
    ensures
        r == is_bin_digits(s@.subrange(i as int, j as int)),
        r ==> forall|k: int| i <= k < j ==> is_bin_digit(#[trigger] s@[k]),
{
    if i == j {
        return false;
    }
    let mut k: usize = i;
    while k < j
        invariant
            i <= k <= j <= s@.len(),
            forall|m: int| i <= m < k ==> is_bin_digit(#[trigger] s@[m]),
        decreases j - k,
    {
        if !is_bin_digit_c(s[k]) {
            proof {
                assert(s@.subrange(i as int, j as int)[k - i] == s@[k as int]);
            }
            return false;
        }
        k = k + 1;
    }
    proof {
        assert forall|m: int| 0 <= m < j - i implies is_bin_digit(
            #[trigger] s@.subrange(i as int, j as int)[m],
        ) by {
            assert(s@.subrange(i as int, j as int)[m] == s@[i + m]);
        }
    }
    true
}

/// Is `s[i..j]` a non-empty run of hexadecimal digits?
pub fn all_hex_digits(s: &Vec<char>, i: usize, j: usize) -> (r: bool)
    requires
        i <= j <= s@.len(),
    ensures
        r == is_hex_digits(s@.subrange(i as int, j as int)),
        r ==> forall|k: int| i <= k < j ==> is_hex_digit(#[trigger] s@[k]),
{
    if i == j {
        return false;
    }
    let mut k: usize = i;
    while k < j
        invariant
            i <= k <= j <= s@.len(),
            forall|m: int| i <= m < k ==> is_hex_digit(#[trigger] s@[m]),
        decreases j - k,
    {
        if !is_hex_digit_c(s[k]) {
            proof {
                assert(s@.subrange(i as int, j as int)[k - i] == s@[k as int]);
            }
            return false;
        }
        k = k + 1;
    }
    proof {
        assert forall|m: int| 0 <= m < j - i implies is_hex_digit(
            #[trigger] s@.subrange(i as int, j as int)[m],
        ) by {
            assert(s@.subrange(i as int, j as int)[m] == s@[i + m]);
        }
    }
    true
}

/// Is `s[i..j]` an identifier?
pub fn is_ident_range(s: &Vec<char>, i: usize, j: usize) -> (r: bool)
    requires
        i <= j <= s@.len(),
    ensures
        r == is_ident(s@.subrange(i as int, j as int)),
{
    if i == j {
        return false;
    }
    if !is_ident_start_c(s[i]) {
        proof {
            assert(s@.subrange(i as int, j as int)[0] == s@[i as int]);
        }
        return false;
    }
    let mut k: usize = i;
    while k < j
        invariant
            i <= k <= j <= s@.len(),
            forall|m: int| i <= m < k ==> is_ident_char(#[trigger] s@[m]),
        decreases j - k,
    {
        if !is_ident_char_c(s[k]) {
            proof {
                assert(s@.subrange(i as int, j as int)[k - i] == s@[k as int]);
            }
            return false;
        }
        k = k + 1;
    }
    proof {
        assert(s@.subrange(i as int, j as int)[0] == s@[i as int]);
        assert forall|m: int| 0 <= m < j - i implies is_ident_char(
            #[trigger] s@.subrange(i as int, j as int)[m],
        ) by {
            assert(s@.subrange(i as int, j as int)[m] == s@[i + m]);
        }
    }
    true
}

// ---------------------------------------------------------------------------
// Facts about digit values
// ---------------------------------------------------------------------------

/// Extending a digit string on the right multiplies its value by ten and adds
/// the new digit.
pub proof fn lemma_digits_val_snoc(s: Seq<char>, j: int)
    requires
        0 < j <= s.len(),
    ensures
        digits_val(s.subrange(0, j)) == digits_val(s.subrange(0, j - 1)) * 10 + digit_val(
            s[j - 1],
        ),
{
    let t = s.subrange(0, j);
    assert(t.drop_last() =~= s.subrange(0, j - 1));
}

/// Value only grows when digits are appended.
pub proof fn lemma_digits_val_ext(s: Seq<char>, i: int, m: int, j: int)
    requires
        0 <= i <= m <= j <= s.len(),
        forall|k: int| i <= k < j ==> is_digit(#[trigger] s[k]),
    ensures
        digits_val(s.subrange(i, j)) >= digits_val(s.subrange(i, m)),
        digits_val(s.subrange(i, m)) >= 0,
    decreases j - m,
{
    lemma_digits_val_nonneg(s.subrange(i, m));
    if m < j {
        lemma_digits_val_ext(s, i, m + 1, j);
        let a = s.subrange(i, m + 1);
        assert(a.drop_last() =~= s.subrange(i, m));
        assert(is_digit(s[m]));
        assert(digit_val(s[m]) >= 0);
        assert(digits_val(a) == digits_val(s.subrange(i, m)) * 10 + digit_val(s[m]));
        lemma_digits_val_nonneg(s.subrange(i, m));
    }
}

pub proof fn lemma_digits_val_nonneg(s: Seq<char>)
    requires
        forall|k: int| 0 <= k < s.len() ==> is_digit(#[trigger] s[k]),
    ensures
        digits_val(s) >= 0,
    decreases s.len(),
{
    if s.len() > 0 {
        assert(is_digit(s.last()));
        lemma_digits_val_nonneg(s.drop_last());
    }
}

/// Parse the digit run `s[i..j]` as an `i32`; `None` when the value does not
/// fit.
pub fn parse_digits_i32(s: &Vec<char>, i: usize, j: usize) -> (r: Option<i32>)
    requires
        i <= j <= s@.len(),
        forall|k: int| i <= k < j ==> is_digit(#[trigger] s@[k]),
    ensures
        match r {
            Some(v) => v == digits_val(s@.subrange(i as int, j as int)) && v >= 0,
            None => digits_val(s@.subrange(i as int, j as int)) > i32::MAX,
        },
{
    let mut acc: u64 = 0;
    let mut k: usize = i;
    proof {
        assert(s@.subrange(i as int, i as int) =~= Seq::<char>::empty());
    }
    while k < j
        invariant
            i <= k <= j <= s@.len(),
            forall|m: int| i <= m < j ==> is_digit(#[trigger] s@[m]),
            acc == digits_val(s@.subrange(i as int, k as int)),
            acc <= i32::MAX,
        decreases j - k,
    {
        let c = s[k];
        let d: u64 = (c as u32 as u64) - 48;
        proof {
            assert(is_digit(s@[k as int]));
            assert(d == digit_val(c));
            lemma_digits_val_snoc(s@.subrange(i as int, j as int), k - i + 1);
            assert(s@.subrange(i as int, j as int).subrange(0, k - i + 1) =~= s@.subrange(
                i as int,
                k + 1,
            ));
            assert(s@.subrange(i as int, j as int).subrange(0, k - i) =~= s@.subrange(
                i as int,
                k as int,
            ));
        }
        let next: u64 = acc * 10 + d;
        if next > i32::MAX as u64 {
            proof {
                lemma_digits_val_ext(s@, i as int, k + 1, j as int);
            }
            return None;
        }
        acc = next;
        k = k + 1;
    }
    Some(acc as i32)
}

// ---------------------------------------------------------------------------
// Facts about radix values
// ---------------------------------------------------------------------------

/// Does `c` denote a digit of base `radix` (bases 2, 10 and 16)?
pub open spec fn is_radix_digit(c: char, radix: int) -> bool {
    if radix == 2 {
        is_bin_digit(c)
    } else if radix == 10 {
        is_digit(c)
    } else {
        is_hex_digit(c)
    }
}

pub proof fn lemma_radix_digit_bounds(c: char, radix: int)
    requires
        radix == 2 || radix == 10 || radix == 16,
        is_radix_digit(c, radix),
    ensures
        0 <= hex_val(c) < radix,
{
}

pub proof fn lemma_radix_val_snoc(s: Seq<char>, j: int, radix: int)
    requires
        0 < j <= s.len(),
    ensures
        radix_val(s.subrange(0, j), radix) == radix_val(s.subrange(0, j - 1), radix) * radix
            + hex_val(s[j - 1]),
{
    let t = s.subrange(0, j);
    assert(t.drop_last() =~= s.subrange(0, j - 1));
}

pub proof fn lemma_radix_val_nonneg(s: Seq<char>, radix: int)
    requires
        radix == 2 || radix == 10 || radix == 16,
        forall|k: int| 0 <= k < s.len() ==> is_radix_digit(#[trigger] s[k], radix),
    ensures
        radix_val(s, radix) >= 0,
    decreases s.len(),
{
    if s.len() > 0 {
        assert(is_radix_digit(s.last(), radix));
        lemma_radix_val_nonneg(s.drop_last(), radix);
    }
}

/// Value only grows when digits are appended on the right.
pub proof fn lemma_radix_val_ext(s: Seq<char>, i: int, m: int, j: int, radix: int)
    requires
        radix == 2 || radix == 10 || radix == 16,
        0 <= i <= m <= j <= s.len(),
        forall|k: int| i <= k < j ==> is_radix_digit(#[trigger] s[k], radix),
    ensures
        radix_val(s.subrange(i, j), radix) >= radix_val(s.subrange(i, m), radix),
        radix_val(s.subrange(i, m), radix) >= 0,
    decreases j - m,
{
    assert(forall|k: int|
        0 <= k < s.subrange(i, m).len() ==> is_radix_digit(#[trigger] s.subrange(i, m)[k], radix));
    lemma_radix_val_nonneg(s.subrange(i, m), radix);
    if m < j {
        lemma_radix_val_ext(s, i, m + 1, j, radix);
        let a = s.subrange(i, m + 1);
        assert(a.drop_last() =~= s.subrange(i, m));
        assert(is_radix_digit(s[m], radix));
        assert(radix_val(a, radix) == radix_val(s.subrange(i, m), radix) * radix + hex_val(s[m]));
        assert(hex_val(s[m]) >= 0);
    }
}

/// Parse the base-`radix` digit run `s[i..j]` as an `i32`; `None` when the
/// value does not fit.
pub fn parse_radix_i32(s: &Vec<char>, i: usize, j: usize, radix: u32) -> (r: Option<i32>)
    requires
        i <= j <= s@.len(),
        radix == 2 || radix == 10 || radix == 16,
        forall|k: int| i <= k < j ==> is_radix_digit(#[trigger] s@[k], radix as int),
    ensures
        match r {
            Some(v) => v == radix_val(s@.subrange(i as int, j as int), radix as int) && v >= 0,
            None => radix_val(s@.subrange(i as int, j as int), radix as int) > i32::MAX,
        },
{
    let mut acc: u64 = 0;
    let mut k: usize = i;
    proof {
        assert(s@.subrange(i as int, i as int) =~= Seq::<char>::empty());
    }
    while k < j
        invariant
            i <= k <= j <= s@.len(),
            radix == 2 || radix == 10 || radix == 16,
            forall|m: int| i <= m < j ==> is_radix_digit(#[trigger] s@[m], radix as int),
            acc == radix_val(s@.subrange(i as int, k as int), radix as int),
            acc <= i32::MAX,
        decreases j - k,
    {
        let c = s[k];
        proof {
            assert(is_radix_digit(s@[k as int], radix as int));
            lemma_radix_digit_bounds(s@[k as int], radix as int);
        }
        let cu = c as u32;
        let d: u64 = if cu >= 'a' as u32 {
            (cu - 87) as u64
        } else if cu >= 'A' as u32 {
            (cu - 55) as u64
        } else {
            (cu - 48) as u64
        };
        proof {
            assert(d == hex_val(c));
            lemma_radix_val_snoc(s@.subrange(i as int, j as int), k - i + 1, radix as int);
            assert(s@.subrange(i as int, j as int).subrange(0, k - i + 1) =~= s@.subrange(
                i as int,
                k + 1,
            ));
            assert(s@.subrange(i as int, j as int).subrange(0, k - i) =~= s@.subrange(
                i as int,
                k as int,
            ));
        }
        let next: u64 = acc * (radix as u64) + d;
        if next > i32::MAX as u64 {
            proof {
                lemma_radix_val_ext(s@, i as int, k + 1, j as int, radix as int);
            }
            return None;
        }
        acc = next;
        k = k + 1;
    }
    Some(acc as i32)
}

} // verus!

//! Character-level helpers shared by the template parser and the matcher.
//!
//! Texts are handled as sequences of `char`; positions are indices into them.
use vstd::prelude::*;

verus! {

/// The characters that the template grammar and the matcher skip as
/// insignificant whitespace: space, tab, carriage return and line feed.
pub open spec fn is_multispace(c: char) -> bool {
    c == ' ' || c == '\t' || c == '\r' || c == '\n'
}

/// Unicode whitespace (the `White_Space` property), as `char::is_whitespace`
/// classifies it.
pub open spec fn is_ws(c: char) -> bool {
    let n = c as u32;
    (0x9 <= n && n <= 0xd) || n == 0x20 || n == 0x85 || n == 0xa0 || n == 0x1680 || (0x2000 <= n
        && n <= 0x200a) || n == 0x2028 || n == 0x2029 || n == 0x202f || n == 0x205f || n == 0x3000
}

/// The first position at or after `p` that does not hold a multispace character.
pub open spec fn multispace_end(s: Seq<char>, p: nat) -> nat
    decreases s.len() - p,
{
    if p < s.len() && is_multispace(s[p as int]) {
        multispace_end(s, p + 1)
    } else {
        p
    }
}

/// The first position at or after `p` that does not hold Unicode whitespace.
pub open spec fn ws_end(s: Seq<char>, p: nat) -> nat
    decreases s.len() - p,
{
    if p < s.len() && is_ws(s[p as int]) {
        ws_end(s, p + 1)
    } else {
        p
    }
}

/// The first position at or after `p` that holds Unicode whitespace, or the
/// end of `s`: the end of the word that starts at `p`.
pub open spec fn word_end(s: Seq<char>, p: nat) -> nat
    decreases s.len() - p,
{
    if p < s.len() && !is_ws(s[p as int]) {
        word_end(s, p + 1)
    } else {
        p
    }
}

/// The end of the span `a..b` once trailing Unicode whitespace is removed.
pub open spec fn trimmed_end(s: Seq<char>, a: nat, b: nat) -> nat
    decreases b,
{
    if a < b && is_ws(s[b - 1]) {
        trimmed_end(s, a, (b - 1) as nat)
    } else {
        b
    }
}

/// `t` occurs in `s` at position `p`.
pub open spec fn starts_at(s: Seq<char>, p: nat, t: Seq<char>) -> bool {
    p + t.len() <= s.len() && s.subrange(p as int, (p + t.len()) as int) == t
}

/// The lowercase mapping of a character, as `char::to_lowercase` gives it.
pub uninterp spec fn lower_of(c: char) -> Seq<char>;

/// `t` occurs in `s` at position `p` when each character is compared by its
/// lowercase mapping.
pub open spec fn starts_at_no_case(s: Seq<char>, p: nat, t: Seq<char>) -> bool {
    &&& p + t.len() <= s.len()
    &&& forall|k: int| 0 <= k < t.len() ==> lower_of(#[trigger] s[p + k]) == lower_of(t[k])
}

/// Prefix test at `p`, exact or by lowercase mapping.
pub open spec fn starts_at_case(s: Seq<char>, p: nat, t: Seq<char>, no_case: bool) -> bool {
    if no_case {
        starts_at_no_case(s, p, t)
    } else {
        starts_at(s, p, t)
    }
}

/// The first position at or after `p` where `t` occurs in `s`.
pub open spec fn first_occurrence(s: Seq<char>, p: nat, t: Seq<char>) -> Option<nat>
    decreases s.len() + 1 - p,
{
    if p + t.len() > s.len() {
        None
    } else if starts_at(s, p, t) {
        Some(p)
    } else {
        first_occurrence(s, p + 1, t)
    }
}

pub proof fn lemma_multispace_end_bounds(s: Seq<char>, p: nat)
    requires
        p <= s.len(),
    ensures
        p <= multispace_end(s, p) <= s.len(),
    decreases s.len() - p,
{
    if p < s.len() && is_multispace(s[p as int]) {
        lemma_multispace_end_bounds(s, p + 1);
    }
}

pub proof fn lemma_ws_end_bounds(s: Seq<char>, p: nat)
    requires
        p <= s.len(),
    ensures
        p <= ws_end(s, p) <= s.len(),
    decreases s.len() - p,
{
    if p < s.len() && is_ws(s[p as int]) {
        lemma_ws_end_bounds(s, p + 1);
    }
}

pub proof fn lemma_word_end_bounds(s: Seq<char>, p: nat)
    requires
        p <= s.len(),
    ensures
        p <= word_end(s, p) <= s.len(),
    decreases s.len() - p,
{
    if p < s.len() && !is_ws(s[p as int]) {
        lemma_word_end_bounds(s, p + 1);
    }
}

pub proof fn lemma_trimmed_end_bounds(s: Seq<char>, a: nat, b: nat)
    requires
        a <= b,
    ensures
        a <= trimmed_end(s, a, b) <= b,
    decreases b,
{
    if a < b && is_ws(s[b - 1]) {
        lemma_trimmed_end_bounds(s, a, (b - 1) as nat);
    }
}

pub proof fn lemma_first_occurrence_bounds(s: Seq<char>, p: nat, t: Seq<char>)
    ensures
        first_occurrence(s, p, t) matches Some(q) ==> p <= q && q + t.len() <= s.len()
            && starts_at(s, q, t),
    decreases s.len() + 1 - p,
{
    if p + t.len() <= s.len() && !starts_at(s, p, t) {
        lemma_first_occurrence_bounds(s, p + 1, t);
    }
}

/// Collects the characters of a string.
pub fn chars_of(s: &str) -> (r: Vec<char>)
    ensures
        r@ == s@,
{
    let mut v: Vec<char> = Vec::new();
    for c in it: s.chars()
        invariant
            v@ == it.seq().take(it.index() as int),
    {
        v.push(c);
    }
    v
}

/// `char::is_whitespace`.
pub fn is_whitespace(c: char) -> (r: bool)
    ensures
        r == is_ws(c),
{
    let n = c as u32;
    (0x9 <= n && n <= 0xd) || n == 0x20 || n == 0x85 || n == 0xa0 || n == 0x1680 || (0x2000 <= n
        && n <= 0x200a) || n == 0x2028 || n == 0x2029 || n == 0x202f || n == 0x205f || n == 0x3000
}

pub fn is_multispace_char(c: char) -> (r: bool)
    ensures
        r == is_multispace(c),
{
    c == ' ' || c == '\t' || c == '\r' || c == '\n'
}

/// Skips spaces, tabs, carriage returns and line feeds from `p` on.
pub fn skip_multispace(s: &Vec<char>, p: usize) -> (r: usize)
    requires
        p <= s.len(),
    ensures
        r == multispace_end(s@, p as nat),
        p <= r <= s.len(),
{
    let mut q = p;
    while q < s.len() && is_multispace_char(s[q])
        invariant
            p <= q <= s.len(),
            multispace_end(s@, q as nat) == multispace_end(s@, p as nat),
        decreases s.len() - q,
    {
        q = q + 1;
    }
    q
}

/// Skips Unicode whitespace from `p` on.
pub fn skip_whitespace(s: &Vec<char>, p: usize) -> (r: usize)
    requires
        p <= s.len(),
    ensures
        r == ws_end(s@, p as nat),
        p <= r <= s.len(),
{
    let mut q = p;
    while q < s.len() && is_whitespace(s[q])
        invariant
            p <= q <= s.len(),
            ws_end(s@, q as nat) == ws_end(s@, p as nat),
        decreases s.len() - q,
    {
        q = q + 1;
    }
    q
}

/// The end of the run of non-whitespace characters that starts at `p`.
pub fn find_word_end(s: &Vec<char>, p: usize) -> (r: usize)
    requires
        p <= s.len(),
    ensures
        r == word_end(s@, p as nat),
        p <= r <= s.len(),
{
    let mut q = p;
    while q < s.len() && !is_whitespace(s[q])
        invariant
            p <= q <= s.len(),
            word_end(s@, q as nat) == word_end(s@, p as nat),
        decreases s.len() - q,
    {
        q = q + 1;
    }
    q
}

/// Moves `b` back over trailing whitespace, not past `a`.
pub fn trim_end_at(s: &Vec<char>, a: usize, b: usize) -> (r: usize)
    requires
        a <= b <= s.len(),
    ensures
        r == trimmed_end(s@, a as nat, b as nat),
        a <= r <= b,
{
    let mut q = b;
    while a < q && is_whitespace(s[q - 1])
        invariant
            a <= q <= b,
            b <= s.len(),
            trimmed_end(s@, a as nat, q as nat) == trimmed_end(s@, a as nat, b as nat),
        decreases q,
    {
        q = q - 1;
    }
    q
}

/// Whether `t` occurs in `s` at position `p`.
pub fn matches_at(s: &Vec<char>, p: usize, t: &Vec<char>) -> (r: bool)
    ensures
        r == starts_at(s@, p as nat, t@),
{
    if p > s.len() || t.len() > s.len() - p {
        return false;
    }
    let mut k: usize = 0;
    while k < t.len()
        invariant
            p + t.len() <= s.len(),
            k <= t.len(),
            forall|j: int| 0 <= j < k ==> s@[p + j] == t@[j],
        decreases t.len() - k,
    {
        if s[p + k] != t[k] {
            assert(s@.subrange(p as int, p + t.len())[k as int] != t@[k as int]);
            return false;
        }
        k = k + 1;
    }
    assert(s@.subrange(p as int, p + t.len()) =~= t@);
    true
}

/// Relies on `char::to_lowercase`: the characters that `c` maps to in
/// lowercase, which depend on `c` alone.
#[verifier::external_body]
fn lowercase(c: char) -> (r: Vec<char>)
    ensures
        r@ == lower_of(c),
{
    c.to_lowercase().collect()
}

fn same_lowercase(a: char, b: char) -> (r: bool)
    ensures
        r == (lower_of(a) == lower_of(b)),
{
    let x = lowercase(a);
    let y = lowercase(b);
    if x.len() != y.len() {
        return false;
    }
    let mut k: usize = 0;
    while k < x.len()
        invariant
            x.len() == y.len(),
            k <= x.len(),
            x@ == lower_of(a),
            y@ == lower_of(b),
            forall|j: int| 0 <= j < k ==> x@[j] == y@[j],
        decreases x.len() - k,
    {
        if x[k] != y[k] {
            return false;
        }
        k = k + 1;
    }
    assert(x@ =~= y@);
    true
}

/// Whether `t` occurs in `s` at position `p`, comparing lowercase mappings.
pub fn matches_at_no_case(s: &Vec<char>, p: usize, t: &Vec<char>) -> (r: bool)
    ensures
        r == starts_at_no_case(s@, p as nat, t@),
{
    if p > s.len() || t.len() > s.len() - p {
        return false;
    }
    let mut k: usize = 0;
    while k < t.len()
        invariant
            p + t.len() <= s.len(),
            k <= t.len(),
            forall|j: int| 0 <= j < k ==> lower_of(#[trigger] s@[p + j]) == lower_of(t@[j]),
        decreases t.len() - k,
    {
        if !same_lowercase(s[p + k], t[k]) {
            return false;
        }
        k = k + 1;
    }
    true
}

/// Prefix test at `p`, exact or by lowercase mapping.
pub fn matches_at_case(s: &Vec<char>, p: usize, t: &Vec<char>, no_case: bool) -> (r: bool)
    ensures
        r == starts_at_case(s@, p as nat, t@, no_case),
{
    if no_case {
        matches_at_no_case(s, p, t)
    } else {
        matches_at(s, p, t)
    }
}

/// The first position at or after `p` where `t` occurs in `s`.
pub fn find_from(s: &Vec<char>, p: usize, t: &Vec<char>) -> (r: Option<usize>)
    requires
        p <= s.len(),
    ensures
        r == (match first_occurrence(s@, p as nat, t@) {
            Some(q) => Some(q as usize),
            None => None,
        }),
{
    let mut q = p;
    loop
        invariant
            p <= q <= s.len(),
            first_occurrence(s@, q as nat, t@) == first_occurrence(s@, p as nat, t@),
        decreases s.len() - q,
    {
        if t.len() > s.len() - q {
            return None;
        }
        if matches_at(s, q, t) {
            return Some(q);
        }
        if q == s.len() {
            assert(first_occurrence(s@, (q + 1) as nat, t@) == None::<nat>);
            return None;
        }
        q = q + 1;
    }
}

/// Whether two strings hold the same characters.
pub fn same_text(a: &str, b: &str) -> (r: bool)
    ensures
        r == (a@ == b@),
{
    let x = chars_of(a);
    let y = chars_of(b);
    if x.len() != y.len() {
        return false;
    }
    let r = matches_at(&x, 0, &y);
    proof {
        assert(x@.subrange(0, y@.len() as int) =~= x@);
    }
    r
}

/// Relies on `String`'s `FromIterator<char>`: the string of these characters, in order.
#[verifier::external_body]
pub fn string_of(v: &Vec<char>) -> (r: String)
    ensures
        r@ == v@,
{
    v.iter().collect()
}

/// The characters of `s` from `a` to `b`.
pub fn chars_between(s: &Vec<char>, a: usize, b: usize) -> (r: Vec<char>)
    requires
        a <= b <= s.len(),
    ensures
        r@ == s@.subrange(a as int, b as int),
{
    let mut r: Vec<char> = Vec::new();
    let mut k = a;
    while k < b
        invariant
            a <= k <= b <= s.len(),
            r@ == s@.subrange(a as int, k as int),
        decreases b - k,
    {
        r.push(s[k]);
        assert(r@ =~= s@.subrange(a as int, k + 1));
        k = k + 1;
    }
    r
}

/// The decimal digit for `d < 10`.
pub open spec fn digit_char(d: nat) -> char {
    (48 + d) as char
}

/// The decimal representation of `n`, without sign or padding.
pub open spec fn decimal(n: nat) -> Seq<char>
    decreases n,
{
    if n < 10 {
        seq![digit_char(n)]
    } else {
        decimal(n / 10).push(digit_char(n % 10))
    }
}

/// Relies on the `Display` of `usize` (through `ToString`): its decimal digits.
#[verifier::external_body]
pub fn decimal_text(n: usize) -> (r: String)
    ensures
        r@ == decimal(n as nat),
{
    n.to_string()
}

} // verus!

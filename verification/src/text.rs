//! Text primitives the domain relies on: whitespace trimming, ASCII case
//! folding, literal substring search, code-point ordering, decimal rendering and
//! joining. Each is stated as a spec function over `Seq<char>` and implemented
//! by a verified executable function.

use vstd::prelude::*;

verus! {

/// Unicode `White_Space`: the characters `char::is_whitespace` accepts.
pub open spec fn is_white_space(c: char) -> bool {
    let v = c as u32;
    ||| 0x09 <= v <= 0x0D
    ||| v == 0x20
    ||| v == 0x85
    ||| v == 0xA0
    ||| v == 0x1680
    ||| 0x2000 <= v <= 0x200A
    ||| v == 0x2028
    ||| v == 0x2029
    ||| v == 0x202F
    ||| v == 0x205F
    ||| v == 0x3000
}

/// `s` without its leading whitespace.
pub open spec fn trim_start(s: Seq<char>) -> Seq<char>
    decreases s.len(),
{
    if s.len() > 0 && is_white_space(s[0]) {
        trim_start(s.drop_first())
    } else {
        s
    }
}

/// `s` without its trailing whitespace.
pub open spec fn trim_end(s: Seq<char>) -> Seq<char>
    decreases s.len(),
{
    if s.len() > 0 && is_white_space(s.last()) {
        trim_end(s.drop_last())
    } else {
        s
    }
}

/// `s` without leading and trailing whitespace, as `str::trim` returns it.
pub open spec fn trim(s: Seq<char>) -> Seq<char> {
    trim_end(trim_start(s))
}

/// Trimming the start drops exactly the leading whitespace: what is left is
/// the rest of `s` from some position `a`, everything before `a` is
/// whitespace, and what is left does not start with whitespace.
pub proof fn lemma_trim_start_cuts_whitespace(s: Seq<char>) -> (a: int)
    ensures
        0 <= a <= s.len(),
        trim_start(s) == s.subrange(a, s.len() as int),
        forall|k: int| 0 <= k < a ==> is_white_space(#[trigger] s[k]),
        trim_start(s).len() > 0 ==> !is_white_space(trim_start(s)[0]),
    decreases s.len(),
{
    if s.len() > 0 && is_white_space(s[0]) {
        let a1 = lemma_trim_start_cuts_whitespace(s.drop_first());
        assert(s.drop_first().subrange(a1, s.drop_first().len() as int) =~= s.subrange(a1 + 1, s.len() as int));
        assert forall|k: int| 0 <= k < a1 + 1 implies is_white_space(#[trigger] s[k]) by {
            if k > 0 {
                assert(s[k] == s.drop_first()[k - 1]);
            }
        }
        a1 + 1
    } else {
        assert(s.subrange(0, s.len() as int) =~= s);
        0
    }
}

/// Trimming the end drops exactly the trailing whitespace: what is left is
/// `s` up to some position `b`, everything from `b` on is whitespace, and
/// what is left does not end with whitespace.
pub proof fn lemma_trim_end_cuts_whitespace(s: Seq<char>) -> (b: int)
    ensures
        0 <= b <= s.len(),
        trim_end(s) == s.subrange(0, b),
        forall|k: int| b <= k < s.len() ==> is_white_space(#[trigger] s[k]),
        trim_end(s).len() > 0 ==> !is_white_space(trim_end(s).last()),
    decreases s.len(),
{
    if s.len() > 0 && is_white_space(s.last()) {
        let b1 = lemma_trim_end_cuts_whitespace(s.drop_last());
        assert(s.drop_last().subrange(0, b1) =~= s.subrange(0, b1));
        assert forall|k: int| b1 <= k < s.len() implies is_white_space(#[trigger] s[k]) by {
            if k < s.len() - 1 {
                assert(s[k] == s.drop_last()[k]);
            }
        }
        b1
    } else {
        assert(s.subrange(0, s.len() as int) =~= s);
        s.len() as int
    }
}

/// Trimming drops exactly the whitespace at both ends of `s`: the result is
/// the part of `s` between positions `a` and `b`, everything outside it is
/// whitespace, and the result neither starts nor ends with whitespace.
pub proof fn lemma_trim_cuts_only_whitespace(s: Seq<char>) -> (r: (int, int))
    ensures
        0 <= r.0 <= r.1 <= s.len(),
        trim(s) == s.subrange(r.0, r.1),
        forall|k: int| 0 <= k < r.0 ==> is_white_space(#[trigger] s[k]),
        forall|k: int| r.1 <= k < s.len() ==> is_white_space(#[trigger] s[k]),
        trim(s).len() > 0 ==> !is_white_space(trim(s)[0]) && !is_white_space(trim(s).last()),
{
    let a = lemma_trim_start_cuts_whitespace(s);
    let t = trim_start(s);
    let b = lemma_trim_end_cuts_whitespace(t);
    assert(t.subrange(0, b) =~= s.subrange(a, a + b));
    assert forall|k: int| a + b <= k < s.len() implies is_white_space(#[trigger] s[k]) by {
        assert(s[k] == t[k - a]);
    }
    if trim(s).len() > 0 {
        assert(trim(s)[0] == t[0]);
    }
    (a, a + b)
}

/// A text value is blank when nothing is left of it after trimming.
pub open spec fn is_blank(s: Seq<char>) -> bool {
    trim(s).len() == 0
}

pub fn is_white_space_char(c: char) -> (b: bool)
    ensures
        b == is_white_space(c),
{
    let v = c as u32;
    (0x09 <= v && v <= 0x0D) || v == 0x20 || v == 0x85 || v == 0xA0 || v == 0x1680 || (0x2000
        <= v && v <= 0x200A) || v == 0x2028 || v == 0x2029 || v == 0x202F || v == 0x205F || v
        == 0x3000
}

/// The characters of `s`, in order.
pub fn chars_of(s: &str) -> (v: Vec<char>)
    ensures
        v@ == s@,
{
    let n = s.unicode_len();
    let mut v: Vec<char> = Vec::new();
    let mut i: usize = 0;
    while i < n
        invariant
            n == s@.len(),
            i <= n,
            v@ == s@.subrange(0, i as int),
        decreases n - i,
    {
        let c = s.get_char(i);
        v.push(c);
        i = i + 1;
        assert(v@ =~= s@.subrange(0, i as int));
    }
    assert(v@ =~= s@);
    v
}

proof fn lemma_trim_start_skip(s: Seq<char>, i: int)
    requires
        0 <= i <= s.len(),
        forall|k: int| 0 <= k < i ==> is_white_space(#[trigger] s[k]),
    ensures
        trim_start(s) == trim_start(s.subrange(i, s.len() as int)),
    decreases i,
{
    if i > 0 {
        assert(s.drop_first() =~= s.subrange(1, s.len() as int));
        lemma_trim_start_skip(s.drop_first(), i - 1);
        assert(s.drop_first().subrange(i - 1, s.drop_first().len() as int) =~= s.subrange(
            i,
            s.len() as int,
        ));
    } else {
        assert(s.subrange(0, s.len() as int) =~= s);
    }
}

proof fn lemma_trim_end_skip(s: Seq<char>, j: int)
    requires
        0 <= j <= s.len(),
        forall|k: int| j <= k < s.len() ==> is_white_space(#[trigger] s[k]),
    ensures
        trim_end(s) == trim_end(s.subrange(0, j)),
    decreases s.len() - j,
{
    if j < s.len() {
        assert(s.drop_last() =~= s.subrange(0, s.len() - 1));
        lemma_trim_end_skip(s.drop_last(), j);
        assert(s.drop_last().subrange(0, j) =~= s.subrange(0, j));
    } else {
        assert(s.subrange(0, j) =~= s);
    }
}

/// The part of `s` that `trim` keeps: `s[i..j]`.
pub fn trim_bounds(s: &Vec<char>) -> (r: (usize, usize))
    ensures
        r.0 <= r.1 <= s.len(),
        trim(s@) == s@.subrange(r.0 as int, r.1 as int),
{
    let n = s.len();
    let mut i: usize = 0;
    while i < n && is_white_space_char(s[i])
        invariant
            n == s.len(),
            i <= n,
            forall|k: int| 0 <= k < i ==> is_white_space(#[trigger] s@[k]),
        decreases n - i,
    {
        i = i + 1;
    }
    proof {
        lemma_trim_start_skip(s@, i as int);
    }
    let ghost rest = s@.subrange(i as int, n as int);
    assert(trim_start(rest) == rest) by {
        if rest.len() > 0 {
            assert(rest[0] == s@[i as int]);
        }
    }
    let mut j: usize = n;
    while j > i && is_white_space_char(s[j - 1])
        invariant
            n == s.len(),
            i <= j <= n,
            rest == s@.subrange(i as int, n as int),
            forall|k: int| j <= k < n ==> is_white_space(#[trigger] s@[k]),
        decreases j,
    {
        j = j - 1;
    }
    proof {
        assert forall|k: int| j - i <= k < rest.len() implies is_white_space(#[trigger] rest[k]) by {
            assert(rest[k] == s@[k + i]);
        }
        lemma_trim_end_skip(rest, j - i);
        let kept = rest.subrange(0, j - i);
        assert(kept =~= s@.subrange(i as int, j as int));
        if kept.len() > 0 {
            assert(kept.last() == s@[j - 1]);
        }
    }
    (i, j)
}

/// `s` trimmed of leading and trailing whitespace.
pub fn trimmed(s: &str) -> (r: String)
    ensures
        r@ == trim(s@),
{
    let v = chars_of(s);
    let (i, j) = trim_bounds(&v);
    let part = s.substring_char(i, j);
    String::from_str(part)
}

/// Whether `s` is empty or whitespace only.
pub fn blank(s: &str) -> (b: bool)
    ensures
        b == is_blank(s@),
{
    let v = chars_of(s);
    let (i, j) = trim_bounds(&v);
    i == j
}

/// Whether `a` and `b` are the same text.
pub fn same_text(a: &str, b: &str) -> (r: bool)
    ensures
        r == (a@ == b@),
{
    let x = chars_of(a);
    let y = chars_of(b);
    if x.len() != y.len() {
        return false;
    }
    let mut i: usize = 0;
    while i < x.len()
        invariant
            x@ == a@,
            y@ == b@,
            x@.len() == y@.len(),
            i <= x@.len(),
            forall|k: int| 0 <= k < i ==> x@[k] == y@[k],
        decreases x@.len() - i,
    {
        if x[i] != y[i] {
            return false;
        }
        i = i + 1;
    }
    assert(x@ =~= y@);
    true
}

/// A character folded to lower case when it is an ASCII upper-case letter,
/// as SQLite's `LIKE` and `NOCASE` collation fold it; every other character
/// keeps its code point.
pub open spec fn fold(c: char) -> u32 {
    let v = c as u32;
    if 65 <= v <= 90 {
        (v + 32) as u32
    } else {
        v
    }
}

/// `a` and `b` are the same character up to ASCII case.
pub open spec fn ascii_case_variant(a: char, b: char) -> bool {
    ||| a == b
    ||| (65 <= a as u32 <= 90 && b as u32 == a as u32 + 32)
    ||| (65 <= b as u32 <= 90 && a as u32 == b as u32 + 32)
}

/// Folding ignores exactly ASCII case: two characters fold alike iff they
/// are the same up to ASCII case (so 'A' and 'a' match, 'é' and 'É' don't).
pub proof fn lemma_fold_ignores_ascii_case(a: char, b: char)
    ensures
        fold(a) == fold(b) <==> ascii_case_variant(a, b),
{
    if fold(a) == fold(b) && !(65 <= a as u32 <= 90) && !(65 <= b as u32 <= 90) {
        assert(a as u32 == b as u32);
    }
}

pub open spec fn folded(s: Seq<char>) -> Seq<u32> {
    s.map_values(|c: char| fold(c))
}

pub open spec fn code_points(s: Seq<char>) -> Seq<u32> {
    s.map_values(|c: char| c as u32)
}

pub fn fold_char(c: char) -> (r: u32)
    ensures
        r == fold(c),
{
    let v = c as u32;
    if 65 <= v && v <= 90 {
        v + 32
    } else {
        v
    }
}

/// `needle` occurs in `hay` starting at `i`.
pub open spec fn occurs_at(hay: Seq<u32>, needle: Seq<u32>, i: int) -> bool {
    0 <= i && i + needle.len() <= hay.len() && hay.subrange(i, i + needle.len()) == needle
}

/// `needle` occurs somewhere in `hay` as a contiguous run.
pub open spec fn occurs_in(hay: Seq<u32>, needle: Seq<u32>) -> bool {
    exists|i: int| occurs_at(hay, needle, i)
}

fn occurs_at_folded(hay: &Vec<char>, needle: &Vec<char>, i: usize) -> (b: bool)
    requires
        i + needle.len() <= hay.len(),
    ensures
        b == occurs_at(folded(hay@), folded(needle@), i as int),
{
    let ghost h = folded(hay@);
    let ghost nd = folded(needle@);
    let n = needle.len();
    let mut j: usize = 0;
    while j < n && fold_char(hay[i + j]) == fold_char(needle[j])
        invariant
            i + n <= hay.len(),
            n == needle.len(),
            h == folded(hay@),
            nd == folded(needle@),
            j <= n,
            forall|k: int| 0 <= k < j ==> h[i + k] == nd[k],
        decreases n - j,
    {
        j = j + 1;
    }
    if j == n {
        assert(h.subrange(i as int, i + nd.len()) =~= nd);
        true
    } else {
        assert(h[i + j] != nd[j as int]);
        proof {
            if occurs_at(h, nd, i as int) {
                assert(h.subrange(i as int, i + nd.len())[j as int] == h[i + j]);
            }
        }
        false
    }
}

/// Whether `needle` occurs in `hay`, ignoring ASCII case: the literal
/// case-insensitive substring match.
pub fn contains_ignoring_ascii_case(hay: &Vec<char>, needle: &Vec<char>) -> (b: bool)
    ensures
        b == occurs_in(folded(hay@), folded(needle@)),
{
    let ghost h = folded(hay@);
    let ghost nd = folded(needle@);
    if needle.len() > hay.len() {
        assert forall|i: int| !occurs_at(h, nd, i) by {}
        return false;
    }
    let last = hay.len() - needle.len();
    let mut i: usize = 0;
    while i < last
        invariant
            last == hay.len() - needle.len(),
            needle.len() <= hay.len(),
            i <= last,
            h == folded(hay@),
            nd == folded(needle@),
            forall|k: int| 0 <= k < i ==> !occurs_at(h, nd, k),
        decreases last - i,
    {
        if occurs_at_folded(hay, needle, i) {
            assert(occurs_at(h, nd, i as int));
            return true;
        }
        i = i + 1;
    }
    if occurs_at_folded(hay, needle, last) {
        assert(occurs_at(h, nd, last as int));
        return true;
    }
    assert forall|k: int| !occurs_at(h, nd, k) by {
        if 0 <= k && k + nd.len() <= h.len() {
            assert(k <= last);
        }
    }
    false
}

/// Lexicographic order on code-point sequences: byte order of their UTF-8
/// encodings, which is how SQLite's `BINARY` collation compares text.
pub open spec fn lex_le(a: Seq<u32>, b: Seq<u32>) -> bool
    decreases a.len(),
{
    if a.len() == 0 {
        true
    } else if b.len() == 0 {
        false
    } else if a[0] != b[0] {
        a[0] < b[0]
    } else {
        lex_le(a.drop_first(), b.drop_first())
    }
}

pub proof fn lemma_lex_total(a: Seq<u32>, b: Seq<u32>)
    ensures
        lex_le(a, b) || lex_le(b, a),
    decreases a.len(),
{
    if a.len() > 0 && b.len() > 0 && a[0] == b[0] {
        lemma_lex_total(a.drop_first(), b.drop_first());
    }
}

pub proof fn lemma_lex_trans(a: Seq<u32>, b: Seq<u32>, c: Seq<u32>)
    requires
        lex_le(a, b),
        lex_le(b, c),
    ensures
        lex_le(a, c),
    decreases a.len(),
{
    if a.len() > 0 && b.len() > 0 && c.len() > 0 && a[0] == b[0] && b[0] == c[0] {
        lemma_lex_trans(a.drop_first(), b.drop_first(), c.drop_first());
    }
}

pub proof fn lemma_lex_antisym(a: Seq<u32>, b: Seq<u32>)
    requires
        lex_le(a, b),
        lex_le(b, a),
    ensures
        a == b,
    decreases a.len(),
{
    if a.len() > 0 && b.len() > 0 {
        lemma_lex_antisym(a.drop_first(), b.drop_first());
        assert(a =~= seq![a[0]] + a.drop_first());
        assert(b =~= seq![b[0]] + b.drop_first());
    } else {
        assert(a =~= b);
    }
}

/// `a` comes strictly before `b` at `k`: they agree below `k`, and at `k`
/// either `a` has ended while `b` goes on, or `a` holds the smaller value.
pub open spec fn precedes_at(a: Seq<u32>, b: Seq<u32>, k: int) -> bool {
    &&& 0 <= k <= a.len()
    &&& k <= b.len()
    &&& forall|j: int| 0 <= j < k ==> a[j] == b[j]
    &&& ((k == a.len() && k < b.len()) || (k < a.len() && k < b.len() && a[k] < b[k]))
}

/// `a` comes strictly before `b` in dictionary order.
pub open spec fn precedes(a: Seq<u32>, b: Seq<u32>) -> bool {
    exists|k: int| #[trigger] precedes_at(a, b, k)
}

/// `lex_le` is dictionary order: a sequence that strictly precedes another
/// is at or below it and not at or above it.
pub proof fn lemma_precedes_orders(a: Seq<u32>, b: Seq<u32>)
    requires
        precedes(a, b),
    ensures
        lex_le(a, b),
        !lex_le(b, a),
    decreases a.len(),
{
    let k = choose|k: int| #[trigger] precedes_at(a, b, k);
    if k > 0 {
        let a1 = a.drop_first();
        let b1 = b.drop_first();
        assert(a[0] == b[0]);
        assert forall|j: int| 0 <= j < k - 1 implies a1[j] == b1[j] by {
            assert(a[j + 1] == b[j + 1]);
        }
        assert(precedes_at(a1, b1, k - 1));
        lemma_precedes_orders(a1, b1);
    }
}

/// `lex_le` on the code points of `a` and `b`, optionally ASCII-folded.
pub fn lex_le_chars(a: &Vec<char>, b: &Vec<char>, fold_case: bool) -> (r: bool)
    ensures
        fold_case ==> r == lex_le(folded(a@), folded(b@)),
        !fold_case ==> r == lex_le(code_points(a@), code_points(b@)),
{
    let ghost fa = if fold_case {
        folded(a@)
    } else {
        code_points(a@)
    };
    let ghost fb = if fold_case {
        folded(b@)
    } else {
        code_points(b@)
    };
    let mut i: usize = 0;
    assert(fa.skip(0) =~= fa);
    assert(fb.skip(0) =~= fb);
    while i < a.len() && i < b.len()
        invariant
            i <= a.len(),
            i <= b.len(),
            fa.len() == a.len(),
            fb.len() == b.len(),
            fold_case ==> fa == folded(a@),
            fold_case ==> fb == folded(b@),
            !fold_case ==> fa == code_points(a@),
            !fold_case ==> fb == code_points(b@),
            lex_le(fa, fb) == lex_le(fa.skip(i as int), fb.skip(i as int)),
        decreases a.len() - i,
    {
        let x = if fold_case {
            fold_char(a[i])
        } else {
            a[i] as u32
        };
        let y = if fold_case {
            fold_char(b[i])
        } else {
            b[i] as u32
        };
        assert(x == fa[i as int] && y == fb[i as int]);
        if x != y {
            return x < y;
        }
        assert(fa.skip(i as int).drop_first() =~= fa.skip(i + 1));
        assert(fb.skip(i as int).drop_first() =~= fb.skip(i + 1));
        i = i + 1;
    }
    i == a.len()
}

/// The digit character for `d < 10`.
pub open spec fn digit(d: nat) -> char {
    if d == 0 {
        '0'
    } else if d == 1 {
        '1'
    } else if d == 2 {
        '2'
    } else if d == 3 {
        '3'
    } else if d == 4 {
        '4'
    } else if d == 5 {
        '5'
    } else if d == 6 {
        '6'
    } else if d == 7 {
        '7'
    } else if d == 8 {
        '8'
    } else {
        '9'
    }
}

/// The decimal rendering of `n`, most significant digit first, no leading
/// zeros.
pub open spec fn decimal(n: nat) -> Seq<char>
    decreases n,
{
    if n < 10 {
        seq![digit(n)]
    } else {
        decimal(n / 10) + seq![digit(n % 10)]
    }
}

fn digit_str(d: u64) -> (s: &'static str)
    requires
        d < 10,
    ensures
        s@ == seq![digit(d as nat)],
{
    if d == 0 {
        proof {
            reveal_strlit("0");
        }
        "0"
    } else if d == 1 {
        proof {
            reveal_strlit("1");
        }
        "1"
    } else if d == 2 {
        proof {
            reveal_strlit("2");
        }
        "2"
    } else if d == 3 {
        proof {
            reveal_strlit("3");
        }
        "3"
    } else if d == 4 {
        proof {
            reveal_strlit("4");
        }
        "4"
    } else if d == 5 {
        proof {
            reveal_strlit("5");
        }
        "5"
    } else if d == 6 {
        proof {
            reveal_strlit("6");
        }
        "6"
    } else if d == 7 {
        proof {
            reveal_strlit("7");
        }
        "7"
    } else if d == 8 {
        proof {
            reveal_strlit("8");
        }
        "8"
    } else {
        proof {
            reveal_strlit("9");
        }
        "9"
    }
}

/// Appends the decimal rendering of `n` to `s`.
pub fn push_decimal(s: &mut String, n: u64)
    ensures
        final(s)@ == old(s)@ + decimal(n as nat),
    decreases n,
{
    if n >= 10 {
        push_decimal(s, n / 10);
    }
    s.append(digit_str(n % 10));
    proof {
        if n < 10 {
            assert(n % 10 == n);
        }
        assert(old(s)@ + decimal(n as nat) =~= old(s)@ + (if n < 10 {
            Seq::<char>::empty()
        } else {
            decimal((n / 10) as nat)
        }) + seq![digit((n % 10) as nat)]);
    }
}

/// The parts joined with `sep` between consecutive ones.
pub open spec fn join(parts: Seq<Seq<char>>, sep: Seq<char>) -> Seq<char>
    decreases parts.len(),
{
    if parts.len() == 0 {
        Seq::empty()
    } else if parts.len() == 1 {
        parts[0]
    } else {
        join(parts.drop_last(), sep) + sep + parts.last()
    }
}

} // verus!

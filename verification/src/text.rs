//! Character-sequence primitives shared by the parsers: whitespace
//! trimming, splitting on a separator, prefix/suffix tests and
//! case-insensitive comparison, each with a specification-level
//! definition and a verified executable counterpart.

use vstd::prelude::*;

verus! {

// ---------------------------------------------------------------------------
// Character classes
// ---------------------------------------------------------------------------

/// Whitespace that is insignificant at the ends of a line.
pub open spec fn is_space_c(c: char) -> bool {
    c == ' ' || c == '\t' || c == '\r'
}

pub fn is_space(c: char) -> (b: bool)
    ensures
        b == is_space_c(c),
{
    c == ' ' || c == '\t' || c == '\r'
}

pub open spec fn is_digit_c(c: char) -> bool {
    48 <= c as int && c as int <= 57
}

pub fn is_digit(c: char) -> (b: bool)
    ensures
        b == is_digit_c(c),
{
    '0' <= c && c <= '9'
}

/// Code point of `c` with an upper-case ASCII letter folded to lower case.
pub open spec fn lower_u(c: char) -> int {
    if 65 <= c as int && c as int <= 90 {
        c as int + 32
    } else {
        c as int
    }
}

/// ASCII-case-insensitive equality of two character sequences.
pub open spec fn eq_ci(a: Seq<char>, b: Seq<char>) -> bool {
    a.len() == b.len() && forall|i: int| 0 <= i < a.len() ==> lower_u(a[i]) == lower_u(b[i])
}

// ---------------------------------------------------------------------------
// Small sequence lemmas
// ---------------------------------------------------------------------------

pub proof fn lemma_skip_one<T>(s: Seq<T>, i: int)
    requires
        0 <= i < s.len(),
    ensures
        s.skip(i).drop_first() =~= s.skip(i + 1),
{
}

// ---------------------------------------------------------------------------
// Trimming
// ---------------------------------------------------------------------------

pub open spec fn trim_front(s: Seq<char>) -> Seq<char>
    decreases s.len(),
{
    if s.len() > 0 && is_space_c(s[0]) {
        trim_front(s.drop_first())
    } else {
        s
    }
}

pub open spec fn trim_back(s: Seq<char>) -> Seq<char>
    decreases s.len(),
{
    if s.len() > 0 && is_space_c(s.last()) {
        trim_back(s.drop_last())
    } else {
        s
    }
}

/// `s` with insignificant whitespace removed from both ends.
pub open spec fn trim_s(s: Seq<char>) -> Seq<char> {
    trim_back(trim_front(s))
}

/// `s` carries no whitespace at either end.
pub open spec fn trimmed(s: Seq<char>) -> bool {
    trim_s(s) == s
}

pub proof fn lemma_trim_front_is_suffix(s: Seq<char>)
    ensures
        trim_front(s).len() <= s.len(),
        trim_front(s) == s.skip(s.len() - trim_front(s).len()),
        trim_front(s).len() > 0 ==> !is_space_c(trim_front(s)[0]),
    decreases s.len(),
{
    if s.len() > 0 && is_space_c(s[0]) {
        lemma_trim_front_is_suffix(s.drop_first());
        assert(s.drop_first() =~= s.skip(1));
        let k = s.len() - trim_front(s).len();
        assert(s.skip(1).skip(k - 1) =~= s.skip(k));
    } else {
        assert(s.skip(0) =~= s);
    }
}

pub proof fn lemma_trim_back_is_prefix(s: Seq<char>)
    ensures
        trim_back(s).len() <= s.len(),
        trim_back(s) == s.take(trim_back(s).len() as int),
        trim_back(s).len() > 0 ==> !is_space_c(trim_back(s).last()),
    decreases s.len(),
{
    if s.len() > 0 && is_space_c(s.last()) {
        lemma_trim_back_is_prefix(s.drop_last());
        assert(s.drop_last() =~= s.take(s.len() - 1));
        let k = trim_back(s).len();
        assert(s.take(s.len() - 1).take(k as int) =~= s.take(k as int));
    }
}

/// A sequence that is empty or has non-space characters at both ends is
/// unchanged by trimming.
pub proof fn lemma_trim_stable(s: Seq<char>)
    requires
        s.len() == 0 || (!is_space_c(s[0]) && !is_space_c(s.last())),
    ensures
        trim_s(s) == s,
{
    assert(trim_front(s) == s);
    assert(trim_back(s) == s);
}

/// Trimming an already-trimmed sequence leaves both partial trims fixed.
pub proof fn lemma_trimmed_parts(s: Seq<char>)
    requires
        trimmed(s),
    ensures
        trim_front(s) == s,
        trim_back(s) == s,
        s.len() > 0 ==> !is_space_c(s[0]) && !is_space_c(s.last()),
{
    lemma_trim_front_is_suffix(s);
    lemma_trim_back_is_prefix(trim_front(s));
    assert(trim_s(s).len() <= trim_front(s).len());
    assert(trim_front(s) == s);
    assert(trim_back(s) == s);
    if s.len() > 0 {
        lemma_trim_back_is_prefix(s);
        assert(!is_space_c(s[0]));
        assert(!is_space_c(s.last()));
    }
}

pub proof fn lemma_trim_idem(s: Seq<char>)
    ensures
        trimmed(trim_s(s)),
{
    lemma_trim_front_is_suffix(s);
    let u = trim_front(s);
    lemma_trim_back_is_prefix(u);
    let t = trim_back(u);
    if t.len() > 0 {
        assert(t[0] == u[0]);
        assert(!is_space_c(t[0]));
        assert(!is_space_c(t.last()));
        lemma_trim_stable(t);
    } else {
        lemma_trim_stable(t);
    }
}

// ---------------------------------------------------------------------------
// Finding and splitting
// ---------------------------------------------------------------------------

/// Index of the first occurrence of `c` in `s`; `s.len()` if absent.
pub open spec fn idx_of(s: Seq<char>, c: char) -> int
    decreases s.len(),
{
    if s.len() == 0 {
        0
    } else if s[0] == c {
        0
    } else {
        1 + idx_of(s.drop_first(), c)
    }
}

pub proof fn lemma_idx_of(s: Seq<char>, c: char)
    ensures
        0 <= idx_of(s, c) <= s.len(),
        idx_of(s, c) < s.len() ==> s[idx_of(s, c)] == c,
        forall|j: int| 0 <= j < idx_of(s, c) ==> s[j] != c,
    decreases s.len(),
{
    if s.len() > 0 && s[0] != c {
        lemma_idx_of(s.drop_first(), c);
        assert forall|j: int| 0 <= j < idx_of(s, c) implies s[j] != c by {
            if j > 0 {
                assert(s.drop_first()[j - 1] != c);
            }
        }
    }
}

/// The first occurrence in a sequence is where a scan finds it.
pub proof fn lemma_idx_of_is(s: Seq<char>, c: char, k: int)
    requires
        0 <= k <= s.len(),
        forall|j: int| 0 <= j < k ==> s[j] != c,
        k < s.len() ==> s[k] == c,
    ensures
        idx_of(s, c) == k,
    decreases k,
{
    if s.len() > 0 && s[0] != c {
        lemma_idx_of_is(s.drop_first(), c, k - 1);
    }
}

/// `s` split on every occurrence of `c`; the separators are consumed and
/// empty pieces are kept, so the result always has one more piece than
/// `s` has separators.
pub open spec fn split_c(s: Seq<char>, c: char) -> Seq<Seq<char>>
    decreases s.len(),
{
    let i = idx_of(s, c);
    if 0 <= i < s.len() {
        seq![s.take(i)] + split_c(s.skip(i + 1), c)
    } else {
        seq![s]
    }
}


// ---------------------------------------------------------------------------
// Prefixes and suffixes
// ---------------------------------------------------------------------------

pub open spec fn has_prefix(s: Seq<char>, p: Seq<char>) -> bool {
    p.len() <= s.len() && s.take(p.len() as int) == p
}

pub open spec fn has_suffix(s: Seq<char>, p: Seq<char>) -> bool {
    p.len() <= s.len() && s.skip(s.len() - p.len()) == p
}

// ---------------------------------------------------------------------------
// Executable helpers over character vectors
// ---------------------------------------------------------------------------

/// The characters of `s`, in order, as a vector.
pub fn str_to_chars(s: &str) -> (r: Vec<char>)
    ensures
        r@ == s@,
{
    let n = s.unicode_len();
    let mut r: Vec<char> = Vec::new();
    let mut i: usize = 0;
    while i < n
        invariant
            i <= n,
            n == s@.len(),
            r@ == s@.take(i as int),
        decreases n - i,
    {
        let c = s.get_char(i);
        r.push(c);
        assert(r@ =~= s@.take(i + 1 as int));
        i += 1;
    }
    assert(r@ =~= s@);
    r
}

/// Relies on `String`'s `FromIterator<char>` implementation: collecting
/// an iterator of characters yields the string of exactly those
/// characters in order.
#[verifier::external_body]
pub fn chars_to_string(v: &Vec<char>) -> (r: String)
    ensures
        r@ == v@,
{
    v.iter().collect()
}

/// The slice of `v` from `a` (inclusive) to `b` (exclusive).
pub fn subvec(v: &Vec<char>, a: usize, b: usize) -> (r: Vec<char>)
    requires
        a <= b <= v@.len(),
    ensures
        r@ == v@.subrange(a as int, b as int),
{
    let mut r: Vec<char> = Vec::new();
    let mut i: usize = a;
    while i < b
        invariant
            a <= i <= b <= v@.len(),
            r@ == v@.subrange(a as int, i as int),
        decreases b - i,
    {
        r.push(v[i]);
        assert(r@ =~= v@.subrange(a as int, i + 1 as int));
        i += 1;
    }
    r
}

/// `v` with insignificant whitespace removed from both ends.
pub fn trim_vec(v: &Vec<char>) -> (r: Vec<char>)
    ensures
        r@ == trim_s(v@),
{
    let n = v.len();
    let mut i: usize = 0;
    assert(v@.skip(0) =~= v@);
    while i < n && is_space(v[i])
        invariant
            0 <= i <= n,
            n == v@.len(),
            trim_front(v@) == trim_front(v@.skip(i as int)),
        decreases n - i,
    {
        proof {
            lemma_skip_one(v@, i as int);
        }
        assert(v@.skip(i as int)[0] == v@[i as int]);
        i += 1;
    }
    assert(trim_front(v@) == v@.skip(i as int)) by {
        assert(v@.skip(i as int).len() == n - i);
        if i < n {
            assert(v@.skip(i as int)[0] == v@[i as int]);
        }
    }
    let mut j: usize = n;
    while j > i && is_space(v[j - 1])
        invariant
            i <= j <= n,
            n == v@.len(),
            trim_front(v@) == v@.skip(i as int),
            trim_back(v@.skip(i as int)) == trim_back(v@.subrange(i as int, j as int)),
        decreases j,
    {
        let ghost w = v@.subrange(i as int, j as int);
        assert(w.last() == v@[j - 1]);
        assert(w.drop_last() =~= v@.subrange(i as int, j - 1));
        j -= 1;
    }
    let ghost w = v@.subrange(i as int, j as int);
    assert(trim_back(w) == w) by {
        if j > i {
            assert(w.last() == v@[j - 1]);
        }
    }
    let r = subvec(v, i, j);
    assert(r@ == trim_s(v@)) by {
        assert(v@.skip(i as int) =~= v@.subrange(i as int, n as int));
    }
    r
}

/// First index of `c` in `v`, or `v.len()` if `c` does not occur.
pub fn find_in(v: &Vec<char>, c: char) -> (i: usize)
    ensures
        i as int == idx_of(v@, c),
        i <= v@.len(),
        i < v@.len() ==> v@[i as int] == c,
        forall|j: int| 0 <= j < i ==> v@[j] != c,
{
    let n = v.len();
    let mut i: usize = 0;
    while i < n
        invariant
            0 <= i <= n,
            n == v@.len(),
            forall|j: int| 0 <= j < i ==> v@[j] != c,
        decreases n - i,
    {
        if v[i] == c {
            proof {
                lemma_idx_of_is(v@, c, i as int);
            }
            return i;
        }
        i += 1;
    }
    proof {
        lemma_idx_of_is(v@, c, n as int);
    }
    n
}

/// Whether the characters of `v` begin with the literal `p`.
pub fn has_prefix_str(v: &Vec<char>, p: &str) -> (b: bool)
    ensures
        b == has_prefix(v@, p@),
{
    let pl = p.unicode_len();
    if pl > v.len() {
        return false;
    }
    let mut i: usize = 0;
    while i < pl
        invariant
            0 <= i <= pl <= v@.len(),
            pl == p@.len(),
            forall|j: int| 0 <= j < i ==> v@[j] == p@[j],
        decreases pl - i,
    {
        if v[i] != p.get_char(i) {
            assert(v@.take(pl as int)[i as int] != p@[i as int]);
            return false;
        }
        i += 1;
    }
    assert(v@.take(pl as int) =~= p@);
    true
}

/// Whether the characters of `v` are exactly the literal `p`.
pub fn eq_str(v: &Vec<char>, p: &str) -> (b: bool)
    ensures
        b == (v@ == p@),
{
    let pl = p.unicode_len();
    if pl != v.len() {
        return false;
    }
    let mut i: usize = 0;
    while i < pl
        invariant
            0 <= i <= pl == v@.len(),
            pl == p@.len(),
            forall|j: int| 0 <= j < i ==> v@[j] == p@[j],
        decreases pl - i,
    {
        if v[i] != p.get_char(i) {
            return false;
        }
        i += 1;
    }
    assert(v@ =~= p@);
    true
}

/// Whether two strings hold the same characters.
pub fn str_eq(a: &str, b: &str) -> (r: bool)
    ensures
        r == (a@ == b@),
{
    let al = a.unicode_len();
    if al != b.unicode_len() {
        return false;
    }
    let mut i: usize = 0;
    while i < al
        invariant
            0 <= i <= al == a@.len(),
            al == b@.len(),
            forall|j: int| 0 <= j < i ==> a@[j] == b@[j],
        decreases al - i,
    {
        if a.get_char(i) != b.get_char(i) {
            return false;
        }
        i += 1;
    }
    assert(a@ =~= b@);
    true
}

/// `c` with an upper-case ASCII letter replaced by its lower-case twin.
pub fn lower_char(c: char) -> (r: char)
    ensures
        r as int == lower_u(c),
{
    match c {
        'A' => 'a',
        'B' => 'b',
        'C' => 'c',
        'D' => 'd',
        'E' => 'e',
        'F' => 'f',
        'G' => 'g',
        'H' => 'h',
        'I' => 'i',
        'J' => 'j',
        'K' => 'k',
        'L' => 'l',
        'M' => 'm',
        'N' => 'n',
        'O' => 'o',
        'P' => 'p',
        'Q' => 'q',
        'R' => 'r',
        'S' => 's',
        'T' => 't',
        'U' => 'u',
        'V' => 'v',
        'W' => 'w',
        'X' => 'x',
        'Y' => 'y',
        'Z' => 'z',
        _ => c,
    }
}

/// ASCII-case-insensitive comparison of `v` against the literal `p`.
pub fn eq_ci_str(v: &Vec<char>, p: &str) -> (b: bool)
    ensures
        b == eq_ci(v@, p@),
{
    let pl = p.unicode_len();
    if pl != v.len() {
        return false;
    }
    let mut i: usize = 0;
    while i < pl
        invariant
            0 <= i <= pl == v@.len(),
            pl == p@.len(),
            forall|j: int| 0 <= j < i ==> lower_u(v@[j]) == lower_u(p@[j]),
        decreases pl - i,
    {
        if lower_char(v[i]) != lower_char(p.get_char(i)) {
            return false;
        }
        i += 1;
    }
    true
}

/// Whether the characters of `v` end with the literal `p`.
pub fn has_suffix_str(v: &Vec<char>, p: &str) -> (b: bool)
    ensures
        b == has_suffix(v@, p@),
{
    let pl = p.unicode_len();
    if pl > v.len() {
        return false;
    }
    let n = v.len();
    let start = n - pl;
    let mut i: usize = 0;
    while i < pl
        invariant
            0 <= i <= pl <= n,
            n == v@.len(),
            pl == p@.len(),
            start + pl == n,
            forall|j: int| 0 <= j < i ==> v@[start + j] == p@[j],
        decreases pl - i,
    {
        if v[start + i] != p.get_char(i) {
            assert(v@.skip(start as int)[i as int] != p@[i as int]);
            return false;
        }
        i += 1;
    }
    assert(v@.skip(start as int) =~= p@);
    true
}

// ---------------------------------------------------------------------------
// Views of vectors of vectors
// ---------------------------------------------------------------------------

/// The character sequences held by a sequence of character vectors.
pub open spec fn vviews(s: Seq<Vec<char>>) -> Seq<Seq<char>> {
    s.map_values(|x: Vec<char>| x@)
}

pub proof fn lemma_vviews_push(s: Seq<Vec<char>>, v: Vec<char>)
    ensures
        vviews(s.push(v)) =~= vviews(s).push(v@),
{
}

/// `v` split on every occurrence of `c`, as trimmed-free pieces.
pub fn split_vec(v: &Vec<char>, c: char) -> (r: Vec<Vec<char>>)
    ensures
        vviews(r@) == split_c(v@, c),
{
    let n = v.len();
    let mut r: Vec<Vec<char>> = Vec::new();
    let mut start: usize = 0;
    let mut i: usize = 0;
    assert(v@.skip(0) =~= v@);
    assert(vviews(r@) + split_c(v@, c) =~= split_c(v@, c));
    while i < n
        invariant
            0 <= start <= i <= n,
            n == v@.len(),
            forall|j: int| start <= j < i ==> v@[j] != c,
            split_c(v@, c) == vviews(r@) + split_c(v@.skip(start as int), c),
        decreases n - i,
    {
        if v[i] == c {
            let piece = subvec(v, start, i);
            proof {
                let rest = v@.skip(start as int);
                assert(forall|j: int|
                    0 <= j < i - start ==> rest[j] == v@[start + j] && rest[j] != c);
                assert(rest[i - start] == v@[i as int]);
                lemma_idx_of_is(rest, c, i - start);
                assert(rest.take(i - start) =~= v@.subrange(start as int, i as int));
                assert(rest.skip(i - start + 1) =~= v@.skip(i + 1));
                assert(split_c(rest, c) == seq![piece@] + split_c(v@.skip(i + 1), c));
            }
            let ghost old_r = r@;
            r.push(piece);
            proof {
                lemma_vviews_push(old_r, piece);
                assert(vviews(old_r) + (seq![piece@] + split_c(v@.skip(i + 1), c)) =~= vviews(
                    r@,
                ) + split_c(v@.skip(i + 1), c));
            }
            start = i + 1;
        }
        i += 1;
    }
    let piece = subvec(v, start, n);
    proof {
        let rest = v@.skip(start as int);
        assert(forall|j: int| 0 <= j < n - start ==> rest[j] == v@[start + j] && rest[j] != c);
        lemma_idx_of_is(rest, c, n - start);
        assert(rest =~= piece@);
        assert(split_c(rest, c) == seq![piece@]);
    }
    let ghost old_r = r@;
    r.push(piece);
    proof {
        lemma_vviews_push(old_r, piece);
        assert(vviews(old_r) + seq![piece@] =~= vviews(r@));
    }
    r
}


/// The document's lines: the text split on line breaks, each line
/// trimmed at both ends.
pub open spec fn doc_lines(s: Seq<char>) -> Seq<Seq<char>> {
    split_c(s, '\n').map_values(|l: Seq<char>| trim_s(l))
}

/// The trimmed lines of `s`, in order.
pub fn to_lines(s: &str) -> (r: Vec<Vec<char>>)
    ensures
        vviews(r@) == doc_lines(s@),
{
    let chars = str_to_chars(s);
    let parts = split_vec(&chars, '\n');
    let n = parts.len();
    let ghost target = doc_lines(s@);
    proof {
        assert(target.len() == n);
    }
    let mut r: Vec<Vec<char>> = Vec::new();
    let mut i: usize = 0;
    while i < n
        invariant
            0 <= i <= n,
            n == parts@.len(),
            vviews(parts@) == split_c(s@, '\n'),
            target == doc_lines(s@),
            vviews(r@) =~= target.take(i as int),
        decreases n - i,
    {
        let t = trim_vec(&parts[i]);
        proof {
            assert(target[i as int] == trim_s(vviews(parts@)[i as int]));
            assert(vviews(parts@)[i as int] == parts@[i as int]@);
        }
        let ghost old_r = r@;
        r.push(t);
        proof {
            lemma_vviews_push(old_r, t);
            assert(vviews(r@) =~= target.take(i + 1 as int));
        }
        i += 1;
    }
    assert(vviews(r@) =~= target);
    r
}

/// Count of leading `#` characters, so that `v` past them is
/// `drop_hashes` of `v`.
pub fn strip_hashes(v: &Vec<char>) -> (r: usize)
    ensures
        r <= v@.len(),
        drop_hashes(v@) == v@.skip(r as int),
{
    let n = v.len();
    let mut h: usize = 0;
    assert(v@.skip(0) =~= v@);
    while h < n && v[h] == '#'
        invariant
            0 <= h <= n,
            n == v@.len(),
            drop_hashes(v@) == drop_hashes(v@.skip(h as int)),
        decreases n - h,
    {
        proof {
            assert(v@.skip(h as int)[0] == v@[h as int]);
            lemma_skip_one(v@, h as int);
        }
        h += 1;
    }
    assert(drop_hashes(v@) == v@.skip(h as int)) by {
        if h < n {
            assert(v@.skip(h as int)[0] == v@[h as int]);
        }
    }
    h
}

/// `s` with its leading run of `#` characters removed.
pub open spec fn drop_hashes(s: Seq<char>) -> Seq<char>
    decreases s.len(),
{
    if s.len() > 0 && s[0] == '#' {
        drop_hashes(s.drop_first())
    } else {
        s
    }
}


/// `s` split on `c`, each piece trimmed.
pub open spec fn split_trimmed(s: Seq<char>, c: char) -> Seq<Seq<char>> {
    split_c(s, c).map_values(|p: Seq<char>| trim_s(p))
}

/// The pieces of `v` between occurrences of `c`, trimmed, as strings.
pub fn split_trimmed_exec(v: &Vec<char>, c: char) -> (r: Vec<String>)
    ensures
        r.deep_view() == split_trimmed(v@, c),
{
    let parts = split_vec(v, c);
    let pn = parts.len();
    let ghost rl = split_trimmed(v@, c);
    proof {
        assert(rl.len() == pn);
    }
    let mut out: Vec<String> = Vec::new();
    let mut k: usize = 0;
    while k < pn
        invariant
            0 <= k <= pn,
            pn == parts@.len(),
            vviews(parts@) == split_c(v@, c),
            rl == split_trimmed(v@, c),
            out.deep_view() =~= rl.take(k as int),
        decreases pn - k,
    {
        proof {
            assert(rl[k as int] == trim_s(vviews(parts@)[k as int]));
            assert(vviews(parts@)[k as int] == parts@[k as int]@);
        }
        let t = trim_vec(&parts[k]);
        let ghost prev = out.deep_view();
        let ghost prevv = out@;
        let sv = chars_to_string(&t);
        out.push(sv);
        proof {
            assert(out@ == prevv.push(sv));
            assert(prev.len() == k);
            assert forall|x: int| 0 <= x < k + 1 implies out.deep_view()[x] == rl.take(k + 1)[x] by {
                assert(rl.take(k + 1)[x] == rl[x]);
                assert(out.deep_view()[x] == out@[x]@);
                if x < k {
                    assert(prev[x] == rl.take(k as int)[x]);
                    assert(prev[x] == prevv[x]@);
                    assert(out@[x] == prevv[x]);
                } else {
                    assert(out@[x] == sv);
                    assert(sv@ == t@);
                }
            }
            assert(out.deep_view().len() == k + 1);
            assert(out.deep_view() =~= rl.take(k + 1));
        }
        k += 1;
    }
    assert(out.deep_view() =~= rl);
    out
}


// ---------------------------------------------------------------------------
// Joining
// ---------------------------------------------------------------------------

/// No occurrence of `c` anywhere in `s`.
pub open spec fn no_char(s: Seq<char>, c: char) -> bool {
    forall|j: int| 0 <= j < s.len() ==> s[j] != c
}

/// The pieces joined with one `c` between neighbours.
pub open spec fn join_c(parts: Seq<Seq<char>>, c: char) -> Seq<char>
    decreases parts.len(),
{
    if parts.len() == 0 {
        Seq::empty()
    } else if parts.len() == 1 {
        parts[0]
    } else {
        parts[0] + seq![c] + join_c(parts.drop_first(), c)
    }
}

pub proof fn lemma_join_snoc(parts: Seq<Seq<char>>, p: Seq<char>, c: char)
    ensures
        parts.len() == 0 ==> join_c(parts.push(p), c) == p,
        parts.len() > 0 ==> join_c(parts.push(p), c) == join_c(parts, c) + seq![c] + p,
    decreases parts.len(),
{
    if parts.len() == 0 {
        assert(parts.push(p)[0] == p);
    } else if parts.len() == 1 {
        assert(parts.push(p)[0] == parts[0]);
        assert(parts.push(p).drop_first() =~= seq![p]);
        assert(join_c(seq![p], c) == p);
        assert(join_c(parts, c) == parts[0]);
    } else {
        lemma_join_snoc(parts.drop_first(), p, c);
        assert(parts.push(p).drop_first() =~= parts.drop_first().push(p));
        assert(parts.push(p)[0] == parts[0]);
        assert((parts[0] + seq![c] + (join_c(parts.drop_first(), c) + seq![c] + p)) =~= (parts[0]
            + seq![c] + join_c(parts.drop_first(), c)) + seq![c] + p);
    }
}

/// Splitting undoes joining when no piece holds the separator.
pub proof fn lemma_split_join(parts: Seq<Seq<char>>, c: char)
    requires
        parts.len() > 0,
        forall|i: int| 0 <= i < parts.len() ==> no_char(#[trigger] parts[i], c),
    ensures
        split_c(join_c(parts, c), c) == parts,
    decreases parts.len(),
{
    let w = join_c(parts, c);
    if parts.len() == 1 {
        assert(no_char(parts[0], c));
        lemma_idx_of_is(w, c, w.len() as int);
        assert(split_c(w, c) =~= parts);
    } else {
        let h = parts[0];
        let rest = join_c(parts.drop_first(), c);
        assert(w == h + seq![c] + rest);
        assert(forall|j: int| 0 <= j < h.len() ==> w[j] == h[j] && w[j] != c);
        assert(w[h.len() as int] == c);
        lemma_idx_of_is(w, c, h.len() as int);
        assert(w.take(h.len() as int) =~= h);
        assert(w.skip(h.len() as int + 1) =~= rest);
        assert(forall|i: int|
            0 <= i < parts.drop_first().len() ==> no_char(#[trigger] parts.drop_first()[i], c));
        lemma_split_join(parts.drop_first(), c);
        assert(split_c(w, c) =~= seq![h] + split_c(rest, c));
        assert(seq![h] + parts.drop_first() =~= parts);
    }
}

/// The pieces of `parts` joined with one `c` between neighbours.
pub fn join_vec(parts: &Vec<Vec<char>>, c: char) -> (r: Vec<char>)
    ensures
        r@ == join_c(vviews(parts@), c),
{
    let n = parts.len();
    let mut r: Vec<char> = Vec::new();
    let mut i: usize = 0;
    proof {
        assert(vviews(parts@).take(0) =~= Seq::<Seq<char>>::empty());
        assert(r@ =~= join_c(vviews(parts@).take(0), c));
    }
    while i < n
        invariant
            0 <= i <= n,
            n == parts@.len(),
            r@ == join_c(vviews(parts@).take(i as int), c),
        decreases n - i,
    {
        let ghost pv = vviews(parts@);
        if i > 0 {
            r.push(c);
        }
        r.extend_from_slice(parts[i].as_slice());
        proof {
            lemma_join_snoc(pv.take(i as int), pv[i as int], c);
            assert(pv.take(i as int).push(pv[i as int]) =~= pv.take(i + 1));
            assert(pv[i as int] == parts@[i as int]@);
            if i > 0 {
                assert(r@ =~= join_c(pv.take(i as int), c) + seq![c] + pv[i as int]);
            } else {
                assert(r@ =~= pv[i as int]);
            }
        }
        i += 1;
    }
    proof {
        assert(vviews(parts@).take(n as int) =~= vviews(parts@));
    }
    r
}


/// `prefix` followed by `detail`, for error messages that name their
/// cause and the offending text.
pub fn tag_msg(prefix: &str, detail: &str) -> (r: String)
    ensures
        r@ == prefix@ + detail@,
{
    let mut r = String::from_str(prefix);
    r.append(detail);
    r
}

} // verus!

//! Character-level text primitives: the views of strings as `Seq<char>` and
//! the few operations on them that the rest of the library is written in.
use vstd::prelude::*;
use vstd::std_specs::iter::IteratorSpec;

verus! {

broadcast use vstd::string::group_string_axioms;

/// Appends one character to a string.
/// Trusted: `String::push` appends exactly `c` to the string.
#[verifier::external_body]
pub(crate) fn push_char(s: &mut String, c: char)
    ensures
        final(s)@ == old(s)@.push(c),
{
    s.push(c);
}

/// Equality of two string slices: the same characters in the same order.
pub(crate) fn str_eq(a: &str, b: &str) -> (r: bool)
    ensures
        r == (a@ == b@),
{
    let av = chars_of(a);
    let bv = chars_of(b);
    if av.len() != bv.len() {
        return false;
    }
    let mut i: usize = 0;
    while i < av.len()
        invariant
            i <= av.len(),
            av.len() == bv.len(),
            av@ == a@,
            bv@ == b@,
            forall|k: int| 0 <= k < i ==> av@[k] == bv@[k],
        decreases av.len() - i,
    {
        if av[i] != bv[i] {
            return false;
        }
        i = i + 1;
    }
    proof {
        assert(av@ =~= bv@);
    }
    true
}

/// The characters of a string slice, in order.
pub fn chars_of(s: &str) -> (v: Vec<char>)
    ensures
        v@ == s@,
{
    let mut v: Vec<char> = Vec::new();
    let mut it = s.chars();
    loop
        invariant
            v@ + it.remaining() == s@,
            it.decrease() is Some,
        ensures
            v@ == s@,
        decreases it.decrease()->0,
    {
        let ghost old_rem = it.remaining();
        match it.next() {
            Some(c) => {
                proof {
                    assert(v@.push(c) + it.remaining() =~= v@ + old_rem);
                }
                v.push(c);
            },
            None => {
                assert(v@ =~= s@);
                break;
            },
        }
    }
    v
}

} // verus!

verus! {

/// A string built from the characters `v[lo..hi]`.
pub fn string_from_range(v: &Vec<char>, lo: usize, hi: usize) -> (s: String)
    requires
        lo <= hi <= v.len(),
    ensures
        s@ == v@.subrange(lo as int, hi as int),
{
    let mut s = String::new();
    let mut i = lo;
    while i < hi
        invariant
            lo <= i <= hi <= v.len(),
            s@ == v@.subrange(lo as int, i as int),
        decreases hi - i,
    {
        push_char(&mut s, v[i]);
        proof {
            assert(v@.subrange(lo as int, i + 1) =~= v@.subrange(lo as int, i as int).push(v@[i as int]));
        }
        i = i + 1;
    }
    s
}

/// Appends a string slice to a string.
pub fn push_str(s: &mut String, t: &str)
    ensures
        final(s)@ == old(s)@ + t@,
{
    s.append(t);
}

// ---------------------------------------------------------------------------
// Searching

/// First position at or after `i` that holds `c`.
pub open spec fn find_char_from(s: Seq<char>, c: char, i: int) -> Option<int>
    decreases s.len() - i,
{
    if i < 0 || i >= s.len() {
        None
    } else if s[i] == c {
        Some(i)
    } else {
        find_char_from(s, c, i + 1)
    }
}

/// What `find_char_from` finds: the first `c` from `i` on, or none at all.
pub proof fn lemma_find_char_from(s: Seq<char>, c: char, i: int)
    requires
        0 <= i,
    ensures
        match find_char_from(s, c, i) {
            Some(j) => i <= j < s.len() && s[j] == c && forall|k: int| i <= k < j ==> s[k] != c,
            None => forall|k: int| i <= k < s.len() ==> s[k] != c,
        },
    decreases s.len() - i,
{
    if i < s.len() && s[i] != c {
        lemma_find_char_from(s, c, i + 1);
    }
}

/// Position of the first `c` in `v` at or after `from`.
pub fn find_char(v: &Vec<char>, c: char, from: usize) -> (r: Option<usize>)
    requires
        from <= v.len(),
    ensures
        r matches Some(j) ==> find_char_from(v@, c, from as int) == Some(j as int),
        r is None ==> find_char_from(v@, c, from as int) is None,
{
    let mut i = from;
    while i < v.len()
        invariant
            from <= i <= v.len(),
            find_char_from(v@, c, from as int) == find_char_from(v@, c, i as int),
        decreases v.len() - i,
    {
        if v[i] == c {
            return Some(i);
        }
        i = i + 1;
    }
    None
}

/// `p` occurs in `s` starting at `i`.
pub open spec fn occurs_at(s: Seq<char>, p: Seq<char>, i: int) -> bool {
    0 <= i && i + p.len() <= s.len() && s.subrange(i, i + p.len()) == p
}

/// First position at or after `i` where `p` occurs in `s`.
pub open spec fn find_from(s: Seq<char>, p: Seq<char>, i: int) -> Option<int>
    decreases s.len() + 1 - i,
{
    if i < 0 || i + p.len() > s.len() {
        None
    } else if s.subrange(i, i + p.len()) == p {
        Some(i)
    } else {
        find_from(s, p, i + 1)
    }
}

/// What `find_from` finds: the first occurrence of `p` from `i` on, or none at all.
pub proof fn lemma_find_from(s: Seq<char>, p: Seq<char>, i: int)
    requires
        0 <= i,
    ensures
        match find_from(s, p, i) {
            Some(j) => i <= j && occurs_at(s, p, j) && forall|k: int| i <= k < j ==> !occurs_at(s, p, k),
            None => forall|k: int| i <= k ==> !occurs_at(s, p, k),
        },
    decreases s.len() + 1 - i,
{
    if i + p.len() <= s.len() && s.subrange(i, i + p.len()) != p {
        lemma_find_from(s, p, i + 1);
    }
}

/// Whether `p` occurs in `v` at position `i`.
pub fn matches_at(v: &Vec<char>, p: &Vec<char>, i: usize) -> (r: bool)
    requires
        i <= v.len(),
    ensures
        r == occurs_at(v@, p@, i as int),
{
    if p.len() > v.len() - i {
        return false;
    }
    let mut k: usize = 0;
    while k < p.len()
        invariant
            i + p.len() <= v.len(),
            0 <= k <= p.len(),
            forall|m: int| 0 <= m < k ==> v@[i + m] == p@[m],
        decreases p.len() - k,
    {
        if v[i + k] != p[k] {
            proof {
                assert(v@.subrange(i as int, i + p.len())[k as int] != p@[k as int]);
            }
            return false;
        }
        k = k + 1;
    }
    proof {
        assert(v@.subrange(i as int, i + p.len()) =~= p@);
    }
    true
}

/// Position of the first occurrence of `p` in `v` at or after `from`.
pub fn find_seq(v: &Vec<char>, p: &Vec<char>, from: usize) -> (r: Option<usize>)
    requires
        from <= v.len(),
    ensures
        r matches Some(j) ==> find_from(v@, p@, from as int) == Some(j as int),
        r is None ==> find_from(v@, p@, from as int) is None,
{
    let mut i = from;
    while p.len() <= v.len() - i
        invariant
            from <= i <= v.len(),
            find_from(v@, p@, from as int) == find_from(v@, p@, i as int),
        decreases v.len() - i,
    {
        if matches_at(v, p, i) {
            return Some(i);
        }
        if i == v.len() {
            // only the empty pattern fits at the end, and it always matches
            proof {
                assert(v@.subrange(i as int, i as int) =~= p@);
            }
            return None;
        }
        i = i + 1;
    }
    None
}

} // verus!

verus! {

// ---------------------------------------------------------------------------
// Whitespace and trimming

/// Unicode `White_Space`, the property that `char::is_whitespace` tests.
pub open spec fn is_ws(c: char) -> bool {
    let u = c as u32;
    (0x9 <= u <= 0xd) || u == 0x20 || u == 0x85 || u == 0xa0 || u == 0x1680 || (0x2000 <= u
        <= 0x200a) || u == 0x2028 || u == 0x2029 || u == 0x202f || u == 0x205f || u == 0x3000
}

/// Whether `c` is whitespace (see `is_ws`).
pub fn is_whitespace(c: char) -> (r: bool)
    ensures
        r == is_ws(c),
{
    let u = c as u32;
    (0x9 <= u && u <= 0xd) || u == 0x20 || u == 0x85 || u == 0xa0 || u == 0x1680 || (0x2000 <= u
        && u <= 0x200a) || u == 0x2028 || u == 0x2029 || u == 0x202f || u == 0x205f || u == 0x3000
}

/// First position at or after `i` that is not whitespace (or the end).
pub open spec fn skip_ws(s: Seq<char>, i: int) -> int
    decreases s.len() - i,
{
    if 0 <= i < s.len() && is_ws(s[i]) {
        skip_ws(s, i + 1)
    } else {
        i
    }
}

/// End of `s[lo..hi]` once trailing whitespace is dropped.
pub open spec fn back_ws(s: Seq<char>, lo: int, hi: int) -> int
    decreases hi - lo,
{
    if lo < hi && is_ws(s[hi - 1]) {
        back_ws(s, lo, hi - 1)
    } else {
        hi
    }
}

/// `s` with leading and trailing whitespace removed (`str::trim`).
pub open spec fn trim(s: Seq<char>) -> Seq<char> {
    let a = skip_ws(s, 0);
    s.subrange(a, back_ws(s, a, s.len() as int))
}

/// Skipping whitespace stays within the text.
pub proof fn lemma_skip_ws(s: Seq<char>, i: int)
    requires
        0 <= i <= s.len(),
    ensures
        i <= skip_ws(s, i) <= s.len(),
    decreases s.len() - i,
{
    if i < s.len() && is_ws(s[i]) {
        lemma_skip_ws(s, i + 1);
    }
}

/// Dropping trailing whitespace stays within the range.
pub proof fn lemma_back_ws(s: Seq<char>, lo: int, hi: int)
    requires
        0 <= lo <= hi <= s.len(),
    ensures
        lo <= back_ws(s, lo, hi) <= hi,
    decreases hi - lo,
{
    if lo < hi && is_ws(s[hi - 1]) {
        lemma_back_ws(s, lo, hi - 1);
    }
}

/// The bounds `(a, b)` of `trim(v[lo..hi])` inside `v`.
pub fn trim_bounds(v: &Vec<char>, lo: usize, hi: usize) -> (r: (usize, usize))
    requires
        lo <= hi <= v.len(),
    ensures
        lo <= r.0 <= r.1 <= hi,
        v@.subrange(r.0 as int, r.1 as int) == trim(v@.subrange(lo as int, hi as int)),
{
    let ghost w = v@.subrange(lo as int, hi as int);
    let mut a = lo;
    while a < hi && is_whitespace(v[a])
        invariant
            lo <= a <= hi <= v.len(),
            w == v@.subrange(lo as int, hi as int),
            skip_ws(w, 0) == skip_ws(w, a - lo),
        decreases hi - a,
    {
        assert(w[a - lo] == v@[a as int]);
        a = a + 1;
    }
    proof {
        if a < hi {
            assert(w[a - lo] == v@[a as int]);
        }
        assert(skip_ws(w, a - lo) == a - lo);
    }
    let mut b = hi;
    while b > a && is_whitespace(v[b - 1])
        invariant
            lo <= a <= b <= hi <= v.len(),
            w == v@.subrange(lo as int, hi as int),
            skip_ws(w, 0) == a - lo,
            back_ws(w, a - lo, w.len() as int) == back_ws(w, a - lo, b - lo),
        decreases b - a,
    {
        assert(w[b - 1 - lo] == v@[b - 1]);
        b = b - 1;
    }
    proof {
        if b > a {
            assert(w[b - 1 - lo] == v@[b - 1]);
        }
        assert(back_ws(w, a - lo, b - lo) == b - lo);
        assert(v@.subrange(a as int, b as int) =~= w.subrange(a - lo, b - lo));
    }
    (a, b)
}

/// `str::trim`, as an owned string.
pub fn trimmed(s: &str) -> (r: String)
    ensures
        r@ == trim(s@),
{
    let v = chars_of(s);
    let (a, b) = trim_bounds(&v, 0, v.len());
    proof {
        assert(v@.subrange(0, v@.len() as int) =~= v@);
    }
    string_from_range(&v, a, b)
}

// ---------------------------------------------------------------------------
// Lines and fields

/// A line without the `'\r'` that preceded its `'\n'`.
pub open spec fn strip_cr(l: Seq<char>) -> Seq<char> {
    if l.len() > 0 && l.last() == '\r' {
        l.drop_last()
    } else {
        l
    }
}

/// The lines of `s[pos..]`, as `str::lines` yields them.
pub open spec fn lines_from(s: Seq<char>, pos: int) -> Seq<Seq<char>>
    decreases s.len() - pos,
{
    if pos < 0 || pos >= s.len() {
        seq![]
    } else {
        match find_char_from(s, '\n', pos) {
            Some(j) => if pos <= j < s.len() {
                seq![strip_cr(s.subrange(pos, j))] + lines_from(s, j + 1)
            } else {
                seq![]
            },
            None => seq![s.subrange(pos, s.len() as int)],
        }
    }
}

/// The lines of `s` (`str::lines`): split at `'\n'`, each line without a `'\r'`
/// before its `'\n'`, and no empty line after a final `'\n'`.
pub open spec fn lines(s: Seq<char>) -> Seq<Seq<char>> {
    lines_from(s, 0)
}

/// The views of a sequence of strings.
pub open spec fn views(v: Seq<String>) -> Seq<Seq<char>> {
    v.map_values(|x: String| x@)
}

/// The lines of `v[from..]`, each as a string.
pub fn lines_of_chars(v: &Vec<char>, from: usize) -> (r: Vec<String>)
    requires
        from <= v.len(),
    ensures
        views(r@) == lines_from(v@, from as int),
{
    let mut r: Vec<String> = Vec::new();
    let mut pos = from;
    while pos < v.len()
        invariant
            from <= pos <= v.len(),
            lines_from(v@, from as int) == views(r@) + lines_from(v@, pos as int),
        decreases v.len() - pos,
    {
        proof {
            lemma_find_char_from(v@, '\n', pos as int);
        }
        match find_char(v, '\n', pos) {
            Some(j) => {
                let end = if j > pos && v[j - 1] == '\r' {
                    j - 1
                } else {
                    j
                };
                let line = string_from_range(v, pos, end);
                proof {
                    assert(line@ == strip_cr(v@.subrange(pos as int, j as int))) by {
                        if j > pos && v@[j - 1] == '\r' {
                            assert(v@.subrange(pos as int, j as int).drop_last() =~= v@.subrange(
                                pos as int,
                                j - 1,
                            ));
                        }
                    }
                    assert(views(r@.push(line)) =~= views(r@).push(line@));
                    assert(lines_from(v@, pos as int) == seq![line@] + lines_from(v@, j + 1));
                    assert(views(r@.push(line)) + lines_from(v@, j + 1) =~= views(r@) + (seq![line@]
                        + lines_from(v@, j + 1)));
                }
                r.push(line);
                pos = j + 1;
            },
            None => {
                let line = string_from_range(v, pos, v.len());
                proof {
                    assert(views(r@.push(line)) =~= views(r@).push(line@));
                    assert(lines_from(v@, pos as int) == seq![line@]);
                    assert(lines_from(v@, v.len() as int) =~= Seq::<Seq<char>>::empty());
                    assert(views(r@.push(line)) + lines_from(v@, v.len() as int) =~= views(r@) + seq![
                        line@,
                    ]);
                }
                r.push(line);
                pos = v.len();
            },
        }
    }
    proof {
        assert(views(r@) + lines_from(v@, pos as int) =~= views(r@));
    }
    r
}

/// `str::lines`, each line as an owned string.
pub fn lines_of(s: &str) -> (r: Vec<String>)
    ensures
        views(r@) == lines(s@),
{
    let v = chars_of(s);
    lines_of_chars(&v, 0)
}

/// The pieces of `s[pos..]` between occurrences of `c` (`str::split` with a `char`).
pub open spec fn split_from(s: Seq<char>, c: char, pos: int) -> Seq<Seq<char>>
    decreases s.len() + 1 - pos,
{
    if pos < 0 || pos > s.len() {
        seq![]
    } else {
        match find_char_from(s, c, pos) {
            Some(j) => if pos <= j < s.len() {
                seq![s.subrange(pos, j)] + split_from(s, c, j + 1)
            } else {
                seq![]
            },
            None => seq![s.subrange(pos, s.len() as int)],
        }
    }
}

/// The pieces of `s` between occurrences of `c`; there is always at least one.
pub open spec fn split(s: Seq<char>, c: char) -> Seq<Seq<char>> {
    split_from(s, c, 0)
}

/// `s.split(c)` on the characters `v`, each piece as its bounds in `v`.
pub fn split_bounds(v: &Vec<char>, c: char) -> (r: Vec<(usize, usize)>)
    ensures
        r@.len() == split(v@, c).len(),
        forall|i: int|
            0 <= i < r@.len() ==> #[trigger] r@[i].0 <= r@[i].1 <= v@.len() && v@.subrange(
                r@[i].0 as int,
                r@[i].1 as int,
            ) == split(v@, c)[i],
{
    let mut r: Vec<(usize, usize)> = Vec::new();
    let mut pos: usize = 0;
    let ghost mut acc: Seq<Seq<char>> = seq![];
    loop
        invariant_except_break
            split(v@, c) == acc + split_from(v@, c, pos as int),
        invariant
            pos <= v.len(),
            r@.len() == acc.len(),
            forall|i: int|
                0 <= i < r@.len() ==> #[trigger] r@[i].0 <= r@[i].1 <= v@.len() && v@.subrange(
                    r@[i].0 as int,
                    r@[i].1 as int,
                ) == acc[i],
        ensures
            r@.len() == split(v@, c).len(),
            forall|i: int|
                0 <= i < r@.len() ==> #[trigger] r@[i].0 <= r@[i].1 <= v@.len() && v@.subrange(
                    r@[i].0 as int,
                    r@[i].1 as int,
                ) == split(v@, c)[i],
        decreases v.len() + 1 - pos,
    {
        proof {
            lemma_find_char_from(v@, c, pos as int);
        }
        match find_char(v, c, pos) {
            Some(j) => {
                proof {
                    assert(split_from(v@, c, pos as int) == seq![v@.subrange(pos as int, j as int)]
                        + split_from(v@, c, j + 1));
                    assert(acc + split_from(v@, c, pos as int) =~= acc.push(
                        v@.subrange(pos as int, j as int),
                    ) + split_from(v@, c, j + 1));
                    acc = acc.push(v@.subrange(pos as int, j as int));
                }
                r.push((pos, j));
                pos = j + 1;
            },
            None => {
                proof {
                    assert(split_from(v@, c, pos as int) == seq![
                        v@.subrange(pos as int, v@.len() as int),
                    ]);
                    acc = acc.push(v@.subrange(pos as int, v@.len() as int));
                    assert(split(v@, c) =~= acc);
                }
                r.push((pos, v.len()));
                break ;
            },
        }
    }
    r
}

} // verus!

verus! {

// ---------------------------------------------------------------------------
// Numbers

/// The decimal digit for `d < 10`.
pub open spec fn digit_char(d: int) -> char {
    (48 + d) as char
}

/// Decimal notation of `n`, as `Display` writes an unsigned integer.
pub open spec fn decimal(n: nat) -> Seq<char>
    decreases n,
{
    if n < 10 {
        seq![digit_char(n as int)]
    } else {
        decimal(n / 10).push(digit_char((n % 10) as int))
    }
}

/// Decimal notation of `n`, left-padded with `'0'` to at least `width` characters
/// (the `{:0width$}` format of an unsigned integer).
pub open spec fn zero_padded(n: nat, width: nat) -> Seq<char> {
    let d = decimal(n);
    if d.len() >= width {
        d
    } else {
        Seq::new((width - d.len()) as nat, |i: int| '0') + d
    }
}

fn digit(d: usize) -> (c: char)
    requires
        d < 10,
    ensures
        c == digit_char(d as int),
{
    let b: u8 = 48u8 + (d as u8);
    b as char
}

/// Appends the decimal notation of `n`.
pub fn push_decimal(s: &mut String, n: usize)
    ensures
        final(s)@ == old(s)@ + decimal(n as nat),
    decreases n,
{
    if n >= 10 {
        push_decimal(s, n / 10);
        push_char(s, digit(n % 10));
        proof {
            assert(old(s)@ + decimal(n as nat) =~= old(s)@ + decimal((n / 10) as nat) + seq![
                digit_char((n % 10) as int),
            ]);
        }
    } else {
        push_char(s, digit(n));
        proof {
            assert(old(s)@ + decimal(n as nat) =~= old(s)@.push(digit_char(n as int)));
        }
    }
}

/// The length of a decimal numeral, for the sizes used here.
pub proof fn lemma_decimal_len(n: nat)
    ensures
        decimal(n).len() >= 1,
        n < 10 ==> decimal(n).len() == 1,
        10 <= n < 100 ==> decimal(n).len() == 2,
        100 <= n < 1000 ==> decimal(n).len() == 3,
        1000 <= n < 10000 ==> decimal(n).len() == 4,
        decimal(n).len() <= n + 1,
    decreases n,
{
    if n >= 10 {
        lemma_decimal_len(n / 10);
    }
}

/// The decimal notation of `n` as a string.
pub fn decimal_string(n: usize) -> (s: String)
    ensures
        s@ == decimal(n as nat),
{
    let mut s = String::new();
    push_decimal(&mut s, n);
    proof {
        assert(Seq::<char>::empty() + decimal(n as nat) =~= decimal(n as nat));
    }
    s
}

/// Appends `n` in decimal, left-padded with zeros to `width` characters.
pub fn push_zero_padded(s: &mut String, n: usize, width: usize)
    ensures
        final(s)@ == old(s)@ + zero_padded(n as nat, width as nat),
{
    let d = decimal_string(n);
    let dl = d.as_str().unicode_len();
    let ghost zeros = Seq::new((width - dl) as nat, |i: int| '0');
    if dl < width {
        let mut k = dl;
        while k < width
            invariant
                dl <= k <= width,
                dl == decimal(n as nat).len(),
                s@ == old(s)@ + Seq::new((k - dl) as nat, |i: int| '0'),
            decreases width - k,
        {
            push_char(s, '0');
            proof {
                assert(old(s)@ + Seq::new((k + 1 - dl) as nat, |i: int| '0') =~= (old(s)@ + Seq::new(
                    (k - dl) as nat,
                    |i: int| '0',
                )).push('0'));
            }
            k = k + 1;
        }
    }
    push_str(s, d.as_str());
    proof {
        if dl < width {
            assert(old(s)@ + zero_padded(n as nat, width as nat) =~= old(s)@ + zeros + decimal(
                n as nat,
            ));
        } else {
            assert(Seq::new((dl - dl) as nat, |i: int| '0') =~= Seq::<char>::empty());
        }
    }
}

// ---------------------------------------------------------------------------
// Joining and affixes

/// The pieces of `parts` with `sep` between each two (`[T]::join`).
pub open spec fn join(parts: Seq<Seq<char>>, sep: Seq<char>) -> Seq<char>
    decreases parts.len(),
{
    if parts.len() == 0 {
        seq![]
    } else if parts.len() == 1 {
        parts[0]
    } else {
        join(parts.drop_last(), sep) + sep + parts.last()
    }
}

/// `parts.join(sep)`.
pub fn join_strings(parts: &Vec<String>, sep: &str) -> (r: String)
    ensures
        r@ == join(views(parts@), sep@),
{
    let mut r = String::new();
    let ghost pv = views(parts@);
    let mut i: usize = 0;
    while i < parts.len()
        invariant
            i <= parts.len(),
            pv == views(parts@),
            r@ == join(pv.take(i as int), sep@),
        decreases parts.len() - i,
    {
        if i > 0 {
            push_str(&mut r, sep);
        }
        push_str(&mut r, parts[i].as_str());
        proof {
            assert(pv.take(i + 1).drop_last() =~= pv.take(i as int));
            assert(pv.take(i + 1).last() == parts@[i as int]@);
            if i == 0 {
                assert(join(pv.take(0), sep@) =~= Seq::<char>::empty());
                assert(pv.take(1).len() == 1);
            }
        }
        i = i + 1;
    }
    proof {
        assert(pv.take(parts.len() as int) =~= pv);
    }
    r
}

/// `p` is a prefix of `s`.
pub open spec fn starts_with(s: Seq<char>, p: Seq<char>) -> bool {
    p.len() <= s.len() && s.take(p.len() as int) == p
}

/// Whether the characters `v` begin with those of `p`.
pub fn chars_start_with(v: &Vec<char>, p: &Vec<char>) -> (r: bool)
    ensures
        r == starts_with(v@, p@),
{
    let r = matches_at(v, p, 0);
    proof {
        if p@.len() <= v@.len() {
            assert(v@.subrange(0, p@.len() as int) =~= v@.take(p@.len() as int));
        }
    }
    r
}

} // verus!

verus! {

/// The view of an optional string slice.
pub open spec fn opt_str_view(o: Option<&str>) -> Option<Seq<char>> {
    match o {
        Some(s) => Some(s@),
        None => None,
    }
}

/// The view of an optional string.
pub open spec fn opt_view(o: Option<String>) -> Option<Seq<char>> {
    match o {
        Some(s) => Some(s@),
        None => None,
    }
}

} // verus!

verus! {

// ---------------------------------------------------------------------------
// Facts about lines, fields and trimming of composed text

/// The text of `ls`, each line followed by `'\n'`.
pub open spec fn concat_lines(ls: Seq<Seq<char>>) -> Seq<char>
    decreases ls.len(),
{
    if ls.len() == 0 {
        seq![]
    } else {
        ls[0] + seq!['\n'] + concat_lines(ls.drop_first())
    }
}

/// A line that `lines` gives back unchanged: no `'\n'` in it and no `'\r'` at its end.
pub open spec fn plain_line(l: Seq<char>) -> bool {
    (forall|k: int| 0 <= k < l.len() ==> l[k] != '\n') && !(l.len() > 0 && l.last() == '\r')
}

/// `s` has no whitespace at either end.
pub open spec fn trim_stable(s: Seq<char>) -> bool {
    s.len() == 0 || (!is_ws(s[0]) && !is_ws(s.last()))
}

/// `c` does not occur in `s`.
pub open spec fn free_of(s: Seq<char>, c: char) -> bool {
    forall|k: int| 0 <= k < s.len() ==> s[k] != c
}

/// Searching `p + r` past `p` is searching `r`, shifted by the length of `p`.
pub proof fn lemma_find_char_shift(p: Seq<char>, r: Seq<char>, c: char, k: int)
    requires
        0 <= k,
    ensures
        find_char_from(p + r, c, p.len() + k) == match find_char_from(r, c, k) {
            Some(j) => Some(p.len() + j),
            None => None::<int>,
        },
    decreases r.len() - k,
{
    if k < r.len() {
        assert((p + r)[p.len() + k] == r[k]);
        if r[k] != c {
            lemma_find_char_shift(p, r, c, k + 1);
        }
    }
}

/// The lines of `p + r` past `p` are the lines of `r`.
pub proof fn lemma_lines_shift(p: Seq<char>, r: Seq<char>, k: int)
    requires
        0 <= k,
    ensures
        lines_from(p + r, p.len() + k) == lines_from(r, k),
    decreases r.len() - k,
{
    let s = p + r;
    if k < r.len() {
        lemma_find_char_shift(p, r, '\n', k);
        lemma_find_char_from(r, '\n', k);
        match find_char_from(r, '\n', k) {
            Some(j) => {
                lemma_lines_shift(p, r, j + 1);
                assert(s.subrange(p.len() + k, p.len() + j) =~= r.subrange(k, j));
            },
            None => {
                assert(s.subrange(p.len() + k, s.len() as int) =~= r.subrange(k, r.len() as int));
            },
        }
    }
}

/// The lines of `concat_lines(ls)` are `ls`, when each is a plain line.
pub proof fn lemma_lines_of_concat(ls: Seq<Seq<char>>)
    requires
        forall|i: int| 0 <= i < ls.len() ==> plain_line(#[trigger] ls[i]),
    ensures
        lines(concat_lines(ls)) == ls,
    decreases ls.len(),
{
    if ls.len() > 0 {
        let l = ls[0];
        let rest = concat_lines(ls.drop_first());
        let p = l + seq!['\n'];
        let s = concat_lines(ls);
        assert(s == p + rest);
        assert(plain_line(l));
        lemma_lines_of_concat(ls.drop_first());
        assert forall|k: int| 0 <= k < l.len() implies s[k] != '\n' by {
            assert(s[k] == l[k]);
        }
        assert(s[l.len() as int] == '\n');
        lemma_find_char_from(s, '\n', 0);
        assert(find_char_from(s, '\n', 0) == Some(l.len() as int)) by {
            match find_char_from(s, '\n', 0) {
                Some(j) => {
                    if j < l.len() {
                        assert(s[j] == l[j]);
                    }
                },
                None => {},
            }
        }
        lemma_lines_shift(p, rest, 0);
        assert(s.subrange(0, l.len() as int) =~= l);
        assert(lines_from(s, l.len() + 1 as int) == lines_from(rest, 0));
        assert(ls =~= seq![l] + ls.drop_first());
    } else {
        assert(ls =~= Seq::<Seq<char>>::empty());
    }
}

/// Appending a line extends `concat_lines` by that line and a `'\n'`.
pub proof fn lemma_concat_lines_push(ls: Seq<Seq<char>>, l: Seq<char>)
    ensures
        concat_lines(ls.push(l)) == concat_lines(ls) + l + seq!['\n'],
    decreases ls.len(),
{
    if ls.len() == 0 {
        assert(ls.push(l).drop_first() =~= Seq::<Seq<char>>::empty());
        assert(ls.push(l)[0] == l);
        assert(concat_lines(ls.push(l).drop_first()) =~= Seq::<char>::empty());
        assert(concat_lines(ls.push(l)) =~= l + seq!['\n']);
        assert(concat_lines(ls) =~= Seq::<char>::empty());
        assert(concat_lines(ls) + l + seq!['\n'] =~= l + seq!['\n']);
    } else {
        assert(ls.push(l).drop_first() =~= ls.drop_first().push(l));
        lemma_concat_lines_push(ls.drop_first(), l);
        assert(concat_lines(ls.push(l)) =~= concat_lines(ls) + l + seq!['\n']);
    }
}

/// `join` taken apart at its first piece.
pub proof fn lemma_join_front(parts: Seq<Seq<char>>, sep: Seq<char>)
    requires
        parts.len() >= 2,
    ensures
        join(parts, sep) == parts[0] + sep + join(parts.drop_first(), sep),
    decreases parts.len(),
{
    if parts.len() == 2 {
        assert(parts.drop_last() =~= seq![parts[0]]);
        assert(parts.drop_first() =~= seq![parts[1]]);
        assert(join(parts.drop_last(), sep) == parts[0]);
        assert(join(parts.drop_first(), sep) == parts[1]);
    } else {
        lemma_join_front(parts.drop_last(), sep);
        assert(parts.drop_last().drop_first() =~= parts.drop_first().drop_last());
        assert(parts.drop_first().last() == parts.last());
        assert(join(parts, sep) =~= parts[0] + sep + join(parts.drop_first(), sep));
    }
}

/// The pieces of `p + r` past `p` are the pieces of `r`.
pub proof fn lemma_split_shift(p: Seq<char>, r: Seq<char>, c: char, k: int)
    requires
        0 <= k,
    ensures
        split_from(p + r, c, p.len() + k) == split_from(r, c, k),
    decreases r.len() + 1 - k,
{
    let s = p + r;
    if k <= r.len() {
        lemma_find_char_shift(p, r, c, k);
        lemma_find_char_from(r, c, k);
        match find_char_from(r, c, k) {
            Some(j) => {
                lemma_split_shift(p, r, c, j + 1);
                assert(s.subrange(p.len() + k, p.len() + j) =~= r.subrange(k, j));
            },
            None => {
                assert(s.subrange(p.len() + k, s.len() as int) =~= r.subrange(k, r.len() as int));
            },
        }
    }
}

/// Splitting at `c` undoes joining with `c`, when no piece holds `c`.
pub proof fn lemma_split_join(parts: Seq<Seq<char>>, c: char)
    requires
        parts.len() >= 1,
        forall|i: int| 0 <= i < parts.len() ==> free_of(#[trigger] parts[i], c),
    ensures
        split(join(parts, seq![c]), c) == parts,
    decreases parts.len(),
{
    let s = join(parts, seq![c]);
    let x = parts[0];
    assert(free_of(x, c));
    if parts.len() == 1 {
        lemma_find_char_from(s, c, 0);
        assert(s == x);
        assert(s.subrange(0, s.len() as int) =~= x);
        assert(parts =~= seq![x]);
    } else {
        lemma_join_front(parts, seq![c]);
        let rest = join(parts.drop_first(), seq![c]);
        let p = x + seq![c];
        assert(s =~= p + rest);
        assert forall|i: int| 0 <= i < parts.drop_first().len() implies free_of(
            #[trigger] parts.drop_first()[i],
            c,
        ) by {
            assert(parts.drop_first()[i] == parts[i + 1]);
        }
        lemma_split_join(parts.drop_first(), c);
        lemma_find_char_from(s, c, 0);
        assert(s[x.len() as int] == c);
        assert(find_char_from(s, c, 0) == Some(x.len() as int)) by {
            match find_char_from(s, c, 0) {
                Some(j) => {
                    if j < x.len() {
                        assert(s[j] == x[j]);
                    }
                },
                None => {},
            }
        }
        lemma_split_shift(p, rest, c, 0);
        assert(s.subrange(0, x.len() as int) =~= x);
        assert(parts =~= seq![x] + parts.drop_first());
    }
}

/// A one-space pad on each side of `x`.
pub open spec fn padded(x: Seq<char>) -> Seq<char> {
    seq![' '] + x + seq![' ']
}

/// Trimming a padded piece gives the piece back, when it has no whitespace at its ends.
pub proof fn lemma_trim_padded(x: Seq<char>)
    requires
        trim_stable(x),
    ensures
        trim(padded(x)) == x,
{
    let s = padded(x);
    assert(is_ws(' '));
    if x.len() == 0 {
        assert(skip_ws(s, 2) == 2);
        assert(skip_ws(s, 1) == 2);
        assert(skip_ws(s, 0) == 2);
        assert(back_ws(s, 2, 2) == 2);
        assert(s.subrange(2, 2) =~= x);
    } else {
        assert(s[1] == x[0]);
        assert(skip_ws(s, 1) == 1);
        assert(skip_ws(s, 0) == 1);
        assert(s[s.len() - 2] == x.last());
        assert(back_ws(s, 1, s.len() - 1) == s.len() - 1);
        assert(back_ws(s, 1, s.len() as int) == s.len() - 1);
        assert(s.subrange(1, s.len() - 1) =~= x);
    }
}

/// A text with no whitespace at its ends trims to itself.
pub proof fn lemma_trim_stable(s: Seq<char>)
    requires
        trim_stable(s),
    ensures
        trim(s) == s,
{
    if s.len() > 0 {
        assert(skip_ws(s, 0) == 0);
        assert(back_ws(s, 0, s.len() as int) == s.len());
    } else {
        assert(skip_ws(s, 0) == 0);
    }
    assert(s.subrange(0, s.len() as int) =~= s);
}

} // verus!

verus! {

/// `x` with a space on each side.
pub fn padded_string(x: &str) -> (r: String)
    ensures
        r@ == padded(x@),
{
    let mut r = String::new();
    push_char(&mut r, ' ');
    push_str(&mut r, x);
    push_char(&mut r, ' ');
    proof {
        assert(Seq::<char>::empty().push(' ') + x@ == seq![' '] + x@) by {
            assert(Seq::<char>::empty().push(' ') =~= seq![' ']);
        }
    }
    r
}

/// Joining pieces free of `c` with a separator free of `c` gives a text free of `c`.
pub proof fn lemma_join_free(parts: Seq<Seq<char>>, sep: Seq<char>, c: char)
    requires
        forall|i: int| 0 <= i < parts.len() ==> free_of(#[trigger] parts[i], c),
        free_of(sep, c),
    ensures
        free_of(join(parts, sep), c),
    decreases parts.len(),
{
    if parts.len() == 1 {
        assert(free_of(parts[0], c));
    } else if parts.len() > 1 {
        assert forall|i: int| 0 <= i < parts.drop_last().len() implies free_of(
            #[trigger] parts.drop_last()[i],
            c,
        ) by {
            assert(parts.drop_last()[i] == parts[i]);
        }
        lemma_join_free(parts.drop_last(), sep, c);
        assert(free_of(parts.last(), c));
        let j = join(parts, sep);
        let a = join(parts.drop_last(), sep);
        assert forall|k: int| 0 <= k < j.len() implies j[k] != c by {
            if k < a.len() {
                assert(j[k] == a[k]);
            } else if k < a.len() + sep.len() {
                assert(j[k] == sep[k - a.len()]);
            } else {
                assert(j[k] == parts.last()[k - a.len() - sep.len()]);
            }
        }
    }
}

/// Every character of a decimal numeral is a digit.
pub proof fn lemma_decimal_digits(n: nat)
    ensures
        forall|k: int| 0 <= k < decimal(n).len() ==> '0' <= #[trigger] decimal(n)[k] <= '9',
        decimal(n).len() >= 1,
    decreases n,
{
    if n >= 10 {
        lemma_decimal_digits(n / 10);
        let d = decimal(n);
        assert forall|k: int| 0 <= k < d.len() implies '0' <= #[trigger] d[k] <= '9' by {
            if k < d.len() - 1 {
                assert(d[k] == decimal(n / 10)[k]);
            }
        }
    }
}

} // verus!

verus! {

/// `parts[lo..hi].join(sep)`.
pub fn join_range(parts: &Vec<String>, lo: usize, hi: usize, sep: &str) -> (r: String)
    requires
        lo <= hi <= parts.len(),
    ensures
        r@ == join(views(parts@).subrange(lo as int, hi as int), sep@),
{
    let mut r = String::new();
    let ghost pv = views(parts@).subrange(lo as int, hi as int);
    let mut i: usize = lo;
    while i < hi
        invariant
            lo <= i <= hi <= parts.len(),
            pv == views(parts@).subrange(lo as int, hi as int),
            r@ == join(pv.take(i - lo), sep@),
        decreases hi - i,
    {
        if i > lo {
            push_str(&mut r, sep);
        }
        push_str(&mut r, parts[i].as_str());
        proof {
            assert(pv.take(i + 1 - lo).drop_last() =~= pv.take(i - lo));
            assert(pv.take(i + 1 - lo).last() == parts@[i as int]@);
            if i == lo {
                assert(join(pv.take(0), sep@) =~= Seq::<char>::empty());
            }
        }
        i = i + 1;
    }
    proof {
        assert(pv.take(hi - lo) =~= pv);
    }
    r
}

/// First position at or after `i` that is not a `'\n'`.
pub open spec fn skip_newlines(s: Seq<char>, i: int) -> int
    decreases s.len() - i,
{
    if 0 <= i < s.len() && s[i] == '\n' {
        skip_newlines(s, i + 1)
    } else {
        i
    }
}

/// Skipping line breaks stays within the text.
pub proof fn lemma_skip_newlines(s: Seq<char>, i: int)
    requires
        0 <= i <= s.len(),
    ensures
        i <= skip_newlines(s, i) <= s.len(),
    decreases s.len() - i,
{
    if i < s.len() && s[i] == '\n' {
        lemma_skip_newlines(s, i + 1);
    }
}

} // verus!

verus! {

/// `concat_lines` of two runs of lines is the one text after the other.
pub proof fn lemma_concat_lines_append(a: Seq<Seq<char>>, b: Seq<Seq<char>>)
    ensures
        concat_lines(a + b) == concat_lines(a) + concat_lines(b),
    decreases a.len(),
{
    if a.len() == 0 {
        assert(a + b =~= b);
        assert(concat_lines(a) =~= Seq::<char>::empty());
        assert(concat_lines(b) =~= Seq::<char>::empty() + concat_lines(b));
    } else {
        lemma_concat_lines_append(a.drop_first(), b);
        assert((a + b).drop_first() =~= a.drop_first() + b);
        assert((a + b)[0] == a[0]);
        assert(concat_lines(a + b) =~= concat_lines(a) + concat_lines(b));
    }
}

/// Lines each followed by `'\n'` are the lines joined with `'\n'`, and one more `'\n'`.
pub proof fn lemma_concat_lines_join(ls: Seq<Seq<char>>)
    requires
        ls.len() >= 1,
    ensures
        concat_lines(ls) == join(ls, seq!['\n']) + seq!['\n'],
    decreases ls.len(),
{
    let p = ls.drop_last();
    assert(ls =~= p.push(ls.last()));
    lemma_concat_lines_push(p, ls.last());
    if ls.len() == 1 {
        assert(concat_lines(p) =~= Seq::<char>::empty());
        assert(concat_lines(ls) =~= ls[0] + seq!['\n']);
    } else {
        lemma_concat_lines_join(p);
        assert(concat_lines(ls) =~= join(ls, seq!['\n']) + seq!['\n']);
    }
}

/// Joining two non-empty runs of pieces: the joins of each, with `sep` between them.
pub proof fn lemma_join_append(a: Seq<Seq<char>>, b: Seq<Seq<char>>, sep: Seq<char>)
    requires
        a.len() >= 1,
        b.len() >= 1,
    ensures
        join(a + b, sep) == join(a, sep) + sep + join(b, sep),
    decreases b.len(),
{
    let ab = a + b;
    if b.len() == 1 {
        assert(ab.drop_last() =~= a);
        assert(ab.last() == b[0]);
    } else {
        lemma_join_append(a, b.drop_last(), sep);
        assert(ab.drop_last() =~= a + b.drop_last());
        assert(ab.last() == b.last());
        assert(join(ab, sep) =~= join(a, sep) + sep + join(b, sep));
    }
}

} // verus!

//! Character-level text helpers shared by the planner, orchestrator and QA modules.

use vstd::prelude::*;

verus! {

/// The White_Space property as `char::is_whitespace` documents it.
pub open spec fn is_white(c: char) -> bool {
    let u = c as u32;
    ||| 0x09 <= u <= 0x0D
    ||| u == 0x20
    ||| u == 0x85
    ||| u == 0xA0
    ||| u == 0x1680
    ||| 0x2000 <= u <= 0x200A
    ||| u == 0x2028
    ||| u == 0x2029
    ||| u == 0x202F
    ||| u == 0x205F
    ||| u == 0x3000
}

/// Whether `c` is whitespace, as `char::is_whitespace` decides it.
pub fn char_is_whitespace(c: char) -> (r: bool)
    ensures
        r == is_white(c),
{
    let u = c as u32;
    (0x09 <= u && u <= 0x0D) || u == 0x20 || u == 0x85 || u == 0xA0 || u == 0x1680 || (0x2000 <= u
        && u <= 0x200A) || u == 0x2028 || u == 0x2029 || u == 0x202F || u == 0x205F || u == 0x3000
}

/// Leading whitespace removed.
pub open spec fn trim_start(s: Seq<char>) -> Seq<char>
    decreases s.len(),
{
    if s.len() > 0 && is_white(s[0]) {
        trim_start(s.drop_first())
    } else {
        s
    }
}

/// Trailing whitespace removed.
pub open spec fn trim_end(s: Seq<char>) -> Seq<char>
    decreases s.len(),
{
    if s.len() > 0 && is_white(s.last()) {
        trim_end(s.drop_last())
    } else {
        s
    }
}

/// What `str::trim` keeps: leading and trailing whitespace removed.
pub open spec fn trim(s: Seq<char>) -> Seq<char> {
    trim_end(trim_start(s))
}

/// The characters of a string slice, in order.
pub fn chars_of(s: &str) -> (v: Vec<char>)
    ensures
        v@ == s@,
{
    let mut v: Vec<char> = Vec::new();
    for c in it: s.chars()
        invariant
            v@ == it.seq().take(it.index() as int),
            it.seq() == s@,
    {
        v.push(c);
    }
    v
}


/// `String::push` from std; the contract claims that it appends `c` to the characters of `s`.
#[verifier::external_body]
pub fn push_char(s: &mut String, c: char)
    ensures
        final(s)@ == old(s)@.push(c),
{
    s.push(c);
}

/// A string holding the characters `v[from..to]`.
pub fn string_of_range(v: &[char], from: usize, to: usize) -> (s: String)
    requires
        from <= to <= v@.len(),
    ensures
        s@ == v@.subrange(from as int, to as int),
{
    let mut s = String::new();
    for i in from..to
        invariant
            to <= v@.len(),
            s@ == v@.subrange(from as int, i as int),
    {
        push_char(&mut s, v[i]);
        assert(v@.subrange(from as int, i + 1) =~= v@.subrange(from as int, i as int).push(
            v@[i as int],
        ));
    }
    s
}

/// A string holding exactly the given characters.
pub fn string_of(v: &[char]) -> (s: String)
    ensures
        s@ == v@,
{
    let s = string_of_range(v, 0, v.len());
    assert(v@.subrange(0, v@.len() as int) =~= v@);
    s
}

/// Appends a string slice.
pub fn push_str(s: &mut String, t: &str)
    ensures
        final(s)@ == old(s)@ + t@,
{
    s.append(t);
}

/// Whether two string slices hold the same characters.
pub fn str_eq(a: &str, b: &str) -> (r: bool)
    ensures
        r == (a@ == b@),
{
    let va = chars_of(a);
    let vb = chars_of(b);
    if va.len() != vb.len() {
        return false;
    }
    let n = va.len();
    for i in 0..n
        invariant
            n == va@.len(),
            n == vb@.len(),
            va@ == a@,
            vb@ == b@,
            forall|j: int| 0 <= j < i ==> va@[j] == vb@[j],
    {
        if va[i] != vb[i] {
            return false;
        }
    }
    assert(va@ =~= vb@);
    true
}

proof fn lemma_trim_start_skip(s: Seq<char>, i: int)
    requires
        0 <= i <= s.len(),
        forall|j: int| 0 <= j < i ==> is_white(s[j]),
    ensures
        trim_start(s) == trim_start(s.subrange(i, s.len() as int)),
    decreases i,
{
    if i > 0 {
        assert(s.drop_first().subrange(i - 1, s.drop_first().len() as int) =~= s.subrange(
            i,
            s.len() as int,
        ));
        lemma_trim_start_skip(s.drop_first(), i - 1);
    } else {
        assert(s.subrange(0, s.len() as int) =~= s);
    }
}

proof fn lemma_trim_end_cut(s: Seq<char>, k: int)
    requires
        0 <= k <= s.len(),
        forall|j: int| k <= j < s.len() ==> is_white(s[j]),
    ensures
        trim_end(s) == trim_end(s.subrange(0, k)),
    decreases s.len() - k,
{
    if k < s.len() {
        assert(s.drop_last().subrange(0, k) =~= s.subrange(0, k));
        lemma_trim_end_cut(s.drop_last(), k);
    } else {
        assert(s.subrange(0, k) =~= s);
    }
}

/// The bounds `(start, end)` of the trimmed part of `v`.
pub fn trim_bounds(v: &Vec<char>) -> (r: (usize, usize))
    ensures
        r.0 <= r.1 <= v@.len(),
        v@.subrange(r.0 as int, r.1 as int) == trim(v@),
{
    let n = v.len();
    let mut start: usize = 0;
    while start < n && char_is_whitespace(v[start])
        invariant
            n == v@.len(),
            start <= n,
            forall|j: int| 0 <= j < start ==> is_white(v@[j]),
        decreases n - start,
    {
        start = start + 1;
    }
    proof {
        lemma_trim_start_skip(v@, start as int);
    }
    let ghost rest = v@.subrange(start as int, n as int);
    assert(trim_start(rest) == rest);
    let mut end: usize = n;
    while end > start && char_is_whitespace(v[end - 1])
        invariant
            n == v@.len(),
            start <= end <= n,
            rest == v@.subrange(start as int, n as int),
            forall|j: int| end <= j < n ==> is_white(v@[j]),
        decreases end - start,
    {
        end = end - 1;
    }
    proof {
        let k = end - start;
        assert forall|j: int| k <= j < rest.len() implies is_white(rest[j]) by {
            assert(rest[j] == v@[j + start]);
        }
        lemma_trim_end_cut(rest, k);
        assert(rest.subrange(0, k) =~= v@.subrange(start as int, end as int));
        let t = v@.subrange(start as int, end as int);
        assert(t.len() == 0 || !is_white(t.last()));
    }
    (start, end)
}

/// `str::trim`, as an owned string.
pub fn trimmed(s: &str) -> (r: String)
    ensures
        r@ == trim(s@),
{
    let v = chars_of(s);
    let (a, b) = trim_bounds(&v);
    string_of_range(v.as_slice(), a, b)
}

/// The decimal digits of `n`, most significant first.
pub open spec fn decimal_digits(n: nat) -> Seq<char>
    decreases n,
{
    if n < 10 {
        seq![(48 + n) as char]
    } else {
        decimal_digits(n / 10).push((48 + n % 10) as char)
    }
}

/// The decimal text of an integer, with a leading `-` when it is negative.
pub open spec fn decimal_text(v: int) -> Seq<char> {
    if v < 0 {
        seq!['-'] + decimal_digits((-v) as nat)
    } else {
        decimal_digits(v as nat)
    }
}

/// Appends the decimal digits of `n`.
fn push_decimal(s: &mut String, n: u64)
    ensures
        final(s)@ == old(s)@ + decimal_digits(n as nat),
    decreases n,
{
    if n >= 10 {
        push_decimal(s, n / 10);
    }
    let d = (n % 10) as u8;
    let c = (48u8 + d) as char;
    assert(c == (48 + n % 10) as char);
    push_char(s, c);
    assert(s@ =~= old(s)@ + decimal_digits(n as nat));
}

/// The decimal text of `v`, with a leading `-` when it is negative (as `i64::to_string`
/// writes it).
pub fn int_to_text(v: i64) -> (s: String)
    ensures
        s@ == decimal_text(v as int),
{
    let mut s = String::new();
    if v < 0 {
        push_char(&mut s, '-');
        let m: u64 = if v == i64::MIN {
            9223372036854775808u64
        } else {
            (-v) as u64
        };
        push_decimal(&mut s, m);
    } else {
        push_decimal(&mut s, v as u64);
    }
    assert(s@ =~= decimal_text(v as int));
    s
}

/// A line without the carriage return that may end it.
pub open spec fn strip_cr(l: Seq<char>) -> Seq<char> {
    if l.len() > 0 && l.last() == '\r' {
        l.drop_last()
    } else {
        l
    }
}

/// Reading `s` from the left: the lines ended so far and the line being read.
pub open spec fn line_scan(s: Seq<char>) -> (Seq<Seq<char>>, Seq<char>)
    decreases s.len(),
{
    if s.len() == 0 {
        (Seq::empty(), Seq::empty())
    } else {
        let (done, cur) = line_scan(s.drop_last());
        if s.last() == '\n' {
            (done.push(strip_cr(cur)), Seq::empty())
        } else {
            (done, cur.push(s.last()))
        }
    }
}

/// What `str::lines` yields: the text split at each `\n`, a `\r` before it dropped,
/// and no empty line after a final line ending.
pub open spec fn lines(s: Seq<char>) -> Seq<Seq<char>> {
    let (done, cur) = line_scan(s);
    if cur.len() == 0 {
        done
    } else {
        done.push(cur)
    }
}

/// The first line of `s`, or nothing when it has none.
pub open spec fn first_line(s: Seq<char>) -> Seq<char> {
    if lines(s).len() > 0 {
        lines(s)[0]
    } else {
        Seq::empty()
    }
}

/// The views of a vector of strings.
pub open spec fn views(v: Seq<String>) -> Seq<Seq<char>> {
    v.map_values(|x: String| x@)
}

/// `str::lines`.
pub fn split_lines(s: &str) -> (r: Vec<String>)
    ensures
        views(r@) == lines(s@),
{
    let v = chars_of(s);
    let mut done: Vec<String> = Vec::new();
    let mut cur: Vec<char> = Vec::new();
    let n = v.len();
    for i in 0..n
        invariant
            n == v@.len(),
            v@ == s@,
            (views(done@), cur@) == line_scan(v@.take(i as int)),
    {
        let c = v[i];
        proof {
            assert(v@.take(i + 1).drop_last() =~= v@.take(i as int));
        }
        if c == '\n' {
            let k = cur.len();
            let line = if k > 0 && cur[k - 1] == '\r' {
                string_of_range(cur.as_slice(), 0, k - 1)
            } else {
                string_of(cur.as_slice())
            };
            proof {
                assert(cur@.subrange(0, k - 1) =~= cur@.drop_last());
            }
            let ghost d0 = views(done@);
            done.push(line);
            assert(views(done@) =~= d0.push(line@));
            cur = Vec::new();
        } else {
            cur.push(c);
        }
    }
    assert(v@.take(n as int) =~= v@);
    if cur.len() > 0 {
        let ghost d0 = views(done@);
        let last = string_of(cur.as_slice());
        done.push(last);
        assert(views(done@) =~= d0.push(last@));
    }
    done
}

/// `s.lines().next().unwrap_or("")`.
pub fn first_line_of(s: &str) -> (r: String)
    ensures
        r@ == first_line(s@),
{
    let mut ls = split_lines(s);
    if ls.len() > 0 {
        assert(views(ls@)[0] == ls@[0]@);
        ls.swap_remove(0)
    } else {
        String::new()
    }
}

/// `n` occurs in `h` at position `i`.
pub open spec fn occurs_at(h: Seq<char>, n: Seq<char>, i: int) -> bool {
    0 <= i && i + n.len() <= h.len() && h.subrange(i, i + n.len()) == n
}

/// The first position at or after `i` where `n` occurs in `h`.
pub open spec fn find_from(h: Seq<char>, n: Seq<char>, i: int) -> Option<int>
    decreases h.len() + 1 - i,
{
    if i < 0 || i + n.len() > h.len() {
        None
    } else if occurs_at(h, n, i) {
        Some(i)
    } else {
        find_from(h, n, i + 1)
    }
}

/// The last position of `c` in `h`.
pub open spec fn rfind_char(h: Seq<char>, c: char) -> Option<int>
    decreases h.len(),
{
    if h.len() == 0 {
        None
    } else if h.last() == c {
        Some(h.len() - 1)
    } else {
        rfind_char(h.drop_last(), c)
    }
}

fn occurs_at_exec(h: &Vec<char>, n: &Vec<char>, i: usize) -> (r: bool)
    requires
        i + n@.len() <= h@.len(),
    ensures
        r == occurs_at(h@, n@, i as int),
{
    let m = n.len();
    for k in 0..m
        invariant
            m == n@.len(),
            i + m <= h.len(),
            forall|q: int| 0 <= q < k ==> h@[i + q] == n@[q],
    {
        if h[i + k] != n[k] {
            assert(h@.subrange(i as int, i + m)[k as int] != n@[k as int]);
            return false;
        }
    }
    assert(h@.subrange(i as int, i + m) =~= n@);
    true
}

/// The first position at or after `from` where `n` occurs in `h`.
pub fn find_in(h: &Vec<char>, n: &Vec<char>, from: usize) -> (r: Option<usize>)
    ensures
        match r {
            Some(i) => find_from(h@, n@, from as int) == Some(i as int),
            None => find_from(h@, n@, from as int) is None,
        },
{
    let mut i = from;
    while n.len() <= h.len() && i <= h.len() - n.len()
        invariant
            from <= i,
            find_from(h@, n@, from as int) == find_from(h@, n@, i as int),
        decreases h@.len() + 1 - i,
    {
        if occurs_at_exec(h, n, i) {
            return Some(i);
        }
        assert(n@.len() > 0) by {
            if n@.len() == 0 {
                assert(h@.subrange(i as int, i as int) =~= n@);
            }
        }
        i = i + 1;
    }
    None
}

/// The last position of `c` in `h`.
pub fn rfind_in(h: &Vec<char>, c: char) -> (r: Option<usize>)
    ensures
        match r {
            Some(i) => rfind_char(h@, c) == Some(i as int),
            None => rfind_char(h@, c) is None,
        },
{
    let mut j = h.len();
    assert(h@.take(j as int) =~= h@);
    while j > 0
        invariant
            j <= h@.len(),
            rfind_char(h@, c) == rfind_char(h@.take(j as int), c),
        decreases j,
    {
        assert(h@.take(j as int).drop_last() =~= h@.take(j - 1));
        if h[j - 1] == c {
            return Some(j - 1);
        }
        j = j - 1;
    }
    None
}

/// What `str::to_lowercase` makes of `s`.
pub uninterp spec fn lowercased(s: Seq<char>) -> Seq<char>;

/// `str::to_lowercase` from std; the contract only names its result `lowercased`, a
/// function of the text alone (Unicode's lowercase mapping is not written out).
#[verifier::external_body]
pub fn to_lowercase(s: &str) -> (r: String)
    ensures
        r@ == lowercased(s@),
{
    s.to_lowercase()
}

/// The UTF-8 length of `s` from position `i` on only grows as `i` moves left.
proof fn lemma_encoded_suffix_grows(s: Seq<char>, j: int, i: int)
    requires
        0 <= j <= i <= s.len(),
    ensures
        vstd::utf8::encode_utf8(s.skip(j)).len() >= vstd::utf8::encode_utf8(s.skip(i)).len(),
    decreases i - j,
{
    if j < i {
        lemma_encoded_suffix_grows(s, j + 1, i);
        assert(s.skip(j).drop_first() =~= s.skip(j + 1));
    }
}

/// Whether the UTF-8 encoding of `s` (its byte length, `str::len`) is longer than `limit`.
pub fn utf8_len_exceeds(s: &str, limit: usize) -> (r: bool)
    ensures
        r == (vstd::utf8::encode_utf8(s@).len() > limit),
{
    let v = chars_of(s);
    let n = v.len();
    let mut i = n;
    let mut acc: usize = 0;
    assert(v@.skip(n as int) =~= Seq::<char>::empty());
    while i > 0
        invariant
            i <= n,
            n == v@.len(),
            v@ == s@,
            acc <= limit,
            acc == vstd::utf8::encode_utf8(v@.skip(i as int)).len(),
        decreases i,
    {
        let c = v[i - 1];
        let u = c as u32;
        let w: usize = if u <= 0x7F {
            1
        } else if u <= 0x7FF {
            2
        } else if u <= 0xFFFF {
            3
        } else {
            4
        };
        proof {
            assert(v@.skip(i - 1).drop_first() =~= v@.skip(i as int));
            assert(v@.skip(i - 1)[0] == c);
            vstd::utf8::char_is_scalar(c);
            assert(vstd::utf8::is_scalar(u));
            assert(vstd::utf8::encode_scalar(u).len() == w);
        }
        if w > limit - acc {
            proof {
                lemma_encoded_suffix_grows(v@, 0, i - 1);
                assert(v@.skip(0) =~= v@);
            }
            return true;
        }
        acc = acc + w;
        i = i - 1;
    }
    assert(v@.skip(0) =~= v@);
    false
}

/// Parts joined with `sep` between each two of them.
pub open spec fn joined_with(parts: Seq<Seq<char>>, sep: Seq<char>) -> Seq<char>
    decreases parts.len(),
{
    if parts.len() == 0 {
        Seq::empty()
    } else if parts.len() == 1 {
        parts[0]
    } else {
        joined_with(parts.drop_last(), sep) + sep + parts.last()
    }
}

/// `parts.join(sep)`.
pub fn join_strings(parts: &Vec<String>, sep: &str) -> (r: String)
    ensures
        r@ == joined_with(views(parts@), sep@),
{
    let mut out = String::new();
    for i in 0..parts.len()
        invariant
            out@ == joined_with(views(parts@).take(i as int), sep@),
    {
        let ghost before = out@;
        if i > 0 {
            push_str(&mut out, sep);
        }
        push_str(&mut out, parts[i].as_str());
        proof {
            let ps = views(parts@).take(i + 1);
            assert(ps.drop_last() =~= views(parts@).take(i as int));
            if i == 0 {
                assert(out@ =~= ps[0]);
            } else {
                assert(out@ =~= before + sep@ + ps.last());
            }
        }
    }
    assert(views(parts@).take(parts@.len() as int) =~= views(parts@));
    out
}

/// Whether one of the strings holds exactly the characters of `s`.
pub fn contains_text(v: &Vec<String>, s: &str) -> (r: bool)
    ensures
        r == views(v@).contains(s@),
{
    for i in 0..v.len()
        invariant
            forall|j: int| 0 <= j < i ==> views(v@)[j] != s@,
    {
        if str_eq(v[i].as_str(), s) {
            assert(views(v@)[i as int] == s@);
            return true;
        }
    }
    false
}

/// What `char::is_alphabetic` says of `c`: whether it has the Unicode `Alphabetic` property.
pub uninterp spec fn alphabetic(c: char) -> bool;

/// `char::is_alphabetic` from std; the contract only names its result `alphabetic`, a
/// function of the character alone (Unicode's `Alphabetic` table is not written out).
#[verifier::external_body]
pub fn char_is_alphabetic(c: char) -> (r: bool)
    ensures
        r == alphabetic(c),
{
    c.is_alphabetic()
}

} // verus!

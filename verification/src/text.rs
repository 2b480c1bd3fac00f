//! Plain text as sequences of characters: splitting, trimming and reading
//! decimal numbers the way the standard library does.
use vstd::prelude::*;
use vstd::string::*;

verus! {

broadcast use vstd::string::group_string_axioms;

/// The characters of `s`.
pub fn to_chars(s: &str) -> (v: Vec<char>)
    ensures
        v@ == s@,
{
    let mut v: Vec<char> = Vec::new();
    for c in it: s.chars()
        invariant
            v@ == it.seq().take(it.index()),
    {
        v.push(c);
    }
    v
}

/// The character views of a list of strings.
pub open spec fn views(v: Seq<String>) -> Seq<Seq<char>> {
    v.map_values(|s: String| s@)
}

/// Unicode White_Space, as `char::is_whitespace` decides it.
pub open spec fn is_ws(c: char) -> bool {
    let n = c as u32;
    ||| 0x9 <= n <= 0xD
    ||| n == 0x20
    ||| n == 0x85
    ||| n == 0xA0
    ||| n == 0x1680
    ||| 0x2000 <= n <= 0x200A
    ||| n == 0x2028
    ||| n == 0x2029
    ||| n == 0x202F
    ||| n == 0x205F
    ||| n == 0x3000
}

/// Whether `c` is white space.
pub fn is_whitespace(c: char) -> (b: bool)
    ensures
        b == is_ws(c),
{
    let n = c as u32;
    (0x9 <= n && n <= 0xD) || n == 0x20 || n == 0x85 || n == 0xA0 || n == 0x1680 || (0x2000 <= n
        && n <= 0x200A) || n == 0x2028 || n == 0x2029 || n == 0x202F || n == 0x205F || n == 0x3000
}

/// The pieces of `s` between occurrences of `sep` (`str::split` with a
/// character): one more piece than there are separators.
pub open spec fn split_on(s: Seq<char>, sep: char) -> Seq<Seq<char>>
    decreases s.len(),
{
    if s.len() == 0 {
        seq![Seq::<char>::empty()]
    } else {
        let init = split_on(s.drop_last(), sep);
        if s.last() == sep {
            init.push(Seq::<char>::empty())
        } else {
            init.update(init.len() - 1, init.last().push(s.last()))
        }
    }
}

/// The pieces of `s` between white-space characters, empty pieces included.
pub open spec fn split_ws(s: Seq<char>) -> Seq<Seq<char>>
    decreases s.len(),
{
    if s.len() == 0 {
        seq![Seq::<char>::empty()]
    } else {
        let init = split_ws(s.drop_last());
        if is_ws(s.last()) {
            init.push(Seq::<char>::empty())
        } else {
            init.update(init.len() - 1, init.last().push(s.last()))
        }
    }
}

/// The words of `s` (`str::split_whitespace`): its non-empty pieces
/// between white space.
pub open spec fn words(s: Seq<char>) -> Seq<Seq<char>> {
    split_ws(s).filter(|w: Seq<char>| w.len() > 0)
}

/// A line without the carriage return of a CR LF ending.
pub open spec fn strip_cr(l: Seq<char>) -> Seq<char> {
    if l.len() > 0 && l.last() == '\r' {
        l.drop_last()
    } else {
        l
    }
}

/// The lines of `s` (`str::lines`): split at LF, a CR before the LF dropped,
/// and no empty line after a final LF.
pub open spec fn lines_of(s: Seq<char>) -> Seq<Seq<char>> {
    let p = split_on(s, '\n');
    let n = p.len() - 1;
    let body = p.take(n).map_values(|l: Seq<char>| strip_cr(l));
    if p[n].len() == 0 {
        body
    } else {
        body.push(p[n])
    }
}

/// `s` without leading white space.
pub open spec fn trim_start(s: Seq<char>) -> Seq<char>
    decreases s.len(),
{
    if s.len() > 0 && is_ws(s[0]) {
        trim_start(s.drop_first())
    } else {
        s
    }
}

/// `s` without trailing white space.
pub open spec fn trim_end(s: Seq<char>) -> Seq<char>
    decreases s.len(),
{
    if s.len() > 0 && is_ws(s.last()) {
        trim_end(s.drop_last())
    } else {
        s
    }
}

/// `s` without leading and trailing white space (`str::trim`).
pub open spec fn trim(s: Seq<char>) -> Seq<char> {
    trim_end(trim_start(s))
}

/// `s` begins with `p`.
pub open spec fn starts_with(s: Seq<char>, p: Seq<char>) -> bool {
    p.len() <= s.len() && s.take(p.len() as int) == p
}

/// `p` occurs in `s`.
pub open spec fn contains_seq(s: Seq<char>, p: Seq<char>) -> bool {
    exists|i: int| 0 <= i && i + p.len() <= s.len() && #[trigger] s.subrange(i, i + p.len()) == p
}

/// The position of the last occurrence of the pair `a`, `b` in `s`.
pub open spec fn rfind_pair(s: Seq<char>, a: char, b: char) -> Option<int>
    decreases s.len(),
{
    if s.len() < 2 {
        None
    } else if s[s.len() - 2] == a && s.last() == b {
        Some(s.len() - 2)
    } else {
        rfind_pair(s.drop_last(), a, b)
    }
}

/// The value of a string of decimal digits.
pub open spec fn digits_value(d: Seq<char>) -> nat
    decreases d.len(),
{
    if d.len() == 0 {
        0
    } else {
        digits_value(d.drop_last()) * 10 + ((d.last() as u32) - 0x30) as nat
    }
}

pub open spec fn is_digit(c: char) -> bool {
    0x30 <= (c as u32) <= 0x39
}

/// The digits of an unsigned number: an optional leading '+' removed.
pub open spec fn unsigned_digits(s: Seq<char>) -> Seq<char> {
    if s.len() > 0 && s[0] == '+' {
        s.drop_first()
    } else {
        s
    }
}

/// How `str::parse` reads `s` as an unsigned integer type whose largest
/// value is `max`: an optional '+', then at least one decimal digit and
/// nothing else, of value at most `max`.
pub open spec fn parse_unsigned(s: Seq<char>, max: nat) -> Option<nat> {
    let d = unsigned_digits(s);
    if d.len() > 0 && (forall|i: int| 0 <= i < d.len() ==> is_digit(#[trigger] d[i]))
        && digits_value(d) <= max {
        Some(digits_value(d))
    } else {
        None
    }
}

/// The pieces of `cs` that `ranges` select.
pub open spec fn range_pieces(cs: Seq<char>, ranges: Seq<(usize, usize)>) -> Seq<Seq<char>> {
    ranges.map_values(|r: (usize, usize)| cs.subrange(r.0 as int, r.1 as int))
}

/// Every range of `ranges` lies within `len` characters.
pub open spec fn ranges_within(len: nat, ranges: Seq<(usize, usize)>) -> bool {
    forall|k: int| 0 <= k < ranges.len() ==> #[trigger] ranges[k].0 <= ranges[k].1 && ranges[k].1 <= len
}

proof fn lemma_pieces_extend(cs: Seq<char>, ranges: Seq<(usize, usize)>, r: (usize, usize))
    ensures
        range_pieces(cs, ranges.push(r)) == range_pieces(cs, ranges).push(cs.subrange(r.0 as int, r.1 as int)),
{
    assert(range_pieces(cs, ranges.push(r)) =~= range_pieces(cs, ranges).push(
        cs.subrange(r.0 as int, r.1 as int),
    ));
}

/// The ranges of the pieces of `cs` between occurrences of `sep`.
pub fn split_char_ranges(cs: &Vec<char>, sep: char) -> (ranges: Vec<(usize, usize)>)
    ensures
        ranges_within(cs@.len(), ranges@),
        range_pieces(cs@, ranges@) == split_on(cs@, sep),
{
    let mut ranges: Vec<(usize, usize)> = Vec::new();
    let mut start: usize = 0;
    let mut i: usize = 0;
    proof {
        assert(cs@.take(0) =~= Seq::<char>::empty());
        assert(range_pieces(cs@, ranges@).push(cs@.subrange(0, 0)) =~= seq![Seq::<char>::empty()]);
    }
    while i < cs.len()
        invariant
            start <= i <= cs@.len(),
            ranges_within(i as nat, ranges@),
            range_pieces(cs@, ranges@).push(cs@.subrange(start as int, i as int)) == split_on(
                cs@.take(i as int),
                sep,
            ),
        decreases cs@.len() - i,
    {
        proof {
            assert(cs@.take(i + 1).drop_last() =~= cs@.take(i as int));
            assert(cs@.take(i + 1).last() == cs@[i as int]);
        }
        if cs[i] == sep {
            proof {
                lemma_pieces_extend(cs@, ranges@, (start, i));
                assert(cs@.subrange(i + 1, i + 1) =~= Seq::<char>::empty());
            }
            ranges.push((start, i));
            start = i + 1;
        } else {
            proof {
                let prev = range_pieces(cs@, ranges@).push(cs@.subrange(start as int, i as int));
                assert(cs@.subrange(start as int, i + 1) =~= cs@.subrange(start as int, i as int).push(
                    cs@[i as int],
                ));
                assert(range_pieces(cs@, ranges@).push(cs@.subrange(start as int, i + 1)) =~= prev.update(
                    prev.len() - 1,
                    prev.last().push(cs@[i as int]),
                ));
            }
        }
        i = i + 1;
    }
    proof {
        lemma_pieces_extend(cs@, ranges@, (start, i));
        assert(cs@.take(i as int) =~= cs@);
    }
    ranges.push((start, i));
    ranges
}


/// The ranges of the pieces of `cs` between white-space characters.
pub fn split_ws_ranges(cs: &Vec<char>) -> (ranges: Vec<(usize, usize)>)
    ensures
        ranges_within(cs@.len(), ranges@),
        range_pieces(cs@, ranges@) == split_ws(cs@),
{
    let mut ranges: Vec<(usize, usize)> = Vec::new();
    let mut start: usize = 0;
    let mut i: usize = 0;
    proof {
        assert(cs@.take(0) =~= Seq::<char>::empty());
        assert(range_pieces(cs@, ranges@).push(cs@.subrange(0, 0)) =~= seq![Seq::<char>::empty()]);
    }
    while i < cs.len()
        invariant
            start <= i <= cs@.len(),
            ranges_within(i as nat, ranges@),
            range_pieces(cs@, ranges@).push(cs@.subrange(start as int, i as int)) == split_ws(
                cs@.take(i as int),
            ),
        decreases cs@.len() - i,
    {
        proof {
            assert(cs@.take(i + 1).drop_last() =~= cs@.take(i as int));
            assert(cs@.take(i + 1).last() == cs@[i as int]);
        }
        if is_whitespace(cs[i]) {
            proof {
                lemma_pieces_extend(cs@, ranges@, (start, i));
                assert(cs@.subrange(i + 1, i + 1) =~= Seq::<char>::empty());
            }
            ranges.push((start, i));
            start = i + 1;
        } else {
            proof {
                let prev = range_pieces(cs@, ranges@).push(cs@.subrange(start as int, i as int));
                assert(cs@.subrange(start as int, i + 1) =~= cs@.subrange(start as int, i as int).push(
                    cs@[i as int],
                ));
                assert(range_pieces(cs@, ranges@).push(cs@.subrange(start as int, i + 1)) =~= prev.update(
                    prev.len() - 1,
                    prev.last().push(cs@[i as int]),
                ));
            }
        }
        i = i + 1;
    }
    proof {
        lemma_pieces_extend(cs@, ranges@, (start, i));
        assert(cs@.take(i as int) =~= cs@);
    }
    ranges.push((start, i));
    ranges
}

/// The ranges of the words of `cs`.
pub fn word_ranges(cs: &Vec<char>) -> (ranges: Vec<(usize, usize)>)
    ensures
        ranges_within(cs@.len(), ranges@),
        range_pieces(cs@, ranges@) == words(cs@),
{
    let all = split_ws_ranges(cs);
    let mut out: Vec<(usize, usize)> = Vec::new();
    let mut k: usize = 0;
    proof {
        reveal_with_fuel(Seq::filter, 1);
        assert(all@.take(0) =~= Seq::<(usize, usize)>::empty());
        assert(range_pieces(cs@, all@.take(0)) =~= Seq::<Seq<char>>::empty());
        assert(range_pieces(cs@, out@) =~= Seq::<Seq<char>>::empty());
    }
    while k < all.len()
        invariant
            k <= all@.len(),
            ranges_within(cs@.len(), all@),
            ranges_within(cs@.len(), out@),
            range_pieces(cs@, all@) == split_ws(cs@),
            range_pieces(cs@, out@) == range_pieces(cs@, all@.take(k as int)).filter(
                |w: Seq<char>| w.len() > 0,
            ),
        decreases all@.len() - k,
    {
        let (a, b) = all[k];
        proof {
            reveal_with_fuel(Seq::filter, 1);
            assert(all@.take(k + 1) =~= all@.take(k as int).push(all@[k as int]));
            lemma_pieces_extend(cs@, all@.take(k as int), all@[k as int]);
            let pk = range_pieces(cs@, all@.take(k + 1));
            assert(pk.drop_last() =~= range_pieces(cs@, all@.take(k as int)));
            assert(pk.last() == cs@.subrange(a as int, b as int));
        }
        if a < b {
            proof {
                lemma_pieces_extend(cs@, out@, (a, b));
            }
            out.push((a, b));
        }
        k = k + 1;
    }
    proof {
        assert(all@.take(k as int) =~= all@);
    }
    out
}

/// The ranges of the lines of `cs`.
pub fn line_ranges(cs: &Vec<char>) -> (ranges: Vec<(usize, usize)>)
    ensures
        ranges_within(cs@.len(), ranges@),
        range_pieces(cs@, ranges@) == lines_of(cs@),
{
    let all = split_char_ranges(cs, '\n');
    let ghost p = split_on(cs@, '\n');
    let ghost n = p.len() - 1;
    proof {
        assert(all@.len() == p.len());
        assert(p.len() >= 1) by {
            assert(range_pieces(cs@, all@).len() == all@.len());
            lemma_split_on_len(cs@, '\n');
        }
    }
    let last = all.len() - 1;
    let mut out: Vec<(usize, usize)> = Vec::new();
    let mut k: usize = 0;
    while k < last
        invariant
            k <= last,
            last == all@.len() - 1,
            all@.len() == p.len(),
            ranges_within(cs@.len(), all@),
            ranges_within(cs@.len(), out@),
            range_pieces(cs@, all@) == p,
            out@.len() == k,
            forall|j: int| 0 <= j < k ==> #[trigger] range_pieces(cs@, out@)[j] == strip_cr(p[j]),
        decreases last - k,
    {
        let (a, b) = all[k];
        proof {
            assert(p[k as int] == cs@.subrange(a as int, b as int));
            lemma_pieces_extend(cs@, out@, (a, b));
        }
        if a < b && cs[b - 1] == '\r' {
            proof {
                lemma_pieces_extend(cs@, out@, (a, (b - 1) as usize));
                assert(cs@.subrange(a as int, b - 1) =~= cs@.subrange(a as int, b as int).drop_last());
            }
            out.push((a, b - 1));
        } else {
            out.push((a, b));
        }
        k = k + 1;
    }
    let (a, b) = all[last];
    proof {
        assert(p[n] == cs@.subrange(a as int, b as int));
    }
    if a < b {
        proof {
            lemma_pieces_extend(cs@, out@, (a, b));
        }
        out.push((a, b));
    }
    proof {
        let body = p.take(n).map_values(|l: Seq<char>| strip_cr(l));
        if a < b {
            assert(range_pieces(cs@, out@) =~= body.push(p[n]));
        } else {
            assert(range_pieces(cs@, out@) =~= body);
        }
    }
    out
}

/// There is always at least one piece.
pub proof fn lemma_split_on_len(s: Seq<char>, sep: char)
    ensures
        split_on(s, sep).len() >= 1,
    decreases s.len(),
{
    if s.len() > 0 {
        lemma_split_on_len(s.drop_last(), sep);
    }
}

/// The range of `cs[a..b]` without leading and trailing white space.
pub fn trim_range(cs: &Vec<char>, a: usize, b: usize) -> (r: (usize, usize))
    requires
        a <= b <= cs@.len(),
    ensures
        a <= r.0 <= r.1 <= b,
        cs@.subrange(r.0 as int, r.1 as int) == trim(cs@.subrange(a as int, b as int)),
{
    let mut s = a;
    while s < b && is_whitespace(cs[s])
        invariant
            a <= s <= b <= cs@.len(),
            trim_start(cs@.subrange(a as int, b as int)) == trim_start(cs@.subrange(s as int, b as int)),
        decreases b - s,
    {
        proof {
            assert(cs@.subrange(s as int, b as int).drop_first() =~= cs@.subrange(s + 1, b as int));
        }
        s = s + 1;
    }
    proof {
        assert(trim_start(cs@.subrange(s as int, b as int)) == cs@.subrange(s as int, b as int));
    }
    let mut e = b;
    while e > s && is_whitespace(cs[e - 1])
        invariant
            a <= s <= e <= b <= cs@.len(),
            trim_end(cs@.subrange(s as int, b as int)) == trim_end(cs@.subrange(s as int, e as int)),
        decreases e - s,
    {
        proof {
            assert(cs@.subrange(s as int, e as int).drop_last() =~= cs@.subrange(s as int, e - 1));
        }
        e = e - 1;
    }
    (s, e)
}

/// Whether `cs` begins with `p`.
pub fn has_prefix(cs: &Vec<char>, p: &Vec<char>) -> (b: bool)
    ensures
        b == starts_with(cs@, p@),
{
    if p.len() > cs.len() {
        return false;
    }
    let mut i: usize = 0;
    while i < p.len()
        invariant
            i <= p@.len() <= cs@.len(),
            forall|j: int| 0 <= j < i ==> cs@[j] == p@[j],
        decreases p@.len() - i,
    {
        if cs[i] != p[i] {
            assert(cs@.take(p@.len() as int)[i as int] != p@[i as int]);
            return false;
        }
        i = i + 1;
    }
    assert(cs@.take(p@.len() as int) =~= p@);
    true
}

/// Whether `p` occurs in `cs`.
pub fn contains_chars(cs: &Vec<char>, p: &Vec<char>) -> (b: bool)
    ensures
        b == contains_seq(cs@, p@),
{
    if p.len() > cs.len() {
        return false;
    }
    let len = cs.len();
    let last = len - p.len();
    let mut i: usize = 0;
    loop
        invariant
            len == cs@.len(),
            p@.len() <= cs@.len(),
            last == cs@.len() - p@.len(),
            i <= last,
            forall|j: int| 0 <= j < i ==> #[trigger] cs@.subrange(j, j + p@.len()) != p@,
        decreases last - i,
    {
        let mut k: usize = 0;
        let mut same = true;
        while k < p.len()
            invariant
                len == cs@.len(),
                p@.len() <= cs@.len(),
                i <= last,
                last == cs@.len() - p@.len(),
                k <= p@.len(),
                same == (forall|j: int| 0 <= j < k ==> cs@[i + j] == p@[j]),
            decreases p@.len() - k,
        {
            if cs[i + k] != p[k] {
                same = false;
            }
            k = k + 1;
        }
        if same {
            assert(cs@.subrange(i as int, i + p@.len()) =~= p@);
            return true;
        } else {
            proof {
                let w = choose|j: int| 0 <= j < p@.len() && cs@[i + j] != p@[j];
                assert(cs@.subrange(i as int, i + p@.len())[w] != p@[w]);
            }
        }
        if i == last {
            return false;
        }
        i = i + 1;
    }
}

/// The position of the last occurrence of `a` followed by `b` in `cs`.
pub fn rfind_pair_chars(cs: &Vec<char>, a: char, b: char) -> (r: Option<usize>)
    ensures
        match r {
            Some(i) => rfind_pair(cs@, a, b) == Some(i as int),
            None => rfind_pair(cs@, a, b) is None,
        },
{
    let mut m = cs.len();
    proof {
        assert(cs@.take(m as int) =~= cs@);
    }
    while m >= 2
        invariant
            m <= cs@.len(),
            rfind_pair(cs@, a, b) == rfind_pair(cs@.take(m as int), a, b),
        decreases m,
    {
        if cs[m - 2] == a && cs[m - 1] == b {
            return Some(m - 2);
        }
        proof {
            assert(cs@.take(m as int).drop_last() =~= cs@.take(m - 1));
        }
        m = m - 1;
    }
    None
}

proof fn lemma_digits_value_prefix(d: Seq<char>, k: int)
    requires
        0 <= k <= d.len(),
        forall|i: int| 0 <= i < d.len() ==> is_digit(#[trigger] d[i]),
    ensures
        digits_value(d.take(k)) <= digits_value(d),
    decreases d.len(),
{
    if k < d.len() {
        assert(d.drop_last().take(k) =~= d.take(k));
        lemma_digits_value_prefix(d.drop_last(), k);
    } else {
        assert(d.take(k) =~= d);
    }
}

/// Read `cs[a..b]` as `str::parse` reads an unsigned integer whose largest
/// value is `max`.
pub fn parse_unsigned_range(cs: &Vec<char>, a: usize, b: usize, max: u64) -> (r: Option<u64>)
    requires
        a <= b <= cs@.len(),
        max <= u32::MAX,
    ensures
        match r {
            Some(v) => parse_unsigned(cs@.subrange(a as int, b as int), max as nat) == Some(v as nat),
            None => parse_unsigned(cs@.subrange(a as int, b as int), max as nat) is None,
        },
{
    let ghost s = cs@.subrange(a as int, b as int);
    let mut start = a;
    if start < b && cs[start] == '+' {
        start = start + 1;
    }
    let ghost d = cs@.subrange(start as int, b as int);
    proof {
        assert(unsigned_digits(s) =~= d);
    }
    if start == b {
        return None;
    }
    let mut v: u64 = 0;
    let mut i = start;
    proof {
        assert(d.take(0) =~= Seq::<char>::empty());
    }
    while i < b
        invariant
            start <= i <= b <= cs@.len(),
            start < b,
            s == cs@.subrange(a as int, b as int),
            d == cs@.subrange(start as int, b as int),
            unsigned_digits(s) == d,
            max <= u32::MAX,
            v <= max,
            v == digits_value(d.take(i - start)),
            forall|j: int| 0 <= j < i - start ==> is_digit(#[trigger] d[j]),
        decreases b - i,
    {
        let c = cs[i];
        let n = c as u32;
        if n < 0x30 || n > 0x39 {
            assert(!is_digit(d[i - start]));
            return None;
        }
        proof {
            assert(d.take(i - start + 1).drop_last() =~= d.take(i - start));
            assert(d.take(i - start + 1).last() == c);
        }
        v = v * 10 + (n - 0x30) as u64;
        if v > max {
            proof {
                if forall|j: int| 0 <= j < d.len() ==> is_digit(#[trigger] d[j]) {
                    lemma_digits_value_prefix(d, i - start + 1);
                }
            }
            return None;
        }
        i = i + 1;
    }
    proof {
        assert(d.take(i - start) =~= d);
    }
    Some(v)
}

/// A pair found by `rfind_pair` lies within the sequence.
pub proof fn lemma_rfind_pair_range(s: Seq<char>, a: char, b: char)
    ensures
        rfind_pair(s, a, b) matches Some(i) ==> 0 <= i && i + 2 <= s.len(),
    decreases s.len(),
{
    if s.len() >= 2 {
        lemma_rfind_pair_range(s.drop_last(), a, b);
    }
}
} // verus!

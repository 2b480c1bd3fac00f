//! A node's LAN addresses: which addresses are worth announcing, which one
//! to announce, where to broadcast discovery probes, and how the output of
//! the system's address tools (`ip -4 -o addr show`, `ipconfig`) is read.
use vstd::prelude::*;
use vstd::string::*;
use crate::text::{
    digits_value, is_digit, unsigned_digits, contains_chars, contains_seq, has_prefix, line_ranges, lines_of, parse_unsigned,
    parse_unsigned_range, range_pieces, rfind_pair, rfind_pair_chars, split_char_ranges, split_on,
    starts_with, to_chars, trim, trim_range, views, word_ranges, words,
};

verus! {

broadcast use vstd::string::group_string_axioms;

/// Not loopback, link-local, benchmarking (WSL2, Docker Desktop), a mask
/// or the zero network: a plausible LAN interface address.
pub open spec fn spec_is_plausible_lan_ip(s: Seq<char>) -> bool {
    !(starts_with(s, "127."@) || starts_with(s, "169.254."@) || starts_with(s, "198.18."@)
        || starts_with(s, "198.19."@) || starts_with(s, "255."@) || starts_with(s, "0."@))
}

fn starts_with_str(cs: &Vec<char>, p: &str) -> (b: bool)
    ensures
        b == starts_with(cs@, p@),
{
    let pc = to_chars(p);
    has_prefix(cs, &pc)
}

/// Whether `s` could be the address of a LAN interface.
pub fn is_plausible_lan_ip(s: &str) -> (b: bool)
    ensures
        b == spec_is_plausible_lan_ip(s@),
{
    let cs = to_chars(s);
    !(starts_with_str(&cs, "127.") || starts_with_str(&cs, "169.254.") || starts_with_str(
        &cs,
        "198.18.",
    ) || starts_with_str(&cs, "198.19.") || starts_with_str(&cs, "255.") || starts_with_str(
        &cs,
        "0.",
    ))
}

/// Four pieces between dots, each a number `u8` parses.
pub open spec fn spec_looks_like_ipv4(s: Seq<char>) -> bool {
    let p = split_on(s, '.');
    p.len() == 4 && forall|i: int| 0 <= i < 4 ==> (#[trigger] parse_unsigned(p[i], 255)) is Some
}

fn looks_like_ipv4_chars(cs: &Vec<char>) -> (b: bool)
    ensures
        b == spec_looks_like_ipv4(cs@),
{
    let parts = split_char_ranges(cs, '.');
    let ghost p = split_on(cs@, '.');
    if parts.len() != 4 {
        return false;
    }
    let mut i: usize = 0;
    while i < 4
        invariant
            i <= 4,
            parts@.len() == 4,
            p == split_on(cs@, '.'),
            p.len() == 4,
            crate::text::ranges_within(cs@.len(), parts@),
            range_pieces(cs@, parts@) == p,
            forall|j: int| 0 <= j < i ==> (#[trigger] parse_unsigned(p[j], 255)) is Some,
        decreases 4 - i,
    {
        let (a, b) = parts[i];
        proof {
            assert(p[i as int] == cs@.subrange(a as int, b as int));
        }
        let r = parse_unsigned_range(cs, a, b, 255);
        if r.is_none() {
            assert(parse_unsigned(p[i as int], 255) is None);
            return false;
        }
        i = i + 1;
    }
    true
}

/// Whether `s` reads as a dotted IPv4 address.
pub fn looks_like_ipv4(s: &str) -> (b: bool)
    ensures
        b == spec_looks_like_ipv4(s@),
{
    let cs = to_chars(s);
    looks_like_ipv4_chars(&cs)
}

/// The second dotted piece of `s` is a number from 16 to 31 (as `u32` parses it).
pub open spec fn second_piece_private(s: Seq<char>) -> bool {
    let p = split_on(s, '.');
    p.len() > 1 && match parse_unsigned(p[1], 0xFFFF_FFFF) {
        Some(n) => 16 <= n <= 31,
        None => false,
    }
}

/// In 172.16.0.0/12.
pub open spec fn is_private_172(s: Seq<char>) -> bool {
    starts_with(s, "172."@) && second_piece_private(s)
}

fn second_piece_private_chars(cs: &Vec<char>) -> (b: bool)
    ensures
        b == second_piece_private(cs@),
{
    let parts = split_char_ranges(cs, '.');
    if parts.len() <= 1 {
        return false;
    }
    let (a, b) = parts[1];
    proof {
        assert(split_on(cs@, '.')[1] == cs@.subrange(a as int, b as int));
    }
    match parse_unsigned_range(cs, a, b, 0xFFFF_FFFF) {
        Some(n) => 16 <= n && n <= 31,
        None => false,
    }
}

/// The position of the first address of `ips` that begins with `p`.
pub open spec fn first_with_prefix(ips: Seq<Seq<char>>, p: Seq<char>) -> Option<int>
    decreases ips.len(),
{
    if ips.len() == 0 {
        None
    } else {
        match first_with_prefix(ips.drop_last(), p) {
            Some(i) => Some(i),
            None => if starts_with(ips.last(), p) {
                Some(ips.len() - 1)
            } else {
                None
            },
        }
    }
}

/// The position of the first address of `ips` in 172.16.0.0/12.
pub open spec fn first_private_172(ips: Seq<Seq<char>>) -> Option<int>
    decreases ips.len(),
{
    if ips.len() == 0 {
        None
    } else {
        match first_private_172(ips.drop_last()) {
            Some(i) => Some(i),
            None => if is_private_172(ips.last()) {
                Some(ips.len() - 1)
            } else {
                None
            },
        }
    }
}

/// The address a node announces: the first 192.168.x.x, else the first
/// 10.x.x.x, else the first of 172.16-31.x.x, else the first of all.
pub open spec fn lan_pick(ips: Seq<Seq<char>>) -> Option<int> {
    match first_with_prefix(ips, "192.168."@) {
        Some(i) => Some(i),
        None => match first_with_prefix(ips, "10."@) {
            Some(i) => Some(i),
            None => match first_private_172(ips) {
                Some(i) => Some(i),
                None => if ips.len() > 0 {
                    Some(0)
                } else {
                    None
                },
            },
        },
    }
}

fn find_prefix(ips: &[String], p: &str) -> (r: Option<usize>)
    ensures
        match r {
            Some(i) => first_with_prefix(views(ips@), p@) == Some(i as int),
            None => first_with_prefix(views(ips@), p@) is None,
        },
{
    let pc = to_chars(p);
    let mut i: usize = 0;
    proof {
        assert(views(ips@).take(0) =~= Seq::<Seq<char>>::empty());
    }
    while i < ips.len()
        invariant
            i <= ips@.len(),
            pc@ == p@,
            first_with_prefix(views(ips@).take(i as int), p@) is None,
        decreases ips@.len() - i,
    {
        proof {
            assert(views(ips@).take(i + 1).drop_last() =~= views(ips@).take(i as int));
            assert(views(ips@).take(i + 1).last() == ips@[i as int]@);
        }
        let cs = to_chars(ips[i].as_str());
        if has_prefix(&cs, &pc) {
            proof {
                lemma_first_prefix_stable(views(ips@), p@, i + 1);
            }
            return Some(i);
        }
        i = i + 1;
    }
    proof {
        assert(views(ips@).take(i as int) =~= views(ips@));
    }
    None
}

proof fn lemma_first_prefix_stable(ips: Seq<Seq<char>>, p: Seq<char>, k: int)
    requires
        0 <= k <= ips.len(),
        first_with_prefix(ips.take(k), p) is Some,
    ensures
        first_with_prefix(ips, p) == first_with_prefix(ips.take(k), p),
    decreases ips.len(),
{
    if k < ips.len() {
        assert(ips.drop_last().take(k) =~= ips.take(k));
        lemma_first_prefix_stable(ips.drop_last(), p, k);
    } else {
        assert(ips.take(k) =~= ips);
    }
}

proof fn lemma_first_172_stable(ips: Seq<Seq<char>>, k: int)
    requires
        0 <= k <= ips.len(),
        first_private_172(ips.take(k)) is Some,
    ensures
        first_private_172(ips) == first_private_172(ips.take(k)),
    decreases ips.len(),
{
    if k < ips.len() {
        assert(ips.drop_last().take(k) =~= ips.take(k));
        lemma_first_172_stable(ips.drop_last(), k);
    } else {
        assert(ips.take(k) =~= ips);
    }
}

fn find_private_172(ips: &[String]) -> (r: Option<usize>)
    ensures
        match r {
            Some(i) => first_private_172(views(ips@)) == Some(i as int),
            None => first_private_172(views(ips@)) is None,
        },
{
    let mut i: usize = 0;
    proof {
        assert(views(ips@).take(0) =~= Seq::<Seq<char>>::empty());
    }
    while i < ips.len()
        invariant
            i <= ips@.len(),
            first_private_172(views(ips@).take(i as int)) is None,
        decreases ips@.len() - i,
    {
        proof {
            assert(views(ips@).take(i + 1).drop_last() =~= views(ips@).take(i as int));
            assert(views(ips@).take(i + 1).last() == ips@[i as int]@);
        }
        let cs = to_chars(ips[i].as_str());
        if starts_with_str(&cs, "172.") && second_piece_private_chars(&cs) {
            proof {
                lemma_first_172_stable(views(ips@), i + 1);
            }
            return Some(i);
        }
        i = i + 1;
    }
    proof {
        assert(views(ips@).take(i as int) =~= views(ips@));
    }
    None
}

/// The address to announce among `ips`: the first 192.168.x.x, else the
/// first 10.x.x.x, else the first 172.16-31.x.x, else the first of all;
/// `None` when `ips` is empty.
pub fn pick_lan_ip(ips: &[String]) -> (r: Option<&str>)
    ensures
        match r {
            Some(s) => lan_pick(views(ips@)) matches Some(i) && 0 <= i < ips@.len() && s@ == ips@[i]@,
            None => lan_pick(views(ips@)) is None,
        },
{
    let choice = match find_prefix(ips, "192.168.") {
        Some(i) => Some(i),
        None => match find_prefix(ips, "10.") {
            Some(i) => Some(i),
            None => match find_private_172(ips) {
                Some(i) => Some(i),
                None => if ips.len() > 0 {
                    Some(0)
                } else {
                    None
                },
            },
        },
    };
    proof {
        lemma_first_prefix_in_range(views(ips@), "192.168."@);
        lemma_first_prefix_in_range(views(ips@), "10."@);
        lemma_first_172_in_range(views(ips@));
    }
    match choice {
        Some(i) => Some(ips[i].as_str()),
        None => None,
    }
}

proof fn lemma_first_prefix_in_range(ips: Seq<Seq<char>>, p: Seq<char>)
    ensures
        first_with_prefix(ips, p) matches Some(i) ==> 0 <= i < ips.len(),
    decreases ips.len(),
{
    if ips.len() > 0 {
        lemma_first_prefix_in_range(ips.drop_last(), p);
    }
}

proof fn lemma_first_172_in_range(ips: Seq<Seq<char>>)
    ensures
        first_private_172(ips) matches Some(i) ==> 0 <= i < ips.len(),
    decreases ips.len(),
{
    if ips.len() > 0 {
        lemma_first_172_in_range(ips.drop_last());
    }
}

/// `first_with_prefix` finds the smallest position whose address begins
/// with `p`, and nothing when none does.
proof fn lemma_first_with_prefix_is_first(ips: Seq<Seq<char>>, p: Seq<char>)
    ensures
        match first_with_prefix(ips, p) {
            Some(i) => 0 <= i < ips.len() && p.is_prefix_of(ips[i]) && forall|j: int|
                0 <= j < i ==> !p.is_prefix_of(#[trigger] ips[j]),
            None => forall|j: int| 0 <= j < ips.len() ==> !p.is_prefix_of(#[trigger] ips[j]),
        },
    decreases ips.len(),
{
    if ips.len() > 0 {
        let init = ips.drop_last();
        lemma_first_with_prefix_is_first(init, p);
        assert(starts_with(ips.last(), p) == p.is_prefix_of(ips.last())) by {
            if p.len() <= ips.last().len() {
                assert(ips.last().take(p.len() as int) =~= ips.last().subrange(0, p.len() as int));
            }
        }
        assert forall|j: int| 0 <= j < init.len() implies #[trigger] ips[j] == init[j] by {}
    }
}

/// `first_private_172` finds the smallest position whose address is in
/// 172.16.0.0/12, and nothing when none is.
proof fn lemma_first_private_172_is_first(ips: Seq<Seq<char>>)
    ensures
        match first_private_172(ips) {
            Some(i) => 0 <= i < ips.len() && is_private_172(ips[i]) && forall|j: int|
                0 <= j < i ==> !is_private_172(#[trigger] ips[j]),
            None => forall|j: int| 0 <= j < ips.len() ==> !is_private_172(#[trigger] ips[j]),
        },
    decreases ips.len(),
{
    if ips.len() > 0 {
        let init = ips.drop_last();
        lemma_first_private_172_is_first(init);
        assert forall|j: int| 0 <= j < init.len() implies #[trigger] ips[j] == init[j] by {}
    }
}

/// A dotted address of four decimal pieces is in 172.16.0.0/12 exactly
/// when its first piece is 172 and its second a number from 16 to 31.
pub proof fn lemma_private_172_dotted(p0: Seq<char>, p1: Seq<char>, p2: Seq<char>, p3: Seq<char>)
    requires
        decimal_piece(p0),
        decimal_piece(p1),
        decimal_piece(p2),
        decimal_piece(p3),
    ensures
        is_private_172(p0 + "."@ + p1 + "."@ + p2 + "."@ + p3) <==> (p0 == "172"@ && 16 <= digits_value(p1)
            <= 31),
{
    reveal_strlit(".");
    let dot = seq!['.'];
    assert("."@ =~= dot);
    let r2 = p2 + dot + p3;
    let ip = p0 + "."@ + p1 + "."@ + p2 + "."@ + p3;
    assert(ip =~= p0 + dot + (p1 + dot + r2));
    lemma_dotted_split(p0, p1, p2, p3);
    lemma_dotted_private_prefixes(p0, p1, r2);
    assert(!(p1[0] == '+')) by {
        assert(is_digit(p1[0]));
    }
    assert(unsigned_digits(p1) == p1);
    assert(split_on(ip, '.')[1] == p1);
}

/// Without a 192.168.x.x or 10.x.x.x address, a node announces its first
/// address in 172.16.0.0/12 (see `lemma_private_172_dotted`), and without
/// one of those either, its first address.
pub proof fn lemma_lan_pick_fallbacks(ips: Seq<Seq<char>>, i: int)
    requires
        0 <= i < ips.len(),
        forall|j: int| 0 <= j < ips.len() ==> !"192.168."@.is_prefix_of(#[trigger] ips[j]),
        forall|j: int| 0 <= j < ips.len() ==> !"10."@.is_prefix_of(#[trigger] ips[j]),
    ensures
        is_private_172(ips[i]) && (forall|j: int| 0 <= j < i ==> !is_private_172(#[trigger] ips[j]))
            ==> lan_pick(ips) == Some(i),
        (forall|j: int| 0 <= j < ips.len() ==> !is_private_172(#[trigger] ips[j])) ==> lan_pick(ips)
            == Some(0int),
{
    lemma_first_with_prefix_is_first(ips, "192.168."@);
    lemma_first_with_prefix_is_first(ips, "10."@);
    lemma_first_private_172_is_first(ips);
    match first_with_prefix(ips, "192.168."@) {
        Some(k) => {
            assert(!"192.168."@.is_prefix_of(ips[k]));
        },
        None => {},
    }
    match first_with_prefix(ips, "10."@) {
        Some(k) => {
            assert(!"10."@.is_prefix_of(ips[k]));
        },
        None => {},
    }
    match first_private_172(ips) {
        Some(k) => {
            if is_private_172(ips[i]) && k > i {
                assert(!is_private_172(ips[i]));
            }
        },
        None => {
            if is_private_172(ips[i]) {
                assert(!is_private_172(ips[i]));
            }
        },
    }
}

/// The address a node announces, whatever the order of its addresses: the
/// first address that begins with "192.168." when there is one; otherwise
/// the first that begins with "10."; always one of the given addresses,
/// and one whenever any is given.
pub proof fn lemma_lan_pick_order(ips: Seq<Seq<char>>, i: int)
    requires
        0 <= i < ips.len(),
    ensures
        "192.168."@.is_prefix_of(ips[i]) && (forall|j: int|
            0 <= j < i ==> !"192.168."@.is_prefix_of(#[trigger] ips[j])) ==> lan_pick(ips) == Some(i),
        (forall|j: int| 0 <= j < ips.len() ==> !"192.168."@.is_prefix_of(#[trigger] ips[j]))
            && "10."@.is_prefix_of(ips[i]) && (forall|j: int|
            0 <= j < i ==> !"10."@.is_prefix_of(#[trigger] ips[j])) ==> lan_pick(ips) == Some(i),
        lan_pick(ips) matches Some(k) && 0 <= k < ips.len(),
{
    lemma_first_with_prefix_is_first(ips, "192.168."@);
    lemma_first_with_prefix_is_first(ips, "10."@);
    lemma_first_172_in_range(ips);
    if "192.168."@.is_prefix_of(ips[i]) {
        match first_with_prefix(ips, "192.168."@) {
            Some(k) => {
                if k < i {
                } else if k > i {
                    assert(!"192.168."@.is_prefix_of(ips[i]));
                }
            },
            None => {
                assert(!"192.168."@.is_prefix_of(ips[i]));
            },
        }
    }
    if "10."@.is_prefix_of(ips[i]) {
        match first_with_prefix(ips, "10."@) {
            Some(k) => {
                if k > i {
                    assert(!"10."@.is_prefix_of(ips[i]));
                }
            },
            None => {
                assert(!"10."@.is_prefix_of(ips[i]));
            },
        }
    }
}

/// The subnet broadcast address for `ip` when it is in a private range
/// where /24 is the norm: its first three pieces and 255.
pub open spec fn spec_guess_broadcast(ip: Seq<char>) -> Option<Seq<char>> {
    let p = split_on(ip, '.');
    if p.len() != 4 {
        None
    } else if starts_with(ip, "192.168."@) || starts_with(ip, "10."@) || is_private_172(ip) {
        Some(p[0] + "."@ + p[1] + "."@ + p[2] + ".255"@)
    } else {
        None
    }
}

/// A non-empty run of decimal digits: one piece of a dotted address.
pub open spec fn decimal_piece(p: Seq<char>) -> bool {
    p.len() > 0 && forall|i: int| 0 <= i < p.len() ==> is_digit(#[trigger] p[i])
}

proof fn lemma_split_len(s: Seq<char>, sep: char)
    ensures
        split_on(s, sep).len() >= 1,
    decreases s.len(),
{
    if s.len() > 0 {
        lemma_split_len(s.drop_last(), sep);
    }
}

proof fn lemma_split_no_sep(p: Seq<char>, sep: char)
    requires
        forall|i: int| 0 <= i < p.len() ==> p[i] != sep,
    ensures
        split_on(p, sep) == seq![p],
    decreases p.len(),
{
    if p.len() > 0 {
        lemma_split_no_sep(p.drop_last(), sep);
        assert(p.drop_last().push(p.last()) =~= p);
        assert(split_on(p, sep) =~= seq![p]);
    } else {
        assert(p =~= Seq::<char>::empty());
    }
}

proof fn lemma_split_join(a: Seq<char>, t: Seq<char>, sep: char)
    ensures
        split_on(a + seq![sep] + t, sep) == split_on(a, sep) + split_on(t, sep),
    decreases t.len(),
{
    let x = a + seq![sep] + t;
    if t.len() == 0 {
        assert(x.drop_last() =~= a);
        assert(split_on(t, sep) == seq![Seq::<char>::empty()]);
        assert(split_on(x, sep) =~= split_on(a, sep) + split_on(t, sep));
    } else {
        let t0 = t.drop_last();
        lemma_split_join(a, t0, sep);
        lemma_split_len(t0, sep);
        assert(x.drop_last() =~= a + seq![sep] + t0);
        assert(x.last() == t.last());
        let l = split_on(a, sep);
        let r0 = split_on(t0, sep);
        if t.last() == sep {
            assert(split_on(x, sep) =~= l + split_on(t, sep));
        } else {
            assert((l + r0).update((l + r0).len() - 1, (l + r0).last().push(t.last())) =~= l + r0.update(
                r0.len() - 1,
                r0.last().push(t.last()),
            ));
            assert(split_on(x, sep) =~= l + split_on(t, sep));
        }
    }
}

proof fn lemma_digits_no_dot(p: Seq<char>)
    requires
        decimal_piece(p),
    ensures
        forall|i: int| 0 <= i < p.len() ==> p[i] != '.',
{
    assert forall|i: int| 0 <= i < p.len() implies p[i] != '.' by {
        assert(is_digit(p[i]));
    }
}

/// For digit pieces `p` and `q`, `p` followed by a dot and anything begins
/// with `q` and a dot exactly when `p` is `q`.
proof fn lemma_dotted_prefix(p: Seq<char>, r: Seq<char>, q: Seq<char>)
    requires
        decimal_piece(p),
        decimal_piece(q),
    ensures
        starts_with(p + seq!['.'] + r, q + seq!['.']) <==> p == q,
{
    let x = p + seq!['.'] + r;
    let y = q + seq!['.'];
    if p.len() < q.len() {
        assert(is_digit(q[p.len() as int]));
        if starts_with(x, y) {
            assert(x.take(y.len() as int)[p.len() as int] == y[p.len() as int]);
        }
    } else if p.len() > q.len() {
        assert(is_digit(p[q.len() as int]));
        if starts_with(x, y) {
            assert(x.take(y.len() as int)[q.len() as int] == y[q.len() as int]);
        }
    } else {
        if p == q {
            assert(x.take(y.len() as int) =~= y);
        }
        if starts_with(x, y) {
            assert forall|i: int| 0 <= i < p.len() implies p[i] == q[i] by {
                assert(x.take(y.len() as int)[i] == y[i]);
            }
            assert(p =~= q);
        }
    }
}

proof fn lemma_starts_with_concat(x: Seq<char>, q1: Seq<char>, q2: Seq<char>)
    ensures
        starts_with(x, q1 + q2) <==> starts_with(x, q1) && starts_with(x.skip(q1.len() as int), q2),
{
    let a = q1.len() as int;
    let b = q2.len() as int;
    if starts_with(x, q1 + q2) {
        assert(x.take(a) =~= q1) by {
            assert forall|i: int| 0 <= i < a implies x.take(a)[i] == q1[i] by {
                assert(x.take(a + b)[i] == (q1 + q2)[i]);
            }
        }
        assert(x.skip(a).take(b) =~= q2) by {
            assert forall|i: int| 0 <= i < b implies x.skip(a).take(b)[i] == q2[i] by {
                assert(x.take(a + b)[a + i] == (q1 + q2)[a + i]);
            }
        }
    }
    if starts_with(x, q1) && starts_with(x.skip(a), q2) {
        assert(x.take(a + b) =~= q1 + q2) by {
            assert forall|i: int| 0 <= i < a + b implies x.take(a + b)[i] == (q1 + q2)[i] by {
                if i < a {
                    assert(x.take(a)[i] == q1[i]);
                } else {
                    assert(x.skip(a).take(b)[i - a] == q2[i - a]);
                }
            }
        }
    }
}

/// The dotted address of four decimal pieces splits at its dots into those pieces.
proof fn lemma_dotted_split(p0: Seq<char>, p1: Seq<char>, p2: Seq<char>, p3: Seq<char>)
    requires
        decimal_piece(p0),
        decimal_piece(p1),
        decimal_piece(p2),
        decimal_piece(p3),
    ensures
        split_on(p0 + seq!['.'] + (p1 + seq!['.'] + (p2 + seq!['.'] + p3)), '.') == seq![p0, p1, p2, p3],
{
    let dot = seq!['.'];
    let r2 = p2 + dot + p3;
    let r1 = p1 + dot + r2;
    lemma_digits_no_dot(p0);
    lemma_digits_no_dot(p1);
    lemma_digits_no_dot(p2);
    lemma_digits_no_dot(p3);
    lemma_split_no_sep(p0, '.');
    lemma_split_no_sep(p1, '.');
    lemma_split_no_sep(p2, '.');
    lemma_split_no_sep(p3, '.');
    lemma_split_join(p2, p3, '.');
    lemma_split_join(p1, r2, '.');
    lemma_split_join(p0, r1, '.');
    assert(split_on(p0 + dot + r1, '.') =~= seq![p0, p1, p2, p3]);
}

/// Which of the private prefixes a dotted address of decimal pieces begins with.
proof fn lemma_dotted_private_prefixes(p0: Seq<char>, p1: Seq<char>, r2: Seq<char>)
    requires
        decimal_piece(p0),
        decimal_piece(p1),
    ensures
        starts_with(p0 + seq!['.'] + (p1 + seq!['.'] + r2), "192.168."@) <==> (p0 == "192"@ && p1
            == "168"@),
        starts_with(p0 + seq!['.'] + (p1 + seq!['.'] + r2), "10."@) <==> p0 == "10"@,
        starts_with(p0 + seq!['.'] + (p1 + seq!['.'] + r2), "172."@) <==> p0 == "172"@,
{
    reveal_strlit("192");
    reveal_strlit("168");
    reveal_strlit("10");
    reveal_strlit("172");
    reveal_strlit("192.168.");
    reveal_strlit("10.");
    reveal_strlit("172.");
    let dot = seq!['.'];
    let r1 = p1 + dot + r2;
    let ip = p0 + dot + r1;
    let n192 = "192"@;
    let n168 = "168"@;
    let n10 = "10"@;
    let n172 = "172"@;
    assert(is_digit('0') && is_digit('1') && is_digit('2') && is_digit('6') && is_digit('7') && is_digit('8')
        && is_digit('9'));
    assert(decimal_piece(n192) && decimal_piece(n168) && decimal_piece(n10) && decimal_piece(n172));
    assert("192.168."@ =~= (n192 + dot) + (n168 + dot));
    lemma_starts_with_concat(ip, n192 + dot, n168 + dot);
    lemma_dotted_prefix(p0, r1, n192);
    if p0 == n192 {
        assert(ip.skip((n192 + dot).len() as int) =~= r1);
        lemma_dotted_prefix(p1, r2, n168);
    }
    assert("10."@ =~= n10 + dot);
    lemma_dotted_prefix(p0, r1, n10);
    assert("172."@ =~= n172 + dot);
    lemma_dotted_prefix(p0, r1, n172);
}

/// The guessed broadcast address of a dotted address of four decimal
/// pieces: its first three pieces and 255 exactly when it lies in
/// 192.168.0.0/16, in 10.0.0.0/8, or in 172.16.0.0/12 (first piece 172,
/// second piece a number from 16 to 31); no guess otherwise.
pub proof fn lemma_guess_broadcast_ranges(p0: Seq<char>, p1: Seq<char>, p2: Seq<char>, p3: Seq<char>)
    requires
        decimal_piece(p0),
        decimal_piece(p1),
        decimal_piece(p2),
        decimal_piece(p3),
    ensures
        spec_guess_broadcast(p0 + "."@ + p1 + "."@ + p2 + "."@ + p3) == if (p0 == "192"@ && p1 == "168"@)
            || p0 == "10"@ || (p0 == "172"@ && 16 <= digits_value(p1) <= 31) {
            Some(p0 + "."@ + p1 + "."@ + p2 + ".255"@)
        } else {
            None::<Seq<char>>
        },
{
    reveal_strlit(".");
    let dot = seq!['.'];
    assert("."@ =~= dot);
    let r2 = p2 + dot + p3;
    let ip = p0 + "."@ + p1 + "."@ + p2 + "."@ + p3;
    assert(ip =~= p0 + dot + (p1 + dot + r2));
    lemma_dotted_split(p0, p1, p2, p3);
    lemma_dotted_private_prefixes(p0, p1, r2);
    assert(!(p1[0] == '+')) by {
        assert(is_digit(p1[0]));
    }
    assert(unsigned_digits(p1) == p1);
    assert(split_on(ip, '.')[1] == p1);
}

/// Guess the broadcast address of `ip`'s subnet, assuming /24, for the
/// private ranges 192.168/16, 10/8 and 172.16/12.
pub fn guess_broadcast(ip: &str) -> (r: Option<String>)
    ensures
        match r {
            Some(b) => spec_guess_broadcast(ip@) == Some(b@),
            None => spec_guess_broadcast(ip@) is None,
        },
{
    let cs = to_chars(ip);
    let parts = split_char_ranges(&cs, '.');
    if parts.len() != 4 {
        return None;
    }
    if starts_with_str(&cs, "192.168.") || starts_with_str(&cs, "10.") || (starts_with_str(&cs, "172.")
        && second_piece_private_chars(&cs)) {
        let (a0, b0) = parts[0];
        let (a1, b1) = parts[1];
        let (a2, b2) = parts[2];
        proof {
            let p = split_on(cs@, '.');
            assert(p[0] == cs@.subrange(a0 as int, b0 as int));
            assert(p[1] == cs@.subrange(a1 as int, b1 as int));
            assert(p[2] == cs@.subrange(a2 as int, b2 as int));
        }
        let out = String::from_str(ip.substring_char(a0, b0)).concat(".").concat(
            ip.substring_char(a1, b1),
        ).concat(".").concat(ip.substring_char(a2, b2)).concat(".255");
        Some(out)
    } else {
        None
    }
}

/// `acc` with each candidate that is present and not yet in the list
/// appended, in order.
pub open spec fn push_new(acc: Seq<Seq<char>>, cands: Seq<Option<Seq<char>>>) -> Seq<Seq<char>>
    decreases cands.len(),
{
    if cands.len() == 0 {
        acc
    } else {
        let a = push_new(acc, cands.drop_last());
        match cands.last() {
            Some(c) => if a.contains(c) {
                a
            } else {
                a.push(c)
            },
            None => a,
        }
    }
}

/// A candidate kept only when it is a plausible LAN address.
pub open spec fn plausible_only(c: Option<Seq<char>>) -> Option<Seq<char>> {
    match c {
        Some(x) => if spec_is_plausible_lan_ip(x) {
            Some(x)
        } else {
            None
        },
        None => None,
    }
}

/// The address on a line of `ip -4 -o addr show`: the fourth word, up to
/// its first '/', trimmed.
pub open spec fn ip_addr_line_ip(line: Seq<char>) -> Option<Seq<char>> {
    let w = words(line);
    if w.len() > 3 {
        Some(trim(split_on(w[3], '/')[0]))
    } else {
        None
    }
}

/// The plausible LAN addresses listed by `ip -4 -o addr show`, each once,
/// in the order of their lines.
pub open spec fn ips_from_ip_addr(out: Seq<char>) -> Seq<Seq<char>> {
    push_new(seq![], lines_of(out).map_values(|l: Seq<char>| plausible_only(ip_addr_line_ip(l))))
}

/// The address on a line of `ipconfig`: on lines that mention "IPv4", what
/// follows the last ": ", trimmed, when it reads as a dotted IPv4 address.
pub open spec fn ipconfig_line_ip(line: Seq<char>) -> Option<Seq<char>> {
    if contains_seq(line, "IPv4"@) {
        match rfind_pair(line, ':', ' ') {
            Some(pos) => {
                let c = trim(line.subrange(pos + 2, line.len() as int));
                if spec_looks_like_ipv4(c) {
                    Some(c)
                } else {
                    None
                }
            },
            None => None,
        }
    } else {
        None
    }
}

/// The plausible LAN addresses listed by `ipconfig`, each once, in order.
pub open spec fn ips_from_ipconfig(out: Seq<char>) -> Seq<Seq<char>> {
    push_new(seq![], lines_of(out).map_values(|l: Seq<char>| plausible_only(ipconfig_line_ip(l))))
}

/// Some string of `v` equals `s`.
fn contains_view(v: &Vec<String>, s: &String) -> (b: bool)
    ensures
        b == views(v@).contains(s@),
{
    let mut i: usize = 0;
    while i < v.len()
        invariant
            i <= v@.len(),
            forall|j: int| 0 <= j < i ==> v@[j]@ != s@,
        decreases v@.len() - i,
    {
        if v[i] == *s {
            assert(views(v@)[i as int] == s@);
            return true;
        }
        i = i + 1;
    }
    proof {
        if views(v@).contains(s@) {
            let j = choose|j: int| 0 <= j < views(v@).len() && views(v@)[j] == s@;
            assert(v@[j]@ == s@);
        }
    }
    false
}

/// One step of `push_new`: append `c` when present and new.
fn push_candidate(acc: &mut Vec<String>, c: Option<String>)
    ensures
        views(final(acc)@) == match c {
            Some(x) => if views(old(acc)@).contains(x@) {
                views(old(acc)@)
            } else {
                views(old(acc)@).push(x@)
            },
            None => views(old(acc)@),
        },
{
    match c {
        Some(x) => {
            if !contains_view(acc, &x) {
                acc.push(x);
                assert(views(final(acc)@) =~= views(old(acc)@).push(x@));
            }
        },
        None => {},
    }
}

proof fn lemma_push_new_step(acc: Seq<Seq<char>>, cands: Seq<Option<Seq<char>>>, k: int)
    requires
        0 <= k < cands.len(),
    ensures
        push_new(acc, cands.take(k + 1)) == match cands[k] {
            Some(c) => if push_new(acc, cands.take(k)).contains(c) {
                push_new(acc, cands.take(k))
            } else {
                push_new(acc, cands.take(k)).push(c)
            },
            None => push_new(acc, cands.take(k)),
        },
{
    assert(cands.take(k + 1).drop_last() =~= cands.take(k));
    assert(cands.take(k + 1).last() == cands[k]);
}

/// The candidate address on one line of `ip -4 -o addr show`, kept when plausible.
fn ip_addr_line_candidate(line: &str) -> (c: Option<String>)
    ensures
        match c {
            Some(x) => plausible_only(ip_addr_line_ip(line@)) == Some(x@),
            None => plausible_only(ip_addr_line_ip(line@)) is None,
        },
{
    let lc = to_chars(line);
    let ws = word_ranges(&lc);
    if ws.len() <= 3 {
        return None;
    }
    let (wa, wb) = ws[3];
    proof {
        assert(words(lc@)[3] == lc@.subrange(wa as int, wb as int));
    }
    let word = line.substring_char(wa, wb);
    let wc = to_chars(word);
    let pieces = split_char_ranges(&wc, '/');
    proof {
        crate::text::lemma_split_on_len(wc@, '/');
    }
    let (pa, pb) = pieces[0];
    proof {
        assert(split_on(wc@, '/')[0] == wc@.subrange(pa as int, pb as int));
    }
    let (ta, tb) = trim_range(&wc, pa, pb);
    let cand = word.substring_char(ta, tb);
    if is_plausible_lan_ip(cand) {
        Some(String::from_str(cand))
    } else {
        None
    }
}

/// The candidate address on one line of `ipconfig`, kept when plausible.
fn ipconfig_line_candidate(line: &str) -> (c: Option<String>)
    ensures
        match c {
            Some(x) => plausible_only(ipconfig_line_ip(line@)) == Some(x@),
            None => plausible_only(ipconfig_line_ip(line@)) is None,
        },
{
    let lc = to_chars(line);
    let key = to_chars("IPv4");
    if !contains_chars(&lc, &key) {
        return None;
    }
    match rfind_pair_chars(&lc, ':', ' ') {
        None => None,
        Some(pos) => {
            proof {
                crate::text::lemma_rfind_pair_range(lc@, ':', ' ');
            }
            let n = lc.len();
            let (ta, tb) = trim_range(&lc, pos + 2, n);
            let cand = line.substring_char(ta, tb);
            let cc = to_chars(cand);
            if looks_like_ipv4_chars(&cc) && is_plausible_lan_ip(cand) {
                Some(String::from_str(cand))
            } else {
                None
            }
        },
    }
}

/// The plausible LAN addresses in the output of `ip -4 -o addr show`, each
/// once, in the order of their lines.
pub fn ips_from_ip_addr_output(out: &str) -> (ips: Vec<String>)
    ensures
        views(ips@) == ips_from_ip_addr(out@),
{
    let cs = to_chars(out);
    let lines = line_ranges(&cs);
    let ghost cands = lines_of(out@).map_values(|l: Seq<char>| plausible_only(ip_addr_line_ip(l)));
    let mut ips: Vec<String> = Vec::new();
    let mut k: usize = 0;
    proof {
        assert(cands.take(0) =~= Seq::<Option<Seq<char>>>::empty());
        assert(views(ips@) =~= Seq::<Seq<char>>::empty());
    }
    while k < lines.len()
        invariant
            k <= lines@.len(),
            cs@ == out@,
            crate::text::ranges_within(cs@.len(), lines@),
            range_pieces(cs@, lines@) == lines_of(cs@),
            cands == lines_of(out@).map_values(|l: Seq<char>| plausible_only(ip_addr_line_ip(l))),
            views(ips@) == push_new(seq![], cands.take(k as int)),
        decreases lines@.len() - k,
    {
        let (a, b) = lines[k];
        let line = out.substring_char(a, b);
        proof {
            assert(lines_of(out@)[k as int] == line@);
            lemma_push_new_step(seq![], cands, k as int);
        }
        let c = ip_addr_line_candidate(line);
        push_candidate(&mut ips, c);
        k = k + 1;
    }
    proof {
        assert(cands.take(k as int) =~= cands);
    }
    ips
}

/// The plausible LAN addresses in the output of `ipconfig`, each once, in
/// the order of their lines.
pub fn ips_from_ipconfig_output(out: &str) -> (ips: Vec<String>)
    ensures
        views(ips@) == ips_from_ipconfig(out@),
{
    let cs = to_chars(out);
    let lines = line_ranges(&cs);
    let ghost cands = lines_of(out@).map_values(|l: Seq<char>| plausible_only(ipconfig_line_ip(l)));
    let mut ips: Vec<String> = Vec::new();
    let mut k: usize = 0;
    proof {
        assert(cands.take(0) =~= Seq::<Option<Seq<char>>>::empty());
        assert(views(ips@) =~= Seq::<Seq<char>>::empty());
    }
    while k < lines.len()
        invariant
            k <= lines@.len(),
            cs@ == out@,
            crate::text::ranges_within(cs@.len(), lines@),
            range_pieces(cs@, lines@) == lines_of(cs@),
            cands == lines_of(out@).map_values(|l: Seq<char>| plausible_only(ipconfig_line_ip(l))),
            views(ips@) == push_new(seq![], cands.take(k as int)),
        decreases lines@.len() - k,
    {
        let (a, b) = lines[k];
        let line = out.substring_char(a, b);
        proof {
            assert(lines_of(out@)[k as int] == line@);
            lemma_push_new_step(seq![], cands, k as int);
        }
        let c = ipconfig_line_candidate(line);
        push_candidate(&mut ips, c);
        k = k + 1;
    }
    proof {
        assert(cands.take(k as int) =~= cands);
    }
    ips
}


/// The position of the first word of `f` equal to `x`.
pub open spec fn first_index_of(f: Seq<Seq<char>>, x: Seq<char>) -> Option<int>
    decreases f.len(),
{
    if f.len() == 0 {
        None
    } else {
        match first_index_of(f.drop_last(), x) {
            Some(i) => Some(i),
            None => if f.last() == x {
                Some(f.len() - 1)
            } else {
                None
            },
        }
    }
}

proof fn lemma_first_index_stable(f: Seq<Seq<char>>, x: Seq<char>, k: int)
    requires
        0 <= k <= f.len(),
        first_index_of(f.take(k), x) is Some,
    ensures
        first_index_of(f, x) == first_index_of(f.take(k), x),
    decreases f.len(),
{
    if k < f.len() {
        assert(f.drop_last().take(k) =~= f.take(k));
        lemma_first_index_stable(f.drop_last(), x, k);
    } else {
        assert(f.take(k) =~= f);
    }
}

/// The directed broadcast address on a line of `ip -4 -o addr show`: the
/// word after the first "brd", with the discovery port.
pub open spec fn brd_line_addr(line: Seq<char>) -> Option<Seq<char>> {
    let f = words(line);
    match first_index_of(f, "brd"@) {
        Some(k) => if k + 1 < f.len() {
            Some(f[k + 1] + ":8879"@)
        } else {
            None
        },
        None => None,
    }
}

/// The guessed broadcast address of a local address, with the discovery port.
pub open spec fn guess_addr(ip: Seq<char>) -> Option<Seq<char>> {
    match spec_guess_broadcast(ip) {
        Some(b) => Some(b + ":8879"@),
        None => None,
    }
}

/// Where discovery probes go: the limited broadcast address, then each
/// subnet's broadcast address that `ip -4 -o addr show` reports, then the
/// guessed /24 broadcast address of each local address; each once, all
/// on the discovery port.
pub open spec fn spec_broadcast_addrs(ip_output: Option<Seq<char>>, local_ips: Seq<Seq<char>>) -> Seq<Seq<char>> {
    let a0 = seq!["255.255.255.255:8879"@];
    let a1 = match ip_output {
        Some(o) => push_new(a0, lines_of(o).map_values(|l: Seq<char>| brd_line_addr(l))),
        None => a0,
    };
    push_new(a1, local_ips.map_values(|ip: Seq<char>| guess_addr(ip)))
}

fn range_equals(cs: &Vec<char>, a: usize, b: usize, p: &Vec<char>) -> (r: bool)
    requires
        a <= b <= cs@.len(),
    ensures
        r == (cs@.subrange(a as int, b as int) == p@),
{
    if b - a != p.len() {
        return false;
    }
    let mut i: usize = 0;
    while i < p.len()
        invariant
            a <= b <= cs@.len(),
            b - a == p@.len(),
            i <= p@.len(),
            forall|j: int| 0 <= j < i ==> cs@[a + j] == p@[j],
        decreases p@.len() - i,
    {
        if cs[a + i] != p[i] {
            assert(cs@.subrange(a as int, b as int)[i as int] != p@[i as int]);
            return false;
        }
        i = i + 1;
    }
    assert(cs@.subrange(a as int, b as int) =~= p@);
    true
}

fn brd_line_candidate(line: &str) -> (c: Option<String>)
    ensures
        match c {
            Some(x) => brd_line_addr(line@) == Some(x@),
            None => brd_line_addr(line@) is None,
        },
{
    let lc = to_chars(line);
    let ws = word_ranges(&lc);
    let brd = to_chars("brd");
    let ghost f = words(lc@);
    let mut k: usize = 0;
    proof {
        assert(f.take(0) =~= Seq::<Seq<char>>::empty());
    }
    while k < ws.len()
        invariant
            k <= ws@.len(),
            lc@ == line@,
            brd@ == "brd"@,
            f == words(lc@),
            crate::text::ranges_within(lc@.len(), ws@),
            range_pieces(lc@, ws@) == f,
            first_index_of(f.take(k as int), "brd"@) is None,
        decreases ws@.len() - k,
    {
        let (a, b) = ws[k];
        proof {
            assert(f[k as int] == lc@.subrange(a as int, b as int));
            assert(f.take(k + 1).drop_last() =~= f.take(k as int));
            assert(f.take(k + 1).last() == f[k as int]);
        }
        if range_equals(&lc, a, b, &brd) {
            proof {
                lemma_first_index_stable(f, "brd"@, k + 1);
            }
            if k + 1 < ws.len() {
                let (na, nb) = ws[k + 1];
                proof {
                    assert(f[k + 1] == lc@.subrange(na as int, nb as int));
                }
                let addr = String::from_str(line.substring_char(na, nb)).concat(":8879");
                return Some(addr);
            } else {
                return None;
            }
        }
        k = k + 1;
    }
    proof {
        assert(f.take(k as int) =~= f);
    }
    None
}

/// Where to send discovery probes: "255.255.255.255:8879", then the
/// broadcast address of each subnet listed in the output of
/// `ip -4 -o addr show` (when it could be run), then the guessed /24
/// broadcast address of each of `local_ips`; each address once.
pub fn get_broadcast_addrs(ip_output: Option<&str>, local_ips: &[String]) -> (addrs: Vec<String>)
    ensures
        views(addrs@) == spec_broadcast_addrs(
            match ip_output {
                Some(o) => Some(o@),
                None => None,
            },
            views(local_ips@),
        ),
{
    let mut addrs: Vec<String> = Vec::new();
    addrs.push(String::from_str("255.255.255.255:8879"));
    let ghost a0 = seq!["255.255.255.255:8879"@];
    proof {
        assert(views(addrs@) =~= a0);
    }
    match ip_output {
        Some(out) => {
            let cs = to_chars(out);
            let lines = line_ranges(&cs);
            let ghost cands = lines_of(out@).map_values(|l: Seq<char>| brd_line_addr(l));
            let mut k: usize = 0;
            proof {
                assert(cands.take(0) =~= Seq::<Option<Seq<char>>>::empty());
            }
            while k < lines.len()
                invariant
                    k <= lines@.len(),
                    cs@ == out@,
                    a0 == seq!["255.255.255.255:8879"@],
                    crate::text::ranges_within(cs@.len(), lines@),
                    range_pieces(cs@, lines@) == lines_of(cs@),
                    cands == lines_of(out@).map_values(|l: Seq<char>| brd_line_addr(l)),
                    views(addrs@) == push_new(a0, cands.take(k as int)),
                decreases lines@.len() - k,
            {
                let (a, b) = lines[k];
                let line = out.substring_char(a, b);
                proof {
                    assert(lines_of(out@)[k as int] == line@);
                    lemma_push_new_step(a0, cands, k as int);
                }
                let c = brd_line_candidate(line);
                push_candidate(&mut addrs, c);
                k = k + 1;
            }
            proof {
                assert(cands.take(k as int) =~= cands);
            }
        },
        None => {},
    }
    let ghost a1 = views(addrs@);
    let ghost gc = views(local_ips@).map_values(|ip: Seq<char>| guess_addr(ip));
    let mut j: usize = 0;
    proof {
        assert(gc.take(0) =~= Seq::<Option<Seq<char>>>::empty());
    }
    while j < local_ips.len()
        invariant
            j <= local_ips@.len(),
            gc == views(local_ips@).map_values(|ip: Seq<char>| guess_addr(ip)),
            views(addrs@) == push_new(a1, gc.take(j as int)),
        decreases local_ips@.len() - j,
    {
        proof {
            lemma_push_new_step(a1, gc, j as int);
            assert(views(local_ips@)[j as int] == local_ips@[j as int]@);
        }
        let c = match guess_broadcast(local_ips[j].as_str()) {
            Some(b) => Some(b.concat(":8879")),
            None => None,
        };
        push_candidate(&mut addrs, c);
        j = j + 1;
    }
    proof {
        assert(gc.take(j as int) =~= gc);
    }
    addrs
}

proof fn lemma_push_new_no_repeats(acc: Seq<Seq<char>>, cands: Seq<Option<Seq<char>>>)
    requires
        acc.no_duplicates(),
    ensures
        push_new(acc, cands).no_duplicates(),
    decreases cands.len(),
{
    if cands.len() > 0 {
        lemma_push_new_no_repeats(acc, cands.drop_last());
        let a = push_new(acc, cands.drop_last());
        if let Some(c) = cands.last() {
            if !a.contains(c) {
                assert forall|i: int, j: int| 0 <= i < j < a.push(c).len() implies a.push(c)[i] != a.push(
                    c,
                )[j] by {
                    if j == a.len() {
                        assert(a[i] != c);
                    }
                }
            }
        }
    }
}

proof fn lemma_push_new_all(acc: Seq<Seq<char>>, cands: Seq<Option<Seq<char>>>, p: spec_fn(Seq<char>) -> bool)
    requires
        forall|i: int| 0 <= i < acc.len() ==> p(#[trigger] acc[i]),
        forall|k: int| 0 <= k < cands.len() ==> (#[trigger] cands[k] matches Some(c) ==> p(c)),
    ensures
        forall|i: int| 0 <= i < push_new(acc, cands).len() ==> p(#[trigger] push_new(acc, cands)[i]),
    decreases cands.len(),
{
    if cands.len() > 0 {
        let init = cands.drop_last();
        assert forall|k: int| 0 <= k < init.len() implies (#[trigger] init[k] matches Some(c) ==> p(c)) by {
            assert(init[k] == cands[k]);
        }
        lemma_push_new_all(acc, init, p);
        let a = push_new(acc, init);
        assert(cands.last() == cands[cands.len() - 1]);
        if let Some(c) = cands.last() {
            if !a.contains(c) {
                assert forall|i: int| 0 <= i < a.push(c).len() implies p(#[trigger] a.push(c)[i]) by {
                    if i < a.len() {
                        assert(a.push(c)[i] == a[i]);
                    }
                }
            }
        }
    }
}

proof fn lemma_push_new_keeps(acc: Seq<Seq<char>>, cands: Seq<Option<Seq<char>>>)
    ensures
        push_new(acc, cands).len() >= acc.len(),
        forall|i: int| 0 <= i < acc.len() ==> #[trigger] push_new(acc, cands)[i] == acc[i],
        forall|k: int| 0 <= k < cands.len() ==> (#[trigger] cands[k] matches Some(c) ==> push_new(
            acc,
            cands,
        ).contains(c)),
    decreases cands.len(),
{
    if cands.len() > 0 {
        let init = cands.drop_last();
        lemma_push_new_keeps(acc, init);
        let a = push_new(acc, init);
        assert forall|k: int| 0 <= k < cands.len() implies (#[trigger] cands[k] matches Some(c)
            ==> push_new(acc, cands).contains(c)) by {
            if k < init.len() {
                assert(init[k] == cands[k]);
                if let Some(c) = cands[k] {
                    let j = choose|j: int| 0 <= j < a.len() && a[j] == c;
                    if let Some(d) = cands.last() {
                        if !a.contains(d) {
                            assert(a.push(d)[j] == c);
                        }
                    }
                }
            } else {
                if let Some(c) = cands.last() {
                    if !a.contains(c) {
                        assert(a.push(c)[a.len() as int] == c);
                    }
                }
            }
        }
    }
}

/// Discovery probes go first to the limited broadcast address, and to the
/// guessed subnet broadcast address of every local address that has one,
/// on the discovery port, whatever else is listed.
pub proof fn lemma_broadcast_targets(ip_output: Option<Seq<char>>, local_ips: Seq<Seq<char>>, k: int)
    requires
        0 <= k < local_ips.len(),
    ensures
        spec_broadcast_addrs(ip_output, local_ips)[0] == "255.255.255.255:8879"@,
        spec_guess_broadcast(local_ips[k]) matches Some(b) ==> spec_broadcast_addrs(
            ip_output,
            local_ips,
        ).contains(b + ":8879"@),
{
    let a0 = seq!["255.255.255.255:8879"@];
    let a1 = match ip_output {
        Some(o) => push_new(a0, lines_of(o).map_values(|l: Seq<char>| brd_line_addr(l))),
        None => a0,
    };
    match ip_output {
        Some(o) => {
            lemma_push_new_keeps(a0, lines_of(o).map_values(|l: Seq<char>| brd_line_addr(l)));
        },
        None => {},
    }
    let cands = local_ips.map_values(|ip: Seq<char>| guess_addr(ip));
    lemma_push_new_keeps(a1, cands);
    assert(cands[k] == guess_addr(local_ips[k]));
}

/// The addresses read from `ip -4 -o addr show` or from `ipconfig` are
/// plausible LAN addresses, each listed once; the broadcast targets are
/// each listed once too.
pub proof fn lemma_address_lists_clean(out: Seq<char>, ip_output: Option<Seq<char>>, local_ips: Seq<Seq<char>>)
    ensures
        ips_from_ip_addr(out).no_duplicates(),
        ips_from_ipconfig(out).no_duplicates(),
        forall|i: int|
            0 <= i < ips_from_ip_addr(out).len() ==> spec_is_plausible_lan_ip(
                #[trigger] ips_from_ip_addr(out)[i],
            ),
        forall|i: int|
            0 <= i < ips_from_ipconfig(out).len() ==> spec_is_plausible_lan_ip(
                #[trigger] ips_from_ipconfig(out)[i],
            ),
        spec_broadcast_addrs(ip_output, local_ips).no_duplicates(),
{
    let empty = Seq::<Seq<char>>::empty();
    let c1 = lines_of(out).map_values(|l: Seq<char>| plausible_only(ip_addr_line_ip(l)));
    let c2 = lines_of(out).map_values(|l: Seq<char>| plausible_only(ipconfig_line_ip(l)));
    lemma_push_new_no_repeats(empty, c1);
    lemma_push_new_no_repeats(empty, c2);
    let p = |s: Seq<char>| spec_is_plausible_lan_ip(s);
    assert forall|k: int| 0 <= k < c1.len() implies (#[trigger] c1[k] matches Some(c) ==> p(c)) by {}
    assert forall|k: int| 0 <= k < c2.len() implies (#[trigger] c2[k] matches Some(c) ==> p(c)) by {}
    lemma_push_new_all(empty, c1, p);
    lemma_push_new_all(empty, c2, p);
    let a0 = seq!["255.255.255.255:8879"@];
    let a1 = match ip_output {
        Some(o) => push_new(a0, lines_of(o).map_values(|l: Seq<char>| brd_line_addr(l))),
        None => a0,
    };
    if let Some(o) = ip_output {
        lemma_push_new_no_repeats(a0, lines_of(o).map_values(|l: Seq<char>| brd_line_addr(l)));
    }
    lemma_push_new_no_repeats(a1, local_ips.map_values(|ip: Seq<char>| guess_addr(ip)));
}
} // verus!

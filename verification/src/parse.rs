use vstd::prelude::*;
use crate::error::Error;
use crate::topology::Role;

verus! {

/// The characters that a run of ASCII bytes stands for.
pub open spec fn ascii_chars(s: Seq<u8>) -> Seq<char> {
    s.map(|i: int, b: u8| b as char)
}

/// A non-empty run of decimal digits.
pub open spec fn all_digits(t: Seq<u8>) -> bool {
    t.len() > 0 && forall|i: int| 0 <= i < t.len() ==> 48 <= #[trigger] t[i] <= 57
}

/// The number a run of decimal digits denotes.
pub open spec fn dec_val(t: Seq<u8>) -> int
    decreases t.len(),
{
    if t.len() == 0 {
        0
    } else {
        dec_val(t.drop_last()) * 10 + (t.last() - 48)
    }
}

/// A digit run denotes a non-negative number.
pub proof fn lemma_dec_val_nonneg(t: Seq<u8>)
    requires
        forall|i: int| 0 <= i < t.len() ==> 48 <= #[trigger] t[i] <= 57,
    ensures
        dec_val(t) >= 0,
    decreases t.len(),
{
    if t.len() > 0 {
        lemma_dec_val_nonneg(t.drop_last());
        assert(dec_val(t.drop_last()) * 10 >= 0) by (nonlinear_arith)
            requires dec_val(t.drop_last()) >= 0;
    }
}

/// A digit run denotes at least as much as any of its prefixes.
pub proof fn lemma_dec_val_take_le(t: Seq<u8>, k: int)
    requires
        forall|i: int| 0 <= i < t.len() ==> 48 <= #[trigger] t[i] <= 57,
        0 <= k <= t.len(),
    ensures
        dec_val(t.take(k)) <= dec_val(t),
    decreases t.len() - k,
{
    if k < t.len() {
        assert(t.take(k + 1).drop_last() =~= t.take(k));
        assert(t.take(k + 1).last() == t[k]);
        lemma_dec_val_nonneg(t.take(k));
        assert(dec_val(t.take(k)) * 10 >= dec_val(t.take(k))) by (nonlinear_arith)
            requires dec_val(t.take(k)) >= 0;
        lemma_dec_val_take_le(t, k + 1);
    } else {
        assert(t.take(k) =~= t);
    }
}

/// The views of a table of byte vectors.
pub open spec fn views_of(parts: Seq<Vec<u8>>) -> Seq<Seq<u8>> {
    parts.map(|i: int, v: Vec<u8>| v@)
}

/// The byte run that a list of parts stands for, with `sep` between
/// adjacent parts.
pub open spec fn join_sep(parts: Seq<Seq<u8>>, sep: u8) -> Seq<u8>
    decreases parts.len(),
{
    if parts.len() == 0 {
        Seq::empty()
    } else if parts.len() == 1 {
        parts[0]
    } else {
        join_sep(parts.drop_last(), sep).push(sep) + parts.last()
    }
}

/// Splits a byte run on a separator byte: the parts contain no separator,
/// and joining them with the separator gives back exactly the input, which
/// pins the split completely.
pub fn split_byte(s: &Vec<u8>, sep: u8) -> (r: Vec<Vec<u8>>)
    ensures
        r@.len() >= 1,
        forall|i: int| 0 <= i < r@.len() ==> !(#[trigger] r@[i])@.contains(sep),
        join_sep(views_of(r@), sep) == s@,
        views_of(r@) == split_spec(s@, sep),
{
    let mut parts: Vec<Vec<u8>> = Vec::new();
    let mut curp: Vec<u8> = Vec::new();
    let mut i: usize = 0;
    while i < s.len()
        invariant
            i <= s@.len(),
            forall|k: int| 0 <= k < parts@.len() ==> !(#[trigger] parts@[k])@.contains(sep),
            !curp@.contains(sep),
            join_sep(views_of(parts@).push(curp@), sep) == s@.take(i as int),
        decreases s@.len() - i,
    {
        let b = s[i];
        let ghost prev = views_of(parts@).push(curp@);
        if b == sep {
            parts.push(curp);
            curp = Vec::new();
            proof {
                let now = views_of(parts@).push(curp@);
                assert(now.drop_last() =~= prev);
                assert(now.last() =~= Seq::<u8>::empty());
                assert(join_sep(now, sep) =~= join_sep(prev, sep).push(sep));
                assert(s@.take(i + 1) =~= s@.take(i as int).push(b));
            }
        } else {
            let ghost precur = curp@;
            curp.push(b);
            proof {
                let now = views_of(parts@).push(curp@);
                if parts@.len() == 0 {
                    assert(join_sep(prev, sep) == precur);
                    assert(join_sep(now, sep) == curp@);
                } else {
                    assert(now.drop_last() =~= prev.drop_last());
                    assert(join_sep(now, sep) == join_sep(now.drop_last(), sep).push(sep)
                        + curp@);
                    assert(join_sep(prev, sep) == join_sep(prev.drop_last(), sep).push(sep)
                        + precur);
                    assert(join_sep(now, sep) =~= join_sep(prev, sep).push(b));
                }
                assert(s@.take(i + 1) =~= s@.take(i as int).push(b));
                assert(join_sep(now, sep) =~= s@.take(i + 1));
            }
        }
        i = i + 1;
    }
    let ghost prev = views_of(parts@).push(curp@);
    parts.push(curp);
    proof {
        assert(views_of(parts@) =~= prev);
        assert(s@.take(s@.len() as int) =~= s@);
        lemma_split_spec_props(s@, sep);
        assert forall|k: int|
            0 <= k < views_of(parts@).len() implies !(#[trigger] views_of(parts@)[k]).contains(
            sep,
        ) by {
            assert(views_of(parts@)[k] == parts@[k]@);
        }
        lemma_join_unique(views_of(parts@), split_spec(s@, sep), sep);
    }
    parts
}


/// The split of a byte run on a separator, defined from the front: the
/// bytes up to the first separator, then the split of what follows it.
pub open spec fn split_spec(s: Seq<u8>, sep: u8) -> Seq<Seq<u8>>
    decreases s.len(),
{
    if s.len() == 0 {
        seq![s]
    } else if s[0] == sep {
        seq![Seq::<u8>::empty()] + split_spec(s.skip(1), sep)
    } else {
        let rest = split_spec(s.skip(1), sep);
        seq![seq![s[0]] + rest[0]] + rest.skip(1)
    }
}

/// Joining a first part onto a joined tail puts one separator between them.
proof fn lemma_join_cons(x: Seq<u8>, rest: Seq<Seq<u8>>, sep: u8)
    requires
        rest.len() >= 1,
    ensures
        join_sep(seq![x] + rest, sep) == x + seq![sep] + join_sep(rest, sep),
    decreases rest.len(),
{
    let whole = seq![x] + rest;
    if rest.len() == 1 {
        assert(whole.drop_last() =~= seq![x]);
        assert(whole.last() == rest[0]);
        assert(join_sep(whole, sep) == join_sep(seq![x], sep).push(sep) + rest[0]);
        assert(join_sep(seq![x], sep) == x);
        assert(join_sep(rest, sep) == rest[0]);
        assert(x.push(sep) + rest[0] =~= x + seq![sep] + join_sep(rest, sep));
    } else {
        assert(whole.drop_last() =~= seq![x] + rest.drop_last());
        assert(whole.last() == rest.last());
        lemma_join_cons(x, rest.drop_last(), sep);
        assert(join_sep(whole, sep) == join_sep(seq![x] + rest.drop_last(), sep).push(sep)
            + rest.last());
        assert(join_sep(whole, sep) == (x + seq![sep] + join_sep(rest.drop_last(), sep)).push(
            sep,
        ) + rest.last());
        assert(join_sep(rest, sep) == join_sep(rest.drop_last(), sep).push(sep) + rest.last());
        assert((x + seq![sep] + join_sep(rest.drop_last(), sep)).push(sep) + rest.last() =~= x
            + seq![sep] + (join_sep(rest.drop_last(), sep).push(sep) + rest.last()));
    }
}

/// The front-defined split has at least one part, none holding the
/// separator, and joins back to the input.
pub proof fn lemma_split_spec_props(s: Seq<u8>, sep: u8)
    ensures
        split_spec(s, sep).len() >= 1,
        forall|i: int|
            0 <= i < split_spec(s, sep).len() ==> !(#[trigger] split_spec(s, sep)[i]).contains(
                sep,
            ),
        join_sep(split_spec(s, sep), sep) == s,
    decreases s.len(),
{
    let ps = split_spec(s, sep);
    if s.len() == 0 {
        assert(join_sep(ps, sep) == s);
        assert forall|i: int| 0 <= i < ps.len() implies !(#[trigger] ps[i]).contains(sep) by {
            assert(ps[i] =~= s);
        }
    } else if s[0] == sep {
        lemma_split_spec_props(s.skip(1), sep);
        let rest = split_spec(s.skip(1), sep);
        lemma_join_cons(Seq::<u8>::empty(), rest, sep);
        assert(join_sep(ps, sep) == Seq::<u8>::empty() + seq![sep] + join_sep(rest, sep));
        assert(Seq::<u8>::empty() + seq![sep] + s.skip(1) =~= s);
        assert forall|i: int| 0 <= i < ps.len() implies !(#[trigger] ps[i]).contains(sep) by {
            if i == 0 {
                assert(ps[0] =~= Seq::<u8>::empty());
            } else {
                assert(ps[i] == rest[i - 1]);
            }
        }
    } else {
        lemma_split_spec_props(s.skip(1), sep);
        let rest = split_spec(s.skip(1), sep);
        let head = seq![s[0]] + rest[0];
        if rest.len() == 1 {
            assert(ps =~= seq![head]);
            assert(join_sep(ps, sep) == head);
            assert(join_sep(rest, sep) == rest[0]);
            assert(head =~= seq![s[0]] + s.skip(1));
            assert(seq![s[0]] + s.skip(1) =~= s);
        } else {
            assert(rest =~= seq![rest[0]] + rest.skip(1));
            lemma_join_cons(rest[0], rest.skip(1), sep);
            lemma_join_cons(head, rest.skip(1), sep);
            assert(ps =~= seq![head] + rest.skip(1));
            assert(join_sep(ps, sep) == head + seq![sep] + join_sep(rest.skip(1), sep));
            assert(join_sep(rest, sep) == rest[0] + seq![sep] + join_sep(rest.skip(1), sep));
            assert(head + seq![sep] + join_sep(rest.skip(1), sep) =~= seq![s[0]] + (rest[0]
                + seq![sep] + join_sep(rest.skip(1), sep)));
            assert(seq![s[0]] + s.skip(1) =~= s);
        }
        assert forall|i: int| 0 <= i < ps.len() implies !(#[trigger] ps[i]).contains(sep) by {
            if i == 0 {
                assert(!rest[0].contains(sep));
                if head.contains(sep) {
                    let k = choose|k: int| 0 <= k < head.len() && head[k] == sep;
                    if k > 0 {
                        assert(rest[0][k - 1] == sep);
                    }
                }
            } else {
                assert(ps[i] == rest[i]);
            }
        }
    }
}

/// Two separator-free part lists with the same join are the same list.
pub proof fn lemma_join_unique(p1: Seq<Seq<u8>>, p2: Seq<Seq<u8>>, sep: u8)
    requires
        p1.len() >= 1,
        p2.len() >= 1,
        forall|i: int| 0 <= i < p1.len() ==> !(#[trigger] p1[i]).contains(sep),
        forall|i: int| 0 <= i < p2.len() ==> !(#[trigger] p2[i]).contains(sep),
        join_sep(p1, sep) == join_sep(p2, sep),
    ensures
        p1 == p2,
    decreases p1.len(),
{
    let j = join_sep(p1, sep);
    if p1.len() == 1 && p2.len() == 1 {
        assert(p1 =~= p2);
    } else if p1.len() == 1 {
        let q2 = join_sep(p2.drop_last(), sep).len();
        assert(j == join_sep(p2.drop_last(), sep).push(sep) + p2.last());
        assert(j[q2 as int] == sep);
        assert(0 <= q2 < j.len());
        assert(p1[0].contains(sep));
    } else if p2.len() == 1 {
        let q1 = join_sep(p1.drop_last(), sep).len();
        assert(j == join_sep(p1.drop_last(), sep).push(sep) + p1.last());
        assert(j[q1 as int] == sep);
        assert(p2[0].contains(sep));
    } else {
        let a1 = join_sep(p1.drop_last(), sep);
        let a2 = join_sep(p2.drop_last(), sep);
        let l1 = p1.last();
        let l2 = p2.last();
        assert(j == a1.push(sep) + l1);
        assert(j == a2.push(sep) + l2);
        assert(j[a1.len() as int] == sep);
        assert(j[a2.len() as int] == sep);
        if a1.len() < a2.len() {
            assert(l1[a2.len() - a1.len() - 1] == j[a2.len() as int]);
            assert(l1.contains(sep));
        }
        if a2.len() < a1.len() {
            assert(l2[a1.len() - a2.len() - 1] == j[a1.len() as int]);
            assert(l2.contains(sep));
        }
        assert(a1.len() == a2.len());
        assert(j.len() == a1.len() + 1 + l1.len());
        assert(j.len() == a2.len() + 1 + l2.len());
        assert forall|k: int| 0 <= k < l1.len() implies l1[k] == l2[k] by {
            assert((a1.push(sep) + l1)[a1.len() + 1 + k] == l1[k]);
            assert((a2.push(sep) + l2)[a2.len() + 1 + k] == l2[k]);
        }
        assert(l1 =~= l2);
        assert forall|k: int| 0 <= k < a1.len() implies a1[k] == a2[k] by {
            assert((a1.push(sep) + l1)[k] == a1[k]);
            assert((a2.push(sep) + l2)[k] == a2[k]);
        }
        assert(a1 =~= a2);
        assert forall|i: int|
            0 <= i < p1.drop_last().len() implies !(#[trigger] p1.drop_last()[i]).contains(
            sep,
        ) by {
            assert(p1.drop_last()[i] == p1[i]);
        }
        assert forall|i: int|
            0 <= i < p2.drop_last().len() implies !(#[trigger] p2.drop_last()[i]).contains(
            sep,
        ) by {
            assert(p2.drop_last()[i] == p2[i]);
        }
        lemma_join_unique(p1.drop_last(), p2.drop_last(), sep);
        assert(p1.drop_last().len() == p2.drop_last().len());
        assert(p1.len() == p2.len());
        assert forall|k: int| 0 <= k < p1.len() implies p1[k] == p2[k] by {
            if k < p1.len() - 1 {
                assert(p1.drop_last()[k] == p1[k]);
                assert(p2.drop_last()[k] == p2[k]);
                assert(p1.drop_last()[k] == p2.drop_last()[k]);
            } else {
                assert(p1[k] == l1 && p2[k] == l2);
            }
        }
        assert(p1 =~= p2);
    }
}

/// Whether two byte runs are the same.
pub fn bytes_eq(a: &Vec<u8>, b: &Vec<u8>) -> (r: bool)
    ensures
        r == (a@ == b@),
{
    if a.len() != b.len() {
        return false;
    }
    let mut i: usize = 0;
    while i < a.len()
        invariant
            a@.len() == b@.len(),
            i <= a@.len(),
            forall|k: int| 0 <= k < i ==> a@[k] == b@[k],
        decreases a@.len() - i,
    {
        if a[i] != b[i] {
            return false;
        }
        i = i + 1;
    }
    proof {
        assert(a@ =~= b@);
    }
    true
}

/// Whether `w` occurs in the comma-separated list `flags` as a whole entry.
pub open spec fn has_flag(flags: Seq<u8>, w: Seq<u8>) -> bool {
    exists|a: int|
        0 <= a && a + w.len() <= flags.len() && #[trigger] flags.subrange(a, a + w.len()) == w
            && (a == 0 || flags[a - 1] == 44) && (a + w.len() == flags.len() || flags[a + w.len()]
            == 44)
}

/// Scans a comma-separated flag list for the whole word `w`.
pub fn find_flag(flags: &Vec<u8>, w: &Vec<u8>) -> (r: bool)
    requires
        w@.len() >= 1,
    ensures
        r == has_flag(flags@, w@),
{
    if flags.len() < w.len() {
        proof {
            assert(!has_flag(flags@, w@));
        }
        return false;
    }
    let mut a: usize = 0;
    while a <= flags.len() - w.len()
        invariant
            w@.len() >= 1,
            w@.len() <= flags@.len(),
            a <= flags@.len(),
            forall|x: int|
                0 <= x < a && x + w@.len() <= flags@.len() ==> !(#[trigger] flags@.subrange(
                    x,
                    x + w@.len(),
                ) == w@ && (x == 0 || flags@[x - 1] == 44) && (x + w@.len() == flags@.len()
                    || flags@[x + w@.len()] == 44)),
        decreases flags@.len() - a,
    {
        let boundary_ok = (a == 0 || flags[a - 1] == 44u8) && (a + w.len() == flags.len()
            || flags[a + w.len()] == 44u8);
        if boundary_ok {
            let mut t: usize = 0;
            let mut matched = true;
            while t < w.len()
                invariant
                    a + w@.len() <= flags@.len(),
                    flags@.len() <= usize::MAX,
                    t <= w@.len(),
                    matched ==> forall|k: int| 0 <= k < t ==> flags@[a + k] == w@[k],
                    !matched ==> flags@.subrange(a as int, a + w@.len()) != w@,
                decreases w@.len() - t,
            {
                if flags[a + t] != w[t] {
                    proof {
                        assert(flags@.subrange(a as int, a + w@.len())[t as int] != w@[t as int]);
                    }
                    matched = false;
                }
                t = t + 1;
            }
            if matched {
                proof {
                    assert(flags@.subrange(a as int, a + w@.len()) =~= w@);
                }
                return true;
            }
        }
        a = a + 1;
    }
    proof {
        assert(!has_flag(flags@, w@));
    }
    false
}

/// Reads a non-empty run of decimal digits: the result is exactly the
/// number the digits denote; anything else, or a value beyond `u64`, is
/// refused.
pub fn parse_u64(t: &Vec<u8>) -> (r: Option<u64>)
    ensures
        match r {
            Some(v) => all_digits(t@) && dec_val(t@) == v,
            None => !all_digits(t@) || dec_val(t@) > u64::MAX,
        },
{
    if t.len() == 0 {
        return None;
    }
    let mut acc: u64 = 0;
    let mut i: usize = 0;
    while i < t.len()
        invariant
            t@.len() > 0,
            i <= t@.len(),
            forall|k: int| 0 <= k < i ==> 48 <= #[trigger] t@[k] <= 57,
            acc == dec_val(t@.take(i as int)),
        decreases t@.len() - i,
    {
        let b = t[i];
        if b < 48 || b > 57 {
            return None;
        }
        proof {
            assert(t@.take(i + 1).drop_last() =~= t@.take(i as int));
            assert(t@.take(i + 1).last() == t@[i as int]);
        }
        let next = match acc.checked_mul(10) {
            Some(m) => match m.checked_add((b - 48) as u64) {
                Some(v) => v,
                None => {
                    proof {
                        lemma_overflow_means_large(t@, i as int);
                    }
                    return None;
                },
            },
            None => {
                proof {
                    lemma_overflow_means_large(t@, i as int);
                }
                return None;
            },
        };
        acc = next;
        i = i + 1;
    }
    proof {
        assert(t@.take(t@.len() as int) =~= t@);
    }
    Some(acc)
}

/// If one more digit pushes the running value past `u64`, the whole run
/// denotes more than `u64` can hold.
proof fn lemma_overflow_means_large(t: Seq<u8>, i: int)
    requires
        0 <= i < t.len(),
        forall|k: int| 0 <= k <= i ==> 48 <= #[trigger] t[k] <= 57,
        dec_val(t.take(i)) * 10 + (t[i] - 48) > u64::MAX,
    ensures
        !all_digits(t) || dec_val(t) > u64::MAX,
{
    if all_digits(t) {
        assert(t.take(i + 1).drop_last() =~= t.take(i));
        assert(t.take(i + 1).last() == t[i]);
        assert(dec_val(t.take(i + 1)) > u64::MAX);
        lemma_dec_val_take_le(t, i + 1);
    }
}

/// Copies the bytes of `v` between `from` and `to`.
pub fn copy_range(v: &Vec<u8>, from: usize, to: usize) -> (r: Vec<u8>)
    requires
        from <= to <= v@.len(),
    ensures
        r@ == v@.subrange(from as int, to as int),
{
    let mut r: Vec<u8> = Vec::new();
    let mut i: usize = from;
    while i < to
        invariant
            from <= i <= to <= v@.len(),
            r@ == v@.subrange(from as int, i as int),
        decreases to - i,
    {
        r.push(v[i]);
        proof {
            assert(v@.subrange(from as int, i + 1) =~= v@.subrange(from as int, i as int).push(
                v@[i as int],
            ));
        }
        i = i + 1;
    }
    r
}

/// Whether every byte is ASCII.
pub fn is_ascii_bytes(v: &Vec<u8>) -> (r: bool)
    ensures
        r == forall|i: int| 0 <= i < v@.len() ==> #[trigger] v@[i] < 128,
{
    let mut i: usize = 0;
    while i < v.len()
        invariant
            i <= v@.len(),
            forall|k: int| 0 <= k < i ==> #[trigger] v@[k] < 128,
        decreases v@.len() - i,
    {
        if v[i] >= 128 {
            return false;
        }
        i = i + 1;
    }
    true
}

/// Relies on String::from_utf8: a run of ASCII bytes decodes to the string
/// of exactly those bytes' characters, in order.
#[verifier::external_body]
fn bytes_to_string(b: &Vec<u8>) -> (r: Option<String>)
    ensures
        (forall|i: int| 0 <= i < b@.len() ==> #[trigger] b@[i] < 128) ==> {
            &&& r is Some
            &&& r->0@ == ascii_chars(b@)
        },
{
    match String::from_utf8(b.clone()) {
        Ok(s) => Some(s),
        Err(_) => None,
    }
}

/// A token that is one decimal slot number.
pub open spec fn plain_covers(tok: Seq<u8>, s: u16) -> bool {
    all_digits(tok) && dec_val(tok) == s
}

/// A token of the form `begin-end`, two decimal runs around one dash.
pub open spec fn range_bounds(tok: Seq<u8>, b: u16, e: u16) -> bool {
    exists|m: int|
        0 < m < tok.len() && #[trigger] tok[m] == 45 && all_digits(tok.take(m)) && all_digits(
            tok.skip(m + 1),
        ) && dec_val(tok.take(m)) == b && dec_val(tok.skip(m + 1)) == e
}

/// A bracketed migration marker: a slot number, a dash-arrow-dash with the
/// arrow byte `dir`, and the peer's id, all between brackets.
pub open spec fn marker_parts(tok: Seq<u8>, s: u16, id: Seq<char>, dir: u8) -> bool {
    exists|m: int|
        {
            &&& 2 <= m
            &&& m + 3 <= tok.len() - 1
            &&& tok[0] == 91
            &&& tok[tok.len() - 1] == 93
            &&& #[trigger] tok[m] == 45
            &&& tok[m + 1] == dir
            &&& tok[m + 2] == 45
            &&& all_digits(tok.subrange(1, m))
            &&& dec_val(tok.subrange(1, m)) == s
            &&& id == ascii_chars(tok.subrange(m + 3, tok.len() - 1))
        }
}

/// Only one pair of bounds fits a range token.
pub proof fn lemma_range_unique(tok: Seq<u8>, b1: u16, e1: u16, b2: u16, e2: u16)
    requires
        range_bounds(tok, b1, e1),
        range_bounds(tok, b2, e2),
    ensures
        b1 == b2 && e1 == e2,
{
    let m1 = choose|m: int|
        0 < m < tok.len() && #[trigger] tok[m] == 45 && all_digits(tok.take(m)) && all_digits(
            tok.skip(m + 1),
        ) && dec_val(tok.take(m)) == b1 && dec_val(tok.skip(m + 1)) == e1;
    let m2 = choose|m: int|
        0 < m < tok.len() && #[trigger] tok[m] == 45 && all_digits(tok.take(m)) && all_digits(
            tok.skip(m + 1),
        ) && dec_val(tok.take(m)) == b2 && dec_val(tok.skip(m + 1)) == e2;
    if m1 < m2 {
        assert(tok.take(m2)[m1] == 45);
    } else if m2 < m1 {
        assert(tok.take(m1)[m2] == 45);
    }
    assert(m1 == m2);
}


/// Every byte of the run is ASCII.
pub open spec fn ascii_bytes(s: Seq<u8>) -> bool {
    forall|i: int| 0 <= i < s.len() ==> #[trigger] s[i] < 128
}

/// A structurally valid migration marker token: bracketed, a slot number
/// below the keyspace size, a dash-arrow-dash, an ASCII peer id.
pub open spec fn marker_wf(tok: Seq<u8>) -> bool {
    exists|m: int|
        {
            &&& 2 <= m
            &&& m + 3 <= tok.len() - 1
            &&& tok[0] == 91
            &&& tok[tok.len() - 1] == 93
            &&& #[trigger] tok[m] == 45
            &&& (tok[m + 1] == 62 || tok[m + 1] == 60)
            &&& tok[m + 2] == 45
            &&& all_digits(tok.subrange(1, m))
            &&& dec_val(tok.subrange(1, m)) < 16384
            &&& ascii_bytes(tok.subrange(m + 3, tok.len() - 1))
        }
}

/// A structurally valid range token: two digit runs around one dash, in
/// order, below the keyspace size.
pub open spec fn range_wf(tok: Seq<u8>) -> bool {
    exists|m: int|
        0 < m < tok.len() && #[trigger] tok[m] == 45 && all_digits(tok.take(m)) && all_digits(
            tok.skip(m + 1),
        ) && dec_val(tok.take(m)) <= dec_val(tok.skip(m + 1)) && dec_val(tok.skip(m + 1)) < 16384
}

/// A slot token the strict parser accepts: one slot number, a range, or a
/// migration marker.
pub open spec fn token_wf(tok: Seq<u8>) -> bool {
    ||| (all_digits(tok) && dec_val(tok) < 16384)
    ||| range_wf(tok)
    ||| marker_wf(tok)
}

/// A token opening with a bracket is neither a number nor a range.
proof fn lemma_bracket_not_number(tok: Seq<u8>)
    requires
        tok.len() > 0,
        tok[0] == 91,
    ensures
        !all_digits(tok),
        !range_wf(tok),
{
    if range_wf(tok) {
        let m = choose|m: int|
            0 < m < tok.len() && #[trigger] tok[m] == 45 && all_digits(tok.take(m)) && all_digits(
                tok.skip(m + 1),
            ) && dec_val(tok.take(m)) <= dec_val(tok.skip(m + 1)) && dec_val(tok.skip(m + 1))
                < 16384;
        assert(tok.take(m)[0] == tok[0]);
    }
}

/// One token of the slot list: a single slot, an inclusive range, or an
/// in-flight migration marker in either direction.
pub enum SlotToken {
    Single(u16),
    Range(u16, u16),
    Migrating(u16, String),
    Importing(u16, String),
}

/// Decodes one slot token, strictly: success exactly when the bytes form a
/// single slot number, an inclusive range, or a migration marker, and then
/// the returned form is exactly what the bytes denote, every slot number in
/// range.
#[verifier::rlimit(60)]
pub fn parse_slot_token(tok: &Vec<u8>) -> (r: Result<SlotToken, Error>)
    ensures
        r is Ok <==> token_wf(tok@),
        r is Err ==> r == Result::<SlotToken, Error>::Err(Error::BadReply),
        match r {
            Ok(st) => match st {
                SlotToken::Single(s) => plain_covers(tok@, s) && s < crate::topology::SLOT_COUNT,
                SlotToken::Range(b, e) => range_bounds(tok@, b, e) && b <= e
                    && e < crate::topology::SLOT_COUNT,
                SlotToken::Migrating(s, id) => marker_parts(tok@, s, id@, 62) && s
                    < crate::topology::SLOT_COUNT,
                SlotToken::Importing(s, id) => marker_parts(tok@, s, id@, 60) && s
                    < crate::topology::SLOT_COUNT,
            },
            Err(e) => e == Error::BadReply,
        },
{
    if tok.len() == 0 {
        proof {
            if marker_wf(tok@) {
                let m2 = choose|m2: int| #[trigger] tok@[m2] == 45 && 2 <= m2 && m2 + 3
                    <= tok@.len() - 1;
            }
            if range_wf(tok@) {
                let m2 = choose|m2: int| 0 < m2 < tok@.len() && #[trigger] tok@[m2] == 45;
            }
        }
        return Err(Error::BadReply);
    }
    if tok[0] == 91 {
        proof {
            lemma_bracket_not_number(tok@);
        }
        if tok.len() < 6 || tok[tok.len() - 1] != 93 {
            proof {
                assert(!marker_wf(tok@)) by {
                    if marker_wf(tok@) {
                        let m2 = choose|m2: int|
                            {
                                &&& 2 <= m2
                                &&& m2 + 3 <= tok@.len() - 1
                                &&& tok@[0] == 91
                                &&& tok@[tok@.len() - 1] == 93
                                &&& #[trigger] tok@[m2] == 45
                                &&& (tok@[m2 + 1] == 62 || tok@[m2 + 1] == 60)
                                &&& tok@[m2 + 2] == 45
                                &&& all_digits(tok@.subrange(1, m2))
                                &&& dec_val(tok@.subrange(1, m2)) < 16384
                                &&& ascii_bytes(tok@.subrange(m2 + 3, tok@.len() - 1))
                            };
                    }
                }
            }
            return Err(Error::BadReply);
        }
        let mut m: usize = 1;
        while m < tok.len() - 1 && 48 <= tok[m] && tok[m] <= 57
            invariant
                tok@.len() >= 6,
                1 <= m <= tok@.len() - 1,
                forall|k: int| 1 <= k < m ==> 48 <= #[trigger] tok@[k] <= 57,
            decreases tok@.len() - m,
        {
            m = m + 1;
        }
        let ghost stop_digit = 48 <= tok@[m as int] <= 57;
        proof {
            assert(m == tok@.len() - 1 || !stop_digit);
            assert forall|m2: int|
                2 <= m2 && m2 + 3 <= tok@.len() - 1 && #[trigger] tok@[m2] == 45 && all_digits(
                    tok@.subrange(1, m2),
                ) implies m2 == m by {
                if m2 < m {
                    assert(48 <= tok@[m2] <= 57);
                }
                if m2 > m {
                    assert(tok@.subrange(1, m2)[m - 1] == tok@[m as int]);
                    assert(48 <= tok@[m as int] <= 57);
                    assert(m < tok@.len() - 1);
                }
            }
        }
        if m < 2 || m > tok.len() - 4 || tok[m] != 45 || tok[m + 2] != 45 {
            proof {
                assert(!marker_wf(tok@)) by {
                    if marker_wf(tok@) {
                        let m2 = choose|m2: int|
                            {
                                &&& 2 <= m2
                                &&& m2 + 3 <= tok@.len() - 1
                                &&& tok@[0] == 91
                                &&& tok@[tok@.len() - 1] == 93
                                &&& #[trigger] tok@[m2] == 45
                                &&& (tok@[m2 + 1] == 62 || tok@[m2 + 1] == 60)
                                &&& tok@[m2 + 2] == 45
                                &&& all_digits(tok@.subrange(1, m2))
                                &&& dec_val(tok@.subrange(1, m2)) < 16384
                                &&& ascii_bytes(tok@.subrange(m2 + 3, tok@.len() - 1))
                            };
                        if m2 < m {
                            assert(48 <= tok@[m2] <= 57);
                        }
                        if m2 > m {
                            assert(tok@.subrange(1, m2)[m - 1] == tok@[m as int]);
                            assert(m < tok@.len() - 1);
                        }
                        assert(m2 == m);
                    }
                }
            }
            return Err(Error::BadReply);
        }
        let dirb = tok[m + 1];
        if dirb != 62 && dirb != 60 {
            proof {
                assert(!marker_wf(tok@)) by {
                    if marker_wf(tok@) {
                        let m2 = choose|m2: int|
                            {
                                &&& 2 <= m2
                                &&& m2 + 3 <= tok@.len() - 1
                                &&& tok@[0] == 91
                                &&& tok@[tok@.len() - 1] == 93
                                &&& #[trigger] tok@[m2] == 45
                                &&& (tok@[m2 + 1] == 62 || tok@[m2 + 1] == 60)
                                &&& tok@[m2 + 2] == 45
                                &&& all_digits(tok@.subrange(1, m2))
                                &&& dec_val(tok@.subrange(1, m2)) < 16384
                                &&& ascii_bytes(tok@.subrange(m2 + 3, tok@.len() - 1))
                            };
                        if m2 < m {
                            assert(48 <= tok@[m2] <= 57);
                        }
                        if m2 > m {
                            assert(tok@.subrange(1, m2)[m - 1] == tok@[m as int]);
                            assert(m < tok@.len() - 1);
                        }
                        assert(m2 == m);
                    }
                }
            }
            return Err(Error::BadReply);
        }
        let digits = copy_range(tok, 1, m);
        proof {
            assert(all_digits(digits@));
        }
        let sv_opt = parse_u64(&digits);
        let sv_ok = match &sv_opt {
            Some(v) => *v < 16384,
            None => false,
        };
        if !sv_ok {
            proof {
                lemma_dec_val_nonneg(digits@);
                assert(dec_val(tok@.subrange(1, m as int)) >= 16384);
                assert(!marker_wf(tok@)) by {
                    if marker_wf(tok@) {
                        let m2 = choose|m2: int|
                            {
                                &&& 2 <= m2
                                &&& m2 + 3 <= tok@.len() - 1
                                &&& tok@[0] == 91
                                &&& tok@[tok@.len() - 1] == 93
                                &&& #[trigger] tok@[m2] == 45
                                &&& (tok@[m2 + 1] == 62 || tok@[m2 + 1] == 60)
                                &&& tok@[m2 + 2] == 45
                                &&& all_digits(tok@.subrange(1, m2))
                                &&& dec_val(tok@.subrange(1, m2)) < 16384
                                &&& ascii_bytes(tok@.subrange(m2 + 3, tok@.len() - 1))
                            };
                        if m2 < m {
                            assert(48 <= tok@[m2] <= 57);
                        }
                        if m2 > m {
                            assert(tok@.subrange(1, m2)[m - 1] == tok@[m as int]);
                            assert(m < tok@.len() - 1);
                        }
                        assert(m2 == m);
                    }
                }
            }
            return Err(Error::BadReply);
        }
        let sv = match sv_opt {
            Some(v) => v,
            None => {
                return Err(Error::BadReply);
            },
        };
        let idb = copy_range(tok, m + 3, tok.len() - 1);
        if !is_ascii_bytes(&idb) {
            proof {
                assert(!marker_wf(tok@)) by {
                    if marker_wf(tok@) {
                        let m2 = choose|m2: int|
                            {
                                &&& 2 <= m2
                                &&& m2 + 3 <= tok@.len() - 1
                                &&& tok@[0] == 91
                                &&& tok@[tok@.len() - 1] == 93
                                &&& #[trigger] tok@[m2] == 45
                                &&& (tok@[m2 + 1] == 62 || tok@[m2 + 1] == 60)
                                &&& tok@[m2 + 2] == 45
                                &&& all_digits(tok@.subrange(1, m2))
                                &&& dec_val(tok@.subrange(1, m2)) < 16384
                                &&& ascii_bytes(tok@.subrange(m2 + 3, tok@.len() - 1))
                            };
                        if m2 < m {
                            assert(48 <= tok@[m2] <= 57);
                        }
                        if m2 > m {
                            assert(tok@.subrange(1, m2)[m - 1] == tok@[m as int]);
                            assert(m < tok@.len() - 1);
                        }
                        assert(m2 == m);
                        let k = choose|k: int| 0 <= k < idb@.len() && !(#[trigger] idb@[k] < 128);
                        assert(tok@.subrange(m2 + 3, tok@.len() - 1)[k] == idb@[k]);
                    }
                }
            }
            return Err(Error::BadReply);
        }
        let id = match bytes_to_string(&idb) {
            Some(s) => s,
            None => {
                return Err(Error::BadReply);
            },
        };
        proof {
            assert(tok@.subrange(1, m as int) == digits@);
            assert(tok@.subrange(m + 3, tok@.len() - 1) == idb@);
            assert(id@ == ascii_chars(tok@.subrange(m + 3, tok@.len() - 1)));
        }
        if dirb == 62 {
            proof {
                assert(marker_parts(tok@, sv as u16, id@, 62));
                assert(marker_wf(tok@));
            }
            return Ok(SlotToken::Migrating(sv as u16, id));
        } else {
            proof {
                assert(marker_parts(tok@, sv as u16, id@, 60));
                assert(marker_wf(tok@));
            }
            return Ok(SlotToken::Importing(sv as u16, id));
        }
    }
    proof {
        assert(!marker_wf(tok@)) by {
            if marker_wf(tok@) {
                let m2 = choose|m2: int| #[trigger] tok@[m2] == 45 && 2 <= m2 && tok@[0] == 91;
            }
        }
    }
    let mut m: usize = 0;
    while m < tok.len() && tok[m] != 45
        invariant
            m <= tok@.len(),
            forall|k: int| 0 <= k < m ==> #[trigger] tok@[k] != 45,
        decreases tok@.len() - m,
    {
        m = m + 1;
    }
    if m == tok.len() {
        proof {
            assert(!range_wf(tok@)) by {
                if range_wf(tok@) {
                    let m2 = choose|m2: int|
                        0 < m2 < tok@.len() && #[trigger] tok@[m2] == 45 && all_digits(
                            tok@.take(m2),
                        ) && all_digits(tok@.skip(m2 + 1)) && dec_val(tok@.take(m2)) <= dec_val(
                            tok@.skip(m2 + 1),
                        ) && dec_val(tok@.skip(m2 + 1)) < 16384;
                }
            }
        }
        let sv = match parse_u64(tok) {
            Some(v) => v,
            None => {
                proof {
                    if all_digits(tok@) {
                        lemma_dec_val_nonneg(tok@);
                    }
                }
                return Err(Error::BadReply);
            },
        };
        if sv >= 16384 {
            return Err(Error::BadReply);
        }
        return Ok(SlotToken::Single(sv as u16));
    }
    proof {
        assert(tok@[m as int] == 45);
        assert(!all_digits(tok@));
        assert forall|m2: int|
            0 < m2 < tok@.len() && #[trigger] tok@[m2] == 45 && all_digits(tok@.take(m2))
            implies m2 == m by {
            if m2 < m {
                assert(tok@[m2] != 45);
            }
            if m2 > m {
                assert(tok@.take(m2)[m as int] == tok@[m as int]);
            }
        }
    }
    if m == 0 {
        proof {
            assert(!range_wf(tok@)) by {
                if range_wf(tok@) {
                    let m2 = choose|m2: int|
                        0 < m2 < tok@.len() && #[trigger] tok@[m2] == 45 && all_digits(
                            tok@.take(m2),
                        ) && all_digits(tok@.skip(m2 + 1)) && dec_val(tok@.take(m2)) <= dec_val(
                            tok@.skip(m2 + 1),
                        ) && dec_val(tok@.skip(m2 + 1)) < 16384;
                    assert(m2 == m);
                }
            }
        }
        return Err(Error::BadReply);
    }
    let bd = copy_range(tok, 0, m);
    let ed = copy_range(tok, m + 1, tok.len());
    proof {
        assert(tok@.take(m as int) == bd@);
        assert(tok@.skip(m + 1) == ed@);
    }
    let bv_opt = parse_u64(&bd);
    let ev_opt = parse_u64(&ed);
    let ok_pair = match (&bv_opt, &ev_opt) {
        (Some(b), Some(e)) => *b <= *e && *e < 16384,
        _ => false,
    };
    if !ok_pair {
        proof {
            assert(!range_wf(tok@)) by {
                if range_wf(tok@) {
                    let m2 = choose|m2: int|
                        0 < m2 < tok@.len() && #[trigger] tok@[m2] == 45 && all_digits(
                            tok@.take(m2),
                        ) && all_digits(tok@.skip(m2 + 1)) && dec_val(tok@.take(m2)) <= dec_val(
                            tok@.skip(m2 + 1),
                        ) && dec_val(tok@.skip(m2 + 1)) < 16384;
                    assert(m2 == m);
                    lemma_dec_val_nonneg(bd@);
                    lemma_dec_val_nonneg(ed@);
                }
            }
        }
        return Err(Error::BadReply);
    }
    let bv = match bv_opt {
        Some(v) => v,
        None => {
            return Err(Error::BadReply);
        },
    };
    let ev = match ev_opt {
        Some(v) => v,
        None => {
            return Err(Error::BadReply);
        },
    };
    proof {
        assert(range_bounds(tok@, bv as u16, ev as u16));
        assert(range_wf(tok@));
    }
    Ok(SlotToken::Range(bv as u16, ev as u16))
}

/// The flag word that marks a replica.
pub open spec fn slave_word() -> Seq<u8> {
    seq![115u8, 108u8, 97u8, 118u8, 101u8]
}

/// The flag word that marks the queried node itself.
pub open spec fn myself_word() -> Seq<u8> {
    seq![109u8, 121u8, 115u8, 101u8, 108u8, 102u8]
}

/// The flag word that marks a failed node.
pub open spec fn fail_word() -> Seq<u8> {
    seq![102u8, 97u8, 105u8, 108u8]
}

/// The link-state word for a reachable node.
pub open spec fn connected_word() -> Seq<u8> {
    seq![99u8, 111u8, 110u8, 110u8, 101u8, 99u8, 116u8, 101u8, 100u8]
}

/// Whether the marker list holds slot `s` with peer id `id`.
pub open spec fn has_pair(pairs: Seq<(u16, String)>, s: u16, id: Seq<char>) -> bool {
    exists|k: int| 0 <= k < pairs.len() && (#[trigger] pairs[k]).0 == s && pairs[k].1@ == id
}

/// Whether a token covers slot `s`, as a single number or a range.
pub open spec fn token_covers(tok: Seq<u8>, s: u16) -> bool {
    plain_covers(tok, s) || exists|b: u16, e: u16|
        #[trigger] range_bounds(tok, b, e) && b <= s <= e
}

/// Whether some slot token of the line covers slot `s`.
pub open spec fn slot_listed(fs: Seq<Seq<u8>>, s: u16, upto: int) -> bool {
    exists|k: int| 8 <= k < upto && token_covers(#[trigger] fs[k], s)
}

/// Whether some token of the line is a marker for `s` and `id` in the
/// direction `dir`.
pub open spec fn marker_listed(fs: Seq<Seq<u8>>, s: u16, id: Seq<char>, dir: u8, upto: int) -> bool {
    exists|k: int| 8 <= k < upto && marker_parts(#[trigger] fs[k], s, id, dir)
}

/// Appending to a slot list adds exactly the new slot.
pub proof fn lemma_push_contains_u16(s: Seq<u16>, v: u16, x: u16)
    ensures
        s.push(v).contains(x) <==> (s.contains(x) || x == v),
{
    if s.push(v).contains(x) {
        let k = choose|k: int| 0 <= k < s.push(v).len() && s.push(v)[k] == x;
        if k < s.len() {
            assert(s[k] == x);
        }
    }
    if s.contains(x) {
        let k = choose|k: int| 0 <= k < s.len() && s[k] == x;
        assert(s.push(v)[k] == x);
    }
    assert(s.push(v)[s.len() as int] == v);
}

/// Appending to a marker list adds exactly the new pair.
pub proof fn lemma_push_has_pair(ps: Seq<(u16, String)>, pr: (u16, String), s: u16, id: Seq<char>)
    ensures
        has_pair(ps.push(pr), s, id) <==> (has_pair(ps, s, id) || (pr.0 == s && pr.1@ == id)),
{
    if has_pair(ps.push(pr), s, id) {
        let k = choose|k: int|
            0 <= k < ps.push(pr).len() && (#[trigger] ps.push(pr)[k]).0 == s && ps.push(pr)[k].1@
                == id;
        if k < ps.len() {
            assert(ps[k].0 == s && ps[k].1@ == id);
        }
    }
    if has_pair(ps, s, id) {
        let k = choose|k: int|
            0 <= k < ps.len() && (#[trigger] ps[k]).0 == s && ps[k].1@ == id;
        assert(ps.push(pr)[k].0 == s && ps.push(pr)[k].1@ == id);
    }
    assert(ps.push(pr)[ps.len() as int] == pr);
}

/// A token of digits only is no range and no marker.
pub proof fn lemma_digit_token_only_plain(tok: Seq<u8>)
    requires
        all_digits(tok),
    ensures
        forall|b: u16, e: u16| !range_bounds(tok, b, e),
        forall|s: u16, id: Seq<char>, dir: u8| !marker_parts(tok, s, id, dir),
{
    assert forall|b: u16, e: u16| !range_bounds(tok, b, e) by {
        if range_bounds(tok, b, e) {
            let m = choose|m: int|
                0 < m < tok.len() && #[trigger] tok[m] == 45 && all_digits(tok.take(m))
                    && all_digits(tok.skip(m + 1)) && dec_val(tok.take(m)) == b && dec_val(
                    tok.skip(m + 1),
                ) == e;
            assert(48 <= tok[m] <= 57);
        }
    }
    assert forall|s: u16, id: Seq<char>, dir: u8| !marker_parts(tok, s, id, dir) by {
        if marker_parts(tok, s, id, dir) {
            assert(48 <= tok[0] <= 57);
        }
    }
}

/// A range token is no single number and no marker.
pub proof fn lemma_range_token_only_range(tok: Seq<u8>, b: u16, e: u16)
    requires
        range_bounds(tok, b, e),
    ensures
        !plain_covers(tok, e) && !all_digits(tok),
        forall|s: u16, id: Seq<char>, dir: u8| !marker_parts(tok, s, id, dir),
{
    let m = choose|m: int|
        0 < m < tok.len() && #[trigger] tok[m] == 45 && all_digits(tok.take(m)) && all_digits(
            tok.skip(m + 1),
        ) && dec_val(tok.take(m)) == b && dec_val(tok.skip(m + 1)) == e;
    assert(tok[m] == 45);
    assert(!all_digits(tok));
    assert forall|s: u16, id: Seq<char>, dir: u8| !marker_parts(tok, s, id, dir) by {
        if marker_parts(tok, s, id, dir) {
            assert(tok[0] == 91);
            assert(tok.take(m)[0] == 91);
        }
    }
}

/// A marker token names one slot, one peer and one direction, and covers no
/// slot as a number or range.
pub proof fn lemma_marker_token(tok: Seq<u8>, s1: u16, id1: Seq<char>, d1: u8)
    requires
        marker_parts(tok, s1, id1, d1),
    ensures
        forall|s: u16, id: Seq<char>, dir: u8|
            marker_parts(tok, s, id, dir) ==> s == s1 && id == id1 && dir == d1,
        forall|s: u16| !token_covers(tok, s),
{
    let m1 = choose|m: int|
        {
            &&& 2 <= m
            &&& m + 3 <= tok.len() - 1
            &&& tok[0] == 91
            &&& tok[tok.len() - 1] == 93
            &&& #[trigger] tok[m] == 45
            &&& tok[m + 1] == d1
            &&& tok[m + 2] == 45
            &&& all_digits(tok.subrange(1, m))
            &&& dec_val(tok.subrange(1, m)) == s1
            &&& id1 == ascii_chars(tok.subrange(m + 3, tok.len() - 1))
        };
    assert forall|s: u16, id: Seq<char>, dir: u8|
        marker_parts(tok, s, id, dir) implies s == s1 && id == id1 && dir == d1 by {
        let m2 = choose|m: int|
            {
                &&& 2 <= m
                &&& m + 3 <= tok.len() - 1
                &&& tok[0] == 91
                &&& tok[tok.len() - 1] == 93
                &&& #[trigger] tok[m] == 45
                &&& tok[m + 1] == dir
                &&& tok[m + 2] == 45
                &&& all_digits(tok.subrange(1, m))
                &&& dec_val(tok.subrange(1, m)) == s
                &&& id == ascii_chars(tok.subrange(m + 3, tok.len() - 1))
            };
        if m1 < m2 {
            assert(tok.subrange(1, m2)[m1 - 1] == tok[m1]);
            assert(48 <= tok[m1] <= 57);
        } else if m2 < m1 {
            assert(tok.subrange(1, m1)[m2 - 1] == tok[m2]);
            assert(48 <= tok[m2] <= 57);
        }
        assert(m1 == m2);
    }
    assert forall|s: u16| !token_covers(tok, s) by {
        assert(!(48 <= tok[0] <= 57));
        if plain_covers(tok, s) {
            assert(48 <= tok[0] <= 57);
        }
        if exists|b: u16, e: u16| #[trigger] range_bounds(tok, b, e) && b <= s <= e {
            let (b, e): (u16, u16) = choose|b: u16, e: u16|
                #[trigger] range_bounds(tok, b, e) && b <= s <= e;
            let m = choose|m: int|
                0 < m < tok.len() && #[trigger] tok[m] == 45 && all_digits(tok.take(m))
                    && all_digits(tok.skip(m + 1)) && dec_val(tok.take(m)) == b && dec_val(
                    tok.skip(m + 1),
                ) == e;
            assert(tok.take(m)[0] == tok[0]);
        }
    }
}


/// The split of the address field on the colon.
pub open spec fn addr_ip(f: Seq<u8>) -> Seq<u8> {
    split_spec(f, 58)[0]
}

/// The port part of the address field: between the first colon and the
/// cluster-bus marker.
pub open spec fn addr_port(f: Seq<u8>) -> Seq<u8> {
    split_spec(split_spec(f, 58)[1], 64)[0]
}

/// A decodable address field: it has a colon, and host and port are ASCII.
pub open spec fn addr_wf(f: Seq<u8>) -> bool {
    &&& split_spec(f, 58).len() >= 2
    &&& ascii_bytes(addr_ip(f))
    &&& ascii_bytes(addr_port(f))
}

/// The exact relation between a decoded node and the space-split fields of
/// its peer-table line: the node's every field is what the line's fields
/// denote, and the line is well formed — at least eight fields, ASCII id,
/// a colon in the address, a decimal epoch, a replica carrying its master's
/// id and no slot tokens, and every slot token well formed.
pub open spec fn node_from_fields(n: crate::topology::Node, fs: Seq<Seq<u8>>) -> bool {
    &&& fs.len() >= 8
    &&& ascii_bytes(fs[0])
    &&& n.id@ == ascii_chars(fs[0])
    &&& (n.role is Replica <==> has_flag(fs[2], slave_word()))
    &&& (n.role is Replica ==> fs.len() == 8 && ascii_bytes(fs[3]) && n.master_id is Some
        && n.master_id->0@ == ascii_chars(fs[3]))
    &&& (n.role is Master ==> n.master_id is None)
    &&& n.myself == has_flag(fs[2], myself_word())
    &&& n.fail == has_flag(fs[2], fail_word())
    &&& all_digits(fs[6])
    &&& dec_val(fs[6]) == n.config_epoch
    &&& (n.link_connected <==> fs[7] == connected_word())
    &&& addr_wf(fs[1])
    &&& n.ip@ == ascii_chars(addr_ip(fs[1]))
    &&& n.port@ == ascii_chars(addr_port(fs[1]))
    &&& (forall|k: int| 8 <= k < fs.len() ==> token_wf(#[trigger] fs[k]))
    &&& (forall|s: u16| n.slots@.contains(s) <==> slot_listed(fs, s, fs.len() as int))
    &&& (forall|s: u16, id: Seq<char>|
        has_pair(n.migrating@, s, id) <==> marker_listed(fs, s, id, 62, fs.len() as int))
    &&& (forall|s: u16, id: Seq<char>|
        has_pair(n.importing@, s, id) <==> marker_listed(fs, s, id, 60, fs.len() as int))
    &&& n.wf()
}

/// Decodes one line of the peer table, already split into its
/// space-separated fields: id, address, flags, master reference, two
/// timestamps, config epoch, link state, and slot or marker tokens. The
/// returned node is well formed and its fields are exactly what the line's
/// fields denote; a line with fewer than eight fields, or any field that
/// does not decode, is refused.
#[verifier::rlimit(100)]
#[verifier::spinoff_prover]
pub fn parse_node_line(fields: &Vec<Vec<u8>>) -> (r: Result<crate::topology::Node, Error>)
    ensures
        r is Ok <==> exists|n: crate::topology::Node| node_from_fields(n, views_of(fields@)),
        r is Err ==> r == Result::<crate::topology::Node, Error>::Err(Error::BadReply),
        r is Ok ==> node_from_fields(r->Ok_0, views_of(fields@)),
{
    let ghost fs = views_of(fields@);
    if fields.len() < 8 {
        proof {
            assert(fs.len() == fields@.len());
            assert(!(exists|n: crate::topology::Node| node_from_fields(n, fs))) by {
                if exists|n: crate::topology::Node| node_from_fields(n, fs) {
                    let n = choose|n: crate::topology::Node| node_from_fields(n, fs);
                }
            }
        }
        return Err(Error::BadReply);
    }
    if !is_ascii_bytes(&fields[0]) {
        proof {
            assert(fs[0] == fields@[0]@);
            assert(!(exists|n: crate::topology::Node| node_from_fields(n, fs))) by {
                if exists|n: crate::topology::Node| node_from_fields(n, fs) {
                    let n = choose|n: crate::topology::Node| node_from_fields(n, fs);
                }
            }
        }
        return Err(Error::BadReply);
    }
    let id = match bytes_to_string(&fields[0]) {
        Some(s) => s,
        None => {
            proof {
                assert(false);
            }
            return Err(Error::BadReply);
        },
    };
    let slave_w: Vec<u8> = vec![115u8, 108u8, 97u8, 118u8, 101u8];
    let myself_w: Vec<u8> = vec![109u8, 121u8, 115u8, 101u8, 108u8, 102u8];
    let fail_w: Vec<u8> = vec![102u8, 97u8, 105u8, 108u8];
    proof {
        assert(slave_w@ =~= slave_word());
        assert(myself_w@ =~= myself_word());
        assert(fail_w@ =~= fail_word());
    }
    let is_slave = find_flag(&fields[2], &slave_w);
    let myself = find_flag(&fields[2], &myself_w);
    let fail = find_flag(&fields[2], &fail_w);
    let master_id = if is_slave {
        if !is_ascii_bytes(&fields[3]) {
            proof {
                assert(fs[2] == fields@[2]@);
                assert(fs[3] == fields@[3]@);
                assert(!(exists|n: crate::topology::Node| node_from_fields(n, fs))) by {
                    if exists|n: crate::topology::Node| node_from_fields(n, fs) {
                        let n = choose|n: crate::topology::Node| node_from_fields(n, fs);
                        assert(n.role is Replica);
                        assert(ascii_bytes(fs[3]));
                    }
                }
            }
            return Err(Error::BadReply);
        }
        match bytes_to_string(&fields[3]) {
            Some(s) => Some(s),
            None => {
                proof {
                    assert(false);
                }
                return Err(Error::BadReply);
            },
        }
    } else {
        None
    };
    let epoch = match parse_u64(&fields[6]) {
        Some(v) => v,
        None => {
            proof {
                assert(fs[6] == fields@[6]@);
                assert(!(exists|n: crate::topology::Node| node_from_fields(n, fs))) by {
                    if exists|n: crate::topology::Node| node_from_fields(n, fs) {
                        let n = choose|n: crate::topology::Node| node_from_fields(n, fs);
                        assert(all_digits(fs[6]) && dec_val(fs[6]) == n.config_epoch);
                        assert(dec_val(fs[6]) <= u64::MAX);
                    }
                }
            }
            return Err(Error::BadReply);
        },
    };
    let conn_w: Vec<u8> = vec![99u8, 111u8, 110u8, 110u8, 101u8, 99u8, 116u8, 101u8, 100u8];
    proof {
        assert(conn_w@ =~= connected_word());
    }
    let link_connected = bytes_eq(&fields[7], &conn_w);
    let addr_parts = split_byte(&fields[1], 58);
    proof {
        assert(fs[1] == fields@[1]@);
        assert(views_of(addr_parts@) == split_spec(fs[1], 58));
        assert(addr_parts@[0]@ == views_of(addr_parts@)[0]);
    }
    if addr_parts.len() < 2 {
        proof {
            assert(!(exists|n: crate::topology::Node| node_from_fields(n, fs))) by {
                if exists|n: crate::topology::Node| node_from_fields(n, fs) {
                    let n = choose|n: crate::topology::Node| node_from_fields(n, fs);
                    assert(addr_wf(fs[1]));
                }
            }
        }
        return Err(Error::BadReply);
    }
    if !is_ascii_bytes(&addr_parts[0]) {
        proof {
            assert(!(exists|n: crate::topology::Node| node_from_fields(n, fs))) by {
                if exists|n: crate::topology::Node| node_from_fields(n, fs) {
                    let n = choose|n: crate::topology::Node| node_from_fields(n, fs);
                    assert(addr_wf(fs[1]));
                    assert(ascii_bytes(addr_ip(fs[1])));
                }
            }
        }
        return Err(Error::BadReply);
    }
    let ip = match bytes_to_string(&addr_parts[0]) {
        Some(s) => s,
        None => {
            proof {
                assert(false);
            }
            return Err(Error::BadReply);
        },
    };
    let pp = split_byte(&addr_parts[1], 64);
    proof {
        assert(addr_parts@[1]@ == views_of(addr_parts@)[1]);
        assert(views_of(pp@) == split_spec(addr_parts@[1]@, 64));
        assert(pp@[0]@ == views_of(pp@)[0]);
        assert(pp@[0]@ == addr_port(fs[1]));
    }
    if !is_ascii_bytes(&pp[0]) {
        proof {
            assert(!(exists|n: crate::topology::Node| node_from_fields(n, fs))) by {
                if exists|n: crate::topology::Node| node_from_fields(n, fs) {
                    let n = choose|n: crate::topology::Node| node_from_fields(n, fs);
                    assert(addr_wf(fs[1]));
                    assert(ascii_bytes(addr_port(fs[1])));
                }
            }
        }
        return Err(Error::BadReply);
    }
    let port = match bytes_to_string(&pp[0]) {
        Some(s) => s,
        None => {
            proof {
                assert(false);
            }
            return Err(Error::BadReply);
        },
    };
    if is_slave && fields.len() > 8 {
        proof {
            assert(fs[2] == fields@[2]@);
            assert(fs.len() == fields@.len());
            assert(!(exists|n: crate::topology::Node| node_from_fields(n, fs))) by {
                if exists|n: crate::topology::Node| node_from_fields(n, fs) {
                    let n = choose|n: crate::topology::Node| node_from_fields(n, fs);
                    assert(n.role is Replica);
                }
            }
        }
        return Err(Error::BadReply);
    }
    let mut slots: Vec<u16> = Vec::new();
    let mut migr: Vec<(u16, String)> = Vec::new();
    let mut impo: Vec<(u16, String)> = Vec::new();
    let mut k: usize = 8;
    while k < fields.len()
        invariant
            fs == views_of(fields@),
            fields@.len() >= 8,
            8 <= k <= fields@.len(),
            forall|s: u16| slots@.contains(s) <==> slot_listed(fs, s, k as int),
            forall|s: u16| slots@.contains(s) ==> s < crate::topology::SLOT_COUNT,
            forall|s: u16, id: Seq<char>|
                has_pair(migr@, s, id) <==> marker_listed(fs, s, id, 62, k as int),
            forall|s: u16, id: Seq<char>|
                has_pair(impo@, s, id) <==> marker_listed(fs, s, id, 60, k as int),
            forall|k2: int| 8 <= k2 < k ==> token_wf(#[trigger] fs[k2]),
        decreases fields@.len() - k,
    {
        let ghost tok = fs[k as int];
        proof {
            assert(fields@[k as int]@ == tok);
        }
        match parse_slot_token(&fields[k]) {
            Err(_) => {
                proof {
                    assert(!token_wf(fs[k as int]));
                    assert(!(exists|n: crate::topology::Node| node_from_fields(n, fs))) by {
                        if exists|n: crate::topology::Node| node_from_fields(n, fs) {
                            let n = choose|n: crate::topology::Node| node_from_fields(n, fs);
                            assert(token_wf(fs[k as int]));
                        }
                    }
                }
                return Err(Error::BadReply);
            },
            Ok(SlotToken::Single(v)) => {
                let ghost pre = slots@;
                slots.push(v);
                proof {
                    lemma_digit_token_only_plain(tok);
                    assert forall|s: u16| slots@.contains(s) implies s
                        < crate::topology::SLOT_COUNT by {
                        lemma_push_contains_u16(pre, v, s);
                    }
                    assert forall|s: u16| slots@.contains(s) <==> slot_listed(
                        fs,
                        s,
                        k + 1,
                    ) by {
                        lemma_push_contains_u16(pre, v, s);
                        assert(token_covers(tok, s) <==> s == v);
                        if slot_listed(fs, s, k as int) {
                            assert(slot_listed(fs, s, k + 1));
                        }
                        if slot_listed(fs, s, k + 1) && !token_covers(tok, s) {
                            let kk = choose|kk: int|
                                8 <= kk < k + 1 && token_covers(#[trigger] fs[kk], s);
                            assert(slot_listed(fs, s, k as int));
                        }
                    }
                    assert forall|s: u16, id: Seq<char>, dir: u8|
                        marker_listed(fs, s, id, dir, k + 1) == marker_listed(
                        fs,
                        s,
                        id,
                        dir,
                        k as int,
                    ) by {
                        if marker_listed(fs, s, id, dir, k + 1) {
                            let kk = choose|kk: int|
                                8 <= kk < k + 1 && marker_parts(#[trigger] fs[kk], s, id, dir);
                            assert(kk != k);
                        }
                        if marker_listed(fs, s, id, dir, k as int) {
                            let kk = choose|kk: int|
                                8 <= kk < k && marker_parts(#[trigger] fs[kk], s, id, dir);
                            assert(marker_listed(fs, s, id, dir, k + 1));
                        }
                    }
                }
            },
            Ok(SlotToken::Range(b, e)) => {
                let mut v: u16 = b;
                let ghost prerange = slots@;
                while v <= e
                    invariant
                        b <= v,
                        v <= e + 1,
                        e < crate::topology::SLOT_COUNT,
                        forall|s: u16|
                            slots@.contains(s) <==> (prerange.contains(s) || (b <= s < v)),
                        forall|s: u16|
                            slots@.contains(s) ==> s < crate::topology::SLOT_COUNT,
                    decreases e + 1 - v,
                {
                    let ghost pre = slots@;
                    slots.push(v);
                    proof {
                        assert forall|s: u16|
                            slots@.contains(s) <==> (prerange.contains(s) || (b <= s < v
                                + 1)) by {
                            lemma_push_contains_u16(pre, v, s);
                        }
                        assert forall|s: u16| slots@.contains(s) implies s
                            < crate::topology::SLOT_COUNT by {
                            lemma_push_contains_u16(pre, v, s);
                        }
                    }
                    v = v + 1;
                }
                proof {
                    lemma_range_token_only_range(tok, b, e);
                    assert forall|s: u16| slots@.contains(s) <==> slot_listed(
                        fs,
                        s,
                        k + 1,
                    ) by {
                        assert(token_covers(tok, s) <==> (b <= s <= e)) by {
                            if token_covers(tok, s) {
                                if plain_covers(tok, s) {
                                    assert(all_digits(tok));
                                }
                                if exists|b2: u16, e2: u16|
                                    #[trigger] range_bounds(tok, b2, e2) && b2 <= s <= e2 {
                                    let (b2, e2): (u16, u16) = choose|b2: u16, e2: u16|
                                        #[trigger] range_bounds(tok, b2, e2) && b2 <= s <= e2;
                                    lemma_range_unique(tok, b, e, b2, e2);
                                }
                            }
                        }
                        if slot_listed(fs, s, k as int) {
                            assert(slot_listed(fs, s, k + 1));
                        }
                        if slot_listed(fs, s, k + 1) && !token_covers(tok, s) {
                            let kk = choose|kk: int|
                                8 <= kk < k + 1 && token_covers(#[trigger] fs[kk], s);
                            assert(slot_listed(fs, s, k as int));
                        }
                    }
                    assert forall|s: u16, id: Seq<char>, dir: u8|
                        marker_listed(fs, s, id, dir, k + 1) == marker_listed(
                        fs,
                        s,
                        id,
                        dir,
                        k as int,
                    ) by {
                        if marker_listed(fs, s, id, dir, k + 1) {
                            let kk = choose|kk: int|
                                8 <= kk < k + 1 && marker_parts(#[trigger] fs[kk], s, id, dir);
                            assert(kk != k);
                        }
                        if marker_listed(fs, s, id, dir, k as int) {
                            let kk = choose|kk: int|
                                8 <= kk < k && marker_parts(#[trigger] fs[kk], s, id, dir);
                            assert(marker_listed(fs, s, id, dir, k + 1));
                        }
                    }
                }
            },
            Ok(SlotToken::Migrating(s0, id0)) => {
                let ghost pre = migr@;
                let ghost id0v = id0@;
                migr.push((s0, id0));
                proof {
                    lemma_marker_token(tok, s0, id0v, 62);
                    assert forall|s: u16, id: Seq<char>|
                        has_pair(migr@, s, id) <==> marker_listed(fs, s, id, 62, k + 1) by {
                        lemma_push_has_pair(pre, (s0, migr@[migr@.len() - 1].1), s, id);
                        assert(migr@[migr@.len() - 1].1@ == id0v);
                        if marker_listed(fs, s, id, 62, k as int) {
                            assert(marker_listed(fs, s, id, 62, k + 1));
                        }
                        if marker_listed(fs, s, id, 62, k + 1) && !(s == s0 && id == id0v) {
                            let kk = choose|kk: int|
                                8 <= kk < k + 1 && marker_parts(#[trigger] fs[kk], s, id, 62);
                            assert(kk != k);
                            assert(marker_listed(fs, s, id, 62, k as int));
                        }
                        if s == s0 && id == id0v {
                            assert(marker_parts(fs[k as int], s, id, 62));
                            assert(marker_listed(fs, s, id, 62, k + 1));
                        }
                    }
                    assert forall|s: u16, id: Seq<char>|
                        has_pair(impo@, s, id) <==> marker_listed(fs, s, id, 60, k + 1) by {
                        if marker_listed(fs, s, id, 60, k + 1) {
                            let kk = choose|kk: int|
                                8 <= kk < k + 1 && marker_parts(#[trigger] fs[kk], s, id, 60);
                            assert(kk != k);
                        }
                        if marker_listed(fs, s, id, 60, k as int) {
                            let kk = choose|kk: int|
                                8 <= kk < k && marker_parts(#[trigger] fs[kk], s, id, 60);
                            assert(marker_listed(fs, s, id, 60, k + 1));
                        }
                    }
                    assert forall|s: u16| slots@.contains(s) <==> slot_listed(
                        fs,
                        s,
                        k + 1,
                    ) by {
                        if slot_listed(fs, s, k as int) {
                            assert(slot_listed(fs, s, k + 1));
                        }
                        if slot_listed(fs, s, k + 1) {
                            let kk = choose|kk: int|
                                8 <= kk < k + 1 && token_covers(#[trigger] fs[kk], s);
                            assert(kk != k);
                            assert(slot_listed(fs, s, k as int));
                        }
                    }
                }
            },
            Ok(SlotToken::Importing(s0, id0)) => {
                let ghost pre = impo@;
                let ghost id0v = id0@;
                impo.push((s0, id0));
                proof {
                    lemma_marker_token(tok, s0, id0v, 60);
                    assert forall|s: u16, id: Seq<char>|
                        has_pair(impo@, s, id) <==> marker_listed(fs, s, id, 60, k + 1) by {
                        lemma_push_has_pair(pre, (s0, impo@[impo@.len() - 1].1), s, id);
                        assert(impo@[impo@.len() - 1].1@ == id0v);
                        if marker_listed(fs, s, id, 60, k as int) {
                            assert(marker_listed(fs, s, id, 60, k + 1));
                        }
                        if marker_listed(fs, s, id, 60, k + 1) && !(s == s0 && id == id0v) {
                            let kk = choose|kk: int|
                                8 <= kk < k + 1 && marker_parts(#[trigger] fs[kk], s, id, 60);
                            assert(kk != k);
                            assert(marker_listed(fs, s, id, 60, k as int));
                        }
                        if s == s0 && id == id0v {
                            assert(marker_parts(fs[k as int], s, id, 60));
                            assert(marker_listed(fs, s, id, 60, k + 1));
                        }
                    }
                    assert forall|s: u16, id: Seq<char>|
                        has_pair(migr@, s, id) <==> marker_listed(fs, s, id, 62, k + 1) by {
                        if marker_listed(fs, s, id, 62, k + 1) {
                            let kk = choose|kk: int|
                                8 <= kk < k + 1 && marker_parts(#[trigger] fs[kk], s, id, 62);
                            assert(kk != k);
                        }
                        if marker_listed(fs, s, id, 62, k as int) {
                            let kk = choose|kk: int|
                                8 <= kk < k && marker_parts(#[trigger] fs[kk], s, id, 62);
                            assert(marker_listed(fs, s, id, 62, k + 1));
                        }
                    }
                    assert forall|s: u16| slots@.contains(s) <==> slot_listed(
                        fs,
                        s,
                        k + 1,
                    ) by {
                        if slot_listed(fs, s, k as int) {
                            assert(slot_listed(fs, s, k + 1));
                        }
                        if slot_listed(fs, s, k + 1) {
                            let kk = choose|kk: int|
                                8 <= kk < k + 1 && token_covers(#[trigger] fs[kk], s);
                            assert(kk != k);
                            assert(slot_listed(fs, s, k as int));
                        }
                    }
                }
            },
        }
        k = k + 1;
    }
    let role = if is_slave {
        crate::topology::Role::Replica
    } else {
        crate::topology::Role::Master
    };
    let n = crate::topology::Node {
        id,
        ip,
        port,
        role,
        master_id,
        slots,
        config_epoch: epoch,
        link_connected,
        fail,
        myself,
        migrating: migr,
        importing: impo,
    };
    proof {
        if n.role is Replica {
            if slots@.len() > 0 {
                assert(slots@.contains(slots@[0]));
            }
        }
        assert forall|i: int| 0 <= i < slots@.len() implies #[trigger] slots@[i]
            < crate::topology::SLOT_COUNT by {
            assert(slots@.contains(slots@[i]));
        }
        assert(n.wf());
        assert(fs.len() == fields@.len());
        assert(fs[0] == fields@[0]@);
        assert(fs[1] == fields@[1]@);
        assert(fs[2] == fields@[2]@);
        assert(fs[6] == fields@[6]@);
        assert(fs[7] == fields@[7]@);
        if is_slave {
            assert(fs[3] == fields@[3]@);
        }
        assert(node_from_fields(n, fs));
        assert(exists|m: crate::topology::Node| node_from_fields(m, fs));
    }
    Ok(n)
}

/// One trailing carriage return before the line feed is ignored.
pub open spec fn trim_cr(line: Seq<u8>) -> Seq<u8> {
    if line.len() > 0 && line.last() == 13 {
        line.drop_last()
    } else {
        line
    }
}

/// A line with nothing on it once trimmed.
pub open spec fn line_blank(line: Seq<u8>) -> bool {
    trim_cr(line).len() == 0
}

/// Node `n` is exactly what this peer-table line denotes, via its
/// space-split fields.
pub open spec fn line_node(n: crate::topology::Node, line: Seq<u8>) -> bool {
    node_from_fields(n, split_spec(trim_cr(line), 32))
}

/// Some node is what this line denotes: the line decodes.
pub open spec fn line_decodes(line: Seq<u8>) -> bool {
    exists|n: crate::topology::Node| line_node(n, line)
}

/// Whether a line carries content.
pub open spec fn keep_line(l: Seq<u8>) -> bool {
    !line_blank(l)
}

/// The non-blank lines of a reply, split on the line feed, in order.
pub open spec fn nonblank_lines(reply: Seq<u8>) -> Seq<Seq<u8>> {
    split_spec(reply, 10).filter(|l: Seq<u8>| keep_line(l))
}

/// Decodes a whole peer-table reply, strictly: success exactly when every
/// non-blank line decodes, and then the result holds one node per non-blank
/// line, in order, each node exactly what its line denotes. One undecodable
/// line refuses the whole reply.
pub fn parse_nodes(reply: &Vec<u8>) -> (r: Result<Vec<crate::topology::Node>, Error>)
    ensures
        r is Ok <==> (forall|i: int|
            0 <= i < split_spec(reply@, 10).len() ==> line_blank(
                #[trigger] split_spec(reply@, 10)[i],
            ) || line_decodes(split_spec(reply@, 10)[i])),
        r is Err ==> r == Result::<Vec<crate::topology::Node>, Error>::Err(Error::BadReply),
        r is Ok ==> r->Ok_0@.len() == nonblank_lines(reply@).len() && (forall|i: int|
            0 <= i < r->Ok_0@.len() ==> line_node(
                #[trigger] r->Ok_0@[i],
                nonblank_lines(reply@)[i],
            )),
{
    let lines = split_byte(reply, 10);
    let ghost lv = views_of(lines@);
    let mut nodes: Vec<crate::topology::Node> = Vec::new();
    let mut li: usize = 0;
    while li < lines.len()
        invariant
            lv == split_spec(reply@, 10),
            lv == views_of(lines@),
            li <= lines@.len(),
            forall|i: int|
                0 <= i < li ==> line_blank(#[trigger] lv[i]) || line_decodes(lv[i]),
            nodes@.len() == lv.take(li as int).filter(|l: Seq<u8>| keep_line(l)).len(),
            forall|i: int|
                0 <= i < nodes@.len() ==> line_node(
                    #[trigger] nodes@[i],
                    lv.take(li as int).filter(|l: Seq<u8>| keep_line(l))[i],
                ),
        decreases lines@.len() - li,
    {
        let ghost line = lv[li as int];
        proof {
            assert(lines@[li as int]@ == line);
            assert(lv.take(li + 1) =~= lv.take(li as int).push(line));
            lv.take(li as int).lemma_filter_push(line, |l: Seq<u8>| keep_line(l));
        }
        let linelen = lines[li].len();
        let trimmed = if linelen > 0 && lines[li][linelen - 1] == 13 {
            copy_range(&lines[li], 0, linelen - 1)
        } else {
            copy_range(&lines[li], 0, linelen)
        };
        proof {
            assert(trimmed@ =~= trim_cr(line));
        }
        if trimmed.len() > 0 {
            proof {
                assert(keep_line(line));
            }
            let fields = split_byte(&trimmed, 32);
            match parse_node_line(&fields) {
                Ok(n) => {
                    let ghost pre = nodes@;
                    proof {
                        assert(views_of(fields@) == split_spec(trim_cr(line), 32));
                        assert(line_node(n, line));
                    }
                    nodes.push(n);
                    proof {
                        let kept = lv.take(li + 1).filter(|l: Seq<u8>| keep_line(l));
                        assert(kept =~= lv.take(li as int).filter(
                            |l: Seq<u8>| keep_line(l),
                        ).push(line));
                        assert forall|i: int| 0 <= i < nodes@.len() implies line_node(
                            #[trigger] nodes@[i],
                            kept[i],
                        ) by {
                            if i < pre.len() {
                                assert(nodes@[i] == pre[i]);
                                assert(kept[i] == lv.take(li as int).filter(
                                    |l: Seq<u8>| keep_line(l),
                                )[i]);
                            } else {
                                assert(nodes@[i] == n);
                                assert(kept[i] == line);
                            }
                        }
                    }
                },
                Err(_) => {
                    proof {
                        assert(views_of(fields@) == split_spec(trim_cr(line), 32));
                        assert(!line_decodes(line)) by {
                            if line_decodes(line) {
                                let n = choose|n: crate::topology::Node| line_node(n, line);
                                assert(node_from_fields(n, views_of(fields@)));
                                assert(exists|n2: crate::topology::Node|
                                    node_from_fields(n2, views_of(fields@)));
                            }
                        }
                        assert(!line_blank(line));
                    }
                    return Err(Error::BadReply);
                },
            }
        } else {
            proof {
                assert(line_blank(line));
                assert(!keep_line(line));
                assert(lv.take(li + 1).filter(|l: Seq<u8>| keep_line(l)) == lv.take(
                    li as int,
                ).filter(|l: Seq<u8>| keep_line(l)));
            }
        }
        li = li + 1;
    }
    proof {
        assert(lv.take(lv.len() as int) =~= lv);
    }
    Ok(nodes)
}

/// A line the info decoder keeps: exactly one colon, both sides ASCII.
pub open spec fn info_line_ok(l: Seq<u8>) -> bool {
    &&& split_spec(trim_cr(l), 58).len() == 2
    &&& ascii_bytes(split_spec(trim_cr(l), 58)[0])
    &&& ascii_bytes(split_spec(trim_cr(l), 58)[1])
}

/// The kept lines of an info reply, in order.
pub open spec fn info_lines(reply: Seq<u8>) -> Seq<Seq<u8>> {
    split_spec(reply, 10).filter(|l: Seq<u8>| info_line_ok(l))
}

/// Decodes an info reply into exactly the key-value pairs of its lines with
/// exactly one colon (and ASCII text), in reply order: pair `i` is line
/// `i`'s two fields.
pub fn parse_info(reply: &Vec<u8>) -> (r: Vec<(String, String)>)
    ensures
        r@.len() == info_lines(reply@).len(),
        forall|i: int|
            0 <= i < r@.len() ==> (#[trigger] r@[i]).0@ == ascii_chars(
                split_spec(trim_cr(info_lines(reply@)[i]), 58)[0],
            ) && r@[i].1@ == ascii_chars(split_spec(trim_cr(info_lines(reply@)[i]), 58)[1]),
{
    let lines = split_byte(reply, 10);
    let ghost lv = views_of(lines@);
    let mut pairs: Vec<(String, String)> = Vec::new();
    let mut li: usize = 0;
    while li < lines.len()
        invariant
            lv == split_spec(reply@, 10),
            lv == views_of(lines@),
            li <= lines@.len(),
            pairs@.len() == lv.take(li as int).filter(|l: Seq<u8>| info_line_ok(l)).len(),
            forall|i: int|
                0 <= i < pairs@.len() ==> (#[trigger] pairs@[i]).0@ == ascii_chars(
                    split_spec(
                        trim_cr(lv.take(li as int).filter(|l: Seq<u8>| info_line_ok(l))[i]),
                        58,
                    )[0],
                ) && pairs@[i].1@ == ascii_chars(
                    split_spec(
                        trim_cr(lv.take(li as int).filter(|l: Seq<u8>| info_line_ok(l))[i]),
                        58,
                    )[1],
                ),
        decreases lines@.len() - li,
    {
        let ghost line = lv[li as int];
        proof {
            assert(lines@[li as int]@ == line);
            assert(lv.take(li + 1) =~= lv.take(li as int).push(line));
            lv.take(li as int).lemma_filter_push(line, |l: Seq<u8>| info_line_ok(l));
        }
        let linelen = lines[li].len();
        let trimmed = if linelen > 0 && lines[li][linelen - 1] == 13 {
            copy_range(&lines[li], 0, linelen - 1)
        } else {
            copy_range(&lines[li], 0, linelen)
        };
        proof {
            assert(trimmed@ =~= trim_cr(line));
        }
        let kv = split_byte(&trimmed, 58);
        proof {
            assert(views_of(kv@) == split_spec(trim_cr(line), 58));
        }
        if kv.len() == 2 && is_ascii_bytes(&kv[0]) && is_ascii_bytes(&kv[1]) {
            proof {
                assert(kv@[0]@ == views_of(kv@)[0]);
                assert(kv@[1]@ == views_of(kv@)[1]);
                assert(info_line_ok(line));
            }
            let ks = match bytes_to_string(&kv[0]) {
                Some(s) => s,
                None => {
                    proof {
                        assert(false);
                    }
                    return pairs;
                },
            };
            let vs = match bytes_to_string(&kv[1]) {
                Some(s) => s,
                None => {
                    proof {
                        assert(false);
                    }
                    return pairs;
                },
            };
            let ghost pre = pairs@;
            pairs.push((ks, vs));
            proof {
                let kept = lv.take(li + 1).filter(|l: Seq<u8>| info_line_ok(l));
                assert(kept =~= lv.take(li as int).filter(|l: Seq<u8>| info_line_ok(l)).push(
                    line,
                ));
                assert forall|i: int| 0 <= i < pairs@.len() implies (#[trigger] pairs@[i]).0@
                    == ascii_chars(split_spec(trim_cr(kept[i]), 58)[0]) && pairs@[i].1@
                    == ascii_chars(split_spec(trim_cr(kept[i]), 58)[1]) by {
                    if i < pre.len() {
                        assert(pairs@[i] == pre[i]);
                        assert(kept[i] == lv.take(li as int).filter(
                            |l: Seq<u8>| info_line_ok(l),
                        )[i]);
                    } else {
                        assert(pairs@[i] == (ks, vs));
                        assert(kept[i] == line);
                    }
                }
            }
        } else {
            proof {
                assert(!info_line_ok(line));
                assert(lv.take(li + 1).filter(|l: Seq<u8>| info_line_ok(l)) == lv.take(
                    li as int,
                ).filter(|l: Seq<u8>| info_line_ok(l)));
            }
        }
        li = li + 1;
    }
    proof {
        assert(lv.take(lv.len() as int) =~= lv);
    }
    pairs
}

} // verus!

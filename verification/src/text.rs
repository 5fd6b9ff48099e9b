//! Character-level text utilities shared by the parser and the renderer:
//! conversion between `String` and `Vec<char>`, whitespace trimming,
//! removing a character, and splitting on a separator.

use vstd::prelude::*;

verus! {

use vstd::std_specs::iter::IteratorSpec;

/// The Unicode `White_Space` characters, exactly the set that
/// `str::trim` removes at either end of a string.
pub open spec fn is_space(c: char) -> bool {
    let u = c as u32;
    u == 0x09 || u == 0x0a || u == 0x0b || u == 0x0c || u == 0x0d || u == 0x20 || u == 0x85
        || u == 0xa0 || u == 0x1680 || (0x2000 <= u && u <= 0x200a) || u == 0x2028 || u == 0x2029
        || u == 0x202f || u == 0x205f || u == 0x3000
}

/// Runtime test for `is_space`.
pub fn is_space_char(c: char) -> (r: bool)
    ensures
        r == is_space(c),
{
    let u = c as u32;
    u == 0x09 || u == 0x0a || u == 0x0b || u == 0x0c || u == 0x0d || u == 0x20 || u == 0x85
        || u == 0xa0 || u == 0x1680 || (0x2000 <= u && u <= 0x200a) || u == 0x2028 || u == 0x2029
        || u == 0x202f || u == 0x205f || u == 0x3000
}

/// The characters of a string, in order.
pub fn to_chars(s: &str) -> (r: Vec<char>)
    ensures
        r@ == s@,
{
    let mut r: Vec<char> = Vec::new();
    let mut it = s.chars();
    loop
        invariant
            it.obeys_prophetic_iter_laws(),
            it.decrease() is Some,
            r@ + it.remaining() == s@,
        ensures
            r@ == s@,
        decreases it.decrease()->0,
    {
        match it.next() {
            Some(c) => {
                r.push(c);
                proof {
                    assert(r@ + it.remaining() =~= s@);
                }
            },
            None => {
                proof {
                    assert(r@ =~= s@);
                }
                break ;
            },
        }
    }
    r
}

/// Relies on `String`'s `FromIterator` impl: collecting characters yields
/// the string made of exactly those characters, in order.
#[verifier::external_body]
pub fn from_chars(v: &Vec<char>) -> (r: String)
    ensures
        r@ == v@,
{
    v.iter().collect()
}

/// A copy of the characters of `s` from `from` (inclusive) to `to` (exclusive).
pub fn subrange_vec(s: &Vec<char>, from: usize, to: usize) -> (r: Vec<char>)
    requires
        from <= to <= s@.len(),
    ensures
        r@ == s@.subrange(from as int, to as int),
{
    let mut r: Vec<char> = Vec::new();
    let mut i: usize = from;
    while i < to
        invariant
            from <= i <= to <= s@.len(),
            r@ == s@.subrange(from as int, i as int),
        decreases to - i,
    {
        r.push(s[i]);
        i = i + 1;
        proof {
            assert(r@ =~= s@.subrange(from as int, i as int));
        }
    }
    r
}

/// The position of the first occurrence of `c` in `s` at or after `start`.
pub fn find_char(s: &Vec<char>, start: usize, c: char) -> (r: Option<usize>)
    requires
        start <= s@.len(),
    ensures
        match r {
            Some(j) => start <= j < s@.len() && s@[j as int] == c && (forall|i: int|
                start <= i < j ==> s@[i] != c),
            None => forall|i: int| start <= i < s@.len() ==> s@[i] != c,
        },
{
    let mut j: usize = start;
    while j < s.len()
        invariant
            start <= j <= s@.len(),
            forall|i: int| start <= i < j ==> s@[i] != c,
        decreases s@.len() - j,
    {
        if s[j] == c {
            return Some(j);
        }
        j = j + 1;
    }
    None
}

/// `s` with every occurrence of `c` removed.
pub open spec fn remove_char(s: Seq<char>, c: char) -> Seq<char>
    decreases s.len(),
{
    if s.len() == 0 {
        Seq::empty()
    } else if s[0] == c {
        remove_char(s.drop_first(), c)
    } else {
        seq![s[0]] + remove_char(s.drop_first(), c)
    }
}

/// Nothing that `remove_char` leaves behind is the removed character.
pub proof fn lemma_remove_char_absent(s: Seq<char>, c: char)
    ensures
        forall|i: int| 0 <= i < remove_char(s, c).len() ==> remove_char(s, c)[i] != c,
    decreases s.len(),
{
    if s.len() > 0 {
        lemma_remove_char_absent(s.drop_first(), c);
        if s[0] != c {
            assert forall|i: int| 0 <= i < remove_char(s, c).len() implies remove_char(s, c)[i]
                != c by {
                if i > 0 {
                    assert(remove_char(s, c)[i] == remove_char(s.drop_first(), c)[i - 1]);
                }
            }
        }
    }
}

/// A copy of `s` without any occurrence of `c`.
pub fn remove_char_vec(s: &Vec<char>, c: char) -> (r: Vec<char>)
    ensures
        r@ == remove_char(s@, c),
{
    let mut r: Vec<char> = Vec::new();
    let mut i: usize = 0;
    proof {
        assert(s@.skip(0) =~= s@);
        assert(r@ + remove_char(s@, c) =~= remove_char(s@, c));
    }
    while i < s.len()
        invariant
            i <= s@.len(),
            remove_char(s@, c) == r@ + remove_char(s@.skip(i as int), c),
        decreases s@.len() - i,
    {
        proof {
            assert(s@.skip(i as int).drop_first() =~= s@.skip(i as int + 1));
            assert(s@.skip(i as int)[0] == s@[i as int]);
        }
        if s[i] != c {
            let ghost prev = r@;
            r.push(s[i]);
            proof {
                assert(r@ =~= prev + seq![s@[i as int]]);
                assert(prev + (seq![s@[i as int]] + remove_char(s@.skip(i as int + 1), c)) =~= (
                prev + seq![s@[i as int]]) + remove_char(s@.skip(i as int + 1), c));
            }
        }
        i = i + 1;
    }
    proof {
        assert(s@.skip(i as int) =~= Seq::empty());
        assert(r@ + remove_char(Seq::empty(), c) =~= r@);
    }
    r
}

/// `s` without leading whitespace.
pub open spec fn trim_start(s: Seq<char>) -> Seq<char>
    decreases s.len(),
{
    if s.len() > 0 && is_space(s[0]) {
        trim_start(s.drop_first())
    } else {
        s
    }
}

/// `s` without trailing whitespace.
pub open spec fn trim_end(s: Seq<char>) -> Seq<char>
    decreases s.len(),
{
    if s.len() > 0 && is_space(s.last()) {
        trim_end(s.drop_last())
    } else {
        s
    }
}

/// `s` without leading or trailing whitespace, as `str::trim` leaves it.
pub open spec fn trim_spec(s: Seq<char>) -> Seq<char> {
    trim_end(trim_start(s))
}

/// A copy of `s` without leading or trailing whitespace.
pub fn trim_vec(s: &Vec<char>) -> (r: Vec<char>)
    ensures
        r@ == trim_spec(s@),
{
    let mut lo: usize = 0;
    proof {
        assert(s@.skip(0) =~= s@);
    }
    while lo < s.len() && is_space_char(s[lo])
        invariant
            lo <= s@.len(),
            trim_start(s@) == trim_start(s@.skip(lo as int)),
        decreases s@.len() - lo,
    {
        proof {
            assert(s@.skip(lo as int)[0] == s@[lo as int]);
            assert(s@.skip(lo as int).drop_first() =~= s@.skip(lo as int + 1));
        }
        lo = lo + 1;
    }
    proof {
        if lo == s@.len() {
            assert(s@.skip(lo as int) =~= Seq::<char>::empty());
        } else {
            assert(s@.skip(lo as int)[0] == s@[lo as int]);
        }
        assert(trim_start(s@) == s@.skip(lo as int));
    }
    let mut hi: usize = s.len();
    while hi > lo && is_space_char(s[hi - 1])
        invariant
            lo <= hi <= s@.len(),
            trim_start(s@) == s@.skip(lo as int),
            trim_end(s@.skip(lo as int)) == trim_end(s@.subrange(lo as int, hi as int)),
        decreases hi,
    {
        proof {
            let t = s@.subrange(lo as int, hi as int);
            assert(t.last() == s@[hi - 1]);
            assert(t.drop_last() =~= s@.subrange(lo as int, hi as int - 1));
        }
        hi = hi - 1;
    }
    proof {
        let t = s@.subrange(lo as int, hi as int);
        if hi > lo {
            assert(t.last() == s@[hi - 1]);
        }
        assert(trim_end(t) == t);
    }
    subrange_vec(s, lo, hi)
}

/// Trimming the start never adds characters: text without `c` stays
/// without it.
pub proof fn lemma_trim_start_no_char(s: Seq<char>, c: char)
    requires
        forall|i: int| 0 <= i < s.len() ==> s[i] != c,
    ensures
        forall|i: int| 0 <= i < trim_start(s).len() ==> trim_start(s)[i] != c,
    decreases s.len(),
{
    if s.len() > 0 && is_space(s[0]) {
        lemma_trim_start_no_char(s.drop_first(), c);
        assert forall|i: int| 0 <= i < trim_start(s).len() implies trim_start(s)[i] != c by {
            assert(trim_start(s)[i] == trim_start(s.drop_first())[i]);
        }
    }
}

/// Trimming the end never adds characters: text without `c` stays
/// without it.
pub proof fn lemma_trim_end_no_char(s: Seq<char>, c: char)
    requires
        forall|i: int| 0 <= i < s.len() ==> s[i] != c,
    ensures
        forall|i: int| 0 <= i < trim_end(s).len() ==> trim_end(s)[i] != c,
    decreases s.len(),
{
    if s.len() > 0 && is_space(s.last()) {
        lemma_trim_end_no_char(s.drop_last(), c);
        assert forall|i: int| 0 <= i < trim_end(s).len() implies trim_end(s)[i] != c by {
            assert(trim_end(s)[i] == trim_end(s.drop_last())[i]);
        }
    }
}

/// Trimming never adds characters: text without `c` stays without it.
pub proof fn lemma_trim_no_char(s: Seq<char>, c: char)
    requires
        forall|i: int| 0 <= i < s.len() ==> s[i] != c,
    ensures
        forall|i: int| 0 <= i < trim_spec(s).len() ==> trim_spec(s)[i] != c,
{
    lemma_trim_start_no_char(s, c);
    lemma_trim_end_no_char(trim_start(s), c);
}

/// The pieces of `s` between occurrences of `sep`, in order; `s` with no
/// separator is one piece, and every separator ends a piece, so there is
/// always at least one piece.
pub open spec fn split_char(s: Seq<char>, sep: char) -> Seq<Seq<char>>
    decreases s.len(),
{
    if s.len() == 0 {
        seq![Seq::<char>::empty()]
    } else if s[0] == sep {
        seq![Seq::<char>::empty()] + split_char(s.drop_first(), sep)
    } else {
        let rest = split_char(s.drop_first(), sep);
        seq![seq![s[0]] + rest[0]] + rest.drop_first()
    }
}

/// Splitting yields at least one piece.
pub proof fn lemma_split_char_len(s: Seq<char>, sep: char)
    ensures
        split_char(s, sep).len() >= 1,
    decreases s.len(),
{
    if s.len() > 0 {
        lemma_split_char_len(s.drop_first(), sep);
    }
}

/// A string without the separator splits into itself alone.
pub proof fn lemma_split_char_none(s: Seq<char>, sep: char)
    requires
        forall|i: int| 0 <= i < s.len() ==> s[i] != sep,
    ensures
        split_char(s, sep) == seq![s],
    decreases s.len(),
{
    if s.len() == 0 {
        assert(split_char(s, sep) =~~= seq![s]);
    } else {
        lemma_split_char_none(s.drop_first(), sep);
        assert(seq![s[0]] + s.drop_first() =~= s);
        assert(split_char(s, sep) =~~= seq![s]);
    }
}

/// With the first separator at `i`, the first piece is everything before
/// it and the rest is the split of everything after it.
pub proof fn lemma_split_char_step(s: Seq<char>, sep: char, i: int)
    requires
        0 <= i < s.len(),
        s[i] == sep,
        forall|j: int| 0 <= j < i ==> s[j] != sep,
    ensures
        split_char(s, sep) == seq![s.subrange(0, i)] + split_char(
            s.subrange(i + 1, s.len() as int),
            sep,
        ),
    decreases i,
{
    if i == 0 {
        assert(s.subrange(0, 0) =~= Seq::<char>::empty());
        assert(s.subrange(1, s.len() as int) =~= s.drop_first());
    } else {
        let d = s.drop_first();
        lemma_split_char_step(d, sep, i - 1);
        lemma_split_char_len(d.subrange(i, d.len() as int), sep);
        assert(seq![s[0]] + d.subrange(0, i - 1) =~= s.subrange(0, i));
        assert(d.subrange(i, d.len() as int) =~= s.subrange(i + 1, s.len() as int));
        assert(split_char(s, sep) =~~= seq![s.subrange(0, i)] + split_char(
            s.subrange(i + 1, s.len() as int),
            sep,
        ));
    }
}

/// Splitting introduces no characters: every piece of a string without
/// `c` is itself without `c`.
pub proof fn lemma_split_char_no_char(s: Seq<char>, sep: char, c: char)
    requires
        forall|i: int| 0 <= i < s.len() ==> s[i] != c,
    ensures
        forall|k: int, i: int|
            0 <= k < split_char(s, sep).len() && 0 <= i < split_char(s, sep)[k].len()
                ==> #[trigger] split_char(s, sep)[k][i] != c,
    decreases s.len(),
{
    let ps = split_char(s, sep);
    if s.len() == 0 {
        assert forall|k: int, i: int|
            0 <= k < ps.len() && 0 <= i < ps[k].len() implies #[trigger] ps[k][i] != c by {}
    } else if s[0] == sep {
        lemma_split_char_no_char(s.drop_first(), sep, c);
        let rest = split_char(s.drop_first(), sep);
        assert forall|k: int, i: int|
            0 <= k < ps.len() && 0 <= i < ps[k].len() implies #[trigger] ps[k][i] != c by {
            if k > 0 {
                assert(ps[k] == rest[k - 1]);
                assert(rest[k - 1][i] != c);
            }
        }
    } else {
        lemma_split_char_no_char(s.drop_first(), sep, c);
        let rest = split_char(s.drop_first(), sep);
        lemma_split_char_len(s.drop_first(), sep);
        assert forall|k: int, i: int|
            0 <= k < ps.len() && 0 <= i < ps[k].len() implies #[trigger] ps[k][i] != c by {
            if k == 0 {
                assert(ps[0] == seq![s[0]] + rest[0]);
                if i == 0 {
                    assert(ps[0][0] == s[0]);
                } else {
                    assert(ps[0][i] == rest[0][i - 1]);
                    assert(rest[0][i - 1] != c);
                }
            } else {
                assert(ps[k] == rest.drop_first()[k - 1]);
                assert(rest.drop_first()[k - 1] == rest[k]);
                assert(rest[k][i] != c);
            }
        }
    }
}

/// The pieces of `s` between occurrences of `sep`, as `str::split` yields
/// them.
pub fn split_char_vec(s: &Vec<char>, sep: char) -> (r: Vec<Vec<char>>)
    ensures
        r.deep_view() == split_char(s@, sep),
{
    let mut r: Vec<Vec<char>> = Vec::new();
    let mut start: usize = 0;
    let n = s.len();
    proof {
        assert(s@.skip(0) =~= s@);
        assert(r.deep_view() + split_char(s@, sep) =~= split_char(s@, sep));
    }
    loop
        invariant_except_break
            split_char(s@, sep) == r.deep_view() + split_char(s@.skip(start as int), sep),
        invariant
            start <= s@.len(),
            s@.len() == n,
        ensures
            r.deep_view() == split_char(s@, sep),
        decreases s@.len() - start,
    {
        let ghost prev = r.deep_view();
        match find_char(s, start, sep) {
            Some(j) => {
                let piece = subrange_vec(s, start, j);
                r.push(piece);
                proof {
                    let tail = s@.skip(start as int);
                    lemma_split_char_step(tail, sep, j - start);
                    assert(tail.subrange(0, j - start) =~= s@.subrange(
                        start as int,
                        j as int,
                    ));
                    assert(tail.subrange(j - start + 1, tail.len() as int) =~= s@.skip(
                        j as int + 1,
                    ));
                    assert(r.deep_view() =~~= prev + seq![s@.subrange(start as int, j as int)]);
                    assert(r.deep_view() + split_char(s@.skip(j as int + 1), sep) =~~= prev + (
                    seq![s@.subrange(start as int, j as int)] + split_char(
                        s@.skip(j as int + 1),
                        sep,
                    )));
                }
                start = j + 1;
            },
            None => {
                let piece = subrange_vec(s, start, s.len());
                r.push(piece);
                proof {
                    let tail = s@.skip(start as int);
                    assert(tail =~= s@.subrange(start as int, s@.len() as int));
                    lemma_split_char_none(tail, sep);
                    assert(r.deep_view() =~~= prev + seq![tail]);
                    assert(r.deep_view() =~~= split_char(s@, sep));
                }
                break ;
            },
        }
    }
    r
}

} // verus!

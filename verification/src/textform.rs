//! The maze text format: a grid-size line, a start-coordinate line, a
//! pipe-separated target line, then one wall-rectangle line per wall block.
//! Parsing turns such text into a [`Grid`]; serialization writes a grid
//! back out, one `(x, y, 1, 1)` rectangle per wall cell.

use vstd::prelude::*;

verus! {

use crate::grid::{Grid, CellType};

/// ASCII whitespace, as trimming treats it.
pub open spec fn is_ws(b: u8) -> bool {
    b == 32 || (9 <= b && b <= 13)
}

/// An ASCII decimal digit.
pub open spec fn is_digit(b: u8) -> bool {
    48 <= b && b <= 57
}

/// `s` without its leading whitespace.
pub open spec fn trim_front(s: Seq<u8>) -> Seq<u8>
    decreases s.len(),
{
    if s.len() > 0 && is_ws(s[0]) {
        trim_front(s.skip(1))
    } else {
        s
    }
}

/// `s` without its trailing whitespace.
pub open spec fn trim_back(s: Seq<u8>) -> Seq<u8>
    decreases s.len(),
{
    if s.len() > 0 && is_ws(s.last()) {
        trim_back(s.drop_last())
    } else {
        s
    }
}

/// `s` without leading or trailing whitespace.
pub open spec fn trim(s: Seq<u8>) -> Seq<u8> {
    trim_back(trim_front(s))
}

/// `s` without every leading occurrence of `b`.
pub open spec fn strip_front(s: Seq<u8>, b: u8) -> Seq<u8>
    decreases s.len(),
{
    if s.len() > 0 && s[0] == b {
        strip_front(s.skip(1), b)
    } else {
        s
    }
}

/// `s` without every trailing occurrence of `b`.
pub open spec fn strip_back(s: Seq<u8>, b: u8) -> Seq<u8>
    decreases s.len(),
{
    if s.len() > 0 && s.last() == b {
        strip_back(s.drop_last(), b)
    } else {
        s
    }
}

/// The pieces of `s` between occurrences of `sep`: always at least one
/// piece, and one more piece per separator.
pub open spec fn split_at(s: Seq<u8>, sep: u8) -> Seq<Seq<u8>>
    decreases s.len(),
    via split_at_decreases
{
    let i = find(s, sep);
    if i == s.len() {
        seq![s]
    } else {
        seq![s.take(i)] + split_at(s.skip(i + 1), sep)
    }
}

#[via_fn]
proof fn split_at_decreases(s: Seq<u8>, sep: u8) {
    lemma_find(s, sep);
}

/// Position of the first occurrence of `b` in `s`, or the length of `s`.
pub open spec fn find(s: Seq<u8>, b: u8) -> int
    decreases s.len(),
{
    if s.len() == 0 {
        0
    } else if s[0] == b {
        0
    } else {
        1 + find(s.skip(1), b)
    }
}

pub proof fn lemma_find(s: Seq<u8>, b: u8)
    ensures
        0 <= find(s, b) <= s.len(),
        forall|j: int| 0 <= j < find(s, b) ==> s[j] != b,
        find(s, b) < s.len() ==> s[find(s, b)] == b,
    decreases s.len(),
{
    if s.len() > 0 && s[0] != b {
        lemma_find(s.skip(1), b);
        assert forall|j: int| 0 <= j < find(s, b) implies s[j] != b by {
            if j > 0 {
                assert(s.skip(1)[j - 1] != b);
            }
        }
    }
}

/// `s` without its leading whitespace, executably: the suffix from the
/// first non-whitespace byte.
fn trim_front_exec(s: &[u8]) -> (r: Vec<u8>)
    ensures
        r@ == trim_front(s@),
{
    let n = s.len();
    let mut i: usize = 0;
    proof {
        assert(s@.skip(0) =~= s@);
    }
    while i < n && is_ws_exec(s[i])
        invariant
            n == s@.len(),
            i <= n,
            trim_front(s@) == trim_front(s@.skip(i as int)),
        decreases n - i,
    {
        proof {
            assert(s@.skip(i as int)[0] == s@[i as int]);
            assert(s@.skip(i as int).skip(1) =~= s@.skip(i + 1));
        }
        i += 1;
    }
    proof {
        if i < n {
            assert(s@.skip(i as int)[0] == s@[i as int]);
        }
        assert(trim_front(s@.skip(i as int)) == s@.skip(i as int));
    }
    vstd::slice::slice_to_vec(vstd::slice::slice_subrange(s, i, n))
}

/// `s` without its trailing whitespace, executably.
fn trim_back_exec(s: &[u8]) -> (r: Vec<u8>)
    ensures
        r@ == trim_back(s@),
{
    let mut h = s.len();
    proof {
        assert(s@.take(h as int) =~= s@);
    }
    while h > 0 && is_ws_exec(s[h - 1])
        invariant
            h <= s@.len(),
            trim_back(s@) == trim_back(s@.take(h as int)),
        decreases h,
    {
        proof {
            assert(s@.take(h as int).last() == s@[h - 1]);
            assert(s@.take(h as int).drop_last() =~= s@.take(h - 1));
        }
        h -= 1;
    }
    proof {
        if h > 0 {
            assert(s@.take(h as int).last() == s@[h - 1]);
        }
        assert(trim_back(s@.take(h as int)) == s@.take(h as int));
    }
    vstd::slice::slice_to_vec(vstd::slice::slice_subrange(s, 0, h))
}

/// `s` without leading or trailing whitespace, executably.
fn trim_exec(s: &[u8]) -> (r: Vec<u8>)
    ensures
        r@ == trim(s@),
{
    let front = trim_front_exec(s);
    trim_back_exec(front.as_slice())
}

/// `s` without every leading `b`, executably.
fn strip_front_exec(s: &[u8], b: u8) -> (r: Vec<u8>)
    ensures
        r@ == strip_front(s@, b),
{
    let n = s.len();
    let mut i: usize = 0;
    proof {
        assert(s@.skip(0) =~= s@);
    }
    while i < n && s[i] == b
        invariant
            n == s@.len(),
            i <= n,
            strip_front(s@, b) == strip_front(s@.skip(i as int), b),
        decreases n - i,
    {
        proof {
            assert(s@.skip(i as int)[0] == s@[i as int]);
            assert(s@.skip(i as int).skip(1) =~= s@.skip(i + 1));
        }
        i += 1;
    }
    proof {
        if i < n {
            assert(s@.skip(i as int)[0] == s@[i as int]);
        }
        assert(strip_front(s@.skip(i as int), b) == s@.skip(i as int));
    }
    vstd::slice::slice_to_vec(vstd::slice::slice_subrange(s, i, n))
}

/// `s` without every trailing `b`, executably.
fn strip_back_exec(s: &[u8], b: u8) -> (r: Vec<u8>)
    ensures
        r@ == strip_back(s@, b),
{
    let mut h = s.len();
    proof {
        assert(s@.take(h as int) =~= s@);
    }
    while h > 0 && s[h - 1] == b
        invariant
            h <= s@.len(),
            strip_back(s@, b) == strip_back(s@.take(h as int), b),
        decreases h,
    {
        proof {
            assert(s@.take(h as int).last() == s@[h - 1]);
            assert(s@.take(h as int).drop_last() =~= s@.take(h - 1));
        }
        h -= 1;
    }
    proof {
        if h > 0 {
            assert(s@.take(h as int).last() == s@[h - 1]);
        }
        assert(strip_back(s@.take(h as int), b) == s@.take(h as int));
    }
    vstd::slice::slice_to_vec(vstd::slice::slice_subrange(s, 0, h))
}

/// The pieces of `s` between occurrences of `sep`, executably.
fn split_exec(s: &[u8], sep: u8) -> (r: Vec<Vec<u8>>)
    ensures
        r@.len() == split_at(s@, sep).len(),
        forall|i: int| 0 <= i < r@.len() ==> (#[trigger] r@[i])@ == split_at(s@, sep)[i],
    decreases s@.len(),
{
    let n = s.len();
    let mut i: usize = 0;
    proof {
        lemma_find(s@, sep);
    }
    while i < n && s[i] != sep
        invariant
            n == s@.len(),
            i <= n,
            i as int <= find(s@, sep),
            forall|j: int| 0 <= j < i ==> s@[j] != sep,
        decreases n - i,
    {
        proof {
            lemma_find_step(s@, sep, i as int);
        }
        i += 1;
    }
    proof {
        lemma_find(s@, sep);
        lemma_find_exact(s@, sep, i as int);
    }
    if i == n {
        let mut r: Vec<Vec<u8>> = Vec::new();
        r.push(vstd::slice::slice_to_vec(s));
        proof {
            assert(split_at(s@, sep) =~= seq![s@]);
            assert(r@[0]@ == split_at(s@, sep)[0]);
        }
        r
    } else {
        let head = vstd::slice::slice_to_vec(vstd::slice::slice_subrange(s, 0, i));
        let rest = split_exec(vstd::slice::slice_subrange(s, i + 1, n), sep);
        let mut r: Vec<Vec<u8>> = Vec::new();
        r.push(head);
        let m = rest.len();
        let mut k: usize = 0;
        while k < m
            invariant
                m == rest@.len(),
                k <= m,
                r@.len() == 1 + k,
                r@[0]@ == s@.take(i as int),
                forall|j: int| 0 <= j < k ==> (#[trigger] r@[j + 1])@ == rest@[j]@,
                forall|j: int|
                    0 <= j < m ==> (#[trigger] rest@[j])@ == split_at(s@.skip(i + 1), sep)[j],
                rest@.len() == split_at(s@.skip(i + 1), sep).len(),
            decreases m - k,
        {
            let piece = copy_bytes(&rest[k]);
            r.push(piece);
            k += 1;
        }
        proof {
            assert(split_at(s@, sep) =~= seq![s@.take(i as int)] + split_at(s@.skip(i + 1), sep));
            assert forall|j: int| 0 <= j < r@.len() implies (#[trigger] r@[j])@ == split_at(
                s@,
                sep,
            )[j] by {
                if j > 0 {
                    assert(r@[(j - 1) + 1]@ == rest@[j - 1]@);
                }
            }
        }
        r
    }
}

/// While no separator has been seen, the first occurrence lies further on.
proof fn lemma_find_step(s: Seq<u8>, b: u8, i: int)
    requires
        0 <= i < s.len(),
        i <= find(s, b),
        s[i] != b,
    ensures
        i + 1 <= find(s, b),
    decreases s.len(),
{
    lemma_find(s, b);
    if find(s, b) == i {
        assert(s[i] == b);
    }
}

/// A scan that stopped at `i` with no separator before it, and either at
/// the end or on a separator, stopped exactly at the first occurrence.
proof fn lemma_find_exact(s: Seq<u8>, b: u8, i: int)
    requires
        0 <= i <= s.len(),
        forall|j: int| 0 <= j < i ==> s[j] != b,
        i < s.len() ==> s[i] == b,
    ensures
        find(s, b) == i,
    decreases s.len(),
{
    lemma_find(s, b);
    if find(s, b) < i {
        assert(s[find(s, b)] == b);
    }
    if i < find(s, b) {
        assert(s[i] != b);
    }
}

/// A fresh copy of a byte string.
fn copy_bytes(p: &Vec<u8>) -> (r: Vec<u8>)
    ensures
        r@ == p@,
{
    vstd::slice::slice_to_vec(p.as_slice())
}

/// An ASCII whitespace test, executably.
fn is_ws_exec(b: u8) -> (r: bool)
    ensures
        r == is_ws(b),
{
    b == 32 || (9 <= b && b <= 13)
}

/// The numeric value of a digit string, most significant digit first.
pub open spec fn digits_value(s: Seq<u8>) -> int
    decreases s.len(),
{
    if s.len() == 0 {
        0
    } else {
        digits_value(s.drop_last()) * 10 + (s.last() - 48)
    }
}

/// Whether every byte of `s` is a decimal digit.
pub open spec fn all_digits(s: Seq<u8>) -> bool {
    forall|i: int| 0 <= i < s.len() ==> is_digit(#[trigger] s[i])
}

/// The unsigned number a piece of text denotes: an optional leading plus
/// sign, then at least one digit, with a value that fits the machine.
pub open spec fn spec_parse_usize(s: Seq<u8>) -> Option<usize> {
    let t = if s.len() > 0 && s[0] == 43 {
        s.skip(1)
    } else {
        s
    };
    if t.len() >= 1 && all_digits(t) && digits_value(t) <= usize::MAX {
        Some(digits_value(t) as usize)
    } else {
        None
    }
}

/// A digit string is worth at least any of its prefixes.
proof fn lemma_digits_monotone(s: Seq<u8>, i: int)
    requires
        all_digits(s),
        0 <= i <= s.len(),
    ensures
        0 <= digits_value(s.take(i)),
        digits_value(s.take(i)) <= digits_value(s),
    decreases s.len(),
{
    if s.len() == 0 {
        assert(s.take(i) =~= s);
    } else {
        assert(s.drop_last() =~= s.take(s.len() - 1));
        assert(all_digits(s.drop_last()));
        lemma_digits_monotone(s.drop_last(), if i < s.len() { i } else { s.len() - 1 });
        if i == s.len() {
            assert(s.take(i) =~= s);
            lemma_digits_monotone(s.drop_last(), s.len() - 1);
        } else {
            assert(s.take(i) =~= s.drop_last().take(i));
        }
    }
}

/// Reads an unsigned decimal number, with an optional leading plus sign.
fn parse_usize_exec(s: &[u8]) -> (r: Option<usize>)
    ensures
        r == spec_parse_usize(s@),
{
    let n = s.len();
    let start: usize = if n > 0 && s[0] == 43 {
        1
    } else {
        0
    };
    let ghost t = if s@.len() > 0 && s@[0] == 43 {
        s@.skip(1)
    } else {
        s@
    };
    proof {
        assert(t =~= s@.skip(start as int));
    }
    if start == n {
        return None;
    }
    let mut acc: usize = 0;
    let mut i: usize = start;
    while i < n
        invariant
            n == s@.len(),
            start <= i <= n,
            t == s@.skip(start as int),
            t == (if s@.len() > 0 && s@[0] == 43 {
                s@.skip(1)
            } else {
                s@
            }),
            t.len() == n - start,
            start < n,
            forall|j: int| 0 <= j < i - start ==> is_digit(#[trigger] t[j]),
            acc == digits_value(t.take(i - start)),
        decreases n - i,
    {
        let b = s[i];
        if b < 48 || b > 57 {
            proof {
                assert(t[i - start] == s@[i as int]);
                assert(!all_digits(t));
            }
            return None;
        }
        let d = (b - 48) as usize;
        proof {
            assert(t.take(i + 1 - start).drop_last() =~= t.take(i - start));
            assert(t.take(i + 1 - start).last() == t[i - start]);
            assert(t[i - start] == s@[i as int]);
        }
        if acc > (usize::MAX - d) / 10 {
            // The value no longer fits: the full number cannot either.
            proof {
                assert(is_digit(t[i - start]));
                assert(digits_value(t.take(i + 1 - start)) > usize::MAX);
                if all_digits(t) {
                    lemma_digits_monotone(t, i + 1 - start);
                    assert(digits_value(t) > usize::MAX);
                }
            }
            return None;
        }
        acc = acc * 10 + d;
        i += 1;
    }
    proof {
        assert(t.take(n - start) =~= t);
    }
    Some(acc)
}

/// The numbers a sequence of comma-separated pieces denotes, each piece
/// trimmed and read as an unsigned number.
pub open spec fn spec_nums(pieces: Seq<Seq<u8>>) -> Option<Seq<usize>>
    decreases pieces.len(),
{
    if pieces.len() == 0 {
        Some(seq![])
    } else {
        match spec_nums(pieces.drop_last()) {
            None => None,
            Some(v) => match spec_parse_usize(trim(pieces.last())) {
                None => None,
                Some(x) => Some(v.push(x)),
            },
        }
    }
}

/// The numbers one line of the maze text denotes: surrounding whitespace,
/// square brackets and parentheses stripped, the rest split on commas and
/// each piece read as an unsigned number.
pub open spec fn spec_num_array(line: Seq<u8>) -> Option<Seq<usize>> {
    let core = trim(
        strip_back(strip_front(trim(strip_back(strip_front(trim(line), 91), 93)), 40), 41),
    );
    spec_nums(split_at(core, 44))
}

/// Reads one line of the maze text as an array of unsigned numbers.
fn num_array(line: &[u8]) -> (r: Option<Vec<usize>>)
    ensures
        match r {
            Some(v) => spec_num_array(line@) == Some(v@),
            None => spec_num_array(line@) is None,
        },
{
    let t1 = trim_exec(line);
    let t2 = strip_front_exec(t1.as_slice(), 91);
    let t3 = strip_back_exec(t2.as_slice(), 93);
    let t4 = trim_exec(t3.as_slice());
    let t5 = strip_front_exec(t4.as_slice(), 40);
    let t6 = strip_back_exec(t5.as_slice(), 41);
    let core = trim_exec(t6.as_slice());
    let pieces = split_exec(core.as_slice(), 44);
    let ghost spieces = split_at(core@, 44);
    let m = pieces.len();
    let mut out: Vec<usize> = Vec::new();
    let mut k: usize = 0;
    while k < m
        invariant
            m == pieces@.len(),
            k <= m,
            m == spieces.len(),
            forall|j: int| 0 <= j < m ==> (#[trigger] pieces@[j])@ == spieces[j],
            spec_nums(spieces.take(k as int)) == Some(out@),
            spec_num_array(line@) == spec_nums(spieces),
        decreases m - k,
    {
        let piece = trim_exec(pieces[k].as_slice());
        proof {
            assert(spieces.take(k + 1).drop_last() =~= spieces.take(k as int));
            assert(spieces.take(k + 1).last() == spieces[k as int]);
        }
        match parse_usize_exec(piece.as_slice()) {
            Some(x) => {
                out.push(x);
            }
            None => {
                proof {
                    lemma_nums_fail(spieces, k as int);
                }
                return None;
            }
        }
        k += 1;
    }
    proof {
        assert(spieces.take(m as int) =~= spieces);
    }
    Some(out)
}

/// If one piece fails to read as a number, the whole array fails.
proof fn lemma_nums_fail(pieces: Seq<Seq<u8>>, k: int)
    requires
        0 <= k < pieces.len(),
        spec_parse_usize(trim(pieces[k])) is None,
    ensures
        spec_nums(pieces) is None,
    decreases pieces.len(),
{
    if pieces.len() > 0 {
        if k == pieces.len() - 1 {
        } else {
            assert(pieces.drop_last()[k] == pieces[k]);
            lemma_nums_fail(pieces.drop_last(), k);
        }
    }
}

/// A line piece with one carriage return stripped from its end, as line
/// splitting treats text before a newline.
pub open spec fn chomp_cr(s: Seq<u8>) -> Seq<u8> {
    if s.len() > 0 && s.last() == 13 {
        s.drop_last()
    } else {
        s
    }
}

/// The lines of the input: split at newlines, each line stripped of one
/// carriage return before the newline; a final piece after the last
/// newline is kept as it stands, and an input ending in a newline yields
/// no empty final line.
pub open spec fn spec_lines(s: Seq<u8>) -> Seq<Seq<u8>>
    decreases s.len(),
    via spec_lines_decreases
{
    if s.len() == 0 {
        seq![]
    } else {
        let i = find(s, 10);
        if i == s.len() {
            seq![s]
        } else {
            seq![chomp_cr(s.take(i))] + spec_lines(s.skip(i + 1))
        }
    }
}

#[via_fn]
proof fn spec_lines_decreases(s: Seq<u8>) {
    lemma_find(s, 10);
}

/// Splits the input into lines.
fn lines_exec(s: &[u8]) -> (r: Vec<Vec<u8>>)
    ensures
        r@.len() == spec_lines(s@).len(),
        forall|i: int| 0 <= i < r@.len() ==> (#[trigger] r@[i])@ == spec_lines(s@)[i],
    decreases s@.len(),
{
    let n = s.len();
    if n == 0 {
        let r: Vec<Vec<u8>> = Vec::new();
        return r;
    }
    let mut i: usize = 0;
    proof {
        lemma_find(s@, 10);
    }
    while i < n && s[i] != 10
        invariant
            n == s@.len(),
            i <= n,
            i as int <= find(s@, 10),
            forall|j: int| 0 <= j < i ==> s@[j] != 10,
        decreases n - i,
    {
        proof {
            lemma_find_step(s@, 10, i as int);
        }
        i += 1;
    }
    proof {
        lemma_find(s@, 10);
        lemma_find_exact(s@, 10, i as int);
    }
    if i == n {
        let mut r: Vec<Vec<u8>> = Vec::new();
        r.push(vstd::slice::slice_to_vec(s));
        proof {
            assert(spec_lines(s@) =~= seq![s@]);
        }
        r
    } else {
        let head_end = if i > 0 && s[i - 1] == 13 {
            i - 1
        } else {
            i
        };
        let head = vstd::slice::slice_to_vec(vstd::slice::slice_subrange(s, 0, head_end));
        proof {
            if i > 0 && s@[i - 1] == 13 {
                assert(s@.take(i as int).last() == s@[i - 1]);
                assert(s@.take(i as int).drop_last() =~= s@.take(i - 1));
            }
            assert(head@ == chomp_cr(s@.take(i as int)));
        }
        let rest = lines_exec(vstd::slice::slice_subrange(s, i + 1, n));
        let mut r: Vec<Vec<u8>> = Vec::new();
        r.push(head);
        let m = rest.len();
        let mut k: usize = 0;
        while k < m
            invariant
                m == rest@.len(),
                k <= m,
                r@.len() == 1 + k,
                r@[0]@ == chomp_cr(s@.take(i as int)),
                forall|j: int| 0 <= j < k ==> (#[trigger] r@[j + 1])@ == rest@[j]@,
                forall|j: int|
                    0 <= j < m ==> (#[trigger] rest@[j])@ == spec_lines(s@.skip(i + 1))[j],
                rest@.len() == spec_lines(s@.skip(i + 1)).len(),
            decreases m - k,
        {
            let piece = copy_bytes(&rest[k]);
            r.push(piece);
            k += 1;
        }
        proof {
            assert(spec_lines(s@) =~= seq![chomp_cr(s@.take(i as int))] + spec_lines(
                s@.skip(i + 1),
            ));
            assert forall|j: int| 0 <= j < r@.len() implies (#[trigger] r@[j])@ == spec_lines(
                s@,
            )[j] by {
                if j > 0 {
                    assert(r@[(j - 1) + 1]@ == rest@[j - 1]@);
                }
            }
        }
        r
    }
}

/// The target coordinates a sequence of pipe-separated pieces denotes:
/// each piece read as a number array with at least two entries.
pub open spec fn spec_targets(pieces: Seq<Seq<u8>>) -> Option<Seq<(usize, usize)>>
    decreases pieces.len(),
{
    if pieces.len() == 0 {
        Some(seq![])
    } else {
        match spec_targets(pieces.drop_last()) {
            None => None,
            Some(v) => match spec_num_array(pieces.last()) {
                None => None,
                Some(a) => if a.len() < 2 {
                    None
                } else {
                    Some(v.push((a[0], a[1])))
                },
            },
        }
    }
}

/// The wall rectangles the remaining lines denote: each line a number
/// array with at least four entries, read as origin and extent.
pub open spec fn spec_walls(ls: Seq<Seq<u8>>) -> Option<Seq<(usize, usize, usize, usize)>>
    decreases ls.len(),
{
    if ls.len() == 0 {
        Some(seq![])
    } else {
        match spec_walls(ls.drop_last()) {
            None => None,
            Some(v) => match spec_num_array(ls.last()) {
                None => None,
                Some(a) => if a.len() < 4 {
                    None
                } else {
                    Some(v.push((a[0], a[1], a[2], a[3])))
                },
            },
        }
    }
}

/// Whether every target coordinate lies on a grid of the given size.
pub open spec fn targets_in_bounds(ts: Seq<(usize, usize)>, rows: usize, cols: usize) -> bool {
    forall|j: int| 0 <= j < ts.len() ==> (#[trigger] ts[j]).0 < cols && ts[j].1 < rows
}

/// Whether every wall rectangle lies on a grid of the given size.
pub open spec fn walls_in_bounds(
    ws: Seq<(usize, usize, usize, usize)>,
    rows: usize,
    cols: usize,
) -> bool {
    forall|j: int|
        0 <= j < ws.len() ==> (#[trigger] ws[j]).0 + ws[j].2 <= cols && ws[j].1 + ws[j].3 <= rows
}

/// Whether a coordinate lies inside a wall rectangle.
pub open spec fn in_rect(c: (usize, usize), w: (usize, usize, usize, usize)) -> bool {
    w.0 <= c.0 < w.0 + w.2 && w.1 <= c.1 < w.1 + w.3
}

/// The cell a parsed grid holds at a coordinate: walls cover targets,
/// targets cover the start cell, and everything else is blank.
pub open spec fn spec_cell_at(
    c: (usize, usize),
    init: (usize, usize),
    ts: Seq<(usize, usize)>,
    ws: Seq<(usize, usize, usize, usize)>,
) -> CellType {
    if exists|j: int| 0 <= j < ws.len() && in_rect(c, #[trigger] ws[j]) {
        CellType::Wall(false)
    } else if ts.contains(c) {
        CellType::Target
    } else if c == init {
        CellType::Initial(false)
    } else {
        CellType::Blank(false)
    }
}

/// What a maze text denotes: the dimensions, the start coordinate, the
/// target list and the wall rectangles. `None` when a required line or
/// number is missing or malformed, a coordinate or rectangle lies off the
/// grid, or the grid would be too large to count search nodes safely.
pub open spec fn spec_parse(input: Seq<u8>) -> Option<
    (usize, usize, (usize, usize), Seq<(usize, usize)>, Seq<(usize, usize, usize, usize)>),
> {
    let ls = spec_lines(input);
    if ls.len() < 3 {
        None
    } else {
        match spec_num_array(ls[0]) {
            None => None,
            Some(sz) => if sz.len() < 2 {
                None
            } else {
                let rows = sz[0];
                let cols = sz[1];
                if rows < 1 || cols < 1 || rows * cols > (usize::MAX - 1) / 4 {
                    None
                } else {
                    match spec_num_array(ls[1]) {
                        None => None,
                        Some(ini) => if ini.len() < 2 || !(ini[0] < cols && ini[1] < rows) {
                            None
                        } else {
                            match spec_targets(split_at(ls[2], 124)) {
                                None => None,
                                Some(ts) => if !targets_in_bounds(ts, rows, cols) {
                                    None
                                } else {
                                    match spec_walls(ls.skip(3)) {
                                        None => None,
                                        Some(ws) => if !walls_in_bounds(ws, rows, cols) {
                                            None
                                        } else {
                                            Some((rows, cols, (ini[0], ini[1]), ts, ws))
                                        },
                                    }
                                },
                            }
                        },
                    }
                }
            },
        }
    }
}

/// Why a maze text was rejected.
#[derive(Clone, Copy, PartialEq, Eq, Structural, Debug)]
pub enum GridError {
    /// A required line is missing.
    MissingLine,
    /// A number is missing or malformed.
    BadNumber,
    /// The grid dimensions are empty or too large to search safely.
    BadSize,
    /// A coordinate or wall rectangle lies off the grid.
    OutOfBounds,
}

/// If one pipe-separated piece fails to read as a target, the whole
/// target list fails.
proof fn lemma_targets_fail(pieces: Seq<Seq<u8>>, k: int)
    requires
        0 <= k < pieces.len(),
        match spec_num_array(pieces[k]) {
            None => true,
            Some(a) => a.len() < 2,
        },
    ensures
        spec_targets(pieces) is None,
    decreases pieces.len(),
{
    if pieces.len() > 0 && k < pieces.len() - 1 {
        assert(pieces.drop_last()[k] == pieces[k]);
        lemma_targets_fail(pieces.drop_last(), k);
    }
}

/// If one remaining line fails to read as a wall rectangle, the whole
/// wall list fails.
proof fn lemma_walls_fail(ls: Seq<Seq<u8>>, k: int)
    requires
        0 <= k < ls.len(),
        match spec_num_array(ls[k]) {
            None => true,
            Some(a) => a.len() < 4,
        },
    ensures
        spec_walls(ls) is None,
    decreases ls.len(),
{
    if ls.len() > 0 && k < ls.len() - 1 {
        assert(ls.drop_last()[k] == ls[k]);
        lemma_walls_fail(ls.drop_last(), k);
    }
}

/// Paints one wall rectangle onto the grid, column by column.
fn paint_rect(g: &mut Grid, w: (usize, usize, usize, usize))
    requires
        old(g).wf(),
        w.0 + w.2 <= old(g).cols,
        w.1 + w.3 <= old(g).rows,
    ensures
        final(g).wf(),
        final(g).rows == old(g).rows,
        final(g).cols == old(g).cols,
        final(g).initial == old(g).initial,
        final(g).targets@ == old(g).targets@,
        final(g).values@.len() == old(g).values@.len(),
        forall|c: (usize, usize)|
            old(g).in_bounds(c) ==> (#[trigger] final(g).cell(c)) == (if in_rect(c, w) {
                CellType::Wall(false)
            } else {
                old(g).cell(c)
            }),
{
    let mut x = w.0;
    while x < w.0 + w.2
        invariant
            g.wf(),
            g.rows == old(g).rows,
            g.cols == old(g).cols,
            g.initial == old(g).initial,
            g.targets@ == old(g).targets@,
            g.values@.len() == old(g).values@.len(),
            w.0 + w.2 <= g.cols,
            w.1 + w.3 <= g.rows,
            w.0 <= x <= w.0 + w.2,
            forall|c: (usize, usize)|
                old(g).in_bounds(c) ==> (#[trigger] g.cell(c)) == (
                if in_rect(c, w) && c.0 < x {
                    CellType::Wall(false)
                } else {
                    old(g).cell(c)
                }),
        decreases w.0 + w.2 - x,
    {
        let mut y = w.1;
        while y < w.1 + w.3
            invariant
                g.wf(),
                g.rows == old(g).rows,
                g.cols == old(g).cols,
                g.initial == old(g).initial,
                g.targets@ == old(g).targets@,
                g.values@.len() == old(g).values@.len(),
                w.0 + w.2 <= g.cols,
                w.1 + w.3 <= g.rows,
                w.0 <= x < w.0 + w.2,
                w.1 <= y <= w.1 + w.3,
                forall|c: (usize, usize)|
                    old(g).in_bounds(c) ==> (#[trigger] g.cell(c)) == (
                    if in_rect(c, w) && (c.0 < x || (c.0 == x && c.1 < y)) {
                        CellType::Wall(false)
                    } else {
                        old(g).cell(c)
                    }),
            decreases w.1 + w.3 - y,
        {
            g.set_cell((x, y), CellType::Wall(false));
            y += 1;
        }
        x += 1;
    }
}

impl Grid {
    /// Reads a grid from its text form. On success the returned grid is
    /// exactly what the text denotes: the parsed dimensions, start
    /// coordinate and target list, with walls covering targets, targets
    /// covering the start cell, and blank cells elsewhere; parsing fails
    /// exactly on the texts the format does not admit.
    pub fn parse(input: &[u8]) -> (r: Result<Grid, GridError>)
        ensures
            r matches Ok(g) ==> spec_parse(input@) matches Some(p) && {
                &&& g.wf()
                &&& g.rows == p.0
                &&& g.cols == p.1
                &&& g.initial == p.2
                &&& g.targets@ == p.3
                &&& forall|c: (usize, usize)|
                    g.in_bounds(c) ==> #[trigger] g.cell(c) == spec_cell_at(c, p.2, p.3, p.4)
            },
            r is Ok <==> spec_parse(input@) is Some,
    {
        let ghost ls = spec_lines(input@);
        let lines = lines_exec(input);
        if lines.len() < 3 {
            return Err(GridError::MissingLine);
        }
        let sz = match num_array(lines[0].as_slice()) {
            Some(v) => v,
            None => {
                return Err(GridError::BadNumber);
            }
        };
        if sz.len() < 2 {
            return Err(GridError::BadNumber);
        }
        let rows = sz[0];
        let cols = sz[1];
        let cap = (usize::MAX - 1) / 4;
        if rows < 1 || cols < 1 || rows > cap / cols {
            proof {
                if rows >= 1 && cols >= 1 {
                    assert((rows * cols <= cap) == (rows as int <= cap as int / cols as int))
                        by (nonlinear_arith)
                        requires
                            cols >= 1,
                            cap >= 0,
                    ;
                }
            }
            return Err(GridError::BadSize);
        }
        proof {
            assert((rows * cols <= cap) == (rows as int <= cap as int / cols as int))
                by (nonlinear_arith)
                requires
                    cols >= 1,
                    cap >= 0,
            ;
        }
        let ini = match num_array(lines[1].as_slice()) {
            Some(v) => v,
            None => {
                return Err(GridError::BadNumber);
            }
        };
        if ini.len() < 2 {
            return Err(GridError::BadNumber);
        }
        if !(ini[0] < cols && ini[1] < rows) {
            return Err(GridError::OutOfBounds);
        }
        let init = (ini[0], ini[1]);

        // The target list: pipe-separated number arrays.
        let pieces = split_exec(lines[2].as_slice(), 124);
        let ghost spieces = split_at(ls[2], 124);
        let m = pieces.len();
        let mut ts: Vec<(usize, usize)> = Vec::new();
        let mut k: usize = 0;
        while k < m
            invariant
                m == pieces@.len(),
                k <= m,
                m == spieces.len(),
                ls == spec_lines(input@),
                3 <= ls.len(),
                spec_num_array(ls[0]) == Some(sz@),
                2 <= sz@.len(),
                rows == sz@[0],
                cols == sz@[1],
                1 <= rows && 1 <= cols,
                rows * cols <= (usize::MAX - 1) / 4,
                spec_num_array(ls[1]) == Some(ini@),
                2 <= ini@.len(),
                init == (ini@[0], ini@[1]),
                init.0 < cols && init.1 < rows,
                spieces == split_at(ls[2], 124),
                forall|j: int| 0 <= j < m ==> (#[trigger] pieces@[j])@ == spieces[j],
                spec_targets(spieces.take(k as int)) == Some(ts@),
            decreases m - k,
        {
            proof {
                assert(spieces.take(k + 1).drop_last() =~= spieces.take(k as int));
                assert(spieces.take(k + 1).last() == spieces[k as int]);
            }
            let a = match num_array(pieces[k].as_slice()) {
                Some(v) => v,
                None => {
                    proof {
                        lemma_targets_fail(spieces, k as int);
                    }
                    return Err(GridError::BadNumber);
                }
            };
            if a.len() < 2 {
                proof {
                    lemma_targets_fail(spieces, k as int);
                }
                return Err(GridError::BadNumber);
            }
            ts.push((a[0], a[1]));
            k += 1;
        }
        proof {
            assert(spieces.take(m as int) =~= spieces);
        }
        // Every target must lie on the grid.
        let mut k2: usize = 0;
        while k2 < ts.len()
            invariant
                spec_targets(spieces) == Some(ts@),
                ls == spec_lines(input@),
                3 <= ls.len(),
                spec_num_array(ls[0]) == Some(sz@),
                2 <= sz@.len(),
                rows == sz@[0],
                cols == sz@[1],
                1 <= rows && 1 <= cols,
                rows * cols <= (usize::MAX - 1) / 4,
                spec_num_array(ls[1]) == Some(ini@),
                2 <= ini@.len(),
                init == (ini@[0], ini@[1]),
                init.0 < cols && init.1 < rows,
                spieces == split_at(ls[2], 124),
                k2 <= ts.len(),
                forall|j: int| 0 <= j < k2 ==> (#[trigger] ts@[j]).0 < cols && ts@[j].1 < rows,
            decreases ts.len() - k2,
        {
            let t = ts[k2];
            if !(t.0 < cols && t.1 < rows) {
                return Err(GridError::OutOfBounds);
            }
            k2 += 1;
        }

        // The wall rectangles: one number array per remaining line.
        let ghost swalls = ls.skip(3);
        let n_lines = lines.len();
        let mut ws: Vec<(usize, usize, usize, usize)> = Vec::new();
        let mut j: usize = 3;
        while j < n_lines
            invariant
                n_lines == lines@.len(),
                3 <= j <= n_lines,
                n_lines == ls.len(),
                ls == spec_lines(input@),
                3 <= ls.len(),
                spec_num_array(ls[0]) == Some(sz@),
                2 <= sz@.len(),
                rows == sz@[0],
                cols == sz@[1],
                1 <= rows && 1 <= cols,
                rows * cols <= (usize::MAX - 1) / 4,
                spec_num_array(ls[1]) == Some(ini@),
                2 <= ini@.len(),
                init == (ini@[0], ini@[1]),
                init.0 < cols && init.1 < rows,
                spieces == split_at(ls[2], 124),
                spec_targets(spieces) == Some(ts@),
                targets_in_bounds(ts@, rows, cols),
                forall|q: int| 0 <= q < n_lines ==> (#[trigger] lines@[q])@ == ls[q],
                swalls == ls.skip(3),
                spec_walls(swalls.take(j - 3)) == Some(ws@),
            decreases n_lines - j,
        {
            proof {
                assert(swalls.take(j - 3 + 1).drop_last() =~= swalls.take(j - 3));
                assert(swalls.take(j - 3 + 1).last() == swalls[j - 3]);
                assert(swalls[j - 3] == ls[j as int]);
            }
            let a = match num_array(lines[j].as_slice()) {
                Some(v) => v,
                None => {
                    proof {
                        lemma_walls_fail(swalls, j - 3);
                    }
                    return Err(GridError::BadNumber);
                }
            };
            if a.len() < 4 {
                proof {
                    lemma_walls_fail(swalls, j - 3);
                }
                return Err(GridError::BadNumber);
            }
            ws.push((a[0], a[1], a[2], a[3]));
            j += 1;
        }
        proof {
            assert(swalls.take(n_lines - 3) =~= swalls);
        }
        // Every wall rectangle must lie on the grid.
        let mut k3: usize = 0;
        while k3 < ws.len()
            invariant
                spec_walls(swalls) == Some(ws@),
                ls == spec_lines(input@),
                3 <= ls.len(),
                spec_num_array(ls[0]) == Some(sz@),
                2 <= sz@.len(),
                rows == sz@[0],
                cols == sz@[1],
                1 <= rows && 1 <= cols,
                rows * cols <= (usize::MAX - 1) / 4,
                spec_num_array(ls[1]) == Some(ini@),
                2 <= ini@.len(),
                init == (ini@[0], ini@[1]),
                init.0 < cols && init.1 < rows,
                spieces == split_at(ls[2], 124),
                spec_targets(spieces) == Some(ts@),
                targets_in_bounds(ts@, rows, cols),
                swalls == ls.skip(3),
                k3 <= ws.len(),
                forall|q: int|
                    0 <= q < k3 ==> (#[trigger] ws@[q]).0 + ws@[q].2 <= cols && ws@[q].1 + ws@[q].3
                        <= rows,
            decreases ws.len() - k3,
        {
            let w = ws[k3];
            if !(w.2 <= cols && w.0 <= cols - w.2 && w.3 <= rows && w.1 <= rows - w.3) {
                return Err(GridError::OutOfBounds);
            }
            k3 += 1;
        }

        // Assemble the grid: blank cells, then the start cell, then the
        // targets, then the walls.
        let mut g = Grid {
            rows,
            cols,
            initial: init,
            targets: ts,
            values: crate::mazegen::blank_cells(rows * cols),
        };
        let ghost tseq = g.targets@;
        let ghost wseq = ws@;
        proof {
            assert(g.wf());
        }
        g.set_cell(init, CellType::Initial(false));
        proof {
            assert forall|c: (usize, usize)| g.in_bounds(c) implies #[trigger] g.cell(c) == (
            if c == init {
                CellType::Initial(false)
            } else {
                CellType::Blank(false)
            }) by {
                g.lemma_idx(c);
            }
        }
        let nts = g.targets.len();
        let mut q: usize = 0;
        while q < nts
            invariant
                g.wf(),
                g.rows == rows,
                g.cols == cols,
                g.initial == init,
                g.targets@ == tseq,
                nts == tseq.len(),
                q <= nts,
                forall|j2: int| 0 <= j2 < tseq.len() ==> (#[trigger] tseq[j2]).0 < cols && tseq[j2].1 < rows,
                forall|c: (usize, usize)|
                    g.in_bounds(c) ==> (#[trigger] g.cell(c)) == (
                    if tseq.take(q as int).contains(c) {
                        CellType::Target
                    } else if c == init {
                        CellType::Initial(false)
                    } else {
                        CellType::Blank(false)
                    }),
            decreases nts - q,
        {
            let t = g.targets[q];
            let ghost pre = g;
            g.set_cell(t, CellType::Target);
            proof {
                assert forall|c: (usize, usize)| g.in_bounds(c) implies (#[trigger] g.cell(c)) == (
                if tseq.take(q + 1).contains(c) {
                    CellType::Target
                } else if c == init {
                    CellType::Initial(false)
                } else {
                    CellType::Blank(false)
                }) by {
                    assert(tseq.take(q + 1).drop_last() =~= tseq.take(q as int));
                    if c != t {
                        assert(g.cell(c) == pre.cell(c));
                        if tseq.take(q + 1).contains(c) {
                            let i2 = choose|i2: int|
                                0 <= i2 < tseq.take(q + 1).len() && (#[trigger] tseq.take(
                                    q + 1,
                                )[i2]) == c;
                            assert(tseq.take(q as int)[i2] == c);
                        }
                        if tseq.take(q as int).contains(c) {
                            let i2 = choose|i2: int|
                                0 <= i2 < tseq.take(q as int).len() && (#[trigger] tseq.take(
                                    q as int,
                                )[i2]) == c;
                            assert(tseq.take(q + 1)[i2] == c);
                        }
                    } else {
                        assert(tseq.take(q + 1)[q as int] == c);
                    }
                }
            }
            q += 1;
        }
        proof {
            assert(tseq.take(nts as int) =~= tseq);
        }
        let nws = ws.len();
        let mut q2: usize = 0;
        while q2 < nws
            invariant
                g.wf(),
                g.rows == rows,
                g.cols == cols,
                g.initial == init,
                g.targets@ == tseq,
                nws == wseq.len(),
                ws@ == wseq,
                q2 <= nws,
                forall|j2: int|
                    0 <= j2 < wseq.len() ==> (#[trigger] wseq[j2]).0 + wseq[j2].2 <= cols
                        && wseq[j2].1 + wseq[j2].3 <= rows,
                forall|c: (usize, usize)|
                    g.in_bounds(c) ==> (#[trigger] g.cell(c)) == (
                    if exists|j2: int| 0 <= j2 < q2 && in_rect(c, #[trigger] wseq[j2]) {
                        CellType::Wall(false)
                    } else if tseq.contains(c) {
                        CellType::Target
                    } else if c == init {
                        CellType::Initial(false)
                    } else {
                        CellType::Blank(false)
                    }),
            decreases nws - q2,
        {
            let w = ws[q2];
            let ghost pre = g;
            paint_rect(&mut g, w);
            proof {
                assert forall|c: (usize, usize)| g.in_bounds(c) implies (#[trigger] g.cell(c)) == (
                if exists|j2: int| 0 <= j2 < q2 + 1 && in_rect(c, #[trigger] wseq[j2]) {
                    CellType::Wall(false)
                } else if tseq.contains(c) {
                    CellType::Target
                } else if c == init {
                    CellType::Initial(false)
                } else {
                    CellType::Blank(false)
                }) by {
                    if in_rect(c, w) {
                        assert(in_rect(c, wseq[q2 as int]));
                    } else {
                        assert(g.cell(c) == pre.cell(c));
                    }
                }
            }
            q2 += 1;
        }
        proof {
            assert forall|c: (usize, usize)| g.in_bounds(c) implies #[trigger] g.cell(c)
                == spec_cell_at(c, init, tseq, wseq) by {
            }
        }
        Ok(g)
    }
}

/// The decimal digits of a non-negative number, most significant first.
pub open spec fn dec(n: int) -> Seq<u8>
    decreases n,
{
    if n < 10 {
        seq![(48 + n) as u8]
    } else {
        dec(n / 10).push((48 + n % 10) as u8)
    }
}

/// One serialized coordinate pair.
pub open spec fn target_entry(t: (usize, usize)) -> Seq<u8> {
    seq![40u8] + dec(t.0 as int) + seq![44u8, 32u8] + dec(t.1 as int) + seq![41u8]
}

/// The serialized target list, the entries joined by pipes.
pub open spec fn targets_text(ts: Seq<(usize, usize)>) -> Seq<u8>
    decreases ts.len(),
{
    if ts.len() == 0 {
        seq![]
    } else if ts.len() == 1 {
        target_entry(ts[0])
    } else {
        targets_text(ts.drop_last()) + seq![32u8, 124u8, 32u8] + target_entry(ts.last())
    }
}

/// One serialized wall line: a unit rectangle at the cell's coordinates.
pub open spec fn wall_entry(x: int, y: int) -> Seq<u8> {
    seq![40u8] + dec(x) + seq![44u8, 32u8] + dec(y) + seq![44u8, 32u8, 49u8, 44u8, 32u8, 49u8,
        41u8, 10u8]
}

/// The serialized wall lines for every wall cell at position `i` or later
/// of the cell array, in array order.
pub open spec fn walls_text(g: Grid, i: int) -> Seq<u8>
    decreases g.values@.len() - i,
{
    if i < 0 || i >= g.values@.len() {
        seq![]
    } else {
        (if g.values@[i] is Wall {
            wall_entry(i % (g.cols as int), i / (g.cols as int))
        } else {
            seq![]
        }) + walls_text(g, i + 1)
    }
}

/// The whole serialized grid: the size line, the start line, the target
/// line, then one line per wall cell.
pub open spec fn spec_serialize(g: Grid) -> Seq<u8> {
    seq![91u8] + dec(g.rows as int) + seq![44u8, 32u8] + dec(g.cols as int) + seq![93u8, 10u8]
        + seq![40u8] + dec(g.initial.0 as int) + seq![44u8, 32u8] + dec(g.initial.1 as int) + seq![
        41u8,
        10u8,
    ] + targets_text(g.targets@) + seq![10u8] + walls_text(g, 0)
}

/// Appends the decimal digits of `n`.
fn push_dec(out: &mut Vec<u8>, n: usize)
    ensures
        final(out)@ == old(out)@ + dec(n as int),
{
    let mut tmp: Vec<u8> = Vec::new();
    let mut m = n;
    let mut done = false;
    while !done
        invariant
            !done ==> dec(n as int) == dec(m as int) + tmp@.reverse(),
            done ==> m == 0 && dec(n as int) == tmp@.reverse() && tmp@.len() >= 1,
        decreases m + (if done {
            0int
        } else {
            1int
        }),
    {
        proof {
            assert(tmp@.push((48 + m % 10) as u8).reverse() =~= seq![(48 + m % 10) as u8]
                + tmp@.reverse());
        }
        tmp.push((m % 10) as u8 + 48);
        if m < 10 {
            done = true;
        } else {
            proof {
                assert(dec(m as int) == dec(m as int / 10).push((48 + m as int % 10) as u8));
                assert(dec(m as int / 10) + seq![(48 + m as int % 10) as u8] =~= dec(m as int));
            }
        }
        m = m / 10;
    }
    let k = tmp.len();
    let mut i: usize = 0;
    while i < k
        invariant
            k == tmp@.len(),
            i <= k,
            out@ == old(out)@ + tmp@.reverse().take(i as int),
        decreases k - i,
    {
        proof {
            assert(tmp@.reverse().take(i + 1).drop_last() =~= tmp@.reverse().take(i as int));
            assert(tmp@.reverse().take(i + 1).last() == tmp@[k - 1 - i]);
            assert((old(out)@ + tmp@.reverse().take(i as int)).push(tmp@[k - 1 - i]) =~= old(out)@
                + tmp@.reverse().take(i + 1));
        }
        out.push(tmp[k - 1 - i]);
        i += 1;
    }
    proof {
        assert(tmp@.reverse().take(k as int) =~= tmp@.reverse());
    }
}

/// Appends one serialized coordinate pair.
fn push_target_entry(out: &mut Vec<u8>, t: (usize, usize))
    ensures
        final(out)@ == old(out)@ + target_entry(t),
{
    out.push(40);
    push_dec(out, t.0);
    out.push(44);
    out.push(32);
    push_dec(out, t.1);
    out.push(41);
    proof {
        assert(out@ =~= old(out)@ + target_entry(t));
    }
}

/// Appends one serialized unit wall rectangle line.
fn push_wall_entry(out: &mut Vec<u8>, x: usize, y: usize)
    ensures
        final(out)@ == old(out)@ + wall_entry(x as int, y as int),
{
    out.push(40);
    push_dec(out, x);
    out.push(44);
    out.push(32);
    push_dec(out, y);
    out.push(44);
    out.push(32);
    out.push(49);
    out.push(44);
    out.push(32);
    out.push(49);
    out.push(41);
    out.push(10);
    proof {
        assert(out@ =~= old(out)@ + wall_entry(x as int, y as int));
    }
}

impl Grid {
    /// Serializes the grid into the maze text format: the size line, the
    /// start line, the pipe-joined target line, then one unit wall
    /// rectangle per wall cell in row-major order.
    pub fn serialize(&self) -> (r: Vec<u8>)
        requires
            self.wf(),
        ensures
            r@ == spec_serialize(*self),
    {
        let mut out: Vec<u8> = Vec::new();
        out.push(91);
        push_dec(&mut out, self.rows);
        out.push(44);
        out.push(32);
        push_dec(&mut out, self.cols);
        out.push(93);
        out.push(10);
        out.push(40);
        push_dec(&mut out, self.initial.0);
        out.push(44);
        out.push(32);
        push_dec(&mut out, self.initial.1);
        out.push(41);
        out.push(10);
        let ghost header = out@;

        let nts = self.targets.len();
        let mut k: usize = 0;
        while k < nts
            invariant
                nts == self.targets@.len(),
                k <= nts,
                out@ == header + targets_text(self.targets@.take(k as int)),
            decreases nts - k,
        {
            proof {
                assert(self.targets@.take(k + 1).drop_last() =~= self.targets@.take(k as int));
                assert(self.targets@.take(k + 1).last() == self.targets@[k as int]);
            }
            if k > 0 {
                out.push(32);
                out.push(124);
                out.push(32);
            }
            let t = self.targets[k];
            push_target_entry(&mut out, t);
            proof {
                if k == 0 {
                    assert(out@ =~= header + targets_text(self.targets@.take(1)));
                } else {
                    assert(out@ =~= header + targets_text(self.targets@.take(k + 1)));
                }
            }
            k += 1;
        }
        proof {
            assert(self.targets@.take(nts as int) =~= self.targets@);
        }
        out.push(10);
        let ghost upper = out@;
        proof {
            assert(upper =~= header + targets_text(self.targets@) + seq![10u8]);
        }

        let n = self.values.len();
        let mut i: usize = 0;
        while i < n
            invariant
                self.wf(),
                n == self.values@.len(),
                i <= n,
                spec_serialize(*self) == out@ + walls_text(*self, i as int),
            decreases n - i,
        {
            let ghost pre = out@;
            let is_wall = match &self.values[i] {
                CellType::Wall(_) => true,
                _ => false,
            };
            if is_wall {
                let x = i % self.cols;
                let y = i / self.cols;
                push_wall_entry(&mut out, x, y);
                proof {
                    assert(walls_text(*self, i as int) == wall_entry(x as int, y as int)
                        + walls_text(*self, i + 1));
                    assert(pre + (wall_entry(x as int, y as int) + walls_text(*self, i + 1)) =~= (
                    pre + wall_entry(x as int, y as int)) + walls_text(*self, i + 1));
                }
            } else {
                proof {
                    assert(walls_text(*self, i as int) =~= walls_text(*self, i + 1));
                }
            }
            i += 1;
        }
        proof {
            assert(walls_text(*self, n as int) =~= Seq::<u8>::empty());
            assert(out@ =~= spec_serialize(*self));
        }
        out
    }
}

/// The character a cell renders as: `I` for the start, `T` for a target,
/// `X` for a wall, a space for a blank cell.
pub open spec fn cell_char(c: CellType) -> u8 {
    match c {
        CellType::Initial(_) => 73,
        CellType::Target => 84,
        CellType::Wall(_) => 88,
        CellType::Blank(_) => 32,
    }
}

/// One rendered row from column `x` on, ending in a newline.
pub open spec fn row_text(g: Grid, y: int, x: int) -> Seq<u8>
    decreases g.cols - x,
{
    if x < 0 || x >= g.cols {
        seq![10u8]
    } else {
        seq![cell_char(g.values@[x + y * g.cols])] + row_text(g, y, x + 1)
    }
}

/// The rendered rows from row `y` down.
pub open spec fn rows_text(g: Grid, y: int) -> Seq<u8>
    decreases g.rows - y,
{
    if y < 0 || y >= g.rows {
        seq![]
    } else {
        row_text(g, y, 0) + rows_text(g, y + 1)
    }
}

/// The whole rendered grid, one text line per row.
pub open spec fn spec_render(g: Grid) -> Seq<u8> {
    rows_text(g, 0)
}

impl Grid {
    /// Renders the grid as plain text, one character per cell and one line
    /// per row.
    pub fn render(&self) -> (r: Vec<u8>)
        requires
            self.wf(),
        ensures
            r@ == spec_render(*self),
    {
        let mut out: Vec<u8> = Vec::new();
        let mut y: usize = 0;
        while y < self.rows
            invariant
                self.wf(),
                y <= self.rows,
                spec_render(*self) == out@ + rows_text(*self, y as int),
            decreases self.rows - y,
        {
            let mut x: usize = 0;
            while x < self.cols
                invariant
                    self.wf(),
                    y < self.rows,
                    x <= self.cols,
                    spec_render(*self) == out@ + row_text(*self, y as int, x as int) + rows_text(
                        *self,
                        y as int + 1,
                    ),
                decreases self.cols - x,
            {
                proof {
                    self.lemma_idx((x, y));
                }
                let i = self.index((x, y));
                let b = match &self.values[i] {
                    CellType::Initial(_) => 73,
                    CellType::Target => 84,
                    CellType::Wall(_) => 88,
                    CellType::Blank(_) => 32,
                };
                out.push(b);
                x += 1;
            }
            out.push(10);
            y += 1;
        }
        proof {
            assert(rows_text(*self, self.rows as int) =~= Seq::<u8>::empty());
            assert(out@ =~= spec_render(*self));
        }
        out
    }
}

/// Whether no byte of `s` equals `b`.
pub open spec fn avoids(s: Seq<u8>, b: u8) -> bool {
    forall|j: int| 0 <= j < s.len() ==> (#[trigger] s[j]) != b
}

/// The digits of a number are digits, they denote the number again, and
/// there is at least one of them.
proof fn lemma_dec_digits(n: int)
    requires
        n >= 0,
    ensures
        dec(n).len() >= 1,
        forall|j: int| 0 <= j < dec(n).len() ==> 48 <= (#[trigger] dec(n)[j]) <= 57,
        digits_value(dec(n)) == n,
    decreases n,
{
    if n < 10 {
        assert(dec(n) =~= seq![(48 + n) as u8]);
        assert(dec(n).drop_last() =~= Seq::<u8>::empty());
        assert(digits_value(Seq::<u8>::empty()) == 0);
        assert(dec(n).last() == (48 + n) as u8);
        assert((48 + n) as u8 == 48 + n);
        assert(digits_value(dec(n)) == digits_value(dec(n).drop_last()) * 10 + (dec(n).last()
            - 48));
    } else {
        lemma_dec_digits(n / 10);
        let d = dec(n);
        assert(d == dec(n / 10).push((48 + n % 10) as u8));
        assert(d.drop_last() =~= dec(n / 10));
        assert(d.last() == (48 + n % 10) as u8);
        assert(d.last() - 48 == n % 10);
        assert(digits_value(d) == digits_value(dec(n / 10)) * 10 + n % 10);
        assert(digits_value(d) == (n / 10) * 10 + n % 10);
        assert((n / 10) * 10 + n % 10 == n) by (nonlinear_arith)
            requires
                n >= 0,
        ;
        assert forall|j: int| 0 <= j < d.len() implies 48 <= (#[trigger] d[j]) <= 57 by {
            if j < d.len() - 1 {
                assert(d[j] == dec(n / 10)[j]);
            }
        }
    }
}

/// Reading the digits of a number gives the number back.
proof fn lemma_parse_dec(n: usize)
    ensures
        spec_parse_usize(dec(n as int)) == Some(n),
{
    lemma_dec_digits(n as int);
    let t = dec(n as int);
    assert(t[0] != 43);
    assert(all_digits(t));
}

/// The first separator of `a + [sep] + rest` is the one after `a`, when
/// `a` itself avoids the separator.
proof fn lemma_find_concat(a: Seq<u8>, rest: Seq<u8>, sep: u8)
    requires
        avoids(a, sep),
    ensures
        find(a + seq![sep] + rest, sep) == a.len(),
    decreases a.len(),
{
    let s = a + seq![sep] + rest;
    if a.len() == 0 {
        assert(s[0] == sep);
    } else {
        assert(s[0] == a[0]);
        assert(s.skip(1) =~= a.skip(1) + seq![sep] + rest);
        assert(avoids(a.skip(1), sep));
        lemma_find_concat(a.skip(1), rest, sep);
    }
}

/// A sequence that avoids the separator has no separator to find.
proof fn lemma_find_absent(a: Seq<u8>, sep: u8)
    requires
        avoids(a, sep),
    ensures
        find(a, sep) == a.len(),
    decreases a.len(),
{
    if a.len() > 0 {
        assert(avoids(a.skip(1), sep));
        lemma_find_absent(a.skip(1), sep);
    }
}

/// Splitting takes off the piece before the first separator.
proof fn lemma_split_cons(a: Seq<u8>, rest: Seq<u8>, sep: u8)
    requires
        avoids(a, sep),
    ensures
        split_at(a + seq![sep] + rest, sep) == seq![a] + split_at(rest, sep),
{
    let s = a + seq![sep] + rest;
    lemma_find_concat(a, rest, sep);
    assert(s.take(a.len() as int) =~= a);
    assert(s.skip(a.len() as int + 1) =~= rest);
}

/// A separator-free sequence splits into itself alone.
proof fn lemma_split_single(a: Seq<u8>, sep: u8)
    requires
        avoids(a, sep),
    ensures
        split_at(a, sep) == seq![a],
{
    lemma_find_absent(a, sep);
}

/// Line splitting takes off a newline-free line that does not end in a
/// carriage return.
proof fn lemma_lines_cons(l: Seq<u8>, rest: Seq<u8>)
    requires
        avoids(l, 10),
        l.len() == 0 || l.last() != 13,
    ensures
        spec_lines(l + seq![10u8] + rest) == seq![l] + spec_lines(rest),
{
    let s = l + seq![10u8] + rest;
    lemma_find_concat(l, rest, 10);
    assert(s.len() > 0);
    assert(s.take(l.len() as int) =~= l);
    assert(chomp_cr(s.take(l.len() as int)) == l);
    assert(s.skip(l.len() as int + 1) =~= rest);
}

/// Trimming leaves a piece with clean ends alone, and removes one plain
/// space from either end.
proof fn lemma_trim_pad(x: Seq<u8>)
    requires
        x.len() > 0,
        !is_ws(x[0]),
        !is_ws(x.last()),
    ensures
        trim(x) == x,
        trim(seq![32u8] + x) == x,
        trim(x + seq![32u8]) == x,
        trim(seq![32u8] + x + seq![32u8]) == x,
{
    assert(trim_front(x) == x);
    assert(trim_back(x) == x);
    assert((seq![32u8] + x).skip(1) =~= x);
    assert(trim_front(seq![32u8] + x) == x);
    assert((x + seq![32u8]).last() == 32);
    assert((x + seq![32u8]).drop_last() =~= x);
    assert(trim_front(x + seq![32u8]) == x + seq![32u8]);
    assert(trim_back(x + seq![32u8]) == trim_back(x));
    let w = seq![32u8] + x + seq![32u8];
    assert(w[0] == 32);
    assert(w.skip(1) =~= x + seq![32u8]);
    assert(trim_front(w) == trim_front(x + seq![32u8]));
    assert(trim_front(x + seq![32u8]) == x + seq![32u8]);
}

/// Stripping removes one bracket from an end whose next byte differs, and
/// leaves pieces that do not carry the bracket at that end alone.
proof fn lemma_strip_shapes(x: Seq<u8>, b: u8)
    ensures
        x.len() > 0 && x[0] != b ==> strip_front(x, b) == x,
        x.len() > 0 && x.last() != b ==> strip_back(x, b) == x,
        x.len() > 1 && x[0] == b && x[1] != b ==> strip_front(x, b) == x.skip(1),
        x.len() > 1 && x.last() == b && x[x.len() - 2] != b ==> strip_back(x, b) == x.drop_last(),
{
    if x.len() > 1 && x[0] == b && x[1] != b {
        assert(x.skip(1)[0] == x[1]);
        assert(strip_front(x, b) == strip_front(x.skip(1), b));
    }
    if x.len() > 1 && x.last() == b && x[x.len() - 2] != b {
        assert(x.drop_last().last() == x[x.len() - 2]);
        assert(strip_back(x, b) == strip_back(x.drop_last(), b));
    }
}

/// The comma-and-space-joined decimal texts of a number list.
pub open spec fn nums_text(xs: Seq<usize>) -> Seq<u8>
    decreases xs.len(),
{
    if xs.len() <= 1 {
        dec(xs[0] as int)
    } else {
        dec(xs[0] as int) + seq![44u8, 32u8] + nums_text(xs.skip(1))
    }
}

/// The digits of a number avoid any non-digit byte.
proof fn lemma_dec_avoids(n: int, b: u8)
    requires
        n >= 0,
        b < 48 || b > 57,
    ensures
        avoids(dec(n), b),
{
    lemma_dec_digits(n);
}

/// Reading number lists composes over concatenation.
proof fn lemma_nums_append(u: Seq<Seq<u8>>, v: Seq<Seq<u8>>, su: Seq<usize>, sv: Seq<usize>)
    requires
        spec_nums(u) == Some(su),
        spec_nums(v) == Some(sv),
    ensures
        spec_nums(u + v) == Some(su + sv),
    decreases v.len(),
{
    if v.len() == 0 {
        assert(u + v =~= u);
        assert(su + sv =~= su);
    } else {
        let v0 = v.drop_last();
        let s0 = spec_nums(v0)->Some_0;
        assert(sv == s0.push(spec_parse_usize(trim(v.last()))->Some_0));
        lemma_nums_append(u, v0, su, s0);
        assert((u + v).drop_last() =~= u + v0);
        assert((u + v).last() == v.last());
        assert((su + s0).push(sv.last()) =~= su + sv);
    }
}

/// Reading a number list joined with commas - with an optional leading
/// space, as a space follows each comma - recovers the numbers.
proof fn lemma_nums_pieces(xs: Seq<usize>, lead_ws: bool)
    requires
        xs.len() >= 1,
    ensures
        spec_nums(
            split_at(
                if lead_ws {
                    seq![32u8] + nums_text(xs)
                } else {
                    nums_text(xs)
                },
                44,
            ),
        ) == Some(xs),
    decreases xs.len(),
{
    let text = if lead_ws {
        seq![32u8] + nums_text(xs)
    } else {
        nums_text(xs)
    };
    lemma_dec_digits(xs[0] as int);
    lemma_dec_avoids(xs[0] as int, 44);
    if xs.len() == 1 {
        assert(avoids(text, 44));
        lemma_split_single(text, 44);
        assert(split_at(text, 44) == seq![text]);
        assert(seq![text].drop_last() =~= Seq::<Seq<u8>>::empty());
        lemma_parse_dec(xs[0]);
        if lead_ws {
            lemma_trim_pad(dec(xs[0] as int));
            assert(trim(text) == dec(xs[0] as int));
        } else {
            lemma_trim_pad(dec(xs[0] as int));
            assert(trim(text) == dec(xs[0] as int));
        }
        assert(spec_nums(Seq::<Seq<u8>>::empty()) == Some(Seq::<usize>::empty()));
        assert(Seq::<usize>::empty().push(xs[0]) =~= seq![xs[0]]);
        assert(spec_nums(split_at(text, 44)) == Some(seq![xs[0]]));
        assert(seq![xs[0]] =~= xs);
    } else {
        let head = if lead_ws {
            seq![32u8] + dec(xs[0] as int)
        } else {
            dec(xs[0] as int)
        };
        let rest_text = seq![32u8] + nums_text(xs.skip(1));
        assert(avoids(head, 44));
        assert(text =~= head + seq![44u8] + rest_text);
        lemma_split_cons(head, rest_text, 44);
        lemma_nums_pieces(xs.skip(1), true);
        lemma_trim_pad(dec(xs[0] as int));
        assert(trim(head) == dec(xs[0] as int));
        lemma_parse_dec(xs[0]);
        assert(seq![head].drop_last() =~= Seq::<Seq<u8>>::empty());
        assert(spec_nums(Seq::<Seq<u8>>::empty()) == Some(Seq::<usize>::empty()));
        assert(Seq::<usize>::empty().push(xs[0]) =~= seq![xs[0]]);
        assert(spec_nums(seq![head]) == Some(seq![xs[0]]));
        lemma_nums_append(seq![head], split_at(rest_text, 44), seq![xs[0]], xs.skip(1));
        assert(seq![head] + split_at(rest_text, 44) =~= split_at(text, 44));
        assert(seq![xs[0]] + xs.skip(1) =~= xs);
    }
}

/// A line whose trimmed form is a bracketed comma-joined number list reads
/// as exactly those numbers.
proof fn lemma_num_array_shape(line: Seq<u8>, xs: Seq<usize>, od: u8, cd: u8)
    requires
        xs.len() >= 1,
        od == 91 || od == 40,
        cd == 93 || cd == 41,
        trim(line) == seq![od] + nums_text(xs) + seq![cd],
    ensures
        spec_num_array(line) == Some(xs),
{
    let core = nums_text(xs);
    let t1 = trim(line);
    lemma_dec_digits(xs[0] as int);
    assert(core[0] == dec(xs[0] as int)[0]);
    assert(48 <= core[0] <= 57);
    lemma_nums_text_ends(xs);
    assert(t1[0] == od);
    assert(t1.last() == cd);
    assert(t1[1] == core[0]);
    assert(t1.len() >= 3);
    lemma_strip_shapes(t1, 91);
    let t2 = strip_front(t1, 91);
    assert(t1.skip(1) =~= core + seq![cd]);
    let after_sq = if od == 91 {
        core + seq![cd]
    } else {
        t1
    };
    assert(t2 == after_sq);
    assert(after_sq.last() == cd);
    lemma_strip_shapes(t2, 93);
    let t3 = strip_back(t2, 93);
    if od == 91 {
        assert((core + seq![cd]).drop_last() =~= core);
        assert((core + seq![cd])[(core + seq![cd]).len() - 2] == core.last());
    } else {
        assert(t1.drop_last() =~= seq![od] + core);
        assert(t1[t1.len() - 2] == core.last());
    }
    let after_sq2 = if cd == 93 {
        if od == 91 {
            core
        } else {
            seq![od] + core
        }
    } else {
        after_sq
    };
    assert(t3 == after_sq2);
    // After the square brackets are gone, trim does nothing: the piece
    // starts with a digit or a parenthesis and ends likewise.
    assert(after_sq2.len() > 0);
    assert(!is_ws(after_sq2[0]));
    assert(!is_ws(after_sq2.last()));
    lemma_trim_pad(after_sq2);
    let t4 = trim(t3);
    assert(t4 == after_sq2);
    lemma_strip_shapes(t4, 40);
    let t5 = strip_front(t4, 40);
    let after_p = if od == 40 && cd == 93 {
        (seq![od] + core).skip(1)
    } else if od == 40 && cd == 41 {
        (seq![od] + core + seq![cd]).skip(1)
    } else {
        after_sq2
    };
    assert((seq![od] + core).skip(1) =~= core);
    assert((seq![od] + core + seq![cd]).skip(1) =~= core + seq![cd]);
    let t5v = if od == 40 {
        if cd == 93 {
            core
        } else {
            core + seq![cd]
        }
    } else {
        after_sq2
    };
    assert(t5 == t5v);
    lemma_strip_shapes(t5, 41);
    if cd == 41 && od == 40 {
        assert((core + seq![cd]).drop_last() =~= core);
        assert((core + seq![cd])[(core + seq![cd]).len() - 2] == core.last());
    }
    if cd == 41 && od == 91 {
        assert(after_sq2 == core + seq![cd]);
        assert((core + seq![cd]).drop_last() =~= core);
        assert((core + seq![cd])[(core + seq![cd]).len() - 2] == core.last());
    }
    let t6 = strip_back(t5, 41);
    assert(t6 == core);
    lemma_trim_pad(core);
    assert(trim(t6) == core);
    lemma_nums_pieces(xs, false);
}

/// A joined number list starts and ends with a digit.
proof fn lemma_nums_text_ends(xs: Seq<usize>)
    requires
        xs.len() >= 1,
    ensures
        nums_text(xs).len() >= 1,
        48 <= nums_text(xs)[0] <= 57,
        48 <= nums_text(xs).last() <= 57,
    decreases xs.len(),
{
    lemma_dec_digits(xs[0] as int);
    if xs.len() > 1 {
        lemma_nums_text_ends(xs.skip(1));
        assert(nums_text(xs).last() == nums_text(xs.skip(1)).last());
    }
}

/// Avoiding a byte is preserved by concatenation.
proof fn lemma_avoids_concat(a: Seq<u8>, b: Seq<u8>, c: u8)
    requires
        avoids(a, c),
        avoids(b, c),
    ensures
        avoids(a + b, c),
{
    assert forall|j: int| 0 <= j < (a + b).len() implies (#[trigger] (a + b)[j]) != c by {
        if j < a.len() {
            assert((a + b)[j] == a[j]);
        } else {
            assert((a + b)[j] == b[j - a.len()]);
        }
    }
}

/// A serialized coordinate pair is one parenthesised number list: it
/// avoids pipes, newlines and carriage returns, and has clean ends.
proof fn lemma_entry_shape(t: (usize, usize))
    ensures
        target_entry(t) == seq![40u8] + nums_text(seq![t.0, t.1]) + seq![41u8],
        avoids(target_entry(t), 124),
        avoids(target_entry(t), 10),
        target_entry(t).len() >= 2,
        target_entry(t)[0] == 40,
        target_entry(t).last() == 41,
{
    let e = target_entry(t);
    lemma_dec_digits(t.0 as int);
    lemma_dec_digits(t.1 as int);
    assert(seq![t.0, t.1].skip(1) =~= seq![t.1]);
    assert(nums_text(seq![t.1]) == dec(t.1 as int));
    assert(nums_text(seq![t.0, t.1]) == dec(t.0 as int) + seq![44u8, 32u8] + nums_text(
        seq![t.0, t.1].skip(1),
    ));
    assert(e =~= seq![40u8] + nums_text(seq![t.0, t.1]) + seq![41u8]);
    lemma_dec_avoids(t.0 as int, 124);
    lemma_dec_avoids(t.1 as int, 124);
    lemma_dec_avoids(t.0 as int, 10);
    lemma_dec_avoids(t.1 as int, 10);
    assert forall|j: int| 0 <= j < e.len() implies (#[trigger] e[j]) != 124 && e[j] != 10 by {
        let n0 = dec(t.0 as int).len() as int;
        let n1 = dec(t.1 as int).len() as int;
        if j == 0 {
        } else if j < 1 + n0 {
            assert(e[j] == dec(t.0 as int)[j - 1]);
        } else if j < 3 + n0 {
            assert(e[j] == 44 || e[j] == 32);
        } else if j < 3 + n0 + n1 {
            assert(e[j] == dec(t.1 as int)[j - 3 - n0]);
        } else {
            assert(e[j] == 41);
        }
    }
    assert(e.last() == 41);
}

/// Reading target lists composes over concatenation.
proof fn lemma_targets_append(
    u: Seq<Seq<u8>>,
    v: Seq<Seq<u8>>,
    su: Seq<(usize, usize)>,
    sv: Seq<(usize, usize)>,
)
    requires
        spec_targets(u) == Some(su),
        spec_targets(v) == Some(sv),
    ensures
        spec_targets(u + v) == Some(su + sv),
    decreases v.len(),
{
    if v.len() == 0 {
        assert(u + v =~= u);
        assert(su + sv =~= su);
    } else {
        let v0 = v.drop_last();
        let s0 = spec_targets(v0)->Some_0;
        let a = spec_num_array(v.last())->Some_0;
        assert(sv == s0.push((a[0], a[1])));
        lemma_targets_append(u, v0, su, s0);
        assert((u + v).drop_last() =~= u + v0);
        assert((u + v).last() == v.last());
        assert((su + s0).push(sv.last()) =~= su + sv);
    }
}

/// A pipe-joined target list splits on its separators; the list carries a
/// leading space exactly when a separator precedes it.
proof fn lemma_targets_front(ts: Seq<(usize, usize)>)
    requires
        ts.len() >= 2,
    ensures
        targets_text(ts) == target_entry(ts[0]) + seq![32u8, 124u8, 32u8] + targets_text(
            ts.skip(1),
        ),
    decreases ts.len(),
{
    if ts.len() == 2 {
        assert(ts.drop_last() =~= seq![ts[0]]);
        assert(targets_text(seq![ts[0]]) == target_entry(ts[0]));
        assert(ts.skip(1) =~= seq![ts[1]]);
        assert(targets_text(ts.skip(1)) == target_entry(ts[1]));
        assert(ts.last() == ts[1]);
    } else {
        let d = ts.drop_last();
        let sep = seq![32u8, 124u8, 32u8];
        lemma_targets_front(d);
        assert(d[0] == ts[0]);
        assert(ts.skip(1).drop_last() =~= d.skip(1));
        assert(ts.skip(1).last() == ts.last());
        assert(targets_text(ts.skip(1)) == targets_text(d.skip(1)) + sep + target_entry(
            ts.last(),
        ));
        assert((target_entry(ts[0]) + sep + targets_text(d.skip(1))) + sep + target_entry(
            ts.last(),
        ) =~= target_entry(ts[0]) + sep + (targets_text(d.skip(1)) + sep + target_entry(
            ts.last(),
        )));
    }
}

/// Reading the pipe-separated pieces of a serialized target list - with
/// an optional leading space, as a space follows each pipe - recovers
/// the targets.
proof fn lemma_targets_pieces(ts: Seq<(usize, usize)>, lead_ws: bool)
    requires
        ts.len() >= 1,
    ensures
        spec_targets(
            split_at(
                if lead_ws {
                    seq![32u8] + targets_text(ts)
                } else {
                    targets_text(ts)
                },
                124,
            ),
        ) == Some(ts),
    decreases ts.len(),
{
    let text = if lead_ws {
        seq![32u8] + targets_text(ts)
    } else {
        targets_text(ts)
    };
    let e0 = target_entry(ts[0]);
    lemma_entry_shape(ts[0]);
    if ts.len() == 1 {
        assert(targets_text(ts) == e0);
        assert(avoids(seq![32u8], 124));
        lemma_avoids_concat(seq![32u8], e0, 124);
        assert(avoids(text, 124));
        lemma_split_single(text, 124);
        assert(seq![text].drop_last() =~= Seq::<Seq<u8>>::empty());
        assert(spec_targets(Seq::<Seq<u8>>::empty()) == Some(Seq::<(usize, usize)>::empty()));
        lemma_trim_pad(e0);
        assert(trim(text) == e0);
        assert(e0 == seq![40u8] + nums_text(seq![ts[0].0, ts[0].1]) + seq![41u8]);
        lemma_num_array_shape(text, seq![ts[0].0, ts[0].1], 40, 41);
        assert(spec_num_array(text) == Some(seq![ts[0].0, ts[0].1]));
        assert(Seq::<(usize, usize)>::empty().push((ts[0].0, ts[0].1)) =~= seq![ts[0]]);
        assert(seq![ts[0]] =~= ts);
    } else {
        lemma_targets_front(ts);
        let head = if lead_ws {
            seq![32u8] + e0 + seq![32u8]
        } else {
            e0 + seq![32u8]
        };
        let rest_text = seq![32u8] + targets_text(ts.skip(1));
        assert(avoids(seq![32u8], 124));
        lemma_avoids_concat(e0, seq![32u8], 124);
        lemma_avoids_concat(seq![32u8], e0 + seq![32u8], 124);
        assert(avoids(head, 124));
        assert(text =~= head + seq![124u8] + rest_text);
        lemma_split_cons(head, rest_text, 124);
        lemma_targets_pieces(ts.skip(1), true);
        lemma_trim_pad(e0);
        assert(trim(head) == e0);
        lemma_num_array_shape(head, seq![ts[0].0, ts[0].1], 40, 41);
        assert(seq![head].drop_last() =~= Seq::<Seq<u8>>::empty());
        assert(spec_targets(Seq::<Seq<u8>>::empty()) == Some(Seq::<(usize, usize)>::empty()));
        assert(Seq::<(usize, usize)>::empty().push((ts[0].0, ts[0].1)) =~= seq![ts[0]]);
        assert(spec_targets(seq![head]) == Some(seq![ts[0]]));
        lemma_targets_append(seq![head], split_at(rest_text, 124), seq![ts[0]], ts.skip(1));
        assert(seq![head] + split_at(rest_text, 124) =~= split_at(text, 124));
        assert(seq![ts[0]] + ts.skip(1) =~= ts);
    }
}

/// One serialized wall line without its newline: a parenthesised unit
/// rectangle at the cell's coordinates.
pub open spec fn wall_line(x: usize, y: usize) -> Seq<u8> {
    seq![40u8] + dec(x as int) + seq![44u8, 32u8] + dec(y as int) + seq![44u8, 32u8, 49u8, 44u8,
        32u8, 49u8, 41u8]
}

/// The serialized wall lines for every wall cell at position `i` or later.
pub open spec fn wall_lines(g: Grid, i: int) -> Seq<Seq<u8>>
    decreases g.values@.len() - i,
{
    if i < 0 || i >= g.values@.len() {
        seq![]
    } else {
        (if g.values@[i] is Wall {
            seq![wall_line((i % (g.cols as int)) as usize, (i / (g.cols as int)) as usize)]
        } else {
            seq![]
        }) + wall_lines(g, i + 1)
    }
}

/// The unit wall rectangles for every wall cell at position `i` or later.
pub open spec fn wall_rects(g: Grid, i: int) -> Seq<(usize, usize, usize, usize)>
    decreases g.values@.len() - i,
{
    if i < 0 || i >= g.values@.len() {
        seq![]
    } else {
        (if g.values@[i] is Wall {
            seq![
                (
                    (i % (g.cols as int)) as usize,
                    (i / (g.cols as int)) as usize,
                    1usize,
                    1usize,
                ),
            ]
        } else {
            seq![]
        }) + wall_rects(g, i + 1)
    }
}

/// A wall line is one parenthesised number list, newline-free and
/// clean-ended, and the serialized entry is that line plus a newline.
proof fn lemma_wall_line_shape(x: usize, y: usize)
    ensures
        wall_line(x, y) == seq![40u8] + nums_text(seq![x, y, 1usize, 1usize]) + seq![41u8],
        avoids(wall_line(x, y), 10),
        wall_line(x, y).len() >= 2,
        wall_line(x, y)[0] == 40,
        wall_line(x, y).last() == 41,
        wall_entry(x as int, y as int) == wall_line(x, y) + seq![10u8],
{
    let l = wall_line(x, y);
    lemma_dec_digits(x as int);
    lemma_dec_digits(y as int);
    let xs = seq![x, y, 1usize, 1usize];
    assert(xs.skip(1) =~= seq![y, 1usize, 1usize]);
    assert(seq![y, 1usize, 1usize].skip(1) =~= seq![1usize, 1usize]);
    assert(seq![1usize, 1usize].skip(1) =~= seq![1usize]);
    assert(nums_text(seq![1usize]) == dec(1));
    assert(dec(1) =~= seq![49u8]);
    assert(nums_text(seq![1usize, 1usize]) == dec(1) + seq![44u8, 32u8] + nums_text(
        seq![1usize],
    ));
    assert(nums_text(seq![y, 1usize, 1usize]) == dec(y as int) + seq![44u8, 32u8] + nums_text(
        seq![1usize, 1usize],
    ));
    assert(nums_text(xs) == dec(x as int) + seq![44u8, 32u8] + nums_text(
        seq![y, 1usize, 1usize],
    ));
    assert(l =~= seq![40u8] + nums_text(xs) + seq![41u8]);
    lemma_dec_avoids(x as int, 10);
    lemma_dec_avoids(y as int, 10);
    assert forall|j: int| 0 <= j < l.len() implies (#[trigger] l[j]) != 10 by {
        let n0 = dec(x as int).len() as int;
        let n1 = dec(y as int).len() as int;
        if j == 0 {
        } else if j < 1 + n0 {
            assert(l[j] == dec(x as int)[j - 1]);
        } else if j < 3 + n0 {
            assert(l[j] == 44 || l[j] == 32);
        } else if j < 3 + n0 + n1 {
            assert(l[j] == dec(y as int)[j - 3 - n0]);
        } else {
            assert(l[j] == 44 || l[j] == 32 || l[j] == 49 || l[j] == 41);
        }
    }
    assert(l.last() == 41);
    assert(wall_entry(x as int, y as int) =~= l + seq![10u8]);
}

/// The serialized wall block splits into one line per wall cell.
proof fn lemma_lines_of_walls(g: Grid, i: int)
    requires
        g.wf(),
    ensures
        spec_lines(walls_text(g, i)) == wall_lines(g, i),
    decreases g.values@.len() - i,
{
    if i < 0 || i >= g.values@.len() {
        assert(walls_text(g, i) == Seq::<u8>::empty());
    } else {
        lemma_lines_of_walls(g, i + 1);
        if g.values@[i] is Wall {
            let x = (i % (g.cols as int)) as usize;
            let y = (i / (g.cols as int)) as usize;
            lemma_wall_line_shape(x, y);
            assert(walls_text(g, i) == wall_entry(i % (g.cols as int), i / (g.cols as int))
                + walls_text(g, i + 1));
            assert(i % (g.cols as int) == x as int);
            assert(i / (g.cols as int) >= 0);
            assert(wall_entry(x as int, y as int) == wall_line(x, y) + seq![10u8]);
            assert(walls_text(g, i) =~= wall_line(x, y) + seq![10u8] + walls_text(g, i + 1));
            lemma_lines_cons(wall_line(x, y), walls_text(g, i + 1));
        } else {
            assert(walls_text(g, i) =~= walls_text(g, i + 1));
            assert(wall_lines(g, i) =~= wall_lines(g, i + 1));
        }
    }
}

/// Reading wall lists composes over concatenation.
proof fn lemma_walls_append(
    u: Seq<Seq<u8>>,
    v: Seq<Seq<u8>>,
    su: Seq<(usize, usize, usize, usize)>,
    sv: Seq<(usize, usize, usize, usize)>,
)
    requires
        spec_walls(u) == Some(su),
        spec_walls(v) == Some(sv),
    ensures
        spec_walls(u + v) == Some(su + sv),
    decreases v.len(),
{
    if v.len() == 0 {
        assert(u + v =~= u);
        assert(su + sv =~= su);
    } else {
        let v0 = v.drop_last();
        let s0 = spec_walls(v0)->Some_0;
        let a = spec_num_array(v.last())->Some_0;
        assert(sv == s0.push((a[0], a[1], a[2], a[3])));
        lemma_walls_append(u, v0, su, s0);
        assert((u + v).drop_last() =~= u + v0);
        assert((u + v).last() == v.last());
        assert((su + s0).push(sv.last()) =~= su + sv);
    }
}

/// Reading the serialized wall lines back gives the unit rectangles of the
/// wall cells.
proof fn lemma_rects_of_lines(g: Grid, i: int)
    requires
        g.wf(),
    ensures
        spec_walls(wall_lines(g, i)) == Some(wall_rects(g, i)),
    decreases g.values@.len() - i,
{
    if i < 0 || i >= g.values@.len() {
        assert(wall_lines(g, i) == Seq::<Seq<u8>>::empty());
        assert(wall_rects(g, i) =~= Seq::<(usize, usize, usize, usize)>::empty());
    } else {
        lemma_rects_of_lines(g, i + 1);
        if g.values@[i] is Wall {
            let x = (i % (g.cols as int)) as usize;
            let y = (i / (g.cols as int)) as usize;
            lemma_wall_line_shape(x, y);
            lemma_trim_pad(wall_line(x, y));
            lemma_num_array_shape(wall_line(x, y), seq![x, y, 1usize, 1usize], 40, 41);
            assert(seq![wall_line(x, y)].drop_last() =~= Seq::<Seq<u8>>::empty());
            assert(spec_walls(Seq::<Seq<u8>>::empty()) == Some(
                Seq::<(usize, usize, usize, usize)>::empty(),
            ));
            assert(Seq::<(usize, usize, usize, usize)>::empty().push((x, y, 1usize, 1usize))
                =~= seq![(x, y, 1usize, 1usize)]);
            assert(spec_walls(seq![wall_line(x, y)]) == Some(seq![(x, y, 1usize, 1usize)]));
            lemma_walls_append(
                seq![wall_line(x, y)],
                wall_lines(g, i + 1),
                seq![(x, y, 1usize, 1usize)],
                wall_rects(g, i + 1),
            );
            assert(seq![wall_line(x, y)] + wall_lines(g, i + 1) =~= wall_lines(g, i));
            assert(seq![(x, y, 1usize, 1usize)] + wall_rects(g, i + 1) =~= wall_rects(g, i));
        } else {
            assert(wall_lines(g, i) =~= wall_lines(g, i + 1));
            assert(wall_rects(g, i) =~= wall_rects(g, i + 1));
        }
    }
}

/// A serialized target list is newline-free and does not end in a
/// carriage return.
proof fn lemma_targets_text_clean(ts: Seq<(usize, usize)>)
    requires
        ts.len() >= 1,
    ensures
        avoids(targets_text(ts), 10),
        targets_text(ts).len() >= 1,
        targets_text(ts).last() == 41,
    decreases ts.len(),
{
    lemma_entry_shape(ts[0]);
    if ts.len() == 1 {
    } else {
        lemma_targets_text_clean(ts.drop_last());
        lemma_entry_shape(ts.last());
        assert(avoids(seq![32u8, 124u8, 32u8], 10));
        lemma_avoids_concat(targets_text(ts.drop_last()), seq![32u8, 124u8, 32u8], 10);
        lemma_avoids_concat(
            targets_text(ts.drop_last()) + seq![32u8, 124u8, 32u8],
            target_entry(ts.last()),
            10,
        );
        assert(targets_text(ts).last() == target_entry(ts.last()).last());
    }
}

/// Every unit rectangle of the wall list lies on the grid.
proof fn lemma_wall_rects_bounds(g: Grid, i: int)
    requires
        g.wf(),
    ensures
        walls_in_bounds(wall_rects(g, i), g.rows, g.cols),
    decreases g.values@.len() - i,
{
    if i < 0 || i >= g.values@.len() {
    } else {
        lemma_wall_rects_bounds(g, i + 1);
        let rest = wall_rects(g, i + 1);
        if g.values@[i] is Wall {
            let x = (i % (g.cols as int)) as usize;
            let y = (i / (g.cols as int)) as usize;
            assert(i < g.rows * g.cols);
            assert(i / (g.cols as int) < g.rows as int) by (nonlinear_arith)
                requires
                    0 <= i < g.rows * g.cols,
                    1 <= g.cols,
                    1 <= g.rows,
            ;
            assert(wall_rects(g, i) =~= seq![(x, y, 1usize, 1usize)] + rest);
            assert forall|j: int|
                0 <= j < wall_rects(g, i).len() implies (#[trigger] wall_rects(g, i)[j]).0
                + wall_rects(g, i)[j].2 <= g.cols && wall_rects(g, i)[j].1 + wall_rects(
                g,
                i,
            )[j].3 <= g.rows by {
                if j > 0 {
                    assert(wall_rects(g, i)[j] == rest[j - 1]);
                }
            }
        } else {
            assert(wall_rects(g, i) =~= rest);
        }
    }
}

/// A rectangle of the wall list covers a coordinate exactly when that
/// coordinate's cell, at or after the scan position, is a wall.
proof fn lemma_wall_rects_cover(g: Grid, i: int, c: (usize, usize))
    requires
        g.wf(),
        g.in_bounds(c),
        0 <= i,
    ensures
        (exists|j: int| 0 <= j < wall_rects(g, i).len() && in_rect(c, #[trigger] wall_rects(g, i)[j]))
            <==> (g.idx(c) >= i && g.cell(c) is Wall),
    decreases g.values@.len() - i,
{
    g.lemma_idx(c);
    if i >= g.values@.len() {
        assert(wall_rects(g, i).len() == 0);
    } else {
        lemma_wall_rects_cover(g, i + 1, c);
        let rest = wall_rects(g, i + 1);
        if g.values@[i] is Wall {
            let x = (i % (g.cols as int)) as usize;
            let y = (i / (g.cols as int)) as usize;
            let head = (x, y, 1usize, 1usize);
            assert(wall_rects(g, i) =~= seq![head] + rest);
            assert(i == (g.cols as int) * (i / (g.cols as int)) + i % (g.cols as int)) by {
                vstd::arithmetic::div_mod::lemma_fundamental_div_mod(i, g.cols as int);
            }
            assert(i / (g.cols as int) < g.rows as int) by (nonlinear_arith)
                requires
                    0 <= i < g.rows * g.cols,
                    1 <= g.cols,
                    1 <= g.rows,
            ;
            assert(in_rect(c, head) <==> (c.0 == x && c.1 == y));
            assert((c.0 == x && c.1 == y) ==> g.idx(c) == i) by (nonlinear_arith)
                requires
                    x as int == i % (g.cols as int),
                    y as int == i / (g.cols as int),
                    g.idx(c) == c.0 + c.1 * g.cols,
                    i == (g.cols as int) * (i / (g.cols as int)) + i % (g.cols as int),
            ;
            assert(g.idx(c) == i ==> (c.0 == x && c.1 == y)) by (nonlinear_arith)
                requires
                    g.idx(c) == c.0 + c.1 * g.cols,
                    c.0 < g.cols,
                    i == (g.cols as int) * (i / (g.cols as int)) + i % (g.cols as int),
                    0 <= i % (g.cols as int) < g.cols,
                    x as int == i % (g.cols as int),
                    y as int == i / (g.cols as int),
            ;
            assert(g.cell(c) == g.values@[g.idx(c)]);
            assert(g.idx(c) == i ==> g.cell(c) is Wall);
            assert forall|j: int|
                0 <= j < wall_rects(g, i).len() && in_rect(c, #[trigger] wall_rects(g, i)[j])
                implies (g.idx(c) >= i && g.cell(c) is Wall) by {
                if j == 0 {
                    assert(wall_rects(g, i)[0] == head);
                } else {
                    assert(wall_rects(g, i)[j] == rest[j - 1]);
                }
            }
            if g.idx(c) >= i && g.cell(c) is Wall {
                if g.idx(c) == i {
                    assert(in_rect(c, wall_rects(g, i)[0]));
                } else {
                    let j = choose|j: int|
                        0 <= j < rest.len() && in_rect(c, #[trigger] rest[j]);
                    assert(in_rect(c, wall_rects(g, i)[j + 1]));
                }
            }
        } else {
            assert(wall_rects(g, i) =~= rest);
            assert(wall_rects(g, i) == rest);
            if g.idx(c) == i {
                assert(g.cell(c) == g.values@[i]);
                assert(!(g.cell(c) is Wall));
            }
            assert((exists|j: int|
                0 <= j < wall_rects(g, i).len() && in_rect(c, #[trigger] wall_rects(g, i)[j]))
                == (exists|j: int| 0 <= j < rest.len() && in_rect(c, #[trigger] rest[j])));
        }
    }
}

/// Serializing a grid and parsing the text back recovers the grid: the
/// dimensions, start coordinate and target list come back as they were,
/// and every cell comes back as itself with its visited mark cleared.
/// This holds of any grid whose target cells are exactly its listed
/// target coordinates and whose start cell survives exactly where no
/// target covers it - which is just what the maze generator guarantees -
/// with at least one target, as the text format cannot carry an empty
/// target list.
#[verifier::rlimit(100)]
pub proof fn lemma_text_round_trip(g: Grid)
    requires
        g.wf(),
        g.targets@.len() >= 1,
        forall|c: (usize, usize)|
            g.in_bounds(c) ==> ((#[trigger] g.cell(c)) is Target <==> g.targets@.contains(c)),
        forall|c: (usize, usize)|
            g.in_bounds(c) ==> ((#[trigger] g.cell(c)) is Initial <==> c == g.initial
                && !g.targets@.contains(c)),
    ensures
        spec_parse(spec_serialize(g)) == Some(
            (g.rows, g.cols, g.initial, g.targets@, wall_rects(g, 0)),
        ),
        forall|c: (usize, usize)|
            g.in_bounds(c) ==> spec_cell_at(c, g.initial, g.targets@, wall_rects(g, 0))
                == crate::grid::cleared(#[trigger] g.cell(c)),
{
    let line0 = seq![91u8] + nums_text(seq![g.rows, g.cols]) + seq![93u8];
    let line1 = seq![40u8] + nums_text(seq![g.initial.0, g.initial.1]) + seq![41u8];
    let line2 = targets_text(g.targets@);
    let walls = walls_text(g, 0);

    // The serialized text is the three header lines and the wall block.
    assert(seq![g.rows, g.cols].skip(1) =~= seq![g.cols]);
    assert(nums_text(seq![g.cols]) == dec(g.cols as int));
    assert(nums_text(seq![g.rows, g.cols]) == dec(g.rows as int) + seq![44u8, 32u8] + nums_text(
        seq![g.cols],
    ));
    assert(seq![g.initial.0, g.initial.1].skip(1) =~= seq![g.initial.1]);
    assert(nums_text(seq![g.initial.1]) == dec(g.initial.1 as int));
    assert(nums_text(seq![g.initial.0, g.initial.1]) == dec(g.initial.0 as int) + seq![
        44u8,
        32u8,
    ] + nums_text(seq![g.initial.1]));
    assert(spec_serialize(g) =~= line0 + seq![10u8] + (line1 + seq![10u8] + (line2 + seq![10u8]
        + walls)));

    // Split the text into its lines.
    lemma_dec_digits(g.rows as int);
    lemma_dec_digits(g.cols as int);
    lemma_dec_digits(g.initial.0 as int);
    lemma_dec_digits(g.initial.1 as int);
    lemma_dec_avoids(g.rows as int, 10);
    lemma_dec_avoids(g.cols as int, 10);
    lemma_dec_avoids(g.initial.0 as int, 10);
    lemma_dec_avoids(g.initial.1 as int, 10);
    lemma_nums_text_ends(seq![g.rows, g.cols]);
    lemma_nums_text_ends(seq![g.initial.0, g.initial.1]);
    assert(avoids(line0, 10)) by {
        assert forall|j: int| 0 <= j < line0.len() implies (#[trigger] line0[j]) != 10 by {
            let n0 = dec(g.rows as int).len() as int;
            let n1 = dec(g.cols as int).len() as int;
            if j == 0 {
            } else if j < 1 + n0 {
                assert(line0[j] == dec(g.rows as int)[j - 1]);
            } else if j < 3 + n0 {
                assert(line0[j] == 44 || line0[j] == 32);
            } else if j < 3 + n0 + n1 {
                assert(line0[j] == dec(g.cols as int)[j - 3 - n0]);
            } else {
                assert(line0[j] == 93);
            }
        }
    }
    assert(avoids(line1, 10)) by {
        assert forall|j: int| 0 <= j < line1.len() implies (#[trigger] line1[j]) != 10 by {
            let n0 = dec(g.initial.0 as int).len() as int;
            let n1 = dec(g.initial.1 as int).len() as int;
            if j == 0 {
            } else if j < 1 + n0 {
                assert(line1[j] == dec(g.initial.0 as int)[j - 1]);
            } else if j < 3 + n0 {
                assert(line1[j] == 44 || line1[j] == 32);
            } else if j < 3 + n0 + n1 {
                assert(line1[j] == dec(g.initial.1 as int)[j - 3 - n0]);
            } else {
                assert(line1[j] == 41);
            }
        }
    }
    lemma_targets_text_clean(g.targets@);
    assert(line0.last() == 93);
    assert(line1.last() == 41);
    lemma_lines_cons(line0, line1 + seq![10u8] + (line2 + seq![10u8] + walls));
    lemma_lines_cons(line1, line2 + seq![10u8] + walls);
    lemma_lines_cons(line2, walls);
    lemma_lines_of_walls(g, 0);
    let ls = spec_lines(spec_serialize(g));
    assert(ls =~= seq![line0, line1, line2] + wall_lines(g, 0)) by {
        assert(spec_lines(line1 + seq![10u8] + (line2 + seq![10u8] + walls)) == seq![line1]
            + spec_lines(line2 + seq![10u8] + walls));
        assert(spec_lines(line2 + seq![10u8] + walls) == seq![line2] + spec_lines(walls));
    }
    assert(ls[0] == line0);
    assert(ls[1] == line1);
    assert(ls[2] == line2);
    assert(ls.len() >= 3);

    // Read the three header lines back.
    lemma_trim_pad(line0);
    lemma_num_array_shape(line0, seq![g.rows, g.cols], 91, 93);
    lemma_trim_pad(line1);
    lemma_num_array_shape(line1, seq![g.initial.0, g.initial.1], 40, 41);
    lemma_targets_pieces(g.targets@, false);
    assert(g.rows * g.cols <= (usize::MAX - 1) / 4) by (nonlinear_arith)
        requires
            4 * (g.rows * g.cols) + 1 <= usize::MAX,
            g.rows * g.cols >= 0,
    ;
    assert(targets_in_bounds(g.targets@, g.rows, g.cols));

    // Read the wall lines back.
    assert(ls.skip(3) =~= wall_lines(g, 0));
    lemma_rects_of_lines(g, 0);
    lemma_wall_rects_bounds(g, 0);

    assert(spec_parse(spec_serialize(g)) == Some(
        (g.rows, g.cols, g.initial, g.targets@, wall_rects(g, 0)),
    ));

    // Each parsed cell is the original cell with its mark cleared.
    assert forall|c: (usize, usize)| g.in_bounds(c) implies spec_cell_at(
        c,
        g.initial,
        g.targets@,
        wall_rects(g, 0),
    ) == crate::grid::cleared(#[trigger] g.cell(c)) by {
        g.lemma_idx(c);
        lemma_wall_rects_cover(g, 0, c);
        if g.cell(c) is Wall {
        } else {
            match g.cell(c) {
                CellType::Target => {}
                CellType::Initial(_) => {}
                CellType::Blank(_) => {}
                CellType::Wall(_) => {}
            }
        }
    }
}

} // verus!

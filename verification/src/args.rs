//! The command-line grammar of the sandbox: `--grid <width>x<height>`.
//!
//! Being able to change the grid without recompiling is what makes the
//! backends comparable: on small grids moving the data dominates, and the
//! difference only shows as the grid grows.

use vstd::prelude::*;
use vstd::string::*;

use crate::config;
use crate::field::strings_view;

verus! {

/// Unicode `White_Space`, the set that `char::is_whitespace` and `str::trim`
/// go by.
pub open spec fn is_white(c: char) -> bool {
    let u = c as u32;
    ||| 0x9 <= u <= 0xD
    ||| u == 0x20
    ||| u == 0x85
    ||| u == 0xA0
    ||| u == 0x1680
    ||| 0x2000 <= u <= 0x200A
    ||| u == 0x2028
    ||| u == 0x2029
    ||| u == 0x202F
    ||| u == 0x205F
    ||| u == 0x3000
}

pub open spec fn trim_start(s: Seq<char>) -> Seq<char>
    decreases s.len(),
{
    if s.len() > 0 && is_white(s[0]) {
        trim_start(s.drop_first())
    } else {
        s
    }
}

pub open spec fn trim_end(s: Seq<char>) -> Seq<char>
    decreases s.len(),
{
    if s.len() > 0 && is_white(s.last()) {
        trim_end(s.drop_last())
    } else {
        s
    }
}

/// `s` without its leading and trailing white space.
pub open spec fn trimmed(s: Seq<char>) -> Seq<char> {
    trim_end(trim_start(s))
}

pub open spec fn is_digit(c: char) -> bool {
    0x30 <= (c as u32) <= 0x39
}

/// Value of a string of decimal digits.
pub open spec fn decimal(s: Seq<char>) -> nat
    decreases s.len(),
{
    if s.len() == 0 {
        0
    } else {
        decimal(s.drop_last()) * 10 + ((s.last() as u32) - 0x30) as nat
    }
}

/// `s` without the `+` it may start with.
pub open spec fn unsigned_digits(s: Seq<char>) -> Seq<char> {
    if s.len() > 0 && s[0] == '+' {
        s.drop_first()
    } else {
        s
    }
}

pub open spec fn all_digits(s: Seq<char>) -> bool {
    forall|i: int| 0 <= i < s.len() ==> is_digit(#[trigger] s[i])
}

/// What `str::parse::<usize>` accepts: an optional `+`, then one or more
/// decimal digits whose value fits in a `usize`.
pub open spec fn usize_text(s: Seq<char>) -> Option<usize> {
    let digits = unsigned_digits(s);
    if digits.len() > 0 && all_digits(digits) && decimal(digits) <= usize::MAX {
        Some(decimal(digits) as usize)
    } else {
        None
    }
}

pub open spec fn is_separator(c: char) -> bool {
    c == 'x' || c == 'X'
}

/// `p` is where the first separator of `s` stands.
pub open spec fn first_separator_at(s: Seq<char>, p: int) -> bool {
    &&& 0 <= p < s.len()
    &&& is_separator(s[p])
    &&& forall|q: int| 0 <= q < p ==> !is_separator(#[trigger] s[q])
}

/// The grid a `<width>x<height>` spec asks for: split at the first `x` or
/// `X`, each side trimmed and read as a `usize`, both at least 2.
pub open spec fn grid_dims(s: Seq<char>) -> Option<(usize, usize)> {
    if exists|p: int| first_separator_at(s, p) {
        let p = choose|p: int| first_separator_at(s, p);
        match (
            usize_text(trimmed(s.subrange(0, p))),
            usize_text(trimmed(s.subrange(p + 1, s.len() as int))),
        ) {
            (Some(w), Some(h)) => if w >= 2 && h >= 2 {
                Some((w, h))
            } else {
                None
            },
            _ => None,
        }
    } else {
        None
    }
}

/// What a scan of the command line for `--grid <spec>` settles on, and the
/// specs it turned down on the way, in order.
///
/// The first `--grid` followed by a valid spec wins; an invalid spec is
/// turned down and the scan goes on after it; a `--grid` with nothing after
/// it ends the scan. Without a winner the default grid is used.
pub open spec fn grid_choice(args: Seq<Seq<char>>) -> ((usize, usize), Seq<Seq<char>>)
    decreases args.len(),
{
    if args.len() == 0 {
        ((config::GRID_W, config::GRID_H), Seq::empty())
    } else if args[0] != "--grid"@ {
        grid_choice(args.drop_first())
    } else if args.len() == 1 {
        ((config::GRID_W, config::GRID_H), Seq::empty())
    } else {
        match grid_dims(args[1]) {
            Some(d) => (d, Seq::empty()),
            None => {
                let rest = grid_choice(args.subrange(2, args.len() as int));
                (rest.0, seq![args[1]] + rest.1)
            },
        }
    }
}

fn chars_of(s: &str) -> (v: Vec<char>)
    ensures
        v@ == s@,
{
    let n = s.unicode_len();
    let mut v: Vec<char> = Vec::new();
    let mut i: usize = 0;
    while i < n
        invariant
            n == s@.len(),
            i <= n,
            v@ == s@.subrange(0, i as int),
        decreases n - i,
    {
        v.push(s.get_char(i));
        i = i + 1;
        proof {
            assert(v@ =~= s@.subrange(0, i as int));
        }
    }
    proof {
        assert(v@ =~= s@);
    }
    v
}

fn char_is_white(c: char) -> (b: bool)
    ensures
        b == is_white(c),
{
    let u = c as u32;
    (0x9 <= u && u <= 0xD) || u == 0x20 || u == 0x85 || u == 0xA0 || u == 0x1680 || (0x2000 <= u
        && u <= 0x200A) || u == 0x2028 || u == 0x2029 || u == 0x202F || u == 0x205F || u == 0x3000
}

/// Bounds `[lo, hi)` of the trimmed part of `s[from..to]`.
fn trim_bounds(s: &Vec<char>, from: usize, to: usize) -> (r: (usize, usize))
    requires
        from <= to <= s@.len(),
    ensures
        from <= r.0 <= r.1 <= to,
        s@.subrange(r.0 as int, r.1 as int) == trimmed(s@.subrange(from as int, to as int)),
{
    let ghost whole = s@.subrange(from as int, to as int);
    let mut lo = from;
    while lo < to && char_is_white(s[lo])
        invariant
            from <= lo <= to <= s@.len(),
            whole == s@.subrange(from as int, to as int),
            trim_start(whole) == trim_start(s@.subrange(lo as int, to as int)),
        decreases to - lo,
    {
        proof {
            assert(s@.subrange(lo as int, to as int).drop_first() =~= s@.subrange(
                lo + 1,
                to as int,
            ));
        }
        lo = lo + 1;
    }
    let ghost started = s@.subrange(lo as int, to as int);
    assert(trim_start(started) == started);
    let mut hi = to;
    while hi > lo && char_is_white(s[hi - 1])
        invariant
            from <= lo <= hi <= to <= s@.len(),
            started == s@.subrange(lo as int, to as int),
            trim_end(started) == trim_end(s@.subrange(lo as int, hi as int)),
        decreases hi - lo,
    {
        proof {
            assert(s@.subrange(lo as int, hi as int).drop_last() =~= s@.subrange(
                lo as int,
                hi - 1,
            ));
        }
        hi = hi - 1;
    }
    (lo, hi)
}

proof fn lemma_decimal_prefix(s: Seq<char>, k: int)
    requires
        0 <= k <= s.len(),
    ensures
        decimal(s.subrange(0, k)) <= decimal(s),
    decreases s.len(),
{
    if k < s.len() {
        assert(s.drop_last().subrange(0, k) =~= s.subrange(0, k));
        lemma_decimal_prefix(s.drop_last(), k);
    } else {
        assert(s.subrange(0, k) =~= s);
    }
}

/// `s[from..to]` read as `str::parse::<usize>` reads it.
fn parse_usize(s: &Vec<char>, from: usize, to: usize) -> (r: Option<usize>)
    requires
        from <= to <= s@.len(),
    ensures
        r == usize_text(s@.subrange(from as int, to as int)),
{
    let ghost text = s@.subrange(from as int, to as int);
    let mut start = from;
    if from < to && s[from] == '+' {
        start = from + 1;
    }
    let ghost digits = s@.subrange(start as int, to as int);
    assert(digits =~= unsigned_digits(text));
    if start == to {
        return None;
    }
    let mut acc: usize = 0;
    let mut i = start;
    while i < to
        invariant
            from <= start < to <= s@.len(),
            start <= i <= to,
            digits == s@.subrange(start as int, to as int),
            text == s@.subrange(from as int, to as int),
            digits == unsigned_digits(text),
            forall|j: int| start <= j < i ==> is_digit(#[trigger] s@[j]),
            acc == decimal(s@.subrange(start as int, i as int)),
        decreases to - i,
    {
        let c = s[i];
        let u = c as u32;
        if u < 0x30 || u > 0x39 {
            proof {
                assert(digits[i - start] == c);
                assert(!is_digit(c));
                assert(!all_digits(digits));
            }
            return None;
        }
        let d = (u - 0x30) as usize;
        proof {
            assert(s@.subrange(start as int, i + 1).drop_last() =~= s@.subrange(
                start as int,
                i as int,
            ));
            assert(digits.subrange(0, i + 1 - start) =~= s@.subrange(start as int, i + 1));
            lemma_decimal_prefix(digits, i + 1 - start);
            let prefix = s@.subrange(start as int, i + 1);
            assert(prefix.last() == c);
            assert(decimal(prefix) == decimal(prefix.drop_last()) * 10 + ((c as u32) - 0x30) as nat);
            assert(decimal(prefix) == acc * 10 + d);
        }
        match acc.checked_mul(10) {
            Some(m) => match m.checked_add(d) {
                Some(next) => {
                    acc = next;
                },
                None => {
                    return None;
                },
            },
            None => {
                return None;
            },
        }
        i = i + 1;
    }
    proof {
        assert(digits =~= s@.subrange(start as int, i as int));
        assert forall|j: int| 0 <= j < digits.len() implies is_digit(#[trigger] digits[j]) by {
            assert(digits[j] == s@[start + j]);
        }
    }
    Some(acc)
}

/// The grid asked for by a `<width>x<height>` spec, or `None` if the spec is
/// not one or asks for fewer than two cells along either side.
pub fn parse_grid_spec(spec: &str) -> (r: Option<(usize, usize)>)
    ensures
        r == grid_dims(spec@),
{
    let s = chars_of(spec);
    let n = s.len();
    let mut p: usize = 0;
    while p < n && !(s[p] == 'x' || s[p] == 'X')
        invariant
            n == s@.len(),
            p <= n,
            forall|q: int| 0 <= q < p ==> !is_separator(#[trigger] s@[q]),
        decreases n - p,
    {
        p = p + 1;
    }
    if p == n {
        proof {
            assert forall|q: int| !first_separator_at(s@, q) by {
                if 0 <= q < n {
                    assert(!is_separator(s@[q]));
                }
            }
        }
        return None;
    }
    proof {
        assert(first_separator_at(s@, p as int));
        assert forall|q: int| first_separator_at(s@, q) implies q == p by {
            if q < p {
                assert(!is_separator(s@[q]));
            } else if q > p {
                assert(!is_separator(s@[p as int]));
            }
        }
    }
    let (wl, wh) = trim_bounds(&s, 0, p);
    let (hl, hh) = trim_bounds(&s, p + 1, n);
    let w = parse_usize(&s, wl, wh);
    let h = parse_usize(&s, hl, hh);
    match (w, h) {
        (Some(w), Some(h)) => {
            if w >= 2 && h >= 2 {
                Some((w, h))
            } else {
                None
            }
        },
        _ => None,
    }
}

/// Grid size from `--grid <width>x<height>` among `args` (the command line
/// without the program name), or the default one. Returns it together with
/// the specs that were turned down, for the caller to report.
pub fn grid_size_from_args(args: &Vec<String>) -> (r: ((usize, usize), Vec<String>))
    ensures
        (r.0, strings_view(r.1@)) == grid_choice(strings_view(args@)),
{
    let n = args.len();
    let mut rejected: Vec<String> = Vec::new();
    let mut i: usize = 0;
    let ghost all = strings_view(args@);
    proof {
        assert(all.subrange(0, n as int) =~= all);
        assert(strings_view(rejected@) + grid_choice(all).1 =~= grid_choice(all).1);
    }
    while i < n
        invariant
            n == args@.len(),
            all == strings_view(args@),
            i <= n,
            ({
                let rest = grid_choice(all.subrange(i as int, n as int));
                grid_choice(all) == (rest.0, strings_view(rejected@) + rest.1)
            }),
        decreases n - i,
    {
        let ghost tail = all.subrange(i as int, n as int);
        assert(tail[0] == args@[i as int]@);
        if args[i] != "--grid".to_owned() {
            proof {
                assert(tail.drop_first() =~= all.subrange(i + 1, n as int));
            }
            i = i + 1;
            continue;
        }
        if i + 1 >= n {
            proof {
                assert(strings_view(rejected@) + Seq::<Seq<char>>::empty() =~= strings_view(
                    rejected@,
                ));
            }
            return ((config::GRID_W, config::GRID_H), rejected);
        }
        assert(tail[1] == args@[i + 1]@);
        match parse_grid_spec(args[i + 1].as_str()) {
            Some(dims) => {
                proof {
                    assert(strings_view(rejected@) + Seq::<Seq<char>>::empty() =~= strings_view(
                        rejected@,
                    ));
                }
                return (dims, rejected);
            },
            None => {
                let ghost before = strings_view(rejected@);
                rejected.push(args[i + 1].clone());
                proof {
                    assert(tail.subrange(2, tail.len() as int) =~= all.subrange(i + 2, n as int));
                    assert(strings_view(rejected@) =~= before.push(args@[i + 1]@));
                    let rest = grid_choice(all.subrange(i + 2, n as int));
                    assert(before + (seq![args@[i + 1]@] + rest.1) =~= strings_view(rejected@)
                        + rest.1);
                }
                i = i + 2;
            },
        }
    }
    proof {
        assert(all.subrange(n as int, n as int) =~= Seq::<Seq<char>>::empty());
        assert(strings_view(rejected@) + Seq::<Seq<char>>::empty() =~= strings_view(rejected@));
    }
    ((config::GRID_W, config::GRID_H), rejected)
}

/// Every grid the scan settles on has at least two cells along each side.
pub proof fn lemma_chosen_grid_is_at_least_2x2(args: Seq<Seq<char>>)
    ensures
        grid_choice(args).0.0 >= 2,
        grid_choice(args).0.1 >= 2,
    decreases args.len(),
{
    if args.len() > 0 {
        if args[0] != "--grid"@ {
            lemma_chosen_grid_is_at_least_2x2(args.drop_first());
        } else if args.len() > 1 {
            if grid_dims(args[1]) is None {
                lemma_chosen_grid_is_at_least_2x2(args.subrange(2, args.len() as int));
            }
        }
    }
}

/// Before any `--grid`, the scan only walks past the arguments: what it
/// settles on for `prefix + args` is what it settles on for `args`.
proof fn lemma_grid_scan_skips_other_flags(prefix: Seq<Seq<char>>, args: Seq<Seq<char>>)
    requires
        forall|i: int| 0 <= i < prefix.len() ==> #[trigger] prefix[i] != "--grid"@,
    ensures
        grid_choice(prefix + args) == grid_choice(args),
    decreases prefix.len(),
{
    if prefix.len() > 0 {
        assert((prefix + args)[0] == prefix[0]);
        assert((prefix + args).drop_first() =~= prefix.drop_first() + args);
        assert forall|i: int| 0 <= i < prefix.drop_first().len() implies #[trigger] prefix.drop_first()[i]
            != "--grid"@ by {
            assert(prefix.drop_first()[i] == prefix[i + 1]);
        }
        lemma_grid_scan_skips_other_flags(prefix.drop_first(), args);
    } else {
        assert(prefix + args =~= args);
    }
}

/// The first `--grid` followed by a valid spec wins, whatever follows it and
/// whatever other arguments come before it, and nothing is reported as turned
/// down.
pub proof fn lemma_first_valid_grid_wins(
    prefix: Seq<Seq<char>>,
    spec: Seq<char>,
    rest: Seq<Seq<char>>,
    d: (usize, usize),
)
    requires
        forall|i: int| 0 <= i < prefix.len() ==> #[trigger] prefix[i] != "--grid"@,
        grid_dims(spec) == Some(d),
    ensures
        grid_choice(prefix + (seq!["--grid"@, spec] + rest)) == (d, Seq::<Seq<char>>::empty()),
{
    let args = seq!["--grid"@, spec] + rest;
    lemma_grid_scan_skips_other_flags(prefix, args);
    assert(args[0] == "--grid"@);
    assert(args[1] == spec);
}

/// A command line without `--grid` leaves the default grid and turns nothing
/// down.
pub proof fn lemma_no_grid_flag_keeps_the_default(args: Seq<Seq<char>>)
    requires
        forall|i: int| 0 <= i < args.len() ==> #[trigger] args[i] != "--grid"@,
    ensures
        grid_choice(args) == ((config::GRID_W, config::GRID_H), Seq::<Seq<char>>::empty()),
{
    lemma_grid_scan_skips_other_flags(args, Seq::empty());
    assert(args + Seq::<Seq<char>>::empty() =~= args);
}

proof fn lemma_digits_are_their_own_trim(s: Seq<char>)
    requires
        s.len() > 0,
        all_digits(s),
    ensures
        trimmed(s) == s,
        unsigned_digits(s) == s,
{
    assert(is_digit(s[0]));
    assert(is_digit(s[s.len() - 1]));
    assert(trim_start(s) == s);
    assert(trim_end(s) == s);
}

/// Round trip of the spec grammar: the decimal digits of a width, an `x`,
/// and the decimal digits of a height are read back as that grid, for every
/// width and height of at least 2 that fit in a `usize`, however many digits
/// they are written with.
pub proof fn lemma_grid_spec_round_trip(ws: Seq<char>, hs: Seq<char>)
    requires
        ws.len() > 0,
        hs.len() > 0,
        all_digits(ws),
        all_digits(hs),
        2 <= decimal(ws) <= usize::MAX,
        2 <= decimal(hs) <= usize::MAX,
    ensures
        grid_dims(ws + seq!['x'] + hs) == Some((decimal(ws) as usize, decimal(hs) as usize)),
{
    let s = ws + seq!['x'] + hs;
    let p = ws.len() as int;
    assert(s[p] == 'x');
    assert forall|q: int| 0 <= q < p implies !is_separator(#[trigger] s[q]) by {
        assert(s[q] == ws[q]);
        assert(is_digit(ws[q]));
    }
    assert(first_separator_at(s, p));
    let c = choose|c: int| first_separator_at(s, c);
    assert(c == p) by {
        if c < p {
            assert(s[c] == ws[c]);
            assert(is_digit(ws[c]));
        } else if c > p {
            assert(!is_separator(s[p]));
        }
    }
    assert(s.subrange(0, p) =~= ws);
    assert(s.subrange(p + 1, s.len() as int) =~= hs);
    lemma_digits_are_their_own_trim(ws);
    lemma_digits_are_their_own_trim(hs);
}

/// The decimal digits of `n`, most significant first, without leading zeros.
pub open spec fn decimal_text(n: nat) -> Seq<char>
    decreases n,
{
    let last = (((n % 10) + 0x30) as u32) as char;
    if n < 10 {
        seq![last]
    } else {
        decimal_text(n / 10).push(last)
    }
}

proof fn lemma_decimal_text_reads_back(n: nat)
    ensures
        decimal_text(n).len() > 0,
        all_digits(decimal_text(n)),
        decimal(decimal_text(n)) == n,
    decreases n,
{
    let last = (((n % 10) + 0x30) as u32) as char;
    assert((last as u32) == (n % 10) + 0x30);
    if n < 10 {
        assert(decimal_text(n).drop_last() =~= Seq::<char>::empty());
        assert(decimal_text(n).last() == last);
        assert(n % 10 == n);
        let t = decimal_text(n);
        assert(decimal(t) == decimal(t.drop_last()) * 10 + ((t.last() as u32) - 0x30) as nat);
        assert(decimal(t.drop_last()) == 0);
    } else {
        lemma_decimal_text_reads_back(n / 10);
        let t = decimal_text(n);
        assert(t.drop_last() =~= decimal_text(n / 10));
        assert(t.last() == last);
        assert((n / 10) * 10 + n % 10 == n) by (nonlinear_arith);
        assert(decimal(t) == decimal(t.drop_last()) * 10 + ((t.last() as u32) - 0x30) as nat);
        assert(decimal(t.drop_last()) == n / 10);
        assert forall|i: int| 0 <= i < t.len() implies is_digit(#[trigger] t[i]) by {
            if i < t.len() - 1 {
                assert(t[i] == decimal_text(n / 10)[i]);
            }
        }
    }
}

/// The same round trip for `w` and `h` written the usual way: the spec
/// `"<w>x<h>"` is read as `(w, h)`.
pub proof fn lemma_written_grid_is_read_back(w: usize, h: usize)
    requires
        w >= 2,
        h >= 2,
    ensures
        grid_dims(decimal_text(w as nat) + seq!['x'] + decimal_text(h as nat)) == Some((w, h)),
{
    lemma_decimal_text_reads_back(w as nat);
    lemma_decimal_text_reads_back(h as nat);
    lemma_grid_spec_round_trip(decimal_text(w as nat), decimal_text(h as nat));
}

} // verus!

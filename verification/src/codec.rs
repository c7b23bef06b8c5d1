//! Line codec for affinity records.
//!
//! One record is persisted as a single line of text:
//! `<class>:[<id>;<ts>,<id>;<ts>,...]&[<x>;<y>;<w>;<h>]`
//! with `[]` for an empty history and `[]` for absent geometry.  Numbers are
//! written in canonical decimal (no leading zeros, `-` for negative values).

use vstd::prelude::*;
use vstd::string::StrSliceExecFns;
use vstd::string::StringExecFns;

verus! {

/// One placement: the workspace a window of the class was put on, and when.
#[derive(Clone, Copy, Debug, PartialEq, Eq, Structural)]
pub struct Workspace {
    pub workspace_id: i32,
    pub timestamp: i64,
}

/// Stored geometry of a floating window: position and size in pixels.
#[derive(Clone, Copy, Debug, PartialEq, Eq)]
pub struct FloatingWindow {
    pub at: (i16, i16),
    pub size: (i16, i16),
}

/// Why a persisted line failed to parse.
#[derive(Clone, Copy, Debug, PartialEq, Eq, Structural)]
pub enum ParseError {
    /// The line does not have the expected shape.
    InvalidFormat,
    /// A numeric field is not a decimal number in range.
    InvalidInt,
}

/// The affinity record of one application class.
#[derive(Debug)]
pub struct Program {
    pub class: String,
    pub workspaces: Vec<Workspace>,
    pub floating_window: Option<FloatingWindow>,
    /// Set while one daemon-issued workspace move is in flight; the next
    /// window-moved event for the class is the echo of that move and must
    /// not be recorded.
    pub moved: bool,
    /// Analogous guard for daemon-issued floating move/resize commands.
    pub float_moved: bool,
}

/// Mathematical image of a `Program`.
#[verifier::ext_equal]
pub ghost struct ProgramView {
    pub class: Seq<char>,
    pub workspaces: Seq<Workspace>,
    pub floating_window: Option<FloatingWindow>,
    pub moved: bool,
    pub float_moved: bool,
}

impl View for Program {
    type V = ProgramView;

    open spec fn view(&self) -> ProgramView {
        ProgramView {
            class: self.class@,
            workspaces: self.workspaces@,
            floating_window: self.floating_window,
            moved: self.moved,
            float_moved: self.float_moved,
        }
    }
}

/// Copies a placement history element by element.
fn clone_workspaces(v: &Vec<Workspace>) -> (r: Vec<Workspace>)
    ensures
        r@ == v@,
{
    let mut r: Vec<Workspace> = Vec::new();
    let mut i: usize = 0;
    while i < v.len()
        invariant
            0 <= i <= v.len(),
            r@ == v@.subrange(0, i as int),
        decreases v.len() - i,
    {
        r.push(v[i]);
        assert(r@ =~= v@.subrange(0, i + 1 as int));
        i = i + 1;
    }
    assert(r@ =~= v@);
    r
}

impl Clone for Program {
    /// A clone has the same view as the original.
    fn clone(&self) -> (r: Self)
        ensures
            r@ == self@,
    {
        Program {
            class: self.class.clone(),
            workspaces: clone_workspaces(&self.workspaces),
            floating_window: self.floating_window,
            moved: self.moved,
            float_moved: self.float_moved,
        }
    }
}

// ---------------------------------------------------------------------------
// Canonical decimal rendering, as a specification.
// ---------------------------------------------------------------------------

/// The decimal digit character for `d` in `0..10`.
pub open spec fn dec_digit(d: int) -> char {
    if d == 0 {
        '0'
    } else if d == 1 {
        '1'
    } else if d == 2 {
        '2'
    } else if d == 3 {
        '3'
    } else if d == 4 {
        '4'
    } else if d == 5 {
        '5'
    } else if d == 6 {
        '6'
    } else if d == 7 {
        '7'
    } else if d == 8 {
        '8'
    } else {
        '9'
    }
}

/// Canonical decimal rendering of a natural number: no leading zeros.
pub open spec fn dec_nat(n: nat) -> Seq<char>
    decreases n,
{
    if n < 10 {
        seq![dec_digit(n as int)]
    } else {
        dec_nat(n / 10) + seq![dec_digit((n % 10) as int)]
    }
}

/// Canonical decimal rendering of an integer: a `-` sign for negatives.
pub open spec fn dec_int(n: int) -> Seq<char> {
    if n < 0 {
        seq!['-'] + dec_nat((-n) as nat)
    } else {
        dec_nat(n as nat)
    }
}

/// True iff `c` is a decimal digit character.
pub open spec fn is_digit(c: char) -> bool {
    '0' as int <= c as int <= '9' as int
}

/// The numeric value of a digit character.
pub open spec fn digit_val(c: char) -> int {
    c as int - '0' as int
}

/// True iff every character of `s` is a decimal digit.
pub open spec fn all_digits(s: Seq<char>) -> bool {
    forall|i: int| 0 <= i < s.len() ==> is_digit(s[i])
}

/// The value of a digit string, read left to right.
pub open spec fn digits_val(s: Seq<char>) -> int
    decreases s.len(),
{
    if s.len() == 0 {
        0
    } else {
        digits_val(s.drop_last()) * 10 + digit_val(s.last())
    }
}

/// True iff `s` is an optional `-` sign followed by at least one digit.
pub open spec fn is_int_literal(s: Seq<char>) -> bool {
    if s.len() > 0 && s[0] == '-' {
        s.len() > 1 && all_digits(s.skip(1))
    } else {
        s.len() > 0 && all_digits(s)
    }
}

/// The value of an integer literal.
pub open spec fn int_literal_val(s: Seq<char>) -> int {
    if s.len() > 0 && s[0] == '-' {
        -digits_val(s.skip(1))
    } else {
        digits_val(s)
    }
}

/// True iff `s` is an integer literal whose value fits in `i64`.
pub open spec fn parse_i64_ok(s: Seq<char>) -> bool {
    is_int_literal(s) && i64::MIN <= int_literal_val(s) <= i64::MAX
}

/// True iff `s` is an integer literal whose value fits in `i32`.
pub open spec fn parse_i32_ok(s: Seq<char>) -> bool {
    is_int_literal(s) && i32::MIN <= int_literal_val(s) <= i32::MAX
}

/// True iff `s` is an integer literal whose value fits in `i16`.
pub open spec fn parse_i16_ok(s: Seq<char>) -> bool {
    is_int_literal(s) && i16::MIN <= int_literal_val(s) <= i16::MAX
}

// ---------------------------------------------------------------------------
// Facts about the canonical rendering.
// ---------------------------------------------------------------------------

/// A canonical natural rendering is a nonempty digit string carrying the
/// rendered value.
proof fn lemma_dec_nat(n: nat)
    ensures
        dec_nat(n).len() >= 1,
        all_digits(dec_nat(n)),
        digits_val(dec_nat(n)) == n,
    decreases n,
{
    if n < 10 {
        assert(dec_nat(n) =~= seq![dec_digit(n as int)]);
        assert(is_digit(dec_digit(n as int)));
        assert(dec_nat(n).drop_last() =~= Seq::<char>::empty());
        assert(dec_nat(n).last() == dec_digit(n as int));
        assert(digits_val(Seq::<char>::empty()) == 0);
        assert(digits_val(dec_nat(n)) == digit_val(dec_digit(n as int)));
        assert(digit_val(dec_digit(n as int)) == n);
    } else {
        lemma_dec_nat(n / 10);
        let s = dec_nat(n);
        assert(s =~= dec_nat(n / 10) + seq![dec_digit((n % 10) as int)]);
        assert(s.drop_last() =~= dec_nat(n / 10));
        assert(s.last() == dec_digit((n % 10) as int));
        assert(digit_val(dec_digit((n % 10) as int)) == n % 10);
        assert(digits_val(s) == digits_val(dec_nat(n / 10)) * 10 + (n % 10));
        assert(all_digits(s)) by {
            assert forall|i: int| 0 <= i < s.len() implies is_digit(s[i]) by {
                if i < s.len() - 1 {
                    assert(s[i] == dec_nat(n / 10)[i]);
                } else {
                    assert(s[i] == dec_digit((n % 10) as int));
                }
            }
        }
    }
}

/// A canonical integer rendering is an integer literal with the rendered
/// value.
proof fn lemma_dec_int(v: int)
    ensures
        dec_int(v).len() >= 1,
        is_int_literal(dec_int(v)),
        int_literal_val(dec_int(v)) == v,
{
    if v < 0 {
        lemma_dec_nat((-v) as nat);
        let s = dec_int(v);
        assert(s =~= seq!['-'] + dec_nat((-v) as nat));
        assert(s[0] == '-');
        assert(s.skip(1) =~= dec_nat((-v) as nat));
    } else {
        lemma_dec_nat(v as nat);
        let s = dec_int(v);
        assert(s =~= dec_nat(v as nat));
        assert(is_digit(s[0]));
        assert(s[0] != '-') by {
            assert('-' as int == 45);
            assert('0' as int == 48);
        }
    }
}

/// A digit string has a nonnegative value.
proof fn lemma_digits_val_nonneg(s: Seq<char>)
    requires
        all_digits(s),
    ensures
        digits_val(s) >= 0,
    decreases s.len(),
{
    if s.len() > 0 {
        assert(all_digits(s.drop_last()));
        lemma_digits_val_nonneg(s.drop_last());
        assert(is_digit(s.last()));
    }
}

/// Extending a digit string never lowers its value.
proof fn lemma_digits_val_prefix(s: Seq<char>, k: int)
    requires
        all_digits(s),
        0 <= k <= s.len(),
    ensures
        digits_val(s.take(k)) <= digits_val(s),
    decreases s.len() - k,
{
    if k < s.len() {
        assert(all_digits(s.take(k + 1)));
        assert(s.take(k + 1).drop_last() =~= s.take(k));
        assert(s.take(k + 1).last() == s[k]);
        lemma_digits_val_nonneg(s.take(k));
        assert(is_digit(s[k]));
        assert(digits_val(s.take(k + 1)) == digits_val(s.take(k)) * 10 + digit_val(s[k]));
        lemma_digits_val_prefix(s, k + 1);
    } else {
        assert(s.take(k) =~= s);
    }
}

/// Every character of a canonical integer rendering is a digit or `-`.
proof fn lemma_dec_int_chars(v: int)
    ensures
        forall|i: int|
            0 <= i < dec_int(v).len() ==> (is_digit(#[trigger] dec_int(v)[i]) || dec_int(v)[i]
                == '-'),
{
    if v < 0 {
        lemma_dec_nat((-v) as nat);
        let s = dec_int(v);
        assert forall|i: int| 0 <= i < s.len() implies (is_digit(#[trigger] s[i]) || s[i]
            == '-') by {
            if i >= 1 {
                assert(s[i] == dec_nat((-v) as nat)[i - 1]);
            }
        }
    } else {
        lemma_dec_nat(v as nat);
    }
}

// ---------------------------------------------------------------------------
// Executable decimal printing and parsing.
// ---------------------------------------------------------------------------

/// Appends the digit character for `d` to `buf`.
fn push_digit(buf: &mut String, d: u64)
    requires
        d < 10,
    ensures
        final(buf)@ == old(buf)@ + seq![dec_digit(d as int)],
{
    let digits: &str = "0123456789";
    proof {
        reveal_strlit("0123456789");
    }
    let s = digits.substring_char(d as usize, (d + 1) as usize);
    buf.append(s);
    proof {
        assert(s@ =~= seq![dec_digit(d as int)]);
    }
}

/// Appends the canonical decimal rendering of `n` to `buf`.
fn push_dec_u64(buf: &mut String, n: u64)
    ensures
        final(buf)@ == old(buf)@ + dec_nat(n as nat),
    decreases n,
{
    if n >= 10 {
        push_dec_u64(buf, n / 10);
    }
    push_digit(buf, n % 10);
    proof {
        if n < 10 {
            assert(dec_nat(n as nat) =~= seq![dec_digit((n % 10) as int)]);
        } else {
            assert(old(buf)@ + dec_nat((n / 10) as nat) + seq![dec_digit((n % 10) as int)]
                =~= old(buf)@ + dec_nat(n as nat));
        }
    }
}

/// Appends the canonical decimal rendering of `v` to `buf`.
fn push_dec_i64(buf: &mut String, v: i64)
    ensures
        final(buf)@ == old(buf)@ + dec_int(v as int),
{
    if v < 0 {
        let minus: &str = "-";
        proof {
            reveal_strlit("-");
        }
        buf.append(minus);
        let m: u64 = (-(v as i128)) as u64;
        push_dec_u64(buf, m);
        proof {
            assert(minus@ =~= seq!['-']);
            assert(m as nat == (-(v as int)) as nat);
            assert(old(buf)@ + minus@ + dec_nat(m as nat) =~= old(buf)@ + dec_int(v as int));
        }
    } else {
        push_dec_u64(buf, v as u64);
    }
}

/// Parses `s` as a decimal `i64`: an optional `-` sign, then digits, with
/// the value required to fit.
fn parse_i64_str(s: &str) -> (r: Option<i64>)
    ensures
        match r {
            Some(v) => parse_i64_ok(s@) && v as int == int_literal_val(s@),
            None => !parse_i64_ok(s@),
        },
{
    let n = s.unicode_len();
    if n == 0 {
        return None;
    }
    let neg = (s.get_char(0) as u32) == 45;
    proof {
        assert('-' as int == 45);
    }
    let start: usize = if neg {
        1
    } else {
        0
    };
    if start == n {
        // just a sign, no digits
        return None;
    }
    let bound: u64 = if neg {
        9223372036854775808
    } else {
        9223372036854775807
    };
    let mut acc: u64 = 0;
    let mut i: usize = start;
    while i < n
        invariant
            start <= i <= n,
            n == s@.len(),
            start < n,
            neg ==> s@[0] == '-' && start == 1,
            !neg ==> s@[0] != '-' && start == 0,
            all_digits(s@.subrange(start as int, i as int)),
            acc as int == digits_val(s@.subrange(start as int, i as int)),
            acc <= bound,
            bound == if neg {
                9223372036854775808u64
            } else {
                9223372036854775807u64
            },
        decreases n - i,
    {
        let c = s.get_char(i);
        let cu = c as u32;
        if cu < 48 || cu > 57 {
            proof {
                assert('0' as int == 48 && '9' as int == 57);
                assert(!is_digit(s@[i as int]));
                if neg {
                    assert(s@.skip(1)[i - 1] == s@[i as int]);
                    assert(!all_digits(s@.skip(1)));
                } else {
                    assert(!all_digits(s@));
                }
            }
            return None;
        }
        let d: u64 = (cu - 48) as u64;
        proof {
            assert(is_digit(s@[i as int]));
            assert(d as int == digit_val(s@[i as int]));
        }
        if acc > (bound - d) / 10 {
            // the value no longer fits; more digits can only enlarge it
            proof {
                let pre = s@.subrange(start as int, i + 1);
                assert(pre.drop_last() =~= s@.subrange(start as int, i as int));
                assert(pre.last() == s@[i as int]);
                assert(all_digits(pre));
                assert(digits_val(pre) == acc as int * 10 + d);
                assert(digits_val(pre) > bound) by {
                    assert(acc as int > (bound as int - d as int) / 10);
                };
                if parse_i64_ok(s@) {
                    let digits_part = if neg {
                        s@.skip(1)
                    } else {
                        s@
                    };
                    assert(all_digits(digits_part));
                    assert(pre =~= digits_part.take(i + 1 - start));
                    lemma_digits_val_prefix(digits_part, i + 1 - start);
                    assert(digits_val(digits_part) > bound);
                    assert(false);
                }
            }
            return None;
        }
        acc = acc * 10 + d;
        proof {
            let pre = s@.subrange(start as int, i + 1);
            assert(pre.drop_last() =~= s@.subrange(start as int, i as int));
            assert(pre.last() == s@[i as int]);
        }
        i = i + 1;
    }
    proof {
        let digits_part = if neg {
            s@.skip(1)
        } else {
            s@
        };
        assert(s@.subrange(start as int, n as int) =~= digits_part);
        assert(is_int_literal(s@));
        assert(acc as int == digits_val(digits_part));
    }
    if neg {
        let v: i64 = (-(acc as i128)) as i64;
        proof {
            assert(int_literal_val(s@) == -(acc as int));
        }
        Some(v)
    } else {
        let v: i64 = acc as i64;
        Some(v)
    }
}

/// Parses `s` as a decimal `i32`.
fn parse_i32_str(s: &str) -> (r: Option<i32>)
    ensures
        match r {
            Some(v) => parse_i32_ok(s@) && v as int == int_literal_val(s@),
            None => !parse_i32_ok(s@),
        },
{
    match parse_i64_str(s) {
        Some(v) => {
            if -2147483648 <= v && v <= 2147483647 {
                Some(v as i32)
            } else {
                None
            }
        },
        None => None,
    }
}

/// Parses `s` as a decimal `i16`.
fn parse_i16_str(s: &str) -> (r: Option<i16>)
    ensures
        match r {
            Some(v) => parse_i16_ok(s@) && v as int == int_literal_val(s@),
            None => !parse_i16_ok(s@),
        },
{
    match parse_i64_str(s) {
        Some(v) => {
            if -32768 <= v && v <= 32767 {
                Some(v as i16)
            } else {
                None
            }
        },
        None => None,
    }
}

// ---------------------------------------------------------------------------
// Splitting and joining on a separator character.
// ---------------------------------------------------------------------------

/// Index of the first occurrence of `c` in `s`, or `-1`.
pub open spec fn find_char(s: Seq<char>, c: char) -> int
    decreases s.len(),
{
    if s.len() == 0 {
        -1
    } else if s[0] == c {
        0
    } else {
        let r = find_char(s.drop_first(), c);
        if r < 0 {
            -1
        } else {
            r + 1
        }
    }
}

/// Splits `s` on every occurrence of `c`; n separators give n + 1 parts.
pub open spec fn split_char(s: Seq<char>, c: char) -> Seq<Seq<char>>
    decreases s.len(),
{
    let i = find_char(s, c);
    if 0 <= i < s.len() {
        seq![s.take(i)] + split_char(s.skip(i + 1), c)
    } else {
        seq![s]
    }
}

/// Joins `items` with `sep` between consecutive items.
pub open spec fn join_sep(items: Seq<Seq<char>>, sep: char) -> Seq<char>
    decreases items.len(),
{
    if items.len() == 0 {
        Seq::empty()
    } else if items.len() == 1 {
        items[0]
    } else {
        items[0] + seq![sep] + join_sep(items.drop_first(), sep)
    }
}

/// `find_char` returns a position in range holding the first occurrence.
proof fn lemma_find_char_bounds(s: Seq<char>, c: char)
    ensures
        -1 <= find_char(s, c) < s.len(),
        find_char(s, c) >= 0 ==> s[find_char(s, c)] == c,
        find_char(s, c) >= 0 ==> forall|j: int| 0 <= j < find_char(s, c) ==> s[j] != c,
        find_char(s, c) == -1 ==> forall|j: int| 0 <= j < s.len() ==> s[j] != c,
    decreases s.len(),
{
    if s.len() > 0 && s[0] != c {
        lemma_find_char_bounds(s.drop_first(), c);
        assert forall|j: int| 1 <= j < s.len() implies s[j] == s.drop_first()[j - 1] by {}
    }
}

/// In a string with no occurrence of `c`, `find_char` reports none.
proof fn lemma_find_char_none(s: Seq<char>, c: char)
    requires
        !s.contains(c),
    ensures
        find_char(s, c) == -1,
{
    lemma_find_char_bounds(s, c);
    if find_char(s, c) >= 0 {
        assert(s[find_char(s, c)] == c);
        assert(s.contains(c));
    }
}

/// The first occurrence of `c` in `a + [c] + b` is right after `a` when `a`
/// does not contain `c`.
proof fn lemma_find_char_concat(a: Seq<char>, b: Seq<char>, c: char)
    requires
        !a.contains(c),
    ensures
        find_char(a + seq![c] + b, c) == a.len(),
    decreases a.len(),
{
    let s = a + seq![c] + b;
    if a.len() == 0 {
        assert(s[0] == c);
    } else {
        assert(s[0] == a[0]);
        assert(a[0] != c) by {
            if a[0] == c {
                assert(a.contains(c));
            }
        }
        let a2 = a.drop_first();
        assert(!a2.contains(c)) by {
            if a2.contains(c) {
                let i = choose|i: int| 0 <= i < a2.len() && a2[i] == c;
                assert(a[i + 1] == c);
                assert(a.contains(c));
            }
        }
        lemma_find_char_concat(a2, b, c);
        assert(s.drop_first() =~= a2 + seq![c] + b);
    }
}

/// Splitting undoes joining, provided no item contains the separator.
proof fn lemma_split_join(items: Seq<Seq<char>>, sep: char)
    requires
        items.len() >= 1,
        forall|i: int| 0 <= i < items.len() ==> !(#[trigger] items[i]).contains(sep),
    ensures
        split_char(join_sep(items, sep), sep) == items,
    decreases items.len(),
{
    if items.len() == 1 {
        lemma_find_char_none(items[0], sep);
        assert(split_char(items[0], sep) =~= seq![items[0]]);
        assert(seq![items[0]] =~= items);
    } else {
        let rest = join_sep(items.drop_first(), sep);
        let j = items[0] + seq![sep] + rest;
        assert(join_sep(items, sep) == j);
        lemma_find_char_concat(items[0], rest, sep);
        lemma_find_char_bounds(j, sep);
        assert(j.take(items[0].len() as int) =~= items[0]);
        assert(j.skip(items[0].len() as int + 1) =~= rest);
        assert(forall|i: int|
            0 <= i < items.drop_first().len() ==> !(#[trigger] items.drop_first()[i]).contains(
                sep,
            ));
        lemma_split_join(items.drop_first(), sep);
        assert(split_char(j, sep) == seq![items[0]] + items.drop_first());
        assert(seq![items[0]] + items.drop_first() =~= items);
    }
}

/// Joining after appending one more item extends the joined string.
proof fn lemma_join_push(items: Seq<Seq<char>>, it: Seq<char>, sep: char)
    ensures
        join_sep(items.push(it), sep) == if items.len() == 0 {
            it
        } else {
            join_sep(items, sep) + seq![sep] + it
        },
    decreases items.len(),
{
    let p = items.push(it);
    if items.len() == 0 {
        assert(p.len() == 1);
        assert(p[0] == it);
    } else if items.len() == 1 {
        assert(p.len() == 2);
        assert(p[0] == items[0]);
        assert(p.drop_first() =~= seq![it]);
        assert(join_sep(seq![it], sep) == it);
    } else {
        lemma_join_push(items.drop_first(), it, sep);
        assert(p.drop_first() =~= items.drop_first().push(it));
        assert(p[0] == items[0]);
        assert(join_sep(p, sep) == items[0] + seq![sep] + join_sep(items.drop_first().push(it), sep));
        assert(items[0] + seq![sep] + (join_sep(items.drop_first(), sep) + seq![sep] + it) =~= (
        items[0] + seq![sep] + join_sep(items.drop_first(), sep)) + seq![sep] + it);
    }
}

// ---------------------------------------------------------------------------
// The line format, as a specification.
// ---------------------------------------------------------------------------

/// Rendering of one placement: `<workspaceId>;<timestamp>`.
pub open spec fn encode_workspace(w: Workspace) -> Seq<char> {
    dec_int(w.workspace_id as int) + seq![';'] + dec_int(w.timestamp as int)
}

/// The renderings of the placements of a history, one per placement.
pub open spec fn workspace_items(ws: Seq<Workspace>) -> Seq<Seq<char>> {
    ws.map(|i: int, w: Workspace| encode_workspace(w))
}

/// Rendering of a placement history: placements joined with `,`.
pub open spec fn encode_workspaces(ws: Seq<Workspace>) -> Seq<char> {
    join_sep(workspace_items(ws), ',')
}

/// Rendering of a stored floating geometry: `<x>;<y>;<w>;<h>`.
pub open spec fn encode_geometry(f: FloatingWindow) -> Seq<char> {
    join_sep(
        seq![
            dec_int(f.at.0 as int),
            dec_int(f.at.1 as int),
            dec_int(f.size.0 as int),
            dec_int(f.size.1 as int),
        ],
        ';',
    )
}

/// Rendering of an optional geometry; absence renders as the empty string.
pub open spec fn encode_geometry_opt(g: Option<FloatingWindow>) -> Seq<char> {
    match g {
        Some(f) => encode_geometry(f),
        None => Seq::empty(),
    }
}

/// The full persisted line of a record (without the trailing newline).
pub open spec fn spec_encode(p: ProgramView) -> Seq<char> {
    p.class + seq![':', '['] + encode_workspaces(p.workspaces) + seq![']', '&', '[']
        + encode_geometry_opt(p.floating_window) + seq![']']
}

// ---------------------------------------------------------------------------
// Executable encoding.
// ---------------------------------------------------------------------------

/// Appends `<workspaceId>;<timestamp>` to `buf`.
fn push_workspace(buf: &mut String, w: Workspace)
    ensures
        final(buf)@ == old(buf)@ + encode_workspace(w),
{
    push_dec_i64(buf, w.workspace_id as i64);
    let semi: &str = ";";
    proof {
        reveal_strlit(";");
    }
    buf.append(semi);
    push_dec_i64(buf, w.timestamp);
    proof {
        assert(semi@ =~= seq![';']);
        assert(old(buf)@ + dec_int(w.workspace_id as int) + seq![';'] + dec_int(
            w.timestamp as int,
        ) =~= old(buf)@ + encode_workspace(w));
    }
}

/// Appends `<x>;<y>;<w>;<h>` to `buf`.
fn push_geometry(buf: &mut String, f: FloatingWindow)
    ensures
        final(buf)@ == old(buf)@ + encode_geometry(f),
{
    let semi: &str = ";";
    proof {
        reveal_strlit(";");
    }
    push_dec_i64(buf, f.at.0 as i64);
    buf.append(semi);
    push_dec_i64(buf, f.at.1 as i64);
    buf.append(semi);
    push_dec_i64(buf, f.size.0 as i64);
    buf.append(semi);
    push_dec_i64(buf, f.size.1 as i64);
    proof {
        assert(semi@ =~= seq![';']);
        let a = dec_int(f.at.0 as int);
        let b = dec_int(f.at.1 as int);
        let c = dec_int(f.size.0 as int);
        let d = dec_int(f.size.1 as int);
        assert(seq![a, b, c, d].drop_first() =~= seq![b, c, d]);
        assert(seq![b, c, d].drop_first() =~= seq![c, d]);
        assert(seq![c, d].drop_first() =~= seq![d]);
        assert(join_sep(seq![d], ';') == d);
        assert(join_sep(seq![c, d], ';') == c + seq![';'] + join_sep(seq![c, d].drop_first(), ';'));
        assert(join_sep(seq![b, c, d], ';') == b + seq![';'] + join_sep(
            seq![b, c, d].drop_first(),
            ';',
        ));
        assert(join_sep(seq![a, b, c, d], ';') == a + seq![';'] + join_sep(
            seq![a, b, c, d].drop_first(),
            ';',
        ));
        assert(encode_geometry(f) == a + seq![';'] + (b + seq![';'] + (c + seq![';'] + d)));
        assert(old(buf)@ + a + seq![';'] + b + seq![';'] + c + seq![';'] + d =~= old(buf)@ + (a
            + seq![';'] + (b + seq![';'] + (c + seq![';'] + d))));
    }
}

/// Encodes one record as its persisted line (without the trailing newline).
pub fn encode(p: &Program) -> (s: String)
    ensures
        s@ == spec_encode(p@),
{
    let ghost items = workspace_items(p.workspaces@);
    let mut buf = p.class.clone();
    let head: &str = ":[";
    let comma: &str = ",";
    let mid: &str = "]&[";
    let tail: &str = "]";
    proof {
        reveal_strlit(":[");
        reveal_strlit(",");
        reveal_strlit("]&[");
        reveal_strlit("]");
    }
    buf.append(head);
    proof {
        assert(head@ =~= seq![':', '[']);
    }
    let mut i: usize = 0;
    while i < p.workspaces.len()
        invariant
            0 <= i <= p.workspaces@.len(),
            items == workspace_items(p.workspaces@),
            buf@ == p.class@ + seq![':', '['] + join_sep(items.take(i as int), ','),
            comma@ == seq![','],
        decreases p.workspaces@.len() - i,
    {
        if i > 0 {
            buf.append(comma);
        }
        push_workspace(&mut buf, p.workspaces[i]);
        proof {
            lemma_join_push(items.take(i as int), items[i as int], ',');
            assert(items.take(i as int).push(items[i as int]) =~= items.take(i + 1));
            assert(items[i as int] == encode_workspace(p.workspaces@[i as int]));
            if i > 0 {
                assert((p.class@ + seq![':', '['] + join_sep(items.take(i as int), ',')) + seq![
                    ',',
                ] + encode_workspace(p.workspaces@[i as int]) =~= p.class@ + seq![':', '[']
                    + join_sep(items.take(i + 1), ','));
            } else {
                assert(join_sep(items.take(0int), ',') =~= Seq::<char>::empty());
                assert((p.class@ + seq![':', '['] + join_sep(items.take(0int), ','))
                    + encode_workspace(p.workspaces@[0int]) =~= p.class@ + seq![':', '[']
                    + join_sep(items.take(1int), ','));
            }
        }
        i = i + 1;
    }
    proof {
        assert(items.take(p.workspaces@.len() as int) =~= items);
    }
    buf.append(mid);
    match &p.floating_window {
        Some(f) => push_geometry(&mut buf, *f),
        None => {},
    }
    buf.append(tail);
    proof {
        assert(mid@ =~= seq![']', '&', '[']);
        assert(tail@ =~= seq![']']);
        assert(buf@ =~= spec_encode(p@));
    }
    buf
}

// ---------------------------------------------------------------------------
// Parsing, as a specification.
// ---------------------------------------------------------------------------

/// True iff `s` is `[` ... `]`.
pub open spec fn bracketed(s: Seq<char>) -> bool {
    s.len() >= 2 && s[0] == '[' && s.last() == ']'
}

/// The text between the brackets.
pub open spec fn bracket_inner(s: Seq<char>) -> Seq<char> {
    s.subrange(1, s.len() - 1)
}

/// Everything before the first `:`.
pub open spec fn class_of(l: Seq<char>) -> Seq<char> {
    l.take(find_char(l, ':'))
}

/// Everything after the first `:`.
pub open spec fn rest_of(l: Seq<char>) -> Seq<char> {
    l.skip(find_char(l, ':') + 1)
}

/// The history group: after the first `:`, before the first `&`.
pub open spec fn wpart_of(l: Seq<char>) -> Seq<char> {
    rest_of(l).take(find_char(rest_of(l), '&'))
}

/// The geometry group: after the first `&` that follows the first `:`.
pub open spec fn gpart_of(l: Seq<char>) -> Seq<char> {
    rest_of(l).skip(find_char(rest_of(l), '&') + 1)
}

/// The line has a `:`, an `&` after it, and a bracketed history group.
pub open spec fn shape_prefix_ok(l: Seq<char>) -> bool {
    find_char(l, ':') >= 0 && find_char(rest_of(l), '&') >= 0 && bracketed(wpart_of(l))
}

/// The comma-separated items of the history group.
pub open spec fn hist_items(l: Seq<char>) -> Seq<Seq<char>> {
    split_char(bracket_inner(wpart_of(l)), ',')
}

/// The semicolon-separated fields of one history item.
pub open spec fn item_fields(it: Seq<char>) -> Seq<Seq<char>> {
    split_char(it, ';')
}

/// The line's shape parses: prefix in place and every history item has
/// exactly two fields.  An empty history group is accepted.
pub open spec fn history_shape_ok(l: Seq<char>) -> bool {
    shape_prefix_ok(l) && (bracket_inner(wpart_of(l)).len() == 0 || forall|i: int|
        0 <= i < hist_items(l).len() ==> item_fields(#[trigger] hist_items(l)[i]).len() == 2)
}

/// Every history field is a decimal number that fits its type.
pub open spec fn history_ints_ok(l: Seq<char>) -> bool {
    bracket_inner(wpart_of(l)).len() == 0 || forall|i: int|
        0 <= i < hist_items(l).len() ==> parse_i32_ok(
            item_fields(#[trigger] hist_items(l)[i])[0],
        ) && parse_i64_ok(item_fields(hist_items(l)[i])[1])
}

/// The whole line parses into a record.
pub open spec fn line_ok(l: Seq<char>) -> bool {
    history_shape_ok(l) && history_ints_ok(l)
}

/// The placement encoded by one history item.
pub open spec fn item_workspace(it: Seq<char>) -> Workspace {
    Workspace {
        workspace_id: int_literal_val(item_fields(it)[0]) as i32,
        timestamp: int_literal_val(item_fields(it)[1]) as i64,
    }
}

/// The placement history read from the line.
pub open spec fn placements_of(l: Seq<char>) -> Seq<Workspace> {
    if bracket_inner(wpart_of(l)).len() == 0 {
        Seq::empty()
    } else {
        hist_items(l).map(|i: int, it: Seq<char>| item_workspace(it))
    }
}

/// True iff `s` (the inside of the geometry group) is four decimal `i16`
/// fields separated by `;`.
pub open spec fn geo_fields_ok(s: Seq<char>) -> bool {
    split_char(s, ';').len() == 4 && parse_i16_ok(split_char(s, ';')[0]) && parse_i16_ok(
        split_char(s, ';')[1],
    ) && parse_i16_ok(split_char(s, ';')[2]) && parse_i16_ok(split_char(s, ';')[3])
}

/// The geometry read from a geometry group; anything malformed reads as
/// "no geometry stored" rather than as a parse failure.
pub open spec fn geometry_of_part(g: Seq<char>) -> Option<FloatingWindow> {
    if bracketed(g) && geo_fields_ok(bracket_inner(g)) {
        let fs = split_char(bracket_inner(g), ';');
        Some(
            FloatingWindow {
                at: (int_literal_val(fs[0]) as i16, int_literal_val(fs[1]) as i16),
                size: (int_literal_val(fs[2]) as i16, int_literal_val(fs[3]) as i16),
            },
        )
    } else {
        None
    }
}

/// The geometry read from the line.
pub open spec fn geometry_of(l: Seq<char>) -> Option<FloatingWindow> {
    geometry_of_part(gpart_of(l))
}

/// The record read from a line that satisfies `line_ok`.
pub open spec fn parsed_record(l: Seq<char>) -> ProgramView {
    ProgramView {
        class: class_of(l),
        workspaces: placements_of(l),
        floating_window: geometry_of(l),
        moved: false,
        float_moved: false,
    }
}

/// If `c` first occurs at `i`, then `find_char` returns `i`.
proof fn lemma_find_char_at(s: Seq<char>, c: char, i: int)
    requires
        0 <= i < s.len(),
        s[i] == c,
        forall|j: int| 0 <= j < i ==> s[j] != c,
    ensures
        find_char(s, c) == i,
{
    lemma_find_char_bounds(s, c);
    let f = find_char(s, c);
    if f == -1 {
        assert(s[i] != c);
    } else if f < i {
        assert(s[f] != c);
    } else if f > i {
        assert(s[i] != c);
    }
}

// ---------------------------------------------------------------------------
// Executable parsing.
// ---------------------------------------------------------------------------

/// First position of `c` in `s` at or after `from`.
fn find_char_at(s: &str, from: usize, c: char) -> (r: Option<usize>)
    requires
        from <= s@.len(),
    ensures
        match r {
            Some(i) => from <= i < s@.len() && s@[i as int] == c && forall|j: int|
                from <= j < i ==> s@[j] != c,
            None => forall|j: int| from <= j < s@.len() ==> s@[j] != c,
        },
{
    let n = s.unicode_len();
    let mut i: usize = from;
    while i < n
        invariant
            from <= i <= n,
            n == s@.len(),
            forall|j: int| from <= j < i ==> s@[j] != c,
        decreases n - i,
    {
        if s.get_char(i) == c {
            return Some(i);
        }
        i = i + 1;
    }
    None
}

/// Splits `s` on every occurrence of `sep`, materialising the parts.
fn split_str(s: &str, sep: char) -> (parts: Vec<String>)
    ensures
        parts.deep_view() == split_char(s@, sep),
{
    let n = s.unicode_len();
    let mut parts: Vec<String> = Vec::new();
    let mut pos: usize = 0;
    proof {
        assert(s@.skip(0) =~= s@);
        assert(parts.deep_view() =~= Seq::<Seq<char>>::empty());
    }
    loop
        invariant
            pos <= n,
            n == s@.len(),
            split_char(s@, sep) == parts.deep_view() + split_char(s@.skip(pos as int), sep),
        decreases n - pos,
    {
        let ghost tail = s@.skip(pos as int);
        let ghost dv = parts.deep_view();
        match find_char_at(s, pos, sep) {
            Some(i) => {
                let piece = s.substring_char(pos, i).to_owned();
                proof {
                    assert forall|j: int| 0 <= j < tail.len() implies tail[j] == s@[pos + j] by {}
                    lemma_find_char_at(tail, sep, i - pos);
                    assert(0 <= i - pos < tail.len());
                    assert(split_char(tail, sep) == seq![tail.take(i - pos)] + split_char(
                        tail.skip(i - pos + 1),
                        sep,
                    ));
                    assert(piece@ =~= tail.take(i - pos));
                    assert(tail.skip(i - pos + 1) =~= s@.skip(i + 1));
                }
                parts.push(piece);
                proof {
                    assert(parts.deep_view() =~= dv.push(piece@));
                    assert(dv.push(piece@) + split_char(s@.skip(i + 1), sep) =~= dv + (seq![
                        piece@,
                    ] + split_char(s@.skip(i + 1), sep)));
                }
                pos = i + 1;
            },
            None => {
                let piece = s.substring_char(pos, n).to_owned();
                proof {
                    assert forall|j: int| 0 <= j < tail.len() implies tail[j] == s@[pos + j] by {}
                    assert(!tail.contains(sep)) by {
                        if tail.contains(sep) {
                            let k = choose|k: int| 0 <= k < tail.len() && tail[k] == sep;
                            assert(s@[pos + k] == sep);
                        }
                    }
                    lemma_find_char_none(tail, sep);
                    assert(split_char(tail, sep) == seq![tail]);
                    assert(piece@ =~= tail);
                }
                parts.push(piece);
                proof {
                    assert(parts.deep_view() =~= dv.push(piece@));
                    assert(dv.push(piece@) =~= dv + seq![piece@]);
                }
                return parts;
            },
        }
    }
}

/// Reads the geometry group `line[gstart..]`; malformed geometry reads as
/// `None`, never as an error.
fn parse_geometry_part(line: &str, gstart: usize) -> (r: Option<FloatingWindow>)
    requires
        gstart <= line@.len(),
    ensures
        r == geometry_of_part(line@.skip(gstart as int)),
{
    let ghost g = line@.skip(gstart as int);
    let n = line.unicode_len();
    if n - gstart < 2 {
        return None;
    }
    if !(line.get_char(gstart) == '[') || !(line.get_char(n - 1) == ']') {
        proof {
            assert(g[0] == line@[gstart as int]);
            assert(g.last() == line@[n - 1]);
        }
        return None;
    }
    proof {
        assert(g[0] == line@[gstart as int]);
        assert(g.last() == line@[n - 1]);
        assert(bracketed(g));
    }
    let ginner = line.substring_char(gstart + 1, n - 1);
    proof {
        assert(ginner@ =~= bracket_inner(g));
    }
    let fs = split_str(ginner, ';');
    if fs.len() != 4 {
        return None;
    }
    proof {
        assert(fs.deep_view()[0] == fs@[0]@);
        assert(fs.deep_view()[1] == fs@[1]@);
        assert(fs.deep_view()[2] == fs@[2]@);
        assert(fs.deep_view()[3] == fs@[3]@);
    }
    let x = match parse_i16_str(fs[0].as_str()) {
        Some(v) => v,
        None => {
            return None;
        },
    };
    let y = match parse_i16_str(fs[1].as_str()) {
        Some(v) => v,
        None => {
            return None;
        },
    };
    let w = match parse_i16_str(fs[2].as_str()) {
        Some(v) => v,
        None => {
            return None;
        },
    };
    let h = match parse_i16_str(fs[3].as_str()) {
        Some(v) => v,
        None => {
            return None;
        },
    };
    Some(FloatingWindow { at: (x, y), size: (w, h) })
}

/// Decodes one persisted line into a record.
///
/// The shape of the line (the `:`/`&` skeleton, the bracketed history group
/// and the two-field form of each history item) is checked first and yields
/// `InvalidFormat`; only then are the numeric fields read, and one that is
/// not a decimal number in range yields `InvalidInt`.  A malformed geometry
/// group is read as "no geometry stored" rather than rejected.  Suppression
/// flags are never persisted, so a decoded record carries both flags clear.
pub fn decode(line: &str) -> (r: Result<Program, ParseError>)
    ensures
        match r {
            Ok(p) => line_ok(line@) && p@ == parsed_record(line@),
            Err(e) => !line_ok(line@) && (e == ParseError::InvalidFormat <==> !history_shape_ok(
                line@,
            )),
        },
{
    let n = line.unicode_len();
    let ci = match find_char_at(line, 0, ':') {
        Some(i) => i,
        None => {
            proof {
                lemma_find_char_bounds(line@, ':');
                if find_char(line@, ':') >= 0 {
                    assert(line@[find_char(line@, ':')] == ':');
                }
            }
            return Err(ParseError::InvalidFormat);
        },
    };
    proof {
        lemma_find_char_at(line@, ':', ci as int);
    }
    let ghost rest = rest_of(line@);
    let rest_start = ci + 1;
    proof {
        assert(rest =~= line@.skip(rest_start as int));
        assert forall|j: int| 0 <= j < rest.len() implies rest[j] == line@[rest_start + j] by {}
    }
    let ai = match find_char_at(line, rest_start, '&') {
        Some(i) => i,
        None => {
            proof {
                lemma_find_char_bounds(rest, '&');
                if find_char(rest, '&') >= 0 {
                    assert(rest[find_char(rest, '&')] == '&');
                }
            }
            return Err(ParseError::InvalidFormat);
        },
    };
    proof {
        lemma_find_char_at(rest, '&', ai - rest_start);
        assert(wpart_of(line@) =~= line@.subrange(rest_start as int, ai as int));
    }
    let ghost wpart = wpart_of(line@);
    // the history group must be exactly bracketed
    if ai - rest_start < 2 {
        return Err(ParseError::InvalidFormat);
    }
    if !(line.get_char(rest_start) == '[') || !(line.get_char(ai - 1) == ']') {
        proof {
            assert(wpart[0] == line@[rest_start as int]);
            assert(wpart.last() == line@[ai - 1]);
        }
        return Err(ParseError::InvalidFormat);
    }
    proof {
        assert(wpart[0] == line@[rest_start as int]);
        assert(wpart.last() == line@[ai - 1]);
        assert(bracketed(wpart));
        assert(shape_prefix_ok(line@));
    }
    let hist = line.substring_char(rest_start + 1, ai - 1);
    proof {
        assert(hist@ =~= bracket_inner(wpart));
    }
    let mut workspaces: Vec<Workspace> = Vec::new();
    if hist.unicode_len() > 0 {
        let parts = split_str(hist, ',');
        proof {
            assert(parts.deep_view() == hist_items(line@));
            assert(parts@.len() == parts.deep_view().len());
        }
        // first pass: every item must be exactly two fields
        let mut k: usize = 0;
        while k < parts.len()
            invariant
                0 <= k <= parts@.len(),
                parts.deep_view() == hist_items(line@),
                hist@ == bracket_inner(wpart_of(line@)),
                hist@.len() > 0,
                shape_prefix_ok(line@),
                forall|j: int|
                    0 <= j < k ==> item_fields(#[trigger] hist_items(line@)[j]).len() == 2,
            decreases parts@.len() - k,
        {
            let fields = split_str(parts[k].as_str(), ';');
            proof {
                assert(parts[k as int]@ == parts.deep_view()[k as int]);
                assert(fields.deep_view().len() == item_fields(hist_items(line@)[k as int]).len());
            }
            if fields.len() != 2 {
                return Err(ParseError::InvalidFormat);
            }
            k = k + 1;
        }
        proof {
            assert(history_shape_ok(line@));
        }
        // second pass: read the numeric fields
        let mut k: usize = 0;
        while k < parts.len()
            invariant
                0 <= k <= parts@.len(),
                parts.deep_view() == hist_items(line@),
                hist@ == bracket_inner(wpart_of(line@)),
                hist@.len() > 0,
                history_shape_ok(line@),
                workspaces@.len() == k,
                forall|j: int|
                    0 <= j < k ==> parse_i32_ok(item_fields(#[trigger] hist_items(line@)[j])[0])
                        && parse_i64_ok(item_fields(hist_items(line@)[j])[1]),
                forall|j: int|
                    0 <= j < k ==> workspaces@[j] == item_workspace(
                        #[trigger] hist_items(line@)[j],
                    ),
            decreases parts@.len() - k,
        {
            let fields = split_str(parts[k].as_str(), ';');
            proof {
                assert(parts[k as int]@ == parts.deep_view()[k as int]);
                assert(fields.deep_view() == item_fields(hist_items(line@)[k as int]));
                assert(fields.deep_view()[0] == fields@[0]@);
                assert(fields.deep_view()[1] == fields@[1]@);
            }
            let id = match parse_i32_str(fields[0].as_str()) {
                Some(v) => v,
                None => {
                    return Err(ParseError::InvalidInt);
                },
            };
            let ts = match parse_i64_str(fields[1].as_str()) {
                Some(v) => v,
                None => {
                    return Err(ParseError::InvalidInt);
                },
            };
            workspaces.push(Workspace { workspace_id: id, timestamp: ts });
            k = k + 1;
        }
        proof {
            assert(history_ints_ok(line@));
            assert(workspaces@ =~= placements_of(line@));
        }
    } else {
        proof {
            assert(bracket_inner(wpart_of(line@)).len() == 0);
            assert(history_shape_ok(line@) && history_ints_ok(line@));
            assert(workspaces@ =~= placements_of(line@));
        }
    }
    let geometry = parse_geometry_part(line, ai + 1);
    proof {
        assert(line@.skip(ai + 1) =~= gpart_of(line@));
    }
    let class = line.substring_char(0, ci).to_owned();
    proof {
        assert(class@ =~= class_of(line@));
    }
    Ok(
        Program {
            class,
            workspaces,
            floating_window: geometry,
            moved: false,
            float_moved: false,
        },
    )
}

// ---------------------------------------------------------------------------
// The round trip: a rendered line reads back as the record it renders.
// ---------------------------------------------------------------------------

/// The characters that may appear in a rendered history group.
pub open spec fn hist_char(c: char) -> bool {
    is_digit(c) || c == '-' || c == ';' || c == ','
}

/// All characters of a join satisfy `p` when the items' characters and the
/// separator do.
proof fn lemma_join_chars(items: Seq<Seq<char>>, sep: char, p: spec_fn(char) -> bool)
    requires
        p(sep),
        forall|i: int, j: int|
            #![trigger items[i][j]]
            0 <= i < items.len() && 0 <= j < items[i].len() ==> p(items[i][j]),
    ensures
        forall|k: int| 0 <= k < join_sep(items, sep).len() ==> p(#[trigger] join_sep(items, sep)[k]),
    decreases items.len(),
{
    if items.len() <= 1 {
    } else {
        let rest = items.drop_first();
        assert(forall|i: int, j: int|
            #![trigger rest[i][j]]
            0 <= i < rest.len() && 0 <= j < rest[i].len() ==> p(rest[i][j])) by {
            assert forall|i: int, j: int|
                #![trigger rest[i][j]]
                0 <= i < rest.len() && 0 <= j < rest[i].len() implies p(rest[i][j]) by {
                assert(rest[i] == items[i + 1]);
                assert(p(items[i + 1][j]));
            }
        }
        lemma_join_chars(rest, sep, p);
        let j = join_sep(items, sep);
        assert(j == items[0] + seq![sep] + join_sep(rest, sep));
        assert forall|k: int| 0 <= k < j.len() implies p(j[k]) by {
            if k < items[0].len() {
                assert(j[k] == items[0][k]);
            } else if k == items[0].len() {
                assert(j[k] == sep);
            } else {
                assert(j[k] == join_sep(rest, sep)[k - items[0].len() - 1]);
            }
        }
    }
}

/// Every character of a rendered placement is a digit, `-` or `;`.
proof fn lemma_encode_workspace_chars(w: Workspace)
    ensures
        forall|k: int|
            0 <= k < encode_workspace(w).len() ==> hist_char(#[trigger] encode_workspace(w)[k])
                && encode_workspace(w)[k] != ',',
{
    let a = dec_int(w.workspace_id as int);
    let b = dec_int(w.timestamp as int);
    lemma_dec_int_chars(w.workspace_id as int);
    lemma_dec_int_chars(w.timestamp as int);
    let it = encode_workspace(w);
    assert forall|k: int| 0 <= k < it.len() implies hist_char(it[k]) && it[k] != ',' by {
        if k < a.len() {
            assert(it[k] == a[k]);
        } else if k == a.len() {
            assert(it[k] == ';');
        } else {
            assert(it[k] == b[k - a.len() - 1]);
        }
        assert(is_digit(it[k]) ==> it[k] != ',') by {
            assert(',' as int == 44 && '0' as int == 48 && '9' as int == 57);
        }
        assert('-' as int == 45 && ';' as int == 59 && ',' as int == 44);
    }
}

/// Every character of a rendered history group is a digit, `-`, `;` or `,`.
proof fn lemma_encode_workspaces_chars(ws: Seq<Workspace>)
    ensures
        forall|k: int|
            0 <= k < encode_workspaces(ws).len() ==> hist_char(#[trigger] encode_workspaces(ws)[k]),
{
    let items = workspace_items(ws);
    assert(forall|i: int, j: int|
        #![trigger items[i][j]]
        0 <= i < items.len() && 0 <= j < items[i].len() ==> hist_char(items[i][j])) by {
        assert forall|i: int, j: int|
            #![trigger items[i][j]]
            0 <= i < items.len() && 0 <= j < items[i].len() implies hist_char(items[i][j]) by {
            assert(items[i] == encode_workspace(ws[i]));
            lemma_encode_workspace_chars(ws[i]);
        }
    }
    assert(hist_char(','));
    lemma_join_chars(items, ',', |c: char| hist_char(c));
    assert forall|k: int| 0 <= k < encode_workspaces(ws).len() implies hist_char(
        #[trigger] encode_workspaces(ws)[k],
    ) by {
        let p = |c: char| hist_char(c);
        assert(p(join_sep(items, ',')[k]));
    }
}

/// The fields of a rendered placement are the two rendered numbers.
proof fn lemma_workspace_item_fields(w: Workspace)
    ensures
        item_fields(encode_workspace(w)) == seq![
            dec_int(w.workspace_id as int),
            dec_int(w.timestamp as int),
        ],
        item_fields(encode_workspace(w)).len() == 2,
        parse_i32_ok(item_fields(encode_workspace(w))[0]),
        parse_i64_ok(item_fields(encode_workspace(w))[1]),
        item_workspace(encode_workspace(w)) == w,
{
    let a = dec_int(w.workspace_id as int);
    let b = dec_int(w.timestamp as int);
    lemma_dec_int_chars(w.workspace_id as int);
    lemma_dec_int_chars(w.timestamp as int);
    assert(!a.contains(';')) by {
        if a.contains(';') {
            let k = choose|k: int| 0 <= k < a.len() && a[k] == ';';
            assert(is_digit(a[k]) || a[k] == '-');
            assert(';' as int == 59 && '-' as int == 45 && '0' as int == 48 && '9' as int == 57);
        }
    }
    assert(!b.contains(';')) by {
        if b.contains(';') {
            let k = choose|k: int| 0 <= k < b.len() && b[k] == ';';
            assert(is_digit(b[k]) || b[k] == '-');
            assert(';' as int == 59 && '-' as int == 45 && '0' as int == 48 && '9' as int == 57);
        }
    }
    let pair = seq![a, b];
    assert(pair[0] == a && pair[1] == b);
    assert(pair.drop_first() =~= seq![b]);
    assert(join_sep(seq![b], ';') == b);
    assert(join_sep(pair, ';') == a + seq![';'] + b);
    lemma_split_join(pair, ';');
    assert(encode_workspace(w) == join_sep(pair, ';'));
    lemma_dec_int(w.workspace_id as int);
    lemma_dec_int(w.timestamp as int);
    assert(item_workspace(encode_workspace(w)) == w);
}

/// The rendered history group reads back as the placements it renders.
proof fn lemma_history_reads_back(ws: Seq<Workspace>)
    ensures
        encode_workspaces(ws).len() == 0 <==> ws.len() == 0,
        ws.len() > 0 ==> split_char(encode_workspaces(ws), ',') == workspace_items(ws),
        forall|i: int|
            0 <= i < ws.len() ==> item_fields(#[trigger] workspace_items(ws)[i]).len() == 2
                && parse_i32_ok(item_fields(workspace_items(ws)[i])[0]) && parse_i64_ok(
                item_fields(workspace_items(ws)[i])[1],
            ) && item_workspace(workspace_items(ws)[i]) == ws[i],
{
    let items = workspace_items(ws);
    let body = encode_workspaces(ws);
    assert forall|i: int| 0 <= i < ws.len() implies item_fields(
        #[trigger] workspace_items(ws)[i],
    ).len() == 2 && parse_i32_ok(item_fields(workspace_items(ws)[i])[0]) && parse_i64_ok(
        item_fields(workspace_items(ws)[i])[1],
    ) && item_workspace(workspace_items(ws)[i]) == ws[i] by {
        assert(items[i] == encode_workspace(ws[i]));
        lemma_workspace_item_fields(ws[i]);
    }
    if ws.len() > 0 {
        assert(forall|i: int| 0 <= i < items.len() ==> !(#[trigger] items[i]).contains(',')) by {
            assert forall|i: int| 0 <= i < items.len() implies !(#[trigger] items[i]).contains(
                ',',
            ) by {
                assert(items[i] == encode_workspace(ws[i]));
                lemma_encode_workspace_chars(ws[i]);
                if items[i].contains(',') {
                    let k = choose|k: int| 0 <= k < items[i].len() && items[i][k] == ',';
                    assert(items[i][k] != ',');
                }
            }
        }
        lemma_split_join(items, ',');
        assert(body.len() > 0) by {
            assert(items[0] == encode_workspace(ws[0]));
            lemma_dec_int(ws[0].workspace_id as int);
            if items.len() == 1 {
                assert(body == items[0]);
            } else {
                assert(body == items[0] + seq![','] + join_sep(items.drop_first(), ','));
            }
        }
    }
}

/// A rendered geometry group between brackets reads back as the geometry it
/// renders; absence renders as `[]`, which reads back as absence.
proof fn lemma_geometry_reads_back(g: Option<FloatingWindow>)
    ensures
        geometry_of_part(seq!['['] + encode_geometry_opt(g) + seq![']']) == g,
{
    let geo = encode_geometry_opt(g);
    let gp = seq!['['] + geo + seq![']'];
    assert(gp[0] == '[' && gp.last() == ']');
    assert(bracketed(gp));
    match g {
        None => {
            assert(gp =~= seq!['[', ']']);
            assert(bracket_inner(gp) =~= Seq::<char>::empty());
            lemma_find_char_none(Seq::<char>::empty(), ';');
            assert(split_char(Seq::<char>::empty(), ';') =~= seq![Seq::<char>::empty()]);
            assert(!geo_fields_ok(bracket_inner(gp)));
        },
        Some(f) => {
            let a = dec_int(f.at.0 as int);
            let b = dec_int(f.at.1 as int);
            let c = dec_int(f.size.0 as int);
            let d = dec_int(f.size.1 as int);
            lemma_dec_int_chars(f.at.0 as int);
            lemma_dec_int_chars(f.at.1 as int);
            lemma_dec_int_chars(f.size.0 as int);
            lemma_dec_int_chars(f.size.1 as int);
            let quad = seq![a, b, c, d];
            assert(forall|i: int| 0 <= i < quad.len() ==> !(#[trigger] quad[i]).contains(';')) by {
                assert forall|i: int| 0 <= i < quad.len() implies !(#[trigger] quad[i]).contains(
                    ';',
                ) by {
                    if quad[i].contains(';') {
                        let k = choose|k: int| 0 <= k < quad[i].len() && quad[i][k] == ';';
                        assert(quad[i] == a || quad[i] == b || quad[i] == c || quad[i] == d);
                        assert(is_digit(quad[i][k]) || quad[i][k] == '-');
                        assert(';' as int == 59 && '-' as int == 45 && '0' as int == 48 && '9' as int
                            == 57);
                    }
                }
            }
            lemma_split_join(quad, ';');
            assert(geo == encode_geometry(f));
            assert(bracket_inner(gp) =~= geo);
            assert(split_char(bracket_inner(gp), ';') == quad);
            lemma_dec_int(f.at.0 as int);
            lemma_dec_int(f.at.1 as int);
            lemma_dec_int(f.size.0 as int);
            lemma_dec_int(f.size.1 as int);
            assert(geo_fields_ok(bracket_inner(gp)));
            assert(geometry_of_part(gp) == Some(f));
        },
    }
}

/// A line rendered from a record whose class has no `:` parses back to the
/// record: the shape checks pass and the class, the history and the
/// geometry all read back unchanged.
pub proof fn lemma_decode_encode(p: ProgramView)
    requires
        !p.class.contains(':'),
    ensures
        line_ok(spec_encode(p)),
        class_of(spec_encode(p)) == p.class,
        placements_of(spec_encode(p)) == p.workspaces,
        geometry_of(spec_encode(p)) == p.floating_window,
{
    let l = spec_encode(p);
    let body = encode_workspaces(p.workspaces);
    let geo = encode_geometry_opt(p.floating_window);
    let tail = seq!['['] + body + seq![']', '&', '['] + geo + seq![']'];
    assert(l =~= p.class + seq![':'] + tail);
    lemma_find_char_concat(p.class, tail, ':');
    assert(find_char(l, ':') == p.class.len());
    assert(class_of(l) =~= p.class);
    assert(rest_of(l) =~= tail);
    let wp = seq!['['] + body + seq![']'];
    let gp = seq!['['] + geo + seq![']'];
    assert(tail =~= wp + seq!['&'] + gp);
    lemma_encode_workspaces_chars(p.workspaces);
    assert(!wp.contains('&')) by {
        if wp.contains('&') {
            let k = choose|k: int| 0 <= k < wp.len() && wp[k] == '&';
            if 0 < k < wp.len() - 1 {
                assert(wp[k] == body[k - 1]);
                assert(hist_char(body[k - 1]));
                assert('&' as int == 38 && '-' as int == 45 && ';' as int == 59 && ',' as int
                    == 44 && '0' as int == 48 && '9' as int == 57);
            } else {
                assert('[' as int == 91 && ']' as int == 93 && '&' as int == 38);
            }
        }
    }
    lemma_find_char_concat(wp, gp, '&');
    assert(find_char(rest_of(l), '&') == wp.len());
    assert(wpart_of(l) =~= wp);
    assert(gpart_of(l) =~= gp);
    assert(wp[0] == '[' && wp.last() == ']');
    assert(bracketed(wp));
    assert(shape_prefix_ok(l));
    assert(bracket_inner(wpart_of(l)) =~= body);
    lemma_history_reads_back(p.workspaces);
    if p.workspaces.len() == 0 {
        assert(placements_of(l) =~= p.workspaces);
        assert(history_shape_ok(l) && history_ints_ok(l));
    } else {
        assert(hist_items(l) == workspace_items(p.workspaces));
        assert(history_shape_ok(l) && history_ints_ok(l));
        assert(placements_of(l) =~= p.workspaces);
    }
    lemma_geometry_reads_back(p.floating_window);
    assert(geometry_of(l) == p.floating_window);
}

// ---------------------------------------------------------------------------
// Whole storage files.
// ---------------------------------------------------------------------------

/// The persisted image of a sequence of records: one line per record,
/// each newline-terminated.
pub open spec fn encode_file(ps: Seq<Program>) -> Seq<char>
    decreases ps.len(),
{
    if ps.len() == 0 {
        Seq::empty()
    } else {
        encode_file(ps.drop_last()) + spec_encode(ps.last()@) + seq!['\n']
    }
}

/// The effective lines of a storage file: the file split on newlines,
/// with the empty tail that a final newline produces dropped.
pub open spec fn storage_lines(content: Seq<char>) -> Seq<Seq<char>> {
    let ls = split_char(content, '\n');
    if ls.len() > 0 && ls.last().len() == 0 {
        ls.drop_last()
    } else {
        ls
    }
}

/// Renders every record for the persistence flush, one line each.
pub fn encode_programs(programs: &Vec<Program>) -> (s: String)
    ensures
        s@ == encode_file(programs@),
{
    let nl: &str = "\n";
    proof {
        reveal_strlit("\n");
    }
    let mut buf = String::new();
    let mut i: usize = 0;
    while i < programs.len()
        invariant
            0 <= i <= programs@.len(),
            buf@ == encode_file(programs@.take(i as int)),
            nl@ == seq!['\n'],
        decreases programs@.len() - i,
    {
        let line = encode(&programs[i]);
        buf.append(line.as_str());
        buf.append(nl);
        proof {
            assert(programs@.take(i + 1).drop_last() =~= programs@.take(i as int));
            assert(programs@.take(i + 1).last() == programs@[i as int]);
            assert(encode_file(programs@.take(i as int)) + spec_encode(programs@[i as int]@) + seq![
                '\n',
            ] =~= encode_file(programs@.take(i + 1)));
        }
        i = i + 1;
    }
    proof {
        assert(programs@.take(programs@.len() as int) =~= programs@);
    }
    buf
}

/// Reads a whole storage file back into records.  The first line that
/// does not parse aborts the load with its error, so a damaged file is
/// reported rather than silently thinned out.
pub fn decode_programs(content: &str) -> (r: Result<Vec<Program>, ParseError>)
    ensures
        match r {
            Ok(v) => v@.len() == storage_lines(content@).len() && forall|i: int|
                0 <= i < v@.len() ==> line_ok(#[trigger] storage_lines(content@)[i]) && v@[i]@
                    == parsed_record(storage_lines(content@)[i]),
            Err(e) => exists|i: int|
                0 <= i < storage_lines(content@).len() && !line_ok(
                    #[trigger] storage_lines(content@)[i],
                ),
        },
{
    let ghost lines = storage_lines(content@);
    let mut parts = split_str(content, '\n');
    let last_idx = parts.len() - 1;
    if parts[last_idx].as_str().unicode_len() == 0 {
        let _ = parts.pop();
        proof {
            assert(parts.deep_view() =~= lines);
        }
    } else {
        proof {
            assert(parts.deep_view() =~= lines);
        }
    }
    let mut out: Vec<Program> = Vec::new();
    let mut i: usize = 0;
    while i < parts.len()
        invariant
            0 <= i <= parts@.len(),
            parts.deep_view() == lines,
            lines == storage_lines(content@),
            out@.len() == i,
            forall|j: int|
                0 <= j < i ==> line_ok(#[trigger] lines[j]) && out@[j]@ == parsed_record(lines[j]),
        decreases parts@.len() - i,
    {
        proof {
            assert(parts@[i as int]@ == parts.deep_view()[i as int]);
        }
        match decode(parts[i].as_str()) {
            Ok(p) => {
                out.push(p);
            },
            Err(e) => {
                proof {
                    assert(!line_ok(lines[i as int]));
                }
                return Err(e);
            },
        }
        i = i + 1;
    }
    Ok(out)
}

/// A line of the persisted grammar: the rendering of some record whose
/// class contains no `:`.
pub open spec fn canonical_line(l: Seq<char>) -> bool {
    exists|p: ProgramView| !p.class.contains(':') && l == spec_encode(p)
}

/// Round trip: re-encoding what a canonical line decodes to gives back the
/// line, character for character.  Together with the contracts of `decode`
/// and `encode` this carries the property to the executable codec.
pub proof fn lemma_encode_decode_round_trip(l: Seq<char>)
    requires
        canonical_line(l),
    ensures
        line_ok(l),
        spec_encode(parsed_record(l)) == l,
{
    let p = choose|p: ProgramView| !p.class.contains(':') && l == spec_encode(p);
    lemma_decode_encode(p);
    assert(spec_encode(parsed_record(l)) == spec_encode(p));
}

} // verus!

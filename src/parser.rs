//! Recognition of unified-diff text, line by line.
//!
//! A line is a run of characters ended by `\n`, or the rest of the input.
//! A line that begins with `diff --git ` always opens a new file delta and a
//! line that begins with `@@` always opens a new hunk: such lines never
//! belong to a hunk's body.

use vstd::prelude::*;
use vstd::string::*;
use vstd::std_specs::iter::IteratorSpec;
use crate::text::{digits_value, digit_of, lemma_digits_value_prefix, lemma_decimal_facts, lemma_digit_char, starts_with, diff_marker, decimal, is_digit, digit_value, lemma_decimal_push, match_at, is_diff_line_at};
use crate::diff::{Diff, Delta, Hunk, range_line, hunks_text, deltas_text};
use crate::grammar::{marker_shape, hunk_marker, old_marker, new_marker, marker_lines, ends_with, opens_at, opens_nothing, number_at, header_line_at, header_marks, boundary_at, closed, hunk_at, no_old_marker_line, delta_at, lead_len, hunk_offset, delta_offset, oversized_at, oversized_number_in};

verus! {

broadcast use vstd::string::group_string_axioms;

/// Why a text could not be parsed.
#[derive(Debug, Clone, Copy, PartialEq, Eq)]
pub enum ParseError {
    /// The text does not follow the grammar of a unified diff.
    Syntax,
    /// A line count or start line of a range header does not fit in a `u32`.
    InvariantViolation,
}

/// The characters of `s`, one by one.
fn chars_of(s: &str) -> (r: Vec<char>)
    ensures
        r@ == s@,
{
    let mut r: Vec<char> = Vec::new();
    let mut it = s.chars();
    loop
        invariant
            r@ + it.remaining() == s@,
            it.obeys_prophetic_iter_laws(),
            it.decrease() is Some,
        ensures
            r@ == s@,
        decreases it.decrease()->0,
    {
        let ghost before = it.remaining();
        match it.next() {
            Some(c) => {
                r.push(c);
                assert(r@ + it.remaining() =~= s@) by {
                    assert(before =~= seq![c] + before.drop_first());
                }
            },
            None => {
                assert(r@ =~= s@);
                break;
            },
        }
    }
    r
}

/// The end of the line that starts at `i`: just past its `\n`, or the end of the text.
fn line_end(t: &Vec<char>, i: usize) -> (e: usize)
    requires
        i < t@.len(),
    ensures
        i < e <= t@.len(),
        forall|j: int| i <= j < e - 1 ==> t@[j] != '\n',
        e < t@.len() ==> t@[e - 1] == '\n',
{
    let mut e: usize = i;
    while e < t.len()
        invariant
            i <= e <= t@.len(),
            forall|j: int| i <= j < e ==> t@[j] != '\n',
        decreases t@.len() - e,
    {
        if t[e] == '\n' {
            return e + 1;
        }
        e = e + 1;
    }
    e
}


proof fn lemma_subrange_concat(s: Seq<char>, a: int, b: int, c: int)
    requires
        0 <= a <= b <= c <= s.len(),
    ensures
        s.subrange(a, c) == s.subrange(a, b) + s.subrange(b, c),
{
    assert(s.subrange(a, c) =~= s.subrange(a, b) + s.subrange(b, c));
}

/// A text that a prefix of `t.skip(a)` starts with is a prefix of `t.skip(a)` too.
proof fn lemma_prefix_starts(t: Seq<char>, a: int, b: int, p: Seq<char>)
    requires
        0 <= a <= b <= t.len(),
        starts_with(t.subrange(a, b), p),
    ensures
        starts_with(t.skip(a), p),
{
    assert(t.skip(a).subrange(0, p.len() as int) =~= t.subrange(a, b).subrange(0, p.len() as int));
}

/// The lines of `t` from `a` to `b` that were checked one by one open
/// nothing in `t`, hence nothing in that part of `t`.
proof fn lemma_opens_nothing(t: Seq<char>, a: int, b: int, from: int)
    requires
        0 <= a <= b <= t.len(),
        from >= 0,
        forall|j: int|
            a + from <= j < b && (j == a || t[j - 1] == '\n') ==> !starts_with(t.skip(j), diff_marker())
                && !starts_with(t.skip(j), hunk_marker()),
    ensures
        opens_nothing(t.subrange(a, b), from),
{
    let s = t.subrange(a, b);
    assert forall|i: int| from <= i implies !#[trigger] opens_at(s, i, hunk_marker()) && !opens_at(s, i, diff_marker()) by {
        if opens_at(s, i, hunk_marker()) {
            assert(s.skip(i) =~= t.subrange(a + i, b));
            lemma_prefix_starts(t, a + i, b, hunk_marker());
        }
        if opens_at(s, i, diff_marker()) {
            assert(s.skip(i) =~= t.subrange(a + i, b));
            lemma_prefix_starts(t, a + i, b, diff_marker());
        }
    }
}

/// A file marker line opens no hunk and no delta.
proof fn lemma_marker_opens_nothing(t: Seq<char>, q: int)
    requires
        0 <= q <= t.len(),
        starts_with(t.skip(q), old_marker()) || starts_with(t.skip(q), new_marker()),
    ensures
        !starts_with(t.skip(q), diff_marker()),
        !starts_with(t.skip(q), hunk_marker()),
{
    assert(t.skip(q).subrange(0, 4)[0] == t.skip(q)[0]);
    if starts_with(t.skip(q), diff_marker()) {
        assert(t.skip(q).subrange(0, 11)[0] == t.skip(q)[0]);
    }
    if starts_with(t.skip(q), hunk_marker()) {
        assert(t.skip(q).subrange(0, 2)[0] == t.skip(q)[0]);
    }
}

fn is_hunk_line_at(t: &Vec<char>, i: usize) -> (r: bool)
    requires
        i <= t@.len(),
    ensures
        r == starts_with(t@.skip(i as int), hunk_marker()),
{
    proof {
        reveal_strlit("@@");
    }
    assert("@@"@ =~= hunk_marker());
    match_at(t, i, "@@")
}

/// Steps over the literal `lit` at `p`.
fn expect(t: &Vec<char>, p: usize, lit: &str) -> (r: Result<usize, ParseError>)
    requires
        p <= t@.len(),
    ensures
        match r {
            Ok(e) => e == p + lit@.len() && e <= t@.len() && t@.subrange(p as int, e as int) == lit@,
            Err(e) => e == ParseError::Syntax && !starts_with(t@.skip(p as int), lit@),
        },
{
    if match_at(t, p, lit) {
        assert(t@.subrange(p as int, p + lit@.len()) =~= t@.skip(p as int).subrange(0, lit@.len() as int));
        let m = lit.unicode_len();
        let n = t.len();
        assert(t@.skip(p as int).len() == t@.len() - p);
        assert(m <= n - p);
        Ok(p + m)
    } else {
        Err(ParseError::Syntax)
    }
}

/// Reads the decimal number at `i`: `0`, or a nonzero digit and the digits
/// after it. Where `want` names a number that stands there, that number is
/// read.
fn read_number(t: &Vec<char>, i: usize, Ghost(want): Ghost<Option<(u32, int)>>) -> (r: Result<(u32, usize), ParseError>)
    requires
        i <= t@.len(),
    ensures
        match r {
            Ok((v, e)) => i < e <= t@.len() && t@.subrange(i as int, e as int) == decimal(v as nat)
                && (v == 0 || e == t@.len() || !is_digit(t@[e as int])),
            Err(ParseError::Syntax) => i == t@.len() || !is_digit(t@[i as int]),
            Err(ParseError::InvariantViolation) => oversized_at(t@, i as int),
        },
        oversized_at(t@, i as int) ==> r == Err::<(u32, usize), ParseError>(ParseError::InvariantViolation),
        match want {
            Some((v, k)) => number_at(t@, i as int, v as nat, k) ==> r == Ok::<(u32, usize), ParseError>((v, k as usize)),
            None => true,
        },
{
    let ghost fits = match want {
        Some((v, k)) => number_at(t@, i as int, v as nat, k),
        None => false,
    };
    let ghost wv: u32 = match want { Some((v, _)) if fits => v, _ => 0 };
    let ghost wk: int = match want { Some((_, k)) if fits => k, _ => 0 };
    proof {
        if fits {
            lemma_decimal_facts(wv as nat);
            assert(t@[i as int] == t@.subrange(i as int, wk)[0]);
        }
    }
    if i >= t.len() || !(t[i] >= '0' && t[i] <= '9') {
        return Err(ParseError::Syntax);
    }
    let d0 = digit_value(t[i]);
    assert(t@.subrange(i as int, i + 1) =~= decimal(d0 as nat));
    if d0 == 0 {
        proof {
            if fits {
                assert(wv == 0);
            }
        }
        return Ok((0, i + 1));
    }
    proof {
        lemma_digit_char(d0 as nat);
    }
    let mut v: u32 = d0;
    let mut e: usize = i + 1;
    proof {
        let one = t@.subrange(i as int, e as int);
        assert(one.drop_last() =~= Seq::<char>::empty());
        assert(digits_value(one) == digits_value(one.drop_last()) * 10 + digit_of(one.last()));
    }
    while e < t.len() && t[e] >= '0' && t[e] <= '9'
        invariant
            i < e <= t@.len(),
            v > 0,
            t@.subrange(i as int, e as int) == decimal(v as nat),
            v as nat == digits_value(t@.subrange(i as int, e as int)),
            forall|j: int| i <= j < e ==> is_digit(#[trigger] t@[j]),
            t@[i as int] != '0',
            fits == match want {
                Some((v, k)) => number_at(t@, i as int, v as nat, k),
                None => false,
            },
            fits ==> want == Some((wv, wk)),
            fits ==> e <= wk,
            fits ==> number_at(t@, i as int, wv as nat, wk),
            fits ==> digits_value(t@.subrange(i as int, wk)) == wv,
            fits ==> forall|j: int| 0 <= j < decimal(wv as nat).len() ==> is_digit(#[trigger] decimal(wv as nat)[j]),
        decreases t@.len() - e,
    {
        let d = digit_value(t[e]);
        proof {
            let next = t@.subrange(i as int, e + 1);
            assert(next.drop_last() =~= t@.subrange(i as int, e as int));
            assert(digits_value(next) == digits_value(next.drop_last()) * 10 + digit_of(next.last()));
            if fits {
                if e == wk {
                    assert(!is_digit(t@[wk]));
                }
                lemma_digits_value_prefix(t@.subrange(i as int, wk), e + 1 - i);
                assert(t@.subrange(i as int, wk).subrange(0, e + 1 - i) =~= t@.subrange(i as int, e + 1));
                assert(v * 10 + d <= u32::MAX);
                assert(v <= (u32::MAX - d) / 10) by (nonlinear_arith)
                    requires
                        v * 10 + d <= u32::MAX,
                        d < 10,
                ;
            }
        }
        if v > (u32::MAX - d) / 10 {
            proof {
                assert(v * 10 + d > u32::MAX) by (nonlinear_arith)
                    requires
                        v > (u32::MAX - d) / 10,
                        d < 10,
                ;
                assert(forall|j: int| i <= j < e + 1 ==> is_digit(#[trigger] t@[j]));
                assert(t@[i as int] != '0');
                assert(oversized_at(t@, i as int)) by {
                    assert(digits_value(t@.subrange(i as int, e + 1)) > u32::MAX);
                }
            }
            return Err(ParseError::InvariantViolation);
        }
        assert(v * 10 + d <= u32::MAX) by (nonlinear_arith)
            requires
                v <= (u32::MAX - d) / 10,
                d < 10,
        ;
        proof {
            lemma_decimal_push(v as nat, d as nat);
            assert(t@.subrange(i as int, e + 1) =~= t@.subrange(i as int, e as int).push(t@[e as int]));
        }
        v = v * 10 + d;
        e = e + 1;
    }
    proof {
        if fits {
            if e < wk {
                assert(t@[e as int] == decimal(wv as nat)[e - i]);
            }
            lemma_decimal_facts(v as nat);
        }
        if oversized_at(t@, i as int) {
            let k = choose|k: int|
                0 <= i < k <= t@.len() && t@[i as int] != '0' && (forall|j: int| i <= j < k ==> is_digit(#[trigger] t@[j]))
                    && digits_value(#[trigger] t@.subrange(i as int, k)) > u32::MAX;
            if e < k {
                assert(is_digit(t@[e as int]));
            }
            lemma_digits_value_prefix(t@.subrange(i as int, e as int), k - i);
            assert(t@.subrange(i as int, e as int).subrange(0, k - i) =~= t@.subrange(i as int, k));
        }
    }
    Ok((v, e))
}

/// A part of a text that stands in `t` at `q` stands there piece by piece.
proof fn lemma_piece(t: Seq<char>, q: int, whole: Seq<char>, x: int, y: int)
    requires
        0 <= q,
        0 <= x <= y <= whole.len(),
        q + whole.len() <= t.len(),
        t.subrange(q, q + whole.len()) == whole,
    ensures
        t.subrange(q + x, q + y) == whole.subrange(x, y),
        t.skip(q + x).len() >= y - x,
        y > x ==> starts_with(t.skip(q + x), whole.subrange(x, y)),
{
    assert(t.subrange(q + x, q + y) =~= whole.subrange(x, y));
    assert(t.skip(q + x).subrange(0, y - x) =~= whole.subrange(x, y));
}

/// What a reader meets, piece by piece, on the header line of `h`.
#[verifier::rlimit(60)]
proof fn lemma_header_line_pieces(t: Seq<char>, q: int, h: Hunk)
    requires
        header_line_at(t, q, h),
    ensures
        ({
            let m = header_marks(h);
            let end = q + h.full_header().len() + 1;
            &&& starts_with(t.skip(q), seq!['@', '@', ' ', '-'])
            &&& number_at(t, q + m[0], h.old_start as nat, q + m[1])
            &&& starts_with(t.skip(q + m[1]), seq![','])
            &&& number_at(t, q + m[2], h.old_lines as nat, q + m[3])
            &&& starts_with(t.skip(q + m[3]), seq![' ', '+'])
            &&& number_at(t, q + m[4], h.new_start as nat, q + m[5])
            &&& starts_with(t.skip(q + m[5]), seq![','])
            &&& number_at(t, q + m[6], h.new_lines as nat, q + m[7])
            &&& starts_with(t.skip(q + m[7]), seq![' ', '@', '@'])
            &&& q + m[8] < end <= t.len()
            &&& t[end - 1] == '\n'
            &&& forall|j: int| q + m[8] <= j < end - 1 ==> t[j] != '\n'
        }),
{
    let m = header_marks(h);
    let line = h.full_header().push('\n');
    let da = decimal(h.old_start as nat);
    let db = decimal(h.old_lines as nat);
    let dc = decimal(h.new_start as nat);
    let dd = decimal(h.new_lines as nat);
    lemma_decimal_facts(h.old_start as nat);
    lemma_decimal_facts(h.old_lines as nat);
    lemma_decimal_facts(h.new_start as nat);
    lemma_decimal_facts(h.new_lines as nat);
    assert(line.len() == m[8] + h.header_suffix@.len() + 1);
    lemma_piece(t, q, line, 0, m[0]);
    assert(line.subrange(0, m[0]) =~= seq!['@', '@', ' ', '-']);
    lemma_piece(t, q, line, m[0], m[1]);
    assert(line.subrange(m[0], m[1]) =~= da);
    lemma_piece(t, q, line, m[1], m[2]);
    assert(line.subrange(m[1], m[2]) =~= seq![',']);
    assert(t[q + m[1]] == t.subrange(q + m[1], q + m[2])[0]);
    lemma_piece(t, q, line, m[2], m[3]);
    assert(line.subrange(m[2], m[3]) =~= db);
    lemma_piece(t, q, line, m[3], m[4]);
    assert(line.subrange(m[3], m[4]) =~= seq![' ', '+']);
    assert(t[q + m[3]] == t.subrange(q + m[3], q + m[4])[0]);
    lemma_piece(t, q, line, m[4], m[5]);
    assert(line.subrange(m[4], m[5]) =~= dc);
    lemma_piece(t, q, line, m[5], m[6]);
    assert(line.subrange(m[5], m[6]) =~= seq![',']);
    assert(t[q + m[5]] == t.subrange(q + m[5], q + m[6])[0]);
    lemma_piece(t, q, line, m[6], m[7]);
    assert(line.subrange(m[6], m[7]) =~= dd);
    lemma_piece(t, q, line, m[7], m[8]);
    assert(line.subrange(m[7], m[8]) =~= seq![' ', '@', '@']);
    assert(t[q + m[7]] == t.subrange(q + m[7], q + m[8])[0]);
    lemma_piece(t, q, line, m[8], line.len() as int);
    assert forall|j: int| q + m[8] <= j < q + line.len() - 1 implies t[j] != '\n' by {
        assert(t[j] == t.subrange(q + m[8], q + line.len())[j - q - m[8]]);
        assert(line.subrange(m[8], line.len() as int)[j - q - m[8]] == h.header_suffix@[j - q - m[8]]);
    }
    assert(t[q + line.len() - 1] == t.subrange(q, q + line.len())[line.len() - 1]);
}

/// Reads the hunk header line at `q`: the range header, then free text up
/// to a line break. Gives the four numbers, where the free text starts, and
/// where the line ends. Where `want` is a hunk whose header line stands
/// there, its numbers are read.
#[verifier::rlimit(40)]
fn read_hunk_header(t: &Vec<char>, q: usize, Ghost(want): Ghost<Option<Hunk>>) -> (r: Result<(u32, u32, u32, u32, usize, usize), ParseError>)
    requires
        q < t@.len(),
    ensures
        r == Err::<(u32, u32, u32, u32, usize, usize), ParseError>(ParseError::InvariantViolation) ==> oversized_number_in(t@),
        match r {
            Ok((a, b, c, d, ss, e)) => {
                &&& q < ss < e <= t@.len()
                &&& t@[e - 1] == '\n'
                &&& t@.subrange(q as int, ss as int) == range_line(a as nat, b as nat, c as nat, d as nat)
                &&& forall|j: int| ss <= j < e - 1 ==> t@[j] != '\n'
            },
            Err(_) => true,
        },
        match want {
            Some(h) => header_line_at(t@, q as int, h) ==> (r matches Ok((a, b, c, d, ss, e)) && a == h.old_start
                && b == h.old_lines && c == h.new_start && d == h.new_lines
                && e == q + h.full_header().len() + 1),
            None => true,
        },
{
    proof {
        reveal_strlit("@@ -");
        reveal_strlit(",");
        reveal_strlit(" +");
        reveal_strlit(" @@");
    }
    let ghost h: Hunk = match want {
        Some(h) => h,
        None => vstd::pervasive::arbitrary(),
    };
    let ghost fits = want is Some && header_line_at(t@, q as int, h);
    let ghost m = header_marks(h);
    let ghost tq = q as int;
    let ghost line = h.full_header().push('\n');
    proof {
        assert("@@ -"@ =~= seq!['@', '@', ' ', '-']);
        assert(","@ =~= seq![',']);
        assert(" +"@ =~= seq![' ', '+']);
        assert(" @@"@ =~= seq![' ', '@', '@']);
        if fits {
            lemma_header_line_pieces(t@, tq, h);
        }
    }
    let p1 = expect(t, q, "@@ -")?;
    let (a, p2) = read_number(t, p1, Ghost(if fits { Some((h.old_start, tq + m[1])) } else { None }))?;
    let p3 = expect(t, p2, ",")?;
    let (b, p4) = read_number(t, p3, Ghost(if fits { Some((h.old_lines, tq + m[3])) } else { None }))?;
    let p5 = expect(t, p4, " +")?;
    let (c, p6) = read_number(t, p5, Ghost(if fits { Some((h.new_start, tq + m[5])) } else { None }))?;
    let p7 = expect(t, p6, ",")?;
    let (d, p8) = read_number(t, p7, Ghost(if fits { Some((h.new_lines, tq + m[7])) } else { None }))?;
    let ss = expect(t, p8, " @@")?;
    if ss >= t.len() {
        return Err(ParseError::Syntax);
    }
    let e = line_end(t, ss);
    if t[e - 1] != '\n' {
        return Err(ParseError::Syntax);
    }
    proof {
        let s = t@;
        lemma_subrange_concat(s, q as int, p1 as int, p2 as int);
        lemma_subrange_concat(s, q as int, p2 as int, p3 as int);
        lemma_subrange_concat(s, q as int, p3 as int, p4 as int);
        lemma_subrange_concat(s, q as int, p4 as int, p5 as int);
        lemma_subrange_concat(s, q as int, p5 as int, p6 as int);
        lemma_subrange_concat(s, q as int, p6 as int, p7 as int);
        lemma_subrange_concat(s, q as int, p7 as int, p8 as int);
        lemma_subrange_concat(s, q as int, p8 as int, ss as int);
        assert(s.subrange(q as int, ss as int) =~= range_line(a as nat, b as nat, c as nat, d as nat));
        if fits {
            lemma_header_line_pieces(t@, tq, h);
            let end = tq + line.len();
            if e < end {
                assert(s[e - 1] != '\n');
            }
            if e > end {
                assert(s[end - 1] != '\n');
            }
        }
    }
    Ok((a, b, c, d, ss, e))
}

/// A line of a hunk body, inside the text, opens no hunk or delta there.
proof fn lemma_no_opener_in_body(t: Seq<char>, le: int, end: int, e: int, content: Seq<char>)
    requires
        0 <= le <= e < end <= t.len(),
        t.subrange(le, end) == content,
        opens_nothing(content, 0),
        e == le || t[e - 1] == '\n',
        end == t.len() || t[end - 1] == '\n',
    ensures
        !starts_with(t.skip(e), diff_marker()),
        !starts_with(t.skip(e), hunk_marker()),
{
    let i = e - le;
    assert(!opens_at(content, i, hunk_marker()));
    assert(!opens_at(content, i, diff_marker()));
    if i > 0 {
        assert(content[i - 1] == t[e - 1]);
    }
    assert(content.skip(i) =~= t.subrange(e, end));
    if starts_with(t.skip(e), diff_marker()) {
        if diff_marker().len() > end - e {
            assert(t[end - 1] == t.skip(e).subrange(0, diff_marker().len() as int)[end - 1 - e]);
        }
        assert(t.subrange(e, end).subrange(0, diff_marker().len() as int) =~= t.skip(e).subrange(0, diff_marker().len() as int));
    }
    if starts_with(t.skip(e), hunk_marker()) {
        if hunk_marker().len() > end - e {
            assert(t[end - 1] == t.skip(e).subrange(0, hunk_marker().len() as int)[end - 1 - e]);
        }
        assert(t.subrange(e, end).subrange(0, hunk_marker().len() as int) =~= t.skip(e).subrange(0, hunk_marker().len() as int));
    }
}

/// Relies on `String::push`: the character is appended at the end.
#[verifier::external_body]
fn push_char(s: &mut String, c: char)
    ensures
        final(s)@ == old(s)@.push(c),
{
    s.push(c);
}

/// The text of `t` from `a` to `b` as a `String`.
fn text_between(t: &Vec<char>, a: usize, b: usize) -> (r: String)
    requires
        a <= b <= t@.len(),
    ensures
        r@ == t@.subrange(a as int, b as int),
{
    let mut r = String::new();
    let mut i: usize = a;
    while i < b
        invariant
            a <= i <= b <= t@.len(),
            r@ == t@.subrange(a as int, i as int),
        decreases b - i,
    {
        push_char(&mut r, t[i]);
        i = i + 1;
        assert(r@ =~= t@.subrange(a as int, i as int));
    }
    assert(r@ =~= t@.subrange(a as int, b as int));
    r
}

/// Reads the hunk whose header line starts at `q`, and its body, which runs
/// up to the next line that opens a hunk or a delta, or to the end.
fn read_hunk(
    t: &Vec<char>,
    q: usize,
    file_header: &String,
    old_file: &String,
    new_file: &String,
    Ghost(want): Ghost<Option<Hunk>>,
) -> (r: Result<(Hunk, usize), ParseError>)
    requires
        q < t@.len(),
    ensures
        r == Err::<(Hunk, usize), ParseError>(ParseError::InvariantViolation) ==> oversized_number_in(t@),
        match r {
            Ok((h, e)) => {
                &&& q < e <= t@.len()
                &&& h.text() == t@.subrange(q as int, e as int)
                &&& h.well_formed()
                &&& h.file_header@ == file_header@
                &&& h.old_file@ == old_file@
                &&& h.new_file@ == new_file@
                &&& boundary_at(t@, e as int)
                &&& (closed(h.content@) || e == t@.len())
            },
            Err(_) => true,
        },
        match want {
            Some(h) => (hunk_at(t@, q as int, h) && h.file_header@ == file_header@ && h.old_file@ == old_file@
                && h.new_file@ == new_file@) ==> (r matches Ok((h2, e)) && e == q + h.text().len() && h2.same_as(&h)),
            None => true,
        },
{
    let ghost h0: Hunk = match want {
        Some(h) => h,
        None => vstd::pervasive::arbitrary(),
    };
    let ghost fits = want is Some && hunk_at(t@, q as int, h0) && h0.file_header@ == file_header@
        && h0.old_file@ == old_file@ && h0.new_file@ == new_file@;
    let ghost line_len: int = h0.full_header().len() as int + 1;
    let ghost end: int = q as int + h0.text().len() as int;
    proof {
        if fits {
            lemma_piece(t@, q as int, h0.text(), 0, line_len);
            assert(h0.text().subrange(0, line_len) =~= h0.full_header().push('\n'));
            lemma_piece(t@, q as int, h0.text(), line_len, h0.text().len() as int);
            assert(h0.text().subrange(line_len, h0.text().len() as int) =~= h0.content@);
            if !closed(h0.content@) {
                assert(end == t@.len());
            } else if h0.content@.len() > 0 {
                assert(t@[end - 1] == t@.subrange(q + line_len, end)[end - 1 - q - line_len]);
            }
        }
    }
    let (a, b, c, d, ss, le) = read_hunk_header(t, q, Ghost(if fits { Some(h0) } else { None }))?;
    let mut e: usize = le;
    while e < t.len() && !is_diff_line_at(t, e) && !is_hunk_line_at(t, e)
        invariant
            le <= e <= t@.len(),
            fits ==> le == q + line_len && e <= end && (e == le || e == end || t@[e - 1] == '\n'),
            fits ==> end <= t@.len() && t@.subrange(q + line_len, end) == h0.content@,
            fits ==> opens_nothing(h0.content@, 0) && boundary_at(t@, end),
            fits ==> end == t@.len() || t@[end - 1] == '\n' || h0.content@.len() == 0,
            le > 0 && t@[le - 1] == '\n',
            e == le || e == t@.len() || t@[e - 1] == '\n',
            forall|j: int|
                le <= j < e && (j == le || t@[j - 1] == '\n') ==> !starts_with(t@.skip(j), diff_marker())
                    && !starts_with(t@.skip(j), hunk_marker()),
        decreases t@.len() - e,
    {
        let ghost e0 = e;
        e = line_end(t, e);
        assert forall|j: int|
            le <= j < e && (j == le || t@[j - 1] == '\n') implies !starts_with(t@.skip(j), diff_marker())
                && !starts_with(t@.skip(j), hunk_marker()) by {
            if j > e0 {
                assert(t@[j - 1] != '\n');
            }
        }
        proof {
            if fits {
                assert(e0 < end);
                if e > end {
                    assert(t@[end - 1] != '\n');
                }
            }
        }
    }
    proof {
        if fits && e < end {
            lemma_no_opener_in_body(t@, le as int, end, e as int, h0.content@);
        }
    }
    let h = Hunk {
        file_header: file_header.clone(),
        old_file: old_file.clone(),
        new_file: new_file.clone(),
        old_start: a,
        old_lines: b,
        new_start: c,
        new_lines: d,
        header_suffix: text_between(t, ss, le - 1),
        content: text_between(t, le, e),
    };
    proof {
        let s = t@;
        lemma_opens_nothing(s, le as int, e as int, 0);
        if e > le && e < s.len() {
            assert(h.content@.last() == s[e - 1]);
        }
        if h.header_suffix@.contains('\n') {
            let k = choose|k: int| 0 <= k < h.header_suffix@.len() && h.header_suffix@[k] == '\n';
            assert(s[ss + k] == '\n');
        }
        assert(h.text() =~= s.subrange(q as int, e as int));
        if fits {
            assert(e == end);
            let rl = h0.range_header().len() as int;
            assert(ss - q == rl);
            lemma_piece(s, q as int, h0.text(), rl, line_len - 1);
            assert(h0.text().subrange(rl, line_len - 1) =~= h0.header_suffix@);
            assert(h.same_as(&h0));
        }
    }
    Ok((h, e))
}


fn is_old_line_at(t: &Vec<char>, i: usize) -> (r: bool)
    requires
        i <= t@.len(),
    ensures
        r == starts_with(t@.skip(i as int), old_marker()),
{
    proof {
        reveal_strlit("--- ");
    }
    assert("--- "@ =~= old_marker());
    match_at(t, i, "--- ")
}

fn is_new_line_at(t: &Vec<char>, i: usize) -> (r: bool)
    requires
        i <= t@.len(),
    ensures
        r == starts_with(t@.skip(i as int), new_marker()),
{
    proof {
        reveal_strlit("+++ ");
    }
    assert("+++ "@ =~= new_marker());
    match_at(t, i, "+++ ")
}

/// The end of the line at `i`, which must close with a line break.
fn closed_line_end(t: &Vec<char>, i: usize) -> (r: Result<usize, ParseError>)
    requires
        i < t@.len(),
    ensures
        r != Err::<usize, ParseError>(ParseError::InvariantViolation),
        match r {
            Ok(e) => i < e <= t@.len() && t@[e - 1] == '\n' && forall|j: int| i <= j < e - 1 ==> t@[j] != '\n',
            Err(_) => forall|j: int| i <= j < t@.len() ==> t@[j] != '\n',
        },
{
    let e = line_end(t, i);
    if t[e - 1] == '\n' {
        Ok(e)
    } else {
        Err(ParseError::Syntax)
    }
}

/// The patterns the reader looks for hold no line break.
proof fn lemma_markers_have_no_break()
    ensures
        forall|k: int| 0 <= k < diff_marker().len() ==> diff_marker()[k] != '\n',
        forall|k: int| 0 <= k < hunk_marker().len() ==> hunk_marker()[k] != '\n',
        forall|k: int| 0 <= k < old_marker().len() ==> old_marker()[k] != '\n',
{
}

/// Where the header of a delta that stands in `t` at `start` ends, and,
/// for one without marker lines, what follows it.
proof fn lemma_lead_end(t: Seq<char>, start: int, d: Delta)
    requires
        delta_at(t, start, d),
    ensures
        start + d.file_header@.len() <= t.len(),
        t.subrange(start, start + d.file_header@.len()) == d.file_header@,
        d.file_header@.len() > 0,
        t[start + d.file_header@.len() - 1] == '\n',
        !d.has_marker_lines() ==> {
            &&& d.hunks@.len() == 0
            &&& d.text() == d.file_header@
            &&& (start + d.file_header@.len() == t.len() || starts_with(t.skip(start + d.file_header@.len()), diff_marker()))
        },
{
    let h = d.file_header@;
    lemma_piece(t, start, d.text(), 0, h.len() as int);
    assert(d.text().subrange(0, h.len() as int) =~= h);
    assert(h.len() >= 11);
    if !d.has_marker_lines() {
        assert(hunks_text(d.hunks@) =~= Seq::<char>::empty());
        assert(d.text() =~= h);
    } else {
        let m = marker_lines(d.old_file@, d.new_file@);
        assert(h[h.len() - 1] == h.subrange(h.len() - m.len(), h.len() as int)[m.len() - 1]);
    }
    assert(t[start + h.len() - 1] == t.subrange(start, start + h.len())[h.len() - 1]);
}

/// How the marker lines of a delta that stands in `t` at `start` lie.
#[verifier::rlimit(80)]
proof fn lemma_lead_end_markers(t: Seq<char>, start: int, d: Delta)
    requires
        start + d.file_header@.len() <= t.len(),
        0 <= start,
        t.subrange(start, start + d.file_header@.len()) == d.file_header@,
        d.has_marker_lines(),
    ensures
        ({
            let h = d.file_header@;
            let m = marker_lines(d.old_file@, d.new_file@);
            let o = d.old_file@.len() as int;
            let n = d.new_file@.len() as int;
            let p = start + h.len() - m.len();
            &&& starts_with(t.skip(p), old_marker())
            &&& (forall|j: int| p <= j < p + 4 + o ==> t[j] != '\n')
            &&& t[p + 4 + o] == '\n'
            &&& p + 5 + o < t.len()
            &&& starts_with(t.skip(p + 5 + o), new_marker())
            &&& (forall|j: int| p + 5 + o <= j < p + 9 + o + n ==> t[j] != '\n')
            &&& t[p + 9 + o + n] == '\n'
            &&& p + 10 + o + n == start + h.len()
            &&& t.subrange(p + 4, p + 4 + o) == d.old_file@
            &&& t.subrange(p + 9 + o, p + 9 + o + n) == d.new_file@
        }),
{
    let h = d.file_header@;
    let m = marker_lines(d.old_file@, d.new_file@);
    let o = d.old_file@.len() as int;
    let n = d.new_file@.len() as int;
    let p = start + h.len() - m.len();
    lemma_piece(t, start, h, h.len() - m.len(), h.len() as int);
    let w = t.subrange(p, start + h.len());
    assert(w == m);
    assert(t.skip(p).subrange(0, 4) =~= old_marker()) by {
        assert forall|k: int| 0 <= k < 4 implies t.skip(p).subrange(0, 4)[k] == old_marker()[k] by {
            assert(t[p + k] == w[k]);
        }
    }
    assert forall|j: int| p <= j < p + 4 + o implies t[j] != '\n' by {
        assert(t[j] == w[j - p]);
        if j >= p + 4 {
            assert(w[j - p] == d.old_file@[j - p - 4]);
        }
    }
    assert(t[p + 4 + o] == w[4 + o]);
    assert(t.skip(p + 5 + o).subrange(0, 4) =~= new_marker()) by {
        assert forall|k: int| 0 <= k < 4 implies t.skip(p + 5 + o).subrange(0, 4)[k] == new_marker()[k] by {
            assert(t[p + 5 + o + k] == w[5 + o + k]);
        }
    }
    assert forall|j: int| p + 5 + o <= j < p + 9 + o + n implies t[j] != '\n' by {
        assert(t[j] == w[j - p]);
        if j >= p + 9 + o {
            assert(w[j - p] == d.new_file@[j - p - 9 - o]);
        }
    }
    assert(t[p + 9 + o + n] == w[9 + o + n]);
    assert(t.subrange(p + 4, p + 4 + o) =~= d.old_file@) by {
        assert forall|k: int| 0 <= k < o implies t.subrange(p + 4, p + 4 + o)[k] == d.old_file@[k] by {
            assert(t[p + 4 + k] == w[4 + k]);
        }
    }
    assert(t.subrange(p + 9 + o, p + 9 + o + n) =~= d.new_file@) by {
        assert forall|k: int| 0 <= k < n implies t.subrange(p + 9 + o, p + 9 + o + n)[k] == d.new_file@[k] by {
            assert(t[p + 9 + o + k] == w[9 + o + k]);
        }
    }
}

/// A line of `t` at `e`, inside the part of `t` from `a` to `b` that holds
/// `chunk` and ends with a line break or the text, begins with `p` in `t`
/// only if it does so in `chunk`.
proof fn lemma_line_in_chunk(t: Seq<char>, a: int, b: int, e: int, chunk: Seq<char>, p: Seq<char>)
    requires
        0 <= a <= e < b <= t.len(),
        t.subrange(a, b) == chunk,
        e == a || t[e - 1] == '\n',
        b == t.len() || t[b - 1] == '\n',
        forall|k: int| 0 <= k < p.len() ==> p[k] != '\n',
        starts_with(t.skip(e), p),
    ensures
        opens_at(chunk, e - a, p),
{
    let i = e - a;
    if i > 0 {
        assert(chunk[i - 1] == t[e - 1]);
    }
    assert(chunk.skip(i) =~= t.subrange(e, b));
    if p.len() > b - e {
        assert(t[b - 1] == t.skip(e).subrange(0, p.len() as int)[b - 1 - e]);
    }
    assert(t.subrange(e, b).subrange(0, p.len() as int) =~= t.skip(e).subrange(0, p.len() as int));
}

/// A line that opens a delta begins with nothing else that the reader looks for.
proof fn lemma_diff_line_is_nothing_else(t: Seq<char>, q: int)
    requires
        0 <= q <= t.len(),
        starts_with(t.skip(q), diff_marker()),
    ensures
        !starts_with(t.skip(q), hunk_marker()),
        !starts_with(t.skip(q), old_marker()),
{
    assert(t.skip(q).subrange(0, 11)[0] == t.skip(q)[0]);
    if starts_with(t.skip(q), hunk_marker()) {
        assert(t.skip(q).subrange(0, 2)[0] == t.skip(q)[0]);
    }
    if starts_with(t.skip(q), old_marker()) {
        assert(t.skip(q).subrange(0, 4)[0] == t.skip(q)[0]);
    }
}

/// A line break ends the line at `i` no later than `b`.
proof fn lemma_line_end_before(t: Seq<char>, i: int, e: int, b: int)
    requires
        0 <= i < b <= t.len(),
        t[b - 1] == '\n',
        i < e <= t.len(),
        forall|j: int| i <= j < e - 1 ==> t[j] != '\n',
    ensures
        e <= b,
{
    if e > b {
        assert(t[b - 1] != '\n');
    }
}

/// The lines of `t` from `a` to `b` that were checked one by one begin
/// with no `--- ` in `t`, hence none in that part of `t`.
proof fn lemma_no_old_marker_lines(t: Seq<char>, a: int, b: int)
    requires
        0 <= a <= b <= t.len(),
        forall|j: int| a <= j < b && (j == a || t[j - 1] == '\n') ==> !starts_with(t.skip(j), old_marker()),
    ensures
        no_old_marker_line(t.subrange(a, b)),
{
    let s = t.subrange(a, b);
    assert forall|i: int| !#[trigger] opens_at(s, i, old_marker()) by {
        if opens_at(s, i, old_marker()) {
            assert(s.skip(i) =~= t.subrange(a + i, b));
            lemma_prefix_starts(t, a + i, b, old_marker());
        }
    }
}

/// Steps over the `diff --git` line at `start` and the header lines after
/// it, up to a line that opens a delta or a hunk, a `--- ` line, or the
/// end. Where `want` is a delta whose text stands there, that is where its
/// leading lines end.
#[verifier::rlimit(40)]
fn read_lead(t: &Vec<char>, start: usize, Ghost(want): Ghost<Option<Delta>>) -> (r: Result<usize, ParseError>)
    requires
        start < t@.len(),
        starts_with(t@.skip(start as int), diff_marker()),
    ensures
        r != Err::<usize, ParseError>(ParseError::InvariantViolation),
        match r {
            Ok(q) => {
                &&& start < q <= t@.len()
                &&& t@[q - 1] == '\n'
                &&& starts_with(t@.subrange(start as int, q as int), diff_marker())
                &&& forall|j: int|
                    start + 1 <= j < q && (j == start || t@[j - 1] == '\n') ==> !starts_with(t@.skip(j), diff_marker())
                        && !starts_with(t@.skip(j), hunk_marker())
                &&& (q == t@.len() || starts_with(t@.skip(q as int), diff_marker())
                    || starts_with(t@.skip(q as int), hunk_marker()) || starts_with(t@.skip(q as int), old_marker()))
                &&& no_old_marker_line(t@.subrange(start as int, q as int))
            },
            Err(_) => true,
        },
        match want {
            Some(d) => delta_at(t@, start as int, d) ==> r == Ok::<usize, ParseError>((start + lead_len(d)) as usize),
            None => true,
        },
{
    let ghost d: Delta = match want {
        Some(d) => d,
        None => vstd::pervasive::arbitrary(),
    };
    let ghost fits = want is Some && delta_at(t@, start as int, d);
    let ghost h = d.file_header@;
    let ghost m = marker_lines(d.old_file@, d.new_file@);
    let ghost has_m = d.has_marker_lines();
    let ghost lead: Seq<char> = if has_m { h.subrange(0, h.len() - m.len()) } else { h };
    let ghost hend: int = start + h.len();
    let ghost pend: int = start + lead.len();
    proof {
        if fits {
            lemma_piece(t@, start as int, d.text(), 0, h.len() as int);
            assert(d.text().subrange(0, h.len() as int) =~= h);
            lemma_piece(t@, start as int, h, 0, lead.len() as int);
            assert(lead.len() > 0);
            assert(t@[pend - 1] == t@.subrange(start as int, pend)[lead.len() - 1]);
            assert(t@[hend - 1] == t@.subrange(start as int, hend)[h.len() - 1]);
            assert(t@.subrange(start as int, pend) =~= lead);
        }
    }
    let first = closed_line_end(t, start)?;
    proof {
        if fits {
            lemma_line_end_before(t@, start as int, first as int, pend);
        }
    }
    proof {
        lemma_diff_line_is_nothing_else(t@, start as int);
        assert forall|j: int| start <= j < first && (j == start || t@[j - 1] == '\n') implies !starts_with(t@.skip(j), old_marker()) by {
            if j > start {
                assert(t@[j - 1] != '\n');
            }
        }
    }
    let mut q: usize = first;
    while q < t.len() && !is_diff_line_at(t, q) && !is_hunk_line_at(t, q) && !is_old_line_at(t, q)
        invariant
            start < first <= q <= t@.len(),
            t@[q - 1] == '\n',
            forall|j: int| start <= j < q && (j == start || t@[j - 1] == '\n') ==> !starts_with(t@.skip(j), old_marker()),
            forall|j: int|
                start + 1 <= j < q && (j == start || t@[j - 1] == '\n') ==> !starts_with(t@.skip(j), diff_marker())
                    && !starts_with(t@.skip(j), hunk_marker()),
            fits == (want is Some && delta_at(t@, start as int, d)),
            want is Some ==> want == Some(d),
            h == d.file_header@,
            has_m == d.has_marker_lines(),
            lead == (if has_m { h.subrange(0, h.len() - marker_lines(d.old_file@, d.new_file@).len()) } else { h }),
            hend == start + h.len(),
            pend == start + lead.len(),
            fits ==> q <= pend,
            fits ==> pend <= hend <= t@.len() && t@[pend - 1] == '\n' && t@.subrange(start as int, pend) == lead,
            fits ==> no_old_marker_line(lead),
        decreases t@.len() - q,
    {
        let ghost q0 = q;
        proof {
            if fits && q0 == pend {
                lemma_lead_end(t@, start as int, d);
                if has_m {
                    lemma_lead_end_markers(t@, start as int, d);
                }
            }
        }
        q = closed_line_end(t, q)?;
        assert forall|j: int|
            start + 1 <= j < q && (j == start || t@[j - 1] == '\n') implies !starts_with(t@.skip(j), diff_marker())
                && !starts_with(t@.skip(j), hunk_marker()) by {
            if j > q0 {
                assert(t@[j - 1] != '\n');
            }
        }
        assert forall|j: int| start <= j < q && (j == start || t@[j - 1] == '\n') implies !starts_with(t@.skip(j), old_marker()) by {
            if j > q0 {
                assert(t@[j - 1] != '\n');
            }
        }
        proof {
            if fits {
                lemma_line_end_before(t@, q0 as int, q as int, pend);
            }
        }
    }
    proof {
        if fits {
            if q < pend {
                lemma_lead_end(t@, start as int, d);
                lemma_markers_have_no_break();
                assert(!opens_at(h, q - start, hunk_marker()));
                if starts_with(t@.skip(q as int), diff_marker()) {
                    lemma_line_in_chunk(t@, start as int, hend, q as int, h, diff_marker());
                }
                if starts_with(t@.skip(q as int), hunk_marker()) {
                    lemma_line_in_chunk(t@, start as int, hend, q as int, h, hunk_marker());
                }
                if starts_with(t@.skip(q as int), old_marker()) {
                    lemma_line_in_chunk(t@, start as int, pend, q as int, lead, old_marker());
                }
            }
            assert(q == pend);
        }
    }
    proof {
        if first < start + 12 {
            assert(t@.skip(start as int).subrange(0, 11)[first - 1 - start] == t@[first - 1]);
        }
        assert(t@.subrange(start as int, q as int).subrange(0, diff_marker().len() as int)
            =~= t@.skip(start as int).subrange(0, diff_marker().len() as int));
    }
    proof {
        lemma_no_old_marker_lines(t@, start as int, q as int);
    }
    Ok(q)
}

/// Reads the header of the delta whose `diff --git` line starts at
/// `start`: gives its text, its two paths, where it ends, and whether it
/// closed with marker lines. Where `want` is a delta whose text stands
/// there, its header and paths are read.
#[verifier::rlimit(60)]
fn read_file_header(t: &Vec<char>, start: usize, Ghost(want): Ghost<Option<Delta>>) -> (r: Result<(String, String, String, usize, bool), ParseError>)
    requires
        start < t@.len(),
        starts_with(t@.skip(start as int), diff_marker()),
    ensures
        r != Err::<(String, String, String, usize, bool), ParseError>(ParseError::InvariantViolation),
        match r {
            Ok((fh, old, new, e, markers)) => {
                &&& start < e <= t@.len()
                &&& fh@ == t@.subrange(start as int, e as int)
                &&& closed(fh@)
                &&& starts_with(fh@, diff_marker())
                &&& opens_nothing(fh@, 1)
                &&& (markers ==> marker_shape(fh@, old@, new@))
                &&& (!markers ==> no_old_marker_line(fh@) && old@.len() == 0 && new@.len() == 0
                    && (e == t@.len() || starts_with(t@.skip(e as int), diff_marker())))
            },
            Err(_) => true,
        },
        match want {
            Some(d) => delta_at(t@, start as int, d) ==> (r matches Ok((fh, old, new, e, markers))
                && fh@ == d.file_header@ && old@ == d.old_file@ && new@ == d.new_file@
                && e == start + d.file_header@.len() && (!markers ==> d.hunks@.len() == 0)),
            None => true,
        },
{
    let ghost d: Delta = match want {
        Some(d) => d,
        None => vstd::pervasive::arbitrary(),
    };
    let ghost fits = want is Some && delta_at(t@, start as int, d);
    let ghost has_m = d.has_marker_lines();
    let ghost hend: int = start + d.file_header@.len();
    let tlen = t.len();
    let q = read_lead(t, start, Ghost(if fits { Some(d) } else { None }))?;
    proof {
        if fits {
            lemma_lead_end(t@, start as int, d);
            assert(0 <= lead_len(d) <= d.file_header@.len());
            assert(start + lead_len(d) <= tlen);
            assert(q == start + lead_len(d));
            if has_m {
                lemma_lead_end_markers(t@, start as int, d);
            } else {
                if q < t@.len() {
                    lemma_diff_line_is_nothing_else(t@, q as int);
                }
            }
        }
    }
    if q >= t.len() || !is_old_line_at(t, q) {
        if q < t.len() && is_hunk_line_at(t, q) {
            return Err(ParseError::Syntax);
        }
        proof {
            lemma_opens_nothing(t@, start as int, q as int, 1);
            if q < t@.len() && !starts_with(t@.skip(q as int), hunk_marker()) && !starts_with(t@.skip(q as int), old_marker()) {
                assert(starts_with(t@.skip(q as int), diff_marker()));
            }
        }
        let fh = text_between(t, start, q);
        let old = String::new();
        let new = String::new();
        proof {
            if fits {
                assert(!has_m);
                assert(old@ =~= d.old_file@);
                assert(new@ =~= d.new_file@);
            }
        }
        return Ok((fh, old, new, q, false));
    }
    let e1 = closed_line_end(t, q)?;
    proof {
        if fits {
            lemma_line_end_before(t@, q as int, e1 as int, q + 4 + d.old_file@.len() + 1);
            if e1 < q + 4 + d.old_file@.len() + 1 {
                assert(t@[e1 - 1] != '\n');
            }
        }
    }
    if e1 >= t.len() || !is_new_line_at(t, e1) {
        return Err(ParseError::Syntax);
    }
    let e2 = closed_line_end(t, e1)?;
    proof {
        if fits {
            lemma_line_end_before(t@, e1 as int, e2 as int, hend);
            if e2 < hend {
                assert(t@[e2 - 1] != '\n');
            }
        }
        assert(t@.skip(q as int).len() == t@.len() - q);
        assert(t@.skip(e1 as int).len() == t@.len() - e1);
        assert(t@[e1 - 1] == '\n');
    }
    if q + 5 > e1 || e1 + 5 > e2 {
        return Err(ParseError::Syntax);
    }
    proof {
        lemma_marker_opens_nothing(t@, q as int);
        lemma_marker_opens_nothing(t@, e1 as int);
        assert forall|j: int|
            start + 1 <= j < e2 && (j == start || t@[j - 1] == '\n') implies !starts_with(t@.skip(j), diff_marker())
                && !starts_with(t@.skip(j), hunk_marker()) by {
            if q < j < e1 {
                assert(t@[j - 1] != '\n');
            }
            if e1 < j < e2 {
                assert(t@[j - 1] != '\n');
            }
        }
        lemma_opens_nothing(t@, start as int, e2 as int, 1);
    }
    let file_header = text_between(t, start, e2);
    let old_file = text_between(t, q + 4, e1 - 1);
    let new_file = text_between(t, e1 + 4, e2 - 1);
    proof {
        let s = t@;
        assert(s.subrange(q as int, q + 4) =~= s.skip(q as int).subrange(0, 4));
        assert(s.subrange(e1 as int, e1 + 4) =~= s.skip(e1 as int).subrange(0, 4));
        assert(file_header@.subrange(file_header@.len() - (e2 - q), file_header@.len() as int)
            =~= marker_lines(old_file@, new_file@));
        assert(file_header@.subrange(0, diff_marker().len() as int)
            =~= s.skip(start as int).subrange(0, diff_marker().len() as int));
        let ml = marker_lines(old_file@, new_file@).len() as int;
        assert(ml == e2 - q);
        if old_file@.contains('\n') {
            let k = choose|k: int| 0 <= k < old_file@.len() && old_file@[k] == '\n';
            assert(s[q + 4 + k] == '\n');
        }
        if new_file@.contains('\n') {
            let k = choose|k: int| 0 <= k < new_file@.len() && new_file@[k] == '\n';
            assert(s[e1 + 4 + k] == '\n');
        }
        assert(file_header@[file_header@.len() - ml - 1] == s[q - 1]);
        assert(file_header@.subrange(0, file_header@.len() - ml) =~= s.subrange(start as int, q as int));
        assert(marker_shape(file_header@, old_file@, new_file@));
    }
    Ok((file_header, old_file, new_file, e2, true))
}

/// The text of the first `k` hunks begins the text of them all.
proof fn lemma_hunks_text_prefix(hs: Seq<Hunk>, k: int)
    requires
        0 <= k <= hs.len(),
    ensures
        hunks_text(hs.subrange(0, k)).is_prefix_of(hunks_text(hs)),
    decreases hs.len() - k,
{
    if k == hs.len() {
        assert(hs.subrange(0, k) =~= hs);
    } else {
        lemma_hunks_text_prefix(hs, k + 1);
        assert(hs.subrange(0, k + 1).drop_last() =~= hs.subrange(0, k));
    }
}

/// The texts of the first `k` deltas begin the text of them all.
proof fn lemma_deltas_text_prefix(ds: Seq<Delta>, k: int)
    requires
        0 <= k <= ds.len(),
    ensures
        deltas_text(ds.subrange(0, k)).is_prefix_of(deltas_text(ds)),
    decreases ds.len() - k,
{
    if k == ds.len() {
        assert(ds.subrange(0, k) =~= ds);
    } else {
        lemma_deltas_text_prefix(ds, k + 1);
        assert(ds.subrange(0, k + 1).drop_last() =~= ds.subrange(0, k));
    }
}

/// Hunk `k` of a delta that stands in `t` stands there too, and opens with `@@`.
#[verifier::rlimit(80)]
proof fn lemma_hunk_in_delta(t: Seq<char>, start: int, d: Delta, k: int)
    requires
        delta_at(t, start, d),
        0 <= k < d.hunks@.len(),
    ensures
        hunk_at(t, hunk_offset(d, start, k), d.hunks@[k]),
        starts_with(t.skip(hunk_offset(d, start, k)), hunk_marker()),
        hunk_offset(d, start, k + 1) == hunk_offset(d, start, k) + d.hunks@[k].text().len(),
{
    let hs = d.hunks@;
    let hl = d.file_header@.len() as int;
    let p = hunk_offset(d, start, k);
    let hk = hs[k];
    lemma_hunks_text_prefix(hs, k + 1);
    assert(hs.subrange(0, k + 1).drop_last() =~= hs.subrange(0, k));
    let before = hunks_text(hs.subrange(0, k));
    let upto = hunks_text(hs.subrange(0, k + 1));
    assert(upto == before + hk.text());
    let all = hunks_text(hs);
    assert(upto =~= all.subrange(0, upto.len() as int));
    assert(d.text().subrange(hl + before.len(), hl + upto.len()) =~= all.subrange(before.len() as int, upto.len() as int));
    assert(all.subrange(before.len() as int, upto.len() as int) =~= upto.subrange(before.len() as int, upto.len() as int));
    assert(upto.subrange(before.len() as int, upto.len() as int) =~= hk.text());
    lemma_piece(t, start, d.text(), hl + before.len(), hl + upto.len());
    assert(hk.well_formed());
    assert(closed(hk.content@));
    let e = p + hk.text().len();
    if k + 1 < hs.len() {
        lemma_hunks_text_prefix(hs, k + 2);
        assert(hs.subrange(0, k + 2).drop_last() =~= hs.subrange(0, k + 1));
        let nk = hs[k + 1];
        let upto2 = hunks_text(hs.subrange(0, k + 2));
        assert(upto2 == upto + nk.text());
        assert(upto2 =~= all.subrange(0, upto2.len() as int));
        assert(nk.text().len() >= 2);
        assert(d.text().subrange(hl + upto.len(), hl + upto.len() + 2) =~= nk.text().subrange(0, 2)) by {
            assert forall|x: int| 0 <= x < 2 implies d.text().subrange(hl + upto.len(), hl + upto.len() + 2)[x] == nk.text()[x] by {
                assert(d.text()[hl + upto.len() + x] == all[upto.len() + x]);
                assert(all[upto.len() + x] == upto2[upto.len() + x]);
            }
        }
        lemma_piece(t, start, d.text(), hl + upto.len(), hl + upto.len() + 2);
        assert(nk.text().subrange(0, 2) =~= hunk_marker());
    } else {
        assert(hs.subrange(0, k + 1) =~= hs);
    }
    assert(d.text().subrange(hl + before.len(), hl + before.len() + 2) =~= hk.text().subrange(0, 2)) by {
        assert forall|x: int| 0 <= x < 2 implies d.text().subrange(hl + before.len(), hl + before.len() + 2)[x] == hk.text()[x] by {
            assert(d.text()[hl + before.len() + x] == all[before.len() + x]);
            assert(all[before.len() + x] == upto[before.len() + x]);
        }
    }
    lemma_piece(t, start, d.text(), hl + before.len(), hl + before.len() + 2);
    assert(hk.text().subrange(0, 2) =~= hunk_marker());
}

/// Reads the delta whose `diff --git` line starts at `start`: the header
/// lines, then every hunk up to the next delta or the end. Where `want` is
/// a delta whose text stands there, that delta is read.
fn read_delta(t: &Vec<char>, start: usize, Ghost(want): Ghost<Option<Delta>>) -> (r: Result<(Delta, usize), ParseError>)
    requires
        start < t@.len(),
        starts_with(t@.skip(start as int), diff_marker()),
    ensures
        r == Err::<(Delta, usize), ParseError>(ParseError::InvariantViolation) ==> oversized_number_in(t@),
        match r {
            Ok((d, e)) => {
                &&& start < e <= t@.len()
                &&& d.text() == t@.subrange(start as int, e as int)
                &&& d.well_formed()
                &&& d.aligned()
                &&& (d.closed_at_end() || e == t@.len())
                &&& (e == t@.len() || starts_with(t@.skip(e as int), diff_marker()))
            },
            Err(_) => true,
        },
        match want {
            Some(d) => delta_at(t@, start as int, d) ==> (r matches Ok((d2, e)) && e == start + d.text().len()
                && d2.same_as(&d)),
            None => true,
        },
{
    let ghost d0: Delta = match want {
        Some(d) => d,
        None => vstd::pervasive::arbitrary(),
    };
    let ghost fits = want is Some && delta_at(t@, start as int, d0);
    let (file_header, old_file, new_file, e2, markers) = read_file_header(t, start, Ghost(if fits { Some(d0) } else { None }))?;
    if !markers {
        let d = Delta { file_header, old_file, new_file, hunks: Vec::new() };
        proof {
            assert(d.text() =~= t@.subrange(start as int, e2 as int));
            if fits {
                lemma_lead_end(t@, start as int, d0);
                assert(d0.hunks@.len() == 0);
                assert(hunks_text(d0.hunks@) =~= Seq::<char>::empty());
            }
        }
        return Ok((d, e2));
    }
    let ghost hs0 = d0.hunks@;
    let ghost dend: int = start + d0.text().len();
    proof {
        if fits {
            assert(hs0.subrange(0, 0) =~= Seq::<Hunk>::empty());
            assert(hunks_text(Seq::<Hunk>::empty()) =~= Seq::<char>::empty());
        }
    }
    let mut hunks: Vec<Hunk> = Vec::new();
    let mut p: usize = e2;
    while p < t.len() && !is_diff_line_at(t, p)
        invariant
            e2 <= p <= t@.len(),
            hunks_text(hunks@) == t@.subrange(e2 as int, p as int),
            forall|i: int|
                0 <= i < hunks@.len() ==> {
                    &&& (#[trigger] hunks@[i]).well_formed()
                    &&& hunks@[i].file_header@ == file_header@
                    &&& hunks@[i].old_file@ == old_file@
                    &&& hunks@[i].new_file@ == new_file@
                },
            fits == (want is Some && delta_at(t@, start as int, d0)),
            want is Some ==> want == Some(d0),
            fits ==> file_header@ == d0.file_header@ && old_file@ == d0.old_file@ && new_file@ == d0.new_file@,
            fits ==> e2 == start + d0.file_header@.len(),
            fits ==> hunks@.len() <= hs0.len() && hs0 == d0.hunks@,
            fits ==> p == hunk_offset(d0, start as int, hunks@.len() as int),
            fits ==> forall|i: int| 0 <= i < hunks@.len() ==> (#[trigger] hunks@[i]).same_as(&hs0[i]),
            closed(file_header@),
            forall|j: int| 0 <= j < hunks@.len() - 1 ==> closed((#[trigger] hunks@[j]).content@),
            hunks@.len() == 0 || closed(hunks@.last().content@) || p == t@.len(),
        decreases t@.len() - p,
    {
        let ghost k = hunks@.len() as int;
        proof {
            if fits {
                if k == hs0.len() {
                    assert(hs0.subrange(0, k) =~= hs0);
                    assert(p == dend);
                }
                assert(k < hs0.len());
                lemma_hunk_in_delta(t@, start as int, d0, k);
            }
        }
        if !is_hunk_line_at(t, p) {
            return Err(ParseError::Syntax);
        }
        proof {
            if fits {
                assert(hunk_at(t@, p as int, hs0[k]));
                assert(hs0[k].file_header@ == file_header@);
                assert(hs0[k].old_file@ == old_file@);
                assert(hs0[k].new_file@ == new_file@);
            }
        }
        let (h, e) = read_hunk(t, p, &file_header, &old_file, &new_file, Ghost(if fits { Some(hs0[k]) } else { None }))?;
        let ghost before = hunks@;
        hunks.push(h);
        proof {
            assert(hunks@.drop_last() =~= before);
            lemma_subrange_concat(t@, e2 as int, p as int, e as int);
            assert forall|j: int| 0 <= j < hunks@.len() - 1 implies closed((#[trigger] hunks@[j]).content@) by {
                assert(hunks@[j] == before[j]);
                if j == before.len() - 1 {
                    assert(before.last() == before[j]);
                }
            }
        }
        p = e;
    }
    proof {
        if fits {
            let k = hunks@.len() as int;
            if k < hs0.len() {
                lemma_hunk_in_delta(t@, start as int, d0, k);
                if p < t@.len() {
                    lemma_diff_line_is_nothing_else(t@, p as int);
                }
            }
            assert(hs0.subrange(0, k) =~= hs0);
        }
    }
    let d = Delta { file_header, old_file, new_file, hunks };
    proof {
        lemma_subrange_concat(t@, start as int, e2 as int, p as int);
    }
    Ok((d, p))
}

/// A delta's text opens with `diff --git `.
proof fn lemma_delta_opens(d: Delta)
    requires
        d.well_formed(),
    ensures
        d.text().len() >= 11,
        d.text().subrange(0, 11) == diff_marker(),
{
    assert(d.text().subrange(0, 11) =~= d.file_header@.subrange(0, 11));
}

/// Delta `k` of a grammatical diff whose body stands in `t` from `body` to
/// the end stands there too, and opens with `diff --git `.
#[verifier::rlimit(80)]
proof fn lemma_delta_in_diff(t: Seq<char>, body: int, d: Diff, k: int)
    requires
        d.grammatical(),
        0 <= body <= t.len(),
        t.subrange(body, t.len() as int) == d.text(),
        0 <= k < d.deltas@.len(),
    ensures
        delta_at(t, delta_offset(d, body, k), d.deltas@[k]),
        starts_with(t.skip(delta_offset(d, body, k)), diff_marker()),
        delta_offset(d, body, k + 1) == delta_offset(d, body, k) + d.deltas@[k].text().len(),
{
    let ds = d.deltas@;
    let dk = ds[k];
    let all = deltas_text(ds);
    lemma_deltas_text_prefix(ds, k + 1);
    assert(ds.subrange(0, k + 1).drop_last() =~= ds.subrange(0, k));
    let before = deltas_text(ds.subrange(0, k));
    let upto = deltas_text(ds.subrange(0, k + 1));
    assert(upto == before + dk.text());
    assert(upto =~= all.subrange(0, upto.len() as int));
    assert(all.len() == t.len() - body);
    assert(upto.len() <= all.len());
    let p = body + before.len();
    assert(t.subrange(p, p + dk.text().len()) =~= dk.text()) by {
        assert forall|x: int| 0 <= x < dk.text().len() implies t.subrange(p, p + dk.text().len())[x] == dk.text()[x] by {
            assert(t[p + x] == t.subrange(body, t.len() as int)[before.len() + x]);
            assert(all[before.len() + x] == upto[before.len() + x]);
        }
    }
    assert(ds[k].grammatical());
    lemma_delta_opens(dk);
    assert(t.skip(p).subrange(0, 11) =~= dk.text().subrange(0, 11)) by {
        assert forall|x: int| 0 <= x < 11 implies t.skip(p).subrange(0, 11)[x] == dk.text().subrange(0, 11)[x] by {
            assert(t[p + x] == t.subrange(p, p + dk.text().len())[x]);
        }
    }
    let e = p + dk.text().len();
    if k + 1 < ds.len() {
        lemma_deltas_text_prefix(ds, k + 2);
        assert(ds.subrange(0, k + 2).drop_last() =~= ds.subrange(0, k + 1));
        let nk = ds[k + 1];
        let upto2 = deltas_text(ds.subrange(0, k + 2));
        assert(upto2 == upto + nk.text());
        assert(upto2 =~= all.subrange(0, upto2.len() as int));
        assert(upto2.len() <= all.len());
        assert(ds[k + 1].grammatical());
        lemma_delta_opens(nk);
        assert(t.skip(e).subrange(0, 11) =~= nk.text().subrange(0, 11)) by {
            assert forall|x: int| 0 <= x < 11 implies t.skip(e).subrange(0, 11)[x] == nk.text().subrange(0, 11)[x] by {
                assert(t[e + x] == t.subrange(body, t.len() as int)[upto.len() + x]);
                assert(all[upto.len() + x] == upto2[upto.len() + x]);
            }
        }
    } else {
        assert(ds.subrange(0, k + 1) =~= ds);
    }
}

/// The commit line of a grammatical diff ends just before its body.
pub(crate) proof fn lemma_commit_line(t: Seq<char>, d: Diff)
    requires
        d.grammatical(),
        d.commit_text() + d.text() == t,
    ensures
        t.subrange(d.commit_text().len() as int, t.len() as int) == d.text(),
        d.commit is Some ==> {
            &&& t.len() > 0
            &&& !starts_with(t, diff_marker())
            &&& t[d.commit_text().len() - 1] == '\n'
            &&& forall|j: int| 0 <= j < d.commit_text().len() - 1 ==> t[j] != '\n'
            &&& t.subrange(0, d.commit_text().len() - 1) == d.commit->0@
        },
        d.commit is None && t.len() > 0 ==> starts_with(t, diff_marker()),
{
    let ct = d.commit_text();
    assert(t.subrange(ct.len() as int, t.len() as int) =~= d.text());
    match d.commit {
        Some(c) => {
            assert(t[ct.len() - 1] == ct[ct.len() - 1]);
            assert forall|j: int| 0 <= j < ct.len() - 1 implies t[j] != '\n' by {
                assert(t[j] == c@[j]);
            }
            assert(t.subrange(0, ct.len() - 1) =~= c@);
            if starts_with(t, diff_marker()) {
                if c@.len() >= 11 {
                    assert(c@.subrange(0, 11) =~= t.subrange(0, 11));
                } else {
                    assert(t[c@.len() as int] == '\n');
                    assert(t.subrange(0, 11)[c@.len() as int] == diff_marker()[c@.len() as int]);
                }
            }
        },
        None => {
            if t.len() > 0 {
                assert(d.deltas@.len() > 0) by {
                    if d.deltas@.len() == 0 {
                        assert(deltas_text(d.deltas@) =~= Seq::<char>::empty());
                    }
                }
                lemma_delta_in_diff(t, 0, d, 0);
                assert(d.deltas@.subrange(0, 0) =~= Seq::<Delta>::empty());
                assert(deltas_text(Seq::<Delta>::empty()) =~= Seq::<char>::empty());
                assert(t.skip(0) =~= t);
            }
        },
    }
}

impl Diff {
    /// Parses unified-diff text: an optional commit line (any first line
    /// that does not open a delta), then the deltas. On success the commit
    /// line and the rendered diff give back the input exactly, every file
    /// header and every hunk body but the last ends with a line break, and
    /// the result has the fields of a grammatical reading whenever the
    /// input has one. A range header must give both numbers of each range
    /// (`@@ -1 +1 @@` is refused), written without leading zeros (`01` is
    /// refused), so that the range header renders back unchanged.
    /// `InvariantViolation` comes only from a run of digits too large for a
    /// `u32`, and every other failure is a `Syntax` error.
    pub fn parse(input: &str) -> (r: Result<Diff, ParseError>)
        ensures
            r == Err::<Diff, ParseError>(ParseError::InvariantViolation) ==> oversized_number_in(input@),
            match r {
                Ok(d) => {
                    &&& d.well_formed()
                    &&& d.aligned()
                    &&& d.commit_text() + d.text() == input@
                    &&& (d.commit is Some <==> (input@.len() > 0 && !starts_with(input@, diff_marker())))
                },
                Err(_) => true,
            },
            (exists|d: Diff| d.grammatical() && d.commit_text() + d.text() == input@) ==> (r matches Ok(d)
                && exists|g: Diff| g.grammatical() && g.commit_text() + g.text() == input@ && d.same_as(&g)),
    {
        let ghost fits = exists|d: Diff| d.grammatical() && d.commit_text() + d.text() == input@;
        let ghost d0: Diff = if fits {
            choose|d: Diff| d.grammatical() && d.commit_text() + d.text() == input@
        } else {
            vstd::pervasive::arbitrary()
        };
        let t = chars_of(input);
        proof {
            if fits {
                lemma_commit_line(t@, d0);
                assert(t@.skip(0) =~= t@);
                if d0.commit is None && t@.len() > 0 {
                    assert(starts_with(t@.skip(0), diff_marker()));
                }
            }
        }
        let mut pos: usize = 0;
        let mut commit: Option<String> = None;
        if t.len() > 0 && !is_diff_line_at(&t, 0) {
            let e = closed_line_end(&t, 0)?;
            proof {
                if fits {
                    let cl = d0.commit_text().len() as int;
                    if e < cl {
                        assert(t@[e - 1] != '\n');
                    }
                    if e > cl {
                        assert(t@[cl - 1] != '\n');
                    }
                }
            }
            let c = text_between(&t, 0, e - 1);
            proof {
                if c@.contains('\n') {
                    let k = choose|k: int| 0 <= k < c@.len() && c@[k] == '\n';
                    assert(t@[k] == '\n');
                }
                assert(c@.push('\n') =~= t@.subrange(0, e as int));
            }
            commit = Some(c);
            pos = e;
        }
        let body = pos;
        let mut deltas: Vec<Delta> = Vec::new();
        proof {
            if fits {
                assert(d0.deltas@.subrange(0, 0) =~= Seq::<Delta>::empty());
                assert(deltas_text(Seq::<Delta>::empty()) =~= Seq::<char>::empty());
            }
        }
        while pos < t.len()
            invariant
                t@ == input@,
                body <= pos <= t@.len(),
                deltas_text(deltas@) == t@.subrange(body as int, pos as int),
                forall|i: int| 0 <= i < deltas@.len() ==> (#[trigger] deltas@[i]).well_formed(),
                fits == exists|d: Diff| d.grammatical() && d.commit_text() + d.text() == input@,
                fits ==> d0.grammatical() && d0.commit_text() + d0.text() == input@,
                fits ==> body == d0.commit_text().len() && t@.subrange(body as int, t@.len() as int) == d0.text(),
                fits ==> deltas@.len() <= d0.deltas@.len() && pos == delta_offset(d0, body as int, deltas@.len() as int),
                fits ==> forall|i: int| 0 <= i < deltas@.len() ==> (#[trigger] deltas@[i]).same_as(&d0.deltas@[i]),
                fits ==> (commit is Some <==> d0.commit is Some) && (commit is Some ==> commit->0@ == d0.commit->0@),
                forall|i: int| 0 <= i < deltas@.len() ==> (#[trigger] deltas@[i]).aligned(),
                forall|i: int| 0 <= i < deltas@.len() - 1 ==> (#[trigger] deltas@[i]).closed_at_end(),
                deltas@.len() == 0 || deltas@.last().closed_at_end() || pos == t@.len(),
            decreases t@.len() - pos,
        {
            let ghost k = deltas@.len() as int;
            proof {
                if fits {
                    if k == d0.deltas@.len() {
                        assert(d0.deltas@.subrange(0, k) =~= d0.deltas@);
                    }
                    lemma_delta_in_diff(t@, body as int, d0, k);
                }
            }
            if !is_diff_line_at(&t, pos) {
                return Err(ParseError::Syntax);
            }
            let (d, e) = read_delta(&t, pos, Ghost(if fits { Some(d0.deltas@[k]) } else { None }))?;
            let ghost before = deltas@;
            deltas.push(d);
            proof {
                assert(deltas@.drop_last() =~= before);
                assert forall|j: int| 0 <= j < deltas@.len() - 1 implies (#[trigger] deltas@[j]).closed_at_end() by {
                    assert(deltas@[j] == before[j]);
                    if j == before.len() - 1 {
                        assert(before.last() == before[j]);
                    }
                }
                assert forall|j: int| 0 <= j < deltas@.len() implies (#[trigger] deltas@[j]).aligned() by {
                    if j < before.len() {
                        assert(deltas@[j] == before[j]);
                    }
                }
                lemma_subrange_concat(t@, body as int, pos as int, e as int);
            }
            pos = e;
        }
        let d = Diff { commit, deltas };
        proof {
            if fits {
                let k = d.deltas@.len() as int;
                if k < d0.deltas@.len() {
                    lemma_delta_in_diff(t@, body as int, d0, k);
                    lemma_delta_opens(d0.deltas@[k]);
                }
                assert(d.same_as(&d0));
            }
            assert forall|i: int| 0 <= i < d.deltas@.len() implies (#[trigger] d.deltas@[i]).aligned() && (i < d.deltas@.len() - 1
                ==> d.deltas@[i].closed_at_end()) by {}
            assert(t@.subrange(0, body as int) =~= d.commit_text());
            lemma_subrange_concat(t@, 0, body as int, pos as int);
            assert(t@.subrange(0, pos as int) =~= t@);
        }
        Ok(d)
    }
}



} // verus!

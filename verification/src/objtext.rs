use vstd::prelude::*;

verus! {

/// What reading a line, or a whole text, of an .obj file comes to: read on,
/// a refusal (the reader returns an error), or a panic of the reader.
#[derive(PartialEq, Eq, Structural, Clone, Copy, Debug)]
pub enum LineOutcome {
    Fine,
    Fails,
    Panics,
}

/// White space as `str::split_whitespace` knows it (the Unicode property
/// White_Space).
pub open spec fn is_space(c: char) -> bool {
    let u = c as u32;
    ||| 0x09 <= u <= 0x0d
    ||| u == 0x20 || u == 0x85 || u == 0xa0 || u == 0x1680
    ||| 0x2000 <= u <= 0x200a
    ||| u == 0x2028 || u == 0x2029 || u == 0x202f || u == 0x205f || u == 0x3000
}

/// The pieces of `s` between the occurrences of `sep`, as start and end
/// positions, left to right; there is one piece more than there are `sep`.
pub open spec fn piece_ranges(s: Seq<char>, sep: char) -> Seq<(int, int)>
    decreases s.len(),
{
    if s.len() == 0 {
        seq![(0int, 0int)]
    } else {
        let p = piece_ranges(s.drop_last(), sep);
        let n = s.len() as int;
        if s.last() == sep {
            p.push((n, n))
        } else {
            p.update(p.len() - 1, (p.last().0, n))
        }
    }
}

/// The words of `s`, the maximal runs of characters that are not white
/// space, as start and end positions, left to right.
pub open spec fn word_ranges(s: Seq<char>) -> Seq<(int, int)>
    decreases s.len(),
{
    if s.len() == 0 {
        Seq::empty()
    } else {
        let w = word_ranges(s.drop_last());
        let n = s.len() as int;
        if is_space(s.last()) {
            w
        } else if n >= 2 && !is_space(s[n - 2]) {
            w.update(w.len() - 1, (w.last().0, n))
        } else {
            w.push((n - 1, n))
        }
    }
}

/// The part of `s` that the range `r` marks.
pub open spec fn part(s: Seq<char>, r: (int, int)) -> Seq<char> {
    s.subrange(r.0, r.1)
}

/// The first outcome in `outs` other than `Fine`, or `Fine`.
pub open spec fn first_stop(outs: Seq<LineOutcome>) -> LineOutcome
    decreases outs.len(),
{
    if outs.len() == 0 {
        LineOutcome::Fine
    } else {
        let f = first_stop(outs.drop_last());
        if f != LineOutcome::Fine {
            f
        } else {
            outs.last()
        }
    }
}

pub open spec fn is_digit(c: char) -> bool {
    0x30 <= (c as u32) <= 0x39
}

/// `w` without a leading sign.
pub open spec fn unsigned(w: Seq<char>) -> Seq<char> {
    if w.len() > 0 && (w[0] == '+' || w[0] == '-') {
        w.skip(1)
    } else {
        w
    }
}

pub open spec fn ascii_lower(c: char) -> int {
    let u = c as u32;
    if 0x41 <= u <= 0x5a {
        u + 32
    } else {
        u as int
    }
}

/// `w` is `lit` (lower case ASCII) but for the case of its letters.
pub open spec fn lower_eq(w: Seq<char>, lit: Seq<char>) -> bool {
    w.len() == lit.len() && forall|i: int| 0 <= i < w.len() ==> ascii_lower(#[trigger] w[i]) == lit[i] as u32
}

/// Digits with at most one decimal point, and at least one digit.
pub open spec fn mantissa_text(m: Seq<char>) -> bool {
    &&& forall|i: int| 0 <= i < m.len() ==> is_digit(#[trigger] m[i]) || m[i] == '.'
    &&& forall|i: int, j: int| 0 <= i < m.len() && 0 <= j < m.len() && #[trigger] m[i] == '.' && #[trigger] m[j] == '.' ==> i == j
    &&& exists|i: int| 0 <= i < m.len() && is_digit(#[trigger] m[i])
}

/// An optional sign and at least one digit, nothing else.
pub open spec fn int_text(w: Seq<char>) -> bool {
    let d = unsigned(w);
    d.len() > 0 && forall|i: int| 0 <= i < d.len() ==> is_digit(#[trigger] d[i])
}

pub open spec fn is_exp(c: char) -> bool {
    c == 'e' || c == 'E'
}

/// The text that `f32::from_str` accepts, as its documentation gives it: a
/// sign, then `inf`, `infinity` or `nan` in any case, or digits with at most
/// one decimal point and at least one digit, optionally followed by `e` or
/// `E` and a signed whole number.
pub open spec fn float_text(w: Seq<char>) -> bool {
    let b = unsigned(w);
    ||| lower_eq(b, seq!['i', 'n', 'f'])
    ||| lower_eq(b, seq!['i', 'n', 'f', 'i', 'n', 'i', 't', 'y'])
    ||| lower_eq(b, seq!['n', 'a', 'n'])
    ||| mantissa_text(b)
    ||| exists|k: int| 0 <= k < b.len() && is_exp(#[trigger] b[k]) && mantissa_text(b.take(k)) && int_text(b.skip(k + 1))
}

/// The number that the decimal digits `d` write.
pub open spec fn digits_value(d: Seq<char>) -> nat
    decreases d.len(),
{
    if d.len() == 0 {
        0
    } else {
        digits_value(d.drop_last()) * 10 + ((d.last() as u32) - 0x30) as nat
    }
}

/// The text that `isize::from_str` accepts: an optional sign and digits
/// whose value fits an `isize`.
pub open spec fn isize_text(w: Seq<char>) -> bool {
    &&& int_text(w)
    &&& if w[0] == '-' {
        digits_value(unsigned(w)) <= isize::MAX + 1
    } else {
        digits_value(unsigned(w)) <= isize::MAX
    }
}

/// Text that parses as the number 0.
pub open spec fn zero_text(w: Seq<char>) -> bool {
    int_text(w) && forall|i: int| 0 <= i < unsigned(w).len() ==> #[trigger] unsigned(w)[i] == '0'
}

/// What the reader makes of one vertex reference `p/t/n` of a face: without
/// a position index that parses it refuses the file; it panics on an index 0
/// (it subtracts one from a positive index).
pub open spec fn ref_outcome(g: Seq<char>) -> LineOutcome {
    let segs = piece_ranges(g, '/');
    if !isize_text(part(g, segs[0])) {
        LineOutcome::Fails
    } else if zero_text(part(g, segs[0])) || (segs.len() > 1 && zero_text(part(g, segs[1]))) || (segs.len() > 2
        && zero_text(part(g, segs[2]))) {
        LineOutcome::Panics
    } else {
        LineOutcome::Fine
    }
}

/// What `obj::Obj::load_buf` makes of one line, by its first word: `v` and
/// `vn` need three numbers and `vt` two, or it panics; `f` refuses or panics
/// as its first vertex reference that is not fine; `o` and `g` take the name
/// by cutting the line at byte 1 or 2, and panic where that is inside a
/// character; `mtllib` needs a name; `usemtl`, `s` and comments starting with
/// `#` are fine, and any other word panics.
pub open spec fn line_outcome(line: Seq<char>) -> LineOutcome {
    let ws = word_ranges(line);
    let w0 = part(line, ws[0]);
    if ws.len() == 0 {
        LineOutcome::Fine
    } else if w0 == seq!['v'] || w0 == seq!['v', 'n'] {
        if ws.len() >= 4 && float_text(part(line, ws[1])) && float_text(part(line, ws[2])) && float_text(
            part(line, ws[3]),
        ) {
            LineOutcome::Fine
        } else {
            LineOutcome::Panics
        }
    } else if w0 == seq!['v', 't'] {
        if ws.len() >= 3 && float_text(part(line, ws[1])) && float_text(part(line, ws[2])) {
            LineOutcome::Fine
        } else {
            LineOutcome::Panics
        }
    } else if w0 == seq!['f'] {
        first_stop(Seq::new((ws.len() - 1) as nat, |k: int| ref_outcome(part(line, ws[k + 1]))))
    } else if w0 == seq!['o'] {
        if (line[0] as u32) < 0x80 {
            LineOutcome::Fine
        } else {
            LineOutcome::Panics
        }
    } else if w0 == seq!['g'] {
        let u0 = line[0] as u32;
        if (u0 < 0x80 && (line.len() < 2 || (line[1] as u32) < 0x80)) || (0x80 <= u0 < 0x800) {
            LineOutcome::Fine
        } else {
            LineOutcome::Panics
        }
    } else if w0 == seq!['m', 't', 'l', 'l', 'i', 'b'] {
        if ws.len() >= 2 {
            LineOutcome::Fine
        } else {
            LineOutcome::Panics
        }
    } else if w0 == seq!['u', 's', 'e', 'm', 't', 'l'] || w0 == seq!['s'] || w0[0] == '#' {
        LineOutcome::Fine
    } else {
        LineOutcome::Panics
    }
}

/// What `obj::Obj::load_buf` makes of the text: the outcome of its first line
/// that is not fine. (The lines are the pieces between line breaks; an empty
/// last piece, which the reader does not count as a line, is fine anyway.)
pub open spec fn obj_outcome(text: Seq<char>) -> LineOutcome {
    let ls = piece_ranges(text, '\n');
    first_stop(Seq::new(ls.len(), |k: int| line_outcome(part(text, ls[k]))))
}

/// `obj::Obj::load_buf` reads the text to its end without panicking.
pub open spec fn obj_text_loads(text: Seq<char>) -> bool {
    obj_outcome(text) != LineOutcome::Panics
}

} // verus!

verus! {

/// The characters of `text`.
fn text_chars(text: &str) -> (v: Vec<char>)
    ensures
        v@ == text@,
{
    broadcast use vstd::string::group_string_axioms;
    let mut v: Vec<char> = Vec::new();
    for c in it: text.chars()
        invariant
            v@ == it.seq().take(it.index() as int),
            it.seq() == text@,
    {
        v.push(c);
    }
    v
}

fn space(c: char) -> (b: bool)
    ensures
        b == is_space(c),
{
    let u = c as u32;
    (0x09 <= u && u <= 0x0d) || u == 0x20 || u == 0x85 || u == 0xa0 || u == 0x1680 || (0x2000 <= u && u <= 0x200a)
        || u == 0x2028 || u == 0x2029 || u == 0x202f || u == 0x205f || u == 0x3000
}

/// The pieces of `t[a .. b]` between the occurrences of `sep`, as positions
/// in `t`.
fn pieces_in(t: &Vec<char>, a: usize, b: usize, sep: char) -> (r: Vec<(usize, usize)>)
    requires
        a <= b <= t@.len(),
    ensures
        r@.len() > 0,
        r@.len() == piece_ranges(t@.subrange(a as int, b as int), sep).len(),
        forall|k: int|
            0 <= k < r@.len() ==> {
                &&& (#[trigger] r@[k]).0 == a + piece_ranges(t@.subrange(a as int, b as int), sep)[k].0
                &&& r@[k].1 == a + piece_ranges(t@.subrange(a as int, b as int), sep)[k].1
                &&& a <= r@[k].0 <= r@[k].1 <= b
            },
{
    let mut r: Vec<(usize, usize)> = Vec::new();
    r.push((a, a));
    let mut i = a;
    proof {
        assert(t@.subrange(a as int, a as int).len() == 0);
    }
    while i < b
        invariant
            a <= i <= b <= t@.len(),
            r@.len() > 0,
            r@[r@.len() - 1].1 == i,
            r@.len() == piece_ranges(t@.subrange(a as int, i as int), sep).len(),
            forall|k: int|
                0 <= k < r@.len() ==> {
                    &&& (#[trigger] r@[k]).0 == a + piece_ranges(t@.subrange(a as int, i as int), sep)[k].0
                    &&& r@[k].1 == a + piece_ranges(t@.subrange(a as int, i as int), sep)[k].1
                    &&& a <= r@[k].0 <= r@[k].1 <= i
                },
        decreases b - i,
    {
        let c = t[i];
        let ghost s = t@.subrange(a as int, i + 1);
        proof {
            assert(s.drop_last() =~= t@.subrange(a as int, i as int));
            assert(s.last() == c);
        }
        if c == sep {
            r.push((i + 1, i + 1));
        } else {
            let last = r.len() - 1;
            let st = r[last].0;
            r.set(last, (st, i + 1));
        }
        i = i + 1;
    }
    r
}

/// The words of `t[a .. b]`, as positions in `t`.
fn words_in(t: &Vec<char>, a: usize, b: usize) -> (r: Vec<(usize, usize)>)
    requires
        a <= b <= t@.len(),
    ensures
        r@.len() == word_ranges(t@.subrange(a as int, b as int)).len(),
        forall|k: int|
            0 <= k < r@.len() ==> {
                &&& (#[trigger] r@[k]).0 == a + word_ranges(t@.subrange(a as int, b as int))[k].0
                &&& r@[k].1 == a + word_ranges(t@.subrange(a as int, b as int))[k].1
                &&& a <= r@[k].0 < r@[k].1 <= b
            },
{
    let mut r: Vec<(usize, usize)> = Vec::new();
    let mut i = a;
    let mut in_word = false;
    while i < b
        invariant
            a <= i <= b <= t@.len(),
            in_word == (i > a && !is_space(t@[i - 1])),
            in_word ==> r@.len() > 0 && r@[r@.len() - 1].1 == i,
            r@.len() == word_ranges(t@.subrange(a as int, i as int)).len(),
            forall|k: int|
                0 <= k < r@.len() ==> {
                    &&& (#[trigger] r@[k]).0 == a + word_ranges(t@.subrange(a as int, i as int))[k].0
                    &&& r@[k].1 == a + word_ranges(t@.subrange(a as int, i as int))[k].1
                    &&& a <= r@[k].0 < r@[k].1 <= i
                },
        decreases b - i,
    {
        let c = t[i];
        let ghost s = t@.subrange(a as int, i + 1);
        proof {
            assert(s.drop_last() =~= t@.subrange(a as int, i as int));
            assert(s.last() == c);
            if i > a {
                assert(s[s.len() - 2] == t@[i - 1]);
            }
        }
        if space(c) {
            in_word = false;
        } else if in_word {
            let last = r.len() - 1;
            let st = r[last].0;
            r.set(last, (st, i + 1));
        } else {
            r.push((i, i + 1));
            in_word = true;
        }
        i = i + 1;
    }
    r
}

/// Where the unsigned part of `t[a .. b]` starts.
fn sign_end(t: &Vec<char>, a: usize, b: usize) -> (s: usize)
    requires
        a <= b <= t@.len(),
    ensures
        a <= s <= b,
        t@.subrange(s as int, b as int) == unsigned(t@.subrange(a as int, b as int)),
{
    if a < b && (t[a] == '+' || t[a] == '-') {
        proof {
            assert(t@.subrange(a as int, b as int).skip(1) =~= t@.subrange(a + 1, b as int));
        }
        a + 1
    } else {
        a
    }
}

/// Whether `t[a .. b]` is `lit` but for the case of its letters.
fn lower_matches(t: &Vec<char>, a: usize, b: usize, lit: Vec<char>) -> (r: bool)
    requires
        a <= b <= t@.len(),
    ensures
        r == lower_eq(t@.subrange(a as int, b as int), lit@),
{
    let ghost w = t@.subrange(a as int, b as int);
    if b - a != lit.len() {
        return false;
    }
    let mut j: usize = 0;
    while j < lit.len()
        invariant
            a <= b <= t@.len(),
            b - a == lit@.len(),
            w == t@.subrange(a as int, b as int),
            j <= lit@.len(),
            forall|i: int| 0 <= i < j ==> ascii_lower(#[trigger] w[i]) == lit@[i] as u32,
        decreases lit@.len() - j,
    {
        let u = t[a + j] as u32;
        let low = if 0x41 <= u && u <= 0x5a { u + 32 } else { u };
        assert(w[j as int] == t@[a + j]);
        if low != lit[j] as u32 {
            assert(ascii_lower(w[j as int]) != lit@[j as int] as u32);
            return false;
        }
        j = j + 1;
    }
    true
}

/// Whether `t[a .. b]` holds digits with at most one decimal point and at
/// least one digit.
fn mantissa_ok(t: &Vec<char>, a: usize, b: usize) -> (r: bool)
    requires
        a <= b <= t@.len(),
    ensures
        r == mantissa_text(t@.subrange(a as int, b as int)),
{
    let ghost m = t@.subrange(a as int, b as int);
    let mut i = a;
    let mut dots: usize = 0;
    let mut dpos: usize = 0;
    let mut has_digit = false;
    while i < b
        invariant
            a <= i <= b <= t@.len(),
            m == t@.subrange(a as int, b as int),
            forall|j: int| 0 <= j < i - a ==> is_digit(#[trigger] m[j]) || m[j] == '.',
            dots <= 1,
            dots == 0 ==> forall|j: int| 0 <= j < i - a ==> #[trigger] m[j] != '.',
            dots == 1 ==> a <= dpos < i && m[dpos - a] == '.' && forall|j: int| 0 <= j < i - a && j != dpos - a ==> #[trigger] m[j] != '.',
            has_digit <==> exists|j: int| 0 <= j < i - a && is_digit(#[trigger] m[j]),
        decreases b - i,
    {
        let c = t[i];
        let u = c as u32;
        assert(m[i - a] == c);
        if 0x30 <= u && u <= 0x39 {
            has_digit = true;
        } else if c == '.' {
            if dots == 1 {
                assert(m[dpos - a] == '.' && m[i - a] == '.');
                return false;
            }
            dots = 1;
            dpos = i;
        } else {
            assert(!(is_digit(m[i - a]) || m[i - a] == '.'));
            return false;
        }
        i = i + 1;
    }
    has_digit
}

/// Whether `t[a .. b]` holds only digits, at least one.
fn digits_ok(t: &Vec<char>, a: usize, b: usize) -> (r: bool)
    requires
        a <= b <= t@.len(),
    ensures
        r == (a < b && forall|i: int| a <= i < b ==> is_digit(#[trigger] t@[i])),
{
    if a == b {
        return false;
    }
    let mut i = a;
    while i < b
        invariant
            a <= i <= b <= t@.len(),
            forall|j: int| a <= j < i ==> is_digit(#[trigger] t@[j]),
        decreases b - i,
    {
        let u = t[i] as u32;
        if !(0x30 <= u && u <= 0x39) {
            return false;
        }
        i = i + 1;
    }
    true
}

/// Whether `t[a .. b]` is an optional sign and at least one digit.
fn int_ok(t: &Vec<char>, a: usize, b: usize) -> (r: bool)
    requires
        a <= b <= t@.len(),
    ensures
        r == int_text(t@.subrange(a as int, b as int)),
{
    let s = sign_end(t, a, b);
    let r = digits_ok(t, s, b);
    proof {
        let d = t@.subrange(s as int, b as int);
        if r {
            assert forall|i: int| 0 <= i < d.len() implies is_digit(#[trigger] d[i]) by {
                assert(d[i] == t@[s + i]);
            }
        } else if s < b {
            let i = choose|i: int| s <= i < b && !is_digit(#[trigger] t@[i]);
            assert(d[i - s] == t@[i]);
        }
    }
    r
}

/// Whether the value of the digits `t[a .. b]` is at most `bound`.
fn digits_fit(t: &Vec<char>, a: usize, b: usize, bound: usize) -> (r: bool)
    requires
        a <= b <= t@.len(),
        forall|i: int| a <= i < b ==> is_digit(#[trigger] t@[i]),
    ensures
        r == (digits_value(t@.subrange(a as int, b as int)) <= bound),
{
    let mut i = a;
    let mut acc: usize = 0;
    let mut over = false;
    proof {
        assert(t@.subrange(a as int, a as int).len() == 0);
    }
    while i < b
        invariant
            a <= i <= b <= t@.len(),
            forall|i: int| a <= i < b ==> is_digit(#[trigger] t@[i]),
            !over ==> acc == digits_value(t@.subrange(a as int, i as int)),
            over ==> digits_value(t@.subrange(a as int, i as int)) > usize::MAX,
        decreases b - i,
    {
        let ghost s = t@.subrange(a as int, i + 1);
        proof {
            assert(s.drop_last() =~= t@.subrange(a as int, i as int));
            assert(s.last() == t@[i as int]);
            assert(is_digit(t@[i as int]));
        }
        let d = (t[i] as u32 - 0x30) as usize;
        if !over {
            match acc.checked_mul(10) {
                Some(m) => match m.checked_add(d) {
                    Some(n) => {
                        acc = n;
                    },
                    None => {
                        over = true;
                    },
                },
                None => {
                    assert(digits_value(s) >= acc * 10) by (nonlinear_arith)
                        requires
                            digits_value(s) == acc * 10 + d,
                    ;
                    over = true;
                },
            }
        } else {
            assert(digits_value(s) >= digits_value(s.drop_last())) by (nonlinear_arith)
                requires
                    digits_value(s) == digits_value(s.drop_last()) * 10 + d,
            ;
        }
        i = i + 1;
    }
    !over && acc <= bound
}

/// Whether `t[a .. b]` parses as an `isize`.
fn isize_ok(t: &Vec<char>, a: usize, b: usize) -> (r: bool)
    requires
        a <= b <= t@.len(),
    ensures
        r == isize_text(t@.subrange(a as int, b as int)),
{
    if !int_ok(t, a, b) {
        return false;
    }
    let s = sign_end(t, a, b);
    let ghost d = t@.subrange(s as int, b as int);
    proof {
        assert forall|i: int| s <= i < b implies is_digit(#[trigger] t@[i]) by {
            assert(d[i - s] == t@[i]);
        }
        assert(t@.subrange(a as int, b as int)[0] == t@[a as int]);
    }
    let bound: usize = if t[a] == '-' { (isize::MAX as usize) + 1 } else { isize::MAX as usize };
    digits_fit(t, s, b, bound)
}

/// Whether `t[a .. b]` parses as the number 0.
fn zero_ok(t: &Vec<char>, a: usize, b: usize) -> (r: bool)
    requires
        a <= b <= t@.len(),
    ensures
        r == zero_text(t@.subrange(a as int, b as int)),
{
    if !int_ok(t, a, b) {
        return false;
    }
    let s = sign_end(t, a, b);
    let ghost d = t@.subrange(s as int, b as int);
    let mut i = s;
    while i < b
        invariant
            s <= i <= b <= t@.len(),
            d == t@.subrange(s as int, b as int),
            d == unsigned(t@.subrange(a as int, b as int)),
            forall|j: int| 0 <= j < i - s ==> #[trigger] d[j] == '0',
        decreases b - i,
    {
        assert(d[i - s] == t@[i as int]);
        if t[i] != '0' {
            assert(unsigned(t@.subrange(a as int, b as int))[i - s] != '0');
            return false;
        }
        i = i + 1;
    }
    true
}

/// Whether `t[a .. b]` parses as an `f32`.
fn float_ok(t: &Vec<char>, a: usize, b: usize) -> (r: bool)
    requires
        a <= b <= t@.len(),
    ensures
        r == float_text(t@.subrange(a as int, b as int)),
{
    let s = sign_end(t, a, b);
    let ghost u = t@.subrange(s as int, b as int);
    if lower_matches(t, s, b, vec!['i', 'n', 'f']) || lower_matches(t, s, b, vec!['i', 'n', 'f', 'i', 'n', 'i', 't', 'y'])
        || lower_matches(t, s, b, vec!['n', 'a', 'n']) {
        return true;
    }
    let mut k = s;
    while k < b && !(t[k] == 'e' || t[k] == 'E')
        invariant
            s <= k <= b <= t@.len(),
            u == t@.subrange(s as int, b as int),
            forall|j: int| 0 <= j < k - s ==> !is_exp(#[trigger] u[j]),
        decreases b - k,
    {
        assert(u[k - s] == t@[k as int]);
        k = k + 1;
    }
    if k == b {
        let r = mantissa_ok(t, s, b);
        proof {
            assert(!exists|j: int| 0 <= j < u.len() && is_exp(#[trigger] u[j]) && mantissa_text(u.take(j)) && int_text(u.skip(j + 1)));
        }
        r
    } else {
        assert(u[k - s] == t@[k as int]);
        let m = mantissa_ok(t, s, k);
        let x = int_ok(t, k + 1, b);
        proof {
            let j0 = k - s;
            assert(u.take(j0) =~= t@.subrange(s as int, k as int));
            assert(u.skip(j0 + 1) =~= t@.subrange(k + 1, b as int));
            assert(!mantissa_text(u)) by {
                assert(!(is_digit(u[j0]) || u[j0] == '.'));
            }
            assert forall|j: int| 0 <= j < u.len() && is_exp(#[trigger] u[j]) && mantissa_text(u.take(j)) implies j == j0 by {
                if j > j0 {
                    assert(u.take(j)[j0] == u[j0]);
                    assert(!(is_digit(u.take(j)[j0]) || u.take(j)[j0] == '.'));
                }
            }
        }
        m && x
    }
}

proof fn lemma_part(t: Seq<char>, a: int, b: int, x: int, y: int)
    requires
        0 <= a <= b <= t.len(),
        0 <= x <= y <= b - a,
    ensures
        part(t.subrange(a, b), (x, y)) == t.subrange(a + x, a + y),
{
    assert(t.subrange(a, b).subrange(x, y) =~= t.subrange(a + x, a + y));
}

/// Whether `t[a .. b]` is `lit`.
fn word_is(t: &Vec<char>, a: usize, b: usize, lit: &Vec<char>) -> (r: bool)
    requires
        a <= b <= t@.len(),
    ensures
        r == (t@.subrange(a as int, b as int) == lit@),
{
    let ghost w = t@.subrange(a as int, b as int);
    if b - a != lit.len() {
        return false;
    }
    let mut j: usize = 0;
    while j < lit.len()
        invariant
            a <= b <= t@.len(),
            b - a == lit@.len(),
            w == t@.subrange(a as int, b as int),
            j <= lit@.len(),
            forall|i: int| 0 <= i < j ==> #[trigger] w[i] == lit@[i],
        decreases lit@.len() - j,
    {
        assert(w[j as int] == t@[a + j]);
        if t[a + j] != lit[j] {
            return false;
        }
        j = j + 1;
    }
    assert(w =~= lit@);
    true
}

/// What the reader makes of the vertex reference `t[a .. b]` of a face.
fn ref_outcome_of(t: &Vec<char>, a: usize, b: usize) -> (r: LineOutcome)
    requires
        a <= b <= t@.len(),
    ensures
        r == ref_outcome(t@.subrange(a as int, b as int)),
{
    let segs = pieces_in(t, a, b, '/');
    let ghost g = t@.subrange(a as int, b as int);
    let ghost ps = piece_ranges(g, '/');
    proof {
        assert forall|k: int| 0 <= k < ps.len() implies part(g, #[trigger] ps[k]) == t@.subrange(segs@[k].0 as int, segs@[k].1 as int) by {
            assert(segs@[k].0 == a + ps[k].0);
            lemma_part(t@, a as int, b as int, ps[k].0, ps[k].1);
        }
    }
    let (s0, e0) = segs[0];
    if !isize_ok(t, s0, e0) {
        return LineOutcome::Fails;
    }
    let z0 = zero_ok(t, s0, e0);
    let z1 = if segs.len() > 1 { zero_ok(t, segs[1].0, segs[1].1) } else { false };
    let z2 = if segs.len() > 2 { zero_ok(t, segs[2].0, segs[2].1) } else { false };
    if z0 || z1 || z2 {
        LineOutcome::Panics
    } else {
        LineOutcome::Fine
    }
}

/// What `obj::Obj::load_buf` makes of the line `t[a .. b]`.
fn line_outcome_of(t: &Vec<char>, a: usize, b: usize) -> (r: LineOutcome)
    requires
        a <= b <= t@.len(),
    ensures
        r == line_outcome(t@.subrange(a as int, b as int)),
{
    let ws = words_in(t, a, b);
    let ghost line = t@.subrange(a as int, b as int);
    let ghost wr = word_ranges(line);
    proof {
        assert forall|k: int| 0 <= k < wr.len() implies part(line, #[trigger] wr[k]) == t@.subrange(ws@[k].0 as int, ws@[k].1 as int) by {
            assert(ws@[k].0 == a + wr[k].0);
            lemma_part(t@, a as int, b as int, wr[k].0, wr[k].1);
        }
    }
    if ws.len() == 0 {
        return LineOutcome::Fine;
    }
    let (s0, e0) = ws[0];
    proof {
        assert(part(line, wr[0]) == t@.subrange(s0 as int, e0 as int));
        assert(line[0] == t@[a as int]);
    }
    let lit_v = vec!['v'];
    let lit_vn = vec!['v', 'n'];
    let lit_vt = vec!['v', 't'];
    let lit_f = vec!['f'];
    let lit_o = vec!['o'];
    let lit_g = vec!['g'];
    let lit_mtllib = vec!['m', 't', 'l', 'l', 'i', 'b'];
    let lit_usemtl = vec!['u', 's', 'e', 'm', 't', 'l'];
    let lit_s = vec!['s'];
    let ghost w0 = part(line, wr[0]);
    let is_v = word_is(t, s0, e0, &lit_v);
    let is_vn = word_is(t, s0, e0, &lit_vn);
    let is_vt = word_is(t, s0, e0, &lit_vt);
    let is_f = word_is(t, s0, e0, &lit_f);
    let is_o = word_is(t, s0, e0, &lit_o);
    let is_g = word_is(t, s0, e0, &lit_g);
    let is_mtllib = word_is(t, s0, e0, &lit_mtllib);
    let is_usemtl = word_is(t, s0, e0, &lit_usemtl);
    let is_s = word_is(t, s0, e0, &lit_s);
    proof {
        assert(lit_v@ =~= seq!['v']);
        assert(lit_f@ =~= seq!['f']);
        assert(lit_o@ =~= seq!['o']);
        assert(lit_g@ =~= seq!['g']);
        assert(lit_s@ =~= seq!['s']);
        assert(is_v == (w0 == seq!['v']));
        assert(is_vn == (w0 == seq!['v', 'n']));
        assert(is_vt == (w0 == seq!['v', 't']));
        assert(is_f == (w0 == seq!['f']));
        assert(is_o == (w0 == seq!['o']));
        assert(is_g == (w0 == seq!['g']));
        assert(is_mtllib == (w0 == seq!['m', 't', 'l', 'l', 'i', 'b']));
        assert(is_usemtl == (w0 == seq!['u', 's', 'e', 'm', 't', 'l']));
        assert(is_s == (w0 == seq!['s']));
        assert(w0[0] == t@[s0 as int]);
    }
    if is_v || is_vn {
        if ws.len() >= 4 && float_ok(t, ws[1].0, ws[1].1) && float_ok(t, ws[2].0, ws[2].1) && float_ok(t, ws[3].0, ws[3].1) {
            proof {
                assert(part(line, wr[1]) == t@.subrange(ws@[1].0 as int, ws@[1].1 as int));
                assert(part(line, wr[2]) == t@.subrange(ws@[2].0 as int, ws@[2].1 as int));
                assert(part(line, wr[3]) == t@.subrange(ws@[3].0 as int, ws@[3].1 as int));
            }
            LineOutcome::Fine
        } else {
            proof {
                if ws.len() >= 4 {
                    assert(part(line, wr[1]) == t@.subrange(ws@[1].0 as int, ws@[1].1 as int));
                    assert(part(line, wr[2]) == t@.subrange(ws@[2].0 as int, ws@[2].1 as int));
                    assert(part(line, wr[3]) == t@.subrange(ws@[3].0 as int, ws@[3].1 as int));
                }
            }
            LineOutcome::Panics
        }
    } else if is_vt {
        proof {
            if ws.len() >= 3 {
                assert(part(line, wr[1]) == t@.subrange(ws@[1].0 as int, ws@[1].1 as int));
                assert(part(line, wr[2]) == t@.subrange(ws@[2].0 as int, ws@[2].1 as int));
            }
        }
        if ws.len() >= 3 && float_ok(t, ws[1].0, ws[1].1) && float_ok(t, ws[2].0, ws[2].1) {
            LineOutcome::Fine
        } else {
            LineOutcome::Panics
        }
    } else if is_f {
        let ghost outs = Seq::new((wr.len() - 1) as nat, |j: int| ref_outcome(part(line, wr[j + 1])));
        let mut acc = LineOutcome::Fine;
        let mut k: usize = 1;
        proof {
            assert(outs.take(0) =~= Seq::<LineOutcome>::empty());
        }
        while k < ws.len()
            invariant
                a <= b <= t@.len(),
                1 <= k <= ws@.len(),
                ws@.len() == wr.len(),
                outs == Seq::new((wr.len() - 1) as nat, |j: int| ref_outcome(part(line, wr[j + 1]))),
                forall|j: int| 0 <= j < wr.len() ==> part(line, #[trigger] wr[j]) == t@.subrange(ws@[j].0 as int, ws@[j].1 as int),
                forall|j: int| 0 <= j < ws@.len() ==> (#[trigger] ws@[j]).0 <= ws@[j].1 <= b,
                acc == first_stop(outs.take(k - 1)),
            decreases ws@.len() - k,
        {
            let o = ref_outcome_of(t, ws[k].0, ws[k].1);
            proof {
                assert(outs.take(k as int).drop_last() =~= outs.take(k - 1));
                assert(outs.take(k as int).last() == outs[k - 1]);
                assert(outs[k - 1] == ref_outcome(part(line, wr[k as int])));
                assert(part(line, wr[k as int]) == t@.subrange(ws@[k as int].0 as int, ws@[k as int].1 as int));
            }
            if acc == LineOutcome::Fine {
                acc = o;
            }
            k = k + 1;
        }
        proof {
            assert(outs.take(ws@.len() - 1) =~= outs);
        }
        acc
    } else if is_o {
        if (t[a] as u32) < 0x80 {
            proof {
                assert((line[0] as u32) < 0x80);
                assert(part(line, wr[0]) == seq!['o']);
            }
            LineOutcome::Fine
        } else {
            LineOutcome::Panics
        }
    } else if is_g {
        let u0 = t[a] as u32;
        proof {
            if b - a >= 2 {
                assert(line[1] == t@[a + 1]);
            }
        }
        if (u0 < 0x80 && (b - a < 2 || (t[a + 1] as u32) < 0x80)) || (0x80 <= u0 && u0 < 0x800) {
            proof {
                assert(u0 == line[0] as u32);
                assert(b - a >= 2 ==> (t@[a + 1] as u32) == (line[1] as u32));
                assert(part(line, wr[0]) == seq!['g']);
            }
            LineOutcome::Fine
        } else {
            LineOutcome::Panics
        }
    } else if is_mtllib {
        if ws.len() >= 2 {
                LineOutcome::Fine
        } else {
            LineOutcome::Panics
        }
    } else if is_usemtl || is_s || t[s0] == '#' {
        LineOutcome::Fine
    } else {
        LineOutcome::Panics
    }
}

proof fn lemma_pieces_len(s: Seq<char>, sep: char)
    ensures
        piece_ranges(s, sep).len() >= 1,
        (forall|i: int| 0 <= i < s.len() ==> s[i] != sep) ==> piece_ranges(s, sep).len() == 1,
        (exists|i: int| 0 <= i < s.len() && s[i] == sep) ==> piece_ranges(s, sep).len() >= 2,
    decreases s.len(),
{
    if s.len() > 0 {
        let d = s.drop_last();
        lemma_pieces_len(d, sep);
        if forall|i: int| 0 <= i < s.len() ==> s[i] != sep {
            assert forall|i: int| 0 <= i < d.len() implies d[i] != sep by {
                assert(d[i] == s[i]);
            }
            assert(s[s.len() - 1] != sep);
        }
        if exists|i: int| 0 <= i < s.len() && s[i] == sep {
            let i = choose|i: int| 0 <= i < s.len() && s[i] == sep;
            if i < s.len() - 1 {
                assert(d[i] == sep);
            }
        }
    }
}

/// The first piece of `s` cut at `sep` runs from the start to the first
/// `sep`, or to the end.
proof fn lemma_first_piece(s: Seq<char>, sep: char, k: int)
    requires
        0 <= k <= s.len(),
        forall|i: int| 0 <= i < k ==> s[i] != sep,
        k < s.len() ==> s[k] == sep,
    ensures
        piece_ranges(s, sep).len() >= 1,
        piece_ranges(s, sep)[0] == (0int, k),
    decreases s.len(),
{
    lemma_pieces_len(s, sep);
    if s.len() > 0 {
        let d = s.drop_last();
        let n = s.len() as int;
        lemma_pieces_len(d, sep);
        if k == n {
            assert forall|i: int| 0 <= i < d.len() implies d[i] != sep by {
                assert(d[i] == s[i]);
            }
            lemma_first_piece(d, sep, n - 1);
        } else if k == n - 1 {
            assert forall|i: int| 0 <= i < d.len() implies d[i] != sep by {
                assert(d[i] == s[i]);
            }
            lemma_first_piece(d, sep, n - 1);
            assert(s.last() == sep);
        } else {
            assert forall|i: int| 0 <= i < k implies d[i] != sep by {
                assert(d[i] == s[i]);
            }
            assert(d[k] == sep);
            lemma_first_piece(d, sep, k);
        }
    }
}

/// The position index of a vertex reference parses as an `isize`: an
/// optional `+` or `-` and at least one decimal digit, whose value, negated
/// after a `-`, lies in the range of an `isize`.
pub open spec fn signed_index_text(s: Seq<char>) -> bool {
    let neg = s.len() > 0 && s[0] == '-';
    let d = unsigned(s);
    &&& d.len() > 0
    &&& forall|i: int| 0 <= i < d.len() ==> 0x30 <= (#[trigger] d[i] as u32) <= 0x39
    &&& isize::MIN <= (if neg {
        -digits_value(d)
    } else {
        digits_value(d) as int
    }) <= isize::MAX
}

/// The reader refuses a face's vertex reference `g` exactly when its
/// position index, the part up to the first `/`, does not parse as an
/// `isize`; negative indices, counted from the end, are read like positive
/// ones.
pub proof fn vertex_reference_refused_iff_index_unparsable(g: Seq<char>, k: int)
    requires
        0 <= k <= g.len(),
        forall|i: int| 0 <= i < k ==> g[i] != '/',
        k < g.len() ==> g[k] == '/',
    ensures
        (ref_outcome(g) == LineOutcome::Fails) <==> !signed_index_text(g.take(k)),
{
    lemma_first_piece(g, '/', k);
    let w = g.take(k);
    assert(part(g, piece_ranges(g, '/')[0]) =~= w);
    assert(isize::MIN == -isize::MAX - 1);
    let d = unsigned(w);
    assert((forall|i: int| 0 <= i < d.len() ==> is_digit(#[trigger] d[i])) <==> (forall|i: int|
        0 <= i < d.len() ==> 0x30 <= (#[trigger] d[i] as u32) <= 0x39)) by {
        if forall|i: int| 0 <= i < d.len() ==> is_digit(#[trigger] d[i]) {
            assert forall|i: int| 0 <= i < d.len() implies 0x30 <= (#[trigger] d[i] as u32) <= 0x39 by {
                assert(is_digit(d[i]));
            }
        }
        if forall|i: int| 0 <= i < d.len() ==> 0x30 <= (#[trigger] d[i] as u32) <= 0x39 {
            assert forall|i: int| 0 <= i < d.len() implies is_digit(#[trigger] d[i]) by {
                assert(0x30 <= (d[i] as u32) <= 0x39);
            }
        }
    }
    let dv = digits_value(d);
    assert(int_text(w) <==> (d.len() > 0 && forall|i: int| 0 <= i < d.len() ==> is_digit(#[trigger] d[i])));
    assert(isize::MAX >= 0);
    if w.len() > 0 && w[0] == '-' {
        assert((isize::MIN <= -dv <= isize::MAX) <==> dv <= isize::MAX + 1);
        assert(signed_index_text(w) <==> (d.len() > 0 && (forall|i: int| 0 <= i < d.len() ==> 0x30 <= (#[trigger] d[i] as u32) <= 0x39)
            && isize::MIN <= -dv <= isize::MAX));
        assert(isize_text(w) <==> (int_text(w) && dv <= isize::MAX + 1));
        assert(isize_text(w) == signed_index_text(w));
    } else {
        assert((isize::MIN <= dv <= isize::MAX) <==> dv <= isize::MAX);
        assert(signed_index_text(w) <==> (d.len() > 0 && (forall|i: int| 0 <= i < d.len() ==> 0x30 <= (#[trigger] d[i] as u32) <= 0x39)
            && isize::MIN <= dv <= isize::MAX));
        assert(isize_text(w) <==> (int_text(w) && dv <= isize::MAX));
        assert(isize_text(w) == signed_index_text(w));
    }
    assert((ref_outcome(g) == LineOutcome::Fails) <==> !isize_text(w));
}

/// What `obj::Obj::load_buf` makes of `text`: read to the end (`Fine`),
/// refused (`Fails`), or a panic (`Panics`).
pub fn obj_text_outcome(text: &str) -> (r: LineOutcome)
    ensures
        r == obj_outcome(text@),
{
    let t = text_chars(text);
    let n = t.len();
    let ls = pieces_in(&t, 0, n, '\n');
    let ghost lr = piece_ranges(text@, '\n');
    proof {
        assert(t@.subrange(0, n as int) =~= t@);
        assert forall|k: int| 0 <= k < lr.len() implies part(text@, #[trigger] lr[k]) == t@.subrange(ls@[k].0 as int, ls@[k].1 as int) by {
            assert(ls@[k].0 == lr[k].0);
            lemma_part(t@, 0, n as int, lr[k].0, lr[k].1);
        }
    }
    let ghost outs = Seq::new(lr.len(), |j: int| line_outcome(part(text@, lr[j])));
    let mut acc = LineOutcome::Fine;
    let mut k: usize = 0;
    proof {
        assert(outs.take(0) =~= Seq::<LineOutcome>::empty());
    }
    while k < ls.len()
        invariant
            n == t@.len(),
            k <= ls@.len(),
            ls@.len() == lr.len(),
            outs == Seq::new(lr.len(), |j: int| line_outcome(part(text@, lr[j]))),
            forall|j: int| 0 <= j < lr.len() ==> part(text@, #[trigger] lr[j]) == t@.subrange(ls@[j].0 as int, ls@[j].1 as int),
            forall|j: int| 0 <= j < ls@.len() ==> (#[trigger] ls@[j]).0 <= ls@[j].1 <= n,
            acc == first_stop(outs.take(k as int)),
        decreases ls@.len() - k,
    {
        let o = line_outcome_of(&t, ls[k].0, ls[k].1);
        proof {
            assert(outs.take(k + 1).drop_last() =~= outs.take(k as int));
            assert(outs.take(k + 1).last() == outs[k as int]);
            assert(part(text@, lr[k as int]) == t@.subrange(ls@[k as int].0 as int, ls@[k as int].1 as int));
        }
        if acc == LineOutcome::Fine {
            acc = o;
        }
        k = k + 1;
    }
    proof {
        assert(outs.take(ls@.len() as int) =~= outs);
    }
    acc
}

} // verus!

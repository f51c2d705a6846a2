//! Character-level helpers shared by the record parsers: trimming, splitting
//! on a delimiter, reading decimal integers and writing them back.

use vstd::prelude::*;
use vstd::string::*;

verus! {

/// Characters with the Unicode `White_Space` property, the ones `str::trim` removes.
pub open spec fn is_space(c: char) -> bool {
    let u = c as u32;
    (9 <= u && u <= 13) || u == 32 || u == 0x85 || u == 0xA0 || u == 0x1680 || (0x2000 <= u
        && u <= 0x200A) || u == 0x2028 || u == 0x2029 || u == 0x202F || u == 0x205F || u == 0x3000
}

pub open spec fn trim_start(s: Seq<char>) -> Seq<char>
    decreases s.len(),
{
    if s.len() > 0 && is_space(s[0]) {
        trim_start(s.drop_first())
    } else {
        s
    }
}

pub open spec fn trim_end(s: Seq<char>) -> Seq<char>
    decreases s.len(),
{
    if s.len() > 0 && is_space(s.last()) {
        trim_end(s.drop_last())
    } else {
        s
    }
}

/// The text without its leading and trailing white space.
pub open spec fn trim(s: Seq<char>) -> Seq<char> {
    trim_end(trim_start(s))
}

/// The pieces of `s` between occurrences of `d`; there is always at least one.
pub open spec fn fields(s: Seq<char>, d: char) -> Seq<Seq<char>>
    decreases s.len(),
{
    if s.len() == 0 {
        seq![Seq::empty()]
    } else {
        let prev = fields(s.drop_last(), d);
        if s.last() == d {
            prev.push(Seq::empty())
        } else {
            prev.update(prev.len() - 1, prev.last().push(s.last()))
        }
    }
}

pub open spec fn views(v: Seq<&str>) -> Seq<Seq<char>> {
    v.map_values(|p: &str| p@)
}

pub proof fn lemma_fields_nonempty(s: Seq<char>, d: char)
    ensures
        fields(s, d).len() >= 1,
    decreases s.len(),
{
    if s.len() > 0 {
        lemma_fields_nonempty(s.drop_last(), d);
    }
}

fn is_space_char(c: char) -> (r: bool)
    ensures
        r == is_space(c),
{
    let u = c as u32;
    (9 <= u && u <= 13) || u == 32 || u == 0x85 || u == 0xA0 || u == 0x1680 || (0x2000 <= u
        && u <= 0x200A) || u == 0x2028 || u == 0x2029 || u == 0x202F || u == 0x205F || u == 0x3000
}

/// Removes the white space around `s`.
pub fn trim_str(s: &str) -> (r: &str)
    ensures
        r@ == trim(s@),
{
    let n = s.unicode_len();
    let mut i: usize = 0;
    assert(s@.subrange(0, n as int) =~= s@);
    while i < n && is_space_char(s.get_char(i))
        invariant
            n == s@.len(),
            i <= n,
            trim_start(s@) == trim_start(s@.subrange(i as int, n as int)),
        decreases n - i,
    {
        assert(s@.subrange(i as int, n as int).drop_first() =~= s@.subrange(i + 1, n as int));
        i += 1;
    }
    assert(trim_start(s@.subrange(i as int, n as int)) == s@.subrange(i as int, n as int));
    let mut j: usize = n;
    while j > i && is_space_char(s.get_char(j - 1))
        invariant
            n == s@.len(),
            i <= j <= n,
            trim(s@) == trim_end(s@.subrange(i as int, j as int)),
        decreases j,
    {
        assert(s@.subrange(i as int, j as int).drop_last() =~= s@.subrange(i as int, j - 1));
        j -= 1;
    }
    s.substring_char(i, j)
}

/// Splits `s` at every occurrence of `d`.
pub fn split_on<'a>(s: &'a str, d: char) -> (r: Vec<&'a str>)
    ensures
        views(r@) == fields(s@, d),
{
    let n = s.unicode_len();
    let mut parts: Vec<&'a str> = Vec::new();
    let mut start: usize = 0;
    let mut i: usize = 0;
    assert(s@.take(0) =~= Seq::<char>::empty());
    assert(views(parts@).push(s@.subrange(0, 0)) =~= seq![Seq::<char>::empty()]);
    while i < n
        invariant
            n == s@.len(),
            start <= i <= n,
            fields(s@.take(i as int), d) == views(parts@).push(s@.subrange(start as int, i as int)),
        decreases n - i,
    {
        let c = s.get_char(i);
        assert(s@.take(i + 1).drop_last() =~= s@.take(i as int));
        assert(s@.take(i + 1).last() == c);
        if c == d {
            let piece = s.substring_char(start, i);
            let ghost before = parts@;
            parts.push(piece);
            assert(views(parts@) =~= views(before).push(piece@));
            start = i + 1;
            assert(s@.subrange(start as int, start as int) =~= Seq::<char>::empty());
        } else {
            assert(s@.subrange(start as int, i as int).push(c) =~= s@.subrange(
                start as int,
                i + 1,
            ));
            assert(fields(s@.take(i + 1), d) =~= views(parts@).push(
                s@.subrange(start as int, i + 1),
            ));
        }
        i += 1;
    }
    let last = s.substring_char(start, n);
    let ghost before = parts@;
    parts.push(last);
    assert(views(parts@) =~= views(before).push(last@));
    assert(s@.take(n as int) =~= s@);
    parts
}

pub open spec fn is_digit(c: char) -> bool {
    48 <= c as u32 && c as u32 <= 57
}

pub open spec fn all_digits(s: Seq<char>) -> bool {
    forall|i: int| 0 <= i < s.len() ==> is_digit(#[trigger] s[i])
}

/// The value of a string of decimal digits.
pub open spec fn digits_value(s: Seq<char>) -> int
    decreases s.len(),
{
    if s.len() == 0 {
        0
    } else {
        digits_value(s.drop_last()) * 10 + (s.last() as u32 - 48)
    }
}

/// One or more decimal digits.
pub open spec fn digit_text(s: Seq<char>) -> Option<int> {
    if s.len() > 0 && all_digits(s) {
        Some(digits_value(s))
    } else {
        None
    }
}

/// What `str::parse::<u32>` accepts: an optional `+`, then digits, with a value that fits.
pub open spec fn u32_of(s: Seq<char>) -> Option<u32> {
    let body = if s.len() > 0 && s[0] == '+' {
        s.drop_first()
    } else {
        s
    };
    match digit_text(body) {
        Some(v) => if v <= u32::MAX {
            Some(v as u32)
        } else {
            None
        },
        None => None,
    }
}

/// What `str::parse::<i32>` accepts: an optional `+` or `-`, then digits, with a value that fits.
pub open spec fn i32_of(s: Seq<char>) -> Option<i32> {
    if s.len() > 0 && s[0] == '-' {
        match digit_text(s.drop_first()) {
            Some(v) => if v <= 0x8000_0000 {
                Some((-v) as i32)
            } else {
                None
            },
            None => None,
        }
    } else {
        let body = if s.len() > 0 && s[0] == '+' {
            s.drop_first()
        } else {
            s
        };
        match digit_text(body) {
            Some(v) => if v <= i32::MAX {
                Some(v as i32)
            } else {
                None
            },
            None => None,
        }
    }
}

const CAP: u64 = 0x1_0000_0000;

proof fn lemma_digits_value_nonneg(s: Seq<char>)
    requires
        all_digits(s),
    ensures
        digits_value(s) >= 0,
    decreases s.len(),
{
    if s.len() > 0 {
        assert(all_digits(s.drop_last())) by {
            assert forall|i: int| 0 <= i < s.drop_last().len() implies is_digit(
                #[trigger] s.drop_last()[i],
            ) by {
                assert(s.drop_last()[i] == s[i]);
            }
        }
        lemma_digits_value_nonneg(s.drop_last());
        assert(is_digit(s[s.len() - 1]));
    }
}

/// Reads the digits of `s` from position `from` on; a value of `CAP` or more reads as `CAP`.
fn read_digits(s: &str, from: usize) -> (r: Option<u64>)
    requires
        from <= s@.len(),
    ensures
        (r is None) == (digit_text(s@.subrange(from as int, s@.len() as int)) is None),
        r is Some ==> ({
            let v = digit_text(s@.subrange(from as int, s@.len() as int))->0;
            v >= 0 && r->0 as int == (if v < CAP {
                v
            } else {
                CAP as int
            })
        }),
{
    let n = s.unicode_len();
    if from == n {
        return None;
    }
    let mut i: usize = from;
    let mut v: u64 = 0;
    assert(s@.subrange(from as int, from as int) =~= Seq::<char>::empty());
    while i < n
        invariant
            n == s@.len(),
            from <= i <= n,
            all_digits(s@.subrange(from as int, i as int)),
            v <= CAP,
            v == (if digits_value(s@.subrange(from as int, i as int)) < CAP {
                digits_value(s@.subrange(from as int, i as int))
            } else {
                CAP as int
            }),
        decreases n - i,
    {
        let c = s.get_char(i);
        let u = c as u32;
        if !(48 <= u && u <= 57) {
            assert(!all_digits(s@.subrange(from as int, n as int))) by {
                assert(s@.subrange(from as int, n as int)[i - from] == c);
            }
            return None;
        }
        let ghost prev = s@.subrange(from as int, i as int);
        let ghost next = s@.subrange(from as int, i + 1);
        assert(next.drop_last() =~= prev);
        assert(next.last() == c);
        assert(all_digits(next)) by {
            assert forall|k: int| 0 <= k < next.len() implies is_digit(#[trigger] next[k]) by {
                if k < prev.len() {
                    assert(next[k] == prev[k]);
                }
            }
        }
        proof {
            lemma_digits_value_nonneg(prev);
        }
        let d = (u - 48) as u64;
        let mut nv: u64 = v * 10 + d;
        if nv > CAP {
            nv = CAP;
        }
        proof {
            let pv = digits_value(prev);
            assert(digits_value(next) == pv * 10 + d);
            if pv >= CAP {
                assert(pv * 10 >= CAP) by (nonlinear_arith)
                    requires
                        pv >= CAP,
                ;
            }
        }
        v = nv;
        i += 1;
    }
    assert(s@.subrange(from as int, n as int).len() > 0);
    proof {
        lemma_digits_value_nonneg(s@.subrange(from as int, n as int));
    }
    Some(v)
}

/// Reads an unsigned decimal number as `str::parse::<u32>` does.
pub fn parse_u32(s: &str) -> (r: Option<u32>)
    ensures
        r == u32_of(s@),
{
    let n = s.unicode_len();
    let from: usize = if n > 0 && s.get_char(0) == '+' {
        1
    } else {
        0
    };
    assert(s@.subrange(from as int, n as int) =~= (if s@.len() > 0 && s@[0] == '+' {
        s@.drop_first()
    } else {
        s@
    }));
    let ghost body = s@.subrange(from as int, n as int);
    match read_digits(s, from) {
        Some(v) => {
            assert(digit_text(body) is Some);
            if v <= 0xFFFF_FFFF {
                assert(digit_text(body) == Some(v as int));
                Some(v as u32)
            } else {
                None
            }
        },
        None => None,
    }
}

/// Reads a signed decimal number as `str::parse::<i32>` does.
pub fn parse_i32(s: &str) -> (r: Option<i32>)
    ensures
        r == i32_of(s@),
{
    let n = s.unicode_len();
    if n > 0 && s.get_char(0) == '-' {
        assert(s@.subrange(1, n as int) =~= s@.drop_first());
        let ghost body = s@.subrange(1, n as int);
        match read_digits(s, 1) {
            Some(v) => {
                assert(digit_text(body) is Some);
                if v <= 0x8000_0000 {
                    assert(digit_text(body) == Some(v as int));
                    Some((0 - (v as i64)) as i32)
                } else {
                    None
                }
            },
            None => None,
        }
    } else {
        let from: usize = if n > 0 && s.get_char(0) == '+' {
            1
        } else {
            0
        };
        assert(s@.subrange(from as int, n as int) =~= (if s@.len() > 0 && s@[0] == '+' {
            s@.drop_first()
        } else {
            s@
        }));
        let ghost body = s@.subrange(from as int, n as int);
        match read_digits(s, from) {
            Some(v) => {
                assert(digit_text(body) is Some);
                if v <= 0x7FFF_FFFF {
                    assert(digit_text(body) == Some(v as int));
                    Some(v as i32)
                } else {
                    None
                }
            },
            None => None,
        }
    }
}

pub open spec fn digit_char(d: int) -> char {
    if d == 0 {
        '0'
    } else if d == 1 {
        '1'
    } else if d == 2 {
        '2'
    } else if d == 3 {
        '3'
    } else if d == 4 {
        '4'
    } else if d == 5 {
        '5'
    } else if d == 6 {
        '6'
    } else if d == 7 {
        '7'
    } else if d == 8 {
        '8'
    } else {
        '9'
    }
}

/// The decimal digits of `n`, without leading zeros.
pub open spec fn decimal(n: nat) -> Seq<char>
    decreases n,
{
    if n < 10 {
        seq![digit_char(n as int)]
    } else {
        decimal(n / 10) + seq![digit_char((n % 10) as int)]
    }
}

/// `n` in decimal, with a `-` in front when negative.
pub open spec fn signed_decimal(n: int) -> Seq<char> {
    if n < 0 {
        seq!['-'] + decimal((-n) as nat)
    } else {
        decimal(n as nat)
    }
}

pub open spec fn zeros(k: int) -> Seq<char> {
    Seq::new(k as nat, |i: int| '0')
}

/// `n` in decimal, with zeros in front up to `width` characters.
pub open spec fn padded(n: nat, width: int) -> Seq<char> {
    let d = decimal(n);
    if d.len() < width {
        zeros(width - d.len()) + d
    } else {
        d
    }
}

fn push_digit(out: &mut String, d: u64)
    requires
        d < 10,
    ensures
        final(out)@ == old(out)@ + seq![digit_char(d as int)],
{
    let t: &str = if d == 0 {
        proof { reveal_strlit("0"); }
        "0"
    } else if d == 1 {
        proof { reveal_strlit("1"); }
        "1"
    } else if d == 2 {
        proof { reveal_strlit("2"); }
        "2"
    } else if d == 3 {
        proof { reveal_strlit("3"); }
        "3"
    } else if d == 4 {
        proof { reveal_strlit("4"); }
        "4"
    } else if d == 5 {
        proof { reveal_strlit("5"); }
        "5"
    } else if d == 6 {
        proof { reveal_strlit("6"); }
        "6"
    } else if d == 7 {
        proof { reveal_strlit("7"); }
        "7"
    } else if d == 8 {
        proof { reveal_strlit("8"); }
        "8"
    } else {
        proof { reveal_strlit("9"); }
        "9"
    };
    assert(t@ =~= seq![digit_char(d as int)]);
    out.append(t);
}

/// Appends `n` in decimal.
pub fn push_decimal(out: &mut String, n: u64)
    ensures
        final(out)@ == old(out)@ + decimal(n as nat),
    decreases n,
{
    if n >= 10 {
        push_decimal(out, n / 10);
    }
    push_digit(out, n % 10);
    assert(final(out)@ =~= old(out)@ + decimal(n as nat));
}

/// Appends `n` in decimal, with a `-` in front when negative.
pub fn push_signed(out: &mut String, n: i64)
    requires
        n > i64::MIN,
    ensures
        final(out)@ == old(out)@ + signed_decimal(n as int),
{
    if n < 0 {
        proof { reveal_strlit("-"); }
        out.append("-");
        push_decimal(out, (0 - n) as u64);
        assert(final(out)@ =~= old(out)@ + signed_decimal(n as int));
    } else {
        push_decimal(out, n as u64);
    }
}

/// Appends `n` in decimal, with zeros in front up to `width` characters.
pub fn push_padded(out: &mut String, n: u64, width: usize)
    ensures
        final(out)@ == old(out)@ + padded(n as nat, width as int),
{
    let mut digits = String::new();
    push_decimal(&mut digits, n);
    assert(digits@ =~= decimal(n as nat));
    let len = digits.as_str().unicode_len();
    let ghost start = out@;
    let mut k: usize = len;
    while k < width
        invariant
            len <= k <= width || (k == len && len >= width),
            len == decimal(n as nat).len(),
            out@ == start + zeros(k - len),
        decreases width - k,
    {
        proof { reveal_strlit("0"); }
        out.append("0");
        assert(out@ =~= start + zeros(k + 1 - len));
        k += 1;
    }
    out.append(digits.as_str());
    assert(final(out)@ =~= start + padded(n as nat, width as int));
}

/// Splitting text that holds no delimiter after the last one extends the last piece.
pub proof fn lemma_fields_extend(x: Seq<char>, y: Seq<char>, d: char)
    requires
        !y.contains(d),
    ensures
        fields(x + y, d) == fields(x, d).update(
            fields(x, d).len() - 1,
            fields(x, d).last() + y,
        ),
    decreases y.len(),
{
    lemma_fields_nonempty(x, d);
    if y.len() == 0 {
        assert(x + y =~= x);
        assert(fields(x, d).last() + y =~= fields(x, d).last());
        assert(fields(x, d).update(fields(x, d).len() - 1, fields(x, d).last()) =~= fields(x, d));
    } else {
        let y0 = y.drop_last();
        assert(!y0.contains(d)) by {
            if y0.contains(d) {
                let i = choose|i: int| 0 <= i < y0.len() && y0[i] == d;
                assert(y[i] == d);
            }
        }
        assert(y.last() != d) by {
            assert(y[y.len() - 1] == y.last());
        }
        lemma_fields_extend(x, y0, d);
        assert((x + y).drop_last() =~= x + y0);
        assert((x + y).last() == y.last());
        let f = fields(x, d);
        assert(fields(x + y, d) =~= f.update(f.len() - 1, f.last() + y0).update(
            f.len() - 1,
            (f.last() + y0).push(y.last()),
        ));
        assert((f.last() + y0).push(y.last()) =~= f.last() + y);
        assert(fields(x + y, d) =~= f.update(f.len() - 1, f.last() + y));
    }
}

/// One more delimiter, then text without one, adds one piece.
pub proof fn lemma_fields_push(x: Seq<char>, y: Seq<char>, d: char)
    requires
        !y.contains(d),
    ensures
        fields(x + seq![d] + y, d) == fields(x, d).push(y),
{
    let xd = x + seq![d];
    assert(xd.drop_last() =~= x);
    assert(xd.last() == d);
    assert(fields(xd, d) == fields(x, d).push(Seq::empty()));
    lemma_fields_extend(xd, y, d);
    assert(Seq::<char>::empty() + y =~= y);
    assert(fields(xd + y, d) =~= fields(x, d).push(y));
    assert(x + seq![d] + y == xd + y);
}

/// Text without the delimiter is a single piece.
pub proof fn lemma_fields_single(y: Seq<char>, d: char)
    requires
        !y.contains(d),
    ensures
        fields(y, d) == seq![y],
{
    lemma_fields_extend(Seq::empty(), y, d);
    assert(Seq::<char>::empty() + y =~= y);
    assert(fields(Seq::<char>::empty(), d) == seq![Seq::<char>::empty()]);
    assert(seq![Seq::<char>::empty()].update(0, Seq::<char>::empty() + y) =~= seq![y]);
}

pub proof fn lemma_digit_char(k: int)
    requires
        0 <= k < 10,
    ensures
        is_digit(digit_char(k)),
        digit_char(k) as u32 - 48 == k,
{
}

/// The decimal digits of `n` read back as `n`.
pub proof fn lemma_decimal(n: nat)
    ensures
        decimal(n).len() > 0,
        all_digits(decimal(n)),
        digits_value(decimal(n)) == n,
    decreases n,
{
    if n < 10 {
        lemma_digit_char(n as int);
        assert(decimal(n).drop_last() =~= Seq::<char>::empty());
        assert(digits_value(Seq::<char>::empty()) == 0);
        assert(decimal(n).last() == digit_char(n as int));
        assert(digits_value(decimal(n)) == digits_value(decimal(n).drop_last()) * 10 + (
        decimal(n).last() as u32 - 48));
    } else {
        lemma_decimal(n / 10);
        lemma_digit_char((n % 10) as int);
        let s = decimal(n);
        assert(s.drop_last() =~= decimal(n / 10));
        assert(s.last() == digit_char((n % 10) as int));
        assert(digits_value(s) == digits_value(s.drop_last()) * 10 + (s.last() as u32 - 48));
        assert((n / 10) * 10 + n % 10 == n);
        assert forall|i: int| 0 <= i < s.len() implies is_digit(#[trigger] s[i]) by {
            if i < s.len() - 1 {
                assert(s[i] == decimal(n / 10)[i]);
            }
        }
    }
}

/// Digits have no white space to trim.
pub proof fn lemma_trim_digits(s: Seq<char>)
    requires
        s.len() > 0,
        all_digits(s),
    ensures
        trim(s) == s,
{
    assert(is_digit(s[0]));
    assert(is_digit(s[s.len() - 1]));
}

pub proof fn lemma_digits_no_delimiter(s: Seq<char>, d: char)
    requires
        all_digits(s),
        !is_digit(d),
    ensures
        !s.contains(d),
{
    if s.contains(d) {
        let i = choose|i: int| 0 <= i < s.len() && s[i] == d;
        assert(is_digit(s[i]));
    }
}

/// A number written in decimal reads back as itself.
pub proof fn lemma_u32_of_decimal(n: u32)
    ensures
        u32_of(decimal(n as nat)) == Some(n),
        trim(decimal(n as nat)) == decimal(n as nat),
{
    lemma_decimal(n as nat);
    lemma_trim_digits(decimal(n as nat));
    assert(is_digit(decimal(n as nat)[0]));
}

/// A signed number written in decimal reads back as itself.
pub proof fn lemma_i32_of_signed_decimal(n: i32)
    ensures
        i32_of(signed_decimal(n as int)) == Some(n),
        trim(signed_decimal(n as int)) == signed_decimal(n as int),
        !signed_decimal(n as int).contains(','),
{
    let s = signed_decimal(n as int);
    if n < 0 {
        let m = (-n) as nat;
        lemma_decimal(m);
        assert(s.drop_first() =~= decimal(m));
        assert(is_digit(s[s.len() - 1])) by {
            assert(s[s.len() - 1] == decimal(m)[decimal(m).len() - 1]);
        }
        assert(!is_space(s[0]));
        assert(trim_start(s) == s);
        assert(trim(s) == s);
        lemma_digits_no_delimiter(decimal(m), ',');
        assert(!s.contains(',')) by {
            if s.contains(',') {
                let i = choose|i: int| 0 <= i < s.len() && s[i] == ',';
                assert(i > 0);
                assert(decimal(m)[i - 1] == ',');
            }
        }
    } else {
        lemma_decimal(n as nat);
        lemma_trim_digits(s);
        assert(is_digit(s[0]));
        lemma_digits_no_delimiter(s, ',');
    }
}

pub open spec fn all_space(s: Seq<char>) -> bool {
    forall|i: int| 0 <= i < s.len() ==> is_space(#[trigger] s[i])
}

proof fn lemma_trim_start_padding(w: Seq<char>, x: Seq<char>)
    requires
        all_space(w),
    ensures
        trim_start(w + x) == trim_start(x),
    decreases w.len(),
{
    if w.len() > 0 {
        assert((w + x)[0] == w[0]);
        assert((w + x).drop_first() =~= w.drop_first() + x);
        lemma_trim_start_padding(w.drop_first(), x);
    } else {
        assert(w + x =~= x);
    }
}

proof fn lemma_trim_end_padding(x: Seq<char>, w: Seq<char>)
    requires
        all_space(w),
    ensures
        trim_end(x + w) == trim_end(x),
    decreases w.len(),
{
    if w.len() > 0 {
        assert((x + w).last() == w.last());
        assert((x + w).drop_last() =~= x + w.drop_last());
        lemma_trim_end_padding(x, w.drop_last());
    } else {
        assert(x + w =~= x);
    }
}

proof fn lemma_trim_suffix(x: Seq<char>, w: Seq<char>)
    requires
        all_space(w),
    ensures
        trim(x + w) == trim(x),
    decreases x.len(),
{
    if x.len() > 0 && is_space(x[0]) {
        assert((x + w)[0] == x[0]);
        assert((x + w).drop_first() =~= x.drop_first() + w);
        lemma_trim_suffix(x.drop_first(), w);
    } else if x.len() > 0 {
        assert((x + w)[0] == x[0]);
        lemma_trim_end_padding(x, w);
    } else {
        assert(x + w =~= w + Seq::<char>::empty());
        lemma_trim_start_padding(w, Seq::empty());
    }
}

/// White space around a slot does not change what it trims to.
pub proof fn lemma_trim_padding(w1: Seq<char>, x: Seq<char>, w2: Seq<char>)
    requires
        all_space(w1),
        all_space(w2),
    ensures
        trim(w1 + x + w2) == trim(x),
{
    assert(w1 + x + w2 == w1 + (x + w2)) by {
        assert(w1 + x + w2 =~= w1 + (x + w2));
    }
    lemma_trim_start_padding(w1, x + w2);
    lemma_trim_suffix(x, w2);
}

} // verus!

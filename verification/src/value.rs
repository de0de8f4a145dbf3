//! A single data point: a piece of text, a number, or missing.
//!
//! Numbers are held as a fixed-point count of thousandths, which is exactly
//! the precision the display format keeps (three decimals with trailing
//! zeros and a trailing decimal point stripped).

use vstd::prelude::*;

verus! {

/// Result of comparing two values that are in relation to each other.
#[derive(Clone, Copy, PartialEq, Eq, Structural, Debug)]
pub enum Order {
    Less,
    Equal,
    Greater,
}

/// Mathematical model of a [`Value`]: text as a sequence of characters,
/// a number as its count of thousandths.
pub enum ValueModel {
    Text(Seq<char>),
    Number(int),
    Missing,
}

/// One data point of a variable.
#[derive(Debug)]
pub enum Value {
    /// A non-empty piece of text.
    Text { text: String },
    /// A number, stored as thousandths of the represented value.
    Number { number: i64 },
    /// No value was recorded.
    Missing,
}

impl View for Value {
    type V = ValueModel;

    open spec fn view(&self) -> ValueModel {
        match self {
            Value::Text { text } => ValueModel::Text(text@),
            Value::Number { number } => ValueModel::Number(*number as int),
            Value::Missing => ValueModel::Missing,
        }
    }
}

impl DeepView for Value {
    type V = ValueModel;

    open spec fn deep_view(&self) -> ValueModel {
        self.view()
    }
}

impl Clone for Value {
    fn clone(&self) -> (r: Self)
        ensures
            r@ == self@,
    {
        match self {
            Value::Text { text } => Value::Text { text: text.clone() },
            Value::Number { number } => Value::Number { number: *number },
            Value::Missing => Value::Missing,
        }
    }
}

/// Lexicographic order on character sequences, by code point.
pub open spec fn lex_cmp(a: Seq<char>, b: Seq<char>) -> Order
    decreases a.len(),
{
    if a.len() == 0 && b.len() == 0 {
        Order::Equal
    } else if a.len() == 0 {
        Order::Less
    } else if b.len() == 0 {
        Order::Greater
    } else if (a[0] as u32) < (b[0] as u32) {
        Order::Less
    } else if (a[0] as u32) > (b[0] as u32) {
        Order::Greater
    } else {
        lex_cmp(a.skip(1), b.skip(1))
    }
}

/// How two values compare: `None` when they are of different concrete kinds.
/// Missing is equal to Missing and less than everything concrete.
pub open spec fn cmp_value(a: ValueModel, b: ValueModel) -> Option<Order> {
    match a {
        ValueModel::Missing => match b {
            ValueModel::Missing => Some(Order::Equal),
            _ => Some(Order::Less),
        },
        ValueModel::Text(x) => match b {
            ValueModel::Text(y) => Some(lex_cmp(x, y)),
            ValueModel::Number(_) => None,
            ValueModel::Missing => Some(Order::Greater),
        },
        ValueModel::Number(x) => match b {
            ValueModel::Text(_) => None,
            ValueModel::Number(y) => Some(
                if x < y {
                    Order::Less
                } else if x > y {
                    Order::Greater
                } else {
                    Order::Equal
                },
            ),
            ValueModel::Missing => Some(Order::Greater),
        },
    }
}

/// Turns a string into its characters, so that the logic can walk them
/// by index.
pub fn chars_of(s: &str) -> (r: Vec<char>)
    ensures
        r@ == s@,
{
    let n = s.unicode_len();
    let mut r: Vec<char> = Vec::new();
    let mut i: usize = 0;
    while i < n
        invariant
            n == s@.len(),
            i <= n,
            r@ == s@.take(i as int),
        decreases n - i,
    {
        let c = s.get_char(i);
        r.push(c);
        proof {
            assert(s@.take(i + 1 as int) =~= s@.take(i as int).push(s@[i as int]));
        }
        i += 1;
    }
    proof {
        assert(s@.take(n as int) =~= s@);
    }
    r
}

/// Builds a string from the characters of `v` in `[from, to)`.
pub fn string_range(v: &Vec<char>, from: usize, to: usize) -> (r: String)
    requires
        from <= to <= v@.len(),
    ensures
        r@ == v@.subrange(from as int, to as int),
{
    let mut out = String::new();
    let mut i: usize = from;
    while i < to
        invariant
            from <= i <= to <= v@.len(),
            out@ == v@.subrange(from as int, i as int),
        decreases to - i,
    {
        out.push(v[i]);
        proof {
            assert(v@.subrange(from as int, i + 1) =~= v@.subrange(from as int, i as int).push(
                v@[i as int],
            ));
        }
        i += 1;
    }
    out
}

/// Compares two character vectors lexicographically.
pub fn cmp_chars(a: &Vec<char>, b: &Vec<char>) -> (r: Order)
    ensures
        r == lex_cmp(a@, b@),
{
    let mut i: usize = 0;
    proof {
        assert(a@.skip(0) =~= a@);
        assert(b@.skip(0) =~= b@);
    }
    loop
        invariant
            i <= a.len(),
            i <= b.len(),
            lex_cmp(a@, b@) == lex_cmp(a@.skip(i as int), b@.skip(i as int)),
        decreases a@.len() - i,
    {
        if i == a.len() && i == b.len() {
            return Order::Equal;
        } else if i == a.len() {
            return Order::Less;
        } else if i == b.len() {
            return Order::Greater;
        } else {
            let x = a[i];
            let y = b[i];
            if (x as u32) < (y as u32) {
                return Order::Less;
            } else if (x as u32) > (y as u32) {
                return Order::Greater;
            }
            proof {
                assert(a@.skip(i as int).skip(1) =~= a@.skip(i + 1 as int));
                assert(b@.skip(i as int).skip(1) =~= b@.skip(i + 1 as int));
                assert(a@.skip(i as int)[0] == a@[i as int]);
                assert(b@.skip(i as int)[0] == b@[i as int]);
            }
            i += 1;
        }
    }
}

/// Relies on std's `String::push`: appends one character at the end of the
/// string.
pub assume_specification[ String::push ](s: &mut String, c: char)
    ensures
        final(s)@ == old(s)@.push(c),
;

/// Whether `c` is a decimal digit.
pub open spec fn is_digit(c: char) -> bool {
    '0' as u32 <= c as u32 && c as u32 <= '9' as u32
}

/// Numeric value of a digit character.
pub open spec fn digit_val(c: char) -> int {
    c as u32 - '0' as u32
}

/// The digit character for `d` in `0..10`.
pub open spec fn digit_char(d: int) -> char {
    if d == 0 {
        '0'
    } else if d == 1 {
        '1'
    } else if d == 2 {
        '2'
    } else if d == 3 {
        '3'
    } else if d == 4 {
        '4'
    } else if d == 5 {
        '5'
    } else if d == 6 {
        '6'
    } else if d == 7 {
        '7'
    } else if d == 8 {
        '8'
    } else {
        '9'
    }
}

/// Decimal digits of a non-negative integer, most significant first.
pub open spec fn dec_digits(n: int) -> Seq<char>
    decreases n,
{
    if n < 10 {
        seq![digit_char(n)]
    } else {
        dec_digits(n / 10).push(digit_char(n % 10))
    }
}

/// The fractional part of a thousandths count `0 < r < 1000`, as up to three
/// digit characters with trailing zeros stripped.
pub open spec fn frac_text(r: int) -> Seq<char> {
    let d1 = r / 100;
    let d2 = (r / 10) % 10;
    let d3 = r % 10;
    if d3 != 0 {
        seq![digit_char(d1), digit_char(d2), digit_char(d3)]
    } else if d2 != 0 {
        seq![digit_char(d1), digit_char(d2)]
    } else {
        seq![digit_char(d1)]
    }
}

/// Rendering of a number held as `m` thousandths: up to three decimals,
/// trailing zeros and a trailing decimal point stripped.
pub open spec fn number_text(m: int) -> Seq<char> {
    let a = if m < 0 {
        -m
    } else {
        m
    };
    let sign: Seq<char> = if m < 0 {
        seq!['-']
    } else {
        Seq::empty()
    };
    let q = a / 1000;
    let r = a % 1000;
    if r == 0 {
        sign + dec_digits(q)
    } else {
        sign + dec_digits(q) + seq!['.'] + frac_text(r)
    }
}

/// How a value is shown: missing data as a placeholder, text in quotation
/// marks, numbers per [`number_text`].
pub open spec fn value_text(v: ValueModel) -> Seq<char> {
    match v {
        ValueModel::Missing => "(missing)"@,
        ValueModel::Text(s) => seq!['\u{201c}'] + s + seq!['\u{201d}'],
        ValueModel::Number(m) => number_text(m),
    }
}

fn digit_char_exec(d: u64) -> (c: char)
    requires
        d < 10,
    ensures
        c == digit_char(d as int),
{
    if d == 0 {
        '0'
    } else if d == 1 {
        '1'
    } else if d == 2 {
        '2'
    } else if d == 3 {
        '3'
    } else if d == 4 {
        '4'
    } else if d == 5 {
        '5'
    } else if d == 6 {
        '6'
    } else if d == 7 {
        '7'
    } else if d == 8 {
        '8'
    } else {
        '9'
    }
}

fn push_digits(out: &mut String, n: u64)
    ensures
        final(out)@ == old(out)@ + dec_digits(n as int),
    decreases n,
{
    if n >= 10 {
        push_digits(out, n / 10);
    }
    let d = digit_char_exec(n % 10);
    out.push(d);
    proof {
        if n >= 10 {
            assert(final(out)@ =~= old(out)@ + dec_digits(n as int));
        } else {
            assert(final(out)@ =~= old(out)@ + dec_digits(n as int));
        }
    }
}

/// Renders a count of thousandths as its decimal text.
pub fn number_string(number: i64) -> (s: String)
    ensures
        s@ == number_text(number as int),
{
    let mut out = String::new();
    let a: u64 = if number < 0 {
        if number == i64::MIN {
            9223372036854775808u64
        } else {
            (-number) as u64
        }
    } else {
        number as u64
    };
    proof {
        assert(a as int == if number < 0 { -(number as int) } else { number as int });
    }
    if number < 0 {
        out.push('-');
    }
    let q = a / 1000;
    let r = a % 1000;
    push_digits(&mut out, q);
    if r != 0 {
        out.push('.');
        let d1 = r / 100;
        let d2 = (r / 10) % 10;
        let d3 = r % 10;
        out.push(digit_char_exec(d1));
        if d3 != 0 {
            out.push(digit_char_exec(d2));
            out.push(digit_char_exec(d3));
        } else if d2 != 0 {
            out.push(digit_char_exec(d2));
        }
    }
    proof {
        assert(out@ =~= number_text(number as int));
    }
    out
}

/// Index of the first occurrence of `c` in `s` at or after `i`, or `s.len()`
/// when there is none.
pub open spec fn index_of_from(s: Seq<char>, c: char, i: int) -> int
    decreases s.len() - i,
{
    if i < 0 || i >= s.len() {
        s.len() as int
    } else if s[i] == c {
        i
    } else {
        index_of_from(s, c, i + 1)
    }
}

/// Where [`index_of_from`] lands: between `i` and the length, on `c` when
/// inside, with nothing equal to `c` before it.
pub proof fn lemma_index_of_from_props(s: Seq<char>, c: char, i: int)
    requires
        0 <= i <= s.len(),
    ensures
        i <= index_of_from(s, c, i) <= s.len(),
        index_of_from(s, c, i) < s.len() ==> s[index_of_from(s, c, i)] == c,
        forall|j: int| i <= j < index_of_from(s, c, i) ==> s[j] != c,
    decreases s.len() - i,
{
    if i < s.len() && s[i] != c {
        lemma_index_of_from_props(s, c, i + 1);
    }
}

/// Whether every character of `s` is a decimal digit.
pub open spec fn all_digits(s: Seq<char>) -> bool {
    forall|i: int| 0 <= i < s.len() ==> is_digit(s[i])
}

/// Numeric value of a digit string, most significant digit first.
pub open spec fn digits_value(s: Seq<char>) -> int
    decreases s.len(),
{
    if s.len() == 0 {
        0
    } else {
        digits_value(s.drop_last()) * 10 + digit_val(s.last())
    }
}

/// Ten to the power `n`.
pub open spec fn pow10(n: nat) -> int
    decreases n,
{
    if n == 0 {
        1int
    } else {
        10 * pow10((n - 1) as nat)
    }
}

proof fn lemma_digits_value_bound(s: Seq<char>)
    requires
        all_digits(s),
    ensures
        0 <= digits_value(s) < pow10(s.len()),
    decreases s.len(),
{
    if s.len() > 0 {
        assert(all_digits(s.drop_last())) by {
            assert(forall|i: int|
                0 <= i < s.len() - 1 ==> s.drop_last()[i] == s[i] && is_digit(s[i]));
        }
        lemma_digits_value_bound(s.drop_last());
        assert(is_digit(s.last()));
        assert(0 <= digit_val(s.last()) <= 9);
    }
}

proof fn lemma_digits_value_drop_zero(s: Seq<char>)
    requires
        s.len() > 0,
        s[0] == '0',
    ensures
        digits_value(s) == digits_value(s.skip(1)),
    decreases s.len(),
{
    if s.len() == 1 {
        assert(s.drop_last().len() == 0);
        assert(digits_value(s.drop_last()) == 0);
        assert(s.last() == '0');
        assert(digit_val('0') == 0);
        assert(digits_value(s) == 0);
        assert(s.skip(1).len() == 0);
        assert(digits_value(s.skip(1)) == 0);
    } else {
        assert(s.drop_last()[0] == '0');
        lemma_digits_value_drop_zero(s.drop_last());
        assert(s.drop_last().skip(1) =~= s.skip(1).drop_last());
        assert(s.skip(1).last() == s.last());
    }
}

/// The number of thousandths contributed by the digits after the decimal
/// point, rounded half-up at the fourth digit.
pub open spec fn frac_milli(f: Seq<char>) -> int {
    let d1 = if f.len() > 0 {
        digit_val(f[0])
    } else {
        0
    };
    let d2 = if f.len() > 1 {
        digit_val(f[1])
    } else {
        0
    };
    let d3 = if f.len() > 2 {
        digit_val(f[2])
    } else {
        0
    };
    let d4 = if f.len() > 3 {
        digit_val(f[3])
    } else {
        0
    };
    d1 * 100 + d2 * 10 + d3 + if d4 >= 5 {
        1int
    } else {
        0int
    }
}

/// Leading zeros of a digit string removed.
pub open spec fn strip_zeros(s: Seq<char>) -> Seq<char>
    decreases s.len(),
{
    if s.len() > 0 && s[0] == '0' {
        strip_zeros(s.skip(1))
    } else {
        s
    }
}

/// Parse of an unsigned decimal literal into thousandths: digits with at
/// most one decimal point, at least one digit in all, rounded half-up to
/// three decimals. `None` when the text is not such a literal or its integer
/// part has more than twelve significant digits (the fixed-point range).
pub open spec fn parse_unsigned_milli(t: Seq<char>) -> Option<int> {
    let dot = index_of_from(t, '.', 0);
    let ip = t.take(dot);
    let fp = if dot == t.len() {
        Seq::<char>::empty()
    } else {
        t.subrange(dot + 1, t.len() as int)
    };
    if t.len() == 0 {
        None
    } else if !(all_digits(ip) && all_digits(fp)) {
        None
    } else if ip.len() == 0 && fp.len() == 0 {
        None
    } else if strip_zeros(ip).len() > 12 {
        None
    } else {
        Some(digits_value(ip) * 1000 + frac_milli(fp))
    }
}

/// Parse of a decimal literal with an optional sign into thousandths.
pub open spec fn parse_milli(s: Seq<char>) -> Option<int> {
    if s.len() == 0 {
        None
    } else if s[0] == '-' {
        match parse_unsigned_milli(s.skip(1)) {
            Some(v) => Some(-v),
            None => None,
        }
    } else if s[0] == '+' {
        parse_unsigned_milli(s.skip(1))
    } else {
        parse_unsigned_milli(s)
    }
}

/// Normalization applied before a numeric parse: spaces, tabs and percent
/// signs removed, commas turned into decimal points.
pub open spec fn clean_chars(s: Seq<char>) -> Seq<char>
    decreases s.len(),
{
    if s.len() == 0 {
        Seq::<char>::empty()
    } else {
        let rest = clean_chars(s.drop_last());
        let c = s.last();
        if c == ' ' || c == '\t' || c == '%' {
            rest
        } else if c == ',' {
            rest.push('.')
        } else {
            rest.push(c)
        }
    }
}

/// What numeric coercion makes of a value: text is normalized and parsed,
/// becoming a number on success and missing on failure; numbers and missing
/// values are untouched.
pub open spec fn coerce_model(v: ValueModel) -> ValueModel {
    match v {
        ValueModel::Text(s) => match parse_milli(clean_chars(s)) {
            Some(m) => ValueModel::Number(m),
            None => ValueModel::Missing,
        },
        _ => v,
    }
}

fn is_digit_exec(c: char) -> (r: bool)
    ensures
        r == is_digit(c),
{
    ('0' as u32) <= (c as u32) && (c as u32) <= ('9' as u32)
}

/// Parses the characters of an unsigned decimal literal into thousandths.
#[verifier::loop_isolation(false)]
#[verifier::rlimit(60)]
fn parse_unsigned_exec(t: &Vec<char>, start: usize) -> (r: Option<u64>)
    requires
        start <= t@.len(),
    ensures
        ({
            let p = parse_unsigned_milli(t@.skip(start as int));
            match (r, p) {
                (Some(x), Some(m)) => x as int == m && 0 <= m < 10000000000000000,
                (None, None) => true,
                _ => false,
            }
        }),
{
    let ghost s = t@.skip(start as int);
    let n = t.len();
    if start == n {
        return None;
    }
    // Find the decimal point.
    let mut dot: usize = start;
    while dot < n && t[dot] != '.'
        invariant
            start <= dot <= n,
            n == t@.len(),
            forall|j: int| start <= j < dot ==> t@[j] != '.',
        decreases n - dot,
    {
        dot += 1;
    }
    proof {
        lemma_index_of_from_position(s, '.', (dot - start) as int);
        assert forall|j: int| 0 <= j < dot - start implies s[j] != '.' by {
            assert(s[j] == t@[start + j]);
        }
        if dot < n {
            assert(s[dot - start] == t@[dot as int]);
        }
    }
    let ghost di = (dot - start) as int;
    let ghost ip = s.take(di);
    let ghost fp = if di == s.len() { Seq::<char>::empty() } else { s.subrange(di + 1, s.len() as int) };
    // Check that everything else is a digit.
    let mut k: usize = start;
    while k < dot
        invariant
            start <= k <= dot <= n,
            n == t@.len(),
            forall|j: int| start <= j < k ==> is_digit(t@[j]),
        decreases dot - k,
    {
        if !is_digit_exec(t[k]) {
            proof {
                assert(ip[k - start] == s[k - start]);
                assert(s[k - start] == t@[k as int]);
                assert(!is_digit(ip[k - start]));
            }
            return None;
        }
        k += 1;
    }
    let mut k2: usize = if dot < n { dot + 1 } else { n };
    let fstart = k2;
    while k2 < n
        invariant
            fstart <= k2 <= n,
            n == t@.len(),
            forall|j: int| fstart <= j < k2 ==> is_digit(t@[j]),
        decreases n - k2,
    {
        if !is_digit_exec(t[k2]) {
            proof {
                assert(fp[k2 - fstart] == s[k2 - start]);
                assert(s[k2 - start] == t@[k2 as int]);
                assert(!is_digit(fp[k2 - fstart]));
            }
            return None;
        }
        k2 += 1;
    }
    proof {
        assert(all_digits(ip)) by {
            assert(forall|j: int| 0 <= j < ip.len() ==> ip[j] == t@[start + j] && is_digit(t@[start + j]));
        }
        assert(all_digits(fp)) by {
            assert(forall|j: int| 0 <= j < fp.len() ==> fp[j] == t@[fstart + j] && is_digit(t@[fstart + j]));
        }
    }
    if start == dot && fstart == n {
        // A decimal point alone.
        proof {
            assert(ip.len() == 0 && fp.len() == 0);
        }
        return None;
    }
    // Skip leading zeros of the integer part.
    let mut z: usize = start;
    proof {
        assert(ip.skip(0) =~= ip);
    }
    while z < dot && t[z] == '0'
        invariant
            start <= z <= dot,
            dot <= n == t@.len(),
            strip_zeros(ip) == strip_zeros(ip.skip(z - start)),
            digits_value(ip) == digits_value(ip.skip(z - start)),
        decreases dot - z,
    {
        proof {
            let u = ip.skip(z - start);
            assert(u.len() == ip.len() - (z - start));
            assert(u[0] == ip[z - start]);
            assert(ip[z - start] == s[z - start]);
            assert(s[z - start] == t@[z as int]);
            lemma_digits_value_drop_zero(u);
            assert(u.skip(1) =~= ip.skip(z + 1 - start));
        }
        z += 1;
    }
    proof {
        let u = ip.skip(z - start);
        assert(u.len() == 0 || u[0] != '0') by {
            if u.len() > 0 {
                assert(u[0] == ip[z - start]);
                assert(ip[z - start] == s[z - start]);
                assert(s[z - start] == t@[z as int]);
            }
        }
        assert(strip_zeros(u) == u);
        assert(strip_zeros(ip) == ip.skip(z - start));
    }
    if dot - z > 12 {
        return None;
    }
    // Value of the integer part.
    let mut acc: u64 = 0;
    let mut j: usize = z;
    proof {
        assert(ip.skip(z - start).take(0) =~= Seq::<char>::empty());
    }
    while j < dot
        invariant
            z <= j <= dot <= n,
            n == t@.len(),
            dot - z <= 12,
            start <= z,
            ip == t@.skip(start as int).take(di),
            di == dot - start,
            all_digits(ip),
            acc as int == digits_value(ip.skip(z - start).take(j - z)),
            acc < pow10((j - z) as nat),
        decreases dot - j,
    {
        let ghost u = ip.skip(z - start);
        let ghost pre = u.take(j - z);
        proof {
            assert(all_digits(u)) by {
                assert(forall|i: int| 0 <= i < u.len() ==> u[i] == ip[z - start + i]);
            }
            assert(all_digits(pre)) by {
                assert(forall|i: int| 0 <= i < pre.len() ==> pre[i] == u[i]);
            }
            lemma_pow10_le(((j - z) as nat), 12nat);
            assert(pow10(12) == 1000000000000) by {
                reveal_with_fuel(pow10, 13);
            }
            assert(acc < 1000000000000);
            assert(u.take(j + 1 - z).drop_last() =~= pre);
            assert(u.take(j + 1 - z).last() == u[j - z]);
            assert(u[j - z] == t@[j as int]);
            assert(is_digit(t@[j as int])) by {
                assert(ip[j - start] == t@[j as int]);
            }
        }
        let c = t[j];
        let d: u64 = (c as u32 as u64) - 48;
        proof {
            assert(d as int == digit_val(c));
        }
        acc = acc * 10 + d;
        j += 1;
        proof {
            lemma_pow10_le(((j - 1 - z) as nat), 12nat);
        }
    }
    proof {
        let u = ip.skip(z - start);
        assert(u.take(dot - z) =~= u);
        assert(acc as int == digits_value(ip));
        lemma_digits_value_bound(u);
        lemma_pow10_le(u.len(), 12nat);
        assert(pow10(12) == 1000000000000) by {
            reveal_with_fuel(pow10, 13);
        }
    }
    // Thousandths from the fractional digits, rounded half-up at the fourth.
    let flen = n - fstart;
    let d1: u64 = if flen > 0 { digit_of(t, fstart) } else { 0 };
    let d2: u64 = if flen > 1 { digit_of(t, fstart + 1) } else { 0 };
    let d3: u64 = if flen > 2 { digit_of(t, fstart + 2) } else { 0 };
    let d4: u64 = if flen > 3 { digit_of(t, fstart + 3) } else { 0 };
    proof {
        if flen > 0 {
            assert(fp[0] == t@[fstart as int]);
        }
        if flen > 1 {
            assert(fp[1] == t@[fstart + 1]);
        }
        if flen > 2 {
            assert(fp[2] == t@[fstart + 2]);
        }
        if flen > 3 {
            assert(fp[3] == t@[fstart + 3]);
        }
    }
    let frac: u64 = d1 * 100 + d2 * 10 + d3 + if d4 >= 5 { 1 } else { 0 };
    Some(acc * 1000 + frac)
}

fn digit_of(t: &Vec<char>, i: usize) -> (d: u64)
    requires
        i < t@.len(),
        is_digit(t@[i as int]),
    ensures
        d as int == digit_val(t@[i as int]),
        d <= 9,
{
    let c = t[i];
    (c as u32 as u64) - 48
}

proof fn lemma_pow10_le(a: nat, b: nat)
    requires
        a <= b,
    ensures
        pow10(a) <= pow10(b),
        pow10(a) >= 1,
    decreases b,
{
    if b > 0 {
        if a == b {
            lemma_pow10_le((a - 1) as nat, (b - 1) as nat);
        } else {
            lemma_pow10_le(a, (b - 1) as nat);
        }
    }
}

proof fn lemma_index_of_from_position(s: Seq<char>, c: char, k: int)
    requires
        0 <= k <= s.len(),
        forall|j: int| 0 <= j < k ==> s[j] != c,
        k < s.len() ==> s[k] == c,
    ensures
        index_of_from(s, c, 0) == if k < s.len() {
            k
        } else {
            s.len() as int
        },
{
    lemma_index_of_from_step(s, c, 0, k);
}

proof fn lemma_index_of_from_step(s: Seq<char>, c: char, i: int, k: int)
    requires
        0 <= i <= k <= s.len(),
        forall|j: int| i <= j < k ==> s[j] != c,
        k < s.len() ==> s[k] == c,
    ensures
        index_of_from(s, c, i) == if k < s.len() {
            k
        } else {
            s.len() as int
        },
    decreases k - i,
{
    if i < k {
        lemma_index_of_from_step(s, c, i + 1, k);
    }
}

/// Parses a decimal literal with an optional sign into thousandths.
pub fn parse_number(t: &Vec<char>) -> (r: Option<i64>)
    ensures
        ({
            let p = parse_milli(t@);
            match (r, p) {
                (Some(x), Some(m)) => x as int == m,
                (None, None) => true,
                _ => false,
            }
        }),
{
    if t.len() == 0 {
        return None;
    }
    let c = t[0];
    if c == '-' {
        match parse_unsigned_exec(t, 1) {
            Some(v) => Some(-(v as i64)),
            None => None,
        }
    } else if c == '+' {
        match parse_unsigned_exec(t, 1) {
            Some(v) => Some(v as i64),
            None => None,
        }
    } else {
        proof {
            assert(t@.skip(0) =~= t@);
        }
        match parse_unsigned_exec(t, 0) {
            Some(v) => Some(v as i64),
            None => None,
        }
    }
}

/// Removes spaces, tabs and percent signs and turns commas into decimal
/// points.
pub fn clean(t: &Vec<char>) -> (r: Vec<char>)
    ensures
        r@ == clean_chars(t@),
{
    let mut r: Vec<char> = Vec::new();
    let mut i: usize = 0;
    proof {
        assert(t@.take(0) =~= Seq::<char>::empty());
    }
    while i < t.len()
        invariant
            i <= t@.len(),
            r@ == clean_chars(t@.take(i as int)),
        decreases t@.len() - i,
    {
        let c = t[i];
        proof {
            assert(t@.take(i + 1).drop_last() =~= t@.take(i as int));
            assert(t@.take(i + 1).last() == t@[i as int]);
        }
        if c == ' ' || c == '\t' || c == '%' {
        } else if c == ',' {
            r.push('.');
        } else {
            r.push(c);
        }
        i += 1;
    }
    proof {
        assert(t@.take(t@.len() as int) =~= t@);
    }
    r
}

impl Value {
    /// Creates a value from a raw field: empty text means missing.
    pub fn new(value: &str) -> (r: Value)
        ensures
            r@ == from_raw(value@),
    {
        if value.unicode_len() == 0 {
            Value::Missing
        } else {
            Value::Text { text: value.to_owned() }
        }
    }

    /// Coerces the value to a number, per [`coerce_model`].
    pub fn as_number(&mut self)
        ensures
            final(self)@ == coerce_model(old(self)@),
    {
        match self {
            Value::Text { text } => {
                let t = chars_of(text.as_str());
                let cleaned = clean(&t);
                match parse_number(&cleaned) {
                    Some(number) => {
                        *self = Value::Number { number };
                    },
                    None => {
                        *self = Value::Missing;
                    },
                }
            },
            _ => {},
        }
    }
}

/// What a raw text field becomes: missing when empty, text otherwise.
pub open spec fn from_raw(s: Seq<char>) -> ValueModel {
    if s.len() == 0 {
        ValueModel::Missing
    } else {
        ValueModel::Text(s)
    }
}

impl Value {
    /// Renders the value for display.
    pub fn to_text(&self) -> (s: String)
        ensures
            s@ == value_text(self@),
    {
        match self {
            Value::Missing => String::from_str("(missing)"),
            Value::Text { text } => {
                let mut out = String::new();
                out.push('\u{201c}');
                out.append(text.as_str());
                out.push('\u{201d}');
                proof {
                    assert(out@ =~= value_text(self@));
                }
                out
            },
            Value::Number { number } => number_string(*number),
        }
    }

    /// Compares two values: `None` when a text is held against a number.
    pub fn compare(&self, other: &Value) -> (r: Option<Order>)
        ensures
            r == cmp_value(self@, other@),
    {
        match self {
            Value::Missing => match other {
                Value::Missing => Some(Order::Equal),
                _ => Some(Order::Less),
            },
            Value::Text { text } => match other {
                Value::Text { text: o } => {
                    let x = chars_of(text.as_str());
                    let y = chars_of(o.as_str());
                    Some(cmp_chars(&x, &y))
                },
                Value::Number { .. } => None,
                Value::Missing => Some(Order::Greater),
            },
            Value::Number { number } => match other {
                Value::Text { .. } => None,
                Value::Number { number: o } => Some(
                    if *number < *o {
                        Order::Less
                    } else if *number > *o {
                        Order::Greater
                    } else {
                        Order::Equal
                    },
                ),
                Value::Missing => Some(Order::Greater),
            },
        }
    }
}

} // verus!

use vstd::prelude::*;
use vstd::utf8::*;

verus! {

broadcast use vstd::utf8::char_is_scalar;

// ─── UTF-8 byte lengths of character sequences ──────────────────────────────

/// Number of bytes in the UTF-8 encoding of one character.
pub open spec fn char_width(c: char) -> nat {
    encode_scalar(c as u32).len()
}

/// Number of bytes in the UTF-8 encoding of a character sequence (what `str::len` returns).
pub open spec fn utf8_len(s: Seq<char>) -> nat {
    encode_utf8(s).len()
}

pub proof fn lemma_char_width_bounds(c: char)
    ensures
        1 <= char_width(c) <= 4,
{
}

pub proof fn lemma_encode_concat(a: Seq<char>, b: Seq<char>)
    ensures
        encode_utf8(a + b) == encode_utf8(a) + encode_utf8(b),
    decreases a.len(),
{
    if a.len() == 0 {
        assert(a + b =~= b);
        assert(encode_utf8(a) =~= Seq::<u8>::empty());
        assert(encode_utf8(a) + encode_utf8(b) =~= encode_utf8(b));
    } else {
        lemma_encode_concat(a.drop_first(), b);
        assert((a + b).drop_first() =~= a.drop_first() + b);
        assert((a + b)[0] == a[0]);
        assert(encode_utf8(a + b) =~= encode_scalar(a[0] as u32) + (encode_utf8(a.drop_first())
            + encode_utf8(b)));
    }
}

pub proof fn lemma_utf8_len_concat(a: Seq<char>, b: Seq<char>)
    ensures
        utf8_len(a + b) == utf8_len(a) + utf8_len(b),
{
    lemma_encode_concat(a, b);
}

pub proof fn lemma_utf8_len_push(s: Seq<char>, c: char)
    ensures
        utf8_len(s.push(c)) == utf8_len(s) + char_width(c),
{
    lemma_encode_concat(s, seq![c]);
    assert(s + seq![c] =~= s.push(c));
    assert(seq![c].drop_first() =~= Seq::<char>::empty());
    assert(encode_utf8(seq![c]) =~= encode_scalar(c as u32) + encode_utf8(Seq::<char>::empty()));
}

pub proof fn lemma_utf8_len_empty()
    ensures
        utf8_len(Seq::<char>::empty()) == 0,
{
}

/// The byte length of a prefix grows strictly with the prefix.
pub proof fn lemma_utf8_len_take_strict(s: Seq<char>, i: int, j: int)
    requires
        0 <= i < j <= s.len(),
    ensures
        utf8_len(s.take(i)) < utf8_len(s.take(j)),
    decreases j - i,
{
    assert(s.take(j) =~= s.take(j - 1).push(s[j - 1]));
    lemma_utf8_len_push(s.take(j - 1), s[j - 1]);
    lemma_char_width_bounds(s[j - 1]);
    if i < j - 1 {
        lemma_utf8_len_take_strict(s, i, j - 1);
    }
}

pub proof fn lemma_utf8_len_take_mono(s: Seq<char>, i: int, j: int)
    requires
        0 <= i <= j <= s.len(),
    ensures
        utf8_len(s.take(i)) <= utf8_len(s.take(j)),
{
    if i < j {
        lemma_utf8_len_take_strict(s, i, j);
    }
}

/// The byte width of a character, as `char::len_utf8` computes it.
pub fn char_utf8_width(c: char) -> (n: usize)
    ensures
        n == char_width(c),
{
    let v = c as u32;
    if v < 0x80 {
        1
    } else if v < 0x800 {
        2
    } else if v < 0x10000 {
        3
    } else {
        4
    }
}

// ─── Small string building blocks ───────────────────────────────────────────

/// Appends one character; `String::push` from std.
#[verifier::external_body]
pub(crate) fn push_char(s: &mut String, c: char)
    ensures
        final(s)@ == old(s)@.push(c),
{
    s.push(c);
}


/// The characters of a string, in order.
pub fn chars_of(s: &str) -> (v: Vec<char>)
    ensures
        v@ == s@,
{
    broadcast use vstd::string::group_string_axioms;

    let mut v: Vec<char> = Vec::new();
    for c in it: s.chars()
        invariant
            it.seq() == s@,
            v@ == it.seq().take(it.index() as int),
    {
        v.push(c);
        assert(v@ =~= it.seq().take(it.index() + 1));
    }
    assert(v@ =~= s@);
    v
}

/// The string made of the characters `v[from..to]`.
pub fn string_from_chars(v: &Vec<char>, from: usize, to: usize) -> (s: String)
    requires
        from <= to <= v.len(),
    ensures
        s@ == v@.subrange(from as int, to as int),
{
    let mut s = String::new();
    let mut i = from;
    while i < to
        invariant
            from <= i <= to <= v.len(),
            s@ == v@.subrange(from as int, i as int),
        decreases to - i,
    {
        push_char(&mut s, v[i]);
        assert(s@ =~= v@.subrange(from as int, i + 1));
        i = i + 1;
    }
    s
}

/// A copy of a string slice.
pub fn copy_str(t: &str) -> (s: String)
    ensures
        s@ == t@,
{
    let mut s = String::new();
    s.append(t);
    assert(s@ =~= t@);
    s
}

/// Equality of two string slices.
pub fn str_eq(a: &str, b: &str) -> (r: bool)
    ensures
        r == (a@ == b@),
{
    let va = chars_of(a);
    let vb = chars_of(b);
    if va.len() != vb.len() {
        return false;
    }
    let mut i: usize = 0;
    while i < va.len()
        invariant
            va@ == a@,
            vb@ == b@,
            va.len() == vb.len(),
            0 <= i <= va.len(),
            forall|k: int| 0 <= k < i ==> va@[k] == vb@[k],
        decreases va.len() - i,
    {
        if va[i] != vb[i] {
            return false;
        }
        i = i + 1;
    }
    assert(va@ =~= vb@);
    true
}

/// Whether `p` is a prefix of `s`.
pub fn starts_with(s: &str, p: &str) -> (r: bool)
    ensures
        r == (p@.len() <= s@.len() && s@.take(p@.len() as int) == p@),
{
    let vs = chars_of(s);
    let vp = chars_of(p);
    if vp.len() > vs.len() {
        return false;
    }
    let mut i: usize = 0;
    while i < vp.len()
        invariant
            vs@ == s@,
            vp@ == p@,
            vp.len() <= vs.len(),
            0 <= i <= vp.len(),
            forall|k: int| 0 <= k < i ==> vs@[k] == vp@[k],
        decreases vp.len() - i,
    {
        if vs[i] != vp[i] {
            assert(s@.take(p@.len() as int)[i as int] != p@[i as int]);
            return false;
        }
        i = i + 1;
    }
    assert(s@.take(p@.len() as int) =~= p@);
    true
}

// ─── Joining ────────────────────────────────────────────────────────────────

/// The views of a sequence of strings.
pub open spec fn string_views(v: Seq<String>) -> Seq<Seq<char>> {
    v.map_values(|s: String| s@)
}

/// The parts joined with `sep` between consecutive parts (`[String]::join`).
pub open spec fn join_parts(parts: Seq<Seq<char>>, sep: Seq<char>) -> Seq<char>
    decreases parts.len(),
{
    if parts.len() == 0 {
        Seq::<char>::empty()
    } else if parts.len() == 1 {
        parts[0]
    } else {
        join_parts(parts.drop_last(), sep) + sep + parts.last()
    }
}

/// Joins the strings with `sep` between consecutive ones.
pub fn join_strings(parts: &Vec<String>, sep: &str) -> (s: String)
    ensures
        s@ == join_parts(string_views(parts@), sep@),
{
    let ghost views = string_views(parts@);
    let mut s = String::new();
    let mut i: usize = 0;
    assert(views.take(0) =~= Seq::<Seq<char>>::empty());
    while i < parts.len()
        invariant
            views == string_views(parts@),
            0 <= i <= parts.len(),
            s@ == join_parts(views.take(i as int), sep@),
        decreases parts.len() - i,
    {
        assert(views.take(i + 1).drop_last() =~= views.take(i as int));
        if i > 0 {
            s.append(sep);
        } else {
            assert(s@ =~= Seq::<char>::empty());
        }
        s.append(parts[i].as_str());
        assert(views[i as int] == parts@[i as int]@);
        assert(s@ =~= join_parts(views.take(i + 1), sep@));
        i = i + 1;
    }
    assert(views.take(parts.len() as int) =~= views);
    s
}

// ─── Lexicographic order ────────────────────────────────────────────────────

/// `a` sorts strictly before `b`: the order of `String` comparison (UTF-8 byte order,
/// which is the order of code points).
pub open spec fn lex_lt(a: Seq<char>, b: Seq<char>) -> bool
    decreases a.len(),
{
    if a.len() == 0 {
        b.len() > 0
    } else if b.len() == 0 {
        false
    } else if a[0] == b[0] {
        lex_lt(a.drop_first(), b.drop_first())
    } else {
        (a[0] as u32) < (b[0] as u32)
    }
}

pub proof fn lemma_lex_lt_irreflexive(a: Seq<char>)
    ensures
        !lex_lt(a, a),
    decreases a.len(),
{
    if a.len() > 0 {
        lemma_lex_lt_irreflexive(a.drop_first());
    }
}

pub proof fn lemma_lex_lt_total(a: Seq<char>, b: Seq<char>)
    ensures
        lex_lt(a, b) || lex_lt(b, a) || a == b,
    decreases a.len(),
{
    broadcast use vstd::utf8::char_u32_cast;

    if a.len() > 0 && b.len() > 0 {
        lemma_lex_lt_total(a.drop_first(), b.drop_first());
        if a[0] == b[0] && a.drop_first() == b.drop_first() {
            assert(a =~= seq![a[0]] + a.drop_first());
            assert(b =~= seq![b[0]] + b.drop_first());
        }
        if a[0] != b[0] {
            let x = a[0] as u32;
            let y = b[0] as u32;
            vstd::utf8::char_u32_cast(a[0], x);
            vstd::utf8::char_u32_cast(b[0], y);
            assert(x != y);
        }
    } else if a.len() == 0 && b.len() == 0 {
        assert(a =~= b);
    }
}

pub proof fn lemma_lex_lt_asymmetric(a: Seq<char>, b: Seq<char>)
    ensures
        lex_lt(a, b) ==> !lex_lt(b, a),
    decreases a.len(),
{
    if a.len() > 0 && b.len() > 0 {
        lemma_lex_lt_asymmetric(a.drop_first(), b.drop_first());
    }
}

pub proof fn lemma_lex_lt_transitive(a: Seq<char>, b: Seq<char>, c: Seq<char>)
    requires
        lex_lt(a, b),
        lex_lt(b, c),
    ensures
        lex_lt(a, c),
    decreases a.len(),
{
    if a.len() > 0 && b.len() > 0 && c.len() > 0 {
        if a[0] == b[0] && b[0] == c[0] {
            lemma_lex_lt_transitive(a.drop_first(), b.drop_first(), c.drop_first());
        }
    }
}

/// Whether `a` sorts strictly before `b`.
pub fn str_lt(a: &str, b: &str) -> (r: bool)
    ensures
        r == lex_lt(a@, b@),
{
    let va = chars_of(a);
    let vb = chars_of(b);
    let mut i: usize = 0;
    assert(a@.skip(0) =~= a@);
    assert(b@.skip(0) =~= b@);
    while i < va.len() && i < vb.len()
        invariant
            va@ == a@,
            vb@ == b@,
            0 <= i <= va.len(),
            i <= vb.len(),
            lex_lt(a@, b@) == lex_lt(a@.skip(i as int), b@.skip(i as int)),
        decreases va.len() - i,
    {
        let x = va[i];
        let y = vb[i];
        assert(a@.skip(i as int)[0] == x);
        assert(b@.skip(i as int)[0] == y);
        if x != y {
            return (x as u32) < (y as u32);
        }
        assert(a@.skip(i as int).drop_first() =~= a@.skip(i + 1));
        assert(b@.skip(i as int).drop_first() =~= b@.skip(i + 1));
        i = i + 1;
    }
    i < vb.len()
}

// ─── Truncation ─────────────────────────────────────────────────────────────

/// The number of characters of the longest prefix of `s` that takes at most `k` bytes.
pub open spec fn chars_within(s: Seq<char>, k: int) -> nat
    decreases s.len(),
{
    if s.len() == 0 || utf8_len(s) <= k {
        s.len()
    } else {
        chars_within(s.drop_last(), k)
    }
}

/// `s` itself when it fits in `max_len` bytes; otherwise the longest prefix of `s` that
/// ends on a character boundary within `max_len - 3` bytes, followed by `...`. When
/// `max_len` is below 3 there is no room for `...`: the longest prefix within `max_len`
/// bytes.
pub open spec fn truncated(s: Seq<char>, max_len: nat) -> Seq<char> {
    if utf8_len(s) <= max_len {
        s
    } else if max_len >= 3 {
        s.take(chars_within(s, max_len - 3) as int) + "..."@
    } else {
        s.take(chars_within(s, max_len as int) as int)
    }
}

/// The longest prefix within `k` bytes fits, and one more character would not.
pub proof fn lemma_chars_within(s: Seq<char>, k: int)
    requires
        k >= 0,
    ensures
        chars_within(s, k) <= s.len(),
        utf8_len(s.take(chars_within(s, k) as int)) <= k,
        chars_within(s, k) < s.len() ==> utf8_len(s.take(chars_within(s, k) as int + 1)) > k,
    decreases s.len(),
{
    if s.len() == 0 {
        assert(s.take(0) =~= s);
    } else if utf8_len(s) <= k {
        assert(s.take(s.len() as int) =~= s);
    } else {
        let t = s.drop_last();
        lemma_chars_within(t, k);
        let j = chars_within(t, k) as int;
        assert(s.take(j) =~= t.take(j));
        if j < t.len() {
            assert(s.take(j + 1) =~= t.take(j + 1));
        } else {
            assert(s.take(j + 1) =~= s);
        }
    }
}

/// A prefix of `j` characters that fits in `k` bytes, where one more would not, is the
/// longest one.
proof fn lemma_chars_within_unique(s: Seq<char>, k: int, j: int)
    requires
        k >= 0,
        0 <= j <= s.len(),
        utf8_len(s.take(j)) <= k,
        j < s.len() ==> utf8_len(s.take(j + 1)) > k,
    ensures
        chars_within(s, k) == j,
{
    lemma_chars_within(s, k);
    let c = chars_within(s, k) as int;
    if c < j {
        lemma_utf8_len_take_mono(s, c + 1, j);
    } else if j < c {
        lemma_utf8_len_take_mono(s, j + 1, c);
    }
}

/// Whether the characters `v` take at most `max` bytes in UTF-8.
pub fn fits_bytes(v: &Vec<char>, max: usize) -> (r: bool)
    ensures
        r == (utf8_len(v@) <= max),
{
    let mut bytes: usize = 0;
    let mut j: usize = 0;
    proof {
        assert(v@.take(0) =~= Seq::<char>::empty());
        lemma_utf8_len_empty();
    }
    while j < v.len()
        invariant
            0 <= j <= v.len(),
            bytes == utf8_len(v@.take(j as int)),
            bytes <= max,
        decreases v.len() - j,
    {
        let w = char_utf8_width(v[j]);
        proof {
            assert(v@.take(j + 1) =~= v@.take(j as int).push(v@[j as int]));
            lemma_utf8_len_push(v@.take(j as int), v@[j as int]);
        }
        if w > max - bytes {
            proof {
                assert(v@.take(v@.len() as int) =~= v@);
                lemma_utf8_len_take_mono(v@, j + 1, v@.len() as int);
            }
            return false;
        }
        bytes = bytes + w;
        j = j + 1;
    }
    assert(v@.take(j as int) =~= v@);
    true
}

/// `s` cut to at most `max_len` bytes: unchanged when it fits, else the longest prefix
/// that ends on a character boundary within `max_len - 3` bytes, followed by `...`, or,
/// when `max_len` is below 3, the longest such prefix within `max_len` bytes.
pub fn truncate(s: &str, max_len: usize) -> (r: String)
    ensures
        r@ == truncated(s@, max_len as nat),
        utf8_len(r@) <= max_len,
{
    let v = chars_of(s);
    if fits_bytes(&v, max_len) {
        return copy_str(s);
    }
    let k = if max_len >= 3 {
        max_len - 3
    } else {
        max_len
    };
    let mut bytes: usize = 0;
    let mut j: usize = 0;
    proof {
        assert(s@.take(0) =~= Seq::<char>::empty());
        lemma_utf8_len_empty();
    }
    loop
        invariant
            v@ == s@,
            0 <= j <= v.len(),
            bytes == utf8_len(s@.take(j as int)),
            bytes <= k,
        ensures
            0 <= j <= v.len(),
            bytes == utf8_len(s@.take(j as int)),
            bytes <= k,
            j < v.len() ==> utf8_len(s@.take(j + 1)) > k,
        decreases v.len() - j,
    {
        if j >= v.len() {
            break;
        }
        let w = char_utf8_width(v[j]);
        proof {
            assert(s@.take(j + 1) =~= s@.take(j as int).push(v@[j as int]));
            lemma_utf8_len_push(s@.take(j as int), v@[j as int]);
        }
        if w > k - bytes {
            break;
        }
        bytes = bytes + w;
        j = j + 1;
    }
    proof {
        lemma_chars_within_unique(s@, k as int, j as int);
        lemma_truncated_fits(s@, max_len as nat);
    }
    let mut r = string_from_chars(&v, 0, j);
    if max_len < 3 {
        proof {
            assert(v@.subrange(0, j as int) =~= s@.take(j as int));
        }
        return r;
    }
    push_char(&mut r, '.');
    push_char(&mut r, '.');
    push_char(&mut r, '.');
    proof {
        reveal_strlit("...");
        assert(v@.subrange(0, j as int) =~= s@.take(j as int));
        assert(r@ =~= s@.take(j as int) + "..."@);
    }
    r
}

// ─── Numbers ────────────────────────────────────────────────────────────────

/// The decimal digit character for `d < 10`.
pub open spec fn digit_char(d: nat) -> char {
    (('0' as u32) + d) as char
}

/// The decimal representation of `n`, without leading zeros.
pub open spec fn decimal_digits(n: nat) -> Seq<char>
    decreases n,
{
    if n < 10 {
        seq![digit_char(n)]
    } else {
        decimal_digits(n / 10).push(digit_char(n % 10))
    }
}

/// `d` with a comma before every group of three characters counted from the right.
pub open spec fn group_thousands(d: Seq<char>) -> Seq<char>
    decreases d.len(),
{
    if d.len() <= 3 {
        d
    } else {
        group_thousands(d.take(d.len() - 3)) + seq![','] + d.skip(d.len() - 3)
    }
}

/// `n` in decimal with comma thousands separators, e.g. `1,234,567`.
pub open spec fn formatted_number(n: nat) -> Seq<char> {
    group_thousands(decimal_digits(n))
}

/// The number that a string of decimal digit characters denotes.
pub open spec fn digits_value(s: Seq<char>) -> int
    decreases s.len(),
{
    if s.len() == 0 {
        0
    } else {
        digits_value(s.drop_last()) * 10 + (s.last() as int - '0' as int)
    }
}

/// The decimal digits of `n` are digit characters that denote `n`.
pub proof fn lemma_decimal_digits_value(n: nat)
    ensures
        decimal_digits(n).len() >= 1,
        forall|i: int| 0 <= i < decimal_digits(n).len() ==> '0' <= #[trigger] decimal_digits(n)[i] <= '9',
        digits_value(decimal_digits(n)) == n,
    decreases n,
{
    let d = decimal_digits(n);
    lemma_digit_char_value((n % 10) as nat);
    if n < 10 {
        assert(d.drop_last() =~= Seq::<char>::empty());
        assert(n % 10 == n);
        assert(digits_value(Seq::<char>::empty()) == 0);
        assert(d.last() == digit_char(n));
        assert(digits_value(d) == digits_value(d.drop_last()) * 10 + (d.last() as int - '0' as int));
    } else {
        assert(n == (n / 10) * 10 + n % 10) by (nonlinear_arith)
            requires
                n >= 0,
        ;
        lemma_decimal_digits_value(n / 10);
        assert(d.drop_last() =~= decimal_digits(n / 10));
        assert(d.last() == digit_char(n % 10));
        assert(digits_value(d) == digits_value(d.drop_last()) * 10 + (d.last() as int - '0' as int));
        assert forall|i: int| 0 <= i < d.len() implies '0' <= #[trigger] d[i] <= '9' by {
            if i < d.len() - 1 {
                assert(d[i] == decimal_digits(n / 10)[i]);
            }
        }
    }
}

/// Thousands grouping reads back: a number below 1000 is its plain digits, and a larger
/// one is the grouped number of its thousands, a comma, and its last three digits.
pub proof fn lemma_formatted_number_groups(n: nat)
    ensures
        n < 1000 ==> formatted_number(n) == decimal_digits(n),
        n >= 1000 ==> formatted_number(n) == formatted_number(n / 1000) + seq![','] + seq![
            digit_char((n / 100) % 10),
            digit_char((n / 10) % 10),
            digit_char(n % 10),
        ],
{
    if n < 1000 {
        lemma_decimal_digits_len_small(n);
    } else {
        assert(n / 10 / 10 == n / 100) by (nonlinear_arith)
            requires
                n >= 0,
        ;
        assert(n / 100 / 10 == n / 1000) by (nonlinear_arith)
            requires
                n >= 0,
        ;
        let a = decimal_digits(n / 1000);
        lemma_decimal_digits_value(n / 1000);
        let d = decimal_digits(n);
        assert(decimal_digits(n / 100) == a.push(digit_char((n / 100) % 10)));
        assert(decimal_digits(n / 10) == decimal_digits(n / 100).push(digit_char((n / 10) % 10)));
        assert(d == decimal_digits(n / 10).push(digit_char(n % 10)));
        let three = seq![digit_char((n / 100) % 10), digit_char((n / 10) % 10), digit_char(n % 10)];
        assert(d =~= a + three);
        assert(d.take(d.len() - 3) =~= a);
        assert(d.skip(d.len() - 3) =~= three);
    }
}

/// A digit character denotes its digit.
proof fn lemma_digit_char_value(k: nat)
    requires
        k < 10,
    ensures
        digit_char(k) as int - '0' as int == k,
        '0' <= digit_char(k) <= '9',
{
    assert(('0' as u32) == 48);
}

/// A number below 1000 has at most three digits.
proof fn lemma_decimal_digits_len_small(n: nat)
    requires
        n < 1000,
    ensures
        decimal_digits(n).len() <= 3,
{
    if n >= 10 {
        assert(n / 10 < 100);
        if n >= 100 {
            assert(n / 10 / 10 == n / 100) by (nonlinear_arith)
                requires
                    n >= 0,
            ;
            assert(n / 10 >= 10);
            assert(n / 100 < 10);
            assert(decimal_digits(n / 100).len() == 1);
            assert(decimal_digits(n / 10).len() == 2);
        } else {
            assert(n / 10 < 10);
            assert(decimal_digits(n / 10).len() == 1);
        }
    }
}

fn digit(d: u64) -> (c: char)
    requires
        d < 10,
    ensures
        c == digit_char(d as nat),
{
    if d == 0 {
        '0'
    } else if d == 1 {
        '1'
    } else if d == 2 {
        '2'
    } else if d == 3 {
        '3'
    } else if d == 4 {
        '4'
    } else if d == 5 {
        '5'
    } else if d == 6 {
        '6'
    } else if d == 7 {
        '7'
    } else if d == 8 {
        '8'
    } else {
        '9'
    }
}

fn decimal_digit_vec(n: u64) -> (v: Vec<char>)
    ensures
        v@ == decimal_digits(n as nat),
    decreases n,
{
    if n < 10 {
        let mut v = Vec::new();
        v.push(digit(n));
        assert(v@ =~= seq![digit_char(n as nat)]);
        v
    } else {
        let mut v = decimal_digit_vec(n / 10);
        v.push(digit(n % 10));
        v
    }
}

/// The decimal representation of `n` (what `n.to_string()` gives).
pub fn u64_to_string(n: u64) -> (s: String)
    ensures
        s@ == decimal_digits(n as nat),
{
    let v = decimal_digit_vec(n);
    let s = string_from_chars(&v, 0, v.len());
    assert(v@.subrange(0, v@.len() as int) =~= v@);
    s
}

fn group_prefix(d: &Vec<char>, end: usize) -> (s: String)
    requires
        end <= d.len(),
    ensures
        s@ == group_thousands(d@.take(end as int)),
    decreases end,
{
    if end <= 3 {
        let s = string_from_chars(d, 0, end);
        assert(d@.subrange(0, end as int) =~= d@.take(end as int));
        s
    } else {
        let mut s = group_prefix(d, end - 3);
        push_char(&mut s, ',');
        push_char(&mut s, d[end - 3]);
        push_char(&mut s, d[end - 2]);
        push_char(&mut s, d[end - 1]);
        let ghost t = d@.take(end as int);
        assert(t.take(t.len() - 3) =~= d@.take(end - 3));
        assert(s@ =~= group_thousands(t.take(t.len() - 3)) + seq![','] + t.skip(t.len() - 3));
        s
    }
}

/// Formats a number with comma separators, e.g. `1234567` as `1,234,567`.
pub fn format_number(n: u64) -> (s: String)
    ensures
        s@ == formatted_number(n as nat),
{
    let d = decimal_digit_vec(n);
    let s = group_prefix(&d, d.len());
    assert(d@.take(d@.len() as int) =~= d@);
    s
}

// ─── Lines and whitespace ───────────────────────────────────────────────────

/// Whether a character has the Unicode `White_Space` property, the test of
/// `char::is_whitespace`: tab, line feed, vertical tab, form feed, carriage return, space,
/// next line, no-break space, Ogham space mark, the spaces U+2000 to U+200A, line and
/// paragraph separators, narrow no-break space, medium mathematical space and
/// ideographic space.
pub open spec fn is_white_space(c: char) -> bool {
    let u = c as u32;
    ||| 0x09 <= u <= 0x0D
    ||| u == 0x20
    ||| u == 0x85
    ||| u == 0xA0
    ||| u == 0x1680
    ||| 0x2000 <= u <= 0x200A
    ||| u == 0x2028
    ||| u == 0x2029
    ||| u == 0x202F
    ||| u == 0x205F
    ||| u == 0x3000
}

/// Whether a character is Unicode white space (see `is_white_space`).
pub fn char_is_whitespace(c: char) -> (b: bool)
    ensures
        b == is_white_space(c),
{
    let u = c as u32;
    (0x09 <= u && u <= 0x0D) || u == 0x20 || u == 0x85 || u == 0xA0 || u == 0x1680 || (0x2000
        <= u && u <= 0x200A) || u == 0x2028 || u == 0x2029 || u == 0x202F || u == 0x205F || u
        == 0x3000
}

/// Number of leading white-space characters of `s`.
pub open spec fn leading_ws(s: Seq<char>) -> nat
    decreases s.len(),
{
    if s.len() > 0 && is_white_space(s[0]) {
        1 + leading_ws(s.drop_first())
    } else {
        0
    }
}

/// Number of trailing white-space characters of `s`.
pub open spec fn trailing_ws(s: Seq<char>) -> nat
    decreases s.len(),
{
    if s.len() > 0 && is_white_space(s.last()) {
        1 + trailing_ws(s.drop_last())
    } else {
        0
    }
}

/// `s` without leading and trailing white space (`str::trim`).
pub open spec fn trimmed(s: Seq<char>) -> Seq<char> {
    let a = leading_ws(s) as int;
    let t = s.skip(a);
    t.take(t.len() - trailing_ws(t))
}

proof fn lemma_leading_ws_shape(s: Seq<char>)
    ensures
        leading_ws(s) <= s.len(),
        forall|i: int| 0 <= i < leading_ws(s) ==> is_white_space(#[trigger] s[i]),
        leading_ws(s) < s.len() ==> !is_white_space(s[leading_ws(s) as int]),
    decreases s.len(),
{
    if s.len() > 0 && is_white_space(s[0]) {
        let t = s.drop_first();
        lemma_leading_ws_shape(t);
        assert forall|i: int| 0 <= i < leading_ws(s) implies is_white_space(#[trigger] s[i]) by {
            if i > 0 {
                assert(s[i] == t[i - 1]);
            }
        }
        if leading_ws(s) < s.len() {
            assert(s[leading_ws(s) as int] == t[leading_ws(t) as int]);
        }
    }
}

proof fn lemma_trailing_ws_shape(s: Seq<char>)
    ensures
        trailing_ws(s) <= s.len(),
        forall|i: int| s.len() - trailing_ws(s) <= i < s.len() ==> is_white_space(#[trigger] s[i]),
        trailing_ws(s) < s.len() ==> !is_white_space(s[s.len() - 1 - trailing_ws(s)]),
    decreases s.len(),
{
    if s.len() > 0 && is_white_space(s.last()) {
        let t = s.drop_last();
        lemma_trailing_ws_shape(t);
        assert forall|i: int| s.len() - trailing_ws(s) <= i < s.len() implies is_white_space(
            #[trigger] s[i],
        ) by {
            if i < s.len() - 1 {
                assert(s[i] == t[i]);
            }
        }
        if trailing_ws(s) < s.len() {
            assert(s[s.len() - 1 - trailing_ws(s)] == t[t.len() - 1 - trailing_ws(t)]);
        }
    }
}

/// Trimming removes white space at both ends and nothing else: the result is the piece of
/// `s` from `a` on, every character before it and after it is white space, and the
/// result neither starts nor ends with white space.
pub proof fn lemma_trimmed_cut(s: Seq<char>) -> (a: int)
    ensures
        0 <= a && a + trimmed(s).len() <= s.len(),
        s.subrange(a, a + trimmed(s).len()) == trimmed(s),
        forall|i: int| 0 <= i < a ==> is_white_space(#[trigger] s[i]),
        forall|i: int| a + trimmed(s).len() <= i < s.len() ==> is_white_space(#[trigger] s[i]),
        trimmed(s).len() > 0 ==> !is_white_space(trimmed(s)[0]) && !is_white_space(
            trimmed(s)[trimmed(s).len() - 1],
        ),
{
    lemma_leading_ws_shape(s);
    let a = leading_ws(s) as int;
    let t = s.skip(a);
    lemma_trailing_ws_shape(t);
    let r = trimmed(s);
    assert(r =~= s.subrange(a, a + r.len()));
    assert forall|i: int| a + r.len() <= i < s.len() implies is_white_space(#[trigger] s[i]) by {
        assert(s[i] == t[i - a]);
    }
    if r.len() > 0 {
        assert(r[0] == s[a]);
        assert(r[r.len() - 1] == t[t.len() - 1 - trailing_ws(t)]);
    }
    a
}

proof fn lemma_leading_ws_bound(s: Seq<char>)
    ensures
        leading_ws(s) <= s.len(),
    decreases s.len(),
{
    if s.len() > 0 && is_white_space(s[0]) {
        lemma_leading_ws_bound(s.drop_first());
    }
}

proof fn lemma_trailing_ws_bound(s: Seq<char>)
    ensures
        trailing_ws(s) <= s.len(),
    decreases s.len(),
{
    if s.len() > 0 && is_white_space(s.last()) {
        lemma_trailing_ws_bound(s.drop_last());
    }
}

fn count_leading_ws(v: &Vec<char>, from: usize, to: usize) -> (n: usize)
    requires
        from <= to <= v.len(),
    ensures
        n == leading_ws(v@.subrange(from as int, to as int)),
        from + n <= to,
    decreases to - from,
{
    if from < to && char_is_whitespace(v[from]) {
        assert(v@.subrange(from as int, to as int).drop_first() =~= v@.subrange(
            from + 1,
            to as int,
        ));
        1 + count_leading_ws(v, from + 1, to)
    } else {
        0
    }
}

fn count_trailing_ws(v: &Vec<char>, from: usize, to: usize) -> (n: usize)
    requires
        from <= to <= v.len(),
    ensures
        n == trailing_ws(v@.subrange(from as int, to as int)),
        from + n <= to,
    decreases to - from,
{
    if from < to && char_is_whitespace(v[to - 1]) {
        assert(v@.subrange(from as int, to as int).drop_last() =~= v@.subrange(
            from as int,
            to - 1,
        ));
        1 + count_trailing_ws(v, from, to - 1)
    } else {
        0
    }
}

/// The characters `v[from..to]` without leading and trailing white space.
pub fn trim_chars(v: &Vec<char>, from: usize, to: usize) -> (s: String)
    requires
        from <= to <= v.len(),
    ensures
        s@ == trimmed(v@.subrange(from as int, to as int)),
{
    let ghost whole = v@.subrange(from as int, to as int);
    let a = count_leading_ws(v, from, to);
    let ghost t = whole.skip(a as int);
    assert(t =~= v@.subrange(from + a, to as int));
    let b = count_trailing_ws(v, from + a, to);
    let s = string_from_chars(v, from + a, to - b);
    assert(s@ =~= t.take(t.len() - b));
    s
}

/// The first line of `s`, as `s.lines().next().unwrap_or(s)` gives it: the text before
/// the first `\n` (without a `\r` right before it), or all of `s` when it has no `\n`.
pub open spec fn first_line(s: Seq<char>) -> Seq<char> {
    if exists|i: int| 0 <= i < s.len() && s[i] == '\n' {
        let i = choose|i: int|
            0 <= i < s.len() && s[i] == '\n' && forall|k: int| 0 <= k < i ==> s[k] != '\n';
        if i > 0 && s[i - 1] == '\r' {
            s.take(i - 1)
        } else {
            s.take(i)
        }
    } else {
        s
    }
}

/// The first line of `s` (see `first_line`).
pub fn first_line_of(s: &str) -> (r: String)
    ensures
        r@ == first_line(s@),
{
    let v = chars_of(s);
    let mut i: usize = 0;
    while i < v.len()
        invariant
            v@ == s@,
            0 <= i <= v.len(),
            forall|k: int| 0 <= k < i ==> v@[k] != '\n',
        decreases v.len() - i,
    {
        if v[i] == '\n' {
            proof {
                let c = choose|c: int|
                    0 <= c < s@.len() && s@[c] == '\n' && forall|k: int|
                        0 <= k < c ==> s@[k] != '\n';
                assert(c == i) by {
                    if c < i {
                        assert(v@[c] != '\n');
                    } else if c > i {
                        assert(s@[i as int] != '\n');
                    }
                }
            }
            if i > 0 && v[i - 1] == '\r' {
                let r = string_from_chars(&v, 0, i - 1);
                assert(r@ =~= s@.take(i - 1));
                return r;
            } else {
                let r = string_from_chars(&v, 0, i);
                assert(r@ =~= s@.take(i as int));
                return r;
            }
        }
        i = i + 1;
    }
    let r = string_from_chars(&v, 0, v.len());
    assert(r@ =~= s@);
    r
}

/// A truncated string fits: cutting to `max_len` bytes gives at most `max_len` bytes, and
/// a string that fits is left as it is.
pub proof fn lemma_truncated_fits(s: Seq<char>, max_len: nat)
    ensures
        utf8_len(truncated(s, max_len)) <= max_len,
        utf8_len(s) <= max_len ==> truncated(s, max_len) == s,
{
    if utf8_len(s) > max_len {
        if max_len >= 3 {
            let k = max_len - 3;
            lemma_chars_within(s, k);
            let j = chars_within(s, k) as int;
            lemma_utf8_len_concat(s.take(j), "..."@);
            reveal_strlit("...");
            assert("..."@ =~= seq!['.', '.', '.']);
            lemma_utf8_len_push(Seq::<char>::empty(), '.');
            assert(seq!['.'] =~= Seq::<char>::empty().push('.'));
            lemma_utf8_len_push(seq!['.'], '.');
            assert(seq!['.', '.'] =~= seq!['.'].push('.'));
            lemma_utf8_len_push(seq!['.', '.'], '.');
            assert(seq!['.', '.', '.'] =~= seq!['.', '.'].push('.'));
            lemma_utf8_len_empty();
            assert(char_width('.') == 1) by {
                assert(('.' as u32) < 0x80);
            }
        } else {
            lemma_chars_within(s, max_len as int);
        }
    }
}


/// A string that does not fit is cut on a character boundary: when there is room for
/// `...`, the result is the longest prefix of `s` that fits in `max_len - 3` bytes followed
/// by `...`; otherwise it is the longest prefix of `s` that fits in `max_len` bytes.
pub proof fn lemma_truncated_cut(s: Seq<char>, max_len: nat)
    requires
        utf8_len(s) > max_len,
    ensures
        max_len >= 3 ==> {
            let t = truncated(s, max_len);
            let k = t.len() - 3;
            &&& 3 <= t.len()
            &&& k < s.len()
            &&& t == s.take(k) + "..."@
            &&& utf8_len(s.take(k)) <= max_len - 3
            &&& utf8_len(s.take(k + 1)) > max_len - 3
        },
        max_len < 3 ==> {
            let t = truncated(s, max_len);
            &&& t.len() < s.len()
            &&& t == s.take(t.len() as int)
            &&& utf8_len(t) <= max_len
            &&& utf8_len(s.take(t.len() as int + 1)) > max_len
        },
{
    reveal_strlit("...");
    if max_len >= 3 {
        let m = max_len - 3;
        lemma_chars_within(s, m);
        let j = chars_within(s, m) as int;
        if j == s.len() {
            assert(s.take(j) =~= s);
        }
        let t = truncated(s, max_len);
        assert(t.len() == j + 3);
    } else {
        lemma_chars_within(s, max_len as int);
        let j = chars_within(s, max_len as int) as int;
        if j == s.len() {
            assert(s.take(j) =~= s);
        }
    }
}

/// The first line is a prefix of `s` without a line break: all of `s` when it has no
/// `\n`; otherwise it stops at the first `\n`, or at a `\r` right before it.
pub proof fn lemma_first_line_cut(s: Seq<char>)
    ensures
        ({
            let l = first_line(s);
            &&& l.len() <= s.len()
            &&& l == s.take(l.len() as int)
            &&& forall|k: int| 0 <= k < l.len() ==> l[k] != '\n'
            &&& (forall|i: int| 0 <= i < s.len() ==> s[i] != '\n') ==> l == s
            &&& (exists|i: int| 0 <= i < s.len() && s[i] == '\n') ==> {
                ||| s[l.len() as int] == '\n' && (l.len() == 0 || s[l.len() - 1] != '\r')
                ||| s[l.len() as int] == '\r' && l.len() + 1 < s.len() && s[l.len() as int + 1] == '\n'
            }
        }),
{
    if exists|i: int| 0 <= i < s.len() && s[i] == '\n' {
        let w = choose|i: int| 0 <= i < s.len() && s[i] == '\n';
        let i = choose|i: int|
            0 <= i < s.len() && s[i] == '\n' && forall|k: int| 0 <= k < i ==> s[k] != '\n';
        assert(exists|i: int|
            0 <= i < s.len() && s[i] == '\n' && forall|k: int| 0 <= k < i ==> s[k] != '\n') by {
            lemma_first_newline(s, w);
        }
    } else {
        assert(s.take(s.len() as int) =~= s);
    }
}

/// Some `\n` of `s` is the first one.
proof fn lemma_first_newline(s: Seq<char>, w: int)
    requires
        0 <= w < s.len(),
        s[w] == '\n',
    ensures
        exists|i: int| 0 <= i < s.len() && s[i] == '\n' && forall|k: int| 0 <= k < i ==> s[k] != '\n',
    decreases w,
{
    if exists|k: int| 0 <= k < w && s[k] == '\n' {
        let k = choose|k: int| 0 <= k < w && s[k] == '\n';
        lemma_first_newline(s, k);
    } else {
        assert(0 <= w < s.len() && s[w] == '\n' && forall|k: int| 0 <= k < w ==> s[k] != '\n');
    }
}

} // verus!

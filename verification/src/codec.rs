//! Canonical text encodings: the decimal rendering of axis magnitudes, the
//! room-coordinate label, and the lowercase hexadecimal form of identifiers.
//!
//! Both encodings are total, deterministic functions of their input; the
//! room label is additionally injective over the full coordinate domain,
//! which `lemma_room_label_injective` proves.

use vstd::prelude::*;

verus! {

/// Relies on `String::push` of std: appends exactly one character.
pub assume_specification[ String::push ](s: &mut String, ch: char)
    ensures
        final(s)@ == old(s)@.push(ch),
;

/// The canonical character for one decimal digit value.
pub open spec fn dec_digit(d: nat) -> char {
    if d == 0 {
        '0'
    } else if d == 1 {
        '1'
    } else if d == 2 {
        '2'
    } else if d == 3 {
        '3'
    } else if d == 4 {
        '4'
    } else if d == 5 {
        '5'
    } else if d == 6 {
        '6'
    } else if d == 7 {
        '7'
    } else if d == 8 {
        '8'
    } else {
        '9'
    }
}

/// The decimal rendering of `n`: most significant digit first, no leading
/// zeros, a single `'0'` for zero.
pub open spec fn dec_rep(n: nat) -> Seq<char>
    decreases n,
{
    if n < 10 {
        seq![dec_digit(n)]
    } else {
        dec_rep(n / 10).push(dec_digit(n % 10))
    }
}

/// The decimal magnitude one axis renders: the raw value for `v >= 0`, the
/// one's-complement-like offset `-(v + 1)` for `v < 0`, so that `-1` renders
/// with magnitude zero and no signed-zero ambiguity arises.
pub open spec fn mag_of(v: int) -> nat {
    if v < 0 {
        (-(v + 1)) as nat
    } else {
        v as nat
    }
}

/// One axis of a room label: a direction letter followed by the decimal
/// magnitude.
pub open spec fn axis_rep(v: int, pos: char, neg: char) -> Seq<char> {
    if v < 0 {
        seq![neg] + dec_rep(mag_of(v))
    } else {
        seq![pos] + dec_rep(mag_of(v))
    }
}

/// The canonical label of the room at `(x, y)`: the east/west axis followed
/// by the north/south axis.
pub open spec fn room_label(x: int, y: int) -> Seq<char> {
    axis_rep(x, 'E', 'W') + axis_rep(y, 'N', 'S')
}

/// The canonical character for one hexadecimal digit value: `'0'` to `'9'`,
/// then lowercase `'a'` to `'f'`.
pub open spec fn hex_digit(d: nat) -> char {
    if d < 10 {
        dec_digit(d)
    } else if d == 10 {
        'a'
    } else if d == 11 {
        'b'
    } else if d == 12 {
        'c'
    } else if d == 13 {
        'd'
    } else if d == 14 {
        'e'
    } else {
        'f'
    }
}

/// The lowercase hexadecimal rendering of a byte sequence: two characters
/// per byte, most significant nibble first, bytes in order.
pub open spec fn hex_rep(bytes: Seq<u8>) -> Seq<char>
    decreases bytes.len(),
{
    if bytes.len() == 0 {
        Seq::empty()
    } else {
        hex_rep(bytes.drop_last()) + seq![
            hex_digit((bytes.last() / 16) as nat),
            hex_digit((bytes.last() % 16) as nat),
        ]
    }
}

/// The executable form of `dec_digit`.
fn dec_digit_char(d: u16) -> (c: char)
    requires
        d < 10,
    ensures
        c == dec_digit(d as nat),
{
    if d == 0 {
        '0'
    } else if d == 1 {
        '1'
    } else if d == 2 {
        '2'
    } else if d == 3 {
        '3'
    } else if d == 4 {
        '4'
    } else if d == 5 {
        '5'
    } else if d == 6 {
        '6'
    } else if d == 7 {
        '7'
    } else if d == 8 {
        '8'
    } else {
        '9'
    }
}

/// The executable form of `hex_digit`.
fn hex_digit_char(d: u8) -> (c: char)
    requires
        d < 16,
    ensures
        c == hex_digit(d as nat),
{
    if d < 10 {
        dec_digit_char(d as u16)
    } else if d == 10 {
        'a'
    } else if d == 11 {
        'b'
    } else if d == 12 {
        'c'
    } else if d == 13 {
        'd'
    } else if d == 14 {
        'e'
    } else {
        'f'
    }
}

/// Appends the decimal rendering of `n` to `s`.
pub fn push_decimal(s: &mut String, n: u16)
    ensures
        final(s)@ == old(s)@ + dec_rep(n as nat),
    decreases n,
{
    if n < 10 {
        let c = dec_digit_char(n);
        s.push(c);
        proof {
            assert(old(s)@.push(c) =~= old(s)@ + seq![c]);
        }
    } else {
        push_decimal(s, n / 10);
        let c = dec_digit_char(n % 10);
        s.push(c);
        proof {
            assert((old(s)@ + dec_rep((n / 10) as nat)).push(c) =~= old(s)@ + dec_rep(
                (n / 10) as nat,
            ).push(c));
        }
    }
}

/// Appends the two hexadecimal characters of one byte to `s`, most
/// significant nibble first.
pub fn push_hex_byte(s: &mut String, b: u8)
    ensures
        final(s)@ == old(s)@ + seq![
            hex_digit((b / 16) as nat),
            hex_digit((b % 16) as nat),
        ],
{
    let hi = hex_digit_char(b / 16);
    let lo = hex_digit_char(b % 16);
    s.push(hi);
    s.push(lo);
    proof {
        assert(old(s)@.push(hi).push(lo) =~= old(s)@ + seq![hi, lo]);
    }
}

/// Appends one axis of a room label to `s`: the positive-direction letter
/// and the raw magnitude for `v >= 0`, the negative-direction letter and
/// the magnitude `-(v + 1)` for `v < 0`.
pub fn push_axis(s: &mut String, v: i16, pos: char, neg: char)
    ensures
        final(s)@ == old(s)@ + axis_rep(v as int, pos, neg),
{
    if v < 0 {
        s.push(neg);
        let mag: u16 = (-(v + 1)) as u16;
        push_decimal(s, mag);
        proof {
            assert(mag as nat == (-(v as int + 1)) as nat);
            assert(old(s)@.push(neg) + dec_rep(mag as nat) =~= old(s)@ + (seq![neg] + dec_rep(
                mag as nat,
            )));
        }
    } else {
        s.push(pos);
        let mag: u16 = v as u16;
        push_decimal(s, mag);
        proof {
            assert(old(s)@.push(pos) + dec_rep(mag as nat) =~= old(s)@ + (seq![pos] + dec_rep(
                mag as nat,
            )));
        }
    }
}

/// The canonical label of the room at `(x, y)`, as an owned string.
pub fn encode_room(x: i16, y: i16) -> (r: String)
    ensures
        r@ == room_label(x as int, y as int),
{
    let mut s = String::new();
    push_axis(&mut s, x, 'E', 'W');
    push_axis(&mut s, y, 'N', 'S');
    proof {
        assert(s@ =~= room_label(x as int, y as int));
    }
    s
}

/// The canonical text of a twelve-byte identifier: exactly 24 lowercase
/// hexadecimal characters, two per byte, most significant nibble first.
pub fn encode_id(bytes: &[u8; 12]) -> (r: String)
    ensures
        r@ == hex_rep(bytes@),
        r@.len() == 24,
{
    let mut s = String::new();
    let mut i: usize = 0;
    while i < 12
        invariant
            i <= 12,
            s@ == hex_rep(bytes@.take(i as int)),
            s@.len() == 2 * i,
        decreases 12 - i,
    {
        push_hex_byte(&mut s, bytes[i]);
        proof {
            let t = bytes@.take(i + 1 as int);
            assert(t.drop_last() =~= bytes@.take(i as int));
            assert(t.last() == bytes@[i as int]);
        }
        i = i + 1;
    }
    proof {
        assert(bytes@.take(12) =~= bytes@);
    }
    s
}

/// Whether `c` is one of the ten decimal digit characters.
pub open spec fn is_dec_digit_char(c: char) -> bool {
    c == '0' || c == '1' || c == '2' || c == '3' || c == '4' || c == '5' || c == '6' || c == '7'
        || c == '8' || c == '9'
}

/// A decimal rendering is never empty and consists of digit characters only.
proof fn lemma_dec_rep_digits(n: nat)
    ensures
        dec_rep(n).len() >= 1,
        n >= 10 ==> dec_rep(n).len() >= 2,
        forall|i: int| 0 <= i < dec_rep(n).len() ==> is_dec_digit_char(#[trigger] dec_rep(n)[i]),
    decreases n,
{
    if n >= 10 {
        lemma_dec_rep_digits(n / 10);
        assert(is_dec_digit_char(dec_digit(n % 10)));
    }
}

/// Distinct digit values have distinct digit characters.
proof fn lemma_dec_digit_injective(d1: nat, d2: nat)
    requires
        d1 < 10,
        d2 < 10,
        dec_digit(d1) == dec_digit(d2),
    ensures
        d1 == d2,
{
}

/// Distinct numbers have distinct decimal renderings.
proof fn lemma_dec_rep_injective(a: nat, b: nat)
    requires
        dec_rep(a) == dec_rep(b),
    ensures
        a == b,
    decreases a,
{
    lemma_dec_rep_digits(a / 10);
    lemma_dec_rep_digits(b / 10);
    if a < 10 && b < 10 {
        assert(dec_rep(a)[0] == dec_digit(a));
        assert(dec_rep(b)[0] == dec_digit(b));
        lemma_dec_digit_injective(a, b);
    } else if a < 10 {
        assert(dec_rep(b).len() >= 2);
    } else if b < 10 {
        assert(dec_rep(a).len() >= 2);
    } else {
        assert(dec_rep(a).last() == dec_digit(a % 10));
        assert(dec_rep(b).last() == dec_digit(b % 10));
        lemma_dec_digit_injective(a % 10, b % 10);
        assert(dec_rep(a).drop_last() =~= dec_rep(a / 10));
        assert(dec_rep(b).drop_last() =~= dec_rep(b / 10));
        lemma_dec_rep_injective(a / 10, b / 10);
        assert(a == 10 * (a / 10) + a % 10) by (nonlinear_arith);
        assert(b == 10 * (b / 10) + b % 10) by (nonlinear_arith);
    }
}

/// The shape of one rendered axis: at least two characters, the direction
/// letter first, digit characters after it.
proof fn lemma_axis_shape(v: int, pos: char, neg: char)
    ensures
        axis_rep(v, pos, neg).len() >= 2,
        axis_rep(v, pos, neg)[0] == (if v < 0 {
            neg
        } else {
            pos
        }),
        forall|i: int|
            1 <= i < axis_rep(v, pos, neg).len() ==> is_dec_digit_char(
                #[trigger] axis_rep(v, pos, neg)[i],
            ),
{
    if v < 0 {
        lemma_dec_rep_digits((-(v + 1)) as nat);
    } else {
        lemma_dec_rep_digits(v as nat);
    }
}

/// Distinct coordinates render one axis distinctly, as long as the two
/// direction letters differ.
proof fn lemma_axis_injective(v1: int, v2: int, pos: char, neg: char)
    requires
        pos != neg,
        axis_rep(v1, pos, neg) == axis_rep(v2, pos, neg),
    ensures
        v1 == v2,
{
    lemma_axis_shape(v1, pos, neg);
    lemma_axis_shape(v2, pos, neg);
    assert(axis_rep(v1, pos, neg)[0] == axis_rep(v2, pos, neg)[0]);
    if v1 < 0 {
        assert(axis_rep(v1, pos, neg).drop_first() =~= dec_rep((-(v1 + 1)) as nat));
        assert(axis_rep(v2, pos, neg).drop_first() =~= dec_rep((-(v2 + 1)) as nat));
        lemma_dec_rep_injective((-(v1 + 1)) as nat, (-(v2 + 1)) as nat);
    } else {
        assert(axis_rep(v1, pos, neg).drop_first() =~= dec_rep(v1 as nat));
        assert(axis_rep(v2, pos, neg).drop_first() =~= dec_rep(v2 as nat));
        lemma_dec_rep_injective(v1 as nat, v2 as nat);
    }
}

/// The numeric value of one decimal digit character; zero on any other
/// character, but every use guards with `is_dec_digit_char`.
pub open spec fn digit_val(c: char) -> nat {
    if c == '1' {
        1
    } else if c == '2' {
        2
    } else if c == '3' {
        3
    } else if c == '4' {
        4
    } else if c == '5' {
        5
    } else if c == '6' {
        6
    } else if c == '7' {
        7
    } else if c == '8' {
        8
    } else if c == '9' {
        9
    } else {
        0
    }
}

/// The number a digit-character sequence denotes, most significant first.
pub open spec fn dec_val(ds: Seq<char>) -> nat
    decreases ds.len(),
{
    if ds.len() == 0 {
        0
    } else {
        10 * dec_val(ds.drop_last()) + digit_val(ds.last())
    }
}

/// A digit run in canonical form: non-empty, digit characters only, and no
/// leading zero except for `"0"` itself — exactly the shape `dec_rep`
/// produces.
pub open spec fn is_canonical_dec(ds: Seq<char>) -> bool {
    ds.len() >= 1 && (forall|i: int| 0 <= i < ds.len() ==> is_dec_digit_char(#[trigger] ds[i])) && (
    ds.len() == 1 || ds[0] != '0')
}

/// Ten to the `k`-th power.
pub open spec fn pow10(k: nat) -> nat
    decreases k,
{
    if k == 0 {
        1
    } else {
        10 * pow10((k - 1) as nat)
    }
}

/// Reading a digit character back gives the digit value it was made of.
proof fn lemma_digit_val_of_dec_digit(d: nat)
    requires
        d < 10,
    ensures
        digit_val(dec_digit(d)) == d,
{
}

/// Rendering a digit value from a digit character gives the character back.
proof fn lemma_dec_digit_of_digit_val(c: char)
    requires
        is_dec_digit_char(c),
    ensures
        digit_val(c) < 10,
        dec_digit(digit_val(c)) == c,
{
}

/// A decimal rendering is canonical, and reading it back gives the number.
proof fn lemma_dec_rep_canonical(m: nat)
    ensures
        is_canonical_dec(dec_rep(m)),
        dec_val(dec_rep(m)) == m,
    decreases m,
{
    lemma_dec_rep_digits(m);
    if m < 10 {
        lemma_digit_val_of_dec_digit(m);
        assert(dec_rep(m).last() == dec_digit(m));
        assert(dec_rep(m).drop_last() =~= Seq::<char>::empty());
        assert(dec_val(Seq::<char>::empty()) == 0);
        assert(dec_val(dec_rep(m)) == 10 * dec_val(dec_rep(m).drop_last()) + digit_val(
            dec_rep(m).last(),
        ));
    } else {
        lemma_dec_rep_canonical(m / 10);
        lemma_dec_rep_digits(m / 10);
        lemma_digit_val_of_dec_digit(m % 10);
        assert(dec_rep(m).last() == dec_digit(m % 10));
        assert(dec_rep(m).drop_last() =~= dec_rep(m / 10));
        assert(dec_val(dec_rep(m)) == 10 * dec_val(dec_rep(m).drop_last()) + digit_val(
            dec_rep(m).last(),
        ));
        assert(m == 10 * (m / 10) + m % 10) by (nonlinear_arith);
        assert(dec_rep(m)[0] == dec_rep(m / 10)[0]);
        if m / 10 < 10 {
            assert(dec_rep(m / 10)[0] == dec_digit(m / 10));
            assert(m / 10 >= 1);
        }
    }
}

/// A canonical digit run is the decimal rendering of the number it denotes.
proof fn lemma_canonical_dec_rep(ds: Seq<char>)
    requires
        is_canonical_dec(ds),
    ensures
        dec_rep(dec_val(ds)) == ds,
    decreases ds.len(),
{
    if ds.len() == 1 {
        lemma_dec_digit_of_digit_val(ds[0]);
        assert(ds.last() == ds[0]);
        assert(ds.drop_last() =~= Seq::<char>::empty());
        assert(dec_val(Seq::<char>::empty()) == 0);
        assert(dec_val(ds) == 10 * dec_val(ds.drop_last()) + digit_val(ds.last()));
        assert(dec_val(ds) == digit_val(ds[0]));
        assert(dec_rep(dec_val(ds)) =~= ds);
    } else {
        let pre = ds.drop_last();
        assert(is_canonical_dec(pre));
        lemma_canonical_dec_rep(pre);
        lemma_dec_digit_of_digit_val(ds.last());
        assert(dec_val(pre) >= 1) by {
            if dec_val(pre) == 0 {
                assert(pre == dec_rep(0));
                assert(pre[0] == dec_digit(0));
            }
        }
        let v = dec_val(ds);
        assert(v == 10 * dec_val(pre) + digit_val(ds.last()));
        assert(v / 10 == dec_val(pre) && v % 10 == digit_val(ds.last())) by (nonlinear_arith)
            requires
                v == 10 * dec_val(pre) + digit_val(ds.last()),
                digit_val(ds.last()) < 10,
        ;
        assert(v >= 10);
        assert(dec_rep(v) == dec_rep(dec_val(pre)).push(dec_digit(digit_val(ds.last()))));
        assert(dec_rep(v) =~= ds);
    }
}

/// A digit run denotes less than ten to the power of its length.
proof fn lemma_dec_val_bound(ds: Seq<char>)
    requires
        forall|i: int| 0 <= i < ds.len() ==> is_dec_digit_char(#[trigger] ds[i]),
    ensures
        dec_val(ds) < pow10(ds.len()),
    decreases ds.len(),
{
    if ds.len() > 0 {
        lemma_dec_val_bound(ds.drop_last());
        lemma_dec_digit_of_digit_val(ds.last());
    }
}

/// The concrete powers of ten up to five digits.
proof fn lemma_pow10_upto5(k: nat)
    requires
        k <= 5,
    ensures
        pow10(k) <= 100000,
        pow10(5) == 100000,
{
    assert(pow10(0) == 1);
    assert(pow10(1) == 10);
    assert(pow10(2) == 100);
    assert(pow10(3) == 1000);
    assert(pow10(4) == 10000);
    assert(pow10(5) == 100000);
}

/// A number below ten to the `k`-th renders in at most `k` digits.
proof fn lemma_dec_rep_len_bound(m: nat, k: nat)
    requires
        k >= 1,
        m < pow10(k),
    ensures
        dec_rep(m).len() <= k,
    decreases k,
{
    if m >= 10 {
        assert(pow10(0) == 1);
        assert(pow10(1) == 10);
        assert(k >= 2);
        assert(pow10(k) == 10 * pow10((k - 1) as nat));
        assert(m / 10 < pow10((k - 1) as nat)) by (nonlinear_arith)
            requires
                m < 10 * pow10((k - 1) as nat),
        ;
        lemma_dec_rep_len_bound(m / 10, (k - 1) as nat);
    }
}

/// The executable form of `is_dec_digit_char`.
fn is_digit_char(c: char) -> (r: bool)
    ensures
        r == is_dec_digit_char(c),
{
    c == '0' || c == '1' || c == '2' || c == '3' || c == '4' || c == '5' || c == '6' || c == '7'
        || c == '8' || c == '9'
}

/// The executable form of `digit_val` on digit characters.
fn digit_val_char(c: char) -> (d: u32)
    requires
        is_dec_digit_char(c),
    ensures
        d == digit_val(c),
        d < 10,
{
    if c == '1' {
        1
    } else if c == '2' {
        2
    } else if c == '3' {
        3
    } else if c == '4' {
        4
    } else if c == '5' {
        5
    } else if c == '6' {
        6
    } else if c == '7' {
        7
    } else if c == '8' {
        8
    } else if c == '9' {
        9
    } else {
        0
    }
}

/// The end of the maximal digit run of `s` that starts at `from`.
fn scan_digits(s: &str, from: usize) -> (r: usize)
    requires
        from <= s@.len(),
    ensures
        from <= r <= s@.len(),
        forall|k: int| from <= k < r ==> is_dec_digit_char(#[trigger] s@[k]),
        r < s@.len() ==> !is_dec_digit_char(s@[r as int]),
{
    let n: usize = s.unicode_len();
    let mut i: usize = from;
    while i < n
        invariant
            from <= i <= n,
            n == s@.len(),
            forall|k: int| from <= k < i ==> is_dec_digit_char(#[trigger] s@[k]),
        decreases n - i,
    {
        if !is_digit_char(s.get_char(i)) {
            return i;
        }
        i = i + 1;
    }
    i
}

/// Parses the digit run `s[from..to)` as a canonical decimal magnitude of
/// at most 32767: exactly the values one room-label axis can render. Returns
/// `None` when the run is not `dec_rep` of any such magnitude — empty, a
/// leading zero, or too large.
fn parse_canonical_mag(s: &str, from: usize, to: usize) -> (r: Option<u16>)
    requires
        from <= to <= s@.len(),
        forall|k: int| from <= k < to ==> is_dec_digit_char(#[trigger] s@[k]),
    ensures
        match r {
            Some(m) => m <= 32767 && s@.subrange(from as int, to as int) == dec_rep(m as nat),
            None => forall|m: nat|
                m <= 32767 ==> s@.subrange(from as int, to as int) != dec_rep(m),
        },
{
    let ghost ds = s@.subrange(from as int, to as int);
    if to == from {
        proof {
            assert forall|m: nat| m <= 32767 implies ds != dec_rep(m) by {
                lemma_dec_rep_digits(m);
            }
        }
        return None;
    }
    if to - from >= 2 && s.get_char(from) == '0' {
        proof {
            assert forall|m: nat| m <= 32767 implies ds != dec_rep(m) by {
                lemma_dec_rep_canonical(m);
                if ds == dec_rep(m) {
                    assert(dec_rep(m)[0] == s@[from as int]);
                }
            }
        }
        return None;
    }
    if to - from > 5 {
        proof {
            assert forall|m: nat| m <= 32767 implies ds != dec_rep(m) by {
                lemma_pow10_upto5(5);
                lemma_dec_rep_len_bound(m, 5);
            }
        }
        return None;
    }
    let mut acc: u32 = 0;
    let mut j: usize = from;
    while j < to
        invariant
            from <= j <= to,
            to <= s@.len(),
            to - from <= 5,
            forall|k: int| from <= k < to ==> is_dec_digit_char(#[trigger] s@[k]),
            acc == dec_val(s@.subrange(from as int, j as int)),
            acc < 100000,
        decreases to - j,
    {
        let c = s.get_char(j);
        let d = digit_val_char(c);
        proof {
            let pre = s@.subrange(from as int, j as int);
            let cur = s@.subrange(from as int, j + 1 as int);
            assert(cur.drop_last() =~= pre);
            assert(cur.last() == s@[j as int]);
            assert(dec_val(cur) == 10 * dec_val(pre) + digit_val(s@[j as int]));
            lemma_dec_val_bound(cur);
            lemma_pow10_upto5(cur.len() as nat);
        }
        acc = acc * 10 + d;
        j = j + 1;
    }
    proof {
        assert(ds == s@.subrange(from as int, j as int));
    }
    if acc > 32767 {
        proof {
            assert forall|m: nat| m <= 32767 implies ds != dec_rep(m) by {
                lemma_dec_rep_canonical(m);
            }
        }
        return None;
    }
    proof {
        assert(is_canonical_dec(ds));
        lemma_canonical_dec_rep(ds);
    }
    Some(acc as u16)
}

/// How a room label decomposes around a maximal digit run that starts right
/// after its first character: the run is exactly the x-axis magnitude, the
/// character after it is the y-axis letter, and the rest is the y-axis
/// magnitude.
proof fn lemma_label_split(s: Seq<char>, x: int, y: int, i: int)
    requires
        s == room_label(x, y),
        1 <= i <= s.len(),
        forall|k: int| 1 <= k < i ==> is_dec_digit_char(#[trigger] s[k]),
        i == s.len() || !is_dec_digit_char(s[i]),
    ensures
        2 <= i < s.len(),
        s[0] == (if x < 0 {
            'W'
        } else {
            'E'
        }),
        s[i] == (if y < 0 {
            'S'
        } else {
            'N'
        }),
        s.subrange(1, i) == dec_rep(mag_of(x)),
        s.subrange(i + 1, s.len() as int) == dec_rep(mag_of(y)),
        forall|k: int| i + 1 <= k < s.len() ==> is_dec_digit_char(#[trigger] s[k]),
{
    let a = axis_rep(x, 'E', 'W');
    let b = axis_rep(y, 'N', 'S');
    lemma_axis_shape(x, 'E', 'W');
    lemma_axis_shape(y, 'N', 'S');
    if i < a.len() {
        assert(s[i] == a[i]);
        assert(is_dec_digit_char(a[i]));
        assert(false);
    }
    if i > a.len() {
        assert(s[a.len() as int] == b[0]);
        assert(is_dec_digit_char(s[a.len() as int]));
        assert(false);
    }
    assert(i == a.len());
    assert(a =~= seq![s[0]] + dec_rep(mag_of(x)));
    assert(b =~= seq![s[i]] + dec_rep(mag_of(y)));
    assert(s.subrange(1, i) =~= dec_rep(mag_of(x))) by {
        assert forall|t: int| 0 <= t < i - 1 implies s.subrange(1, i)[t] == dec_rep(mag_of(x))[t] by {
            assert(s[1 + t] == a[1 + t]);
        }
    }
    assert(s.subrange(i + 1, s.len() as int) =~= dec_rep(mag_of(y))) by {
        assert forall|t: int| 0 <= t < s.len() - i - 1 implies s.subrange(i + 1, s.len() as int)[t]
            == dec_rep(mag_of(y))[t] by {
            assert(s[i + 1 + t] == b[1 + t]);
        }
    }
    assert forall|k: int| i + 1 <= k < s.len() implies is_dec_digit_char(#[trigger] s[k]) by {
        assert(s[k] == b[k - i]);
    }
}

/// Whether `c` is one of the sixteen lowercase hexadecimal digit characters.
pub open spec fn is_hex_digit_char(c: char) -> bool {
    is_dec_digit_char(c) || c == 'a' || c == 'b' || c == 'c' || c == 'd' || c == 'e' || c == 'f'
}

/// The numeric value of one lowercase hexadecimal digit character; zero on
/// any other character, but every use guards with `is_hex_digit_char`.
pub open spec fn hex_val(c: char) -> nat {
    if c == 'a' {
        10
    } else if c == 'b' {
        11
    } else if c == 'c' {
        12
    } else if c == 'd' {
        13
    } else if c == 'e' {
        14
    } else if c == 'f' {
        15
    } else {
        digit_val(c)
    }
}

/// Rendering a nibble gives a hexadecimal character that reads back to it.
proof fn lemma_hex_digit_roundtrip(d: nat)
    requires
        d < 16,
    ensures
        is_hex_digit_char(hex_digit(d)),
        hex_val(hex_digit(d)) == d,
{
}

/// Reading a hexadecimal character back gives the nibble it renders.
proof fn lemma_hex_char_roundtrip(c: char)
    requires
        is_hex_digit_char(c),
    ensures
        hex_val(c) < 16,
        hex_digit(hex_val(c)) == c,
{
}

/// A hexadecimal rendering has two characters per byte.
proof fn lemma_hex_rep_len(bytes: Seq<u8>)
    ensures
        hex_rep(bytes).len() == 2 * bytes.len(),
    decreases bytes.len(),
{
    if bytes.len() > 0 {
        lemma_hex_rep_len(bytes.drop_last());
    }
}

/// The two characters of the `k`-th byte sit at positions `2k` and `2k + 1`.
proof fn lemma_hex_rep_index(bytes: Seq<u8>, k: int)
    requires
        0 <= k < bytes.len(),
    ensures
        hex_rep(bytes)[2 * k] == hex_digit((bytes[k] / 16) as nat),
        hex_rep(bytes)[2 * k + 1] == hex_digit((bytes[k] % 16) as nat),
    decreases bytes.len(),
{
    lemma_hex_rep_len(bytes.drop_last());
    if k == bytes.len() - 1 {
    } else {
        lemma_hex_rep_index(bytes.drop_last(), k);
        assert(bytes.drop_last()[k] == bytes[k]);
    }
}

/// The executable form of `is_hex_digit_char`.
fn is_hex_char(c: char) -> (r: bool)
    ensures
        r == is_hex_digit_char(c),
{
    is_digit_char(c) || c == 'a' || c == 'b' || c == 'c' || c == 'd' || c == 'e' || c == 'f'
}

/// The executable form of `hex_val` on hexadecimal characters.
fn hex_val_char(c: char) -> (d: u8)
    requires
        is_hex_digit_char(c),
    ensures
        d == hex_val(c),
        d < 16,
{
    if c == 'a' {
        10
    } else if c == 'b' {
        11
    } else if c == 'c' {
        12
    } else if c == 'd' {
        13
    } else if c == 'e' {
        14
    } else if c == 'f' {
        15
    } else {
        digit_val_char(c) as u8
    }
}

/// The inverse of `encode_id`: the unique twelve bytes whose canonical
/// hexadecimal text `s` is, or `None` exactly when `s` is no identifier's
/// text — a wrong length, an uppercase letter, or any non-hexadecimal
/// character. The grouping is strict: two characters per byte.
pub fn decode_id(s: &str) -> (r: Option<[u8; 12]>)
    ensures
        match r {
            Some(b) => s@ == hex_rep(b@),
            None => forall|b: Seq<u8>| b.len() == 12 ==> s@ != hex_rep(b),
        },
{
    let n: usize = s.unicode_len();
    if n != 24 {
        proof {
            assert forall|b: Seq<u8>| b.len() == 12 implies s@ != hex_rep(b) by {
                lemma_hex_rep_len(b);
            }
        }
        return None;
    }
    let mut out: [u8; 12] = [0u8; 12];
    let mut k: usize = 0;
    while k < 12
        invariant
            k <= 12,
            n == 24,
            n == s@.len(),
            forall|t: int|
                0 <= t < k ==> s@[2 * t] == hex_digit(((#[trigger] out@[t]) / 16) as nat) && s@[2
                    * t + 1] == hex_digit((out@[t] % 16) as nat),
        decreases 12 - k,
    {
        let hi_c = s.get_char(2 * k);
        let lo_c = s.get_char(2 * k + 1);
        if !is_hex_char(hi_c) || !is_hex_char(lo_c) {
            proof {
                assert forall|b: Seq<u8>| b.len() == 12 implies s@ != hex_rep(b) by {
                    if s@ == hex_rep(b) {
                        lemma_hex_rep_index(b, k as int);
                        lemma_hex_digit_roundtrip((b[k as int] / 16) as nat);
                        lemma_hex_digit_roundtrip((b[k as int] % 16) as nat);
                    }
                }
            }
            return None;
        }
        let hi = hex_val_char(hi_c);
        let lo = hex_val_char(lo_c);
        let byte: u8 = hi * 16 + lo;
        out[k] = byte;
        proof {
            lemma_hex_char_roundtrip(hi_c);
            lemma_hex_char_roundtrip(lo_c);
            assert(byte / 16 == hi && byte % 16 == lo) by (nonlinear_arith)
                requires
                    byte == hi * 16 + lo,
                    hi < 16,
                    lo < 16,
            ;
        }
        k = k + 1;
    }
    proof {
        lemma_hex_rep_len(out@);
        assert(s@ =~= hex_rep(out@)) by {
            assert forall|t: int| 0 <= t < 24 implies s@[t] == hex_rep(out@)[t] by {
                let kk = t / 2;
                assert(t == 2 * kk || t == 2 * kk + 1);
                lemma_hex_rep_index(out@, kk);
            }
        }
    }
    Some(out)
}

/// The inverse of `encode_room`: the unique coordinates whose canonical
/// label `s` is, or `None` exactly when `s` is no room's label — a wrong
/// direction letter, a missing or malformed magnitude, a leading zero,
/// trailing text, or a magnitude beyond the coordinate range.
pub fn decode_room(s: &str) -> (r: Option<(i16, i16)>)
    ensures
        match r {
            Some(p) => s@ == room_label(p.0 as int, p.1 as int),
            None => forall|x: i16, y: i16| s@ != room_label(x as int, y as int),
        },
{
    let n: usize = s.unicode_len();
    if n == 0 {
        proof {
            assert forall|x: i16, y: i16| s@ != room_label(x as int, y as int) by {
                lemma_axis_shape(x as int, 'E', 'W');
                lemma_axis_shape(y as int, 'N', 'S');
            }
        }
        return None;
    }
    let c0 = s.get_char(0);
    if !(c0 == 'E' || c0 == 'W') {
        proof {
            assert forall|x: i16, y: i16| s@ != room_label(x as int, y as int) by {
                if s@ == room_label(x as int, y as int) {
                    lemma_axis_shape(x as int, 'E', 'W');
                    assert(s@[0] == axis_rep(x as int, 'E', 'W')[0]);
                }
            }
        }
        return None;
    }
    let i = scan_digits(s, 1);
    if i == n {
        proof {
            assert forall|x: i16, y: i16| s@ != room_label(x as int, y as int) by {
                if s@ == room_label(x as int, y as int) {
                    lemma_label_split(s@, x as int, y as int, i as int);
                }
            }
        }
        return None;
    }
    let c1 = s.get_char(i);
    if !(c1 == 'N' || c1 == 'S') {
        proof {
            assert forall|x: i16, y: i16| s@ != room_label(x as int, y as int) by {
                if s@ == room_label(x as int, y as int) {
                    lemma_label_split(s@, x as int, y as int, i as int);
                }
            }
        }
        return None;
    }
    let j = scan_digits(s, i + 1);
    if j < n {
        proof {
            assert forall|x: i16, y: i16| s@ != room_label(x as int, y as int) by {
                if s@ == room_label(x as int, y as int) {
                    lemma_label_split(s@, x as int, y as int, i as int);
                    assert(is_dec_digit_char(s@[j as int]));
                }
            }
        }
        return None;
    }
    let mx = match parse_canonical_mag(s, 1, i) {
        Some(m) => m,
        None => {
            proof {
                assert forall|x: i16, y: i16| s@ != room_label(x as int, y as int) by {
                    if s@ == room_label(x as int, y as int) {
                        lemma_label_split(s@, x as int, y as int, i as int);
                        assert(mag_of(x as int) <= 32767);
                    }
                }
            }
            return None;
        },
    };
    let my = match parse_canonical_mag(s, i + 1, n) {
        Some(m) => m,
        None => {
            proof {
                assert forall|x: i16, y: i16| s@ != room_label(x as int, y as int) by {
                    if s@ == room_label(x as int, y as int) {
                        lemma_label_split(s@, x as int, y as int, i as int);
                        assert(mag_of(y as int) <= 32767);
                    }
                }
            }
            return None;
        },
    };
    let x: i16 = if c0 == 'E' {
        mx as i16
    } else {
        (-(mx as i32) - 1) as i16
    };
    let y: i16 = if c1 == 'N' {
        my as i16
    } else {
        (-(my as i32) - 1) as i16
    };
    proof {
        assert(mag_of(x as int) == mx as nat);
        assert(mag_of(y as int) == my as nat);
        let a = axis_rep(x as int, 'E', 'W');
        let b = axis_rep(y as int, 'N', 'S');
        assert(a =~= seq![c0] + dec_rep(mx as nat));
        assert(b =~= seq![c1] + dec_rep(my as nat));
        let d1 = s@.subrange(1, i as int);
        let d2 = s@.subrange(i + 1 as int, n as int);
        assert(d1.len() == i - 1 && d2.len() == n - i - 1);
        assert(s@ =~= a + b) by {
            assert forall|t: int| 0 <= t < s@.len() implies s@[t] == (a + b)[t] by {
                if t == 0 {
                    assert((a + b)[t] == a[0]);
                } else if t < i {
                    assert((a + b)[t] == a[t]);
                    assert(a[t] == dec_rep(mx as nat)[t - 1]);
                    assert(d1[t - 1] == s@[t]);
                } else if t == i {
                    assert((a + b)[t] == b[0]);
                } else {
                    assert((a + b)[t] == b[t - i]);
                    assert(b[t - i] == dec_rep(my as nat)[t - i - 1]);
                    assert(d2[t - i - 1] == s@[t]);
                }
            }
        }
    }
    Some((x, y))
}

/// Law: the room label is injective over the whole coordinate domain — two
/// rooms with the same canonical label are the same room, so labels are
/// safe to use as persistence and lookup keys.
pub proof fn lemma_room_label_injective(x1: int, y1: int, x2: int, y2: int)
    requires
        room_label(x1, y1) == room_label(x2, y2),
    ensures
        x1 == x2,
        y1 == y2,
{
    let a1 = axis_rep(x1, 'E', 'W');
    let b1 = axis_rep(y1, 'N', 'S');
    let a2 = axis_rep(x2, 'E', 'W');
    let b2 = axis_rep(y2, 'N', 'S');
    lemma_axis_shape(x1, 'E', 'W');
    lemma_axis_shape(y1, 'N', 'S');
    lemma_axis_shape(x2, 'E', 'W');
    lemma_axis_shape(y2, 'N', 'S');
    // The first north/south letter marks where the y axis starts, so the two
    // x parts must have the same length.
    if a1.len() < a2.len() {
        assert((a1 + b1)[a1.len() as int] == b1[0]);
        assert((a2 + b2)[a1.len() as int] == a2[a1.len() as int]);
        assert(b1[0] == 'N' || b1[0] == 'S');
        assert(is_dec_digit_char(a2[a1.len() as int]));
        assert(false);
    }
    if a2.len() < a1.len() {
        assert((a2 + b2)[a2.len() as int] == b2[0]);
        assert((a1 + b1)[a2.len() as int] == a1[a2.len() as int]);
        assert(b2[0] == 'N' || b2[0] == 'S');
        assert(is_dec_digit_char(a1[a2.len() as int]));
        assert(false);
    }
    assert(a1 =~= a2) by {
        assert forall|i: int| 0 <= i < a1.len() implies a1[i] == a2[i] by {
            assert((a1 + b1)[i] == (a2 + b2)[i]);
        }
    }
    assert((a1 + b1).len() == (a2 + b2).len());
    assert(b1.len() == b2.len());
    assert(b1 =~= b2) by {
        assert forall|i: int| 0 <= i < b1.len() implies b1[i] == b2[i] by {
            assert(b1[i] == (a1 + b1)[a1.len() + i]);
            assert(b2[i] == (a2 + b2)[a2.len() + i]);
            assert((a1 + b1)[a1.len() + i] == (a2 + b2)[a1.len() + i]);
        }
    }
    lemma_axis_injective(x1, x2, 'E', 'W');
    lemma_axis_injective(y1, y2, 'N', 'S');
}

} // verus!

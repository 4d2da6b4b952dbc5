//! Verified text helpers for the persistence formats: decimal numbers and
//! comma-separated fields.

use vstd::prelude::*;

verus! {

/// Is `c` a decimal digit?
pub open spec fn is_digit(c: char) -> bool {
    '0' <= c && c <= '9'
}

/// The value of a decimal digit character.
pub open spec fn digit_val(c: char) -> int {
    c as int - '0' as int
}

/// Every character of `s` is a decimal digit.
pub open spec fn all_digits(s: Seq<char>) -> bool {
    forall|i: int| 0 <= i < s.len() ==> is_digit(#[trigger] s[i])
}

/// The number a digit string denotes, most significant digit first.
pub open spec fn digits_val(s: Seq<char>) -> int
    decreases s.len(),
{
    if s.len() == 0 {
        0
    } else {
        digits_val(s.drop_last()) * 10 + digit_val(s.last())
    }
}

/// `s` is a digit string denoting a value that fits in a `u64`.
pub open spec fn is_u64_str(s: Seq<char>) -> bool {
    s.len() > 0 && all_digits(s) && digits_val(s) <= u64::MAX
}

/// The digit character for one decimal digit value.
pub open spec fn digit_char(d: int) -> char {
    if d == 0 {
        '0'
    } else if d == 1 {
        '1'
    } else if d == 2 {
        '2'
    } else if d == 3 {
        '3'
    } else if d == 4 {
        '4'
    } else if d == 5 {
        '5'
    } else if d == 6 {
        '6'
    } else if d == 7 {
        '7'
    } else if d == 8 {
        '8'
    } else {
        '9'
    }
}

/// The decimal rendering of a non-negative number.
pub open spec fn dec_digits(n: int) -> Seq<char>
    decreases n,
{
    if n < 10 {
        seq![digit_char(n)]
    } else {
        dec_digits(n / 10) + seq![digit_char(n % 10)]
    }
}

/// A digit string denotes a non-negative number.
pub proof fn lemma_digits_val_nonneg(s: Seq<char>)
    requires
        all_digits(s),
    ensures
        digits_val(s) >= 0,
    decreases s.len(),
{
    if s.len() > 0 {
        assert(all_digits(s.drop_last())) by {
            assert(forall|i: int|
                0 <= i < s.len() - 1 ==> s.drop_last()[i] == #[trigger] s[i]);
        }
        lemma_digits_val_nonneg(s.drop_last());
        assert(is_digit(s.last()));
    }
}

/// Dropping trailing digits never increases the value.
pub proof fn lemma_digits_val_prefix(s: Seq<char>, i: int)
    requires
        all_digits(s),
        0 <= i <= s.len(),
    ensures
        digits_val(s.take(i)) <= digits_val(s),
    decreases s.len() - i,
{
    if i < s.len() {
        lemma_digits_val_prefix(s, i + 1);
        let t = s.take(i + 1);
        assert(t.drop_last() =~= s.take(i));
        assert(t.last() == s[i]);
        assert(all_digits(s.take(i))) by {
            assert(forall|k: int| 0 <= k < i ==> s.take(i)[k] == #[trigger] s[k]);
        }
        lemma_digits_val_nonneg(s.take(i));
        assert(is_digit(s[i]));
        assert(digits_val(t) == digits_val(s.take(i)) * 10 + digit_val(s[i]));
        assert(digits_val(s.take(i)) * 10 >= digits_val(s.take(i))) by (nonlinear_arith)
            requires
                digits_val(s.take(i)) >= 0,
        ;
    } else {
        assert(s.take(i) =~= s);
    }
}

/// Rendering a number gives digits, and reading them back gives the number.
pub proof fn lemma_dec_digits_roundtrip(n: int)
    requires
        n >= 0,
    ensures
        dec_digits(n).len() >= 1,
        all_digits(dec_digits(n)),
        digits_val(dec_digits(n)) == n,
    decreases n,
{
    if n < 10 {
        assert(dec_digits(n) =~= seq![digit_char(n)]);
        assert(is_digit(digit_char(n)));
        assert(digit_val(digit_char(n)) == n);
        let s1 = seq![digit_char(n)];
        assert(s1.drop_last().len() == 0);
        assert(digits_val(s1.drop_last()) == 0);
        assert(digits_val(s1) == digit_val(digit_char(n)));
    } else {
        lemma_dec_digits_roundtrip(n / 10);
        let d = dec_digits(n);
        assert(d =~= dec_digits(n / 10) + seq![digit_char(n % 10)]);
        assert(d.drop_last() =~= dec_digits(n / 10));
        assert(d.last() == digit_char(n % 10));
        assert(is_digit(digit_char(n % 10)));
        assert(digit_val(digit_char(n % 10)) == n % 10);
        assert(all_digits(d)) by {
            assert(forall|i: int|
                0 <= i < d.len() - 1 ==> d[i] == #[trigger] dec_digits(n / 10)[i]);
        }
        assert(digits_val(d) == (n / 10) * 10 + n % 10);
        assert((n / 10) * 10 + n % 10 == n) by (nonlinear_arith)
            requires
                n >= 0,
        ;
    }
}

/// Reads a decimal `u64`; `None` when the string is empty, has a non-digit,
/// or denotes a value past `u64::MAX`.
pub fn parse_u64(s: &str) -> (r: Option<u64>)
    ensures
        r is Some <==> is_u64_str(s@),
        r is Some ==> r.unwrap() == digits_val(s@),
{
    let len = s.unicode_len();
    if len == 0 {
        return None;
    }
    let mut acc: u64 = 0;
    let mut i: usize = 0;
    while i < len
        invariant
            0 < i <= len || i == 0,
            i <= len,
            len == s@.len(),
            forall|k: int| 0 <= k < i ==> is_digit(#[trigger] s@[k]),
            acc == digits_val(s@.take(i as int)),
        decreases len - i,
    {
        let c = s.get_char(i);
        if !('0' <= c && c <= '9') {
            assert(!all_digits(s@));
            return None;
        }
        let d: u64 = (c as u32 as u64) - ('0' as u32 as u64);
        assert(d == digit_val(c));
        if acc > (u64::MAX - d) / 10 {
            proof {
                assert(acc * 10 + d > u64::MAX) by (nonlinear_arith)
                    requires
                        0 <= d < 10,
                        acc > (u64::MAX - d) / 10,
                ;
                let t = s@.take(i + 1);
                assert(t.drop_last() =~= s@.take(i as int));
                assert(t.last() == s@[i as int]);
                assert(digits_val(t) == acc * 10 + d);
                if all_digits(s@) {
                    lemma_digits_val_prefix(s@, i + 1);
                }
            }
            return None;
        }
        proof {
            assert(acc * 10 + d <= u64::MAX) by (nonlinear_arith)
                requires
                    0 <= d < 10,
                    acc <= (u64::MAX - d) / 10,
            ;
            let t = s@.take(i + 1);
            assert(t.drop_last() =~= s@.take(i as int));
            assert(t.last() == s@[i as int]);
        }
        acc = acc * 10 + d;
        i += 1;
    }
    proof {
        assert(s@.take(len as int) =~= s@);
    }
    Some(acc)
}

/// Reads a decimal `u8`; `None` when `parse_u64` fails or the value is over
/// `u8::MAX`.
pub fn parse_u8(s: &str) -> (r: Option<u8>)
    ensures
        r is Some <==> (is_u64_str(s@) && digits_val(s@) <= u8::MAX),
        r is Some ==> r.unwrap() == digits_val(s@),
{
    match parse_u64(s) {
        Some(v) => if v <= 255 {
            Some(v as u8)
        } else {
            None
        },
        None => None,
    }
}

/// The one-character string for one decimal digit.
fn digit_str(d: u64) -> (r: &'static str)
    requires
        d < 10,
    ensures
        r@ =~= seq![digit_char(d as int)],
{
    proof {
        reveal_strlit("0");
        reveal_strlit("1");
        reveal_strlit("2");
        reveal_strlit("3");
        reveal_strlit("4");
        reveal_strlit("5");
        reveal_strlit("6");
        reveal_strlit("7");
        reveal_strlit("8");
        reveal_strlit("9");
    }
    if d == 0 {
        "0"
    } else if d == 1 {
        "1"
    } else if d == 2 {
        "2"
    } else if d == 3 {
        "3"
    } else if d == 4 {
        "4"
    } else if d == 5 {
        "5"
    } else if d == 6 {
        "6"
    } else if d == 7 {
        "7"
    } else if d == 8 {
        "8"
    } else {
        "9"
    }
}

/// Writes a number in decimal.
pub fn u64_to_string(n: u64) -> (r: String)
    ensures
        r@ == dec_digits(n as int),
    decreases n,
{
    if n < 10 {
        String::from_str(digit_str(n))
    } else {
        let mut s = u64_to_string(n / 10);
        s.append(digit_str(n % 10));
        assert(s@ =~= dec_digits(n as int));
        s
    }
}

/// Splitting at commas, defined over the characters from the end: a comma
/// opens a new empty field, any other character extends the last field.
pub open spec fn split_spec(s: Seq<char>) -> Seq<Seq<char>>
    decreases s.len(),
{
    if s.len() == 0 {
        seq![Seq::<char>::empty()]
    } else if s.last() == ',' {
        split_spec(s.drop_last()) + seq![Seq::<char>::empty()]
    } else {
        let r = split_spec(s.drop_last());
        r.update(r.len() - 1, r.last() + seq![s.last()])
    }
}

/// The split of any string has at least one field.
pub proof fn lemma_split_nonempty(s: Seq<char>)
    ensures
        split_spec(s).len() >= 1,
    decreases s.len(),
{
    if s.len() > 0 {
        lemma_split_nonempty(s.drop_last());
    }
}

/// Splits a string at commas.
pub fn split_commas(s: &str) -> (r: Vec<String>)
    ensures
        r.deep_view() == split_spec(s@),
{
    let len = s.unicode_len();
    let mut r: Vec<String> = Vec::new();
    let mut start: usize = 0;
    let mut i: usize = 0;
    proof {
        assert(s@.subrange(0, 0) =~= Seq::<char>::empty());
        assert(s@.take(0) =~= Seq::<char>::empty());
        assert(r.deep_view() =~= Seq::<Seq<char>>::empty());
        assert(r.deep_view() + seq![s@.subrange(0, 0)] =~= split_spec(s@.take(0)));
    }
    while i < len
        invariant
            start <= i <= len,
            len == s@.len(),
            r.deep_view() + seq![s@.subrange(start as int, i as int)] == split_spec(
                s@.take(i as int),
            ),
        decreases len - i,
    {
        proof {
            lemma_split_nonempty(s@.take(i as int));
            assert(s@.take(i + 1).drop_last() =~= s@.take(i as int));
            assert(s@.take(i + 1).last() == s@[i as int]);
        }
        if s.get_char(i) == ',' {
            let piece = String::from_str(s.substring_char(start, i));
            r.push(piece);
            start = i + 1;
            proof {
                assert(r.deep_view() =~= split_spec(s@.take(i as int)));
                assert(s@.subrange(start as int, i + 1) =~= Seq::<char>::empty());
                assert(r.deep_view() + seq![s@.subrange(start as int, i + 1)] =~= split_spec(
                    s@.take(i + 1),
                ));
            }
        } else {
            proof {
                let old_split = split_spec(s@.take(i as int));
                let new_split = split_spec(s@.take(i + 1));
                assert(new_split == old_split.update(
                    old_split.len() - 1,
                    old_split.last() + seq![s@[i as int]],
                ));
                assert(old_split.last() == s@.subrange(start as int, i as int));
                assert(s@.subrange(start as int, i as int) + seq![s@[i as int]] =~= s@.subrange(
                    start as int,
                    i + 1,
                ));
                assert(r.deep_view() + seq![s@.subrange(start as int, i + 1)] =~= new_split);
            }
        }
        i += 1;
    }
    let piece = String::from_str(s.substring_char(start, len));
    r.push(piece);
    proof {
        assert(s@.take(len as int) =~= s@);
        assert(r.deep_view() =~= split_spec(s@));
    }
    r
}

/// A string without commas splits into itself as the only field.
pub proof fn lemma_split_no_comma(s: Seq<char>)
    requires
        forall|i: int| 0 <= i < s.len() ==> s[i] != ',',
    ensures
        split_spec(s) == seq![s],
    decreases s.len(),
{
    if s.len() == 0 {
        assert(s =~= Seq::<char>::empty());
        assert(split_spec(s) =~= seq![s]);
    } else {
        let q = s.drop_last();
        assert(forall|i: int| 0 <= i < q.len() ==> #[trigger] q[i] == s[i]);
        lemma_split_no_comma(q);
        assert(s.last() != ',');
        let r = split_spec(q);
        assert(r == seq![q]);
        assert(r.len() == 1);
        assert(split_spec(s) == r.update(0, r.last() + seq![s.last()]));
        assert(q + seq![s.last()] =~= s);
        assert(split_spec(s) =~= seq![s]);
    }
}

/// Splitting cuts at a comma: the fields of `x + "," + y` are the fields of
/// `x` followed by the fields of `y`.
pub proof fn lemma_split_concat(x: Seq<char>, y: Seq<char>)
    ensures
        split_spec(x + seq![','] + y) == split_spec(x) + split_spec(y),
    decreases y.len(),
{
    let s = x + seq![','] + y;
    if y.len() == 0 {
        assert(s.last() == ',');
        assert(s.drop_last() =~= x);
        assert(split_spec(Seq::<char>::empty()) =~= seq![Seq::<char>::empty()]);
        assert(split_spec(s) =~= split_spec(x) + split_spec(y));
    } else {
        let yq = y.drop_last();
        let c = y.last();
        lemma_split_concat(x, yq);
        lemma_split_nonempty(yq);
        lemma_split_nonempty(x);
        assert(s.last() == c);
        assert(s.drop_last() =~= x + seq![','] + yq);
        let r = split_spec(x + seq![','] + yq);
        assert(r == split_spec(x) + split_spec(yq));
        if c == ',' {
            assert(split_spec(s) == r + seq![Seq::<char>::empty()]);
            assert(split_spec(y) == split_spec(yq) + seq![Seq::<char>::empty()]);
            assert(r + seq![Seq::<char>::empty()] =~= split_spec(x) + split_spec(y));
        } else {
            let a = split_spec(x);
            let b = split_spec(yq);
            assert(split_spec(s) == r.update(r.len() - 1, r.last() + seq![c]));
            assert(r.last() == b.last());
            assert(split_spec(y) == b.update(b.len() - 1, b.last() + seq![c]));
            assert(r.update(r.len() - 1, b.last() + seq![c]) =~= a + b.update(
                b.len() - 1,
                b.last() + seq![c],
            ));
        }
    }
}

} // verus!

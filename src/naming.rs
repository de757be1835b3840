use crate::types::Item;
use vstd::prelude::*;
use vstd::string::*;

verus! {

/// The decimal digit character for `d`.
pub open spec fn digit_char(d: int) -> char {
    if d == 0 {
        '0'
    } else if d == 1 {
        '1'
    } else if d == 2 {
        '2'
    } else if d == 3 {
        '3'
    } else if d == 4 {
        '4'
    } else if d == 5 {
        '5'
    } else if d == 6 {
        '6'
    } else if d == 7 {
        '7'
    } else if d == 8 {
        '8'
    } else {
        '9'
    }
}

/// The decimal digits of `n`, without leading zeros.
pub open spec fn decimal(n: nat) -> Seq<char>
    decreases n,
{
    if n < 10 {
        seq![digit_char(n as int)]
    } else {
        decimal(n / 10).push(digit_char((n % 10) as int))
    }
}

/// The decimal digits of `n`, zero-padded on the left to at least three.
pub open spec fn padded3(n: nat) -> Seq<char> {
    if decimal(n).len() < 3 {
        Seq::new((3 - decimal(n).len()) as nat, |i: int| '0') + decimal(n)
    } else {
        decimal(n)
    }
}

/// The identifier of flight number `n`: `flight_` and at least three digits.
pub open spec fn flight_id_text(n: nat) -> Seq<char> {
    "flight_"@ + padded3(n)
}

/// The key of a flight's metadata record.
pub open spec fn flight_key_text(id: Seq<char>) -> Seq<char> {
    "flight:"@ + id
}

/// The common beginning of the keys of a flight's frames.
pub open spec fn telem_prefix_text(id: Seq<char>) -> Seq<char> {
    "telem:"@ + id + ":"@
}

/// The key of a flight's frame sent at `timestamp` milliseconds.
pub open spec fn telem_key_text(id: Seq<char>, timestamp: nat) -> Seq<char> {
    telem_prefix_text(id) + decimal(timestamp)
}

/// Whether `c` is an ASCII decimal digit.
pub open spec fn is_digit(c: char) -> bool {
    '0' <= c && c <= '9'
}

/// The value of a sequence of decimal digits.
pub open spec fn digits_value(ds: Seq<char>) -> int
    decreases ds.len(),
{
    if ds.len() == 0 {
        0
    } else {
        digits_value(ds.drop_last()) * 10 + (ds.last() as u32 - '0' as u32)
    }
}

/// A text without its leading `+`, if it has one.
pub open spec fn unsigned_part(cs: Seq<char>) -> Seq<char> {
    if cs.len() > 0 && cs[0] == '+' {
        cs.drop_first()
    } else {
        cs
    }
}

/// Whether every character is a decimal digit.
pub open spec fn all_digits(ds: Seq<char>) -> bool {
    forall|i: int| 0 <= i < ds.len() ==> is_digit(#[trigger] ds[i])
}

/// The unsigned integer a text spells: an optional `+` and at least one
/// decimal digit, with a value that fits a `usize`.
pub open spec fn parsed_usize(cs: Seq<char>) -> Option<usize> {
    let ds = unsigned_part(cs);
    if ds.len() == 0 || !all_digits(ds) || digits_value(ds) > usize::MAX {
        None
    } else {
        Some(digits_value(ds) as usize)
    }
}

/// The text all flight-number keys start with.
pub open spec fn flight_number_prefix() -> Seq<char> {
    "flight:flight_"@
}

/// The flight number a key carries, if it is `flight:flight_<N>`.
pub open spec fn flight_number_of(k: Item) -> Option<usize> {
    match k {
        Item::Text(cs) => if flight_number_prefix().is_prefix_of(cs) {
            parsed_usize(cs.subrange(flight_number_prefix().len() as int, cs.len() as int))
        } else {
            None
        },
        Item::Int(_) => None,
    }
}

/// The text of one decimal digit.
fn digit_text(d: u64) -> (r: &'static str)
    requires
        d < 10,
    ensures
        r@ == seq![digit_char(d as int)],
{
    if d == 0 {
        proof { reveal_strlit("0"); }
        "0"
    } else if d == 1 {
        proof { reveal_strlit("1"); }
        "1"
    } else if d == 2 {
        proof { reveal_strlit("2"); }
        "2"
    } else if d == 3 {
        proof { reveal_strlit("3"); }
        "3"
    } else if d == 4 {
        proof { reveal_strlit("4"); }
        "4"
    } else if d == 5 {
        proof { reveal_strlit("5"); }
        "5"
    } else if d == 6 {
        proof { reveal_strlit("6"); }
        "6"
    } else if d == 7 {
        proof { reveal_strlit("7"); }
        "7"
    } else if d == 8 {
        proof { reveal_strlit("8"); }
        "8"
    } else {
        proof { reveal_strlit("9"); }
        "9"
    }
}

/// Appends the decimal digits of `n` to `out`.
fn append_decimal(out: &mut String, n: u64)
    ensures
        final(out)@ == old(out)@ + decimal(n as nat),
    decreases n,
{
    if n >= 10 {
        append_decimal(out, n / 10);
    }
    out.append(digit_text(n % 10));
    proof {
        if n >= 10 {
            assert(old(out)@ + decimal((n / 10) as nat) + seq![digit_char((n % 10) as int)] =~= old(out)@ + decimal(n as nat));
        } else {
            assert(old(out)@ + seq![digit_char((n % 10) as int)] =~= old(out)@ + decimal(n as nat));
        }
    }
}

/// The identifier of flight number `n`, such as `flight_007`.
pub fn flight_id_for(n: u64) -> (r: String)
    ensures
        r@ == flight_id_text(n as nat),
{
    let mut out = String::from_str("flight_");
    if n < 10 {
        out.append("00");
    } else if n < 100 {
        out.append("0");
    }
    append_decimal(&mut out, n);
    proof {
        reveal_strlit("00");
        reveal_strlit("0");
        reveal_with_fuel(decimal, 3);
        assert(out@ =~= flight_id_text(n as nat));
    }
    out
}

/// The key of flight `id`'s metadata record: `flight:<id>`.
pub fn flight_key(id: &str) -> (r: String)
    ensures
        r@ == flight_key_text(id@),
{
    String::from_str("flight:").concat(id)
}

/// The beginning of the keys of flight `id`'s frames: `telem:<id>:`.
pub fn telem_prefix(id: &str) -> (r: String)
    ensures
        r@ == telem_prefix_text(id@),
{
    String::from_str("telem:").concat(id).concat(":")
}

/// The key of flight `id`'s frame sent at `timestamp`: `telem:<id>:<timestamp>`.
pub fn telem_key(id: &str, timestamp: u64) -> (r: String)
    ensures
        r@ == telem_key_text(id@, timestamp as nat),
{
    let mut out = telem_prefix(id);
    append_decimal(&mut out, timestamp);
    out
}

/// Whether `s` begins with `prefix`.
pub fn starts_with(s: &str, prefix: &str) -> (r: bool)
    ensures
        r == prefix@.is_prefix_of(s@),
{
    let n = prefix.unicode_len();
    if n > s.unicode_len() {
        return false;
    }
    let mut i: usize = 0;
    while i < n
        invariant
            n == prefix@.len(),
            n <= s@.len(),
            i <= n,
            forall|j: int| 0 <= j < i ==> prefix@[j] == s@[j],
        decreases n - i,
    {
        if prefix.get_char(i) != s.get_char(i) {
            return false;
        }
        i = i + 1;
    }
    true
}

/// Reads an unsigned integer the way `usize`'s `FromStr` does: an optional
/// `+`, then one or more decimal digits whose value fits a `usize`.
pub fn parse_usize(s: &str) -> (r: Option<usize>)
    ensures
        r == parsed_usize(s@),
{
    let len = s.unicode_len();
    let mut i: usize = 0;
    if len > 0 && s.get_char(0) == '+' {
        i = 1;
    }
    let start = i;
    let ghost ds = s@.subrange(start as int, len as int);
    assert(ds =~= unsigned_part(s@));
    if start == len {
        return None;
    }
    let mut value: usize = 0;
    let mut overflowed = false;
    while i < len
        invariant
            len == s@.len(),
            start <= i <= len,
            ds == s@.subrange(start as int, len as int),
            ds == unsigned_part(s@),
            forall|j: int| start <= j < i ==> is_digit(#[trigger] s@[j]),
            !overflowed ==> value == digits_value(s@.subrange(start as int, i as int)),
            overflowed ==> digits_value(s@.subrange(start as int, i as int)) > usize::MAX,
        decreases len - i,
    {
        let c = s.get_char(i);
        if !('0' <= c && c <= '9') {
            proof {
                assert(ds[i - start] == c);
                assert(!is_digit(ds[i - start]));
                assert(!all_digits(ds));
            }
            return None;
        }
        let d = (c as u32 - '0' as u32) as usize;
        let ghost prev = s@.subrange(start as int, i as int);
        proof {
            assert(s@.subrange(start as int, i + 1).drop_last() =~= prev);
            assert(digits_value(prev) >= 0) by {
                lemma_digits_value_nonneg(prev, i - start, s@, start as int);
            }
        }
        if !overflowed {
            if value > (usize::MAX - d) / 10 {
                overflowed = true;
            } else {
                value = value * 10 + d;
            }
        }
        i = i + 1;
    }
    proof {
        assert(s@.subrange(start as int, len as int) == ds);
        assert forall|j: int| 0 <= j < ds.len() implies is_digit(#[trigger] ds[j]) by {
            assert(ds[j] == s@[start + j]);
        }
    }
    if overflowed {
        None
    } else {
        Some(value)
    }
}

/// A run of digits has a value of at least zero.
proof fn lemma_digits_value_nonneg(ds: Seq<char>, n: int, s: Seq<char>, start: int)
    requires
        n == ds.len(),
        0 <= start,
        start + n <= s.len(),
        ds == s.subrange(start, start + n),
        forall|j: int| start <= j < start + n ==> is_digit(#[trigger] s[j]),
    ensures
        digits_value(ds) >= 0,
    decreases n,
{
    if n > 0 {
        assert(ds.drop_last() =~= s.subrange(start, start + n - 1));
        lemma_digits_value_nonneg(ds.drop_last(), n - 1, s, start);
        assert(is_digit(s[start + n - 1]));
    }
}

/// The digits of `n` are decimal digits and spell `n`.
pub proof fn lemma_decimal_value(n: nat)
    ensures
        all_digits(decimal(n)),
        digits_value(decimal(n)) == n,
        decimal(n).len() > 0,
    decreases n,
{
    if n >= 10 {
        lemma_decimal_value(n / 10);
        let s = decimal(n / 10);
        let d = (n % 10) as int;
        assert(decimal(n).drop_last() =~= s);
        assert(decimal(n).last() == digit_char(d));
        assert(digit_char(d) as u32 - '0' as u32 == d);
        assert(digits_value(decimal(n)) == digits_value(s) * 10 + d);
        assert(n == (n / 10) * 10 + n % 10);
        assert forall|i: int| 0 <= i < decimal(n).len() implies is_digit(#[trigger] decimal(n)[i]) by {
            if i < s.len() {
                assert(decimal(n)[i] == s[i]);
            }
        }
    } else {
        assert(digit_char(n as int) as u32 - '0' as u32 == n);
        assert(decimal(n).drop_last() =~= Seq::<char>::empty());
        assert(digits_value(Seq::<char>::empty()) == 0);
        assert(digits_value(decimal(n)) == 0 * 10 + (digit_char(n as int) as u32 - '0' as u32));
    }
}

/// Leading zeros do not change the value of a run of digits.
pub proof fn lemma_leading_zeros(k: nat, s: Seq<char>)
    ensures
        digits_value(Seq::new(k, |i: int| '0') + s) == digits_value(s),
    decreases s.len() + k,
{
    let z = Seq::new(k, |i: int| '0');
    if s.len() == 0 {
        assert(z + s =~= z);
        if k > 0 {
            let z1 = Seq::new((k - 1) as nat, |i: int| '0');
            assert(z.drop_last() =~= z1 + Seq::<char>::empty());
            lemma_leading_zeros((k - 1) as nat, Seq::<char>::empty());
            assert(z1 + Seq::<char>::empty() =~= z1);
        }
    } else {
        assert((z + s).drop_last() =~= z + s.drop_last());
        lemma_leading_zeros(k, s.drop_last());
    }
}

/// A zero-padded number reads back as that number.
pub proof fn lemma_padded_parses(n: usize)
    ensures
        parsed_usize(padded3(n as nat)) == Some(n),
{
    lemma_decimal_value(n as nat);
    let d = decimal(n as nat);
    let p = padded3(n as nat);
    if d.len() < 3 {
        let z = Seq::new((3 - d.len()) as nat, |i: int| '0');
        lemma_leading_zeros((3 - d.len()) as nat, d);
        assert forall|i: int| 0 <= i < p.len() implies is_digit(#[trigger] p[i]) by {
            if i >= z.len() {
                assert(p[i] == d[i - z.len()]);
            }
        }
    }
    assert(p[0] != '+');
    assert(unsigned_part(p) == p);
}

} // verus!

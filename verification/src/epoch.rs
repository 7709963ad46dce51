//! The time representation carried in segment reports: seconds since
//! the Unix epoch, held to millisecond resolution.
//!
//! A value serializes as a decimal number — the whole seconds, a dot,
//! and exactly three fractional digits — so a round trip through the
//! wire form preserves the instant to the millisecond.

use vstd::prelude::*;

use vstd::arithmetic::div_mod::lemma_div_denominator;
use vstd::arithmetic::div_mod::lemma_fundamental_div_mod;

use crate::error::Error;
use crate::hexbytes::hex_char_of;
use crate::hexbytes::hex_val;
use crate::hexbytes::push_hex_char;

verus! {

/// Relies on std::time::SystemTime::now and duration_since for the
/// wall-clock reading: milliseconds since the Unix epoch, or 0 when the
/// clock stands before it. The value depends on the clock; nothing is
/// assumed about it.
#[verifier::external_body]
pub(crate) fn clock_unix_millis() -> u64 {
    match std::time::SystemTime::now().duration_since(std::time::UNIX_EPOCH) {
        Ok(d) => d.as_millis() as u64,
        Err(_) => 0,
    }
}

/// A point in time for reporting: seconds since the Unix epoch with
/// fractional precision, held as a count of milliseconds. Values at or
/// before the epoch are permitted and kept unchanged.
#[derive(Clone, Copy, Debug, PartialEq, Eq, Hash, PartialOrd, Ord, Structural)]
pub struct Seconds {
    /// Milliseconds since the Unix epoch; negative for instants before it.
    pub millis: i64,
}

/// The decimal digits of a nonnegative number, most significant first,
/// with no leading zero except for the single digit of zero itself.
pub open spec fn dec_digits(n: int) -> Seq<char>
    recommends
        n >= 0,
    decreases n,
{
    if n <= 9 {
        seq![hex_char_of(n)]
    } else {
        dec_digits(n / 10) + seq![hex_char_of(n % 10)]
    }
}

/// The canonical decimal rendering of a timestamp of `millis`
/// milliseconds: an optional minus sign, the whole seconds, a dot, and
/// exactly three fractional digits.
pub open spec fn seconds_text(millis: int) -> Seq<char> {
    let m = if millis < 0 {
        -millis
    } else {
        millis
    };
    let sign: Seq<char> = if millis < 0 {
        seq!['-']
    } else {
        Seq::empty()
    };
    sign + dec_digits(m / 1000) + seq!['.']
        + seq![
        hex_char_of((m / 100) % 10),
        hex_char_of((m / 10) % 10),
        hex_char_of(m % 10),
    ]
}

/// A decimal digit character.
pub open spec fn is_dec_digit(c: char) -> bool {
    c == '0' || c == '1' || c == '2' || c == '3' || c == '4' || c == '5' || c == '6' || c == '7'
        || c == '8' || c == '9'
}

/// The number denoted by a run of decimal digit characters, most
/// significant first; leading zeros carry no weight.
pub open spec fn digits_val(s: Seq<char>) -> int
    decreases s.len(),
{
    if s.len() == 0 {
        0
    } else {
        digits_val(s.drop_last()) * 10 + hex_val(s.last())
    }
}

/// Ten to the `k`th power.
pub open spec fn pow10(k: nat) -> int
    decreases k,
{
    if k == 0 {
        1
    } else {
        10 * pow10((k - 1) as nat)
    }
}

/// The magnitude, in milliseconds, denoted by timestamp text: the
/// integer-part digits give whole seconds, the three fractional digits
/// give milliseconds.
pub open spec fn text_mag(s: Seq<char>) -> int {
    let b0: int = if s.len() > 0 && s[0] == '-' {
        1
    } else {
        0
    };
    digits_val(s.subrange(b0, s.len() - 4)) * 1000 + digits_val(
        s.subrange(s.len() - 3, s.len() as int),
    )
}

/// The signed count of milliseconds denoted by timestamp text.
pub open spec fn text_val(s: Seq<char>) -> int {
    if s.len() > 0 && s[0] == '-' {
        -text_mag(s)
    } else {
        text_mag(s)
    }
}

/// Text accepted as a timestamp: an optional minus sign, one to sixteen
/// decimal digits of whole seconds without a superfluous leading zero, a
/// dot, exactly three fractional digits, and a magnitude that fits the
/// millisecond representation.
pub open spec fn valid_seconds_text(s: Seq<char>) -> bool {
    let b0: int = if s.len() > 0 && s[0] == '-' {
        1
    } else {
        0
    };
    let dot = s.len() - 4;
    &&& s.len() >= b0 + 5
    &&& s[dot] == '.'
    &&& forall|i: int| b0 <= i < dot ==> is_dec_digit(#[trigger] s[i])
    &&& forall|i: int| dot < i < s.len() ==> is_dec_digit(#[trigger] s[i])
    &&& (dot - b0 > 1 ==> s[b0] != '0')
    &&& dot - b0 <= 16
    &&& text_mag(s) <= if b0 == 1 {
        0x8000_0000_0000_0000int
    } else {
        0x7fff_ffff_ffff_ffffint
    }
}

proof fn lemma_pow10_pos(k: nat)
    ensures
        pow10(k) >= 1,
    decreases k,
{
    if k > 0 {
        lemma_pow10_pos((k - 1) as nat);
    }
}

proof fn lemma_pow10_mono(a: nat, b: nat)
    requires
        a <= b,
    ensures
        pow10(a) <= pow10(b),
    decreases b,
{
    if a < b {
        lemma_pow10_mono(a, (b - 1) as nat);
        lemma_pow10_pos((b - 1) as nat);
        assert(pow10(b) == 10 * pow10((b - 1) as nat));
    }
}

proof fn lemma_pow10_consts()
    ensures
        pow10(15) == 1000000000000000,
        pow10(16) == 10000000000000000,
{
    assert(pow10(0) == 1);
    assert(pow10(1) == 10);
    assert(pow10(2) == 100);
    assert(pow10(3) == 1000);
    assert(pow10(4) == 10000);
    assert(pow10(5) == 100000);
    assert(pow10(6) == 1000000);
    assert(pow10(7) == 10000000);
    assert(pow10(8) == 100000000);
    assert(pow10(9) == 1000000000);
    assert(pow10(10) == 10000000000);
    assert(pow10(11) == 100000000000);
    assert(pow10(12) == 1000000000000);
    assert(pow10(13) == 10000000000000);
    assert(pow10(14) == 100000000000000);
    assert(pow10(15) == 1000000000000000);
    assert(pow10(16) == 10000000000000000);
}

/// What holds of the canonical digit run of a nonnegative number: it is
/// nonempty, all decimal digits, free of a superfluous leading zero, it
/// denotes the number itself, and its length brackets the number between
/// neighbouring powers of ten.
proof fn lemma_dec_digits_props(n: int)
    requires
        n >= 0,
    ensures
        dec_digits(n).len() >= 1,
        forall|i: int| 0 <= i < dec_digits(n).len() ==> is_dec_digit(#[trigger] dec_digits(n)[i]),
        dec_digits(n).len() > 1 ==> dec_digits(n)[0] != '0',
        digits_val(dec_digits(n)) == n,
        n < pow10(dec_digits(n).len() as nat),
        n >= 1 ==> n >= pow10((dec_digits(n).len() - 1) as nat),
        n <= 9 ==> dec_digits(n).len() == 1,
    decreases n,
{
    lemma_fundamental_div_mod(n, 10);
    if n <= 9 {
        let s = dec_digits(n);
        assert(s =~= seq![hex_char_of(n)]);
        assert(s.drop_last() =~= Seq::<char>::empty());
        assert(digits_val(s) == digits_val(s.drop_last()) * 10 + hex_val(s.last()));
        assert(digits_val(Seq::<char>::empty()) == 0);
        assert(pow10(0) == 1);
        assert(pow10(1) == 10);
    } else {
        lemma_dec_digits_props(n / 10);
        let a = dec_digits(n / 10);
        let s = dec_digits(n);
        assert(s == a + seq![hex_char_of(n % 10)]);
        assert(s.drop_last() =~= a);
        assert(s.last() == hex_char_of(n % 10));
        assert(digits_val(s) == digits_val(a) * 10 + hex_val(hex_char_of(n % 10)));
        assert(hex_val(hex_char_of(n % 10)) == n % 10);
        assert forall|i: int| 0 <= i < s.len() implies is_dec_digit(#[trigger] s[i]) by {
            if i < a.len() {
                assert(s[i] == a[i]);
            } else {
                assert(s[i] == hex_char_of(n % 10));
            }
        }
        assert(s[0] == a[0]);
        if a.len() == 1 {
            assert(n / 10 >= 1);
            assert(a =~= seq![hex_char_of(n / 10)]);
        }
        assert(s.len() == a.len() + 1);
        assert(pow10(s.len() as nat) == 10 * pow10(a.len() as nat));
        assert(10 * (n / 10) <= 10 * (pow10(a.len() as nat) - 1));
        assert(n / 10 >= 1);
        assert(10 * (n / 10) >= 10 * pow10((a.len() - 1) as nat));
        assert(pow10(a.len() as nat) == 10 * pow10((a.len() - 1) as nat));
    }
}

/// Reads one character as a decimal digit.
fn dec_digit_value(c: char) -> (r: Option<u8>)
    ensures
        r is Some <==> is_dec_digit(c),
        r is Some ==> r->0 == hex_val(c) && r->0 < 10,
{
    match c {
        '0' => Some(0u8),
        '1' => Some(1u8),
        '2' => Some(2u8),
        '3' => Some(3u8),
        '4' => Some(4u8),
        '5' => Some(5u8),
        '6' => Some(6u8),
        '7' => Some(7u8),
        '8' => Some(8u8),
        '9' => Some(9u8),
        _ => None,
    }
}

/// The digits of `rev` read back to front, as characters.
spec fn chars_of_rev(rev: Seq<u8>) -> Seq<char> {
    Seq::new(rev.len(), |i: int| hex_char_of(rev[rev.len() - 1 - i] as int))
}

proof fn lemma_chars_of_rev_push(rev: Seq<u8>, d: u8)
    ensures
        chars_of_rev(rev.push(d)) == seq![hex_char_of(d as int)] + chars_of_rev(rev),
{
    assert(chars_of_rev(rev.push(d)) =~= seq![hex_char_of(d as int)] + chars_of_rev(rev));
}

/// Appends the decimal digits of `n`, most significant first, to `s`.
fn push_decimal(s: &mut String, n: u64)
    ensures
        final(s)@ == old(s)@ + dec_digits(n as int),
{
    if n <= 9 {
        push_hex_char(s, n as u8);
        return ;
    }
    let mut rev: Vec<u8> = Vec::new();
    let mut m: u64 = n;
    while m > 0
        invariant
            forall|k: int| 0 <= k < rev@.len() ==> rev@[k] < 10,
            if m > 0 {
                dec_digits(n as int) == dec_digits(m as int) + chars_of_rev(rev@)
            } else {
                dec_digits(n as int) == chars_of_rev(rev@) && rev@.len() > 0
            },
        decreases m,
    {
        let d: u8 = (m % 10) as u8;
        let ghost old_m = m as int;
        let ghost old_rev = rev@;
        rev.push(d);
        m = m / 10;
        proof {
            lemma_chars_of_rev_push(old_rev, d);
            if old_m > 9 {
                assert(dec_digits(old_m) == dec_digits(old_m / 10) + seq![hex_char_of(old_m % 10)]);
                assert(dec_digits(old_m) + chars_of_rev(old_rev) =~= dec_digits(old_m / 10)
                    + chars_of_rev(rev@));
            } else {
                assert(dec_digits(old_m) + chars_of_rev(old_rev) =~= chars_of_rev(rev@));
            }
        }
    }
    let mut i: usize = 0;
    let ghost base = s@;
    while i < rev.len()
        invariant
            forall|k: int| 0 <= k < rev@.len() ==> rev@[k] < 10,
            i <= rev@.len(),
            s@ == base + chars_of_rev(rev@).subrange(0, i as int),
        decreases rev@.len() - i,
    {
        let d = rev[rev.len() - 1 - i];
        push_hex_char(s, d);
        i = i + 1;
        proof {
            assert(s@ =~= base + chars_of_rev(rev@).subrange(0, i as int));
        }
    }
    proof {
        assert(chars_of_rev(rev@).subrange(0, rev@.len() as int) =~= chars_of_rev(rev@));
    }
}

impl Seconds {
    /// Wraps an explicit count of milliseconds since the Unix epoch.
    pub fn from_millis(millis: i64) -> (r: Seconds)
        ensures
            r.millis == millis,
    {
        Seconds { millis }
    }

    /// Wraps an explicit count of whole seconds since the Unix epoch,
    /// for deterministic construction and for marking start and end
    /// times; the representable range of milliseconds bounds it.
    pub fn from_seconds(secs: i64) -> (r: Seconds)
        requires
            -9223372036854775 <= secs <= 9223372036854775,
        ensures
            r.millis == secs * 1000,
    {
        Seconds { millis: secs * 1000 }
    }

    /// The count of milliseconds since the Unix epoch.
    pub fn as_millis(&self) -> (r: i64)
        ensures
            r == self.millis,
    {
        self.millis
    }

    /// Samples the system clock once; never an instant before the epoch.
    pub fn now() -> (r: Seconds)
        ensures
            r.millis >= 0,
    {
        let m = clock_unix_millis();
        let millis: i64 = if m > 0x7fff_ffff_ffff_ffffu64 {
            i64::MAX
        } else {
            m as i64
        };
        Seconds { millis }
    }

    /// Renders the timestamp in its canonical decimal form: optional
    /// minus sign, whole seconds, a dot, three fractional digits.
    pub fn to_text(&self) -> (r: String)
        ensures
            r@ == seconds_text(self.millis as int),
    {
        let neg = self.millis < 0;
        let mag: u64 = if neg {
            (-(self.millis as i128)) as u64
        } else {
            self.millis as u64
        };
        proof {
            assert(mag as int == if self.millis < 0 {
                -(self.millis as int)
            } else {
                self.millis as int
            });
        }
        let mut s = String::new();
        if neg {
            proof {
                reveal_strlit("-");
            }
            s.append("-");
        }
        push_decimal(&mut s, mag / 1000);
        proof {
            reveal_strlit(".");
        }
        s.append(".");
        push_hex_char(&mut s, ((mag / 100) % 10) as u8);
        push_hex_char(&mut s, ((mag / 10) % 10) as u8);
        push_hex_char(&mut s, (mag % 10) as u8);
        proof {
            assert(s@ =~= seconds_text(self.millis as int));
        }
        s
    }

    /// Parses the canonical decimal form back into a timestamp; text
    /// that deviates from it, or whose magnitude does not fit the
    /// millisecond representation, is rejected with a format error.
    pub fn parse_text(s: &str) -> (r: Result<Seconds, Error>)
        ensures
            r is Ok <==> valid_seconds_text(s@),
            r is Ok ==> r->Ok_0.millis as int == text_val(s@),
            r is Err ==> r->Err_0 == Error::InvalidFormat,
    {
        let n = s.unicode_len();
        let neg = n > 0 && s.get_char(0) == '-';
        let b0: usize = if neg {
            1
        } else {
            0
        };
        if n < b0 + 5 {
            return Err(Error::InvalidFormat);
        }
        if s.get_char(n - 4) != '.' {
            return Err(Error::InvalidFormat);
        }
        let idigits = n - 4 - b0;
        if idigits > 16 {
            return Err(Error::InvalidFormat);
        }
        if idigits > 1 && s.get_char(b0) == '0' {
            return Err(Error::InvalidFormat);
        }
        let mut i: usize = b0;
        let mut ival: u64 = 0;
        proof {
            assert(s@.subrange(b0 as int, b0 as int) =~= Seq::<char>::empty());
        }
        while i < n - 4
            invariant
                n == s@.len(),
                n >= b0 + 5,
                b0 <= 1,
                (b0 == 1) <==> (s@.len() > 0 && s@[0] == '-'),
                n - 4 - b0 <= 16,
                b0 <= i <= n - 4,
                forall|j: int| b0 <= j < i ==> is_dec_digit(#[trigger] s@[j]),
                ival as int == digits_val(s@.subrange(b0 as int, i as int)),
                (ival as int) < pow10((i - b0) as nat),
            decreases n - i,
        {
            let c = s.get_char(i);
            let d = match dec_digit_value(c) {
                Some(d) => d,
                None => {
                    return Err(Error::InvalidFormat);
                },
            };
            proof {
                lemma_pow10_mono((i - b0) as nat, 15);
                lemma_pow10_consts();
                let t = s@.subrange(b0 as int, i as int + 1);
                assert(t.drop_last() =~= s@.subrange(b0 as int, i as int));
                assert(t.last() == s@[i as int]);
                assert(digits_val(t) == digits_val(t.drop_last()) * 10 + hex_val(t.last()));
                assert(pow10((i + 1 - b0) as nat) == 10 * pow10((i - b0) as nat));
            }
            ival = ival * 10 + (d as u64);
            i = i + 1;
        }
        proof {
            lemma_pow10_mono((i - b0) as nat, 16);
            lemma_pow10_consts();
        }
        let d1 = match dec_digit_value(s.get_char(n - 3)) {
            Some(d) => d,
            None => {
                return Err(Error::InvalidFormat);
            },
        };
        let d2 = match dec_digit_value(s.get_char(n - 2)) {
            Some(d) => d,
            None => {
                return Err(Error::InvalidFormat);
            },
        };
        let d3 = match dec_digit_value(s.get_char(n - 1)) {
            Some(d) => d,
            None => {
                return Err(Error::InvalidFormat);
            },
        };
        let fval: u64 = 100 * (d1 as u64) + 10 * (d2 as u64) + (d3 as u64);
        let mag: u64 = ival * 1000 + fval;
        proof {
            let fs = s@.subrange(n as int - 3, n as int);
            let f2 = fs.drop_last();
            let f1 = f2.drop_last();
            assert(f2 =~= s@.subrange(n as int - 3, n as int - 1));
            assert(f1 =~= s@.subrange(n as int - 3, n as int - 2));
            assert(f1.drop_last() =~= Seq::<char>::empty());
            assert(fs.last() == s@[n as int - 1]);
            assert(f2.last() == s@[n as int - 2]);
            assert(f1.last() == s@[n as int - 3]);
            assert(digits_val(Seq::<char>::empty()) == 0);
            assert(digits_val(f1) == digits_val(f1.drop_last()) * 10 + hex_val(f1.last()));
            assert(digits_val(f2) == digits_val(f1) * 10 + hex_val(f2.last()));
            assert(digits_val(fs) == digits_val(f2) * 10 + hex_val(fs.last()));
            assert(mag as int == text_mag(s@));
        }
        let limit: u64 = if neg {
            0x8000_0000_0000_0000
        } else {
            0x7fff_ffff_ffff_ffff
        };
        if mag > limit {
            return Err(Error::InvalidFormat);
        }
        let millis: i64 = if neg {
            (-(mag as i128)) as i64
        } else {
            mag as i64
        };
        proof {
            assert(valid_seconds_text(s@));
        }
        Ok(Seconds { millis })
    }
}

/// A timestamp round-trips through its canonical decimal form: the
/// rendering is valid timestamp text, and it denotes exactly the same
/// count of milliseconds — nothing of the instant is lost.
#[verifier::rlimit(50)]
pub proof fn lemma_seconds_text_round_trip(t: Seconds)
    ensures
        valid_seconds_text(seconds_text(t.millis as int)),
        text_val(seconds_text(t.millis as int)) == t.millis as int,
{
    let ms = t.millis as int;
    let m = if ms < 0 {
        -ms
    } else {
        ms
    };
    let sec = m / 1000;
    let s = seconds_text(ms);
    let b0: int = if ms < 0 {
        1
    } else {
        0
    };
    lemma_dec_digits_props(sec);
    lemma_pow10_consts();
    let dd = dec_digits(sec);
    if dd.len() > 16 {
        if sec >= 1 {
            lemma_pow10_mono(16, (dd.len() - 1) as nat);
        }
        assert(false);
    }
    assert(s.len() == b0 + dd.len() + 4);
    assert(s[s.len() - 4] == '.');
    assert(s[0] == '-' <==> ms < 0) by {
        if ms >= 0 {
            assert(s[0] == dd[0]);
            assert(is_dec_digit(dd[0]));
        }
    }
    assert forall|i: int| b0 <= i < s.len() - 4 implies is_dec_digit(#[trigger] s[i]) by {
        assert(s[i] == dd[i - b0]);
    }
    assert forall|i: int| s.len() - 4 < i < s.len() implies is_dec_digit(#[trigger] s[i]) by {
        lemma_mod_digit_range(m);
    }
    assert(s[b0] == dd[0]);
    assert(s.subrange(b0, s.len() - 4) =~= dd);
    let fr = seq![
        hex_char_of((m / 100) % 10),
        hex_char_of((m / 10) % 10),
        hex_char_of(m % 10),
    ];
    assert(s.subrange(s.len() - 3, s.len() as int) =~= fr);
    lemma_mod_digit_range(m);
    let f2 = fr.drop_last();
    let f1 = f2.drop_last();
    assert(f2 =~= seq![hex_char_of((m / 100) % 10), hex_char_of((m / 10) % 10)]);
    assert(f1 =~= seq![hex_char_of((m / 100) % 10)]);
    assert(f1.drop_last() =~= Seq::<char>::empty());
    assert(digits_val(Seq::<char>::empty()) == 0);
    assert(digits_val(f1) == digits_val(f1.drop_last()) * 10 + hex_val(f1.last()));
    assert(digits_val(f2) == digits_val(f1) * 10 + hex_val(f2.last()));
    assert(digits_val(fr) == digits_val(f2) * 10 + hex_val(fr.last()));
    assert(hex_val(hex_char_of((m / 100) % 10)) == (m / 100) % 10);
    assert(hex_val(hex_char_of((m / 10) % 10)) == (m / 10) % 10);
    assert(hex_val(hex_char_of(m % 10)) == m % 10);
    lemma_div_denominator(m, 10, 10);
    lemma_div_denominator(m, 100, 10);
    lemma_fundamental_div_mod(m, 10);
    lemma_fundamental_div_mod(m / 10, 10);
    lemma_fundamental_div_mod(m / 100, 10);
    assert(digits_val(fr) == 100 * ((m / 100) % 10) + 10 * ((m / 10) % 10) + m % 10);
    assert(100 * ((m / 100) % 10) == 100 * (m / 100) - 1000 * (m / 1000));
    assert(10 * ((m / 10) % 10) == 10 * (m / 10) - 100 * (m / 100));
    assert(m % 10 == m - 10 * (m / 10));
    assert(digits_val(fr) == m - 1000 * sec);
    assert(text_mag(s) == m);
}

/// The three low decimal places of a nonnegative number are digits.
proof fn lemma_mod_digit_range(m: int)
    requires
        m >= 0,
    ensures
        0 <= (m / 100) % 10 <= 9,
        0 <= (m / 10) % 10 <= 9,
        0 <= m % 10 <= 9,
        is_dec_digit(hex_char_of((m / 100) % 10)),
        is_dec_digit(hex_char_of((m / 10) % 10)),
        is_dec_digit(hex_char_of(m % 10)),
{
}

} // verus!


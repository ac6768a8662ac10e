use crate::network::Timestamp;
use vstd::prelude::*;

verus! {

/// An extension of `Option` by a test that holds of an empty option.
pub trait OptionExt<T> {
    /// What the option holds, as a specification value.
    spec fn held(self) -> Option<T>;

    /// `true` for an empty option, else what `f` says of the value.
    fn is_none_or<F: FnOnce(T) -> bool>(self, f: F) -> (r: bool) where Self: Sized
        requires
            self.held() matches Some(x) ==> f.requires((x,)),
        ensures
            self.held() is None ==> r,
            self.held() matches Some(x) ==> f.ensures((x,), r),
    ;
}

impl<T> OptionExt<T> for Option<T> {
    open spec fn held(self) -> Option<T> {
        self
    }

    fn is_none_or<F: FnOnce(T) -> bool>(self, f: F) -> (r: bool) {
        match self {
            Some(x) => f(x),
            None => true,
        }
    }
}

/// The value of an option that is known to hold one.
pub fn const_unwrap<T: Copy>(x: Option<T>) -> (v: T)
    requires
        x is Some,
    ensures
        Some(v) == x,
{
    match x {
        Some(v) => v,
        None => vstd::pervasive::unreached(),
    }
}

/// Whether every flag of the buffer is down.
pub fn is_zero(buf: &[bool]) -> (r: bool)
    ensures
        r == (forall|i: int| 0 <= i < buf@.len() ==> !buf@[i]),
{
    let mut i: usize = 0;
    while i < buf.len()
        invariant
            i <= buf@.len(),
            forall|j: int| 0 <= j < i ==> !buf@[j],
        decreases buf@.len() - i,
    {
        if buf[i] {
            return false;
        }
        i += 1;
    }
    true
}

/// The size of a type in bits.
pub fn get_size_bits<T>() -> (bits: usize)
    requires
        vstd::layout::size_of::<T>() * 8 <= usize::MAX,
    ensures
        bits == vstd::layout::size_of::<T>() * 8,
{
    core::mem::size_of::<T>() * 8
}

/// `pat` stands in `s` at position `i`.
pub open spec fn occurs_at(s: Seq<char>, pat: Seq<char>, i: int) -> bool {
    0 <= i && i + pat.len() <= s.len() && s.subrange(i, i + pat.len()) == pat
}

/// `r` is `s` up to the first place where `pat` stands in it, all of `s`
/// where it stands nowhere.
pub open spec fn is_prefix_before(s: Seq<char>, pat: Seq<char>, r: Seq<char>) -> bool {
    &&& r.len() <= s.len()
    &&& r == s.subrange(0, r.len() as int)
    &&& forall|j: int| 0 <= j < r.len() ==> !occurs_at(s, pat, j)
    &&& occurs_at(s, pat, r.len() as int) || (r.len() == s.len() && forall|j: int|
        !occurs_at(s, pat, j))
}

/// Whether `pat` stands in `s` at the character position `i`.
fn matches_at(s: &str, n: usize, pat: &str, m: usize, i: usize) -> (r: bool)
    requires
        n == s@.len(),
        m == pat@.len(),
        i + m <= n,
    ensures
        r == occurs_at(s@, pat@, i as int),
{
    let mut k: usize = 0;
    while k < m
        invariant
            n == s@.len(),
            m == pat@.len(),
            i + m <= n,
            k <= m,
            forall|j: int| 0 <= j < k ==> s@[i + j] == pat@[j],
        decreases m - k,
    {
        if s.get_char(i + k) != pat.get_char(k) {
            assert(s@.subrange(i as int, i + m)[k as int] != pat@[k as int]);
            return false;
        }
        k += 1;
    }
    assert(s@.subrange(i as int, i + m) =~= pat@);
    true
}

/// The name of a stop without what follows the station suffix: for
/// "Noble Park Railway Station (Noble Park)" it is "Noble Park".
pub fn get_short_stop_name(stop: &str) -> (short: &str)
    ensures
        is_prefix_before(stop@, " Railway Station"@, short@),
{
    let pat = " Railway Station";
    proof {
        reveal_strlit(" Railway Station");
    }
    let n = stop.unicode_len();
    let m = pat.unicode_len();
    if n < m {
        assert(stop@.subrange(0, n as int) =~= stop@);
        return stop;
    }
    let mut i: usize = 0;
    while i <= n - m
        invariant
            n == stop@.len(),
            m == pat@.len(),
            pat@ == " Railway Station"@,
            0 < m <= n,
            i <= n - m + 1,
            forall|j: int| 0 <= j < i ==> !occurs_at(stop@, pat@, j),
        decreases n - m + 1 - i,
    {
        if matches_at(stop, n, pat, m, i) {
            return stop.substring_char(0, i);
        }
        i += 1;
    }
    assert(stop@.subrange(0, n as int) =~= stop@);
    stop
}

/// `c` is one of the ten ASCII digits.
pub open spec fn is_digit(c: char) -> bool {
    48 <= c as u32 <= 57
}

/// The number that a sequence of ASCII digits writes in base ten.
pub open spec fn decimal_value(s: Seq<char>) -> nat
    decreases s.len(),
{
    if s.len() == 0 {
        0
    } else {
        decimal_value(s.drop_last()) * 10 + (s.last() as u32 - 48) as nat
    }
}

/// The digits of an unsigned number: `s` without a leading plus sign.
pub open spec fn unsigned_digits(s: Seq<char>) -> Seq<char> {
    if s.len() > 0 && s[0] == '+' {
        s.subrange(1, s.len() as int)
    } else {
        s
    }
}

/// `s` writes a number that fits in 32 bits: an optional plus sign, then
/// one digit or more.
pub open spec fn parses_as_u32(s: Seq<char>) -> bool {
    let d = unsigned_digits(s);
    &&& d.len() > 0
    &&& forall|i: int| 0 <= i < d.len() ==> is_digit(#[trigger] d[i])
    &&& decimal_value(d) <= u32::MAX
}

/// The number that `s` writes.
pub open spec fn u32_value(s: Seq<char>) -> nat {
    decimal_value(unsigned_digits(s))
}

proof fn lemma_decimal_value_prefix(s: Seq<char>, k: int)
    requires
        0 <= k <= s.len(),
        forall|i: int| 0 <= i < s.len() ==> is_digit(#[trigger] s[i]),
    ensures
        decimal_value(s.subrange(0, k)) <= decimal_value(s),
    decreases s.len() - k,
{
    if k == s.len() {
        assert(s.subrange(0, k) =~= s);
    } else {
        let d = s.drop_last();
        assert(d.subrange(0, k) =~= s.subrange(0, k));
        lemma_decimal_value_prefix(d, k);
    }
}

/// Reads an unsigned number in base ten. `None` where the text is no such
/// number or the number does not fit in 32 bits.
pub fn parse_decimal(s: &str) -> (r: Option<u32>)
    ensures
        r is Some <==> parses_as_u32(s@),
        r matches Some(v) ==> v == u32_value(s@),
{
    let n = s.unicode_len();
    if n == 0 {
        return None;
    }
    let start: usize = if s.get_char(0) == '+' {
        1
    } else {
        0
    };
    if start == n {
        return None;
    }
    let ghost d = unsigned_digits(s@);
    assert(d =~= s@.subrange(start as int, n as int));
    let mut acc: u32 = 0;
    let mut i: usize = start;
    while i < n
        invariant
            n == s@.len(),
            start <= i <= n,
            d == s@.subrange(start as int, n as int),
            d == unsigned_digits(s@),
            forall|j: int| 0 <= j < i - start ==> is_digit(#[trigger] d[j]),
            acc == decimal_value(d.subrange(0, i - start)),
        decreases n - i,
    {
        let c = s.get_char(i);
        let code = c as u32;
        if code < 48 || code > 57 {
            assert(!is_digit(d[i - start]));
            return None;
        }
        let digit: u32 = code - 48;
        proof {
            assert(d.subrange(0, i - start + 1).drop_last() =~= d.subrange(0, i - start));
        }
        if acc > (u32::MAX - digit) / 10 {
            proof {
                if parses_as_u32(s@) {
                    lemma_decimal_value_prefix(d, i - start + 1);
                }
            }
            return None;
        }
        acc = acc * 10 + digit;
        i += 1;
    }
    assert(d.subrange(0, n - start) =~= d);
    Some(acc)
}

/// The seconds since midnight that an hour, a minute and a second make, each
/// given in digits. `None` where one of them is no number or the seconds do not
/// fit in 32 bits.
pub fn parse_time_impl(h: &str, m: &str, s: &str) -> (r: Option<Timestamp>)
    ensures
        r is Some <==> parses_as_u32(h@) && parses_as_u32(m@) && parses_as_u32(s@) && u32_value(h@)
            * 3600 + u32_value(m@) * 60 + u32_value(s@) <= u32::MAX,
        r matches Some(t) ==> t == u32_value(h@) * 3600 + u32_value(m@) * 60 + u32_value(s@),
{
    let hours = match parse_decimal(h) {
        Some(v) => v,
        None => {
            return None;
        },
    };
    let minutes = match parse_decimal(m) {
        Some(v) => v,
        None => {
            return None;
        },
    };
    let seconds = match parse_decimal(s) {
        Some(v) => v,
        None => {
            return None;
        },
    };
    let total: u64 = hours as u64 * 3600 + minutes as u64 * 60 + seconds as u64;
    if total > u32::MAX as u64 {
        return None;
    }
    Some(total as u32)
}

#[verifier::external_type_specification]
#[verifier::external_body]
pub struct ExGtfsError(gtfs_structures::Error);

/// The hour, minute and second fields of a time of day written as
/// `H..H:MM:SS`.
pub open spec fn time_fields(s: Seq<char>) -> (Seq<char>, Seq<char>, Seq<char>) {
    (
        s.subrange(0, s.len() - 6),
        s.subrange(s.len() - 5, s.len() - 3),
        s.subrange(s.len() - 2, s.len() as int),
    )
}

/// The seconds since midnight that the three fields of `s` make.
pub open spec fn time_value(s: Seq<char>) -> nat {
    let (h, m, sec) = time_fields(s);
    u32_value(h) * 3600 + u32_value(m) * 60 + u32_value(sec)
}

/// `s` is a time of day: three numbers with colons between them, the last
/// two of two characters each, that make a number of seconds which fits in 32
/// bits. The hour may pass 24.
pub open spec fn valid_time(s: Seq<char>) -> bool {
    let (h, m, sec) = time_fields(s);
    &&& s.len() >= 7
    &&& s[s.len() - 6] == ':'
    &&& s[s.len() - 3] == ':'
    &&& parses_as_u32(h)
    &&& parses_as_u32(m)
    &&& parses_as_u32(sec)
    &&& time_value(s) <= u32::MAX
}

/// Builds `gtfs_structures::Error::InvalidTime` with a copy of the text that
/// was refused. Nothing is claimed of the value.
#[verifier::external_body]
fn invalid_time(s: &str) -> gtfs_structures::Error {
    gtfs_structures::Error::InvalidTime(s.to_owned())
}

/// Reads a time of day, `HH:MM:SS`, as seconds since midnight. Any other
/// text is refused with the feed reader's error for an invalid time.
pub fn parse_time(s: &str) -> (r: Result<Timestamp, gtfs_structures::Error>)
    ensures
        r is Ok <==> valid_time(s@),
        r matches Ok(t) ==> t == time_value(s@),
{
    let n = s.unicode_len();
    if n < 7 {
        return Err(invalid_time(s));
    }
    if s.get_char(n - 6) != ':' || s.get_char(n - 3) != ':' {
        return Err(invalid_time(s));
    }
    let hour = s.substring_char(0, n - 6);
    let min = s.substring_char(n - 5, n - 3);
    let sec = s.substring_char(n - 2, n);
    match parse_time_impl(hour, min, sec) {
        Some(t) => Ok(t),
        None => Err(invalid_time(s)),
    }
}

/// The character that writes a digit.
pub open spec fn digit_char(d: nat) -> char {
    ((48 + d) as u8) as char
}

/// The digits that write a number in base ten, without leading zeros.
pub open spec fn decimal_digits(n: nat) -> Seq<char>
    decreases n,
{
    if n < 10 {
        seq![digit_char(n)]
    } else {
        decimal_digits(n / 10).push(digit_char(n % 10))
    }
}

/// A number in at least two digits: one below ten gets a leading zero.
pub open spec fn two_digits(n: nat) -> Seq<char> {
    if n < 10 {
        seq!['0'] + decimal_digits(n)
    } else {
        decimal_digits(n)
    }
}

/// A number of seconds since midnight written as `HH:MM:SS`.
pub open spec fn time_text(t: Timestamp) -> Seq<char> {
    two_digits((t / 3600) as nat) + seq![':'] + two_digits((t % 3600 / 60) as nat) + seq![':']
        + two_digits((t % 60) as nat)
}

fn digit_str(d: u32) -> (s: &'static str)
    requires
        d < 10,
    ensures
        s@ == seq![digit_char(d as nat)],
{
    proof {
        reveal_strlit("0");
        reveal_strlit("1");
        reveal_strlit("2");
        reveal_strlit("3");
        reveal_strlit("4");
        reveal_strlit("5");
        reveal_strlit("6");
        reveal_strlit("7");
        reveal_strlit("8");
        reveal_strlit("9");
    }
    let s = match d {
        0 => "0",
        1 => "1",
        2 => "2",
        3 => "3",
        4 => "4",
        5 => "5",
        6 => "6",
        7 => "7",
        8 => "8",
        _ => "9",
    };
    assert(s@ =~= seq![digit_char(d as nat)]);
    s
}

pub(crate) fn push_decimal(out: &mut String, n: u32)
    ensures
        final(out)@ == old(out)@ + decimal_digits(n as nat),
    decreases n,
{
    if n >= 10 {
        push_decimal(out, n / 10);
    }
    out.append(digit_str(n % 10));
}

fn push_two_digits(out: &mut String, n: u32)
    ensures
        final(out)@ == old(out)@ + two_digits(n as nat),
{
    if n < 10 {
        out.append(digit_str(0));
    }
    push_decimal(out, n);
}

/// Writes a number of seconds since midnight as `HH:MM:SS`. The hour takes
/// more than two digits where it needs them.
pub fn get_time_str(time: Timestamp) -> (text: String)
    ensures
        text@ == time_text(time),
{
    let hours = time / 3600;
    let minutes = (time % 3600) / 60;
    let seconds = time % 60;
    let mut out = String::new();
    proof {
        reveal_strlit(":");
    }
    push_two_digits(&mut out, hours);
    out.append(":");
    push_two_digits(&mut out, minutes);
    out.append(":");
    push_two_digits(&mut out, seconds);
    assert(out@ =~= time_text(time));
    out
}

proof fn lemma_decimal_digits(n: nat)
    ensures
        decimal_digits(n).len() >= 1,
        n >= 10 ==> decimal_digits(n).len() >= 2,
        n < 100 ==> decimal_digits(n).len() <= 2,
        forall|i: int| 0 <= i < decimal_digits(n).len() ==> is_digit(#[trigger] decimal_digits(n)[i]),
        decimal_value(decimal_digits(n)) == n,
    decreases n,
{
    let d = decimal_digits(n);
    if n < 10 {
        assert(d.drop_last() =~= Seq::<char>::empty());
        assert(decimal_value(d.drop_last()) == 0);
    } else {
        lemma_decimal_digits(n / 10);
        assert(d.drop_last() =~= decimal_digits(n / 10));
        assert(d.last() == digit_char(n % 10));
    }
}

proof fn lemma_leading_zero(d: Seq<char>)
    ensures
        decimal_value(seq!['0'] + d) == decimal_value(d),
    decreases d.len(),
{
    let z = seq!['0'] + d;
    if d.len() == 0 {
        assert(z.drop_last() =~= Seq::<char>::empty());
        assert(decimal_value(z.drop_last()) == 0);
    } else {
        assert(z.drop_last() =~= seq!['0'] + d.drop_last());
        lemma_leading_zero(d.drop_last());
    }
}

proof fn lemma_two_digits(n: nat)
    ensures
        two_digits(n).len() >= 2,
        n < 100 ==> two_digits(n).len() == 2,
        parses_as_u32(two_digits(n)) <==> n <= u32::MAX,
        u32_value(two_digits(n)) == n,
{
    lemma_decimal_digits(n);
    let d = two_digits(n);
    if n < 10 {
        lemma_leading_zero(decimal_digits(n));
    }
    assert(is_digit(d[0]));
    assert(unsigned_digits(d) == d);
}

/// The fields of a text made of an hour, a minute and a second with colons
/// between them are these three.
proof fn lemma_fields(h: Seq<char>, m: Seq<char>, s: Seq<char>)
    requires
        h.len() >= 1,
        m.len() == 2,
        s.len() == 2,
    ensures
        ({
            let text = h + seq![':'] + m + seq![':'] + s;
            &&& text.len() == h.len() + 6
            &&& time_fields(text) == (h, m, s)
            &&& text[text.len() - 6] == ':'
            &&& text[text.len() - 3] == ':'
        }),
{
    let text = h + seq![':'] + m + seq![':'] + s;
    assert(text.len() == h.len() + 6);
    let n = text.len() as int;
    assert(text.subrange(0, n - 6) =~= h);
    assert(text.subrange(n - 5, n - 3) =~= m);
    assert(text.subrange(n - 2, n) =~= s);
    assert(text[n - 6] == ':');
    assert(text[n - 3] == ':');
}

/// The hours, minutes and seconds of a time make the time.
proof fn lemma_time_parts(t: nat)
    ensures
        (t / 3600) * 3600 + (t % 3600 / 60) * 60 + t % 60 == t,
        t % 3600 / 60 < 60,
        t % 60 < 60,
{
    let r = t % 3600;
    assert(t == (t / 3600) * 3600 + r);
    assert(r == (r / 60) * 60 + r % 60);
    assert(r % 60 == t % 60) by {
        assert(t == 60 * (60 * (t / 3600) + r / 60) + r % 60);
        vstd::arithmetic::div_mod::lemma_fundamental_div_mod_converse(
            t as int,
            60,
            60 * (t / 3600) as int + (r / 60) as int,
            (r % 60) as int,
        );
    }
}

/// Reading back a time that was written gives the time again, for every
/// number of seconds.
pub proof fn lemma_time_round_trip(t: Timestamp)
    ensures
        valid_time(time_text(t)),
        time_value(time_text(t)) == t,
{
    let hours = (t / 3600) as nat;
    let minutes = (t % 3600 / 60) as nat;
    let seconds = (t % 60) as nat;
    lemma_time_parts(t as nat);
    lemma_two_digits(hours);
    lemma_two_digits(minutes);
    lemma_two_digits(seconds);
    lemma_fields(two_digits(hours), two_digits(minutes), two_digits(seconds));
    assert(time_text(t) == two_digits(hours) + seq![':'] + two_digits(minutes) + seq![':']
        + two_digits(seconds));
}

/// The name of a stop without what follows the station suffix.
pub open spec fn short_name(name: Seq<char>) -> Seq<char> {
    choose|short: Seq<char>| is_prefix_before(name, " Railway Station"@, short)
}

/// What `get_short_stop_name` gives is the short name.
pub proof fn lemma_short_name(name: Seq<char>, short: Seq<char>)
    requires
        is_prefix_before(name, " Railway Station"@, short),
    ensures
        short == short_name(name),
{
    lemma_prefix_before_unique(name, " Railway Station"@, short, short_name(name));
}

/// A text has one prefix before the first place where a pattern stands in it.
pub proof fn lemma_prefix_before_unique(s: Seq<char>, pat: Seq<char>, a: Seq<char>, b: Seq<char>)
    requires
        is_prefix_before(s, pat, a),
        is_prefix_before(s, pat, b),
    ensures
        a == b,
{
    if a.len() < b.len() {
        assert(occurs_at(s, pat, a.len() as int));
        assert(!occurs_at(s, pat, a.len() as int));
    } else if b.len() < a.len() {
        assert(occurs_at(s, pat, b.len() as int));
        assert(!occurs_at(s, pat, b.len() as int));
    }
    assert(a =~= b);
}

} // verus!

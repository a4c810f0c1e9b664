//! The decimal line format: each record is one unsigned 64-bit integer
//! written as decimal digits on a line of its own.  Parsing accepts what
//! the standard unsigned-integer grammar accepts: an optional leading plus
//! sign, then one or more digits, with the value in range.

use vstd::prelude::*;
use vstd::string::StrSliceExecFns;
use vstd::string::StringExecFns;

verus! {

/// Does this character stand for a decimal digit?
pub open spec fn is_digit(c: char) -> bool {
    ('0' as u32) <= (c as u32) && (c as u32) <= ('9' as u32)
}

/// The numeric value of a digit character.
pub open spec fn digit_val(c: char) -> int {
    (c as u32) - ('0' as u32)
}

/// The character standing for the digit `d`.
pub open spec fn digit_char(d: int) -> char {
    if d == 0 {
        '0'
    } else if d == 1 {
        '1'
    } else if d == 2 {
        '2'
    } else if d == 3 {
        '3'
    } else if d == 4 {
        '4'
    } else if d == 5 {
        '5'
    } else if d == 6 {
        '6'
    } else if d == 7 {
        '7'
    } else if d == 8 {
        '8'
    } else {
        '9'
    }
}

/// Every character of the sequence is a decimal digit.
pub open spec fn all_digits(s: Seq<char>) -> bool {
    forall|i: int| 0 <= i < s.len() ==> is_digit(#[trigger] s[i])
}

/// The number a digit sequence denotes, most significant digit first.
pub open spec fn dec_value(s: Seq<char>) -> int
    decreases s.len(),
{
    if s.len() == 0 {
        0
    } else {
        dec_value(s.drop_last()) * 10 + digit_val(s.last())
    }
}

/// The digits of a line, after its optional leading plus sign.
pub open spec fn digits_part(s: Seq<char>) -> Seq<char> {
    if s.len() > 0 && s[0] == '+' {
        s.skip(1)
    } else {
        s
    }
}

/// A line denotes a record when, after an optional plus sign, it is one or
/// more decimal digits whose value fits in 64 bits.
pub open spec fn valid_record_line(s: Seq<char>) -> bool {
    &&& digits_part(s).len() > 0
    &&& all_digits(digits_part(s))
    &&& dec_value(digits_part(s)) <= u64::MAX
}

/// The decimal digit characters of `n`, most significant first, no sign and
/// no leading zero (except for zero itself).
pub open spec fn dec_chars(n: nat) -> Seq<char>
    decreases n,
{
    if n < 10 {
        seq![digit_char(n as int)]
    } else {
        dec_chars(n / 10).push(digit_char((n % 10) as int))
    }
}

/// The line rendering of a batch: each record's digits, newline-terminated.
pub open spec fn lines_of(vals: Seq<u64>) -> Seq<char>
    decreases vals.len(),
{
    if vals.len() == 0 {
        Seq::<char>::empty()
    } else {
        lines_of(vals.drop_last()) + dec_chars(vals.last() as nat) + seq!['\n']
    }
}

proof fn lemma_dec_value_nonneg(s: Seq<char>)
    requires
        all_digits(s),
    ensures
        dec_value(s) >= 0,
    decreases s.len(),
{
    if s.len() > 0 {
        assert(all_digits(s.drop_last())) by {
            assert(forall|i: int| 0 <= i < s.len() - 1 ==> s.drop_last()[i] == s[i]);
        }
        lemma_dec_value_nonneg(s.drop_last());
    }
}

/// A digit string is worth at least any of its prefixes.
proof fn lemma_dec_value_prefix_le(s: Seq<char>, k: int)
    requires
        all_digits(s),
        0 <= k <= s.len(),
    ensures
        dec_value(s.take(k)) <= dec_value(s),
    decreases s.len(),
{
    if k == s.len() {
        assert(s.take(k) =~= s);
    } else {
        assert(all_digits(s.drop_last())) by {
            assert(forall|i: int| 0 <= i < s.len() - 1 ==> s.drop_last()[i] == s[i]);
        }
        assert(s.take(k) =~= s.drop_last().take(k));
        lemma_dec_value_prefix_le(s.drop_last(), k);
        lemma_dec_value_nonneg(s.drop_last());
    }
}

/// Parse one line as a record, exactly when the line is a valid record
/// line; every other line is rejected.
pub fn parse_u64(s: &str) -> (r: Option<u64>)
    ensures
        match r {
            Some(n) => valid_record_line(s@) && n == dec_value(digits_part(s@)),
            None => !valid_record_line(s@),
        },
{
    let len = s.unicode_len();
    let start: usize = if len > 0 && s.get_char(0) == '+' {
        1
    } else {
        0
    };
    let ghost d = digits_part(s@);
    proof {
        assert(s@.skip(0) =~= s@);
        assert(d == s@.skip(start as int));
    }
    if start >= len {
        return None;
    }
    let mut acc: u64 = 0;
    let mut i: usize = start;
    while i < len
        invariant
            len == s@.len(),
            start <= i <= len,
            start < len,
            start <= 1,
            d == s@.skip(start as int),
            d == digits_part(s@),
            all_digits(d.take(i - start)),
            acc == dec_value(d.take(i - start)),
        decreases len - i,
    {
        let c = s.get_char(i);
        let cu = c as u32;
        proof {
            assert(d[i - start] == s@[i as int]);
        }
        if cu < '0' as u32 || cu > '9' as u32 {
            proof {
                assert(!is_digit(d[i - start]));
                assert(!all_digits(d));
            }
            return None;
        }
        let dv = (cu - '0' as u32) as u64;
        proof {
            assert(dv == digit_val(d[i - start]));
            assert(d.take(i - start + 1).drop_last() =~= d.take(i - start));
            assert(d.take(i - start + 1).last() == d[i - start]);
            assert(dec_value(d.take(i - start + 1)) == acc * 10 + dv);
            vstd::arithmetic::div_mod::lemma_fundamental_div_mod((u64::MAX - dv) as int, 10);
        }
        let limit = (u64::MAX - dv) / 10;
        if acc > limit {
            proof {
                assert(acc * 10 + dv > u64::MAX);
                assert(!valid_record_line(s@)) by {
                    if all_digits(d) {
                        lemma_dec_value_prefix_le(d, i - start + 1);
                    }
                }
            }
            return None;
        }
        proof {
            assert(acc * 10 + dv <= u64::MAX);
            assert forall|j: int| 0 <= j < i - start + 1 implies is_digit(
                #[trigger] d.take(i - start + 1)[j],
            ) by {
                if j < i - start {
                    assert(d.take(i - start + 1)[j] == d.take(i - start)[j]);
                } else {
                    assert(d.take(i - start + 1)[j] == d[i - start]);
                }
            }
        }
        acc = acc * 10 + dv;
        i = i + 1;
    }
    proof {
        assert(d.take(i - start) =~= d);
    }
    Some(acc)
}

fn digit_str(d: u64) -> (r: &'static str)
    requires
        d < 10,
    ensures
        r@ =~= seq![digit_char(d as int)],
{
    proof {
        reveal_strlit("0");
        reveal_strlit("1");
        reveal_strlit("2");
        reveal_strlit("3");
        reveal_strlit("4");
        reveal_strlit("5");
        reveal_strlit("6");
        reveal_strlit("7");
        reveal_strlit("8");
        reveal_strlit("9");
    }
    if d == 0 {
        "0"
    } else if d == 1 {
        "1"
    } else if d == 2 {
        "2"
    } else if d == 3 {
        "3"
    } else if d == 4 {
        "4"
    } else if d == 5 {
        "5"
    } else if d == 6 {
        "6"
    } else if d == 7 {
        "7"
    } else if d == 8 {
        "8"
    } else {
        "9"
    }
}

/// The characters contributed by digits collected least significant first:
/// the later a digit was collected, the earlier its character stands.
spec fn collected_chars(ds: Seq<u64>) -> Seq<char>
    decreases ds.len(),
{
    if ds.len() == 0 {
        Seq::<char>::empty()
    } else {
        collected_chars(ds.drop_first()) + seq![digit_char(ds.first() as int)]
    }
}

proof fn lemma_collected_push(ds: Seq<u64>, d: u64)
    ensures
        collected_chars(ds.push(d)) == seq![digit_char(d as int)] + collected_chars(ds),
    decreases ds.len(),
{
    if ds.len() == 0 {
        assert(ds.push(d).drop_first() =~= Seq::<u64>::empty());
        assert(ds.push(d).first() == d);
        assert(collected_chars(ds.push(d)) == collected_chars(ds.push(d).drop_first()) + seq![
            digit_char(d as int),
        ]);
        assert(collected_chars(ds) =~= Seq::<char>::empty());
        assert(collected_chars(ds.push(d)) =~= seq![digit_char(d as int)] + collected_chars(ds));
    } else {
        assert(ds.push(d).drop_first() =~= ds.drop_first().push(d));
        assert(ds.push(d).first() == ds.first());
        lemma_collected_push(ds.drop_first(), d);
        assert(collected_chars(ds.push(d)) == collected_chars(ds.drop_first().push(d)) + seq![
            digit_char(ds.first() as int),
        ]);
        assert(collected_chars(ds) == collected_chars(ds.drop_first()) + seq![
            digit_char(ds.first() as int),
        ]);
        assert(collected_chars(ds.push(d)) =~= seq![digit_char(d as int)] + collected_chars(ds));
    }
}

/// Render one record as its decimal digits, most significant first.
pub fn format_u64(n: u64) -> (r: String)
    ensures
        r@ == dec_chars(n as nat),
{
    let mut digits: Vec<u64> = Vec::new();
    let mut m: u64 = n;
    while m >= 10
        invariant
            dec_chars(n as nat) == dec_chars(m as nat) + collected_chars(digits@),
            forall|j: int| 0 <= j < digits@.len() ==> #[trigger] digits@[j] < 10,
        decreases m,
    {
        let ghost old_digits = digits@;
        let d = m % 10;
        digits.push(d);
        m = m / 10;
        proof {
            lemma_collected_push(old_digits, d);
            assert(dec_chars(n as nat) =~= dec_chars(m as nat) + collected_chars(digits@));
        }
    }
    let ghost old_digits = digits@;
    digits.push(m);
    proof {
        lemma_collected_push(old_digits, m);
        assert(dec_chars(m as nat) =~= seq![digit_char(m as int)]);
        assert(dec_chars(n as nat) =~= collected_chars(digits@));
    }
    let mut r = String::new();
    let mut k = digits.len();
    while k > 0
        invariant
            k <= digits@.len(),
            forall|j: int| 0 <= j < digits@.len() ==> #[trigger] digits@[j] < 10,
            r@ == collected_chars(digits@.skip(k as int)),
        decreases k,
    {
        k = k - 1;
        let piece = digit_str(digits[k]);
        r.append(piece);
        proof {
            assert(digits@.skip(k as int).drop_first() =~= digits@.skip(k + 1));
            assert(digits@.skip(k as int).first() == digits@[k as int]);
            assert(r@ =~= collected_chars(digits@.skip(k as int)));
        }
    }
    proof {
        assert(digits@.skip(0) =~= digits@);
    }
    r
}

/// Render a whole batch, one record per line.
pub fn render_lines(batch: &Vec<u64>) -> (r: String)
    ensures
        r@ == lines_of(batch@),
{
    let mut r = String::new();
    let mut i: usize = 0;
    proof {
        assert(batch@.take(0) =~= Seq::<u64>::empty());
    }
    while i < batch.len()
        invariant
            i <= batch@.len(),
            r@ == lines_of(batch@.take(i as int)),
        decreases batch@.len() - i,
    {
        let piece = format_u64(batch[i]);
        r.append(piece.as_str());
        r.append("\n");
        proof {
            reveal_strlit("\n");
            assert(batch@.take(i + 1).drop_last() =~= batch@.take(i as int));
            assert(batch@.take(i + 1).last() == batch@[i as int]);
            assert("\n"@ =~= seq!['\n']);
            assert(r@ =~= lines_of(batch@.take(i + 1)));
        }
        i = i + 1;
    }
    proof {
        assert(batch@.take(batch@.len() as int) =~= batch@);
    }
    r
}

/// Render one record followed by a newline: one output line of the merge.
pub fn render_line(value: u64) -> (r: String)
    ensures
        r@ == dec_chars(value as nat) + seq!['\n'],
{
    let mut r = format_u64(value);
    r.append("\n");
    proof {
        reveal_strlit("\n");
        assert("\n"@ =~= seq!['\n']);
    }
    r
}

/// Each digit's character stands for that digit and nothing else.
proof fn lemma_digit_char_val(d: int)
    requires
        0 <= d < 10,
    ensures
        is_digit(digit_char(d)),
        digit_val(digit_char(d)) == d,
{
    if d == 0 {
        assert(digit_val('0') == 0);
    } else if d == 1 {
        assert(digit_val('1') == 1);
    } else if d == 2 {
        assert(digit_val('2') == 2);
    } else if d == 3 {
        assert(digit_val('3') == 3);
    } else if d == 4 {
        assert(digit_val('4') == 4);
    } else if d == 5 {
        assert(digit_val('5') == 5);
    } else if d == 6 {
        assert(digit_val('6') == 6);
    } else if d == 7 {
        assert(digit_val('7') == 7);
    } else if d == 8 {
        assert(digit_val('8') == 8);
    } else {
        assert(digit_val('9') == 9);
    }
}

/// The rendering of a record is all digits and never empty.
pub proof fn lemma_dec_chars_digits(n: nat)
    ensures
        dec_chars(n).len() > 0,
        all_digits(dec_chars(n)),
    decreases n,
{
    if n < 10 {
    } else {
        lemma_dec_chars_digits(n / 10);
        assert forall|i: int| 0 <= i < dec_chars(n).len() implies is_digit(
            #[trigger] dec_chars(n)[i],
        ) by {
            if i < dec_chars(n).len() - 1 {
                assert(dec_chars(n)[i] == dec_chars(n / 10)[i]);
            }
        }
    }
}

/// The rendering of a record denotes that record.
pub proof fn lemma_dec_chars_value(n: nat)
    ensures
        dec_value(dec_chars(n)) == n,
    decreases n,
{
    if n < 10 {
        lemma_digit_char_val(n as int);
        assert(seq![digit_char(n as int)].drop_last() =~= Seq::<char>::empty());
        assert(dec_value(dec_chars(n)) == dec_value(Seq::<char>::empty()) * 10 + digit_val(
            digit_char(n as int),
        ));
    } else {
        lemma_dec_chars_value(n / 10);
        lemma_digit_char_val((n % 10) as int);
        assert(dec_chars(n).drop_last() =~= dec_chars(n / 10));
        assert(dec_chars(n).last() == digit_char((n % 10) as int));
        vstd::arithmetic::div_mod::lemma_fundamental_div_mod(n as int, 10);
    }
}

/// Law: a rendered record line is a valid record line and parses back to
/// the very record it came from, so the merger may re-read what the
/// spiller wrote.
pub proof fn lemma_render_parse_round_trip(n: u64)
    ensures
        valid_record_line(dec_chars(n as nat)),
        dec_value(digits_part(dec_chars(n as nat))) == n,
{
    lemma_dec_chars_digits(n as nat);
    lemma_dec_chars_value(n as nat);
    assert(is_digit(dec_chars(n as nat)[0]));
    assert(dec_chars(n as nat)[0] != '+');
    assert(digits_part(dec_chars(n as nat)) == dec_chars(n as nat));
}

} // verus!

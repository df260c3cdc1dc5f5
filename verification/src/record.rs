use vstd::prelude::*;

verus! {

/// One validated tabular row: a name's year, gender, ethnicity, text,
/// occurrence count and popularity rank.
#[derive(Debug, Clone)]
pub struct NameData {
    pub year: u32,
    pub gender: String,
    pub ethnicity: String,
    pub name: String,
    pub count: u32,
    pub rank: u32,
}

/// A decimal digit.
pub open spec fn is_digit_char(c: char) -> bool {
    48 <= c as int && c as int <= 57
}

/// The numeric value of a decimal digit.
pub open spec fn digit_value(c: char) -> int {
    c as int - 48
}

pub open spec fn all_digits(s: Seq<char>) -> bool {
    forall|i: int| 0 <= i < s.len() ==> is_digit_char(#[trigger] s[i])
}

/// The value of a sequence of decimal digits, most significant first.
pub open spec fn dec_value(s: Seq<char>) -> int
    decreases s.len(),
{
    if s.len() == 0 {
        0
    } else {
        dec_value(s.drop_last()) * 10 + digit_value(s.last())
    }
}

/// The digits of an unsigned numeral: a leading `'+'` sign is allowed
/// and does not contribute to the value.
pub open spec fn numeral_digits(s: Seq<char>) -> Seq<char> {
    if s.len() > 0 && s[0] == '+' {
        s.drop_first()
    } else {
        s
    }
}

/// Whether `s` denotes a `u32`: at least one digit after an optional
/// `'+'` sign, digits only, and a value that fits in 32 bits.
pub open spec fn is_u32_numeral(s: Seq<char>) -> bool {
    let d = numeral_digits(s);
    d.len() > 0 && all_digits(d) && dec_value(d) <= u32::MAX
}

/// The value denoted by a `u32` numeral.
pub open spec fn u32_numeral_value(s: Seq<char>) -> int {
    dec_value(numeral_digits(s))
}

pub proof fn lemma_dec_value_nonneg(s: Seq<char>)
    requires
        all_digits(s),
    ensures
        dec_value(s) >= 0,
    decreases s.len(),
{
    if s.len() > 0 {
        assert(all_digits(s.drop_last()));
        lemma_dec_value_nonneg(s.drop_last());
    }
}

/// The value of a digit string is at least the value of any of its prefixes.
pub proof fn lemma_dec_value_prefix_le(s: Seq<char>, k: int)
    requires
        all_digits(s),
        0 <= k <= s.len(),
    ensures
        dec_value(s.take(k)) <= dec_value(s),
    decreases s.len() - k,
{
    if k == s.len() {
        assert(s.take(k) =~= s);
    } else {
        assert(s.take(k + 1).drop_last() =~= s.take(k));
        assert(all_digits(s.take(k + 1))) by {
            assert(forall|i: int| 0 <= i < k + 1 ==> s.take(k + 1)[i] == s[i]);
        }
        lemma_dec_value_nonneg(s.take(k));
        assert(dec_value(s.take(k + 1)) == dec_value(s.take(k)) * 10 + digit_value(s[k]));
        assert(dec_value(s.take(k)) * 10 >= dec_value(s.take(k))) by {
            lemma_dec_value_nonneg(s.take(k));
        }
        lemma_dec_value_prefix_le(s, k + 1);
    }
}

/// Reads an unsigned 32-bit integer from a decimal numeral, exactly the
/// strings a `u32` accepts: an optional leading `'+'`, then one or more
/// decimal digits, with a value of at most `u32::MAX`.
pub fn parse_u32(s: &str) -> (r: Option<u32>)
    ensures
        r is Some <==> is_u32_numeral(s@),
        r is Some ==> r->0 == u32_numeral_value(s@),
{
    let len = s.unicode_len();
    if len == 0 {
        return None;
    }
    let first = s.get_char(0);
    let start: usize = if first == '+' {
        1
    } else {
        0
    };
    let ghost digits = numeral_digits(s@);
    proof {
        assert(digits.len() == len - start);
        assert(forall|i: int| 0 <= i < digits.len() ==> digits[i] == s@[i + start]);
    }
    if start == len {
        // a bare sign has no digits
        return None;
    }
    let mut i: usize = start;
    let mut acc: u64 = 0;
    while i < len
        invariant
            start <= i <= len,
            len == s@.len(),
            start <= 1,
            start == 1 ==> s@[0] == '+',
            start == 0 ==> (s@.len() == 0 || s@[0] != '+'),
            start < len,
            digits == numeral_digits(s@),
            digits.len() == len - start,
            forall|k: int| 0 <= k < digits.len() ==> digits[k] == s@[k + start],
            all_digits(digits.take(i - start)),
            acc == dec_value(digits.take(i - start)),
            acc <= u32::MAX,
        decreases len - i,
    {
        let c = s.get_char(i);
        let cv = c as u32;
        if cv < 48 || cv > 57 {
            proof {
                // the numeral has a non-digit, so it denotes nothing
                assert(digits[i - start] == c);
                assert(!is_digit_char(digits[i - start]));
            }
            return None;
        }
        let d = (cv - 48) as u64;
        let next = acc * 10 + d;
        proof {
            assert(digits.take(i - start + 1).drop_last() =~= digits.take(i - start));
            assert(digits.take(i - start + 1).last() == digits[i - start]);
            assert(digits[i - start] == c);
            assert(dec_value(digits.take(i - start + 1)) == acc * 10 + digit_value(c));
        }
        if next > 0xffff_ffff {
            proof {
                // every extension of a too-large prefix is too large
                if is_u32_numeral(s@) {
                    lemma_dec_value_prefix_le(digits, i - start + 1);
                    assert(false);
                }
            }
            return None;
        }
        acc = next;
        i = i + 1;
    }
    proof {
        assert(digits.take(i - start) =~= digits);
    }
    Some(acc as u32)
}

/// Spec of a raw row that a record can be built from: exactly six
/// fields, with the year, count and rank fields unsigned numerals.
pub open spec fn row_parses(row: Seq<Seq<char>>) -> bool {
    &&& row.len() == 6
    &&& is_u32_numeral(row[0])
    &&& is_u32_numeral(row[4])
    &&& is_u32_numeral(row[5])
}

/// Spec relating a record to the raw row it was built from.
pub open spec fn record_matches_row(nd: NameData, row: Seq<Seq<char>>) -> bool {
    &&& nd.year == u32_numeral_value(row[0])
    &&& nd.gender@ == row[1]
    &&& nd.ethnicity@ == row[2]
    &&& nd.name@ == row[3]
    &&& nd.count == u32_numeral_value(row[4])
    &&& nd.rank == u32_numeral_value(row[5])
}

/// The view of a raw row: each field as its character sequence.
pub open spec fn row_view(fields: Seq<String>) -> Seq<Seq<char>> {
    fields.map_values(|f: String| f@)
}

impl NameData {
    /// Builds a record from one raw row, or rejects it: the row must
    /// have exactly six fields, and the year, count and rank fields
    /// must be unsigned 32-bit numerals. The three text fields pass
    /// through unchanged.
    pub fn from_record(fields: &Vec<String>) -> (r: Option<NameData>)
        ensures
            r is Some <==> row_parses(row_view(fields@)),
            r is Some ==> record_matches_row(r->0, row_view(fields@)),
    {
        if fields.len() != 6 {
            return None;
        }
        let year = parse_u32(fields[0].as_str());
        let count = parse_u32(fields[4].as_str());
        let rank = parse_u32(fields[5].as_str());
        match (year, count, rank) {
            (Some(y), Some(c), Some(k)) => Some(
                NameData {
                    year: y,
                    gender: fields[1].clone(),
                    ethnicity: fields[2].clone(),
                    name: fields[3].clone(),
                    count: c,
                    rank: k,
                },
            ),
            _ => None,
        }
    }
}

} // verus!

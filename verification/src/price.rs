//! The reference price: parsing a quoted decimal price into fixed-point
//! units, and pulling the quoted price for one symbol out of a quote
//! service's JSON ticker listing. Fetching the listing itself is I/O and
//! stays outside the library; this module takes the response text.

use vstd::prelude::*;

verus! {

/// An ASCII decimal digit.
pub open spec fn is_digit(b: u8) -> bool {
    48 <= b <= 57
}

/// Every byte of the sequence is an ASCII digit.
pub open spec fn all_digits(s: Seq<u8>) -> bool {
    forall|i: int| 0 <= i < s.len() ==> is_digit(#[trigger] s[i])
}

/// The number an ASCII digit string denotes, most significant first.
pub open spec fn digits_val(s: Seq<u8>) -> int
    decreases s.len(),
{
    if s.len() == 0 {
        0
    } else {
        digits_val(s.drop_last()) * 10 + (s.last() - 48)
    }
}

/// Ten to the `n`th power.
pub open spec fn ten_pow(n: int) -> int
    decreases n,
{
    if n <= 0 {
        1
    } else {
        10 * ten_pow(n - 1)
    }
}

/// The index of the first `.` at or after `i`, or the length when there
/// is none.
pub open spec fn point_index_from(s: Seq<u8>, i: int) -> int
    decreases s.len() - i,
{
    if i < 0 || i >= s.len() {
        s.len() as int
    } else if s[i] == 46 {
        i
    } else {
        point_index_from(s, i + 1)
    }
}

/// The first four fractional digits as ten-thousandths: shorter fractions
/// are scaled up, digits beyond the fourth are truncated.
pub open spec fn frac_scaled(fp: Seq<u8>) -> int {
    if fp.len() == 0 {
        0
    } else if fp.len() == 1 {
        digits_val(fp) * 1000
    } else if fp.len() == 2 {
        digits_val(fp) * 100
    } else if fp.len() == 3 {
        digits_val(fp) * 10
    } else {
        digits_val(fp.subrange(0, 4))
    }
}

/// The fixed-point value of a plain decimal literal: one to fourteen
/// integer digits, then optionally a point and at least one fractional
/// digit. Anything else — a sign, an exponent, a second point, an empty
/// part, a non-digit — has no value.
pub open spec fn decimal_value(s: Seq<u8>) -> Option<int> {
    let p = point_index_from(s, 0);
    let ip = s.subrange(0, p);
    let fp = if p < s.len() {
        s.subrange(p + 1, s.len() as int)
    } else {
        Seq::<u8>::empty()
    };
    if ip.len() == 0 || ip.len() > 14 || !all_digits(ip) || (p < s.len() && fp.len() == 0)
        || !all_digits(fp) {
        None
    } else {
        Some(digits_val(ip) * 10000 + frac_scaled(fp))
    }
}

/// The usable fixed-point price a quoted decimal denotes: its value when
/// that is positive, nothing for zero or for malformed text.
pub open spec fn price_from_decimal(s: Seq<u8>) -> Option<u64> {
    match decimal_value(s) {
        Some(v) => if 0 < v <= u64::MAX {
            Some(v as u64)
        } else {
            None
        },
        None => None,
    }
}

/// A digit string's value is non-negative and below ten to its length.
proof fn lemma_digits_val_bound(s: Seq<u8>)
    requires
        all_digits(s),
    ensures
        0 <= digits_val(s) < ten_pow(s.len() as int),
    decreases s.len(),
{
    if s.len() > 0 {
        assert(all_digits(s.drop_last())) by {
            assert(forall|i: int| 0 <= i < s.len() - 1 ==> s.drop_last()[i] == s[i]);
        }
        lemma_digits_val_bound(s.drop_last());
        assert(is_digit(s.last()));
    }
}

/// Powers of ten are at least one.
proof fn lemma_ten_pow_pos(n: int)
    ensures
        ten_pow(n) >= 1,
    decreases n,
{
    if n > 0 {
        lemma_ten_pow_pos(n - 1);
    }
}

/// Powers of ten grow with the exponent.
proof fn lemma_ten_pow_mono(a: int, b: int)
    requires
        a <= b,
    ensures
        ten_pow(a) <= ten_pow(b),
    decreases b - a,
{
    if a < b {
        lemma_ten_pow_mono(a, b - 1);
        if b > 0 {
            lemma_ten_pow_pos(b - 1);
            assert(ten_pow(b) == 10 * ten_pow(b - 1));
        }
    }
}

/// What the point scan finds: everything before the first point is not a
/// point, and the position it reports holds one unless it is the end.
proof fn lemma_point_index_props(s: Seq<u8>, i: int)
    requires
        0 <= i <= s.len(),
    ensures
        i <= point_index_from(s, i) <= s.len(),
        point_index_from(s, i) < s.len() ==> s[point_index_from(s, i)] == 46,
        forall|k: int| i <= k < point_index_from(s, i) ==> s[k] != 46,
    decreases s.len() - i,
{
    if i < s.len() && s[i] != 46 {
        lemma_point_index_props(s, i + 1);
    }
}

/// Reading one more digit multiplies the prefix value by ten and adds it.
proof fn lemma_digits_val_snoc(s: Seq<u8>, k: int)
    requires
        0 <= k < s.len(),
    ensures
        digits_val(s.subrange(0, k + 1)) == digits_val(s.subrange(0, k)) * 10 + (s[k] - 48),
{
    assert(s.subrange(0, k + 1).drop_last() =~= s.subrange(0, k));
    assert(s.subrange(0, k + 1).last() == s[k]);
}

/// Parse a plain decimal price into fixed-point ten-thousandths.
///
/// Returns the value exactly when the text is a decimal literal of the
/// accepted form with a positive value: digits, optionally a point and
/// more digits, of which the first four count. A quote of `45700.5`
/// parses to `457_005_000`; text with a sign, an exponent, a second
/// point or nothing after the point parses to nothing, as does `0.0`.
#[verifier::loop_isolation(false)]
pub fn parse_price_fixed(bytes: &[u8]) -> (r: Option<u64>)
    ensures
        r == price_from_decimal(bytes@),
{
    let n = bytes.len();
    let mut p: usize = 0;
    while p < n && bytes[p] != 46
        invariant
            0 <= p <= n,
            forall|k: int| 0 <= k < p ==> bytes@[k] != 46,
        decreases n - p,
    {
        p = p + 1;
    }
    proof {
        lemma_point_index_props(bytes@, 0);
        let pi = point_index_from(bytes@, 0);
        if pi < p {
            assert(bytes@[pi] == 46);
        }
        if p < pi {
            assert(bytes@[p as int] != 46);
        }
        assert(pi == p);
    }
    let ghost ip: Seq<u8> = bytes@.subrange(0, p as int);
    let ghost fp: Seq<u8> = if p < n {
        bytes@.subrange(p + 1, n as int)
    } else {
        Seq::<u8>::empty()
    };
    if p == 0 || p > 14 {
        return None;
    }
    // integer part: p digits, value below ten_pow(p) <= ten_pow(14)
    let mut acc: u64 = 0;
    let mut k: usize = 0;
    while k < p
        invariant
            0 <= k <= p <= 14,
            p <= n == bytes@.len(),
            ip == bytes@.subrange(0, p as int),
            all_digits(ip.subrange(0, k as int)),
            acc == digits_val(ip.subrange(0, k as int)),
            acc < ten_pow(k as int),
        decreases p - k,
    {
        let b = bytes[k];
        if b < 48 || b > 57 {
            proof {
                assert(ip[k as int] == bytes@[k as int]);
                assert(!all_digits(ip));
            }
            return None;
        }
        proof {
            assert(ip.subrange(0, k + 1).drop_last() =~= ip.subrange(0, k as int));
            assert(ip.subrange(0, k + 1)[k as int] == bytes@[k as int]);
            assert(all_digits(ip.subrange(0, k + 1)));
            lemma_digits_val_bound(ip.subrange(0, k + 1));
            lemma_ten_pow_mono(k as int, 13);
            reveal_with_fuel(ten_pow, 16);
            assert(ten_pow(13) == 10_000_000_000_000);
            assert(acc <= 9_999_999_999_999);
            lemma_digits_val_snoc(ip, k as int);
        }
        acc = acc * 10 + ((b - 48) as u64);
        k = k + 1;
    }
    proof {
        assert(ip.subrange(0, p as int) =~= ip);
    }
    // fractional part, when a point is present
    let mut fu: u64 = 0;
    if p < n {
        let fl = n - p - 1;
        if fl == 0 {
            return None;
        }
        let mut j: usize = p + 1;
        while j < n
            invariant
                p + 1 <= j <= n,
                p < n == bytes@.len(),
                fp == bytes@.subrange(p + 1, n as int),
                all_digits(fp.subrange(0, j - p - 1)),
            decreases n - j,
        {
            let b = bytes[j];
            if b < 48 || b > 57 {
                proof {
                    assert(fp[j - p - 1] == bytes@[j as int]);
                    assert(!all_digits(fp));
                }
                return None;
            }
            proof {
                assert(fp.subrange(0, j - p) =~= fp.subrange(0, j - p - 1).push(bytes@[j as int]));
            }
            j = j + 1;
        }
        proof {
            assert(fp.subrange(0, fp.len() as int) =~= fp);
        }
        // value of the first four fractional digits
        let m = if fl < 4 {
            fl
        } else {
            4
        };
        let mut v: u64 = 0;
        let mut t: usize = 0;
        while t < m
            invariant
                0 <= t <= m <= 4,
                m <= fl,
                fl == n - p - 1,
                p < n == bytes@.len(),
                fp == bytes@.subrange(p + 1, n as int),
                all_digits(fp),
                v == digits_val(fp.subrange(0, t as int)),
                v < ten_pow(t as int),
            decreases m - t,
        {
            let b = bytes[p + 1 + t];
            proof {
                assert(fp[t as int] == bytes@[p + 1 + t]);
                assert(is_digit(fp[t as int]));
                assert(all_digits(fp.subrange(0, t + 1))) by {
                    assert(forall|z: int|
                        0 <= z < t + 1 ==> fp.subrange(0, t + 1)[z] == fp[z]);
                }
                lemma_digits_val_bound(fp.subrange(0, t + 1));
                reveal_with_fuel(ten_pow, 6);
                lemma_digits_val_snoc(fp, t as int);
            }
            v = v * 10 + ((b - 48) as u64);
            t = t + 1;
        }
        proof {
            reveal_with_fuel(ten_pow, 6);
            if m == fl {
                assert(fp.subrange(0, m as int) =~= fp);
            }
        }
        fu = if fl == 1 {
            v * 1000
        } else if fl == 2 {
            v * 100
        } else if fl == 3 {
            v * 10
        } else {
            v
        };
        proof {
            assert(fu == frac_scaled(fp));
        }
    }
    proof {
        assert(fp.len() == 0 ==> frac_scaled(fp) == 0);
        lemma_ten_pow_mono(p as int, 14);
        reveal_with_fuel(ten_pow, 16);
        assert(acc <= 99_999_999_999_999);
        assert(fu <= 9999);
    }
    let value = acc * 10000 + fu;
    proof {
        assert(value == digits_val(ip) * 10000 + frac_scaled(fp));
    }
    if value == 0 {
        return None;
    }
    Some(value)
}

/// The price text a ticker listing quotes for a symbol: the "price"
/// string of the first array element whose "symbol" member equals the
/// symbol and that has a "price" member at all, when the text parses as
/// JSON and the price member is a string; nothing otherwise. Named here
/// because the extraction is a function of the two texts alone and its
/// exact statement would restate a JSON parser.
pub uninterp spec fn ticker_price_text_of(text: Seq<char>, symbol: Seq<char>) -> Option<Seq<u8>>;

/// Relies on serde_json::from_str at Value and on Value::as_array, get,
/// as_str and its string equality: walks the parsed listing to the first
/// element whose "symbol" equals the symbol and hands back the bytes of
/// its "price" string. The result depends on the two texts alone, so it
/// carries the name `ticker_price_text_of`.
#[verifier::external_body]
fn extract_ticker_price_text(text: &str, symbol: &str) -> (r: Option<Vec<u8>>)
    ensures
        match r {
            Some(t) => ticker_price_text_of(text@, symbol@) == Some(t@),
            None => ticker_price_text_of(text@, symbol@) is None,
        },
{
    let root = match serde_json::from_str::<serde_json::Value>(text) {
        Ok(v) => v,
        Err(_) => return None,
    };
    for item in root.as_array()? {
        match (item.get("symbol"), item.get("price")) {
            (Some(sym), Some(price)) if sym == symbol => {
                return Some(price.as_str()?.as_bytes().to_vec());
            },
            _ => {},
        }
    }
    None
}

/// Pull the quoted price of one symbol out of a quote service's ticker
/// listing: JSON text holding an array of objects, each with a "symbol"
/// and a "price" member, the price quoted as a decimal string. The first
/// matching element's price text is parsed as a fixed-point decimal, so
/// the result is pinned: exactly `price_from_decimal` of the text that
/// the listing quotes, nothing when it quotes none. A failure of any
/// kind yields nothing, and the caller falls back to the default
/// reference price.
pub fn reference_price_from_text(text: &str, symbol: &str) -> (r: Option<u64>)
    ensures
        r == match ticker_price_text_of(text@, symbol@) {
            Some(t) => price_from_decimal(t),
            None => None::<u64>,
        },
        r matches Some(v) ==> v > 0,
{
    match extract_ticker_price_text(text, symbol) {
        Some(quoted) => parse_price_fixed(quoted.as_slice()),
        None => None,
    }
}

} // verus!

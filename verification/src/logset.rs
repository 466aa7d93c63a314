//! The on-disk layout of the store: one append-only file per
//! generation, named `<generation>.log`, in a single data directory.
//!
//! Here the layout is modelled: a [`LogFile`] carries a generation
//! number and that file's bytes.  The functions that actually read
//! and write the directory live with the embedding process; they name
//! files with [`log_path`] and order them with
//! [`sorted_generation_list`].

use vstd::prelude::*;
use vstd::utf8::{decode_utf8, encode_utf8, valid_utf8, is_ascii_chars};

use crate::codec::bytes_to_string;

verus! {

/// One generation's log: its number and the file's entire contents.
#[derive(Debug, Clone)]
pub struct LogFile {
    /// The generation that owns the file.
    pub generation: u64,
    /// The file's bytes: a sequence of length-prefixed records.
    pub data: Vec<u8>,
}

/// The decimal digits of `n`, most significant first.
pub open spec fn spec_decimal(n: u64) -> Seq<char>
    decreases n,
{
    if n < 10 {
        seq![((48 + n) as u8) as char]
    } else {
        spec_decimal(n / 10) + seq![((48 + n % 10) as u8) as char]
    }
}

/// The file name a generation's log is stored under.
pub open spec fn spec_log_file_name(generation: u64) -> Seq<char> {
    spec_decimal(generation) + ".log"@
}

/// Every digit character is ASCII.
proof fn lemma_decimal_ascii(n: u64)
    ensures
        is_ascii_chars(spec_decimal(n)),
        forall|i: int|
            0 <= i < spec_decimal(n).len() ==> 48 <= (#[trigger] spec_decimal(n)[i]) as u32 <= 57,
    decreases n,
{
    if n >= 10 {
        lemma_decimal_ascii(n / 10);
    }
}

/// Appends the decimal digits of `n`, as ASCII bytes, to `out`.
fn push_decimal(out: &mut Vec<u8>, n: u64)
    ensures
        final(out)@ == old(out)@ + spec_decimal(n).map_values(|c: char| c as u8),
    decreases n,
{
    if n < 10 {
        out.push(48 + n as u8);
        assert(out@ =~= old(out)@ + spec_decimal(n).map_values(|c: char| c as u8));
    } else {
        push_decimal(out, n / 10);
        out.push(48 + (n % 10) as u8);
        assert(out@ =~= old(out)@ + spec_decimal(n).map_values(|c: char| c as u8));
    }
}

/// The name of the log file for `generation`: its decimal digits
/// followed by `.log`.
pub fn log_path(generation: u64) -> (r: String)
    ensures
        r@ == spec_log_file_name(generation),
{
    broadcast use vstd::utf8::encode_utf8_valid_utf8, vstd::utf8::encode_utf8_decode_utf8,
        vstd::utf8::is_ascii_chars_encode_utf8;

    let mut bytes: Vec<u8> = Vec::new();
    push_decimal(&mut bytes, generation);
    bytes.push(0x2E);
    bytes.push(0x6C);
    bytes.push(0x6F);
    bytes.push(0x67);
    proof {
        reveal_strlit(".log");
        let name = spec_log_file_name(generation);
        lemma_decimal_ascii(generation);
        assert(is_ascii_chars(name));
        assert(bytes@ =~= name.map_values(|c: char| c as u8));
        assert(encode_utf8(name) =~= bytes@);
    }
    match bytes_to_string(bytes) {
        Some(s) => s,
        None => {
            proof {
                assert(false);
            }
            String::new()
        },
    }
}

/// A decimal digit character.
pub open spec fn spec_is_digit(c: char) -> bool {
    48 <= c as u32 <= 57
}

/// The numeric value of a digit character.
pub open spec fn spec_digit_val(c: char) -> int {
    c as u32 - 48
}

/// The value of a digit string, most significant digit first.
pub open spec fn spec_digits_value(s: Seq<char>) -> int
    decreases s.len(),
{
    if s.len() == 0 {
        0
    } else {
        spec_digits_value(s.drop_last()) * 10 + spec_digit_val(s.last())
    }
}

/// A digit string's value is never negative.
proof fn lemma_digits_value_nonneg(s: Seq<char>)
    requires
        forall|i: int| 0 <= i < s.len() ==> spec_is_digit(#[trigger] s[i]),
    ensures
        spec_digits_value(s) >= 0,
    decreases s.len(),
{
    if s.len() > 0 {
        lemma_digits_value_nonneg(s.drop_last());
    }
}

/// Every prefix of a digit string has a value no larger than the
/// whole string's.
proof fn lemma_digits_value_prefix(s: Seq<char>, i: int)
    requires
        forall|t: int| 0 <= t < s.len() ==> spec_is_digit(#[trigger] s[t]),
        0 <= i <= s.len(),
    ensures
        spec_digits_value(s.take(i)) <= spec_digits_value(s),
    decreases s.len() - i,
{
    if i == s.len() {
        assert(s.take(i) =~= s);
    } else {
        assert(s.take(i + 1).drop_last() =~= s.take(i));
        assert(forall|t: int| 0 <= t < s.take(i + 1).len() ==> spec_is_digit(#[trigger] s.take(i + 1)[t]));
        lemma_digits_value_nonneg(s.take(i));
        lemma_digits_value_prefix(s, i + 1);
    }
}

/// Parses a log file name: one or more decimal digits, then `.log`,
/// naming a generation that fits in 64 bits.  Anything else is not a
/// log file and is ignored by discovery.
pub open spec fn spec_parse_generation(s: Seq<char>) -> Option<u64> {
    if s.len() < 5 {
        None
    } else {
        let stem = s.subrange(0, s.len() - 4);
        if s.subrange(s.len() - 4, s.len() as int) != ".log"@ {
            None
        } else if exists|i: int| 0 <= i < stem.len() && !spec_is_digit(#[trigger] stem[i]) {
            None
        } else if spec_digits_value(stem) > u64::MAX {
            None
        } else {
            Some(spec_digits_value(stem) as u64)
        }
    }
}

/// Parses one file name, mirroring [`spec_parse_generation`].
pub fn parse_generation(name: &String) -> (r: Option<u64>)
    ensures
        r == spec_parse_generation(name@),
{
    proof {
        reveal_strlit(".log");
    }
    let s = name.as_str();
    let n = s.unicode_len();
    if n < 5 {
        return None;
    }
    let ghost stem = name@.subrange(0, name@.len() - 4);
    let ghost suffix = name@.subrange(name@.len() - 4, name@.len() as int);
    let c1 = s.get_char(n - 4);
    let c2 = s.get_char(n - 3);
    let c3 = s.get_char(n - 2);
    let c4 = s.get_char(n - 1);
    proof {
        assert(suffix[0] == c1 && suffix[1] == c2 && suffix[2] == c3 && suffix[3] == c4);
        assert(".log"@.len() == 4 && ".log"@[0] == '.' && ".log"@[1] == 'l' && ".log"@[2] == 'o'
            && ".log"@[3] == 'g');
    }
    if !(c1 == '.' && c2 == 'l' && c3 == 'o' && c4 == 'g') {
        proof {
            assert(suffix != ".log"@);
        }
        return None;
    }
    proof {
        assert(suffix =~= ".log"@);
    }
    let mut value: u64 = 0;
    let mut i: usize = 0;
    while i < n - 4
        invariant
            0 <= i <= n - 4,
            n == name@.len(),
            s@ == name@,
            n >= 5,
            stem == name@.subrange(0, name@.len() - 4),
            forall|t: int| 0 <= t < i ==> spec_is_digit(#[trigger] stem[t]),
            value == spec_digits_value(stem.take(i as int)),
        decreases n - 4 - i,
    {
        let c = s.get_char(i);
        let u = c as u32;
        proof {
            assert(stem[i as int] == name@[i as int]);
        }
        if u < 48 || u > 57 {
            proof {
                assert(!spec_is_digit(stem[i as int]));
            }
            return None;
        }
        let d = (u - 48) as u64;
        if value > (u64::MAX - d) / 10 {
            proof {
                assert(value * 10 + d > u64::MAX) by (nonlinear_arith)
                    requires
                        value > (u64::MAX - d) / 10,
                        d <= 9,
                ;
                assert(stem.take(i + 1).drop_last() =~= stem.take(i as int));
                assert(spec_digits_value(stem.take(i + 1)) > u64::MAX);
                if forall|t: int| 0 <= t < stem.len() ==> spec_is_digit(#[trigger] stem[t]) {
                    lemma_digits_value_prefix(stem, i + 1);
                }
            }
            return None;
        }
        proof {
            assert(value * 10 + d <= u64::MAX) by (nonlinear_arith)
                requires
                    value <= (u64::MAX - d) / 10,
                    d <= 9,
            ;
            assert(stem.take(i + 1).drop_last() =~= stem.take(i as int));
        }
        value = value * 10 + d;
        i = i + 1;
    }
    proof {
        assert(stem.take(i as int) =~= stem);
        lemma_digits_value_nonneg(stem);
    }
    Some(value)
}

/// Inserts `g` into a strictly ascending list, keeping it strictly
/// ascending; a value already present is left alone.
fn insert_sorted(v: &mut Vec<u64>, g: u64)
    requires
        forall|i: int, j: int| 0 <= i < j < old(v)@.len() ==> old(v)@[i] < old(v)@[j],
    ensures
        forall|i: int, j: int| 0 <= i < j < final(v)@.len() ==> final(v)@[i] < final(v)@[j],
        forall|x: u64| final(v)@.contains(x) <==> (old(v)@.contains(x) || x == g),
{
    let mut idx: usize = 0;
    while idx < v.len() && v[idx] < g
        invariant
            idx <= v@.len(),
            forall|i: int, j: int| 0 <= i < j < v@.len() ==> v@[i] < v@[j],
            v == old(v),
            forall|i: int| 0 <= i < idx ==> v@[i] < g,
        decreases v@.len() - idx,
    {
        idx = idx + 1;
    }
    if idx < v.len() && v[idx] == g {
        proof {
            assert(v@.contains(g));
        }
        return ;
    }
    let ghost pre = v@;
    v.insert(idx, g);
    proof {
        assert(v@ =~= pre.subrange(0, idx as int) + seq![g] + pre.subrange(
            idx as int,
            pre.len() as int,
        ));
        assert forall|x: u64| v@.contains(x) implies (pre.contains(x) || x == g) by {
            let w = choose|w: int| 0 <= w < v@.len() && v@[w] == x;
            if w < idx {
                assert(pre[w] == x);
            } else if w > idx {
                assert(pre[w - 1] == x);
            }
        }
        assert forall|x: u64| pre.contains(x) implies v@.contains(x) by {
            let w = choose|w: int| 0 <= w < pre.len() && pre[w] == x;
            if w < idx {
                assert(v@[w] == x);
            } else {
                assert(v@[w + 1] == x);
            }
        }
        assert(v@.contains(g)) by {
            assert(v@[idx as int] == g);
        }
    }
}

/// Discovers the generations named by a directory's file names:
/// every name of the form `<digits>.log` contributes its generation,
/// and the result lists them in strictly ascending order, each once.
/// Names that do not parse are ignored, not errors.
pub fn sorted_generation_list(names: &Vec<String>) -> (r: Vec<u64>)
    ensures
        forall|i: int, j: int| 0 <= i < j < r@.len() ==> r@[i] < r@[j],
        forall|g: u64|
            r@.contains(g) <==> exists|t: int|
                0 <= t < names@.len() && spec_parse_generation(#[trigger] names@[t]@) == Some(g),
{
    let mut r: Vec<u64> = Vec::new();
    let mut t: usize = 0;
    while t < names.len()
        invariant
            t <= names@.len(),
            forall|i: int, j: int| 0 <= i < j < r@.len() ==> r@[i] < r@[j],
            forall|g: u64|
                r@.contains(g) <==> exists|u: int|
                    0 <= u < t && spec_parse_generation(#[trigger] names@[u]@) == Some(g),
        decreases names@.len() - t,
    {
        match parse_generation(&names[t]) {
            Some(g) => {
                insert_sorted(&mut r, g);
            },
            None => {},
        }
        t = t + 1;
    }
    r
}

} // verus!

use vstd::prelude::*;
use vstd::string::StrSliceExecFns;
use vstd::string::StringExecFns;
use vstd::utf8::encode_utf8;
use vstd::utf8::decode_utf8;
use vstd::utf8::encode_utf8_valid_utf8;
use vstd::utf8::encode_utf8_decode_utf8;
use vstd::utf8::is_ascii_chars;
use vstd::utf8::is_ascii_chars_encode_utf8;
use crate::codec::string_from_utf8;

verus! {

/// The decimal digits of `n` as ASCII bytes, most significant first, no
/// leading zeros.
pub open spec fn dec_bytes(n: nat) -> Seq<u8>
    decreases n,
{
    if n < 10 {
        seq![(n + 48) as u8]
    } else {
        dec_bytes(n / 10) + seq![(n % 10 + 48) as u8]
    }
}

/// The decimal digits of `n` as characters.
pub open spec fn dec_digits(n: nat) -> Seq<char> {
    dec_bytes(n).map_values(|b: u8| b as char)
}

/// The file name of generation `gen`: its decimal digits and the `log`
/// extension.
pub open spec fn file_name_chars(gen: u64) -> Seq<char> {
    dec_digits(gen as nat) + seq!['.', 'l', 'o', 'g']
}

/// A decimal digit.
pub open spec fn is_digit(c: char) -> bool {
    48 <= c as u32 <= 57
}

/// The numeric value of a digit string, most significant digit first.
pub open spec fn digits_value(s: Seq<char>) -> int
    decreases s.len(),
{
    if s.len() == 0 {
        0
    } else {
        digits_value(s.drop_last()) * 10 + (s.last() as u32 - 48)
    }
}

/// The name has the shape of a generation log file: one or more digits,
/// then `.log`.
pub open spec fn gen_file_name_shape(s: Seq<char>) -> bool {
    &&& s.len() >= 5
    &&& s.subrange(s.len() - 4, s.len() as int) == seq!['.', 'l', 'o', 'g']
    &&& forall|i: int| 0 <= i < s.len() - 4 ==> is_digit(#[trigger] s[i])
}

/// Every byte of a decimal representation is an ASCII digit.
proof fn lemma_dec_bytes_ascii(n: nat)
    ensures
        dec_bytes(n).len() >= 1,
        forall|i: int| 0 <= i < dec_bytes(n).len() ==> 48 <= #[trigger] dec_bytes(n)[i] <= 57,
    decreases n,
{
    if n >= 10 {
        lemma_dec_bytes_ascii(n / 10);
        assert forall|i: int| 0 <= i < dec_bytes(n).len() implies 48 <= #[trigger] dec_bytes(n)[i]
            <= 57 by {
            if i < dec_bytes(n / 10).len() {
                assert(dec_bytes(n)[i] == dec_bytes(n / 10)[i]);
            }
        }
    }
}

/// Law: the digits of `n` read back as `n` - decimal formatting and
/// parsing are inverse.
pub proof fn lemma_dec_digits_value(n: nat)
    ensures
        digits_value(dec_digits(n)) == n,
        dec_digits(n).len() >= 1,
        is_ascii_chars(dec_digits(n)),
        forall|i: int| 0 <= i < dec_digits(n).len() ==> is_digit(#[trigger] dec_digits(n)[i]),
    decreases n,
{
    lemma_dec_bytes_ascii(n);
    let ds = dec_digits(n);
    assert(ds.len() == dec_bytes(n).len());
    assert forall|i: int| 0 <= i < ds.len() implies is_digit(#[trigger] ds[i]) && '\0' <= ds[i]
        <= '\u{7f}' by {
        assert(ds[i] == dec_bytes(n)[i] as char);
    }
    if n < 10 {
        assert(ds =~= seq![(n + 48) as u8 as char]);
        assert(ds.drop_last() =~= Seq::<char>::empty());
        assert(digits_value(Seq::<char>::empty()) == 0);
        assert(ds.last() == (n + 48) as u8 as char);
        assert(digits_value(ds) == (((n + 48) as u8 as char) as u32 - 48));
    } else {
        lemma_dec_digits_value(n / 10);
        assert(ds.drop_last() =~= dec_digits(n / 10)) by {
            assert(ds.len() == dec_bytes(n / 10).len() + 1);
            assert forall|i: int| 0 <= i < ds.len() - 1 implies ds.drop_last()[i] == dec_digits(
                n / 10,
            )[i] by {
                assert(dec_bytes(n)[i] == dec_bytes(n / 10)[i]);
            }
        }
        assert(ds.last() == (n % 10 + 48) as u8 as char);
        assert(digits_value(ds) == digits_value(dec_digits(n / 10)) * 10 + (((n % 10 + 48) as u8
            as char) as u32 - 48));
        assert(n == (n / 10) * 10 + n % 10);
    }
}

/// Law: the file name written for a generation parses back to it.
pub proof fn lemma_file_name_round_trip(gen: u64)
    ensures
        gen_file_name_shape(file_name_chars(gen)),
        digits_value(file_name_chars(gen).subrange(0, file_name_chars(gen).len() - 4)) == gen,
{
    lemma_dec_digits_value(gen as nat);
    let s = file_name_chars(gen);
    assert(s.subrange(s.len() - 4, s.len() as int) =~= seq!['.', 'l', 'o', 'g']);
    assert(s.subrange(0, s.len() - 4) =~= dec_digits(gen as nat));
    assert forall|i: int| 0 <= i < s.len() - 4 implies is_digit(#[trigger] s[i]) by {
        assert(s[i] == dec_digits(gen as nat)[i]);
    }
}

/// A longer digit prefix reads as at least as large a value.
proof fn lemma_digits_value_monotone(s: Seq<char>, i: int, j: int)
    requires
        0 <= i <= j <= s.len(),
        forall|t: int| 0 <= t < s.len() ==> is_digit(#[trigger] s[t]),
    ensures
        digits_value(s.subrange(0, j)) >= digits_value(s.subrange(0, i)),
        digits_value(s.subrange(0, i)) >= 0,
    decreases j - i, i,
{
    if i == j {
        if i > 0 {
            lemma_digits_value_monotone(s, i - 1, i - 1);
            assert(s.subrange(0, i).drop_last() =~= s.subrange(0, i - 1));
            assert(s.subrange(0, i).last() == s[i - 1]);
        }
    } else {
        lemma_digits_value_monotone(s, i, j - 1);
        assert(s.subrange(0, j).drop_last() =~= s.subrange(0, j - 1));
        assert(s.subrange(0, j).last() == s[j - 1]);
    }
}

/// Appends the decimal digits of `n`.
fn push_dec(n: u64, out: &mut Vec<u8>)
    ensures
        final(out)@ == old(out)@ + dec_bytes(n as nat),
    decreases n,
{
    if n >= 10 {
        proof {
            assert(n / 10 < n);
        }
        push_dec(n / 10, out);
    }
    out.push((n % 10) as u8 + 48);
    proof {
        assert(out@ =~= old(out)@ + dec_bytes(n as nat));
    }
}

/// The file name of generation `gen`, `1` writing as `1.log`.
pub fn log_file_name(gen: u64) -> (r: String)
    ensures
        r@ == file_name_chars(gen),
{
    let mut bytes: Vec<u8> = Vec::new();
    push_dec(gen, &mut bytes);
    bytes.push(46);
    bytes.push(108);
    bytes.push(111);
    bytes.push(103);
    let ghost t = file_name_chars(gen);
    proof {
        lemma_dec_bytes_ascii(gen as nat);
        lemma_dec_digits_value(gen as nat);
        assert(is_ascii_chars(t)) by {
            assert forall|i: int| 0 <= i < t.len() implies '\0' <= #[trigger] t[i]
                <= '\u{7f}' by {
                if i < t.len() - 4 {
                    assert(t[i] == dec_digits(gen as nat)[i]);
                }
            }
        }
        is_ascii_chars_encode_utf8(t);
        assert(encode_utf8(t) =~= bytes@) by {
            assert forall|i: int| 0 <= i < t.len() implies #[trigger] encode_utf8(t)[i]
                == bytes@[i] by {
                assert(encode_utf8(t)[i] == t[i] as u8);
                if i < t.len() - 4 {
                    assert(t[i] == dec_bytes(gen as nat)[i] as char);
                    assert(bytes@[i] == dec_bytes(gen as nat)[i]);
                }
            }
        }
        encode_utf8_valid_utf8(t);
    }
    match string_from_utf8(bytes) {
        Some(s) => {
            proof {
                encode_utf8_decode_utf8(s@);
                encode_utf8_decode_utf8(t);
            }
            s
        },
        None => {
            proof {
                assert(false);
            }
            vstd::pervasive::unreached()
        },
    }
}

/// The path of generation `gen` under the data directory `dir`.
pub fn log_path(dir: &str, gen: u64) -> (r: String)
    ensures
        r@ == dir@ + seq!['/'] + file_name_chars(gen),
{
    let name = log_file_name(gen);
    let mut out = dir.to_owned();
    out.append("/");
    out.append(name.as_str());
    proof {
        reveal_strlit("/");
        assert("/"@ =~= seq!['/']);
        assert(out@ =~= dir@ + seq!['/'] + file_name_chars(gen));
    }
    out
}

/// The path a generation's records are loaded from: the same place
/// `log_path` writes to.
pub fn load_path(dir: &str, gen: u64) -> (r: String)
    ensures
        r@ == dir@ + seq!['/'] + file_name_chars(gen),
{
    log_path(dir, gen)
}

/// Reads a directory entry's name as a generation number: one or more
/// decimal digits and the `log` extension, the digits' value fitting a
/// `u64`.  Any other name - and a value too large - is not a generation
/// file and reads as `None`.
pub fn parse_gen(name: &str) -> (r: Option<u64>)
    ensures
        match r {
            Some(g) => gen_file_name_shape(name@) && digits_value(
                name@.subrange(0, name@.len() - 4),
            ) == g,
            None => !(gen_file_name_shape(name@) && digits_value(
                name@.subrange(0, name@.len() - 4),
            ) <= u64::MAX),
        },
{
    let n = name.unicode_len();
    if n < 5 {
        return None;
    }
    let ghost s = name@;
    let c1 = name.get_char(n - 4);
    let c2 = name.get_char(n - 3);
    let c3 = name.get_char(n - 2);
    let c4 = name.get_char(n - 1);
    if !(c1 == '.' && c2 == 'l' && c3 == 'o' && c4 == 'g') {
        proof {
            assert(s.subrange(s.len() - 4, s.len() as int) != seq!['.', 'l', 'o', 'g']) by {
                if s.subrange(s.len() - 4, s.len() as int) == seq!['.', 'l', 'o', 'g'] {
                    assert(s.subrange(s.len() - 4, s.len() as int)[0] == s[s.len() - 4]);
                    assert(s.subrange(s.len() - 4, s.len() as int)[1] == s[s.len() - 3]);
                    assert(s.subrange(s.len() - 4, s.len() as int)[2] == s[s.len() - 2]);
                    assert(s.subrange(s.len() - 4, s.len() as int)[3] == s[s.len() - 1]);
                }
            }
        }
        return None;
    }
    proof {
        assert(s.subrange(s.len() - 4, s.len() as int) =~= seq!['.', 'l', 'o', 'g']);
    }
    let mut i: usize = 0;
    let mut acc: u64 = 0;
    let stem_len = n - 4;
    while i < stem_len
        invariant
            stem_len == s.len() - 4,
            s == name@,
            i <= stem_len,
            i < stem_len ==> i < s.len(),
            forall|t: int| 0 <= t < i ==> is_digit(#[trigger] s[t]),
            acc == digits_value(s.subrange(0, i as int)),
        decreases stem_len - i,
    {
        let c = name.get_char(i);
        let u = c as u32;
        if u < 48 || u > 57 {
            return None;
        }
        let d = (u - 48) as u64;
        proof {
            assert(s.subrange(0, i + 1).drop_last() =~= s.subrange(0, i as int));
            assert(s.subrange(0, i + 1).last() == s[i as int]);
        }
        if acc > (u64::MAX - d) / 10 {
            proof {
                assert(digits_value(s.subrange(0, i + 1)) == acc * 10 + d);
                assert(acc * 10 + d > u64::MAX) by (nonlinear_arith)
                    requires
                        acc > (u64::MAX - d) / 10,
                        d <= 9,
                ;
                if gen_file_name_shape(s) {
                    lemma_digits_value_monotone(
                        s.subrange(0, s.len() - 4),
                        i + 1,
                        s.len() - 4,
                    );
                    assert(s.subrange(0, s.len() - 4).subrange(0, i + 1) =~= s.subrange(
                        0,
                        i + 1,
                    ));
                    assert(s.subrange(0, s.len() - 4).subrange(0, s.len() - 4) =~= s.subrange(
                        0,
                        s.len() - 4,
                    ));
                }
            }
            return None;
        }
        proof {
            assert(acc * 10 + d <= u64::MAX) by (nonlinear_arith)
                requires
                    acc <= (u64::MAX - d) / 10,
                    d <= 9,
            ;
        }
        acc = acc * 10 + d;
        i = i + 1;
    }
    proof {
        assert(s.subrange(0, i as int) =~= s.subrange(0, s.len() - 4));
    }
    Some(acc)
}

/// The generations are in ascending order.
pub open spec fn gens_sorted(s: Seq<u64>) -> bool {
    forall|i: int, j: int| 0 <= i < j < s.len() ==> s[i] <= s[j]
}

/// The position of a smallest element.
fn min_index(v: &Vec<u64>) -> (m: usize)
    requires
        v@.len() > 0,
    ensures
        m < v@.len(),
        forall|j: int| 0 <= j < v@.len() ==> v@[m as int] <= v@[j],
{
    let mut m: usize = 0;
    let mut i: usize = 1;
    while i < v.len()
        invariant
            m < i <= v@.len(),
            forall|j: int| 0 <= j < i ==> v@[m as int] <= v@[j],
        decreases v@.len() - i,
    {
        if v[i] < v[m] {
            m = i;
        }
        i = i + 1;
    }
    m
}

/// Sorts the generation numbers found in a data directory into the
/// ascending order replay requires; the same numbers come back.
pub fn sort_gen_list(gens: Vec<u64>) -> (r: Vec<u64>)
    ensures
        gens_sorted(r@),
        r@.to_multiset() == gens@.to_multiset(),
        r@.len() == gens@.len(),
{
    broadcast use vstd::seq_lib::group_to_multiset_ensures;

    let mut rest = gens;
    let mut out: Vec<u64> = Vec::new();
    while rest.len() > 0
        invariant
            out@.to_multiset().add(rest@.to_multiset()) == gens@.to_multiset(),
            out@.len() + rest@.len() == gens@.len(),
            gens_sorted(out@),
            forall|p: int, q: int|
                0 <= p < out@.len() && 0 <= q < rest@.len() ==> out@[p] <= rest@[q],
        decreases rest@.len(),
    {
        let m = min_index(&rest);
        let ghost old_out = out@;
        let ghost old_rest = rest@;
        let x = rest.remove(m);
        out.push(x);
        proof {
            old_out.to_multiset_ensures();
            old_rest.to_multiset_ensures();
            assert(out@ == old_out.push(x));
            assert(old_out.push(x).to_multiset() =~= old_out.to_multiset().insert(x));
            assert(rest@ == old_rest.remove(m as int));
            assert(old_rest.remove(m as int).to_multiset() =~= old_rest.to_multiset().remove(
                old_rest[m as int],
            ));
            assert(old_rest[m as int] == x);
            assert(old_rest.to_multiset().contains(x));
            assert(out@.to_multiset().add(rest@.to_multiset()) =~= old_out.to_multiset().add(
                old_rest.to_multiset(),
            ));
            assert forall|p: int, q: int|
                0 <= p < out@.len() && 0 <= q < rest@.len() implies out@[p] <= rest@[q] by {
                let q0 = if q < m { q } else { q + 1 };
                assert(rest@[q] == old_rest[q0]);
                if p < out@.len() - 1 {
                    assert(out@[p] == old_out[p]);
                } else {
                    assert(out@[p] == old_rest[m as int]);
                }
            }
            assert forall|p: int, q: int| 0 <= p < q < out@.len() implies out@[p] <= out@[q] by {
                if q == out@.len() - 1 {
                    assert(old_rest.to_multiset().contains(x));
                    assert(out@[q] == x);
                    assert(out@[p] == old_out[p]);
                    assert(old_rest[m as int] == x);
                }
            }
        }
    }
    out
}

} // verus!

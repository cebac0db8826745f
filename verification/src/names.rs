//! Table file names.
//!
//! A flushed table is named `sstable_<generation>.sst` and a compacted
//! table `sstable_compacted_<generation>.sst`.  The generation number is
//! the recency signal: on load, tables are ordered by descending
//! generation so the newest is consulted first.
use vstd::prelude::*;
use vstd::utf8::encode_utf8;
use vstd::utf8::encode_utf8_valid_utf8;
use vstd::utf8::is_ascii_chars;
use vstd::utf8::is_ascii_chars_encode_utf8;

use crate::codec::string_from_bytes;
use crate::order::lemma_encode_utf8_injective;

verus! {

/// Decimal digits of `n`, most significant first.
pub open spec fn dec_chars(n: nat) -> Seq<char>
    decreases n,
{
    if n < 10 {
        seq![((48 + n) as u8) as char]
    } else {
        dec_chars(n / 10) + seq![((48 + n % 10) as u8) as char]
    }
}

pub open spec fn flush_prefix_chars() -> Seq<char> {
    seq!['s', 's', 't', 'a', 'b', 'l', 'e', '_']
}

pub open spec fn compacted_infix_chars() -> Seq<char> {
    seq!['c', 'o', 'm', 'p', 'a', 'c', 't', 'e', 'd', '_']
}

pub open spec fn suffix_chars() -> Seq<char> {
    seq!['.', 's', 's', 't']
}

/// The file name of a table with the given generation.
pub open spec fn sst_name_chars(gen: nat, compacted: bool) -> Seq<char> {
    if compacted {
        flush_prefix_chars() + compacted_infix_chars() + dec_chars(gen) + suffix_chars()
    } else {
        flush_prefix_chars() + dec_chars(gen) + suffix_chars()
    }
}

/// The numeric value of a run of decimal digit characters.
pub open spec fn dec_val(ds: Seq<char>) -> int
    decreases ds.len(),
{
    if ds.len() == 0 {
        0
    } else {
        dec_val(ds.drop_last()) * 10 + (ds.last() as u8 - 48)
    }
}

pub open spec fn all_dec_digits(ds: Seq<char>) -> bool {
    forall|i: int| 0 <= i < ds.len() ==> 48 <= (#[trigger] ds[i]) as u8 <= 57 && ds[i] == (((
    ds[i] as u8) as char))
}

/// The digits of a number are decimal digit characters.
pub proof fn lemma_dec_chars_digits(n: nat)
    ensures
        dec_chars(n).len() >= 1,
        all_dec_digits(dec_chars(n)),
    decreases n,
{
    if n < 10 {
        let c = ((48 + n) as u8) as char;
        assert(c as u8 == 48 + n);
        assert(dec_chars(n)[0] == c);
    } else {
        lemma_dec_chars_digits(n / 10);
        let d = ((48 + n % 10) as u8) as char;
        assert(d as u8 == 48 + n % 10);
        let ds = dec_chars(n);
        assert forall|i: int|
            0 <= i < ds.len() implies 48 <= (#[trigger] ds[i]) as u8 <= 57 && ds[i] == (((
        ds[i] as u8) as char)) by {
            if i < dec_chars(n / 10).len() {
                assert(ds[i] == dec_chars(n / 10)[i]);
            } else {
                assert(ds[i] == d);
            }
        }
    }
}

/// Reading the digits of `n` back yields `n`.
pub proof fn lemma_dec_val_of_chars(n: nat)
    ensures
        dec_val(dec_chars(n)) == n,
    decreases n,
{
    if n < 10 {
        let ds = dec_chars(n);
        assert(ds.last() as u8 == 48 + n);
        assert(ds.drop_last() =~= Seq::<char>::empty());
        assert(dec_val(Seq::<char>::empty()) == 0);
        assert(dec_val(ds) == dec_val(ds.drop_last()) * 10 + (ds.last() as u8 - 48));
    } else {
        lemma_dec_val_of_chars(n / 10);
        let ds = dec_chars(n);
        assert(ds.drop_last() =~= dec_chars(n / 10));
        assert(ds.last() as u8 == 48 + n % 10);
        assert(dec_val(ds) == dec_val(ds.drop_last()) * 10 + (ds.last() as u8 - 48));
        assert(n == (n / 10) * 10 + n % 10);
    }
}

/// A digit prefix is worth no more than the whole run.
pub proof fn lemma_dec_val_prefix(ds: Seq<char>, i: int)
    requires
        all_dec_digits(ds),
        0 <= i <= ds.len(),
    ensures
        0 <= dec_val(ds.take(i)),
        dec_val(ds.take(i)) <= dec_val(ds),
    decreases ds.len() - i,
{
    lemma_dec_val_nonneg(ds.take(i));
    if i < ds.len() {
        lemma_dec_val_prefix(ds, i + 1);
        assert(ds.take(i + 1).drop_last() =~= ds.take(i));
        assert(ds.take(i + 1).last() == ds[i]);
        assert(dec_val(ds.take(i + 1)) == dec_val(ds.take(i)) * 10 + (ds[i] as u8 - 48));
        assert(dec_val(ds.take(i)) * 10 >= dec_val(ds.take(i))) by (nonlinear_arith)
            requires
                dec_val(ds.take(i)) >= 0,
        ;
        assert(48 <= ds[i] as u8);
    } else {
        assert(ds.take(i) =~= ds);
    }
}

proof fn lemma_dec_val_nonneg(ds: Seq<char>)
    requires
        forall|i: int| 0 <= i < ds.len() ==> 48 <= (#[trigger] ds[i]) as u8,
    ensures
        dec_val(ds) >= 0,
    decreases ds.len(),
{
    if ds.len() > 0 {
        assert(forall|i: int|
            0 <= i < ds.drop_last().len() ==> 48 <= (#[trigger] ds.drop_last()[i]) as u8);
        lemma_dec_val_nonneg(ds.drop_last());
        assert(dec_val(ds.drop_last()) * 10 >= 0) by (nonlinear_arith)
            requires
                dec_val(ds.drop_last()) >= 0,
        ;
    }
}

/// Every table file name is plain ASCII.
pub proof fn lemma_name_ascii(gen: nat, compacted: bool)
    ensures
        is_ascii_chars(sst_name_chars(gen, compacted)),
        encode_utf8(sst_name_chars(gen, compacted)).len() == sst_name_chars(gen, compacted).len(),
        forall|i: int|
            0 <= i < sst_name_chars(gen, compacted).len() ==> #[trigger] encode_utf8(
                sst_name_chars(gen, compacted),
            )[i] == sst_name_chars(gen, compacted)[i] as u8,
{
    let nc = sst_name_chars(gen, compacted);
    lemma_dec_chars_digits(gen);
    assert forall|i: int| 0 <= i < nc.len() implies '\0' <= #[trigger] nc[i] <= '\u{7f}' by {
        let ds = dec_chars(gen);
        if compacted {
            if i < 8 {
                assert(nc[i] == flush_prefix_chars()[i]);
            } else if i < 18 {
                assert(nc[i] == compacted_infix_chars()[i - 8]);
            } else if i < 18 + ds.len() {
                assert(nc[i] == ds[i - 18]);
                assert(48 <= ds[i - 18] as u8 <= 57);
                assert(ds[i - 18] == ((ds[i - 18] as u8) as char));
            } else {
                assert(nc[i] == suffix_chars()[i - 18 - ds.len()]);
            }
        } else {
            if i < 8 {
                assert(nc[i] == flush_prefix_chars()[i]);
            } else if i < 8 + ds.len() {
                assert(nc[i] == ds[i - 8]);
                assert(48 <= ds[i - 8] as u8 <= 57);
                assert(ds[i - 8] == ((ds[i - 8] as u8) as char));
            } else {
                assert(nc[i] == suffix_chars()[i - 8 - ds.len()]);
            }
        }
    }
    is_ascii_chars_encode_utf8(nc);
}

/// Render the file name of a table generation.
#[verifier::rlimit(100)]
#[verifier::spinoff_prover]
pub fn sst_file_name(gen: u64, compacted: bool) -> (r: String)
    ensures
        r@ == sst_name_chars(gen as nat, compacted),
{
    let mut digits_rev: Vec<u8> = Vec::new();
    let mut m = gen;
    while m >= 10
        invariant
            dec_chars(gen as nat) =~= dec_chars(m as nat) + digits_rev@.reverse().map_values(
                |b: u8| b as char,
            ),
            forall|i: int| 0 <= i < digits_rev@.len() ==> 48 <= #[trigger] digits_rev@[i] <= 57,
        decreases m,
    {
        let d = 48 + (m % 10) as u8;
        let ghost prev = digits_rev@;
        digits_rev.push(d);
        m = m / 10;
        proof {
            assert(digits_rev@.reverse() =~= seq![d] + prev.reverse());
            assert(dec_chars((m * 10 + (d - 48)) as nat) == dec_chars(m as nat) + seq![
                ((48 + ((m * 10 + (d - 48)) as nat) % 10) as u8) as char,
            ]) by {
                assert((m * 10 + (d - 48)) as nat >= 10) by (nonlinear_arith)
                    requires
                        m >= 1,
                        d >= 48,
                ;
                assert(((m * 10 + (d - 48)) as nat) / 10 == m as nat
                    && ((m * 10 + (d - 48)) as nat) % 10 == (d - 48) as nat) by (nonlinear_arith)
                    requires
                        0 <= (d - 48) < 10,
                        m >= 0,
                ;
            }
            assert(digits_rev@.reverse().map_values(|b: u8| b as char) =~= seq![(d as char)]
                + prev.reverse().map_values(|b: u8| b as char));
            assert(dec_chars(gen as nat) =~= dec_chars(m as nat) + digits_rev@.reverse().map_values(
                |b: u8| b as char,
            ));
        }
    }
    let d0 = 48 + m as u8;
    let ghost prev = digits_rev@;
    digits_rev.push(d0);
    proof {
        assert(dec_chars(m as nat) == seq![(d0 as char)]);
        assert(digits_rev@.reverse() =~= seq![d0] + prev.reverse());
        assert(digits_rev@.reverse().map_values(|b: u8| b as char) =~= seq![(d0 as char)]
            + prev.reverse().map_values(|b: u8| b as char));
        assert(dec_chars(gen as nat) =~= digits_rev@.reverse().map_values(|b: u8| b as char));
    }
    // assemble the byte image of the name
    let mut out: Vec<u8> = Vec::new();
    out.push(115);
    out.push(115);
    out.push(116);
    out.push(97);
    out.push(98);
    out.push(108);
    out.push(101);
    out.push(95);
    if compacted {
        out.push(99);
        out.push(111);
        out.push(109);
        out.push(112);
        out.push(97);
        out.push(99);
        out.push(116);
        out.push(101);
        out.push(100);
        out.push(95);
    }
    let nd = digits_rev.len();
    let mut i: usize = 0;
    let ghost head = out@;
    while i < nd
        invariant
            nd == digits_rev@.len(),
            0 <= i <= nd,
            out@ =~= head + digits_rev@.reverse().subrange(0, i as int),
        decreases nd - i,
    {
        let b = digits_rev[nd - 1 - i];
        out.push(b);
        proof {
            assert(digits_rev@.reverse()[i as int] == digits_rev@[nd - 1 - i]);
            assert(out@ =~= head + digits_rev@.reverse().subrange(0, (i + 1) as int));
        }
        i = i + 1;
    }
    out.push(46);
    out.push(115);
    out.push(115);
    out.push(116);
    proof {
        let nc = sst_name_chars(gen as nat, compacted);
        lemma_name_ascii(gen as nat, compacted);
        lemma_dec_chars_digits(gen as nat);
        assert(digits_rev@.reverse().subrange(0, nd as int) =~= digits_rev@.reverse());
        assert(out@ =~= encode_utf8(nc)) by {
            let ds = dec_chars(gen as nat);
            assert(ds.len() == nd);
            assert forall|j: int| 0 <= j < nc.len() implies out@[j] == encode_utf8(nc)[j] by {
                assert(encode_utf8(nc)[j] == nc[j] as u8);
                let base: int = if compacted {
                    18
                } else {
                    8
                };
                if j >= base && j < base + ds.len() {
                    assert(ds[j - base] == digits_rev@.reverse().map_values(|b: u8| b as char)[j
                        - base]);
                    assert(out@[j] == digits_rev@.reverse()[j - base]);
                }
            }
        }
        encode_utf8_valid_utf8(nc);
    }
    let s_opt = string_from_bytes(out);
    match s_opt {
        Some(s) => {
            proof {
                lemma_encode_utf8_injective(s@, sst_name_chars(gen as nat, compacted));
            }
            s
        },
        None => {
            proof {
                assert(false);
            }
            String::new()
        },
    }
}

/// Recognise a table file name and recover its generation; any name the
/// renderer produces is recognised.
pub fn parse_sst_name(name: &str) -> (r: Option<(u64, bool)>)
    ensures
        forall|g: u64, c: bool| name@ == sst_name_chars(g as nat, c) ==> r == Some((g, c)),
{
    let b = name.as_bytes();
    let n = b.len();
    proof {
        assert forall|g: u64, c: bool| name@ == sst_name_chars(g as nat, c) implies b@
            == encode_utf8(sst_name_chars(g as nat, c)) by {}
    }
    if n < 13 {
        proof {
            assert forall|g: u64, c: bool| name@ != sst_name_chars(g as nat, c) by {
                lemma_name_ascii(g as nat, c);
                lemma_dec_chars_digits(g as nat);
                if name@ == sst_name_chars(g as nat, c) {
                    assert(b@.len() == sst_name_chars(g as nat, c).len());
                }
            }
        }
        return None;
    }
    // "sstable_"
    if !(b[0] == 115 && b[1] == 115 && b[2] == 116 && b[3] == 97 && b[4] == 98 && b[5] == 108
        && b[6] == 101 && b[7] == 95) {
        proof {
            assert forall|g: u64, c: bool| name@ != sst_name_chars(g as nat, c) by {
                lemma_name_ascii(g as nat, c);
                if name@ == sst_name_chars(g as nat, c) {
                    let nc = sst_name_chars(g as nat, c);
                    assert(nc[0] == 's' && nc[1] == 's' && nc[2] == 't' && nc[3] == 'a' && nc[4]
                        == 'b' && nc[5] == 'l' && nc[6] == 'e' && nc[7] == '_');
                    assert(b@[0] == 115 && b@[1] == 115 && b@[2] == 116 && b@[3] == 97 && b@[4]
                        == 98 && b@[5] == 108 && b@[6] == 101 && b@[7] == 95);
                }
            }
        }
        return None;
    }
    // optional "compacted_"
    let compacted = n >= 23 && b[8] == 99 && b[9] == 111 && b[10] == 109 && b[11] == 112 && b[12]
        == 97 && b[13] == 99 && b[14] == 116 && b[15] == 101 && b[16] == 100 && b[17] == 95;
    let ds_start: usize = if compacted {
        18
    } else {
        8
    };
    let ds_end = n - 4;
    proof {
        assert forall|g: u64, c: bool|
            name@ == sst_name_chars(g as nat, c) implies c == compacted && ds_start as int == (
        if c {
            18int
        } else {
            8int
        }) && ds_end as int == ds_start + dec_chars(g as nat).len() by {
            lemma_name_ascii(g as nat, c);
            lemma_dec_chars_digits(g as nat);
            let nc = sst_name_chars(g as nat, c);
            let ds = dec_chars(g as nat);
            if c {
                assert(nc[8] == 'c' && nc[9] == 'o' && nc[10] == 'm' && nc[11] == 'p' && nc[12]
                    == 'a' && nc[13] == 'c' && nc[14] == 't' && nc[15] == 'e' && nc[16] == 'd'
                    && nc[17] == '_');
                assert(b@[8] == 99);
                assert(b@[9] == 111);
                assert(b@[10] == 109);
                assert(b@[11] == 112);
                assert(b@[12] == 97);
                assert(b@[13] == 99);
                assert(b@[14] == 116);
                assert(b@[15] == 101);
                assert(b@[16] == 100);
                assert(b@[17] == 95);
                assert(n as int == 18 + ds.len() + 4);
                assert(compacted);
            } else {
                assert(nc[8] == ds[0]);
                assert(48 <= ds[0] as u8 <= 57);
                assert(b@[8] == ds[0] as u8);
                if n >= 23 {
                    assert(b@[8] != 99);
                }
                assert(!compacted);
                assert(n as int == 8 + ds.len() + 4);
            }
        }
    }
    if ds_end <= ds_start {
        proof {
            assert forall|g: u64, c: bool| name@ != sst_name_chars(g as nat, c) by {
                lemma_dec_chars_digits(g as nat);
                if name@ == sst_name_chars(g as nat, c) {
                }
            }
        }
        return None;
    }
    // ".sst" suffix
    if !(b[n - 4] == 46 && b[n - 3] == 115 && b[n - 2] == 115 && b[n - 1] == 116) {
        proof {
            assert forall|g: u64, c: bool| name@ != sst_name_chars(g as nat, c) by {
                lemma_name_ascii(g as nat, c);
                lemma_dec_chars_digits(g as nat);
                if name@ == sst_name_chars(g as nat, c) {
                    let nc = sst_name_chars(g as nat, c);
                    let ds = dec_chars(g as nat);
                    assert(nc[nc.len() - 4] == '.' && nc[nc.len() - 3] == 's' && nc[nc.len() - 2]
                        == 's' && nc[nc.len() - 1] == 't');
                    assert(b@[n - 4] == 46 && b@[n - 3] == 115 && b@[n - 2] == 115 && b@[n - 1]
                        == 116);
                }
            }
        }
        return None;
    }
    // digits
    let ghost digit_chars = name@.subrange(ds_start as int, ds_end as int);
    let mut v: u64 = 0;
    let mut i: usize = ds_start;
    while i < ds_end
        invariant
            ds_start <= i <= ds_end,
            ds_end == n - 4,
            n == b@.len(),
            ds_end <= n,
            digit_chars == name@.subrange(ds_start as int, ds_end as int),
            b@ == encode_utf8(name@),
            forall|g: u64, c: bool|
                name@ == sst_name_chars(g as nat, c) ==> c == compacted && ds_start as int == (
                if c {
                    18int
                } else {
                    8int
                }) && ds_end as int == ds_start + dec_chars(g as nat).len(),
            forall|g: u64, c: bool|
                name@ == sst_name_chars(g as nat, c) ==> v as int == dec_val(
                    dec_chars(g as nat).take(i - ds_start),
                ),
        decreases ds_end - i,
    {
        let d = b[i];
        if d < 48 || d > 57 {
            proof {
                assert forall|g: u64, c: bool| name@ != sst_name_chars(g as nat, c) by {
                    lemma_name_ascii(g as nat, c);
                    lemma_dec_chars_digits(g as nat);
                    if name@ == sst_name_chars(g as nat, c) {
                        let ds = dec_chars(g as nat);
                        assert(name@[i as int] == ds[i - ds_start]);
                        assert(b@[i as int] == ds[i - ds_start] as u8);
                        assert(48 <= ds[i - ds_start] as u8 <= 57);
                    }
                }
            }
            return None;
        }
        let dv = (d - 48) as u64;
        if v > (u64::MAX - dv) / 10 {
            proof {
                assert forall|g: u64, c: bool| name@ != sst_name_chars(g as nat, c) by {
                    lemma_name_ascii(g as nat, c);
                    lemma_dec_chars_digits(g as nat);
                    if name@ == sst_name_chars(g as nat, c) {
                        let ds = dec_chars(g as nat);
                        lemma_dec_val_of_chars(g as nat);
                        lemma_dec_val_prefix(ds, i - ds_start + 1);
                        assert(ds.take(i - ds_start + 1).drop_last() =~= ds.take(i - ds_start));
                        assert(ds.take(i - ds_start + 1).last() == ds[i - ds_start]);
                        assert(name@[i as int] == ds[i - ds_start]);
                        assert(b@[i as int] == ds[i - ds_start] as u8);
                        assert(dec_val(ds.take(i - ds_start + 1)) == (v as int) * 10 + dv);
                        assert((v as int) * 10 + dv <= g) by {
                            assert(dec_val(ds.take(i - ds_start + 1)) <= dec_val(ds));
                        }
                        assert(v as int <= ((u64::MAX - dv) as int) / 10) by (nonlinear_arith)
                            requires
                                (v as int) * 10 + dv <= u64::MAX as int,
                                0 <= dv < 10,
                                v >= 0,
                        ;
                    }
                }
            }
            return None;
        }
        proof {
            assert((v as int) <= ((u64::MAX - dv) as int) / 10);
            assert((v as int) * 10 + dv <= u64::MAX as int) by (nonlinear_arith)
                requires
                    0 <= v as int <= ((u64::MAX - dv) as int) / 10,
                    0 <= dv < 10,
            ;
        }
        let v2 = v * 10 + dv;
        proof {
            assert forall|g: u64, c: bool|
                name@ == sst_name_chars(g as nat, c) implies v2 as int == dec_val(
                dec_chars(g as nat).take(i - ds_start + 1),
            ) by {
                lemma_name_ascii(g as nat, c);
                lemma_dec_chars_digits(g as nat);
                let ds = dec_chars(g as nat);
                assert(ds.take(i - ds_start + 1).drop_last() =~= ds.take(i - ds_start));
                assert(ds.take(i - ds_start + 1).last() == ds[i - ds_start]);
                assert(name@[i as int] == ds[i - ds_start]);
                assert(b@[i as int] == ds[i - ds_start] as u8);
            }
        }
        v = v2;
        i = i + 1;
    }
    proof {
        assert forall|g: u64, c: bool| name@ == sst_name_chars(g as nat, c) implies v == g by {
            lemma_dec_chars_digits(g as nat);
            lemma_dec_val_of_chars(g as nat);
            let ds = dec_chars(g as nat);
            assert(ds.take(ds.len() as int) =~= ds);
        }
    }
    Some((v, compacted))
}


/// Distinct generations or kinds never share a file name.
pub proof fn lemma_name_injective(g1: nat, c1: bool, g2: nat, c2: bool)
    requires
        sst_name_chars(g1, c1) == sst_name_chars(g2, c2),
    ensures
        g1 == g2,
        c1 == c2,
{
    let n1 = sst_name_chars(g1, c1);
    let n2 = sst_name_chars(g2, c2);
    lemma_dec_chars_digits(g1);
    lemma_dec_chars_digits(g2);
    let d1 = dec_chars(g1);
    let d2 = dec_chars(g2);
    if c1 != c2 {
        if c1 {
            assert(n1[8] == 'c');
            assert(n2[8] == d2[0]);
            assert(48 <= d2[0] as u8 <= 57);
            assert(d2[0] == ((d2[0] as u8) as char));
            assert(n1[8] as u8 == 99);
        } else {
            assert(n2[8] == 'c');
            assert(n1[8] == d1[0]);
            assert(48 <= d1[0] as u8 <= 57);
            assert(d1[0] == ((d1[0] as u8) as char));
            assert(n2[8] as u8 == 99);
        }
    } else {
        let base: int = if c1 {
            18
        } else {
            8
        };
        assert(n1.len() == base + d1.len() + 4);
        assert(n2.len() == base + d2.len() + 4);
        assert(d1.len() == d2.len());
        assert(d1 =~= d2) by {
            assert forall|i: int| 0 <= i < d1.len() implies d1[i] == d2[i] by {
                assert(n1[base + i] == d1[i]);
                assert(n2[base + i] == d2[i]);
            }
        }
        lemma_dec_val_of_chars(g1);
        lemma_dec_val_of_chars(g2);
    }
}

} // verus!


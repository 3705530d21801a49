//! The persistence codec: a canonical JSON rendering of the aggregate
//! state and a parser for exactly that rendering. The encoder is total;
//! the parser accepts the canonical form and refuses everything else, so
//! a load either returns the saved state or reports corruption. The
//! decoder provably inverts the encoder.

use vstd::prelude::*;
use crate::scan::is_digit;
use crate::scan::all_digits;
use crate::scan::digits_val;
use crate::model::AppData;
use crate::model::AppDataModel;
use crate::model::AppSettings;
use crate::model::AppSettingsModel;
use crate::model::BookmarkItem;
use crate::model::BookmarkItemModel;
use crate::model::ClipboardItem;
use crate::model::ClipboardItemModel;
use crate::model::IpHistoryItem;
use crate::model::IpHistoryItemModel;
use crate::model::wf_settings;
use crate::model::group_deep_seq;
use crate::bytes::lemma_bytes_deep_view;
use crate::bytes::spec_is_blank;
use crate::bytes::is_ascii_space;

verus! {

/// Ten to the `k`.
pub open spec fn p10(k: nat) -> int
    decreases k,
{
    if k == 0 {
        1
    } else {
        10 * p10((k - 1) as nat)
    }
}

/// Powers of ten are positive.
pub proof fn lemma_p10_pos(k: nat)
    ensures
        p10(k) >= 1,
    decreases k,
{
    if k > 0 {
        lemma_p10_pos((k - 1) as nat);
    }
}

/// The decimal digits of a number, most significant first.
pub open spec fn dec_digits(n: nat) -> Seq<u8>
    decreases n,
{
    if n < 10 {
        seq![(48 + n) as u8]
    } else {
        dec_digits(n / 10).push((48 + n % 10) as u8)
    }
}

/// The decimal rendering of a 64-bit value.
pub open spec fn enc_u64(n: u64) -> Seq<u8> {
    dec_digits(n as nat)
}

/// The digits of a number are digits, and their value is the number.
pub proof fn lemma_dec_digits_val(n: nat)
    ensures
        dec_digits(n).len() >= 1,
        all_digits(dec_digits(n)),
        digits_val(dec_digits(n)) == n,
    decreases n,
{
    if n < 10 {
        let ds = dec_digits(n);
        assert((48 + n) as u8 == 48 + n);
        assert(ds.drop_last() =~= Seq::<u8>::empty());
        assert(digits_val(ds.drop_last()) == 0);
    } else {
        lemma_dec_digits_val(n / 10);
        let ds = dec_digits(n);
        assert(ds.drop_last() =~= dec_digits(n / 10));
    }
}

/// The leading digit carries a power of ten.
pub proof fn lemma_digits_val_front(ds: Seq<u8>)
    requires
        ds.len() >= 1,
    ensures
        digits_val(ds) == (ds[0] - 48) * p10((ds.len() - 1) as nat) + digits_val(ds.skip(1)),
    decreases ds.len(),
{
    if ds.len() == 1 {
        assert(ds.skip(1) =~= Seq::<u8>::empty());
        assert(ds.drop_last() =~= Seq::<u8>::empty());
        assert(digits_val(Seq::<u8>::empty()) == 0);
        assert(digits_val(ds) == digits_val(ds.drop_last()) * 10 + (ds.last() - 48));
        assert(ds[0] == ds.last());
        assert(p10((ds.len() - 1) as nat) == 1);
        assert((ds[0] - 48) * 1 == ds[0] - 48) by (nonlinear_arith);
    } else {
        let dl = ds.drop_last();
        lemma_digits_val_front(dl);
        assert(ds.skip(1).drop_last() =~= dl.skip(1));
        assert(ds.skip(1).last() == ds.last());
        assert(dl[0] == ds[0]);
        let a = ds[0] - 48;
        let k = (ds.len() - 2) as nat;
        assert(digits_val(ds) == digits_val(dl) * 10 + (ds.last() - 48));
        assert(digits_val(dl) == a * p10(k) + digits_val(dl.skip(1)));
        assert((a * p10(k) + digits_val(dl.skip(1))) * 10 == a * (10 * p10(k)) + digits_val(
            dl.skip(1),
        ) * 10) by (nonlinear_arith);
        assert(p10((ds.len() - 1) as nat) == 10 * p10(k));
        assert(digits_val(ds.skip(1)) == digits_val(dl.skip(1)) * 10 + (ds.last() - 48));
    }
}

/// The streaming decimal parser: accumulate digits, refuse overflow.
pub open spec fn p_u64_rec(s: Seq<u8>, i: int, acc: u64) -> Option<(u64, int)>
    decreases s.len() - i,
    when 0 <= i <= s.len()
{
    if i == s.len() || !is_digit(s[i]) {
        Some((acc, i))
    } else {
        let d = (s[i] - 48) as u64;
        if acc > (u64::MAX - d) / 10 {
            None
        } else {
            p_u64_rec(s, i + 1, (10 * acc + d) as u64)
        }
    }
}

/// Parse a decimal number: at least one digit, stopping at the first
/// non-digit.
pub open spec fn p_u64(s: Seq<u8>, i: int) -> Option<(u64, int)> {
    if 0 <= i < s.len() && is_digit(s[i]) {
        p_u64_rec(s, i, 0)
    } else {
        None
    }
}

/// The overflow guard matches plain arithmetic.
pub proof fn lemma_u64_guard(acc: u64, d: u64)
    requires
        d <= 9,
    ensures
        (acc > (u64::MAX - d) / 10) <==> (10 * acc + d > u64::MAX),
{
    let x = (u64::MAX - d) as int;
    assert(acc <= x / 10 <==> 10 * acc <= x) by (nonlinear_arith)
        requires
            x >= 0,
            acc >= 0,
    ;
}

/// Running the streaming parser over a digit region accumulates its
/// value under the prior accumulator shifted past it.
pub proof fn lemma_p_digits(s: Seq<u8>, i: int, j: int, acc: u64)
    requires
        0 <= i <= j <= s.len(),
        forall|k: int| i <= k < j ==> is_digit(#[trigger] s[k]),
        j == s.len() || !is_digit(s[j]),
        acc * p10((j - i) as nat) + digits_val(s.subrange(i, j)) <= u64::MAX,
    ensures
        p_u64_rec(s, i, acc) == Some(
            (((acc * p10((j - i) as nat) + digits_val(s.subrange(i, j))) as u64), j),
        ),
    decreases j - i,
{
    lemma_p10_pos((j - i) as nat);
    if i == j {
        assert(s.subrange(i, j) =~= Seq::<u8>::empty());
        assert(acc * 1 == acc);
    } else {
        let ds = s.subrange(i, j);
        let d = (s[i] - 48) as u64;
        let k = (j - i - 1) as nat;
        lemma_p10_pos(k);
        lemma_digits_val_front(ds);
        assert(ds[0] == s[i]);
        assert(ds.skip(1) =~= s.subrange(i + 1, j));
        let valrest = digits_val(s.subrange(i + 1, j));
        let total = acc * p10((j - i) as nat) + digits_val(ds);
        assert(all_digits(s.subrange(i + 1, j)));
        crate::scan::lemma_digits_val_nonneg(s.subrange(i + 1, j));
        assert(acc * p10((j - i) as nat) == (10 * acc) * p10(k)) by (nonlinear_arith)
            requires
                p10((j - i) as nat) == 10 * p10(k),
        ;
        assert(digits_val(ds) == d * p10(k) + valrest);
        assert((10 * acc) * p10(k) + d * p10(k) == (10 * acc + d) * p10(k)) by (nonlinear_arith);
        assert(total == (10 * acc + d) * p10(k) + valrest);
        assert(10 * acc + d <= (10 * acc + d) * p10(k)) by (nonlinear_arith)
            requires
                p10(k) >= 1,
                10 * acc + d >= 0,
        ;
        assert(10 * acc + d <= u64::MAX);
        lemma_u64_guard(acc, d);
        let acc2 = (10 * acc + d) as u64;
        lemma_p_digits(s, i + 1, j, acc2);
    }
}

/// Parsing the rendering of a number recovers the number, as long as a
/// non-digit (or the end) follows.
pub proof fn lemma_p_u64_enc(s: Seq<u8>, i: int, n: u64)
    requires
        0 <= i,
        i + enc_u64(n).len() <= s.len(),
        s.subrange(i, i + enc_u64(n).len()) == enc_u64(n),
        i + enc_u64(n).len() == s.len() || !is_digit(s[i + enc_u64(n).len()]),
    ensures
        p_u64(s, i) == Some((n, i + enc_u64(n).len())),
{
    lemma_dec_digits_val(n as nat);
    let e = enc_u64(n);
    let j = i + e.len();
    assert forall|k: int| i <= k < j implies is_digit(#[trigger] s[k]) by {
        assert(s[k] == e[k - i]);
    }
    assert(digits_val(s.subrange(i, j)) == n);
    assert(s[i] == e[0]);
    lemma_p10_pos((j - i) as nat);
    assert(0 * p10((j - i) as nat) == 0);
    lemma_p_digits(s, i, j, 0);
}

/// The lowercase hex digit of a value below sixteen.
pub open spec fn hex_digit(n: u8) -> u8 {
    if n < 10 {
        (48 + n) as u8
    } else {
        (87 + n) as u8
    }
}

/// A lowercase hex digit byte.
pub open spec fn is_hex_lc(b: u8) -> bool {
    is_digit(b) || (97 <= b <= 102)
}

/// The value of a lowercase hex digit byte.
pub open spec fn hexv(b: u8) -> u8 {
    if is_digit(b) {
        (b - 48) as u8
    } else {
        (b - 87) as u8
    }
}

/// The escape of one byte inside a string: quote and backslash get a
/// backslash, control bytes become a four-digit escape, the rest stand
/// as they are.
pub open spec fn esc_byte(b: u8) -> Seq<u8> {
    if b == 34 {
        seq![92u8, 34u8]
    } else if b == 92 {
        seq![92u8, 92u8]
    } else if b < 32 {
        seq![92u8, 117u8, 48u8, 48u8, hex_digit(b / 16), hex_digit(b % 16)]
    } else {
        seq![b]
    }
}

/// The escaped body of a string.
pub open spec fn esc(s: Seq<u8>) -> Seq<u8>
    decreases s.len(),
{
    if s.len() == 0 {
        Seq::empty()
    } else {
        esc_byte(s[0]) + esc(s.skip(1))
    }
}

/// A quoted, escaped string.
pub open spec fn enc_str(s: Seq<u8>) -> Seq<u8> {
    seq![34u8] + esc(s) + seq![34u8]
}

/// Escaping distributes over appending one byte.
pub proof fn lemma_esc_push(s: Seq<u8>, b: u8)
    ensures
        esc(s.push(b)) == esc(s) + esc_byte(b),
    decreases s.len(),
{
    if s.len() == 0 {
        assert(s.push(b)[0] == b);
        assert(s.push(b).skip(1) =~= Seq::<u8>::empty());
        assert(esc(Seq::<u8>::empty()) =~= Seq::<u8>::empty());
        assert(s =~= Seq::<u8>::empty());
        assert(esc(s.push(b)) == esc_byte(b) + esc(Seq::<u8>::empty()));
        assert(esc(s.push(b)) =~= esc(s) + esc_byte(b));
    } else {
        assert(s.push(b).skip(1) =~= s.skip(1).push(b));
        lemma_esc_push(s.skip(1), b);
        assert(esc(s.push(b)) == esc_byte(s[0]) + (esc(s.skip(1)) + esc_byte(b)));
        assert(esc_byte(s[0]) + (esc(s.skip(1)) + esc_byte(b)) =~= (esc_byte(s[0]) + esc(
            s.skip(1),
        )) + esc_byte(b));
    }
}

/// The streaming string-body parser: bytes up to the closing quote,
/// honouring the three escape forms.
pub open spec fn p_str_rec(s: Seq<u8>, i: int, acc: Seq<u8>) -> Option<(Seq<u8>, int)>
    decreases s.len() - i,
    when 0 <= i <= s.len()
{
    if i >= s.len() {
        None
    } else if s[i] == 34 {
        Some((acc, i + 1))
    } else if s[i] == 92 {
        if i + 2 <= s.len() && (s[i + 1] == 34 || s[i + 1] == 92) {
            p_str_rec(s, i + 2, acc.push(s[i + 1]))
        } else if i + 6 <= s.len() && s[i + 1] == 117 && s[i + 2] == 48 && s[i + 3] == 48
            && is_hex_lc(s[i + 4]) && is_hex_lc(s[i + 5]) {
            p_str_rec(s, i + 6, acc.push((16 * hexv(s[i + 4]) + hexv(s[i + 5])) as u8))
        } else {
            None
        }
    } else {
        p_str_rec(s, i + 1, acc.push(s[i]))
    }
}

/// Parse a quoted string.
pub open spec fn p_str(s: Seq<u8>, i: int) -> Option<(Seq<u8>, int)> {
    if 0 <= i < s.len() && s[i] == 34 {
        p_str_rec(s, i + 1, Seq::empty())
    } else {
        None
    }
}

/// Hex digits round-trip below sixteen.
pub proof fn lemma_hexv_hex_digit(x: u8)
    requires
        x < 16,
    ensures
        is_hex_lc(hex_digit(x)),
        hexv(hex_digit(x)) == x,
{
}

/// The body parser consumes an escaped region up to its closing quote
/// and appends exactly the unescaped bytes.
pub proof fn lemma_p_str_rec_rt(v: Seq<u8>, s: Seq<u8>, i: int, acc: Seq<u8>)
    requires
        0 <= i,
        i + esc(v).len() + 1 <= s.len(),
        s.subrange(i, i + esc(v).len() + 1) == esc(v) + seq![34u8],
    ensures
        p_str_rec(s, i, acc) == Some((acc + v, i + esc(v).len() + 1)),
    decreases v.len(),
{
    let reg = esc(v) + seq![34u8];
    if v.len() == 0 {
        assert(s[i] == reg[0]);
        assert(acc + v =~= acc);
    } else {
        let b = v[0];
        let rest = v.skip(1);
        let eb = esc_byte(b);
        assert(esc(v) == eb + esc(rest));
        assert forall|k: int| 0 <= k < eb.len() implies s[i + k] == eb[k] by {
            assert(reg[k] == eb[k]);
            assert(s[i + k] == reg[k]);
        }
        let i2 = i + eb.len();
        assert(s.subrange(i2, i2 + esc(rest).len() + 1) =~= esc(rest) + seq![34u8]) by {
            assert forall|k: int| 0 <= k < esc(rest).len() + 1 implies s.subrange(
                i2,
                i2 + esc(rest).len() + 1,
            )[k] == (esc(rest) + seq![34u8])[k] by {
                assert(s.subrange(i2, i2 + esc(rest).len() + 1)[k] == s[i2 + k]);
                assert(s[i2 + k] == reg[eb.len() + k]);
            }
        }
        if b == 34 {
            assert(s[i] == 92 && s[i + 1] == 34);
            lemma_p_str_rec_rt(rest, s, i + 2, acc.push(b));
            assert(acc.push(b) + rest =~= acc + v);
        } else if b == 92 {
            assert(s[i] == 92 && s[i + 1] == 92);
            lemma_p_str_rec_rt(rest, s, i + 2, acc.push(b));
            assert(acc.push(b) + rest =~= acc + v);
        } else if b < 32 {
            assert(s[i] == 92 && s[i + 1] == 117 && s[i + 2] == 48 && s[i + 3] == 48);
            lemma_hexv_hex_digit(b / 16);
            lemma_hexv_hex_digit(b % 16);
            assert(s[i + 4] == hex_digit(b / 16));
            assert(s[i + 5] == hex_digit(b % 16));
            assert(s[i + 1] != 34 && s[i + 1] != 92);
            assert((16 * hexv(s[i + 4]) + hexv(s[i + 5])) as u8 == b);
            lemma_p_str_rec_rt(rest, s, i + 6, acc.push(b));
            assert(acc.push(b) + rest =~= acc + v);
        } else {
            assert(s[i + 0] == eb[0]);
            assert(eb[0] == b);
            assert(s[i] == b);
            assert(s[i] != 34 && s[i] != 92);
            lemma_p_str_rec_rt(rest, s, i + 1, acc.push(b));
            assert(acc.push(b) + rest =~= acc + v);
        }
    }
}

/// Parsing the rendering of a string recovers the string.
pub proof fn lemma_p_str_enc(s: Seq<u8>, i: int, v: Seq<u8>)
    requires
        0 <= i,
        i + enc_str(v).len() <= s.len(),
        s.subrange(i, i + enc_str(v).len()) == enc_str(v),
    ensures
        p_str(s, i) == Some((v, i + enc_str(v).len())),
{
    let e = enc_str(v);
    assert(s[i] == e[0]);
    assert(s.subrange(i + 1, i + 1 + esc(v).len() + 1) =~= esc(v) + seq![34u8]) by {
        assert forall|k: int| 0 <= k < esc(v).len() + 1 implies s.subrange(
            i + 1,
            i + 1 + esc(v).len() + 1,
        )[k] == (esc(v) + seq![34u8])[k] by {
            assert(s.subrange(i + 1, i + 1 + esc(v).len() + 1)[k] == s[i + 1 + k]);
            assert(s[i + 1 + k] == e[1 + k]);
        }
    }
    lemma_p_str_rec_rt(v, s, i + 1, Seq::empty());
    assert(Seq::<u8>::empty() + v =~= v);
}

/// The bytes of `true`.
pub open spec fn lit_true() -> Seq<u8> {
    seq![116u8, 114u8, 117u8, 101u8]
}

/// The bytes of `false`.
pub open spec fn lit_false() -> Seq<u8> {
    seq![102u8, 97u8, 108u8, 115u8, 101u8]
}

/// The bytes of `null`.
pub open spec fn lit_null() -> Seq<u8> {
    seq![110u8, 117u8, 108u8, 108u8]
}

/// The rendering of a boolean.
pub open spec fn enc_bool(b: bool) -> Seq<u8> {
    if b {
        lit_true()
    } else {
        lit_false()
    }
}

/// The rendering of an optional instant: `null` or its decimal value.
pub open spec fn enc_opt_u64(o: Option<u64>) -> Seq<u8> {
    match o {
        None => lit_null(),
        Some(n) => enc_u64(n),
    }
}

/// Expect a fixed byte sequence.
pub open spec fn p_lit(s: Seq<u8>, i: int, lit: Seq<u8>) -> Option<int> {
    if 0 <= i && i + lit.len() <= s.len() && s.subrange(i, i + lit.len()) == lit {
        Some(i + lit.len() as int)
    } else {
        None
    }
}

/// Parse a boolean.
pub open spec fn p_bool(s: Seq<u8>, i: int) -> Option<(bool, int)> {
    if p_lit(s, i, lit_true()) is Some {
        Some((true, p_lit(s, i, lit_true()).unwrap()))
    } else if p_lit(s, i, lit_false()) is Some {
        Some((false, p_lit(s, i, lit_false()).unwrap()))
    } else {
        None
    }
}

/// Parse an optional instant.
pub open spec fn p_opt_u64(s: Seq<u8>, i: int) -> Option<(Option<u64>, int)> {
    if p_lit(s, i, lit_null()) is Some {
        Some((None, p_lit(s, i, lit_null()).unwrap()))
    } else {
        match p_u64(s, i) {
            Some((n, j)) => Some((Some(n), j)),
            None => None,
        }
    }
}

/// Parsing the rendering of a boolean recovers it.
pub proof fn lemma_p_bool_enc(s: Seq<u8>, i: int, b: bool)
    requires
        0 <= i,
        i + enc_bool(b).len() <= s.len(),
        s.subrange(i, i + enc_bool(b).len()) == enc_bool(b),
    ensures
        p_bool(s, i) == Some((b, i + enc_bool(b).len())),
{
    if b {
    } else {
        assert(s[i] == enc_bool(b)[0]);
        if p_lit(s, i, lit_true()) is Some {
            assert(s.subrange(i, i + 4)[0] == lit_true()[0]);
            assert(s[i] == 116);
        }
    }
}

/// Parsing the rendering of an optional instant recovers it, as long as
/// a non-digit (or the end) follows.
pub proof fn lemma_p_opt_u64_enc(s: Seq<u8>, i: int, o: Option<u64>)
    requires
        0 <= i,
        i + enc_opt_u64(o).len() <= s.len(),
        s.subrange(i, i + enc_opt_u64(o).len()) == enc_opt_u64(o),
        i + enc_opt_u64(o).len() == s.len() || !is_digit(s[i + enc_opt_u64(o).len()]),
    ensures
        p_opt_u64(s, i) == Some((o, i + enc_opt_u64(o).len())),
{
    match o {
        None => {},
        Some(n) => {
            lemma_dec_digits_val(n as nat);
            assert(s[i] == enc_u64(n)[0]);
            assert(is_digit(s[i]));
            if p_lit(s, i, lit_null()) is Some {
                assert(s.subrange(i, i + 4)[0] == lit_null()[0]);
                assert(s[i] == 110);
            }
            lemma_p_u64_enc(s, i, n);
        },
    }
}

/// The bytes of `{"id":`.
pub open spec fn l_obj_id() -> Seq<u8> {
    seq![123u8, 34u8, 105u8, 100u8, 34u8, 58u8]
}

fn l_obj_id_vec() -> (r: Vec<u8>)
    ensures
        r@ == l_obj_id(),
{
    let mut v: Vec<u8> = Vec::new();
    v.push(123);
    v.push(34);
    v.push(105);
    v.push(100);
    v.push(34);
    v.push(58);
    proof {
        assert(v@ =~= l_obj_id());
    }
    v
}

/// The bytes of `,"content":`.
pub open spec fn l_key_content() -> Seq<u8> {
    seq![44u8, 34u8, 99u8, 111u8, 110u8, 116u8, 101u8, 110u8, 116u8, 34u8, 58u8]
}

fn l_key_content_vec() -> (r: Vec<u8>)
    ensures
        r@ == l_key_content(),
{
    let mut v: Vec<u8> = Vec::new();
    v.push(44);
    v.push(34);
    v.push(99);
    v.push(111);
    v.push(110);
    v.push(116);
    v.push(101);
    v.push(110);
    v.push(116);
    v.push(34);
    v.push(58);
    proof {
        assert(v@ =~= l_key_content());
    }
    v
}

/// The bytes of `,"content_type":`.
pub open spec fn l_key_content_type() -> Seq<u8> {
    seq![44u8, 34u8, 99u8, 111u8, 110u8, 116u8, 101u8, 110u8, 116u8, 95u8, 116u8, 121u8, 112u8, 101u8, 34u8, 58u8]
}

fn l_key_content_type_vec() -> (r: Vec<u8>)
    ensures
        r@ == l_key_content_type(),
{
    let mut v: Vec<u8> = Vec::new();
    v.push(44);
    v.push(34);
    v.push(99);
    v.push(111);
    v.push(110);
    v.push(116);
    v.push(101);
    v.push(110);
    v.push(116);
    v.push(95);
    v.push(116);
    v.push(121);
    v.push(112);
    v.push(101);
    v.push(34);
    v.push(58);
    proof {
        assert(v@ =~= l_key_content_type());
    }
    v
}

/// The bytes of `,"timestamp":`.
pub open spec fn l_key_timestamp() -> Seq<u8> {
    seq![44u8, 34u8, 116u8, 105u8, 109u8, 101u8, 115u8, 116u8, 97u8, 109u8, 112u8, 34u8, 58u8]
}

fn l_key_timestamp_vec() -> (r: Vec<u8>)
    ensures
        r@ == l_key_timestamp(),
{
    let mut v: Vec<u8> = Vec::new();
    v.push(44);
    v.push(34);
    v.push(116);
    v.push(105);
    v.push(109);
    v.push(101);
    v.push(115);
    v.push(116);
    v.push(97);
    v.push(109);
    v.push(112);
    v.push(34);
    v.push(58);
    proof {
        assert(v@ =~= l_key_timestamp());
    }
    v
}

/// The bytes of `,"size":`.
pub open spec fn l_key_size() -> Seq<u8> {
    seq![44u8, 34u8, 115u8, 105u8, 122u8, 101u8, 34u8, 58u8]
}

fn l_key_size_vec() -> (r: Vec<u8>)
    ensures
        r@ == l_key_size(),
{
    let mut v: Vec<u8> = Vec::new();
    v.push(44);
    v.push(34);
    v.push(115);
    v.push(105);
    v.push(122);
    v.push(101);
    v.push(34);
    v.push(58);
    proof {
        assert(v@ =~= l_key_size());
    }
    v
}

/// The bytes of `,"access_count":`.
pub open spec fn l_key_access_count() -> Seq<u8> {
    seq![44u8, 34u8, 97u8, 99u8, 99u8, 101u8, 115u8, 115u8, 95u8, 99u8, 111u8, 117u8, 110u8, 116u8, 34u8, 58u8]
}

fn l_key_access_count_vec() -> (r: Vec<u8>)
    ensures
        r@ == l_key_access_count(),
{
    let mut v: Vec<u8> = Vec::new();
    v.push(44);
    v.push(34);
    v.push(97);
    v.push(99);
    v.push(99);
    v.push(101);
    v.push(115);
    v.push(115);
    v.push(95);
    v.push(99);
    v.push(111);
    v.push(117);
    v.push(110);
    v.push(116);
    v.push(34);
    v.push(58);
    proof {
        assert(v@ =~= l_key_access_count());
    }
    v
}

/// The bytes of `,"last_accessed":`.
pub open spec fn l_key_last_accessed() -> Seq<u8> {
    seq![44u8, 34u8, 108u8, 97u8, 115u8, 116u8, 95u8, 97u8, 99u8, 99u8, 101u8, 115u8, 115u8, 101u8, 100u8, 34u8, 58u8]
}

fn l_key_last_accessed_vec() -> (r: Vec<u8>)
    ensures
        r@ == l_key_last_accessed(),
{
    let mut v: Vec<u8> = Vec::new();
    v.push(44);
    v.push(34);
    v.push(108);
    v.push(97);
    v.push(115);
    v.push(116);
    v.push(95);
    v.push(97);
    v.push(99);
    v.push(99);
    v.push(101);
    v.push(115);
    v.push(115);
    v.push(101);
    v.push(100);
    v.push(34);
    v.push(58);
    proof {
        assert(v@ =~= l_key_last_accessed());
    }
    v
}

/// The bytes of `,"name":`.
pub open spec fn l_key_name() -> Seq<u8> {
    seq![44u8, 34u8, 110u8, 97u8, 109u8, 101u8, 34u8, 58u8]
}

fn l_key_name_vec() -> (r: Vec<u8>)
    ensures
        r@ == l_key_name(),
{
    let mut v: Vec<u8> = Vec::new();
    v.push(44);
    v.push(34);
    v.push(110);
    v.push(97);
    v.push(109);
    v.push(101);
    v.push(34);
    v.push(58);
    proof {
        assert(v@ =~= l_key_name());
    }
    v
}

/// The bytes of `,"tags":`.
pub open spec fn l_key_tags() -> Seq<u8> {
    seq![44u8, 34u8, 116u8, 97u8, 103u8, 115u8, 34u8, 58u8]
}

fn l_key_tags_vec() -> (r: Vec<u8>)
    ensures
        r@ == l_key_tags(),
{
    let mut v: Vec<u8> = Vec::new();
    v.push(44);
    v.push(34);
    v.push(116);
    v.push(97);
    v.push(103);
    v.push(115);
    v.push(34);
    v.push(58);
    proof {
        assert(v@ =~= l_key_tags());
    }
    v
}

/// The bytes of `{"ip":`.
pub open spec fn l_obj_ip() -> Seq<u8> {
    seq![123u8, 34u8, 105u8, 112u8, 34u8, 58u8]
}

fn l_obj_ip_vec() -> (r: Vec<u8>)
    ensures
        r@ == l_obj_ip(),
{
    let mut v: Vec<u8> = Vec::new();
    v.push(123);
    v.push(34);
    v.push(105);
    v.push(112);
    v.push(34);
    v.push(58);
    proof {
        assert(v@ =~= l_obj_ip());
    }
    v
}

/// The bytes of `,"count":`.
pub open spec fn l_key_count() -> Seq<u8> {
    seq![44u8, 34u8, 99u8, 111u8, 117u8, 110u8, 116u8, 34u8, 58u8]
}

fn l_key_count_vec() -> (r: Vec<u8>)
    ensures
        r@ == l_key_count(),
{
    let mut v: Vec<u8> = Vec::new();
    v.push(44);
    v.push(34);
    v.push(99);
    v.push(111);
    v.push(117);
    v.push(110);
    v.push(116);
    v.push(34);
    v.push(58);
    proof {
        assert(v@ =~= l_key_count());
    }
    v
}

/// The bytes of `{"hotkey":`.
pub open spec fn l_obj_hotkey() -> Seq<u8> {
    seq![123u8, 34u8, 104u8, 111u8, 116u8, 107u8, 101u8, 121u8, 34u8, 58u8]
}

fn l_obj_hotkey_vec() -> (r: Vec<u8>)
    ensures
        r@ == l_obj_hotkey(),
{
    let mut v: Vec<u8> = Vec::new();
    v.push(123);
    v.push(34);
    v.push(104);
    v.push(111);
    v.push(116);
    v.push(107);
    v.push(101);
    v.push(121);
    v.push(34);
    v.push(58);
    proof {
        assert(v@ =~= l_obj_hotkey());
    }
    v
}

/// The bytes of `,"history_limit":`.
pub open spec fn l_key_history_limit() -> Seq<u8> {
    seq![44u8, 34u8, 104u8, 105u8, 115u8, 116u8, 111u8, 114u8, 121u8, 95u8, 108u8, 105u8, 109u8, 105u8, 116u8, 34u8, 58u8]
}

fn l_key_history_limit_vec() -> (r: Vec<u8>)
    ensures
        r@ == l_key_history_limit(),
{
    let mut v: Vec<u8> = Vec::new();
    v.push(44);
    v.push(34);
    v.push(104);
    v.push(105);
    v.push(115);
    v.push(116);
    v.push(111);
    v.push(114);
    v.push(121);
    v.push(95);
    v.push(108);
    v.push(105);
    v.push(109);
    v.push(105);
    v.push(116);
    v.push(34);
    v.push(58);
    proof {
        assert(v@ =~= l_key_history_limit());
    }
    v
}

/// The bytes of `,"ip_limit":`.
pub open spec fn l_key_ip_limit() -> Seq<u8> {
    seq![44u8, 34u8, 105u8, 112u8, 95u8, 108u8, 105u8, 109u8, 105u8, 116u8, 34u8, 58u8]
}

fn l_key_ip_limit_vec() -> (r: Vec<u8>)
    ensures
        r@ == l_key_ip_limit(),
{
    let mut v: Vec<u8> = Vec::new();
    v.push(44);
    v.push(34);
    v.push(105);
    v.push(112);
    v.push(95);
    v.push(108);
    v.push(105);
    v.push(109);
    v.push(105);
    v.push(116);
    v.push(34);
    v.push(58);
    proof {
        assert(v@ =~= l_key_ip_limit());
    }
    v
}

/// The bytes of `,"auto_start":`.
pub open spec fn l_key_auto_start() -> Seq<u8> {
    seq![44u8, 34u8, 97u8, 117u8, 116u8, 111u8, 95u8, 115u8, 116u8, 97u8, 114u8, 116u8, 34u8, 58u8]
}

fn l_key_auto_start_vec() -> (r: Vec<u8>)
    ensures
        r@ == l_key_auto_start(),
{
    let mut v: Vec<u8> = Vec::new();
    v.push(44);
    v.push(34);
    v.push(97);
    v.push(117);
    v.push(116);
    v.push(111);
    v.push(95);
    v.push(115);
    v.push(116);
    v.push(97);
    v.push(114);
    v.push(116);
    v.push(34);
    v.push(58);
    proof {
        assert(v@ =~= l_key_auto_start());
    }
    v
}

/// The bytes of `,"show_notifications":`.
pub open spec fn l_key_show_notifications() -> Seq<u8> {
    seq![44u8, 34u8, 115u8, 104u8, 111u8, 119u8, 95u8, 110u8, 111u8, 116u8, 105u8, 102u8, 105u8, 99u8, 97u8, 116u8, 105u8, 111u8, 110u8, 115u8, 34u8, 58u8]
}

fn l_key_show_notifications_vec() -> (r: Vec<u8>)
    ensures
        r@ == l_key_show_notifications(),
{
    let mut v: Vec<u8> = Vec::new();
    v.push(44);
    v.push(34);
    v.push(115);
    v.push(104);
    v.push(111);
    v.push(119);
    v.push(95);
    v.push(110);
    v.push(111);
    v.push(116);
    v.push(105);
    v.push(102);
    v.push(105);
    v.push(99);
    v.push(97);
    v.push(116);
    v.push(105);
    v.push(111);
    v.push(110);
    v.push(115);
    v.push(34);
    v.push(58);
    proof {
        assert(v@ =~= l_key_show_notifications());
    }
    v
}

/// The bytes of `{"version":`.
pub open spec fn l_obj_version() -> Seq<u8> {
    seq![123u8, 34u8, 118u8, 101u8, 114u8, 115u8, 105u8, 111u8, 110u8, 34u8, 58u8]
}

fn l_obj_version_vec() -> (r: Vec<u8>)
    ensures
        r@ == l_obj_version(),
{
    let mut v: Vec<u8> = Vec::new();
    v.push(123);
    v.push(34);
    v.push(118);
    v.push(101);
    v.push(114);
    v.push(115);
    v.push(105);
    v.push(111);
    v.push(110);
    v.push(34);
    v.push(58);
    proof {
        assert(v@ =~= l_obj_version());
    }
    v
}

/// The bytes of `,"history":`.
pub open spec fn l_key_history() -> Seq<u8> {
    seq![44u8, 34u8, 104u8, 105u8, 115u8, 116u8, 111u8, 114u8, 121u8, 34u8, 58u8]
}

fn l_key_history_vec() -> (r: Vec<u8>)
    ensures
        r@ == l_key_history(),
{
    let mut v: Vec<u8> = Vec::new();
    v.push(44);
    v.push(34);
    v.push(104);
    v.push(105);
    v.push(115);
    v.push(116);
    v.push(111);
    v.push(114);
    v.push(121);
    v.push(34);
    v.push(58);
    proof {
        assert(v@ =~= l_key_history());
    }
    v
}

/// The bytes of `,"bookmarks":`.
pub open spec fn l_key_bookmarks() -> Seq<u8> {
    seq![44u8, 34u8, 98u8, 111u8, 111u8, 107u8, 109u8, 97u8, 114u8, 107u8, 115u8, 34u8, 58u8]
}

fn l_key_bookmarks_vec() -> (r: Vec<u8>)
    ensures
        r@ == l_key_bookmarks(),
{
    let mut v: Vec<u8> = Vec::new();
    v.push(44);
    v.push(34);
    v.push(98);
    v.push(111);
    v.push(111);
    v.push(107);
    v.push(109);
    v.push(97);
    v.push(114);
    v.push(107);
    v.push(115);
    v.push(34);
    v.push(58);
    proof {
        assert(v@ =~= l_key_bookmarks());
    }
    v
}

/// The bytes of `,"recent_ips":`.
pub open spec fn l_key_recent_ips() -> Seq<u8> {
    seq![44u8, 34u8, 114u8, 101u8, 99u8, 101u8, 110u8, 116u8, 95u8, 105u8, 112u8, 115u8, 34u8, 58u8]
}

fn l_key_recent_ips_vec() -> (r: Vec<u8>)
    ensures
        r@ == l_key_recent_ips(),
{
    let mut v: Vec<u8> = Vec::new();
    v.push(44);
    v.push(34);
    v.push(114);
    v.push(101);
    v.push(99);
    v.push(101);
    v.push(110);
    v.push(116);
    v.push(95);
    v.push(105);
    v.push(112);
    v.push(115);
    v.push(34);
    v.push(58);
    proof {
        assert(v@ =~= l_key_recent_ips());
    }
    v
}

/// The bytes of `,"settings":`.
pub open spec fn l_key_settings() -> Seq<u8> {
    seq![44u8, 34u8, 115u8, 101u8, 116u8, 116u8, 105u8, 110u8, 103u8, 115u8, 34u8, 58u8]
}

fn l_key_settings_vec() -> (r: Vec<u8>)
    ensures
        r@ == l_key_settings(),
{
    let mut v: Vec<u8> = Vec::new();
    v.push(44);
    v.push(34);
    v.push(115);
    v.push(101);
    v.push(116);
    v.push(116);
    v.push(105);
    v.push(110);
    v.push(103);
    v.push(115);
    v.push(34);
    v.push(58);
    proof {
        assert(v@ =~= l_key_settings());
    }
    v
}

/// The bytes of `}`.
pub open spec fn l_close() -> Seq<u8> {
    seq![125u8]
}

fn l_close_vec() -> (r: Vec<u8>)
    ensures
        r@ == l_close(),
{
    let mut v: Vec<u8> = Vec::new();
    v.push(125);
    proof {
        assert(v@ =~= l_close());
    }
    v
}

/// The canonical rendering of one history entry record.
pub open spec fn enc_item(it: ClipboardItemModel) -> Seq<u8> {
    l_obj_id() + (enc_str(it.id) + (l_key_content() + (enc_str(it.content) + (l_key_content_type() + (enc_str(it.content_type) + (l_key_timestamp() + (enc_u64(it.timestamp) + (l_key_size() + (enc_u64(it.size) + (l_key_access_count() + (enc_u64(it.access_count as u64) + (l_key_last_accessed() + (enc_opt_u64(it.last_accessed) + (l_close()))))))))))))))
}

/// The canonical rendering of one bookmark record.
pub open spec fn enc_bm(it: BookmarkItemModel) -> Seq<u8> {
    l_obj_id() + (enc_str(it.id) + (l_key_name() + (enc_str(it.name) + (l_key_content() + (enc_str(it.content) + (l_key_content_type() + (enc_str(it.content_type) + (l_key_timestamp() + (enc_u64(it.timestamp) + (l_key_tags() + (enc_str_arr(it.tags) + (l_key_access_count() + (enc_u64(it.access_count as u64) + (l_key_last_accessed() + (enc_opt_u64(it.last_accessed) + (l_close()))))))))))))))))
}

/// The canonical rendering of one address record.
pub open spec fn enc_ip(it: IpHistoryItemModel) -> Seq<u8> {
    l_obj_ip() + (enc_str(it.ip) + (l_key_timestamp() + (enc_u64(it.timestamp) + (l_key_count() + (enc_u64(it.count as u64) + (l_close()))))))
}

/// The canonical rendering of the settings record.
pub open spec fn enc_settings(it: AppSettingsModel) -> Seq<u8> {
    l_obj_hotkey() + (enc_str(it.hotkey) + (l_key_history_limit() + (enc_u64(it.history_limit as u64) + (l_key_ip_limit() + (enc_u64(it.ip_limit as u64) + (l_key_auto_start() + (enc_bool(it.auto_start) + (l_key_show_notifications() + (enc_bool(it.show_notifications) + (l_close()))))))))))
}

/// The canonical rendering of the whole aggregate record.
pub open spec fn enc_app_data(it: AppDataModel) -> Seq<u8> {
    l_obj_version() + (enc_str(it.version) + (l_key_history() + (enc_item_arr(it.history) + (l_key_bookmarks() + (enc_bm_arr(it.bookmarks) + (l_key_recent_ips() + (enc_ip_arr(it.recent_ips) + (l_key_settings() + (enc_settings(it.settings) + (l_close()))))))))))
}

/// Parse one history entry record.
pub open spec fn p_item(s: Seq<u8>, i: int) -> Option<(ClipboardItemModel, int)> {
    match p_lit(s, i, l_obj_id()) { None => None, Some(i1) => { match p_str(s, i1) { None => None, Some((f_id, i2)) => { match p_lit(s, i2, l_key_content()) { None => None, Some(i3) => { match p_str(s, i3) { None => None, Some((f_content, i4)) => { match p_lit(s, i4, l_key_content_type()) { None => None, Some(i5) => { match p_str(s, i5) { None => None, Some((f_content_type, i6)) => { match p_lit(s, i6, l_key_timestamp()) { None => None, Some(i7) => { match p_u64(s, i7) { None => None, Some((f_timestamp, i8)) => { match p_lit(s, i8, l_key_size()) { None => None, Some(i9) => { match p_u64(s, i9) { None => None, Some((f_size, i10)) => { match p_lit(s, i10, l_key_access_count()) { None => None, Some(i11) => { match p_u64(s, i11) { None => None, Some((n_access_count, i12)) => { if n_access_count > u32::MAX as u64 { None } else { let f_access_count = n_access_count as u32; match p_lit(s, i12, l_key_last_accessed()) { None => None, Some(i13) => { match p_opt_u64(s, i13) { None => None, Some((f_last_accessed, i14)) => { match p_lit(s, i14, l_close()) { None => None, Some(i15) => { Some((ClipboardItemModel { id: f_id, content: f_content, content_type: f_content_type, timestamp: f_timestamp, size: f_size, access_count: f_access_count, last_accessed: f_last_accessed }, i15)) } } } } } } } } } } } } } } } } } } } } } } } } } } } } } } }
}

/// Parse one bookmark record.
pub open spec fn p_bm(s: Seq<u8>, i: int) -> Option<(BookmarkItemModel, int)> {
    match p_lit(s, i, l_obj_id()) { None => None, Some(i1) => { match p_str(s, i1) { None => None, Some((f_id, i2)) => { match p_lit(s, i2, l_key_name()) { None => None, Some(i3) => { match p_str(s, i3) { None => None, Some((f_name, i4)) => { match p_lit(s, i4, l_key_content()) { None => None, Some(i5) => { match p_str(s, i5) { None => None, Some((f_content, i6)) => { match p_lit(s, i6, l_key_content_type()) { None => None, Some(i7) => { match p_str(s, i7) { None => None, Some((f_content_type, i8)) => { match p_lit(s, i8, l_key_timestamp()) { None => None, Some(i9) => { match p_u64(s, i9) { None => None, Some((f_timestamp, i10)) => { match p_lit(s, i10, l_key_tags()) { None => None, Some(i11) => { match p_str_arr(s, i11) { None => None, Some((f_tags, i12)) => { match p_lit(s, i12, l_key_access_count()) { None => None, Some(i13) => { match p_u64(s, i13) { None => None, Some((n_access_count, i14)) => { if n_access_count > u32::MAX as u64 { None } else { let f_access_count = n_access_count as u32; match p_lit(s, i14, l_key_last_accessed()) { None => None, Some(i15) => { match p_opt_u64(s, i15) { None => None, Some((f_last_accessed, i16)) => { match p_lit(s, i16, l_close()) { None => None, Some(i17) => { Some((BookmarkItemModel { id: f_id, name: f_name, content: f_content, content_type: f_content_type, timestamp: f_timestamp, tags: f_tags, access_count: f_access_count, last_accessed: f_last_accessed }, i17)) } } } } } } } } } } } } } } } } } } } } } } } } } } } } } } } } } } }
}

/// Parse one address record.
pub open spec fn p_ip(s: Seq<u8>, i: int) -> Option<(IpHistoryItemModel, int)> {
    match p_lit(s, i, l_obj_ip()) { None => None, Some(i1) => { match p_str(s, i1) { None => None, Some((f_ip, i2)) => { match p_lit(s, i2, l_key_timestamp()) { None => None, Some(i3) => { match p_u64(s, i3) { None => None, Some((f_timestamp, i4)) => { match p_lit(s, i4, l_key_count()) { None => None, Some(i5) => { match p_u64(s, i5) { None => None, Some((n_count, i6)) => { if n_count > u32::MAX as u64 { None } else { let f_count = n_count as u32; match p_lit(s, i6, l_close()) { None => None, Some(i7) => { Some((IpHistoryItemModel { ip: f_ip, timestamp: f_timestamp, count: f_count }, i7)) } } } } } } } } } } } } } } }
}

/// Parse the settings record.
pub open spec fn p_settings(s: Seq<u8>, i: int) -> Option<(AppSettingsModel, int)> {
    match p_lit(s, i, l_obj_hotkey()) { None => None, Some(i1) => { match p_str(s, i1) { None => None, Some((f_hotkey, i2)) => { match p_lit(s, i2, l_key_history_limit()) { None => None, Some(i3) => { match p_u64(s, i3) { None => None, Some((n_history_limit, i4)) => { if n_history_limit < 1 || n_history_limit > usize::MAX as u64 { None } else { let f_history_limit = n_history_limit as usize; match p_lit(s, i4, l_key_ip_limit()) { None => None, Some(i5) => { match p_u64(s, i5) { None => None, Some((n_ip_limit, i6)) => { if n_ip_limit < 1 || n_ip_limit > usize::MAX as u64 { None } else { let f_ip_limit = n_ip_limit as usize; match p_lit(s, i6, l_key_auto_start()) { None => None, Some(i7) => { match p_bool(s, i7) { None => None, Some((f_auto_start, i8)) => { match p_lit(s, i8, l_key_show_notifications()) { None => None, Some(i9) => { match p_bool(s, i9) { None => None, Some((f_show_notifications, i10)) => { match p_lit(s, i10, l_close()) { None => None, Some(i11) => { Some((AppSettingsModel { hotkey: f_hotkey, history_limit: f_history_limit, ip_limit: f_ip_limit, auto_start: f_auto_start, show_notifications: f_show_notifications }, i11)) } } } } } } } } } } } } } } } } } } } } } } } }
}

/// Parse the aggregate record.
pub open spec fn p_app_data(s: Seq<u8>, i: int) -> Option<(AppDataModel, int)> {
    match p_lit(s, i, l_obj_version()) { None => None, Some(i1) => { match p_str(s, i1) { None => None, Some((f_version, i2)) => { match p_lit(s, i2, l_key_history()) { None => None, Some(i3) => { match p_item_arr(s, i3) { None => None, Some((f_history, i4)) => { match p_lit(s, i4, l_key_bookmarks()) { None => None, Some(i5) => { match p_bm_arr(s, i5) { None => None, Some((f_bookmarks, i6)) => { match p_lit(s, i6, l_key_recent_ips()) { None => None, Some(i7) => { match p_ip_arr(s, i7) { None => None, Some((f_recent_ips, i8)) => { match p_lit(s, i8, l_key_settings()) { None => None, Some(i9) => { match p_settings(s, i9) { None => None, Some((f_settings, i10)) => { match p_lit(s, i10, l_close()) { None => None, Some(i11) => { Some((AppDataModel { version: f_version, history: f_history, bookmarks: f_bookmarks, recent_ips: f_recent_ips, settings: f_settings }, i11)) } } } } } } } } } } } } } } } } } } } } } }
}

/// A region equal to a concatenation splits at the seam.
pub proof fn lemma_region_split(s: Seq<u8>, i: int, a: Seq<u8>, b: Seq<u8>)
    requires
        0 <= i,
        i + a.len() + b.len() <= s.len(),
        s.subrange(i, i + a.len() + b.len()) == a + b,
    ensures
        s.subrange(i, i + a.len()) == a,
        s.subrange(i + a.len(), i + a.len() + b.len()) == b,
{
    assert(s.subrange(i, i + a.len()) =~= a) by {
        assert forall|k: int| 0 <= k < a.len() implies s.subrange(i, i + a.len())[k] == a[k] by {
            assert(s.subrange(i, i + a.len())[k] == s[i + k]);
            assert(s[i + k] == s.subrange(i, i + a.len() + b.len())[k]);
        }
    }
    assert(s.subrange(i + a.len(), i + a.len() + b.len()) =~= b) by {
        assert forall|k: int| 0 <= k < b.len() implies s.subrange(
            i + a.len(),
            i + a.len() + b.len(),
        )[k] == b[k] by {
            assert(s.subrange(i + a.len(), i + a.len() + b.len())[k] == s[i + a.len() + k]);
            assert(s[i + a.len() + k] == s.subrange(i, i + a.len() + b.len())[a.len() + k]);
        }
    }
}

/// The comma-joined renderings of a run of strings.
pub open spec fn join_str(xs: Seq<Seq<u8>>) -> Seq<u8>
    decreases xs.len(),
{
    if xs.len() == 0 {
        Seq::empty()
    } else if xs.len() == 1 {
        enc_str(xs[0])
    } else {
        enc_str(xs[0]) + (seq![44u8] + join_str(xs.skip(1)))
    }
}

/// The bracketed rendering of a string list.
pub open spec fn enc_str_arr(xs: Seq<Seq<u8>>) -> Seq<u8> {
    seq![91u8] + (join_str(xs) + seq![93u8])
}

/// Joining distributes over appending one element.
pub proof fn lemma_join_str_push(xs: Seq<Seq<u8>>, x: Seq<u8>)
    ensures
        join_str(xs.push(x)) == if xs.len() == 0 {
            enc_str(x)
        } else {
            join_str(xs) + (seq![44u8] + enc_str(x))
        },
    decreases xs.len(),
{
    if xs.len() == 0 {
        assert(xs.push(x)[0] == x);
    } else if xs.len() == 1 {
        assert(xs.push(x)[0] == xs[0]);
        assert(xs.push(x).skip(1) =~= seq![x]);
        assert(join_str(seq![x]) == enc_str(x));
    } else {
        assert(xs.push(x)[0] == xs[0]);
        assert(xs.push(x).skip(1) =~= xs.skip(1).push(x));
        lemma_join_str_push(xs.skip(1), x);
        assert(join_str(xs.push(x)) =~= join_str(xs) + (seq![44u8] + enc_str(x)));
    }
}

/// The streaming string-list parser past the opening bracket.
pub open spec fn p_str_arr_rec(s: Seq<u8>, i: int, acc: Seq<Seq<u8>>) -> Option<
    (Seq<Seq<u8>>, int),
>
    decreases s.len() - i,
    when 0 <= i <= s.len()
{
    match p_str(s, i) {
        None => None,
        Some((v, j)) => {
            if !(i < j && j <= s.len()) {
                None
            } else if j < s.len() && s[j] == 44 {
                p_str_arr_rec(s, j + 1, acc.push(v))
            } else if j < s.len() && s[j] == 93 {
                Some((acc.push(v), j + 1))
            } else {
                None
            }
        },
    }
}

/// Parse a bracketed string list.
pub open spec fn p_str_arr(s: Seq<u8>, i: int) -> Option<(Seq<Seq<u8>>, int)> {
    if 0 <= i < s.len() && s[i] == 91 {
        if i + 1 < s.len() && s[i + 1] == 93 {
            Some((Seq::empty(), i + 2))
        } else {
            p_str_arr_rec(s, i + 1, Seq::empty())
        }
    } else {
        None
    }
}

/// The list parser consumes a joined region up to its closing bracket.
pub proof fn lemma_join_str_rt(s: Seq<u8>, i: int, xs: Seq<Seq<u8>>, acc: Seq<Seq<u8>>)
    requires
        xs.len() >= 1,
        0 <= i,
        i + join_str(xs).len() + 1 <= s.len(),
        s.subrange(i, i + join_str(xs).len() + 1) == join_str(xs) + seq![93u8],
    ensures
        p_str_arr_rec(s, i, acc) == Some((acc + xs, i + join_str(xs).len() + 1)),
    decreases xs.len(),
{
    if xs.len() == 1 {
        assert(join_str(xs) == enc_str(xs[0]));
        lemma_region_split(s, i, enc_str(xs[0]), seq![93u8]);
        lemma_p_str_enc(s, i, xs[0]);
        let j = i + enc_str(xs[0]).len();
        assert(s[j] == 93) by {
            assert(s.subrange(j, j + 1)[0] == 93);
        }
        assert(acc.push(xs[0]) =~= acc + xs);
    } else {
        let rest = xs.skip(1);
        let b = seq![44u8] + (join_str(rest) + seq![93u8]);
        assert(join_str(xs) == enc_str(xs[0]) + (seq![44u8] + join_str(rest)));
        assert(join_str(xs) + seq![93u8] =~= enc_str(xs[0]) + b);
        lemma_region_split(s, i, enc_str(xs[0]), b);
        lemma_p_str_enc(s, i, xs[0]);
        let j = i + enc_str(xs[0]).len();
        assert(s[j] == 44) by {
            assert(s.subrange(j, j + b.len())[0] == 44);
        }
        lemma_region_split(s, j, seq![44u8], join_str(rest) + seq![93u8]);
        assert(s.subrange(j + 1, j + 1 + join_str(rest).len() + 1) =~= join_str(rest)
            + seq![93u8]);
        lemma_join_str_rt(s, j + 1, rest, acc.push(xs[0]));
        assert(acc.push(xs[0]) + rest =~= acc + xs);
    }
}

/// Parsing the rendering of a string list recovers it.
pub proof fn lemma_p_str_arr_enc(s: Seq<u8>, i: int, xs: Seq<Seq<u8>>)
    requires
        0 <= i,
        i + enc_str_arr(xs).len() <= s.len(),
        s.subrange(i, i + enc_str_arr(xs).len()) == enc_str_arr(xs),
    ensures
        p_str_arr(s, i) == Some((xs, i + enc_str_arr(xs).len())),
{
    let e = enc_str_arr(xs);
    assert(s[i] == e[0]) by {
        assert(s.subrange(i, i + e.len())[0] == e[0]);
    }
    if xs.len() == 0 {
        assert(s[i + 1] == e[1]) by {
            assert(s.subrange(i, i + e.len())[1] == e[1]);
        }
        assert(e[1] == 93);
        assert(Seq::<Seq<u8>>::empty() =~= xs);
    } else {
        assert(s[i + 1] == e[1]) by {
            assert(s.subrange(i, i + e.len())[1] == e[1]);
        }
        assert(e[1] == join_str(xs)[0]);
        assert(join_str(xs)[0] == enc_str(xs[0])[0]);
        assert(enc_str(xs[0])[0] == 34);
        assert(s.subrange(i + 1, i + 1 + join_str(xs).len() + 1) =~= join_str(xs)
            + seq![93u8]) by {
            assert forall|k: int| 0 <= k < join_str(xs).len() + 1 implies s.subrange(
                i + 1,
                i + 1 + join_str(xs).len() + 1,
            )[k] == (join_str(xs) + seq![93u8])[k] by {
                assert(s.subrange(i + 1, i + 1 + join_str(xs).len() + 1)[k] == s[i + 1 + k]);
                assert(s[i + 1 + k] == s.subrange(i, i + e.len())[1 + k]);
            }
        }
        lemma_join_str_rt(s, i + 1, xs, Seq::empty());
        assert(Seq::<Seq<u8>>::empty() + xs =~= xs);
    }
}

/// The comma-joined renderings of a run of history entries.
pub open spec fn join_item(xs: Seq<ClipboardItemModel>) -> Seq<u8>
    decreases xs.len(),
{
    if xs.len() == 0 {
        Seq::empty()
    } else if xs.len() == 1 {
        enc_item(xs[0])
    } else {
        enc_item(xs[0]) + (seq![44u8] + join_item(xs.skip(1)))
    }
}

/// The bracketed rendering of a history list.
pub open spec fn enc_item_arr(xs: Seq<ClipboardItemModel>) -> Seq<u8> {
    seq![91u8] + (join_item(xs) + seq![93u8])
}

/// Joining distributes over appending one element.
pub proof fn lemma_join_item_push(xs: Seq<ClipboardItemModel>, x: ClipboardItemModel)
    ensures
        join_item(xs.push(x)) == if xs.len() == 0 {
            enc_item(x)
        } else {
            join_item(xs) + (seq![44u8] + enc_item(x))
        },
    decreases xs.len(),
{
    if xs.len() == 0 {
        assert(xs.push(x)[0] == x);
    } else if xs.len() == 1 {
        assert(xs.push(x)[0] == xs[0]);
        assert(xs.push(x).skip(1) =~= seq![x]);
        assert(join_item(seq![x]) == enc_item(x));
    } else {
        assert(xs.push(x)[0] == xs[0]);
        assert(xs.push(x).skip(1) =~= xs.skip(1).push(x));
        lemma_join_item_push(xs.skip(1), x);
        assert(join_item(xs.push(x)) =~= join_item(xs) + (seq![44u8] + enc_item(x)));
    }
}

/// The streaming history-list parser past the opening bracket.
pub open spec fn p_item_arr_rec(s: Seq<u8>, i: int, acc: Seq<ClipboardItemModel>) -> Option<
    (Seq<ClipboardItemModel>, int),
>
    decreases s.len() - i,
    when 0 <= i <= s.len()
{
    match p_item(s, i) {
        None => None,
        Some((v, j)) => {
            if !(i < j && j <= s.len()) {
                None
            } else if j < s.len() && s[j] == 44 {
                p_item_arr_rec(s, j + 1, acc.push(v))
            } else if j < s.len() && s[j] == 93 {
                Some((acc.push(v), j + 1))
            } else {
                None
            }
        },
    }
}

/// Parse a bracketed history list.
pub open spec fn p_item_arr(s: Seq<u8>, i: int) -> Option<(Seq<ClipboardItemModel>, int)> {
    if 0 <= i < s.len() && s[i] == 91 {
        if i + 1 < s.len() && s[i + 1] == 93 {
            Some((Seq::empty(), i + 2))
        } else {
            p_item_arr_rec(s, i + 1, Seq::empty())
        }
    } else {
        None
    }
}

/// The list parser consumes a joined region up to its closing bracket.
#[verifier::rlimit(90)]
pub proof fn lemma_join_item_rt(s: Seq<u8>, i: int, xs: Seq<ClipboardItemModel>, acc: Seq<ClipboardItemModel>)
    requires
        xs.len() >= 1,
        0 <= i,
        i + join_item(xs).len() + 1 <= s.len(),
        s.subrange(i, i + join_item(xs).len() + 1) == join_item(xs) + seq![93u8],
    ensures
        p_item_arr_rec(s, i, acc) == Some((acc + xs, i + join_item(xs).len() + 1)),
    decreases xs.len(),
{
    if xs.len() == 1 {
        assert(join_item(xs) == enc_item(xs[0]));
        lemma_region_split(s, i, enc_item(xs[0]), seq![93u8]);
        lemma_p_item_enc(s, i, xs[0]);
        let j = i + enc_item(xs[0]).len();
        assert(s[j] == 93) by {
            assert(s.subrange(j, j + 1)[0] == 93);
        }
        assert(acc.push(xs[0]) =~= acc + xs);
    } else {
        let rest = xs.skip(1);
        let b = seq![44u8] + (join_item(rest) + seq![93u8]);
        assert(join_item(xs) == enc_item(xs[0]) + (seq![44u8] + join_item(rest)));
        assert(join_item(xs) + seq![93u8] =~= enc_item(xs[0]) + b);
        lemma_region_split(s, i, enc_item(xs[0]), b);
        lemma_p_item_enc(s, i, xs[0]);
        let j = i + enc_item(xs[0]).len();
        assert(s[j] == 44) by {
            assert(s.subrange(j, j + b.len())[0] == 44);
        }
        lemma_region_split(s, j, seq![44u8], join_item(rest) + seq![93u8]);
        assert(s.subrange(j + 1, j + 1 + join_item(rest).len() + 1) =~= join_item(rest)
            + seq![93u8]);
        lemma_join_item_rt(s, j + 1, rest, acc.push(xs[0]));
        assert(acc.push(xs[0]) + rest =~= acc + xs);
    }
}

/// Parsing the rendering of a history list recovers it.
#[verifier::rlimit(90)]
pub proof fn lemma_p_item_arr_enc(s: Seq<u8>, i: int, xs: Seq<ClipboardItemModel>)
    requires
        0 <= i,
        i + enc_item_arr(xs).len() <= s.len(),
        s.subrange(i, i + enc_item_arr(xs).len()) == enc_item_arr(xs),
    ensures
        p_item_arr(s, i) == Some((xs, i + enc_item_arr(xs).len())),
{
    let e = enc_item_arr(xs);
    assert(s[i] == e[0]) by {
        assert(s.subrange(i, i + e.len())[0] == e[0]);
    }
    if xs.len() == 0 {
        assert(s[i + 1] == e[1]) by {
            assert(s.subrange(i, i + e.len())[1] == e[1]);
        }
        assert(e[1] == 93);
        assert(Seq::<ClipboardItemModel>::empty() =~= xs);
    } else {
        assert(s[i + 1] == e[1]) by {
            assert(s.subrange(i, i + e.len())[1] == e[1]);
        }
        assert(e[1] == join_item(xs)[0]);
        assert(join_item(xs)[0] == enc_item(xs[0])[0]);
        assert(enc_item(xs[0])[0] == 123);
        assert(s.subrange(i + 1, i + 1 + join_item(xs).len() + 1) =~= join_item(xs)
            + seq![93u8]) by {
            assert forall|k: int| 0 <= k < join_item(xs).len() + 1 implies s.subrange(
                i + 1,
                i + 1 + join_item(xs).len() + 1,
            )[k] == (join_item(xs) + seq![93u8])[k] by {
                assert(s.subrange(i + 1, i + 1 + join_item(xs).len() + 1)[k] == s[i + 1 + k]);
                assert(s[i + 1 + k] == s.subrange(i, i + e.len())[1 + k]);
            }
        }
        lemma_join_item_rt(s, i + 1, xs, Seq::empty());
        assert(Seq::<ClipboardItemModel>::empty() + xs =~= xs);
    }
}

/// The comma-joined renderings of a run of bookmarks.
pub open spec fn join_bm(xs: Seq<BookmarkItemModel>) -> Seq<u8>
    decreases xs.len(),
{
    if xs.len() == 0 {
        Seq::empty()
    } else if xs.len() == 1 {
        enc_bm(xs[0])
    } else {
        enc_bm(xs[0]) + (seq![44u8] + join_bm(xs.skip(1)))
    }
}

/// The bracketed rendering of a bookmark list.
pub open spec fn enc_bm_arr(xs: Seq<BookmarkItemModel>) -> Seq<u8> {
    seq![91u8] + (join_bm(xs) + seq![93u8])
}

/// Joining distributes over appending one element.
pub proof fn lemma_join_bm_push(xs: Seq<BookmarkItemModel>, x: BookmarkItemModel)
    ensures
        join_bm(xs.push(x)) == if xs.len() == 0 {
            enc_bm(x)
        } else {
            join_bm(xs) + (seq![44u8] + enc_bm(x))
        },
    decreases xs.len(),
{
    if xs.len() == 0 {
        assert(xs.push(x)[0] == x);
    } else if xs.len() == 1 {
        assert(xs.push(x)[0] == xs[0]);
        assert(xs.push(x).skip(1) =~= seq![x]);
        assert(join_bm(seq![x]) == enc_bm(x));
    } else {
        assert(xs.push(x)[0] == xs[0]);
        assert(xs.push(x).skip(1) =~= xs.skip(1).push(x));
        lemma_join_bm_push(xs.skip(1), x);
        assert(join_bm(xs.push(x)) =~= join_bm(xs) + (seq![44u8] + enc_bm(x)));
    }
}

/// The streaming bookmark-list parser past the opening bracket.
pub open spec fn p_bm_arr_rec(s: Seq<u8>, i: int, acc: Seq<BookmarkItemModel>) -> Option<
    (Seq<BookmarkItemModel>, int),
>
    decreases s.len() - i,
    when 0 <= i <= s.len()
{
    match p_bm(s, i) {
        None => None,
        Some((v, j)) => {
            if !(i < j && j <= s.len()) {
                None
            } else if j < s.len() && s[j] == 44 {
                p_bm_arr_rec(s, j + 1, acc.push(v))
            } else if j < s.len() && s[j] == 93 {
                Some((acc.push(v), j + 1))
            } else {
                None
            }
        },
    }
}

/// Parse a bracketed bookmark list.
pub open spec fn p_bm_arr(s: Seq<u8>, i: int) -> Option<(Seq<BookmarkItemModel>, int)> {
    if 0 <= i < s.len() && s[i] == 91 {
        if i + 1 < s.len() && s[i + 1] == 93 {
            Some((Seq::empty(), i + 2))
        } else {
            p_bm_arr_rec(s, i + 1, Seq::empty())
        }
    } else {
        None
    }
}

/// The list parser consumes a joined region up to its closing bracket.
#[verifier::rlimit(90)]
pub proof fn lemma_join_bm_rt(s: Seq<u8>, i: int, xs: Seq<BookmarkItemModel>, acc: Seq<BookmarkItemModel>)
    requires
        xs.len() >= 1,
        0 <= i,
        i + join_bm(xs).len() + 1 <= s.len(),
        s.subrange(i, i + join_bm(xs).len() + 1) == join_bm(xs) + seq![93u8],
    ensures
        p_bm_arr_rec(s, i, acc) == Some((acc + xs, i + join_bm(xs).len() + 1)),
    decreases xs.len(),
{
    if xs.len() == 1 {
        assert(join_bm(xs) == enc_bm(xs[0]));
        lemma_region_split(s, i, enc_bm(xs[0]), seq![93u8]);
        lemma_p_bm_enc(s, i, xs[0]);
        let j = i + enc_bm(xs[0]).len();
        assert(s[j] == 93) by {
            assert(s.subrange(j, j + 1)[0] == 93);
        }
        assert(acc.push(xs[0]) =~= acc + xs);
    } else {
        let rest = xs.skip(1);
        let b = seq![44u8] + (join_bm(rest) + seq![93u8]);
        assert(join_bm(xs) == enc_bm(xs[0]) + (seq![44u8] + join_bm(rest)));
        assert(join_bm(xs) + seq![93u8] =~= enc_bm(xs[0]) + b);
        lemma_region_split(s, i, enc_bm(xs[0]), b);
        lemma_p_bm_enc(s, i, xs[0]);
        let j = i + enc_bm(xs[0]).len();
        assert(s[j] == 44) by {
            assert(s.subrange(j, j + b.len())[0] == 44);
        }
        lemma_region_split(s, j, seq![44u8], join_bm(rest) + seq![93u8]);
        assert(s.subrange(j + 1, j + 1 + join_bm(rest).len() + 1) =~= join_bm(rest)
            + seq![93u8]);
        lemma_join_bm_rt(s, j + 1, rest, acc.push(xs[0]));
        assert(acc.push(xs[0]) + rest =~= acc + xs);
    }
}

/// Parsing the rendering of a bookmark list recovers it.
#[verifier::rlimit(90)]
pub proof fn lemma_p_bm_arr_enc(s: Seq<u8>, i: int, xs: Seq<BookmarkItemModel>)
    requires
        0 <= i,
        i + enc_bm_arr(xs).len() <= s.len(),
        s.subrange(i, i + enc_bm_arr(xs).len()) == enc_bm_arr(xs),
    ensures
        p_bm_arr(s, i) == Some((xs, i + enc_bm_arr(xs).len())),
{
    let e = enc_bm_arr(xs);
    assert(s[i] == e[0]) by {
        assert(s.subrange(i, i + e.len())[0] == e[0]);
    }
    if xs.len() == 0 {
        assert(s[i + 1] == e[1]) by {
            assert(s.subrange(i, i + e.len())[1] == e[1]);
        }
        assert(e[1] == 93);
        assert(Seq::<BookmarkItemModel>::empty() =~= xs);
    } else {
        assert(s[i + 1] == e[1]) by {
            assert(s.subrange(i, i + e.len())[1] == e[1]);
        }
        assert(e[1] == join_bm(xs)[0]);
        assert(join_bm(xs)[0] == enc_bm(xs[0])[0]);
        assert(enc_bm(xs[0])[0] == 123);
        assert(s.subrange(i + 1, i + 1 + join_bm(xs).len() + 1) =~= join_bm(xs)
            + seq![93u8]) by {
            assert forall|k: int| 0 <= k < join_bm(xs).len() + 1 implies s.subrange(
                i + 1,
                i + 1 + join_bm(xs).len() + 1,
            )[k] == (join_bm(xs) + seq![93u8])[k] by {
                assert(s.subrange(i + 1, i + 1 + join_bm(xs).len() + 1)[k] == s[i + 1 + k]);
                assert(s[i + 1 + k] == s.subrange(i, i + e.len())[1 + k]);
            }
        }
        lemma_join_bm_rt(s, i + 1, xs, Seq::empty());
        assert(Seq::<BookmarkItemModel>::empty() + xs =~= xs);
    }
}

/// The comma-joined renderings of a run of address records.
pub open spec fn join_ip(xs: Seq<IpHistoryItemModel>) -> Seq<u8>
    decreases xs.len(),
{
    if xs.len() == 0 {
        Seq::empty()
    } else if xs.len() == 1 {
        enc_ip(xs[0])
    } else {
        enc_ip(xs[0]) + (seq![44u8] + join_ip(xs.skip(1)))
    }
}

/// The bracketed rendering of an address list.
pub open spec fn enc_ip_arr(xs: Seq<IpHistoryItemModel>) -> Seq<u8> {
    seq![91u8] + (join_ip(xs) + seq![93u8])
}

/// Joining distributes over appending one element.
pub proof fn lemma_join_ip_push(xs: Seq<IpHistoryItemModel>, x: IpHistoryItemModel)
    ensures
        join_ip(xs.push(x)) == if xs.len() == 0 {
            enc_ip(x)
        } else {
            join_ip(xs) + (seq![44u8] + enc_ip(x))
        },
    decreases xs.len(),
{
    if xs.len() == 0 {
        assert(xs.push(x)[0] == x);
    } else if xs.len() == 1 {
        assert(xs.push(x)[0] == xs[0]);
        assert(xs.push(x).skip(1) =~= seq![x]);
        assert(join_ip(seq![x]) == enc_ip(x));
    } else {
        assert(xs.push(x)[0] == xs[0]);
        assert(xs.push(x).skip(1) =~= xs.skip(1).push(x));
        lemma_join_ip_push(xs.skip(1), x);
        assert(join_ip(xs.push(x)) =~= join_ip(xs) + (seq![44u8] + enc_ip(x)));
    }
}

/// The streaming address-list parser past the opening bracket.
pub open spec fn p_ip_arr_rec(s: Seq<u8>, i: int, acc: Seq<IpHistoryItemModel>) -> Option<
    (Seq<IpHistoryItemModel>, int),
>
    decreases s.len() - i,
    when 0 <= i <= s.len()
{
    match p_ip(s, i) {
        None => None,
        Some((v, j)) => {
            if !(i < j && j <= s.len()) {
                None
            } else if j < s.len() && s[j] == 44 {
                p_ip_arr_rec(s, j + 1, acc.push(v))
            } else if j < s.len() && s[j] == 93 {
                Some((acc.push(v), j + 1))
            } else {
                None
            }
        },
    }
}

/// Parse a bracketed address list.
pub open spec fn p_ip_arr(s: Seq<u8>, i: int) -> Option<(Seq<IpHistoryItemModel>, int)> {
    if 0 <= i < s.len() && s[i] == 91 {
        if i + 1 < s.len() && s[i + 1] == 93 {
            Some((Seq::empty(), i + 2))
        } else {
            p_ip_arr_rec(s, i + 1, Seq::empty())
        }
    } else {
        None
    }
}

/// The list parser consumes a joined region up to its closing bracket.
pub proof fn lemma_join_ip_rt(s: Seq<u8>, i: int, xs: Seq<IpHistoryItemModel>, acc: Seq<IpHistoryItemModel>)
    requires
        xs.len() >= 1,
        0 <= i,
        i + join_ip(xs).len() + 1 <= s.len(),
        s.subrange(i, i + join_ip(xs).len() + 1) == join_ip(xs) + seq![93u8],
    ensures
        p_ip_arr_rec(s, i, acc) == Some((acc + xs, i + join_ip(xs).len() + 1)),
    decreases xs.len(),
{
    if xs.len() == 1 {
        assert(join_ip(xs) == enc_ip(xs[0]));
        lemma_region_split(s, i, enc_ip(xs[0]), seq![93u8]);
        lemma_p_ip_enc(s, i, xs[0]);
        let j = i + enc_ip(xs[0]).len();
        assert(s[j] == 93) by {
            assert(s.subrange(j, j + 1)[0] == 93);
        }
        assert(acc.push(xs[0]) =~= acc + xs);
    } else {
        let rest = xs.skip(1);
        let b = seq![44u8] + (join_ip(rest) + seq![93u8]);
        assert(join_ip(xs) == enc_ip(xs[0]) + (seq![44u8] + join_ip(rest)));
        assert(join_ip(xs) + seq![93u8] =~= enc_ip(xs[0]) + b);
        lemma_region_split(s, i, enc_ip(xs[0]), b);
        lemma_p_ip_enc(s, i, xs[0]);
        let j = i + enc_ip(xs[0]).len();
        assert(s[j] == 44) by {
            assert(s.subrange(j, j + b.len())[0] == 44);
        }
        lemma_region_split(s, j, seq![44u8], join_ip(rest) + seq![93u8]);
        assert(s.subrange(j + 1, j + 1 + join_ip(rest).len() + 1) =~= join_ip(rest)
            + seq![93u8]);
        lemma_join_ip_rt(s, j + 1, rest, acc.push(xs[0]));
        assert(acc.push(xs[0]) + rest =~= acc + xs);
    }
}

/// Parsing the rendering of an address list recovers it.
#[verifier::rlimit(90)]
pub proof fn lemma_p_ip_arr_enc(s: Seq<u8>, i: int, xs: Seq<IpHistoryItemModel>)
    requires
        0 <= i,
        i + enc_ip_arr(xs).len() <= s.len(),
        s.subrange(i, i + enc_ip_arr(xs).len()) == enc_ip_arr(xs),
    ensures
        p_ip_arr(s, i) == Some((xs, i + enc_ip_arr(xs).len())),
{
    let e = enc_ip_arr(xs);
    assert(s[i] == e[0]) by {
        assert(s.subrange(i, i + e.len())[0] == e[0]);
    }
    if xs.len() == 0 {
        assert(s[i + 1] == e[1]) by {
            assert(s.subrange(i, i + e.len())[1] == e[1]);
        }
        assert(e[1] == 93);
        assert(Seq::<IpHistoryItemModel>::empty() =~= xs);
    } else {
        assert(s[i + 1] == e[1]) by {
            assert(s.subrange(i, i + e.len())[1] == e[1]);
        }
        assert(e[1] == join_ip(xs)[0]);
        assert(join_ip(xs)[0] == enc_ip(xs[0])[0]);
        assert(enc_ip(xs[0])[0] == 123);
        assert(s.subrange(i + 1, i + 1 + join_ip(xs).len() + 1) =~= join_ip(xs)
            + seq![93u8]) by {
            assert forall|k: int| 0 <= k < join_ip(xs).len() + 1 implies s.subrange(
                i + 1,
                i + 1 + join_ip(xs).len() + 1,
            )[k] == (join_ip(xs) + seq![93u8])[k] by {
                assert(s.subrange(i + 1, i + 1 + join_ip(xs).len() + 1)[k] == s[i + 1 + k]);
                assert(s[i + 1 + k] == s.subrange(i, i + e.len())[1 + k]);
            }
        }
        lemma_join_ip_rt(s, i + 1, xs, Seq::empty());
        assert(Seq::<IpHistoryItemModel>::empty() + xs =~= xs);
    }
}

/// Parsing the rendering of one history entry record recovers it.
pub proof fn lemma_p_item_enc(s: Seq<u8>, i: int, it: ClipboardItemModel)
    requires
        0 <= i,
        i + enc_item(it).len() <= s.len(),
        s.subrange(i, i + enc_item(it).len()) == enc_item(it),
    ensures
        p_item(s, i) == Some((it, i + enc_item(it).len())),
{
    let e0 = l_obj_id();
    let e1 = enc_str(it.id);
    let e2 = l_key_content();
    let e3 = enc_str(it.content);
    let e4 = l_key_content_type();
    let e5 = enc_str(it.content_type);
    let e6 = l_key_timestamp();
    let e7 = enc_u64(it.timestamp);
    let e8 = l_key_size();
    let e9 = enc_u64(it.size);
    let e10 = l_key_access_count();
    let e11 = enc_u64(it.access_count as u64);
    let e12 = l_key_last_accessed();
    let e13 = enc_opt_u64(it.last_accessed);
    let e14 = l_close();
    let t14 = e14;
    let t13 = e13 + (t14);
    let t12 = e12 + (t13);
    let t11 = e11 + (t12);
    let t10 = e10 + (t11);
    let t9 = e9 + (t10);
    let t8 = e8 + (t9);
    let t7 = e7 + (t8);
    let t6 = e6 + (t7);
    let t5 = e5 + (t6);
    let t4 = e4 + (t5);
    let t3 = e3 + (t4);
    let t2 = e2 + (t3);
    let t1 = e1 + (t2);
    let t0 = e0 + (t1);
    assert(enc_item(it) == t0);
    let i0 = i;
    lemma_region_split(s, i0, e0, t1);
    let i1 = i0 + e0.len();
    lemma_region_split(s, i1, e1, t2);
    lemma_p_str_enc(s, i1, it.id);
    let i2 = i1 + e1.len();
    lemma_region_split(s, i2, e2, t3);
    let i3 = i2 + e2.len();
    lemma_region_split(s, i3, e3, t4);
    lemma_p_str_enc(s, i3, it.content);
    let i4 = i3 + e3.len();
    lemma_region_split(s, i4, e4, t5);
    let i5 = i4 + e4.len();
    lemma_region_split(s, i5, e5, t6);
    lemma_p_str_enc(s, i5, it.content_type);
    let i6 = i5 + e5.len();
    lemma_region_split(s, i6, e6, t7);
    let i7 = i6 + e6.len();
    lemma_region_split(s, i7, e7, t8);
    assert(s[i7 + e7.len()] == t8[0]) by {
        assert(s.subrange(i7 + e7.len(), i7 + e7.len() + t8.len())[0] == t8[0]);
    }
    lemma_p_u64_enc(s, i7, it.timestamp);
    let i8 = i7 + e7.len();
    lemma_region_split(s, i8, e8, t9);
    let i9 = i8 + e8.len();
    lemma_region_split(s, i9, e9, t10);
    assert(s[i9 + e9.len()] == t10[0]) by {
        assert(s.subrange(i9 + e9.len(), i9 + e9.len() + t10.len())[0] == t10[0]);
    }
    lemma_p_u64_enc(s, i9, it.size);
    let i10 = i9 + e9.len();
    lemma_region_split(s, i10, e10, t11);
    let i11 = i10 + e10.len();
    lemma_region_split(s, i11, e11, t12);
    assert(s[i11 + e11.len()] == t12[0]) by {
        assert(s.subrange(i11 + e11.len(), i11 + e11.len() + t12.len())[0] == t12[0]);
    }
    lemma_p_u64_enc(s, i11, it.access_count as u64);
    let i12 = i11 + e11.len();
    lemma_region_split(s, i12, e12, t13);
    let i13 = i12 + e12.len();
    lemma_region_split(s, i13, e13, t14);
    assert(s[i13 + e13.len()] == t14[0]) by {
        assert(s.subrange(i13 + e13.len(), i13 + e13.len() + t14.len())[0] == t14[0]);
    }
    lemma_p_opt_u64_enc(s, i13, it.last_accessed);
    let i14 = i13 + e13.len();
    let i15 = i14 + e14.len();
    assert((ClipboardItemModel { id: it.id, content: it.content, content_type: it.content_type, timestamp: it.timestamp, size: it.size, access_count: it.access_count, last_accessed: it.last_accessed }) == it);
}

/// Parsing the rendering of one bookmark record recovers it.
#[verifier::rlimit(90)]
pub proof fn lemma_p_bm_enc(s: Seq<u8>, i: int, it: BookmarkItemModel)
    requires
        0 <= i,
        i + enc_bm(it).len() <= s.len(),
        s.subrange(i, i + enc_bm(it).len()) == enc_bm(it),
    ensures
        p_bm(s, i) == Some((it, i + enc_bm(it).len())),
{
    let e0 = l_obj_id();
    let e1 = enc_str(it.id);
    let e2 = l_key_name();
    let e3 = enc_str(it.name);
    let e4 = l_key_content();
    let e5 = enc_str(it.content);
    let e6 = l_key_content_type();
    let e7 = enc_str(it.content_type);
    let e8 = l_key_timestamp();
    let e9 = enc_u64(it.timestamp);
    let e10 = l_key_tags();
    let e11 = enc_str_arr(it.tags);
    let e12 = l_key_access_count();
    let e13 = enc_u64(it.access_count as u64);
    let e14 = l_key_last_accessed();
    let e15 = enc_opt_u64(it.last_accessed);
    let e16 = l_close();
    let t16 = e16;
    let t15 = e15 + (t16);
    let t14 = e14 + (t15);
    let t13 = e13 + (t14);
    let t12 = e12 + (t13);
    let t11 = e11 + (t12);
    let t10 = e10 + (t11);
    let t9 = e9 + (t10);
    let t8 = e8 + (t9);
    let t7 = e7 + (t8);
    let t6 = e6 + (t7);
    let t5 = e5 + (t6);
    let t4 = e4 + (t5);
    let t3 = e3 + (t4);
    let t2 = e2 + (t3);
    let t1 = e1 + (t2);
    let t0 = e0 + (t1);
    assert(enc_bm(it) == t0);
    let i0 = i;
    lemma_region_split(s, i0, e0, t1);
    let i1 = i0 + e0.len();
    lemma_region_split(s, i1, e1, t2);
    lemma_p_str_enc(s, i1, it.id);
    let i2 = i1 + e1.len();
    lemma_region_split(s, i2, e2, t3);
    let i3 = i2 + e2.len();
    lemma_region_split(s, i3, e3, t4);
    lemma_p_str_enc(s, i3, it.name);
    let i4 = i3 + e3.len();
    lemma_region_split(s, i4, e4, t5);
    let i5 = i4 + e4.len();
    lemma_region_split(s, i5, e5, t6);
    lemma_p_str_enc(s, i5, it.content);
    let i6 = i5 + e5.len();
    lemma_region_split(s, i6, e6, t7);
    let i7 = i6 + e6.len();
    lemma_region_split(s, i7, e7, t8);
    lemma_p_str_enc(s, i7, it.content_type);
    let i8 = i7 + e7.len();
    lemma_region_split(s, i8, e8, t9);
    let i9 = i8 + e8.len();
    lemma_region_split(s, i9, e9, t10);
    assert(s[i9 + e9.len()] == t10[0]) by {
        assert(s.subrange(i9 + e9.len(), i9 + e9.len() + t10.len())[0] == t10[0]);
    }
    lemma_p_u64_enc(s, i9, it.timestamp);
    let i10 = i9 + e9.len();
    lemma_region_split(s, i10, e10, t11);
    let i11 = i10 + e10.len();
    lemma_region_split(s, i11, e11, t12);
    lemma_p_str_arr_enc(s, i11, it.tags);
    let i12 = i11 + e11.len();
    lemma_region_split(s, i12, e12, t13);
    let i13 = i12 + e12.len();
    lemma_region_split(s, i13, e13, t14);
    assert(s[i13 + e13.len()] == t14[0]) by {
        assert(s.subrange(i13 + e13.len(), i13 + e13.len() + t14.len())[0] == t14[0]);
    }
    lemma_p_u64_enc(s, i13, it.access_count as u64);
    let i14 = i13 + e13.len();
    lemma_region_split(s, i14, e14, t15);
    let i15 = i14 + e14.len();
    lemma_region_split(s, i15, e15, t16);
    assert(s[i15 + e15.len()] == t16[0]) by {
        assert(s.subrange(i15 + e15.len(), i15 + e15.len() + t16.len())[0] == t16[0]);
    }
    lemma_p_opt_u64_enc(s, i15, it.last_accessed);
    let i16 = i15 + e15.len();
    let i17 = i16 + e16.len();
    assert((BookmarkItemModel { id: it.id, name: it.name, content: it.content, content_type: it.content_type, timestamp: it.timestamp, tags: it.tags, access_count: it.access_count, last_accessed: it.last_accessed }) == it);
}

/// Parsing the rendering of one address record recovers it.
pub proof fn lemma_p_ip_enc(s: Seq<u8>, i: int, it: IpHistoryItemModel)
    requires
        0 <= i,
        i + enc_ip(it).len() <= s.len(),
        s.subrange(i, i + enc_ip(it).len()) == enc_ip(it),
    ensures
        p_ip(s, i) == Some((it, i + enc_ip(it).len())),
{
    let e0 = l_obj_ip();
    let e1 = enc_str(it.ip);
    let e2 = l_key_timestamp();
    let e3 = enc_u64(it.timestamp);
    let e4 = l_key_count();
    let e5 = enc_u64(it.count as u64);
    let e6 = l_close();
    let t6 = e6;
    let t5 = e5 + (t6);
    let t4 = e4 + (t5);
    let t3 = e3 + (t4);
    let t2 = e2 + (t3);
    let t1 = e1 + (t2);
    let t0 = e0 + (t1);
    assert(enc_ip(it) == t0);
    let i0 = i;
    lemma_region_split(s, i0, e0, t1);
    let i1 = i0 + e0.len();
    lemma_region_split(s, i1, e1, t2);
    lemma_p_str_enc(s, i1, it.ip);
    let i2 = i1 + e1.len();
    lemma_region_split(s, i2, e2, t3);
    let i3 = i2 + e2.len();
    lemma_region_split(s, i3, e3, t4);
    assert(s[i3 + e3.len()] == t4[0]) by {
        assert(s.subrange(i3 + e3.len(), i3 + e3.len() + t4.len())[0] == t4[0]);
    }
    lemma_p_u64_enc(s, i3, it.timestamp);
    let i4 = i3 + e3.len();
    lemma_region_split(s, i4, e4, t5);
    let i5 = i4 + e4.len();
    lemma_region_split(s, i5, e5, t6);
    assert(s[i5 + e5.len()] == t6[0]) by {
        assert(s.subrange(i5 + e5.len(), i5 + e5.len() + t6.len())[0] == t6[0]);
    }
    lemma_p_u64_enc(s, i5, it.count as u64);
    let i6 = i5 + e5.len();
    let i7 = i6 + e6.len();
    assert((IpHistoryItemModel { ip: it.ip, timestamp: it.timestamp, count: it.count }) == it);
}

/// Parsing the rendering of the settings record recovers it.
pub proof fn lemma_p_settings_enc(s: Seq<u8>, i: int, it: AppSettingsModel)
    requires
        0 <= i,
        i + enc_settings(it).len() <= s.len(),
        s.subrange(i, i + enc_settings(it).len()) == enc_settings(it),
        it.history_limit >= 1,
        it.ip_limit >= 1,
    ensures
        p_settings(s, i) == Some((it, i + enc_settings(it).len())),
{
    let e0 = l_obj_hotkey();
    let e1 = enc_str(it.hotkey);
    let e2 = l_key_history_limit();
    let e3 = enc_u64(it.history_limit as u64);
    let e4 = l_key_ip_limit();
    let e5 = enc_u64(it.ip_limit as u64);
    let e6 = l_key_auto_start();
    let e7 = enc_bool(it.auto_start);
    let e8 = l_key_show_notifications();
    let e9 = enc_bool(it.show_notifications);
    let e10 = l_close();
    let t10 = e10;
    let t9 = e9 + (t10);
    let t8 = e8 + (t9);
    let t7 = e7 + (t8);
    let t6 = e6 + (t7);
    let t5 = e5 + (t6);
    let t4 = e4 + (t5);
    let t3 = e3 + (t4);
    let t2 = e2 + (t3);
    let t1 = e1 + (t2);
    let t0 = e0 + (t1);
    assert(enc_settings(it) == t0);
    let i0 = i;
    lemma_region_split(s, i0, e0, t1);
    let i1 = i0 + e0.len();
    lemma_region_split(s, i1, e1, t2);
    lemma_p_str_enc(s, i1, it.hotkey);
    let i2 = i1 + e1.len();
    lemma_region_split(s, i2, e2, t3);
    let i3 = i2 + e2.len();
    lemma_region_split(s, i3, e3, t4);
    assert(s[i3 + e3.len()] == t4[0]) by {
        assert(s.subrange(i3 + e3.len(), i3 + e3.len() + t4.len())[0] == t4[0]);
    }
    lemma_p_u64_enc(s, i3, it.history_limit as u64);
    let i4 = i3 + e3.len();
    lemma_region_split(s, i4, e4, t5);
    let i5 = i4 + e4.len();
    lemma_region_split(s, i5, e5, t6);
    assert(s[i5 + e5.len()] == t6[0]) by {
        assert(s.subrange(i5 + e5.len(), i5 + e5.len() + t6.len())[0] == t6[0]);
    }
    lemma_p_u64_enc(s, i5, it.ip_limit as u64);
    let i6 = i5 + e5.len();
    lemma_region_split(s, i6, e6, t7);
    let i7 = i6 + e6.len();
    lemma_region_split(s, i7, e7, t8);
    lemma_p_bool_enc(s, i7, it.auto_start);
    let i8 = i7 + e7.len();
    lemma_region_split(s, i8, e8, t9);
    let i9 = i8 + e8.len();
    lemma_region_split(s, i9, e9, t10);
    lemma_p_bool_enc(s, i9, it.show_notifications);
    let i10 = i9 + e9.len();
    let i11 = i10 + e10.len();
    assert((AppSettingsModel { hotkey: it.hotkey, history_limit: it.history_limit, ip_limit: it.ip_limit, auto_start: it.auto_start, show_notifications: it.show_notifications }) == it);
}


/// A rendered aggregate is never blank: it opens with a brace, so the
/// loader's empty-file gate cannot swallow a save.
pub proof fn lemma_enc_app_data_not_blank(d: AppDataModel)
    ensures
        !spec_is_blank(enc_app_data(d)),
{
    let e = enc_app_data(d);
    assert(e[0] == 123);
    assert(!is_ascii_space(e[0]));
}

/// Parse a whole document: the aggregate record with nothing after it.
pub open spec fn p_document(s: Seq<u8>) -> Option<AppDataModel> {
    match p_app_data(s, 0) {
        Some((d, j)) => if j == s.len() {
            Some(d)
        } else {
            None
        },
        None => None,
    }
}

/// Decoding inverts encoding: the canonical rendering of any aggregate
/// with positive capacity bounds parses back to that aggregate.
pub proof fn lemma_codec_round_trip(d: AppDataModel)
    requires
        wf_settings(d.settings),
    ensures
        p_document(enc_app_data(d)) == Some(d),
{
    let s = enc_app_data(d);
    assert(s.subrange(0, s.len() as int) =~= s);
    lemma_p_app_data_enc(s, 0, d);
}

fn lit_true_vec() -> (r: Vec<u8>)
    ensures
        r@ == lit_true(),
{
    let mut v: Vec<u8> = Vec::new();
    v.push(116);
    v.push(114);
    v.push(117);
    v.push(101);
    proof {
        assert(v@ =~= lit_true());
    }
    v
}

fn lit_false_vec() -> (r: Vec<u8>)
    ensures
        r@ == lit_false(),
{
    let mut v: Vec<u8> = Vec::new();
    v.push(102);
    v.push(97);
    v.push(108);
    v.push(115);
    v.push(101);
    proof {
        assert(v@ =~= lit_false());
    }
    v
}

fn lit_null_vec() -> (r: Vec<u8>)
    ensures
        r@ == lit_null(),
{
    let mut v: Vec<u8> = Vec::new();
    v.push(110);
    v.push(117);
    v.push(108);
    v.push(108);
    proof {
        assert(v@ =~= lit_null());
    }
    v
}

fn push_lit(out: &mut Vec<u8>, lit: &Vec<u8>)
    ensures
        final(out)@ == old(out)@ + lit@,
{
    let mut k: usize = 0;
    while k < lit.len()
        invariant
            0 <= k <= lit@.len(),
            out@ == old(out)@ + lit@.subrange(0, k as int),
        decreases lit@.len() - k,
    {
        out.push(lit[k]);
        proof {
            assert(out@ =~= old(out)@ + lit@.subrange(0, k + 1 as int));
        }
        k = k + 1;
    }
    proof {
        assert(lit@.subrange(0, lit@.len() as int) =~= lit@);
    }
}

fn expect(v: &Vec<u8>, i: usize, lit: &Vec<u8>) -> (r: Option<usize>)
    ensures
        match r {
            Some(j) => p_lit(v@, i as int, lit@) == Some(j as int) && j as int == i + lit@.len()
                && i <= j <= v.len(),
            None => p_lit(v@, i as int, lit@) is None,
        },
{
    if v.len() < lit.len() || i > v.len() - lit.len() {
        return None;
    }
    let mut k: usize = 0;
    while k < lit.len()
        invariant
            0 <= k <= lit@.len(),
            i + lit@.len() <= v@.len(),
            v@.len() == v.len(),
            forall|m: int| 0 <= m < k ==> v@[i + m] == lit@[m],
        decreases lit@.len() - k,
    {
        if v[i + k] != lit[k] {
            proof {
                assert(v@.subrange(i as int, i + lit@.len())[k as int] == v@[i + k]);
                assert(v@.subrange(i as int, i + lit@.len()) != lit@);
            }
            return None;
        }
        k = k + 1;
    }
    proof {
        assert(v@.subrange(i as int, i + lit@.len()) =~= lit@);
    }
    Some(i + lit.len())
}

fn push_u64(out: &mut Vec<u8>, n: u64)
    ensures
        final(out)@ == old(out)@ + enc_u64(n),
    decreases n,
{
    if n >= 10 {
        push_u64(out, n / 10);
        out.push(48 + (n % 10) as u8);
        proof {
            assert(out@ =~= old(out)@ + enc_u64(n));
        }
    } else {
        out.push(48 + n as u8);
        proof {
            assert(out@ =~= old(out)@ + enc_u64(n));
        }
    }
}

fn push_str(out: &mut Vec<u8>, s: &Vec<u8>)
    ensures
        final(out)@ == old(out)@ + enc_str(s@),
{
    out.push(34);
    proof {
        assert(s@.subrange(0, 0) =~= Seq::<u8>::empty());
        assert(out@ =~= old(out)@ + seq![34u8] + esc(s@.subrange(0, 0)));
    }
    let mut k: usize = 0;
    while k < s.len()
        invariant
            0 <= k <= s@.len(),
            out@ == old(out)@ + seq![34u8] + esc(s@.subrange(0, k as int)),
        decreases s@.len() - k,
    {
        let b = s[k];
        let ghost pre = s@.subrange(0, k as int);
        let ghost cur = s@.subrange(0, k + 1 as int);
        proof {
            assert(cur =~= pre.push(b));
            lemma_esc_push(pre, b);
        }
        if b == 34 {
            out.push(92);
            out.push(34);
        } else if b == 92 {
            out.push(92);
            out.push(92);
        } else if b < 32 {
            out.push(92);
            out.push(117);
            out.push(48);
            out.push(48);
            let h1 = b / 16;
            let h2 = b % 16;
            out.push(if h1 < 10 { 48 + h1 } else { 87 + h1 });
            out.push(if h2 < 10 { 48 + h2 } else { 87 + h2 });
        } else {
            out.push(b);
        }
        proof {
            assert(out@ =~= old(out)@ + seq![34u8] + esc(cur));
        }
        k = k + 1;
    }
    out.push(34);
    proof {
        assert(s@.subrange(0, s@.len() as int) =~= s@);
        assert(out@ =~= old(out)@ + enc_str(s@));
    }
}

fn push_bool(out: &mut Vec<u8>, b: bool)
    ensures
        final(out)@ == old(out)@ + enc_bool(b),
{
    if b {
        let l = lit_true_vec();
        push_lit(out, &l);
    } else {
        let l = lit_false_vec();
        push_lit(out, &l);
    }
}

fn push_opt_u64(out: &mut Vec<u8>, o: Option<u64>)
    ensures
        final(out)@ == old(out)@ + enc_opt_u64(o),
{
    match o {
        None => {
            let l = lit_null_vec();
            push_lit(out, &l);
        },
        Some(n) => {
            push_u64(out, n);
        },
    }
}

fn parse_u64(v: &Vec<u8>, i: usize) -> (r: Option<(u64, usize)>)
    ensures
        match r {
            Some((n, j)) => p_u64(v@, i as int) == Some((n, j as int)) && i < j <= v.len(),
            None => p_u64(v@, i as int) is None,
        },
{
    if !(i < v.len()) {
        return None;
    }
    let c0 = v[i];
    if !(48 <= c0 && c0 <= 57) {
        return None;
    }
    let d0 = (c0 - 48) as u64;
    proof {
        assert(!(0u64 > (u64::MAX - d0) / 10)) by {
            assert((u64::MAX - d0) / 10 >= 0);
        }
        assert(p_u64_rec(v@, i as int, 0) == p_u64_rec(v@, i + 1 as int, d0));
    }
    let mut acc: u64 = d0;
    let mut k: usize = i + 1;
    while k < v.len() && 48 <= v[k] && v[k] <= 57
        invariant
            i < k <= v.len(),
            v@.len() == v.len(),
            p_u64_rec(v@, i as int, 0) == p_u64_rec(v@, k as int, acc),
        decreases v@.len() - k,
    {
        let d = (v[k] - 48) as u64;
        if acc > (u64::MAX - d) / 10 {
            return None;
        }
        proof {
            lemma_u64_guard(acc, d);
            assert(p_u64_rec(v@, k as int, acc) == p_u64_rec(
                v@,
                k + 1 as int,
                (10 * acc + d) as u64,
            ));
        }
        acc = 10 * acc + d;
        k = k + 1;
    }
    Some((acc, k))
}

fn parse_string(v: &Vec<u8>, i: usize) -> (r: Option<(Vec<u8>, usize)>)
    ensures
        match r {
            Some((t, j)) => p_str(v@, i as int) == Some((t@, j as int)) && i < j <= v.len(),
            None => p_str(v@, i as int) is None,
        },
{
    if !(i < v.len()) {
        return None;
    }
    if v[i] != 34 {
        return None;
    }
    let mut acc: Vec<u8> = Vec::new();
    let mut k: usize = i + 1;
    proof {
        assert(acc@ =~= Seq::<u8>::empty());
    }
    loop
        invariant
            i + 1 <= k <= v.len(),
            v@.len() == v.len(),
            i < v.len(),
            v@[i as int] == 34,
            p_str_rec(v@, i + 1 as int, Seq::empty()) == p_str_rec(v@, k as int, acc@),
        decreases v@.len() - k,
    {
        if k >= v.len() {
            return None;
        }
        let b = v[k];
        if b == 34 {
            return Some((acc, k + 1));
        }
        if b == 92 {
            if v.len() - k >= 2 && (v[k + 1] == 34 || v[k + 1] == 92) {
                acc.push(v[k + 1]);
                k = k + 2;
            } else if v.len() - k >= 6 {
                let c1 = v[k + 1];
                let c2 = v[k + 2];
                let c3 = v[k + 3];
                let c4 = v[k + 4];
                let c5 = v[k + 5];
                let hx4 = (48 <= c4 && c4 <= 57) || (97 <= c4 && c4 <= 102);
                let hx5 = (48 <= c5 && c5 <= 57) || (97 <= c5 && c5 <= 102);
                if c1 == 117 && c2 == 48 && c3 == 48 && hx4 && hx5 {
                    let h1 = if c4 <= 57 {
                        c4 - 48
                    } else {
                        c4 - 87
                    };
                    let h2 = if c5 <= 57 {
                        c5 - 48
                    } else {
                        c5 - 87
                    };
                    proof {
                        assert(h1 == hexv(v@[k + 4]));
                        assert(h2 == hexv(v@[k + 5]));
                        assert(h1 <= 15 && h2 <= 15);
                    }
                    acc.push(16 * h1 + h2);
                    k = k + 6;
                } else {
                    return None;
                }
            } else {
                return None;
            }
        } else {
            acc.push(b);
            k = k + 1;
        }
    }
}

fn parse_bool(v: &Vec<u8>, i: usize) -> (r: Option<(bool, usize)>)
    ensures
        match r {
            Some((b, j)) => p_bool(v@, i as int) == Some((b, j as int)) && i < j <= v.len(),
            None => p_bool(v@, i as int) is None,
        },
{
    let lt = lit_true_vec();
    match expect(v, i, &lt) {
        Some(j) => {
            return Some((true, j));
        },
        None => {},
    }
    let lf = lit_false_vec();
    match expect(v, i, &lf) {
        Some(j) => Some((false, j)),
        None => None,
    }
}

fn parse_opt_u64(v: &Vec<u8>, i: usize) -> (r: Option<(Option<u64>, usize)>)
    ensures
        match r {
            Some((o, j)) => p_opt_u64(v@, i as int) == Some((o, j as int)) && i < j <= v.len(),
            None => p_opt_u64(v@, i as int) is None,
        },
{
    let ln = lit_null_vec();
    match expect(v, i, &ln) {
        Some(j) => {
            return Some((None, j));
        },
        None => {},
    }
    match parse_u64(v, i) {
        Some((n, j)) => Some((Some(n), j)),
        None => None,
    }
}

fn push_str_arr(out: &mut Vec<u8>, xs: &Vec<Vec<u8>>)
    ensures
        final(out)@ == old(out)@ + enc_str_arr(xs.deep_view()),
{
    let ghost xd: Seq<Seq<u8>> = xs.deep_view();
    out.push(91);
    proof {
        assert(xd.subrange(0, 0) =~= Seq::<Seq<u8>>::empty());
        assert(out@ =~= old(out)@ + seq![91u8] + join_str(xd.subrange(0, 0)));
    }
    let mut k: usize = 0;
    while k < xs.len()
        invariant
            xd == xs.deep_view(),
            0 <= k <= xs@.len(),
            out@ == old(out)@ + seq![91u8] + join_str(xd.subrange(0, k as int)),
        decreases xs@.len() - k,
    {
        let ghost pre = xd.subrange(0, k as int);
        proof {
            broadcast use group_deep_seq, lemma_bytes_deep_view;

            assert(xd[k as int] == xs@[k as int].deep_view());
            assert(xd.subrange(0, k + 1 as int) =~= pre.push(xd[k as int]));
            lemma_join_str_push(pre, xd[k as int]);
        }
        if k > 0 {
            out.push(44);
        }
        push_str(out, &xs[k]);
        proof {
            assert(out@ =~= old(out)@ + seq![91u8] + join_str(xd.subrange(0, k + 1 as int)));
        }
        k = k + 1;
    }
    out.push(93);
    proof {
        assert(xd.subrange(0, xd.len() as int) =~= xd);
        assert(out@ =~= old(out)@ + enc_str_arr(xd));
    }
}

fn parse_str_arr(v: &Vec<u8>, i: usize) -> (r: Option<(Vec<Vec<u8>>, usize)>)
    ensures
        match r {
            Some((xs, j)) => p_str_arr(v@, i as int) == Some((xs.deep_view(), j as int)) && i
                < j <= v.len(),
            None => p_str_arr(v@, i as int) is None,
        },
{
    if !(i < v.len()) {
        return None;
    }
    if v[i] != 91 {
        return None;
    }
    if v.len() - i >= 2 && v[i + 1] == 93 {
        let out: Vec<Vec<u8>> = Vec::new();
        proof {
            broadcast use group_deep_seq, lemma_bytes_deep_view;

            assert(out.deep_view() =~= Seq::<Seq<u8>>::empty());
        }
        return Some((out, i + 2));
    }
    let mut acc: Vec<Vec<u8>> = Vec::new();
    let mut k: usize = i + 1;
    proof {
        broadcast use group_deep_seq, lemma_bytes_deep_view;

        assert(acc.deep_view() =~= Seq::<Seq<u8>>::empty());
    }
    loop
        invariant
            i + 1 <= k <= v.len(),
            v@.len() == v.len(),
            i < v.len(),
            v@[i as int] == 91,
            !(i + 1 < v@.len() && v@[i + 1] == 93),
            p_str_arr_rec(v@, i + 1 as int, Seq::<Seq<u8>>::empty()) == p_str_arr_rec(
                v@,
                k as int,
                acc.deep_view(),
            ),
        decreases v@.len() - k,
    {
        match parse_string(v, k) {
            None => {
                return None;
            },
            Some(pr) => {
                let (x, j) = pr;
                proof {
                    broadcast use group_deep_seq, lemma_bytes_deep_view;
                }
                let ghost prevd = acc.deep_view();
                let ghost xdv = x.deep_view();
                if j < v.len() && v[j] == 44 {
                    acc.push(x);
                    proof {
                        broadcast use group_deep_seq, lemma_bytes_deep_view;

                        assert(acc.deep_view() =~= prevd.push(xdv));
                    }
                    k = j + 1;
                } else if j < v.len() && v[j] == 93 {
                    acc.push(x);
                    proof {
                        broadcast use group_deep_seq, lemma_bytes_deep_view;

                        assert(acc.deep_view() =~= prevd.push(xdv));
                    }
                    return Some((acc, j + 1));
                } else {
                    return None;
                }
            },
        }
    }
}

fn push_item_arr(out: &mut Vec<u8>, xs: &Vec<ClipboardItem>)
    ensures
        final(out)@ == old(out)@ + enc_item_arr(xs.deep_view()),
{
    let ghost xd: Seq<ClipboardItemModel> = xs.deep_view();
    out.push(91);
    proof {
        assert(xd.subrange(0, 0) =~= Seq::<ClipboardItemModel>::empty());
        assert(out@ =~= old(out)@ + seq![91u8] + join_item(xd.subrange(0, 0)));
    }
    let mut k: usize = 0;
    while k < xs.len()
        invariant
            xd == xs.deep_view(),
            0 <= k <= xs@.len(),
            out@ == old(out)@ + seq![91u8] + join_item(xd.subrange(0, k as int)),
        decreases xs@.len() - k,
    {
        let ghost pre = xd.subrange(0, k as int);
        proof {
            broadcast use group_deep_seq, lemma_bytes_deep_view;

            assert(xd[k as int] == xs@[k as int].deep_view());
            assert(xd.subrange(0, k + 1 as int) =~= pre.push(xd[k as int]));
            lemma_join_item_push(pre, xd[k as int]);
        }
        if k > 0 {
            out.push(44);
        }
        push_item(out, &xs[k]);
        proof {
            assert(out@ =~= old(out)@ + seq![91u8] + join_item(xd.subrange(0, k + 1 as int)));
        }
        k = k + 1;
    }
    out.push(93);
    proof {
        assert(xd.subrange(0, xd.len() as int) =~= xd);
        assert(out@ =~= old(out)@ + enc_item_arr(xd));
    }
}

fn parse_item_arr(v: &Vec<u8>, i: usize) -> (r: Option<(Vec<ClipboardItem>, usize)>)
    ensures
        match r {
            Some((xs, j)) => p_item_arr(v@, i as int) == Some((xs.deep_view(), j as int)) && i
                < j <= v.len(),
            None => p_item_arr(v@, i as int) is None,
        },
{
    if !(i < v.len()) {
        return None;
    }
    if v[i] != 91 {
        return None;
    }
    if v.len() - i >= 2 && v[i + 1] == 93 {
        let out: Vec<ClipboardItem> = Vec::new();
        proof {
            broadcast use group_deep_seq, lemma_bytes_deep_view;

            assert(out.deep_view() =~= Seq::<ClipboardItemModel>::empty());
        }
        return Some((out, i + 2));
    }
    let mut acc: Vec<ClipboardItem> = Vec::new();
    let mut k: usize = i + 1;
    proof {
        broadcast use group_deep_seq, lemma_bytes_deep_view;

        assert(acc.deep_view() =~= Seq::<ClipboardItemModel>::empty());
    }
    loop
        invariant
            i + 1 <= k <= v.len(),
            v@.len() == v.len(),
            i < v.len(),
            v@[i as int] == 91,
            !(i + 1 < v@.len() && v@[i + 1] == 93),
            p_item_arr_rec(v@, i + 1 as int, Seq::<ClipboardItemModel>::empty()) == p_item_arr_rec(
                v@,
                k as int,
                acc.deep_view(),
            ),
        decreases v@.len() - k,
    {
        match parse_item(v, k) {
            None => {
                return None;
            },
            Some(pr) => {
                let (x, j) = pr;
                proof {
                    broadcast use group_deep_seq, lemma_bytes_deep_view;
                }
                let ghost prevd = acc.deep_view();
                let ghost xdv = x.deep_view();
                if j < v.len() && v[j] == 44 {
                    acc.push(x);
                    proof {
                        broadcast use group_deep_seq, lemma_bytes_deep_view;

                        assert(acc.deep_view() =~= prevd.push(xdv));
                    }
                    k = j + 1;
                } else if j < v.len() && v[j] == 93 {
                    acc.push(x);
                    proof {
                        broadcast use group_deep_seq, lemma_bytes_deep_view;

                        assert(acc.deep_view() =~= prevd.push(xdv));
                    }
                    return Some((acc, j + 1));
                } else {
                    return None;
                }
            },
        }
    }
}

fn push_bm_arr(out: &mut Vec<u8>, xs: &Vec<BookmarkItem>)
    ensures
        final(out)@ == old(out)@ + enc_bm_arr(xs.deep_view()),
{
    let ghost xd: Seq<BookmarkItemModel> = xs.deep_view();
    out.push(91);
    proof {
        assert(xd.subrange(0, 0) =~= Seq::<BookmarkItemModel>::empty());
        assert(out@ =~= old(out)@ + seq![91u8] + join_bm(xd.subrange(0, 0)));
    }
    let mut k: usize = 0;
    while k < xs.len()
        invariant
            xd == xs.deep_view(),
            0 <= k <= xs@.len(),
            out@ == old(out)@ + seq![91u8] + join_bm(xd.subrange(0, k as int)),
        decreases xs@.len() - k,
    {
        let ghost pre = xd.subrange(0, k as int);
        proof {
            broadcast use group_deep_seq, lemma_bytes_deep_view;

            assert(xd[k as int] == xs@[k as int].deep_view());
            assert(xd.subrange(0, k + 1 as int) =~= pre.push(xd[k as int]));
            lemma_join_bm_push(pre, xd[k as int]);
        }
        if k > 0 {
            out.push(44);
        }
        push_bm(out, &xs[k]);
        proof {
            assert(out@ =~= old(out)@ + seq![91u8] + join_bm(xd.subrange(0, k + 1 as int)));
        }
        k = k + 1;
    }
    out.push(93);
    proof {
        assert(xd.subrange(0, xd.len() as int) =~= xd);
        assert(out@ =~= old(out)@ + enc_bm_arr(xd));
    }
}

fn parse_bm_arr(v: &Vec<u8>, i: usize) -> (r: Option<(Vec<BookmarkItem>, usize)>)
    ensures
        match r {
            Some((xs, j)) => p_bm_arr(v@, i as int) == Some((xs.deep_view(), j as int)) && i
                < j <= v.len(),
            None => p_bm_arr(v@, i as int) is None,
        },
{
    if !(i < v.len()) {
        return None;
    }
    if v[i] != 91 {
        return None;
    }
    if v.len() - i >= 2 && v[i + 1] == 93 {
        let out: Vec<BookmarkItem> = Vec::new();
        proof {
            broadcast use group_deep_seq, lemma_bytes_deep_view;

            assert(out.deep_view() =~= Seq::<BookmarkItemModel>::empty());
        }
        return Some((out, i + 2));
    }
    let mut acc: Vec<BookmarkItem> = Vec::new();
    let mut k: usize = i + 1;
    proof {
        broadcast use group_deep_seq, lemma_bytes_deep_view;

        assert(acc.deep_view() =~= Seq::<BookmarkItemModel>::empty());
    }
    loop
        invariant
            i + 1 <= k <= v.len(),
            v@.len() == v.len(),
            i < v.len(),
            v@[i as int] == 91,
            !(i + 1 < v@.len() && v@[i + 1] == 93),
            p_bm_arr_rec(v@, i + 1 as int, Seq::<BookmarkItemModel>::empty()) == p_bm_arr_rec(
                v@,
                k as int,
                acc.deep_view(),
            ),
        decreases v@.len() - k,
    {
        match parse_bm(v, k) {
            None => {
                return None;
            },
            Some(pr) => {
                let (x, j) = pr;
                proof {
                    broadcast use group_deep_seq, lemma_bytes_deep_view;
                }
                let ghost prevd = acc.deep_view();
                let ghost xdv = x.deep_view();
                if j < v.len() && v[j] == 44 {
                    acc.push(x);
                    proof {
                        broadcast use group_deep_seq, lemma_bytes_deep_view;

                        assert(acc.deep_view() =~= prevd.push(xdv));
                    }
                    k = j + 1;
                } else if j < v.len() && v[j] == 93 {
                    acc.push(x);
                    proof {
                        broadcast use group_deep_seq, lemma_bytes_deep_view;

                        assert(acc.deep_view() =~= prevd.push(xdv));
                    }
                    return Some((acc, j + 1));
                } else {
                    return None;
                }
            },
        }
    }
}

fn push_ip_arr(out: &mut Vec<u8>, xs: &Vec<IpHistoryItem>)
    ensures
        final(out)@ == old(out)@ + enc_ip_arr(xs.deep_view()),
{
    let ghost xd: Seq<IpHistoryItemModel> = xs.deep_view();
    out.push(91);
    proof {
        assert(xd.subrange(0, 0) =~= Seq::<IpHistoryItemModel>::empty());
        assert(out@ =~= old(out)@ + seq![91u8] + join_ip(xd.subrange(0, 0)));
    }
    let mut k: usize = 0;
    while k < xs.len()
        invariant
            xd == xs.deep_view(),
            0 <= k <= xs@.len(),
            out@ == old(out)@ + seq![91u8] + join_ip(xd.subrange(0, k as int)),
        decreases xs@.len() - k,
    {
        let ghost pre = xd.subrange(0, k as int);
        proof {
            broadcast use group_deep_seq, lemma_bytes_deep_view;

            assert(xd[k as int] == xs@[k as int].deep_view());
            assert(xd.subrange(0, k + 1 as int) =~= pre.push(xd[k as int]));
            lemma_join_ip_push(pre, xd[k as int]);
        }
        if k > 0 {
            out.push(44);
        }
        push_ip(out, &xs[k]);
        proof {
            assert(out@ =~= old(out)@ + seq![91u8] + join_ip(xd.subrange(0, k + 1 as int)));
        }
        k = k + 1;
    }
    out.push(93);
    proof {
        assert(xd.subrange(0, xd.len() as int) =~= xd);
        assert(out@ =~= old(out)@ + enc_ip_arr(xd));
    }
}

fn parse_ip_arr(v: &Vec<u8>, i: usize) -> (r: Option<(Vec<IpHistoryItem>, usize)>)
    ensures
        match r {
            Some((xs, j)) => p_ip_arr(v@, i as int) == Some((xs.deep_view(), j as int)) && i
                < j <= v.len(),
            None => p_ip_arr(v@, i as int) is None,
        },
{
    if !(i < v.len()) {
        return None;
    }
    if v[i] != 91 {
        return None;
    }
    if v.len() - i >= 2 && v[i + 1] == 93 {
        let out: Vec<IpHistoryItem> = Vec::new();
        proof {
            broadcast use group_deep_seq, lemma_bytes_deep_view;

            assert(out.deep_view() =~= Seq::<IpHistoryItemModel>::empty());
        }
        return Some((out, i + 2));
    }
    let mut acc: Vec<IpHistoryItem> = Vec::new();
    let mut k: usize = i + 1;
    proof {
        broadcast use group_deep_seq, lemma_bytes_deep_view;

        assert(acc.deep_view() =~= Seq::<IpHistoryItemModel>::empty());
    }
    loop
        invariant
            i + 1 <= k <= v.len(),
            v@.len() == v.len(),
            i < v.len(),
            v@[i as int] == 91,
            !(i + 1 < v@.len() && v@[i + 1] == 93),
            p_ip_arr_rec(v@, i + 1 as int, Seq::<IpHistoryItemModel>::empty()) == p_ip_arr_rec(
                v@,
                k as int,
                acc.deep_view(),
            ),
        decreases v@.len() - k,
    {
        match parse_ip(v, k) {
            None => {
                return None;
            },
            Some(pr) => {
                let (x, j) = pr;
                proof {
                    broadcast use group_deep_seq, lemma_bytes_deep_view;
                }
                let ghost prevd = acc.deep_view();
                let ghost xdv = x.deep_view();
                if j < v.len() && v[j] == 44 {
                    acc.push(x);
                    proof {
                        broadcast use group_deep_seq, lemma_bytes_deep_view;

                        assert(acc.deep_view() =~= prevd.push(xdv));
                    }
                    k = j + 1;
                } else if j < v.len() && v[j] == 93 {
                    acc.push(x);
                    proof {
                        broadcast use group_deep_seq, lemma_bytes_deep_view;

                        assert(acc.deep_view() =~= prevd.push(xdv));
                    }
                    return Some((acc, j + 1));
                } else {
                    return None;
                }
            },
        }
    }
}


fn parse_item(v: &Vec<u8>, i: usize) -> (r: Option<(ClipboardItem, usize)>)
    ensures
        match r {
            Some((it, j)) => p_item(v@, i as int) == Some((it.deep_view(), j as int)) && i < j
                <= v.len(),
            None => p_item(v@, i as int) is None,
        },
{
    let lv_0 = l_obj_id_vec();
    let i1 = match expect(v, i, &lv_0) {
        None => {
            return None;
        },
        Some(j) => j,
    };
    let (id_x, i2) = match parse_string(v, i1) {
        None => {
            return None;
        },
        Some(pr) => pr,
    };
    let lv_2 = l_key_content_vec();
    let i3 = match expect(v, i2, &lv_2) {
        None => {
            return None;
        },
        Some(j) => j,
    };
    let (content_x, i4) = match parse_string(v, i3) {
        None => {
            return None;
        },
        Some(pr) => pr,
    };
    let lv_4 = l_key_content_type_vec();
    let i5 = match expect(v, i4, &lv_4) {
        None => {
            return None;
        },
        Some(j) => j,
    };
    let (content_type_x, i6) = match parse_string(v, i5) {
        None => {
            return None;
        },
        Some(pr) => pr,
    };
    let lv_6 = l_key_timestamp_vec();
    let i7 = match expect(v, i6, &lv_6) {
        None => {
            return None;
        },
        Some(j) => j,
    };
    let (timestamp_x, i8) = match parse_u64(v, i7) {
        None => {
            return None;
        },
        Some(pr) => pr,
    };
    let lv_8 = l_key_size_vec();
    let i9 = match expect(v, i8, &lv_8) {
        None => {
            return None;
        },
        Some(j) => j,
    };
    let (size_x, i10) = match parse_u64(v, i9) {
        None => {
            return None;
        },
        Some(pr) => pr,
    };
    let lv_10 = l_key_access_count_vec();
    let i11 = match expect(v, i10, &lv_10) {
        None => {
            return None;
        },
        Some(j) => j,
    };
    let (access_count_n, i12) = match parse_u64(v, i11) {
        None => {
            return None;
        },
        Some(pr) => pr,
    };
    if access_count_n > u32::MAX as u64 {
        return None;
    }
    let access_count_x = access_count_n as u32;
    let lv_12 = l_key_last_accessed_vec();
    let i13 = match expect(v, i12, &lv_12) {
        None => {
            return None;
        },
        Some(j) => j,
    };
    let (last_accessed_x, i14) = match parse_opt_u64(v, i13) {
        None => {
            return None;
        },
        Some(pr) => pr,
    };
    let lv_14 = l_close_vec();
    let i15 = match expect(v, i14, &lv_14) {
        None => {
            return None;
        },
        Some(j) => j,
    };
    let it = ClipboardItem { id: id_x, content: content_x, content_type: content_type_x, timestamp: timestamp_x, size: size_x, access_count: access_count_x, last_accessed: last_accessed_x };
    Some((it, i15))
}


fn parse_bm(v: &Vec<u8>, i: usize) -> (r: Option<(BookmarkItem, usize)>)
    ensures
        match r {
            Some((it, j)) => p_bm(v@, i as int) == Some((it.deep_view(), j as int)) && i < j
                <= v.len(),
            None => p_bm(v@, i as int) is None,
        },
{
    let lv_0 = l_obj_id_vec();
    let i1 = match expect(v, i, &lv_0) {
        None => {
            return None;
        },
        Some(j) => j,
    };
    let (id_x, i2) = match parse_string(v, i1) {
        None => {
            return None;
        },
        Some(pr) => pr,
    };
    let lv_2 = l_key_name_vec();
    let i3 = match expect(v, i2, &lv_2) {
        None => {
            return None;
        },
        Some(j) => j,
    };
    let (name_x, i4) = match parse_string(v, i3) {
        None => {
            return None;
        },
        Some(pr) => pr,
    };
    let lv_4 = l_key_content_vec();
    let i5 = match expect(v, i4, &lv_4) {
        None => {
            return None;
        },
        Some(j) => j,
    };
    let (content_x, i6) = match parse_string(v, i5) {
        None => {
            return None;
        },
        Some(pr) => pr,
    };
    let lv_6 = l_key_content_type_vec();
    let i7 = match expect(v, i6, &lv_6) {
        None => {
            return None;
        },
        Some(j) => j,
    };
    let (content_type_x, i8) = match parse_string(v, i7) {
        None => {
            return None;
        },
        Some(pr) => pr,
    };
    let lv_8 = l_key_timestamp_vec();
    let i9 = match expect(v, i8, &lv_8) {
        None => {
            return None;
        },
        Some(j) => j,
    };
    let (timestamp_x, i10) = match parse_u64(v, i9) {
        None => {
            return None;
        },
        Some(pr) => pr,
    };
    let lv_10 = l_key_tags_vec();
    let i11 = match expect(v, i10, &lv_10) {
        None => {
            return None;
        },
        Some(j) => j,
    };
    let (tags_x, i12) = match parse_str_arr(v, i11) {
        None => {
            return None;
        },
        Some(pr) => pr,
    };
    let lv_12 = l_key_access_count_vec();
    let i13 = match expect(v, i12, &lv_12) {
        None => {
            return None;
        },
        Some(j) => j,
    };
    let (access_count_n, i14) = match parse_u64(v, i13) {
        None => {
            return None;
        },
        Some(pr) => pr,
    };
    if access_count_n > u32::MAX as u64 {
        return None;
    }
    let access_count_x = access_count_n as u32;
    let lv_14 = l_key_last_accessed_vec();
    let i15 = match expect(v, i14, &lv_14) {
        None => {
            return None;
        },
        Some(j) => j,
    };
    let (last_accessed_x, i16) = match parse_opt_u64(v, i15) {
        None => {
            return None;
        },
        Some(pr) => pr,
    };
    let lv_16 = l_close_vec();
    let i17 = match expect(v, i16, &lv_16) {
        None => {
            return None;
        },
        Some(j) => j,
    };
    let it = BookmarkItem { id: id_x, name: name_x, content: content_x, content_type: content_type_x, timestamp: timestamp_x, tags: tags_x, access_count: access_count_x, last_accessed: last_accessed_x };
    Some((it, i17))
}


fn parse_ip(v: &Vec<u8>, i: usize) -> (r: Option<(IpHistoryItem, usize)>)
    ensures
        match r {
            Some((it, j)) => p_ip(v@, i as int) == Some((it.deep_view(), j as int)) && i < j
                <= v.len(),
            None => p_ip(v@, i as int) is None,
        },
{
    let lv_0 = l_obj_ip_vec();
    let i1 = match expect(v, i, &lv_0) {
        None => {
            return None;
        },
        Some(j) => j,
    };
    let (ip_x, i2) = match parse_string(v, i1) {
        None => {
            return None;
        },
        Some(pr) => pr,
    };
    let lv_2 = l_key_timestamp_vec();
    let i3 = match expect(v, i2, &lv_2) {
        None => {
            return None;
        },
        Some(j) => j,
    };
    let (timestamp_x, i4) = match parse_u64(v, i3) {
        None => {
            return None;
        },
        Some(pr) => pr,
    };
    let lv_4 = l_key_count_vec();
    let i5 = match expect(v, i4, &lv_4) {
        None => {
            return None;
        },
        Some(j) => j,
    };
    let (count_n, i6) = match parse_u64(v, i5) {
        None => {
            return None;
        },
        Some(pr) => pr,
    };
    if count_n > u32::MAX as u64 {
        return None;
    }
    let count_x = count_n as u32;
    let lv_6 = l_close_vec();
    let i7 = match expect(v, i6, &lv_6) {
        None => {
            return None;
        },
        Some(j) => j,
    };
    let it = IpHistoryItem { ip: ip_x, timestamp: timestamp_x, count: count_x };
    Some((it, i7))
}


fn parse_settings(v: &Vec<u8>, i: usize) -> (r: Option<(AppSettings, usize)>)
    ensures
        match r {
            Some((it, j)) => p_settings(v@, i as int) == Some((it.deep_view(), j as int)) && i < j
                <= v.len(),
            None => p_settings(v@, i as int) is None,
        },
{
    let lv_0 = l_obj_hotkey_vec();
    let i1 = match expect(v, i, &lv_0) {
        None => {
            return None;
        },
        Some(j) => j,
    };
    let (hotkey_x, i2) = match parse_string(v, i1) {
        None => {
            return None;
        },
        Some(pr) => pr,
    };
    let lv_2 = l_key_history_limit_vec();
    let i3 = match expect(v, i2, &lv_2) {
        None => {
            return None;
        },
        Some(j) => j,
    };
    let (history_limit_n, i4) = match parse_u64(v, i3) {
        None => {
            return None;
        },
        Some(pr) => pr,
    };
    if history_limit_n < 1 || history_limit_n > usize::MAX as u64 {
        return None;
    }
    let history_limit_x = history_limit_n as usize;
    let lv_4 = l_key_ip_limit_vec();
    let i5 = match expect(v, i4, &lv_4) {
        None => {
            return None;
        },
        Some(j) => j,
    };
    let (ip_limit_n, i6) = match parse_u64(v, i5) {
        None => {
            return None;
        },
        Some(pr) => pr,
    };
    if ip_limit_n < 1 || ip_limit_n > usize::MAX as u64 {
        return None;
    }
    let ip_limit_x = ip_limit_n as usize;
    let lv_6 = l_key_auto_start_vec();
    let i7 = match expect(v, i6, &lv_6) {
        None => {
            return None;
        },
        Some(j) => j,
    };
    let (auto_start_x, i8) = match parse_bool(v, i7) {
        None => {
            return None;
        },
        Some(pr) => pr,
    };
    let lv_8 = l_key_show_notifications_vec();
    let i9 = match expect(v, i8, &lv_8) {
        None => {
            return None;
        },
        Some(j) => j,
    };
    let (show_notifications_x, i10) = match parse_bool(v, i9) {
        None => {
            return None;
        },
        Some(pr) => pr,
    };
    let lv_10 = l_close_vec();
    let i11 = match expect(v, i10, &lv_10) {
        None => {
            return None;
        },
        Some(j) => j,
    };
    let it = AppSettings { hotkey: hotkey_x, history_limit: history_limit_x, ip_limit: ip_limit_x, auto_start: auto_start_x, show_notifications: show_notifications_x };
    Some((it, i11))
}


fn parse_app_data(v: &Vec<u8>, i: usize) -> (r: Option<(AppData, usize)>)
    ensures
        match r {
            Some((it, j)) => p_app_data(v@, i as int) == Some((it.deep_view(), j as int)) && i < j
                <= v.len(),
            None => p_app_data(v@, i as int) is None,
        },
{
    let lv_0 = l_obj_version_vec();
    let i1 = match expect(v, i, &lv_0) {
        None => {
            return None;
        },
        Some(j) => j,
    };
    let (version_x, i2) = match parse_string(v, i1) {
        None => {
            return None;
        },
        Some(pr) => pr,
    };
    let lv_2 = l_key_history_vec();
    let i3 = match expect(v, i2, &lv_2) {
        None => {
            return None;
        },
        Some(j) => j,
    };
    let (history_x, i4) = match parse_item_arr(v, i3) {
        None => {
            return None;
        },
        Some(pr) => pr,
    };
    let lv_4 = l_key_bookmarks_vec();
    let i5 = match expect(v, i4, &lv_4) {
        None => {
            return None;
        },
        Some(j) => j,
    };
    let (bookmarks_x, i6) = match parse_bm_arr(v, i5) {
        None => {
            return None;
        },
        Some(pr) => pr,
    };
    let lv_6 = l_key_recent_ips_vec();
    let i7 = match expect(v, i6, &lv_6) {
        None => {
            return None;
        },
        Some(j) => j,
    };
    let (recent_ips_x, i8) = match parse_ip_arr(v, i7) {
        None => {
            return None;
        },
        Some(pr) => pr,
    };
    let lv_8 = l_key_settings_vec();
    let i9 = match expect(v, i8, &lv_8) {
        None => {
            return None;
        },
        Some(j) => j,
    };
    let (settings_x, i10) = match parse_settings(v, i9) {
        None => {
            return None;
        },
        Some(pr) => pr,
    };
    let lv_10 = l_close_vec();
    let i11 = match expect(v, i10, &lv_10) {
        None => {
            return None;
        },
        Some(j) => j,
    };
    let it = AppData { version: version_x, history: history_x, bookmarks: bookmarks_x, recent_ips: recent_ips_x, settings: settings_x };
    Some((it, i11))
}

/// The decimal text of a value.
pub fn u64_text(n: u64) -> (r: Vec<u8>)
    ensures
        r@ == enc_u64(n),
{
    let mut r: Vec<u8> = Vec::new();
    push_u64(&mut r, n);
    proof {
        assert(r@ =~= enc_u64(n));
    }
    r
}

/// The canonical rendering of the whole aggregate.
pub fn encode_app_data(d: &AppData) -> (r: Vec<u8>)
    ensures
        r@ == enc_app_data(d.deep_view()),
{
    let mut out: Vec<u8> = Vec::new();
    push_app_data(&mut out, d);
    proof {
        assert(out@ =~= enc_app_data(d.deep_view()));
    }
    out
}

/// Parse a document: the saved aggregate, or nothing when the bytes are
/// not the canonical rendering of one.
pub fn decode_app_data(v: &Vec<u8>) -> (r: Option<AppData>)
    ensures
        match r {
            Some(d) => p_document(v@) == Some(d.deep_view()),
            None => p_document(v@) is None,
        },
{
    match parse_app_data(v, 0) {
        None => None,
        Some(pr) => {
            let (d, j) = pr;
            if j == v.len() {
                Some(d)
            } else {
                None
            }
        },
    }
}

/// A decoded document satisfies the limits the schema demands.
pub proof fn lemma_document_wf(s: Seq<u8>)
    requires
        p_document(s) is Some,
    ensures
        wf_settings(p_document(s).unwrap().settings),
{
}


/// Where each segment of an aggregate rendering lies.
#[verifier::rlimit(90)]
pub proof fn lemma_app_data_regions(s: Seq<u8>, i: int, it: AppDataModel)
    requires
        0 <= i,
        i + enc_app_data(it).len() <= s.len(),
        s.subrange(i, i + enc_app_data(it).len()) == enc_app_data(it),
    ensures
        s.subrange(i, i + l_obj_version().len()) == l_obj_version(),
        s.subrange(i + l_obj_version().len(), i + l_obj_version().len() + enc_str(it.version).len()) == enc_str(it.version),
        s.subrange(i + l_obj_version().len() + enc_str(it.version).len(), i + l_obj_version().len() + enc_str(it.version).len() + l_key_history().len()) == l_key_history(),
        s.subrange(i + l_obj_version().len() + enc_str(it.version).len() + l_key_history().len(), i + l_obj_version().len() + enc_str(it.version).len() + l_key_history().len() + enc_item_arr(it.history).len()) == enc_item_arr(it.history),
        s.subrange(i + l_obj_version().len() + enc_str(it.version).len() + l_key_history().len() + enc_item_arr(it.history).len(), i + l_obj_version().len() + enc_str(it.version).len() + l_key_history().len() + enc_item_arr(it.history).len() + l_key_bookmarks().len()) == l_key_bookmarks(),
        s.subrange(i + l_obj_version().len() + enc_str(it.version).len() + l_key_history().len() + enc_item_arr(it.history).len() + l_key_bookmarks().len(), i + l_obj_version().len() + enc_str(it.version).len() + l_key_history().len() + enc_item_arr(it.history).len() + l_key_bookmarks().len() + enc_bm_arr(it.bookmarks).len()) == enc_bm_arr(it.bookmarks),
        s.subrange(i + l_obj_version().len() + enc_str(it.version).len() + l_key_history().len() + enc_item_arr(it.history).len() + l_key_bookmarks().len() + enc_bm_arr(it.bookmarks).len(), i + l_obj_version().len() + enc_str(it.version).len() + l_key_history().len() + enc_item_arr(it.history).len() + l_key_bookmarks().len() + enc_bm_arr(it.bookmarks).len() + l_key_recent_ips().len()) == l_key_recent_ips(),
        s.subrange(i + l_obj_version().len() + enc_str(it.version).len() + l_key_history().len() + enc_item_arr(it.history).len() + l_key_bookmarks().len() + enc_bm_arr(it.bookmarks).len() + l_key_recent_ips().len(), i + l_obj_version().len() + enc_str(it.version).len() + l_key_history().len() + enc_item_arr(it.history).len() + l_key_bookmarks().len() + enc_bm_arr(it.bookmarks).len() + l_key_recent_ips().len() + enc_ip_arr(it.recent_ips).len()) == enc_ip_arr(it.recent_ips),
        s.subrange(i + l_obj_version().len() + enc_str(it.version).len() + l_key_history().len() + enc_item_arr(it.history).len() + l_key_bookmarks().len() + enc_bm_arr(it.bookmarks).len() + l_key_recent_ips().len() + enc_ip_arr(it.recent_ips).len(), i + l_obj_version().len() + enc_str(it.version).len() + l_key_history().len() + enc_item_arr(it.history).len() + l_key_bookmarks().len() + enc_bm_arr(it.bookmarks).len() + l_key_recent_ips().len() + enc_ip_arr(it.recent_ips).len() + l_key_settings().len()) == l_key_settings(),
        s.subrange(i + l_obj_version().len() + enc_str(it.version).len() + l_key_history().len() + enc_item_arr(it.history).len() + l_key_bookmarks().len() + enc_bm_arr(it.bookmarks).len() + l_key_recent_ips().len() + enc_ip_arr(it.recent_ips).len() + l_key_settings().len(), i + l_obj_version().len() + enc_str(it.version).len() + l_key_history().len() + enc_item_arr(it.history).len() + l_key_bookmarks().len() + enc_bm_arr(it.bookmarks).len() + l_key_recent_ips().len() + enc_ip_arr(it.recent_ips).len() + l_key_settings().len() + enc_settings(it.settings).len()) == enc_settings(it.settings),
        s.subrange(i + l_obj_version().len() + enc_str(it.version).len() + l_key_history().len() + enc_item_arr(it.history).len() + l_key_bookmarks().len() + enc_bm_arr(it.bookmarks).len() + l_key_recent_ips().len() + enc_ip_arr(it.recent_ips).len() + l_key_settings().len() + enc_settings(it.settings).len(), i + l_obj_version().len() + enc_str(it.version).len() + l_key_history().len() + enc_item_arr(it.history).len() + l_key_bookmarks().len() + enc_bm_arr(it.bookmarks).len() + l_key_recent_ips().len() + enc_ip_arr(it.recent_ips).len() + l_key_settings().len() + enc_settings(it.settings).len() + l_close().len()) == l_close(),
{
    let e0 = l_obj_version();
    let e1 = enc_str(it.version);
    let e2 = l_key_history();
    let e3 = enc_item_arr(it.history);
    let e4 = l_key_bookmarks();
    let e5 = enc_bm_arr(it.bookmarks);
    let e6 = l_key_recent_ips();
    let e7 = enc_ip_arr(it.recent_ips);
    let e8 = l_key_settings();
    let e9 = enc_settings(it.settings);
    let e10 = l_close();
    let t10 = e10;
    let t9 = e9 + (t10);
    let t8 = e8 + (t9);
    let t7 = e7 + (t8);
    let t6 = e6 + (t7);
    let t5 = e5 + (t6);
    let t4 = e4 + (t5);
    let t3 = e3 + (t4);
    let t2 = e2 + (t3);
    let t1 = e1 + (t2);
    let t0 = e0 + (t1);
    assert(enc_app_data(it) == t0);
    let i0 = i;
    lemma_region_split(s, i0, e0, t1);
    let i1 = i0 + e0.len();
    lemma_region_split(s, i1, e1, t2);
    let i2 = i1 + e1.len();
    lemma_region_split(s, i2, e2, t3);
    let i3 = i2 + e2.len();
    lemma_region_split(s, i3, e3, t4);
    let i4 = i3 + e3.len();
    lemma_region_split(s, i4, e4, t5);
    let i5 = i4 + e4.len();
    lemma_region_split(s, i5, e5, t6);
    let i6 = i5 + e5.len();
    lemma_region_split(s, i6, e6, t7);
    let i7 = i6 + e6.len();
    lemma_region_split(s, i7, e7, t8);
    let i8 = i7 + e7.len();
    lemma_region_split(s, i8, e8, t9);
    let i9 = i8 + e8.len();
    lemma_region_split(s, i9, e9, t10);
    let i10 = i9 + e9.len();
}

/// Parsing the rendering of an aggregate recovers it.
#[verifier::rlimit(90)]
pub proof fn lemma_p_app_data_enc(s: Seq<u8>, i: int, it: AppDataModel)
    requires
        0 <= i,
        i + enc_app_data(it).len() <= s.len(),
        s.subrange(i, i + enc_app_data(it).len()) == enc_app_data(it),
        it.settings.history_limit >= 1,
        it.settings.ip_limit >= 1,
    ensures
        p_app_data(s, i) == Some((it, i + enc_app_data(it).len())),
{
    lemma_app_data_regions(s, i, it);
    let e0 = l_obj_version();
    let e1 = enc_str(it.version);
    let e2 = l_key_history();
    let e3 = enc_item_arr(it.history);
    let e4 = l_key_bookmarks();
    let e5 = enc_bm_arr(it.bookmarks);
    let e6 = l_key_recent_ips();
    let e7 = enc_ip_arr(it.recent_ips);
    let e8 = l_key_settings();
    let e9 = enc_settings(it.settings);
    let e10 = l_close();
    let i0 = i;
    let i1 = i0 + e0.len();
    lemma_p_str_enc(s, i1, it.version);
    let i2 = i1 + e1.len();
    let i3 = i2 + e2.len();
    lemma_p_item_arr_enc(s, i3, it.history);
    let i4 = i3 + e3.len();
    let i5 = i4 + e4.len();
    lemma_p_bm_arr_enc(s, i5, it.bookmarks);
    let i6 = i5 + e5.len();
    let i7 = i6 + e6.len();
    lemma_p_ip_arr_enc(s, i7, it.recent_ips);
    let i8 = i7 + e7.len();
    let i9 = i8 + e8.len();
    lemma_p_settings_enc(s, i9, it.settings);
    let i10 = i9 + e9.len();
    let i11 = i10 + e10.len();
    assert((AppDataModel { version: it.version, history: it.history, bookmarks: it.bookmarks, recent_ips: it.recent_ips, settings: it.settings }) == it);
}

/// Sequence concatenation reassociates.
pub proof fn lemma_add_assoc<A>(a: Seq<A>, b: Seq<A>, c: Seq<A>)
    ensures
        (a + b) + c == a + (b + c),
{
    assert((a + b) + c =~= a + (b + c));
}

fn push_item(out: &mut Vec<u8>, it: &ClipboardItem)
    ensures
        final(out)@ == old(out)@ + enc_item(it.deep_view()),
{
    let lv_0 = l_obj_id_vec();
    push_lit(out, &lv_0);
    let ghost c0 = out@;
    push_str(out, &it.id);
    let ghost c1 = out@;
    let lv_2 = l_key_content_vec();
    push_lit(out, &lv_2);
    let ghost c2 = out@;
    push_str(out, &it.content);
    let ghost c3 = out@;
    let lv_4 = l_key_content_type_vec();
    push_lit(out, &lv_4);
    let ghost c4 = out@;
    push_str(out, &it.content_type);
    let ghost c5 = out@;
    let lv_6 = l_key_timestamp_vec();
    push_lit(out, &lv_6);
    let ghost c6 = out@;
    push_u64(out, it.timestamp);
    let ghost c7 = out@;
    let lv_8 = l_key_size_vec();
    push_lit(out, &lv_8);
    let ghost c8 = out@;
    push_u64(out, it.size);
    let ghost c9 = out@;
    let lv_10 = l_key_access_count_vec();
    push_lit(out, &lv_10);
    let ghost c10 = out@;
    push_u64(out, it.access_count as u64);
    let ghost c11 = out@;
    let lv_12 = l_key_last_accessed_vec();
    push_lit(out, &lv_12);
    let ghost c12 = out@;
    push_opt_u64(out, it.last_accessed);
    let ghost c13 = out@;
    let lv_14 = l_close_vec();
    push_lit(out, &lv_14);
    let ghost c14 = out@;
    proof {
        let e0 = l_obj_id();
        let e1 = enc_str(it.deep_view().id);
        let e2 = l_key_content();
        let e3 = enc_str(it.deep_view().content);
        let e4 = l_key_content_type();
        let e5 = enc_str(it.deep_view().content_type);
        let e6 = l_key_timestamp();
        let e7 = enc_u64(it.deep_view().timestamp);
        let e8 = l_key_size();
        let e9 = enc_u64(it.deep_view().size);
        let e10 = l_key_access_count();
        let e11 = enc_u64(it.deep_view().access_count as u64);
        let e12 = l_key_last_accessed();
        let e13 = enc_opt_u64(it.deep_view().last_accessed);
        let e14 = l_close();
        let t14 = e14;
        let t13 = e13 + (t14);
        let t12 = e12 + (t13);
        let t11 = e11 + (t12);
        let t10 = e10 + (t11);
        let t9 = e9 + (t10);
        let t8 = e8 + (t9);
        let t7 = e7 + (t8);
        let t6 = e6 + (t7);
        let t5 = e5 + (t6);
        let t4 = e4 + (t5);
        let t3 = e3 + (t4);
        let t2 = e2 + (t3);
        let t1 = e1 + (t2);
        let t0 = e0 + (t1);
        assert(enc_item(it.deep_view()) == t0);
        lemma_add_assoc(old(out)@, e0, t1);
        lemma_add_assoc(c0, e1, t2);
        lemma_add_assoc(c1, e2, t3);
        lemma_add_assoc(c2, e3, t4);
        lemma_add_assoc(c3, e4, t5);
        lemma_add_assoc(c4, e5, t6);
        lemma_add_assoc(c5, e6, t7);
        lemma_add_assoc(c6, e7, t8);
        lemma_add_assoc(c7, e8, t9);
        lemma_add_assoc(c8, e9, t10);
        lemma_add_assoc(c9, e10, t11);
        lemma_add_assoc(c10, e11, t12);
        lemma_add_assoc(c11, e12, t13);
        lemma_add_assoc(c12, e13, t14);
        assert(out@ == old(out)@ + enc_item(it.deep_view()));
    }
}

fn push_bm(out: &mut Vec<u8>, it: &BookmarkItem)
    ensures
        final(out)@ == old(out)@ + enc_bm(it.deep_view()),
{
    let lv_0 = l_obj_id_vec();
    push_lit(out, &lv_0);
    let ghost c0 = out@;
    push_str(out, &it.id);
    let ghost c1 = out@;
    let lv_2 = l_key_name_vec();
    push_lit(out, &lv_2);
    let ghost c2 = out@;
    push_str(out, &it.name);
    let ghost c3 = out@;
    let lv_4 = l_key_content_vec();
    push_lit(out, &lv_4);
    let ghost c4 = out@;
    push_str(out, &it.content);
    let ghost c5 = out@;
    let lv_6 = l_key_content_type_vec();
    push_lit(out, &lv_6);
    let ghost c6 = out@;
    push_str(out, &it.content_type);
    let ghost c7 = out@;
    let lv_8 = l_key_timestamp_vec();
    push_lit(out, &lv_8);
    let ghost c8 = out@;
    push_u64(out, it.timestamp);
    let ghost c9 = out@;
    let lv_10 = l_key_tags_vec();
    push_lit(out, &lv_10);
    let ghost c10 = out@;
    push_str_arr(out, &it.tags);
    let ghost c11 = out@;
    let lv_12 = l_key_access_count_vec();
    push_lit(out, &lv_12);
    let ghost c12 = out@;
    push_u64(out, it.access_count as u64);
    let ghost c13 = out@;
    let lv_14 = l_key_last_accessed_vec();
    push_lit(out, &lv_14);
    let ghost c14 = out@;
    push_opt_u64(out, it.last_accessed);
    let ghost c15 = out@;
    let lv_16 = l_close_vec();
    push_lit(out, &lv_16);
    let ghost c16 = out@;
    proof {
        let e0 = l_obj_id();
        let e1 = enc_str(it.deep_view().id);
        let e2 = l_key_name();
        let e3 = enc_str(it.deep_view().name);
        let e4 = l_key_content();
        let e5 = enc_str(it.deep_view().content);
        let e6 = l_key_content_type();
        let e7 = enc_str(it.deep_view().content_type);
        let e8 = l_key_timestamp();
        let e9 = enc_u64(it.deep_view().timestamp);
        let e10 = l_key_tags();
        let e11 = enc_str_arr(it.deep_view().tags);
        let e12 = l_key_access_count();
        let e13 = enc_u64(it.deep_view().access_count as u64);
        let e14 = l_key_last_accessed();
        let e15 = enc_opt_u64(it.deep_view().last_accessed);
        let e16 = l_close();
        let t16 = e16;
        let t15 = e15 + (t16);
        let t14 = e14 + (t15);
        let t13 = e13 + (t14);
        let t12 = e12 + (t13);
        let t11 = e11 + (t12);
        let t10 = e10 + (t11);
        let t9 = e9 + (t10);
        let t8 = e8 + (t9);
        let t7 = e7 + (t8);
        let t6 = e6 + (t7);
        let t5 = e5 + (t6);
        let t4 = e4 + (t5);
        let t3 = e3 + (t4);
        let t2 = e2 + (t3);
        let t1 = e1 + (t2);
        let t0 = e0 + (t1);
        assert(enc_bm(it.deep_view()) == t0);
        lemma_add_assoc(old(out)@, e0, t1);
        lemma_add_assoc(c0, e1, t2);
        lemma_add_assoc(c1, e2, t3);
        lemma_add_assoc(c2, e3, t4);
        lemma_add_assoc(c3, e4, t5);
        lemma_add_assoc(c4, e5, t6);
        lemma_add_assoc(c5, e6, t7);
        lemma_add_assoc(c6, e7, t8);
        lemma_add_assoc(c7, e8, t9);
        lemma_add_assoc(c8, e9, t10);
        lemma_add_assoc(c9, e10, t11);
        lemma_add_assoc(c10, e11, t12);
        lemma_add_assoc(c11, e12, t13);
        lemma_add_assoc(c12, e13, t14);
        lemma_add_assoc(c13, e14, t15);
        lemma_add_assoc(c14, e15, t16);
        assert(out@ == old(out)@ + enc_bm(it.deep_view()));
    }
}

fn push_ip(out: &mut Vec<u8>, it: &IpHistoryItem)
    ensures
        final(out)@ == old(out)@ + enc_ip(it.deep_view()),
{
    let lv_0 = l_obj_ip_vec();
    push_lit(out, &lv_0);
    let ghost c0 = out@;
    push_str(out, &it.ip);
    let ghost c1 = out@;
    let lv_2 = l_key_timestamp_vec();
    push_lit(out, &lv_2);
    let ghost c2 = out@;
    push_u64(out, it.timestamp);
    let ghost c3 = out@;
    let lv_4 = l_key_count_vec();
    push_lit(out, &lv_4);
    let ghost c4 = out@;
    push_u64(out, it.count as u64);
    let ghost c5 = out@;
    let lv_6 = l_close_vec();
    push_lit(out, &lv_6);
    let ghost c6 = out@;
    proof {
        let e0 = l_obj_ip();
        let e1 = enc_str(it.deep_view().ip);
        let e2 = l_key_timestamp();
        let e3 = enc_u64(it.deep_view().timestamp);
        let e4 = l_key_count();
        let e5 = enc_u64(it.deep_view().count as u64);
        let e6 = l_close();
        let t6 = e6;
        let t5 = e5 + (t6);
        let t4 = e4 + (t5);
        let t3 = e3 + (t4);
        let t2 = e2 + (t3);
        let t1 = e1 + (t2);
        let t0 = e0 + (t1);
        assert(enc_ip(it.deep_view()) == t0);
        lemma_add_assoc(old(out)@, e0, t1);
        lemma_add_assoc(c0, e1, t2);
        lemma_add_assoc(c1, e2, t3);
        lemma_add_assoc(c2, e3, t4);
        lemma_add_assoc(c3, e4, t5);
        lemma_add_assoc(c4, e5, t6);
        assert(out@ == old(out)@ + enc_ip(it.deep_view()));
    }
}

fn push_settings(out: &mut Vec<u8>, it: &AppSettings)
    ensures
        final(out)@ == old(out)@ + enc_settings(it.deep_view()),
{
    let lv_0 = l_obj_hotkey_vec();
    push_lit(out, &lv_0);
    let ghost c0 = out@;
    push_str(out, &it.hotkey);
    let ghost c1 = out@;
    let lv_2 = l_key_history_limit_vec();
    push_lit(out, &lv_2);
    let ghost c2 = out@;
    push_u64(out, it.history_limit as u64);
    let ghost c3 = out@;
    let lv_4 = l_key_ip_limit_vec();
    push_lit(out, &lv_4);
    let ghost c4 = out@;
    push_u64(out, it.ip_limit as u64);
    let ghost c5 = out@;
    let lv_6 = l_key_auto_start_vec();
    push_lit(out, &lv_6);
    let ghost c6 = out@;
    push_bool(out, it.auto_start);
    let ghost c7 = out@;
    let lv_8 = l_key_show_notifications_vec();
    push_lit(out, &lv_8);
    let ghost c8 = out@;
    push_bool(out, it.show_notifications);
    let ghost c9 = out@;
    let lv_10 = l_close_vec();
    push_lit(out, &lv_10);
    let ghost c10 = out@;
    proof {
        let e0 = l_obj_hotkey();
        let e1 = enc_str(it.deep_view().hotkey);
        let e2 = l_key_history_limit();
        let e3 = enc_u64(it.deep_view().history_limit as u64);
        let e4 = l_key_ip_limit();
        let e5 = enc_u64(it.deep_view().ip_limit as u64);
        let e6 = l_key_auto_start();
        let e7 = enc_bool(it.deep_view().auto_start);
        let e8 = l_key_show_notifications();
        let e9 = enc_bool(it.deep_view().show_notifications);
        let e10 = l_close();
        let t10 = e10;
        let t9 = e9 + (t10);
        let t8 = e8 + (t9);
        let t7 = e7 + (t8);
        let t6 = e6 + (t7);
        let t5 = e5 + (t6);
        let t4 = e4 + (t5);
        let t3 = e3 + (t4);
        let t2 = e2 + (t3);
        let t1 = e1 + (t2);
        let t0 = e0 + (t1);
        assert(enc_settings(it.deep_view()) == t0);
        lemma_add_assoc(old(out)@, e0, t1);
        lemma_add_assoc(c0, e1, t2);
        lemma_add_assoc(c1, e2, t3);
        lemma_add_assoc(c2, e3, t4);
        lemma_add_assoc(c3, e4, t5);
        lemma_add_assoc(c4, e5, t6);
        lemma_add_assoc(c5, e6, t7);
        lemma_add_assoc(c6, e7, t8);
        lemma_add_assoc(c7, e8, t9);
        lemma_add_assoc(c8, e9, t10);
        assert(out@ == old(out)@ + enc_settings(it.deep_view()));
    }
}

fn push_app_data(out: &mut Vec<u8>, it: &AppData)
    ensures
        final(out)@ == old(out)@ + enc_app_data(it.deep_view()),
{
    let lv_0 = l_obj_version_vec();
    push_lit(out, &lv_0);
    let ghost c0 = out@;
    push_str(out, &it.version);
    let ghost c1 = out@;
    let lv_2 = l_key_history_vec();
    push_lit(out, &lv_2);
    let ghost c2 = out@;
    push_item_arr(out, &it.history);
    let ghost c3 = out@;
    let lv_4 = l_key_bookmarks_vec();
    push_lit(out, &lv_4);
    let ghost c4 = out@;
    push_bm_arr(out, &it.bookmarks);
    let ghost c5 = out@;
    let lv_6 = l_key_recent_ips_vec();
    push_lit(out, &lv_6);
    let ghost c6 = out@;
    push_ip_arr(out, &it.recent_ips);
    let ghost c7 = out@;
    let lv_8 = l_key_settings_vec();
    push_lit(out, &lv_8);
    let ghost c8 = out@;
    push_settings(out, &it.settings);
    let ghost c9 = out@;
    let lv_10 = l_close_vec();
    push_lit(out, &lv_10);
    let ghost c10 = out@;
    proof {
        let e0 = l_obj_version();
        let e1 = enc_str(it.deep_view().version);
        let e2 = l_key_history();
        let e3 = enc_item_arr(it.deep_view().history);
        let e4 = l_key_bookmarks();
        let e5 = enc_bm_arr(it.deep_view().bookmarks);
        let e6 = l_key_recent_ips();
        let e7 = enc_ip_arr(it.deep_view().recent_ips);
        let e8 = l_key_settings();
        let e9 = enc_settings(it.deep_view().settings);
        let e10 = l_close();
        let t10 = e10;
        let t9 = e9 + (t10);
        let t8 = e8 + (t9);
        let t7 = e7 + (t8);
        let t6 = e6 + (t7);
        let t5 = e5 + (t6);
        let t4 = e4 + (t5);
        let t3 = e3 + (t4);
        let t2 = e2 + (t3);
        let t1 = e1 + (t2);
        let t0 = e0 + (t1);
        assert(enc_app_data(it.deep_view()) == t0);
        lemma_add_assoc(old(out)@, e0, t1);
        lemma_add_assoc(c0, e1, t2);
        lemma_add_assoc(c1, e2, t3);
        lemma_add_assoc(c2, e3, t4);
        lemma_add_assoc(c3, e4, t5);
        lemma_add_assoc(c4, e5, t6);
        lemma_add_assoc(c5, e6, t7);
        lemma_add_assoc(c6, e7, t8);
        lemma_add_assoc(c7, e8, t9);
        lemma_add_assoc(c8, e9, t10);
        assert(out@ == old(out)@ + enc_app_data(it.deep_view()));
    }
}


} // verus!

//! The pattern scanner: extraction of IPv4 dotted-quad literals from
//! arbitrary text. A candidate is a run of four 1-3 digit groups joined
//! by dots, delimited by non-word bytes; it is accepted only when all
//! four octets lie in 0..=255. Matches are reported in order of first
//! occurrence; duplicates within one call are preserved.

use vstd::prelude::*;
use crate::model::group_deep_seq;
use crate::model::deep_seq;
use crate::bytes::lemma_bytes_deep_view;

verus! {

broadcast use group_deep_seq, lemma_bytes_deep_view;

/// An ASCII decimal digit.
pub open spec fn is_digit(b: u8) -> bool {
    48 <= b <= 57
}

/// A word byte: digit, letter or underscore. Word bytes may not touch a
/// candidate on either side.
pub open spec fn is_word_byte(b: u8) -> bool {
    is_digit(b) || (65 <= b <= 90) || (97 <= b <= 122) || b == 95
}

/// The position of the first dot, or -1.
pub open spec fn first_dot(s: Seq<u8>) -> int
    decreases s.len(),
{
    if s.len() == 0 {
        -1
    } else if s[0] == 46 {
        0
    } else {
        let r = first_dot(s.skip(1));
        if r < 0 {
            -1
        } else {
            r + 1
        }
    }
}

/// What `first_dot` finds.
pub proof fn lemma_first_dot(s: Seq<u8>)
    ensures
        first_dot(s) == -1 ==> forall|m: int| 0 <= m < s.len() ==> s[m] != 46,
        first_dot(s) != -1 ==> {
            let r = first_dot(s);
            &&& 0 <= r < s.len()
            &&& s[r] == 46
            &&& forall|m: int| 0 <= m < r ==> s[m] != 46
        },
    decreases s.len(),
{
    if s.len() == 0 {
    } else if s[0] == 46 {
    } else {
        lemma_first_dot(s.skip(1));
        let r = first_dot(s);
        if r == -1 {
            assert forall|m: int| 0 <= m < s.len() implies s[m] != 46 by {
                if m > 0 {
                    assert(s.skip(1)[m - 1] == s[m]);
                }
            }
        } else {
            assert(s[r] == s.skip(1)[r - 1]);
            assert forall|m: int| 0 <= m < r implies s[m] != 46 by {
                if m > 0 {
                    assert(s.skip(1)[m - 1] == s[m]);
                }
            }
        }
    }
}

/// Every byte is a digit.
pub open spec fn all_digits(ds: Seq<u8>) -> bool {
    forall|i: int| 0 <= i < ds.len() ==> is_digit(ds[i])
}

/// The decimal value of a digit string.
pub open spec fn digits_val(ds: Seq<u8>) -> int
    decreases ds.len(),
{
    if ds.len() == 0 {
        0
    } else {
        digits_val(ds.drop_last()) * 10 + (ds.last() - 48)
    }
}

/// The value of a digit string is never negative.
pub proof fn lemma_digits_val_nonneg(ds: Seq<u8>)
    requires
        all_digits(ds),
    ensures
        digits_val(ds) >= 0,
    decreases ds.len(),
{
    if ds.len() > 0 {
        assert(all_digits(ds.drop_last()));
        lemma_digits_val_nonneg(ds.drop_last());
    }
}

/// An octet parsed by the unsigned-integer grammar: an optional plus
/// sign, then at least one digit, any number of leading zeros, value at
/// most 255.
pub open spec fn spec_parse_octet(part: Seq<u8>) -> Option<u8> {
    let ds = if part.len() > 0 && part[0] == 43 {
        part.skip(1)
    } else {
        part
    };
    if ds.len() == 0 || !all_digits(ds) {
        None
    } else if digits_val(ds) <= 255 {
        Some(digits_val(ds) as u8)
    } else {
        None
    }
}

/// A dotted quad whose four octets all parse in 0..=255.
pub open spec fn spec_is_valid_ip(s: Seq<u8>) -> bool {
    let d1 = first_dot(s);
    if d1 < 0 {
        false
    } else {
        let p1 = s.take(d1);
        let r1 = s.skip(d1 + 1);
        let d2 = first_dot(r1);
        if d2 < 0 {
            false
        } else {
            let p2 = r1.take(d2);
            let r2 = r1.skip(d2 + 1);
            let d3 = first_dot(r2);
            if d3 < 0 {
                false
            } else {
                let p3 = r2.take(d3);
                let p4 = r2.skip(d3 + 1);
                if first_dot(p4) >= 0 {
                    false
                } else {
                    spec_parse_octet(p1) is Some && spec_parse_octet(p2) is Some
                        && spec_parse_octet(p3) is Some && spec_parse_octet(p4) is Some
                }
            }
        }
    }
}

fn find_dot(v: &Vec<u8>, from: usize) -> (r: Option<usize>)
    requires
        from <= v@.len(),
    ensures
        match r {
            Some(j) => from <= j < v.len() && v@[j as int] == 46 && forall|k: int|
                from <= k < j ==> v@[k] != 46,
            None => forall|k: int| from <= k < v@.len() ==> v@[k] != 46,
        },
{
    let mut j: usize = from;
    while j < v.len()
        invariant
            from <= j <= v@.len(),
            forall|k: int| from <= k < j ==> v@[k] != 46,
        decreases v@.len() - j,
    {
        if v[j] == 46 {
            return Some(j);
        }
        j = j + 1;
    }
    None
}

fn parse_octet_ok(v: &Vec<u8>, a: usize, b: usize) -> (r: bool)
    requires
        a <= b <= v@.len(),
    ensures
        r == (spec_parse_octet(v@.subrange(a as int, b as int)) is Some),
{
    let ghost part = v@.subrange(a as int, b as int);
    let mut p: usize = a;
    if p < b && v[p] == 43 {
        p = p + 1;
    }
    let ghost ds = if part.len() > 0 && part[0] == 43 {
        part.skip(1)
    } else {
        part
    };
    proof {
        assert(ds =~= v@.subrange(p as int, b as int));
    }
    if p == b {
        return false;
    }
    let mut val: u32 = 0;
    let mut i: usize = p;
    while i < b
        invariant
            p <= i <= b <= v@.len(),
            p < b,
            a <= p <= b,
            part == v@.subrange(a as int, b as int),
            ds == (if part.len() > 0 && part[0] == 43 {
                part.skip(1)
            } else {
                part
            }),
            ds == v@.subrange(p as int, b as int),
            all_digits(v@.subrange(p as int, i as int)),
            val <= 256,
            (val <= 255 && val as int == digits_val(v@.subrange(p as int, i as int))) || (val
                == 256 && digits_val(v@.subrange(p as int, i as int)) > 255),
        decreases b - i,
    {
        let c = v[i];
        if !(48 <= c && c <= 57) {
            proof {
                assert(v@.subrange(p as int, b as int)[i - p as int] == v@[i as int]);
                assert(!all_digits(ds));
            }
            return false;
        }
        let ghost pre = v@.subrange(p as int, i as int);
        let ghost cur = v@.subrange(p as int, i + 1 as int);
        proof {
            assert(cur.drop_last() =~= pre);
            assert(cur.last() == v@[i as int]);
            lemma_digits_val_nonneg(pre);
        }
        let d: u32 = (c - 48) as u32;
        if val <= 255 {
            val = val * 10 + d;
            if val > 255 {
                val = 256;
            }
        }
        i = i + 1;
    }
    proof {
        assert(v@.subrange(p as int, b as int) == ds);
        assert(all_digits(ds));
        assert(ds.len() > 0);
    }
    val <= 255
}

/// Where the first dot of a suffix lies, given a scan of the original.
pub proof fn lemma_first_dot_rel(s: Seq<u8>, from: int, j: int)
    requires
        0 <= from <= j <= s.len(),
        forall|k: int| from <= k < j ==> s[k] != 46,
        j == s.len() || s[j] == 46,
    ensures
        first_dot(s.skip(from)) == if j < s.len() {
            j - from
        } else {
            -1
        },
{
    let t = s.skip(from);
    lemma_first_dot(t);
    assert forall|m: int| 0 <= m < j - from implies t[m] != 46 by {
        assert(t[m] == s[from + m]);
    }
    let r = first_dot(t);
    if j < s.len() {
        assert(t[j - from] == s[j]);
        if r == -1 {
            assert(t[j - from] != 46);
        } else {
            if j - from < r {
                assert(t[j - from] != 46);
            }
        }
    } else {
        if r != -1 {
            assert(t[r] == s[from + r]);
        }
    }
}

/// Whether the bytes form a dotted quad with all four octets in 0..=255.
/// An octet follows the unsigned-integer grammar, so a leading plus sign
/// or extra leading zeros are tolerated.
#[verifier::rlimit(60)]
pub fn is_valid_ip(ip: &Vec<u8>) -> (r: bool)
    ensures
        r == spec_is_valid_ip(ip@),
{
    let ghost s = ip@;
    let n = ip.len();
    proof {
        assert(s.skip(0) =~= s);
    }
    let d1 = match find_dot(ip, 0) {
        None => {
            proof {
                lemma_first_dot_rel(s, 0, n as int);
            }
            return false;
        },
        Some(j) => j,
    };
    proof {
        lemma_first_dot_rel(s, 0, d1 as int);
        assert(first_dot(s) == d1 as int);
    }
    let ghost r1 = s.skip(d1 + 1);
    let d2 = match find_dot(ip, d1 + 1) {
        None => {
            proof {
                lemma_first_dot_rel(s, d1 + 1, n as int);
            }
            return false;
        },
        Some(j) => j,
    };
    proof {
        lemma_first_dot_rel(s, d1 + 1, d2 as int);
        assert(first_dot(r1) == d2 - d1 - 1);
    }
    let ghost r2 = r1.skip(d2 - d1);
    proof {
        assert(r2 =~= s.skip(d2 + 1));
    }
    let d3 = match find_dot(ip, d2 + 1) {
        None => {
            proof {
                lemma_first_dot_rel(s, d2 + 1, n as int);
            }
            return false;
        },
        Some(j) => j,
    };
    proof {
        lemma_first_dot_rel(s, d2 + 1, d3 as int);
        assert(first_dot(r2) == d3 - d2 - 1);
    }
    let ghost p4 = r2.skip(d3 - d2);
    proof {
        assert(p4 =~= s.skip(d3 + 1));
    }
    match find_dot(ip, d3 + 1) {
        Some(j) => {
            proof {
                lemma_first_dot_rel(s, d3 + 1, j as int);
            }
            return false;
        },
        None => {
            proof {
                lemma_first_dot_rel(s, d3 + 1, n as int);
                assert(first_dot(p4) == -1);
            }
        },
    }
    proof {
        assert(s.take(d1 as int) =~= s.subrange(0, d1 as int));
        assert(r1.take(d2 - d1 - 1) =~= s.subrange(d1 + 1, d2 as int));
        assert(r2.take(d3 - d2 - 1) =~= s.subrange(d2 + 1, d3 as int));
        assert(p4 =~= s.subrange(d3 + 1, s.len() as int));
    }
    let ok = parse_octet_ok(ip, 0, d1) && parse_octet_ok(ip, d1 + 1, d2) && parse_octet_ok(
        ip,
        d2 + 1,
        d3,
    ) && parse_octet_ok(ip, d3 + 1, n);
    ok
}

/// The length of the digit run starting at `p`.
pub open spec fn digit_run_len(s: Seq<u8>, p: int) -> int
    decreases s.len() - p,
    when 0 <= p <= s.len()
{
    if p < s.len() && is_digit(s[p]) {
        1 + digit_run_len(s, p + 1)
    } else {
        0
    }
}

/// What `digit_run_len` measures.
pub proof fn lemma_digit_run_len(s: Seq<u8>, p: int)
    requires
        0 <= p <= s.len(),
    ensures
        0 <= digit_run_len(s, p) <= s.len() - p,
        forall|k: int| p <= k < p + digit_run_len(s, p) ==> is_digit(#[trigger] s[k]),
        p + digit_run_len(s, p) == s.len() || !is_digit(s[p + digit_run_len(s, p)]),
    decreases s.len() - p,
{
    if p < s.len() && is_digit(s[p]) {
        lemma_digit_run_len(s, p + 1);
    }
}

fn digit_run(v: &Vec<u8>, p: usize) -> (r: usize)
    requires
        p <= v@.len(),
    ensures
        r == digit_run_len(v@, p as int),
        p + r <= v.len(),
{
    let mut q: usize = p;
    while q < v.len() && 48 <= v[q] && v[q] <= 57
        invariant
            p <= q <= v@.len(),
            forall|k: int| p <= k < q ==> is_digit(#[trigger] v@[k]),
        decreases v@.len() - q,
    {
        q = q + 1;
    }
    proof {
        lemma_digit_run_len(v@, p as int);
        let r = digit_run_len(v@, p as int);
        assert(q - p == r) by {
            if q - p < r {
                assert(is_digit(v@[q as int]));
            }
            if r < q - p {
                assert(is_digit(v@[p + r]));
            }
        }
    }
    q - p
}

/// The end of the dotted-quad candidate starting at `p`, or -1: four
/// digit runs of one to three digits joined by dots, the last not
/// followed by a word byte.
pub open spec fn match_end(s: Seq<u8>, p: int) -> int {
    let r1 = digit_run_len(s, p);
    if !(1 <= r1 <= 3 && p + r1 < s.len() && s[p + r1] == 46) {
        -1
    } else {
        let p2 = p + r1 + 1;
        let r2 = digit_run_len(s, p2);
        if !(1 <= r2 <= 3 && p2 + r2 < s.len() && s[p2 + r2] == 46) {
            -1
        } else {
            let p3 = p2 + r2 + 1;
            let r3 = digit_run_len(s, p3);
            if !(1 <= r3 <= 3 && p3 + r3 < s.len() && s[p3 + r3] == 46) {
                -1
            } else {
                let p4 = p3 + r3 + 1;
                let r4 = digit_run_len(s, p4);
                if !(1 <= r4 <= 3) {
                    -1
                } else if p4 + r4 < s.len() && is_word_byte(s[p4 + r4]) {
                    -1
                } else {
                    p4 + r4
                }
            }
        }
    }
}

/// A candidate may start at `p`: a digit not preceded by a word byte.
pub open spec fn can_start(s: Seq<u8>, p: int) -> bool {
    is_digit(s[p]) && (p == 0 || !is_word_byte(s[p - 1]))
}

/// The validated candidates of the text from position `p` on, scanning
/// left to right and resuming after each candidate.
pub open spec fn scan_from(s: Seq<u8>, p: int) -> Seq<Seq<u8>>
    decreases s.len() - p,
    when 0 <= p
{
    if p >= s.len() {
        Seq::empty()
    } else {
        let e = if can_start(s, p) {
            match_end(s, p)
        } else {
            -1
        };
        if p < e && e <= s.len() {
            (if spec_is_valid_ip(s.subrange(p, e)) {
                seq![s.subrange(p, e)]
            } else {
                Seq::empty()
            }) + scan_from(s, e)
        } else {
            scan_from(s, p + 1)
        }
    }
}

/// Every validated dotted-quad candidate of the text, in order of first
/// occurrence.
pub open spec fn spec_extract_ips(s: Seq<u8>) -> Seq<Seq<u8>> {
    scan_from(s, 0)
}

fn copy_range(v: &Vec<u8>, a: usize, b: usize) -> (r: Vec<u8>)
    requires
        a <= b <= v@.len(),
    ensures
        r@ == v@.subrange(a as int, b as int),
{
    let mut r: Vec<u8> = Vec::new();
    let mut i: usize = a;
    while i < b
        invariant
            a <= i <= b <= v@.len(),
            r@ == v@.subrange(a as int, i as int),
        decreases b - i,
    {
        r.push(v[i]);
        proof {
            assert(r@ =~= v@.subrange(a as int, i + 1 as int));
        }
        i = i + 1;
    }
    r
}

fn try_match(v: &Vec<u8>, p: usize) -> (e: Option<usize>)
    requires
        p < v@.len(),
    ensures
        match e {
            Some(q) => match_end(v@, p as int) == q as int && p < q <= v@.len(),
            None => match_end(v@, p as int) == -1,
        },
{
    let ghost s = v@;
    let r1 = digit_run(v, p);
    if !(1 <= r1 && r1 <= 3 && p + r1 < v.len() && v[p + r1] == 46) {
        return None;
    }
    let p2 = p + r1 + 1;
    let r2 = digit_run(v, p2);
    if !(1 <= r2 && r2 <= 3 && p2 + r2 < v.len() && v[p2 + r2] == 46) {
        return None;
    }
    let p3 = p2 + r2 + 1;
    let r3 = digit_run(v, p3);
    if !(1 <= r3 && r3 <= 3 && p3 + r3 < v.len() && v[p3 + r3] == 46) {
        return None;
    }
    let p4 = p3 + r3 + 1;
    let r4 = digit_run(v, p4);
    if !(1 <= r4 && r4 <= 3) {
        return None;
    }
    let q = p4 + r4;
    if q < v.len() {
        let b = v[q];
        if (48 <= b && b <= 57) || (65 <= b && b <= 90) || (97 <= b && b <= 122) || b == 95 {
            return None;
        }
    }
    Some(q)
}

/// Scan the text for dotted-quad literals and keep those whose octets
/// all lie in 0..=255.
pub fn extract_ip_addresses(text: &Vec<u8>) -> (r: Vec<Vec<u8>>)
    ensures
        r.deep_view() == spec_extract_ips(text@),
{
    let ghost s = text@;
    let mut out: Vec<Vec<u8>> = Vec::new();
    let mut p: usize = 0;
    proof {
        assert(deep_seq(out@) =~= Seq::<Seq<u8>>::empty());
    }
    while p < text.len()
        invariant
            0 <= p <= s.len(),
            s == text@,
            spec_extract_ips(s) == deep_seq(out@) + scan_from(s, p as int),
        decreases s.len() - p,
    {
        let b = text[p];
        let starts = (48 <= b && b <= 57) && (p == 0 || {
            let c = text[p - 1];
            !((48 <= c && c <= 57) || (65 <= c && c <= 90) || (97 <= c && c <= 122) || c == 95)
        });
        proof {
            assert(starts == can_start(s, p as int));
        }
        if starts {
            match try_match(text, p) {
                Some(e) => {
                    let cand = copy_range(text, p, e);
                    let keep = is_valid_ip(&cand);
                    if keep {
                        let ghost prevo = out@;
                        out.push(cand);
                        proof {
                            assert(deep_seq(out@) =~= deep_seq(prevo).push(
                                s.subrange(p as int, e as int),
                            ));
                            assert(deep_seq(prevo) + scan_from(s, p as int) =~= deep_seq(out@)
                                + scan_from(s, e as int));
                        }
                    } else {
                        proof {
                            assert(deep_seq(out@) + scan_from(s, p as int) =~= deep_seq(out@)
                                + scan_from(s, e as int));
                        }
                    }
                    p = e;
                },
                None => {
                    proof {
                        assert(scan_from(s, p as int) == scan_from(s, p + 1 as int));
                    }
                    p = p + 1;
                },
            }
        } else {
            proof {
                assert(scan_from(s, p as int) == scan_from(s, p + 1 as int));
            }
            p = p + 1;
        }
    }
    proof {
        assert(scan_from(s, p as int) =~= Seq::<Seq<u8>>::empty());
        assert(spec_extract_ips(s) =~= deep_seq(out@));
    }
    out
}

/// The detection command: the validated dotted-quad literals of a text.
pub fn detect_ips_in_text(text: &Vec<u8>) -> (r: Vec<Vec<u8>>)
    ensures
        r.deep_view() == spec_extract_ips(text@),
{
    extract_ip_addresses(text)
}

} // verus!

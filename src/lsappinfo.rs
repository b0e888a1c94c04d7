//! Reading the text that `lsappinfo` prints.
use vstd::prelude::*;

verus! {

/// `s[..r.len()] == r`, no space in `r`, and `r` ends where `s` ends or at
/// a space: `r` is the first space-separated field of `s`.
pub open spec fn is_first_field(s: Seq<u8>, r: Seq<u8>) -> bool {
    &&& r.len() <= s.len()
    &&& r == s.subrange(0, r.len() as int)
    &&& forall|i: int| 0 <= i < r.len() ==> r[i] != 32u8
    &&& (r.len() == s.len() || s[r.len() as int] == 32u8)
}

/// The application serial number that leads the output of
/// `lsappinfo visibleProcessList`: its bytes up to the first space.
pub fn front_asn_from(output: &[u8]) -> (r: Vec<u8>)
    ensures
        is_first_field(output@, r@),
{
    let mut r: Vec<u8> = Vec::new();
    let mut i: usize = 0;
    while i < output.len() && output[i] != 32u8
        invariant
            i <= output@.len(),
            r@ == output@.subrange(0, i as int),
            forall|j: int| 0 <= j < i ==> output@[j] != 32u8,
        decreases output@.len() - i,
    {
        r.push(output[i]);
        i = i + 1;
        assert(r@ =~= output@.subrange(0, i as int));
    }
    r
}

pub open spec fn is_digit(b: u8) -> bool {
    48u8 <= b <= 57u8
}

/// Every byte of `s` is a decimal digit.
pub open spec fn all_digits(s: Seq<u8>) -> bool {
    forall|i: int| 0 <= i < s.len() ==> is_digit(s[i])
}

/// The number that the decimal digits `s` spell, most significant first.
pub open spec fn digits_value(s: Seq<u8>) -> nat
    decreases s.len(),
{
    if s.len() == 0 {
        0
    } else {
        digits_value(s.drop_last()) * 10 + (s.last() - 48u8) as nat
    }
}

/// The `i32` that `s` spells as an optional `+` or `-` followed by one or
/// more decimal digits; `None` for any other text, or a number out of range.
pub open spec fn decimal_i32(s: Seq<u8>) -> Option<i32> {
    let negative = s.len() > 0 && s[0] == 45u8;
    let signed = s.len() > 0 && (s[0] == 45u8 || s[0] == 43u8);
    let digits = if signed {
        s.drop_first()
    } else {
        s
    };
    if digits.len() == 0 || !all_digits(digits) {
        None
    } else {
        let v: int = if negative {
            -digits_value(digits)
        } else {
            digits_value(digits) as int
        };
        if i32::MIN <= v <= i32::MAX {
            Some(v as i32)
        } else {
            None
        }
    }
}

proof fn lemma_digits_value_grows(s: Seq<u8>, j: int)
    requires
        0 <= j <= s.len(),
        all_digits(s),
    ensures
        digits_value(s.subrange(0, j)) <= digits_value(s),
    decreases s.len(),
{
    if j < s.len() {
        assert(s.drop_last().subrange(0, j) =~= s.subrange(0, j));
        lemma_digits_value_grows(s.drop_last(), j);
    } else {
        assert(s.subrange(0, j) =~= s);
    }
}

/// The value of the digits `s[start..]`, where all are decimal digits and
/// the value is at most 2^31; `None` otherwise.
fn bounded_digits_value(s: &[u8], start: usize) -> (r: Option<u64>)
    requires
        start <= s@.len(),
    ensures
        ({
            let d = s@.subrange(start as int, s@.len() as int);
            match r {
                Some(v) => all_digits(d) && v == digits_value(d) && v <= 0x8000_0000,
                None => !all_digits(d) || digits_value(d) > 0x8000_0000,
            }
        }),
{
    let n = s.len();
    let ghost d = s@.subrange(start as int, n as int);
    let mut acc: u64 = 0;
    let mut i: usize = start;
    assert(s@.subrange(start as int, start as int) =~= Seq::<u8>::empty());
    while i < n
        invariant
            start <= i <= n,
            n == s@.len(),
            d == s@.subrange(start as int, n as int),
            forall|j: int| start <= j < i ==> is_digit(s@[j]),
            acc == digits_value(s@.subrange(start as int, i as int)),
            acc <= 0x8000_0000,
        decreases n - i,
    {
        let b = s[i];
        if b < 48u8 || b > 57u8 {
            assert(!is_digit(d[i - start]));
            return None;
        }
        let ghost before = s@.subrange(start as int, i as int);
        acc = acc * 10 + (b - 48u8) as u64;
        i = i + 1;
        assert(s@.subrange(start as int, i as int).drop_last() =~= before);
        if acc > 0x8000_0000 {
            proof {
                if all_digits(d) {
                    assert(d.subrange(0, i - start) =~= s@.subrange(start as int, i as int));
                    lemma_digits_value_grows(d, i - start);
                }
            }
            return None;
        }
    }
    assert(s@.subrange(start as int, i as int) =~= d);
    Some(acc)
}

/// Reads `s` as a decimal `i32`, with an optional sign.
pub fn parse_i32(s: &[u8]) -> (r: Option<i32>)
    ensures
        r == decimal_i32(s@),
{
    let n = s.len();
    if n == 0 {
        return None;
    }
    let negative = s[0] == 45u8;
    let start: usize = if s[0] == 45u8 || s[0] == 43u8 {
        1
    } else {
        0
    };
    if start == n {
        return None;
    }
    assert(s@.subrange(start as int, n as int) =~= if start == 1 {
        s@.drop_first()
    } else {
        s@
    });
    match bounded_digits_value(s, start) {
        None => None,
        Some(v) => {
            if negative {
                Some((0 - v as i64) as i32)
            } else if v <= 0x7fff_ffff {
                Some(v as i32)
            } else {
                None
            }
        },
    }
}

/// The bytes `"pid"=` that open the line holding a process id.
pub open spec fn pid_tag() -> Seq<u8> {
    seq![34u8, 112u8, 105u8, 100u8, 34u8, 61u8]
}

/// A line of `s` starts at `i` and opens with `"pid"=`.
pub open spec fn is_pid_line(s: Seq<u8>, i: int) -> bool {
    &&& 0 <= i
    &&& i + 6 <= s.len()
    &&& (i == 0 || s[i - 1] == 10u8)
    &&& s.subrange(i, i + 6) == pid_tag()
}

/// The first index at or after `j` that holds `=` or a line break, or the
/// length of `s` where there is none.
pub open spec fn field_end(s: Seq<u8>, j: int) -> int
    decreases s.len() - j,
{
    if j >= s.len() {
        s.len() as int
    } else if s[j] == 61u8 || s[j] == 10u8 {
        j
    } else {
        field_end(s, j + 1)
    }
}

/// The process id that `lsappinfo info -only pid` reports in `s`: the first
/// line that opens with `"pid"=`, read from just after that `=` up to the
/// next `=` or the end of the line. `None` where no line opens so, or that
/// text is no `i32`.
pub open spec fn reported_pid(s: Seq<u8>) -> Option<i32> {
    if exists|i: int| is_pid_line(s, i) {
        let i = choose|i: int| is_pid_line(s, i) && forall|j: int| 0 <= j < i ==> !is_pid_line(s, j);
        decimal_i32(s.subrange(i + 6, field_end(s, i + 6)))
    } else {
        None
    }
}

fn pid_line_at(s: &[u8], i: usize) -> (r: bool)
    ensures
        r == is_pid_line(s@, i as int),
{
    if s.len() < 6 || i > s.len() - 6 {
        return false;
    }
    if i > 0 && s[i - 1] != 10u8 {
        return false;
    }
    let r = s[i] == 34u8 && s[i + 1] == 112u8 && s[i + 2] == 105u8 && s[i + 3] == 100u8 && s[i
        + 4] == 34u8 && s[i + 5] == 61u8;
    proof {
        if r {
            assert(s@.subrange(i as int, i + 6) =~= pid_tag());
        } else {
            if s@.subrange(i as int, i + 6) == pid_tag() {
                assert(s@.subrange(i as int, i + 6)[0] == s@[i as int]);
                assert(s@.subrange(i as int, i + 6)[1] == s@[i + 1]);
                assert(s@.subrange(i as int, i + 6)[2] == s@[i + 2]);
                assert(s@.subrange(i as int, i + 6)[3] == s@[i + 3]);
                assert(s@.subrange(i as int, i + 6)[4] == s@[i + 4]);
                assert(s@.subrange(i as int, i + 6)[5] == s@[i + 5]);
            }
        }
    }
    r
}

/// The process id in the output of `lsappinfo info -only pid <asn>`.
pub fn pid_from_info(output: &[u8]) -> (r: Option<i32>)
    ensures
        r == reported_pid(output@),
{
    let n = output.len();
    let mut i: usize = 0;
    while i < n
        invariant
            n == output@.len(),
            i <= n,
            forall|j: int| 0 <= j < i ==> !is_pid_line(output@, j),
        decreases n - i,
    {
        if pid_line_at(output, i) {
            let start = i + 6;
            let mut end: usize = start;
            while end < n && output[end] != 61u8 && output[end] != 10u8
                invariant
                    start <= end <= n,
                    n == output@.len(),
                    field_end(output@, start as int) == field_end(output@, end as int),
                decreases n - end,
            {
                end = end + 1;
            }
            let mut field: Vec<u8> = Vec::new();
            let mut k: usize = start;
            while k < end
                invariant
                    start <= k <= end,
                    end <= n,
                    n == output@.len(),
                    field@ == output@.subrange(start as int, k as int),
                decreases end - k,
            {
                field.push(output[k]);
                k = k + 1;
                assert(field@ =~= output@.subrange(start as int, k as int));
            }
            proof {
                let c = choose|c: int|
                    is_pid_line(output@, c) && forall|j: int| 0 <= j < c ==> !is_pid_line(output@, j);
                assert(c == i as int) by {
                    if c < i {
                    } else if c > i {
                        assert(!is_pid_line(output@, i as int));
                    }
                }
            }
            return parse_i32(field.as_slice());
        }
        i = i + 1;
    }
    None
}

} // verus!

use vstd::prelude::*;
use crate::Error;

verus! {

/// The file extension that marks a corpus file.
pub open spec fn jsonl_suffix() -> Seq<char> {
    seq!['.', 'j', 's', 'o', 'n', 'l']
}

/// Whether the file name carries the `.jsonl` extension: a non-empty stem
/// followed by the suffix. A file named `.jsonl` alone has no extension —
/// its whole name is a hidden file's stem — and is not a corpus file.
pub open spec fn has_jsonl_ext(s: Seq<char>) -> bool {
    s.len() >= 7 && s.skip(s.len() - 6) == jsonl_suffix()
}

/// Decide whether the file name carries the `.jsonl` extension.
pub fn is_jsonl_name(name: &String) -> (r: bool)
    ensures
        r == has_jsonl_ext(name@),
{
    let len = name.as_str().unicode_len();
    if len < 7 {
        return false;
    }
    let c0 = name.as_str().get_char(len - 6);
    let c1 = name.as_str().get_char(len - 5);
    let c2 = name.as_str().get_char(len - 4);
    let c3 = name.as_str().get_char(len - 3);
    let c4 = name.as_str().get_char(len - 2);
    let c5 = name.as_str().get_char(len - 1);
    let hit = c0 == '.' && c1 == 'j' && c2 == 's' && c3 == 'o' && c4 == 'n' && c5 == 'l';
    proof {
        let sfx = name@.skip(name@.len() - 6);
        assert(sfx.len() == 6);
        assert(sfx[0] == name@[name@.len() - 6]);
        assert(sfx[1] == name@[name@.len() - 5]);
        assert(sfx[2] == name@[name@.len() - 4]);
        assert(sfx[3] == name@[name@.len() - 3]);
        assert(sfx[4] == name@[name@.len() - 2]);
        assert(sfx[5] == name@[name@.len() - 1]);
        if hit {
            assert(sfx =~= jsonl_suffix());
        } else {
            assert(sfx != jsonl_suffix());
        }
    }
    hit
}

/// Keep a file name only when it carries the `.jsonl` extension.
pub fn filter_jsonl(name: String) -> (r: Option<String>)
    ensures
        has_jsonl_ext(name@) ==> r == Some(name),
        !has_jsonl_ext(name@) ==> r is None,
{
    if is_jsonl_name(&name) {
        Some(name)
    } else {
        None
    }
}

/// The site name of a corpus file: its name with the `.jsonl` extension
/// stripped; a name without the extension stands unchanged.
pub fn site_name_of(name: &String) -> (r: String)
    ensures
        has_jsonl_ext(name@) ==> r@ == name@.take(name@.len() - 6),
        !has_jsonl_ext(name@) ==> r@ == name@,
{
    if is_jsonl_name(name) {
        let len = name.as_str().unicode_len();
        let stem = name.as_str().substring_char(0, len - 6);
        proof {
            assert(stem@ =~= name@.take(name@.len() - 6));
        }
        String::from_str(stem)
    } else {
        name.clone()
    }
}

/// The numeric value of the first `n` decimal digits of `s`.
pub open spec fn digits_value(s: Seq<char>, n: int) -> int
    decreases n,
{
    if n <= 0 {
        0
    } else {
        digits_value(s, n - 1) * 10 + (s[n - 1] as u32 - 48)
    }
}

/// Whether every character of `s` is a decimal digit.
pub open spec fn all_digits(s: Seq<char>) -> bool {
    forall|i: int| 0 <= i < s.len() ==> 48 <= (#[trigger] s[i]) as u32 <= 57
}

/// The digit run of a worker count: the text with an optional leading plus
/// sign stripped, as the standard integer parse accepts one.
pub open spec fn worker_digits(s: Seq<char>) -> Seq<char> {
    if s.len() > 0 && s[0] == '+' {
        s.skip(1)
    } else {
        s
    }
}

pub proof fn lemma_digits_value_nonneg(s: Seq<char>, n: int)
    requires
        all_digits(s),
        n <= s.len(),
    ensures
        digits_value(s, n) >= 0,
    decreases n,
{
    if n > 0 {
        lemma_digits_value_nonneg(s, n - 1);
    }
}

/// A longer run of digits never has a smaller value.
pub proof fn lemma_digits_value_monotone(s: Seq<char>, n: int, m: int)
    requires
        all_digits(s),
        0 <= n <= m <= s.len(),
    ensures
        digits_value(s, n) <= digits_value(s, m),
    decreases m - n,
{
    if n < m {
        lemma_digits_value_monotone(s, n, m - 1);
        lemma_digits_value_nonneg(s, m - 1);
    }
}

/// Read a worker count from its decimal text, an optional leading plus sign
/// allowed. Every string that is not a positive integer within the machine's
/// range is an `InvalidWorkerCount`, the only error this can return.
pub fn parse_worker_count(s: &str) -> (r: Result<usize, Error>)
    ensures
        r matches Ok(n) ==> {
            let wd = worker_digits(s@);
            wd.len() > 0 && all_digits(wd) && n == digits_value(wd, wd.len() as int) && n >= 1
        },
        r matches Err(e) ==> e == Error::InvalidWorkerCount,
        ({
            let wd = worker_digits(s@);
            wd.len() > 0 && all_digits(wd) && 1 <= digits_value(wd, wd.len() as int) <= usize::MAX
        }) ==> r is Ok,
{
    let len = s.unicode_len();
    let mut i: usize = 0;
    if len > 0 && s.get_char(0) == '+' {
        i = 1;
    }
    let start = i;
    let ghost wd = worker_digits(s@);
    proof {
        if start == 1 {
            assert(wd =~= s@.skip(1));
        }
        assert(wd.len() == len - start);
    }
    if i >= len {
        return Err(Error::InvalidWorkerCount);
    }
    let mut acc: usize = 0;
    while i < len
        invariant
            start <= i <= len,
            start <= 1,
            len == s@.len(),
            wd == worker_digits(s@),
            wd.len() == len - start,
            forall|t: int| 0 <= t < wd.len() ==> wd[t] == s@[t + start],
            all_digits(wd.take(i - start)),
            acc == digits_value(wd, i - start),
        decreases len - i,
    {
        let c = s.get_char(i);
        let cv = c as u32;
        if cv < 48 || cv > 57 {
            proof {
                assert(wd[i - start] == s@[i as int]);
                assert(!(48 <= wd[i - start] as u32 <= 57));
            }
            return Err(Error::InvalidWorkerCount);
        }
        let d = (cv - 48) as usize;
        proof {
            assert(wd[i - start] == s@[i as int]);
            assert forall|t: int| 0 <= t < i - start + 1 implies 48 <= (#[trigger] wd.take(
                i - start + 1,
            )[t]) as u32 <= 57 by {
                if t < i - start {
                    assert(wd.take(i - start)[t] == wd[t]);
                }
            }
        }
        if acc > (usize::MAX - d) / 10 {
            proof {
                assert(acc * 10 + d > usize::MAX) by (nonlinear_arith)
                    requires
                        acc > (usize::MAX - d) / 10,
                        0 <= d <= 9,
                        acc >= 0,
                ;
                if all_digits(wd) {
                    assert(digits_value(wd, i - start + 1) == acc * 10 + d);
                    lemma_digits_value_monotone(wd, i - start + 1, wd.len() as int);
                }
            }
            return Err(Error::InvalidWorkerCount);
        }
        proof {
            assert(acc * 10 + d <= usize::MAX) by (nonlinear_arith)
                requires
                    acc <= (usize::MAX - d) / 10,
                    0 <= d <= 9,
                    acc >= 0,
            ;
        }
        acc = acc * 10 + d;
        i = i + 1;
    }
    proof {
        assert(wd.take(wd.len() as int) =~= wd);
    }
    if acc == 0 {
        return Err(Error::InvalidWorkerCount);
    }
    Ok(acc)
}

} // verus!

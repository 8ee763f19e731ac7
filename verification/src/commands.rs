use vstd::prelude::*;
use vstd::string::StrSliceExecFns;

verus! {

pub open spec fn is_digit_char(c: char) -> bool {
    48 <= c as u32 <= 57
}

pub open spec fn all_digits(s: Seq<char>) -> bool {
    forall|j: int| 0 <= j < s.len() ==> is_digit_char(#[trigger] s[j])
}

/// The integer a sequence of decimal digit characters denotes.
pub open spec fn digits_val(s: Seq<char>) -> int
    decreases s.len(),
{
    if s.len() == 0 {
        0
    } else {
        digits_val(s.drop_last()) * 10 + (s.last() as u32 - 48)
    }
}

/// A follow-criterion string a tenant command accepts: non-empty, at most 14
/// characters, all ASCII digits, denoting an integer in (0, 9999999999].
pub open spec fn valid_follow(s: Seq<char>) -> bool {
    &&& s.len() > 0
    &&& s.len() <= 14
    &&& all_digits(s)
    &&& 0 < digits_val(s) <= 9999999999
}

spec fn pow10(n: nat) -> int
    decreases n,
{
    if n == 0 {
        1
    } else {
        10 * pow10((n - 1) as nat)
    }
}

proof fn lemma_pow10_pos(n: nat)
    ensures
        pow10(n) >= 1,
    decreases n,
{
    if n > 0 {
        lemma_pow10_pos((n - 1) as nat);
    }
}

proof fn lemma_pow10_mono(a: nat, b: nat)
    requires
        a <= b,
    ensures
        pow10(a) <= pow10(b),
    decreases b,
{
    if a < b {
        lemma_pow10_mono(a, (b - 1) as nat);
        lemma_pow10_pos((b - 1) as nat);
    }
}

proof fn lemma_digits_val_bound(s: Seq<char>)
    requires
        all_digits(s),
    ensures
        0 <= digits_val(s) < pow10(s.len() as nat),
    decreases s.len(),
{
    if s.len() > 0 {
        assert(forall|j: int|
            0 <= j < s.drop_last().len() ==> is_digit_char(#[trigger] s.drop_last()[j]));
        lemma_digits_val_bound(s.drop_last());
        assert(is_digit_char(s.last()));
    }
}

/// Validates a tenant-supplied follow-criterion string: non-empty, at most
/// 14 characters, all ASCII digits, and a value in (0, 9999999999]. On
/// success returns the denoted integer; on failure, the user-facing reason
/// for the first check that fails, and no state is touched.
pub fn validate_follow_id(input: &str) -> (r: Result<i64, String>)
    ensures
        r is Ok <==> valid_follow(input@),
        r matches Ok(id) ==> id == digits_val(input@),
        input@.len() == 0 ==> (r matches Err(m) && m@ == "Follow ID cannot be empty"@),
        input@.len() > 14 ==> (r matches Err(m) && m@ == "Follow ID is too long"@),
        0 < input@.len() <= 14 && !all_digits(input@) ==> (r matches Err(m) && m@
            == "Follow ID must contain only numbers"@),
        0 < input@.len() <= 14 && all_digits(input@) && digits_val(input@) == 0 ==> (r matches Err(
            m,
        ) && m@ == "Follow ID must be a positive number"@),
        0 < input@.len() <= 14 && all_digits(input@) && digits_val(input@) > 9999999999 ==> (
        r matches Err(m) && m@ == "Follow ID is too large"@),
    {
    let n = input.unicode_len();
    if n == 0 {
        return Err("Follow ID cannot be empty".to_owned());
    }
    if n > 14 {
        return Err("Follow ID is too long".to_owned());
    }
    let mut i: usize = 0;
    let mut val: i64 = 0;
    proof {
        assert(input@.take(0) =~= Seq::<char>::empty());
    }
    while i < n
        invariant
            n == input@.len(),
            0 < n <= 14,
            i <= n,
            forall|j: int| 0 <= j < i ==> is_digit_char(#[trigger] input@[j]),
            val == digits_val(input@.take(i as int)),
            0 <= val < pow10(i as nat),
        decreases n - i,
    {
        let c = input.get_char(i);
        let u = c as u32;
        if u < 48 || u > 57 {
            proof {
                assert(!is_digit_char(input@[i as int]));
                assert(!all_digits(input@));
            }
            return Err("Follow ID must contain only numbers".to_owned());
        }
        proof {
            lemma_pow10_mono((i + 1) as nat, 14);
            assert(pow10(14) == 100000000000000) by {
                assert(pow10(0) == 1);
                assert(pow10(1) == 10);
                assert(pow10(2) == 100);
                assert(pow10(3) == 1000);
                assert(pow10(4) == 10000);
                assert(pow10(5) == 100000);
                assert(pow10(6) == 1000000);
                assert(pow10(7) == 10000000);
                assert(pow10(8) == 100000000);
                assert(pow10(9) == 1000000000);
                assert(pow10(10) == 10000000000);
                assert(pow10(11) == 100000000000);
                assert(pow10(12) == 1000000000000);
                assert(pow10(13) == 10000000000000);
            }
            assert(input@.take(i + 1).drop_last() =~= input@.take(i as int));
            assert(input@.take(i + 1).last() == input@[i as int]);
        }
        val = val * 10 + ((u - 48) as i64);
        i = i + 1;
    }
    proof {
        assert(input@.take(n as int) =~= input@);
        assert(all_digits(input@));
    }
    if val == 0 {
        return Err("Follow ID must be a positive number".to_owned());
    }
    if val > 9999999999 {
        return Err("Follow ID is too large".to_owned());
    }
    Ok(val)
}

} // verus!

//! Decimal rendering of numbers and unique participant names.
use vstd::prelude::*;
use vstd::string::StringExecFns;

use crate::engine::Coup;

verus! {

/// The character of a decimal digit.
pub open spec fn digit(d: nat) -> char {
    if d == 0 {
        '0'
    } else if d == 1 {
        '1'
    } else if d == 2 {
        '2'
    } else if d == 3 {
        '3'
    } else if d == 4 {
        '4'
    } else if d == 5 {
        '5'
    } else if d == 6 {
        '6'
    } else if d == 7 {
        '7'
    } else if d == 8 {
        '8'
    } else {
        '9'
    }
}

/// The decimal digits of `n`, most significant first, without leading zeros.
pub open spec fn decimal(n: nat) -> Seq<char>
    decreases n,
{
    if n < 10 {
        seq![digit(n)]
    } else {
        decimal(n / 10).push(digit(n % 10))
    }
}

/// Exactly three digits of `n < 1000`, padded with zeros.
pub open spec fn three_digits(n: nat) -> Seq<char> {
    seq![digit(n / 100), digit((n / 10) % 10), digit(n % 10)]
}

/// `n` in decimal with a comma between each group of three digits.
pub open spec fn separated(n: nat) -> Seq<char>
    decreases n,
{
    if n < 1000 {
        decimal(n)
    } else {
        separated(n / 1000) + seq![','] + three_digits(n % 1000)
    }
}

/// The name `base` with the number `k` appended after a space.
pub open spec fn suffixed(base: Seq<char>, k: nat) -> Seq<char> {
    base + seq![' '] + decimal(k)
}

/// Whether some string of `names` reads `s`.
pub open spec fn taken(names: Seq<String>, s: Seq<char>) -> bool {
    exists|i: int| 0 <= i < names.len() && (#[trigger] names[i])@ == s
}

/// The views of `names`, as a set.
pub open spec fn name_set(names: Seq<String>) -> Set<Seq<char>> {
    names.map_values(|s: String| s@).to_set()
}

proof fn lemma_digit_injective(a: nat, b: nat)
    requires
        a < 10,
        b < 10,
        digit(a) == digit(b),
    ensures
        a == b,
{
}

proof fn lemma_decimal_len(n: nat)
    ensures
        decimal(n).len() >= 1,
        n >= 10 ==> decimal(n).len() >= 2,
    decreases n,
{
    if n >= 10 {
        lemma_decimal_len(n / 10);
    }
}

/// Different numbers have different decimal renderings.
proof fn lemma_decimal_injective(a: nat, b: nat)
    requires
        decimal(a) == decimal(b),
    ensures
        a == b,
    decreases a,
{
    lemma_decimal_len(a);
    lemma_decimal_len(b);
    if a < 10 && b < 10 {
        assert(decimal(a)[0] == digit(a));
        lemma_digit_injective(a, b);
    } else if a >= 10 && b >= 10 {
        let da = decimal(a);
        let db = decimal(b);
        assert(decimal(a / 10) == da.drop_last());
        assert(decimal(b / 10) == db.drop_last());
        lemma_decimal_injective(a / 10, b / 10);
        assert(digit(a % 10) == da.last());
        assert(digit(b % 10) == db.last());
        lemma_digit_injective(a % 10, b % 10);
    } else {
        assert(decimal(a).len() != decimal(b).len());
    }
}

proof fn lemma_suffixed_injective(base: Seq<char>, a: nat, b: nat)
    requires
        suffixed(base, a) == suffixed(base, b),
    ensures
        a == b,
{
    let p = base + seq![' '];
    let sa = suffixed(base, a);
    let sb = suffixed(base, b);
    assert(decimal(a) =~= sa.subrange(p.len() as int, sa.len() as int));
    assert(decimal(b) =~= sb.subrange(p.len() as int, sb.len() as int));
    lemma_decimal_injective(a, b);
}

fn digit_str(d: u128) -> (r: &'static str)
    requires
        d < 10,
    ensures
        r@ == seq![digit(d as nat)],
{
    proof {
        reveal_strlit("0");
        reveal_strlit("1");
        reveal_strlit("2");
        reveal_strlit("3");
        reveal_strlit("4");
        reveal_strlit("5");
        reveal_strlit("6");
        reveal_strlit("7");
        reveal_strlit("8");
        reveal_strlit("9");
    }
    if d == 0 {
        "0"
    } else if d == 1 {
        "1"
    } else if d == 2 {
        "2"
    } else if d == 3 {
        "3"
    } else if d == 4 {
        "4"
    } else if d == 5 {
        "5"
    } else if d == 6 {
        "6"
    } else if d == 7 {
        "7"
    } else if d == 8 {
        "8"
    } else {
        "9"
    }
}

/// `n` in decimal.
pub fn decimal_string(n: u128) -> (r: String)
    ensures
        r@ == decimal(n as nat),
    decreases n,
{
    if n < 10 {
        String::from_str(digit_str(n))
    } else {
        let mut s = decimal_string(n / 10);
        s.append(digit_str(n % 10));
        s
    }
}

/// `name` is what a newcomer called `base` is registered as after the
/// bots `earlier`: `base` itself when no earlier bot has it, else `base`
/// followed by a space and the least number from two on that no earlier bot
/// has.
pub open spec fn registered_as(name: Seq<char>, base: Seq<char>, earlier: Seq<String>) -> bool {
    &&& !taken(earlier, base) ==> name == base
    &&& taken(earlier, base) ==> exists|k: nat|
        k >= 2 && name == suffixed(base, k) && forall|j: nat|
            2 <= j < k ==> taken(earlier, #[trigger] suffixed(base, j))
}

/// Whether some string of `names` equals `s`.
pub fn is_taken(names: &Vec<String>, s: &String) -> (r: bool)
    ensures
        r == taken(names@, s@),
{
    let mut i: usize = 0;
    while i < names.len()
        invariant
            i <= names@.len(),
            forall|j: int| 0 <= j < i ==> (#[trigger] names@[j])@ != s@,
        decreases names@.len() - i,
    {
        if names[i] == *s {
            return true;
        }
        i = i + 1;
    }
    false
}

/// A name for a newcomer called `base` that no string of `existing` reads:
/// `base` itself when it is free, else `base` followed by a space and the
/// least number from two on that makes it free.
pub fn unique_name(base: &String, existing: &Vec<String>) -> (r: String)
    ensures
        !taken(existing@, r@),
        registered_as(r@, base@, existing@),
{
    if !is_taken(existing, base) {
        return base.clone();
    }
    let ghost names = name_set(existing@);
    proof {
        existing@.map_values(|s: String| s@).lemma_cardinality_of_set();
    }
    let len = existing.len();
    let mut k: u128 = 2;
    let ghost mut tried: Set<Seq<char>> = Set::empty();
    let mut candidate = base.clone();
    candidate.append(" ");
    let n = decimal_string(k);
    candidate.append(n.as_str());
    proof {
        reveal_strlit(" ");
    }
    while is_taken(existing, &candidate)
        invariant
            2 <= k <= existing@.len() + 2,
            len == existing@.len(),
            candidate@ == suffixed(base@, k as nat),
            names == name_set(existing@),
            names.len() <= existing@.len(),
            tried.finite(),
            tried.len() == k - 2,
            tried.subset_of(names),
            forall|s: Seq<char>| #[trigger] tried.contains(s) ==> exists|j: nat|
                2 <= j < k && s == suffixed(base@, j),
            forall|j: nat| 2 <= j < k ==> taken(existing@, #[trigger] suffixed(base@, j)),
        decreases existing@.len() + 2 - k,
    {
        proof {
            assert(!tried.contains(candidate@)) by {
                if tried.contains(candidate@) {
                    let j = choose|j: nat| 2 <= j < k && candidate@ == suffixed(base@, j);
                    lemma_suffixed_injective(base@, j, k as nat);
                }
            }
            let i = choose|i: int| 0 <= i < existing@.len() && (#[trigger] existing@[i])@
                == candidate@;
            assert(existing@.map_values(|s: String| s@)[i] == candidate@);
            assert(names.contains(candidate@));
            tried = tried.insert(candidate@);
            vstd::set_lib::lemma_len_subset(tried, names);
            assert(len <= usize::MAX);
        }
        k = k + 1;
        candidate = base.clone();
        candidate.append(" ");
        let n = decimal_string(k);
        candidate.append(n.as_str());
        proof {
            reveal_strlit(" ");
        }
    }
    candidate
}

impl Coup {
    /// `number` in decimal with a comma between groups of three digits
    /// (`9876543210` reads `9,876,543,210`).
    pub fn format_number_with_separator(number: u64) -> (r: String)
        ensures
            r@ == separated(number as nat),
        decreases number,
    {
        if number < 1000 {
            decimal_string(number as u128)
        } else {
            let mut s = Coup::format_number_with_separator(number / 1000);
            let rest = number % 1000;
            s.append(",");
            s.append(digit_str((rest / 100) as u128));
            s.append(digit_str(((rest / 10) % 10) as u128));
            s.append(digit_str((rest % 10) as u128));
            proof {
                reveal_strlit(",");
                assert(s@ =~= separated(number as nat));
            }
            s
        }
    }
}

} // verus!

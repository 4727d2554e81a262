//! Names of log files: `<gen>.log`, with `<gen>` in decimal.
use vstd::prelude::*;
use vstd::utf8::encode_utf8;
use vstd::string::{StrSliceExecFns, StringExecFns, StringSliceAdditionalSpecFns};

verus! {

pub open spec fn is_digit(b: u8) -> bool {
    48 <= b <= 57
}

/// The number that a sequence of ASCII decimal digits writes.
pub open spec fn digits_value(s: Seq<u8>) -> int
    decreases s.len(),
{
    if s.len() == 0 {
        0
    } else {
        10 * digits_value(s.drop_last()) + (s.last() - 48)
    }
}

pub open spec fn decimal(n: nat) -> Seq<char>
    decreases n,
{
    if n < 10 {
        seq![(n + 48) as char]
    } else {
        decimal(n / 10) + seq![((n % 10) + 48) as char]
    }
}

/// The bytes of `<digits>.log`, with at least one digit.
pub open spec fn is_log_name(b: Seq<u8>) -> bool {
    &&& b.len() >= 5
    &&& b.subrange(b.len() - 4, b.len() as int) == seq![46u8, 108u8, 111u8, 103u8]
    &&& forall|i: int| 0 <= i < b.len() - 4 ==> is_digit(#[trigger] b[i])
}

/// The generation that a file name denotes, if it is a log's name.
pub open spec fn spec_log_gen(b: Seq<u8>) -> Option<u64> {
    if is_log_name(b) && digits_value(b.subrange(0, b.len() - 4)) <= u64::MAX {
        Some(digits_value(b.subrange(0, b.len() - 4)) as u64)
    } else {
        None
    }
}

/// Relies on `u64`'s `Display` through `ToString`: the decimal digits of `n`.
#[verifier::external_body]
fn u64_to_decimal(n: u64) -> (r: String)
    ensures
        r@ == decimal(n as nat),
{
    n.to_string()
}

/// The path of the log of generation `gen` in directory `dir`.
pub fn log_path(dir: &str, gen: u64) -> (r: String)
    ensures
        r@ == dir@ + seq!['/'] + decimal(gen as nat) + seq!['.', 'l', 'o', 'g'],
{
    let mut r = String::from_str(dir);
    proof {
        reveal_strlit("/");
        reveal_strlit(".log");
    }
    r.append("/");
    let d = u64_to_decimal(gen);
    r.append(d.as_str());
    r.append(".log");
    assert(r@ =~= dir@ + seq!['/'] + decimal(gen as nat) + seq!['.', 'l', 'o', 'g']);
    r
}

proof fn lemma_digits_value_nonneg(s: Seq<u8>)
    requires
        forall|i: int| 0 <= i < s.len() ==> is_digit(#[trigger] s[i]),
    ensures
        digits_value(s) >= 0,
    decreases s.len(),
{
    if s.len() > 0 {
        lemma_digits_value_nonneg(s.drop_last());
    }
}

proof fn lemma_digits_value_mono(s: Seq<u8>, i: int)
    requires
        0 <= i <= s.len(),
        forall|j: int| 0 <= j < s.len() ==> is_digit(#[trigger] s[j]),
    ensures
        digits_value(s.subrange(0, i)) <= digits_value(s),
    decreases s.len() - i,
{
    if i < s.len() {
        lemma_digits_value_mono(s, i + 1);
        assert(s.subrange(0, i + 1).drop_last() =~= s.subrange(0, i));
        lemma_digits_value_nonneg(s.subrange(0, i));
    } else {
        assert(s.subrange(0, i) =~= s);
    }
}

/// The generation that file name `name` denotes: `Some` exactly for a name
/// made of decimal digits and `.log` whose number fits in a `u64`.
pub fn log_generation(name: &str) -> (r: Option<u64>)
    ensures
        r == spec_log_gen(name.spec_bytes()),
{
    let b = name.as_bytes();
    let n = b.len();
    if n < 5 || b[n - 4] != 46u8 || b[n - 3] != 108u8 || b[n - 2] != 111u8 || b[n - 1] != 103u8 {
        proof {
            if n >= 5 {
                assert(b@.subrange(n - 4, n as int)[0] == b@[n - 4]);
                assert(b@.subrange(n - 4, n as int)[1] == b@[n - 3]);
                assert(b@.subrange(n - 4, n as int)[2] == b@[n - 2]);
                assert(b@.subrange(n - 4, n as int)[3] == b@[n - 1]);
            }
        }
        return None;
    }
    assert(b@.subrange(n - 4, n as int) =~= seq![46u8, 108u8, 111u8, 103u8]);
    let ghost digits = b@.subrange(0, n - 4);
    let mut v: u64 = 0;
    let mut i: usize = 0;
    while i < n - 4
        invariant
            n == b@.len(),
            b@ == name.spec_bytes(),
            n >= 5,
            i <= n - 4,
            digits == b@.subrange(0, n - 4),
            b@.subrange(n - 4, n as int) == seq![46u8, 108u8, 111u8, 103u8],
            forall|j: int| 0 <= j < i ==> is_digit(#[trigger] b@[j]),
            v == digits_value(digits.subrange(0, i as int)),
        decreases n - 4 - i,
    {
        let c = b[i];
        if c < 48 || c > 57 {
            assert(!is_digit(b@[i as int]));
            assert(!is_log_name(b@));
            return None;
        }
        let d = (c - 48) as u64;
        assert(digits.subrange(0, i + 1).drop_last() =~= digits.subrange(0, i as int));
        assert(digits.subrange(0, i + 1).last() == c);
        if v > (u64::MAX - d) / 10 {
            proof {
                assert(10 * v + d > u64::MAX) by (nonlinear_arith)
                    requires
                        v > (u64::MAX - d) / 10,
                        d <= 9,
                ;
                if is_log_name(b@) {
                    assert forall|j: int| 0 <= j < digits.len() implies is_digit(#[trigger] digits[j]) by {
                        assert(digits[j] == b@[j]);
                    }
                    lemma_digits_value_mono(digits, i + 1);
                }
            }
            return None;
        }
        assert(10 * v + d <= u64::MAX) by (nonlinear_arith)
            requires
                v <= (u64::MAX - d) / 10,
                d <= 9,
        ;
        v = v * 10 + d;
        i = i + 1;
    }
    assert(digits.subrange(0, i as int) =~= digits);
    assert(is_log_name(b@));
    Some(v)
}

pub open spec fn sorted_strict(s: Seq<u64>) -> bool {
    forall|i: int, j: int| 0 <= i < j < s.len() ==> s[i] < s[j]
}

/// The generations that the names in `names` denote.
pub open spec fn generations_of(names: Seq<Seq<char>>) -> Set<u64> {
    Set::new(|g: u64| exists|j: int| 0 <= j < names.len() && spec_log_gen(encode_utf8(#[trigger] names[j])) == Some(g))
}

fn insert_sorted(v: &mut Vec<u64>, g: u64)
    requires
        sorted_strict(old(v)@),
    ensures
        sorted_strict(final(v)@),
        final(v)@.to_set() == old(v)@.to_set().insert(g),
{
    let mut i: usize = 0;
    while i < v.len() && v[i] < g
        invariant
            i <= v@.len(),
            forall|j: int| 0 <= j < i ==> v@[j] < g,
        decreases v@.len() - i,
    {
        i = i + 1;
    }
    if i < v.len() && v[i] == g {
        assert(v@.to_set().insert(g) =~= v@.to_set());
        return;
    }
    let ghost s0 = v@;
    v.insert(i, g);
    assert forall|x: u64| #[trigger] v@.to_set().contains(x) <==> s0.to_set().insert(g).contains(x) by {
        if v@.contains(x) {
            let k = v@.index_of(x);
            if k < i {
                assert(s0[k] == x);
            } else if k > i {
                assert(s0[k - 1] == x);
            }
        }
        if s0.contains(x) {
            let k = s0.index_of(x);
            if k < i {
                assert(v@[k] == x);
            } else {
                assert(v@[k + 1] == x);
            }
        }
        if x == g {
            assert(v@[i as int] == g);
        }
    }
    assert(v@.to_set() =~= s0.to_set().insert(g));
}

/// The generations that a directory's file names denote, ascending and
/// without repeats; names that are not log names are passed over.
pub fn log_generations(names: &Vec<String>) -> (r: Vec<u64>)
    ensures
        sorted_strict(r@),
        r@.to_set() == generations_of(names@.map_values(|s: String| s@)),
{
    let ghost ns = names@.map_values(|s: String| s@);
    let mut v: Vec<u64> = Vec::new();
    let mut i: usize = 0;
    while i < names.len()
        invariant
            i <= names@.len(),
            ns == names@.map_values(|s: String| s@),
            sorted_strict(v@),
            v@.to_set() == generations_of(ns.take(i as int)),
        decreases names@.len() - i,
    {
        let ghost before = generations_of(ns.take(i as int));
        let name = names[i].as_str();
        let g = log_generation(name);
        assert(ns.take(i + 1)[i as int] == ns[i as int]);
        assert forall|j: int| 0 <= j < i implies ns.take(i + 1)[j] == #[trigger] ns.take(i as int)[j] by {}
        match g {
            Some(g) => {
                insert_sorted(&mut v, g);
                assert(v@.to_set() =~= generations_of(ns.take(i + 1)));
            },
            None => {
                assert(v@.to_set() =~= generations_of(ns.take(i + 1)));
            },
        }
        i = i + 1;
    }
    assert(ns.take(i as int) =~= ns);
    v
}

} // verus!

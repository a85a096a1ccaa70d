use vstd::prelude::*;
use vstd::string::{StrSliceExecFns, StringExecFns};

verus! {

/// The character of the decimal digit `d`.
pub open spec fn digit_char(d: nat) -> char {
    ((48 + d) as u8) as char
}

/// The decimal digits of `n`, most significant first, with no leading zero.
pub open spec fn decimal_chars(n: nat) -> Seq<char>
    decreases n,
{
    if n < 10 {
        seq![digit_char(n)]
    } else {
        decimal_chars(n / 10).push(digit_char(n % 10))
    }
}

/// The name of the segment file of generation `gen`: its decimal number and `.log`.
pub open spec fn file_name_of(gen: usize) -> Seq<char> {
    decimal_chars(gen as nat) + seq!['.', 'l', 'o', 'g']
}

/// The bytes `.log`.
pub open spec fn log_ext() -> Seq<u8> {
    seq![46u8, 108u8, 111u8, 103u8]
}

/// `b` is an ASCII decimal digit.
pub open spec fn is_digit(b: u8) -> bool {
    48 <= b <= 57
}

/// The number that a sequence of ASCII decimal digits spells.
pub open spec fn digits_value(s: Seq<u8>) -> nat
    decreases s.len(),
{
    if s.len() == 0 {
        0
    } else {
        digits_value(s.drop_last()) * 10 + (s.last() - 48) as nat
    }
}

/// The generation that a file name stands for: one or more decimal digits followed by
/// `.log`, with a value that fits in `usize`; any other name stands for none.
pub open spec fn generation_of(name: Seq<u8>) -> Option<usize> {
    let n = name.len() as int;
    let digits = name.subrange(0, n - 4);
    if n > 4 && name.subrange(n - 4, n) == log_ext() && (forall|i: int|
        0 <= i < n - 4 ==> is_digit(#[trigger] name[i])) && digits_value(digits) <= usize::MAX {
        Some(digits_value(digits) as usize)
    } else {
        None
    }
}

/// The generations that the names stand for, in the order of the names.
pub open spec fn generations_of(names: Seq<Vec<u8>>) -> Seq<usize>
    decreases names.len(),
{
    if names.len() == 0 {
        Seq::empty()
    } else {
        let rest = generations_of(names.drop_last());
        match generation_of(names.last()@) {
            Some(g) => rest.push(g),
            None => rest,
        }
    }
}

/// The path of the file `name` in the directory `dir`: `name` alone when `dir` is empty,
/// and no second separator when `dir` already ends in `/`.
pub open spec fn joined(dir: Seq<char>, name: Seq<char>) -> Seq<char> {
    if dir.len() == 0 || dir.last() == '/' {
        dir + name
    } else {
        dir + seq!['/'] + name
    }
}

/// Relies on `usize::to_string` (its `Display`): the decimal digits, without sign or padding.
#[verifier::external_body]
fn decimal_string(n: usize) -> (r: String)
    ensures
        r@ == decimal_chars(n as nat),
{
    n.to_string()
}

/// Relies on slice::sort_unstable: the same items, in ascending order.
#[verifier::external_body]
fn sort_ascending(v: &mut Vec<usize>)
    ensures
        final(v)@.to_multiset() == old(v)@.to_multiset(),
        forall|i: int, j: int| 0 <= i <= j < final(v)@.len() ==> final(v)@[i] <= final(v)@[j],
{
    v.sort_unstable()
}

/// The path of the segment file of generation `gen` in the directory `dir`.
pub fn logfile_path(dir: &str, gen: usize) -> (r: String)
    ensures
        r@ == joined(dir@, file_name_of(gen)),
{
    let digits = decimal_string(gen);
    let mut p = String::from_str(dir);
    proof {
        reveal_strlit("/");
        reveal_strlit(".log");
    }
    let n = dir.unicode_len();
    if n > 0 && dir.get_char(n - 1) != '/' {
        p.append("/");
    }
    p.append(digits.as_str());
    p.append(".log");
    proof {
        assert(p@ =~= joined(dir@, file_name_of(gen)));
    }
    p
}

proof fn lemma_digits_prefix(s: Seq<u8>, i: int)
    requires
        0 <= i <= s.len(),
    ensures
        digits_value(s.take(i)) <= digits_value(s),
    decreases s.len(),
{
    if i < s.len() {
        assert(s.drop_last().take(i) =~= s.take(i));
        lemma_digits_prefix(s.drop_last(), i);
    } else {
        assert(s.take(i) =~= s);
    }
}

/// The generation that the file name `name` stands for, if any.
pub fn parse_generation(name: &[u8]) -> (r: Option<usize>)
    ensures
        r == generation_of(name@),
{
    let n = name.len();
    if n <= 4 {
        return None;
    }
    let k = n - 4;
    if !(name[k] == 46u8 && name[k + 1] == 108u8 && name[k + 2] == 111u8 && name[k + 3] == 103u8) {
        assert(name@.subrange(k as int, n as int) != log_ext()) by {
            let t = name@.subrange(k as int, n as int);
            assert(t[0] == name@[k as int] && t[1] == name@[k + 1] && t[2] == name@[k + 2] && t[3]
                == name@[k + 3]);
        }
        return None;
    }
    assert(name@.subrange(k as int, n as int) =~= log_ext());
    let mut i: usize = 0;
    while i < k
        invariant
            k == n - 4,
            n == name@.len(),
            i <= k,
            forall|j: int| 0 <= j < i ==> is_digit(#[trigger] name@[j]),
        decreases k - i,
    {
        if !(48u8 <= name[i] && name[i] <= 57u8) {
            return None;
        }
        i = i + 1;
    }
    let ghost digits = name@.subrange(0, k as int);
    let mut acc: usize = 0;
    let mut i: usize = 0;
    while i < k
        invariant
            k == n - 4,
            n == name@.len(),
            i <= k,
            digits == name@.subrange(0, k as int),
            forall|j: int| 0 <= j < k ==> is_digit(#[trigger] name@[j]),
            acc == digits_value(digits.take(i as int)),
        decreases k - i,
    {
        let d = (name[i] - 48u8) as usize;
        proof {
            assert(digits.take(i as int + 1).drop_last() =~= digits.take(i as int));
            assert(digits[i as int] == name@[i as int]);
        }
        match acc.checked_mul(10) {
            Some(m) => match m.checked_add(d) {
                Some(v) => {
                    acc = v;
                },
                None => {
                    proof {
                        lemma_digits_prefix(digits, i as int + 1);
                    }
                    return None;
                },
            },
            None => {
                proof {
                    lemma_digits_prefix(digits, i as int + 1);
                }
                return None;
            },
        }
        i = i + 1;
    }
    proof {
        assert(digits.take(k as int) =~= digits);
    }
    Some(acc)
}

/// The generations that the file names `names` stand for, in ascending order; names that
/// stand for none are left out.
pub fn get_generation_list(names: &Vec<Vec<u8>>) -> (r: Vec<usize>)
    ensures
        r@.to_multiset() == generations_of(names@).to_multiset(),
        forall|i: int, j: int| 0 <= i <= j < r@.len() ==> r@[i] <= r@[j],
{
    let mut gens: Vec<usize> = Vec::new();
    let mut i: usize = 0;
    while i < names.len()
        invariant
            i <= names@.len(),
            gens@ == generations_of(names@.take(i as int)),
        decreases names@.len() - i,
    {
        proof {
            assert(names@.take(i as int + 1).drop_last() =~= names@.take(i as int));
        }
        if let Some(g) = parse_generation(names[i].as_slice()) {
            gens.push(g);
        }
        i = i + 1;
    }
    proof {
        assert(names@.take(names@.len() as int) =~= names@);
    }
    sort_ascending(&mut gens);
    gens
}

} // verus!

//! Choosing the latest of several version directories.

use vstd::prelude::*;

use crate::chars;
use crate::decimal;

verus! {

/// The number that a part of a version is: digits, with or without a sign, that
/// fit in 32 bits.
pub open spec fn number_of(part: Seq<char>) -> Option<int> {
    let negative = part.len() > 0 && part[0] == '-';
    let digits = if part.len() > 0 && (part[0] == '-' || part[0] == '+') {
        part.skip(1)
    } else {
        part
    };
    let number = if negative {
        -decimal::value(digits)
    } else {
        decimal::value(digits)
    };
    if digits.len() > 0 && decimal::all_digits(digits) && i32::MIN <= number <= i32::MAX {
        Some(number)
    } else {
        None
    }
}

/// The numbers among the parts from `i` on, `start` being where the part begins;
/// parts end at dots.
pub open spec fn numbers_from(name: Seq<char>, start: int, i: int) -> Seq<int>
    decreases name.len() - i,
{
    if i >= name.len() {
        as_list(number_of(name.subrange(start, name.len() as int)))
    } else if name[i] == '.' {
        as_list(number_of(name.subrange(start, i))) + numbers_from(name, i + 1, i + 1)
    } else {
        numbers_from(name, start, i + 1)
    }
}

/// One number or none, as a list.
pub open spec fn as_list(number: Option<int>) -> Seq<int> {
    match number {
        Some(n) => seq![n],
        None => Seq::empty(),
    }
}

/// The version that a name tells: the numbers among its parts.
pub open spec fn version_of(name: Seq<char>) -> Seq<int> {
    numbers_from(name, 0, 0)
}

/// Version `a` is earlier than version `b`: the first numbers that differ decide;
/// of two that differ in none, the shorter is earlier.
pub open spec fn earlier(a: Seq<int>, b: Seq<int>) -> bool
    decreases a.len(),
{
    if b.len() == 0 {
        false
    } else if a.len() == 0 {
        true
    } else if a[0] != b[0] {
        a[0] < b[0]
    } else {
        earlier(a.skip(1), b.skip(1))
    }
}

/// A name that begins with a digit.
pub open spec fn is_version_name(name: Seq<char>) -> bool {
    name.len() > 0 && chars::is_digit(name[0])
}

/// The first of the latest versions among the first `k` names.
pub open spec fn latest(names: Seq<Seq<char>>, k: int) -> Option<int>
    decreases k,
{
    if k <= 0 {
        None
    } else {
        let before = latest(names, k - 1);
        if !is_version_name(names[k - 1]) {
            before
        } else {
            match before {
                None => Some(k - 1),
                Some(p) => if earlier(version_of(names[p]), version_of(names[k - 1])) {
                    Some(k - 1)
                } else {
                    before
                },
            }
        }
    }
}

fn parse_number(part: &Vec<char>) -> (number: Option<i32>)
    ensures
        match number {
            Some(n) => number_of(part@) == Some(n as int),
            None => number_of(part@) is None,
        },
{
    if part.len() == 0 {
        return None;
    }
    let negative = part[0] == '-';
    let from: usize = if negative || part[0] == '+' {
        1
    } else {
        0
    };
    let ghost digits = part@.skip(from as int);
    assert(from == 0 ==> digits =~= part@);
    if from == part.len() {
        return None;
    }
    let mut sum: i64 = 0;
    let mut k: usize = from;
    assert(digits.take(0) =~= Seq::empty());
    while k < part.len()
        invariant
            from <= k <= part.len(),
            digits == part@.skip(from as int),
            0 < digits.len(),
            number_of(part@) is Some ==> decimal::all_digits(digits) && decimal::value(digits) <= 0x8000_0000,
            decimal::all_digits(digits.take(k - from)),
            sum == decimal::value(digits.take(k - from)),
            0 <= sum <= 0x8000_0000,
        decreases part.len() - k,
    {
        let c = part[k];
        let ghost before = digits.take(k - from);
        let ghost after = digits.take(k + 1 - from);
        assert(after.drop_last() =~= before);
        assert(after.last() == c);
        assert(digits[k - from] == c);
        if !chars::digit(c) {
            return None;
        }
        sum = sum * 10 + (c as u32 - '0' as u32) as i64;
        assert(decimal::all_digits(after)) by {
            assert forall|i: int| 0 <= i < after.len() implies chars::is_digit(#[trigger] after[i]) by {
                if i < before.len() {
                    assert(after[i] == before[i]);
                }
            }
        }
        if sum > 0x8000_0000 {
            proof {
                if decimal::all_digits(digits) {
                    decimal::lemma_value_grows(digits, k + 1 - from);
                }
            }
            return None;
        }
        k = k + 1;
    }
    assert(digits.take(digits.len() as int) =~= digits);
    let number: i64 = if negative {
        -sum
    } else {
        sum
    };
    if number > i32::MAX as i64 {
        None
    } else {
        Some(number as i32)
    }
}

/// The numbers of a list, as integers.
pub open spec fn as_ints(numbers: Seq<i32>) -> Seq<int> {
    Seq::new(numbers.len(), |p: int| numbers[p] as int)
}

/// The version that a name tells.
pub fn parse_version(name: &str) -> (version: Vec<i32>)
    ensures
        as_ints(version@) == version_of(name@),
{
    let s = chars::chars_of(name);
    let mut version: Vec<i32> = Vec::new();
    let mut start: usize = 0;
    let mut i: usize = 0;
    assert(as_ints(version@) + version_of(s@) =~= version_of(s@));
    while i < s.len()
        invariant
            start <= i <= s.len(),
            as_ints(version@) + numbers_from(s@, start as int, i as int) == version_of(s@),
        decreases s.len() - i,
    {
        if s[i] == '.' {
            let ghost before = as_ints(version@);
            let ghost rest = numbers_from(s@, i + 1, i + 1);
            let part = chars::slice_of(&s, start, i);
            match parse_number(&part) {
                Some(n) => {
                    version.push(n);
                    assert(as_ints(version@) =~= before.push(n as int));
                    assert(before + (seq![n as int] + rest) =~= before.push(n as int) + rest);
                },
                None => {
                    assert(before + (Seq::<int>::empty() + rest) =~= before + rest);
                },
            }
            start = i + 1;
        }
        i = i + 1;
    }
    let ghost before = as_ints(version@);
    let part = chars::slice_of(&s, start, s.len());
    match parse_number(&part) {
        Some(n) => {
            version.push(n);
            assert(as_ints(version@) =~= before + seq![n as int]);
        },
        None => {
            assert(before + Seq::<int>::empty() =~= before);
        },
    }
    version
}

fn is_earlier(a: &Vec<i32>, b: &Vec<i32>) -> (yes: bool)
    ensures
        yes == earlier(as_ints(a@), as_ints(b@)),
{
    let ghost x = as_ints(a@);
    let ghost y = as_ints(b@);
    let mut k: usize = 0;
    assert(x.skip(0) =~= x && y.skip(0) =~= y);
    loop
        invariant
            k <= a.len(),
            k <= b.len(),
            x == as_ints(a@),
            y == as_ints(b@),
            earlier(x, y) == earlier(x.skip(k as int), y.skip(k as int)),
        decreases a.len() - k,
    {
        if k == b.len() {
            return false;
        }
        if k == a.len() {
            return true;
        }
        assert(x.skip(k as int)[0] == a[k as int] && y.skip(k as int)[0] == b[k as int]);
        if a[k] != b[k] {
            return a[k] < b[k];
        }
        assert(x.skip(k as int).skip(1) =~= x.skip(k + 1));
        assert(y.skip(k as int).skip(1) =~= y.skip(k + 1));
        k = k + 1;
    }
}

/// The names as sequences.
pub open spec fn texts(names: Seq<String>) -> Seq<Seq<char>> {
    Seq::new(names.len(), |p: int| names[p]@)
}

/// Tells whether a name begins with a digit.
pub fn begins_with_digit(name: &str) -> (yes: bool)
    ensures
        yes == is_version_name(name@),
{
    let s = chars::chars_of(name);
    s.len() > 0 && chars::digit(s[0])
}

/// Picks the latest version of those names that begin with a digit; of several
/// that are equally late the first.
pub fn latest_version(names: &Vec<String>) -> (found: Option<usize>)
    ensures
        match found {
            Some(p) => p < names.len() && latest(texts(names@), names.len() as int) == Some(p as int),
            None => latest(texts(names@), names.len() as int) is None,
        },
{
    let ghost all = texts(names@);
    let mut best: Option<(usize, Vec<i32>)> = None;
    let mut k: usize = 0;
    while k < names.len()
        invariant
            k <= names.len(),
            all == texts(names@),
            match best {
                Some((p, v)) => p < k && latest(all, k as int) == Some(p as int) && as_ints(v@) == version_of(
                    all[p as int],
                ),
                None => latest(all, k as int) is None,
            },
        decreases names.len() - k,
    {
        assert(all[k as int] == names[k as int]@);
        if begins_with_digit(names[k].as_str()) {
            let version = parse_version(names[k].as_str());
            best = match best {
                None => Some((k, version)),
                Some((p, kept)) => if is_earlier(&kept, &version) {
                    Some((k, version))
                } else {
                    Some((p, kept))
                },
            };
        }
        k = k + 1;
    }
    match best {
        Some((p, _)) => Some(p),
        None => None,
    }
}

proof fn lemma_earlier_transitive(a: Seq<int>, b: Seq<int>, c: Seq<int>)
    ensures
        earlier(a, b) && earlier(b, c) ==> earlier(a, c),
        !earlier(b, a) && earlier(b, c) ==> earlier(a, c),
        !earlier(a, a),
    decreases a.len() + b.len() + c.len(),
{
    if a.len() > 0 {
        if b.len() > 0 && c.len() > 0 {
            lemma_earlier_transitive(a.skip(1), b.skip(1), c.skip(1));
        } else {
            lemma_earlier_transitive(a.skip(1), Seq::empty(), Seq::empty());
        }
    }
}

proof fn lemma_earlier_total(a: Seq<int>, b: Seq<int>)
    ensures
        earlier(a, b) ==> !earlier(b, a),
    decreases a.len(),
{
    if a.len() > 0 && b.len() > 0 {
        lemma_earlier_total(a.skip(1), b.skip(1));
    }
}

/// The version that is picked begins with a digit, none is later, and those that
/// stand before it are earlier.
pub proof fn law_latest_is_latest(names: Seq<Seq<char>>, k: int, q: int)
    requires
        0 <= q < k <= names.len(),
        is_version_name(names[q]),
    ensures
        latest(names, k) matches Some(p) && 0 <= p < k && is_version_name(names[p]) && !earlier(
            version_of(names[p]),
            version_of(names[q]),
        ) && (q < p ==> earlier(version_of(names[q]), version_of(names[p]))),
    decreases k,
{
    if q < k - 1 {
        law_latest_is_latest(names, k - 1, q);
        let p = latest(names, k - 1)->0;
        if is_version_name(names[k - 1]) {
            let vp = version_of(names[p]);
            let vk = version_of(names[k - 1]);
            let vq = version_of(names[q]);
            lemma_earlier_transitive(vq, vp, vk);
            lemma_earlier_total(vq, vk);
        }
    } else {
        let vq = version_of(names[q]);
        lemma_earlier_transitive(vq, vq, vq);
        lemma_latest_in_range(names, k - 1);
    }
}

proof fn lemma_latest_in_range(names: Seq<Seq<char>>, k: int)
    requires
        0 <= k <= names.len(),
    ensures
        latest(names, k) matches Some(p) ==> 0 <= p < k && is_version_name(names[p]),
    decreases k,
{
    if k > 0 {
        lemma_latest_in_range(names, k - 1);
    }
}

/// Which of two versions is earlier: the one with the smaller number at the first
/// place where they differ, or the one that ends there.
pub proof fn law_first_difference_decides(a: Seq<int>, b: Seq<int>, i: int)
    requires
        0 <= i <= a.len(),
        i <= b.len(),
        forall|k: int| 0 <= k < i ==> #[trigger] a[k] == b[k],
        i == a.len() || i == b.len() || a[i] != b[i],
    ensures
        i < a.len() && i < b.len() ==> (earlier(a, b) <==> a[i] < b[i]),
        i == a.len() ==> (earlier(a, b) <==> i < b.len()),
        i == b.len() ==> !earlier(a, b),
    decreases i,
{
    if i > 0 {
        assert(a[0] == b[0]);
        assert forall|k: int| 0 <= k < i - 1 implies #[trigger] a.skip(1)[k] == b.skip(1)[k] by {
            assert(a[k + 1] == b[k + 1]);
        }
        law_first_difference_decides(a.skip(1), b.skip(1), i - 1);
    }
}

/// Numbers with points between them.
pub open spec fn dotted(numbers: Seq<nat>) -> Seq<char>
    decreases numbers.len(),
{
    if numbers.len() == 0 {
        Seq::empty()
    } else if numbers.len() == 1 {
        decimal::padded(numbers[0], 1)
    } else {
        decimal::padded(numbers[0], 1) + seq!['.'] + dotted(numbers.skip(1))
    }
}

proof fn lemma_no_point(name: Seq<char>, start: int, i: int, end: int)
    requires
        0 <= start <= i <= end <= name.len(),
        forall|k: int| i <= k < end ==> #[trigger] name[k] != '.',
    ensures
        numbers_from(name, start, i) == numbers_from(name, start, end),
    decreases end - i,
{
    if i < end {
        assert(name[i] != '.');
        lemma_no_point(name, start, i + 1, end);
    }
}

proof fn lemma_number_is_read(n: nat)
    requires
        n <= i32::MAX,
    ensures
        number_of(decimal::padded(n, 1)) == Some(n as int),
        decimal::padded(n, 1).len() > 0,
        forall|k: int| 0 <= k < decimal::padded(n, 1).len() ==> #[trigger] decimal::padded(n, 1)[k] != '.',
{
    let digits = decimal::padded(n, 1);
    decimal::law_padded_stands_for_number(n, 1);
    decimal::lemma_padded_is_some(n, 1);
    assert(chars::is_digit(digits[0]));
    assert forall|k: int| 0 <= k < digits.len() implies #[trigger] digits[k] != '.' by {
        assert(chars::is_digit(digits[k]));
    }
}

proof fn lemma_dotted_is_read(before: Seq<char>, numbers: Seq<nat>)
    requires
        numbers.len() > 0,
        forall|p: int| 0 <= p < numbers.len() ==> (#[trigger] numbers[p]) <= i32::MAX,
    ensures
        numbers_from(before + dotted(numbers), before.len() as int, before.len() as int) == Seq::new(
            numbers.len(),
            |p: int| numbers[p] as int,
        ),
    decreases numbers.len(),
{
    let name = before + dotted(numbers);
    let start = before.len() as int;
    let first = decimal::padded(numbers[0], 1);
    lemma_number_is_read(numbers[0]);
    let end = start + first.len();
    assert forall|k: int| start <= k < end implies #[trigger] name[k] != '.' by {
        assert(name[k] == first[k - start]);
    }
    lemma_no_point(name, start, start, end);
    assert(name.subrange(start, end) =~= first);
    let expected = Seq::new(numbers.len(), |p: int| numbers[p] as int);
    if numbers.len() == 1 {
        assert(end == name.len());
        assert(expected =~= seq![numbers[0] as int]);
    } else {
        let rest = numbers.skip(1);
        let head = before + first + seq!['.'];
        assert(name =~= head + dotted(rest));
        assert(name[end] == '.');
        assert forall|p: int| 0 <= p < rest.len() implies (#[trigger] rest[p]) <= i32::MAX by {
            assert(rest[p] == numbers[p + 1]);
        }
        lemma_dotted_is_read(head, rest);
        assert(seq![numbers[0] as int] + Seq::new(rest.len(), |p: int| rest[p] as int) =~= expected);
    }
}

/// A version is read back from its numbers with points between them.
pub proof fn law_version_is_read_back(numbers: Seq<nat>)
    requires
        numbers.len() > 0,
        forall|p: int| 0 <= p < numbers.len() ==> (#[trigger] numbers[p]) <= i32::MAX,
    ensures
        version_of(dotted(numbers)) == Seq::new(numbers.len(), |p: int| numbers[p] as int),
        is_version_name(dotted(numbers)),
{
    lemma_dotted_is_read(Seq::empty(), numbers);
    assert(Seq::<char>::empty() + dotted(numbers) =~= dotted(numbers));
    let first = decimal::padded(numbers[0], 1);
    lemma_number_is_read(numbers[0]);
    decimal::law_padded_stands_for_number(numbers[0], 1);
    assert(chars::is_digit(first[0]));
    assert(dotted(numbers)[0] == first[0]);
}

} // verus!

//! Small text operations on sequences of characters.
use vstd::prelude::*;
use vstd::string::StrSliceExecFns;
use vstd::string::StringExecFns;

verus! {

/// The characters of a string.
pub fn chars_of(s: &str) -> (v: Vec<char>)
    ensures
        v@ == s@,
{
    let n: usize = s.unicode_len();
    let mut v: Vec<char> = Vec::new();
    let mut i: usize = 0;
    while i < n
        invariant
            n == s@.len(),
            i <= n,
            v@ == s@.take(i as int),
        decreases n - i,
    {
        v.push(s.get_char(i));
        assert(v@ =~= s@.take(i + 1));
        i = i + 1;
    }
    assert(s@.take(n as int) =~= s@);
    v
}

/// Whether two character runs are the same.
pub fn same_chars(a: &Vec<char>, b: &Vec<char>) -> (same: bool)
    ensures
        same == (a@ == b@),
{
    if a.len() != b.len() {
        return false;
    }
    let n: usize = a.len();
    let mut i: usize = 0;
    while i < n
        invariant
            n == a@.len(),
            n == b@.len(),
            forall|j: int| 0 <= j < i ==> a@[j] == b@[j],
        decreases n - i,
    {
        if a[i] != b[i] {
            assert(a@[i as int] != b@[i as int]);
            return false;
        }
        i = i + 1;
    }
    assert(a@ =~= b@);
    true
}

/// Whether a run of characters spells `lit`.
pub fn spells(a: &Vec<char>, lit: &str) -> (same: bool)
    ensures
        same == (a@ == lit@),
{
    let b = chars_of(lit);
    same_chars(a, &b)
}

/// `c` is an ASCII digit.
pub open spec fn is_digit(c: char) -> bool {
    '0' <= c && c <= '9'
}

/// The value of an ASCII digit.
pub open spec fn digit_value(c: char) -> nat {
    (c as u32 - '0' as u32) as nat
}

/// The digit that stands for a value below ten.
pub open spec fn digit(d: nat) -> char {
    if d == 0 {
        '0'
    } else if d == 1 {
        '1'
    } else if d == 2 {
        '2'
    } else if d == 3 {
        '3'
    } else if d == 4 {
        '4'
    } else if d == 5 {
        '5'
    } else if d == 6 {
        '6'
    } else if d == 7 {
        '7'
    } else if d == 8 {
        '8'
    } else {
        '9'
    }
}

/// A number in decimal.
pub open spec fn decimal(n: nat) -> Seq<char>
    decreases n,
{
    if n < 10 {
        seq![digit(n)]
    } else {
        decimal(n / 10).push(digit(n % 10))
    }
}

/// The value of a run of digits.
pub open spec fn value(s: Seq<char>) -> nat
    decreases s.len(),
{
    if s.len() == 0 {
        0
    } else {
        value(s.drop_last()) * 10 + digit_value(s.last())
    }
}

/// Every character is a digit.
pub open spec fn all_digits(s: Seq<char>) -> bool {
    forall|i: int| 0 <= i < s.len() ==> is_digit(#[trigger] s[i])
}

/// The number a text spells: at least one digit, after at most one plus sign.
pub open spec fn number(s: Seq<char>) -> Option<nat> {
    let body = if s.len() > 0 && s[0] == '+' {
        s.skip(1)
    } else {
        s
    };
    if body.len() > 0 && all_digits(body) {
        Some(value(body))
    } else {
        None
    }
}

/// The number a text spells, if it fits.
pub open spec fn number_within(s: Seq<char>, max: nat) -> Option<nat> {
    match number(s) {
        Some(n) => if n <= max {
            Some(n)
        } else {
            None
        },
        None => None,
    }
}

/// A number written out and read back is the same number.
pub proof fn law_decimal_round_trips(n: nat)
    ensures
        number(decimal(n)) == Some(n),
{
    lemma_decimal(n);
    assert(decimal(n)[0] != '+') by {
        assert(is_digit(decimal(n)[0]));
    }
}

proof fn lemma_decimal(n: nat)
    ensures
        decimal(n).len() > 0,
        all_digits(decimal(n)),
        value(decimal(n)) == n,
    decreases n,
{
    if n < 10 {
        assert(decimal(n).drop_last() =~= Seq::empty());
        assert(value(Seq::<char>::empty()) == 0);
        assert(decimal(n).last() == digit(n));
        assert(digit_value(digit(n)) == n);
    } else {
        lemma_decimal(n / 10);
        assert(decimal(n).drop_last() =~= decimal(n / 10));
        assert(decimal(n).last() == digit(n % 10));
        assert(digit_value(digit(n % 10)) == n % 10);
    }
}

/// More digits never make a smaller number.
proof fn lemma_value_grows(s: Seq<char>, i: int)
    requires
        0 <= i <= s.len(),
        all_digits(s),
    ensures
        value(s.take(i)) <= value(s),
    decreases s.len() - i,
{
    if i < s.len() {
        lemma_value_grows(s, i + 1);
        assert(s.take(i + 1).drop_last() =~= s.take(i));
        assert(is_digit(s[i]));
    } else {
        assert(s.take(i) =~= s);
    }
}

/// Read a number of at most 64 bits.
pub fn parse_u64(s: &Vec<char>) -> (r: Option<u64>)
    ensures
        r is Some <==> number_within(s@, u64::MAX as nat) is Some,
        r matches Some(n) ==> number_within(s@, u64::MAX as nat) == Some(n as nat),
{
    let start: usize = if s.len() > 0 && s[0] == '+' {
        1
    } else {
        0
    };
    let n: usize = s.len();
    let ghost body = s@.skip(start as int);
    assert(start == 0 ==> body =~= s@);
    if start == n {
        return None;
    }
    let mut acc: u64 = 0;
    let mut i: usize = start;
    assert(body.take(0) =~= Seq::empty());
    while i < n
        invariant
            start <= i <= n,
            n == s@.len(),
            start < n,
            body == s@.skip(start as int),
            number(s@) == if all_digits(body) {
                Some(value(body))
            } else {
                None::<nat>
            },
            forall|j: int| 0 <= j < i - start ==> is_digit(#[trigger] body[j]),
            acc == value(body.take(i - start)),
        decreases n - i,
    {
        let c: char = s[i];
        assert(body[i - start] == c);
        if c < '0' || c > '9' {
            return None;
        }
        let d: u64 = (c as u32 - '0' as u32) as u64;
        proof {
            let next = body.take(i - start + 1);
            assert(next.drop_last() =~= body.take(i - start));
            assert(next.last() == c);
            assert(value(next) == acc * 10 + d);
            if all_digits(body) {
                lemma_value_grows(body, i - start + 1);
            }
        }
        if acc > 1844674407370955161 || (acc == 1844674407370955161 && d > 5) {
            return None;
        }
        acc = acc * 10 + d;
        i = i + 1;
    }
    assert(body.take(n - start) =~= body);
    Some(acc)
}

/// The length of the run of digits a text starts with.
pub open spec fn lead_len(s: Seq<char>) -> nat
    decreases s.len(),
{
    if s.len() > 0 && is_digit(s[0]) {
        1 + lead_len(s.skip(1))
    } else {
        0
    }
}

/// The number a text starts with, zero if it starts with none, capped at 64 bits.
pub open spec fn leading_number(s: Seq<char>) -> u64 {
    let v = value(s.take(lead_len(s) as int));
    if v <= u64::MAX {
        v as u64
    } else {
        u64::MAX
    }
}

proof fn lemma_lead(s: Seq<char>, i: int)
    requires
        0 <= i <= s.len(),
        all_digits(s.take(i)),
        i < s.len() ==> !is_digit(s[i]),
    ensures
        lead_len(s) == i,
    decreases s.len(),
{
    if i > 0 {
        assert(s.take(i)[0] == s[0]);
        let t = s.skip(1);
        assert forall|j: int| 0 <= j < t.take(i - 1).len() implies is_digit(
            #[trigger] t.take(i - 1)[j],
        ) by {
            assert(s.take(i)[j + 1] == t.take(i - 1)[j]);
        }
        lemma_lead(t, i - 1);
    }
}

/// Read the number the text starts with from `start` on.
pub fn read_leading(s: &Vec<char>, start: usize) -> (n: u64)
    requires
        start <= s@.len(),
    ensures
        n == leading_number(s@.skip(start as int)),
{
    let len: usize = s.len();
    let ghost body = s@.skip(start as int);
    let mut acc: u64 = 0;
    let mut full: bool = false;
    let mut i: usize = start;
    assert(body.take(0) =~= Seq::empty());
    while i < len && s[i] >= '0' && s[i] <= '9'
        invariant
            start <= i <= len,
            len == s@.len(),
            body == s@.skip(start as int),
            all_digits(body.take(i - start)),
            full ==> value(body.take(i - start)) >= u64::MAX && acc == u64::MAX,
            !full ==> acc == value(body.take(i - start)),
        decreases len - i,
    {
        let d: u64 = (s[i] as u32 - '0' as u32) as u64;
        proof {
            let next = body.take(i - start + 1);
            assert(body[i - start] == s@[i as int]);
            assert(next.drop_last() =~= body.take(i - start));
            assert forall|j: int| 0 <= j < next.len() implies is_digit(#[trigger] next[j]) by {
                if j < i - start {
                    assert(next[j] == body.take(i - start)[j]);
                }
            }
        }
        if full {
        } else if acc > 1844674407370955161 || (acc == 1844674407370955161 && d > 5) {
            acc = 0xFFFF_FFFF_FFFF_FFFF;
            full = true;
        } else {
            acc = acc * 10 + d;
        }
        i = i + 1;
    }
    proof {
        if i < len {
            assert(body[i - start] == s@[i as int]);
        }
        lemma_lead(body, i - start);
    }
    acc
}

/// `needle` stands in `hay` at `i`.
pub open spec fn stands_at(hay: Seq<char>, needle: Seq<char>, i: int) -> bool {
    0 <= i && i + needle.len() <= hay.len() && hay.subrange(i, i + needle.len()) == needle
}

/// `needle` first stands in `hay` at `i`.
pub open spec fn first_at(hay: Seq<char>, needle: Seq<char>, i: int) -> bool {
    stands_at(hay, needle, i) && forall|j: int| 0 <= j < i ==> !#[trigger] stands_at(hay, needle, j)
}

/// `needle` stands somewhere in `hay`.
pub open spec fn contains_text(hay: Seq<char>, needle: Seq<char>) -> bool {
    exists|i: int| stands_at(hay, needle, i)
}

/// Whether `needle` stands in `hay` at `i`.
pub fn is_at(hay: &Vec<char>, needle: &Vec<char>, i: usize) -> (b: bool)
    ensures
        b == stands_at(hay@, needle@, i as int),
{
    if i > hay.len() || hay.len() - i < needle.len() {
        return false;
    }
    let n: usize = needle.len();
    let len: usize = hay.len();
    let mut j: usize = 0;
    while j < n
        invariant
            n == needle@.len(),
            len == hay@.len(),
            i + n <= len,
            j <= n,
            forall|m: int| 0 <= m < j ==> hay@[i + m] == needle@[m],
        decreases n - j,
    {
        if hay[i + j] != needle[j] {
            assert(hay@.subrange(i as int, i + needle@.len())[j as int] != needle@[j as int]);
            return false;
        }
        j = j + 1;
    }
    assert(hay@.subrange(i as int, i + needle@.len()) =~= needle@);
    true
}

/// Where `needle` first stands in `hay`.
pub fn find_text(hay: &Vec<char>, needle: &Vec<char>) -> (r: Option<usize>)
    ensures
        r matches Some(i) ==> first_at(hay@, needle@, i as int),
        r is None ==> !contains_text(hay@, needle@),
{
    if hay.len() < needle.len() {
        return None;
    }
    let last: usize = hay.len() - needle.len();
    let mut i: usize = 0;
    while i <= last
        invariant
            last == hay@.len() - needle@.len(),
            i <= last + 1,
            forall|j: int| 0 <= j < i ==> !#[trigger] stands_at(hay@, needle@, j),
        decreases last + 1 - i,
    {
        if is_at(hay, needle, i) {
            return Some(i);
        }
        if i == last {
            proof {
                assert forall|j: int| !stands_at(hay@, needle@, j) by {}
            }
            return None;
        }
        i = i + 1;
    }
    None
}

/// The text cut at every separator.
pub open spec fn segments(s: Seq<char>, sep: char) -> Seq<Seq<char>>
    decreases s.len(),
{
    if s.len() == 0 {
        seq![Seq::empty()]
    } else if s.last() == sep {
        segments(s.drop_last(), sep).push(Seq::empty())
    } else {
        let r = segments(s.drop_last(), sep);
        r.update(r.len() - 1, r.last().push(s.last()))
    }
}

/// The views of a list of character runs.
pub open spec fn runs(v: Seq<Vec<char>>) -> Seq<Seq<char>> {
    v.map_values(|x: Vec<char>| x@)
}

/// Cut a text at every separator.
pub fn split_text(s: &str, sep: char) -> (out: Vec<Vec<char>>)
    ensures
        runs(out@) == segments(s@, sep),
        out@.len() > 0,
{
    let v = chars_of(s);
    let n: usize = v.len();
    let mut done: Vec<Vec<char>> = Vec::new();
    let mut cur: Vec<char> = Vec::new();
    let mut i: usize = 0;
    assert(runs(done@).push(cur@) =~= segments(v@.take(0), sep));
    while i < n
        invariant
            n == v@.len(),
            i <= n,
            runs(done@).push(cur@) == segments(v@.take(i as int), sep),
        decreases n - i,
    {
        let c: char = v[i];
        let ghost before = segments(v@.take(i as int), sep);
        let ghost d0 = done@;
        let ghost c0 = cur@;
        proof {
            assert(v@.take(i + 1).drop_last() =~= v@.take(i as int));
            assert(v@.take(i + 1).last() == c);
        }
        if c == sep {
            done.push(cur);
            cur = Vec::new();
            proof {
                assert(runs(done@) =~= runs(d0).push(c0));
                assert(runs(done@).push(cur@) =~= segments(v@.take(i + 1), sep));
            }
        } else {
            cur.push(c);
            proof {
                assert(before.len() == d0.len() + 1);
                assert(before.last() == c0);
                assert(runs(done@).push(cur@) =~= segments(v@.take(i + 1), sep));
            }
        }
        i = i + 1;
    }
    assert(v@.take(n as int) =~= v@);
    let ghost d = done@;
    let ghost c = cur@;
    done.push(cur);
    assert(runs(done@) =~= runs(d).push(c));
    done
}

/// The character is white space, as Unicode has it.
pub open spec fn is_space(c: char) -> bool {
    ||| 0x9 <= c as u32 <= 0xD
    ||| c as u32 == 0x20
    ||| c as u32 == 0x85
    ||| c as u32 == 0xA0
    ||| c as u32 == 0x1680
    ||| 0x2000 <= c as u32 <= 0x200A
    ||| 0x2028 <= c as u32 <= 0x2029
    ||| c as u32 == 0x202F
    ||| c as u32 == 0x205F
    ||| c as u32 == 0x3000
}

fn space(c: char) -> (b: bool)
    ensures
        b == is_space(c),
{
    let n: u32 = c as u32;
    (0x9 <= n && n <= 0xD) || n == 0x20 || n == 0x85 || n == 0xA0 || n == 0x1680 || (0x2000 <= n
        && n <= 0x200A) || (0x2028 <= n && n <= 0x2029) || n == 0x202F || n == 0x205F || n
        == 0x3000
}

/// The text without the white space at its ends.
pub open spec fn without_spaces(s: Seq<char>) -> Seq<char>
    decreases s.len(),
{
    if s.len() > 0 && is_space(s[0]) {
        without_spaces(s.skip(1))
    } else if s.len() > 0 && is_space(s.last()) {
        without_spaces(s.drop_last())
    } else {
        s
    }
}

/// A text without the white space at its ends.
pub fn trim_spaces(s: &Vec<char>) -> (t: Vec<char>)
    ensures
        t@ == without_spaces(s@),
{
    let n: usize = s.len();
    let mut from: usize = 0;
    assert(s@.subrange(0, n as int) =~= s@);
    while from < n && space(s[from])
        invariant
            from <= n,
            n == s@.len(),
            without_spaces(s@.subrange(from as int, n as int)) == without_spaces(s@),
        decreases n - from,
    {
        assert(s@.subrange(from as int, n as int).skip(1) =~= s@.subrange(from + 1, n as int));
        from = from + 1;
    }
    let mut to: usize = n;
    while to > from && space(s[to - 1])
        invariant
            from <= to <= n,
            n == s@.len(),
            from < to ==> !is_space(s@[from as int]),
            without_spaces(s@.subrange(from as int, to as int)) == without_spaces(s@),
        decreases to - from,
    {
        let ghost rest = s@.subrange(from as int, to as int);
        assert(rest.last() == s@[to - 1]);
        assert(rest[0] == s@[from as int]);
        assert(rest.drop_last() =~= s@.subrange(from as int, to - 1));
        to = to - 1;
    }
    let mut t: Vec<char> = Vec::new();
    let mut i: usize = from;
    while i < to
        invariant
            from <= i <= to <= n,
            n == s@.len(),
            t@ == s@.subrange(from as int, i as int),
        decreases to - i,
    {
        t.push(s[i]);
        i = i + 1;
        assert(t@ =~= s@.subrange(from as int, i as int));
    }
    t
}

/// White space goes from both ends, and only from there: what is left starts and ends with
/// something else, and trimming it again changes nothing.
pub proof fn law_trimming_is_idempotent(s: Seq<char>)
    ensures
        without_spaces(s).len() > 0 ==> !is_space(without_spaces(s)[0]) && !is_space(
            without_spaces(s).last(),
        ),
        without_spaces(without_spaces(s)) == without_spaces(s),
    decreases s.len(),
{
    if s.len() > 0 && is_space(s[0]) {
        law_trimming_is_idempotent(s.skip(1));
    } else if s.len() > 0 && is_space(s.last()) {
        law_trimming_is_idempotent(s.drop_last());
    }
}

/// A text in quotes, with escapes, as `{:?}` shows it.
pub uninterp spec fn quoted(s: Seq<char>) -> Seq<char>;

/// `format!("{:?}")` of a `str`: the text in quotes, with what is special in it escaped.
/// Which characters are escaped, and how, is left to it.
#[verifier::external_body]
pub(crate) fn quote(s: &str) -> (t: String)
    ensures
        t@ == quoted(s@),
{
    format!("{:?}", s)
}

/// `String::push`: appends one character.
pub assume_specification[ String::push ](s: &mut String, c: char)
    ensures
        final(s)@ == old(s)@.push(c),
;

/// A string of the given characters.
pub fn to_text(chars: &Vec<char>) -> (s: String)
    ensures
        s@ == chars@,
{
    let n: usize = chars.len();
    let mut s = String::new();
    let mut i: usize = 0;
    assert(s@ =~= chars@.take(0));
    while i < n
        invariant
            n == chars@.len(),
            i <= n,
            s@ == chars@.take(i as int),
        decreases n - i,
    {
        s.push(chars[i]);
        assert(s@ =~= chars@.take(i + 1));
        i = i + 1;
    }
    assert(chars@.take(n as int) =~= chars@);
    s
}

/// Append one digit.
fn push_digit(out: &mut String, d: u64)
    requires
        d < 10,
    ensures
        final(out)@ == old(out)@.push(digit(d as nat)),
{
    let c: char = if d == 0 {
        '0'
    } else if d == 1 {
        '1'
    } else if d == 2 {
        '2'
    } else if d == 3 {
        '3'
    } else if d == 4 {
        '4'
    } else if d == 5 {
        '5'
    } else if d == 6 {
        '6'
    } else if d == 7 {
        '7'
    } else if d == 8 {
        '8'
    } else {
        '9'
    };
    out.push(c);
}

/// Append a number in decimal.
pub fn push_decimal(out: &mut String, n: u64)
    ensures
        final(out)@ == old(out)@ + decimal(n as nat),
    decreases n,
{
    let ghost o = out@;
    if n >= 10 {
        push_decimal(out, n / 10);
    }
    push_digit(out, n % 10);
    assert(out@ =~= o + decimal(n as nat));
}

/// A text followed by a number in decimal.
pub fn with_number(prefix: &str, n: u64) -> (s: String)
    ensures
        s@ == prefix@ + decimal(n as nat),
{
    let mut s = String::from_str(prefix);
    push_decimal(&mut s, n);
    s
}

/// Three texts, one after the other.
pub fn join3(a: &str, b: &str, c: &str) -> (s: String)
    ensures
        s@ == a@ + b@ + c@,
{
    let mut s = String::from_str(a);
    s.append(b);
    s.append(c);
    s
}

/// The text with every `from`, left to right and apart, replaced by `to`.
pub open spec fn replaced(s: Seq<char>, from: Seq<char>, to: Seq<char>) -> Seq<char>
    decreases s.len(),
{
    if from.len() == 0 || s.len() < from.len() {
        s
    } else if stands_at(s, from, 0) {
        to + replaced(s.skip(from.len() as int), from, to)
    } else {
        seq![s[0]] + replaced(s.skip(1), from, to)
    }
}

/// Replace every `from` by `to`.
pub fn replace_all(s: &Vec<char>, from: &Vec<char>, to: &Vec<char>) -> (out: Vec<char>)
    ensures
        out@ == replaced(s@, from@, to@),
{
    let n: usize = s.len();
    let m: usize = from.len();
    let mut out: Vec<char> = Vec::new();
    let mut i: usize = 0;
    assert(s@.skip(0) =~= s@);
    assert(out@ + replaced(s@, from@, to@) =~= replaced(s@, from@, to@));
    while m > 0 && n - i >= m
        invariant
            n == s@.len(),
            m == from@.len(),
            i <= n,
            out@ + replaced(s@.skip(i as int), from@, to@) == replaced(s@, from@, to@),
        decreases n - i,
    {
        let ghost rest = s@.skip(i as int);
        let ghost before = out@;
        if is_at(s, from, i) {
            proof {
                assert(rest.subrange(0, m as int) =~= s@.subrange(i as int, i + m));
                assert(rest.skip(m as int) =~= s@.skip(i + m));
            }
            let k: usize = to.len();
            let mut j: usize = 0;
            assert(to@.take(0) =~= Seq::empty());
            assert(out@ =~= before + to@.take(0));
            while j < k
                invariant
                    k == to@.len(),
                    j <= k,
                    out@ == before + to@.take(j as int),
                decreases k - j,
            {
                out.push(to[j]);
                assert(out@ =~= before + to@.take(j + 1));
                j = j + 1;
            }
            assert(to@.take(k as int) =~= to@);
            i = i + m;
            assert(out@ + replaced(s@.skip(i as int), from@, to@) =~= before + replaced(
                rest,
                from@,
                to@,
            ));
        } else {
            proof {
                assert(!stands_at(rest, from@, 0)) by {
                    assert(rest.subrange(0, m as int) =~= s@.subrange(i as int, i + m));
                }
                assert(rest.skip(1) =~= s@.skip(i + 1));
            }
            out.push(s[i]);
            i = i + 1;
            assert(out@ + replaced(s@.skip(i as int), from@, to@) =~= before + replaced(
                rest,
                from@,
                to@,
            ));
        }
    }
    let ghost rest = s@.skip(i as int);
    let ghost before = out@;
    let ghost at = i as int;
    while i < n
        invariant
            n == s@.len(),
            0 <= at <= i <= n,
            rest == s@.skip(at),
            out@ == before + rest.take(i - at),
        decreases n - i,
    {
        out.push(s[i]);
        assert(out@ =~= before + rest.take(i + 1 - at));
        i = i + 1;
    }
    assert(rest.take(n - at) =~= rest);
    out
}

/// The text without the suffix, however often it ends with it.
pub open spec fn trimmed(s: Seq<char>, suffix: Seq<char>) -> Seq<char>
    decreases s.len(),
{
    if suffix.len() > 0 && stands_at(s, suffix, s.len() - suffix.len()) {
        trimmed(s.take(s.len() - suffix.len()), suffix)
    } else {
        s
    }
}

/// How much of the text is left without the suffix.
pub fn trim_end(s: &Vec<char>, suffix: &Vec<char>) -> (len: usize)
    ensures
        len <= s@.len(),
        s@.take(len as int) == trimmed(s@, suffix@),
{
    let m: usize = suffix.len();
    let mut len: usize = s.len();
    assert(s@.take(len as int) =~= s@);
    while m > 0 && len >= m && is_at_within(s, suffix, len - m, len)
        invariant
            m == suffix@.len(),
            len <= s@.len(),
            trimmed(s@.take(len as int), suffix@) == trimmed(s@, suffix@),
        decreases len,
    {
        assert(s@.take(len as int).take(len - m) =~= s@.take(len - m));
        len = len - m;
    }
    len
}

/// Whether the text up to `end` holds `needle` at `i`.
fn is_at_within(s: &Vec<char>, needle: &Vec<char>, i: usize, end: usize) -> (b: bool)
    requires
        i + needle@.len() == end,
        end <= s@.len(),
    ensures
        b == stands_at(s@.take(end as int), needle@, i as int),
{
    let b = is_at(s, needle, i);
    assert(s@.take(end as int).subrange(i as int, end as int) =~= s@.subrange(
        i as int,
        end as int,
    ));
    b
}

/// The first text comes before the second, character by character.
pub open spec fn text_lt(a: Seq<char>, b: Seq<char>) -> bool
    decreases a.len(),
{
    if b.len() == 0 {
        false
    } else if a.len() == 0 {
        true
    } else if a[0] != b[0] {
        a[0] < b[0]
    } else {
        text_lt(a.skip(1), b.skip(1))
    }
}

/// Whether the first text comes before the second.
pub fn comes_before(a: &Vec<char>, b: &Vec<char>) -> (lt: bool)
    ensures
        lt == text_lt(a@, b@),
{
    let n: usize = a.len();
    let m: usize = b.len();
    let mut i: usize = 0;
    assert(a@.skip(0) =~= a@);
    assert(b@.skip(0) =~= b@);
    while i < n && i < m
        invariant
            n == a@.len(),
            m == b@.len(),
            i <= n,
            i <= m,
            text_lt(a@.skip(i as int), b@.skip(i as int)) == text_lt(a@, b@),
        decreases n - i,
    {
        if a[i] != b[i] {
            return a[i] < b[i];
        }
        proof {
            assert(a@.skip(i as int).skip(1) =~= a@.skip(i + 1));
            assert(b@.skip(i as int).skip(1) =~= b@.skip(i + 1));
        }
        i = i + 1;
    }
    i < m
}

/// No text comes before itself.
pub proof fn lemma_lt_irreflexive(a: Seq<char>)
    ensures
        !text_lt(a, a),
    decreases a.len(),
{
    if a.len() > 0 {
        lemma_lt_irreflexive(a.skip(1));
    }
}

/// Coming before is transitive.
pub proof fn lemma_lt_transitive(a: Seq<char>, b: Seq<char>, c: Seq<char>)
    requires
        text_lt(a, b),
        text_lt(b, c),
    ensures
        text_lt(a, c),
    decreases a.len(),
{
    if a.len() > 0 && b.len() > 0 && c.len() > 0 && a[0] == b[0] && b[0] == c[0] {
        lemma_lt_transitive(a.skip(1), b.skip(1), c.skip(1));
    }
}

/// Of two texts one comes first, unless they are the same.
pub proof fn lemma_lt_total(a: Seq<char>, b: Seq<char>)
    ensures
        text_lt(a, b) || text_lt(b, a) || a == b,
    decreases a.len(),
{
    if a.len() > 0 && b.len() > 0 && a[0] == b[0] {
        lemma_lt_total(a.skip(1), b.skip(1));
        if a.skip(1) == b.skip(1) {
            assert(a =~= seq![a[0]] + a.skip(1));
            assert(b =~= seq![b[0]] + b.skip(1));
        }
    } else if a.len() == 0 && b.len() == 0 {
        assert(a =~= b);
    }
}

} // verus!

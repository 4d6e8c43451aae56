//! Text handling for concept records: trimming, splitting the dependency
//! field, and writing numbers and lists in diagnostics.

use itertools::Itertools;
use vstd::prelude::*;
use vstd::string::*;

verus! {

/// Whether `c` is white space: a code point with the Unicode property
/// `White_Space`.
pub open spec fn is_space(c: char) -> bool {
    let u = c as u32;
    ||| 0x09 <= u <= 0x0d
    ||| u == 0x20
    ||| u == 0x85
    ||| u == 0xa0
    ||| u == 0x1680
    ||| 0x2000 <= u <= 0x200a
    ||| u == 0x2028
    ||| u == 0x2029
    ||| u == 0x202f
    ||| u == 0x205f
    ||| u == 0x3000
}

/// `s` without its leading white space.
pub open spec fn trim_start(s: Seq<char>) -> Seq<char>
    decreases s.len(),
{
    if s.len() > 0 && is_space(s.first()) {
        trim_start(s.drop_first())
    } else {
        s
    }
}

/// `s` without its trailing white space.
pub open spec fn trim_end(s: Seq<char>) -> Seq<char>
    decreases s.len(),
{
    if s.len() > 0 && is_space(s.last()) {
        trim_end(s.drop_last())
    } else {
        s
    }
}

/// `s` without leading and trailing white space.
pub open spec fn trimmed(s: Seq<char>) -> Seq<char> {
    trim_end(trim_start(s))
}

/// Tests a character for white space.
pub fn is_whitespace(c: char) -> (b: bool)
    ensures
        b == is_space(c),
{
    let u: u32 = c as u32;
    (0x09 <= u && u <= 0x0d) || u == 0x20 || u == 0x85 || u == 0xa0 || u == 0x1680 || (0x2000 <= u
        && u <= 0x200a) || u == 0x2028 || u == 0x2029 || u == 0x202f || u == 0x205f || u == 0x3000
}

/// Dropping leading white space from a suffix that starts inside the leading
/// white space of `s` gives what dropping it from `s` gives.
proof fn lemma_trim_start_skip(s: Seq<char>, a: int)
    requires
        0 <= a <= s.len(),
        forall|i: int| 0 <= i < a ==> is_space(#[trigger] s[i]),
    ensures
        trim_start(s) == trim_start(s.skip(a)),
    decreases a,
{
    if a == 0 {
        assert(s.skip(0) =~= s);
    } else {
        assert(is_space(s[0]));
        lemma_trim_start_skip(s.drop_first(), a - 1);
        assert(s.drop_first().skip(a - 1) =~= s.skip(a));
    }
}

/// Dropping trailing white space from a prefix that ends inside the trailing
/// white space of `s` gives what dropping it from `s` gives.
proof fn lemma_trim_end_take(s: Seq<char>, b: int)
    requires
        0 <= b <= s.len(),
        forall|i: int| b <= i < s.len() ==> is_space(#[trigger] s[i]),
    ensures
        trim_end(s) == trim_end(s.take(b)),
    decreases s.len() - b,
{
    if b == s.len() {
        assert(s.take(b) =~= s);
    } else {
        assert(is_space(s[s.len() - 1]));
        lemma_trim_end_take(s.drop_last(), b);
        assert(s.drop_last().take(b) =~= s.take(b));
    }
}

/// Removes leading and trailing white space.
pub fn trim(s: &str) -> (r: String)
    ensures
        r@ == trimmed(s@),
{
    let n = s.unicode_len();
    let mut a: usize = 0;
    while a < n && is_whitespace(s.get_char(a))
        invariant
            a <= n,
            n == s@.len(),
            forall|i: int| 0 <= i < a ==> is_space(#[trigger] s@[i]),
        decreases n - a,
    {
        a += 1;
    }
    let mut b: usize = n;
    while b > a && is_whitespace(s.get_char(b - 1))
        invariant
            a <= b <= n,
            n == s@.len(),
            forall|i: int| b <= i < n ==> is_space(#[trigger] s@[i]),
        decreases b,
    {
        b -= 1;
    }
    proof {
        let rest = s@.skip(a as int);
        lemma_trim_start_skip(s@, a as int);
        assert(trim_start(s@) == rest) by {
            if rest.len() > 0 {
                assert(rest.first() == s@[a as int]);
            }
        }
        let kept = rest.take(b - a);
        assert forall|i: int| b - a <= i < rest.len() implies is_space(#[trigger] rest[i]) by {
            assert(rest[i] == s@[a + i]);
        }
        lemma_trim_end_take(rest, b - a);
        assert(trim_end(rest) == kept) by {
            if kept.len() > 0 {
                assert(kept.last() == s@[b - 1]);
            }
        }
        assert(kept =~= s@.subrange(a as int, b as int));
    }
    s.substring_char(a, b).to_owned()
}

/// The texts that a vector of strings holds, in order.
pub open spec fn texts(v: Seq<String>) -> Seq<Seq<char>> {
    Seq::new(v.len(), |i: int| v[i]@)
}

/// The pieces of `s` between occurrences of `sep`: one more piece than there
/// are separators, empty pieces included.
pub open spec fn split_on(s: Seq<char>, sep: char) -> Seq<Seq<char>>
    decreases s.len(),
{
    if s.len() == 0 {
        seq![Seq::empty()]
    } else {
        let before = split_on(s.drop_last(), sep);
        if s.last() == sep {
            before.push(Seq::empty())
        } else {
            before.drop_last().push(before.last().push(s.last()))
        }
    }
}

/// Each token trimmed, and those that are empty after trimming left out.
pub open spec fn named_tokens(tokens: Seq<Seq<char>>) -> Seq<Seq<char>>
    decreases tokens.len(),
{
    if tokens.len() == 0 {
        Seq::empty()
    } else {
        let before = named_tokens(tokens.drop_last());
        let name = trimmed(tokens.last());
        if name.len() == 0 {
            before
        } else {
            before.push(name)
        }
    }
}

/// The dependency names that a record's dependency field lists: the field
/// split on `;`, each piece trimmed, empty pieces dropped.
pub open spec fn dependency_names(field: Seq<char>) -> Seq<Seq<char>> {
    named_tokens(split_on(field, ';'))
}

/// Splits `s` at every occurrence of `sep`.
pub fn split(s: &str, sep: char) -> (r: Vec<String>)
    ensures
        texts(r@) == split_on(s@, sep),
{
    let n = s.unicode_len();
    let mut out: Vec<String> = Vec::new();
    let mut start: usize = 0;
    let mut i: usize = 0;
    assert(s@.take(0) =~= Seq::empty());
    assert(texts(out@).push(s@.subrange(0, 0)) =~= seq![Seq::empty()]);
    while i < n
        invariant
            start <= i <= n,
            n == s@.len(),
            split_on(s@.take(i as int), sep) == texts(out@).push(
                s@.subrange(start as int, i as int),
            ),
        decreases n - i,
    {
        let ghost prefix = s@.take(i + 1);
        let ghost done = texts(out@);
        let ghost open = s@.subrange(start as int, i as int);
        assert(prefix.drop_last() =~= s@.take(i as int));
        assert(prefix.last() == s@[i as int]);
        assert(done.push(open).drop_last() =~= done);
        if s.get_char(i) == sep {
            out.push(s.substring_char(start, i).to_owned());
            start = i + 1;
            assert(texts(out@) =~= done.push(open));
            assert(s@.subrange(start as int, i + 1) =~= Seq::empty());
        } else {
            assert(s@.subrange(start as int, i + 1) =~= open.push(s@[i as int]));
        }
        i += 1;
    }
    assert(s@.take(n as int) =~= s@);
    let ghost done = texts(out@);
    out.push(s.substring_char(start, n).to_owned());
    assert(texts(out@) =~= done.push(s@.subrange(start as int, n as int)));
    out
}

/// Reads the dependency names out of a record's dependency field.
pub fn split_dependencies(field: &str) -> (r: Vec<String>)
    ensures
        texts(r@) == dependency_names(field@),
{
    let tokens = split(field, ';');
    let mut out: Vec<String> = Vec::new();
    let mut k: usize = 0;
    assert(texts(tokens@).take(0) =~= Seq::empty());
    assert(texts(out@) =~= Seq::empty());
    while k < tokens.len()
        invariant
            k <= tokens.len(),
            texts(out@) == named_tokens(texts(tokens@).take(k as int)),
        decreases tokens.len() - k,
    {
        let ghost done = texts(out@);
        let ghost seen = texts(tokens@).take(k + 1);
        assert(seen.drop_last() =~= texts(tokens@).take(k as int));
        assert(seen.last() == tokens@[k as int]@);
        let name = trim(tokens[k].as_str());
        if name.as_str().unicode_len() > 0 {
            out.push(name);
            assert(texts(out@) =~= done.push(trimmed(tokens@[k as int]@)));
        }
        k += 1;
    }
    assert(texts(tokens@).take(tokens.len() as int) =~= texts(tokens@));
    out
}

/// Finds `key` in `list`: the first place that holds its text.
pub fn find_text(list: &Vec<String>, key: &String) -> (r: Option<usize>)
    ensures
        match r {
            Some(i) => i < list.len() && list[i as int]@ == key@,
            None => !texts(list@).contains(key@),
        },
{
    let mut i: usize = 0;
    while i < list.len()
        invariant
            i <= list.len(),
            forall|j: int| 0 <= j < i ==> (#[trigger] list[j])@ != key@,
        decreases list.len() - i,
    {
        if list[i] == *key {
            return Some(i);
        }
        i += 1;
    }
    assert forall|j: int| 0 <= j < texts(list@).len() implies texts(list@)[j] != key@ by {
        assert(list[j]@ != key@);
    }
    None
}

/// The character for a decimal digit.
pub open spec fn digit(d: nat) -> char {
    if d == 0 {
        '0'
    } else if d == 1 {
        '1'
    } else if d == 2 {
        '2'
    } else if d == 3 {
        '3'
    } else if d == 4 {
        '4'
    } else if d == 5 {
        '5'
    } else if d == 6 {
        '6'
    } else if d == 7 {
        '7'
    } else if d == 8 {
        '8'
    } else {
        '9'
    }
}

/// `n` written in decimal, without leading zeros.
pub open spec fn decimal(n: nat) -> Seq<char>
    decreases n,
{
    if n < 10 {
        seq![digit(n)]
    } else {
        decimal(n / 10).push(digit(n % 10))
    }
}

/// The one-character text of a decimal digit.
fn digit_text(d: usize) -> (r: &'static str)
    requires
        d < 10,
    ensures
        r@ == seq![digit(d as nat)],
{
    proof {
        reveal_strlit("0");
        reveal_strlit("1");
        reveal_strlit("2");
        reveal_strlit("3");
        reveal_strlit("4");
        reveal_strlit("5");
        reveal_strlit("6");
        reveal_strlit("7");
        reveal_strlit("8");
        reveal_strlit("9");
    }
    let r = if d == 0 {
        "0"
    } else if d == 1 {
        "1"
    } else if d == 2 {
        "2"
    } else if d == 3 {
        "3"
    } else if d == 4 {
        "4"
    } else if d == 5 {
        "5"
    } else if d == 6 {
        "6"
    } else if d == 7 {
        "7"
    } else if d == 8 {
        "8"
    } else {
        "9"
    };
    assert(r@ =~= seq![digit(d as nat)]);
    r
}

/// Writes `n` in decimal.
pub fn decimal_text(n: usize) -> (r: String)
    ensures
        r@ == decimal(n as nat),
    decreases n,
{
    if n < 10 {
        digit_text(n).to_owned()
    } else {
        let mut r = decimal_text(n / 10);
        r.append(digit_text(n % 10));
        assert(r@ =~= decimal((n / 10) as nat).push(digit((n % 10) as nat)));
        r
    }
}

/// `parts` written one after another with `sep` between each two.
pub open spec fn joined(parts: Seq<Seq<char>>, sep: Seq<char>) -> Seq<char>
    decreases parts.len(),
{
    if parts.len() == 0 {
        Seq::empty()
    } else if parts.len() == 1 {
        parts[0]
    } else {
        joined(parts.drop_last(), sep) + sep + parts.last()
    }
}

/// `Itertools::join` over the strings of `parts`: every string as it stands,
/// in order, with `sep` between each two, and the empty string for no parts.
/// The call sizes its buffer as the separator's length in bytes times the
/// number of parts that follow the first, so that product has to be a valid
/// capacity.
#[verifier::external_body]
pub(crate) fn join(parts: &Vec<String>, sep: &str) -> (r: String)
    requires
        sep.len() * parts.len() <= isize::MAX,
    ensures
        r@ == joined(texts(parts@), sep@),
{
    parts.iter().join(sep)
}

} // verus!

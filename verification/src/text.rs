//! Source text: the few forms of text that generated code is put together from.

use vstd::prelude::*;
use vstd::string::StringExecFns;

verus! {

/// The text of each string of `strings`.
pub open spec fn texts(strings: Seq<String>) -> Seq<Seq<char>> {
    strings.map_values(|s: String| s@)
}

/// The decimal digit `d`, for `d < 10`.
pub open spec fn digit(d: nat) -> Seq<char> {
    if d == 0 {
        "0"@
    } else if d == 1 {
        "1"@
    } else if d == 2 {
        "2"@
    } else if d == 3 {
        "3"@
    } else if d == 4 {
        "4"@
    } else if d == 5 {
        "5"@
    } else if d == 6 {
        "6"@
    } else if d == 7 {
        "7"@
    } else if d == 8 {
        "8"@
    } else {
        "9"@
    }
}

/// `n` in decimal, without leading zeros.
pub open spec fn decimal(n: nat) -> Seq<char>
    decreases n,
{
    if n < 10 {
        digit(n)
    } else {
        decimal(n / 10) + digit(n % 10)
    }
}

/// The name of the variable with number `n`: `v0`, `v1`, and so on.
pub open spec fn variable_name(n: nat) -> Seq<char> {
    "v"@ + decimal(n)
}

/// `parts`, each followed by `end`.
pub open spec fn terminated(parts: Seq<Seq<char>>, end: Seq<char>) -> Seq<char>
    decreases parts.len(),
{
    if parts.len() == 0 {
        Seq::empty()
    } else {
        terminated(parts.drop_last(), end) + parts.last() + end
    }
}

/// `parts` with `separator` between each two of them.
pub open spec fn separated(parts: Seq<Seq<char>>, separator: Seq<char>) -> Seq<char>
    decreases parts.len(),
{
    if parts.len() == 0 {
        Seq::empty()
    } else if parts.len() == 1 {
        parts[0]
    } else {
        separated(parts.drop_last(), separator) + separator + parts.last()
    }
}

/// `name::segment::segment`, for each of `segments`.
pub open spec fn qualified(name: Seq<char>, segments: Seq<Seq<char>>) -> Seq<char>
    decreases segments.len(),
{
    if segments.len() == 0 {
        name
    } else {
        qualified(name, segments.drop_last()) + "::"@ + segments.last()
    }
}

fn digit_text(d: usize) -> (text: &'static str)
    requires
        d < 10,
    ensures
        text@ == digit(d as nat),
{
    if d == 0 {
        "0"
    } else if d == 1 {
        "1"
    } else if d == 2 {
        "2"
    } else if d == 3 {
        "3"
    } else if d == 4 {
        "4"
    } else if d == 5 {
        "5"
    } else if d == 6 {
        "6"
    } else if d == 7 {
        "7"
    } else if d == 8 {
        "8"
    } else {
        "9"
    }
}

/// Appends `n` in decimal to `out`.
pub fn push_decimal(out: &mut String, n: usize)
    ensures
        final(out)@ == old(out)@ + decimal(n as nat),
    decreases n,
{
    if n < 10 {
        out.append(digit_text(n));
    } else {
        push_decimal(out, n / 10);
        out.append(digit_text(n % 10));
        assert(final(out)@ == old(out)@ + decimal(n as nat)) by {
            assert(old(out)@ + decimal((n / 10) as nat) + digit((n % 10) as nat) == old(out)@ + (
            decimal((n / 10) as nat) + digit((n % 10) as nat)));
        }
    }
}

/// The name of the variable with number `n`.
pub fn variable(n: usize) -> (name: String)
    ensures
        name@ == variable_name(n as nat),
{
    let mut name = String::from_str("v");
    push_decimal(&mut name, n);
    name
}

/// Appends to `out` each of `parts`, followed by `end`.
pub fn push_terminated(out: &mut String, parts: &Vec<String>, end: &str)
    ensures
        final(out)@ == old(out)@ + terminated(texts(parts@), end@),
{
    let mut i: usize = 0;
    while i < parts.len()
        invariant
            i <= parts.len(),
            out@ == old(out)@ + terminated(texts(parts@).take(i as int), end@),
        decreases parts.len() - i,
    {
        proof {
            let next = texts(parts@).take(i + 1);
            assert(next.drop_last() == texts(parts@).take(i as int));
            assert(next.last() == parts@[i as int]@);
            assert(old(out)@ + terminated(next.drop_last(), end@) + next.last() + end@ == old(
                out,
            )@ + (terminated(next.drop_last(), end@) + next.last() + end@));
        }
        out.append(parts[i].as_str());
        out.append(end);
        i = i + 1;
    }
    proof {
        assert(texts(parts@).take(parts.len() as int) == texts(parts@));
    }
}

/// Appends to `out` the `parts`, with `separator` between each two of them.
pub fn push_separated(out: &mut String, parts: &Vec<String>, separator: &str)
    ensures
        final(out)@ == old(out)@ + separated(texts(parts@), separator@),
{
    let mut i: usize = 0;
    while i < parts.len()
        invariant
            i <= parts.len(),
            out@ == old(out)@ + separated(texts(parts@).take(i as int), separator@),
        decreases parts.len() - i,
    {
        proof {
            let next = texts(parts@).take(i + 1);
            assert(next.drop_last() == texts(parts@).take(i as int));
            assert(next.last() == parts@[i as int]@);
            if i > 0 {
                assert(old(out)@ + separated(next.drop_last(), separator@) + separator@
                    + next.last() == old(out)@ + (separated(next.drop_last(), separator@)
                    + separator@ + next.last()));
            } else {
                assert(separated(next.drop_last(), separator@) == Seq::<char>::empty());
                assert(old(out)@ + Seq::<char>::empty() == old(out)@);
            }
        }
        if i > 0 {
            out.append(separator);
        }
        out.append(parts[i].as_str());
        i = i + 1;
    }
    proof {
        assert(texts(parts@).take(parts.len() as int) == texts(parts@));
        if parts.len() == 0 {
            assert(old(out)@ + Seq::<char>::empty() == old(out)@);
        }
    }
}

/// Appends to `out` the path `name::segment::segment`.
pub fn push_qualified(out: &mut String, name: &str, segments: &Vec<String>)
    ensures
        final(out)@ == old(out)@ + qualified(name@, texts(segments@)),
{
    out.append(name);
    let mut i: usize = 0;
    while i < segments.len()
        invariant
            i <= segments.len(),
            out@ == old(out)@ + qualified(name@, texts(segments@).take(i as int)),
        decreases segments.len() - i,
    {
        proof {
            let next = texts(segments@).take(i + 1);
            assert(next.drop_last() == texts(segments@).take(i as int));
            assert(next.last() == segments@[i as int]@);
            assert(old(out)@ + qualified(name@, next.drop_last()) + "::"@ + next.last() == old(
                out,
            )@ + (qualified(name@, next.drop_last()) + "::"@ + next.last()));
        }
        out.append("::");
        out.append(segments[i].as_str());
        i = i + 1;
    }
    proof {
        assert(texts(segments@).take(segments.len() as int) == texts(segments@));
    }
}

/// Whether two lists of strings hold the same texts.
pub fn same_texts(left: &Vec<String>, right: &Vec<String>) -> (same: bool)
    ensures
        same == (texts(left@) == texts(right@)),
{
    if left.len() != right.len() {
        proof {
            assert(texts(left@).len() != texts(right@).len());
        }
        return false;
    }
    let mut i: usize = 0;
    while i < left.len()
        invariant
            i <= left.len(),
            left.len() == right.len(),
            forall|k: int| 0 <= k < i ==> left@[k]@ == right@[k]@,
        decreases left.len() - i,
    {
        if left[i] != right[i] {
            proof {
                assert(texts(left@)[i as int] != texts(right@)[i as int]);
            }
            return false;
        }
        i = i + 1;
    }
    proof {
        assert(texts(left@) =~= texts(right@));
    }
    true
}

/// A digit is one character, and different digits are different characters.
pub proof fn lemma_digits(a: nat, b: nat)
    requires
        a < 10,
        b < 10,
    ensures
        digit(a).len() == 1,
        digit(a) == digit(b) ==> a == b,
{
    reveal_strlit("0");
    reveal_strlit("1");
    reveal_strlit("2");
    reveal_strlit("3");
    reveal_strlit("4");
    reveal_strlit("5");
    reveal_strlit("6");
    reveal_strlit("7");
    reveal_strlit("8");
    reveal_strlit("9");
    if digit(a) == digit(b) {
        assert(digit(a)[0] == digit(b)[0]);
    }
}

/// A number has at least one digit, and as many digits as its tenth and one
/// more where it has more than one.
pub proof fn lemma_decimal_len(n: nat)
    ensures
        decimal(n).len() >= 1,
        n >= 10 ==> decimal(n).len() == decimal(n / 10).len() + 1,
    decreases n,
{
    lemma_digits(n % 10, 0);
    if n >= 10 {
        lemma_decimal_len(n / 10);
    }
}

/// Different numbers are written differently.
pub proof fn lemma_decimal_is_injective(a: nat, b: nat)
    ensures
        decimal(a) == decimal(b) ==> a == b,
    decreases a,
{
    if decimal(a) == decimal(b) {
        lemma_decimal_len(a);
        lemma_decimal_len(b);
        if a < 10 && b < 10 {
            lemma_digits(a, b);
        } else if a >= 10 && b >= 10 {
            let left = decimal(a / 10);
            let right = decimal(b / 10);
            lemma_digits(a % 10, b % 10);
            assert(decimal(a) == left + digit(a % 10));
            assert(decimal(b) == right + digit(b % 10));
            assert(decimal(a).last() == digit(a % 10)[0]);
            assert(decimal(b).last() == digit(b % 10)[0]);
            assert(digit(a % 10) =~= digit(b % 10));
            assert(decimal(a).drop_last() =~= left);
            assert(decimal(b).drop_last() =~= right);
            lemma_decimal_is_injective(a / 10, b / 10);
            assert(a / 10 == b / 10);
            assert(a % 10 == b % 10);
            assert(a == 10 * (a / 10) + a % 10);
            assert(b == 10 * (b / 10) + b % 10);
        } else if a < 10 {
            lemma_digits(a, 0);
            lemma_decimal_len(b / 10);
            assert(decimal(a).len() == 1);
            assert(decimal(b).len() >= 2);
        } else {
            lemma_digits(b, 0);
            lemma_decimal_len(a / 10);
            assert(decimal(b).len() == 1);
            assert(decimal(a).len() >= 2);
        }
    }
}

/// The names of the variables do not collide: variables with different
/// numbers have different names.
pub proof fn lemma_variable_names_are_distinct(a: nat, b: nat)
    ensures
        variable_name(a) == variable_name(b) ==> a == b,
{
    if variable_name(a) == variable_name(b) {
        reveal_strlit("v");
        assert(variable_name(a).subrange(1, variable_name(a).len() as int) =~= decimal(a));
        assert(variable_name(b).subrange(1, variable_name(b).len() as int) =~= decimal(b));
        lemma_decimal_is_injective(a, b);
    }
}

} // verus!

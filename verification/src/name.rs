//! Environment-variable names: upper-cased path segments joined by a double
//! underscore.

use vstd::prelude::*;

verus! {

/// The ASCII upper-case form of a character: `a`..`z` map to `A`..`Z`, every
/// other character is unchanged.
pub open spec fn upper_char(c: char) -> char {
    if 'a' <= c && c <= 'z' {
        ((c as u32) - 32) as char
    } else {
        c
    }
}

/// The ASCII upper-case form of a text, character by character.
pub open spec fn upper(text: Seq<char>) -> Seq<char> {
    Seq::new(text.len(), |i: int| upper_char(text[i]))
}

/// The separator that stands between two segments of a name.
pub open spec fn separator() -> Seq<char> {
    seq!['_', '_']
}

/// The name of a key path: each segment upper-cased on its own, with the
/// separator strictly between consecutive segments.
pub open spec fn join_upper(path: Seq<Seq<char>>) -> Seq<char>
    decreases path.len(),
{
    if path.len() == 0 {
        Seq::empty()
    } else if path.len() == 1 {
        upper(path[0])
    } else {
        join_upper(path.drop_last()) + separator() + upper(path.last())
    }
}

/// The character that writes the digit `d`.
pub open spec fn digit_char(d: nat) -> char {
    (('0' as u32) + d) as char
}

/// The decimal text of a natural number, without leading zeros.
pub open spec fn decimal(n: nat) -> Seq<char>
    decreases n,
{
    if n < 10 {
        seq![digit_char(n)]
    } else {
        decimal(n / 10).push(digit_char(n % 10))
    }
}

/// The characters an environment-variable name is made of: `A`..`Z`, `0`..`9`
/// and the underscore.
pub open spec fn is_name_char(c: char) -> bool {
    ('A' <= c && c <= 'Z') || ('0' <= c && c <= '9') || c == '_'
}

/// The characters of a key that upper-casing turns into name characters: the
/// name characters themselves and `a`..`z`.
pub open spec fn is_key_char(c: char) -> bool {
    is_name_char(c) || ('a' <= c && c <= 'z')
}

/// A well-formed name: not empty, and made of name characters only.
pub open spec fn is_env_name(name: Seq<char>) -> bool {
    name.len() > 0 && forall|i: int| 0 <= i < name.len() ==> is_name_char(#[trigger] name[i])
}

/// A key that yields a well-formed name segment: not empty, and made of key
/// characters only.
pub open spec fn is_plain_key(key: Seq<char>) -> bool {
    key.len() > 0 && forall|i: int| 0 <= i < key.len() ==> is_key_char(#[trigger] key[i])
}

/// Every segment of the path is a plain key.
pub open spec fn is_plain_path(path: Seq<Seq<char>>) -> bool {
    forall|i: int| 0 <= i < path.len() ==> is_plain_key(#[trigger] path[i])
}

/// What stands in a name before the segment that follows `path`: nothing for
/// the empty path, else the name of `path` and one separator.
pub open spec fn name_prefix(path: Seq<Seq<char>>) -> Seq<char> {
    if path.len() == 0 {
        Seq::empty()
    } else {
        join_upper(path) + separator()
    }
}

/// `name` is `base` itself, or `base` followed by a separator and more: the
/// name of a path that begins with the path of `base`.
pub open spec fn extends_name(name: Seq<char>, base: Seq<char>) -> bool {
    name == base || (base + separator()).is_prefix_of(name)
}

/// The number that a text of digits writes, read from the left.
pub open spec fn decimal_value(digits: Seq<char>) -> nat
    decreases digits.len(),
{
    if digits.len() == 0 {
        0
    } else {
        (10 * decimal_value(digits.drop_last()) + (digits.last() as u32 - '0' as u32)) as nat
    }
}

/// Appending a segment to a path appends it, upper-cased, to the name, after
/// a separator unless it is the first segment.
pub proof fn lemma_join_push(path: Seq<Seq<char>>, segment: Seq<char>)
    ensures
        join_upper(path.push(segment)) == name_prefix(path) + upper(segment),
{
    let extended = path.push(segment);
    assert(extended.drop_last() =~= path);
    assert(extended.last() == segment);
    if path.len() == 0 {
        assert(extended[0] == segment);
        assert(join_upper(extended) =~= name_prefix(path) + upper(segment));
    }
}

/// A name is cut between any two of its segments by exactly one separator:
/// the name of the whole path is the name of the first `k` segments, the
/// separator, and the name of the remaining segments. Nothing stands before
/// the first segment or after the last.
pub proof fn law_join_split(path: Seq<Seq<char>>, k: int)
    requires
        0 < k < path.len(),
    ensures
        join_upper(path) == join_upper(path.take(k)) + separator() + join_upper(path.skip(k)),
    decreases path.len(),
{
    let front = path.drop_last();
    let tail = path.skip(k);
    if k == path.len() - 1 {
        assert(path.take(k) =~= front);
        assert(tail.len() == 1);
        assert(tail[0] == path.last());
    } else {
        law_join_split(front, k);
        assert(front.take(k) =~= path.take(k));
        assert(tail.drop_last() =~= front.skip(k));
        assert(tail.last() == path.last());
        assert(join_upper(path) =~= join_upper(path.take(k)) + separator() + join_upper(tail));
    }
}

/// Upper-casing a plain key gives a well-formed name.
pub proof fn lemma_upper_of_plain_key(key: Seq<char>)
    requires
        is_plain_key(key),
    ensures
        is_env_name(upper(key)),
{
    assert forall|i: int| 0 <= i < upper(key).len() implies is_name_char(
        #[trigger] upper(key)[i],
    ) by {
        assert(is_key_char(key[i]));
    }
}

/// The name of a non-empty path of plain keys is well-formed: it is not
/// empty, and every character of it is one of `A`..`Z`, `0`..`9` or `_`.
pub proof fn law_name_shape(path: Seq<Seq<char>>)
    requires
        path.len() > 0,
        is_plain_path(path),
    ensures
        is_env_name(join_upper(path)),
    decreases path.len(),
{
    lemma_upper_of_plain_key(path.last());
    if path.len() > 1 {
        let front = path.drop_last();
        assert forall|i: int| 0 <= i < front.len() implies is_plain_key(#[trigger] front[i]) by {
            assert(front[i] == path[i]);
        }
        law_name_shape(front);
        let name = join_upper(path);
        let head = join_upper(front) + separator();
        assert(name == head + upper(path.last()));
        assert forall|i: int| 0 <= i < name.len() implies is_name_char(#[trigger] name[i]) by {
            if i < join_upper(front).len() {
                assert(name[i] == join_upper(front)[i]);
            } else if i < head.len() {
                assert(name[i] == separator()[i - join_upper(front).len()]);
            } else {
                assert(name[i] == upper(path.last())[i - head.len()]);
            }
        }
    } else {
        assert(path[0] == path.last());
    }
}

/// The decimal text of a number is made of digits only, so it is a plain key
/// and upper-casing leaves it as it is.
pub proof fn lemma_decimal_is_plain(n: nat)
    ensures
        is_plain_key(decimal(n)),
        upper(decimal(n)) == decimal(n),
        forall|i: int| 0 <= i < decimal(n).len() ==> '0' <= #[trigger] decimal(n)[i] <= '9',
    decreases n,
{
    if n >= 10 {
        lemma_decimal_is_plain(n / 10);
    }
    assert(upper(decimal(n)) =~= decimal(n));
}

/// Reading the decimal text of a number gives the number back.
pub proof fn lemma_decimal_value(n: nat)
    ensures
        decimal_value(decimal(n)) == n,
    decreases n,
{
    if n < 10 {
        assert(decimal(n).drop_last() =~= Seq::empty());
        assert(decimal_value(decimal(n).drop_last()) == 0);
    } else {
        lemma_decimal_value(n / 10);
        assert(decimal(n).drop_last() =~= decimal(n / 10));
    }
}

/// Two different numbers have different decimal texts.
pub proof fn lemma_decimal_injective(m: nat, n: nat)
    requires
        decimal(m) == decimal(n),
    ensures
        m == n,
{
    lemma_decimal_value(m);
    lemma_decimal_value(n);
}

/// Two different indices below the same path give two different names, which
/// differ only in what follows the common prefix: the index itself.
pub proof fn law_index_names_distinct(path: Seq<Seq<char>>, i: nat, j: nat)
    requires
        i != j,
    ensures
        join_upper(path.push(decimal(i))) == name_prefix(path) + decimal(i),
        join_upper(path.push(decimal(j))) == name_prefix(path) + decimal(j),
        join_upper(path.push(decimal(i))) != join_upper(path.push(decimal(j))),
{
    lemma_join_push(path, decimal(i));
    lemma_join_push(path, decimal(j));
    lemma_decimal_is_plain(i);
    lemma_decimal_is_plain(j);
    let prefix = name_prefix(path);
    if prefix + decimal(i) == prefix + decimal(j) {
        assert((prefix + decimal(i)).skip(prefix.len() as int) =~= decimal(i));
        assert((prefix + decimal(j)).skip(prefix.len() as int) =~= decimal(j));
        lemma_decimal_injective(i, j);
    }
}

/// A name that extends a longer base extends the shorter base from which
/// the longer one was made.
pub proof fn lemma_extends_shorter(name: Seq<char>, base: Seq<char>, segment: Seq<char>)
    requires
        extends_name(name, base + separator() + segment),
    ensures
        extends_name(name, base),
{
    let longer = base + separator() + segment;
    let cut = base + separator();
    assert(longer.is_prefix_of(name)) by {
        if name != longer {
            let full = longer + separator();
            assert(longer =~= full.subrange(0, longer.len() as int));
            assert(longer =~= name.subrange(0, longer.len() as int)) by {
                assert forall|k: int| 0 <= k < longer.len() implies longer[k] == name[k] by {
                    assert(full[k] == name.subrange(0, full.len() as int)[k]);
                }
            }
        } else {
            assert(name.subrange(0, name.len() as int) =~= name);
        }
    }
    assert(cut =~= name.subrange(0, cut.len() as int)) by {
        assert forall|k: int| 0 <= k < cut.len() implies cut[k] == name[k] by {
            assert(longer[k] == name.subrange(0, longer.len() as int)[k]);
        }
    }
}

/// Two names that extend the same prefix followed by two different indices
/// are different names.
pub proof fn lemma_index_extensions_differ(
    prefix: Seq<char>,
    i: nat,
    j: nat,
    first: Seq<char>,
    second: Seq<char>,
)
    requires
        i != j,
        extends_name(first, prefix + decimal(i)),
        extends_name(second, prefix + decimal(j)),
    ensures
        first != second,
{
    if first == second {
        lemma_decimal_is_plain(i);
        lemma_decimal_is_plain(j);
        lemma_digits_end_at_separator(prefix, decimal(i), decimal(j), first);
        lemma_digits_end_at_separator(prefix, decimal(j), decimal(i), first);
        assert(decimal(i) =~= decimal(j)) by {
            let p = prefix.len() as int;
            assert forall|k: int| 0 <= k < decimal(i).len() implies decimal(i)[k] == decimal(
                j,
            )[k] by {
                lemma_extension_index(first, prefix + decimal(i), p + k);
                lemma_extension_index(first, prefix + decimal(j), p + k);
            }
        }
        lemma_decimal_injective(i, j);
    }
}

/// A name agrees with the base that it extends on every position of the base.
proof fn lemma_extension_index(name: Seq<char>, base: Seq<char>, k: int)
    requires
        extends_name(name, base),
        0 <= k < base.len(),
    ensures
        k < name.len(),
        name[k] == base[k],
{
    if name != base {
        let cut = base + separator();
        assert(cut[k] == name.subrange(0, cut.len() as int)[k]);
    }
}

/// Where one name extends both a run of digits and a second run of digits
/// after the same prefix, the first run is not shorter than the second: it
/// would end at a separator where the second run has a digit.
proof fn lemma_digits_end_at_separator(
    prefix: Seq<char>,
    short: Seq<char>,
    long: Seq<char>,
    name: Seq<char>,
)
    requires
        extends_name(name, prefix + short),
        extends_name(name, prefix + long),
        forall|k: int| 0 <= k < long.len() ==> '0' <= #[trigger] long[k] <= '9',
    ensures
        short.len() >= long.len(),
{
    if short.len() < long.len() {
        let at = (prefix.len() + short.len()) as int;
        lemma_extension_index(name, prefix + long, at);
        assert(name[at] == long[short.len() as int]);
        assert(name != prefix + short);
        let cut = prefix + short + separator();
        assert(cut[at] == name.subrange(0, cut.len() as int)[at]);
        assert(cut[at] == '_');
    }
}

/// `str::to_ascii_uppercase`: a copy of the text in which the ASCII letters
/// `a`..`z` are replaced by `A`..`Z` and all other characters are kept.
#[verifier::external_body]
fn ascii_uppercase(text: &str) -> (result: String)
    ensures
        result@ == upper(text@),
{
    text.to_ascii_uppercase()
}

/// `usize::to_string`: the number written in decimal, without sign or leading
/// zeros.
#[verifier::external_body]
pub(crate) fn index_segment(index: usize) -> (result: String)
    ensures
        result@ == decimal(index as nat),
{
    index.to_string()
}

/// Builds the environment-variable name of a key path.
pub fn capitalize_and_join(arr: &[&str]) -> (name: String)
    ensures
        name@ == join_upper(arr.deep_view()),
{
    let mut name = String::new();
    let mut i: usize = 0;
    while i < arr.len()
        invariant
            i <= arr.len(),
            name@ == join_upper(arr.deep_view().take(i as int)),
        decreases arr.len() - i,
    {
        let ghost before = arr.deep_view().take(i as int);
        let ghost after = arr.deep_view().take(i + 1);
        proof {
            assert(after.drop_last() =~= before);
            assert(after.last() == arr@[i as int]@);
        }
        if i > 0 {
            name.append("__");
            proof {
                reveal_strlit("__");
                assert("__"@ =~= separator());
            }
        }
        let segment = ascii_uppercase(arr[i]);
        name.append(segment.as_str());
        i = i + 1;
    }
    proof {
        assert(arr.deep_view().take(arr.len() as int) =~= arr.deep_view());
    }
    name
}

} // verus!

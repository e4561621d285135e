//! Text as sequences of characters: the few operations on names and urls that
//! the rest of the crate is written in, and the order in which names are listed.
use vstd::prelude::*;

verus! {

/// The texts that a list of strings holds.
pub open spec fn texts(names: Seq<String>) -> Seq<Seq<char>> {
    Seq::new(names.len(), |i: int| names[i]@)
}

/// Where `c` first stands in `s`, or the length of `s` where it does not.
pub open spec fn first_at(s: Seq<char>, c: char) -> int
    decreases s.len(),
{
    if s.len() == 0 {
        0
    } else if s[0] == c {
        0
    } else {
        1 + first_at(s.drop_first(), c)
    }
}

pub proof fn lemma_first_at(s: Seq<char>, c: char)
    ensures
        0 <= first_at(s, c) <= s.len(),
        forall|i: int| 0 <= i < first_at(s, c) ==> s[i] != c,
        first_at(s, c) < s.len() ==> s[first_at(s, c)] == c,
        s.contains(c) <==> first_at(s, c) < s.len(),
    decreases s.len(),
{
    if s.len() > 0 && s[0] != c {
        let rest = s.drop_first();
        lemma_first_at(rest, c);
        assert forall|i: int| 0 <= i < first_at(s, c) implies s[i] != c by {
            if i > 0 {
                assert(s[i] == rest[i - 1]);
            }
        }
        if s.contains(c) {
            let k = choose|k: int| 0 <= k < s.len() && s[k] == c;
            assert(rest[k - 1] == c);
        }
    }
}

/// The first position is the only one with `c` at it and none before it.
pub proof fn lemma_first_at_is(s: Seq<char>, c: char, at: int)
    requires
        0 <= at <= s.len(),
        forall|i: int| 0 <= i < at ==> s[i] != c,
        at < s.len() ==> s[at] == c,
    ensures
        first_at(s, c) == at,
{
    lemma_first_at(s, c);
}

/// The characters of a text.
pub fn chars_of(s: &str) -> (chars: Vec<char>)
    ensures
        chars@ == s@,
{
    let mut chars: Vec<char> = Vec::new();
    for c in it: s.chars()
        invariant
            chars@ == it.seq().take(it.index()),
            it.seq() == s@,
    {
        chars.push(c);
    }
    chars
}

/// `String::push` puts one character at the end.
pub assume_specification[ String::push ](s: &mut String, c: char)
    ensures
        final(s)@ == old(s)@.push(c),
;

/// The text of the characters from `from` up to `to`.
pub fn text_of(chars: &Vec<char>, from: usize, to: usize) -> (s: String)
    requires
        from <= to <= chars@.len(),
    ensures
        s@ == chars@.subrange(from as int, to as int),
{
    let mut s: String = String::new();
    let mut i: usize = from;
    while i < to
        invariant
            from <= i <= to <= chars@.len(),
            s@ == chars@.subrange(from as int, i as int),
        decreases to - i,
    {
        s.push(chars[i]);
        i = i + 1;
    }
    s
}

/// Where `c` first stands at or after `from`, or the end where it does not.
pub fn find_char(chars: &Vec<char>, from: usize, c: char) -> (at: usize)
    requires
        from <= chars@.len(),
    ensures
        from <= at <= chars@.len(),
        at == from + first_at(chars@.skip(from as int), c),
{
    let mut i: usize = from;
    while i < chars.len() && chars[i] != c
        invariant
            from <= i <= chars@.len(),
            forall|k: int| from <= k < i ==> chars@[k] != c,
        decreases chars@.len() - i,
    {
        i = i + 1;
    }
    proof {
        lemma_first_at_is(chars@.skip(from as int), c, i - from);
    }
    i
}

/// Tells whether a text starts with another.
pub fn starts_with(chars: &Vec<char>, prefix: &Vec<char>) -> (b: bool)
    ensures
        b == prefix@.is_prefix_of(chars@),
{
    if prefix.len() > chars.len() {
        return false;
    }
    let mut i: usize = 0;
    while i < prefix.len()
        invariant
            i <= prefix@.len() <= chars@.len(),
            forall|k: int| 0 <= k < i ==> chars@[k] == prefix@[k],
        decreases prefix@.len() - i,
    {
        if chars[i] != prefix[i] {
            assert(chars@.take(prefix@.len() as int)[i as int] != prefix@[i as int]);
            return false;
        }
        i = i + 1;
    }
    assert(chars@.take(prefix@.len() as int) =~= prefix@);
    true
}

/// `first` and `second` stand side by side somewhere in a text.
pub open spec fn has_pair(s: Seq<char>, first: char, second: char) -> bool {
    exists|i: int| 0 <= i < s.len() - 1 && #[trigger] s[i] == first && s[i + 1] == second
}

/// Tells whether `first` and `second` stand side by side somewhere in a text.
pub fn contains_pair(chars: &Vec<char>, first: char, second: char) -> (b: bool)
    ensures
        b == has_pair(chars@, first, second),
{
    let mut i: usize = 1;
    while i < chars.len()
        invariant
            1 <= i,
            forall|k: int|
                0 <= k < i - 1 && k < chars@.len() - 1 ==> !(#[trigger] chars@[k] == first
                    && chars@[k + 1] == second),
        decreases chars@.len() - i,
    {
        if chars[i - 1] == first && chars[i] == second {
            assert(chars@[i - 1] == first && chars@[i - 1 + 1] == second);
            return true;
        }
        i = i + 1;
    }
    false
}

/// Joins two texts.
pub fn joined(first: &str, second: &str) -> (s: String)
    ensures
        s@ == first@ + second@,
{
    let mut s: String = first.to_owned();
    s.append(second);
    s
}

/// The characters that count as white space.
pub open spec fn is_space(c: char) -> bool {
    ||| '\u{9}' <= c <= '\u{d}'
    ||| c == ' '
    ||| c == '\u{85}'
    ||| c == '\u{a0}'
    ||| c == '\u{1680}'
    ||| '\u{2000}' <= c <= '\u{200a}'
    ||| c == '\u{2028}'
    ||| c == '\u{2029}'
    ||| c == '\u{202f}'
    ||| c == '\u{205f}'
    ||| c == '\u{3000}'
}

/// Tells whether a character counts as white space.
pub fn is_white_space(c: char) -> (b: bool)
    ensures
        b == is_space(c),
{
    ('\u{9}' <= c && c <= '\u{d}') || c == ' ' || c == '\u{85}' || c == '\u{a0}' || c == '\u{1680}' || (
    '\u{2000}' <= c && c <= '\u{200a}') || c == '\u{2028}' || c == '\u{2029}' || c == '\u{202f}' || c
        == '\u{205f}' || c == '\u{3000}'
}

/// The words of a text: the longest pieces without white space.
pub open spec fn words(s: Seq<char>) -> Seq<Seq<char>>
    decreases s.len(),
{
    if s.len() == 0 {
        seq![]
    } else {
        let before = words(s.drop_last());
        let c = s.last();
        if is_space(c) {
            before
        } else if s.len() == 1 || is_space(s[s.len() - 2]) {
            before.push(seq![c])
        } else {
            before.drop_last().push(before.last().push(c))
        }
    }
}

/// Splits a text into its words.
pub fn split_whitespace(s: &str) -> (parts: Vec<String>)
    ensures
        texts(parts@) == words(s@),
{
    let chars = chars_of(s);
    let mut parts: Vec<String> = Vec::new();
    let mut word: String = String::new();
    let mut in_word: bool = false;
    let mut i: usize = 0;
    assert(texts(parts@) =~= words(chars@.take(0)));
    while i < chars.len()
        invariant
            i <= chars@.len(),
            chars@ == s@,
            in_word == (i > 0 && !is_space(chars@[i - 1])),
            in_word ==> words(chars@.take(i as int)) == texts(parts@).push(word@),
            !in_word ==> words(chars@.take(i as int)) == texts(parts@) && word@.len() == 0,
        decreases chars@.len() - i,
    {
        let ghost before = texts(parts@);
        let c: char = chars[i];
        assert(chars@.take(i + 1).drop_last() =~= chars@.take(i as int));
        assert(chars@.take(i + 1).last() == c);
        if i > 0 {
            assert(chars@.take(i + 1)[i - 1] == chars@[i - 1]);
        }
        if is_white_space(c) {
            if in_word {
                parts.push(word);
                assert(texts(parts@) =~= before.push(word@));
                word = String::new();
            }
            in_word = false;
        } else {
            let ghost old_word = word@;
            word.push(c);
            if in_word {
                assert(before.push(old_word).drop_last() =~= before);
            } else {
                assert(word@ =~= seq![c]);
            }
            in_word = true;
        }
        i = i + 1;
    }
    assert(chars@.take(i as int) =~= s@);
    if in_word {
        let ghost before = texts(parts@);
        parts.push(word);
        assert(texts(parts@) =~= before.push(word@));
    }
    parts
}

/// The number that decimal digits stand for.
pub open spec fn decimal(digits: Seq<char>) -> int
    decreases digits.len(),
{
    if digits.len() == 0 {
        0
    } else {
        decimal(digits.drop_last()) * 10 + (digits.last() as int - '0' as int)
    }
}

/// The digits of a number, which a plus sign may come before.
pub open spec fn digits_of(s: Seq<char>) -> Seq<char> {
    if s.len() > 0 && s[0] == '+' {
        s.skip(1)
    } else {
        s
    }
}

pub open spec fn are_digits(s: Seq<char>) -> bool {
    forall|i: int| 0 <= i < s.len() ==> '0' <= #[trigger] s[i] <= '9'
}

/// The number that a text stands for, where it is one and is not too large.
pub open spec fn number(s: Seq<char>) -> Option<int> {
    let digits = digits_of(s);
    if digits.len() > 0 && are_digits(digits) && decimal(digits) <= usize::MAX {
        Some(decimal(digits))
    } else {
        None
    }
}

/// More digits do not make a number smaller.
proof fn lemma_decimal_grows(digits: Seq<char>, n: int)
    requires
        are_digits(digits),
        0 <= n <= digits.len(),
    ensures
        0 <= decimal(digits.take(n)) <= decimal(digits),
    decreases digits.len(),
{
    if n == digits.len() {
        assert(digits.take(n) =~= digits);
        if n > 0 {
            let fewer = digits.drop_last();
            assert(are_digits(fewer)) by {
                assert forall|i: int| 0 <= i < fewer.len() implies '0' <= #[trigger] fewer[i] <= '9' by {
                    assert(fewer[i] == digits[i]);
                }
            }
            lemma_decimal_grows(fewer, n - 1);
            assert(digits.last() == digits[n - 1]);
        }
    } else {
        let fewer = digits.drop_last();
        assert(are_digits(fewer)) by {
            assert forall|i: int| 0 <= i < fewer.len() implies '0' <= #[trigger] fewer[i] <= '9' by {
                assert(fewer[i] == digits[i]);
            }
        }
        lemma_decimal_grows(fewer, n);
        assert(fewer.take(n) =~= digits.take(n));
        assert(digits.last() == digits[digits.len() - 1]);
    }
}

/// Reads a number.
pub fn parse_number(s: &str) -> (n: Option<usize>)
    ensures
        match n {
            Some(n) => number(s@) == Some(n as int),
            None => number(s@) is None,
        },
{
    let chars = chars_of(s);
    let from: usize = if chars.len() > 0 && chars[0] == '+' {
        1
    } else {
        0
    };
    let ghost digits = digits_of(s@);
    assert(digits =~= chars@.skip(from as int));
    if from == chars.len() {
        return None;
    }
    let mut value: usize = 0;
    let mut i: usize = from;
    assert(digits.take(0) =~= seq![]);
    while i < chars.len()
        invariant
            chars@ == s@,
            digits == digits_of(s@),
            digits == chars@.skip(from as int),
            from <= i <= chars@.len(),
            from < chars@.len(),
            forall|k: int| 0 <= k < i - from ==> '0' <= #[trigger] digits[k] <= '9',
            value == decimal(digits.take(i - from)),
        decreases chars@.len() - i,
    {
        let c: char = chars[i];
        assert(digits[i - from] == c);
        if c < '0' || c > '9' {
            assert(!are_digits(digits));
            return None;
        }
        let digit: usize = (c as u32 - '0' as u32) as usize;
        let ghost next = digits.take(i - from + 1);
        assert(next.drop_last() =~= digits.take(i - from));
        assert(next.last() == c);
        assert(decimal(next) == value * 10 + digit);
        if value > (usize::MAX - digit) / 10 {
            proof {
                assert(value * 10 + digit > usize::MAX);
                if are_digits(digits) {
                    lemma_decimal_grows(digits, i - from + 1);
                }
            }
            return None;
        }
        value = value * 10 + digit;
        i = i + 1;
    }
    assert(digits.take(i - from) =~= digits);
    Some(value)
}

/// The order of names: by their characters, the first difference decides, and a
/// name stands before every longer name that starts with it.
pub open spec fn name_le(a: Seq<char>, b: Seq<char>) -> bool
    decreases a.len(),
{
    if a.len() == 0 {
        true
    } else if b.len() == 0 {
        false
    } else if a[0] == b[0] {
        name_le(a.drop_first(), b.drop_first())
    } else {
        a[0] < b[0]
    }
}

/// Names from the first to the last.
pub open spec fn in_order(names: Seq<Seq<char>>) -> bool {
    vstd::relations::sorted_by(names, |a: Seq<char>, b: Seq<char>| name_le(a, b))
}

proof fn lemma_name_le_reflexive(a: Seq<char>)
    ensures
        name_le(a, a),
    decreases a.len(),
{
    if a.len() > 0 {
        lemma_name_le_reflexive(a.drop_first());
    }
}

proof fn lemma_name_le_total(a: Seq<char>, b: Seq<char>)
    ensures
        name_le(a, b) || name_le(b, a),
    decreases a.len(),
{
    if a.len() > 0 && b.len() > 0 {
        lemma_name_le_total(a.drop_first(), b.drop_first());
    }
}

proof fn lemma_name_le_antisymmetric(a: Seq<char>, b: Seq<char>)
    requires
        name_le(a, b),
        name_le(b, a),
    ensures
        a == b,
    decreases a.len(),
{
    if a.len() == 0 || b.len() == 0 {
        assert(a =~= b);
    } else {
        lemma_name_le_antisymmetric(a.drop_first(), b.drop_first());
        assert(a =~= seq![a[0]] + a.drop_first());
        assert(b =~= seq![b[0]] + b.drop_first());
    }
}

proof fn lemma_name_le_transitive(a: Seq<char>, b: Seq<char>, c: Seq<char>)
    requires
        name_le(a, b),
        name_le(b, c),
    ensures
        name_le(a, c),
    decreases a.len(),
{
    if a.len() > 0 && a[0] == b[0] && b[0] == c[0] {
        lemma_name_le_transitive(a.drop_first(), b.drop_first(), c.drop_first());
    }
}

/// The order of names is total: of any two names one comes first, and only a name
/// itself stands on both sides of it.
pub proof fn name_order_is_total()
    ensures
        vstd::relations::total_ordering(|a: Seq<char>, b: Seq<char>| name_le(a, b)),
{
    let leq = |a: Seq<char>, b: Seq<char>| name_le(a, b);
    assert forall|a: Seq<char>| #[trigger] leq(a, a) by {
        lemma_name_le_reflexive(a);
    }
    assert forall|a: Seq<char>, b: Seq<char>| #[trigger] leq(a, b) || #[trigger] leq(b, a) by {
        lemma_name_le_total(a, b);
    }
    assert forall|a: Seq<char>, b: Seq<char>| #[trigger] leq(a, b) && #[trigger] leq(b, a) implies a == b by {
        lemma_name_le_antisymmetric(a, b);
    }
    assert forall|a: Seq<char>, b: Seq<char>, c: Seq<char>| #[trigger] leq(a, b) && #[trigger] leq(b, c) implies leq(a, c) by {
        lemma_name_le_transitive(a, b, c);
    }
}

/// `slice::sort`, which is documented to put a slice in the order of its
/// elements; strings are ordered by their code points. It moves the names and
/// neither adds nor drops any.
#[verifier::external_body]
pub(crate) fn sort_names(names: &mut Vec<String>)
    ensures
        texts(final(names)@).to_multiset() == texts(old(names)@).to_multiset(),
        in_order(texts(final(names)@)),
{
    names.sort()
}

proof fn lemma_word_at_the_end(s: Seq<char>)
    requires
        s.len() > 0,
        !is_space(s.last()),
    ensures
        words(s).len() > 0,
    decreases s.len(),
{
    let fewer = s.drop_last();
    if s.len() > 1 && !is_space(s[s.len() - 2]) {
        assert(fewer.last() == s[s.len() - 2]);
        lemma_word_at_the_end(fewer);
    }
}

/// White space parts words: those before it and those behind it are all the words that
/// there are, and none of them reaches across.
pub proof fn white_space_parts_words(before: Seq<char>, space: char, behind: Seq<char>)
    requires
        is_space(space),
    ensures
        words(before + seq![space] + behind) == words(before) + words(behind),
    decreases behind.len(),
{
    let s = before + seq![space] + behind;
    let fewer = s.drop_last();
    if behind.len() == 0 {
        assert(fewer =~= before);
        assert(s.last() == space);
        assert(words(s) =~= words(before) + words(behind));
    } else {
        let rest = behind.drop_last();
        let c = behind.last();
        white_space_parts_words(before, space, rest);
        assert(fewer =~= before + seq![space] + rest);
        assert(s.last() == c);
        if is_space(c) {
        } else if behind.len() == 1 {
            assert(rest =~= seq![]);
            assert(s[s.len() - 2] == space);
            assert(words(s) =~= words(before) + words(behind));
        } else {
            assert(s[s.len() - 2] == behind[behind.len() - 2]);
            if is_space(behind[behind.len() - 2]) {
                assert(words(s) =~= words(before) + words(behind));
            } else {
                assert(rest.last() == behind[behind.len() - 2]);
                lemma_word_at_the_end(rest);
                assert((words(before) + words(rest)).drop_last() =~= words(before) + words(
                    rest,
                ).drop_last());
                assert((words(before) + words(rest)).last() == words(rest).last());
                assert(words(s) =~= words(before) + words(behind));
            }
        }
    }
}

/// A text without white space is one word, unless it is empty.
pub proof fn a_text_without_white_space_is_one_word(s: Seq<char>)
    requires
        forall|i: int| 0 <= i < s.len() ==> !is_space(#[trigger] s[i]),
    ensures
        words(s) == if s.len() == 0 {
            seq![]
        } else {
            seq![s]
        },
    decreases s.len(),
{
    if s.len() > 0 {
        let fewer = s.drop_last();
        assert forall|i: int| 0 <= i < fewer.len() implies !is_space(#[trigger] fewer[i]) by {
            assert(fewer[i] == s[i]);
        }
        a_text_without_white_space_is_one_word(fewer);
        assert(!is_space(s[s.len() - 1]));
        if s.len() == 1 {
            assert(fewer =~= seq![]);
            assert(s =~= seq![s.last()]);
            assert(words(s) =~= seq![s]);
        } else {
            assert(!is_space(s[s.len() - 2]));
            assert(fewer.push(s.last()) =~= s);
            assert(words(s) =~= seq![s]);
        }
    } else {
        assert(words(s) =~= seq![]);
    }
}

/// Digits count by their places: those in front for as many powers of ten more as there
/// are digits behind them.
pub proof fn digits_count_by_their_places(front: Seq<char>, behind: Seq<char>, digit: char)
    ensures
        decimal(front + behind) == decimal(front) * vstd::arithmetic::power::pow(
            10,
            behind.len(),
        ) + decimal(behind),
        decimal(seq![digit]) == digit as int - '0' as int,
    decreases behind.len(),
{
    let one = seq![digit];
    assert(one.drop_last() =~= seq![]);
    assert(decimal(seq![]) == 0);
    assert(one.last() == digit);
    reveal(vstd::arithmetic::power::pow);
    if behind.len() == 0 {
        assert(front + behind =~= front);
        vstd::arithmetic::power::lemma_pow0(10);
    } else {
        let fewer = behind.drop_last();
        digits_count_by_their_places(front, fewer, digit);
        assert((front + behind).drop_last() =~= front + fewer);
        assert((front + behind).last() == behind.last());
        let p = vstd::arithmetic::power::pow(10, fewer.len());
        assert(vstd::arithmetic::power::pow(10, behind.len()) == 10 * p);
        let f = decimal(front);
        assert((f * p) * 10 == f * (10 * p)) by (nonlinear_arith);
    }
}

/// Digits stand for a number, with a plus sign or without one, unless it is too large.
/// Nothing else does.
pub proof fn digits_stand_for_a_number(s: Seq<char>)
    ensures
        s.len() > 0 && (forall|i: int| 0 <= i < s.len() ==> '0' <= #[trigger] s[i] <= '9') ==> {
            &&& number(seq!['+'] + s) == number(s)
            &&& number(s) == if decimal(s) <= usize::MAX {
                Some(decimal(s))
            } else {
                None
            }
        },
        number(s) is Some ==> {
            &&& s.len() > 0
            &&& '0' <= s.last() <= '9'
            &&& forall|i: int|
                0 <= i < s.len() ==> '0' <= #[trigger] s[i] <= '9' || (i == 0 && s[i] == '+')
        },
{
    let signed = seq!['+'] + s;
    assert(signed.skip(1) =~= s);
    if s.len() > 0 && are_digits(s) {
        assert('0' <= s[0]);
    }
    if number(s) is Some {
        let digits = digits_of(s);
        assert forall|i: int| 0 <= i < s.len() implies '0' <= #[trigger] s[i] <= '9' || (i == 0
            && s[i] == '+') by {
            if s[0] == '+' {
                if i > 0 {
                    assert(digits[i - 1] == s[i]);
                }
            } else {
                assert(digits[i] == s[i]);
            }
        }
        assert(digits[digits.len() - 1] == s.last());
    }
}

/// The first difference between two names decides which comes first, and a name comes
/// before all longer names that start with it.
pub proof fn the_first_difference_decides(
    start: Seq<char>,
    a: char,
    behind_a: Seq<char>,
    b: char,
    behind_b: Seq<char>,
)
    ensures
        a != b ==> (name_le(start + seq![a] + behind_a, start + seq![b] + behind_b) <==> a < b),
        name_le(start, start + behind_a),
        behind_a.len() > 0 ==> !name_le(start + behind_a, start),
    decreases start.len(),
{
    let one = start + seq![a] + behind_a;
    let other = start + seq![b] + behind_b;
    let longer = start + behind_a;
    if start.len() == 0 {
        assert(one[0] == a && other[0] == b);
    } else {
        let rest = start.drop_first();
        the_first_difference_decides(rest, a, behind_a, b, behind_b);
        assert(one[0] == start[0] && other[0] == start[0] && longer[0] == start[0]);
        assert(one.drop_first() =~= rest + seq![a] + behind_a);
        assert(other.drop_first() =~= rest + seq![b] + behind_b);
        assert(longer.drop_first() =~= rest + behind_a);
    }
}

/// Of names in order, each comes before those behind it.
pub proof fn names_in_order_follow_each_other(names: Seq<Seq<char>>)
    ensures
        in_order(names) <==> forall|i: int, j: int|
            0 <= i < j < names.len() ==> #[trigger] name_le(names[i], #[trigger] names[j]),
{
    let leq = |a: Seq<char>, b: Seq<char>| name_le(a, b);
    if in_order(names) {
        assert forall|i: int, j: int| 0 <= i < j < names.len() implies #[trigger] name_le(
            names[i],
            #[trigger] names[j],
        ) by {
            assert(leq(names[i], names[j]));
        }
    }
}

/// Two characters stand side by side in a text exactly where it has a part before them
/// and a part behind them.
pub proof fn a_pair_parts_a_text(s: Seq<char>, first: char, second: char)
    ensures
        has_pair(s, first, second) <==> exists|before: Seq<char>, behind: Seq<char>|
            s == #[trigger] (before.push(first).push(second) + behind),
{
    if has_pair(s, first, second) {
        let i = choose|i: int|
            0 <= i < s.len() - 1 && #[trigger] s[i] == first && s[i + 1] == second;
        assert(s =~= s.take(i).push(first).push(second) + s.skip(i + 2));
    }
    if exists|before: Seq<char>, behind: Seq<char>|
        s == #[trigger] (before.push(first).push(second) + behind) {
        let (before, behind) = choose|before: Seq<char>, behind: Seq<char>|
            s == #[trigger] (before.push(first).push(second) + behind);
        let i = before.len() as int;
        assert(s[i] == first && s[i + 1] == second);
    }
}

/// Names that are the same but for their order are the same names.
pub proof fn lemma_same_names(a: Seq<Seq<char>>, b: Seq<Seq<char>>)
    requires
        a.to_multiset() == b.to_multiset(),
    ensures
        a.len() == b.len(),
        forall|t: Seq<char>| #[trigger] a.contains(t) <==> b.contains(t),
{
    broadcast use vstd::seq_lib::group_to_multiset_ensures;

    assert(a.len() == a.to_multiset().len());
    assert(b.len() == b.to_multiset().len());
    assert forall|t: Seq<char>| #[trigger] a.contains(t) <==> b.contains(t) by {
        assert(a.contains(t) <==> a.to_multiset().count(t) > 0);
        assert(b.contains(t) <==> b.to_multiset().count(t) > 0);
    }
}

} // verus!

//! Text: blankness, decimal numbers, quoting and escaping.

use vstd::prelude::*;
use vstd::string::*;

verus! {

/// The characters with Unicode's `White_Space` property.
pub open spec fn white_space(c: char) -> bool {
    ||| '\u{9}' <= c <= '\u{d}'
    ||| c == '\u{20}'
    ||| c == '\u{85}'
    ||| c == '\u{a0}'
    ||| c == '\u{1680}'
    ||| '\u{2000}' <= c <= '\u{200a}'
    ||| '\u{2028}' <= c <= '\u{2029}'
    ||| c == '\u{202f}'
    ||| c == '\u{205f}'
    ||| c == '\u{3000}'
}

/// Nothing but white space.
pub open spec fn blank(s: Seq<char>) -> bool {
    forall|i: int| 0 <= i < s.len() ==> white_space(#[trigger] s[i])
}

/// `t` is `s` without the white space at its two ends.
pub open spec fn trims_to(s: Seq<char>, t: Seq<char>) -> bool {
    exists|from: int, to: int|
        {
            &&& 0 <= from <= to <= s.len()
            &&& t == #[trigger] s.subrange(from, to)
            &&& blank(s.take(from))
            &&& blank(s.skip(to))
            &&& t.len() == 0 || (!white_space(t.first()) && !white_space(t.last()))
        }
}

/// `str::trim`, which cuts the white space (Unicode's `White_Space` property) off both ends.
pub assume_specification[ str::trim ](s: &str) -> (t: &str)
    ensures
        trims_to(s@, t@),
;

/// `String::push`, which puts one character at the end.
#[verifier::external_body]
pub(crate) fn push_char(s: &mut String, c: char)
    ensures
        final(s)@ == old(s)@.push(c),
{
    s.push(c);
}

/// What Rust's debug formatting of a text gives: the text in double quotes, with escapes.
pub uninterp spec fn debug_text(s: Seq<char>) -> Seq<char>;

/// `{:?}` of a `str`, by the formatting machinery of `std`. The result is named, not described.
#[verifier::external_body]
fn debug_quoted(s: &str) -> (t: String)
    ensures
        t@ == debug_text(s@),
{
    format!("{:?}", s)
}

/// Whether nothing is left of `s` once the white space at its ends is cut off.
pub fn is_blank(s: &str) -> (b: bool)
    ensures
        b == blank(s@),
{
    let t = s.trim();
    let b = t.is_empty();
    proof {
        let (from, to) = choose|from: int, to: int|
            {
                &&& 0 <= from <= to <= s@.len()
                &&& t@ == #[trigger] s@.subrange(from, to)
                &&& blank(s@.take(from))
                &&& blank(s@.skip(to))
                &&& t@.len() == 0 || (!white_space(t@.first()) && !white_space(t@.last()))
            };
        if b {
            assert(from == to);
            assert forall|i: int| 0 <= i < s@.len() implies white_space(#[trigger] s@[i]) by {
                if i < from {
                    assert(s@.take(from)[i] == s@[i]);
                } else {
                    assert(s@.skip(to)[i - to] == s@[i]);
                }
            }
        } else {
            assert(t@.first() == s@[from]);
        }
    }
    b
}

/// Whether two texts are the same.
pub fn same_text(a: &str, b: &str) -> (same: bool)
    ensures
        same == (a@ == b@),
{
    match crate::order::place_text(a, b) {
        crate::order::Placement::Same => true,
        crate::order::Placement::Before => {
            proof {
                crate::order::lemma_text_irreflexive(a@);
            }
            false
        },
        crate::order::Placement::After => {
            proof {
                crate::order::lemma_text_irreflexive(a@);
            }
            false
        },
    }
}

/// Appends `{:?}` of `s` to `to`.
pub fn append_debug(to: &mut String, s: &str)
    ensures
        final(to)@ == old(to)@ + debug_text(s@),
{
    let quoted = debug_quoted(s);
    to.append(quoted.as_str());
}

/// The decimal digit of `d`.
pub open spec fn digit(d: nat) -> char {
    if d == 0 {
        '0'
    } else if d == 1 {
        '1'
    } else if d == 2 {
        '2'
    } else if d == 3 {
        '3'
    } else if d == 4 {
        '4'
    } else if d == 5 {
        '5'
    } else if d == 6 {
        '6'
    } else if d == 7 {
        '7'
    } else if d == 8 {
        '8'
    } else {
        '9'
    }
}

/// `n` in decimal, without leading zeros.
pub open spec fn decimal(n: nat) -> Seq<char>
    decreases n,
{
    if n < 10 {
        seq![digit(n)]
    } else {
        decimal(n / 10).push(digit(n % 10))
    }
}

/// Appends `n` in decimal to `to`.
pub fn append_decimal(to: &mut String, n: usize)
    ensures
        final(to)@ == old(to)@ + decimal(n as nat),
    decreases n,
{
    if n >= 10 {
        append_decimal(to, n / 10);
    }
    let ghost before = to@;
    let d: usize = n % 10;
    let c = match d {
        0 => '0',
        1 => '1',
        2 => '2',
        3 => '3',
        4 => '4',
        5 => '5',
        6 => '6',
        7 => '7',
        8 => '8',
        _ => '9',
    };
    push_char(to, c);
    assert(c == digit((n % 10) as nat));
    assert(to@ =~= old(to)@ + decimal(n as nat));
}

/// `c` as it stands inside a JSON string: a backslash before a backslash and a double quote.
pub open spec fn json_char(c: char) -> Seq<char> {
    if c == '\\' || c == '"' {
        seq!['\\', c]
    } else {
        seq![c]
    }
}

/// `s` with every backslash and every double quote escaped.
pub open spec fn json_escaped(s: Seq<char>) -> Seq<char>
    decreases s.len(),
{
    if s.len() == 0 {
        Seq::empty()
    } else {
        json_escaped(s.drop_last()) + json_char(s.last())
    }
}

/// Escapes backslashes and double quotes for a JSON string.
pub fn escape_json_string(value: &str) -> (escaped: String)
    ensures
        escaped@ == json_escaped(value@),
{
    broadcast use vstd::string::group_string_axioms;

    let mut escaped = String::new();
    let mut chars = value.chars();
    let ghost mut n: int = 0;
    assert(value@.skip(0) =~= value@);
    assert(value@.take(0) =~= Seq::<char>::empty());
    loop
        invariant
            0 <= n <= value@.len(),
            vstd::std_specs::iter::IteratorSpec::remaining(&chars) == value@.skip(n),
            escaped@ == json_escaped(value@.take(n)),
        decreases value@.len() - n,
    {
        broadcast use vstd::string::group_string_axioms;

        match chars.next() {
            None => {
                assert(value@.take(n) =~= value@);
                return escaped;
            },
            Some(c) => {
                let ghost before = escaped@;
                if c == '\\' || c == '"' {
                    push_char(&mut escaped, '\\');
                }
                push_char(&mut escaped, c);
                proof {
                    assert(c == value@[n]);
                    assert(value@.take(n + 1).drop_last() =~= value@.take(n));
                    assert(value@.take(n + 1).last() == c);
                    assert(escaped@ =~= before + json_char(c));
                    assert(value@.skip(n).drop_first() =~= value@.skip(n + 1));
                    n = n + 1;
                }
            },
        }
    }
}

/// The number that decimal digits stand for.
pub open spec fn decimal_value(digits: Seq<char>) -> nat
    decreases digits.len(),
{
    if digits.len() == 0 {
        0
    } else {
        10 * decimal_value(digits.drop_last()) + (digits.last() as nat - '0' as nat) as nat
    }
}

/// A number in decimal is made of digits, without a leading zero unless it is zero, and stands for
/// that number.
pub proof fn decimal_stands_for_its_number(n: nat)
    ensures
        decimal(n).len() > 0,
        forall|i: int| 0 <= i < decimal(n).len() ==> '0' <= (#[trigger] decimal(n)[i]) <= '9',
        n > 0 ==> decimal(n)[0] != '0',
        decimal_value(decimal(n)) == n,
    decreases n,
{
    if n < 10 {
        assert(decimal(n).drop_last() =~= Seq::<char>::empty());
        reveal_with_fuel(decimal_value, 2);
    } else {
        decimal_stands_for_its_number(n / 10);
        let front = decimal(n / 10);
        let all = decimal(n);
        assert(all.drop_last() =~= front);
        assert(all[0] == front[0]);
        assert forall|i: int| 0 <= i < all.len() implies '0' <= (#[trigger] all[i]) <= '9' by {
            if i < front.len() {
                assert(all[i] == front[i]);
            }
        }
    }
}

/// What a text inside a JSON string stands for, where only backslashes and double quotes are
/// escaped: a backslash is dropped, and the character behind it is taken as it is.
pub open spec fn json_meaning(s: Seq<char>) -> Seq<char>
    decreases s.len(),
{
    if s.len() == 0 {
        Seq::empty()
    } else if s[0] == '\\' && s.len() > 1 {
        seq![s[1]] + json_meaning(s.skip(2))
    } else {
        seq![s[0]] + json_meaning(s.skip(1))
    }
}

/// The characters of an escaped text in front.
proof fn lemma_escaped_front(s: Seq<char>)
    requires
        s.len() > 0,
    ensures
        json_escaped(s) == json_char(s[0]) + json_escaped(s.skip(1)),
    decreases s.len(),
{
    if s.len() == 1 {
        assert(s.drop_last() =~= Seq::<char>::empty());
        assert(s.skip(1) =~= Seq::<char>::empty());
        reveal_with_fuel(json_escaped, 2);
        assert(json_escaped(s) =~= json_char(s[0]) + json_escaped(s.skip(1)));
    } else {
        let rest = s.drop_last();
        lemma_escaped_front(rest);
        assert(s.skip(1).drop_last() =~= rest.skip(1));
        assert(s.skip(1).last() == s.last());
        assert(json_escaped(s) =~= json_char(s[0]) + json_escaped(s.skip(1)));
    }
}

/// An escaped text stands for the text that was escaped, and holds no double quote that would end
/// the string: every one has a backslash before it.
pub proof fn escaped_text_stands_for_the_text(s: Seq<char>)
    ensures
        json_meaning(json_escaped(s)) == s,
        forall|i: int|
            0 <= i < json_escaped(s).len() && (#[trigger] json_escaped(s)[i]) == '"' ==> i > 0
                && json_escaped(s)[i - 1] == '\\',
    decreases s.len(),
{
    let all = json_escaped(s);
    if s.len() == 0 {
        assert(all =~= Seq::<char>::empty());
        assert(json_meaning(all) =~= s);
    } else {
        let rest = s.skip(1);
        let tail = json_escaped(rest);
        lemma_escaped_front(s);
        escaped_text_stands_for_the_text(rest);
        let n = json_char(s[0]).len();
        assert(all.skip(n as int) =~= tail);
        assert(json_meaning(all) =~= s);
        assert forall|i: int| 0 <= i < all.len() && (#[trigger] all[i]) == '"' implies i > 0
            && all[i - 1] == '\\' by {
            if i >= n {
                assert(tail[i - n] == all[i]);
                assert(all[i - 1] == tail[i - n - 1]);
            }
        }
    }
}

} // verus!

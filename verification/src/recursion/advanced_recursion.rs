use vstd::prelude::*;
use vstd::slice::slice_subrange;

verus! {

/// Returns the characters of `str` in reverse order.
///
/// The string is cut one byte at a time, so it must be made of ASCII
/// characters only.
pub fn reverse(str: &str) -> (reversed: String)
    requires
        str.is_ascii(),
    ensures
        reversed@ == str@.reverse(),
    decreases str@.len(),
{
    let length = str.unicode_len();
    if length == 0 {
        proof {
            assert(str@.reverse() =~= Seq::<char>::empty());
        }
        return String::new();
    }
    let last = str.substring_ascii(length - 1, length);
    let rest = reverse(str.substring_ascii(0, length - 1));
    let reversed = String::from_str(last).concat(rest.as_str());
    proof {
        assert(reversed@ =~= str@.reverse());
    }
    reversed
}

/// Appends the characters of `str` to `tail` in reverse order, and hands
/// `tail` back.
///
/// The string is cut one byte at a time, so it must be made of ASCII
/// characters only.
pub fn reverse_tail<'a>(str: &'a str, tail: &'a mut String) -> (result: &'a mut String)
    requires
        str.is_ascii(),
    ensures
        result@ == old(tail)@ + str@.reverse(),
        *final(tail) == *final(result),
    decreases str@.len(),
{
    let length = str.unicode_len();
    if length == 0 {
        proof {
            assert(str@.reverse() =~= Seq::<char>::empty());
            assert(tail@ + str@.reverse() =~= tail@);
        }
        return tail;
    }
    tail.append(str.substring_ascii(length - 1, length));
    let ghost middle = tail@;
    let result = reverse_tail(str.substring_ascii(0, length - 1), tail);
    proof {
        assert(result@ =~= old(tail)@ + str@.reverse());
    }
    result
}

/// Tells whether `str` reads the same backwards.
///
/// The string is cut one byte at a time, so it must be made of ASCII
/// characters only.
pub fn is_palindrome(str: &str) -> (result: bool)
    requires
        str.is_ascii(),
    ensures
        result == (str@ == str@.reverse()),
    decreases str@.len(),
{
    let length = str.unicode_len();
    if length <= 1 {
        proof {
            assert(str@ =~= str@.reverse());
        }
        return true;
    }
    if str.get_char(0) == str.get_char(length - 1) {
        let inner = str.substring_ascii(1, length - 1);
        let result = is_palindrome(inner);
        proof {
            let s = str@;
            let m = inner@;
            if m == m.reverse() {
                assert forall|i: int| 0 <= i < s.len() implies s[i] == s.reverse()[i] by {
                    if 0 < i < s.len() - 1 {
                        assert(m[i - 1] == m.reverse()[i - 1]);
                    }
                }
                assert(s =~= s.reverse());
            }
            if s == s.reverse() {
                assert forall|i: int| 0 <= i < m.len() implies m[i] == m.reverse()[i] by {
                    assert(s[i + 1] == s.reverse()[i + 1]);
                }
                assert(m =~= m.reverse());
            }
        }
        result
    } else {
        proof {
            let s = str@;
            if s == s.reverse() {
                assert(s[0] == s.reverse()[0]);
            }
        }
        false
    }
}

/// Tells whether `predicate` holds of some element of `vec`, looking at
/// the elements from the front and stopping at the first of which it
/// holds.
pub fn some<T, P>(vec: &[T], predicate: P) -> (result: bool) where P: Fn(&T) -> bool
    requires
        forall|i: int| 0 <= i < vec@.len() ==> call_requires(predicate, (&#[trigger] vec@[i],)),
    ensures
        result ==> exists|i: int|
            0 <= i < vec@.len() && call_ensures(predicate, (&#[trigger] vec@[i],), true),
        !result ==> forall|i: int|
            0 <= i < vec@.len() ==> call_ensures(predicate, (&#[trigger] vec@[i],), false),
    decreases vec@.len(),
{
    if vec.len() == 0 {
        return false;
    } else if predicate(&vec[0]) {
        return true;
    } else {
        let rest = slice_subrange(vec, 1, vec.len());
        proof {
            assert forall|i: int| 0 <= i < rest@.len() implies call_requires(
                predicate,
                (&#[trigger] rest@[i],),
            ) by {
                assert(rest@[i] == vec@[i + 1]);
            }
        }
        let result = some(rest, predicate);
        proof {
            if result {
                let i = choose|i: int|
                    0 <= i < rest@.len() && call_ensures(predicate, (&#[trigger] rest@[i],), true);
                assert(rest@[i] == vec@[i + 1]);
            } else {
                assert forall|i: int| 0 <= i < vec@.len() implies call_ensures(
                    predicate,
                    (&#[trigger] vec@[i],),
                    false,
                ) by {
                    if i > 0 {
                        assert(rest@[i - 1] == vec@[i]);
                    }
                }
            }
        }
        result
    }
}

} // verus!

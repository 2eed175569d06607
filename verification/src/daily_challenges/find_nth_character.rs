use vstd::prelude::*;

verus! {

/// What a binary digit becomes in one step: `0` becomes `01`, and `1`
/// becomes `10`.
pub open spec fn rewritten(c: char) -> (char, char) {
    if c == '0' {
        ('0', '1')
    } else {
        ('1', '0')
    }
}

/// The string `s` after one step, in which every digit is rewritten.
pub open spec fn step(s: Seq<char>) -> Seq<char> {
    Seq::new(
        2 * s.len(),
        |i: int|
            if i % 2 == 0 {
                rewritten(s[i / 2]).0
            } else {
                rewritten(s[i / 2]).1
            },
    )
}

/// The string `s` after `rounds` steps.
pub open spec fn rewritten_times(s: Seq<char>, rounds: nat) -> Seq<char>
    decreases rounds,
{
    if rounds == 0 {
        s
    } else {
        step(rewritten_times(s, (rounds - 1) as nat))
    }
}

/// Every character of `s` is a binary digit.
pub open spec fn binary(s: Seq<char>) -> bool {
    forall|i: int| 0 <= i < s.len() ==> #[trigger] s[i] == '0' || s[i] == '1'
}

/// `a` is how `b` begins.
pub open spec fn begins(a: Seq<char>, b: Seq<char>) -> bool {
    a.len() <= b.len() && forall|i: int| 0 <= i < a.len() ==> a[i] == b[i]
}

/// A step keeps binary strings binary.
pub proof fn lemma_step_binary(s: Seq<char>)
    requires
        binary(s),
    ensures
        binary(step(s)),
{
    assert forall|i: int| 0 <= i < step(s).len() implies #[trigger] step(s)[i] == '0' || step(
        s,
    )[i] == '1' by {
        assert(s[i / 2] == '0' || s[i / 2] == '1');
    }
}

/// Any number of steps keeps binary strings binary.
pub proof fn lemma_rewritten_binary(s: Seq<char>, rounds: nat)
    requires
        binary(s),
    ensures
        binary(rewritten_times(s, rounds)),
    decreases rounds,
{
    if rounds > 0 {
        lemma_rewritten_binary(s, (rounds - 1) as nat);
        lemma_step_binary(rewritten_times(s, (rounds - 1) as nat));
    }
}

/// Finds the character at position `char_position` of the binary string
/// `value` after `iteration_number` steps, in each of which every `0`
/// becomes `01` and every `1` becomes `10`. Of each intermediate string
/// only as much is worked out as the position asks for.
pub fn find_nth_character(value: &str, iteration_number: u32, char_position: usize) -> (found: char)
    requires
        binary(value@),
        char_position < rewritten_times(value@, iteration_number as nat).len(),
    ensures
        found == rewritten_times(value@, iteration_number as nat)[char_position as int],
{
    let length = value.unicode_len();
    let mut current: Vec<char> = Vec::new();
    let mut k: usize = 0;
    while k < length
        invariant
            length == value@.len(),
            k <= length,
            current@ == value@.take(k as int),
        decreases length - k,
    {
        current.push(value.get_char(k));
        proof {
            assert(current@ =~= value@.take(k + 1));
        }
        k += 1;
    }
    proof {
        assert(current@ =~= value@);
    }
    let mut round: u32 = 0;
    while round < iteration_number
        invariant
            round <= iteration_number,
            binary(value@),
            begins(current@, rewritten_times(value@, round as nat)),
            current@.len() > char_position || current@ == rewritten_times(value@, round as nat),
            char_position < rewritten_times(value@, iteration_number as nat).len(),
        decreases iteration_number - round,
    {
        let ghost whole = rewritten_times(value@, round as nat);
        proof {
            lemma_rewritten_binary(value@, round as nat);
        }
        let mut next: Vec<char> = Vec::new();
        let mut i: usize = 0;
        let mut enough = false;
        while i < current.len() && !enough
            invariant
                i <= current@.len(),
                begins(current@, whole),
                binary(whole),
                next@.len() == 2 * i,
                begins(next@, step(whole)),
                enough ==> next@.len() > char_position,
            decreases current@.len() - i, if enough {
                    0int
                } else {
                    1int
                },
        {
            let c = current[i];
            let ghost before = next@;
            proof {
                assert(current@[i as int] == whole[i as int]);
                assert(c == '0' || c == '1');
            }
            if c == '0' {
                next.push('0');
                next.push('1');
            } else {
                next.push('1');
                next.push('0');
            }
            proof {
                assert forall|j: int| 0 <= j < next@.len() implies next@[j] == step(whole)[j] by {
                    if j < before.len() {
                        assert(next@[j] == before[j]);
                    } else {
                        assert(j / 2 == i);
                    }
                }
            }
            i += 1;
            if next.len() > char_position {
                enough = true;
            }
        }
        proof {
            if !enough {
                assert(i == current@.len());
                if current@.len() > char_position {
                    assert(next@.len() > char_position);
                } else {
                    assert(current@ == whole);
                    assert(next@ =~= step(whole));
                }
            }
        }
        current = next;
        round += 1;
    }
    current[char_position]
}

} // verus!

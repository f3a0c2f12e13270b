//! Names of the stack locals the compiler introduces itself.
//!
//! A state read binds the sigscript base it measures from to a local named
//! `__input_state_base_<index>`, with the first index, from the number of bindings upward,
//! whose name is not bound yet. Source identifiers begin with a letter, so they never take
//! such a name.

use vstd::prelude::*;

use crate::stack::StackBindings;

verus! {

/// The prefix of the sigscript base locals.
pub const INPUT_STATE_BASE_PREFIX: &'static str = "__input_state_base_";

/// The decimal digit `d`.
pub open spec fn digit_char(d: nat) -> char {
    if d == 0 {
        '0'
    } else if d == 1 {
        '1'
    } else if d == 2 {
        '2'
    } else if d == 3 {
        '3'
    } else if d == 4 {
        '4'
    } else if d == 5 {
        '5'
    } else if d == 6 {
        '6'
    } else if d == 7 {
        '7'
    } else if d == 8 {
        '8'
    } else {
        '9'
    }
}

/// The decimal notation of `n`, without leading zeros.
pub open spec fn decimal(n: nat) -> Seq<char>
    decreases n,
{
    if n < 10 {
        seq![digit_char(n)]
    } else {
        decimal(n / 10).push(digit_char(n % 10))
    }
}

/// The name of the sigscript base local with index `k`.
pub open spec fn base_name(k: nat) -> Seq<char> {
    INPUT_STATE_BASE_PREFIX@ + decimal(k)
}

/// The first index from `k` on, trying at most `fuel` of them, whose name is not bound in `b`.
pub open spec fn fresh_from(b: Seq<Seq<char>>, k: nat, fuel: nat) -> nat
    decreases fuel,
{
    if fuel == 0 || !b.contains(base_name(k)) {
        k
    } else {
        fresh_from(b, k + 1, (fuel - 1) as nat)
    }
}

/// The index of the sigscript base local bound next over the bindings `b`: the first index
/// from `b.len()` on whose name is free (one of the next `b.len() + 1` is).
pub open spec fn fresh_base_index(b: Seq<Seq<char>>) -> nat {
    fresh_from(b, b.len(), b.len() + 1)
}

proof fn lemma_digit_injective(a: nat, b: nat)
    requires
        a < 10,
        b < 10,
        digit_char(a) == digit_char(b),
    ensures
        a == b,
{
}

proof fn lemma_decimal_len(n: nat)
    ensures
        decimal(n).len() >= 1,
        n >= 10 ==> decimal(n).len() >= 2,
    decreases n,
{
    if n >= 10 {
        lemma_decimal_len(n / 10);
    }
}

/// Distinct numbers have distinct decimal notations.
pub proof fn lemma_decimal_injective(a: nat, b: nat)
    requires
        decimal(a) == decimal(b),
    ensures
        a == b,
    decreases a,
{
    lemma_decimal_len(a);
    lemma_decimal_len(b);
    if a < 10 && b < 10 {
        assert(decimal(a) == seq![digit_char(a)]);
        assert(decimal(b) == seq![digit_char(b)]);
        assert(seq![digit_char(a)][0] == digit_char(a));
        assert(seq![digit_char(b)][0] == digit_char(b));
        lemma_digit_injective(a, b);
    } else if a >= 10 && b >= 10 {
        assert(decimal(a).last() == digit_char(a % 10));
        assert(decimal(b).last() == digit_char(b % 10));
        lemma_digit_injective(a % 10, b % 10);
        assert(decimal(a).drop_last() == decimal(a / 10));
        assert(decimal(b).drop_last() == decimal(b / 10));
        lemma_decimal_injective(a / 10, b / 10);
    }
}

/// Distinct indices give distinct local names.
pub proof fn lemma_base_name_injective(a: nat, b: nat)
    requires
        base_name(a) == base_name(b),
    ensures
        a == b,
{
    let p = INPUT_STATE_BASE_PREFIX@;
    assert(base_name(a).skip(p.len() as int) =~= decimal(a));
    assert(base_name(b).skip(p.len() as int) =~= decimal(b));
    lemma_decimal_injective(a, b);
}

/// If the names of all indices `lo ..= hi` are bound in `b`, `b` holds at least that many
/// bindings.
pub proof fn lemma_bound_names_fit(b: Seq<Seq<char>>, lo: nat, hi: nat)
    requires
        lo <= hi,
        forall|k: nat| lo <= k <= hi ==> b.contains(#[trigger] base_name(k)),
    ensures
        hi + 1 - lo <= b.len(),
{
    broadcast use vstd::seq_lib::seq_to_set_is_finite;

    let xs = vstd::set_lib::set_int_range(lo as int, hi + 1int);
    let f = |i: int| base_name(i as nat);
    let ys = xs.map(f);
    vstd::set_lib::lemma_int_range(lo as int, hi + 1int);
    assert(vstd::relations::injective_on(f, xs)) by {
        assert forall|x1: int, x2: int|
            xs.contains(x1) && xs.contains(x2) && #[trigger] f(x1) == #[trigger] f(x2) implies x1 == x2 by {
            lemma_base_name_injective(x1 as nat, x2 as nat);
        }
    }
    vstd::set_lib::lemma_map_size(xs, ys, f);
    assert(ys.subset_of(b.to_set())) by {
        assert forall|y: Seq<char>| ys.contains(y) implies b.to_set().contains(y) by {
            let x = choose|x: int| xs.contains(x) && f(x) == y;
            assert(b.contains(base_name(x as nat)));
        }
    }
    vstd::set_lib::lemma_len_subset(ys, b.to_set());
    b.lemma_cardinality_of_set();
}

/// The decimal digit `d` as a string.
fn digit_str(d: usize) -> (r: &'static str)
    requires
        d < 10,
    ensures
        r@ == seq![digit_char(d as nat)],
{
    if d == 0 {
        proof {
            reveal_strlit("0");
        }
        "0"
    } else if d == 1 {
        proof {
            reveal_strlit("1");
        }
        "1"
    } else if d == 2 {
        proof {
            reveal_strlit("2");
        }
        "2"
    } else if d == 3 {
        proof {
            reveal_strlit("3");
        }
        "3"
    } else if d == 4 {
        proof {
            reveal_strlit("4");
        }
        "4"
    } else if d == 5 {
        proof {
            reveal_strlit("5");
        }
        "5"
    } else if d == 6 {
        proof {
            reveal_strlit("6");
        }
        "6"
    } else if d == 7 {
        proof {
            reveal_strlit("7");
        }
        "7"
    } else if d == 8 {
        proof {
            reveal_strlit("8");
        }
        "8"
    } else {
        proof {
            reveal_strlit("9");
        }
        "9"
    }
}

/// The decimal notation of `n`.
pub fn decimal_string(n: usize) -> (r: String)
    ensures
        r@ == decimal(n as nat),
    decreases n,
{
    if n < 10 {
        String::from_str(digit_str(n))
    } else {
        let mut s = decimal_string(n / 10);
        s.append(digit_str(n % 10));
        s
    }
}

/// The name of the sigscript base local with index `index`.
pub fn input_state_base_name(index: usize) -> (r: String)
    ensures
        r@ == base_name(index as nat),
{
    let mut s = String::from_str(INPUT_STATE_BASE_PREFIX);
    let digits = decimal_string(index);
    s.append(digits.as_str());
    s
}

/// The name of the next sigscript base local over `stack_bindings`: the first free one from
/// index `stack_bindings.len()` on. Fails only if that index does not fit in `usize`.
pub fn fresh_input_state_base_name(stack_bindings: &StackBindings) -> (r: Result<String, crate::error::CompilerError>)
    ensures
        match r {
            Ok(name) => fresh_base_index(stack_bindings@) <= usize::MAX && name@ == base_name(
                fresh_base_index(stack_bindings@),
            ),
            Err(e) => fresh_base_index(stack_bindings@) > usize::MAX && e
                == crate::error::CompilerError::ArithmeticOverflow,
        },
{
    let ghost b = stack_bindings@;
    let len = stack_bindings.len();
    let mut index = len;
    loop
        invariant
            b == stack_bindings@,
            len == b.len(),
            len <= index,
            index <= 2 * len,
            forall|k: nat| len <= k < index ==> b.contains(#[trigger] base_name(k)),
            fresh_base_index(b) == fresh_from(b, index as nat, (2 * len + 1 - index) as nat),
        decreases 2 * len - index,
    {
        let candidate = input_state_base_name(index);
        if !stack_bindings.contains(candidate.as_str()) {
            return Ok(candidate);
        }
        proof {
            assert forall|k: nat| len <= k <= index implies b.contains(#[trigger] base_name(k)) by {
                if k < index {
                } else {
                    assert(base_name(k) == candidate@);
                }
            }
            lemma_bound_names_fit(b, len as nat, index as nat);
        }
        index = match index.checked_add(1) {
            Some(next) => next,
            None => {
                proof {
                    assert(fresh_from(b, index as nat, (2 * len + 1 - index) as nat) == fresh_from(
                        b,
                        (index + 1) as nat,
                        (2 * len - index) as nat,
                    ));
                    lemma_fresh_from_at_least(b, (index + 1) as nat, (2 * len - index) as nat);
                }
                return Err(crate::error::CompilerError::ArithmeticOverflow);
            },
        };
    }
}

proof fn lemma_fresh_from_at_least(b: Seq<Seq<char>>, k: nat, fuel: nat)
    ensures
        fresh_from(b, k, fuel) >= k,
    decreases fuel,
{
    if fuel > 0 && b.contains(base_name(k)) {
        lemma_fresh_from_at_least(b, k + 1, (fuel - 1) as nat);
    }
}

/// The sigscript base local of a state read never takes a name that is already bound: the
/// index it is named by is free, and found among the first `b.len() + 1` candidates.
pub proof fn lemma_fresh_base_is_free(b: Seq<Seq<char>>)
    ensures
        !b.contains(base_name(fresh_base_index(b))),
        b.len() <= fresh_base_index(b) <= 2 * b.len(),
{
    lemma_fresh_from_free(b, b.len(), b.len() + 1);
}

proof fn lemma_fresh_from_free(b: Seq<Seq<char>>, k: nat, fuel: nat)
    requires
        b.len() <= k,
        k + fuel == 2 * b.len() + 1,
        forall|j: nat| b.len() <= j < k ==> b.contains(#[trigger] base_name(j)),
    ensures
        !b.contains(base_name(fresh_from(b, k, fuel))),
        k <= fresh_from(b, k, fuel) <= 2 * b.len(),
    decreases fuel,
{
    if fuel == 0 {
        lemma_bound_names_fit(b, b.len(), (k - 1) as nat);
        assert(false);
    } else if b.contains(base_name(k)) {
        assert forall|j: nat| b.len() <= j < k + 1 implies b.contains(#[trigger] base_name(j)) by {
            if j == k {
            }
        }
        if k == 2 * b.len() {
            lemma_bound_names_fit(b, b.len(), k);
            assert(false);
        }
        lemma_fresh_from_free(b, k + 1, (fuel - 1) as nat);
    }
}

} // verus!

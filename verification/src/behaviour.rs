//! Selection behaviours: how the next recorded response is picked for a key
//! that has several, as a pure function of the last served index and the
//! number of available responses.

use vstd::prelude::*;
use vstd::arithmetic::div_mod::lemma_add_mod_noop;
use vstd::arithmetic::div_mod::lemma_mod_bound;
use vstd::arithmetic::div_mod::lemma_mod_self_0;
use vstd::arithmetic::div_mod::lemma_small_mod;

use crate::text::str_eq;

verus! {

/// Policy deciding which of a key's recorded responses is served next.
#[derive(Clone, Copy, Debug, PartialEq, Eq, Structural)]
pub enum ResponderBehaviour {
    AlwaysFirst,
    AlwaysLast,
    Random,
    SequentialClamping,
    SequentialOnce,
    SequentialWrapping,
}

/// Lifts an executable optional index into the mathematical one.
pub open spec fn opt_int(o: Option<usize>) -> Option<int> {
    match o {
        Option::Some(v) => Option::Some(v as int),
        Option::None => Option::None,
    }
}

/// The index a deterministic behaviour picks, given the last served index and
/// the number of responses. Meaningless for `Random`, which is not a function
/// of these arguments.
pub open spec fn chosen_index(b: ResponderBehaviour, last: Option<int>, length: int) -> Option<int>
    recommends
        !(b is Random),
{
    if length < 1 {
        Option::None
    } else {
        match b {
            ResponderBehaviour::AlwaysFirst => Option::Some(0int),
            ResponderBehaviour::AlwaysLast => Option::Some(length - 1),
            ResponderBehaviour::SequentialWrapping => match last {
                Option::None => Option::Some(0int),
                Option::Some(l) => Option::Some((l + 1) % length),
            },
            ResponderBehaviour::SequentialClamping => match last {
                Option::None => Option::Some(0int),
                Option::Some(l) => Option::Some(if l + 1 <= length - 1 {
                    l + 1
                } else {
                    length - 1
                }),
            },
            ResponderBehaviour::SequentialOnce => match last {
                Option::None => Option::Some(0int),
                Option::Some(l) => if l + 1 >= length {
                    Option::None
                } else {
                    Option::Some(l + 1)
                },
            },
            // Not a function of its arguments; the relation below never
            // consults this arm.
            ResponderBehaviour::Random => Option::None,
        }
    }
}

/// What every outcome of `choose_index` satisfies: the exact index for the
/// deterministic behaviours, and for `Random` only that some in-range index
/// comes back whenever one exists.
pub open spec fn is_chosen(
    b: ResponderBehaviour,
    last: Option<int>,
    length: int,
    r: Option<int>,
) -> bool {
    if b is Random {
        if length >= 1 {
            r matches Option::Some(i) && 0 <= i < length
        } else {
            r is None
        }
    } else {
        r == chosen_index(b, last, length)
    }
}

/// Relies on `rand::thread_rng` and `rand::Rng::gen_range`: a pseudo-random
/// value in `[0, n)`. `gen_range` panics only on an empty range, which
/// `n >= 1` rules out; nothing more is promised of a random draw.
#[verifier::external_body]
fn random_below(n: usize) -> (r: usize)
    requires
        n >= 1,
    ensures
        r < n,
{
    rand::Rng::gen_range(&mut rand::thread_rng(), 0..n)
}

proof fn lemma_inc_mod(l: int, n: int)
    requires
        n >= 1,
        l >= 0,
    ensures
        (l + 1) % n == if l % n + 1 == n {
            0int
        } else {
            l % n + 1
        },
{
    lemma_add_mod_noop(l, 1, n);
    if n == 1 {
        lemma_small_mod(0, 1);
    } else {
        lemma_small_mod(1, n as nat);
        let r = l % n;
        if r + 1 == n {
            lemma_mod_self_0(n);
        } else {
            lemma_small_mod((r + 1) as nat, n as nat);
        }
    }
}

impl ResponderBehaviour {
    /// Picks the index of the response to serve next, or `None` when the
    /// behaviour yields nothing (an empty list, or `SequentialOnce` after
    /// its last response).
    pub fn choose_index(&self, last: Option<usize>, length: usize) -> (r: Option<usize>)
        ensures
            is_chosen(*self, opt_int(last), length as int, opt_int(r)),
    {
        if length < 1 {
            return Option::None;
        }

        match self {
            ResponderBehaviour::AlwaysFirst => Option::Some(0),
            ResponderBehaviour::AlwaysLast => Option::Some(length - 1),
            ResponderBehaviour::Random => Option::Some(random_below(length)),
            ResponderBehaviour::SequentialWrapping => match last {
                Option::None => Option::Some(0),
                Option::Some(l) => {
                    let m = l % length;
                    proof {
                        lemma_inc_mod(l as int, length as int);
                    }
                    if m + 1 == length {
                        Option::Some(0)
                    } else {
                        Option::Some(m + 1)
                    }
                },
            },
            ResponderBehaviour::SequentialClamping => match last {
                Option::None => Option::Some(0),
                Option::Some(l) => if l >= length - 1 {
                    Option::Some(length - 1)
                } else {
                    Option::Some(l + 1)
                },
            },
            ResponderBehaviour::SequentialOnce => match last {
                Option::None => Option::Some(0),
                Option::Some(l) => if l >= length - 1 {
                    Option::None
                } else {
                    Option::Some(l + 1)
                },
            },
        }
    }

    /// The accepted behaviour names, in the order of the variants above.
    pub fn variants() -> (r: Vec<&'static str>)
        ensures
            r@.len() == 6,
            r@[0]@ == "always-first"@,
            r@[1]@ == "always-last"@,
            r@[2]@ == "random"@,
            r@[3]@ == "sequential-clamping"@,
            r@[4]@ == "sequential-once"@,
            r@[5]@ == "sequential-wrapping"@,
    {
        let mut v: Vec<&'static str> = Vec::new();
        v.push("always-first");
        v.push("always-last");
        v.push("random");
        v.push("sequential-clamping");
        v.push("sequential-once");
        v.push("sequential-wrapping");
        v
    }

    /// The behaviour a command-line name stands for, if any.
    pub fn from_name(s: &str) -> (r: Result<Self, &'static str>)
        ensures
            match behaviour_of_name(s@) {
                Option::Some(b) => r == Result::<Self, &'static str>::Ok(b),
                Option::None => r matches Result::Err(m) && m@ == "Unrecognized behaviour option"@,
            },
    {
        if str_eq(s, "always-first") {
            Result::Ok(ResponderBehaviour::AlwaysFirst)
        } else if str_eq(s, "always-last") {
            Result::Ok(ResponderBehaviour::AlwaysLast)
        } else if str_eq(s, "random") {
            Result::Ok(ResponderBehaviour::Random)
        } else if str_eq(s, "sequential-clamping") {
            Result::Ok(ResponderBehaviour::SequentialClamping)
        } else if str_eq(s, "sequential-once") {
            Result::Ok(ResponderBehaviour::SequentialOnce)
        } else if str_eq(s, "sequential-wrapping") {
            Result::Ok(ResponderBehaviour::SequentialWrapping)
        } else {
            Result::Err("Unrecognized behaviour option")
        }
    }
}

/// The variant each accepted name denotes; `None` for an unrecognized name.
pub open spec fn behaviour_of_name(s: Seq<char>) -> Option<ResponderBehaviour> {
    if s == "always-first"@ {
        Option::Some(ResponderBehaviour::AlwaysFirst)
    } else if s == "always-last"@ {
        Option::Some(ResponderBehaviour::AlwaysLast)
    } else if s == "random"@ {
        Option::Some(ResponderBehaviour::Random)
    } else if s == "sequential-clamping"@ {
        Option::Some(ResponderBehaviour::SequentialClamping)
    } else if s == "sequential-once"@ {
        Option::Some(ResponderBehaviour::SequentialOnce)
    } else if s == "sequential-wrapping"@ {
        Option::Some(ResponderBehaviour::SequentialWrapping)
    } else {
        Option::None
    }
}

impl core::str::FromStr for ResponderBehaviour {
    type Err = &'static str;

    fn from_str(s: &str) -> Result<Self, Self::Err> {
        Self::from_name(s)
    }
}

/// `AlwaysFirst` picks the first response and `AlwaysLast` the last one on
/// every single call, whatever was served before: repeated calls are
/// idempotent in the served index.
pub proof fn lemma_always_first_last_idempotent(last: Option<int>, length: int)
    requires
        length >= 1,
    ensures
        chosen_index(ResponderBehaviour::AlwaysFirst, last, length) == Option::Some(0int),
        chosen_index(ResponderBehaviour::AlwaysLast, last, length) == Option::Some(length - 1),
{
}

/// The cursor value before the `n`-th serialized `SequentialWrapping` call
/// (counting calls from 0) on a key whose cursor started out empty.
pub open spec fn wrapping_cursor(n: nat, length: int) -> Option<int> {
    if n == 0 {
        Option::None
    } else {
        Option::Some((n - 1) as int % length)
    }
}

/// `SequentialWrapping` replays the recorded responses cyclically: the `n`-th
/// serialized call on a key with `length` responses picks index `n % length`,
/// and leaves the cursor that the `n + 1`-th call starts from. So any run of
/// successive calls serves exactly the cyclic sequence of recorded responses,
/// with no index skipped or served twice within a cycle.
pub proof fn lemma_sequential_wrapping_cycle(n: nat, length: int)
    requires
        length >= 1,
    ensures
        chosen_index(ResponderBehaviour::SequentialWrapping, wrapping_cursor(n, length), length)
            == Option::Some(n as int % length),
        wrapping_cursor(n + 1, length) == Option::Some(n as int % length),
{
    if n == 0 {
        lemma_small_mod(0, length as nat);
    } else {
        let r = (n - 1) as int % length;
        lemma_mod_bound((n - 1) as int, length);
        lemma_inc_mod((n - 1) as int, length);
        if r + 1 == length {
            lemma_mod_self_0(length);
        } else {
            lemma_small_mod((r + 1) as nat, length as nat);
        }
    }
}

/// `SequentialOnce` walks the responses exactly once: from an empty cursor it
/// serves index 0, each later call advances by one, and once the last index
/// has been served every further call yields nothing — and since a failed
/// call leaves the cursor unchanged, the exhaustion is permanent.
pub proof fn lemma_sequential_once_exhausts(length: int)
    requires
        length >= 1,
    ensures
        chosen_index(ResponderBehaviour::SequentialOnce, Option::None, length)
            == Option::Some(0int),
        forall|l: int|
            0 <= l < length - 1 ==> chosen_index(
                ResponderBehaviour::SequentialOnce,
                Option::Some(l),
                length,
            ) == Option::Some(l + 1),
        forall|l: int|
            l >= length - 1 ==> chosen_index(
                ResponderBehaviour::SequentialOnce,
                Option::Some(l),
                length,
            ) is None,
{
}

} // verus!

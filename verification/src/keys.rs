//! Verified construction of the store's key strings: the registrant-list key
//! `SUBSCRIBE_REGISTRY:{name}:{event}` and the event-pool key
//! `REGISTRY_EVENT_POOL:{name}`.

use vstd::prelude::*;
use vstd::string::StringExecFns;

verus! {

/// The decimal digit character for `d`; meaningful for `d < 10`.
pub open spec fn digit(d: nat) -> char {
    if d == 0 {
        '0'
    } else if d == 1 {
        '1'
    } else if d == 2 {
        '2'
    } else if d == 3 {
        '3'
    } else if d == 4 {
        '4'
    } else if d == 5 {
        '5'
    } else if d == 6 {
        '6'
    } else if d == 7 {
        '7'
    } else if d == 8 {
        '8'
    } else {
        '9'
    }
}

/// The decimal rendering of `n`, most significant digit first.
pub open spec fn dec_digits(n: nat) -> Seq<char>
    decreases n,
{
    if n < 10 {
        seq![digit(n)]
    } else {
        dec_digits(n / 10).push(digit(n % 10))
    }
}

/// The registrant-list key for `event` under the registry named `name`.
pub open spec fn subscribe_key(name: Seq<char>, event: u64) -> Seq<char> {
    "SUBSCRIBE_REGISTRY:"@ + name + ":"@ + dec_digits(event as nat)
}

/// The event-pool key for the registry named `name`.
pub open spec fn pool_key(name: Seq<char>) -> Seq<char> {
    "REGISTRY_EVENT_POOL:"@ + name
}

/// A one-character string slice for the decimal digit `d`.
fn digit_str(d: u64) -> (r: &'static str)
    requires
        d < 10,
    ensures
        r@ == seq![digit(d as nat)],
{
    let r: &'static str = if d == 0 {
        "0"
    } else if d == 1 {
        "1"
    } else if d == 2 {
        "2"
    } else if d == 3 {
        "3"
    } else if d == 4 {
        "4"
    } else if d == 5 {
        "5"
    } else if d == 6 {
        "6"
    } else if d == 7 {
        "7"
    } else if d == 8 {
        "8"
    } else {
        "9"
    };
    proof {
        reveal_strlit("0");
        reveal_strlit("1");
        reveal_strlit("2");
        reveal_strlit("3");
        reveal_strlit("4");
        reveal_strlit("5");
        reveal_strlit("6");
        reveal_strlit("7");
        reveal_strlit("8");
        reveal_strlit("9");
        assert(r@ =~= seq![digit(d as nat)]);
    }
    r
}

/// `n` rendered in decimal.
pub fn u64_to_decimal(n: u64) -> (r: String)
    ensures
        r@ == dec_digits(n as nat),
    decreases n,
{
    if n < 10 {
        digit_str(n).to_owned()
    } else {
        let mut s = u64_to_decimal(n / 10);
        s.append(digit_str(n % 10));
        proof {
            assert(s@ =~= dec_digits((n as nat) / 10).push(digit((n as nat) % 10)));
        }
        s
    }
}

/// Build the registrant-list key `SUBSCRIBE_REGISTRY:{name}:{event}`.
pub fn subscribe_registry_key(name: &str, event: u64) -> (r: String)
    ensures
        r@ == subscribe_key(name@, event),
{
    let mut s = ("SUBSCRIBE_REGISTRY:").to_owned();
    s.append(name);
    s.append(":");
    let d = u64_to_decimal(event);
    s.append(d.as_str());
    proof {
        assert(s@ =~= subscribe_key(name@, event));
    }
    s
}

/// Build the event-pool key `REGISTRY_EVENT_POOL:{name}`.
pub fn event_pool_key(name: &str) -> (r: String)
    ensures
        r@ == pool_key(name@),
{
    let mut s = ("REGISTRY_EVENT_POOL:").to_owned();
    s.append(name);
    proof {
        assert(s@ =~= pool_key(name@));
    }
    s
}

} // verus!

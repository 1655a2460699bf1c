//! Small text helpers: decimal rendering, plural labels, addresses and cookies.

use vstd::prelude::*;
use vstd::string::*;

verus! {

/// The character of a decimal digit.
pub open spec fn digit_char(d: int) -> char {
    seq!['0', '1', '2', '3', '4', '5', '6', '7', '8', '9'][d]
}

/// Decimal digits of a natural number, most significant first, without leading zeros.
pub open spec fn nat_decimal(n: nat) -> Seq<char>
    decreases n,
{
    if n < 10 {
        seq![digit_char(n as int)]
    } else {
        nat_decimal(n / 10).push(digit_char((n % 10) as int))
    }
}

/// Decimal rendering of an integer, with a leading `-` when negative.
pub open spec fn int_decimal(n: int) -> Seq<char> {
    if n < 0 {
        seq!['-'] + nat_decimal((-n) as nat)
    } else {
        nat_decimal(n as nat)
    }
}

fn digit_str(d: u64) -> (r: &'static str)
    requires
        d < 10,
    ensures
        r@ == seq![digit_char(d as int)],
{
    proof {
        reveal_strlit("0");
        reveal_strlit("1");
        reveal_strlit("2");
        reveal_strlit("3");
        reveal_strlit("4");
        reveal_strlit("5");
        reveal_strlit("6");
        reveal_strlit("7");
        reveal_strlit("8");
        reveal_strlit("9");
    }
    let r = if d == 0 {
        "0"
    } else if d == 1 {
        "1"
    } else if d == 2 {
        "2"
    } else if d == 3 {
        "3"
    } else if d == 4 {
        "4"
    } else if d == 5 {
        "5"
    } else if d == 6 {
        "6"
    } else if d == 7 {
        "7"
    } else if d == 8 {
        "8"
    } else {
        "9"
    };
    assert(r@ =~= seq![digit_char(d as int)]);
    r
}

fn append_digits(s: &mut String, n: u64)
    ensures
        final(s)@ == old(s)@ + nat_decimal(n as nat),
    decreases n,
{
    if n >= 10 {
        append_digits(s, n / 10);
    }
    s.append(digit_str(n % 10));
    assert(final(s)@ =~= old(s)@ + nat_decimal(n as nat));
}

/// Appends the decimal rendering of `n`.
pub fn append_decimal(s: &mut String, n: i64)
    ensures
        final(s)@ == old(s)@ + int_decimal(n as int),
{
    if n < 0 {
        proof {
            reveal_strlit("-");
        }
        s.append("-");
        let m: u64 = if n == i64::MIN {
            9223372036854775808u64
        } else {
            (-n) as u64
        };
        append_digits(s, m);
    } else {
        append_digits(s, n as u64);
    }
    assert(final(s)@ =~= old(s)@ + int_decimal(n as int));
}

/// `singular` when `num` is exactly one, `plural` otherwise.
pub fn pluralize(num: i32, singular: &str, plural: &str) -> (r: String)
    ensures
        r@ == (if num == 1 { singular@ } else { plural@ }),
{
    if num == 1 {
        singular.to_owned()
    } else {
        plural.to_owned()
    }
}

/// `prefix`, the decimal rendering of `id`, then `suffix`.
fn id_between(prefix: &str, id: i64, suffix: &str) -> (r: String)
    ensures
        r@ == prefix@ + int_decimal(id as int) + suffix@,
{
    let mut s = prefix.to_owned();
    append_decimal(&mut s, id);
    s.append(suffix);
    s
}

/// Address of the room collection.
pub fn rooms_url() -> (r: String)
    ensures
        r@ == "/rooms"@,
{
    "/rooms".to_owned()
}

/// Address of a room's admin page.
pub fn room_page_url(room_id: i64) -> (r: String)
    ensures
        r@ == "/rooms/"@ + int_decimal(room_id as int),
{
    proof {
        reveal_strlit("");
    }
    let r = id_between("/rooms/", room_id, "");
    assert(r@ =~= "/rooms/"@ + int_decimal(room_id as int));
    r
}

/// Address that starts the vote of a room.
pub fn start_vote_url(room_id: i64) -> (r: String)
    ensures
        r@ == "/rooms/"@ + int_decimal(room_id as int) + "/start"@,
{
    id_between("/rooms/", room_id, "/start")
}

/// Address that ends the vote of a room.
pub fn end_vote_url(room_id: i64) -> (r: String)
    ensures
        r@ == "/rooms/"@ + int_decimal(room_id as int) + "/end"@,
{
    id_between("/rooms/", room_id, "/end")
}

/// Address of a room's live event stream.
pub fn room_listen_url(room_id: i64) -> (r: String)
    ensures
        r@ == "/rooms/"@ + int_decimal(room_id as int) + "/listen"@,
{
    id_between("/rooms/", room_id, "/listen")
}

/// Address at which a voter joins a room.
pub fn join_room_url(room_id: i64) -> (r: String)
    ensures
        r@ == "/rooms/"@ + int_decimal(room_id as int) + "/join"@,
{
    id_between("/rooms/", room_id, "/join")
}

/// Address of a voter's page.
pub fn voter_page_url(voter_id: i64) -> (r: String)
    ensures
        r@ == "/voters/"@ + int_decimal(voter_id as int),
{
    proof {
        reveal_strlit("");
    }
    let r = id_between("/voters/", voter_id, "");
    assert(r@ =~= "/voters/"@ + int_decimal(voter_id as int));
    r
}

/// Address at which the admin approves a voter.
pub fn approve_voter_url(voter_id: i64) -> (r: String)
    ensures
        r@ == "/voters/"@ + int_decimal(voter_id as int) + "/approve"@,
{
    id_between("/voters/", voter_id, "/approve")
}

/// Address at which a voter submits a ballot.
pub fn vote_url(voter_id: i64) -> (r: String)
    ensures
        r@ == "/voters/"@ + int_decimal(voter_id as int) + "/vote"@,
{
    id_between("/voters/", voter_id, "/vote")
}

/// Name of the live event that tells one voter of its approval.
pub fn voter_approved_event(voter_id: i64) -> (r: String)
    ensures
        r@ == "voter-approved:"@ + int_decimal(voter_id as int),
{
    proof {
        reveal_strlit("");
    }
    let r = id_between("voter-approved:", voter_id, "");
    assert(r@ =~= "voter-approved:"@ + int_decimal(voter_id as int));
    r
}

/// Name of the live event that marks one voter's ballot as recorded.
pub fn vote_event(voter_id: i64) -> (r: String)
    ensures
        r@ == "vote:"@ + int_decimal(voter_id as int),
{
    proof {
        reveal_strlit("");
    }
    let r = id_between("vote:", voter_id, "");
    assert(r@ =~= "vote:"@ + int_decimal(voter_id as int));
    r
}

/// A `Set-Cookie` value that stores `value` under `name` for one hour,
/// readable only by the server, over secure connections, on this site.
pub fn cookie(name: &str, value: &str) -> (r: String)
    ensures
        r@ == name@ + "="@ + value@ + "; HttpOnly; Max-Age=3600; Secure; Path=/; SameSite=Strict"@,
{
    let mut s = name.to_owned();
    s.append("=");
    s.append(value);
    s.append("; HttpOnly; Max-Age=3600; Secure; Path=/; SameSite=Strict");
    s
}

/// A digit of Crockford's base 32.
pub open spec fn crockford_digit(c: char) -> bool {
    "0123456789ABCDEFGHJKMNPQRSTVWXYZ"@.contains(c)
}

/// Relies on `ulid::Ulid::new` and `Ulid::to_string`: a fresh identifier from
/// the clock and a random source, written as 26 Crockford base-32 digits.
#[verifier::external_body]
pub fn generate_ulid() -> (r: String)
    ensures
        r@.len() == 26,
        forall|i: int| 0 <= i < r@.len() ==> crockford_digit(#[trigger] r@[i]),
{
    ulid::Ulid::new().to_string()
}

} // verus!

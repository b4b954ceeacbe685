//! A small in-memory key-value server speaking a subset of the Redis
//! protocol: `PING`, `ECHO`, `SET` (with an expiry in seconds) and `GET`.
//! Requests are decoded from their wire form, and each request gives one
//! reply and a new state of the store. Time is a count of milliseconds on a
//! clock that the caller reads.

use vstd::prelude::*;
use vstd::string::StringSliceAdditionalSpecFns;

verus! {

/// A line break, `\r\n`.
pub open spec fn crlf() -> Seq<u8> {
    seq![13u8, 10u8]
}

/// `s` holds a line break (`\r\n`) at `i`.
pub open spec fn crlf_at(s: Seq<u8>, i: int) -> bool {
    0 <= i && i + 1 < s.len() && s[i] == 13u8 && s[i + 1] == 10u8
}

/// The pieces of `s` between line breaks, from the piece that starts at
/// `start`, scanning for the next break from `i`.
pub open spec fn split_from(s: Seq<u8>, start: int, i: int) -> Seq<Seq<u8>>
    decreases s.len() - i,
{
    if i < 0 || i + 1 >= s.len() {
        seq![s.subrange(start, s.len() as int)]
    } else if crlf_at(s, i) {
        seq![s.subrange(start, i)] + split_from(s, i + 2, i + 2)
    } else {
        split_from(s, start, i + 1)
    }
}

/// The pieces of `s` between line breaks; `n` breaks give `n + 1` pieces.
pub open spec fn pieces(s: Seq<u8>) -> Seq<Seq<u8>> {
    split_from(s, 0, 0)
}

/// Of the pieces `ps`, the first of which has position `k`, those at an even
/// position from 2 on.
pub open spec fn select(ps: Seq<Seq<u8>>, k: nat) -> Seq<Seq<u8>>
    decreases ps.len(),
{
    if ps.len() == 0 {
        Seq::empty()
    } else {
        (if k >= 2 && k % 2 == 0 {
            seq![ps[0]]
        } else {
            Seq::empty()
        }) + select(ps.drop_first(), k + 1)
    }
}

/// The arguments of a request: after the count line `*n`, every other line,
/// skipping the length lines `$len`.
pub open spec fn arguments(s: Seq<u8>) -> Seq<Seq<u8>> {
    select(pieces(s), 0)
}

/// The byte sequences that the vectors of `v` hold.
pub open spec fn views(v: Seq<Vec<u8>>) -> Seq<Seq<u8>> {
    Seq::new(v.len(), |i: int| v[i]@)
}

/// The reply `+OK`.
pub open spec fn ok_reply() -> Seq<u8> {
    seq![43u8, 79u8, 75u8, 13u8, 10u8]
}

/// The reply `+PONG`.
pub open spec fn pong_reply() -> Seq<u8> {
    seq![43u8, 80u8, 79u8, 78u8, 71u8, 13u8, 10u8]
}

/// The reply for a missing or expired key: the null bulk string `$-1`.
pub open spec fn nil_reply() -> Seq<u8> {
    seq![36u8, 45u8, 49u8, 13u8, 10u8]
}

/// The error reply for a wrong number of arguments.
pub open spec fn arity_error() -> Seq<u8> {
    seq![45u8, 69u8, 82u8, 82u8, 32u8, 119u8, 114u8, 111u8, 110u8, 103u8, 32u8, 110u8, 117u8, 109u8, 98u8, 101u8, 114u8, 32u8, 111u8, 102u8, 32u8, 97u8, 114u8, 103u8, 117u8, 109u8, 101u8, 110u8, 116u8, 115u8, 32u8, 102u8, 111u8, 114u8, 32u8, 99u8, 111u8, 109u8, 109u8, 97u8, 110u8, 100u8, 13u8, 10u8]
}

/// The error reply for an expiry that is not a number of seconds, or that
/// lies past the clock's range.
pub open spec fn integer_error() -> Seq<u8> {
    seq![45u8, 69u8, 82u8, 82u8, 32u8, 118u8, 97u8, 108u8, 117u8, 101u8, 32u8, 105u8, 115u8, 32u8, 110u8, 111u8, 116u8, 32u8, 97u8, 110u8, 32u8, 105u8, 110u8, 116u8, 101u8, 103u8, 101u8, 114u8, 32u8, 111u8, 114u8, 32u8, 111u8, 117u8, 116u8, 32u8, 111u8, 102u8, 32u8, 114u8, 97u8, 110u8, 103u8, 101u8, 13u8, 10u8]
}

/// The command word `ECHO`.
pub open spec fn echo_word() -> Seq<u8> {
    seq![69u8, 67u8, 72u8, 79u8]
}

/// The command word `PING`.
pub open spec fn ping_word() -> Seq<u8> {
    seq![80u8, 73u8, 78u8, 71u8]
}

/// The command word `SET`.
pub open spec fn set_word() -> Seq<u8> {
    seq![83u8, 69u8, 84u8]
}

/// The command word `GET`.
pub open spec fn get_word() -> Seq<u8> {
    seq![71u8, 69u8, 84u8]
}


/// `ok_reply()`, as a vector.
fn make_ok_reply() -> (r: Vec<u8>)
    ensures
        r@ == ok_reply(),
{
    let r = vec![43u8, 79u8, 75u8, 13u8, 10u8];
    assert(r@ =~= ok_reply());
    r
}

/// `pong_reply()`, as a vector.
fn make_pong_reply() -> (r: Vec<u8>)
    ensures
        r@ == pong_reply(),
{
    let r = vec![43u8, 80u8, 79u8, 78u8, 71u8, 13u8, 10u8];
    assert(r@ =~= pong_reply());
    r
}

/// `nil_reply()`, as a vector.
fn make_nil_reply() -> (r: Vec<u8>)
    ensures
        r@ == nil_reply(),
{
    let r = vec![36u8, 45u8, 49u8, 13u8, 10u8];
    assert(r@ =~= nil_reply());
    r
}

/// `arity_error()`, as a vector.
fn make_arity_error() -> (r: Vec<u8>)
    ensures
        r@ == arity_error(),
{
    let r = vec![45u8, 69u8, 82u8, 82u8, 32u8, 119u8, 114u8, 111u8, 110u8, 103u8, 32u8, 110u8, 117u8, 109u8, 98u8, 101u8, 114u8, 32u8, 111u8, 102u8, 32u8, 97u8, 114u8, 103u8, 117u8, 109u8, 101u8, 110u8, 116u8, 115u8, 32u8, 102u8, 111u8, 114u8, 32u8, 99u8, 111u8, 109u8, 109u8, 97u8, 110u8, 100u8, 13u8, 10u8];
    assert(r@ =~= arity_error());
    r
}

/// `integer_error()`, as a vector.
fn make_integer_error() -> (r: Vec<u8>)
    ensures
        r@ == integer_error(),
{
    let r = vec![45u8, 69u8, 82u8, 82u8, 32u8, 118u8, 97u8, 108u8, 117u8, 101u8, 32u8, 105u8, 115u8, 32u8, 110u8, 111u8, 116u8, 32u8, 97u8, 110u8, 32u8, 105u8, 110u8, 116u8, 101u8, 103u8, 101u8, 114u8, 32u8, 111u8, 114u8, 32u8, 111u8, 117u8, 116u8, 32u8, 111u8, 102u8, 32u8, 114u8, 97u8, 110u8, 103u8, 101u8, 13u8, 10u8];
    assert(r@ =~= integer_error());
    r
}

/// `echo_word()`, as a vector.
fn make_echo_word() -> (r: Vec<u8>)
    ensures
        r@ == echo_word(),
{
    let r = vec![69u8, 67u8, 72u8, 79u8];
    assert(r@ =~= echo_word());
    r
}

/// `ping_word()`, as a vector.
fn make_ping_word() -> (r: Vec<u8>)
    ensures
        r@ == ping_word(),
{
    let r = vec![80u8, 73u8, 78u8, 71u8];
    assert(r@ =~= ping_word());
    r
}

/// `set_word()`, as a vector.
fn make_set_word() -> (r: Vec<u8>)
    ensures
        r@ == set_word(),
{
    let r = vec![83u8, 69u8, 84u8];
    assert(r@ =~= set_word());
    r
}

/// `get_word()`, as a vector.
fn make_get_word() -> (r: Vec<u8>)
    ensures
        r@ == get_word(),
{
    let r = vec![71u8, 69u8, 84u8];
    assert(r@ =~= get_word());
    r
}


/// The value of a string of decimal digits.
pub open spec fn digits_value(s: Seq<u8>) -> nat
    decreases s.len(),
{
    if s.len() == 0 {
        0
    } else {
        10 * digits_value(s.drop_last()) + (s.last() - 48u8) as nat
    }
}

/// `c` is an ASCII decimal digit.
pub open spec fn is_digit(c: u8) -> bool {
    48u8 <= c <= 57u8
}

/// The time at which a key set at `now` to expire after `secs` seconds
/// expires: `None` where `secs` is not a non-empty string of decimal digits
/// or the time lies past the clock's range.
pub open spec fn expiry(secs: Seq<u8>, now: u64) -> Option<u64> {
    if secs.len() > 0 && (forall|i: int| 0 <= i < secs.len() ==> is_digit(#[trigger] secs[i])) && now
        + digits_value(secs) * 1000 <= u64::MAX {
        Some((now + digits_value(secs) * 1000) as u64)
    } else {
        None
    }
}

/// An entry set without expiry, or whose expiry lies after `now`.
pub open spec fn live(entry: (Seq<u8>, Option<u64>), now: u64) -> bool {
    match entry.1 {
        None => true,
        Some(t) => t > now,
    }
}

/// The reply to the request with arguments `args`, at time `now`, with the
/// store holding `store`. A request with too few arguments for its command
/// (or none at all) gets the arity error rather than failing.
pub open spec fn reply(
    store: Map<Seq<u8>, (Seq<u8>, Option<u64>)>,
    args: Seq<Seq<u8>>,
    now: u64,
) -> Seq<u8> {
    if args.len() == 0 {
        arity_error()
    } else if args[0] == echo_word() {
        if args.len() != 2 {
            arity_error()
        } else {
            seq![43u8] + args[1] + crlf()
        }
    } else if args[0] == ping_word() {
        pong_reply()
    } else if args[0] == set_word() {
        if args.len() == 3 {
            ok_reply()
        } else if args.len() < 5 {
            arity_error()
        } else if expiry(args[4], now) is Some {
            ok_reply()
        } else {
            integer_error()
        }
    } else if args[0] == get_word() {
        if args.len() < 2 {
            arity_error()
        } else if store.contains_key(args[1]) && live(store[args[1]], now) {
            seq![43u8] + store[args[1]].0 + crlf()
        } else {
            nil_reply()
        }
    } else {
        unknown_prefix() + args[0] + seq![39u8, 13u8, 10u8]
    }
}

/// What the store holds after the request with arguments `args` at time
/// `now`: `SET key value` stores the value without expiry, and
/// `SET key value EX secs` stores it until `secs` seconds from `now` (the
/// option word in fourth place is not examined). Every other request leaves
/// the store as it is.
pub open spec fn updated(
    store: Map<Seq<u8>, (Seq<u8>, Option<u64>)>,
    args: Seq<Seq<u8>>,
    now: u64,
) -> Map<Seq<u8>, (Seq<u8>, Option<u64>)> {
    if args.len() > 0 && args[0] == set_word() {
        if args.len() == 3 {
            store.insert(args[1], (args[2], None))
        } else if args.len() >= 5 && expiry(args[4], now) is Some {
            store.insert(args[1], (args[2], expiry(args[4], now)))
        } else {
            store
        }
    } else {
        store
    }
}

/// The start of the reply to an unknown command.
pub open spec fn unknown_prefix() -> Seq<u8> {
    seq![45u8, 117u8, 110u8, 107u8, 110u8, 111u8, 119u8, 110u8, 32u8, 99u8, 111u8, 109u8, 109u8, 97u8, 110u8, 100u8, 32u8, 39u8]
}

/// `unknown_prefix()`, as a vector.
fn make_unknown_prefix() -> (r: Vec<u8>)
    ensures
        r@ == unknown_prefix(),
{
    let r = vec![45u8, 117u8, 110u8, 107u8, 110u8, 111u8, 119u8, 110u8, 32u8, 99u8, 111u8, 109u8, 109u8, 97u8, 110u8, 100u8, 32u8, 39u8];
    assert(r@ =~= unknown_prefix());
    r
}

/// Appends the bytes of `s` to `out`.
fn append(out: &mut Vec<u8>, s: &[u8])
    ensures
        final(out)@ == old(out)@ + s@,
{
    let mut j: usize = 0;
    while j < s.len()
        invariant
            j <= s@.len(),
            out@ == old(out)@ + s@.subrange(0, j as int),
        decreases s@.len() - j,
    {
        out.push(s[j]);
        j = j + 1;
        assert(out@ =~= old(out)@ + s@.subrange(0, j as int));
    }
    assert(s@.subrange(0, j as int) =~= s@);
}

/// The bytes of `s` from `from` up to `to`, as a vector of their own.
fn copy_range(s: &[u8], from: usize, to: usize) -> (r: Vec<u8>)
    requires
        from <= to <= s@.len(),
    ensures
        r@ == s@.subrange(from as int, to as int),
{
    let mut r: Vec<u8> = Vec::new();
    let mut j: usize = from;
    while j < to
        invariant
            from <= j <= to,
            to <= s@.len(),
            r@ == s@.subrange(from as int, j as int),
        decreases to - j,
    {
        r.push(s[j]);
        j = j + 1;
        assert(r@ =~= s@.subrange(from as int, j as int));
    }
    r
}

/// Whether `a` and `b` hold the same bytes.
fn same_bytes(a: &[u8], b: &[u8]) -> (r: bool)
    ensures
        r == (a@ == b@),
{
    if a.len() != b.len() {
        return false;
    }
    let mut j: usize = 0;
    while j < a.len()
        invariant
            j <= a@.len(),
            a@.len() == b@.len(),
            a@.subrange(0, j as int) == b@.subrange(0, j as int),
        decreases a@.len() - j,
    {
        if a[j] != b[j] {
            assert(a@[j as int] != b@[j as int]);
            return false;
        }
        assert(a@.subrange(0, j + 1) =~= a@.subrange(0, j as int).push(a@[j as int]));
        assert(b@.subrange(0, j + 1) =~= b@.subrange(0, j as int).push(b@[j as int]));
        j = j + 1;
    }
    assert(a@ =~= a@.subrange(0, j as int));
    assert(b@ =~= b@.subrange(0, j as int));
    true
}

proof fn lemma_select_cons(p: Seq<u8>, rest: Seq<Seq<u8>>, k: nat)
    ensures
        select(seq![p] + rest, k) == (if k >= 2 && k % 2 == 0 {
            seq![p]
        } else {
            Seq::empty()
        }) + select(rest, k + 1),
{
    assert((seq![p] + rest).drop_first() =~= rest);
}

/// Splits a request into its arguments: the lines after the count line,
/// leaving out the length lines.
pub fn parse_input(input: &str) -> (r: Vec<Vec<u8>>)
    ensures
        views(r@) == arguments(input.spec_bytes()),
{
    let s = input.as_bytes();
    let n = s.len();
    let mut out: Vec<Vec<u8>> = Vec::new();
    let mut start: usize = 0;
    let mut i: usize = 0;
    let mut k: usize = 0;
    assert(views(out@) + select(split_from(s@, 0, 0), 0) =~= arguments(s@));
    while n - i > 1
        invariant
            n == s@.len(),
            start <= i <= n,
            k <= i,
            views(out@) + select(split_from(s@, start as int, i as int), k as nat) == arguments(s@),
        decreases n - i,
    {
        if s[i] == 13u8 && s[i + 1] == 10u8 {
            let ghost before = views(out@);
            proof {
                lemma_select_cons(s@.subrange(start as int, i as int), split_from(s@, i + 2, i + 2), k as nat);
            }
            if k >= 2 && k % 2 == 0 {
                out.push(copy_range(s, start, i));
                assert(views(out@) =~= before.push(s@.subrange(start as int, i as int)));
            }
            k = k + 1;
            i = i + 2;
            start = i;
            assert(views(out@) + select(split_from(s@, start as int, i as int), k as nat) =~= arguments(s@));
        } else {
            i = i + 1;
        }
    }
    let ghost before = views(out@);
    proof {
        lemma_select_cons(s@.subrange(start as int, n as int), Seq::empty(), k as nat);
        assert(split_from(s@, start as int, i as int) == seq![s@.subrange(start as int, n as int)]);
        assert(seq![s@.subrange(start as int, n as int)] + Seq::<Seq<u8>>::empty() =~= seq![s@.subrange(start as int, n as int)]);
    }
    if k >= 2 && k % 2 == 0 {
        out.push(copy_range(s, start, n));
        assert(views(out@) =~= before.push(s@.subrange(start as int, n as int)));
    }
    assert(views(out@) =~= arguments(s@));
    out
}

proof fn lemma_digits_prefix(s: Seq<u8>, i: int)
    requires
        0 <= i <= s.len(),
    ensures
        digits_value(s.take(i)) <= digits_value(s),
    decreases s.len(),
{
    if i < s.len() {
        assert(s.drop_last().take(i) =~= s.take(i));
        lemma_digits_prefix(s.drop_last(), i);
    } else {
        assert(s.take(i) =~= s);
    }
}

/// `expiry`, computed.
fn parse_expiry(secs: &[u8], now: u64) -> (r: Option<u64>)
    ensures
        r == expiry(secs@, now),
{
    let n = secs.len();
    if n == 0 {
        return None;
    }
    let mut acc: u64 = 0;
    let mut j: usize = 0;
    while j < n
        invariant
            n == secs@.len(),
            j <= n,
            acc == digits_value(secs@.take(j as int)),
            forall|m: int| 0 <= m < j ==> is_digit(#[trigger] secs@[m]),
        decreases n - j,
    {
        let c = secs[j];
        if c < 48u8 || c > 57u8 {
            assert(!is_digit(secs@[j as int]));
            return None;
        }
        assert(secs@.take(j + 1).drop_last() =~= secs@.take(j as int));
        let next: u128 = acc as u128 * 10 + (c - 48u8) as u128;
        if next > u64::MAX as u128 {
            proof {
                if forall|m: int| 0 <= m < secs@.len() ==> is_digit(#[trigger] secs@[m]) {
                    lemma_digits_prefix(secs@, j + 1);
                }
            }
            return None;
        }
        acc = next as u64;
        j = j + 1;
    }
    assert(secs@.take(n as int) =~= secs@);
    let total: u128 = now as u128 + acc as u128 * 1000;
    if total > u64::MAX as u128 {
        None
    } else {
        Some(total as u64)
    }
}

/// One key with its value and, if it was set with one, its expiry time.
struct Entry {
    key: Vec<u8>,
    value: Vec<u8>,
    expires_at: Option<u64>,
}

/// The position of the first entry of `e` from `i` on whose key is `k`.
spec fn find_from(e: Seq<Entry>, k: Seq<u8>, i: int) -> Option<int>
    decreases e.len() - i,
{
    if i < 0 || i >= e.len() {
        None
    } else if e[i].key@ == k {
        Some(i)
    } else {
        find_from(e, k, i + 1)
    }
}

proof fn lemma_find_from(e: Seq<Entry>, k: Seq<u8>, j: int)
    requires
        0 <= j <= e.len(),
    ensures
        match find_from(e, k, j) {
            Some(i) => j <= i < e.len() && e[i].key@ == k && forall|m: int|
                j <= m < i ==> (#[trigger] e[m]).key@ != k,
            None => forall|m: int| j <= m < e.len() ==> (#[trigger] e[m]).key@ != k,
        },
    decreases e.len() - j,
{
    if j < e.len() {
        lemma_find_from(e, k, j + 1);
    }
}

proof fn lemma_find_is(e: Seq<Entry>, k: Seq<u8>, j: int, r: Option<int>)
    requires
        0 <= j <= e.len(),
        match r {
            Some(i) => j <= i < e.len() && e[i].key@ == k && forall|m: int|
                j <= m < i ==> (#[trigger] e[m]).key@ != k,
            None => forall|m: int| j <= m < e.len() ==> (#[trigger] e[m]).key@ != k,
        },
    ensures
        find_from(e, k, j) == r,
    decreases e.len() - j,
{
    if j < e.len() {
        if r != Some(j) {
            assert(e[j].key@ != k);
            lemma_find_is(e, k, j + 1, r);
        }
    }
}

/// The key-value store.
pub struct Redis {
    data: Vec<Entry>,
}

impl View for Redis {
    type V = Map<Seq<u8>, (Seq<u8>, Option<u64>)>;

    closed spec fn view(&self) -> Map<Seq<u8>, (Seq<u8>, Option<u64>)> {
        Map::new(
            |k: Seq<u8>| find_from(self.data@, k, 0) is Some,
            |k: Seq<u8>|
                {
                    let e = self.data@[find_from(self.data@, k, 0)->Some_0];
                    (e.value@, e.expires_at)
                },
        )
    }
}

impl Redis {
    /// An empty store.
    pub fn default() -> (r: Self)
        ensures
            r@ == Map::<Seq<u8>, (Seq<u8>, Option<u64>)>::empty(),
    {
        let r = Self { data: Vec::new() };
        assert(r@ =~= Map::<Seq<u8>, (Seq<u8>, Option<u64>)>::empty());
        r
    }

    fn find(&self, key: &[u8]) -> (r: Option<usize>)
        ensures
            r matches Some(i) ==> find_from(self.data@, key@, 0) == Some(i as int) && i
                < self.data@.len(),
            r is None ==> find_from(self.data@, key@, 0) is None,
    {
        let mut i: usize = 0;
        while i < self.data.len()
            invariant
                i <= self.data@.len(),
                find_from(self.data@, key@, 0) == find_from(self.data@, key@, i as int),
            decreases self.data@.len() - i,
        {
            if same_bytes(self.data[i].key.as_slice(), key) {
                proof {
                    lemma_find_from(self.data@, key@, i as int);
                }
                return Some(i);
            }
            i = i + 1;
        }
        None
    }

    fn set(&mut self, key: Vec<u8>, value: Vec<u8>, expires_at: Option<u64>)
        ensures
            final(self)@ == old(self)@.insert(key@, (value@, expires_at)),
    {
        let ghost k = key@;
        let ghost v = (value@, expires_at);
        let entry = Entry { key, value, expires_at };
        let ghost new_entry = entry;
        let found = self.find(entry.key.as_slice());
        let ghost old_data = self.data@;
        proof {
            lemma_find_from(old_data, k, 0);
        }
        match found {
            Some(i) => {
                self.data.set(i, entry);
            },
            None => {
                self.data.push(entry);
            },
        }
        let ghost d = self.data@;
        assert forall|k2: Seq<u8>| #![auto] find_from(d, k2, 0) == if k2 == k {
            Some(if found is Some { found->Some_0 as int } else { old_data.len() as int })
        } else {
            find_from(old_data, k2, 0)
        } by {
            lemma_find_from(old_data, k2, 0);
            if k2 == k {
                let i = if found is Some { found->Some_0 as int } else { old_data.len() as int };
                lemma_find_is(d, k2, 0, Some(i));
            } else {
                let r = find_from(old_data, k2, 0);
                if let Some(i) = r {
                    assert(d[i] == old_data[i]);
                }
                lemma_find_is(d, k2, 0, r);
            }
        }
        let ghost want = old(self)@.insert(k, v);
        assert forall|k2: Seq<u8>| #[trigger] self@.contains_key(k2) == want.contains_key(k2) by {}
        assert forall|k2: Seq<u8>| #[trigger] self@.contains_key(k2) implies self@[k2] == want[k2] by {
            if k2 == k {
                let i = if found is Some { found->Some_0 as int } else { old_data.len() as int };
                assert(d[i] == new_entry);
            } else {
                let r = find_from(old_data, k2, 0);
                lemma_find_from(old_data, k2, 0);
                assert(d[r->Some_0] == old_data[r->Some_0]);
            }
        }
        assert(self@ =~= want);
    }

    /// Handles one request at time `now` (in milliseconds): updates the store
    /// and gives the reply.
    pub fn process(&mut self, input: &str, now: u64) -> (r: Vec<u8>)
        ensures
            r@ == reply(old(self)@, arguments(input.spec_bytes()), now),
            final(self)@ == updated(old(self)@, arguments(input.spec_bytes()), now),
    {
        let arguments = parse_input(input);
        let ghost args = views(arguments@);
        if arguments.len() == 0 {
            return make_arity_error();
        }
        let command = arguments[0].as_slice();
        assert(command@ == args[0]);
        if same_bytes(command, make_echo_word().as_slice()) {
            if arguments.len() != 2 {
                return make_arity_error();
            }
            let mut r = vec![43u8];
            append(&mut r, arguments[1].as_slice());
            append(&mut r, vec![13u8, 10u8].as_slice());
            assert(r@ =~= seq![43u8] + args[1] + crlf());
            r
        } else if same_bytes(command, make_ping_word().as_slice()) {
            make_pong_reply()
        } else if same_bytes(command, make_set_word().as_slice()) {
            if arguments.len() == 3 {
                let key = copy_range(arguments[1].as_slice(), 0, arguments[1].len());
                let value = copy_range(arguments[2].as_slice(), 0, arguments[2].len());
                assert(key@ =~= args[1]);
                assert(value@ =~= args[2]);
                self.set(key, value, None);
                make_ok_reply()
            } else if arguments.len() < 5 {
                make_arity_error()
            } else {
                match parse_expiry(arguments[4].as_slice(), now) {
                    Some(t) => {
                        let key = copy_range(arguments[1].as_slice(), 0, arguments[1].len());
                        let value = copy_range(arguments[2].as_slice(), 0, arguments[2].len());
                        assert(key@ =~= args[1]);
                        assert(value@ =~= args[2]);
                        self.set(key, value, Some(t));
                        make_ok_reply()
                    },
                    None => make_integer_error(),
                }
            }
        } else if same_bytes(command, make_get_word().as_slice()) {
            if arguments.len() < 2 {
                return make_arity_error();
            }
            let key = arguments[1].as_slice();
            assert(key@ == args[1]);
            match self.find(key) {
                Some(i) => {
                    let entry = &self.data[i];
                    let live = match entry.expires_at {
                        None => true,
                        Some(t) => t > now,
                    };
                    if live {
                        let mut r = vec![43u8];
                        append(&mut r, entry.value.as_slice());
                        append(&mut r, vec![13u8, 10u8].as_slice());
                        assert(r@ =~= seq![43u8] + self@[args[1]].0 + crlf());
                        r
                    } else {
                        make_nil_reply()
                    }
                },
                None => make_nil_reply(),
            }
        } else {
            let mut r = make_unknown_prefix();
            append(&mut r, command);
            append(&mut r, vec![39u8, 13u8, 10u8].as_slice());
            assert(r@ =~= unknown_prefix() + args[0] + seq![39u8, 13u8, 10u8]);
            r
        }
    }
}

} // verus!

//! Load balancing over a list of RPC clients, each known by its address.

use std::sync::Arc;
use vstd::prelude::*;

use crate::text::{decimal, decimal_bytes, same_str};
use vstd::string::StringSliceAdditionalSpecFns;

verus! {

/// Defines the minimum abstraction required by the load algorithm.
/// The load algorithms only need the remote address of a client;
/// to use [`LoadBalance`], the client type implements this trait.
/// Every implementation states its address as `spec_addr` and proves that
/// `addr` returns it; a client type written outside Verus takes part in a
/// pool through [`Dialed`], which holds its address beside it.
pub trait RpcClient {
    /// The address this client talks to: the text that `addr` returns.
    spec fn spec_addr(&self) -> Seq<char>;

    /// Returns the address of the remote end; always the same text.
    fn addr(&self) -> (a: &str)
        ensures
            a@ == self.spec_addr(),
    ;
}

/// A bare address is a client whose address is itself.
impl RpcClient for String {
    open spec fn spec_addr(&self) -> Seq<char> {
        self@
    }

    fn addr(&self) -> (a: &str) {
        self.as_str()
    }
}

/// A client of any type together with the address it was reached at.
pub struct Dialed<T> {
    /// The address of the remote end.
    pub addr: String,
    /// The client itself.
    pub client: T,
}

impl<T> RpcClient for Dialed<T> {
    open spec fn spec_addr(&self) -> Seq<char> {
        self.addr@
    }

    fn addr(&self) -> (a: &str) {
        self.addr.as_str()
    }
}

/// How [`LoadBalance::do_balance`] picks a client.
#[derive(Clone, Copy, Debug, PartialEq, Eq)]
pub enum LoadBalanceType {
    /// RPC clients take turns to execute
    Round,
    /// RPC clients random pick one
    Random,
    /// RPC clients pick one by address's hashcode, so a client ip is paired with one client
    Hash,
    /// RPC clients pick the one with the minimum number of live handles
    MinConnect,
}

/// The address of a held client.
pub open spec fn addr_of<C: RpcClient>(c: Arc<C>) -> Seq<char> {
    (*c).spec_addr()
}

/// Some client in `cs` has address `a`.
pub open spec fn holds_addr<C: RpcClient>(cs: Seq<Arc<C>>, a: Seq<char>) -> bool {
    exists|i: int| 0 <= i < cs.len() && addr_of(#[trigger] cs[i]) == a
}

/// `i` is the first position in `cs` whose client has address `a`.
pub open spec fn first_with_addr<C: RpcClient>(cs: Seq<Arc<C>>, a: Seq<char>, i: int) -> bool {
    &&& 0 <= i < cs.len()
    &&& addr_of(cs[i]) == a
    &&& forall|j: int| 0 <= j < i ==> addr_of(#[trigger] cs[j]) != a
}

/// The first position in `cs` whose client has address `a`, if any.
pub open spec fn find_addr<C: RpcClient>(cs: Seq<Arc<C>>, a: Seq<char>) -> Option<int> {
    if holds_addr(cs, a) {
        Some(choose|i: int| first_with_addr(cs, a, i))
    } else {
        None
    }
}

/// The clients after putting `c`: the first client with the same address is
/// replaced in place, or `c` is appended when there is none.
pub open spec fn put_clients<C: RpcClient>(cs: Seq<Arc<C>>, c: C) -> Seq<Arc<C>> {
    match find_addr(cs, c.spec_addr()) {
        Some(i) => cs.update(i, Arc::new(c)),
        None => cs.push(Arc::new(c)),
    }
}

/// The client that putting `c` replaces, if any.
pub open spec fn put_replaced<C: RpcClient>(cs: Seq<Arc<C>>, c: C) -> Option<Arc<C>> {
    match find_addr(cs, c.spec_addr()) {
        Some(i) => Some(cs[i]),
        None => None,
    }
}

/// The clients after removing the first one with address `a`.
pub open spec fn remove_clients<C: RpcClient>(cs: Seq<Arc<C>>, a: Seq<char>) -> Seq<Arc<C>> {
    match find_addr(cs, a) {
        Some(i) => cs.remove(i),
        None => cs,
    }
}

/// The client that removing address `a` takes out, if any.
pub open spec fn removed<C: RpcClient>(cs: Seq<Arc<C>>, a: Seq<char>) -> Option<Arc<C>> {
    match find_addr(cs, a) {
        Some(i) => Some(cs[i]),
        None => None,
    }
}

/// There is at most one first position with a given address.
pub proof fn lemma_first_with_addr_unique<C: RpcClient>(cs: Seq<Arc<C>>, a: Seq<char>, i: int, j: int)
    requires
        first_with_addr(cs, a, i),
        first_with_addr(cs, a, j),
    ensures
        i == j,
{
    if i < j {
        assert(addr_of(cs[i]) != a);
    } else if j < i {
        assert(addr_of(cs[j]) != a);
    }
}

/// When some client has address `a`, a first such position exists.
pub proof fn lemma_first_with_addr_exists<C: RpcClient>(cs: Seq<Arc<C>>, a: Seq<char>, k: int)
    requires
        0 <= k < cs.len(),
        addr_of(cs[k]) == a,
    ensures
        exists|i: int| first_with_addr(cs, a, i),
    decreases k,
{
    if exists|j: int| 0 <= j < k && addr_of(#[trigger] cs[j]) == a {
        let j = choose|j: int| 0 <= j < k && addr_of(#[trigger] cs[j]) == a;
        lemma_first_with_addr_exists(cs, a, j);
    } else {
        assert(first_with_addr(cs, a, k));
    }
}

/// `find_addr` names exactly the first position with the address.
pub proof fn lemma_find_addr<C: RpcClient>(cs: Seq<Arc<C>>, a: Seq<char>)
    ensures
        find_addr(cs, a) is None <==> !holds_addr(cs, a),
        find_addr(cs, a) matches Some(i) ==> first_with_addr(cs, a, i),
        forall|i: int| first_with_addr(cs, a, i) ==> find_addr(cs, a) == Some(i),
{
    if holds_addr(cs, a) {
        let k = choose|k: int| 0 <= k < cs.len() && addr_of(#[trigger] cs[k]) == a;
        lemma_first_with_addr_exists(cs, a, k);
        let i = choose|i: int| first_with_addr(cs, a, i);
        assert forall|j: int| first_with_addr(cs, a, j) implies find_addr(cs, a) == Some(j) by {
            lemma_first_with_addr_unique(cs, a, i, j);
        }
    } else {
        assert forall|i: int| first_with_addr(cs, a, i) implies find_addr(cs, a) == Some(i) by {
            assert(cs[i] == cs[i]);
        }
    }
}

/// No two clients in `cs` share an address.
pub open spec fn unique_addrs<C: RpcClient>(cs: Seq<Arc<C>>) -> bool {
    forall|i: int, j: int|
        0 <= i < cs.len() && 0 <= j < cs.len() && i != j ==> addr_of(#[trigger] cs[i]) != addr_of(
            #[trigger] cs[j],
        )
}

/// The key hash of a byte string: the sum of each byte times its 1-based position.
pub open spec fn key_hash(s: Seq<u8>) -> int
    decreases s.len(),
{
    if s.len() == 0 {
        0
    } else {
        key_hash(s.drop_last()) + s.last() * s.len()
    }
}

/// The key hash never decreases as the key grows.
pub proof fn lemma_key_hash_prefix(s: Seq<u8>, i: int, j: int)
    requires
        0 <= i <= j <= s.len(),
    ensures
        0 <= key_hash(s.take(i)) <= key_hash(s.take(j)),
    decreases j,
{
    if j > 0 {
        assert(s.take(j).drop_last() =~= s.take(j - 1));
        let t = s.take(j);
        assert(t.last() * t.len() >= 0) by (nonlinear_arith)
            requires
                t.len() >= 0,
                t.last() >= 0,
        ;
        if i < j {
            lemma_key_hash_prefix(s, i, j - 1);
        } else {
            lemma_key_hash_prefix(s, i - 1, j - 1);
        }
    }
}

/// The key hash of `n` bytes is at most `255 * n * n`.
pub proof fn lemma_key_hash_bound(s: Seq<u8>)
    ensures
        key_hash(s) <= 255 * s.len() * s.len(),
    decreases s.len(),
{
    if s.len() > 0 {
        lemma_key_hash_bound(s.drop_last());
        let n = s.len() as int;
        let b = s.last() as int;
        let h = key_hash(s.drop_last());
        assert(h + b * n <= 255 * n * n) by (nonlinear_arith)
            requires
                n >= 1,
                0 <= b <= 255,
                h <= 255 * (n - 1) * (n - 1),
        ;
    }
}

/// Computes [`key_hash`] with 64-bit signed arithmetic.
pub fn hash_key(bytes: &[u8]) -> (h: i64)
    requires
        key_hash(bytes@) <= i64::MAX,
    ensures
        h == key_hash(bytes@),
{
    let n = bytes.len();
    let mut value: i64 = 0;
    let mut i: usize = 0;
    assert(bytes@.take(0) =~= Seq::<u8>::empty());
    while i < n
        invariant
            n == bytes@.len(),
            i <= n,
            key_hash(bytes@) <= i64::MAX,
            value == key_hash(bytes@.take(i as int)),
        decreases n - i,
    {
        proof {
            lemma_key_hash_prefix(bytes@, i as int, i + 1);
            lemma_key_hash_prefix(bytes@, i + 1, n as int);
            assert(bytes@.take(n as int) =~= bytes@);
            assert(bytes@.take(i + 1).drop_last() =~= bytes@.take(i as int));
            assert(bytes@.take(i + 1).last() == bytes@[i as int]);
            assert(key_hash(bytes@.take(i + 1)) == key_hash(bytes@.take(i as int)) + bytes@[i as int] * (i + 1));
            assert(bytes@[i as int] * (i + 1) >= 0) by (nonlinear_arith)
                requires
                    bytes@[i as int] >= 0,
                    i + 1 >= 0,
            ;
            assert(bytes@[i as int] >= 1 ==> i + 1 <= bytes@[i as int] * (i + 1)) by (nonlinear_arith)
                requires
                    i + 1 >= 0,
            ;
        }
        let b: i64 = bytes[i] as i64;
        let term: i64 = if b == 0 {
            0
        } else {
            b * ((i + 1) as i64)
        };
        assert(term == bytes@[i as int] * (i + 1)) by (nonlinear_arith)
            requires
                b == bytes@[i as int],
                b == 0 ==> term == 0,
                b != 0 ==> term == b * (i + 1),
        ;
        value = value + term;
        i = i + 1;
    }
    assert(bytes@.take(n as int) =~= bytes@);
    value
}

/// Computes [`key_hash`], or `None` exactly when it does not fit in an `i64`.
pub fn checked_hash_key(bytes: &[u8]) -> (r: Option<i64>)
    ensures
        r is Some <==> key_hash(bytes@) <= i64::MAX,
        r matches Some(h) ==> h == key_hash(bytes@),
{
    let n = bytes.len();
    let mut value: i64 = 0;
    let mut i: usize = 0;
    assert(bytes@.take(0) =~= Seq::<u8>::empty());
    assert(bytes@.take(n as int) =~= bytes@);
    while i < n
        invariant
            n == bytes@.len(),
            i <= n,
            bytes@.take(n as int) == bytes@,
            value == key_hash(bytes@.take(i as int)),
        decreases n - i,
    {
        proof {
            lemma_key_hash_prefix(bytes@, i as int, i + 1);
            lemma_key_hash_prefix(bytes@, i + 1, n as int);
            assert(bytes@.take(i + 1).drop_last() =~= bytes@.take(i as int));
            assert(bytes@.take(i + 1).last() == bytes@[i as int]);
            assert(key_hash(bytes@.take(i + 1)) == key_hash(bytes@.take(i as int)) + bytes@[i as int] * (i + 1));
        }
        let b: i64 = bytes[i] as i64;
        let term: i64;
        if b == 0 {
            term = 0;
            assert(term == bytes@[i as int] * (i + 1)) by (nonlinear_arith)
                requires
                    bytes@[i as int] == 0,
                    term == 0,
            ;
        } else {
            if (i as u64) >= (i64::MAX as u64) {
                assert(bytes@[i as int] * (i + 1) > i64::MAX) by (nonlinear_arith)
                    requires
                        bytes@[i as int] >= 1,
                        i + 1 > i64::MAX,
                ;
                return None;
            }
            match b.checked_mul((i + 1) as i64) {
                None => {
                    return None;
                },
                Some(t) => {
                    term = t;
                },
            }
        }
        match value.checked_add(term) {
            None => {
                return None;
            },
            Some(v) => {
                value = v;
            },
        }
        i = i + 1;
    }
    Some(value)
}

/// Round-robin: the turn after position `index` among `len` clients.
pub open spec fn round_next(index: int, len: int) -> int {
    if index + 1 >= len {
        0
    } else {
        index + 1
    }
}

/// The turn a round-robin pick uses: the stored one when it names a client,
/// else the first client (the stored turn may lie past the end after removals).
pub open spec fn round_turn(index: int, len: int) -> int {
    if index < len {
        index
    } else {
        0
    }
}

/// The client that the hash rule pairs with `key` among the non-empty `cs`.
pub open spec fn hash_choice<C: RpcClient>(cs: Seq<Arc<C>>, key: Seq<u8>) -> Arc<C> {
    cs[key_hash(key) % (cs.len() as int)]
}

/// `i` is the first position holding the smallest count.
pub open spec fn first_min(counts: Seq<usize>, i: int) -> bool {
    &&& 0 <= i < counts.len()
    &&& forall|j: int| 0 <= j < counts.len() ==> counts[i] <= #[trigger] counts[j]
    &&& forall|j: int| 0 <= j < i ==> counts[i] < #[trigger] counts[j]
}

/// The first position of the smallest count, or `None` when there are no counts.
pub fn min_count_position(counts: &Vec<usize>) -> (r: Option<usize>)
    ensures
        r is None <==> counts@.len() == 0,
        r matches Some(i) ==> first_min(counts@, i as int),
{
    let n = counts.len();
    let mut best: Option<usize> = None;
    let mut i: usize = 0;
    while i < n
        invariant
            n == counts@.len(),
            i <= n,
            best is None <==> i == 0,
            best matches Some(b) ==> b < i && (forall|j: int| 0 <= j < i ==> counts@[b as int] <= #[trigger] counts@[j])
                && (forall|j: int| 0 <= j < b ==> counts@[b as int] < #[trigger] counts@[j]),
        decreases n - i,
    {
        match best {
            None => {
                best = Some(i);
            },
            Some(b) => {
                if counts[i] < counts[b] {
                    best = Some(i);
                }
            },
        }
        i = i + 1;
    }
    best
}

/// Another handle to the same client, by `Arc::clone`.
#[verifier::external_body]
fn share<C>(c: &Arc<C>) -> (r: Arc<C>)
    ensures
        r == *c,
{
    Arc::clone(c)
}

/// `Arc::strong_count`: how many handles to the client exist at this moment.
/// The number depends on the rest of the program, so nothing is stated of it.
#[verifier::external_body]
fn handle_count<C>(c: &Arc<C>) -> usize {
    Arc::strong_count(c)
}

/// `rand::Rng::gen_range(0..bound)` on `rand::thread_rng()`: a random position below `bound`.
#[verifier::external_body]
fn random_below(bound: usize) -> (r: usize)
    requires
        bound > 0,
    ensures
        r < bound,
{
    rand::Rng::gen_range(&mut rand::thread_rng(), 0..bound)
}

/// `rand::random::<i32>()`: any 32-bit integer.
#[verifier::external_body]
fn random_i32() -> i32 {
    rand::random::<i32>()
}

/// What one pick by rule `b` may give: from clients `cs` with stored turn
/// `index` and client ip `ip`, the result `r` and the next stored turn `next`.
/// Without clients every rule gives `None`; only round-robin moves the turn.
pub open spec fn picked<C: RpcClient>(
    cs: Seq<Arc<C>>,
    index: int,
    b: LoadBalanceType,
    ip: Seq<char>,
    r: Option<Arc<C>>,
    next: int,
) -> bool {
    if cs.len() == 0 {
        r is None && next == index
    } else {
        match b {
            LoadBalanceType::Round => r == Some(cs[round_turn(index, cs.len() as int)]) && next
                == round_next(round_turn(index, cs.len() as int), cs.len() as int),
            LoadBalanceType::Random => next == index && exists|i: int|
                0 <= i < cs.len() && r == Some(#[trigger] cs[i]),
            LoadBalanceType::Hash => next == index && if ip.len() > 0 {
                r == Some(hash_choice(cs, vstd::utf8::encode_utf8(ip)))
            } else {
                exists|v: i32| r == Some(hash_choice(cs, #[trigger] decimal(v as int)))
            },
            LoadBalanceType::MinConnect => next == index && exists|counts: Seq<usize>, i: int|
                counts.len() == cs.len() && #[trigger] first_min(counts, i) && r == Some(cs[i]),
        }
    }
}

/// A list of clients and the position of the next turn for round-robin picking.
#[derive(Debug)]
pub struct LoadBalance<C> where C: RpcClient {
    /// Position of the client that the next round-robin pick returns.
    pub index: usize,
    /// The clients, in the order they were added.
    pub rpc_clients: Vec<Arc<C>>,
}

impl<C> LoadBalance<C> where C: RpcClient {
    /// The clients as a sequence.
    pub open spec fn clients(&self) -> Seq<Arc<C>> {
        self.rpc_clients@
    }

    /// An empty balancer whose round-robin turn starts at the first client.
    pub fn new() -> (r: Self)
        ensures
            r.clients() == Seq::<Arc<C>>::empty(),
            r.index == 0,
    {
        LoadBalance { index: 0, rpc_clients: Vec::new() }
    }

    /// Whether some client has the given address.
    pub fn have(&self, address: &str) -> (r: bool)
        ensures
            r == holds_addr(self.clients(), address@),
    {
        let n = self.rpc_clients.len();
        let mut i: usize = 0;
        while i < n
            invariant
                n == self.rpc_clients@.len(),
                i <= n,
                forall|j: int| 0 <= j < i ==> addr_of(#[trigger] self.rpc_clients@[j]) != address@,
            decreases n - i,
        {
            let a = self.rpc_clients[i].addr();
            if same_str(a, address) {
                assert(addr_of(self.rpc_clients@[i as int]) == address@);
                return true;
            }
            i = i + 1;
        }
        false
    }

    /// Put a client; if one with the same address is held, the first such is
    /// replaced in place and returned, else the new client is appended.
    pub fn put(&mut self, arg: C) -> (r: Option<Arc<C>>)
        ensures
            final(self).index == old(self).index,
            final(self).clients() == put_clients(old(self).clients(), arg),
            r == put_replaced(old(self).clients(), arg),
    {
        let mut item = Arc::new(arg);
        let ghost fresh = item;
        let n = self.rpc_clients.len();
        let mut i: usize = 0;
        while i < n
            invariant
                n == self.rpc_clients@.len(),
                self.rpc_clients@ == old(self).rpc_clients@,
                self.index == old(self).index,
                i <= n,
                item == fresh,
                fresh == Arc::new(arg),
                addr_of(fresh) == arg.spec_addr(),
                forall|j: int| 0 <= j < i ==> addr_of(#[trigger] self.rpc_clients@[j]) != addr_of(fresh),
            decreases n - i,
        {
            if same_str(self.rpc_clients[i].addr(), item.addr()) {
                assert(first_with_addr(old(self).clients(), addr_of(fresh), i as int));
                proof {
                    lemma_find_addr(old(self).clients(), arg.spec_addr());
                }
                std::mem::swap(&mut self.rpc_clients[i], &mut item);
                return Some(item);
            }
            i = i + 1;
        }
        proof {
            lemma_find_addr(old(self).clients(), arg.spec_addr());
        }
        self.rpc_clients.push(item);
        None
    }

    /// Remove the first client with the given address and return it.
    pub fn remove(&mut self, address: &str) -> (r: Option<Arc<C>>)
        ensures
            final(self).index == old(self).index,
            final(self).clients() == remove_clients(old(self).clients(), address@),
            r == removed(old(self).clients(), address@),
    {
        let n = self.rpc_clients.len();
        let mut i: usize = 0;
        while i < n
            invariant
                n == self.rpc_clients@.len(),
                self.rpc_clients@ == old(self).rpc_clients@,
                self.index == old(self).index,
                i <= n,
                forall|j: int| 0 <= j < i ==> addr_of(#[trigger] self.rpc_clients@[j]) != address@,
            decreases n - i,
        {
            if same_str(self.rpc_clients[i].addr(), address) {
                assert(first_with_addr(old(self).clients(), address@, i as int));
                proof {
                    lemma_find_addr(old(self).clients(), address@);
                }
                return Some(self.rpc_clients.remove(i));
            }
            i = i + 1;
        }
        proof {
            lemma_find_addr(old(self).clients(), address@);
        }
        None
    }

    /// Pick the client paired with `key` by the key hash.
    pub fn pick_by_key(&self, key: &[u8]) -> (r: Option<Arc<C>>)
        requires
            key_hash(key@) <= i64::MAX,
        ensures
            self.clients().len() == 0 ==> r is None,
            self.clients().len() > 0 ==> r == Some(hash_choice(self.clients(), key@)),
    {
        let len = self.rpc_clients.len();
        if len == 0 {
            return None;
        }
        let h = hash_key(key);
        proof {
            lemma_key_hash_prefix(key@, key@.len() as int, key@.len() as int);
            assert(key@.take(key@.len() as int) =~= key@);
        }
        let pos = ((h as u64) % (len as u64)) as usize;
        Some(share(&self.rpc_clients[pos]))
    }

    /// Pick by the hash of the client ip; an empty ip is replaced by the
    /// decimal text of a random 32-bit integer.
    fn hash_pick_client(&self, client_ip: &str) -> (r: Option<Arc<C>>)
        requires
            self.clients().len() > 0 && client_ip@.len() > 0 ==> key_hash(client_ip.spec_bytes())
                <= i64::MAX,
        ensures
            self.clients().len() == 0 ==> r is None,
            self.clients().len() > 0 && client_ip@.len() > 0 ==> r == Some(
                hash_choice(self.clients(), client_ip.spec_bytes()),
            ),
            self.clients().len() > 0 && client_ip@.len() == 0 ==> exists|v: i32|
                r == Some(hash_choice(self.clients(), #[trigger] decimal(v as int))),
    {
        if self.rpc_clients.len() == 0 {
            return None;
        }
        if client_ip.is_empty() {
            let v = random_i32();
            let key = decimal_bytes(v);
            proof {
                lemma_key_hash_bound(key@);
                assert(255 * key@.len() * key@.len() <= 255 * 11 * 11) by (nonlinear_arith)
                    requires
                        key@.len() <= 11,
                ;
            }
            let r = self.pick_by_key(key.as_slice());
            assert(r == Some(hash_choice(self.clients(), decimal(v as int))));
            r
        } else {
            self.pick_by_key(client_ip.as_bytes())
        }
    }

    /// Pick the client at position `i`.
    pub fn pick_at(&self, i: usize) -> (r: Option<Arc<C>>)
        requires
            i < self.clients().len(),
        ensures
            r == Some(self.clients()[i as int]),
    {
        Some(share(&self.rpc_clients[i]))
    }

    /// Pick a client at a random position.
    fn random_pick_client(&self) -> (r: Option<Arc<C>>)
        ensures
            self.clients().len() == 0 ==> r is None,
            self.clients().len() > 0 ==> exists|i: int|
                0 <= i < self.clients().len() && r == Some(#[trigger] self.clients()[i]),
    {
        let length = self.rpc_clients.len();
        if length == 0 {
            return None;
        }
        let i = random_below(length);
        self.pick_at(i)
    }

    /// Pick the client at the current turn and pass the turn to the next one,
    /// wrapping to the first after the last.
    fn round_pick_client(&mut self) -> (r: Option<Arc<C>>)
        ensures
            final(self).clients() == old(self).clients(),
            old(self).clients().len() == 0 ==> r is None && final(self).index == old(self).index,
            old(self).clients().len() > 0 ==> r == Some(
                old(self).clients()[round_turn(old(self).index as int, old(self).clients().len() as int)],
            ) && final(self).index == round_next(
                round_turn(old(self).index as int, old(self).clients().len() as int),
                old(self).clients().len() as int,
            ),
    {
        let length = self.rpc_clients.len();
        if length == 0 {
            return None;
        }
        let idx = if self.index < length {
            self.index
        } else {
            0
        };
        if idx + 1 >= length {
            self.index = 0;
        } else {
            self.index = idx + 1;
        }
        Some(share(&self.rpc_clients[idx]))
    }

    /// Pick the first client with the fewest live handles.
    fn min_connect_client(&self) -> (r: Option<Arc<C>>)
        ensures
            self.clients().len() == 0 ==> r is None,
            self.clients().len() > 0 ==> exists|counts: Seq<usize>, i: int|
                counts.len() == self.clients().len() && #[trigger] first_min(counts, i) && r == Some(
                    self.clients()[i],
                ),
    {
        let n = self.rpc_clients.len();
        let mut counts: Vec<usize> = Vec::new();
        let mut i: usize = 0;
        while i < n
            invariant
                n == self.rpc_clients@.len(),
                i <= n,
                counts@.len() == i,
            decreases n - i,
        {
            counts.push(handle_count(&self.rpc_clients[i]));
            i = i + 1;
        }
        match min_count_position(&counts) {
            None => None,
            Some(p) => {
                let c = share(&self.rpc_clients[p]);
                assert(first_min(counts@, p as int));
                Some(c)
            },
        }
    }

    /// Pick a client by the given rule. Only round-robin moves the turn.
    pub fn do_balance(&mut self, b: LoadBalanceType, client_ip: &str) -> (r: Option<Arc<C>>)
        requires
            b == LoadBalanceType::Hash && old(self).clients().len() > 0 && client_ip@.len() > 0
                ==> key_hash(client_ip.spec_bytes()) <= i64::MAX,
        ensures
            final(self).clients() == old(self).clients(),
            picked(
                old(self).clients(),
                old(self).index as int,
                b,
                client_ip@,
                r,
                final(self).index as int,
            ),
    {
        match b {
            LoadBalanceType::Round => self.round_pick_client(),
            LoadBalanceType::Random => self.random_pick_client(),
            LoadBalanceType::Hash => self.hash_pick_client(client_ip),
            LoadBalanceType::MinConnect => self.min_connect_client(),
        }
    }

    /// Drop every client.
    pub fn clear(&mut self)
        ensures
            final(self).clients() == Seq::<Arc<C>>::empty(),
            final(self).index == old(self).index,
    {
        self.rpc_clients.clear();
    }
}

/// After a put, a client with the put client's address is held.
pub proof fn law_put_then_have<C: RpcClient>(cs: Seq<Arc<C>>, c: C)
    ensures
        holds_addr(put_clients(cs, c), c.spec_addr()),
{
    lemma_find_addr(cs, c.spec_addr());
    let r = put_clients(cs, c);
    match find_addr(cs, c.spec_addr()) {
        Some(i) => {
            assert(addr_of(r[i]) == c.spec_addr());
        },
        None => {
            assert(addr_of(r[cs.len() as int]) == c.spec_addr());
        },
    }
}

/// A put replaces a client exactly when one with the same address is held,
/// and the replaced client has that address.
pub proof fn law_put_replaces_same_addr<C: RpcClient>(cs: Seq<Arc<C>>, c: C)
    ensures
        put_replaced(cs, c) is Some <==> holds_addr(cs, c.spec_addr()),
        put_replaced(cs, c) matches Some(p) ==> addr_of(p) == c.spec_addr(),
        holds_addr(cs, c.spec_addr()) ==> put_clients(cs, c).len() == cs.len(),
        !holds_addr(cs, c.spec_addr()) ==> put_clients(cs, c).len() == cs.len() + 1,
{
    lemma_find_addr(cs, c.spec_addr());
}

/// Putting keeps addresses unique.
pub proof fn law_put_keeps_unique<C: RpcClient>(cs: Seq<Arc<C>>, c: C)
    requires
        unique_addrs(cs),
    ensures
        unique_addrs(put_clients(cs, c)),
{
    lemma_find_addr(cs, c.spec_addr());
    let r = put_clients(cs, c);
    assert forall|i: int, j: int|
        0 <= i < r.len() && 0 <= j < r.len() && i != j implies addr_of(#[trigger] r[i]) != addr_of(
        #[trigger] r[j],
    ) by {
        match find_addr(cs, c.spec_addr()) {
            Some(k) => {
                if i == k {
                    assert(addr_of(cs[j]) != addr_of(cs[k]));
                } else if j == k {
                    assert(addr_of(cs[i]) != addr_of(cs[k]));
                } else {
                    assert(addr_of(cs[i]) != addr_of(cs[j]));
                }
            },
            None => {
                if i == cs.len() {
                    assert(addr_of(cs[j]) != c.spec_addr());
                } else if j == cs.len() {
                    assert(addr_of(cs[i]) != c.spec_addr());
                } else {
                    assert(addr_of(cs[i]) != addr_of(cs[j]));
                }
            },
        }
    }
}

/// Removing keeps addresses unique.
pub proof fn law_remove_keeps_unique<C: RpcClient>(cs: Seq<Arc<C>>, a: Seq<char>)
    requires
        unique_addrs(cs),
    ensures
        unique_addrs(remove_clients(cs, a)),
{
    lemma_find_addr(cs, a);
    let r = remove_clients(cs, a);
    match find_addr(cs, a) {
        Some(k) => {
            assert forall|i: int, j: int|
                0 <= i < r.len() && 0 <= j < r.len() && i != j implies addr_of(#[trigger] r[i])
                != addr_of(#[trigger] r[j]) by {
                let i0 = if i < k { i } else { i + 1 };
                let j0 = if j < k { j } else { j + 1 };
                assert(r[i] == cs[i0]);
                assert(r[j] == cs[j0]);
                assert(addr_of(cs[i0]) != addr_of(cs[j0]));
            }
        },
        None => {},
    }
}

/// With unique addresses, after removing an address no client has it.
pub proof fn law_remove_then_lacks<C: RpcClient>(cs: Seq<Arc<C>>, a: Seq<char>)
    requires
        unique_addrs(cs),
    ensures
        !holds_addr(remove_clients(cs, a), a),
        removed(cs, a) is Some <==> holds_addr(cs, a),
        removed(cs, a) matches Some(p) ==> addr_of(p) == a,
{
    lemma_find_addr(cs, a);
    let r = remove_clients(cs, a);
    match find_addr(cs, a) {
        Some(k) => {
            assert forall|i: int| 0 <= i < r.len() implies addr_of(#[trigger] r[i]) != a by {
                let i0 = if i < k { i } else { i + 1 };
                assert(r[i] == cs[i0]);
                assert(addr_of(cs[i0]) != addr_of(cs[k]));
            }
        },
        None => {},
    }
}

/// Removing the address of a client that a put appended undoes the put and
/// hands back that client.
pub proof fn law_remove_undoes_put<C: RpcClient>(cs: Seq<Arc<C>>, c: C)
    requires
        !holds_addr(cs, c.spec_addr()),
    ensures
        remove_clients(put_clients(cs, c), c.spec_addr()) == cs,
        removed(put_clients(cs, c), c.spec_addr()) == Some(Arc::new(c)),
{
    lemma_find_addr(cs, c.spec_addr());
    let p = put_clients(cs, c);
    assert(p == cs.push(Arc::new(c)));
    assert(first_with_addr(p, c.spec_addr(), cs.len() as int)) by {
        assert forall|j: int| 0 <= j < cs.len() implies addr_of(#[trigger] p[j]) != c.spec_addr() by {
            assert(p[j] == cs[j]);
        }
    }
    lemma_find_addr(p, c.spec_addr());
    assert(p.remove(cs.len() as int) =~= cs);
}

/// The turn after `k` round-robin picks, starting at `index`.
pub open spec fn round_after(index: int, len: int, k: nat) -> int
    decreases k,
{
    if k == 0 {
        index
    } else {
        round_next(round_after(index, len, (k - 1) as nat), len)
    }
}

/// Round-robin: starting at any valid turn, the `k`-th pick after it is the
/// client at `(index + k) % len`, so `len` consecutive picks visit every client once.
pub proof fn law_round_turns(index: int, len: int, k: nat)
    requires
        0 <= index < len,
    ensures
        round_after(index, len, k) == (index + k) % len,
    decreases k,
{
    if k == 0 {
        vstd::arithmetic::div_mod::lemma_small_mod(index as nat, len as nat);
    } else {
        law_round_turns(index, len, (k - 1) as nat);
        let prev = (index + k - 1) % len;
        vstd::arithmetic::div_mod::lemma_mod_bound(index + k - 1, len);
        vstd::arithmetic::div_mod::lemma_mod_bound(index + k, len);
        if len == 1 {
        } else {
            vstd::arithmetic::div_mod::lemma_add_mod_noop(index + k - 1, 1, len);
            vstd::arithmetic::div_mod::lemma_small_mod(1, len as nat);
        }
        if len == 1 {
        } else if prev + 1 >= len {
            vstd::arithmetic::div_mod::lemma_mod_self_0(len);
        } else {
            vstd::arithmetic::div_mod::lemma_small_mod((prev + 1) as nat, len as nat);
        }
    }
}

/// The hash rule always names a held client, and the same key with the same
/// clients always names the same one: a client ip is paired with one client.
pub proof fn law_hash_pairs<C: RpcClient>(cs: Seq<Arc<C>>, key1: Seq<u8>, key2: Seq<u8>)
    requires
        cs.len() > 0,
    ensures
        0 <= key_hash(key1) % (cs.len() as int) < cs.len(),
        key1 == key2 ==> hash_choice(cs, key1) == hash_choice(cs, key2),
{
    vstd::arithmetic::div_mod::lemma_mod_bound(key_hash(key1), cs.len() as int);
}

/// The fewest-handles rule names one position only.
pub proof fn law_min_connect_unique(counts: Seq<usize>, i: int, j: int)
    requires
        first_min(counts, i),
        first_min(counts, j),
    ensures
        i == j,
{
    if i < j {
        assert(counts[j] < counts[i]);
    } else if j < i {
        assert(counts[i] < counts[j]);
    }
}

/// Round-robin through [`LoadBalance::do_balance`]: with the clients left
/// unchanged, the pick made after `k` earlier round-robin picks from a valid
/// turn `start` returns the client at `(start + k) % len` and moves the turn on,
/// so every `len` consecutive picks return each client exactly once.
pub proof fn law_round_picks<C: RpcClient>(
    cs: Seq<Arc<C>>,
    start: int,
    k: nat,
    ip: Seq<char>,
    r: Option<Arc<C>>,
    next: int,
)
    requires
        0 <= start < cs.len(),
        picked(cs, round_after(start, cs.len() as int, k), LoadBalanceType::Round, ip, r, next),
    ensures
        r == Some(cs[(start + k) % (cs.len() as int)]),
        next == round_after(start, cs.len() as int, k + 1),
{
    let len = cs.len() as int;
    law_round_turns(start, len, k);
    vstd::arithmetic::div_mod::lemma_mod_bound(start + k, len);
    assert(round_after(start, len, (k + 1) as nat) == round_next(round_after(start, len, k), len));
}

/// Round-robin never fails on a stored turn past the end: the pick falls back
/// to the first client and the next turn is the second (or the first again).
pub proof fn law_round_recovers<C: RpcClient>(
    cs: Seq<Arc<C>>,
    index: int,
    ip: Seq<char>,
    r: Option<Arc<C>>,
    next: int,
)
    requires
        cs.len() > 0,
        index >= cs.len(),
        picked(cs, index, LoadBalanceType::Round, ip, r, next),
    ensures
        r == Some(cs[0]),
        0 <= next < cs.len(),
{
}

/// The hash rule through [`LoadBalance::do_balance`]: for a non-empty client
/// ip and the same clients, every pick returns the same client, whatever the
/// stored turn or the picks made in between.
pub proof fn law_hash_same_ip<C: RpcClient>(
    cs: Seq<Arc<C>>,
    index1: int,
    index2: int,
    ip: Seq<char>,
    r1: Option<Arc<C>>,
    r2: Option<Arc<C>>,
    next1: int,
    next2: int,
)
    requires
        ip.len() > 0,
        picked(cs, index1, LoadBalanceType::Hash, ip, r1, next1),
        picked(cs, index2, LoadBalanceType::Hash, ip, r2, next2),
    ensures
        r1 == r2,
        cs.len() > 0 ==> r1 == Some(hash_choice(cs, vstd::utf8::encode_utf8(ip))),
{
}

/// A put of a client whose address is first held at position `i` puts the new
/// client at `i`, hands back the client that was there, and leaves every other
/// client where it was.
pub proof fn law_put_in_place<C: RpcClient>(cs: Seq<Arc<C>>, c: C, i: int)
    requires
        first_with_addr(cs, c.spec_addr(), i),
    ensures
        put_clients(cs, c).len() == cs.len(),
        put_clients(cs, c)[i] == Arc::new(c),
        put_replaced(cs, c) == Some(cs[i]),
        forall|j: int| 0 <= j < cs.len() && j != i ==> #[trigger] put_clients(cs, c)[j] == cs[j],
{
    lemma_find_addr(cs, c.spec_addr());
}

/// A put of a client whose address is not held hands nothing back and adds the
/// new client after all the others, which stay where they were.
pub proof fn law_put_appends<C: RpcClient>(cs: Seq<Arc<C>>, c: C)
    requires
        !holds_addr(cs, c.spec_addr()),
    ensures
        put_replaced(cs, c) is None,
        put_clients(cs, c).len() == cs.len() + 1,
        put_clients(cs, c)[cs.len() as int] == Arc::new(c),
        forall|j: int| 0 <= j < cs.len() ==> #[trigger] put_clients(cs, c)[j] == cs[j],
{
    lemma_find_addr(cs, c.spec_addr());
}

/// Removing an address first held at position `i` hands back the client at `i`
/// and keeps the others in the order they were added: those before `i` stay
/// where they were and those after it move up by one.
pub proof fn law_remove_keeps_order<C: RpcClient>(cs: Seq<Arc<C>>, a: Seq<char>, i: int)
    requires
        first_with_addr(cs, a, i),
    ensures
        removed(cs, a) == Some(cs[i]),
        remove_clients(cs, a).len() == cs.len() - 1,
        forall|j: int| 0 <= j < i ==> #[trigger] remove_clients(cs, a)[j] == cs[j],
        forall|j: int| i <= j < cs.len() - 1 ==> #[trigger] remove_clients(cs, a)[j] == cs[j + 1],
{
    lemma_find_addr(cs, a);
}

/// Removing an address that no client has hands nothing back and changes nothing.
pub proof fn law_remove_missing<C: RpcClient>(cs: Seq<Arc<C>>, a: Seq<char>)
    requires
        !holds_addr(cs, a),
    ensures
        removed(cs, a) is None,
        remove_clients(cs, a) == cs,
{
    lemma_find_addr(cs, a);
}

} // verus!

//! An explicit registry of chain connections, keyed by chain name.
use vstd::prelude::*;
use crate::amount::{all_digits, digits_value, is_digit, lemma_digits_value_bound, pow10};

verus! {

/// What a registered connection holds, as plain values.
pub ghost struct ConnectionView {
    pub name: Seq<char>,
    pub address: Seq<char>,
    pub decimal: u32,
}

/// A chain name bound to the node's network address and the chain's
/// decimal precision.
#[derive(Debug, Clone)]
pub struct Connection {
    pub name: String,
    pub address: String,
    pub decimal: u32,
}

impl View for Connection {
    type V = ConnectionView;

    open spec fn view(&self) -> ConnectionView {
        ConnectionView { name: self.name@, address: self.address@, decimal: self.decimal }
    }
}

impl Connection {
    pub fn get_decimal(&self) -> (r: u32)
        ensures
            r == self.decimal,
    {
        self.decimal
    }
}

#[derive(Debug, Clone, Copy, PartialEq, Eq, Structural)]
pub enum ConnectionError {
    /// The address is not `host:port` with a port from 1 to 65535.
    MalformedAddress,
    /// A connection under this name is registered already.
    AlreadyRegistered,
    /// No connection is registered under this name.
    NotFound,
}

/// The latest connection registered under `name`.
pub open spec fn lookup(conns: Seq<ConnectionView>, name: Seq<char>) -> Option<ConnectionView>
    decreases conns.len(),
{
    if conns.len() == 0 {
        None
    } else if conns.last().name == name {
        Some(conns.last())
    } else {
        lookup(conns.drop_last(), name)
    }
}

/// `address` is a non-empty host, a colon and a port of one to five digits
/// whose value lies from 1 to 65535; `i` is where the colon stands.
pub open spec fn address_shape(address: Seq<char>, i: int) -> bool {
    let port = address.skip(i + 1);
    &&& 0 < i < address.len() - 1
    &&& address[i] == ':'
    &&& all_digits(port)
    &&& port.len() <= 5
    &&& 1 <= digits_value(port) <= 65535
}

pub open spec fn well_formed_address(address: Seq<char>) -> bool {
    exists|i: int| address_shape(address, i)
}

/// Connections registered by name. Each name is registered at most once.
pub struct ConnectionRegistry {
    connections: Vec<Connection>,
}

impl View for ConnectionRegistry {
    type V = Seq<ConnectionView>;

    closed spec fn view(&self) -> Seq<ConnectionView> {
        Seq::new(self.connections@.len(), |i: int| self.connections@[i]@)
    }
}

/// Decides whether `address` is `host:port` with a port from 1 to 65535.
pub fn check_address(address: &str) -> (r: bool)
    ensures
        r == well_formed_address(address@),
{
    let ghost a = address@;
    let n = address.unicode_len();
    let mut j: usize = n;
    loop
        invariant
            j <= n,
            n == a.len(),
            a == address@,
            forall|t: int| j <= t < n ==> #[trigger] is_digit(a[t]),
        ensures
            j <= n,
            forall|t: int| j <= t < n ==> #[trigger] is_digit(a[t]),
            j == 0 || !is_digit(a[j - 1]),
        decreases j,
    {
        if j == 0 {
            break;
        }
        let c = address.get_char(j - 1);
        if !('0' <= c && c <= '9') {
            break;
        }
        j -= 1;
    }
    // Any shape puts its colon just before the trailing digits.
    assert forall|i: int| address_shape(a, i) implies i == j - 1 by {
        let port = a.skip(i + 1);
        if i + 1 < j {
            assert(port[j - 1 - (i + 1)] == a[j - 1]);
            assert(is_digit(port[j - 1 - (i + 1)]));
        } else if i + 1 > j {
            assert(is_digit(a[i]));
        }
    }
    if j < 2 || j == n || n - j > 5 || address.get_char(j - 1) != ':' {
        return false;
    }
    let ghost port = a.skip(j as int);
    assert(all_digits(port)) by {
        assert forall|t: int| 0 <= t < port.len() implies #[trigger] is_digit(port[t]) by {
            assert(port[t] == a[j + t]);
        }
    }
    let mut value: u32 = 0;
    let mut k: usize = j;
    while k < n
        invariant
            j <= k <= n,
            n - j <= 5,
            n == a.len(),
            a == address@,
            port == a.skip(j as int),
            all_digits(port),
            value == digits_value(port.take(k - j)),
            value < pow10((k - j) as nat),
            k - j <= 5,
        decreases n - k,
    {
        let c = address.get_char(k);
        assert(c == port[k - j]);
        assert(is_digit(port[k - j]));
        let ghost pre = port.take(k - j + 1);
        assert(pre.drop_last() =~= port.take(k - j));
        assert(all_digits(pre)) by {
            assert forall|t: int| 0 <= t < pre.len() implies #[trigger] is_digit(pre[t]) by {
                assert(pre[t] == port[t]);
            }
        }
        proof {
            lemma_digits_value_bound(pre);
            reveal_with_fuel(pow10, 6);
        }
        value = value * 10 + (c as u32 - '0' as u32);
        k += 1;
    }
    assert(port.take(n - j) =~= port);
    if 1 <= value && value <= 65535 {
        assert(address_shape(a, j - 1));
        true
    } else {
        false
    }
}

impl ConnectionRegistry {
    pub open spec fn names_unique(conns: Seq<ConnectionView>) -> bool {
        forall|i: int, k: int| 0 <= i < k < conns.len() ==> conns[i].name != conns[k].name
    }

    pub fn new() -> (r: ConnectionRegistry)
        ensures
            r@ == Seq::<ConnectionView>::empty(),
    {
        let r = ConnectionRegistry { connections: Vec::new() };
        assert(r@ =~= Seq::<ConnectionView>::empty());
        r
    }

    /// The connection registered under `name`, if any.
    pub fn get_connection(&self, name: &str) -> (r: Option<&Connection>)
        ensures
            match r {
                Some(c) => lookup(self@, name@) == Some(c@),
                None => lookup(self@, name@) is None,
            },
    {
        let mut i: usize = self.connections.len();
        assert(self@.take(i as int) =~= self@);
        while i > 0
            invariant
                i <= self.connections@.len(),
                self@.len() == self.connections@.len(),
                lookup(self@, name@) == lookup(self@.take(i as int), name@),
            decreases i,
        {
            let ghost pre = self@.take(i as int);
            assert(pre.drop_last() =~= self@.take(i - 1));
            assert(pre.last() == self.connections@[i - 1]@);
            if str_eq(self.connections[i - 1].name.as_str(), name) {
                return Some(&self.connections[i - 1]);
            }
            i -= 1;
        }
        None
    }

    /// Registers `address` and `decimal` under `name`. A malformed address
    /// is refused first, then a name that is taken; on an error the
    /// registry is unchanged.
    pub fn add_connection(&mut self, name: &str, address: &str, decimal: u32) -> (r: Result<
        (),
        ConnectionError,
    >)
        ensures
            !well_formed_address(address@) ==> r == Err::<(), ConnectionError>(
                ConnectionError::MalformedAddress,
            ),
            well_formed_address(address@) && lookup(old(self)@, name@) is Some ==> r == Err::<
                (),
                ConnectionError,
            >(ConnectionError::AlreadyRegistered),
            well_formed_address(address@) && lookup(old(self)@, name@) is None ==> r is Ok,
            r is Ok ==> final(self)@ == old(self)@.push(
                ConnectionView { name: name@, address: address@, decimal },
            ),
            r is Err ==> final(self)@ == old(self)@,
    {
        if !check_address(address) {
            return Err(ConnectionError::MalformedAddress);
        }
        if self.get_connection(name).is_some() {
            return Err(ConnectionError::AlreadyRegistered);
        }
        let c = Connection { name: name.to_owned(), address: address.to_owned(), decimal };
        self.connections.push(c);
        assert(self@ =~= old(self)@.push(
            ConnectionView { name: name@, address: address@, decimal },
        ));
        Ok(())
    }
}

/// Relies on `str`'s `PartialEq`: equal exactly when the characters are.
#[verifier::external_body]
fn str_eq(a: &str, b: &str) -> (r: bool)
    ensures
        r == (a@ == b@),
{
    a == b
}

/// Once a connection is registered under a name, that name routes to it;
/// registering other names afterwards leaves it routed.
pub proof fn lemma_registered_name_routes(
    conns: Seq<ConnectionView>,
    c: ConnectionView,
    later: Seq<ConnectionView>,
)
    requires
        forall|i: int| 0 <= i < later.len() ==> #[trigger] later[i].name != c.name,
    ensures
        lookup(conns.push(c) + later, c.name) == Some(c),
    decreases later.len(),
{
    if later.len() == 0 {
        assert(conns.push(c) + later =~= conns.push(c));
        assert(conns.push(c).drop_last() =~= conns);
    } else {
        let rest = later.drop_last();
        assert((conns.push(c) + later).drop_last() =~= conns.push(c) + rest);
        assert(later[later.len() - 1].name != c.name);
        lemma_registered_name_routes(conns, c, rest);
    }
}

} // verus!

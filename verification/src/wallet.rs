//! The wallet connector's data model: what a connector application
//! advertises about itself, and the network it is connected to.
//!
//! The browser-side plumbing that discovers connectors and performs the
//! asynchronous calls lives outside this crate; it hands these types
//! already-materialized plain values.

use vstd::prelude::*;

verus! {

/// A connector extension, named by its improvement-proposal number.
#[derive(Debug, Clone, Copy, PartialEq, Eq, Hash, Structural)]
pub struct Extension {
    pub cip: u64,
}

/// Optional pagination for list-returning wallet calls: results are
/// limited to `limite` entries per page, and `page` is the 0-based page
/// index.
#[derive(Debug, Clone, Copy, PartialEq, Eq, Hash, Structural)]
pub struct Paginate {
    pub page: usize,
    pub limite: usize,
}

/// The network a connected wallet operates on.
#[derive(Debug, Clone, Copy, PartialEq, Eq, Hash, Structural)]
pub enum NetworkId {
    PreProduction,
    Preview,
    Mainnet,
    Unknown(u8),
}

/// The numeric code of a network identifier.
pub open spec fn network_id_code(n: NetworkId) -> u8 {
    match n {
        NetworkId::PreProduction => 0,
        NetworkId::Preview => 0,
        NetworkId::Mainnet => 1,
        NetworkId::Unknown(c) => c,
    }
}

impl NetworkId {
    /// Classify the numeric network identifier a host wallet hands back:
    /// 0 is a testing network, 1 is the production network, anything
    /// else is carried through unchanged.
    pub fn from_code(code: u8) -> (r: Self)
        ensures
            r == (if code == 0 {
                NetworkId::PreProduction
            } else if code == 1 {
                NetworkId::Mainnet
            } else {
                NetworkId::Unknown(code)
            }),
    {
        if code == 0 {
            NetworkId::PreProduction
        } else if code == 1 {
            NetworkId::Mainnet
        } else {
            NetworkId::Unknown(code)
        }
    }
}

impl From<NetworkId> for u8 {
    /// The numeric code of this network identifier.
    fn from(network_id: NetworkId) -> (r: u8) {
        match network_id {
            NetworkId::PreProduction => 0,
            NetworkId::Preview => 0,
            NetworkId::Mainnet => 1,
            NetworkId::Unknown(n) => n,
        }
    }
}

impl vstd::std_specs::convert::FromSpecImpl<NetworkId> for u8 {
    open spec fn obeys_from_spec() -> bool {
        true
    }

    open spec fn from_spec(n: NetworkId) -> u8 {
        network_id_code(n)
    }
}

/// What a wallet connector application advertises about itself.
#[derive(Debug, Clone, PartialEq, Eq)]
pub struct Wallet {
    name: String,
    version: String,
    icon: String,
    supported_extensions: Vec<Extension>,
}

impl Wallet {
    /// The advertised name of this wallet.
    pub closed spec fn spec_name(self) -> Seq<char> {
        self.name@
    }

    /// The advertised version of this wallet.
    pub closed spec fn spec_version(self) -> Seq<char> {
        self.version@
    }

    /// The advertised icon of this wallet.
    pub closed spec fn spec_icon(self) -> Seq<char> {
        self.icon@
    }

    /// The advertised extensions of this wallet.
    pub closed spec fn spec_extensions(self) -> Seq<Extension> {
        self.supported_extensions@
    }

    /// Record what a discovered wallet connector advertises.
    pub fn new(name: String, version: String, icon: String, supported_extensions: Vec<Extension>) -> (r: Self)
        ensures
            r.spec_name() == name@,
            r.spec_version() == version@,
            r.spec_icon() == icon@,
            r.spec_extensions() == supported_extensions@,
    {
        Wallet { name, version, icon, supported_extensions }
    }

    /// The name of the wallet connector application.
    pub fn name(&self) -> (r: String)
        ensures
            r@ == self.spec_name(),
    {
        self.name.clone()
    }

    /// The wallet connector application's version.
    pub fn version(&self) -> (r: String)
        ensures
            r@ == self.spec_version(),
    {
        self.version.clone()
    }

    /// The HTML-ready icon for this wallet connector application.
    pub fn icon(&self) -> (r: String)
        ensures
            r@ == self.spec_icon(),
    {
        self.icon.clone()
    }

    /// The extensions this wallet connector application supports.
    pub fn supported_extensions(&self) -> (r: Vec<Extension>)
        ensures
            r@ == self.spec_extensions(),
    {
        let mut out: Vec<Extension> = Vec::new();
        let mut i: usize = 0;
        while i < self.supported_extensions.len()
            invariant
                i <= self.supported_extensions@.len(),
                out@ == self.supported_extensions@.take(i as int),
            decreases self.supported_extensions@.len() - i,
        {
            out.push(self.supported_extensions[i]);
            proof {
                assert(self.supported_extensions@.take(i + 1) =~= self.supported_extensions@.take(
                    i as int,
                ).push(self.supported_extensions@[i as int]));
            }
            i = i + 1;
        }
        proof {
            assert(self.supported_extensions@.take(self.supported_extensions@.len() as int)
                =~= self.supported_extensions@);
        }
        out
    }
}

/// A wallet connector the user has authorised.  The asynchronous calls
/// against the host live outside this crate; this type carries what the
/// connector advertised at connection time.
#[derive(Debug, Clone, PartialEq, Eq)]
pub struct ConnectedWallet {
    wallet: Wallet,
}

impl ConnectedWallet {
    /// The wallet this connection was made through.
    pub closed spec fn spec_wallet(self) -> Wallet {
        self.wallet
    }

    /// Record an authorised connection to `wallet`.
    pub fn new(wallet: Wallet) -> (r: Self)
        ensures
            r.spec_wallet() == wallet,
    {
        ConnectedWallet { wallet }
    }

    /// The name of the wallet connector application.
    pub fn name(&self) -> (r: String)
        ensures
            r@ == self.spec_wallet().spec_name(),
    {
        self.wallet.name()
    }

    /// The wallet connector application's version.
    pub fn version(&self) -> (r: String)
        ensures
            r@ == self.spec_wallet().spec_version(),
    {
        self.wallet.version()
    }

    /// The HTML-ready icon for this wallet connector application.
    pub fn icon(&self) -> (r: String)
        ensures
            r@ == self.spec_wallet().spec_icon(),
    {
        self.wallet.icon()
    }

    /// The extensions this wallet connector application supports.
    pub fn supported_extensions(&self) -> (r: Vec<Extension>)
        ensures
            r@ == self.spec_wallet().spec_extensions(),
    {
        self.wallet.supported_extensions()
    }
}

} // verus!

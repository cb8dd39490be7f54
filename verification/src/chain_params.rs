//! Per-chain constants the node needs before consensus rules exist.
//!
//! Values mirror Bitcoin Core's `kernel/chainparams.cpp`.

use vstd::prelude::*;

verus! {

/// The network type of the `bitcoin` crate, carried through without looking inside.
#[verifier::external_type_specification]
#[verifier::external_body]
pub struct ExNetwork(bitcoin::Network);

/// Which Bitcoin chain the node follows. Testnet3 is deliberately not supported.
#[derive(Debug, Clone, Copy, PartialEq, Eq, Structural)]
pub enum Chain {
    Main,
    Testnet4,
    Signet,
    Regtest,
}

impl Default for Chain {
    fn default() -> (r: Chain)
        ensures
            r == Chain::Main,
    {
        Chain::Main
    }
}

impl Chain {
    /// The `bitcoin` crate's name for this chain: `Network::Bitcoin`, `Network::Testnet4`,
    /// `Network::Signet` or `Network::Regtest`, one for one. Nothing is stated of the value,
    /// which verified code only hands back to that crate.
    #[verifier::external_body]
    pub fn network(self) -> bitcoin::Network {
        match self {
            Chain::Main => bitcoin::Network::Bitcoin,
            Chain::Testnet4 => bitcoin::Network::Testnet4,
            Chain::Signet => bitcoin::Network::Signet,
            Chain::Regtest => bitcoin::Network::Regtest,
        }
    }

    /// Chain name as used by Bitcoin Core's `-chain` option. Also names the data subdirectory.
    pub fn name(self) -> (r: &'static str)
        ensures
            self == Chain::Main ==> r@ == "main"@,
            self == Chain::Testnet4 ==> r@ == "testnet4"@,
            self == Chain::Signet ==> r@ == "signet"@,
            self == Chain::Regtest ==> r@ == "regtest"@,
    {
        match self {
            Chain::Main => "main",
            Chain::Testnet4 => "testnet4",
            Chain::Signet => "signet",
            Chain::Regtest => "regtest",
        }
    }

    /// Bitcoin Core `nDefaultPort`.
    pub fn default_port(self) -> (r: u16)
        ensures
            r == match self {
                Chain::Main => 8333u16,
                Chain::Testnet4 => 48333u16,
                Chain::Signet => 38333u16,
                Chain::Regtest => 18444u16,
            },
    {
        match self {
            Chain::Main => 8333,
            Chain::Testnet4 => 48333,
            Chain::Signet => 38333,
            Chain::Regtest => 18444,
        }
    }

    /// Bitcoin Core `vSeeds`. Regtest has none.
    pub fn dns_seeds(self) -> (r: &'static [&'static str])
        ensures
            r@.len() == match self {
                Chain::Main => 7nat,
                Chain::Testnet4 => 2nat,
                Chain::Signet => 2nat,
                Chain::Regtest => 0nat,
            },
            r@.map_values(|s: &str| s@) == match self {
                Chain::Main => seq![
                    "dnsseed.bluematt.me"@,
                    "seed.bitcoin.jonasschnelli.ch"@,
                    "seed.btc.petertodd.net"@,
                    "seed.bitcoin.sprovoost.nl"@,
                    "dnsseed.emzy.de"@,
                    "seed.bitcoin.wiz.biz"@,
                    "seed.mainnet.achownodes.xyz"@,
                ],
                Chain::Testnet4 => seq!["seed.testnet4.bitcoin.sprovoost.nl"@, "seed.testnet4.wiz.biz"@],
                Chain::Signet => seq!["seed.signet.bitcoin.sprovoost.nl"@, "seed.signet.achownodes.xyz"@],
                Chain::Regtest => Seq::<Seq<char>>::empty(),
            },
    {
        match self {
            Chain::Main => &[
                "dnsseed.bluematt.me",
                "seed.bitcoin.jonasschnelli.ch",
                "seed.btc.petertodd.net",
                "seed.bitcoin.sprovoost.nl",
                "dnsseed.emzy.de",
                "seed.bitcoin.wiz.biz",
                "seed.mainnet.achownodes.xyz",
            ],
            Chain::Testnet4 => &[
                "seed.testnet4.bitcoin.sprovoost.nl",
                "seed.testnet4.wiz.biz",
            ],
            Chain::Signet => &[
                "seed.signet.bitcoin.sprovoost.nl",
                "seed.signet.achownodes.xyz",
            ],
            Chain::Regtest => &[],
        }
    }
}

} // verus!

//! The Wojakcoin networks and their parameters.

use crate::tables::opt_view;
use crate::text::str_eq;
use vstd::prelude::*;

verus! {

/// A Wojakcoin network.
#[derive(Debug, Clone, Copy, PartialEq, Eq, Structural)]
pub enum Chain {
    Mainnet,
    Testnet,
    Signet,
    Regtest,
}

/// The address network of a chain (what addresses are encoded for).
#[derive(Debug, Clone, Copy, PartialEq, Eq, Structural)]
pub enum Network {
    Bitcoin,
    Testnet,
    Signet,
    Regtest,
}

/// The address network of a chain.
pub open spec fn network_of(c: Chain) -> Network {
    match c {
        Chain::Mainnet => Network::Bitcoin,
        Chain::Testnet => Network::Testnet,
        Chain::Signet => Network::Signet,
        Chain::Regtest => Network::Regtest,
    }
}

/// A chain name that no chain has.
#[derive(Debug, Clone)]
pub struct UnknownChain {
    pub name: String,
}

/// The chain that a name designates: `mainnet` or `main`, `testnet` or
/// `test`, `signet`, `regtest`.
pub open spec fn chain_of_name(s: Seq<char>) -> Option<Chain> {
    if s == "mainnet"@ || s == "main"@ {
        Some(Chain::Mainnet)
    } else if s == "testnet"@ || s == "test"@ {
        Some(Chain::Testnet)
    } else if s == "signet"@ {
        Some(Chain::Signet)
    } else if s == "regtest"@ {
        Some(Chain::Regtest)
    } else {
        None
    }
}

/// The address text of an output script on a network, as `bitcoin` encodes
/// it (`None` where the script pays to no address).
pub uninterp spec fn script_address_of(script: Seq<u8>, network: Network) -> Option<Seq<char>>;

/// `bitcoin::Address::from_script` followed by `to_string`: the address
/// that an output script pays to. The contract names the result.
#[verifier::external_body]
fn script_address(script: &[u8], network: Network) -> (r: Option<String>)
    ensures
        opt_view(r) == script_address_of(script@, network),
{
    let network = match network {
        Network::Bitcoin => bitcoin::Network::Bitcoin,
        Network::Testnet => bitcoin::Network::Testnet,
        Network::Signet => bitcoin::Network::Signet,
        Network::Regtest => bitcoin::Network::Regtest,
    };
    let script = bitcoin::Script::from(script.to_vec());
    bitcoin::Address::from_script(&script, network).ok().map(|a| a.to_string())
}

impl Chain {
    /// The chain that a name designates.
    pub fn parse(s: &str) -> (r: Result<Chain, UnknownChain>)
        ensures
            r matches Ok(c) ==> chain_of_name(s@) == Some(c),
            r matches Err(e) ==> chain_of_name(s@) is None && e.name@ == s@,
    {
        if str_eq(s, "mainnet") || str_eq(s, "main") {
            Ok(Chain::Mainnet)
        } else if str_eq(s, "testnet") || str_eq(s, "test") {
            Ok(Chain::Testnet)
        } else if str_eq(s, "signet") {
            Ok(Chain::Signet)
        } else if str_eq(s, "regtest") {
            Ok(Chain::Regtest)
        } else {
            Err(UnknownChain { name: String::from_str(s) })
        }
    }

    /// The address network of the chain.
    pub fn network(self) -> (r: Network)
        ensures
            r == network_of(self),
    {
        match self {
            Chain::Mainnet => Network::Bitcoin,
            Chain::Testnet => Network::Testnet,
            Chain::Signet => Network::Signet,
            Chain::Regtest => Network::Regtest,
        }
    }

    /// The port of the node's RPC interface.
    pub fn default_rpc_port(self) -> (r: u16)
        ensures
            r == match self {
                Chain::Mainnet => 20760u16,
                Chain::Regtest => 18332u16,
                Chain::Signet => 38332u16,
                Chain::Testnet => 20761u16,
            },
    {
        match self {
            Chain::Mainnet => 20760,
            Chain::Regtest => 18332,
            Chain::Signet => 38332,
            Chain::Testnet => 20761,
        }
    }

    /// The postage of a new inscription, in satoshis.
    pub fn default_postage_sats(self) -> (r: u64)
        ensures
            r == 100_000,
    {
        100_000
    }

    /// The largest inscription content the chain accepts, if it limits it.
    pub fn inscription_content_size_limit(self) -> (r: Option<usize>)
        ensures
            r == match self {
                Chain::Signet => Some(1024usize),
                _ => None,
            },
    {
        match self {
            Chain::Mainnet | Chain::Regtest => None,
            Chain::Testnet => None,
            Chain::Signet => Some(1024),
        }
    }

    /// The first height that can hold an inscription.
    pub fn first_inscription_height(self) -> (r: u32)
        ensures
            r == match self {
                Chain::Mainnet => 1u32,
                _ => 0u32,
            },
    {
        match self {
            Chain::Mainnet => 1,
            Chain::Regtest => 0,
            Chain::Signet => 0,
            Chain::Testnet => 0,
        }
    }

    /// The subdirectory of the data directory that holds the chain's data
    /// (`None`: the data directory itself).
    pub fn data_subdir(self) -> (r: Option<String>)
        ensures
            opt_view(r) == match self {
                Chain::Mainnet => None,
                Chain::Testnet => Some("testnet3"@),
                Chain::Signet => Some("signet"@),
                Chain::Regtest => Some("regtest"@),
            },
    {
        match self {
            Chain::Mainnet => None,
            Chain::Testnet => Some(String::from_str("testnet3")),
            Chain::Signet => Some(String::from_str("signet")),
            Chain::Regtest => Some(String::from_str("regtest")),
        }
    }

    /// The name of the chain.
    pub fn name(self) -> (r: String)
        ensures
            r@ == match self {
                Chain::Mainnet => "mainnet"@,
                Chain::Regtest => "regtest"@,
                Chain::Signet => "signet"@,
                Chain::Testnet => "testnet"@,
            },
    {
        match self {
            Chain::Mainnet => String::from_str("mainnet"),
            Chain::Regtest => String::from_str("regtest"),
            Chain::Signet => String::from_str("signet"),
            Chain::Testnet => String::from_str("testnet"),
        }
    }

    /// The address that an output script pays to on this chain.
    pub fn address_from_script(self, script: &[u8]) -> (r: Option<String>)
        ensures
            opt_view(r) == script_address_of(script@, network_of(self)),
    {
        script_address(script, self.network())
    }
}

/// The address that an output script pays to, on a network.
pub fn address_for_network(script: &[u8], network: Network) -> (r: Option<String>)
    ensures
        opt_view(r) == script_address_of(script@, network),
{
    script_address(script, network)
}

/// A chain read back from its name is the chain.
pub proof fn lemma_chain_name_roundtrip(c: Chain)
    ensures
        chain_of_name(
            match c {
                Chain::Mainnet => "mainnet"@,
                Chain::Regtest => "regtest"@,
                Chain::Signet => "signet"@,
                Chain::Testnet => "testnet"@,
            },
        ) == Some(c),
{
    reveal_strlit("mainnet");
    reveal_strlit("main");
    reveal_strlit("testnet");
    reveal_strlit("test");
    reveal_strlit("signet");
    reveal_strlit("regtest");
    assert("mainnet"@[0] != "testnet"@[0] && "mainnet"@[0] != "regtest"@[0]);
    assert("testnet"@[0] != "regtest"@[0]);
    assert("main"@.len() != "testnet"@.len() && "main"@.len() != "regtest"@.len());
    assert("test"@.len() != "regtest"@.len() && "signet"@.len() != "regtest"@.len());
    assert("mainnet"@.len() != "test"@.len() && "mainnet"@.len() != "signet"@.len());
    assert("testnet"@.len() != "signet"@.len() && "testnet"@.len() != "main"@.len());
    assert("signet"@.len() != "main"@.len() && "signet"@.len() != "test"@.len());
}

} // verus!

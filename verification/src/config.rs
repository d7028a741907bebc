//! Simulation settings: the network generators.

use vstd::prelude::*;

use crate::text::{chars_of, is_word, lemma_normalized_plain, normalize, normalized};

verus! {

/// The generator of the synthetic directed social network.
#[derive(Debug, Clone, Copy, PartialEq, Eq, Structural)]
pub enum NetworkKind {
    /// Erdős–Rényi directed G(n, p).
    ErdosRenyi,
    /// Watts–Strogatz small world, generated undirected and then directed.
    WattsStrogatz,
    /// Barabási–Albert, directed (preferential attachment by in-degree).
    BarabasiAlbert,
}

impl NetworkKind {
    pub open spec fn spec_label(self) -> Seq<char> {
        match self {
            NetworkKind::ErdosRenyi => "er"@,
            NetworkKind::WattsStrogatz => "ws"@,
            NetworkKind::BarabasiAlbert => "ba"@,
        }
    }

    /// Short label (command line, output).
    pub fn label(&self) -> (r: &'static str)
        ensures
            r@ == self.spec_label(),
    {
        match self {
            NetworkKind::ErdosRenyi => "er",
            NetworkKind::WattsStrogatz => "ws",
            NetworkKind::BarabasiAlbert => "ba",
        }
    }
}

/// The network kind a name denotes (trimmed, ASCII case ignored).
pub open spec fn network_of(s: Seq<char>) -> Option<NetworkKind> {
    let w = normalized(s);
    if w == "er"@ || w == "erdos_renyi"@ || w == "erdos-renyi"@ {
        Some(NetworkKind::ErdosRenyi)
    } else if w == "ws"@ || w == "watts_strogatz"@ || w == "watts-strogatz"@ {
        Some(NetworkKind::WattsStrogatz)
    } else if w == "ba"@ || w == "barabasi_albert"@ || w == "barabasi-albert"@ {
        Some(NetworkKind::BarabasiAlbert)
    } else {
        None
    }
}

/// The message for a name that is no network kind.
pub open spec fn network_error(s: Seq<char>) -> Seq<char> {
    "不正なネットワーク種別: \""@ + s + "\" (er / ws / ba)"@
}

/// Parses a [`NetworkKind`] from its name; an unknown name is an error that
/// quotes it.
pub fn parse_network(s: &str) -> (r: Result<NetworkKind, String>)
    ensures
        match r {
            Ok(k) => network_of(s@) == Some(k),
            Err(e) => network_of(s@) is None && e@ == network_error(s@),
        },
{
    let w = normalize(&chars_of(s));
    if is_word(&w, "er") || is_word(&w, "erdos_renyi") || is_word(&w, "erdos-renyi") {
        Ok(NetworkKind::ErdosRenyi)
    } else if is_word(&w, "ws") || is_word(&w, "watts_strogatz") || is_word(&w, "watts-strogatz") {
        Ok(NetworkKind::WattsStrogatz)
    } else if is_word(&w, "ba") || is_word(&w, "barabasi_albert") || is_word(
        &w,
        "barabasi-albert",
    ) {
        Ok(NetworkKind::BarabasiAlbert)
    } else {
        let mut e = String::from_str("不正なネットワーク種別: \"");
        e.append(s);
        e.append("\" (er / ws / ba)");
        Err(e)
    }
}

/// Parsing the label of a network kind gives that kind back.
pub proof fn lemma_network_label_roundtrip(k: NetworkKind)
    ensures
        network_of(k.spec_label()) == Some(k),
{
    reveal_strlit("er");
    reveal_strlit("ws");
    reveal_strlit("ba");
    reveal_strlit("erdos_renyi");
    reveal_strlit("erdos-renyi");
    reveal_strlit("watts_strogatz");
    reveal_strlit("watts-strogatz");
    lemma_normalized_plain(k.spec_label());
}

} // verus!

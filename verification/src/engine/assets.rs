use vstd::prelude::*;
use vstd::string::StrSliceExecFns;

verus! {

/// Assets known to the venue.
#[derive(Eq, Debug, Clone, Copy)]
pub enum Asset {
    USD,
    EUR,
    BTC,
    ETH,
    OTN,
}

impl PartialEq for Asset {
    fn eq(&self, other: &Asset) -> (same: bool) {
        match (*self, *other) {
            (Asset::USD, Asset::USD) => true,
            (Asset::EUR, Asset::EUR) => true,
            (Asset::BTC, Asset::BTC) => true,
            (Asset::ETH, Asset::ETH) => true,
            (Asset::OTN, Asset::OTN) => true,
            _ => false,
        }
    }
}

impl vstd::std_specs::cmp::PartialEqSpecImpl for Asset {
    open spec fn obeys_eq_spec() -> bool {
        true
    }

    open spec fn eq_spec(&self, other: &Asset) -> bool {
        *self == *other
    }
}

/// A pair of assets, the first traded against the second.
pub struct TradePair {
    pub from: Asset,
    pub to: Asset,
}

/// The asset that a ticker symbol names, if any.
pub open spec fn asset_named(symbol: Seq<char>) -> Option<Asset> {
    if symbol == seq!['U', 'S', 'D'] {
        Some(Asset::USD)
    } else if symbol == seq!['E', 'U', 'R'] {
        Some(Asset::EUR)
    } else if symbol == seq!['B', 'T', 'C'] {
        Some(Asset::BTC)
    } else if symbol == seq!['E', 'T', 'H'] {
        Some(Asset::ETH)
    } else if symbol == seq!['O', 'T', 'N'] {
        Some(Asset::OTN)
    } else {
        None
    }
}

/// Whether `from` can be traded against `to`: anything against USD, EUR or
/// BTC, and BTC against anything.
pub open spec fn tradable(from: Asset, to: Asset) -> bool {
    to == Asset::USD || to == Asset::EUR || to == Asset::BTC || from == Asset::BTC
}

/// Reads an upper-case three-letter ticker symbol.
pub fn parse_asset(asset: &str) -> (parsed: Option<Asset>)
    ensures
        parsed == asset_named(asset@),
{
    if asset.unicode_len() != 3 {
        return None;
    }
    let a: char = asset.get_char(0);
    let b: char = asset.get_char(1);
    let c: char = asset.get_char(2);
    assert(asset@ =~= seq![a, b, c]);
    if a == 'U' && b == 'S' && c == 'D' {
        Some(Asset::USD)
    } else if a == 'E' && b == 'U' && c == 'R' {
        Some(Asset::EUR)
    } else if a == 'B' && b == 'T' && c == 'C' {
        Some(Asset::BTC)
    } else if a == 'E' && b == 'T' && c == 'H' {
        Some(Asset::ETH)
    } else if a == 'O' && b == 'T' && c == 'N' {
        Some(Asset::OTN)
    } else {
        assert(seq![a, b, c][0] == a && seq![a, b, c][1] == b && seq![a, b, c][2] == c);
        None
    }
}

/// Decides whether `asset_from` can be traded against `asset_to`.
pub fn can_trade(asset_from: &Asset, asset_to: &Asset) -> (allowed: bool)
    ensures
        allowed == tradable(*asset_from, *asset_to),
{
    match (asset_from, asset_to) {
        (_, Asset::USD) => true,
        (_, Asset::EUR) => true,
        (_, Asset::BTC) => true,
        (Asset::BTC, Asset::ETH) => true,
        (Asset::BTC, Asset::OTN) => true,
        _ => false,
    }
}

} // verus!

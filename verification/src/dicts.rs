//! The fixed lookup dictionaries of the ad-impressions dataset: geo ids with
//! their country codes, and publisher ids with their categories.

use vstd::prelude::*;

use crate::timestamp::{dec, push_decimal};

verus! {

/// The country code of geo id `i`: five named countries first, then `CN_<i>`.
pub open spec fn country_code(i: nat) -> Seq<char> {
    if i == 0 {
        "RU"@
    } else if i == 1 {
        "US"@
    } else if i == 2 {
        "DE"@
    } else if i == 3 {
        "FR"@
    } else if i == 4 {
        "GB"@
    } else {
        "CN_"@ + dec(i)
    }
}

/// The geo dictionary: geo ids `0..200`, each with its country code.
pub fn geo_dictionary() -> (v: Vec<(i32, String)>)
    ensures
        v@.len() == 200,
        forall|i: int| 0 <= i < 200 ==> (#[trigger] v@[i]).0 == i && v@[i].1@ == country_code(i as nat),
{
    let mut v: Vec<(i32, String)> = Vec::new();
    let mut i: i32 = 0;
    while i < 200
        invariant
            0 <= i <= 200,
            v@.len() == i,
            forall|j: int| 0 <= j < i ==> (#[trigger] v@[j]).0 == j && v@[j].1@ == country_code(j as nat),
        decreases 200 - i,
    {
        let code = if i == 0 {
            String::from_str("RU")
        } else if i == 1 {
            String::from_str("US")
        } else if i == 2 {
            String::from_str("DE")
        } else if i == 3 {
            String::from_str("FR")
        } else if i == 4 {
            String::from_str("GB")
        } else {
            let mut c = String::from_str("CN_");
            push_decimal(&mut c, i as u64);
            c
        };
        v.push((i, code));
        i = i + 1;
    }
    v
}

/// The publisher id at position `i` of the publisher dictionary: two large
/// publishers, then `pub_small_0` to `pub_small_999`.
pub open spec fn publisher_id(i: nat) -> Seq<char> {
    if i == 0 {
        "pub_huge_whale"@
    } else if i == 1 {
        "pub_medium_fish"@
    } else {
        "pub_small_"@ + dec((i - 2) as nat)
    }
}

/// The category of the publisher at position `i`: `premium` and `standard`
/// for the two large ones, then by position modulo 3 `economy`, `standard`
/// or `unverified`.
pub open spec fn publisher_category(i: nat) -> Seq<char> {
    if i == 0 {
        "premium"@
    } else if i == 1 {
        "standard"@
    } else if i % 3 == 0 {
        "economy"@
    } else if i % 3 == 1 {
        "standard"@
    } else {
        "unverified"@
    }
}

/// The publisher dictionary: 1002 publisher ids, each with its category.
pub fn publisher_categories() -> (v: Vec<(String, String)>)
    ensures
        v@.len() == 1002,
        forall|i: int|
            0 <= i < 1002 ==> (#[trigger] v@[i]).0@ == publisher_id(i as nat) && v@[i].1@
                == publisher_category(i as nat),
{
    let mut v: Vec<(String, String)> = Vec::new();
    let mut i: usize = 0;
    while i < 1002
        invariant
            0 <= i <= 1002,
            v@.len() == i,
            forall|j: int|
                0 <= j < i ==> (#[trigger] v@[j]).0@ == publisher_id(j as nat) && v@[j].1@
                    == publisher_category(j as nat),
        decreases 1002 - i,
    {
        let id = if i == 0 {
            String::from_str("pub_huge_whale")
        } else if i == 1 {
            String::from_str("pub_medium_fish")
        } else {
            let mut s = String::from_str("pub_small_");
            push_decimal(&mut s, (i - 2) as u64);
            s
        };
        let category = if i == 0 {
            String::from_str("premium")
        } else if i == 1 {
            String::from_str("standard")
        } else if i % 3 == 0 {
            String::from_str("economy")
        } else if i % 3 == 1 {
            String::from_str("standard")
        } else {
            String::from_str("unverified")
        };
        v.push((id, category));
        i = i + 1;
    }
    v
}

} // verus!

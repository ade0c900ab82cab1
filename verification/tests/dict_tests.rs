use generator::dicts::{geo_dictionary, publisher_categories};

fn s(x: &str) -> String {
    x.to_string()
}

#[test]
fn geo_dictionary_names_five_countries_then_numbered_ones() {
    let g = geo_dictionary();
    assert_eq!(g.len(), 200);
    assert_eq!(g[0], (0, s("RU")));
    assert_eq!(g[1], (1, s("US")));
    assert_eq!(g[4], (4, s("GB")));
    assert_eq!(g[5], (5, s("CN_5")));
    assert_eq!(g[199], (199, s("CN_199")));
}

#[test]
fn publisher_categories_follow_position() {
    let p = publisher_categories();
    assert_eq!(p.len(), 1002);
    assert_eq!(p[0], (s("pub_huge_whale"), s("premium")));
    assert_eq!(p[1], (s("pub_medium_fish"), s("standard")));
    assert_eq!(p[2], (s("pub_small_0"), s("unverified")));
    assert_eq!(p[3], (s("pub_small_1"), s("economy")));
    assert_eq!(p[4], (s("pub_small_2"), s("standard")));
    assert_eq!(p[1001], (s("pub_small_999"), s("unverified")));
}

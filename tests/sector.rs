use stock_exchange::models::Stock;
use stock_exchange::sector::{
    co_move, co_move_price, price_of, sector_direction, sector_mean, SectorMean, SectorTracker,
};

fn pairs() -> Vec<(String, String)> {
    vec![
        ("X".to_string(), "Tech".to_string()),
        ("Y".to_string(), "Tech".to_string()),
        ("W".to_string(), "Finance".to_string()),
        ("Z".to_string(), "Tech".to_string()),
    ]
}

fn stocks(x: u64, y: u64, z: u64, w: u64) -> Vec<Stock> {
    vec![
        Stock { symbol: "X".to_string(), price: x },
        Stock { symbol: "Y".to_string(), price: y },
        Stock { symbol: "Z".to_string(), price: z },
        Stock { symbol: "W".to_string(), price: w },
    ]
}

#[test]
fn sector_co_movement_up() {
    let p = pairs();
    let mut t = SectorTracker::new(&p);
    assert_eq!(t.sectors, vec!["Tech".to_string(), "Finance".to_string()]);
    // The first pass only records the means.
    assert!(t.step(&p, &stocks(1_000_000, 1_000_000, 1_000_000, 1_000_000)).is_empty());
    // X rose by 1 %, so the Tech mean rose by a third of a percent.
    let before = stocks(1_010_000, 1_000_000, 1_000_000, 1_000_000);
    let ups = t.step(&p, &before);
    let mut syms: Vec<&str> = ups.iter().map(|s| s.symbol.as_str()).collect();
    syms.sort();
    assert_eq!(syms, vec!["X", "Y", "Z"]);
    for s in &ups {
        let old = price_of(&before, &s.symbol).unwrap();
        assert!(s.price >= old && s.price <= old + old / 10, "{} {} {}", s.symbol, old, s.price);
    }
    // Nothing moved since: no update.
    assert!(t.step(&p, &before).is_empty());
}

#[test]
fn sector_co_movement_down() {
    let p = pairs();
    let mut t = SectorTracker::new(&p);
    t.step(&p, &stocks(1_000_000, 1_000_000, 1_000_000, 1_000_000));
    let before = stocks(1_000_000, 1_000_000, 1_000_000, 990_000);
    let ups = t.step(&p, &before);
    assert_eq!(ups.len(), 1);
    assert_eq!(ups[0].symbol, "W");
    assert!(ups[0].price >= 891_000 && ups[0].price <= 990_000);
}

#[test]
fn sector_means_and_threshold() {
    let p = pairs();
    let s = stocks(1_000_000, 2_000_000, 3_000_000, 5);
    let m = sector_mean(&p, &s, &"Tech".to_string());
    assert_eq!((m.sum, m.count), (6_000_000, 3));
    let f = sector_mean(&p, &s, &"Finance".to_string());
    assert_eq!((f.sum, f.count), (5, 1));
    let e = sector_mean(&p, &s, &"Energy".to_string());
    assert_eq!((e.sum, e.count), (0, 0));
    // A symbol without a quote is left out.
    let partial = vec![Stock { symbol: "Y".to_string(), price: 7 }];
    let q = sector_mean(&p, &partial, &"Tech".to_string());
    assert_eq!((q.sum, q.count), (7, 1));

    let old = SectorMean { sum: 3_000_000, count: 3 };
    // 0.0233 % is below the threshold.
    assert_eq!(sector_direction(&old, &SectorMean { sum: 3_000_700, count: 3 }), None);
    // 0.0267 % is above it.
    assert_eq!(sector_direction(&old, &SectorMean { sum: 3_000_800, count: 3 }), Some(true));
    assert_eq!(sector_direction(&old, &SectorMean { sum: 2_999_200, count: 3 }), Some(false));
    assert_eq!(sector_direction(&old, &SectorMean { sum: 0, count: 0 }), None);
    // The mean, not the sum, decides: same mean over more symbols.
    assert_eq!(sector_direction(&old, &SectorMean { sum: 4_000_000, count: 4 }), None);
}

#[test]
fn co_move_factor_scales_price() {
    assert_eq!(co_move_price(1_000_000, 1_000_000), Some(1_000_000));
    assert_eq!(co_move_price(1_000_000, 1_099_999), Some(1_099_999));
    assert_eq!(co_move_price(1_234_567, 900_000), Some(1_111_110));
    assert_eq!(co_move_price(1, 900_000), Some(1));
    assert_eq!(price_of(&stocks(1, 2, 3, 4), &"Z".to_string()), Some(3));
    assert_eq!(price_of(&stocks(1, 2, 3, 4), &"Q".to_string()), None);
}

#[test]
fn co_move_draws_a_factor_in_range() {
    let ups: Vec<u64> = (0..20).map(|_| co_move(1_000_000, true).unwrap()).collect();
    assert!(ups.iter().all(|p| (1_000_000..1_100_000).contains(p)));
    assert!(ups.iter().any(|p| *p != 1_000_000));
    let downs: Vec<u64> = (0..20).map(|_| co_move(1_000_000, false).unwrap()).collect();
    assert!(downs.iter().all(|p| (900_000..1_000_000).contains(p)));
    assert!(downs.iter().any(|p| *p != 900_000));
}

#[test]
fn each_symbol_moves_once_per_pass() {
    let p = vec![
        ("X".to_string(), "Tech".to_string()),
        ("X".to_string(), "Tech".to_string()),
        ("Y".to_string(), "Tech".to_string()),
    ];
    let mut t = SectorTracker::new(&p);
    let base = vec![
        Stock { symbol: "X".to_string(), price: 10_000_000_000_000 },
        Stock { symbol: "Y".to_string(), price: 1_000_000 },
    ];
    t.step(&p, &base);
    let risen = vec![
        Stock { symbol: "X".to_string(), price: 10_100_000_000_000 },
        Stock { symbol: "Y".to_string(), price: 1_000_000 },
    ];
    let ups = t.step(&p, &risen);
    let mut syms: Vec<&str> = ups.iter().map(|s| s.symbol.as_str()).collect();
    syms.sort();
    assert_eq!(syms, vec!["X", "Y"]);
    // Prices far above 100,000,000 move too.
    let x = ups.iter().find(|s| s.symbol == "X").unwrap();
    assert!(x.price >= 10_100_000_000_000 && x.price <= 11_110_000_000_000);
}

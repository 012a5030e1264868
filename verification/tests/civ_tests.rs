use quipcat::leaders::{draw_leaders, Leader};
use quipcat::modes::{game_modes, draw_modes, GAME_MODE_COUNT};

/// A pool of `n` rows, every name and every civilization unique.
fn unique_pool(n: usize) -> Vec<Leader> {
    let mut pool = Vec::new();
    for i in 0..n {
        pool.push(Leader { name: format!("Leader {}", i), civ: format!("Civ {}", i) });
    }
    pool
}

#[test]
fn test_draw_leaders() {
    for n in 1..50 {
        let leaders = draw_leaders(unique_pool(55), n);
        assert_eq!(leaders.len(), n);
    }
}

#[test]
fn test_draw_modes() {
    let mut t: f64 = 0.0;
    for _ in 0..1000 {
        let modes = draw_modes(None, None);
        t += modes.len() as f64;
    }
    // The draw size is uniform over [0, 8), so the average length
    // should be close to 3.5 over 1000 trials.
    let avg = t / 1000.0;
    assert!((avg - 3.5).abs() < 0.1);
}

#[test]
fn test_draw_modes_exclude() {
    let all = game_modes();
    assert!(all.contains(&"Apocalpyse"));
    assert!(all.contains(&"Monopolies and Corporations"));

    let exclude: [usize; 2] = [1, 5];
    let mut t: f64 = 0.0;
    for _ in 0..1000 {
        let modes = draw_modes(None, Some(&exclude));
        assert!(!modes.contains(&"Apocalpyse"));
        assert!(!modes.contains(&"Monopolies and Corporations"));
        t += modes.len() as f64;
    }
    // Six labels stay eligible, so the average length should be close
    // to 2.5 over 1000 trials.
    let avg = t / 1000.0;
    assert!((avg - 2.5).abs() < 0.1);
}

#[test]
fn test_draw_leaders_n() {
    for n in 0..game_modes().len() {
        let modes = draw_modes(Some(n), None);
        assert_eq!(n, modes.len());
    }
}

#[test]
fn test_draw_leaders_n_and_exclude() {
    let all = game_modes();
    assert!(all.contains(&"Dramatic Ages"));
    assert!(all.contains(&"Zombie Defense"));
    let exclude: [usize; 2] = [3, 8];
    for _ in 0..1000 {
        for n in 0..(game_modes().len() - exclude.len()) {
            let modes = draw_modes(Some(n), Some(&exclude));
            assert_eq!(n, modes.len());

            assert!(!modes.contains(&"Dramatic Ages"));
            assert!(!modes.contains(&"Zombie Defense"));
        }
    }
}

#[test]
fn test_mode_enumeration() {
    let all = game_modes();
    assert_eq!(all.len(), GAME_MODE_COUNT);
    assert_eq!(all.len(), 8);
    assert_eq!(all[0], "Apocalpyse");
    assert_eq!(all[7], "Zombie Defense");
}

#[test]
fn test_three_modes_with_exclusions() {
    // Eight labels, the 1st and 5th struck out: a draw of three must
    // come from the remaining six.
    let all = game_modes();
    let exclude: [usize; 2] = [1, 5];
    for _ in 0..200 {
        let modes = draw_modes(Some(3), Some(&exclude));
        assert_eq!(modes.len(), 3);
        assert!(!modes.contains(&all[0]));
        assert!(!modes.contains(&all[4]));
        for m in &modes {
            assert!(all.contains(m));
        }
    }
}

#[test]
fn test_draft_four_from_ten() {
    // Ten unique-name/unique-affiliation rows: a draft of four yields
    // four rows, all names distinct, all affiliations distinct.
    for _ in 0..100 {
        let drawn = draw_leaders(unique_pool(10), 4);
        assert_eq!(drawn.len(), 4);
        for i in 0..drawn.len() {
            for j in 0..drawn.len() {
                if i != j {
                    assert_ne!(drawn[i].name, drawn[j].name);
                    assert_ne!(drawn[i].civ, drawn[j].civ);
                }
            }
        }
    }
}

#[test]
fn test_draft_never_repeats_on_clashing_pool() {
    // A pool full of clashes: whatever the shuffle does, no two drawn
    // rows may share a name or a civilization.
    for _ in 0..100 {
        let pool = vec![
            Leader { name: String::from("Amina"), civ: String::from("Songhai") },
            Leader { name: String::from("Amina"), civ: String::from("Zazzau") },
            Leader { name: String::from("Teddy"), civ: String::from("Zazzau") },
            Leader { name: String::from("Teddy"), civ: String::from("America") },
            Leader { name: String::from("Lincoln"), civ: String::from("America") },
        ];
        let drawn = draw_leaders(pool, 5);
        assert!(drawn.len() <= 5);
        for i in 0..drawn.len() {
            for j in 0..drawn.len() {
                if i != j {
                    assert_ne!(drawn[i].name, drawn[j].name);
                    assert_ne!(drawn[i].civ, drawn[j].civ);
                }
            }
        }
    }
}

#[test]
fn test_draft_truncates_on_small_pool() {
    // Fewer eligible rows than requested: the draft returns what it
    // can rather than failing.
    let drawn = draw_leaders(unique_pool(3), 10);
    assert_eq!(drawn.len(), 3);
}

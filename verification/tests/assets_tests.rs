use pate2crabe::assets::Assets;
use pate2crabe::player::PlayerState;
use pate2crabe::rewards::Reward;
use pate2crabe::maze::CellIndex;

#[test]
fn lookup_finds_what_was_registered() {
    let mut assets: Assets<u32> = Assets::new(String::from("assets"));
    assert!(!assets.contains_key("/game/grass.png"));
    assets.insert(String::from("/game/grass.png"), 7);
    assets.insert(String::from("/game/wall_crss_all.png"), 9);
    assert!(assets.contains_key("/game/grass.png"));
    assert!(assets.contains_key("/game/wall_crss_all.png"));
    assert!(!assets.contains_key("/game/missing.png"));
    assert_eq!(*assets.get("/game/grass.png"), 7);
    assert_eq!(*assets.get("/game/wall_crss_all.png"), 9);
}

#[test]
fn later_registration_shadows_earlier() {
    let mut assets: Assets<&str> = Assets::new(String::from("assets"));
    assets.insert(String::from("icon"), "old");
    assets.insert(String::from("icon"), "new");
    assert_eq!(*assets.get("icon"), "new");
}

#[test]
fn player_state_dead_check() {
    assert!(PlayerState::Dead.is_dead());
    assert!(!PlayerState::Idle.is_dead());
    assert!(!PlayerState::Run.is_dead());
    assert!(!PlayerState::Hurt.is_dead());
}

#[test]
fn reward_found_flag_flips_once() {
    let mut r = Reward::new(CellIndex::new(3, 5), true);
    assert!(!r.found);
    assert!(r.malus);
    assert_eq!(*r.pos(), CellIndex::new(3, 5));
    r.mark_found();
    assert!(r.found);
    let snapshot = r;
    r.mark_found();
    assert_eq!(r, snapshot);
    assert_eq!(*r.pos(), CellIndex::new(3, 5));
    assert!(r.malus);
}

use lipi::random::{lcg_step, seed_state, uuid_text};

#[test]
fn random_lcg_steps() {
    assert_eq!(lcg_step(0), 1442695040888963407);
    assert_eq!(lcg_step(1), 7806831264735756412);
    assert_eq!(lcg_step(u64::MAX), 1442695040888963407u64.wrapping_sub(6364136223846793005));
}

#[test]
fn random_seeding() {
    assert_eq!(seed_state(41), 42);
    assert_eq!(seed_state(u64::MAX), 0);
}

#[test]
fn random_uuid_text() {
    assert_eq!(uuid_text(0, 0), "00000000-0000-4000-8000-000000000000");
    assert_eq!(uuid_text(u64::MAX, u64::MAX), "ffffffff-ffff-4fff-bfff-ffffffffffff");
    assert_eq!(uuid_text(0x0123456789abcdef, 0), "efcdab89-6745-4301-8000-000000000000");
}
